//! Shadows in the store: how a stored shadow changes under an update.

use vstd::prelude::*;
use vstd::string::StringExecFns;
use crate::db::{DatabaseError, DB};
use crate::json::{Json, JsonValue};
use crate::models::{ShadowName, TenantId};
use crate::shadow::{
    identity_error, shadow_from, Shadow, ShadowError, ShadowValue, StateUpdateDocument,
};

verus! {

/// The shadow that an update meets: the one that the stored document stands
/// for, or a fresh one for the device of the update when nothing is stored;
/// `None` when the stored document is not that of a shadow.
pub open spec fn shadow_before(existing: Option<JsonValue>, update: &StateUpdateDocument) -> Option<
    ShadowValue,
> {
    match existing {
        Some(doc) => shadow_from(doc),
        None => Some(
            ShadowValue {
                device_id: update.device_id@,
                shadow_name: update.shadow_name@,
                tenant_id: update.tenant_id@,
                reported: JsonValue::Null,
                desired: JsonValue::Null,
                delta: JsonValue::Null,
                reported_metadata: JsonValue::Null,
                desired_metadata: JsonValue::Null,
                version: 0,
            },
        ),
    }
}

/// Whether an update can be applied to a shadow: both are well-formed and
/// the version can still grow.
pub open spec fn can_update(shadow: ShadowValue, update: &StateUpdateDocument) -> bool {
    &&& shadow.wf()
    &&& update.state.reported@.wf()
    &&& update.state.desired@.wf()
    &&& shadow.version < u64::MAX
}

impl DB {
    /// The shadow after `update` has been applied at time `ts` to what is
    /// stored: the shadow to store and to hand back.
    ///
    /// Fails when the stored document is not that of a shadow
    /// (`ShadowSerializationError`), when the stored shadow or the update is
    /// not well-formed or the version cannot grow (`DatabaseValueError`), and
    /// when the update is addressed to another shadow (`ShadowError`).
    pub fn _upsert_shadow(existing: Option<&Json>, update: &StateUpdateDocument, ts: u64) -> (r:
        Result<Shadow, DatabaseError>)
        ensures
            ({
                let before = shadow_before(
                    match existing {
                        Some(doc) => Some(doc@),
                        None => None,
                    },
                    update,
                );
                match r {
                    Ok(shadow) => {
                        &&& before matches Some(b)
                        &&& can_update(b, update)
                        &&& identity_error(b, update) is None
                        &&& shadow@ == b.updated(update.state.reported@, update.state.desired@, ts)
                        &&& shadow@.wf()
                    },
                    Err(DatabaseError::ShadowSerializationError(_)) => before is None,
                    Err(DatabaseError::DatabaseValueError(_)) => before matches Some(b)
                        && !can_update(b, update),
                    Err(DatabaseError::ShadowError(e)) => before matches Some(b) && can_update(
                        b,
                        update,
                    ) && identity_error(b, update) == Some(e),
                    Err(_) => false,
                }
            }),
    {
        let mut shadow = match existing {
            Some(doc) => match Shadow::from_value(doc) {
                Ok(s) => s,
                Err(e) => {
                    return Err(DatabaseError::ShadowSerializationError(e));
                },
            },
            None => Shadow::new(update.device_id.as_str(), &update.shadow_name, &update.tenant_id),
        };
        if !shadow.is_well_formed() || !update.state.reported.is_well_formed()
            || !update.state.desired.is_well_formed() || shadow.get_version() == u64::MAX {
            return Err(
                DatabaseError::DatabaseValueError("Shadow or update is not well-formed".to_owned()),
            );
        }
        match shadow.update_at(update, ts) {
            Ok(()) => Ok(shadow),
            Err(e) => Err(DatabaseError::ShadowError(e)),
        }
    }

    /// The shadow that is stored for a device, from the stored document.
    pub fn _get_shadow(
        existing: Option<&Json>,
        device_id: &str,
        shadow_name: &ShadowName,
        tenant_id: &TenantId,
    ) -> (r: Result<Shadow, DatabaseError>)
        ensures
            match r {
                Ok(shadow) => existing matches Some(doc) && shadow_from(doc@) == Some(shadow@),
                Err(DatabaseError::NotFoundError(m)) => existing is None && m@
                    == "Shadow not found for device = "@ + device_id@ + " name = "@
                    + shadow_name@.text() + " tenant = "@ + tenant_id@.text(),
                Err(DatabaseError::ShadowSerializationError(_)) => existing matches Some(doc)
                    && shadow_from(doc@) is None,
                Err(_) => false,
            },
    {
        match existing {
            Some(doc) => match Shadow::from_value(doc) {
                Ok(s) => Ok(s),
                Err(e) => Err(DatabaseError::ShadowSerializationError(e)),
            },
            None => {
                let message = "Shadow not found for device = ".to_owned().concat(device_id).concat(
                    " name = ",
                ).concat(shadow_name.as_str()).concat(" tenant = ").concat(tenant_id.as_str());
                Err(DatabaseError::NotFoundError(message))
            },
        }
    }
}

} // verus!
