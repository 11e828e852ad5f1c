//! Device shadows: the last reported and the last desired state of a device,
//! what the desired state asks for beyond the reported one, and the time at
//! which each leaf was last written.

use vstd::prelude::*;
use vstd::string::StringExecFns;
use crate::clock::unix_now;
use crate::json::{
    count_member, lemma_object_view, members_of, push_member, text_member, Json, JsonNumber,
    JsonValue,
};
use crate::merge::{
    at_path, is_leaf, is_timestamp, lemma_delta_is_null_or_nonempty, lemma_stamped_at_path, lemma_null_deletes_path, delta_json, delta_of, is_stamped, lemma_merge_keeps_stamped, merge_defined, merge_json,
    merge_value, promoted, stamped,
};
use crate::models::{name_of, DefaultString, NameValue, ShadowName, TenantId};

verus! {

/// Why an update was not applied to a shadow.
#[derive(Debug, Clone, Copy, PartialEq, Eq, Structural)]
pub enum ShadowError {
    DeviceIdMismatch,
    ShadowNameMismatch,
    TenantIdMismatch,
}

impl ShadowError {
    /// The description of the error.
    pub open spec fn to_string_spec(self) -> Seq<char> {
        match self {
            ShadowError::DeviceIdMismatch => "DeviceId mismatch"@,
            ShadowError::ShadowNameMismatch => "ShadowName mismatch"@,
            ShadowError::TenantIdMismatch => "TenantId mismatch"@,
        }
    }

    /// A description of the error.
    pub fn to_string(&self) -> (r: String)
        ensures
            r@ == self.to_string_spec(),
    {
        match self {
            ShadowError::DeviceIdMismatch => "DeviceId mismatch".to_owned(),
            ShadowError::ShadowNameMismatch => "ShadowName mismatch".to_owned(),
            ShadowError::TenantIdMismatch => "TenantId mismatch".to_owned(),
        }
    }
}

/// Why a shadow could not be read from or written to a document.
#[derive(Debug)]
pub enum ShadowSerializationError {
    /// The document is not that of a shadow; the text says what is wrong.
    JsonError(String),
}

impl ShadowSerializationError {
    /// A description of the error.
    pub fn to_string(&self) -> (r: String)
        ensures
            r@ == "JSON serialization error: "@ + self->JsonError_0@,
    {
        match self {
            ShadowSerializationError::JsonError(message) => {
                "JSON serialization error: ".to_owned().concat(message.as_str())
            },
        }
    }
}

/// The three documents of a shadow or of an update.
#[derive(Debug)]
pub struct StateDocument {
    pub reported: Json,
    pub desired: Json,
    pub delta: Json,
}

/// A state document as it arrives on the wire.
#[derive(Debug)]
pub struct NestedStateDocument {
    pub state: StateDocument,
}

/// The timestamps of the leaves of the reported and of the desired document.
#[derive(Debug)]
pub struct MetadataDocument {
    pub reported: Json,
    pub desired: Json,
}

/// An update addressed to the shadow of one device.
#[derive(Debug)]
pub struct StateUpdateDocument {
    pub device_id: String,
    pub shadow_name: ShadowName,
    pub tenant_id: TenantId,
    pub state: StateDocument,
}

/// The shadow of a device.
#[derive(Debug)]
pub struct Shadow {
    pub device_id: String,
    pub shadow_name: ShadowName,
    pub tenant_id: TenantId,
    state: StateDocument,
    metadata: MetadataDocument,
    version: u64,
}

/// One stored document and its metadata after an update part `upd` has been
/// folded in at time `ts`: the metadata becomes an object if it was null, and
/// an update part that is an object is merged into the document.
pub open spec fn fold_part(cur: JsonValue, upd: JsonValue, meta: JsonValue, ts: u64) -> (
    JsonValue,
    JsonValue,
) {
    if upd is Object {
        merge_value(cur, upd, promoted(meta), ts)
    } else {
        (cur, promoted(meta))
    }
}

/// Whether [`fold_part`] finds object-shaped metadata wherever it descends.
pub open spec fn fold_part_defined(cur: JsonValue, upd: JsonValue, meta: JsonValue, ts: u64) -> bool {
    upd is Object ==> merge_defined(cur, upd, promoted(meta), ts)
}

/// Folding an update part keeps a document and its metadata in step.
pub proof fn lemma_fold_part_keeps_stamped(cur: JsonValue, upd: JsonValue, meta: JsonValue, ts: u64)
    requires
        cur.wf(),
        meta.wf(),
        upd.wf(),
        stamped(cur, meta),
    ensures
        fold_part_defined(cur, upd, meta, ts),
        stamped(fold_part(cur, upd, meta, ts).0, fold_part(cur, upd, meta, ts).1),
        fold_part(cur, upd, meta, ts).0.wf(),
        fold_part(cur, upd, meta, ts).1.wf(),
{
    assert(promoted(meta).wf());
    assert(stamped(cur, promoted(meta)));
    if upd is Object {
        lemma_merge_keeps_stamped(cur, upd, promoted(meta), ts);
    }
}

impl StateDocument {
    /// The current time in seconds since the Unix epoch.
    fn current_timestamp() -> u64 {
        unix_now()
    }

    /// A document with all three parts null.
    pub fn empty() -> (r: StateDocument)
        ensures
            r.reported@ is Null,
            r.desired@ is Null,
            r.delta@ is Null,
    {
        StateDocument { reported: Json::Null, desired: Json::Null, delta: Json::Null }
    }

    /// Folds the reported and the desired part of `update` into this
    /// document at time `ts`, and stamps `metadata` accordingly. The delta
    /// part is left as it is.
    pub fn update_at(&mut self, update: &StateDocument, metadata: &mut MetadataDocument, ts: u64)
        requires
            fold_part_defined(old(self).reported@, update.reported@, old(metadata).reported@, ts),
            fold_part_defined(old(self).desired@, update.desired@, old(metadata).desired@, ts),
        ensures
            (final(self).reported@, final(metadata).reported@) == fold_part(
                old(self).reported@,
                update.reported@,
                old(metadata).reported@,
                ts,
            ),
            (final(self).desired@, final(metadata).desired@) == fold_part(
                old(self).desired@,
                update.desired@,
                old(metadata).desired@,
                ts,
            ),
            final(self).delta == old(self).delta,
    {
        let mut cur_r = Json::Null;
        let mut meta_r = Json::Null;
        let mut cur_d = Json::Null;
        let mut meta_d = Json::Null;
        std::mem::swap(&mut self.reported, &mut cur_r);
        std::mem::swap(&mut metadata.reported, &mut meta_r);
        std::mem::swap(&mut self.desired, &mut cur_d);
        std::mem::swap(&mut metadata.desired, &mut meta_d);
        let r = fold_json_part(cur_r, &update.reported, meta_r, ts);
        let d = fold_json_part(cur_d, &update.desired, meta_d, ts);
        self.reported = r.0;
        metadata.reported = r.1;
        self.desired = d.0;
        metadata.desired = d.1;
    }

    /// Folds `update` into this document at the current time. Whatever the
    /// clock returned, the outcome is that of [`StateDocument::update_at`]
    /// for some time.
    pub fn update(&mut self, update: &StateDocument, metadata: &mut MetadataDocument)
        requires
            forall|ts: u64|
                fold_part_defined(old(self).reported@, update.reported@, old(metadata).reported@, ts),
            forall|ts: u64|
                fold_part_defined(old(self).desired@, update.desired@, old(metadata).desired@, ts),
        ensures
            exists|ts: u64|
                {
                    &&& (final(self).reported@, final(metadata).reported@) == #[trigger] fold_part(
                        old(self).reported@,
                        update.reported@,
                        old(metadata).reported@,
                        ts,
                    )
                    &&& (final(self).desired@, final(metadata).desired@) == fold_part(
                        old(self).desired@,
                        update.desired@,
                        old(metadata).desired@,
                        ts,
                    )
                },
            final(self).delta == old(self).delta,
    {
        let ts = StateDocument::current_timestamp();
        self.update_at(update, metadata, ts);
    }
}

/// Computes [`fold_part`].
fn fold_json_part(cur: Json, upd: &Json, meta: Json, ts: u64) -> (r: (Json, Json))
    requires
        fold_part_defined(cur@, upd@, meta@, ts),
    ensures
        (r.0@, r.1@) == fold_part(cur@, upd@, meta@, ts),
{
    let meta0 = if meta.is_null() {
        let e: Vec<(String, Json)> = Vec::new();
        proof {
            crate::json::lemma_object_view(e);
            assert(crate::json::members_of(e@) =~= Seq::empty());
        }
        Json::Object(e)
    } else {
        meta
    };
    if upd.is_object() {
        merge_json(cur, upd, meta0, ts)
    } else {
        (cur, meta0)
    }
}


/// The mathematical value of a [`Shadow`].
pub struct ShadowValue {
    pub device_id: Seq<char>,
    pub shadow_name: NameValue,
    pub tenant_id: NameValue,
    pub reported: JsonValue,
    pub desired: JsonValue,
    pub delta: JsonValue,
    pub reported_metadata: JsonValue,
    pub desired_metadata: JsonValue,
    pub version: u64,
}

impl View for Shadow {
    type V = ShadowValue;

    closed spec fn view(&self) -> ShadowValue {
        ShadowValue {
            device_id: self.device_id@,
            shadow_name: self.shadow_name@,
            tenant_id: self.tenant_id@,
            reported: self.state.reported@,
            desired: self.state.desired@,
            delta: self.state.delta@,
            reported_metadata: self.metadata.reported@,
            desired_metadata: self.metadata.desired@,
            version: self.version,
        }
    }
}

impl ShadowValue {
    /// Whether the documents are well-formed and each metadata document
    /// accounts for its state document.
    pub open spec fn wf(self) -> bool {
        &&& self.reported.wf()
        &&& self.desired.wf()
        &&& self.reported_metadata.wf()
        &&& self.desired_metadata.wf()
        &&& stamped(self.reported, self.reported_metadata)
        &&& stamped(self.desired, self.desired_metadata)
    }

    /// The shadow after an update with the given reported and desired parts
    /// has been applied at time `ts`: both parts are folded in unless both are
    /// null, the delta is computed afresh and the version grows by one.
    pub open spec fn updated(self, reported: JsonValue, desired: JsonValue, ts: u64) -> ShadowValue {
        let touched = !(reported is Null && desired is Null);
        let r = if touched {
            fold_part(self.reported, reported, self.reported_metadata, ts)
        } else {
            (self.reported, self.reported_metadata)
        };
        let d = if touched {
            fold_part(self.desired, desired, self.desired_metadata, ts)
        } else {
            (self.desired, self.desired_metadata)
        };
        ShadowValue {
            device_id: self.device_id,
            shadow_name: self.shadow_name,
            tenant_id: self.tenant_id,
            reported: r.0,
            desired: d.0,
            delta: delta_of(r.0, d.0),
            reported_metadata: r.1,
            desired_metadata: d.1,
            version: (self.version + 1) as u64,
        }
    }
}

/// The first of device id, shadow name and tenant id in which an update is
/// addressed to another shadow than `shadow`, if any.
pub open spec fn identity_error(shadow: ShadowValue, update: &StateUpdateDocument) -> Option<
    ShadowError,
> {
    if shadow.device_id != update.device_id@ {
        Some(ShadowError::DeviceIdMismatch)
    } else if shadow.shadow_name != update.shadow_name@ {
        Some(ShadowError::ShadowNameMismatch)
    } else if shadow.tenant_id != update.tenant_id@ {
        Some(ShadowError::TenantIdMismatch)
    } else {
        None
    }
}

/// An update keeps a well-formed shadow well-formed.
pub proof fn lemma_update_keeps_wf(s: ShadowValue, reported: JsonValue, desired: JsonValue, ts: u64)
    requires
        s.wf(),
        reported.wf(),
        desired.wf(),
    ensures
        s.updated(reported, desired, ts).wf(),
        fold_part_defined(s.reported, reported, s.reported_metadata, ts),
        fold_part_defined(s.desired, desired, s.desired_metadata, ts),
{
    lemma_fold_part_keeps_stamped(s.reported, reported, s.reported_metadata, ts);
    lemma_fold_part_keeps_stamped(s.desired, desired, s.desired_metadata, ts);
}

/// Every successful update raises the version by exactly one.
pub proof fn lemma_version_steps_by_one(
    s: ShadowValue,
    reported: JsonValue,
    desired: JsonValue,
    ts: u64,
)
    requires
        s.version < u64::MAX,
    ensures
        s.updated(reported, desired, ts).version == s.version + 1,
{
}

/// After an update the delta is the difference between the reported and the
/// desired document of the updated shadow.
pub proof fn lemma_delta_is_diff(s: ShadowValue, reported: JsonValue, desired: JsonValue, ts: u64)
    ensures
        s.updated(reported, desired, ts).delta == delta_of(
            s.updated(reported, desired, ts).reported,
            s.updated(reported, desired, ts).desired,
        ),
{
}

/// Whether every null leaf of an update part has its path deleted: neither
/// the state nor its metadata holds anything at the path at which the update
/// part holds null.
pub open spec fn deletes_null_leaves(part: JsonValue, state: JsonValue, metadata: JsonValue) -> bool {
    forall|path: Seq<Seq<char>>|
        path.len() > 0 && #[trigger] at_path(part, path) == Some(JsonValue::Null) ==> at_path(
            state,
            path,
        ) is None && at_path(metadata, path) is None
}

/// A null leaf in the reported part of an update deletes its path from the
/// reported document and from its metadata; likewise for the desired part.
pub proof fn lemma_update_deletes_null_leaf(
    s: ShadowValue,
    reported: JsonValue,
    desired: JsonValue,
    ts: u64,
    path: Seq<Seq<char>>,
)
    requires
        s.wf(),
        reported.wf(),
        desired.wf(),
        path.len() > 0,
    ensures
        at_path(reported, path) == Some(JsonValue::Null) ==> at_path(
            s.updated(reported, desired, ts).reported,
            path,
        ) is None && at_path(s.updated(reported, desired, ts).reported_metadata, path) is None,
        at_path(desired, path) == Some(JsonValue::Null) ==> at_path(
            s.updated(reported, desired, ts).desired,
            path,
        ) is None && at_path(s.updated(reported, desired, ts).desired_metadata, path) is None,
{
    if at_path(reported, path) == Some(JsonValue::Null) {
        assert(reported is Object);
        assert(stamped(s.reported, promoted(s.reported_metadata)));
        lemma_null_deletes_path(s.reported, reported, promoted(s.reported_metadata), ts, path);
    }
    if at_path(desired, path) == Some(JsonValue::Null) {
        assert(desired is Object);
        assert(stamped(s.desired, promoted(s.desired_metadata)));
        lemma_null_deletes_path(s.desired, desired, promoted(s.desired_metadata), ts, path);
    }
}

/// The metadata of a well-formed shadow holds a timestamp, a non-negative
/// integer of seconds, exactly at the paths at which the state holds a leaf,
/// and an object wherever the state holds an object.
pub proof fn lemma_metadata_holds_timestamps(s: ShadowValue, path: Seq<Seq<char>>)
    requires
        s.wf(),
    ensures
        at_path(s.reported, path) is Some <==> at_path(s.reported_metadata, path) is Some,
        at_path(s.reported, path) matches Some(v) ==> {
            let w = at_path(s.reported_metadata, path)->Some_0;
            &&& is_leaf(v) <==> is_timestamp(w)
            &&& v is Object ==> w is Object
        },
        at_path(s.desired, path) is Some <==> at_path(s.desired_metadata, path) is Some,
        at_path(s.desired, path) matches Some(v) ==> {
            let w = at_path(s.desired_metadata, path)->Some_0;
            &&& is_leaf(v) <==> is_timestamp(w)
            &&& v is Object ==> w is Object
        },
{
    lemma_stamped_at_path(s.reported, s.reported_metadata, path);
    lemma_stamped_at_path(s.desired, s.desired_metadata, path);
}

/// After an update of a well-formed shadow the delta is null or an object
/// with at least one member.
pub proof fn lemma_delta_shape(s: ShadowValue, reported: JsonValue, desired: JsonValue, ts: u64)
    requires
        s.wf(),
        reported.wf(),
        desired.wf(),
        s.reported is Null || s.reported is Object,
        s.desired is Null || s.desired is Object,
    ensures
        s.updated(reported, desired, ts).delta is Null || (s.updated(reported, desired, ts).delta
            is Object && s.updated(reported, desired, ts).delta->Object_0.len() > 0),
        s.updated(reported, desired, ts).reported is Null || s.updated(
            reported,
            desired,
            ts,
        ).reported is Object,
        s.updated(reported, desired, ts).desired is Null || s.updated(reported, desired, ts).desired
            is Object,
{
    let u = s.updated(reported, desired, ts);
    lemma_delta_is_null_or_nonempty(u.reported, u.desired);
}

impl StateUpdateDocument {
    /// An update for the given shadow that changes nothing.
    pub fn new(device_id: &str, shadow_name: &ShadowName, tenant_id: &TenantId) -> (r: Self)
        ensures
            r.device_id@ == device_id@,
            r.shadow_name@ == shadow_name@,
            r.tenant_id@ == tenant_id@,
            r.state.reported@ is Null,
            r.state.desired@ is Null,
            r.state.delta@ is Null,
    {
        StateUpdateDocument {
            device_id: device_id.to_owned(),
            shadow_name: shadow_name.clone(),
            tenant_id: tenant_id.clone(),
            state: StateDocument::empty(),
        }
    }

    /// An update for the given shadow with the state that arrived on the
    /// wire.
    pub fn from_nested_state(
        nested: NestedStateDocument,
        device_id: &str,
        shadow_name: &ShadowName,
        tenant_id: &TenantId,
    ) -> (r: Self)
        ensures
            r.device_id@ == device_id@,
            r.shadow_name@ == shadow_name@,
            r.tenant_id@ == tenant_id@,
            r.state == nested.state,
    {
        StateUpdateDocument {
            device_id: device_id.to_owned(),
            shadow_name: shadow_name.clone(),
            tenant_id: tenant_id.clone(),
            state: nested.state,
        }
    }

    /// The reported part of the update.
    pub fn get_reported_value(&self) -> (r: &Json)
        ensures
            *r == self.state.reported,
    {
        &self.state.reported
    }

    /// The desired part of the update.
    pub fn get_desired_value(&self) -> (r: &Json)
        ensures
            *r == self.state.desired,
    {
        &self.state.desired
    }

    /// Replaces the reported part of the update.
    pub fn set_reported_value(&mut self, value: Json)
        ensures
            final(self).state.reported == value,
            final(self).state.desired == old(self).state.desired,
            final(self).state.delta == old(self).state.delta,
            final(self).device_id == old(self).device_id,
            final(self).shadow_name == old(self).shadow_name,
            final(self).tenant_id == old(self).tenant_id,
    {
        self.state.reported = value;
    }

    /// Replaces the desired part of the update.
    pub fn set_desired_value(&mut self, value: Json)
        ensures
            final(self).state.desired == value,
            final(self).state.reported == old(self).state.reported,
            final(self).state.delta == old(self).state.delta,
            final(self).device_id == old(self).device_id,
            final(self).shadow_name == old(self).shadow_name,
            final(self).tenant_id == old(self).tenant_id,
    {
        self.state.desired = value;
    }
}

impl Shadow {
    /// A fresh shadow: all documents null, version zero.
    pub fn new(device_id: &str, shadow_name: &ShadowName, tenant_id: &TenantId) -> (r: Self)
        ensures
            r@ == (ShadowValue {
                device_id: device_id@,
                shadow_name: shadow_name@,
                tenant_id: tenant_id@,
                reported: JsonValue::Null,
                desired: JsonValue::Null,
                delta: JsonValue::Null,
                reported_metadata: JsonValue::Null,
                desired_metadata: JsonValue::Null,
                version: 0,
            }),
            r@.wf(),
    {
        Shadow {
            device_id: device_id.to_owned(),
            shadow_name: shadow_name.clone(),
            tenant_id: tenant_id.clone(),
            state: StateDocument::empty(),
            metadata: MetadataDocument { reported: Json::Null, desired: Json::Null },
            version: 0,
        }
    }

    /// The id of the device.
    pub fn get_device_id(&self) -> (r: &String)
        ensures
            r@ == self@.device_id,
    {
        &self.device_id
    }

    /// The name of the shadow.
    pub fn get_shadow_name(&self) -> (r: &ShadowName)
        ensures
            r@ == self@.shadow_name,
    {
        &self.shadow_name
    }

    /// The tenant of the device.
    pub fn get_tenant_id(&self) -> (r: &TenantId)
        ensures
            r@ == self@.tenant_id,
    {
        &self.tenant_id
    }

    /// The reported document.
    pub fn get_reported_value(&self) -> (r: &Json)
        ensures
            r@ == self@.reported,
    {
        &self.state.reported
    }

    /// The desired document.
    pub fn get_desired_value(&self) -> (r: &Json)
        ensures
            r@ == self@.desired,
    {
        &self.state.desired
    }

    /// The delta document.
    pub fn get_delta_value(&self) -> (r: &Json)
        ensures
            r@ == self@.delta,
    {
        &self.state.delta
    }

    /// The delta document when it is an object with at least one member:
    /// what is worth publishing to the device.
    pub fn get_delta_json(&self) -> (r: Option<Json>)
        ensures
            match r {
                Some(d) => d@ == self@.delta && d@ is Object && d@->Object_0.len() > 0,
                None => !(self@.delta is Object && self@.delta->Object_0.len() > 0),
            },
    {
        match &self.state.delta {
            Json::Object(entries) => {
                proof {
                    crate::json::lemma_object_view(*entries);
                }
                if entries.len() == 0 {
                    None
                } else {
                    Some(self.state.delta.clone())
                }
            },
            _ => None,
        }
    }

    /// The timestamps of the reported document.
    pub fn get_reported_metadata(&self) -> (r: &Json)
        ensures
            r@ == self@.reported_metadata,
    {
        &self.metadata.reported
    }

    /// The timestamps of the desired document.
    pub fn get_desired_metadata(&self) -> (r: &Json)
        ensures
            r@ == self@.desired_metadata,
    {
        &self.metadata.desired
    }

    /// The number of updates applied so far.
    pub fn get_version(&self) -> (r: u64)
        ensures
            r == self@.version,
    {
        self.version
    }

    /// Sets the delta to the difference between the reported and the desired
    /// document, or to null when they do not differ.
    fn calculate_delta(&mut self)
        ensures
            final(self)@ == (ShadowValue {
                delta: delta_of(old(self)@.reported, old(self)@.desired),
                ..old(self)@
            }),
    {
        let d = delta_json(&self.state.reported, &self.state.desired);
        self.state.delta = d;
    }

    /// Applies `update` at time `ts`.
    ///
    /// An update addressed to another shadow is refused and changes nothing.
    /// Otherwise both parts are folded in, the delta is computed afresh and
    /// the version grows by one, also when the update changes no value.
    pub fn update_at(&mut self, update: &StateUpdateDocument, ts: u64) -> (r: Result<
        (),
        ShadowError,
    >)
        requires
            old(self)@.wf(),
            update.state.reported@.wf(),
            update.state.desired@.wf(),
            old(self)@.version < u64::MAX,
        ensures
            match r {
                Ok(()) => {
                    &&& identity_error(old(self)@, update) is None
                    &&& final(self)@ == old(self)@.updated(
                        update.state.reported@,
                        update.state.desired@,
                        ts,
                    )
                    &&& final(self)@.wf()
                    &&& deletes_null_leaves(
                        update.state.reported@,
                        final(self)@.reported,
                        final(self)@.reported_metadata,
                    )
                    &&& deletes_null_leaves(
                        update.state.desired@,
                        final(self)@.desired,
                        final(self)@.desired_metadata,
                    )
                },
                Err(e) => {
                    &&& identity_error(old(self)@, update) == Some(e)
                    &&& *final(self) == *old(self)
                },
            },
    {
        if self.device_id != update.device_id {
            return Err(ShadowError::DeviceIdMismatch);
        }
        if self.shadow_name != update.shadow_name {
            return Err(ShadowError::ShadowNameMismatch);
        }
        if self.tenant_id != update.tenant_id {
            return Err(ShadowError::TenantIdMismatch);
        }
        proof {
            lemma_update_keeps_wf(self@, update.state.reported@, update.state.desired@, ts);
            let after = self@.updated(update.state.reported@, update.state.desired@, ts);
            assert forall|path: Seq<Seq<char>>|
                path.len() > 0 && #[trigger] at_path(update.state.reported@, path) == Some(
                    JsonValue::Null,
                ) implies at_path(after.reported, path) is None && at_path(
                after.reported_metadata,
                path,
            ) is None by {
                lemma_update_deletes_null_leaf(
                    self@,
                    update.state.reported@,
                    update.state.desired@,
                    ts,
                    path,
                );
            }
            assert forall|path: Seq<Seq<char>>|
                path.len() > 0 && #[trigger] at_path(update.state.desired@, path) == Some(
                    JsonValue::Null,
                ) implies at_path(after.desired, path) is None && at_path(
                after.desired_metadata,
                path,
            ) is None by {
                lemma_update_deletes_null_leaf(
                    self@,
                    update.state.reported@,
                    update.state.desired@,
                    ts,
                    path,
                );
            }
        }
        if !update.state.reported.is_null() || !update.state.desired.is_null() {
            self.state.update_at(&update.state, &mut self.metadata, ts);
        }
        self.calculate_delta();
        self.version += 1;
        Ok(())
    }

    /// Applies `update` at the current time. Whatever the clock returned,
    /// the outcome is that of [`Shadow::update_at`] for some time.
    pub fn update(&mut self, update: &StateUpdateDocument) -> (r: Result<(), ShadowError>)
        requires
            old(self)@.wf(),
            update.state.reported@.wf(),
            update.state.desired@.wf(),
            old(self)@.version < u64::MAX,
        ensures
            match r {
                Ok(()) => {
                    &&& identity_error(old(self)@, update) is None
                    &&& exists|ts: u64|
                        final(self)@ == #[trigger] old(self)@.updated(
                            update.state.reported@,
                            update.state.desired@,
                            ts,
                        )
                    &&& final(self)@.wf()
                    &&& deletes_null_leaves(
                        update.state.reported@,
                        final(self)@.reported,
                        final(self)@.reported_metadata,
                    )
                    &&& deletes_null_leaves(
                        update.state.desired@,
                        final(self)@.desired,
                        final(self)@.desired_metadata,
                    )
                },
                Err(e) => {
                    &&& identity_error(old(self)@, update) == Some(e)
                    &&& *final(self) == *old(self)
                },
            },
    {
        let ts = StateDocument::current_timestamp();
        self.update_at(update, ts)
    }
}


/// A member of a state document: what is stored under `key`, or null when
/// there is nothing.
pub open spec fn part_member(v: JsonValue, key: Seq<char>) -> JsonValue {
    match v.member(key) {
        Some(x) => x,
        None => JsonValue::Null,
    }
}

/// The members of the document of a state, null parts left out.
pub open spec fn state_members(reported: JsonValue, desired: JsonValue, delta: JsonValue) -> Seq<
    (Seq<char>, JsonValue),
> {
    let a: Seq<(Seq<char>, JsonValue)> = if reported is Null {
        Seq::empty()
    } else {
        seq![("reported"@, reported)]
    };
    let b: Seq<(Seq<char>, JsonValue)> = if desired is Null {
        Seq::empty()
    } else {
        seq![("desired"@, desired)]
    };
    let c: Seq<(Seq<char>, JsonValue)> = if delta is Null {
        Seq::empty()
    } else {
        seq![("delta"@, delta)]
    };
    a + b + c
}

/// The document that stands for a shadow.
pub open spec fn shadow_document(s: ShadowValue) -> JsonValue {
    JsonValue::Object(
        seq![
            ("device_id"@, JsonValue::String(s.device_id)),
            ("shadow_name"@, JsonValue::String(s.shadow_name.text())),
            ("tenant_id"@, JsonValue::String(s.tenant_id.text())),
            ("state"@, JsonValue::Object(state_members(s.reported, s.desired, s.delta))),
            (
                "metadata"@,
                JsonValue::Object(
                    seq![
                        ("reported"@, s.reported_metadata),
                        ("desired"@, s.desired_metadata),
                    ],
                ),
            ),
            ("version"@, JsonValue::Number(JsonNumber::PosInt(s.version))),
        ],
    )
}

/// The shadow that a document stands for: an object with the strings
/// `device_id`, `shadow_name` and `tenant_id`, an object `state` whose
/// members `reported`, `desired` and `delta` default to null, an object
/// `metadata` with the members `reported` and `desired`, and a non-negative
/// integer `version`.
pub open spec fn shadow_from(v: JsonValue) -> Option<ShadowValue> {
    match (
        text_member(v, "device_id"@),
        text_member(v, "shadow_name"@),
        text_member(v, "tenant_id"@),
        v.member("state"@),
        v.member("metadata"@),
        count_member(v, "version"@),
    ) {
        (Some(d), Some(n), Some(t), Some(state), Some(meta), Some(version)) => {
            if state is Object && meta.member("reported"@) is Some && meta.member("desired"@)
                is Some {
                Some(
                    ShadowValue {
                        device_id: d,
                        shadow_name: name_of(n),
                        tenant_id: name_of(t),
                        reported: part_member(state, "reported"@),
                        desired: part_member(state, "desired"@),
                        delta: part_member(state, "delta"@),
                        reported_metadata: meta.member("reported"@)->Some_0,
                        desired_metadata: meta.member("desired"@)->Some_0,
                        version,
                    },
                )
            } else {
                None
            }
        },
        _ => None,
    }
}

/// A copy of what is stored under `key`, or null when there is nothing.
fn part_of(v: &Json, key: &str) -> (r: Json)
    ensures
        r@ == part_member(v@, key@),
{
    match v.get_member(key) {
        Some(x) => x.clone(),
        None => Json::Null,
    }
}

impl StateDocument {
    /// The document that stands for this state: an object with the parts
    /// that are not null.
    pub fn to_value(&self) -> (r: Json)
        ensures
            r@ == JsonValue::Object(state_members(self.reported@, self.desired@, self.delta@)),
    {
        let mut entries: Vec<(String, Json)> = Vec::new();
        assert(members_of(entries@) =~= Seq::empty());
        if !self.reported.is_null() {
            push_member(&mut entries, "reported", self.reported.clone());
        }
        if !self.desired.is_null() {
            push_member(&mut entries, "desired", self.desired.clone());
        }
        if !self.delta.is_null() {
            push_member(&mut entries, "delta", self.delta.clone());
        }
        assert(members_of(entries@) =~= state_members(self.reported@, self.desired@, self.delta@));
        Json::object(entries)
    }

    /// The state that a document stands for: an object, whose members
    /// `reported`, `desired` and `delta` default to null.
    pub fn from_value(v: &Json) -> (r: Option<StateDocument>)
        ensures
            match r {
                Some(s) => {
                    &&& v@ is Object
                    &&& s.reported@ == part_member(v@, "reported"@)
                    &&& s.desired@ == part_member(v@, "desired"@)
                    &&& s.delta@ == part_member(v@, "delta"@)
                },
                None => !(v@ is Object),
            },
    {
        if !v.is_object() {
            return None;
        }
        Some(
            StateDocument {
                reported: part_of(v, "reported"),
                desired: part_of(v, "desired"),
                delta: part_of(v, "delta"),
            },
        )
    }
}

impl NestedStateDocument {
    /// The state that arrived on the wire: an object with an object member
    /// `state`.
    pub fn from_value(v: &Json) -> (r: Option<NestedStateDocument>)
        ensures
            match r {
                Some(n) => {
                    &&& v@.member("state"@) matches Some(state)
                    &&& state is Object
                    &&& n.state.reported@ == part_member(state, "reported"@)
                    &&& n.state.desired@ == part_member(state, "desired"@)
                    &&& n.state.delta@ == part_member(state, "delta"@)
                },
                None => !(v@.member("state"@) matches Some(state) && state is Object),
            },
    {
        match v.get_member("state") {
            Some(state) => match StateDocument::from_value(state) {
                Some(s) => Some(NestedStateDocument { state: s }),
                None => None,
            },
            None => None,
        }
    }
}

impl Shadow {
    /// The document that stands for this shadow.
    pub fn to_value(&self) -> (r: Json)
        ensures
            r@ == shadow_document(self@),
    {
        let mut meta: Vec<(String, Json)> = Vec::new();
        assert(members_of(meta@) =~= Seq::empty());
        push_member(&mut meta, "reported", self.metadata.reported.clone());
        push_member(&mut meta, "desired", self.metadata.desired.clone());
        let ghost meta_members = members_of(meta@);
        let mut entries: Vec<(String, Json)> = Vec::new();
        assert(members_of(entries@) =~= Seq::empty());
        push_member(&mut entries, "device_id", Json::String(self.device_id.clone()));
        push_member(&mut entries, "shadow_name", Json::text(self.shadow_name.as_str()));
        push_member(&mut entries, "tenant_id", Json::text(self.tenant_id.as_str()));
        push_member(&mut entries, "state", self.state.to_value());
        push_member(&mut entries, "metadata", Json::object(meta));
        push_member(&mut entries, "version", Json::Number(JsonNumber::PosInt(self.version)));
        assert(meta_members =~= seq![
            ("reported"@, self@.reported_metadata),
            ("desired"@, self@.desired_metadata),
        ]);
        assert(members_of(entries@) =~= shadow_document(self@)->Object_0);
        Json::object(entries)
    }

    /// The shadow that a document stands for, if it stands for one.
    pub fn from_value(v: &Json) -> (r: Result<Shadow, ShadowSerializationError>)
        ensures
            match r {
                Ok(s) => shadow_from(v@) == Some(s@),
                Err(_) => shadow_from(v@) is None,
            },
    {
        let device_id = v.get_text("device_id");
        let shadow_name = v.get_text("shadow_name");
        let tenant_id = v.get_text("tenant_id");
        let state = v.get_member("state");
        let metadata = v.get_member("metadata");
        let version = v.get_count("version");
        match (device_id, shadow_name, tenant_id, state, metadata, version) {
            (Some(d), Some(n), Some(t), Some(state), Some(meta), Some(version)) => {
                let reported = meta.get_member("reported");
                let desired = meta.get_member("desired");
                match (StateDocument::from_value(state), reported, desired) {
                    (Some(s), Some(r), Some(d2)) => Ok(
                        Shadow {
                            device_id: d,
                            shadow_name: DefaultString::new(n.as_str()),
                            tenant_id: DefaultString::new(t.as_str()),
                            state: s,
                            metadata: MetadataDocument { reported: r.clone(), desired: d2.clone() },
                            version,
                        },
                    ),
                    _ => Err(
                        ShadowSerializationError::JsonError(
                            "state or metadata of the wrong shape".to_owned(),
                        ),
                    ),
                }
            },
            _ => Err(ShadowSerializationError::JsonError("missing or mistyped field".to_owned())),
        }
    }

    /// Checks whether the documents are well-formed and each metadata
    /// document accounts for its state document.
    pub fn is_well_formed(&self) -> (r: bool)
        ensures
            r == self@.wf(),
    {
        self.state.reported.is_well_formed() && self.state.desired.is_well_formed()
            && self.metadata.reported.is_well_formed() && self.metadata.desired.is_well_formed()
            && is_stamped(&self.state.reported, &self.metadata.reported) && is_stamped(
            &self.state.desired,
            &self.metadata.desired,
        )
    }
}

} // verus!
