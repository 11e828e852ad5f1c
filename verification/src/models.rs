//! Identifiers and device records.

use vstd::prelude::*;
use vstd::std_specs::cmp::PartialEqSpecImpl;
use crate::clock::unix_now;
use crate::json::{
    count_member, members_of, push_member, text_member, Json, JsonNumber, JsonValue,
};

verus! {

/// A name that is either the default one or a custom string. Tenant ids and
/// shadow names are of this kind.
#[derive(Debug)]
pub enum DefaultString {
    Default,
    Custom(String),
}

/// The name of a shadow of a device.
pub type ShadowName = DefaultString;

/// The name of a tenant.
pub type TenantId = DefaultString;

/// The mathematical value of a [`DefaultString`].
pub enum NameValue {
    Default,
    Custom(Seq<char>),
}

/// The lowercase form of a string as `str::to_lowercase` computes it.
pub uninterp spec fn lowercase_of(s: Seq<char>) -> Seq<char>;

/// Lowercases a string with `str::to_lowercase` of the standard library. The
/// result is a function of the argument alone, named [`lowercase_of`].
#[verifier::external_body]
fn to_lowercase(s: &str) -> (r: String)
    ensures
        r@ == lowercase_of(s@),
{
    s.to_lowercase()
}

/// The name that a string with the given lowercase form stands for: the
/// default name when the lowercase form reads "default", else the custom
/// name that is the string itself.
pub open spec fn name_given(text: Seq<char>, lower: Seq<char>) -> NameValue {
    if lower == "default"@ {
        NameValue::Default
    } else {
        NameValue::Custom(text)
    }
}

/// The name that a string stands for: the default name when the string
/// reads "default" in any letter case, a custom name otherwise.
pub open spec fn name_of(s: Seq<char>) -> NameValue {
    name_given(s, lowercase_of(s))
}

impl NameValue {
    /// The string that stands for the name on the wire and in keys.
    pub open spec fn text(self) -> Seq<char> {
        match self {
            NameValue::Default => "default"@,
            NameValue::Custom(s) => s,
        }
    }
}

impl View for DefaultString {
    type V = NameValue;

    open spec fn view(&self) -> NameValue {
        match self {
            DefaultString::Default => NameValue::Default,
            DefaultString::Custom(s) => NameValue::Custom(s@),
        }
    }
}

impl Clone for DefaultString {
    fn clone(&self) -> (r: Self)
        ensures
            r@ == self@,
    {
        match self {
            DefaultString::Default => DefaultString::Default,
            DefaultString::Custom(s) => DefaultString::Custom(s.clone()),
        }
    }
}

impl PartialEq for DefaultString {
    fn eq(&self, other: &Self) -> (r: bool) {
        match (self, other) {
            (DefaultString::Default, DefaultString::Default) => true,
            (DefaultString::Custom(a), DefaultString::Custom(b)) => *a == *b,
            _ => false,
        }
    }
}

impl PartialEqSpecImpl for DefaultString {
    open spec fn obeys_eq_spec() -> bool {
        true
    }

    open spec fn eq_spec(&self, other: &Self) -> bool {
        self@ == other@
    }
}

impl Eq for DefaultString {

}

impl DefaultString {
    /// The name that `name` stands for, given the lowercase form of `name`.
    pub fn from_lowercased(name: &str, lower: &str) -> (r: Self)
        ensures
            r@ == name_given(name@, lower@),
    {
        let given = lower.to_owned();
        let reference = "default".to_owned();
        if given == reference {
            DefaultString::Default
        } else {
            DefaultString::Custom(name.to_owned())
        }
    }

    /// The name that `name` stands for.
    pub fn new(name: &str) -> (r: Self)
        ensures
            r@ == name_of(name@),
    {
        let lower = to_lowercase(name);
        Self::from_lowercased(name, lower.as_str())
    }

    /// Same as [`DefaultString::new`].
    pub fn from_str(s: &str) -> (r: Self)
        ensures
            r@ == name_of(s@),
    {
        Self::new(s)
    }

    /// The name that an optional string stands for; no string stands for the
    /// default name.
    pub fn from_option(s: Option<&str>) -> (r: Self)
        ensures
            r@ == match s {
                Some(text) => name_of(text@),
                None => NameValue::Default,
            },
    {
        match s {
            Some(text) => Self::new(text),
            None => DefaultString::Default,
        }
    }

    /// The string that stands for this name on the wire and in keys.
    pub fn as_str(&self) -> (r: &str)
        ensures
            r@ == self@.text(),
    {
        match self {
            DefaultString::Default => "default",
            DefaultString::Custom(name) => name.as_str(),
        }
    }

    /// The string that stands for this name, as an owned value.
    pub fn to_string(&self) -> (r: String)
        ensures
            r@ == self@.text(),
    {
        self.as_str().to_owned()
    }
}

/// What is recorded about a registered device.
#[derive(Debug)]
pub struct DeviceMetadata {
    pub device_id: String,
    pub tenant_id: TenantId,
    pub certificate: Option<String>,
    pub key: Option<String>,
    pub created_at: u64,
}

/// What is reported about a device in listings.
#[derive(Debug)]
pub struct DeviceInformation {
    pub device_id: String,
    pub tenant_id: TenantId,
    pub certificate: Option<String>,
    pub connected: bool,
    pub last_shadow_update: Option<u64>,
}

impl DeviceMetadata {
    /// A record without credentials, created at time `created_at`.
    pub fn new_at(device_id: &str, tenant_id: &TenantId, created_at: u64) -> (r: Self)
        ensures
            r.device_id@ == device_id@,
            r.tenant_id@ == tenant_id@,
            r.certificate is None,
            r.key is None,
            r.created_at == created_at,
    {
        DeviceMetadata {
            device_id: device_id.to_owned(),
            tenant_id: tenant_id.clone(),
            certificate: None,
            key: None,
            created_at,
        }
    }

    /// A record without credentials, created at the current time.
    pub fn new(device_id: &str, tenant_id: &TenantId) -> (r: Self)
        ensures
            r.device_id@ == device_id@,
            r.tenant_id@ == tenant_id@,
            r.certificate is None,
            r.key is None,
    {
        Self::new_at(device_id, tenant_id, unix_now())
    }

    /// The same record with the given certificate and key.
    pub fn with_credentials(self, certificate: String, key: String) -> (r: Self)
        ensures
            r.device_id == self.device_id,
            r.tenant_id == self.tenant_id,
            r.created_at == self.created_at,
            r.certificate == Some(certificate),
            r.key == Some(key),
    {
        let mut out = self;
        out.certificate = Some(certificate);
        out.key = Some(key);
        out
    }
}


/// The mathematical value of a [`DeviceMetadata`].
pub struct DeviceValue {
    pub device_id: Seq<char>,
    pub tenant_id: NameValue,
    pub certificate: Option<Seq<char>>,
    pub key: Option<Seq<char>>,
    pub created_at: u64,
}

/// The view of an optional string.
pub open spec fn optional_text(s: Option<String>) -> Option<Seq<char>> {
    match s {
        Some(t) => Some(t@),
        None => None,
    }
}

impl View for DeviceMetadata {
    type V = DeviceValue;

    open spec fn view(&self) -> DeviceValue {
        DeviceValue {
            device_id: self.device_id@,
            tenant_id: self.tenant_id@,
            certificate: optional_text(self.certificate),
            key: optional_text(self.key),
            created_at: self.created_at,
        }
    }
}

/// An optional string member of a document: absent or null for none, a
/// string for one; the outer `None` for any other value.
pub open spec fn optional_member(v: JsonValue, key: Seq<char>) -> Option<Option<Seq<char>>> {
    match v.member(key) {
        None => Some(None),
        Some(JsonValue::Null) => Some(None),
        Some(JsonValue::String(s)) => Some(Some(s)),
        _ => None,
    }
}

/// The document of an optional string: null or the string.
pub open spec fn optional_document(s: Option<Seq<char>>) -> JsonValue {
    match s {
        Some(t) => JsonValue::String(t),
        None => JsonValue::Null,
    }
}

/// The device record that a document stands for: an object with a string
/// `device_id`, a string `tenant_id`, optional strings `certificate` and
/// `key`, and a non-negative integer `created_at`.
pub open spec fn device_from(v: JsonValue) -> Option<DeviceValue> {
    match (
        text_member(v, "device_id"@),
        text_member(v, "tenant_id"@),
        optional_member(v, "certificate"@),
        optional_member(v, "key"@),
        count_member(v, "created_at"@),
    ) {
        (Some(d), Some(t), Some(c), Some(k), Some(at)) => Some(
            DeviceValue {
                device_id: d,
                tenant_id: name_of(t),
                certificate: c,
                key: k,
                created_at: at,
            },
        ),
        _ => None,
    }
}

/// The document that stands for a device record.
pub open spec fn device_document(d: DeviceValue) -> JsonValue {
    JsonValue::Object(
        seq![
            ("device_id"@, JsonValue::String(d.device_id)),
            ("tenant_id"@, JsonValue::String(d.tenant_id.text())),
            ("certificate"@, optional_document(d.certificate)),
            ("key"@, optional_document(d.key)),
            ("created_at"@, JsonValue::Number(JsonNumber::PosInt(d.created_at))),
        ],
    )
}

/// Reads an optional string member of a document.
pub fn get_optional_text(v: &Json, key: &str) -> (r: Option<Option<String>>)
    ensures
        match r {
            Some(inner) => optional_member(v@, key@) == Some(optional_text(inner)),
            None => optional_member(v@, key@) is None,
        },
{
    match v.get_member(key) {
        None => Some(None),
        Some(Json::Null) => Some(None),
        Some(Json::String(s)) => Some(Some(s.clone())),
        _ => None,
    }
}

/// The document of an optional string.
pub fn optional_to_value(s: &Option<String>) -> (r: Json)
    ensures
        r@ == optional_document(optional_text(*s)),
{
    match s {
        Some(t) => Json::String(t.clone()),
        None => Json::Null,
    }
}

impl DeviceMetadata {
    /// The document that stands for this record.
    pub fn to_value(&self) -> (r: Json)
        ensures
            r@ == device_document(self@),
    {
        let mut entries: Vec<(String, Json)> = Vec::new();
        assert(members_of(entries@) =~= Seq::empty());
        push_member(&mut entries, "device_id", Json::String(self.device_id.clone()));
        push_member(&mut entries, "tenant_id", Json::text(self.tenant_id.as_str()));
        push_member(&mut entries, "certificate", optional_to_value(&self.certificate));
        push_member(&mut entries, "key", optional_to_value(&self.key));
        push_member(&mut entries, "created_at", Json::Number(JsonNumber::PosInt(self.created_at)));
        assert(members_of(entries@) =~= device_document(self@)->Object_0);
        Json::object(entries)
    }

    /// The record that a document stands for, if it stands for one.
    pub fn from_value(v: &Json) -> (r: Option<DeviceMetadata>)
        ensures
            match r {
                Some(d) => device_from(v@) == Some(d@),
                None => device_from(v@) is None,
            },
    {
        let device_id = v.get_text("device_id");
        let tenant = v.get_text("tenant_id");
        let certificate = get_optional_text(v, "certificate");
        let key = get_optional_text(v, "key");
        let created_at = v.get_count("created_at");
        match (device_id, tenant, certificate, key, created_at) {
            (Some(d), Some(t), Some(c), Some(k), Some(at)) => Some(
                DeviceMetadata {
                    device_id: d,
                    tenant_id: DefaultString::new(t.as_str()),
                    certificate: c,
                    key: k,
                    created_at: at,
                },
            ),
            _ => None,
        }
    }
}

} // verus!
