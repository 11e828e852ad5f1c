//! Client certificates: what is asked of the signing tool and what it
//! answers.

use vstd::prelude::*;
use vstd::string::StringExecFns;
use crate::json::{members_of, push_member, text_member, values_of, Json, JsonNumber, JsonValue};

verus! {

/// What the signing tool answers: the certificate, its key and the signing
/// request.
#[derive(Debug)]
pub struct CfsslResponse {
    pub cert: String,
    pub key: String,
    pub csr: String,
}

/// The key size asked for.
pub const KEY_BITS: u64 = 2048;

/// The members of a signing request without organization.
pub open spec fn request_members(client_id: Seq<char>) -> Seq<(Seq<char>, JsonValue)> {
    seq![
        ("CN"@, JsonValue::String(client_id)),
        ("hosts"@, JsonValue::Array(seq![JsonValue::String(Seq::empty())])),
        (
            "key"@,
            JsonValue::Object(
                seq![
                    ("algo"@, JsonValue::String("rsa"@)),
                    ("size"@, JsonValue::Number(JsonNumber::PosInt(KEY_BITS))),
                ],
            ),
        ),
    ]
}

/// The signing request for a client: its id as common name, one empty host,
/// an RSA key of [`KEY_BITS`] bits and, if an organization is given, one name
/// with that organization.
pub open spec fn request_document(client_id: Seq<char>, organization: Option<Seq<char>>) -> JsonValue {
    match organization {
        Some(o) => JsonValue::Object(
            request_members(client_id).push(
                (
                    "names"@,
                    JsonValue::Array(seq![JsonValue::Object(seq![("O"@, JsonValue::String(o))])]),
                ),
            ),
        ),
        None => JsonValue::Object(request_members(client_id)),
    }
}

/// Builds the signing request for a client.
pub fn certificate_request(client_id: &str, organization: Option<&str>) -> (r: Json)
    ensures
        r@ == request_document(
            client_id@,
            match organization {
                Some(o) => Some(o@),
                None => None,
            },
        ),
{
    let mut hosts: Vec<Json> = Vec::new();
    hosts.push(Json::text(""));
    proof {
        reveal_strlit("");
        assert(""@ =~= Seq::<char>::empty());
        assert(values_of(hosts@) =~= seq![JsonValue::String(Seq::empty())]);
    }
    let mut key: Vec<(String, Json)> = Vec::new();
    assert(members_of(key@) =~= Seq::empty());
    push_member(&mut key, "algo", Json::text("rsa"));
    push_member(&mut key, "size", Json::Number(JsonNumber::PosInt(KEY_BITS)));
    let ghost key_members = members_of(key@);
    let mut entries: Vec<(String, Json)> = Vec::new();
    assert(members_of(entries@) =~= Seq::empty());
    push_member(&mut entries, "CN", Json::text(client_id));
    push_member(&mut entries, "hosts", Json::array(hosts));
    push_member(&mut entries, "key", Json::object(key));
    assert(key_members =~= seq![
        ("algo"@, JsonValue::String("rsa"@)),
        ("size"@, JsonValue::Number(JsonNumber::PosInt(KEY_BITS))),
    ]);
    assert(members_of(entries@) =~= request_members(client_id@));
    match organization {
        Some(o) => {
            let mut name: Vec<(String, Json)> = Vec::new();
            assert(members_of(name@) =~= Seq::empty());
            push_member(&mut name, "O", Json::text(o));
            let ghost name_members = members_of(name@);
            let mut names: Vec<Json> = Vec::new();
            names.push(Json::object(name));
            assert(name_members =~= seq![("O"@, JsonValue::String(o@))]);
            assert(values_of(names@) =~= seq![
                JsonValue::Object(seq![("O"@, JsonValue::String(o@))]),
            ]);
            push_member(&mut entries, "names", Json::array(names));
        },
        None => {},
    }
    Json::object(entries)
}

/// The command line that asks the signing tool for a client certificate: the
/// request is piped into the tool, which signs with the given authority.
pub open spec fn gencert_text(
    request: Seq<char>,
    tool: Seq<char>,
    ca: Seq<char>,
    ca_key: Seq<char>,
    config: Seq<char>,
) -> Seq<char> {
    "echo '"@ + request + "' | "@ + tool + " gencert -ca "@ + ca + " -ca-key "@ + ca_key
        + " -config "@ + config + " -profile client -"@
}

/// Builds the command line that asks the signing tool for a client
/// certificate.
pub fn gencert_command(request: &str, tool: &str, ca: &str, ca_key: &str, config: &str) -> (r:
    String)
    ensures
        r@ == gencert_text(request@, tool@, ca@, ca_key@, config@),
{
    "echo '".to_owned().concat(request).concat("' | ").concat(tool).concat(" gencert -ca ").concat(
        ca,
    ).concat(" -ca-key ").concat(ca_key).concat(" -config ").concat(config).concat(
        " -profile client -",
    )
}

/// Reads the answer of the signing tool: an object with the strings `cert`,
/// `key` and `csr`.
pub fn response_from(v: &Json) -> (r: Option<CfsslResponse>)
    ensures
        match r {
            Some(c) => {
                &&& text_member(v@, "cert"@) == Some(c.cert@)
                &&& text_member(v@, "key"@) == Some(c.key@)
                &&& text_member(v@, "csr"@) == Some(c.csr@)
            },
            None => text_member(v@, "cert"@) is None || text_member(v@, "key"@) is None
                || text_member(v@, "csr"@) is None,
        },
{
    match (v.get_text("cert"), v.get_text("key"), v.get_text("csr")) {
        (Some(cert), Some(key), Some(csr)) => Some(CfsslResponse { cert, key, csr }),
        _ => None,
    }
}

} // verus!
