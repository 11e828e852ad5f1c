//! The storage layer: key schemas, what to write for a series, how stored
//! buckets and shadows change under an update, and when to retry a commit.

use vstd::prelude::*;
use vstd::string::{StringExecFns, StringSliceAdditionalSpecFns};
use vstd::utf8::{decode_utf8, encode_utf8, valid_utf8};
use crate::calendar::{HOUR, MAX_TIMESTAMP};
use crate::keys::{bucket_key, key_bytes, parse_key_digits, to_bucket_key, SEPARATOR};
use crate::metric::{TimeseriesSerializationError};
use crate::models::{NameValue, ShadowName, TenantId};
use crate::shadow::{ShadowError, ShadowSerializationError};


verus! {

/// How often a transaction is attempted before giving up.
pub const MAX_RETRIES: u32 = 5;

/// How many backups are kept.
pub const BACKUPS_KEPT: usize = 3;

/// How far beyond the current time the newest bucket is looked for: a year.
pub const MAX_FUTURE_SECONDS: u64 = 31536000;

/// Why a storage operation failed.
#[derive(Debug)]
pub enum DatabaseError {
    /// The key-value store reported an error; the text is its message.
    RocksDBError(String),
    TimeseriesSerializationError(TimeseriesSerializationError),
    /// The store is not open.
    DatabaseConnectionError,
    InvalidKeyError(String),
    BincodeError(String),
    DatabaseValueError(String),
    ShadowSerializationError(ShadowSerializationError),
    ShadowError(ShadowError),
    /// A transaction could not be committed within the retry budget.
    DatabaseTransactionError(String),
    NotFoundError(String),
}

impl DatabaseError {
    /// A description of the error.
    pub fn to_string(&self) -> (r: String)
        ensures
            r@ == match *self {
                DatabaseError::RocksDBError(m) => "RocksDB Error: "@ + m@,
                DatabaseError::TimeseriesSerializationError(e) => "TimeseriesSerialization Error: "@
                    + e.to_string_spec(),
                DatabaseError::DatabaseConnectionError => "DatabaseConnection Error"@,
                DatabaseError::InvalidKeyError(m) => "Invalid Key: "@ + m@,
                DatabaseError::BincodeError(m) => "Bincode Error: "@ + m@,
                DatabaseError::DatabaseValueError(m) => "DatabaseValue Error: "@ + m@,
                DatabaseError::ShadowSerializationError(e) => "ShadowSerialization Error: "@ + (
                "JSON serialization error: "@ + e->JsonError_0@),
                DatabaseError::ShadowError(e) => "Shadow Error: "@ + e.to_string_spec(),
                DatabaseError::DatabaseTransactionError(m) => "DatabaseTransaction Error "@ + m@,
                DatabaseError::NotFoundError(m) => "NotFound Error "@ + m@,
            },
    {
        match self {
            DatabaseError::RocksDBError(m) => "RocksDB Error: ".to_owned().concat(m.as_str()),
            DatabaseError::TimeseriesSerializationError(e) => {
                "TimeseriesSerialization Error: ".to_owned().concat(e.to_string().as_str())
            },
            DatabaseError::DatabaseConnectionError => "DatabaseConnection Error".to_owned(),
            DatabaseError::InvalidKeyError(m) => "Invalid Key: ".to_owned().concat(m.as_str()),
            DatabaseError::BincodeError(m) => "Bincode Error: ".to_owned().concat(m.as_str()),
            DatabaseError::DatabaseValueError(m) => {
                "DatabaseValue Error: ".to_owned().concat(m.as_str())
            },
            DatabaseError::ShadowSerializationError(e) => {
                "ShadowSerialization Error: ".to_owned().concat(e.to_string().as_str())
            },
            DatabaseError::ShadowError(e) => "Shadow Error: ".to_owned().concat(
                e.to_string().as_str(),
            ),
            DatabaseError::DatabaseTransactionError(m) => {
                "DatabaseTransaction Error ".to_owned().concat(m.as_str())
            },
            DatabaseError::NotFoundError(m) => "NotFound Error ".to_owned().concat(m.as_str()),
        }
    }
}

/// Where the store and its backups live.
#[derive(Debug)]
pub struct DatabaseConfig {
    pub path: String,
    pub create_if_missing: bool,
    pub backup_path: String,
}

impl Default for DatabaseConfig {
    fn default() -> (r: Self)
        ensures
            r.path@ == "./.rocksdb/"@,
            r.create_if_missing,
            r.backup_path@ == "./.rocksdb_backup/"@,
    {
        DatabaseConfig {
            path: "./.rocksdb/".to_owned(),
            create_if_missing: true,
            backup_path: "./.rocksdb_backup/".to_owned(),
        }
    }
}

/// The storage layer: where the store lives, and the rules by which its
/// keys and values are made.
#[derive(Debug)]
pub struct DB {
    pub path: String,
    pub backup_path: String,
}

/// The bytes of a name as they stand in keys.
pub open spec fn name_bytes(n: NameValue) -> Seq<u8> {
    encode_utf8(n.text())
}

/// Three fields joined by the separator.
pub open spec fn joined3(a: Seq<u8>, b: Seq<u8>, c: Seq<u8>) -> Seq<u8> {
    a + seq![SEPARATOR] + b + seq![SEPARATOR] + c
}

/// The key under which the shadow `shadow_name` of a device is stored.
pub open spec fn shadow_key(device_id: Seq<char>, shadow_name: NameValue, tenant: NameValue) -> Seq<
    u8,
> {
    joined3(name_bytes(tenant), encode_utf8(device_id), name_bytes(shadow_name))
}

/// The base key of the series of one metric of a device.
pub open spec fn metric_key(tenant: NameValue, device_id: Seq<char>, metric: Seq<char>) -> Seq<u8> {
    joined3(name_bytes(tenant), encode_utf8(device_id), encode_utf8(metric))
}

/// The key under which the data configuration of a tenant is stored.
pub open spec fn tenant_config_key(tenant: NameValue) -> Seq<u8> {
    "dc"@.map_values(|c: char| c as u8) + seq![SEPARATOR] + name_bytes(tenant)
}

/// The key under which a data configuration is stored: that of the tenant,
/// or that of the devices whose ids begin with a prefix.
pub open spec fn dataconfig_key(tenant: NameValue, device_prefix: Option<Seq<char>>) -> Seq<u8> {
    match device_prefix {
        Some(prefix) => tenant_config_key(tenant) + seq![SEPARATOR] + encode_utf8(prefix),
        None => tenant_config_key(tenant),
    }
}

/// The key prefix of the records of the devices of a tenant.
pub open spec fn device_prefix_key(tenant: NameValue) -> Seq<u8> {
    "device"@.map_values(|c: char| c as u8) + seq![SEPARATOR] + name_bytes(tenant)
}

/// The key under which the record of a device is stored.
pub open spec fn device_metadata_key(tenant: NameValue, device_id: Seq<char>) -> Seq<u8> {
    device_prefix_key(tenant) + seq![SEPARATOR] + encode_utf8(device_id)
}

/// Appends the bytes of `s`.
pub fn append_bytes(out: &mut Vec<u8>, s: &[u8])
    ensures
        final(out)@ == old(out)@ + s@,
{
    let ghost start = out@;
    let mut i: usize = 0;
    while i < s.len()
        invariant
            i <= s@.len(),
            out@ == start + s@.take(i as int),
        decreases s@.len() - i,
    {
        out.push(s[i]);
        assert(out@ =~= start + s@.take(i + 1));
        i += 1;
    }
    assert(s@.take(i as int) =~= s@);
}

/// Joins three fields by the separator.
pub fn join3(a: &[u8], b: &[u8], c: &[u8]) -> (r: Vec<u8>)
    ensures
        r@ == joined3(a@, b@, c@),
{
    let mut out: Vec<u8> = Vec::new();
    append_bytes(&mut out, a);
    out.push(SEPARATOR);
    append_bytes(&mut out, b);
    out.push(SEPARATOR);
    append_bytes(&mut out, c);
    assert(out@ =~= joined3(a@, b@, c@));
    out
}

/// The text that bytes stand for as `String::from_utf8_lossy` reads them.
pub uninterp spec fn lossy_text_of(bytes: Seq<u8>) -> Seq<char>;

/// Reads bytes as text with `String::from_utf8_lossy` of the standard
/// library. The result is a function of the bytes alone, named
/// [`lossy_text_of`]; valid UTF-8 is decoded as it is, and in other bytes the
/// standard library puts replacement characters for what is invalid.
#[verifier::external_body]
pub(crate) fn lossy_text(bytes: &[u8]) -> (r: String)
    ensures
        r@ == lossy_text_of(bytes@),
        valid_utf8(bytes@) ==> r@ == decode_utf8(bytes@),
{
    String::from_utf8_lossy(bytes).into_owned()
}

/// The position of the first separator at or after `from`, if any.
pub fn find_separator(key: &[u8], from: usize) -> (r: Option<usize>)
    requires
        from <= key@.len(),
    ensures
        match r {
            Some(p) => from <= p < key@.len() && key@[p as int] == SEPARATOR && forall|i: int|
                from <= i < p ==> key@[i] != SEPARATOR,
            None => forall|i: int| from <= i < key@.len() ==> key@[i] != SEPARATOR,
        },
{
    let mut i: usize = from;
    while i < key.len()
        invariant
            from <= i <= key@.len(),
            forall|k: int| from <= k < i ==> key@[k] != SEPARATOR,
        decreases key@.len() - i,
    {
        if key[i] == SEPARATOR {
            return Some(i);
        }
        i += 1;
    }
    None
}

/// The position of the first separator of a key; the length of the key when
/// it has none.
pub open spec fn first_separator(key: Seq<u8>) -> int
    decreases key.len(),
{
    if key.len() == 0 || key[0] == SEPARATOR {
        0
    } else {
        1 + first_separator(key.drop_first())
    }
}

proof fn lemma_first_separator(key: Seq<u8>, p: int)
    requires
        0 <= p <= key.len(),
        forall|i: int| 0 <= i < p ==> key[i] != SEPARATOR,
        p < key.len() ==> key[p] == SEPARATOR,
    ensures
        first_separator(key) == p,
    decreases key.len(),
{
    if p > 0 {
        let rest = key.drop_first();
        assert forall|i: int| 0 <= i < p - 1 implies rest[i] != SEPARATOR by {
            assert(rest[i] == key[i + 1]);
        }
        lemma_first_separator(rest, p - 1);
    }
}

/// One attempt after another at committing a transaction.
#[derive(Clone, Copy, Debug, PartialEq, Eq, Structural)]
pub struct CommitLoop {
    /// How many attempts have failed so far.
    pub failed: u32,
}

/// What to do after an attempt at committing.
#[derive(Clone, Copy, Debug, PartialEq, Eq, Structural)]
pub enum CommitOutcome {
    /// The transaction is committed: the operation has succeeded.
    Done,
    /// Start over with a fresh transaction.
    Retry(CommitLoop),
    /// The retry budget is spent: the operation has failed.
    Exhausted,
}

impl CommitLoop {
    /// Before the first attempt.
    pub fn start() -> (r: CommitLoop)
        ensures
            r.failed == 0,
    {
        CommitLoop { failed: 0 }
    }

    /// Decides what follows an attempt: nothing more when it committed, a
    /// fresh attempt while fewer than [`MAX_RETRIES`] attempts have failed,
    /// and giving up otherwise.
    pub fn on_commit(self, committed: bool) -> (r: CommitOutcome)
        requires
            self.failed < MAX_RETRIES,
        ensures
            r == if committed {
                CommitOutcome::Done
            } else if self.failed + 1 < MAX_RETRIES {
                CommitOutcome::Retry(CommitLoop { failed: (self.failed + 1) as u32 })
            } else {
                CommitOutcome::Exhausted
            },
            r matches CommitOutcome::Retry(next) ==> next.failed < MAX_RETRIES,
    {
        if committed {
            CommitOutcome::Done
        } else if self.failed + 1 < MAX_RETRIES {
            CommitOutcome::Retry(CommitLoop { failed: self.failed + 1 })
        } else {
            CommitOutcome::Exhausted
        }
    }

    /// The error that a spent retry budget surfaces as.
    pub fn exhausted_error(what: &str) -> (r: DatabaseError)
        ensures
            r matches DatabaseError::DatabaseTransactionError(m) && m@ == "Failed to commit "@ + what@
                + " after max retries"@,
    {
        DatabaseError::DatabaseTransactionError(
            "Failed to commit ".to_owned().concat(what).concat(" after max retries"),
        )
    }
}

impl DB {
    /// The key of the bucket of the series `key` for the hour of `ts`.
    pub fn _to_ts_key(key: &[u8], ts: u64) -> (r: Vec<u8>)
        requires
            ts <= MAX_TIMESTAMP,
        ensures
            r@ == bucket_key(key@, ts),
    {
        to_bucket_key(key, ts)
    }

    /// Splits a bucket key at its first separator into the key of the series
    /// and the first second of the hour of the bucket.
    pub fn _from_ts_key(full_key: &[u8]) -> (r: Result<(Vec<u8>, u64), DatabaseError>)
        ensures
            match r {
                Ok((key, ts)) => {
                    &&& ts <= MAX_TIMESTAMP
                    &&& ts % HOUR == 0
                    &&& full_key@ == bucket_key(key@, ts)
                    &&& key@.len() == first_separator(full_key@)
                },
                Err(e) => {
                    &&& e matches DatabaseError::InvalidKeyError(message) && message@
                        == lossy_text_of(full_key@)
                    &&& forall|ts: u64|
                        ts <= MAX_TIMESTAMP ==> full_key@ != bucket_key(
                            full_key@.take(first_separator(full_key@)),
                            ts,
                        )
                },
            },
    {
        match find_separator(full_key, 0) {
            Some(p) => {
                proof {
                    lemma_first_separator(full_key@, p as int);
                }
                let total = full_key.len();
                let field = vstd::slice::slice_subrange(full_key, p + 1, total);
                match parse_key_digits(field) {
                    Some(ts) => {
                        let mut key: Vec<u8> = Vec::new();
                        append_bytes(&mut key, vstd::slice::slice_subrange(full_key, 0, p));
                        assert(full_key@ =~= bucket_key(key@, ts));
                        Ok((key, ts))
                    },
                    None => {
                        proof {
                            let base = full_key@.take(p as int);
                            assert forall|ts: u64| ts <= MAX_TIMESTAMP implies full_key@
                                != bucket_key(base, ts) by {
                                if full_key@ == bucket_key(base, ts) {
                                    assert(field@ =~= key_bytes(ts));
                                }
                            }
                        }
                        Err(DatabaseError::InvalidKeyError(lossy_text(full_key)))
                    },
                }
            },
            None => {
                proof {
                    lemma_first_separator(full_key@, full_key@.len() as int);
                    let base = full_key@.take(full_key@.len() as int);
                    assert forall|ts: u64| ts <= MAX_TIMESTAMP implies full_key@ != bucket_key(
                        base,
                        ts,
                    ) by {
                        assert(bucket_key(base, ts).len() > full_key@.len());
                    }
                }
                Err(DatabaseError::InvalidKeyError(lossy_text(full_key)))
            },
        }
    }

    /// The key under which the shadow `shadow_name` of a device is stored.
    pub fn _to_shadow_key(device_id: &str, shadow_name: &ShadowName, tenant_id: &TenantId) -> (r:
        Vec<u8>)
        ensures
            r@ == shadow_key(device_id@, shadow_name@, tenant_id@),
    {
        join3(tenant_id.as_str().as_bytes(), device_id.as_bytes(), shadow_name.as_str().as_bytes())
    }

    /// The base key of the series of one metric of a device.
    pub fn _to_metric_key(tenant_id: &TenantId, device_id: &str, metric_name: &str) -> (r: Vec<u8>)
        ensures
            r@ == metric_key(tenant_id@, device_id@, metric_name@),
    {
        join3(tenant_id.as_str().as_bytes(), device_id.as_bytes(), metric_name.as_bytes())
    }

    /// The key under which a data configuration is stored.
    pub fn _to_dataconfig_key(tenant_id: &TenantId, device_id_prefix: Option<&str>) -> (r: Vec<u8>)
        ensures
            r@ == dataconfig_key(
                tenant_id@,
                match device_id_prefix {
                    Some(p) => Some(p@),
                    None => None,
                },
            ),
    {
        let mut out: Vec<u8> = Vec::new();
        proof {
            reveal_strlit("dc");
        }
        out.push(100);
        out.push(99);
        assert(out@ =~= "dc"@.map_values(|c: char| c as u8));
        out.push(SEPARATOR);
        append_bytes(&mut out, tenant_id.as_str().as_bytes());
        match device_id_prefix {
            Some(prefix) => {
                out.push(SEPARATOR);
                append_bytes(&mut out, prefix.as_bytes());
                assert(out@ =~= dataconfig_key(tenant_id@, Some(prefix@)));
            },
            None => {
                assert(out@ =~= dataconfig_key(tenant_id@, None));
            },
        }
        out
    }

    /// The key prefix of the records of the devices of a tenant.
    pub fn _to_device_prefix(tenant_id: &TenantId) -> (r: Vec<u8>)
        ensures
            r@ == device_prefix_key(tenant_id@),
    {
        let mut out: Vec<u8> = Vec::new();
        proof {
            reveal_strlit("device");
        }
        out.push(100);
        out.push(101);
        out.push(118);
        out.push(105);
        out.push(99);
        out.push(101);
        assert(out@ =~= "device"@.map_values(|c: char| c as u8));
        out.push(SEPARATOR);
        append_bytes(&mut out, tenant_id.as_str().as_bytes());
        assert(out@ =~= device_prefix_key(tenant_id@));
        out
    }

    /// The key under which the record of a device is stored.
    pub fn _to_device_metadata_key(tenant_id: &TenantId, device_id: &str) -> (r: Vec<u8>)
        ensures
            r@ == device_metadata_key(tenant_id@, device_id@),
    {
        let mut out = DB::_to_device_prefix(tenant_id);
        out.push(SEPARATOR);
        append_bytes(&mut out, device_id.as_bytes());
        assert(out@ =~= device_metadata_key(tenant_id@, device_id@));
        out
    }
}

} // verus!
