//! Data configurations and device records in the store: which stored device
//! configuration applies to a device, and how the entries of a tenant are
//! listed.

use vstd::prelude::*;
use vstd::utf8::{decode_utf8, valid_utf8};
use crate::dataconfig::{config_from, metrics_of, resolve_config, resolved, DataConfig, DataConfigEntry, MetricSpec};
use crate::db::{
    device_prefix_key, find_separator, first_separator, lossy_text, lossy_text_of,
    tenant_config_key, DatabaseError, DB,
};
use crate::json::{Json, JsonValue};
use crate::keys::{key_starts_with, lemma_lex_lt_asymmetric, lemma_lex_lt_prefix, lex_le, lex_lt, lex_lt_at, starts_with, SEPARATOR};
use crate::models::{device_from, DeviceMetadata, TenantId};

verus! {

/// One entry of the store whose value is a document.
pub type DocumentEntry = (Vec<u8>, Json);

/// What an entry met on the way back from the search key means for the
/// search for a device configuration.
#[derive(Clone, Copy, Debug, PartialEq, Eq, Structural)]
pub enum ConfigMatch {
    /// The entry is the device configuration that applies.
    Match,
    /// The entry is not a device configuration for this device; go on.
    Skip,
    /// The entry lies before the entries of the tenant; nothing applies.
    Stop,
}

/// The device prefix under which a key stores a device configuration of the
/// tenant with key `tenant_key`, if it stores one.
pub open spec fn stored_prefix(key: Seq<u8>, tenant_key: Seq<u8>) -> Option<Seq<u8>> {
    if starts_with(key, tenant_key + seq![SEPARATOR]) {
        Some(key.skip((tenant_key.len() + 1) as int))
    } else {
        None
    }
}

/// Whether a key stores a device configuration that applies to the device:
/// one of the tenant, under a prefix with which the device id begins.
pub open spec fn applies(key: Seq<u8>, tenant_key: Seq<u8>, device_id: Seq<u8>) -> bool {
    stored_prefix(key, tenant_key) matches Some(p) && starts_with(device_id, p)
}

/// What a key means for the search.
pub open spec fn classified(key: Seq<u8>, tenant_key: Seq<u8>, device_id: Seq<u8>) -> ConfigMatch {
    if !starts_with(key, tenant_key) {
        ConfigMatch::Stop
    } else if applies(key, tenant_key, device_id) {
        ConfigMatch::Match
    } else {
        ConfigMatch::Skip
    }
}

/// Decides what a key met on the way back from the search key means.
pub fn classify(key: &[u8], tenant_key: &[u8], device_id: &[u8]) -> (r: ConfigMatch)
    ensures
        r == classified(key@, tenant_key@, device_id@),
{
    if !key_starts_with(key, tenant_key) {
        return ConfigMatch::Stop;
    }
    let t = tenant_key.len();
    let n = key.len();
    let ghost with_sep = tenant_key@ + seq![SEPARATOR];
    if n == t || key[t] != SEPARATOR {
        proof {
            if starts_with(key@, with_sep) {
                assert(key@.take(with_sep.len() as int)[t as int] == with_sep[t as int]);
            }
        }
        return ConfigMatch::Skip;
    }
    proof {
        assert(key@.take(with_sep.len() as int) =~= with_sep) by {
            assert forall|i: int| 0 <= i < with_sep.len() implies key@[i] == with_sep[i] by {
                if i < t {
                    assert(key@.take(t as int)[i] == tenant_key@[i]);
                }
            }
        }
    }
    let rest = vstd::slice::slice_subrange(key, t + 1, n);
    assert(rest@ =~= key@.skip(t + 1));
    if key_starts_with(device_id, rest) {
        ConfigMatch::Match
    } else {
        ConfigMatch::Skip
    }
}

/// Whether the search ends at entry `i` with a match: entry `i` applies, and
/// every entry before it belongs to the tenant and does not apply.
pub open spec fn found_at(
    entries: Seq<DocumentEntry>,
    tenant_key: Seq<u8>,
    device_id: Seq<u8>,
    i: int,
) -> bool {
    &&& 0 <= i < entries.len()
    &&& applies(entries[i].0@, tenant_key, device_id)
    &&& forall|j: int|
        0 <= j < i ==> classified((#[trigger] entries[j]).0@, tenant_key, device_id)
            == ConfigMatch::Skip
}

/// Finds the device configuration that applies among the entries met on the
/// way back from the search key.
pub fn find_device_config(entries: &Vec<DocumentEntry>, tenant_key: &[u8], device_id: &[u8]) -> (r:
    Option<usize>)
    ensures
        match r {
            Some(i) => found_at(entries@, tenant_key@, device_id@, i as int),
            None => forall|i: int| !found_at(entries@, tenant_key@, device_id@, i),
        },
{
    let mut i: usize = 0;
    while i < entries.len()
        invariant
            i <= entries@.len(),
            forall|j: int|
                0 <= j < i ==> classified((#[trigger] entries@[j]).0@, tenant_key@, device_id@)
                    == ConfigMatch::Skip,
        decreases entries@.len() - i,
    {
        match classify(entries[i].0.as_slice(), tenant_key, device_id) {
            ConfigMatch::Match => {
                return Some(i);
            },
            ConfigMatch::Skip => {},
            ConfigMatch::Stop => {
                proof {
                    assert forall|k: int| !found_at(entries@, tenant_key@, device_id@, k) by {
                        if found_at(entries@, tenant_key@, device_id@, k) {
                            if k > i {
                                assert(classified(entries@[i as int].0@, tenant_key@, device_id@)
                                    == ConfigMatch::Skip);
                            } else if k < i {
                                assert(classified(entries@[k].0@, tenant_key@, device_id@)
                                    == ConfigMatch::Skip);
                            } else {
                                lemma_starts_with_head(
                                    entries@[k].0@,
                                    tenant_key@,
                                    seq![SEPARATOR],
                                );
                            }
                        }
                    }
                }
                return None;
            },
        }
        i += 1;
    }
    proof {
        assert forall|k: int| !found_at(entries@, tenant_key@, device_id@, k) by {
            if found_at(entries@, tenant_key@, device_id@, k) {
                assert(classified(entries@[k].0@, tenant_key@, device_id@) == ConfigMatch::Skip);
            }
        }
    }
    None
}

/// What begins with two strings in a row begins with the first of them.
pub proof fn lemma_starts_with_head(s: Seq<u8>, a: Seq<u8>, b: Seq<u8>)
    requires
        starts_with(s, a + b),
    ensures
        starts_with(s, a),
{
    assert(s.take(a.len() as int) =~= a) by {
        assert forall|i: int| 0 <= i < a.len() implies s[i] == a[i] by {
            assert(s.take((a + b).len() as int)[i] == (a + b)[i]);
        }
    }
}

/// The key of the device configuration stored under a prefix.
pub open spec fn prefix_key(tenant_key: Seq<u8>, prefix: Seq<u8>) -> Seq<u8> {
    tenant_key + seq![SEPARATOR] + prefix
}

/// A string sorts after each of its proper prefixes.
pub proof fn lemma_prefix_sorts_first(p: Seq<u8>, q: Seq<u8>)
    requires
        starts_with(q, p),
        p.len() < q.len(),
    ensures
        lex_lt(p, q),
{
    assert forall|i: int| 0 <= i < p.len() implies p[i] == q[i] by {
        assert(q.take(p.len() as int)[i] == q[i]);
    }
    assert(lex_lt_at(p, q, p.len() as int));
}

/// Of two prefixes of one device id, the longer one has the later key.
pub proof fn lemma_longer_prefix_later_key(
    tenant_key: Seq<u8>,
    device_id: Seq<u8>,
    p: Seq<u8>,
    q: Seq<u8>,
)
    requires
        starts_with(device_id, p),
        starts_with(device_id, q),
        p.len() < q.len(),
    ensures
        lex_lt(prefix_key(tenant_key, p), prefix_key(tenant_key, q)),
{
    assert(q.take(p.len() as int) =~= p) by {
        assert forall|i: int| 0 <= i < p.len() implies q[i] == p[i] by {
            assert(device_id.take(p.len() as int)[i] == device_id[i]);
            assert(device_id.take(q.len() as int)[i] == device_id[i]);
        }
    }
    lemma_prefix_sorts_first(p, q);
    lemma_lex_lt_prefix(tenant_key + seq![SEPARATOR], p, q);
}

/// The search key comes after the key of every prefix of the device id, so
/// the way back from the search key passes every configuration that applies.
pub proof fn lemma_search_key_is_last(tenant_key: Seq<u8>, device_id: Seq<u8>, p: Seq<u8>)
    requires
        starts_with(device_id, p),
    ensures
        lex_le(prefix_key(tenant_key, p), prefix_key(tenant_key, device_id)),
{
    if p.len() < device_id.len() {
        lemma_prefix_sorts_first(p, device_id);
        lemma_lex_lt_prefix(tenant_key + seq![SEPARATOR], p, device_id);
    } else {
        assert(p =~= device_id.take(p.len() as int));
        assert(p =~= device_id);
    }
}

/// Whether the keys of the entries fall strictly, as an iterator that walks
/// back yields them.
pub open spec fn descending(entries: Seq<DocumentEntry>) -> bool {
    forall|i: int, j: int|
        0 <= i < j < entries.len() ==> lex_lt((#[trigger] entries[j]).0@, (#[trigger] entries[i]).0@)
}

/// Resolution is longest-prefix: among entries met in falling key order, the
/// device configuration that the search finds is stored under the longest
/// prefix of the device id under which any of the entries is stored.
pub proof fn lemma_longest_prefix_wins(
    entries: Seq<DocumentEntry>,
    tenant_key: Seq<u8>,
    device_id: Seq<u8>,
    i: int,
    j: int,
)
    requires
        descending(entries),
        found_at(entries, tenant_key, device_id, i),
        0 <= j < entries.len(),
        applies(entries[j].0@, tenant_key, device_id),
    ensures
        stored_prefix(entries[j].0@, tenant_key)->Some_0.len() <= stored_prefix(
            entries[i].0@,
            tenant_key,
        )->Some_0.len(),
{
    let ki = entries[i].0@;
    let kj = entries[j].0@;
    let pi = stored_prefix(ki, tenant_key)->Some_0;
    let pj = stored_prefix(kj, tenant_key)->Some_0;
    let head = tenant_key + seq![SEPARATOR];
    assert(ki =~= prefix_key(tenant_key, pi)) by {
        assert(ki.take(head.len() as int) == head);
        assert(ki =~= ki.take(head.len() as int) + ki.skip(head.len() as int));
    }
    assert(kj =~= prefix_key(tenant_key, pj)) by {
        assert(kj.take(head.len() as int) == head);
        assert(kj =~= kj.take(head.len() as int) + kj.skip(head.len() as int));
    }
    if j < i {
        assert(classified(entries[j].0@, tenant_key, device_id) == ConfigMatch::Skip);
    } else if j > i {
        assert(lex_lt(kj, ki));
        if pj.len() > pi.len() {
            lemma_longer_prefix_later_key(tenant_key, device_id, pi, pj);
            lemma_lex_lt_asymmetric(kj, ki);
        }
    }
}

/// The configuration that a stored document stands for; a document that
/// stands for none counts as the configuration without metrics.
pub open spec fn config_or_empty(v: JsonValue) -> Seq<MetricSpec> {
    match config_from(v) {
        Some(c) => c,
        None => Seq::empty(),
    }
}

/// The view of an optional configuration.
pub open spec fn optional_config(c: Option<DataConfig>) -> Option<Seq<MetricSpec>> {
    match c {
        Some(x) => Some(x@),
        None => None,
    }
}

/// The third of the fields of a key that the separator divides, if the key
/// has three fields.
pub open spec fn third_field(key: Seq<u8>) -> Option<Seq<u8>> {
    let first = first_separator(key);
    if first >= key.len() {
        None
    } else {
        let after_first = key.skip(first + 1);
        let second = first_separator(after_first);
        if second >= after_first.len() {
            None
        } else {
            let after_second = after_first.skip(second + 1);
            Some(after_second.take(first_separator(after_second)))
        }
    }
}

proof fn lemma_first_separator_from(key: Seq<u8>, from: int, p: int)
    requires
        0 <= from <= p <= key.len(),
        forall|i: int| from <= i < p ==> key[i] != SEPARATOR,
        p < key.len() ==> key[p] == SEPARATOR,
    ensures
        first_separator(key.skip(from)) == p - from,
    decreases p - from,
{
    let rest = key.skip(from);
    if from < p {
        assert(rest[0] == key[from]);
        assert(rest.drop_first() =~= key.skip(from + 1));
        lemma_first_separator_from(key, from + 1, p);
    } else {
        if p < key.len() {
            assert(rest[0] == key[p]);
        }
    }
}

/// Reads the third of the fields of a key that the separator divides.
pub fn read_third_field(key: &[u8]) -> (r: Option<Vec<u8>>)
    ensures
        match r {
            Some(f) => third_field(key@) == Some(f@),
            None => third_field(key@) is None,
        },
{
    let n = key.len();
    proof {
        assert(key@.skip(0) =~= key@);
    }
    match find_separator(key, 0) {
        Some(first) => {
            proof {
                lemma_first_separator_from(key@, 0, first as int);
            }
            match find_separator(key, first + 1) {
                Some(second) => {
                    proof {
                        lemma_first_separator_from(key@, first + 1, second as int);
                        assert(key@.skip(first + 1).skip(second - first) =~= key@.skip(second + 1));
                    }
                    let end = match find_separator(key, second + 1) {
                        Some(third) => third,
                        None => n,
                    };
                    proof {
                        lemma_first_separator_from(key@, second + 1, end as int);
                    }
                    let mut out: Vec<u8> = Vec::new();
                    crate::db::append_bytes(&mut out, vstd::slice::slice_subrange(key, second + 1, end));
                    assert(out@ =~= key@.skip(second + 1).take(end - second - 1));
                    Some(out)
                },
                None => {
                    proof {
                        lemma_first_separator_from(key@, first + 1, n as int);
                    }
                    None
                },
            }
        },
        None => {
            proof {
                lemma_first_separator_from(key@, 0, n as int);
            }
            None
        },
    }
}

/// How many entries a listing takes: those before the first whose key does
/// not begin with the prefix.
pub open spec fn listed(entries: Seq<DocumentEntry>, prefix: Seq<u8>, n: nat) -> bool {
    &&& n <= entries.len()
    &&& forall|i: int| 0 <= i < n ==> starts_with((#[trigger] entries[i]).0@, prefix)
    &&& n < entries.len() ==> !starts_with(entries[n as int].0@, prefix)
}

impl DB {
    /// The data configuration that applies to a tenant or to one of its
    /// devices.
    ///
    /// `tenant_doc` is what is stored under the key of the tenant, if
    /// anything. `entries` are the entries that an iterator yields when it
    /// walks back from the key of the device id. Without a device id the
    /// tenant configuration applies. With one, the first entry that is
    /// stored under a prefix of the device id is the device configuration;
    /// it is laid over the tenant configuration.
    pub fn get_data_config(
        tenant_doc: Option<&Json>,
        entries: &Vec<DocumentEntry>,
        tenant_id: &TenantId,
        device_id: Option<&str>,
    ) -> (r: Option<DataConfig>)
        ensures
            ({
                let tenant_cfg = match tenant_doc {
                    Some(doc) => Some(config_or_empty(doc@)),
                    None => None,
                };
                match device_id {
                    None => optional_config(r) == tenant_cfg,
                    Some(d) => {
                        let d_bytes = vstd::utf8::encode_utf8(d@);
                        let t_key = tenant_config_key(tenant_id@);
                        &&& forall|i: int|
                            found_at(entries@, t_key, d_bytes, i) ==> optional_config(r)
                                == resolved(
                                tenant_cfg,
                                Some(config_or_empty((#[trigger] entries@[i]).1@)),
                            )
                        &&& (forall|i: int| !found_at(entries@, t_key, d_bytes, i))
                            ==> optional_config(r) == tenant_cfg
                    },
                }
            }),
    {
        let tenant_cfg = match tenant_doc {
            Some(doc) => Some(DataConfig::from_value(doc)),
            None => None,
        };
        match device_id {
            None => tenant_cfg,
            Some(d) => {
                let tenant_key = DB::_to_dataconfig_key(tenant_id, None);
                match find_device_config(entries, tenant_key.as_slice(), d.as_bytes()) {
                    Some(i) => {
                        proof {
                            let t_key = tenant_config_key(tenant_id@);
                            let d_bytes = vstd::utf8::encode_utf8(d@);
                            assert forall|k: int| found_at(entries@, t_key, d_bytes, k) implies k
                                == i by {
                                if k < i {
                                    assert(classified(entries@[k].0@, t_key, d_bytes)
                                        == ConfigMatch::Skip);
                                } else if k > i {
                                    assert(classified(entries@[i as int].0@, t_key, d_bytes)
                                        == ConfigMatch::Skip);
                                }
                            }
                        }
                        let device_cfg = DataConfig::from_value(&entries[i].1);
                        resolve_config(tenant_cfg, Some(device_cfg))
                    },
                    None => tenant_cfg,
                }
            },
        }
    }

    /// The stored data configurations of a tenant, from the entries that a
    /// forward iterator yields when it is seeded at the key of the tenant.
    ///
    /// Entries are taken while their keys begin with the key of the tenant.
    /// Each gives the tenant, the metrics of its document, and as device
    /// prefix the third field of its key, if the key has one.
    pub fn list_data_configs(entries: &Vec<DocumentEntry>, tenant_id: &TenantId) -> (r: Vec<
        DataConfigEntry,
    >)
        ensures
            listed(entries@, tenant_config_key(tenant_id@), r@.len() as nat),
            forall|i: int|
                0 <= i < r@.len() ==> {
                    &&& (#[trigger] r@[i]).tenant_id@ == tenant_id@
                    &&& metrics_of(r@[i].metrics@) == config_or_empty(entries@[i].1@)
                    &&& match third_field(entries@[i].0@) {
                        Some(f) => {
                            &&& r@[i].device_prefix matches Some(text)
                            &&& text@ == lossy_text_of(f)
                            &&& valid_utf8(f) ==> text@ == decode_utf8(f)
                        },
                        None => r@[i].device_prefix is None,
                    }
                },
    {
        let prefix = DB::_to_dataconfig_key(tenant_id, None);
        let mut out: Vec<DataConfigEntry> = Vec::new();
        let mut i: usize = 0;
        let mut go_on = true;
        while go_on && i < entries.len()
            invariant
                i <= entries@.len(),
                out@.len() == i,
                !go_on ==> i < entries@.len() && !starts_with(entries@[i as int].0@, prefix@),
                prefix@ == tenant_config_key(tenant_id@),
                forall|k: int| 0 <= k < i ==> starts_with((#[trigger] entries@[k]).0@, prefix@),
                forall|k: int|
                    0 <= k < i ==> {
                        &&& (#[trigger] out@[k]).tenant_id@ == tenant_id@
                        &&& metrics_of(out@[k].metrics@) == config_or_empty(entries@[k].1@)
                        &&& match third_field(entries@[k].0@) {
                            Some(f) => {
                                &&& out@[k].device_prefix matches Some(text)
                                &&& text@ == lossy_text_of(f)
                                &&& valid_utf8(f) ==> text@ == decode_utf8(f)
                            },
                            None => out@[k].device_prefix is None,
                        }
                    },
            decreases entries@.len() - i + (if go_on { 1int } else { 0 }),
        {
            if !key_starts_with(entries[i].0.as_slice(), prefix.as_slice()) {
                go_on = false;
            } else {
                let config = DataConfig::from_value(&entries[i].1);
                let device_prefix = match read_third_field(entries[i].0.as_slice()) {
                    Some(f) => Some(lossy_text(f.as_slice())),
                    None => None,
                };
                out.push(
                    DataConfigEntry {
                        tenant_id: tenant_id.clone(),
                        device_prefix,
                        metrics: config.metrics,
                    },
                );
                i += 1;
            }
        }
        out
    }

    /// The records of the devices of a tenant, from the entries that a
    /// forward iterator yields when it is seeded at the key prefix of the
    /// tenant's devices.
    ///
    /// Entries are taken while their keys begin with that prefix. A value
    /// that is not the document of a device record fails the listing.
    pub fn list_devices(entries: &Vec<DocumentEntry>, tenant_id: &TenantId) -> (r: Result<
        Vec<DeviceMetadata>,
        DatabaseError,
    >)
        ensures
            match r {
                Ok(devices) => {
                    &&& listed(entries@, device_prefix_key(tenant_id@), devices@.len() as nat)
                    &&& forall|i: int|
                        0 <= i < devices@.len() ==> device_from(entries@[i].1@) == Some(
                            (#[trigger] devices@[i])@,
                        )
                },
                Err(e) => {
                    &&& e is DatabaseValueError
                    &&& exists|n: int|
                        {
                            &&& 0 <= n < entries@.len()
                            &&& device_from((#[trigger] entries@[n]).1@) is None
                            &&& forall|i: int|
                                0 <= i <= n ==> starts_with(
                                    (#[trigger] entries@[i]).0@,
                                    device_prefix_key(tenant_id@),
                                )
                        }
                },
            },
    {
        let prefix = DB::_to_device_prefix(tenant_id);
        let mut out: Vec<DeviceMetadata> = Vec::new();
        let mut i: usize = 0;
        let mut go_on = true;
        while go_on && i < entries.len()
            invariant
                i <= entries@.len(),
                out@.len() == i,
                !go_on ==> i < entries@.len() && !starts_with(entries@[i as int].0@, prefix@),
                prefix@ == device_prefix_key(tenant_id@),
                forall|k: int| 0 <= k < i ==> starts_with((#[trigger] entries@[k]).0@, prefix@),
                forall|k: int|
                    0 <= k < i ==> device_from(entries@[k].1@) == Some((#[trigger] out@[k])@),
            decreases entries@.len() - i + (if go_on { 1int } else { 0 }),
        {
            if !key_starts_with(entries[i].0.as_slice(), prefix.as_slice()) {
                go_on = false;
            } else {
                match DeviceMetadata::from_value(&entries[i].1) {
                    Some(d) => {
                        out.push(d);
                        i += 1;
                    },
                    None => {
                        proof {
                            let n = i as int;
                            assert(device_from(entries@[n].1@) is None);
                            assert forall|k: int| 0 <= k <= n implies starts_with(
                                (#[trigger] entries@[k]).0@,
                                device_prefix_key(tenant_id@),
                            ) by {}
                        }
                        return Err(
                            DatabaseError::DatabaseValueError(
                                "Failed to deserialize device metadata".to_owned(),
                            ),
                        );
                    },
                }
            }
        }
        Ok(out)
    }
}

} // verus!
