//! Folding an update document into a stored document, with per-leaf
//! timestamps, and the difference between reported and desired state.

use vstd::prelude::*;
use crate::json::{find_key, has_key, is_first_at, json_eq, key_index, keys_distinct, lemma_first_is_key_index, lemma_has_key_first, lemma_lookup_remove_key, lemma_lookup_set_key, lemma_object_view, lookup, members_of, remove_key, set_key, Json, JsonNumber, JsonValue, Member};

verus! {

/// The timestamp leaf written into metadata for a leaf written at `ts`.
pub open spec fn stamp(ts: u64) -> JsonValue {
    JsonValue::Number(JsonNumber::PosInt(ts))
}

/// The value stored under `key`, or null when there is none.
pub open spec fn child(members: Seq<Member>, key: Seq<char>) -> JsonValue {
    match lookup(members, key) {
        Some(v) => v,
        None => JsonValue::Null,
    }
}

/// A stored node with null promoted to the empty object.
pub open spec fn promoted(v: JsonValue) -> JsonValue {
    if v is Null {
        JsonValue::Object(Seq::empty())
    } else {
        v
    }
}

/// The stored document and its metadata after folding `upd` into them at
/// time `ts`.
///
/// An object descends member by member; a null member deletes its key from
/// both documents; any other member replaces the stored value and stamps the
/// metadata leaf. An object folded into a stored array or primitive leaves the
/// stored value as it is.
pub open spec fn merge_value(cur: JsonValue, upd: JsonValue, meta: JsonValue, ts: u64) -> (
    JsonValue,
    JsonValue,
)
    decreases upd, 0nat,
{
    match upd {
        JsonValue::Object(um) => {
            match promoted(cur) {
                JsonValue::Object(cm) => {
                    let r = merge_members(cm, um, promoted(meta)->Object_0, ts, um.len());
                    (JsonValue::Object(r.0), JsonValue::Object(r.1))
                },
                _ => (cur, promoted(meta)),
            }
        },
        JsonValue::Null => (JsonValue::Null, JsonValue::Null),
        _ => (upd, stamp(ts)),
    }
}

/// The member lists of a stored object and of its metadata after folding in
/// the first `n` members of an update object.
pub open spec fn merge_members(
    cm: Seq<Member>,
    um: Seq<Member>,
    mm: Seq<Member>,
    ts: u64,
    n: nat,
) -> (Seq<Member>, Seq<Member>)
    decreases um, n,
{
    if n == 0 || n > um.len() {
        (cm, mm)
    } else {
        let acc = merge_members(cm, um, mm, ts, (n - 1) as nat);
        let key = um[n - 1].0;
        let u = um[n - 1].1;
        if u is Null {
            (remove_key(acc.0, key), remove_key(acc.1, key))
        } else {
            let sub = merge_value(child(acc.0, key), u, child(acc.1, key), ts);
            (set_key(acc.0, key, sub.0), set_key(acc.1, key, sub.1))
        }
    }
}

/// Whether folding `upd` into `cur` finds object-shaped metadata wherever it
/// descends into an object.
pub open spec fn merge_defined(cur: JsonValue, upd: JsonValue, meta: JsonValue, ts: u64) -> bool
    decreases upd, 0nat,
{
    match upd {
        JsonValue::Object(um) => {
            match promoted(cur) {
                JsonValue::Object(cm) => {
                    &&& promoted(meta) is Object
                    &&& members_defined(cm, um, promoted(meta)->Object_0, ts, um.len())
                },
                _ => true,
            }
        },
        _ => true,
    }
}

/// [`merge_defined`] for the first `n` members of an update object.
pub open spec fn members_defined(
    cm: Seq<Member>,
    um: Seq<Member>,
    mm: Seq<Member>,
    ts: u64,
    n: nat,
) -> bool
    decreases um, n,
{
    if n == 0 || n > um.len() {
        true
    } else {
        let acc = merge_members(cm, um, mm, ts, (n - 1) as nat);
        let key = um[n - 1].0;
        let u = um[n - 1].1;
        &&& members_defined(cm, um, mm, ts, (n - 1) as nat)
        &&& merge_defined(child(acc.0, key), u, child(acc.1, key), ts)
    }
}

/// Whether a value is an object without members.
pub open spec fn is_empty_object(v: JsonValue) -> bool {
    v matches JsonValue::Object(members) && members.len() == 0
}

/// What `des` asks for beyond `rep`, or `None` when it asks for nothing more.
///
/// Two objects differ by the members of `des` that `rep` lacks or holds with
/// another value, compared recursively, and two objects without such a member
/// do not differ; any other pair differs by `des` itself when the two are
/// unequal.
pub open spec fn diff_value(rep: JsonValue, des: JsonValue) -> Option<JsonValue>
    decreases des, 0nat,
{
    match (rep, des) {
        (JsonValue::Object(rm), JsonValue::Object(dm)) => {
            let out = diff_members(rm, dm, dm.len());
            if out.len() == 0 {
                None
            } else {
                Some(JsonValue::Object(out))
            }
        },
        _ => if json_eq(rep, des) {
            None
        } else {
            Some(des)
        },
    }
}

/// The difference contributed by the first `n` members of a desired object.
pub open spec fn diff_members(rm: Seq<Member>, dm: Seq<Member>, n: nat) -> Seq<Member>
    decreases dm, n,
{
    if n == 0 || n > dm.len() {
        Seq::empty()
    } else {
        let acc = diff_members(rm, dm, (n - 1) as nat);
        let key = dm[n - 1].0;
        let d = dm[n - 1].1;
        match lookup(rm, key) {
            Some(r) => if json_eq(r, d) {
                acc
            } else {
                match diff_value(r, d) {
                    Some(x) => acc.push((key, x)),
                    None => acc,
                }
            },
            None => acc.push((key, d)),
        }
    }
}

/// The delta document for a pair of reported and desired documents: the
/// difference, or null when there is none or when it is an object without
/// members.
pub open spec fn delta_of(rep: JsonValue, des: JsonValue) -> JsonValue {
    match diff_value(rep, des) {
        Some(d) => if is_empty_object(d) {
            JsonValue::Null
        } else {
            d
        },
        None => JsonValue::Null,
    }
}

proof fn lemma_members_remove(v: Seq<(String, Json)>, p: int)
    requires
        0 <= p < v.len(),
    ensures
        members_of(v.remove(p)) == members_of(v).remove(p),
{
    assert(members_of(v.remove(p)) =~= members_of(v).remove(p));
}

proof fn lemma_members_insert(v: Seq<(String, Json)>, p: int, e: (String, Json))
    requires
        0 <= p <= v.len(),
    ensures
        members_of(v.insert(p, e)) == members_of(v).insert(p, (e.0@, e.1@)),
{
    assert(members_of(v.insert(p, e)) =~= members_of(v).insert(p, (e.0@, e.1@)));
}

proof fn lemma_members_push(v: Seq<(String, Json)>, e: (String, Json))
    ensures
        members_of(v.push(e)) == members_of(v).push((e.0@, e.1@)),
{
    assert(members_of(v.push(e)) =~= members_of(v).push((e.0@, e.1@)));
}

/// Deletes the entry stored under `key`, if there is one.
pub fn remove_entry(entries: &mut Vec<(String, Json)>, key: &String)
    ensures
        members_of(final(entries)@) == remove_key(members_of(old(entries)@), key@),
{
    match find_key(entries, key) {
        Some(p) => {
            proof {
                lemma_first_is_key_index(members_of(entries@), key@, p as int);
                lemma_members_remove(entries@, p as int);
            }
            let _ = entries.remove(p);
        },
        None => {},
    }
}

/// Stores `value` under `key`: in place when the key is present, at the end
/// otherwise.
pub fn put_entry(entries: &mut Vec<(String, Json)>, key: &String, value: Json)
    ensures
        members_of(final(entries)@) == set_key(members_of(old(entries)@), key@, value@),
{
    match find_key(entries, key) {
        Some(p) => {
            proof {
                lemma_first_is_key_index(members_of(entries@), key@, p as int);
                lemma_members_remove(entries@, p as int);
                lemma_members_insert(entries@.remove(p as int), p as int, (*key, value));
                assert(members_of(entries@).remove(p as int).insert(p as int, (key@, value@))
                    =~= members_of(entries@).update(p as int, (key@, value@)));
            }
            let _ = entries.remove(p);
            entries.insert(p, (key.clone(), value));
        },
        None => {
            proof {
                lemma_members_push(entries@, (*key, value));
            }
            entries.push((key.clone(), value));
        },
    }
}

/// A copy of the value stored under `key`, or null when there is none.
pub fn child_of(entries: &Vec<(String, Json)>, key: &String) -> (r: Json)
    ensures
        r@ == child(members_of(entries@), key@),
{
    match find_key(entries, key) {
        Some(p) => {
            proof {
                lemma_first_is_key_index(members_of(entries@), key@, p as int);
            }
            entries[p].1.clone()
        },
        None => Json::Null,
    }
}

/// Folds `upd` into the stored document `cur` and its metadata `meta` at time
/// `ts`, and returns the new document and the new metadata.
#[verifier::loop_isolation(false)]
pub fn merge_json(cur: Json, upd: &Json, meta: Json, ts: u64) -> (r: (Json, Json))
    requires
        merge_defined(cur@, upd@, meta@, ts),
    ensures
        (r.0@, r.1@) == merge_value(cur@, upd@, meta@, ts),
    decreases upd,
{
    match upd {
        Json::Object(uentries) => {
            proof {
                lemma_object_view(*uentries);
            }
            let ghost um = members_of(uentries@);
            let meta0 = if meta.is_null() {
                let e: Vec<(String, Json)> = Vec::new();
                proof {
                    lemma_object_view(e);
                    assert(members_of(e@) =~= Seq::empty());
                }
                Json::Object(e)
            } else {
                meta
            };
            let cur0 = if cur.is_null() {
                let e: Vec<(String, Json)> = Vec::new();
                proof {
                    lemma_object_view(e);
                    assert(members_of(e@) =~= Seq::empty());
                }
                Json::Object(e)
            } else {
                cur
            };
            assert(cur0@ == promoted(cur@));
            assert(meta0@ == promoted(meta@));
            match cur0 {
                Json::Object(centries) => {
                    let mut centries = centries;
                    proof {
                        lemma_object_view(centries);
                    }
                    match meta0 {
                        Json::Object(mentries) => {
                            let mut mentries = mentries;
                            proof {
                                lemma_object_view(mentries);
                            }
                            let ghost cm = members_of(centries@);
                            let ghost mm = members_of(mentries@);
                            let mut i: usize = 0;
                            while i < uentries.len()
                                invariant
                                    i <= uentries.len(),
                                    um.len() == uentries.len(),
                                    members_defined(cm, um, mm, ts, um.len()),
                                    (members_of(centries@), members_of(mentries@)) == merge_members(
                                        cm,
                                        um,
                                        mm,
                                        ts,
                                        i as nat,
                                    ),
                                decreases uentries.len() - i,
                            {
                                proof {
                                    lemma_defined_prefix(cm, um, mm, ts, um.len(), (i + 1) as nat);
                                }
                                let key = &uentries[i].0;
                                let u = &uentries[i].1;
                                assert(um[i as int] == (key@, u@));
                                if u.is_null() {
                                    remove_entry(&mut centries, key);
                                    remove_entry(&mut mentries, key);
                                } else {
                                    let c = child_of(&centries, key);
                                    let m = child_of(&mentries, key);
                                    let sub = merge_json(c, u, m, ts);
                                    put_entry(&mut centries, key, sub.0);
                                    put_entry(&mut mentries, key, sub.1);
                                }
                                i += 1;
                            }
                            proof {
                                lemma_object_view(centries);
                                lemma_object_view(mentries);
                            }
                            (Json::Object(centries), Json::Object(mentries))
                        },
                        other => {
                            proof {
                                assert(false);
                            }
                            (Json::Object(centries), other)
                        },
                    }
                },
                other => (other, meta0),
            }
        },
        Json::Null => (Json::Null, Json::Null),
        _ => (upd.clone(), Json::Number(JsonNumber::PosInt(ts))),
    }
}

/// Definedness of a fold implies definedness of each shorter fold.
proof fn lemma_defined_prefix(
    cm: Seq<Member>,
    um: Seq<Member>,
    mm: Seq<Member>,
    ts: u64,
    n: nat,
    k: nat,
)
    requires
        members_defined(cm, um, mm, ts, n),
        k <= n <= um.len(),
    ensures
        members_defined(cm, um, mm, ts, k),
    decreases n,
{
    if k < n {
        lemma_defined_prefix(cm, um, mm, ts, (n - 1) as nat, k);
    }
}

/// Computes what `des` asks for beyond `rep`.
#[verifier::loop_isolation(false)]
pub fn diff_json(rep: &Json, des: &Json) -> (r: Option<Json>)
    ensures
        match r {
            Some(d) => diff_value(rep@, des@) == Some(d@),
            None => diff_value(rep@, des@) is None,
        },
    decreases des,
{
    match (rep, des) {
        (Json::Object(rentries), Json::Object(dentries)) => {
            proof {
                lemma_object_view(*rentries);
                lemma_object_view(*dentries);
            }
            let ghost rm = members_of(rentries@);
            let ghost dm = members_of(dentries@);
            let mut out: Vec<(String, Json)> = Vec::new();
            assert(members_of(out@) =~= Seq::empty());
            let mut i: usize = 0;
            while i < dentries.len()
                invariant
                    i <= dentries.len(),
                    members_of(out@) == diff_members(rm, dm, i as nat),
                decreases dentries.len() - i,
            {
                let key = &dentries[i].0;
                let d = &dentries[i].1;
                assert(dm[i as int] == (key@, d@));
                match find_key(rentries, key) {
                    Some(p) => {
                        proof {
                            lemma_first_is_key_index(rm, key@, p as int);
                        }
                        let r = &rentries[p].1;
                        if !r.equals(d) {
                            match diff_json(r, d) {
                                Some(x) => {
                                    proof {
                                        lemma_members_push(out@, (*key, x));
                                    }
                                    out.push((key.clone(), x));
                                },
                                None => {},
                            }
                        }
                    },
                    None => {
                        let dc = d.clone();
                        proof {
                            lemma_members_push(out@, (*key, dc));
                        }
                        out.push((key.clone(), dc));
                    },
                }
                i += 1;
            }
            if out.len() == 0 {
                None
            } else {
                proof {
                    lemma_object_view(out);
                }
                Some(Json::Object(out))
            }
        },
        _ => {
            if rep.equals(des) {
                None
            } else {
                Some(des.clone())
            }
        },
    }
}

/// Computes the delta document for a pair of reported and desired documents.
pub fn delta_json(rep: &Json, des: &Json) -> (r: Json)
    ensures
        r@ == delta_of(rep@, des@),
{
    match diff_json(rep, des) {
        Some(d) => if has_no_member(&d) {
            Json::Null
        } else {
            d
        },
        None => Json::Null,
    }
}

/// Whether a document is an object without members.
pub fn has_no_member(v: &Json) -> (r: bool)
    ensures
        r == is_empty_object(v@),
{
    match v {
        Json::Object(entries) => {
            proof {
                lemma_object_view(*entries);
            }
            entries.len() == 0
        },
        _ => false,
    }
}


/// Whether metadata `m` accounts for the stored document `s`: an object is
/// matched by an object with the same keys in the same places, member by
/// member; any other value but null is matched by a timestamp, which is a
/// non-negative integer of seconds; null is matched by null or by the empty
/// object.
pub open spec fn stamped(s: JsonValue, m: JsonValue) -> bool
    decreases s,
{
    match s {
        JsonValue::Null => m is Null || m == JsonValue::Object(Seq::empty()),
        JsonValue::Object(sm) => {
            &&& m is Object
            &&& members_stamped(sm, m->Object_0)
        },
        _ => m matches JsonValue::Number(JsonNumber::PosInt(_)),
    }
}

/// [`stamped`] for the member lists of a stored object and of its metadata.
pub open spec fn members_stamped(sm: Seq<Member>, mm: Seq<Member>) -> bool
    decreases sm,
{
    &&& sm.len() == mm.len()
    &&& forall|i: int|
        0 <= i < sm.len() ==> (#[trigger] sm[i]).0 == mm[i].0 && stamped(sm[i].1, mm[i].1)
}

/// Whether every value of a member list is well-formed and no key occurs
/// twice.
pub open spec fn members_wf(c: Seq<Member>) -> bool {
    JsonValue::Object(c).wf()
}

proof fn lemma_same_keys_index(c: Seq<Member>, m: Seq<Member>, k: Seq<char>)
    requires
        c.len() == m.len(),
        forall|i: int| 0 <= i < c.len() ==> (#[trigger] c[i]).0 == m[i].0,
    ensures
        has_key(c, k) == has_key(m, k),
        has_key(c, k) ==> key_index(c, k) == key_index(m, k),
{
    if has_key(c, k) {
        lemma_has_key_first(c, k);
        let p = key_index(c, k);
        assert(m[p].0 == k);
        assert forall|j: int| 0 <= j < p implies (#[trigger] m[j]).0 != k by {
            assert(c[j].0 != k);
        }
        assert(is_first_at(m, k, p));
        lemma_first_is_key_index(m, k, p);
    } else if has_key(m, k) {
        let i = choose|i: int| 0 <= i < m.len() && (#[trigger] m[i]).0 == k;
        assert(c[i].0 == k);
    }
}

/// A stored document and metadata that accounts for it stay so under any
/// well-formed update, and the fold finds the metadata it needs.
pub proof fn lemma_merge_keeps_stamped(cur: JsonValue, upd: JsonValue, meta: JsonValue, ts: u64)
    requires
        cur.wf(),
        meta.wf(),
        upd.wf(),
        stamped(cur, meta),
    ensures
        merge_defined(cur, upd, meta, ts),
        upd !is Null ==> stamped(merge_value(cur, upd, meta, ts).0, merge_value(cur, upd, meta, ts).1),
        merge_value(cur, upd, meta, ts).0.wf(),
        merge_value(cur, upd, meta, ts).1.wf(),
    decreases upd, 0nat,
{
    match upd {
        JsonValue::Object(um) => {
            match promoted(cur) {
                JsonValue::Object(cm) => {
                    let mm = promoted(meta)->Object_0;
                    lemma_fold_keeps_stamped(cm, um, mm, ts, um.len());
                },
                _ => {},
            }
        },
        _ => {},
    }
}

/// [`lemma_merge_keeps_stamped`] for the fold over the first `n` members of
/// an update object.
pub proof fn lemma_fold_keeps_stamped(
    cm: Seq<Member>,
    um: Seq<Member>,
    mm: Seq<Member>,
    ts: u64,
    n: nat,
)
    requires
        members_wf(cm),
        members_wf(mm),
        members_wf(um),
        members_stamped(cm, mm),
        n <= um.len(),
    ensures
        members_defined(cm, um, mm, ts, n),
        members_stamped(merge_members(cm, um, mm, ts, n).0, merge_members(cm, um, mm, ts, n).1),
        members_wf(merge_members(cm, um, mm, ts, n).0),
        members_wf(merge_members(cm, um, mm, ts, n).1),
    decreases um, n,
{
    if n > 0 {
        lemma_fold_keeps_stamped(cm, um, mm, ts, (n - 1) as nat);
        let acc = merge_members(cm, um, mm, ts, (n - 1) as nat);
        let c = acc.0;
        let m = acc.1;
        let key = um[n - 1].0;
        let u = um[n - 1].1;
        assert(u.wf());
        lemma_same_keys_index(c, m, key);
        if u is Null {
            lemma_lookup_remove_key(c, key, key);
            lemma_lookup_remove_key(m, key, key);
            if has_key(c, key) {
                lemma_has_key_first(c, key);
            }
            assert(merge_defined(child(c, key), u, child(m, key), ts));
            assert(members_defined(cm, um, mm, ts, n));
        } else {
            if has_key(c, key) {
                lemma_has_key_first(c, key);
                let p = key_index(c, key);
                assert(stamped(c[p].1, m[p].1));
                assert(c[p].1.wf());
                assert(m[p].1.wf());
            }
            let cc = child(c, key);
            let mc = child(m, key);
            lemma_merge_keeps_stamped(cc, u, mc, ts);
            let sub = merge_value(cc, u, mc, ts);
            lemma_lookup_set_key(c, key, sub.0, key);
            lemma_lookup_set_key(m, key, sub.1, key);
            let c2 = set_key(c, key, sub.0);
            let m2 = set_key(m, key, sub.1);
            assert(merge_defined(cc, u, mc, ts));
            assert(members_defined(cm, um, mm, ts, n));
            assert forall|i: int| 0 <= i < c2.len() implies (#[trigger] c2[i]).0 == m2[i].0
                && stamped(c2[i].1, m2[i].1) && c2[i].1.wf() && m2[i].1.wf() by {
                if has_key(c, key) {
                    if i != key_index(c, key) {
                        assert(c2[i] == c[i]);
                        assert(m2[i] == m[i]);
                        assert(c[i].0 == m[i].0 && stamped(c[i].1, m[i].1));
                    }
                } else {
                    if i < c.len() {
                        assert(c2[i] == c[i]);
                        assert(m2[i] == m[i]);
                        assert(c[i].0 == m[i].0 && stamped(c[i].1, m[i].1));
                    }
                }
            }
        }
    }
}


/// The value found by descending from `v` through the keys of `path`.
pub open spec fn at_path(v: JsonValue, path: Seq<Seq<char>>) -> Option<JsonValue>
    decreases path.len(),
{
    if path.len() == 0 {
        Some(v)
    } else {
        match v.member(path[0]) {
            Some(c) => at_path(c, path.drop_first()),
            None => None,
        }
    }
}

/// What a fold leaves under a key for which the update holds `u`: nothing
/// when `u` is null, else the fold of `u` into what was stored under the key.
pub open spec fn folded_member(
    cm: Seq<Member>,
    mm: Seq<Member>,
    q: Seq<char>,
    u: JsonValue,
    ts: u64,
) -> (Option<JsonValue>, Option<JsonValue>) {
    if u is Null {
        (None, None)
    } else {
        let sub = merge_value(child(cm, q), u, child(mm, q), ts);
        (Some(sub.0), Some(sub.1))
    }
}

/// Key by key, a fold over an update with distinct keys leaves under each key
/// of the update what [`folded_member`] says, and every other key untouched.
pub proof fn lemma_fold_lookup(
    cm: Seq<Member>,
    um: Seq<Member>,
    mm: Seq<Member>,
    ts: u64,
    n: nat,
    q: Seq<char>,
)
    requires
        keys_distinct(cm),
        keys_distinct(mm),
        keys_distinct(um),
        n <= um.len(),
    ensures
        keys_distinct(merge_members(cm, um, mm, ts, n).0),
        keys_distinct(merge_members(cm, um, mm, ts, n).1),
        forall|j: int|
            0 <= j < n && (#[trigger] um[j]).0 == q ==> {
                &&& lookup(merge_members(cm, um, mm, ts, n).0, q) == folded_member(
                    cm,
                    mm,
                    q,
                    um[j].1,
                    ts,
                ).0
                &&& lookup(merge_members(cm, um, mm, ts, n).1, q) == folded_member(
                    cm,
                    mm,
                    q,
                    um[j].1,
                    ts,
                ).1
            },
        (forall|j: int| 0 <= j < n ==> (#[trigger] um[j]).0 != q) ==> {
            &&& lookup(merge_members(cm, um, mm, ts, n).0, q) == lookup(cm, q)
            &&& lookup(merge_members(cm, um, mm, ts, n).1, q) == lookup(mm, q)
        },
    decreases n,
{
    if n > 0 {
        let acc = merge_members(cm, um, mm, ts, (n - 1) as nat);
        let key = um[n - 1].0;
        let u = um[n - 1].1;
        lemma_fold_lookup(cm, um, mm, ts, (n - 1) as nat, q);
        lemma_fold_lookup(cm, um, mm, ts, (n - 1) as nat, key);
        assert forall|j: int| 0 <= j < n - 1 implies (#[trigger] um[j]).0 != key by {
            assert(um[j].0 != um[n - 1].0);
        }
        assert(child(acc.0, key) == child(cm, key));
        assert(child(acc.1, key) == child(mm, key));
        let r = merge_members(cm, um, mm, ts, n);
        if u is Null {
            lemma_lookup_remove_key(acc.0, key, q);
            lemma_lookup_remove_key(acc.1, key, q);
        } else {
            let sub = merge_value(child(acc.0, key), u, child(acc.1, key), ts);
            lemma_lookup_set_key(acc.0, key, sub.0, q);
            lemma_lookup_set_key(acc.1, key, sub.1, q);
        }
        assert forall|j: int| 0 <= j < n && (#[trigger] um[j]).0 == q implies lookup(r.0, q)
            == folded_member(cm, mm, q, um[j].1, ts).0 && lookup(r.1, q) == folded_member(
            cm,
            mm,
            q,
            um[j].1,
            ts,
        ).1 by {
            if j < n - 1 {
                assert(um[j].0 != um[n - 1].0);
            }
        }
    }
}

/// A null leaf in an update deletes its path: after the fold neither the
/// stored document nor its metadata holds anything at the path of that leaf.
pub proof fn lemma_null_deletes_path(
    cur: JsonValue,
    upd: JsonValue,
    meta: JsonValue,
    ts: u64,
    path: Seq<Seq<char>>,
)
    requires
        cur.wf(),
        meta.wf(),
        upd.wf(),
        stamped(cur, meta),
        path.len() > 0,
        at_path(upd, path) == Some(JsonValue::Null),
    ensures
        at_path(merge_value(cur, upd, meta, ts).0, path) is None,
        at_path(merge_value(cur, upd, meta, ts).1, path) is None,
    decreases path.len(),
{
    let k = path[0];
    let rest = path.drop_first();
    let um = upd->Object_0;
    assert(upd is Object);
    lemma_has_key_first(um, k);
    let j = key_index(um, k);
    let u = um[j].1;
    assert(at_path(u, rest) == Some(JsonValue::Null));
    match promoted(cur) {
        JsonValue::Object(cm) => {
            let mm = promoted(meta)->Object_0;
            assert(members_stamped(cm, mm));
            lemma_fold_lookup(cm, um, mm, ts, um.len(), k);
            let r = merge_members(cm, um, mm, ts, um.len());
            if rest.len() == 0 {
                assert(u is Null);
            } else {
                assert(u !is Null);
                lemma_same_keys_index(cm, mm, k);
                if has_key(cm, k) {
                    lemma_has_key_first(cm, k);
                    let p = key_index(cm, k);
                    assert(stamped(cm[p].1, mm[p].1));
                    assert(cm[p].1.wf());
                    assert(mm[p].1.wf());
                }
                assert(u.wf());
                lemma_null_deletes_path(child(cm, k), u, child(mm, k), ts, rest);
            }
        },
        _ => {},
    }
}


/// Checks whether metadata accounts for a stored document.
#[verifier::loop_isolation(false)]
pub fn is_stamped(state: &Json, meta: &Json) -> (r: bool)
    ensures
        r == stamped(state@, meta@),
    decreases state,
{
    match state {
        Json::Null => match meta {
            Json::Null => true,
            Json::Object(entries) => {
                proof {
                    lemma_object_view(*entries);
                }
                let r = entries.len() == 0;
                proof {
                    if r {
                        assert(members_of(entries@) =~= Seq::empty());
                    } else {
                        assert(members_of(entries@).len() > 0);
                    }
                }
                r
            },
            _ => false,
        },
        Json::Object(sentries) => match meta {
            Json::Object(mentries) => {
                proof {
                    lemma_object_view(*sentries);
                    lemma_object_view(*mentries);
                }
                if sentries.len() != mentries.len() {
                    return false;
                }
                let ghost sm = members_of(sentries@);
                let ghost mm = members_of(mentries@);
                let mut i: usize = 0;
                while i < sentries.len()
                    invariant
                        i <= sentries.len(),
                        forall|k: int|
                            0 <= k < i ==> (#[trigger] sm[k]).0 == mm[k].0 && stamped(
                                sm[k].1,
                                mm[k].1,
                            ),
                    decreases sentries.len() - i,
                {
                    if sentries[i].0 != mentries[i].0 {
                        assert(sm[i as int].0 != mm[i as int].0);
                        return false;
                    }
                    if !is_stamped(&sentries[i].1, &mentries[i].1) {
                        assert(!stamped(sm[i as int].1, mm[i as int].1));
                        return false;
                    }
                    i += 1;
                }
                true
            },
            _ => false,
        },
        _ => match meta {
            Json::Number(JsonNumber::PosInt(_)) => true,
            _ => false,
        },
    }
}


/// A delta is never an object without members.
pub proof fn lemma_diff_is_not_empty(rep: JsonValue, des: JsonValue)
    ensures
        !is_empty_object(delta_of(rep, des)),
{
}

/// The delta of two objects holds under each key of the desired object what
/// that member asks for beyond the reported one: the desired value where the
/// key is not reported or the two values are unequal and not both objects,
/// the difference of the two where both are objects, and nothing where they
/// are equal.
pub proof fn lemma_delta_member(rm: Seq<Member>, dm: Seq<Member>, j: int)
    requires
        keys_distinct(dm),
        0 <= j < dm.len(),
    ensures
        delta_of(JsonValue::Object(rm), JsonValue::Object(dm)).member(dm[j].0)
            == member_difference(rm, dm[j].0, dm[j].1),
{
    lemma_diff_lookup(rm, dm, dm.len(), dm[j].0);
    let out = diff_members(rm, dm, dm.len());
    if out.len() == 0 {
        assert(!has_key(out, dm[j].0));
    }
}

/// The delta of two objects holds nothing under a key that the desired
/// object lacks.
pub proof fn lemma_delta_only_desired_keys(rm: Seq<Member>, dm: Seq<Member>, q: Seq<char>)
    requires
        !has_key(dm, q),
    ensures
        delta_of(JsonValue::Object(rm), JsonValue::Object(dm)).member(q) is None,
{
    let out = diff_members(rm, dm, dm.len());
    if has_key(out, q) {
        lemma_diff_keys(rm, dm, dm.len(), q);
    }
}

/// The delta of two documents that are each null or an object is null or an
/// object with at least one member.
pub proof fn lemma_delta_is_null_or_nonempty(rep: JsonValue, des: JsonValue)
    requires
        rep is Null || rep is Object,
        des is Null || des is Object,
    ensures
        delta_of(rep, des) is Null || (delta_of(rep, des) is Object && delta_of(
            rep,
            des,
        )->Object_0.len() > 0),
{
}

/// The members of the difference of two objects are under keys of the desired
/// object.
pub proof fn lemma_diff_keys(rm: Seq<Member>, dm: Seq<Member>, n: nat, q: Seq<char>)
    requires
        n <= dm.len(),
        has_key(diff_members(rm, dm, n), q),
    ensures
        has_key(dm, q),
    decreases n,
{
    if n > 0 {
        let acc = diff_members(rm, dm, (n - 1) as nat);
        let r = diff_members(rm, dm, n);
        let i = choose|i: int| 0 <= i < r.len() && (#[trigger] r[i]).0 == q;
        if i < acc.len() {
            assert(acc[i].0 == q);
            lemma_diff_keys(rm, dm, (n - 1) as nat, q);
        } else {
            assert(dm[n - 1].0 == q);
        }
    }
}


/// What the difference holds for a member `(key, d)` of the desired object:
/// `d` itself when nothing is reported under the key, nothing when the
/// reported value equals `d`, and else what `d` asks for beyond it.
pub open spec fn member_difference(rm: Seq<Member>, key: Seq<char>, d: JsonValue) -> Option<
    JsonValue,
> {
    match lookup(rm, key) {
        Some(r) => if json_eq(r, d) {
            None
        } else {
            diff_value(r, d)
        },
        None => Some(d),
    }
}

/// Key by key, the difference of two objects holds under each key of the
/// desired object what [`member_difference`] says, and nothing under any
/// other key.
pub proof fn lemma_diff_lookup(rm: Seq<Member>, dm: Seq<Member>, n: nat, q: Seq<char>)
    requires
        keys_distinct(dm),
        n <= dm.len(),
    ensures
        keys_distinct(diff_members(rm, dm, n)),
        forall|j: int|
            0 <= j < n && (#[trigger] dm[j]).0 == q ==> lookup(diff_members(rm, dm, n), q)
                == member_difference(rm, q, dm[j].1),
        (forall|j: int| 0 <= j < n ==> (#[trigger] dm[j]).0 != q) ==> lookup(
            diff_members(rm, dm, n),
            q,
        ) is None,
    decreases n,
{
    if n > 0 {
        let acc = diff_members(rm, dm, (n - 1) as nat);
        let key = dm[n - 1].0;
        let d = dm[n - 1].1;
        lemma_diff_lookup(rm, dm, (n - 1) as nat, q);
        lemma_diff_lookup(rm, dm, (n - 1) as nat, key);
        assert forall|j: int| 0 <= j < n - 1 implies (#[trigger] dm[j]).0 != key by {
            assert(dm[j].0 != dm[n - 1].0);
        }
        assert(!has_key(acc, key));
        let r = diff_members(rm, dm, n);
        match member_difference(rm, key, d) {
            Some(x) => {
                assert(r == set_key(acc, key, x));
                lemma_lookup_set_key(acc, key, x, q);
            },
            None => {
                assert(r == acc);
            },
        }
        assert forall|j: int| 0 <= j < n && (#[trigger] dm[j]).0 == q implies lookup(r, q)
            == member_difference(rm, q, dm[j].1) by {
            if j < n - 1 {
                assert(dm[j].0 != dm[n - 1].0);
            }
        }
    } else {
        assert(!has_key(diff_members(rm, dm, 0), q));
    }
}


/// Whether a value is a leaf that was written: neither null nor an object.
pub open spec fn is_leaf(v: JsonValue) -> bool {
    !(v is Null) && !(v is Object)
}

/// Whether a value is a timestamp: a non-negative integer.
pub open spec fn is_timestamp(v: JsonValue) -> bool {
    v matches JsonValue::Number(JsonNumber::PosInt(_))
}

/// Metadata that accounts for a document holds a timestamp exactly at the
/// paths at which the document holds a leaf, an object wherever the document
/// holds an object, and nothing at the paths at which the document holds
/// nothing.
pub proof fn lemma_stamped_at_path(s: JsonValue, m: JsonValue, path: Seq<Seq<char>>)
    requires
        stamped(s, m),
    ensures
        at_path(s, path) is Some <==> at_path(m, path) is Some,
        at_path(s, path) matches Some(v) ==> {
            let w = at_path(m, path)->Some_0;
            &&& stamped(v, w)
            &&& is_leaf(v) <==> is_timestamp(w)
            &&& v is Object ==> w is Object
        },
    decreases path.len(),
{
    if path.len() > 0 {
        let k = path[0];
        let rest = path.drop_first();
        match s {
            JsonValue::Object(sm) => {
                let mm = m->Object_0;
                lemma_same_keys_index(sm, mm, k);
                if has_key(sm, k) {
                    lemma_has_key_first(sm, k);
                    let p = key_index(sm, k);
                    assert(stamped(sm[p].1, mm[p].1));
                    lemma_stamped_at_path(sm[p].1, mm[p].1, rest);
                }
            },
            JsonValue::Null => {
                if m is Object {
                    assert(!has_key(m->Object_0, k));
                }
            },
            _ => {},
        }
    }
}

} // verus!
