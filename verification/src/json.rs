//! A JSON document tree with value semantics.
//!
//! Objects are association lists with pairwise distinct keys; numbers keep the
//! three-way split between non-negative integers, negative integers and
//! finite doubles (held as their IEEE-754 bit pattern).

use vstd::prelude::*;

verus! {

/// A JSON number.
#[derive(Clone, Copy, Debug)]
pub enum JsonNumber {
    /// A non-negative integer.
    PosInt(u64),
    /// A negative integer.
    NegInt(i64),
    /// A finite double, as its IEEE-754 bit pattern.
    Float(u64),
}

/// A JSON document.
#[derive(Debug)]
pub enum Json {
    Null,
    Bool(bool),
    Number(JsonNumber),
    String(String),
    Array(Vec<Json>),
    Object(Vec<(String, Json)>),
}

/// One member of an object, as a mathematical value.
pub type Member = (Seq<char>, JsonValue);

/// The mathematical value of a [`Json`] document.
pub enum JsonValue {
    Null,
    Bool(bool),
    Number(JsonNumber),
    String(Seq<char>),
    Array(Seq<JsonValue>),
    Object(Seq<Member>),
}

/// The value of a document.
pub open spec fn value_of(j: Json) -> JsonValue
    decreases j, 0nat,
{
    match j {
        Json::Null => JsonValue::Null,
        Json::Bool(b) => JsonValue::Bool(b),
        Json::Number(n) => JsonValue::Number(n),
        Json::String(s) => JsonValue::String(s@),
        Json::Array(items) => JsonValue::Array(values_upto(items@, items@.len())),
        Json::Object(entries) => JsonValue::Object(members_upto(entries@, entries@.len())),
    }
}

/// The values of the first `n` documents of a list.
pub open spec fn values_upto(items: Seq<Json>, n: nat) -> Seq<JsonValue>
    decreases items, n,
{
    if n == 0 || n > items.len() {
        Seq::empty()
    } else {
        values_upto(items, (n - 1) as nat).push(value_of(items[n - 1]))
    }
}

/// The members given by the first `n` entries of a list.
pub open spec fn members_upto(entries: Seq<(String, Json)>, n: nat) -> Seq<Member>
    decreases entries, n,
{
    if n == 0 || n > entries.len() {
        Seq::empty()
    } else {
        members_upto(entries, (n - 1) as nat).push((entries[n - 1].0@, value_of(entries[n - 1].1)))
    }
}

impl View for Json {
    type V = JsonValue;

    open spec fn view(&self) -> JsonValue {
        value_of(*self)
    }
}

/// The values of a list of documents.
pub open spec fn values_of(items: Seq<Json>) -> Seq<JsonValue> {
    Seq::new(items.len(), |i: int| items[i]@)
}

/// The members of a list of object entries.
pub open spec fn members_of(entries: Seq<(String, Json)>) -> Seq<Member> {
    Seq::new(entries.len(), |i: int| (entries[i].0@, entries[i].1@))
}

proof fn lemma_values_upto(items: Seq<Json>, n: nat)
    requires
        n <= items.len(),
    ensures
        values_upto(items, n).len() == n,
        forall|i: int| 0 <= i < n ==> (#[trigger] values_upto(items, n)[i]) == items[i]@,
    decreases n,
{
    if n > 0 {
        lemma_values_upto(items, (n - 1) as nat);
    }
}

proof fn lemma_members_upto(entries: Seq<(String, Json)>, n: nat)
    requires
        n <= entries.len(),
    ensures
        members_upto(entries, n).len() == n,
        forall|i: int|
            0 <= i < n ==> (#[trigger] members_upto(entries, n)[i]) == (
                entries[i].0@,
                entries[i].1@,
            ),
    decreases n,
{
    if n > 0 {
        lemma_members_upto(entries, (n - 1) as nat);
    }
}

/// The view of an array is the list of the views of its items.
pub broadcast proof fn lemma_array_view(items: Vec<Json>)
    ensures
        #[trigger] Json::Array(items)@ == JsonValue::Array(values_of(items@)),
{
    lemma_values_upto(items@, items@.len());
    assert(values_upto(items@, items@.len()) =~= values_of(items@));
}

/// The view of an object is the list of the views of its entries.
pub broadcast proof fn lemma_object_view(entries: Vec<(String, Json)>)
    ensures
        #[trigger] Json::Object(entries)@ == JsonValue::Object(members_of(entries@)),
{
    lemma_members_upto(entries@, entries@.len());
    assert(members_upto(entries@, entries@.len()) =~= members_of(entries@));
}

/// Bit mask of the exponent field of a double.
pub const FLOAT_EXPONENT_MASK: u64 = 0x7ff0_0000_0000_0000;

/// Bit mask of everything but the sign bit of a double.
pub const FLOAT_MAGNITUDE_MASK: u64 = 0x7fff_ffff_ffff_ffff;

/// Whether a bit pattern denotes a finite double (neither infinite nor NaN).
pub open spec fn float_is_finite(bits: u64) -> bool {
    bits & FLOAT_EXPONENT_MASK != FLOAT_EXPONENT_MASK
}

/// Whether a bit pattern denotes positive or negative zero.
pub open spec fn float_is_zero(bits: u64) -> bool {
    bits & FLOAT_MAGNITUDE_MASK == 0
}

/// Numeric equality of two finite doubles given by their bit patterns: equal
/// patterns, or two zeros of either sign.
pub open spec fn float_eq(a: u64, b: u64) -> bool {
    a == b || (float_is_zero(a) && float_is_zero(b))
}

/// Equality of JSON numbers: integers and doubles never compare equal, and a
/// non-negative integer never equals a negative one.
pub open spec fn number_eq(a: JsonNumber, b: JsonNumber) -> bool {
    match (a, b) {
        (JsonNumber::PosInt(x), JsonNumber::PosInt(y)) => x == y,
        (JsonNumber::NegInt(x), JsonNumber::NegInt(y)) => x == y,
        (JsonNumber::Float(x), JsonNumber::Float(y)) => float_eq(x, y),
        _ => false,
    }
}

/// Whether a number respects the representation rules: the negative variant
/// holds a negative integer and the double variant holds a finite double.
pub open spec fn number_wf(n: JsonNumber) -> bool {
    match n {
        JsonNumber::PosInt(_) => true,
        JsonNumber::NegInt(i) => i < 0,
        JsonNumber::Float(bits) => float_is_finite(bits),
    }
}

/// Whether some member of the list carries `key`.
pub open spec fn has_key(members: Seq<Member>, key: Seq<char>) -> bool {
    exists|i: int| 0 <= i < members.len() && (#[trigger] members[i]).0 == key
}

/// Whether `i` is the position of the first member that carries `key`.
pub open spec fn is_first_at(members: Seq<Member>, key: Seq<char>, i: int) -> bool {
    &&& 0 <= i < members.len()
    &&& members[i].0 == key
    &&& forall|j: int| 0 <= j < i ==> (#[trigger] members[j]).0 != key
}

/// Position of the first member that carries `key`; meaningful when
/// [`has_key`] holds.
pub open spec fn key_index(members: Seq<Member>, key: Seq<char>) -> int {
    choose|i: int| is_first_at(members, key, i)
}

/// The value stored under `key`, if any.
pub open spec fn lookup(members: Seq<Member>, key: Seq<char>) -> Option<JsonValue> {
    if has_key(members, key) {
        Some(members[key_index(members, key)].1)
    } else {
        None
    }
}

/// Whether no two members share a key.
pub open spec fn keys_distinct(members: Seq<Member>) -> bool {
    forall|i: int, j: int|
        0 <= i < j < members.len() ==> (#[trigger] members[i]).0 != (#[trigger] members[j]).0
}

/// The member list without the member stored under `key`.
pub open spec fn remove_key(members: Seq<Member>, key: Seq<char>) -> Seq<Member> {
    if has_key(members, key) {
        members.remove(key_index(members, key))
    } else {
        members
    }
}

/// The member list with `value` stored under `key`: in place when the key is
/// present, at the end otherwise.
pub open spec fn set_key(members: Seq<Member>, key: Seq<char>, value: JsonValue) -> Seq<Member> {
    if has_key(members, key) {
        members.update(key_index(members, key), (key, value))
    } else {
        members.push((key, value))
    }
}

/// A first occurrence is unique, so it is the one that [`key_index`] names.
pub proof fn lemma_first_is_key_index(members: Seq<Member>, key: Seq<char>, i: int)
    requires
        is_first_at(members, key, i),
    ensures
        has_key(members, key),
        key_index(members, key) == i,
{
    let c = key_index(members, key);
    assert(is_first_at(members, key, c));
    if c < i {
        assert(members[c].0 != key);
    }
    if i < c {
        assert(members[i].0 != key);
    }
}

/// A key that is present has a first occurrence.
pub proof fn lemma_has_key_first(members: Seq<Member>, key: Seq<char>)
    requires
        has_key(members, key),
    ensures
        is_first_at(members, key, key_index(members, key)),
    decreases members.len(),
{
    let w = choose|i: int| 0 <= i < members.len() && (#[trigger] members[i]).0 == key;
    lemma_first_before(members, key, w);
}

/// Below any occurrence of `key` there is a first one.
proof fn lemma_first_before(members: Seq<Member>, key: Seq<char>, w: int)
    requires
        0 <= w < members.len(),
        members[w].0 == key,
    ensures
        exists|i: int| is_first_at(members, key, i),
    decreases w,
{
    if exists|j: int| 0 <= j < w && (#[trigger] members[j]).0 == key {
        let j = choose|j: int| 0 <= j < w && (#[trigger] members[j]).0 == key;
        lemma_first_before(members, key, j);
    } else {
        assert(is_first_at(members, key, w));
    }
}

/// Storing a value under a key makes it the value found under that key and
/// leaves every other key as it was; distinct keys stay distinct.
pub proof fn lemma_lookup_set_key(c: Seq<Member>, k: Seq<char>, v: JsonValue, q: Seq<char>)
    ensures
        lookup(set_key(c, k, v), q) == if q == k {
            Some(v)
        } else {
            lookup(c, q)
        },
        keys_distinct(c) ==> keys_distinct(set_key(c, k, v)),
        has_key(c, k) ==> set_key(c, k, v).len() == c.len(),
        !has_key(c, k) ==> set_key(c, k, v).len() == c.len() + 1,
{
    let r = set_key(c, k, v);
    if has_key(c, k) {
        lemma_has_key_first(c, k);
        let p = key_index(c, k);
        assert(forall|i: int| 0 <= i < c.len() ==> (#[trigger] r[i]).0 == c[i].0);
        if q == k {
            assert(is_first_at(r, k, p));
            lemma_first_is_key_index(r, k, p);
        } else if has_key(c, q) {
            lemma_has_key_first(c, q);
            let j = key_index(c, q);
            assert(is_first_at(r, q, j));
            lemma_first_is_key_index(r, q, j);
        } else {
            if has_key(r, q) {
                let i = choose|i: int| 0 <= i < r.len() && (#[trigger] r[i]).0 == q;
                assert(c[i].0 == q);
            }
        }
        if keys_distinct(c) {
            assert forall|i: int, j: int| 0 <= i < j < r.len() implies (#[trigger] r[i]).0 != (
            #[trigger] r[j]).0 by {
                assert(c[i].0 != c[j].0);
            }
        }
    } else {
        assert(forall|i: int| 0 <= i < c.len() ==> (#[trigger] r[i]) == c[i]);
        if q == k {
            assert forall|j: int| 0 <= j < c.len() implies (#[trigger] r[j]).0 != k by {
                assert(c[j].0 != k);
            }
            assert(is_first_at(r, k, c.len() as int));
            lemma_first_is_key_index(r, k, c.len() as int);
        } else if has_key(c, q) {
            lemma_has_key_first(c, q);
            let j = key_index(c, q);
            assert(is_first_at(r, q, j));
            lemma_first_is_key_index(r, q, j);
        } else {
            if has_key(r, q) {
                let i = choose|i: int| 0 <= i < r.len() && (#[trigger] r[i]).0 == q;
                if i < c.len() {
                    assert(c[i].0 == q);
                }
            }
        }
        if keys_distinct(c) {
            assert forall|i: int, j: int| 0 <= i < j < r.len() implies (#[trigger] r[i]).0 != (
            #[trigger] r[j]).0 by {
                if j < c.len() {
                    assert(c[i].0 != c[j].0);
                } else {
                    assert(c[i].0 != k);
                }
            }
        }
    }
}

/// Deleting a key from a list of distinct keys leaves nothing under that key
/// and every other key as it was; distinct keys stay distinct.
pub proof fn lemma_lookup_remove_key(c: Seq<Member>, k: Seq<char>, q: Seq<char>)
    requires
        keys_distinct(c),
    ensures
        lookup(remove_key(c, k), q) == if q == k {
            None
        } else {
            lookup(c, q)
        },
        keys_distinct(remove_key(c, k)),
{
    let r = remove_key(c, k);
    if has_key(c, k) {
        lemma_has_key_first(c, k);
        let p = key_index(c, k);
        assert(forall|i: int| 0 <= i < p ==> (#[trigger] r[i]) == c[i]);
        assert(forall|i: int| p <= i < r.len() ==> (#[trigger] r[i]) == c[i + 1]);
        assert forall|i: int, j: int| 0 <= i < j < r.len() implies (#[trigger] r[i]).0 != (
        #[trigger] r[j]).0 by {
            let ci = if i < p { i } else { i + 1 };
            let cj = if j < p { j } else { j + 1 };
            assert(c[ci].0 != c[cj].0);
        }
        if q == k {
            if has_key(r, k) {
                let i = choose|i: int| 0 <= i < r.len() && (#[trigger] r[i]).0 == k;
                let ci = if i < p { i } else { i + 1 };
                assert(c[ci].0 == k);
                if ci < p {
                    assert(c[ci].0 != c[p].0);
                } else {
                    assert(c[p].0 != c[ci].0);
                }
            }
        } else if has_key(c, q) {
            lemma_has_key_first(c, q);
            let j = key_index(c, q);
            let rj = if j < p { j } else { j - 1 };
            assert(r[rj] == c[j]);
            assert forall|x: int| 0 <= x < rj implies (#[trigger] r[x]).0 != q by {
                let cx = if x < p { x } else { x + 1 };
                assert(c[cx].0 != q);
            }
            assert(is_first_at(r, q, rj));
            lemma_first_is_key_index(r, q, rj);
        } else {
            if has_key(r, q) {
                let i = choose|i: int| 0 <= i < r.len() && (#[trigger] r[i]).0 == q;
                let ci = if i < p { i } else { i + 1 };
                assert(c[ci].0 == q);
            }
        }
    }
}

impl JsonValue {
    /// Whether the value respects the representation rules throughout:
    /// numbers are valid and no object holds a key twice.
    pub open spec fn wf(self) -> bool
        decreases self,
    {
        match self {
            JsonValue::Number(n) => number_wf(n),
            JsonValue::Array(items) => forall|i: int|
                0 <= i < items.len() ==> (#[trigger] items[i]).wf(),
            JsonValue::Object(members) => {
                &&& keys_distinct(members)
                &&& forall|i: int| 0 <= i < members.len() ==> (#[trigger] members[i]).1.wf()
            },
            _ => true,
        }
    }

    /// The value stored under `key` when `self` is an object that has it.
    pub open spec fn member(self, key: Seq<char>) -> Option<JsonValue> {
        match self {
            JsonValue::Object(members) => lookup(members, key),
            _ => None,
        }
    }
}

/// Value equality of documents: numbers by [`number_eq`], arrays item by
/// item, objects as maps from key to value.
pub open spec fn json_eq(a: JsonValue, b: JsonValue) -> bool
    decreases a,
{
    match (a, b) {
        (JsonValue::Null, JsonValue::Null) => true,
        (JsonValue::Bool(x), JsonValue::Bool(y)) => x == y,
        (JsonValue::Number(x), JsonValue::Number(y)) => number_eq(x, y),
        (JsonValue::String(x), JsonValue::String(y)) => x == y,
        (JsonValue::Array(x), JsonValue::Array(y)) => {
            &&& x.len() == y.len()
            &&& forall|i: int| 0 <= i < x.len() ==> json_eq(#[trigger] x[i], y[i])
        },
        (JsonValue::Object(x), JsonValue::Object(y)) => {
            &&& x.len() == y.len()
            &&& forall|i: int|
                0 <= i < x.len() ==> {
                    &&& has_key(y, (#[trigger] x[i]).0)
                    &&& json_eq(x[i].1, y[key_index(y, x[i].0)].1)
                }
        },
        _ => false,
    }
}


impl JsonNumber {
    /// Compares two numbers as [`number_eq`] does.
    pub fn equals(&self, other: &JsonNumber) -> (r: bool)
        ensures
            r == number_eq(*self, *other),
    {
        match (self, other) {
            (JsonNumber::PosInt(x), JsonNumber::PosInt(y)) => *x == *y,
            (JsonNumber::NegInt(x), JsonNumber::NegInt(y)) => *x == *y,
            (JsonNumber::Float(x), JsonNumber::Float(y)) => {
                *x == *y || ((*x & FLOAT_MAGNITUDE_MASK) == 0 && (*y & FLOAT_MAGNITUDE_MASK) == 0)
            },
            _ => false,
        }
    }

    /// Checks the representation rules of [`number_wf`].
    pub fn is_valid(&self) -> (r: bool)
        ensures
            r == number_wf(*self),
    {
        match self {
            JsonNumber::PosInt(_) => true,
            JsonNumber::NegInt(i) => *i < 0,
            JsonNumber::Float(bits) => (*bits & FLOAT_EXPONENT_MASK) != FLOAT_EXPONENT_MASK,
        }
    }
}

/// Finds the first entry stored under `key`.
pub fn find_key(entries: &Vec<(String, Json)>, key: &String) -> (r: Option<usize>)
    ensures
        match r {
            Some(i) => is_first_at(members_of(entries@), key@, i as int),
            None => !has_key(members_of(entries@), key@),
        },
{
    let mut i: usize = 0;
    while i < entries.len()
        invariant
            i <= entries.len(),
            forall|j: int| 0 <= j < i ==> (#[trigger] members_of(entries@)[j]).0 != key@,
        decreases entries.len() - i,
    {
        if entries[i].0 == *key {
            return Some(i);
        }
        i += 1;
    }
    None
}

impl Clone for Json {
    /// Copies the whole document.
    #[verifier::loop_isolation(false)]
    fn clone(&self) -> (r: Json)
        ensures
            r@ == self@,
        decreases self,
    {
        match self {
            Json::Null => Json::Null,
            Json::Bool(b) => Json::Bool(*b),
            Json::Number(n) => Json::Number(*n),
            Json::String(s) => Json::String(s.clone()),
            Json::Array(items) => {
                let mut out: Vec<Json> = Vec::new();
                let mut i: usize = 0;
                while i < items.len()
                    invariant
                        i <= items.len(),
                        out@.len() == i,
                        forall|k: int| 0 <= k < i ==> (#[trigger] out@[k])@ == items@[k]@,
                    decreases items.len() - i,
                {
                    let c = items[i].clone();
                    out.push(c);
                    i += 1;
                }
                proof {
                    lemma_array_view(*items);
                    lemma_array_view(out);
                    assert(values_of(out@) =~= values_of(items@));
                }
                Json::Array(out)
            },
            Json::Object(entries) => {
                let mut out: Vec<(String, Json)> = Vec::new();
                let mut i: usize = 0;
                while i < entries.len()
                    invariant
                        i <= entries.len(),
                        out@.len() == i,
                        forall|k: int|
                            0 <= k < i ==> (#[trigger] out@[k]).0@ == entries@[k].0@ && out@[k].1@
                                == entries@[k].1@,
                    decreases entries.len() - i,
                {
                    let c = entries[i].1.clone();
                    out.push((entries[i].0.clone(), c));
                    i += 1;
                }
                proof {
                    lemma_object_view(*entries);
                    lemma_object_view(out);
                    assert(members_of(out@) =~= members_of(entries@));
                }
                Json::Object(out)
            },
        }
    }
}

impl Json {
    /// Whether the document is JSON null.
    pub fn is_null(&self) -> (r: bool)
        ensures
            r == (self@ is Null),
    {
        match self {
            Json::Null => true,
            _ => false,
        }
    }

    /// Whether the document is an object.
    pub fn is_object(&self) -> (r: bool)
        ensures
            r == (self@ is Object),
    {
        match self {
            Json::Object(_) => true,
            _ => false,
        }
    }

    /// The value stored under `key` when the document is an object that has
    /// such a member.
    pub fn get(&self, key: &String) -> (r: Option<&Json>)
        ensures
            match r {
                Some(v) => self@.member(key@) == Some(v@),
                None => self@.member(key@) is None,
            },
    {
        match self {
            Json::Object(entries) => {
                proof {
                    lemma_object_view(*entries);
                }
                match find_key(entries, key) {
                    Some(i) => {
                        proof {
                            lemma_first_is_key_index(members_of(entries@), key@, i as int);
                        }
                        Some(&entries[i].1)
                    },
                    None => None,
                }
            },
            _ => None,
        }
    }

    /// Compares two documents by value, as [`json_eq`] does.
    #[verifier::loop_isolation(false)]
    pub fn equals(&self, other: &Json) -> (r: bool)
        ensures
            r == json_eq(self@, other@),
        decreases self,
    {
        match (self, other) {
            (Json::Null, Json::Null) => true,
            (Json::Bool(x), Json::Bool(y)) => *x == *y,
            (Json::Number(x), Json::Number(y)) => x.equals(y),
            (Json::String(x), Json::String(y)) => *x == *y,
            (Json::Array(x), Json::Array(y)) => {
                proof {
                    lemma_array_view(*x);
                    lemma_array_view(*y);
                }
                if x.len() != y.len() {
                    return false;
                }
                let mut i: usize = 0;
                while i < x.len()
                    invariant
                        i <= x.len(),
                        x.len() == y.len(),
                        forall|k: int| 0 <= k < i ==> json_eq(#[trigger] x@[k]@, y@[k]@),
                    decreases x.len() - i,
                {
                    if !x[i].equals(&y[i]) {
                        assert(!json_eq(values_of(x@)[i as int], values_of(y@)[i as int]));
                        return false;
                    }
                    i += 1;
                }
                assert forall|k: int| 0 <= k < values_of(x@).len() implies json_eq(
                    #[trigger] values_of(x@)[k],
                    values_of(y@)[k],
                ) by {
                    assert(json_eq(x@[k]@, y@[k]@));
                }
                true
            },
            (Json::Object(x), Json::Object(y)) => {
                proof {
                    lemma_object_view(*x);
                    lemma_object_view(*y);
                }
                if x.len() != y.len() {
                    return false;
                }
                let ghost xs = members_of(x@);
                let ghost ys = members_of(y@);
                let mut i: usize = 0;
                while i < x.len()
                    invariant
                        i <= x.len(),
                        x.len() == y.len(),
                        xs == members_of(x@),
                        ys == members_of(y@),
                        forall|k: int|
                            0 <= k < i ==> {
                                &&& has_key(ys, (#[trigger] xs[k]).0)
                                &&& json_eq(xs[k].1, ys[key_index(ys, xs[k].0)].1)
                            },
                    decreases x.len() - i,
                {
                    match find_key(y, &x[i].0) {
                        Some(j) => {
                            proof {
                                lemma_first_is_key_index(ys, x@[i as int].0@, j as int);
                            }
                            if !x[i].1.equals(&y[j].1) {
                                assert(xs[i as int].0 == x@[i as int].0@);
                                assert(!json_eq(xs[i as int].1, ys[key_index(ys, xs[i as int].0)].1));
                                return false;
                            }
                        },
                        None => {
                            assert(!has_key(ys, xs[i as int].0));
                            return false;
                        },
                    }
                    i += 1;
                }
                true
            },
            _ => false,
        }
    }
}


/// The string stored under `key` when `v` is an object that holds a string
/// there.
pub open spec fn text_member(v: JsonValue, key: Seq<char>) -> Option<Seq<char>> {
    match v.member(key) {
        Some(JsonValue::String(s)) => Some(s),
        _ => None,
    }
}

/// The non-negative integer stored under `key` when `v` is an object that
/// holds one there.
pub open spec fn count_member(v: JsonValue, key: Seq<char>) -> Option<u64> {
    match v.member(key) {
        Some(JsonValue::Number(JsonNumber::PosInt(n))) => Some(n),
        _ => None,
    }
}

impl Json {
    /// The value stored under `key` when the document is an object that has
    /// such a member.
    pub fn get_member(&self, key: &str) -> (r: Option<&Json>)
        ensures
            match r {
                Some(v) => self@.member(key@) == Some(v@),
                None => self@.member(key@) is None,
            },
    {
        let k = key.to_owned();
        self.get(&k)
    }

    /// A copy of the string stored under `key`, if there is one.
    pub fn get_text(&self, key: &str) -> (r: Option<String>)
        ensures
            match r {
                Some(s) => text_member(self@, key@) == Some(s@),
                None => text_member(self@, key@) is None,
            },
    {
        match self.get_member(key) {
            Some(Json::String(s)) => Some(s.clone()),
            _ => None,
        }
    }

    /// The non-negative integer stored under `key`, if there is one.
    pub fn get_count(&self, key: &str) -> (r: Option<u64>)
        ensures
            r == count_member(self@, key@),
    {
        match self.get_member(key) {
            Some(Json::Number(JsonNumber::PosInt(n))) => Some(*n),
            _ => None,
        }
    }

    /// A string document.
    pub fn text(s: &str) -> (r: Json)
        ensures
            r@ == JsonValue::String(s@),
    {
        Json::String(s.to_owned())
    }

    /// An object document with the given entries.
    pub fn object(entries: Vec<(String, Json)>) -> (r: Json)
        ensures
            r@ == JsonValue::Object(members_of(entries@)),
    {
        proof {
            lemma_object_view(entries);
        }
        Json::Object(entries)
    }

    /// An array document with the given items.
    pub fn array(items: Vec<Json>) -> (r: Json)
        ensures
            r@ == JsonValue::Array(values_of(items@)),
    {
        proof {
            lemma_array_view(items);
        }
        Json::Array(items)
    }
}

/// Appends the entry `(key, value)` to a list of entries.
pub fn push_member(entries: &mut Vec<(String, Json)>, key: &str, value: Json)
    ensures
        members_of(final(entries)@) == members_of(old(entries)@).push((key@, value@)),
{
    let k = key.to_owned();
    assert(members_of(entries@.push((k, value))) =~= members_of(entries@).push((key@, value@)));
    entries.push((k, value));
}


/// Whether no two entries share a key.
pub fn keys_are_distinct(entries: &Vec<(String, Json)>) -> (r: bool)
    ensures
        r == keys_distinct(members_of(entries@)),
{
    let ghost ms = members_of(entries@);
    let mut j: usize = 0;
    while j < entries.len()
        invariant
            j <= entries@.len(),
            ms == members_of(entries@),
            forall|a: int, b: int| 0 <= a < b < j ==> (#[trigger] ms[a]).0 != (#[trigger] ms[b]).0,
        decreases entries@.len() - j,
    {
        let mut i: usize = 0;
        while i < j
            invariant
                i <= j < entries@.len(),
                ms == members_of(entries@),
                forall|a: int| 0 <= a < i ==> (#[trigger] ms[a]).0 != ms[j as int].0,
            decreases j - i,
        {
            if entries[i].0 == entries[j].0 {
                assert(ms[i as int].0 == ms[j as int].0);
                return false;
            }
            i += 1;
        }
        j += 1;
    }
    true
}

impl Json {
    /// Checks the representation rules throughout the document: numbers are
    /// valid and no object holds a key twice.
    #[verifier::loop_isolation(false)]
    pub fn is_well_formed(&self) -> (r: bool)
        ensures
            r == self@.wf(),
        decreases self,
    {
        match self {
            Json::Number(n) => n.is_valid(),
            Json::Array(items) => {
                proof {
                    lemma_array_view(*items);
                }
                let mut i: usize = 0;
                while i < items.len()
                    invariant
                        i <= items.len(),
                        forall|k: int| 0 <= k < i ==> (#[trigger] values_of(items@)[k]).wf(),
                    decreases items.len() - i,
                {
                    if !items[i].is_well_formed() {
                        proof {
                            let vs = values_of(items@);
                            assert(self@ == JsonValue::Array(vs));
                            assert(vs[i as int] == items@[i as int]@);
                            assert(!vs[i as int].wf());
                            assert(0 <= i < vs.len());
                            assert(JsonValue::Array(vs)->Array_0[i as int] == vs[i as int]);
                            assert(!JsonValue::Array(vs).wf());
                        }
                        return false;
                    }
                    i += 1;
                }
                true
            },
            Json::Object(entries) => {
                proof {
                    lemma_object_view(*entries);
                }
                if !keys_are_distinct(entries) {
                    return false;
                }
                let mut i: usize = 0;
                while i < entries.len()
                    invariant
                        i <= entries.len(),
                        forall|k: int| 0 <= k < i ==> (#[trigger] members_of(entries@)[k]).1.wf(),
                    decreases entries.len() - i,
                {
                    if !entries[i].1.is_well_formed() {
                        assert(!members_of(entries@)[i as int].1.wf());
                        return false;
                    }
                    i += 1;
                }
                true
            },
            _ => true,
        }
    }
}

} // verus!
