//! Byte keys: their lexicographic order, and the fixed-width time field that
//! makes later hours sort first.

use vstd::prelude::*;
use crate::calendar::{civil_of_day, day_number, day_number_of, days_in_month, lemma_civil_exists, lemma_civil_of_day, lemma_civil_order, lemma_year_bound, month_length, utc_fields, DAY, HOUR, LAST_YEAR, MAX_TIMESTAMP};

verus! {

/// Number of decimal digits of the time field of a key.
pub const KEY_WIDTH: usize = 10;

/// The separator between the fields of a key.
pub const SEPARATOR: u8 = 35;

/// Whether `a` sorts strictly before `b` in lexicographic byte order: the two
/// agree up to some position at which `a` ends and `b` goes on, or at which
/// `a` holds the smaller byte.
pub open spec fn lex_lt(a: Seq<u8>, b: Seq<u8>) -> bool {
    exists|k: int| lex_lt_at(a, b, k)
}

/// Whether `k` is the position that decides `a < b`.
pub open spec fn lex_lt_at(a: Seq<u8>, b: Seq<u8>, k: int) -> bool {
    &&& 0 <= k <= a.len()
    &&& k < b.len()
    &&& forall|i: int| 0 <= i < k ==> a[i] == b[i]
    &&& (k < a.len() ==> a[k] < b[k])
}

/// Whether `a` sorts before `b` or equals it.
pub open spec fn lex_le(a: Seq<u8>, b: Seq<u8>) -> bool {
    a == b || lex_lt(a, b)
}

/// Whether `s` begins with `prefix`.
pub open spec fn starts_with(s: Seq<u8>, prefix: Seq<u8>) -> bool {
    prefix.len() <= s.len() && s.take(prefix.len() as int) == prefix
}

/// The `width` lowest decimal digits of `n`, most significant first, as ASCII.
pub open spec fn decimal(n: nat, width: nat) -> Seq<u8>
    decreases width,
{
    if width == 0 {
        Seq::empty()
    } else {
        decimal(n / 10, (width - 1) as nat).push((48 + n % 10) as u8)
    }
}

/// Whether `n` has at most `width` decimal digits.
pub open spec fn fits(n: nat, width: nat) -> bool
    decreases width,
{
    if width == 0 {
        n == 0
    } else {
        fits(n / 10, (width - 1) as nat)
    }
}

/// Whether every byte is an ASCII decimal digit.
pub open spec fn is_digits(s: Seq<u8>) -> bool {
    forall|i: int| 0 <= i < s.len() ==> 48 <= #[trigger] s[i] <= 57
}

/// The number that a string of ASCII decimal digits denotes.
pub open spec fn decimal_value(s: Seq<u8>) -> nat
    decreases s.len(),
{
    if s.len() == 0 {
        0
    } else {
        decimal_value(s.drop_last()) * 10 + (s.last() - 48) as nat
    }
}

/// The four numbers of the time field of the hour that contains `ts`: the
/// year, the month, the day and the hour of the day in UTC, each subtracted
/// from a bound so that later hours give smaller numbers.
pub open spec fn key_fields(ts: u64) -> (int, int, int, int) {
    let date = civil_of_day(ts as int / DAY as int);
    (
        LAST_YEAR - date.0,
        12 - date.1,
        31 - date.2,
        23 - (ts as int % DAY as int) / HOUR as int,
    )
}

/// The digits of a time field: four for the year, two each for month, day
/// and hour.
pub open spec fn field_bytes(f: (int, int, int, int)) -> Seq<u8> {
    decimal(f.0 as nat, 4) + decimal(f.1 as nat, 2) + decimal(f.2 as nat, 2) + decimal(
        f.3 as nat,
        2,
    )
}

/// Whether the four numbers are those of some hour up to the last year.
pub open spec fn fields_valid(f: (int, int, int, int)) -> bool {
    &&& 0 <= f.0 <= LAST_YEAR - 1970
    &&& 0 <= f.1 <= 11
    &&& 0 <= f.2 <= 30
    &&& 0 <= f.3 <= 23
    &&& 31 - f.2 <= days_in_month(LAST_YEAR - f.0, 12 - f.1)
}

/// Whether the first tuple of numbers comes before the second, comparing
/// number by number.
pub open spec fn fields_lt(a: (int, int, int, int), b: (int, int, int, int)) -> bool {
    a.0 < b.0 || (a.0 == b.0 && (a.1 < b.1 || (a.1 == b.1 && (a.2 < b.2 || (a.2 == b.2 && a.3
        < b.3)))))
}

/// The time field of the key of the hour that contains `ts`.
pub open spec fn key_bytes(ts: u64) -> Seq<u8> {
    field_bytes(key_fields(ts))
}

/// The time field of a key as text.
pub open spec fn key_text(ts: u64) -> Seq<char> {
    Seq::new(KEY_WIDTH as nat, |i: int| key_bytes(ts)[i] as char)
}

/// The key of a bucket: the base key, the separator and the time field.
pub open spec fn bucket_key(base: Seq<u8>, ts: u64) -> Seq<u8> {
    base + seq![SEPARATOR] + key_bytes(ts)
}

pub proof fn lemma_decimal_digits(n: nat, width: nat)
    ensures
        decimal(n, width).len() == width,
        is_digits(decimal(n, width)),
    decreases width,
{
    if width > 0 {
        lemma_decimal_digits(n / 10, (width - 1) as nat);
    }
}

/// Reading the digits of a number that fits gives the number back.
pub proof fn lemma_decimal_value(n: nat, width: nat)
    requires
        fits(n, width),
    ensures
        decimal_value(decimal(n, width)) == n,
    decreases width,
{
    if width > 0 {
        lemma_decimal_value(n / 10, (width - 1) as nat);
        let d = decimal(n, width);
        assert(d.drop_last() =~= decimal(n / 10, (width - 1) as nat));
    }
}

/// Writing the number that a string of digits denotes gives the string back.
pub proof fn lemma_value_decimal(s: Seq<u8>)
    requires
        is_digits(s),
    ensures
        fits(decimal_value(s), s.len()),
        decimal(decimal_value(s), s.len()) == s,
    decreases s.len(),
{
    if s.len() > 0 {
        let p = s.drop_last();
        assert(is_digits(p)) by {
            assert forall|i: int| 0 <= i < p.len() implies 48 <= #[trigger] p[i] <= 57 by {
                assert(p[i] == s[i]);
            }
        }
        lemma_value_decimal(p);
        let v = decimal_value(s);
        let last = s.last();
        assert(48 <= last <= 57) by {
            assert(s[s.len() - 1] == last);
        }
        assert(v / 10 == decimal_value(p));
        assert(v % 10 == last - 48);
        assert(decimal(v, s.len()) =~= s);
    }
}

/// Ten to the power `w`.
pub open spec fn pow10(w: nat) -> nat
    decreases w,
{
    if w == 0 {
        1
    } else {
        10 * pow10((w - 1) as nat)
    }
}

proof fn lemma_fits_pow(n: nat, width: nat)
    requires
        fits(n, width),
    ensures
        n < pow10(width),
    decreases width,
{
    if width > 0 {
        lemma_fits_pow(n / 10, (width - 1) as nat);
    }
}

proof fn lemma_pow10_grows(a: nat, b: nat)
    requires
        a <= b,
    ensures
        pow10(a) <= pow10(b),
    decreases b,
{
    if a < b {
        lemma_pow10_grows(a, (b - 1) as nat);
    }
}

/// A number with at most ten digits is below ten to the tenth.
pub proof fn lemma_fits_bound(n: nat, width: nat)
    requires
        width <= 10,
        fits(n, width),
    ensures
        n <= 9999999999,
        width <= 9 ==> n <= 999999999,
{
    lemma_fits_pow(n, width);
    assert(pow10(9) == 1000000000 && pow10(10) == 10000000000) by {
        reveal_with_fuel(pow10, 11);
    }
    lemma_pow10_grows(width, 10);
    if width <= 9 {
        lemma_pow10_grows(width, 9);
    }
}

/// Among numbers of the same width, the smaller number has the smaller digit
/// string.
pub proof fn lemma_decimal_order(m: nat, n: nat, width: nat)
    requires
        fits(m, width),
        fits(n, width),
        m < n,
    ensures
        lex_lt(decimal(m, width), decimal(n, width)),
    decreases width,
{
    let a = decimal(m, width);
    let b = decimal(n, width);
    lemma_decimal_digits(m, width);
    lemma_decimal_digits(n, width);
    if width > 0 {
        let pa = decimal(m / 10, (width - 1) as nat);
        let pb = decimal(n / 10, (width - 1) as nat);
        lemma_decimal_digits(m / 10, (width - 1) as nat);
        lemma_decimal_digits(n / 10, (width - 1) as nat);
        if m / 10 < n / 10 {
            lemma_decimal_order(m / 10, n / 10, (width - 1) as nat);
            let k = choose|k: int| lex_lt_at(pa, pb, k);
            assert(k < pa.len());
            assert forall|i: int| 0 <= i < k implies a[i] == b[i] by {
                assert(pa[i] == pb[i]);
            }
            assert(lex_lt_at(a, b, k));
        } else {
            assert(m / 10 == n / 10);
            assert(m % 10 < n % 10);
            assert(lex_lt_at(a, b, width - 1));
        }
    }
}

/// A common prefix does not change the order of two keys.
pub proof fn lemma_lex_lt_prefix(p: Seq<u8>, a: Seq<u8>, b: Seq<u8>)
    ensures
        lex_lt(p + a, p + b) == lex_lt(a, b),
{
    if lex_lt(a, b) {
        let k = choose|k: int| lex_lt_at(a, b, k);
        assert forall|i: int| 0 <= i < k + p.len() implies (p + a)[i] == (p + b)[i] by {
            if i >= p.len() {
                assert(a[i - p.len()] == b[i - p.len()]);
            }
        }
        assert(lex_lt_at(p + a, p + b, k + p.len()));
    }
    if lex_lt(p + a, p + b) {
        let k = choose|k: int| lex_lt_at(p + a, p + b, k);
        if k < p.len() {
            assert((p + a)[k] == p[k]);
            assert((p + b)[k] == p[k]);
            assert(false);
        }
        assert forall|i: int| 0 <= i < k - p.len() implies a[i] == b[i] by {
            assert((p + a)[i + p.len()] == (p + b)[i + p.len()]);
        }
        if k - p.len() < a.len() {
            assert((p + a)[k] == a[k - p.len()]);
            assert((p + b)[k] == b[k - p.len()]);
        }
        assert(lex_lt_at(a, b, k - p.len()));
    }
}

/// The lexicographic order is strict: no key sorts before itself, and of two
/// keys at most one sorts before the other.
pub proof fn lemma_lex_lt_asymmetric(a: Seq<u8>, b: Seq<u8>)
    requires
        lex_lt(a, b),
    ensures
        !lex_lt(b, a),
        a != b,
{
    let k = choose|k: int| lex_lt_at(a, b, k);
    if lex_lt(b, a) {
        let j = choose|j: int| lex_lt_at(b, a, j);
        if j < k {
            assert(a[j] == b[j]);
        } else if k < j {
            assert(b[k] == a[k]);
        }
    }
}

/// Compares two keys: whether `a` sorts strictly before `b`.
pub fn key_lt(a: &[u8], b: &[u8]) -> (r: bool)
    ensures
        r == lex_lt(a@, b@),
{
    let mut i: usize = 0;
    while i < a.len() && i < b.len()
        invariant
            i <= a@.len(),
            i <= b@.len(),
            forall|k: int| 0 <= k < i ==> a@[k] == b@[k],
        decreases a@.len() - i,
    {
        if a[i] != b[i] {
            let r = a[i] < b[i];
            proof {
                if r {
                    assert(lex_lt_at(a@, b@, i as int));
                } else {
                    assert(lex_lt_at(b@, a@, i as int));
                    lemma_lex_lt_asymmetric(b@, a@);
                }
            }
            return r;
        }
        i += 1;
    }
    let r = i < b.len();
    proof {
        if r {
            assert(lex_lt_at(a@, b@, i as int));
        } else {
            if lex_lt(a@, b@) {
                let k = choose|k: int| lex_lt_at(a@, b@, k);
                if k < a@.len() {
                    assert(a@[k] == b@[k]);
                }
            }
        }
    }
    r
}

/// Whether the key `s` begins with `prefix`.
pub fn key_starts_with(s: &[u8], prefix: &[u8]) -> (r: bool)
    ensures
        r == starts_with(s@, prefix@),
{
    if prefix.len() > s.len() {
        return false;
    }
    let mut i: usize = 0;
    while i < prefix.len()
        invariant
            i <= prefix@.len(),
            prefix@.len() <= s@.len(),
            forall|k: int| 0 <= k < i ==> s@[k] == prefix@[k],
        decreases prefix@.len() - i,
    {
        if s[i] != prefix[i] {
            assert(s@.take(prefix@.len() as int)[i as int] != prefix@[i as int]);
            return false;
        }
        i += 1;
    }
    assert(s@.take(prefix@.len() as int) =~= prefix@);
    true
}

/// The time field of every hour up to the last year is made of four valid
/// numbers, which are those of the date and hour of the timestamp.
pub proof fn lemma_key_fields(ts: u64)
    requires
        ts <= MAX_TIMESTAMP,
    ensures
        fields_valid(key_fields(ts)),
        day_number(
            LAST_YEAR - key_fields(ts).0,
            12 - key_fields(ts).1,
            31 - key_fields(ts).2,
        ) == ts / DAY,
        key_bytes(ts).len() == KEY_WIDTH,
        is_digits(key_bytes(ts)),
{
    let n = ts as int / DAY as int;
    lemma_civil_exists(n);
    let c = civil_of_day(n);
    lemma_year_bound(c.0, c.1, c.2);
    let f = key_fields(ts);
    lemma_decimal_digits(f.0 as nat, 4);
    lemma_decimal_digits(f.1 as nat, 2);
    lemma_decimal_digits(f.2 as nat, 2);
    lemma_decimal_digits(f.3 as nat, 2);
}

/// Numbers within the bounds of a time field fit their widths.
pub proof fn lemma_fields_fit(f: (int, int, int, int))
    requires
        fields_valid(f),
    ensures
        fits(f.0 as nat, 4),
        fits(f.1 as nat, 2),
        fits(f.2 as nat, 2),
        fits(f.3 as nat, 2),
{
    reveal_with_fuel(fits, 5);
}

/// The digits of a time field split into the digits of its four numbers.
pub proof fn lemma_field_bytes_parts(f: (int, int, int, int))
    ensures
        field_bytes(f).len() == 10,
        field_bytes(f).subrange(0, 4) == decimal(f.0 as nat, 4),
        field_bytes(f).subrange(4, 6) == decimal(f.1 as nat, 2),
        field_bytes(f).subrange(6, 8) == decimal(f.2 as nat, 2),
        field_bytes(f).subrange(8, 10) == decimal(f.3 as nat, 2),
{
    lemma_decimal_digits(f.0 as nat, 4);
    lemma_decimal_digits(f.1 as nat, 2);
    lemma_decimal_digits(f.2 as nat, 2);
    lemma_decimal_digits(f.3 as nat, 2);
    let b = field_bytes(f);
    assert(b.subrange(0, 4) =~= decimal(f.0 as nat, 4));
    assert(b.subrange(4, 6) =~= decimal(f.1 as nat, 2));
    assert(b.subrange(6, 8) =~= decimal(f.2 as nat, 2));
    assert(b.subrange(8, 10) =~= decimal(f.3 as nat, 2));
}

/// Of two strings of equal length, the order of what follows does not
/// matter when the strings differ.
pub proof fn lemma_lex_lt_extend(a1: Seq<u8>, b1: Seq<u8>, a2: Seq<u8>, b2: Seq<u8>)
    requires
        a1.len() == a2.len(),
        lex_lt(a1, a2),
    ensures
        lex_lt(a1 + b1, a2 + b2),
{
    let k = choose|k: int| lex_lt_at(a1, a2, k);
    assert forall|i: int| 0 <= i < k implies (a1 + b1)[i] == (a2 + b2)[i] by {
        assert(a1[i] == a2[i]);
    }
    assert(lex_lt_at(a1 + b1, a2 + b2, k));
}

/// Time fields sort as their numbers do.
pub proof fn lemma_field_bytes_order(a: (int, int, int, int), b: (int, int, int, int))
    requires
        fields_valid(a),
        fields_valid(b),
        fields_lt(a, b),
    ensures
        lex_lt(field_bytes(a), field_bytes(b)),
{
    lemma_fields_fit(a);
    lemma_fields_fit(b);
    let a0 = decimal(a.0 as nat, 4);
    let a1 = decimal(a.1 as nat, 2);
    let a2 = decimal(a.2 as nat, 2);
    let a3 = decimal(a.3 as nat, 2);
    let b0 = decimal(b.0 as nat, 4);
    let b1 = decimal(b.1 as nat, 2);
    let b2 = decimal(b.2 as nat, 2);
    let b3 = decimal(b.3 as nat, 2);
    lemma_decimal_digits(a.0 as nat, 4);
    lemma_decimal_digits(a.1 as nat, 2);
    lemma_decimal_digits(a.2 as nat, 2);
    lemma_decimal_digits(a.3 as nat, 2);
    lemma_decimal_digits(b.0 as nat, 4);
    lemma_decimal_digits(b.1 as nat, 2);
    lemma_decimal_digits(b.2 as nat, 2);
    lemma_decimal_digits(b.3 as nat, 2);
    assert(field_bytes(a) =~= a0 + (a1 + (a2 + a3)));
    assert(field_bytes(b) =~= b0 + (b1 + (b2 + b3)));
    if a.0 < b.0 {
        lemma_decimal_order(a.0 as nat, b.0 as nat, 4);
        lemma_lex_lt_extend(a0, a1 + (a2 + a3), b0, b1 + (b2 + b3));
    } else {
        if a.1 < b.1 {
            lemma_decimal_order(a.1 as nat, b.1 as nat, 2);
            lemma_lex_lt_extend(a1, a2 + a3, b1, b2 + b3);
        } else {
            if a.2 < b.2 {
                lemma_decimal_order(a.2 as nat, b.2 as nat, 2);
                lemma_lex_lt_extend(a2, a3, b2, b3);
            } else {
                lemma_decimal_order(a.3 as nat, b.3 as nat, 2);
                lemma_lex_lt_prefix(a2, a3, b3);
            }
            lemma_lex_lt_prefix(a1, a2 + a3, b2 + b3);
        }
        lemma_lex_lt_prefix(a0, a1 + (a2 + a3), b1 + (b2 + b3));
    }
}

/// Keys reverse time: a later hour has the smaller time field.
pub proof fn lemma_key_reverses_order(t1: u64, t2: u64)
    requires
        t1 / HOUR < t2 / HOUR,
        t2 <= MAX_TIMESTAMP,
    ensures
        lex_lt(key_bytes(t2), key_bytes(t1)),
{
    lemma_key_fields(t1);
    lemma_key_fields(t2);
    let n1 = t1 as int / DAY as int;
    let n2 = t2 as int / DAY as int;
    assert(n1 <= n2);
    if n1 < n2 {
        lemma_civil_order(n1, n2);
    }
    lemma_field_bytes_order(key_fields(t2), key_fields(t1));
}

/// Keys never put an earlier timestamp before a later one.
pub proof fn lemma_key_order_weak(t1: u64, t2: u64)
    requires
        t1 <= t2,
        t2 <= MAX_TIMESTAMP,
    ensures
        lex_le(key_bytes(t2), key_bytes(t1)),
{
    assert(t1 / HOUR <= t2 / HOUR);
    if t1 / HOUR < t2 / HOUR {
        lemma_key_reverses_order(t1, t2);
    } else {
        assert(t1 as int / DAY as int == t2 as int / DAY as int);
        assert((t1 as int % DAY as int) / HOUR as int == (t2 as int % DAY as int) / HOUR as int);
    }
}

/// The time field names its hour: two timestamps with the same time field lie
/// in the same hour.
pub proof fn lemma_key_names_hour(t1: u64, t2: u64)
    requires
        t1 <= MAX_TIMESTAMP,
        t2 <= MAX_TIMESTAMP,
        key_bytes(t1) == key_bytes(t2),
    ensures
        t1 / HOUR == t2 / HOUR,
{
    if t1 / HOUR < t2 / HOUR {
        lemma_key_reverses_order(t1, t2);
        lemma_lex_lt_asymmetric(key_bytes(t2), key_bytes(t1));
    } else if t2 / HOUR < t1 / HOUR {
        lemma_key_reverses_order(t2, t1);
        lemma_lex_lt_asymmetric(key_bytes(t1), key_bytes(t2));
    }
}

/// Appends the `width` lowest decimal digits of `n`.
pub fn push_decimal(out: &mut Vec<u8>, n: u64, width: usize)
    ensures
        final(out)@ == old(out)@ + decimal(n as nat, width as nat),
{
    let base = out.len();
    let ghost start = out@;
    let mut rest: u64 = n;
    let mut k: usize = 0;
    assert(start + decimal(n as nat, width as nat) =~= start + decimal(
        rest as nat,
        (width - k) as nat,
    ) + out@.skip(base as int));
    while k < width
        invariant
            k <= width,
            base == start.len(),
            out@.len() == base + k,
            out@.take(base as int) == start,
            start + decimal(n as nat, width as nat) == start + decimal(
                rest as nat,
                (width - k) as nat,
            ) + out@.skip(base as int),
        decreases width - k,
    {
        let d: u8 = (rest % 10) as u8;
        let ghost before = out@;
        out.insert(base, 48 + d);
        proof {
            let w = (width - k) as nat;
            assert(decimal(rest as nat, w) == decimal(rest as nat / 10, (w - 1) as nat).push(
                (48 + rest as nat % 10) as u8,
            ));
            assert(out@.take(base as int) =~= start);
            assert(decimal(rest as nat, w) + before.skip(base as int) =~= decimal(
                rest as nat / 10,
                (w - 1) as nat,
            ) + out@.skip(base as int));
        }
        rest = rest / 10;
        k += 1;
    }
    assert(out@ =~= start + decimal(n as nat, width as nat)) by {
        assert(decimal(rest as nat, 0) =~= Seq::<u8>::empty());
        assert(out@ =~= out@.take(base as int) + out@.skip(base as int));
    }
}

/// Writes the time field of the key of the hour that contains `ts`.
pub fn key_digits(ts: u64) -> (r: Vec<u8>)
    requires
        ts <= MAX_TIMESTAMP,
    ensures
        r@ == key_bytes(ts),
{
    let fields = utc_fields(ts);
    proof {
        lemma_civil_of_day(fields.0 as int, fields.1 as int, fields.2 as int);
        lemma_year_bound(fields.0 as int, fields.1 as int, fields.2 as int);
    }
    let mut out: Vec<u8> = Vec::new();
    push_decimal(&mut out, LAST_YEAR - fields.0, 4);
    push_decimal(&mut out, 12 - fields.1, 2);
    push_decimal(&mut out, 31 - fields.2, 2);
    push_decimal(&mut out, 23 - fields.3, 2);
    assert(out@ =~= key_bytes(ts));
    out
}

/// Reads the number that `width` digits from `start` on denote.
fn read_decimal(field: &[u8], start: usize, width: usize) -> (r: u64)
    requires
        start + width <= field@.len(),
        width <= 4,
        is_digits(field@),
    ensures
        r == decimal_value(field@.subrange(start as int, start + width)),
        r <= 9999,
{
    let mut acc: u64 = 0;
    let mut i: usize = 0;
    let total = field.len();
    let ghost part = field@.subrange(start as int, start + width);
    assert(part.take(0) =~= Seq::<u8>::empty());
    while i < width
        invariant
            i <= width <= 4,
            start + width <= field@.len(),
            total == field@.len(),
            is_digits(field@),
            part == field@.subrange(start as int, start + width),
            acc == decimal_value(part.take(i as int)),
            fits(acc as nat, i as nat),
        decreases width - i,
    {
        let b = field[start + i];
        proof {
            lemma_fits_bound(acc as nat, i as nat);
            let next = part.take(i + 1);
            assert(next.drop_last() =~= part.take(i as int));
            assert(next.last() == b);
            assert(is_digits(next)) by {
                assert forall|j: int| 0 <= j < next.len() implies 48 <= #[trigger] next[j]
                    <= 57 by {
                    assert(next[j] == field@[start + j]);
                }
            }
            lemma_value_decimal(next);
        }
        acc = acc * 10 + (b - 48) as u64;
        i += 1;
    }
    proof {
        assert(part.take(i as int) =~= part);
        lemma_fits_bound(acc as nat, i as nat);
        lemma_fits_four(acc as nat, i as nat);
    }
    acc
}

proof fn lemma_fits_four(n: nat, width: nat)
    requires
        width <= 4,
        fits(n, width),
    ensures
        n <= 9999,
{
    reveal_with_fuel(fits, 6);
}

/// What the digits of a time field denote.
proof fn lemma_key_parse(ts: u64)
    requires
        ts <= MAX_TIMESTAMP,
    ensures
        key_bytes(ts).len() == KEY_WIDTH,
        is_digits(key_bytes(ts)),
        fields_valid(key_fields(ts)),
        decimal_value(key_bytes(ts).subrange(0, 4)) == key_fields(ts).0,
        decimal_value(key_bytes(ts).subrange(4, 6)) == key_fields(ts).1,
        decimal_value(key_bytes(ts).subrange(6, 8)) == key_fields(ts).2,
        decimal_value(key_bytes(ts).subrange(8, 10)) == key_fields(ts).3,
{
    lemma_key_fields(ts);
    let f = key_fields(ts);
    lemma_fields_fit(f);
    lemma_field_bytes_parts(f);
    lemma_decimal_value(f.0 as nat, 4);
    lemma_decimal_value(f.1 as nat, 2);
    lemma_decimal_value(f.2 as nat, 2);
    lemma_decimal_value(f.3 as nat, 2);
}

/// Reads a time field: the first second of the hour that the field names,
/// or `None` when the bytes are not the time field of any hour.
pub fn parse_key_digits(field: &[u8]) -> (r: Option<u64>)
    ensures
        match r {
            Some(ts) => ts <= MAX_TIMESTAMP && ts % HOUR == 0 && field@ == key_bytes(ts),
            None => forall|ts: u64| ts <= MAX_TIMESTAMP ==> field@ != #[trigger] key_bytes(ts),
        },
{
    proof {
        assert forall|ts: u64| ts <= MAX_TIMESTAMP && field@ == #[trigger] key_bytes(ts) implies {
            &&& field@.len() == KEY_WIDTH
            &&& is_digits(field@)
            &&& fields_valid(key_fields(ts))
            &&& decimal_value(field@.subrange(0, 4)) == key_fields(ts).0
            &&& decimal_value(field@.subrange(4, 6)) == key_fields(ts).1
            &&& decimal_value(field@.subrange(6, 8)) == key_fields(ts).2
            &&& decimal_value(field@.subrange(8, 10)) == key_fields(ts).3
        } by {
            lemma_key_parse(ts);
        }
    }
    if field.len() != KEY_WIDTH {
        return None;
    }
    let mut i: usize = 0;
    while i < KEY_WIDTH
        invariant
            i <= KEY_WIDTH,
            field@.len() == KEY_WIDTH,
            forall|j: int| 0 <= j < i ==> 48 <= #[trigger] field@[j] <= 57,
            forall|ts: u64|
                ts <= MAX_TIMESTAMP && field@ == #[trigger] key_bytes(ts) ==> is_digits(field@),
        decreases KEY_WIDTH - i,
    {
        if field[i] < 48 || field[i] > 57 {
            return None;
        }
        i += 1;
    }
    let yf = read_decimal(field, 0, 4);
    let mf = read_decimal(field, 4, 2);
    let df = read_decimal(field, 6, 2);
    let hf = read_decimal(field, 8, 2);
    if yf > LAST_YEAR - 1970 || mf > 11 || df > 30 || hf > 23 {
        return None;
    }
    let y = LAST_YEAR - yf;
    let m = 12 - mf;
    let d = 31 - df;
    if d > month_length(y, m) {
        return None;
    }
    let n = day_number_of(y, m, d);
    let ts = n * DAY + (23 - hf) * HOUR;
    proof {
        lemma_civil_of_day(y as int, m as int, d as int);
        assert(ts as int / DAY as int == n);
        assert((ts as int % DAY as int) / HOUR as int == 23 - hf);
        let f = key_fields(ts);
        assert(f == (yf as int, mf as int, df as int, hf as int));
        lemma_field_bytes_parts(f);
        let year_part = field@.subrange(0, 4);
        let month_part = field@.subrange(4, 6);
        let day_part = field@.subrange(6, 8);
        let hour_part = field@.subrange(8, 10);
        assert(is_digits(year_part) && is_digits(month_part) && is_digits(day_part) && is_digits(hour_part)) by {
            assert forall|j: int| 0 <= j < year_part.len() implies 48 <= #[trigger] year_part[j] <= 57 by {
                assert(year_part[j] == field@[j]);
            }
            assert forall|j: int| 0 <= j < month_part.len() implies 48 <= #[trigger] month_part[j] <= 57 by {
                assert(month_part[j] == field@[j + 4]);
            }
            assert forall|j: int| 0 <= j < day_part.len() implies 48 <= #[trigger] day_part[j] <= 57 by {
                assert(day_part[j] == field@[j + 6]);
            }
            assert forall|j: int| 0 <= j < hour_part.len() implies 48 <= #[trigger] hour_part[j] <= 57 by {
                assert(hour_part[j] == field@[j + 8]);
            }
        }
        lemma_value_decimal(year_part);
        lemma_value_decimal(month_part);
        lemma_value_decimal(day_part);
        lemma_value_decimal(hour_part);
        assert(field@ =~= year_part + month_part + day_part + hour_part);
    }
    Some(ts)
}

/// The key of the bucket of `base` for the hour that contains `ts`.
pub fn to_bucket_key(base: &[u8], ts: u64) -> (r: Vec<u8>)
    requires
        ts <= MAX_TIMESTAMP,
    ensures
        r@ == bucket_key(base@, ts),
{
    let mut out: Vec<u8> = Vec::new();
    let mut i: usize = 0;
    while i < base.len()
        invariant
            i <= base@.len(),
            out@ == base@.take(i as int),
        decreases base@.len() - i,
    {
        out.push(base[i]);
        assert(out@ =~= base@.take(i + 1));
        i += 1;
    }
    assert(base@.take(i as int) =~= base@);
    out.push(SEPARATOR);
    let mut digits = key_digits(ts);
    out.append(&mut digits);
    assert(out@ =~= bucket_key(base@, ts));
    out
}

} // verus!
