//! Conversions between integers and doubles given by their IEEE-754 bit
//! patterns, in integer arithmetic.

use vstd::prelude::*;
use vstd::arithmetic::div_mod::lemma_div_denominator;

verus! {

/// Two to the power 52: the weight of the hidden bit of a double.
pub const TWO_52: u64 = 4503599627370496;

/// Two to the power 53.
pub const TWO_53: u64 = 9007199254740992;

/// Two to the power 63: the sign bit of a double.
pub const TWO_63: u64 = 9223372036854775808;

/// The exponent field of one: the exponent bias.
pub const BIAS: u64 = 1023;

/// Two to the power `e`.
pub open spec fn two_pow(e: nat) -> nat
    decreases e,
{
    if e == 0 {
        1
    } else {
        2 * two_pow((e - 1) as nat)
    }
}

/// The number of binary digits of `n`.
pub open spec fn bit_width(n: nat) -> nat
    decreases n,
{
    if n == 0 {
        0
    } else {
        1 + bit_width(n / 2)
    }
}

/// The exponent field of a double.
pub open spec fn exponent_field(bits: u64) -> nat {
    (bits as nat / TWO_52 as nat) % 2048
}

/// The fraction field of a double.
pub open spec fn fraction_field(bits: u64) -> nat {
    bits as nat % TWO_52 as nat
}

/// The double nearest to the natural number `n`, ties going to the even
/// significand: exact up to 53 binary digits, rounded beyond.
pub open spec fn float_of_nat(n: nat) -> u64 {
    if n == 0 {
        0
    } else {
        let k = (bit_width(n) - 1) as nat;
        if k <= 52 {
            ((BIAS + k) * TWO_52 + (n * two_pow((52 - k) as nat) - TWO_52)) as u64
        } else {
            let p = two_pow((k - 52) as nat);
            let q = n / p;
            let r = n % p;
            let up: nat = if 2 * r > p || (2 * r == p && q % 2 == 1) {
                1
            } else {
                0
            };
            ((BIAS + k) * TWO_52 + (q - TWO_52) + up) as u64
        }
    }
}

/// The double nearest to the integer `i`.
pub open spec fn float_of_int(i: int) -> u64 {
    if i >= 0 {
        float_of_nat(i as nat)
    } else {
        (TWO_63 + float_of_nat((-i) as nat)) as u64
    }
}

/// The integer part of a double, within the range of `i64`: zero for NaN and
/// for magnitudes below one, the nearest bound for magnitudes beyond the
/// range, and the value with its fraction cut off otherwise.
pub open spec fn float_truncated(bits: u64) -> int {
    let e = exponent_field(bits);
    let m = TWO_52 + fraction_field(bits);
    let negative = bits >= TWO_63;
    if e == 2047 && fraction_field(bits) != 0 {
        0
    } else if e < 1023 {
        0
    } else if e >= 1086 {
        if negative {
            i64::MIN as int
        } else {
            i64::MAX as int
        }
    } else {
        let magnitude: int = if e >= 1075 {
            m * two_pow((e - 1075) as nat)
        } else {
            m as int / two_pow((1075 - e) as nat) as int
        };
        if negative {
            -magnitude
        } else {
            magnitude
        }
    }
}

pub proof fn lemma_two_pow_values()
    ensures
        two_pow(0) == 1,
        two_pow(1) == 2,
        two_pow(10) == 1024,
        two_pow(11) == 2048,
        two_pow(12) == 4096,
        two_pow(52) == TWO_52,
        two_pow(53) == TWO_53,
        two_pow(63) == TWO_63,
{
    reveal_with_fuel(two_pow, 13);
    assert(two_pow(12) == 4096);
    assert(two_pow(24) == 16777216) by {
        lemma_two_pow_adds(12, 12);
    }
    assert(two_pow(48) == 281474976710656) by {
        lemma_two_pow_adds(24, 24);
    }
    assert(two_pow(52) == TWO_52) by {
        lemma_two_pow_adds(48, 4);
    }
    assert(two_pow(53) == TWO_53);
    assert(two_pow(63) == TWO_63) by {
        lemma_two_pow_adds(53, 10);
    }
}

pub proof fn lemma_two_pow_adds(a: nat, b: nat)
    ensures
        two_pow(a + b) == two_pow(a) * two_pow(b),
    decreases b,
{
    if b == 0 {
        assert(two_pow(a) * 1 == two_pow(a));
    } else {
        lemma_two_pow_adds(a, (b - 1) as nat);
        assert(two_pow(a + b) == 2 * two_pow((a + b - 1) as nat));
        assert(2 * (two_pow(a) * two_pow((b - 1) as nat)) == two_pow(a) * (2 * two_pow(
            (b - 1) as nat,
        ))) by (nonlinear_arith);
    }
}

pub proof fn lemma_two_pow_grows(a: nat, b: nat)
    requires
        a <= b,
    ensures
        0 < two_pow(a) <= two_pow(b),
    decreases b,
{
    if a < b {
        lemma_two_pow_grows(a, (b - 1) as nat);
    } else {
        lemma_two_pow_positive(a);
    }
}

pub proof fn lemma_two_pow_positive(a: nat)
    ensures
        two_pow(a) > 0,
    decreases a,
{
    if a > 0 {
        lemma_two_pow_positive((a - 1) as nat);
    }
}

/// A number between two consecutive powers of two has one digit more than
/// the exponent of the lower one.
pub proof fn lemma_bit_width_between(m: nat, j: nat)
    requires
        two_pow(j) <= m < two_pow(j + 1),
    ensures
        bit_width(m) == j + 1,
    decreases j,
{
    if j == 0 {
        reveal_with_fuel(two_pow, 3);
        reveal_with_fuel(bit_width, 3);
        assert(m == 1);
    } else {
        assert(two_pow(j) == 2 * two_pow((j - 1) as nat));
        assert(two_pow(j + 1) == 2 * two_pow(j));
        lemma_bit_width_between(m / 2, (j - 1) as nat);
    }
}

/// Cutting `s` low digits off a number leaves `s` digits fewer.
pub proof fn lemma_bit_width_scaled(n: nat, s: nat)
    requires
        n / two_pow(s) >= 1,
    ensures
        bit_width(n) == bit_width(n / two_pow(s)) + s,
    decreases s,
{
    lemma_two_pow_positive(s);
    if s > 0 {
        let h = two_pow((s - 1) as nat);
        lemma_two_pow_positive((s - 1) as nat);
        lemma_div_denominator(n as int, 2, h as int);
        assert(two_pow(s) == 2 * h);
        assert((n / 2) / h == n / two_pow(s));
        assert(n >= 1) by {
            if n == 0 {
                assert(0nat / two_pow(s) == 0) by (nonlinear_arith)
                    requires
                        two_pow(s) > 0,
                ;
            }
        }
        assert(bit_width(n) == 1 + bit_width(n / 2));
        lemma_bit_width_scaled(n / 2, (s - 1) as nat);
    } else {
        assert(two_pow(0) == 1);
        assert(n / 1 == n);
    }
}

/// Computes two to the power `e`.
pub fn power_of_two(e: u64) -> (r: u64)
    requires
        e <= 63,
    ensures
        r == two_pow(e as nat),
{
    let mut p: u64 = 1;
    let mut i: u64 = 0;
    while i < e
        invariant
            i <= e <= 63,
            p == two_pow(i as nat),
        decreases e - i,
    {
        proof {
            lemma_two_pow_values();
            lemma_two_pow_grows((i + 1) as nat, 63);
        }
        p = p * 2;
        i += 1;
    }
    p
}

/// Converts a natural number to the nearest double.
pub fn float_from_u64(n: u64) -> (bits: u64)
    ensures
        bits == float_of_nat(n as nat),
{
    proof {
        lemma_two_pow_values();
    }
    if n == 0 {
        return 0;
    }
    if n < TWO_52 {
        let mut m: u64 = n;
        let mut k: u64 = 52;
        while m < TWO_52
            invariant
                1 <= m < TWO_53,
                k <= 52,
                m == n * two_pow((52 - k) as nat),
                bit_width(m as nat) == bit_width(n as nat) + (52 - k),
                m < TWO_52 ==> k > 0,
                two_pow(52) == TWO_52,
                two_pow(53) == TWO_53,
            decreases k,
        {
            proof {
                assert(bit_width(2 * m as nat) == 1 + bit_width(m as nat)) by {
                    assert((2 * m as nat) / 2 == m as nat);
                }
                assert(two_pow((52 - (k - 1)) as nat) == 2 * two_pow((52 - k) as nat));
                assert(2 * (n * two_pow((52 - k) as nat)) == n * (2 * two_pow((52 - k) as nat)))
                    by (nonlinear_arith);
                if 2 * m < TWO_52 && k == 1 {
                    lemma_bit_width_pos(n as nat);
                    lemma_bit_width_below(2 * m as nat, 52);
                }
            }
            m = m * 2;
            k = k - 1;
        }
        proof {
            lemma_bit_width_between(m as nat, 52);
        }
        (BIAS + k) * TWO_52 + (m - TWO_52)
    } else {
        let mut p: u64 = 1;
        let mut s: u64 = 0;
        assert(n as nat / 1 == n as nat);
        while n / p >= TWO_53
            invariant
                p == two_pow(s as nat),
                s <= 11,
                1 <= p <= 2048,
                n / p >= TWO_52,
                two_pow(11) == 2048,
            decreases 12 - s,
        {
            proof {
                lemma_div_denominator(n as int, p as int, 2);
                assert(n as int / (p * 2) == (n as int / p as int) / 2);
                assert(p < 2048) by {
                    if p >= 2048 {
                        assert(n as int / p as int <= n as int / 2048) by (nonlinear_arith)
                            requires
                                p >= 2048,
                                n >= 0,
                        ;
                    }
                }
                lemma_two_pow_grows((s + 1) as nat, 11);
                if s >= 11 {
                    assert(false);
                }
            }
            p = p * 2;
            s += 1;
        }
        let q = n / p;
        let r = n % p;
        let up: u64 = if 2 * r > p || (2 * r == p && q % 2 == 1) {
            1
        } else {
            0
        };
        proof {
            lemma_bit_width_between(q as nat, 52);
            lemma_bit_width_scaled(n as nat, s as nat);
            assert(bit_width(n as nat) - 1 == 52 + s);
            if s == 0 {
                assert(q == n);
                assert(r == 0);
                assert(n * two_pow(0) == n) by (nonlinear_arith)
                    requires
                        two_pow(0) == 1,
                ;
            }
        }
        (BIAS + 52 + s) * TWO_52 + (q - TWO_52) + up
    }
}

proof fn lemma_bit_width_pos(n: nat)
    requires
        n >= 1,
    ensures
        bit_width(n) >= 1,
{
}

/// A number below a power of two has at most as many digits as its exponent.
proof fn lemma_bit_width_below(m: nat, j: nat)
    requires
        m < two_pow(j),
    ensures
        bit_width(m) <= j,
    decreases j,
{
    if m > 0 {
        if j == 0 {
            assert(two_pow(0) == 1);
        } else {
            assert(two_pow(j) == 2 * two_pow((j - 1) as nat));
            lemma_bit_width_below(m / 2, (j - 1) as nat);
        }
    }
}

/// Converts an integer to the nearest double.
pub fn float_from_i64(i: i64) -> (bits: u64)
    ensures
        bits == float_of_int(i as int),
{
    if i >= 0 {
        float_from_u64(i as u64)
    } else {
        let magnitude: u64 = if i == i64::MIN {
            TWO_63
        } else {
            (-i) as u64
        };
        let b = float_from_u64(magnitude);
        proof {
            lemma_float_of_nat_bound(magnitude as nat);
        }
        TWO_63 + b
    }
}

/// The double nearest to a natural number of at most 64 digits has its sign
/// bit clear.
pub proof fn lemma_float_of_nat_bound(n: nat)
    requires
        n <= u64::MAX,
    ensures
        float_of_nat(n) < TWO_63,
        n > 0 ==> {
            let k = (bit_width(n) - 1) as nat;
            &&& k <= 63
            &&& if k <= 52 {
                float_of_nat(n) == (BIAS + k) * TWO_52 + (n * two_pow((52 - k) as nat) - TWO_52)
                    && TWO_52 <= n * two_pow((52 - k) as nat) < TWO_53
            } else {
                TWO_52 <= n / two_pow((k - 52) as nat) < TWO_53
            }
        },
{
    lemma_two_pow_values();
    if n > 0 {
        let k = (bit_width(n) - 1) as nat;
        lemma_two_pow_adds(63, 1);
        lemma_bit_width_below(n, 64);
        lemma_bit_width_bounds(n);
        if k <= 52 {
            let j = (52 - k) as nat;
            lemma_two_pow_adds(k, j);
            lemma_two_pow_adds(k + 1, j);
            lemma_two_pow_positive(j);
            assert(two_pow(k) * two_pow(j) <= n * two_pow(j)) by (nonlinear_arith)
                requires
                    two_pow(k) <= n,
                    two_pow(j) > 0,
            ;
            assert(n * two_pow(j) < two_pow(k + 1) * two_pow(j)) by (nonlinear_arith)
                requires
                    n < two_pow(k + 1),
                    two_pow(j) > 0,
            ;
        } else {
            let s = (k - 52) as nat;
            let p = two_pow(s);
            lemma_two_pow_positive(s);
            lemma_two_pow_adds(52, s);
            lemma_two_pow_adds(53, s);
            assert(two_pow(k) == TWO_52 * p);
            assert(two_pow(k + 1) == TWO_53 * p);
            assert(n / p >= TWO_52) by (nonlinear_arith)
                requires
                    n >= TWO_52 * p,
                    p > 0,
            ;
            assert(n / p < TWO_53) by (nonlinear_arith)
                requires
                    n < TWO_53 * p,
                    p > 0,
            ;
        }
    }
}

/// A positive number lies between the two powers of two that its digit count
/// names.
pub proof fn lemma_bit_width_bounds(n: nat)
    requires
        n > 0,
    ensures
        two_pow((bit_width(n) - 1) as nat) <= n < two_pow(bit_width(n)),
    decreases n,
{
    if n == 1 {
        reveal_with_fuel(bit_width, 3);
        reveal_with_fuel(two_pow, 3);
    } else {
        lemma_bit_width_bounds(n / 2);
        assert(bit_width(n) == 1 + bit_width(n / 2));
        assert(two_pow(bit_width(n)) == 2 * two_pow(bit_width(n / 2)));
        assert(two_pow((bit_width(n) - 1) as nat) == 2 * two_pow((bit_width(n / 2) - 1) as nat));
    }
}

/// Cuts the fraction off a double and fits the result into `i64`.
pub fn float_to_i64(bits: u64) -> (r: i64)
    ensures
        r == float_truncated(bits),
{
    proof {
        lemma_two_pow_values();
    }
    let e = (bits / TWO_52) % 2048;
    let f = bits % TWO_52;
    let negative = bits >= TWO_63;
    if e == 2047 && f != 0 {
        return 0;
    }
    if e < 1023 {
        return 0;
    }
    if e >= 1086 {
        return if negative {
            i64::MIN
        } else {
            i64::MAX
        };
    }
    let m = TWO_52 + f;
    let magnitude: u64 = if e >= 1075 {
        let p = power_of_two(e - 1075);
        proof {
            lemma_two_pow_grows((e - 1075) as nat, 10);
            assert(m * p < TWO_63) by (nonlinear_arith)
                requires
                    m < TWO_53,
                    p <= 1024,
                    TWO_53 * 1024 == TWO_63,
            ;
        }
        m * p
    } else {
        let p = power_of_two(1075 - e);
        proof {
            lemma_two_pow_positive((1075 - e) as nat);
        }
        m / p
    };
    if negative {
        -(magnitude as i64)
    } else {
        magnitude as i64
    }
}

} // verus!
