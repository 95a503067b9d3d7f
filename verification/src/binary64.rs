//! Binary64 numbers, held as their bit patterns and compared in exact integer
//! arithmetic.
//!
//! A finite binary64 value is `±m · 2^(k - 1074)`, where `m` is its
//! significand and `k` its binade. Its *scaled value* is the integer
//! `±m · 2^k`, the value times `2^1074`. Order and distance of values are the
//! order and distance of their scaled values, which the functions of this
//! module compute without rounding.

use vstd::arithmetic::power2::lemma2_to64;
use vstd::arithmetic::power2::lemma2_to64_rest;
use vstd::arithmetic::power2::lemma_pow2_adds;
use vstd::arithmetic::power2::lemma_pow2_pos;
use vstd::arithmetic::power2::lemma_pow2_strictly_increases;
use vstd::arithmetic::power2::pow2;
use vstd::prelude::*;

verus! {

/// The bit that holds the sign.
pub const SIGN_BIT: u64 = 0x8000_0000_0000_0000;

/// The magnitude bits of infinity. A larger magnitude is not a number; a
/// smaller one is a finite value.
pub const INFINITY_BITS: u64 = 0x7ff0_0000_0000_0000;

/// `2^52`: the number of fractions in a binade, and the leading bit that the
/// significand of a normal number has on top of its fraction.
pub const HIDDEN_BIT: u64 = 0x0010_0000_0000_0000;

/// The binade of `2^-51`, which is twice the machine epsilon.
pub const EPSILON_BINADE: u64 = 971;

/// The sign bit is set.
pub open spec fn is_negative(bits: u64) -> bool {
    bits >= SIGN_BIT
}

/// The bits but for the sign.
pub open spec fn magnitude(bits: u64) -> nat {
    if bits >= SIGN_BIT {
        (bits - SIGN_BIT) as nat
    } else {
        bits as nat
    }
}

/// The bit pattern is that of a number: finite or infinite, not a NaN.
pub open spec fn is_number(bits: u64) -> bool {
    magnitude(bits) <= INFINITY_BITS
}

/// The bit pattern is that of a finite number.
pub open spec fn is_finite(bits: u64) -> bool {
    magnitude(bits) < INFINITY_BITS
}

/// The bit pattern is that of `+0.0` or of `-0.0`.
pub open spec fn is_zero(bits: u64) -> bool {
    magnitude(bits) == 0
}

/// Two bit patterns stand for the same number: neither is a NaN, and they
/// are the same pattern or the two zeros.
pub open spec fn same_number(a: u64, b: u64) -> bool {
    is_number(a) && is_number(b) && (a == b || (is_zero(a) && is_zero(b)))
}

/// An integer that orders bit patterns as their numbers are ordered: for
/// any two numbers, the first is less than the second exactly when its
/// ordinal is less, and the two zeros share the ordinal 0.
pub open spec fn ordinal(bits: u64) -> int {
    if is_negative(bits) {
        -(magnitude(bits) as int)
    } else {
        magnitude(bits) as int
    }
}

/// The exponent field.
pub open spec fn exponent(bits: u64) -> nat {
    magnitude(bits) / (HIDDEN_BIT as nat)
}

/// The fraction field.
pub open spec fn fraction(bits: u64) -> nat {
    magnitude(bits) % (HIDDEN_BIT as nat)
}

/// The significand: the fraction, with the hidden bit on top unless the
/// number is subnormal.
pub open spec fn significand(bits: u64) -> nat {
    if exponent(bits) == 0 {
        fraction(bits)
    } else {
        fraction(bits) + HIDDEN_BIT as nat
    }
}

/// The binade: the power of two by which the significand is scaled, counted
/// from that of the subnormal numbers.
pub open spec fn binade(bits: u64) -> nat {
    if exponent(bits) == 0 {
        0
    } else {
        (exponent(bits) - 1) as nat
    }
}

/// The value of a finite number, times `2^1074`.
pub open spec fn scaled(bits: u64) -> int {
    if is_negative(bits) {
        -((significand(bits) * pow2(binade(bits))) as int)
    } else {
        (significand(bits) * pow2(binade(bits))) as int
    }
}

/// The distance of two scaled values.
pub open spec fn distance(a: int, b: int) -> int {
    if a >= b {
        a - b
    } else {
        b - a
    }
}

/// Two numbers are near each other: both are finite, and their values differ
/// by at most `2^-51`.
pub open spec fn near(a: u64, b: u64) -> bool {
    is_finite(a) && is_finite(b) && distance(scaled(a), scaled(b)) <= pow2(1023)
}

/// The scaled value of sign `negative`, significand `m` and binade `k`.
pub open spec fn signed(negative: bool, m: nat, k: nat) -> int {
    if negative {
        -((m * pow2(k)) as int)
    } else {
        (m * pow2(k)) as int
    }
}

/// Whether two finite numbers are near each other, decided from their parts.
/// The first number is the one with the higher binade.
pub open spec fn near_by_parts(
    hi_negative: bool,
    hi_m: nat,
    hi_k: nat,
    lo_negative: bool,
    lo_m: nat,
    lo_k: nat,
) -> bool {
    if hi_k < 970 {
        true
    } else if hi_k - lo_k <= 64 {
        let aligned = hi_m * pow2((hi_k - lo_k) as nat);
        let gap = if hi_negative == lo_negative {
            distance(aligned as int, lo_m as int)
        } else {
            (aligned + lo_m) as int
        };
        if lo_k >= 1024 {
            gap == 0
        } else {
            gap <= pow2((1023 - lo_k) as nat)
        }
    } else if hi_k == 970 {
        true
    } else if hi_k == 971 && hi_m == HIDDEN_BIT {
        hi_negative == lo_negative || lo_m == 0
    } else {
        false
    }
}

proof fn lemma_product_bounds(m: nat, k: nat)
    requires
        m < pow2(53),
    ensures
        m * pow2(k) < pow2(k + 53),
        m >= pow2(52) ==> m * pow2(k) >= pow2(k + 52),
{
    lemma_pow2_adds(53, k);
    lemma_pow2_adds(52, k);
    lemma_pow2_pos(k);
    let p = pow2(k);
    assert(m * p < pow2(53) * p) by (nonlinear_arith)
        requires
            m < pow2(53),
            p > 0,
    ;
    if m >= pow2(52) {
        assert(m * p >= pow2(52) * p) by (nonlinear_arith)
            requires
                m >= pow2(52),
                p > 0,
        ;
    }
}

proof fn lemma_pow2_monotone(a: nat, b: nat)
    requires
        a <= b,
    ensures
        pow2(a) <= pow2(b),
        pow2(a) > 0,
{
    lemma_pow2_pos(a);
    if a < b {
        lemma_pow2_strictly_increases(a, b);
    }
}

proof fn lemma_pow2_double(a: nat)
    ensures
        pow2(a + 1) == 2 * pow2(a),
{
    lemma_pow2_adds(1, a);
    lemma2_to64();
}

/// The decision from the parts is the decision on the scaled values.
pub proof fn lemma_near_by_parts(
    hi_negative: bool,
    hi_m: nat,
    hi_k: nat,
    lo_negative: bool,
    lo_m: nat,
    lo_k: nat,
)
    requires
        lo_k <= hi_k,
        hi_m < pow2(53),
        lo_m < pow2(53),
        hi_k >= 1 ==> hi_m >= pow2(52),
    ensures
        near_by_parts(hi_negative, hi_m, hi_k, lo_negative, lo_m, lo_k) == (distance(
            signed(hi_negative, hi_m, hi_k),
            signed(lo_negative, lo_m, lo_k),
        ) <= pow2(1023)),
{
    lemma2_to64();
    lemma2_to64_rest();
    let hi = hi_m * pow2(hi_k);
    let lo = lo_m * pow2(lo_k);
    let gap = distance(signed(hi_negative, hi_m, hi_k), signed(lo_negative, lo_m, lo_k));
    lemma_product_bounds(hi_m, hi_k);
    lemma_product_bounds(lo_m, lo_k);
    lemma_pow2_double(1022);
    if hi_k < 970 {
        lemma_pow2_monotone(hi_k + 53, 1022);
        lemma_pow2_monotone(lo_k + 53, 1022);
        assert(gap <= hi + lo);
    } else if hi_k - lo_k <= 64 {
        let d = (hi_k - lo_k) as nat;
        let unit = pow2(lo_k);
        let aligned = hi_m * pow2(d);
        lemma_pow2_adds(d, lo_k);
        lemma_pow2_pos(lo_k);
        assert(hi == aligned * unit) by (nonlinear_arith)
            requires
                hi == hi_m * pow2(hi_k),
                pow2(hi_k) == pow2(d) * unit,
                aligned == hi_m * pow2(d),
        ;
        let parts_gap = if hi_negative == lo_negative {
            distance(aligned as int, lo_m as int)
        } else {
            (aligned + lo_m) as int
        };
        assert(gap == parts_gap * unit) by (nonlinear_arith)
            requires
                hi == aligned * unit,
                lo == lo_m * unit,
                gap == if hi_negative == lo_negative {
                    if hi >= lo {
                        hi - lo
                    } else {
                        lo - hi
                    }
                } else {
                    (hi + lo) as int
                },
                parts_gap == if hi_negative == lo_negative {
                    if aligned >= lo_m {
                        aligned - lo_m
                    } else {
                        lo_m - aligned
                    }
                } else {
                    (aligned + lo_m) as int
                },
                unit > 0,
        ;
        if lo_k >= 1024 {
            lemma_pow2_monotone(1024, lo_k);
            lemma_pow2_double(1023);
            assert((parts_gap == 0) == (parts_gap * unit <= pow2(1023))) by (nonlinear_arith)
                requires
                    parts_gap >= 0,
                    unit > pow2(1023),
            ;
        } else {
            let limit = pow2((1023 - lo_k) as nat);
            lemma_pow2_adds((1023 - lo_k) as nat, lo_k);
            assert((parts_gap <= limit) == (parts_gap * unit <= limit * unit)) by (nonlinear_arith)
                requires
                    unit > 0,
            ;
        }
    } else {
        lemma_pow2_monotone(lo_k + 53, (hi_k - 12) as nat);
        assert(lo < pow2((hi_k - 12) as nat));
        if hi_k == 970 {
            lemma_pow2_monotone(958, 970);
            lemma_pow2_adds(53, 970);
            assert(hi <= pow2(1023) - pow2(970)) by (nonlinear_arith)
                requires
                    hi == hi_m * pow2(970),
                    hi_m <= pow2(53) - 1,
                    pow2(53) * pow2(970) == pow2(1023),
                    pow2(970) > 0,
            ;
            assert(gap <= hi + lo);
        } else if hi_k == 971 {
            lemma_pow2_adds(52, 971);
            lemma_pow2_monotone(959, 971);
            lemma_pow2_pos(lo_k);
            if hi_m == HIDDEN_BIT {
                assert(hi == pow2(1023));
                assert((lo == 0) == (lo_m == 0)) by (nonlinear_arith)
                    requires
                        lo == lo_m * pow2(lo_k),
                        pow2(lo_k) > 0,
                ;
            } else {
                assert(hi >= pow2(1023) + pow2(971)) by (nonlinear_arith)
                    requires
                        hi == hi_m * pow2(971),
                        hi_m >= pow2(52) + 1,
                        pow2(52) * pow2(971) == pow2(1023),
                        pow2(971) > 0,
                ;
                assert(gap >= hi - lo);
            }
        } else {
            lemma_pow2_double(hi_k + 51);
            lemma_pow2_monotone((hi_k - 12) as nat, hi_k + 51);
            lemma_pow2_monotone(1023, hi_k + 51);
            assert(gap >= hi - lo);
        }
    }
}

proof fn lemma_magnitudes_order_values(a: u64, b: u64)
    requires
        a < b < INFINITY_BITS,
    ensures
        scaled(a) < scaled(b),
{
    lemma2_to64();
    lemma2_to64_rest();
    lemma_product_bounds(significand(a), binade(a));
    lemma_product_bounds(significand(b), binade(b));
    lemma_pow2_pos(binade(a));
    lemma_pow2_pos(binade(b));
    if exponent(a) == exponent(b) {
        let unit = pow2(binade(a));
        assert(significand(a) * unit < significand(b) * unit) by (nonlinear_arith)
            requires
                significand(a) < significand(b),
                unit > 0,
        ;
    } else if exponent(a) == 0 {
        assert(significand(a) * pow2(0) == significand(a)) by (nonlinear_arith)
            requires
                pow2(0) == 1,
        ;
        lemma_pow2_monotone(52, binade(b) + 52);
    } else {
        lemma_pow2_monotone(binade(a) + 53, binade(b) + 52);
    }
}

/// The order of the ordinals is the order of the values: of two finite
/// numbers the one with the lesser ordinal is the one with the lesser value,
/// and two finite numbers share their ordinal exactly when they share their
/// value.
pub proof fn lemma_ordinal_orders_values(a: u64, b: u64)
    requires
        is_finite(a),
        is_finite(b),
    ensures
        (ordinal(a) < ordinal(b)) == (scaled(a) < scaled(b)),
        (ordinal(a) == ordinal(b)) == (scaled(a) == scaled(b)),
        (ordinal(a) == ordinal(b)) == same_number(a, b),
{
    let ma = magnitude(a) as u64;
    let mb = magnitude(b) as u64;
    assert(scaled(ma) >= 0 && scaled(mb) >= 0);
    assert(scaled(a) == if is_negative(a) {
        -scaled(ma)
    } else {
        scaled(ma)
    });
    assert(scaled(b) == if is_negative(b) {
        -scaled(mb)
    } else {
        scaled(mb)
    });
    if ma < mb {
        lemma_magnitudes_order_values(ma, mb);
    } else if mb < ma {
        lemma_magnitudes_order_values(mb, ma);
    }
    if 0 < ma {
        lemma_magnitudes_order_values(0, ma);
    }
    if 0 < mb {
        lemma_magnitudes_order_values(0, mb);
    }
    assert(scaled(0) == 0) by {
        assert(significand(0) == 0);
        assert(0 * pow2(binade(0)) == 0) by (nonlinear_arith);
    }
}

/// `2^k`, for a `k` that leaves the result in range.
pub fn power_of_two(k: u64) -> (r: u128)
    requires
        k <= 127,
    ensures
        r == pow2(k as nat),
{
    let mut r: u128 = 1;
    let mut i: u64 = 0;
    proof {
        lemma2_to64();
    }
    while i < k
        invariant
            i <= k <= 127,
            r == pow2(i as nat),
        decreases k - i,
    {
        proof {
            lemma_pow2_double(i as nat);
            lemma_pow2_monotone((i + 1) as nat, 127);
            lemma_pow2_adds(64, 63);
            lemma2_to64();
            lemma2_to64_rest();
        }
        r = r * 2;
        i = i + 1;
    }
    r
}

/// The bits but for the sign.
pub fn magnitude_of(bits: u64) -> (m: u64)
    ensures
        m == magnitude(bits),
{
    if bits >= SIGN_BIT {
        bits - SIGN_BIT
    } else {
        bits
    }
}

/// Whether the bit pattern is that of a finite number.
pub fn is_finite_number(bits: u64) -> (r: bool)
    ensures
        r == is_finite(bits),
{
    magnitude_of(bits) < INFINITY_BITS
}

/// Whether two bit patterns stand for the same number.
pub fn equal_numbers(a: u64, b: u64) -> (r: bool)
    ensures
        r == same_number(a, b),
{
    let ma = magnitude_of(a);
    let mb = magnitude_of(b);
    ma <= INFINITY_BITS && mb <= INFINITY_BITS && (a == b || (ma == 0 && mb == 0))
}

/// Whether the number of `a` is less than that of `b`.
pub fn less_than(a: u64, b: u64) -> (r: bool)
    ensures
        r == (ordinal(a) < ordinal(b)),
{
    let ma = magnitude_of(a);
    let mb = magnitude_of(b);
    if a >= SIGN_BIT {
        if b >= SIGN_BIT {
            ma > mb
        } else {
            ma != 0 || mb != 0
        }
    } else {
        if b >= SIGN_BIT {
            false
        } else {
            ma < mb
        }
    }
}

/// Whether two numbers are near each other: both finite, and not further
/// apart than `2^-51`.
pub fn near_numbers(a: u64, b: u64) -> (r: bool)
    ensures
        r == near(a, b),
{
    if !is_finite_number(a) || !is_finite_number(b) {
        return false;
    }
    let ma = magnitude_of(a);
    let mb = magnitude_of(b);
    let ea = ma / HIDDEN_BIT;
    let eb = mb / HIDDEN_BIT;
    let sa = if ea == 0 {
        ma % HIDDEN_BIT
    } else {
        ma % HIDDEN_BIT + HIDDEN_BIT
    };
    let sb = if eb == 0 {
        mb % HIDDEN_BIT
    } else {
        mb % HIDDEN_BIT + HIDDEN_BIT
    };
    let ka = if ea == 0 {
        0
    } else {
        ea - 1
    };
    let kb = if eb == 0 {
        0
    } else {
        eb - 1
    };
    proof {
        lemma2_to64();
        lemma2_to64_rest();
        assert(sa == significand(a) && sb == significand(b));
        assert(ka == binade(a) && kb == binade(b));
    }
    if ka >= kb {
        proof {
            lemma_near_by_parts(
                a >= SIGN_BIT,
                sa as nat,
                ka as nat,
                b >= SIGN_BIT,
                sb as nat,
                kb as nat,
            );
        }
        near_parts(a >= SIGN_BIT, sa, ka, b >= SIGN_BIT, sb, kb)
    } else {
        proof {
            lemma_near_by_parts(
                b >= SIGN_BIT,
                sb as nat,
                kb as nat,
                a >= SIGN_BIT,
                sa as nat,
                ka as nat,
            );
        }
        near_parts(b >= SIGN_BIT, sb, kb, a >= SIGN_BIT, sa, ka)
    }
}

/// The decision of [`near_by_parts`], computed.
fn near_parts(
    hi_negative: bool,
    hi_m: u64,
    hi_k: u64,
    lo_negative: bool,
    lo_m: u64,
    lo_k: u64,
) -> (r: bool)
    requires
        lo_k <= hi_k,
        hi_m < 0x0020_0000_0000_0000,
        lo_m < 0x0020_0000_0000_0000,
    ensures
        r == near_by_parts(
            hi_negative,
            hi_m as nat,
            hi_k as nat,
            lo_negative,
            lo_m as nat,
            lo_k as nat,
        ),
{
    if hi_k < EPSILON_BINADE - 1 {
        true
    } else if hi_k - lo_k <= 64 {
        let shift = power_of_two(hi_k - lo_k);
        proof {
            lemma2_to64();
            lemma2_to64_rest();
            lemma_pow2_monotone((hi_k - lo_k) as nat, 64);
            assert(hi_m * shift < 0x0020_0000_0000_0000 * 0x1_0000_0000_0000_0000)
                by (nonlinear_arith)
                requires
                    hi_m < 0x0020_0000_0000_0000,
                    shift <= 0x1_0000_0000_0000_0000,
            ;
        }
        let aligned: u128 = (hi_m as u128) * shift;
        let low: u128 = lo_m as u128;
        let gap: u128 = if hi_negative == lo_negative {
            if aligned >= low {
                aligned - low
            } else {
                low - aligned
            }
        } else {
            aligned + low
        };
        if lo_k >= 1024 {
            gap == 0
        } else {
            gap <= power_of_two(1023 - lo_k)
        }
    } else if hi_k == EPSILON_BINADE - 1 {
        true
    } else if hi_k == EPSILON_BINADE && hi_m == HIDDEN_BIT {
        hi_negative == lo_negative || lo_m == 0
    } else {
        false
    }
}

} // verus!
