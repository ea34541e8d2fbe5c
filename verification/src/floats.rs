//! IEEE 754 numbers as bit patterns: conversion from integers and between the two widths.
//!
//! A finite number is `n * 2^e`, with a sign. In a format with `p` bits of precision whose
//! smallest positive number is `2^low`, the bit pattern of a positive number, read as an integer,
//! is `(u - low) * 2^(p - 1) + r`, where `2^u` is the unit of its last place and `r` the number of
//! such units. This holds of normal and of subnormal numbers, and a carry out of `r` moves to the
//! next unit by itself.

use vstd::arithmetic::power2::*;
use vstd::prelude::*;

verus! {

/// The precision of a 32-bit number, in bits.
pub const FLOAT_PRECISION: u32 = 24;

/// The exponent of the smallest positive 32-bit number.
pub const FLOAT_LOW: i32 = -149;

/// The precision of a 64-bit number, in bits.
pub const DOUBLE_PRECISION: u32 = 53;

/// The exponent of the smallest positive 64-bit number.
pub const DOUBLE_LOW: i32 = -1074;

/// The position of the highest bit of `n`, 0 for 0 and 1.
pub open spec fn top_bit(n: nat) -> nat
    decreases n,
{
    if n < 2 {
        0
    } else {
        1 + top_bit(n / 2)
    }
}

/// The exponent of the last place of `n * 2^e` in a format.
pub open spec fn unit_exponent(n: nat, e: int, precision: nat, low: int) -> int {
    let u = top_bit(n) + e - (precision - 1);
    if u < low {
        low
    } else {
        u
    }
}

/// `n / 2^s`, rounded to the nearest integer, a half to the even one.
pub open spec fn half_even(n: nat, s: nat) -> nat {
    let quotient = n / pow2(s);
    let rest = n % pow2(s);
    if 2 * rest > pow2(s) || (2 * rest == pow2(s) && quotient % 2 == 1) {
        quotient + 1
    } else {
        quotient
    }
}

/// `n * 2^e` as a number of units `2^u`, rounded.
pub open spec fn in_units(n: nat, e: int, u: int) -> nat {
    if e >= u {
        n * pow2((e - u) as nat)
    } else {
        half_even(n, (u - e) as nat)
    }
}

/// The bit pattern of `n * 2^e` in a format, rounded to the nearest number, ties to even.
pub open spec fn packed(n: nat, e: int, precision: nat, low: int) -> int {
    if n == 0 {
        0
    } else {
        let u = unit_exponent(n, e, precision, low);
        (u - low) * pow2((precision - 1) as nat) + in_units(n, e, u)
    }
}

proof fn lemma_top_bit(n: nat)
    requires
        n > 0,
    ensures
        pow2(top_bit(n)) <= n < pow2(top_bit(n) + 1),
    decreases n,
{
    lemma2_to64();
    if n >= 2 {
        lemma_top_bit(n / 2);
        lemma_pow2_unfold(top_bit(n));
        lemma_pow2_unfold(top_bit(n) + 1);
    }
}

/// `2^k`.
fn power_of_two(k: u32) -> (result: u128)
    requires
        k < 128,
    ensures
        result == pow2(k as nat),
        result > 0,
{
    let mut result: u128 = 1;
    let mut i: u32 = 0;
    proof {
        lemma2_to64();
    }
    while i < k
        invariant
            i <= k < 128,
            result == pow2(i as nat),
            result > 0,
        decreases k - i,
    {
        proof {
            lemma_pow2_unfold((i + 1) as nat);
            lemma_small_power((i + 1) as nat);
        }
        result = result * 2;
        i += 1;
    }
    result
}

/// Powers below the width of a 128-bit number fit into one.
proof fn lemma_small_power(k: nat)
    requires
        k < 128,
    ensures
        0 < pow2(k) <= u128::MAX,
{
    lemma_pow2_pos(k);
    lemma2_to64();
    lemma2_to64_rest();
    lemma_pow2_adds(64, 63);
    assert(pow2(127) <= u128::MAX);
    if k < 127 {
        lemma_pow2_strictly_increases(k, 127);
    }
}

/// The position of the highest bit of `n`.
fn highest_bit(n: u64) -> (k: u32)
    ensures
        k == top_bit(n as nat),
        k < 64,
    decreases n,
{
    if n < 2 {
        0
    } else {
        let below: u32 = highest_bit(n / 2);
        proof {
            lemma_top_bit(n as nat);
            lemma2_to64();
            lemma2_to64_rest();
            if top_bit(n as nat) >= 64 {
                if top_bit(n as nat) > 64 {
                    lemma_pow2_strictly_increases(64, top_bit(n as nat));
                }
                assert(false);
            }
        }
        below + 1
    }
}

/// `n / 2^s`, rounded to the nearest integer, a half to the even one.
fn divide_half_even(n: u64, s: u32) -> (result: u64)
    requires
        s > 0,
    ensures
        result == half_even(n as nat, s as nat),
{
    proof {
        lemma2_to64();
        lemma2_to64_rest();
    }
    if s > 65 {
        proof {
            lemma_pow2_strictly_increases(65, s as nat);
            lemma_pow2_unfold(65);
            vstd::arithmetic::div_mod::lemma_small_mod(n as nat, pow2(s as nat));
            vstd::arithmetic::div_mod::lemma_basic_div(n as int, pow2(s as nat) as int);
        }
        0
    } else {
        let divisor: u128 = power_of_two(s);
        let quotient: u64 = ((n as u128) / divisor) as u64;
        let rest: u64 = ((n as u128) % divisor) as u64;
        proof {
            assert((n as u128) / divisor <= n as u128) by (nonlinear_arith)
                requires
                    divisor > 0,
            ;
            assert((n as u128) % divisor <= n as u128) by (nonlinear_arith)
                requires
                    divisor > 0,
            ;
            lemma_pow2_unfold(s as nat);
            assert(divisor >= 2) by {
                lemma_pow2_pos((s - 1) as nat);
            }
            assert((n as u128) / divisor <= 0x7fff_ffff_ffff_ffff) by (nonlinear_arith)
                requires
                    divisor >= 2,
                    n <= 0xffff_ffff_ffff_ffff,
            ;
        }
        if 2 * (rest as u128) > divisor || (2 * (rest as u128) == divisor && quotient % 2 == 1) {
            quotient + 1
        } else {
            quotient
        }
    }
}

/// A shift to the left that stays within the precision.
proof fn lemma_exact_units(n: nat, k: nat, shift: nat, precision: nat)
    requires
        n > 0,
        k == top_bit(n),
        shift + k + 1 <= precision,
    ensures
        n * pow2(shift) < pow2(precision),
{
    lemma_top_bit(n);
    lemma_pow2_adds(k + 1, shift);
    lemma_pow2_pos(shift);
    assert(n * pow2(shift) < pow2(k + 1) * pow2(shift)) by (nonlinear_arith)
        requires
            n < pow2(k + 1),
            pow2(shift) > 0,
    ;
    if k + 1 + shift < precision {
        lemma_pow2_strictly_increases(k + 1 + shift, precision);
    }
}

/// A shift to the right leaves no more than the precision, but for a carry.
proof fn lemma_rounded_units(n: nat, k: nat, shift: nat, precision: nat)
    requires
        n > 0,
        k == top_bit(n),
        k + 1 <= precision + shift,
    ensures
        half_even(n, shift) <= pow2(precision),
{
    lemma_top_bit(n);
    lemma_pow2_adds(precision, shift);
    lemma_pow2_pos(shift);
    if k + 1 < precision + shift {
        lemma_pow2_strictly_increases(k + 1, precision + shift);
    }
    let d = pow2(shift);
    let p = pow2(precision);
    assert(n < p * d);
    assert(n / d < p) by (nonlinear_arith)
        requires
            n < p * d,
            d > 0,
    ;
}

/// The bit pattern of `n * 2^e` in a format, without its sign.
fn pack(n: u64, e: i32, precision: u32, low: i32) -> (bits: u128)
    requires
        1 < precision < 64,
        -2000 <= e <= 2000,
        -2000 <= low <= 0,
    ensures
        bits == packed(n as nat, e as int, precision as nat, low as int),
        n > 0 ==> bits <= (unit_exponent(n as nat, e as int, precision as nat, low as int) - low)
            * pow2((precision - 1) as nat) + pow2(precision as nat),
        top_bit(n as nat) < 64,
{
    let k: u32 = highest_bit(n);
    if n == 0 {
        return 0;
    }
    let mut u: i32 = (k as i32) + e - ((precision as i32) - 1);
    if u < low {
        u = low;
    }
    proof {
        lemma_small_power(precision as nat);
        lemma_pow2_strictly_increases(precision as nat, 64);
        lemma2_to64();
        lemma2_to64_rest();
    }
    let units: u64 = if e >= u {
        let factor: u128 = power_of_two((e - u) as u32);
        proof {
            lemma_exact_units(n as nat, k as nat, (e - u) as nat, precision as nat);
        }
        ((n as u128) * factor) as u64
    } else {
        proof {
            lemma_rounded_units(n as nat, k as nat, (u - e) as nat, precision as nat);
        }
        divide_half_even(n, (u - e) as u32)
    };
    let width: u128 = power_of_two(precision - 1);
    proof {
        lemma_pow2_strictly_increases((precision - 1) as nat, 64);
        assert((u - low) * width <= 5000 * 0x1_0000_0000_0000_0000) by (nonlinear_arith)
            requires
                0 <= u - low <= 5000,
                0 <= width <= 0x1_0000_0000_0000_0000,
        ;
        assert(0 <= (u - low) * width) by (nonlinear_arith)
            requires
                0 <= u - low,
                0 <= width,
        ;
    }
    ((u - low) as u128) * width + (units as u128)
}

proof fn lemma_product_bound(a: int, limit: int, width: nat)
    requires
        a <= limit,
    ensures
        a * width <= limit * width,
{
    assert(a * width <= limit * width) by (nonlinear_arith)
        requires
            a <= limit,
            width >= 0,
    ;
}

/// The mantissa and the exponent of a bit pattern without its sign, of a finite number.
pub open spec fn unpacked(bits: nat, precision: nat, low: int) -> (nat, int) {
    let width = pow2((precision - 1) as nat);
    if bits / width == 0 {
        (bits, low)
    } else {
        (bits % width + width, low + bits / width - 1)
    }
}

/// The bits of a 32-bit number without the sign.
pub open spec fn float_magnitude(bits: u32) -> nat {
    (bits % 0x8000_0000) as nat
}

/// The bits of a 64-bit number without the sign.
pub open spec fn double_magnitude(bits: u64) -> nat {
    (bits % 0x8000_0000_0000_0000) as nat
}

/// Whether a 32-bit pattern is a finite number.
pub open spec fn float_finite(bits: u32) -> bool {
    float_magnitude(bits) < 0x7f80_0000
}

/// Whether a 64-bit pattern is a finite number.
pub open spec fn double_finite(bits: u64) -> bool {
    double_magnitude(bits) < 0x7ff0_0000_0000_0000
}

/// The 32-bit number nearest to an integer.
pub open spec fn int_as_float(n: int) -> int {
    if n < 0 {
        0x8000_0000 + packed((-n) as nat, 0, 24, -149)
    } else {
        packed(n as nat, 0, 24, -149)
    }
}

/// The 64-bit number nearest to an integer.
pub open spec fn int_as_double(n: int) -> int {
    if n < 0 {
        0x8000_0000_0000_0000 + packed((-n) as nat, 0, 53, -1074)
    } else {
        packed(n as nat, 0, 53, -1074)
    }
}

/// The 64-bit number with the value of a 32-bit number. An infinity stays one; a NaN stays a quiet
/// NaN with its sign and its payload.
pub open spec fn float_as_double(bits: u32) -> int {
    let magnitude = float_magnitude(bits);
    let sign = if bits >= 0x8000_0000 {
        0x8000_0000_0000_0000int
    } else {
        0int
    };
    if magnitude < 0x7f80_0000 {
        let (n, e) = unpacked(magnitude, 24, -149);
        sign + packed(n, e, 53, -1074)
    } else if magnitude == 0x7f80_0000 {
        sign + 0x7ff0_0000_0000_0000
    } else {
        sign + 0x7ff8_0000_0000_0000 + (magnitude % 0x40_0000) * 0x2000_0000
    }
}

/// Whether a 64-bit number lies within the finite range of 32-bit numbers.
pub open spec fn within_float(bits: u64) -> bool {
    double_magnitude(bits) <= 0x47ef_ffff_e000_0000
}

/// The 32-bit number nearest to a 64-bit number within its range.
pub open spec fn double_as_float(bits: u64) -> int {
    let (n, e) = unpacked(double_magnitude(bits), 53, -1074);
    (if bits >= 0x8000_0000_0000_0000 {
        0x8000_0000int
    } else {
        0int
    }) + packed(n, e, 24, -149)
}

/// The 32-bit number nearest to an integer.
pub fn float_of_int(n: i64) -> (bits: u32)
    ensures
        bits == int_as_float(n as int),
{
    let magnitude: u64 = (if n < 0 {
        -(n as i128)
    } else {
        n as i128
    }) as u64;
    let packed_bits: u128 = pack(magnitude, 0, FLOAT_PRECISION, FLOAT_LOW);
    proof {
        lemma2_to64();
        let u = unit_exponent(magnitude as nat, 0, 24, -149);
        lemma_product_bound(u + 149, 212, pow2(23));
    }
    let sign: u32 = if n < 0 {
        0x8000_0000
    } else {
        0
    };
    sign + (packed_bits as u32)
}

/// The 64-bit number nearest to an integer.
pub fn double_of_int(n: i64) -> (bits: u64)
    ensures
        bits == int_as_double(n as int),
{
    let magnitude: u64 = (if n < 0 {
        -(n as i128)
    } else {
        n as i128
    }) as u64;
    let packed_bits: u128 = pack(magnitude, 0, DOUBLE_PRECISION, DOUBLE_LOW);
    proof {
        lemma2_to64_rest();
        let u = unit_exponent(magnitude as nat, 0, 53, -1074);
        lemma_product_bound(u + 1074, 1137, pow2(52));
    }
    let sign: u64 = if n < 0 {
        0x8000_0000_0000_0000
    } else {
        0
    };
    sign + (packed_bits as u64)
}

/// The 64-bit number with the value of a 32-bit number.
pub fn double_of_float(bits: u32) -> (result: u64)
    ensures
        result == float_as_double(bits),
{
    let magnitude: u32 = bits % 0x8000_0000;
    let sign: u64 = if bits >= 0x8000_0000 {
        0x8000_0000_0000_0000
    } else {
        0
    };
    if magnitude < 0x7f80_0000 {
        proof {
            lemma2_to64();
            lemma2_to64_rest();
        }
        let biased: u32 = magnitude / 0x80_0000;
        let n: u32 = if biased == 0 {
            magnitude
        } else {
            magnitude % 0x80_0000 + 0x80_0000
        };
        let e: i32 = if biased == 0 {
            FLOAT_LOW
        } else {
            FLOAT_LOW + (biased as i32) - 1
        };
        let packed_bits: u128 = pack(n as u64, e, DOUBLE_PRECISION, DOUBLE_LOW);
        proof {
            let u = unit_exponent(n as nat, e as int, 53, -1074);
            lemma_product_bound(u + 1074, 1242, pow2(52));
        }
        sign + (packed_bits as u64)
    } else if magnitude == 0x7f80_0000 {
        sign + 0x7ff0_0000_0000_0000
    } else {
        sign + 0x7ff8_0000_0000_0000 + ((magnitude % 0x40_0000) as u64) * 0x2000_0000
    }
}

/// The 32-bit number nearest to a 64-bit number within its range.
pub fn float_of_double(bits: u64) -> (result: u32)
    requires
        within_float(bits),
    ensures
        result == double_as_float(bits),
{
    let magnitude: u64 = bits % 0x8000_0000_0000_0000;
    proof {
        lemma2_to64();
        lemma2_to64_rest();
    }
    let biased: u64 = magnitude / 0x10_0000_0000_0000;
    let n: u64 = if biased == 0 {
        magnitude
    } else {
        magnitude % 0x10_0000_0000_0000 + 0x10_0000_0000_0000
    };
    let e: i32 = if biased == 0 {
        DOUBLE_LOW
    } else {
        DOUBLE_LOW + (biased as i32) - 1
    };
    let packed_bits: u128 = pack(n, e, FLOAT_PRECISION, FLOAT_LOW);
    proof {
        if n > 0 {
            lemma_top_bit(n as nat);
            if top_bit(n as nat) > 52 {
                if top_bit(n as nat) > 53 {
                    lemma_pow2_strictly_increases(53, top_bit(n as nat));
                }
                assert(false);
            }
        }
        let u = unit_exponent(n as nat, e as int, 24, -149);
        lemma_product_bound(u + 149, 253, pow2(23));
    }
    let sign: u32 = if bits >= 0x8000_0000_0000_0000 {
        0x8000_0000
    } else {
        0
    };
    sign + (packed_bits as u32)
}

proof fn lemma_top_bit_is(n: nat, k: nat)
    requires
        pow2(k) <= n < pow2(k + 1),
    ensures
        top_bit(n) == k,
{
    lemma_pow2_pos(k);
    lemma_top_bit(n);
    let t = top_bit(n);
    if t < k {
        if t + 1 < k {
            lemma_pow2_strictly_increases(t + 1, k);
        }
    }
    if t > k {
        if k + 1 < t {
            lemma_pow2_strictly_increases(k + 1, t);
        }
    }
}

proof fn lemma_half_even_exact(n: nat, s: nat)
    ensures
        half_even(n * pow2(s), s) == n,
{
    lemma_pow2_pos(s);
    vstd::arithmetic::div_mod::lemma_div_by_multiple(n as int, pow2(s) as int);
    vstd::arithmetic::div_mod::lemma_mod_multiples_basic(n as int, pow2(s) as int);
}

/// A number with at most 24 bits, as a 64-bit pattern: it is normal, and unpacks to itself with all
/// 53 bits in use.
proof fn lemma_widened(n: nat, e: int) -> (r: nat)
    requires
        0 < n < pow2(24),
        -149 <= e <= 104,
    ensures
        ({
            let k = top_bit(n);
            let bits = packed(n, e, 53, -1074);
            &&& k <= 23
            &&& r == n * pow2((52 - k) as nat)
            &&& pow2(52) <= r < pow2(53)
            &&& bits == (k + e - 52 + 1074) * pow2(52) + r
            &&& 0 <= bits
            &&& unpacked(bits as nat, 53, -1074) == (r, k + e - 52)
        }),
{
    lemma2_to64();
    lemma2_to64_rest();
    lemma_top_bit(n);
    let k = top_bit(n);
    if k > 23 {
        if k > 24 {
            lemma_pow2_strictly_increases(24, k);
        }
        assert(false);
    }
    let shift = (52 - k) as nat;
    let r = n * pow2(shift);
    let u = k + e - 52;
    lemma_pow2_adds(k, shift);
    lemma_pow2_adds(k + 1, shift);
    lemma_pow2_pos(shift);
    assert(pow2(k) * pow2(shift) <= n * pow2(shift) < pow2(k + 1) * pow2(shift)) by (nonlinear_arith)
        requires
            pow2(k) <= n < pow2(k + 1),
            pow2(shift) > 0,
    ;
    let width = 0x10_0000_0000_0000int;
    let bits = (u + 1074) * width + r;
    assert(unit_exponent(n, e, 53, -1074) == u);
    assert(packed(n, e, 53, -1074) == bits);
    assert(bits == (u + 1075) * width + (r - width));
    assert(bits / width == u + 1075 && bits % width == r - width) by {
        vstd::arithmetic::div_mod::lemma_fundamental_div_mod_converse(
            bits,
            width,
            u + 1075,
            r - width,
        );
    }
    r
}

/// A finite 32-bit number as a 64-bit one lies within the range of 32-bit numbers, and narrowing it
/// gives the number back, its sign with it.
pub proof fn law_narrowing_undoes_widening(bits: u32)
    requires
        float_finite(bits),
    ensures
        0 <= float_as_double(bits) <= u64::MAX,
        within_float(float_as_double(bits) as u64),
        double_as_float(float_as_double(bits) as u64) == bits,
{
    lemma2_to64();
    lemma2_to64_rest();
    let magnitude = float_magnitude(bits);
    let (n, e) = unpacked(magnitude, 24, -149);
    let wide = packed(n, e, 53, -1074);
    if n > 0 {
        let r = lemma_widened(n, e);
        let k = top_bit(n);
        let u = k + e - 52;
        lemma_top_bit_is(r, 52);
        lemma_top_bit(n);
        if magnitude >= 0x80_0000 {
            lemma_top_bit_is(n, 23);
            lemma_half_even_exact(n, 29);
            assert(unit_exponent(r, u, 24, -149) == e);
            assert(in_units(r, u, e) == n);
            assert(r <= 0xff_ffff * 0x2000_0000);
        } else {
            if k >= 23 {
                if k > 23 {
                    lemma_pow2_strictly_increases(23, k);
                }
                assert(false);
            }
            lemma_half_even_exact(n, (52 - k) as nat);
            assert(unit_exponent(r, u, 24, -149) == -149);
            assert(in_units(r, u, -149) == n);
        }
        assert(packed(r, u, 24, -149) == magnitude);
        assert(wide <= 0x47ef_ffff_e000_0000);
    } else {
        assert(unpacked(0, 53, -1074).0 == 0);
    }
    let double = float_as_double(bits) as u64;
    assert(double_magnitude(double) == wide);
}

/// Rounding goes to the nearest integer, and from the middle between two to the even one.
pub proof fn law_rounding_is_to_nearest(n: nat, s: nat)
    ensures
        ({
            let gap = half_even(n, s) * pow2(s) - n;
            &&& -(pow2(s) as int) <= 2 * gap <= pow2(s)
            &&& 2 * gap == pow2(s) || 2 * gap == -(pow2(s) as int) ==> half_even(n, s) % 2 == 0
        }),
{
    lemma_pow2_pos(s);
    let unit = pow2(s) as int;
    let quotient = n as int / unit;
    vstd::arithmetic::div_mod::lemma_fundamental_div_mod(n as int, unit);
    vstd::arithmetic::mul::lemma_mul_is_commutative(unit, quotient);
    vstd::arithmetic::mul::lemma_mul_is_distributive_add_other_way(unit, quotient, 1);
}

/// A bit pattern that was packed from a unit and a number of such units unpacks to them. Where the
/// units fill the next place, the unit is twice as large.
proof fn lemma_unpacked(u: int, r: nat, precision: nat, low: int)
    requires
        precision > 0,
        low <= u,
        pow2((precision - 1) as nat) <= r <= pow2(precision),
    ensures
        ({
            let width = pow2((precision - 1) as nat);
            let bits = (u - low) * width + r;
            &&& bits >= 0
            &&& unpacked(bits as nat, precision, low) == (if r < pow2(precision) {
                (r, u)
            } else {
                (width, u + 1)
            })
        }),
{
    let width = pow2((precision - 1) as nat) as int;
    lemma_pow2_pos((precision - 1) as nat);
    lemma_pow2_unfold(precision);
    let bits = (u - low) * width + r;
    let (quotient, rest) = if r < 2 * width {
        (u - low + 1, r - width)
    } else {
        (u - low + 2, 0int)
    };
    assert(bits == quotient * width + rest) by (nonlinear_arith)
        requires
            bits == (u - low) * width + r,
            (quotient == u - low + 1 && rest == r - width) || (quotient == u - low + 2 && rest == 0
                && r == 2 * width),
    ;
    assert((u - low) * width >= 0) by (nonlinear_arith)
        requires
            u >= low,
            width > 0,
    ;
    vstd::arithmetic::div_mod::lemma_fundamental_div_mod_converse(bits, width, quotient, rest);
}

/// The units of a number that has as many bits as a format is precise, or more.
proof fn lemma_units_of_an_integer(n: nat, u: nat, precision: nat)
    requires
        precision > 0,
        n > 0,
        top_bit(n) == u + precision - 1,
    ensures
        pow2((precision - 1) as nat) <= half_even(n, u) <= pow2(precision),
{
    lemma_top_bit(n);
    lemma_pow2_pos(u);
    lemma_pow2_adds((precision - 1) as nat, u);
    lemma_pow2_adds(precision, u);
    let unit = pow2(u) as int;
    let least = pow2((precision - 1) as nat) as int;
    let most = pow2(precision) as int;
    let quotient = n as int / unit;
    vstd::arithmetic::div_mod::lemma_fundamental_div_mod(n as int, unit);
    assert(least <= quotient < most) by (nonlinear_arith)
        requires
            least * unit <= n < most * unit,
            n == unit * quotient + n as int % unit,
            0 <= n as int % unit < unit,
            unit > 0,
    ;
}

/// Whether `m * 2^d` is `n * 2^e`, or, where its unit is the larger one, no further from it than
/// half of that unit.
pub open spec fn nearest_to(m: nat, d: int, n: nat, e: int) -> bool {
    if d <= e {
        m == n * pow2((e - d) as nat)
    } else {
        let unit = pow2((d - e) as nat);
        -(unit as int) <= 2 * (m * unit - n) <= unit
    }
}

/// What a number unpacks to after it was packed: the number itself where the format is precise
/// enough for it, and else a number no further away than half of its unit.
#[verifier::spinoff_prover]
proof fn lemma_numbers_in_a_format(n: nat, e: int, precision: nat, low: int)
    requires
        precision > 0,
        n > 0,
    ensures
        ({
            let bits = packed(n, e, precision, low);
            let (m, d) = unpacked(bits as nat, precision, low);
            let width = pow2((precision - 1) as nat);
            &&& bits >= 0
            &&& nearest_to(m, d, n, e)
            &&& low <= e && n < pow2(precision) ==> d <= e
            &&& bits <= (unit_exponent(n, e, precision, low) + 1 - low) * width + width
        }),
{
    lemma_top_bit(n);
    let k = top_bit(n);
    let v = k + e - (precision - 1);
    let u = unit_exponent(n, e, precision, low);
    let width = pow2((precision - 1) as nat);
    lemma_pow2_pos((precision - 1) as nat);
    lemma_pow2_unfold(precision);
    let r = in_units(n, e, u);
    if n < pow2(precision) && k >= precision {
        if k > precision {
            lemma_pow2_strictly_increases(precision, k);
        }
        assert(false);
    }
    if e >= u {
        let shift = (e - u) as nat;
        lemma_pow2_adds(k, shift);
        lemma_pow2_adds(k + 1, shift);
        lemma_pow2_pos(shift);
        assert(pow2(k) * pow2(shift) <= n * pow2(shift) < pow2(k + 1) * pow2(shift))
            by (nonlinear_arith)
            requires
                pow2(k) <= n < pow2(k + 1),
                pow2(shift) > 0,
        ;
        if v < low && k + 1 + shift < precision - 1 {
            lemma_pow2_strictly_increases(k + 1 + shift, (precision - 1) as nat);
        }
    } else {
        let shift = (u - e) as nat;
        if v < low {
            lemma_rounded_units(n, k, shift, (precision - 1) as nat);
        } else {
            lemma_units_of_an_integer(n, shift, precision);
        }
        law_rounding_is_to_nearest(n, shift);
        lemma_pow2_unfold(shift + 1);
        if r == pow2(precision) {
            assert(width * pow2(shift + 1) == r * pow2(shift)) by (nonlinear_arith)
                requires
                    r == 2 * width,
                    pow2(shift + 1) == 2 * pow2(shift),
            ;
        }
    }
    if r >= width {
        lemma_unpacked(u, r, precision, low);
    } else {
        assert(u == low);
        assert((u - low) * width == 0) by (nonlinear_arith)
            requires
                u == low,
        ;
        vstd::arithmetic::div_mod::lemma_basic_div(r as int, width as int);
    }
    assert((u - low) * width + r <= (u + 1 - low) * width + width) by (nonlinear_arith)
        requires
            r <= 2 * width,
    ;
}

/// An integer becomes a 64-bit number with its sign and its value. Only where it has more than 53
/// bits is it rounded.
#[verifier::spinoff_prover]
pub proof fn law_integers_as_doubles(n: int)
    requires
        i64::MIN <= n <= i64::MAX,
    ensures
        0 <= int_as_double(n) <= u64::MAX,
        int_as_double(n) >= 0x8000_0000_0000_0000 <==> n < 0,
        ({
            let size = (if n < 0 {
                -n
            } else {
                n
            }) as nat;
            let (m, e) = unpacked(double_magnitude(int_as_double(n) as u64), 53, -1074);
            &&& nearest_to(m, e, size, 0)
            &&& size < 0x20_0000_0000_0000 ==> e <= 0
        }),
{
    lemma2_to64();
    lemma2_to64_rest();
    let size = (if n < 0 {
        -n
    } else {
        n
    }) as nat;
    if size > 0 {
        lemma_numbers_in_a_format(size, 0, 53, -1074);
        lemma_top_bit(size);
        if top_bit(size) > 63 {
            lemma_pow2_strictly_increases(63, top_bit(size));
            assert(false);
        }
        let bits = packed(size, 0, 53, -1074);
        let width = 0x10_0000_0000_0000int;
        assert(pow2((53 - 1) as nat) == width);
        assert((top_bit(size) + 2 - 53 + 1074) * width <= 1086 * width) by (nonlinear_arith)
            requires
                top_bit(size) <= 63,
                width > 0,
        ;
        assert(bits < 0x8000_0000_0000_0000);
        assert(double_magnitude(int_as_double(n) as u64) == bits);
        let (m, e) = unpacked(bits as nat, 53, -1074);
        assert(pow2(53) == 0x20_0000_0000_0000);
        assert(nearest_to(m, e, size, 0));
        assert(size < 0x20_0000_0000_0000 ==> e <= 0);
    } else {
        assert(double_magnitude(int_as_double(n) as u64) == 0);
        assert(pow2((53 - 1) as nat) > 0);
        assert(unpacked(0, 53, -1074) == (0nat, -1074int));
        assert(0 * pow2(1074) == 0);
        assert(nearest_to(0, -1074, 0, 0));
    }
}

/// An integer becomes a 32-bit number with its sign and its value. Only where it has more than 24
/// bits is it rounded.
#[verifier::spinoff_prover]
pub proof fn law_integers_as_floats(n: int)
    requires
        i64::MIN <= n <= i64::MAX,
    ensures
        0 <= int_as_float(n) <= u32::MAX,
        int_as_float(n) >= 0x8000_0000 <==> n < 0,
        ({
            let size = (if n < 0 {
                -n
            } else {
                n
            }) as nat;
            let (m, e) = unpacked(float_magnitude(int_as_float(n) as u32), 24, -149);
            &&& nearest_to(m, e, size, 0)
            &&& size < 0x100_0000 ==> e <= 0
        }),
{
    lemma2_to64();
    lemma2_to64_rest();
    let size = (if n < 0 {
        -n
    } else {
        n
    }) as nat;
    if size > 0 {
        lemma_numbers_in_a_format(size, 0, 24, -149);
        lemma_top_bit(size);
        if top_bit(size) > 63 {
            lemma_pow2_strictly_increases(63, top_bit(size));
            assert(false);
        }
        let bits = packed(size, 0, 24, -149);
        let width = 0x80_0000int;
        assert(pow2((24 - 1) as nat) == width);
        assert((top_bit(size) + 2 - 24 + 149) * width <= 190 * width) by (nonlinear_arith)
            requires
                top_bit(size) <= 63,
                width > 0,
        ;
        assert(bits < 0x8000_0000);
        assert(float_magnitude(int_as_float(n) as u32) == bits);
        let (m, e) = unpacked(bits as nat, 24, -149);
        assert(pow2(24) == 0x100_0000);
        assert(nearest_to(m, e, size, 0));
        assert(size < 0x100_0000 ==> e <= 0);
    } else {
        assert(float_magnitude(int_as_float(n) as u32) == 0);
        assert(pow2((24 - 1) as nat) > 0);
        assert(unpacked(0, 24, -149) == (0nat, -149int));
        assert(0 * pow2(149) == 0);
        assert(nearest_to(0, -149, 0, 0));
    }
}

/// A finite 32-bit number becomes a 64-bit number with its sign and its value.
#[verifier::spinoff_prover]
pub proof fn law_widening_keeps_the_value(bits: u32)
    requires
        float_finite(bits),
    ensures
        0 <= float_as_double(bits) <= u64::MAX,
        float_as_double(bits) >= 0x8000_0000_0000_0000 <==> bits >= 0x8000_0000,
        ({
            let (n, e) = unpacked(float_magnitude(bits), 24, -149);
            let (m, d) = unpacked(double_magnitude(float_as_double(bits) as u64), 53, -1074);
            d <= e && m == n * pow2((e - d) as nat)
        }),
{
    lemma2_to64();
    lemma2_to64_rest();
    law_narrowing_undoes_widening(bits);
    let (n, e) = unpacked(float_magnitude(bits), 24, -149);
    let wide = packed(n, e, 53, -1074);
    if n > 0 {
        let r = lemma_widened(n, e);
        let k = top_bit(n);
        assert(wide == (k + e - 52 + 1074) * 0x10_0000_0000_0000 + r);
    } else {
        assert(unpacked(0, 53, -1074).0 == 0);
    }
    assert(double_magnitude(float_as_double(bits) as u64) == wide);
}

/// A 64-bit number within the range of 32-bit numbers becomes one with its sign, and the same value
/// or the one nearest to it.
#[verifier::spinoff_prover]
pub proof fn law_narrowing_rounds(bits: u64)
    requires
        within_float(bits),
    ensures
        0 <= double_as_float(bits) <= u32::MAX,
        double_as_float(bits) >= 0x8000_0000 <==> bits >= 0x8000_0000_0000_0000,
        ({
            let (n, e) = unpacked(double_magnitude(bits), 53, -1074);
            let (m, d) = unpacked(float_magnitude(double_as_float(bits) as u32), 24, -149);
            nearest_to(m, d, n, e) || (n == 0 && m == 0)
        }),
{
    lemma2_to64();
    lemma2_to64_rest();
    let magnitude = double_magnitude(bits);
    let (n, e) = unpacked(magnitude, 53, -1074);
    let narrow = packed(n, e, 24, -149);
    if n > 0 {
        lemma_numbers_in_a_format(n, e, 24, -149);
        lemma_top_bit(n);
        if top_bit(n) > 52 {
            if top_bit(n) > 53 {
                lemma_pow2_strictly_increases(53, top_bit(n));
            }
            assert(false);
        }
        let u = unit_exponent(n, e, 24, -149);
        let width = 0x80_0000int;
        assert(pow2((24 - 1) as nat) == width);
        assert(e <= 75);
        assert((u + 1 + 149) * width <= 254 * width) by (nonlinear_arith)
            requires
                u <= 104,
                width > 0,
        ;
        assert(narrow < 0x8000_0000);
    } else {
        assert(unpacked(0, 24, -149).0 == 0);
    }
    assert(float_magnitude(double_as_float(bits) as u32) == narrow);
}

/// The finite numbers are those whose exponent is not all ones. The 64-bit numbers within the range
/// of 32-bit numbers are those no larger than the largest finite one of them.
#[verifier::spinoff_prover]
pub proof fn law_finite_numbers(bits: u64, half: u32)
    ensures
        float_finite(half) <==> half / 0x80_0000 % 0x100 != 0xff,
        double_finite(bits) <==> bits / 0x10_0000_0000_0000 % 0x800 != 0x7ff,
        float_finite(0x7f7f_ffff) && !float_finite(0x7f80_0000),
        within_float(bits) <==> double_magnitude(bits) <= float_as_double(0x7f7f_ffff),
{
    lemma2_to64();
    lemma2_to64_rest();
    let n: nat = 0xff_ffff;
    lemma_top_bit_is(n, 23);
    let r = lemma_widened(n, 104);
    assert(pow2((24 - 1) as nat) == 0x80_0000);
    assert(float_magnitude(0x7f7f_ffff) == 0x7f7f_ffff);
    assert(unpacked(float_magnitude(0x7f7f_ffff), 24, -149) == (n, 104int));
}

} // verus!
