//! Conversions between 16-bit integer samples and binary32 samples.
//!
//! The quantities are whole numbers of units: a binary32 value counts units of
//! `2^-149`, and its product with 32767.5 counts half units, `2^-150`.

use vstd::prelude::*;
use vstd::arithmetic::div_mod::{lemma_basic_div, lemma_div_by_multiple, lemma_div_is_ordered};
use vstd::arithmetic::mul::{
    lemma_mul_inequality, lemma_mul_is_associative, lemma_mul_strict_inequality,
};
use vstd::arithmetic::power2::{lemma2_to64, lemma_pow2_adds, lemma_pow2_pos, pow2};
use crate::float32::{Float32, lemma_bit_length_of_significand};
use crate::format::SampleFormat;
use crate::rounding::{
    bit_length, count_bits, divide_round_half_even, divide_round_half_up, lemma_bit_length_below,
    lemma_bit_length_bounds, lemma_bit_length_shift, lemma_bit_length_unique, lemma_div_of_negated,
    lemma_div_pow2_cancel, lemma_pow2_monotone, lemma_round_binary32_monotone,
    lemma_round_binary32_of_multiple, lemma_round_binary32_on_grid, lemma_round_binary32_shift,
    lemma_round_half_even_multiple, lemma_round_half_even_near, lemma_round_half_even_scale,
    lemma_round_half_up_monotone, lemma_round_half_up_multiple, lemma_round_half_up_scale,
    power_of_two, round_binary32, round_binary32_quotient, round_half_even, round_half_up,
    spacing_exponent,
};
use crate::sample::{FromSample, Sample, unsigned_to_signed};

verus! {

/// The signed sample as a binary32 number.
///
/// A sample that is not negative is multiplied by the binary32 number nearest
/// to 1/32767, which is `32769 / 2^30`, and the product is rounded to
/// binary32. A negative sample is multiplied by `1/32768`, which is
/// `32768 / 2^30`; that product needs no rounding.
pub open spec fn signed_to_float(v: i16) -> Float32 {
    let numerator: nat = if v >= 0 {
        (v * 32769) as nat
    } else {
        (-v * 32768) as nat
    };
    Float32::with_magnitude(v < 0, round_binary32(numerator * pow2(119), 0))
}

/// The multiplier for samples that are not negative, `32769 / 2^30`, is the
/// binary32 number nearest to 1/32767.
pub proof fn lemma_positive_multiplier()
    ensures
        round_binary32_quotient(pow2(149), 32767, 0) == 32769 * pow2(119),
{
    lemma2_to64();
    lemma_pow2_adds(134, 15);
    lemma_pow2_adds(135, 14);
    lemma_pow2_adds(111, 32);
    lemma_pow2_adds(32, 6);
    lemma_pow2_adds(111, 38);
    lemma_pow2_adds(111, 8);
    lemma_pow2_pos(134);
    lemma_pow2_pos(111);
    let whole = pow2(149) / 32767;
    lemma_div_is_ordered((pow2(134) * 32767) as int, pow2(149) as int, 32767);
    lemma_div_by_multiple(pow2(134) as int, 32767);
    vstd::arithmetic::div_mod::lemma_multiply_divide_lt(pow2(149) as int, 32767, pow2(135) as int);
    lemma_bit_length_unique(whole, 135);
    assert(spacing_exponent(whole, 0) == 111);
    let g = pow2(111);
    lemma_round_half_even_scale(pow2(38), 32767, g);
    assert(pow2(149) == pow2(38) * g) by (nonlinear_arith)
        requires
            pow2(149) == g * pow2(38),
    ;
    assert(pow2(38) == 0x40_0000_0000);
    vstd::arithmetic::div_mod::lemma_fundamental_div_mod_converse(
        0x40_0000_0000,
        32767,
        0x80_0100,
        256,
    );
    assert(round_half_even(pow2(38), 32767) == 0x80_0100);
    assert(0x80_0100 * g == 32769 * pow2(119)) by (nonlinear_arith)
        requires
            pow2(119) == g * 256,
    ;
}

/// The unsigned sample as a binary32 number: that of the signed sample with
/// the same amplitude.
pub open spec fn unsigned_to_float(v: u16) -> Float32 {
    signed_to_float(unsigned_to_signed(v))
}

/// Bit pattern of a number given by a significand, which may have reached
/// `2^24` by rounding, and the exponent of its last digit.
pub proof fn lemma_with_magnitude_of_scaled(negative: bool, r: nat, j: nat)
    requires
        0x80_0000 <= r <= 0x100_0000,
        j <= 253,
    ensures
        Float32::with_magnitude(negative, r * pow2(j)).bits == (if negative {
            0x8000_0000nat
        } else {
            0nat
        }) + j * 0x80_0000 + r,
{
    lemma2_to64();
    lemma_pow2_pos(j);
    lemma_bit_length_shift(r, j);
    if r < 0x100_0000 {
        lemma_bit_length_of_significand(r);
        assert(spacing_exponent(r * pow2(j), 0) == j);
        lemma_div_by_multiple(r as int, pow2(j) as int);
    } else {
        lemma_bit_length_unique(r, 25);
        assert(spacing_exponent(r * pow2(j), 0) == j + 1);
        lemma_div_pow2_cancel(r, j, j + 1);
        assert(r / pow2(1) == 0x80_0000);
    }
}

/// Silence becomes 0.0, and the two ends of the signed range become exactly
/// 1.0 and -1.0.
pub proof fn lemma_signed_to_float_at_the_ends()
    ensures
        signed_to_float(0) == (Float32 { bits: 0 }),
        signed_to_float(32767) == (Float32 { bits: 0x3f80_0000 }),
        signed_to_float(-32768i16) == (Float32 { bits: 0xbf80_0000 }),
{
    lemma2_to64();
    assert(signed_to_float(0) == (Float32 { bits: 0 })) by {
        assert(bit_length(0) == 0);
        lemma_round_binary32_of_multiple(0, 119, 0);
        assert(0nat / pow2(0) == 0);
    }
    assert(signed_to_float(32767) == (Float32 { bits: 0x3f80_0000 })) by {
        // 32767 * 32769 is 2^30 - 1, which rounds up to 2^30.
        let n: nat = 0x3fff_ffff;
        lemma_bit_length_unique(n, 30);
        lemma_round_binary32_shift(n, 119, 0);
        vstd::arithmetic::div_mod::lemma_fundamental_div_mod_converse(
            n as int,
            64,
            0xff_ffff,
            63,
        );
        assert(round_half_even(n, pow2(6)) == 0x100_0000);
        lemma_with_magnitude_of_scaled(false, 0x100_0000, 125);
    }
    assert(signed_to_float(-32768i16) == (Float32 { bits: 0xbf80_0000 })) by {
        // 32768 * 32768 is 2^30, which is 2^23 * 2^7.
        lemma_pow2_adds(7, 119);
        vstd::arithmetic::mul::lemma_mul_is_associative(0x80_0000, 128, pow2(119) as int);
        assert(0x4000_0000nat * pow2(119) == 0x80_0000nat * pow2(126));
        lemma_bit_length_unique(0x80_0000, 24);
        lemma_round_binary32_of_multiple(0x80_0000, 126, 0);
        lemma_with_magnitude_of_scaled(true, 0x80_0000, 126);
    }
}

/// The binary32 number nearest to `numerator / 2^30`, ties to even, with the
/// given sign.
pub fn nearest_to_fraction(negative: bool, numerator: u32) -> (r: Float32)
    ensures
        r == Float32::with_magnitude(negative, round_binary32(numerator as nat * pow2(119), 0)),
{
    let sign: u32 = if negative {
        0x8000_0000
    } else {
        0
    };
    let n: u64 = numerator as u64;
    proof {
        lemma2_to64();
        lemma_round_binary32_of_multiple(0, 119, 0);
    }
    if n == 0 {
        proof {
            assert(bit_length(0) == 0);
            assert(0nat / pow2(0) == 0);
        }
        return Float32 { bits: sign };
    }
    let l: u32 = count_bits(n);
    proof {
        lemma_bit_length_bounds(n as nat);
        lemma_bit_length_below(n as nat, 32);
    }
    let ghost j: nat = (l + 95) as nat;
    let significand: u64 = if l <= 24 {
        let p: u64 = power_of_two(24 - l);
        proof {
            lemma_pow2_adds((l - 1) as nat, (24 - l) as nat);
            lemma_pow2_adds(l as nat, (24 - l) as nat);
            lemma_mul_inequality(pow2((l - 1) as nat) as int, n as int, p as int);
            lemma_mul_strict_inequality(n as int, pow2(l as nat) as int, p as int);
            lemma_pow2_adds((24 - l) as nat, j);
            lemma_mul_is_associative(n as int, p as int, pow2(j) as int);
            lemma_round_binary32_of_multiple(n as nat, 119, 0);
        }
        n * p
    } else {
        let k: u32 = l - 24;
        proof {
            lemma_pow2_adds(23, k as nat);
            lemma_pow2_adds(24, k as nat);
            lemma_pow2_pos(k as nat);
            lemma_round_half_even_multiple(n as nat, pow2(k as nat), pow2(23));
            lemma_round_half_even_multiple(n as nat, pow2(k as nat), pow2(24));
            lemma_round_binary32_shift(n as nat, 119, 0);
        }
        divide_round_half_even(n, k)
    };
    proof {
        assert(round_binary32(n as nat * pow2(119), 0) == significand as nat * pow2(j));
        lemma_with_magnitude_of_scaled(negative, significand as nat, j);
    }
    Float32 { bits: sign + (l + 95) * 0x80_0000 + significand as u32 }
}

/// The 16-bit signed integer nearest to `v` within the type's range.
pub open spec fn saturate_i16(v: int) -> i16 {
    if v < -32768 {
        -32768i16
    } else if v > 32767 {
        32767i16
    } else {
        v as i16
    }
}

/// The binary32 number nearest to `v` units, ties to even, where the smallest
/// positive binary32 number is `2^floor` units. The sign stays with the result.
pub open spec fn round_binary32_signed(v: int, floor: nat) -> int {
    if v < 0 {
        -(round_binary32((-v) as nat, floor) as int)
    } else {
        round_binary32(v as nat, floor) as int
    }
}

/// The binary32 sample as a signed 16-bit sample.
///
/// The value is multiplied by 32767.5 and the product rounded to binary32;
/// of that, the largest whole number not above it is taken, and the nearest
/// 16-bit value of that. With the value in units of `2^-149`, 65535 times
/// it is the product in units of `2^-150`. A NaN gives 0.
pub open spec fn float_to_signed(x: Float32) -> i16 {
    if x.is_nan() {
        0
    } else {
        saturate_i16(round_binary32_signed(x.value() * 65535, 1) / (pow2(150) as int))
    }
}

/// Magnitude bounds by exponent field.
pub proof fn lemma_magnitude_bounds(x: Float32)
    ensures
        x.exponent_field() == 0 ==> x.magnitude() < pow2(23),
        x.exponent_field() >= 1 ==> pow2((x.exponent_field() + 22) as nat) <= x.magnitude() < pow2(
            (x.exponent_field() + 23) as nat,
        ),
        x.magnitude() == 0 <==> x.magnitude_bits() == 0,
{
    lemma2_to64();
    let e = x.exponent_field();
    if e >= 1 {
        let j = (e - 1) as nat;
        let m: nat = 0x80_0000 + x.fraction_field();
        lemma_pow2_pos(j);
        lemma_pow2_adds(23, j);
        lemma_pow2_adds(24, j);
        lemma_mul_inequality(pow2(23) as int, m as int, pow2(j) as int);
        lemma_mul_strict_inequality(m as int, pow2(24) as int, pow2(j) as int);
    }
}

/// From 1.0 on, the product with 32767.5 reaches the end of the 16-bit range.
pub proof fn lemma_float_to_signed_large(x: Float32)
    requires
        !x.is_nan(),
        x.exponent_field() >= 127,
    ensures
        float_to_signed(x) == if x.sign_negative() {
            -32768i16
        } else {
            32767i16
        },
{
    lemma2_to64();
    lemma_magnitude_bounds(x);
    lemma_pow2_monotone(149, (x.exponent_field() + 22) as nat);
    let big = x.magnitude() * 65535;
    let edge = 65535 * pow2(149);
    assert(edge <= big) by (nonlinear_arith)
        requires
            pow2(149) <= x.magnitude(),
            big == x.magnitude() * 65535,
            edge == 65535 * pow2(149),
    ;
    lemma_bit_length_below(65535, 16);
    lemma_round_binary32_of_multiple(65535, 149, 1);
    lemma_round_binary32_monotone(edge, big, 1);
    let rounded = round_binary32(big, 1);
    let d = pow2(150);
    lemma_pow2_pos(150);
    lemma_div_pow2_cancel(65535, 149, 150);
    lemma_pow2_pos(149);
    assert(edge / d == 32767);
    assert(65535nat % pow2(1) == 1);
    assert(edge % d == pow2(149)) by (nonlinear_arith)
        requires
            edge % d == (65535nat % pow2(1)) * pow2(149),
            65535nat % pow2(1) == 1,
    ;
    if x.sign_negative() {
        assert(x.value() * 65535 == -(big as int)) by (nonlinear_arith)
            requires
                x.value() == -(x.magnitude() as int),
                big == x.magnitude() * 65535,
        ;
        lemma_div_of_negated(edge, d);
        lemma_div_is_ordered(-(rounded as int), -(edge as int), d as int);
    } else {
        lemma_div_is_ordered(edge as int, rounded as int, d as int);
    }
}

/// Below `2^-16`, the product with 32767.5 is less than one half.
pub proof fn lemma_float_to_signed_small(x: Float32)
    requires
        x.exponent_field() <= 110,
    ensures
        float_to_signed(x) == if x.sign_negative() && x.magnitude_bits() != 0 {
            -1i16
        } else {
            0i16
        },
{
    lemma2_to64();
    lemma_magnitude_bounds(x);
    lemma_pow2_monotone(23, 133);
    lemma_pow2_monotone((x.exponent_field() + 23) as nat, 133);
    lemma_pow2_adds(133, 16);
    let small = x.magnitude() * 65535;
    assert(small < pow2(149)) by (nonlinear_arith)
        requires
            x.magnitude() < pow2(133),
            small == x.magnitude() * 65535,
            pow2(149) == pow2(133) * 65536,
    ;
    lemma_bit_length_below(1, 1);
    lemma_round_binary32_of_multiple(1, 149, 1);
    lemma_round_binary32_monotone(small, pow2(149), 1);
    let rounded = round_binary32(small, 1);
    let d = pow2(150);
    lemma_pow2_adds(149, 1);
    lemma_pow2_pos(149);
    assert(rounded < d);
    lemma_basic_div(rounded as int, d as int);
    lemma_round_binary32_of_multiple(0, 1, 1);
    assert(bit_length(0) == 0);
    if x.magnitude() == 0 {
        assert(small == 0);
        assert(x.value() * 65535 == 0);
    } else if x.sign_negative() {
        assert(x.value() * 65535 == -(small as int)) by (nonlinear_arith)
            requires
                x.value() == -(x.magnitude() as int),
                small == x.magnitude() * 65535,
        ;
        lemma_bit_length_below(32767, 15);
        lemma_round_binary32_of_multiple(32767, 1, 1);
        lemma_round_binary32_monotone(65534, small, 1);
        lemma_div_of_negated(rounded, d);
        vstd::arithmetic::div_mod::lemma_small_mod(rounded, d);
    }
}

/// The 16-bit unsigned integer nearest to `v` within the type's range.
pub open spec fn saturate_u16(v: int) -> u16 {
    if v < 0 {
        0u16
    } else if v > 65535 {
        65535u16
    } else {
        v as u16
    }
}

/// The whole number nearest to `v / d`; of two equally near ones, the one
/// farther from zero.
pub open spec fn round_half_away(v: int, d: nat) -> int {
    if v < 0 {
        -(round_half_up((-v) as nat, d) as int)
    } else {
        round_half_up(v as nat, d) as int
    }
}

/// The binary32 sample as an unsigned 16-bit sample.
///
/// The value times 32767.5, plus 32767.5, is rounded once to binary32; that is
/// rounded to the nearest whole number, halves away from zero, and the nearest
/// 16-bit value of that is taken. With the value in units of `2^-149`, the sum
/// below is in units of `2^-150`. A NaN gives 0.
pub open spec fn float_to_unsigned(x: Float32) -> u16 {
    if x.is_nan() {
        0
    } else {
        let sum: int = x.value() * 65535 + 65535 * pow2(149);
        saturate_u16(round_half_away(round_binary32_signed(sum, 1), pow2(150)))
    }
}

/// From 1.0 on, and from -1.0 down, the sum leaves the 16-bit range.
pub proof fn lemma_float_to_unsigned_large(x: Float32)
    requires
        !x.is_nan(),
        x.exponent_field() >= 127,
    ensures
        float_to_unsigned(x) == if x.sign_negative() {
            0u16
        } else {
            65535u16
        },
{
    lemma2_to64();
    lemma_magnitude_bounds(x);
    lemma_pow2_monotone(149, (x.exponent_field() + 22) as nat);
    let big = x.magnitude() * 65535;
    let half = 65535 * pow2(149);
    assert(half <= big) by (nonlinear_arith)
        requires
            pow2(149) <= x.magnitude(),
            big == x.magnitude() * 65535,
            half == 65535 * pow2(149),
    ;
    let d = pow2(150);
    lemma_pow2_pos(150);
    lemma_pow2_adds(149, 1);
    let sum: int = x.value() * 65535 + 65535 * pow2(149);
    if x.sign_negative() {
        assert(x.value() * 65535 == -(big as int)) by (nonlinear_arith)
            requires
                x.value() == -(x.magnitude() as int),
                big == x.magnitude() * 65535,
        ;
        assert(sum <= 0);
        lemma_round_binary32_of_multiple(0, 1, 1);
        assert(bit_length(0) == 0);
        let w = round_binary32_signed(sum, 1);
        assert(w <= 0);
        lemma_round_half_up_multiple(0, d, 0);
        assert(round_half_away(w, d) <= 0);
    } else {
        assert(x.value() * 65535 == big);
        let full = 65535 * d;
        assert(full <= sum);
        lemma_bit_length_below(65535, 16);
        lemma_round_binary32_of_multiple(65535, 150, 1);
        lemma_round_binary32_monotone(full, sum as nat, 1);
        lemma_round_half_up_multiple(round_binary32(sum as nat, 1), d, 65535);
    }
}

/// Below `2^-25`, the sum rounds to 32767.5.
pub proof fn lemma_float_to_unsigned_small(x: Float32)
    requires
        x.exponent_field() <= 101,
    ensures
        float_to_unsigned(x) == 32768,
{
    lemma2_to64();
    lemma_magnitude_bounds(x);
    lemma_pow2_monotone(23, 124);
    lemma_pow2_monotone((x.exponent_field() + 23) as nat, 124);
    lemma_pow2_adds(124, 16);
    lemma_pow2_adds(140, 1);
    lemma_pow2_adds(141, 8);
    lemma_pow2_adds(149, 15);
    lemma_pow2_adds(149, 16);
    lemma_pow2_adds(149, 1);
    lemma_pow2_pos(140);
    let delta = x.magnitude() * 65535;
    assert(delta < pow2(140)) by (nonlinear_arith)
        requires
            x.magnitude() < pow2(124),
            delta == x.magnitude() * 65535,
            pow2(140) == pow2(124) * 65536,
    ;
    let half = 65535 * pow2(149);
    let sum: int = x.value() * 65535 + half;
    assert(x.value() * 65535 == delta || x.value() * 65535 == -(delta as int)) by (nonlinear_arith)
        requires
            x.value() == x.magnitude() || x.value() == -(x.magnitude() as int),
            delta == x.magnitude() * 65535,
    ;
    assert(pow2(164) <= sum < pow2(165));
    let s = sum as nat;
    lemma_bit_length_unique(s, 165);
    assert(spacing_exponent(s, 1) == 141);
    let g = pow2(141);
    let m: nat = 65535 * 256;
    assert(m * g == half) by (nonlinear_arith)
        requires
            m == 65535 * 256,
            pow2(149) == g * 256,
            half == 65535 * pow2(149),
    ;
    lemma_round_half_even_near(s, g, m);
    assert(round_binary32(s, 1) == half);
    lemma_div_pow2_cancel(65535, 149, 150);
    assert(65535nat % pow2(1) == 1);
    assert(65535nat / pow2(1) == 32767);
    assert(half % pow2(150) == pow2(149)) by (nonlinear_arith)
        requires
            half % pow2(150) == (65535nat % pow2(1)) * pow2(149),
            65535nat % pow2(1) == 1,
    ;
    assert(round_half_up(half as nat, pow2(150)) == 32768);
}

/// Rounding to binary32 keeps the order of its arguments, whatever their signs.
pub proof fn lemma_round_binary32_signed_monotone(a: int, b: int, floor: nat)
    requires
        a <= b,
    ensures
        round_binary32_signed(a, floor) <= round_binary32_signed(b, floor),
{
    if a >= 0 {
        lemma_round_binary32_monotone(a as nat, b as nat, floor);
    } else if b < 0 {
        lemma_round_binary32_monotone((-b) as nat, (-a) as nat, floor);
    }
}

/// Rounding to whole numbers keeps the order of its arguments, whatever their
/// signs.
pub proof fn lemma_round_half_away_monotone(a: int, b: int, d: nat)
    requires
        a <= b,
        d > 0,
    ensures
        round_half_away(a, d) <= round_half_away(b, d),
{
    if a >= 0 {
        lemma_round_half_up_monotone(a as nat, b as nat, d);
    } else if b < 0 {
        lemma_round_half_up_monotone((-b) as nat, (-a) as nat, d);
    }
}

/// The value of the binary32 number that a signed sample becomes: the rounded
/// product, with the sample's sign. It is a finite number.
pub proof fn lemma_signed_to_float_value(v: i16)
    ensures
        signed_to_float(v).is_finite(),
        signed_to_float(v).sign_negative() == (v < 0),
        v >= 0 ==> signed_to_float(v).value() == round_binary32((v * 32769) as nat * pow2(119), 0),
        v < 0 ==> signed_to_float(v).value() == -(round_binary32(
            (-v * 32768) as nat * pow2(119),
            0,
        ) as int),
{
    let numerator: nat = if v >= 0 {
        (v * 32769) as nat
    } else {
        (-v * 32768) as nat
    };
    let units = numerator * pow2(119);
    let rounded = round_binary32(units, 0);
    lemma2_to64();
    lemma_pow2_adds(30, 119);
    lemma_pow2_pos(119);
    assert(units <= pow2(149)) by (nonlinear_arith)
        requires
            units == numerator * pow2(119),
            numerator <= 0x4000_0000,
            pow2(149) == 0x4000_0000 * pow2(119),
    ;
    lemma_bit_length_below(1, 1);
    lemma_round_binary32_of_multiple(1, 149, 0);
    lemma_round_binary32_monotone(units, pow2(149), 0);
    lemma_pow2_monotone(149, 277);
    vstd::arithmetic::power2::lemma_pow2_strictly_increases(149, 277);
    lemma_round_binary32_on_grid(units, 0);
    crate::float32::lemma_with_magnitude(v < 0, rounded);
    crate::float32::lemma_magnitude_round_trip(signed_to_float(v));
    crate::float32::lemma_infinite_magnitude(signed_to_float(v));
}

impl Sample for Float32 {
    const FORMAT: SampleFormat = SampleFormat::F32;

    open spec fn as_float(&self) -> Float32 {
        *self
    }

    open spec fn as_i16(&self) -> i16 {
        float_to_signed(*self)
    }

    open spec fn as_u16(&self) -> u16 {
        float_to_unsigned(*self)
    }

    #[inline]
    fn to_f32_mine(&self) -> (r: Float32) {
        *self
    }

    fn to_i16_mine(&self) -> (r: i16) {
        let x: Float32 = *self;
        let negative: bool = x.bits >= 0x8000_0000;
        let a: u32 = if negative {
            x.bits - 0x8000_0000
        } else {
            x.bits
        };
        if a > 0x7f80_0000 {
            return 0;
        }
        let e: u32 = a / 0x80_0000;
        if e >= 127 {
            proof {
                lemma_float_to_signed_large(x);
            }
            return if negative {
                -32768
            } else {
                32767
            };
        }
        if e <= 110 {
            proof {
                lemma_float_to_signed_small(x);
            }
            return if negative && a != 0 {
                -1
            } else {
                0
            };
        }
        let m: u64 = 0x80_0000 + (a % 0x80_0000) as u64;
        let n: u64 = m * 65535;
        let l: u32 = count_bits(n);
        let ghost j: nat = (e - 1) as nat;
        proof {
            lemma2_to64();
            lemma_pow2_adds(32, 6);
            lemma_pow2_adds(32, 8);
            assert(pow2(38) <= n < pow2(40));
            lemma_bit_length_bounds(n as nat);
            if l < 39 {
                lemma_pow2_monotone(l as nat, 38);
            }
            lemma_bit_length_below(n as nat, 40);
        }
        let k: u32 = l - 24;
        let rounded: u64 = divide_round_half_even(n, k);
        let s: u32 = 151 - k - e;
        let p: u64 = power_of_two(s);
        let q: u64 = rounded / p;
        let rest: u64 = rounded % p;
        proof {
            // The product, in units of 2^-150, is n * 2^j; rounded, it is rounded * 2^(k + j).
            let big = x.magnitude() * 65535;
            assert(big == n as nat * pow2(j)) by (nonlinear_arith)
                requires
                    x.magnitude() == m as nat * pow2(j),
                    big == x.magnitude() * 65535,
                    n == m * 65535,
            ;
            lemma_round_binary32_shift(n as nat, j, 1);
            let whole = round_binary32(big, 1);
            assert(whole == rounded as nat * pow2(k as nat + j));
            lemma_div_pow2_cancel(rounded as nat, k as nat + j, 150);
            lemma_pow2_pos(k as nat + j);
            lemma_pow2_pos(150);
            assert(whole / pow2(150) == q);
            assert(whole % pow2(150) == rest as nat * pow2(k as nat + j));
            assert(rest == 0 <==> whole % pow2(150) == 0) by (nonlinear_arith)
                requires
                    whole % pow2(150) == rest as nat * pow2(k as nat + j),
                    pow2(k as nat + j) > 0,
            ;
            // The significand is at most 2^24 and the divisor at least 2^9.
            lemma_pow2_adds(23, k as nat);
            lemma_pow2_adds(24, k as nat);
            lemma_pow2_pos(k as nat);
            lemma_round_half_even_multiple(n as nat, pow2(k as nat), pow2(24));
            lemma_pow2_monotone(9, s as nat);
            lemma_div_is_ordered(rounded as int, 0x100_0000, p as int);
            vstd::arithmetic::div_mod::lemma_div_is_ordered_by_denominator(
                0x100_0000,
                512,
                p as int,
            );
            assert(q <= 32768);
            if negative {
                assert(x.value() * 65535 == -(big as int)) by (nonlinear_arith)
                    requires
                        x.value() == -(x.magnitude() as int),
                        big == x.magnitude() * 65535,
                ;
                lemma_pow2_pos(j);
                assert(big > 0) by (nonlinear_arith)
                    requires
                        big == n as nat * pow2(j),
                        n > 0,
                        pow2(j) > 0,
                ;
                lemma_div_of_negated(whole, pow2(150));
            }
        }
        if negative {
            let down: u64 = if rest == 0 {
                q
            } else {
                q + 1
            };
            if down >= 32768 {
                -32768
            } else {
                -(down as i16)
            }
        } else {
            if q >= 32767 {
                32767
            } else {
                q as i16
            }
        }
    }

    fn to_u16_mine(&self) -> (r: u16) {
        let x: Float32 = *self;
        let negative: bool = x.bits >= 0x8000_0000;
        let a: u32 = if negative {
            x.bits - 0x8000_0000
        } else {
            x.bits
        };
        if a > 0x7f80_0000 {
            return 0;
        }
        let e: u32 = a / 0x80_0000;
        if e >= 127 {
            proof {
                lemma_float_to_unsigned_large(x);
            }
            return if negative {
                0
            } else {
                65535
            };
        }
        if e <= 101 {
            proof {
                lemma_float_to_unsigned_small(x);
            }
            return 32768;
        }
        let m: u64 = 0x80_0000 + (a % 0x80_0000) as u64;
        let n: u64 = m * 65535;
        let t: u32 = 150 - e;
        let scale: u64 = power_of_two(t);
        let ghost j: nat = (e - 1) as nat;
        proof {
            lemma2_to64();
            lemma_pow2_monotone(24, t as nat);
            lemma_pow2_monotone(t as nat, 48);
            lemma_pow2_adds(32, 16);
            lemma_pow2_adds(48, 16);
            assert(65535 * scale <= 65535 * pow2(48)) by (nonlinear_arith)
                requires
                    scale <= pow2(48),
            ;
            assert(65535 * scale >= 65535 * pow2(24)) by (nonlinear_arith)
                requires
                    scale >= pow2(24),
            ;
        }
        let base: u64 = 65535 * scale;
        let total: u64 = if negative {
            base - n
        } else {
            base + n
        };
        let l: u32 = count_bits(total);
        proof {
            // total < 2^(t + 17), so it has at most t + 17 digits.
            lemma_pow2_adds(t as nat, 17);
            assert(total < pow2((t + 17) as nat)) by (nonlinear_arith)
                requires
                    total <= 65535 * scale + n,
                    n < 65535 * 0x100_0000,
                    scale >= 0x100_0000,
                    pow2((t + 17) as nat) == scale * 0x2_0000,
            ;
            lemma_bit_length_below(total as nat, (t + 17) as nat);
            lemma_bit_length_bounds(total as nat);
        }
        let k: u32 = if l <= 24 {
            0
        } else {
            l - 24
        };
        let rounded: u64 = if l <= 24 {
            total
        } else {
            divide_round_half_even(total, k)
        };
        proof {
            if l <= 24 {
                lemma_pow2_monotone(l as nat, 24);
            } else {
                lemma_pow2_adds(24, k as nat);
                lemma_pow2_pos(k as nat);
                lemma_round_half_even_multiple(total as nat, pow2(k as nat), pow2(24));
            }
            assert(rounded <= 0x100_0000);
        }
        let s: u32 = 151 - k - e;
        let r: u64 = divide_round_half_up(rounded, s);
        proof {
            // The sum, in units of 2^-150, is total * 2^j.
            let big = x.magnitude() * 65535;
            lemma_pow2_adds(t as nat, j);
            lemma_pow2_pos(j);
            assert(big == n as nat * pow2(j)) by (nonlinear_arith)
                requires
                    x.magnitude() == m as nat * pow2(j),
                    big == x.magnitude() * 65535,
                    n == m * 65535,
            ;
            let sum: int = x.value() * 65535 + 65535 * pow2(149);
            assert(sum == total as nat * pow2(j)) by (nonlinear_arith)
                requires
                    sum == x.value() * 65535 + 65535 * pow2(149),
                    x.value() == (if negative {
                        -(x.magnitude() as int)
                    } else {
                        x.magnitude() as int
                    }),
                    big == x.magnitude() * 65535,
                    big == n as nat * pow2(j),
                    pow2(149) == scale * pow2(j),
                    total == (if negative {
                        65535 * scale - n
                    } else {
                        65535 * scale + n
                    }),
            ;
            assert(sum > 0) by (nonlinear_arith)
                requires
                    sum == total as nat * pow2(j),
                    total > 0,
                    pow2(j) > 0,
            ;
            if l <= 24 {
                lemma_round_binary32_of_multiple(total as nat, j, 1);
                assert(pow2(0) == 1);
            } else {
                lemma_round_binary32_shift(total as nat, j, 1);
            }
            let whole = round_binary32(sum as nat, 1);
            assert(whole == rounded as nat * pow2(k as nat + j));
            lemma_pow2_adds(s as nat, k as nat + j);
            lemma_pow2_pos(s as nat);
            lemma_pow2_pos(k as nat + j);
            lemma_round_half_up_scale(rounded as nat, pow2(s as nat), pow2(k as nat + j));
            assert(round_half_away(round_binary32_signed(sum, 1), pow2(150)) == r);
        }
        if r >= 65535 {
            65535
        } else {
            r as u16
        }
    }
}

impl FromSample for Float32 {
    open spec fn pick(signed: i16, unsigned: u16, float: Float32) -> Float32 {
        float
    }

    #[inline]
    fn from<S: Sample>(s: &S) -> (r: Float32) {
        s.to_f32_mine()
    }
}

} // verus!
