//! A 32-bit IEEE 754 binary floating-point number, held by its bit pattern.

use vstd::prelude::*;
use vstd::arithmetic::div_mod::{
    lemma_div_by_multiple, lemma_div_is_ordered, lemma_fundamental_div_mod,
    lemma_fundamental_div_mod_converse, lemma_multiply_divide_lt,
};
use vstd::arithmetic::mul::lemma_mul_is_commutative;
use vstd::arithmetic::power2::{
    lemma2_to64, lemma_pow2_adds, lemma_pow2_pos, lemma_pow2_strictly_increases, pow2,
};
use crate::rounding::{
    bit_length, lemma_bit_length_below, lemma_bit_length_bounds, lemma_bit_length_shift,
    lemma_bit_length_unique, lemma_pow2_monotone, spacing_exponent,
};

verus! {

/// A binary32 number: one sign bit, eight exponent bits, 23 fraction bits.
///
/// Two values are equal when their bit patterns are, so `0.0` and `-0.0`
/// differ and a NaN equals itself.
#[derive(Clone, Copy, Debug, PartialEq, Eq, Structural)]
pub struct Float32 {
    /// The bit pattern, sign bit first.
    pub bits: u32,
}

impl Float32 {
    /// Whether the sign bit is set. It may be set on a zero and on a NaN too.
    pub open spec fn sign_negative(self) -> bool {
        self.bits >= 0x8000_0000
    }

    /// The bit pattern without its sign bit.
    pub open spec fn magnitude_bits(self) -> nat {
        if self.bits >= 0x8000_0000 {
            (self.bits - 0x8000_0000) as nat
        } else {
            self.bits as nat
        }
    }

    /// The eight exponent bits as a number.
    pub open spec fn exponent_field(self) -> nat {
        self.magnitude_bits() / 0x80_0000
    }

    /// The 23 fraction bits as a number.
    pub open spec fn fraction_field(self) -> nat {
        self.magnitude_bits() % 0x80_0000
    }

    /// Whether this is a NaN.
    pub open spec fn is_nan(self) -> bool {
        self.magnitude_bits() > 0x7f80_0000
    }

    /// Whether this is positive or negative infinity.
    pub open spec fn is_infinite(self) -> bool {
        self.magnitude_bits() == 0x7f80_0000
    }

    /// Whether this is a zero, a subnormal or a normal number.
    pub open spec fn is_finite(self) -> bool {
        self.magnitude_bits() < 0x7f80_0000
    }

    /// The absolute value, counted in units of `2^-149`, the smallest positive
    /// binary32 number.
    ///
    /// An infinity counts as `2^128`, the power of two after the largest
    /// finite number, which is `2^277` units. A NaN has no value; what this
    /// gives for one means nothing.
    pub open spec fn magnitude(self) -> nat {
        if self.exponent_field() == 0 {
            self.fraction_field()
        } else {
            (0x80_0000 + self.fraction_field()) * pow2((self.exponent_field() - 1) as nat)
        }
    }

    /// The value, counted in units of `2^-149`: the magnitude with the sign.
    pub open spec fn value(self) -> int {
        if self.sign_negative() {
            -(self.magnitude() as int)
        } else {
            self.magnitude() as int
        }
    }

    /// The number with the given sign whose magnitude is `units` times `2^-149`.
    ///
    /// It is meant for a `units` that a binary32 number can have: one that
    /// `round_binary32` with floor 0 returns, up to `2^277` for an infinity.
    pub open spec fn with_magnitude(negative: bool, units: nat) -> Float32 {
        let e = spacing_exponent(units, 0);
        let sign: nat = if negative {
            0x8000_0000
        } else {
            0
        };
        Float32 { bits: (sign + e * 0x80_0000 + units / pow2(e)) as u32 }
    }

    /// The number with the given bit pattern.
    #[inline]
    pub fn from_bits(bits: u32) -> (r: Float32)
        ensures
            r.bits == bits,
    {
        Float32 { bits }
    }

    /// The bit pattern of this number.
    #[inline]
    pub fn to_bits(self) -> (bits: u32)
        ensures
            bits == self.bits,
    {
        self.bits
    }
}

/// Significands of normal numbers have exactly 24 digits.
pub proof fn lemma_bit_length_of_significand(m: nat)
    requires
        0x80_0000 <= m < 0x100_0000,
    ensures
        bit_length(m) == 24,
{
    lemma2_to64();
    lemma_bit_length_unique(m, 24);
}

/// Taking a number apart into sign and magnitude and putting it together
/// again gives the same bit pattern, for every number but a NaN. The magnitude
/// lies on the binary32 grid and is at most `2^277` units.
pub proof fn lemma_magnitude_round_trip(x: Float32)
    requires
        !x.is_nan(),
    ensures
        Float32::with_magnitude(x.sign_negative(), x.magnitude()) == x,
        x.magnitude() % pow2(spacing_exponent(x.magnitude(), 0)) == 0,
        x.magnitude() <= pow2(277),
        x.is_finite() ==> x.magnitude() < pow2(277),
{
    let e = x.exponent_field();
    let f = x.fraction_field();
    let u = x.magnitude();
    lemma2_to64();
    lemma_pow2_pos(277);
    if e == 0 {
        assert(u < pow2(23));
        lemma_bit_length_below(u, 23);
        assert(spacing_exponent(u, 0) == 0);
        lemma_pow2_monotone(23, 277);
    } else {
        let m: nat = 0x80_0000 + f;
        let j = (e - 1) as nat;
        lemma_bit_length_of_significand(m);
        lemma_bit_length_shift(m, j);
        assert(spacing_exponent(u, 0) == j);
        lemma_pow2_pos(j);
        lemma_div_by_multiple(m as int, pow2(j) as int);
        lemma_fundamental_div_mod_converse(u as int, pow2(j) as int, m as int, 0);
        // The largest exponent field, 255, belongs to the infinities alone.
        assert(j <= 254);
        lemma_pow2_monotone(j, 254);
        lemma_pow2_adds(23, 254);
        if x.is_finite() {
            if j == 254 {
                assert(false);
            }
            lemma_pow2_monotone(j, 253);
            lemma_pow2_adds(24, 253);
            assert(m * pow2(j) < pow2(24) * pow2(253)) by (nonlinear_arith)
                requires
                    m < pow2(24),
                    0 < pow2(j) <= pow2(253),
            ;
        } else {
            assert(m * pow2(j) <= pow2(23) * pow2(254)) by (nonlinear_arith)
                requires
                    m == pow2(23),
                    pow2(j) <= pow2(254),
            ;
        }
    }
}

/// The infinities, and they alone among the numbers that are no NaN, have a
/// magnitude of `2^277` units.
pub proof fn lemma_infinite_magnitude(x: Float32)
    requires
        !x.is_nan(),
    ensures
        x.is_infinite() <==> x.magnitude() == pow2(277),
{
    lemma_magnitude_round_trip(x);
    if x.is_infinite() {
        lemma2_to64();
        lemma_pow2_adds(23, 254);
        assert(x.exponent_field() == 255);
        assert(x.fraction_field() == 0);
    }
}

/// A magnitude on the binary32 grid, up to `2^277` units, is the magnitude of
/// the number that `with_magnitude` makes of it.
pub proof fn lemma_with_magnitude(negative: bool, units: nat)
    requires
        units % pow2(spacing_exponent(units, 0)) == 0,
        units <= pow2(277),
    ensures
        !Float32::with_magnitude(negative, units).is_nan(),
        Float32::with_magnitude(negative, units).sign_negative() == negative,
        Float32::with_magnitude(negative, units).magnitude() == units,
{
    let r = Float32::with_magnitude(negative, units);
    let l = bit_length(units);
    let e = spacing_exponent(units, 0);
    let g = pow2(e);
    let m = units / g;
    lemma2_to64();
    lemma_pow2_pos(e);
    if l < 24 {
        if units > 0 {
            lemma_bit_length_bounds(units);
            lemma_pow2_monotone(l, 23);
        }
        assert(e == 0 && g == 1);
        assert(m == units / 1);
        assert(r.magnitude_bits() == units);
    } else {
        lemma_bit_length_bounds(units);
        lemma_pow2_adds(23, e);
        lemma_pow2_adds(24, e);
        lemma_div_is_ordered((pow2(23) * g) as int, units as int, g as int);
        lemma_div_by_multiple(pow2(23) as int, g as int);
        lemma_mul_is_commutative(pow2(24) as int, g as int);
        lemma_multiply_divide_lt(units as int, g as int, pow2(24) as int);
        assert(0x80_0000 <= m < 0x100_0000);
        // At most 278 digits, so the exponent field stays within eight bits.
        if l > 278 {
            lemma_pow2_strictly_increases(277, (l - 1) as nat);
            assert(false);
        }
        if e == 254 {
            lemma_pow2_adds(23, 254);
            lemma_div_is_ordered(units as int, (pow2(23) * g) as int, g as int);
            assert(m == 0x80_0000);
        }
        let mb: nat = e * 0x80_0000 + m;
        assert(mb <= 0x7f80_0000);
        assert(r.magnitude_bits() == mb);
        lemma_fundamental_div_mod_converse(
            mb as int,
            0x80_0000,
            (e + 1) as int,
            (m - 0x80_0000) as int,
        );
        assert(r.exponent_field() == e + 1);
        assert(r.fraction_field() == m - 0x80_0000);
        lemma_fundamental_div_mod(units as int, g as int);
        lemma_mul_is_commutative(m as int, g as int);
    }
}

} // verus!
