//! A second way from a signed sample to a binary32 sample: one division.

use vstd::prelude::*;
use vstd::arithmetic::div_mod::{
    lemma_div_by_multiple, lemma_div_is_ordered, lemma_fundamental_div_mod,
    lemma_multiply_divide_lt,
};
use vstd::arithmetic::mul::{
    lemma_mul_inequality, lemma_mul_is_associative, lemma_mul_is_commutative,
};
use vstd::arithmetic::power2::{lemma2_to64, lemma_pow2_adds, lemma_pow2_pos, pow2};
use crate::float32::Float32;
use crate::float_convert::{lemma_with_magnitude_of_scaled, nearest_to_fraction, signed_to_float};
use crate::rounding::{
    count_bits, divide_round_half_even_by, lemma_bit_length_bounds, lemma_bit_length_unique,
    lemma_pow2_monotone, lemma_round_binary32_quotient_of_multiple, lemma_round_half_even_multiple,
    lemma_round_half_even_scale, power_of_two, round_binary32_quotient, spacing_exponent,
};

verus! {

/// The signed sample divided by 32767 where it is positive and by 32768 where
/// it is not, each quotient rounded to binary32.
pub open spec fn signed_to_float_by_division(v: i16) -> Float32 {
    if v > 0 {
        Float32::with_magnitude(false, round_binary32_quotient(v as nat * pow2(149), 32767, 0))
    } else {
        Float32::with_magnitude(
            v < 0,
            round_binary32_quotient((-v) as nat * pow2(149), 32768, 0),
        )
    }
}

/// Where the sample is not positive, dividing by 32768 and multiplying by
/// `1/32768` give the same number.
pub proof fn lemma_division_agrees_below_zero(v: i16)
    requires
        v <= 0,
    ensures
        signed_to_float_by_division(v) == signed_to_float(v),
{
    lemma2_to64();
    let a = (-v) as nat;
    lemma_pow2_adds(119, 15);
    lemma_pow2_adds(134, 15);
    lemma_mul_is_associative(a as int, pow2(134) as int, 32768);
    lemma_mul_is_associative(a as int, 32768, pow2(119) as int);
    lemma_mul_is_commutative(32768, pow2(119) as int);
    assert(a * pow2(149) == (a * pow2(134)) * 32768);
    assert((-v * 32768) as nat * pow2(119) == a * pow2(134));
    lemma_round_binary32_quotient_of_multiple(a * pow2(134), 32768, 0);
    if v == 0 {
        assert(0nat * pow2(119) == 0 && a * pow2(134) == 0) by (nonlinear_arith)
            requires
                a == 0,
        ;
    }
}

/// A way to turn a signed sample into a floating-point one by division.
pub trait ToF32New {
    /// This sample as a binary32 value.
    spec fn divided(&self) -> Float32;

    /// Turns the sample into its equivalent as a floating-point.
    fn to_f32_new(&self) -> (r: Float32)
        ensures
            r == self.divided(),
    ;
}

impl ToF32New for i16 {
    open spec fn divided(&self) -> Float32 {
        signed_to_float_by_division(*self)
    }

    fn to_f32_new(&self) -> (r: Float32) {
        let v: i16 = *self;
        if v <= 0 {
            proof {
                lemma_division_agrees_below_zero(v);
            }
            return nearest_to_fraction(v < 0, (-(v as i32)) as u32 * 32768);
        }
        // Forty more binary digits leave the quotient with 26 to 41 of them.
        let scale: u64 = power_of_two(40);
        proof {
            lemma2_to64();
            lemma_pow2_adds(32, 8);
        }
        let n: u64 = v as u64 * scale;
        let q: u64 = n / 32767;
        let l: u32 = count_bits(q);
        proof {
            lemma_fundamental_div_mod(n as int, 32767);
            assert(pow2(25) <= q <= pow2(40)) by (nonlinear_arith)
                requires
                    n == 32767 * q + n % 32767,
                    0 <= n % 32767 < 32767,
                    n == v * pow2(40),
                    1 <= v <= 32767,
                    pow2(40) == 0x100_0000_0000,
                    pow2(25) == 0x200_0000,
            ;
            lemma_bit_length_bounds(q as nat);
            if l < 26 {
                lemma_pow2_monotone(l as nat, 25);
            }
            if l > 41 {
                vstd::arithmetic::power2::lemma_pow2_strictly_increases(40, (l - 1) as nat);
            }
        }
        let k: u32 = l - 24;
        let grid: u64 = power_of_two(k);
        proof {
            lemma_pow2_monotone(k as nat, 17);
            assert(32767 * grid <= 32767 * pow2(17)) by (nonlinear_arith)
                requires
                    grid <= pow2(17),
            ;
        }
        let d: u64 = 32767 * grid;
        let significand: u64 = divide_round_half_even_by(n, d);
        proof {
            let j: nat = (k + 109) as nat;
            let big: nat = v as nat * pow2(149);
            let shift = pow2(109);
            lemma_pow2_pos(109);
            lemma_pow2_adds(40, 109);
            lemma_mul_is_associative(v as int, scale as int, shift as int);
            assert(big == n as nat * shift);
            // The quotient of the units has 109 digits more than q.
            let rest = n % 32767;
            assert(big == 32767 * (q * shift) + rest * shift) by (nonlinear_arith)
                requires
                    big == n as nat * shift,
                    n == 32767 * q + rest,
            ;
            assert(big >= 32767 * (q * shift) && big < 32767 * ((q + 1) * shift))
                by (nonlinear_arith)
                requires
                    big == 32767 * (q * shift) + rest * shift,
                    0 <= rest < 32767,
                    shift > 0,
            ;
            lemma_div_is_ordered((32767 * (q * shift)) as int, big as int, 32767);
            lemma_mul_is_commutative(32767, (q * shift) as int);
            lemma_div_by_multiple((q * shift) as int, 32767);
            lemma_multiply_divide_lt(big as int, 32767, ((q + 1) * shift) as int);
            let whole = big / 32767;
            assert(q * shift <= whole < (q + 1) * shift);
            lemma_pow2_adds((l - 1) as nat, 109);
            lemma_pow2_adds(l as nat, 109);
            lemma_mul_inequality(pow2((l - 1) as nat) as int, q as int, shift as int);
            lemma_mul_inequality((q + 1) as int, pow2(l as nat) as int, shift as int);
            lemma_bit_length_unique(whole, (l + 109) as nat);
            assert(spacing_exponent(whole, 0) == j);
            // Rounding at that spacing is the rounding that was computed.
            lemma_pow2_adds(k as nat, 109);
            lemma_mul_is_associative(32767, grid as int, shift as int);
            lemma_round_half_even_scale(n as nat, d as nat, shift);
            assert(round_binary32_quotient(big, 32767, 0) == significand as nat * pow2(j));
            // The significand has 24 digits, or is 2^24.
            lemma_pow2_adds(23, k as nat);
            lemma_pow2_adds(24, k as nat);
            assert(n >= pow2(23) * d && n <= pow2(24) * d) by (nonlinear_arith)
                requires
                    n == 32767 * q + rest,
                    0 <= rest < 32767,
                    d == 32767 * grid,
                    pow2((l - 1) as nat) == pow2(23) * grid,
                    pow2(l as nat) == pow2(24) * grid,
                    pow2((l - 1) as nat) <= q,
                    q + 1 <= pow2(l as nat),
            ;
            lemma_round_half_even_multiple(n as nat, d as nat, pow2(23));
            lemma_round_half_even_multiple(n as nat, d as nat, pow2(24));
            lemma_with_magnitude_of_scaled(false, significand as nat, j);
        }
        Float32 { bits: (k + 109) * 0x80_0000 + significand as u32 }
    }
}

} // verus!
