//! What holds of the conversions taken together.

use vstd::prelude::*;
use vstd::arithmetic::div_mod::lemma_div_is_ordered;
use vstd::arithmetic::mul::lemma_mul_inequality;
use vstd::arithmetic::power2::{lemma_pow2_pos, pow2};
use crate::float32::Float32;
use crate::float_convert::{
    lemma_round_binary32_signed_monotone, lemma_round_half_away_monotone,
    lemma_signed_to_float_value, round_binary32_signed,
};
use crate::rounding::lemma_round_binary32_monotone;
use crate::sample::{FromSample, Sample};

verus! {

/// Converting a sample to the format it already has returns the sample
/// itself, by the directed conversion and by the generic one alike.
pub proof fn lemma_own_format_is_identity(signed: i16, unsigned: u16, float: Float32)
    ensures
        signed.as_i16() == signed,
        unsigned.as_u16() == unsigned,
        float.as_float() == float,
        <i16 as FromSample>::pick(signed.as_i16(), signed.as_u16(), signed.as_float()) == signed,
        <u16 as FromSample>::pick(unsigned.as_i16(), unsigned.as_u16(), unsigned.as_float())
            == unsigned,
        <Float32 as FromSample>::pick(float.as_i16(), float.as_u16(), float.as_float()) == float,
{
}

/// A signed sample that is converted to unsigned and back is unchanged.
pub proof fn lemma_signed_round_trip(x: i16)
    ensures
        x.as_u16().as_i16() == x,
{
}

/// An unsigned sample that is converted to signed and back is unchanged.
pub proof fn lemma_unsigned_round_trip(x: u16)
    ensures
        x.as_i16().as_u16() == x,
{
}

/// A larger signed sample becomes a larger unsigned sample.
pub proof fn lemma_signed_to_unsigned_monotone(a: i16, b: i16)
    requires
        a <= b,
    ensures
        a.as_u16() <= b.as_u16(),
{
}

/// A larger unsigned sample becomes a larger signed sample.
pub proof fn lemma_unsigned_to_signed_monotone(a: u16, b: u16)
    requires
        a <= b,
    ensures
        a.as_i16() <= b.as_i16(),
{
}

/// A larger signed sample becomes a binary32 sample that is not smaller.
pub proof fn lemma_signed_to_float_monotone(a: i16, b: i16)
    requires
        a <= b,
    ensures
        a.as_float().value() <= b.as_float().value(),
{
    lemma_signed_to_float_value(a);
    lemma_signed_to_float_value(b);
    lemma_pow2_pos(119);
    if a >= 0 {
        let na = (a * 32769) as nat;
        let nb = (b * 32769) as nat;
        lemma_mul_inequality(na as int, nb as int, pow2(119) as int);
        lemma_round_binary32_monotone(na * pow2(119), nb * pow2(119), 0);
    } else if b < 0 {
        let na = (-a * 32768) as nat;
        let nb = (-b * 32768) as nat;
        lemma_mul_inequality(nb as int, na as int, pow2(119) as int);
        lemma_round_binary32_monotone(nb * pow2(119), na * pow2(119), 0);
    }
}

/// A larger unsigned sample becomes a binary32 sample that is not smaller.
pub proof fn lemma_unsigned_to_float_monotone(a: u16, b: u16)
    requires
        a <= b,
    ensures
        a.as_float().value() <= b.as_float().value(),
{
    lemma_signed_to_float_monotone(a.as_i16(), b.as_i16());
}

/// Of two binary32 samples, neither a NaN, the one with the larger value
/// becomes a signed sample that is not smaller. An infinity counts as larger
/// in magnitude than every finite number.
pub proof fn lemma_float_to_signed_monotone(a: Float32, b: Float32)
    requires
        !a.is_nan(),
        !b.is_nan(),
        a.value() <= b.value(),
    ensures
        a.as_i16() <= b.as_i16(),
{
    let pa = a.value() * 65535;
    let pb = b.value() * 65535;
    lemma_mul_inequality(a.value(), b.value(), 65535);
    lemma_round_binary32_signed_monotone(pa, pb, 1);
    lemma_pow2_pos(150);
    lemma_div_is_ordered(
        round_binary32_signed(pa, 1),
        round_binary32_signed(pb, 1),
        pow2(150) as int,
    );
}

/// Of two binary32 samples, neither a NaN, the one with the larger value
/// becomes an unsigned sample that is not smaller.
pub proof fn lemma_float_to_unsigned_monotone(a: Float32, b: Float32)
    requires
        !a.is_nan(),
        !b.is_nan(),
        a.value() <= b.value(),
    ensures
        a.as_u16() <= b.as_u16(),
{
    let sa = a.value() * 65535 + 65535 * pow2(149);
    let sb = b.value() * 65535 + 65535 * pow2(149);
    lemma_mul_inequality(a.value(), b.value(), 65535);
    lemma_round_binary32_signed_monotone(sa, sb, 1);
    lemma_pow2_pos(150);
    lemma_round_half_away_monotone(
        round_binary32_signed(sa, 1),
        round_binary32_signed(sb, 1),
        pow2(150),
    );
}

} // verus!
