//! The conversions themselves, as methods on the three sample types.

use vstd::prelude::*;
use crate::float32::Float32;
use crate::float_convert::{nearest_to_fraction, signed_to_float, unsigned_to_float};
use crate::format::SampleFormat;

verus! {

/// The unsigned sample with the same amplitude as the signed sample `x`:
/// the two ranges are 32768 apart.
pub open spec fn signed_to_unsigned(x: i16) -> u16 {
    (x + 32768) as u16
}

/// The signed sample with the same amplitude as the unsigned sample `x`.
pub open spec fn unsigned_to_signed(x: u16) -> i16 {
    (x - 32768) as i16
}

/// A type that holds one PCM sample.
pub trait Sample: Copy + Clone {
    /// The `SampleFormat` corresponding to this data type.
    const FORMAT: SampleFormat;

    /// This sample as a binary32 value.
    spec fn as_float(&self) -> Float32;

    /// This sample as a signed 16-bit value.
    spec fn as_i16(&self) -> i16;

    /// This sample as an unsigned 16-bit value.
    spec fn as_u16(&self) -> u16;

    /// Turns the sample into its equivalent as a floating-point.
    fn to_f32_mine(&self) -> (r: Float32)
        ensures
            r == self.as_float(),
    ;

    /// Converts this sample into a standard i16 sample.
    fn to_i16_mine(&self) -> (r: i16)
        ensures
            r == self.as_i16(),
    ;

    /// Converts this sample into a standard u16 sample.
    fn to_u16_mine(&self) -> (r: u16)
        ensures
            r == self.as_u16(),
    ;
}

/// A sample type that can be built from a sample of any type.
pub trait FromSample: Sample {
    /// Which of the three renderings of a source sample is the one of this type.
    spec fn pick(signed: i16, unsigned: u16, float: Float32) -> Self;

    /// Converts any sample type to this one.
    fn from<S: Sample>(s: &S) -> (r: Self)
        ensures
            r == Self::pick(s.as_i16(), s.as_u16(), s.as_float()),
    ;
}

impl Sample for i16 {
    const FORMAT: SampleFormat = SampleFormat::I16;

    open spec fn as_float(&self) -> Float32 {
        signed_to_float(*self)
    }

    open spec fn as_i16(&self) -> i16 {
        *self
    }

    open spec fn as_u16(&self) -> u16 {
        signed_to_unsigned(*self)
    }

    #[inline]
    fn to_f32_mine(&self) -> (r: Float32) {
        let v: i16 = *self;
        if v >= 0 {
            nearest_to_fraction(false, v as u32 * 32769)
        } else {
            nearest_to_fraction(true, (-(v as i32)) as u32 * 32768)
        }
    }

    #[inline]
    fn to_i16_mine(&self) -> (r: i16) {
        *self
    }

    #[inline]
    fn to_u16_mine(&self) -> (r: u16) {
        let shifted: i16 = self.wrapping_add(i16::MIN);
        let r: u16 = #[verifier::truncate] (shifted as u16);
        assert(r == signed_to_unsigned(*self)) by {
            let x: i16 = *self;
            assert(shifted == if x < 0 {
                x + 32768
            } else {
                x - 32768
            });
            assert(shifted as u16 == (if shifted < 0 {
                shifted + 65536
            } else {
                shifted as int
            })) by (bit_vector);
        }
        r
    }
}

impl FromSample for i16 {
    open spec fn pick(signed: i16, unsigned: u16, float: Float32) -> i16 {
        signed
    }

    #[inline]
    fn from<S: Sample>(s: &S) -> (r: i16) {
        s.to_i16_mine()
    }
}

impl Sample for u16 {
    const FORMAT: SampleFormat = SampleFormat::U16;

    open spec fn as_float(&self) -> Float32 {
        unsigned_to_float(*self)
    }

    open spec fn as_i16(&self) -> i16 {
        unsigned_to_signed(*self)
    }

    open spec fn as_u16(&self) -> u16 {
        *self
    }

    #[inline]
    fn to_f32_mine(&self) -> (r: Float32) {
        self.to_i16_mine().to_f32_mine()
    }

    #[inline]
    fn to_i16_mine(&self) -> (r: i16) {
        let x: u16 = *self;
        let reinterpreted: i16 = #[verifier::truncate] (x as i16);
        assert(reinterpreted == (if x >= 32768 {
            x - 65536
        } else {
            x as int
        })) by {
            assert(x as i16 == (if x >= 32768u16 {
                x - 65536
            } else {
                x as int
            })) by (bit_vector);
        }
        reinterpreted.wrapping_add(i16::MIN)
    }

    #[inline]
    fn to_u16_mine(&self) -> (r: u16) {
        *self
    }
}

impl FromSample for u16 {
    open spec fn pick(signed: i16, unsigned: u16, float: Float32) -> u16 {
        unsigned
    }

    #[inline]
    fn from<S: Sample>(s: &S) -> (r: u16) {
        s.to_u16_mine()
    }
}

} // verus!
