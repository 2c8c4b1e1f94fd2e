//! The tag that names a sample representation.

use vstd::prelude::*;

verus! {

/// Format that each sample has.
#[derive(Clone, Copy, Debug, PartialEq, Eq, Structural)]
pub enum SampleFormat {
    /// Signed 16-bit integer; silence is 0.
    I16,
    /// Unsigned 16-bit integer; silence is 32768.
    U16,
    /// 32-bit floating point; the nominal range is -1.0 to 1.0 and silence is 0.0.
    F32,
}

impl SampleFormat {
    /// Storage width in bytes of one sample of this format.
    pub open spec fn width(self) -> nat {
        match self {
            SampleFormat::I16 => 2,
            SampleFormat::U16 => 2,
            SampleFormat::F32 => 4,
        }
    }

    /// Returns the size in bytes of a sample of this format.
    #[inline]
    pub fn sample_size(&self) -> (size: usize)
        ensures
            size == self.width(),
    {
        match *self {
            SampleFormat::I16 => 2,
            SampleFormat::U16 => 2,
            SampleFormat::F32 => 4,
        }
    }
}

} // verus!
