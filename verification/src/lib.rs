//! Conversions between the three sample representations of PCM audio:
//! signed 16-bit, unsigned 16-bit and 32-bit IEEE 754 floating point.

pub mod buffer;
pub mod by_division;
pub mod float32;
pub mod float_convert;
pub mod format;
pub mod laws;
pub mod rounding;
pub mod sample;

pub use buffer::convert_buffer;
pub use by_division::ToF32New;
pub use float32::Float32;
pub use format::SampleFormat;
pub use sample::FromSample;
pub use sample::Sample;
