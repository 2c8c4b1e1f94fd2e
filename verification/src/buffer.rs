//! Conversion of a whole buffer of samples.

use vstd::prelude::*;
use crate::sample::{FromSample, Sample};

verus! {

/// Converts every sample of `input` to the type of `output`'s items and
/// leaves the results in `output`, in the same order, in place of what it
/// held. Each result is that of converting its sample alone.
pub fn convert_buffer<S: Sample, T: FromSample>(input: &[S], output: &mut Vec<T>)
    ensures
        final(output)@.len() == input@.len(),
        forall|i: int|
            0 <= i < input@.len() ==> final(output)@[i] == T::pick(
                (#[trigger] input@[i]).as_i16(),
                input@[i].as_u16(),
                input@[i].as_float(),
            ),
{
    output.clear();
    let mut i: usize = 0;
    while i < input.len()
        invariant
            i <= input@.len(),
            output@.len() == i,
            forall|k: int|
                0 <= k < i ==> output@[k] == T::pick(
                    (#[trigger] input@[k]).as_i16(),
                    input@[k].as_u16(),
                    input@[k].as_float(),
                ),
        decreases input@.len() - i,
    {
        let converted: T = T::from(&input[i]);
        output.push(converted);
        i += 1;
    }
}

} // verus!
