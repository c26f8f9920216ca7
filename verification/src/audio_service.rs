//! Turning decoded mp3 frames into the samples a channel's splitter hears.

use vstd::prelude::*;

verus! {

/// How many seconds a source waits before reconnecting to its stream.
pub const RECONNECT_WAIT_SECS: u64 = 5;

/// How many recent messages a new listener of the metadata stream receives.
pub const METADATA_SENT_ON_INITIAL_LOAD: usize = 400;

/// A sample in libmad's fixed-point format (sign, 3 integer bits, 28
/// fractional bits) as a full-scale `i32`: scaled by 8, clipped to the
/// `i32` range.
pub open spec fn fixed_to_sample(raw: i32) -> i32 {
    if raw > 268_435_455 {
        i32::MAX
    } else if raw < -268_435_456 {
        i32::MIN
    } else {
        (raw * 8) as i32
    }
}

/// Calls `simplemad::MadFixed32::to_i32` on the fixed-point value `raw`.
/// Its source clips values above `i32::MAX / 8` to `i32::MAX`, values below
/// `i32::MIN / 8` to `i32::MIN`, and multiplies the others by 8; the
/// contract states exactly that.
#[verifier::external_body]
fn mad_fixed_to_i32(raw: i32) -> (sample: i32)
    ensures
        sample == fixed_to_sample(raw),
{
    simplemad::MadFixed32::new(raw).to_i32()
}

/// The samples of the first channel of a decoded frame, whose channels hold
/// fixed-point values, as full-scale `i32` samples.
pub fn frame_samples(channels: &[Vec<i32>]) -> (samples: Vec<i32>)
    requires
        channels@.len() > 0,
    ensures
        samples@.len() == channels@[0]@.len(),
        forall|i: int|
            0 <= i < samples@.len() ==> samples@[i] == fixed_to_sample(#[trigger] channels@[0]@[i]),
{
    let first: &Vec<i32> = &channels[0];
    let mut samples: Vec<i32> = Vec::with_capacity(first.len());
    let mut i: usize = 0;
    while i < first.len()
        invariant
            i <= first@.len(),
            first@ == channels@[0]@,
            samples@.len() == i,
            forall|j: int| 0 <= j < i ==> samples@[j] == fixed_to_sample(#[trigger] first@[j]),
        decreases first@.len() - i,
    {
        samples.push(mad_fixed_to_i32(first[i]));
        i += 1;
    }
    samples
}

} // verus!
