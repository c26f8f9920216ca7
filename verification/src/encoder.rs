//! The decisions around each call of the mp3 encoding library: how large an
//! output buffer to offer first, and, from the library's answer, which bytes
//! to write out or how large a buffer to offer next.
//!
//! The library itself (LAME) is called by the caller, which offers a buffer
//! of `mp3_buffer_size` bytes and hands the buffer and the answer to
//! `after_encode`, until that says to write or to give up.

use vstd::prelude::*;

verus! {

/// LAME's quality setting used for every encoder (0 best, 9 fastest).
pub const LAME_QUALITY: u8 = 3;

/// Output bit rate in kilobits per second.
pub const KILOBITRATE: i32 = 64;

/// The largest buffer the encoding library takes: its C interface counts
/// buffer bytes in a C `int` (and the Rust binding panics above that).
pub const MAX_MP3_BUFFER: usize = 2_147_483_647;

/// The output buffer offered first for `samples` PCM samples: `3 * samples
/// + 7200` bytes, above the `1.25 * samples + 7200` bytes that LAME's
/// documentation asks for.
pub open spec fn spec_mp3_buffer_size(samples: int) -> int {
    3 * samples + 7200
}

/// The first buffer always covers LAME's documented worst case for a block
/// of `samples` samples, `1.25 * samples + 7200` bytes, and grows by three
/// bytes per sample from 7200 bytes for an empty block.
pub proof fn lemma_first_buffer_covers_worst_case(samples: nat)
    ensures
        4 * spec_mp3_buffer_size(samples as int) >= 5 * samples + 28_800,
        spec_mp3_buffer_size(samples + 1int) == spec_mp3_buffer_size(samples as int) + 3,
        spec_mp3_buffer_size(0) == 7200,
{
}

pub fn mp3_buffer_size(samples: usize) -> (size: usize)
    requires
        spec_mp3_buffer_size(samples as int) <= MAX_MP3_BUFFER,
    ensures
        size == spec_mp3_buffer_size(samples as int),
        4 * size >= 5 * samples + 28_800,
{
    3 * samples + 7200
}

/// What an encoding call answered.
#[derive(Clone, Copy, Debug, PartialEq, Eq, Structural)]
pub enum EncodeResult {
    /// This many bytes of mp3 data were written at the start of the buffer.
    Encoded(usize),
    /// The buffer was too small for the output.
    OutputBufferTooSmall,
    /// Any other error.
    Failed,
}

/// What to do after an encoding call.
#[derive(Debug, PartialEq, Eq)]
pub enum EncodeStep {
    /// Write these bytes out: all the mp3 data of the block.
    Write(Vec<u8>),
    /// Encode the block again with a buffer of this size.
    Retry(usize),
    /// Give up: the encoder failed.
    Abort,
}

/// The step after an encoding call that was offered `buf` and answered
/// `result`: write the first `len` bytes of the buffer when it encoded `len`
/// bytes, retry with a buffer twice as large when it was too small, and give
/// up otherwise (also when the doubled size would exceed `MAX_MP3_BUFFER`,
/// or the answer claims more bytes than the buffer holds).
pub fn after_encode(buf: Vec<u8>, result: EncodeResult) -> (step: EncodeStep)
    ensures
        match result {
            EncodeResult::Encoded(len) => if len <= buf@.len() {
                step matches EncodeStep::Write(bytes) && bytes@ == buf@.take(len as int)
            } else {
                step is Abort
            },
            EncodeResult::OutputBufferTooSmall => if 2 * buf@.len() <= MAX_MP3_BUFFER {
                step matches EncodeStep::Retry(size) && size == 2 * buf@.len()
            } else {
                step is Abort
            },
            EncodeResult::Failed => step is Abort,
        },
{
    match result {
        EncodeResult::Encoded(len) => if len <= buf.len() {
            let mut bytes = buf;
            bytes.truncate(len);
            EncodeStep::Write(bytes)
        } else {
            EncodeStep::Abort
        },
        EncodeResult::OutputBufferTooSmall => if buf.len() <= MAX_MP3_BUFFER / 2 {
            EncodeStep::Retry(2 * buf.len())
        } else {
            EncodeStep::Abort
        },
        EncodeResult::Failed => EncodeStep::Abort,
    }
}

} // verus!
