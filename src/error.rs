use vstd::prelude::*;

verus! {

/// The ways in which an encode or decode call can fail.
#[derive(Clone, Copy, Debug, PartialEq, Eq, Structural)]
pub enum CodecError {
    /// The output buffer is smaller than the encoded stream.
    Capacity,
    /// The compressed stream is truncated, malformed, or does not match the
    /// declared count.
    DecodeCorruption,
    /// The identifiers handed to the encoder are not strictly ascending.
    InvalidInputOrder,
}

} // verus!
