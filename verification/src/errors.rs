//! The errors of the encoder.
use vstd::prelude::*;

verus! {

/// What can go wrong while building a QR symbol.
#[derive(Debug, PartialEq, Eq, Structural)]
pub enum QrError {
    /// A version number outside 1..=40 was asked for.
    InvalidVersion(usize),
    /// The input needs more data bits than any version can hold.
    InputTooLong,
}

} // verus!
