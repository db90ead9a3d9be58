//! What can go wrong while decoding.

use vstd::prelude::*;

verus! {

/// The reason a decode failed.
#[derive(Clone, Copy, Debug, PartialEq, Eq, Structural)]
pub enum Error {
    /// The source ran out of bytes before the value was complete.
    UnexpectedEof,
    /// The bytes do not form a value of the type asked for.
    InvalidData,
}

} // verus!
