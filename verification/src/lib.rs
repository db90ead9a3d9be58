//! A compact, length-prefixed binary codec.
//!
//! Every encodable type implements [`Type`]: `encode_bin` appends the wire
//! form of a value to a byte vector, `decode_bin` reads one value back from
//! a byte [`Source`].  Each implementation gives its wire form and what
//! its decoder does as specification functions, the executable code is
//! verified against them, and each proves that decoding undoes encoding.
//!
//! | value | wire form |
//! |---|---|
//! | `isize`, `usize` | varint: seven bits a byte, low group first |
//! | `bool` | one byte, `0xFF` or `0x00`; any byte but zero reads as `true` |
//! | `u8` | one byte |
//! | `u16`, `u32`, `u64`, `i32`, `i64`, [`Float`] | big-endian, 2, 4 or 8 bytes |
//! | `()` | nothing |
//! | `String`, `&str`, [`Str`], [`Bytes`] | varint byte length, then the bytes |
//! | `Vec`, [`Array`] | varint count, then the elements |
//! | `BTreeMap` | varint count, then key and value of each entry by ascending key |
//! | `Option` | `0x00`, or `0xFF` and the value |
//! | pairs, triples | the components, one after another |
//! | `&T` | as `T`; cannot be decoded |
//!
//! Decoding fails with [`Error::UnexpectedEof`] where the bytes end too
//! soon and with [`Error::InvalidData`] where they spell no value of the
//! type; it never panics.
//!
//! A negative platform-width integer is written as the varint of its
//! unsigned 64-bit bit pattern, in ten bytes.

pub mod array;
pub mod bytes;
pub mod codec;
pub mod error;
pub mod fixed;
pub mod key;
pub mod map;
pub mod option;
pub mod reference;
pub mod scalar;
pub mod source;
pub mod string;
pub mod tuple;
pub mod varint;

pub use array::Array;
pub use bytes::Bytes;
pub use codec::Type;
pub use error::Error;
pub use fixed::Float;
pub use key::Key;
pub use source::Source;
pub use string::Str;
pub use tuple::{Pair, Triple};
pub use varint::{decode_int, encode_int};

use vstd::prelude::*;

verus! {

/// The platform-width signed integer of the wire format.
pub type Int = isize;

} // verus!
