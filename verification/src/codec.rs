//! The capability that every encodable type has.

use vstd::prelude::*;
use crate::error::Error;
use crate::source::{is_rest_of, Source};

verus! {

/// A type with a wire form.
///
/// Each implementation names the mathematical value that a value of the type
/// stands for (its model) and gives two specification functions over it: the
/// wire form of a model, and what a decoder makes of a byte sequence.  The
/// executable `encode_bin` and `decode_bin` are held to those two functions,
/// and every implementation proves that decoding undoes encoding.
pub trait Type: Sized {
    /// The mathematical value that a value of this type stands for.
    type Model;

    /// The model of this value.
    spec fn model(&self) -> Self::Model;

    /// Whether a value with model `m` can exist: each of its lengths fits
    /// the platform's unsigned integer.
    spec fn representable(m: Self::Model) -> bool;

    /// Whether values of this type can be decoded. Borrowing types cannot:
    /// a decoder has no storage of the caller's to borrow from.
    spec fn decodable() -> bool;

    /// The wire form of a value with model `m`.
    spec fn encoding(m: Self::Model) -> Seq<u8>;

    /// What a decoder makes of the bytes `s`: the model of the value at
    /// their start and the number of bytes that hold it, or the error.
    spec fn decoding(s: Seq<u8>) -> Result<(Self::Model, nat), Error>;

    /// Appends the wire form of this value to `dest` and returns the number
    /// of bytes appended.
    fn encode_bin(&self, dest: &mut Vec<u8>) -> (n: usize)
        ensures
            Self::representable(self.model()),
            final(dest)@ == old(dest)@ + Self::encoding(self.model()),
            n == Self::encoding(self.model()).len(),
    ;

    /// Reads one value from the start of `src`.  On success the source
    /// stands just behind the bytes of the value.  On failure nothing is
    /// returned but the error, and the source has only moved forward.
    fn decode_bin(src: &mut Source) -> (r: Result<Self, Error>)
        ensures
            is_rest_of(final(src)@, old(src)@),
            match Self::decoding(old(src)@) {
                Ok((m, k)) => {
                    &&& r matches Ok(v)
                    &&& v.model() == m
                    &&& k <= old(src)@.len()
                    &&& final(src)@ == old(src)@.skip(k as int)
                },
                Err(e) => r matches Err(x) && x == e,
            },
    ;

    /// For a type that can be decoded: decoding the wire form of a value
    /// gives the value back and consumes exactly its bytes, whatever follows
    /// them.
    proof fn lemma_round_trip(m: Self::Model, rest: Seq<u8>)
        requires
            Self::representable(m),
        ensures
            Self::decodable() ==> Self::decoding(Self::encoding(m) + rest) == Ok::<
                (Self::Model, nat),
                Error,
            >((m, Self::encoding(m).len())),
    ;
}

} // verus!
