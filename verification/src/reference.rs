//! References: encoded as what they point to, and never decoded.

use vstd::prelude::*;
use crate::codec::Type;
use crate::error::Error;
use crate::source::{lemma_rest_of_self, Source};

verus! {

impl<'a, T: Type> Type for &'a T {
    type Model = T::Model;

    open spec fn model(&self) -> T::Model {
        (**self).model()
    }

    open spec fn representable(m: T::Model) -> bool {
        T::representable(m)
    }

    open spec fn decodable() -> bool {
        false
    }

    open spec fn encoding(m: T::Model) -> Seq<u8> {
        T::encoding(m)
    }

    open spec fn decoding(s: Seq<u8>) -> Result<(T::Model, nat), Error> {
        Err(Error::InvalidData)
    }

    fn encode_bin(&self, dest: &mut Vec<u8>) -> (n: usize) {
        (**self).encode_bin(dest)
    }

    fn decode_bin(src: &mut Source) -> (r: Result<Self, Error>) {
        proof {
            lemma_rest_of_self(src@);
        }
        Err(Error::InvalidData)
    }

    proof fn lemma_round_trip(m: T::Model, rest: Seq<u8>) {
    }
}

} // verus!
