//! Optional values: one tag byte, then the value if there is one.

use vstd::prelude::*;
use crate::codec::Type;
use crate::error::Error;
use crate::source::{lemma_rest_of_rest, Source};

verus! {

impl<T: Type> Type for Option<T> {
    type Model = Option<T::Model>;

    open spec fn model(&self) -> Option<T::Model> {
        match self {
            Some(x) => Some(x.model()),
            None => None,
        }
    }

    open spec fn representable(m: Option<T::Model>) -> bool {
        match m {
            Some(x) => T::representable(x),
            None => true,
        }
    }

    open spec fn decodable() -> bool {
        T::decodable()
    }

    open spec fn encoding(m: Option<T::Model>) -> Seq<u8> {
        match m {
            Some(x) => seq![255u8] + T::encoding(x),
            None => seq![0u8],
        }
    }

    open spec fn decoding(s: Seq<u8>) -> Result<(Option<T::Model>, nat), Error> {
        if s.len() == 0 {
            Err(Error::UnexpectedEof)
        } else if s[0] == 0 {
            Ok((None, 1nat))
        } else {
            match T::decoding(s.skip(1)) {
                Ok((x, k)) => Ok((Some(x), k + 1)),
                Err(e) => Err(e),
            }
        }
    }

    fn encode_bin(&self, dest: &mut Vec<u8>) -> (n: usize) {
        match self {
            None => 0u8.encode_bin(dest),
            Some(x) => {
                let n0 = 255u8.encode_bin(dest);
                let n1 = x.encode_bin(dest);
                proof {
                    assert(dest@.len() == dest.len());
                }
                n0 + n1
            },
        }
    }

    fn decode_bin(src: &mut Source) -> (r: Result<Self, Error>) {
        let tag = u8::decode_bin(src)?;
        if tag == 0 {
            Ok(None)
        } else {
            let ghost mid = src@;
            let r = T::decode_bin(src);
            proof {
                lemma_rest_of_rest(src@, mid, old(src)@);
            }
            match r {
                Ok(x) => Ok(Some(x)),
                Err(e) => Err(e),
            }
        }
    }

    proof fn lemma_round_trip(m: Option<T::Model>, rest: Seq<u8>) {
        let s = Self::encoding(m) + rest;
        match m {
            Some(x) => {
                assert(s.skip(1) =~= T::encoding(x) + rest);
                T::lemma_round_trip(x, rest);
            },
            None => {},
        }
    }
}

/// An absent value is the single byte zero.  A present value is the byte 255
/// and then the value's own wire form.
pub proof fn lemma_option_tagging<T: Type>(x: T::Model)
    ensures
        <Option<T> as Type>::encoding(None) == seq![0u8],
        <Option<T> as Type>::encoding(Some(x)) == seq![255u8] + T::encoding(x),
{
}

} // verus!
