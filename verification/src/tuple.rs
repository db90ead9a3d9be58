//! Pairs and triples: the components one after another, with no prefix.

use vstd::prelude::*;
use crate::codec::Type;
use crate::error::Error;
use crate::source::{lemma_rest_of_rest, Source};

verus! {

/// Two values side by side.
pub type Pair<T, U> = (T, U);

/// Three values side by side.
pub type Triple<T, U, V> = (T, U, V);

impl<T: Type, U: Type> Type for (T, U) {
    type Model = (T::Model, U::Model);

    open spec fn model(&self) -> (T::Model, U::Model) {
        (self.0.model(), self.1.model())
    }

    open spec fn representable(m: (T::Model, U::Model)) -> bool {
        T::representable(m.0) && U::representable(m.1)
    }

    open spec fn decodable() -> bool {
        T::decodable() && U::decodable()
    }

    open spec fn encoding(m: (T::Model, U::Model)) -> Seq<u8> {
        T::encoding(m.0) + U::encoding(m.1)
    }

    open spec fn decoding(s: Seq<u8>) -> Result<((T::Model, U::Model), nat), Error> {
        match T::decoding(s) {
            Ok((a, k1)) => match U::decoding(s.skip(k1 as int)) {
                Ok((b, k2)) => Ok(((a, b), k1 + k2)),
                Err(e) => Err(e),
            },
            Err(e) => Err(e),
        }
    }

    fn encode_bin(&self, dest: &mut Vec<u8>) -> (n: usize) {
        let n0 = self.0.encode_bin(dest);
        let n1 = self.1.encode_bin(dest);
        proof {
            assert(dest@.len() == dest.len());
        }
        n0 + n1
    }

    fn decode_bin(src: &mut Source) -> (r: Result<Self, Error>) {
        let a = T::decode_bin(src)?;
        let ghost mid = src@;
        let b = match U::decode_bin(src) {
            Ok(b) => b,
            Err(e) => {
                proof {
                    lemma_rest_of_rest(src@, mid, old(src)@);
                }
                return Err(e);
            },
        };
        proof {
            lemma_rest_of_rest(src@, mid, old(src)@);
        }
        Ok((a, b))
    }

    proof fn lemma_round_trip(m: (T::Model, U::Model), rest: Seq<u8>) {
        let e0 = T::encoding(m.0);
        let e1 = U::encoding(m.1);
        let s = Self::encoding(m) + rest;
        assert(s =~= e0 + (e1 + rest));
        T::lemma_round_trip(m.0, e1 + rest);
        assert(s.skip(e0.len() as int) =~= e1 + rest);
        U::lemma_round_trip(m.1, rest);
    }
}

impl<T: Type, U: Type, V: Type> Type for (T, U, V) {
    type Model = (T::Model, U::Model, V::Model);

    open spec fn model(&self) -> (T::Model, U::Model, V::Model) {
        (self.0.model(), self.1.model(), self.2.model())
    }

    open spec fn representable(m: (T::Model, U::Model, V::Model)) -> bool {
        T::representable(m.0) && U::representable(m.1) && V::representable(m.2)
    }

    open spec fn decodable() -> bool {
        T::decodable() && U::decodable() && V::decodable()
    }

    open spec fn encoding(m: (T::Model, U::Model, V::Model)) -> Seq<u8> {
        T::encoding(m.0) + U::encoding(m.1) + V::encoding(m.2)
    }

    open spec fn decoding(s: Seq<u8>) -> Result<((T::Model, U::Model, V::Model), nat), Error> {
        match T::decoding(s) {
            Ok((a, k1)) => match U::decoding(s.skip(k1 as int)) {
                Ok((b, k2)) => match V::decoding(s.skip(k1 as int).skip(k2 as int)) {
                    Ok((c, k3)) => Ok(((a, b, c), k1 + k2 + k3)),
                    Err(e) => Err(e),
                },
                Err(e) => Err(e),
            },
            Err(e) => Err(e),
        }
    }

    fn encode_bin(&self, dest: &mut Vec<u8>) -> (n: usize) {
        let n0 = self.0.encode_bin(dest);
        let n1 = self.1.encode_bin(dest);
        proof {
            assert(dest@.len() == dest.len());
        }
        let n01 = n0 + n1;
        let n2 = self.2.encode_bin(dest);
        proof {
            assert(dest@.len() == dest.len());
        }
        n01 + n2
    }

    fn decode_bin(src: &mut Source) -> (r: Result<Self, Error>) {
        let a = T::decode_bin(src)?;
        let ghost mid1 = src@;
        let b = match U::decode_bin(src) {
            Ok(b) => b,
            Err(e) => {
                proof {
                    lemma_rest_of_rest(src@, mid1, old(src)@);
                }
                return Err(e);
            },
        };
        let ghost mid2 = src@;
        proof {
            lemma_rest_of_rest(mid2, mid1, old(src)@);
        }
        let c = match V::decode_bin(src) {
            Ok(c) => c,
            Err(e) => {
                proof {
                    lemma_rest_of_rest(src@, mid2, old(src)@);
                }
                return Err(e);
            },
        };
        proof {
            lemma_rest_of_rest(src@, mid2, old(src)@);
        }
        Ok((a, b, c))
    }

    proof fn lemma_round_trip(m: (T::Model, U::Model, V::Model), rest: Seq<u8>) {
        let e0 = T::encoding(m.0);
        let e1 = U::encoding(m.1);
        let e2 = V::encoding(m.2);
        let s = Self::encoding(m) + rest;
        assert(s =~= e0 + (e1 + (e2 + rest)));
        T::lemma_round_trip(m.0, e1 + (e2 + rest));
        assert(s.skip(e0.len() as int) =~= e1 + (e2 + rest));
        U::lemma_round_trip(m.1, e2 + rest);
        assert(s.skip(e0.len() as int).skip(e1.len() as int) =~= e2 + rest);
        V::lemma_round_trip(m.2, rest);
    }
}

} // verus!
