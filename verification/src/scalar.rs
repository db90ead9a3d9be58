//! Booleans, single bytes and the unit value.

use vstd::prelude::*;
use crate::codec::Type;
use crate::error::Error;
use crate::source::Source;

verus! {

impl Type for u8 {
    type Model = u8;

    open spec fn model(&self) -> u8 {
        *self
    }

    open spec fn representable(m: u8) -> bool {
        true
    }

    open spec fn decodable() -> bool {
        true
    }

    open spec fn encoding(m: u8) -> Seq<u8> {
        seq![m]
    }

    open spec fn decoding(s: Seq<u8>) -> Result<(u8, nat), Error> {
        if s.len() == 0 {
            Err(Error::UnexpectedEof)
        } else {
            Ok((s[0], 1nat))
        }
    }

    fn encode_bin(&self, dest: &mut Vec<u8>) -> (n: usize) {
        dest.push(*self);
        1
    }

    fn decode_bin(src: &mut Source) -> (r: Result<Self, Error>) {
        src.read_u8()
    }

    proof fn lemma_round_trip(m: u8, rest: Seq<u8>) {
    }
}

impl Type for bool {
    type Model = bool;

    open spec fn model(&self) -> bool {
        *self
    }

    open spec fn representable(m: bool) -> bool {
        true
    }

    open spec fn decodable() -> bool {
        true
    }

    open spec fn encoding(m: bool) -> Seq<u8> {
        if m {
            seq![255u8]
        } else {
            seq![0u8]
        }
    }

    open spec fn decoding(s: Seq<u8>) -> Result<(bool, nat), Error> {
        if s.len() == 0 {
            Err(Error::UnexpectedEof)
        } else {
            Ok((s[0] != 0, 1nat))
        }
    }

    fn encode_bin(&self, dest: &mut Vec<u8>) -> (n: usize) {
        let tag: u8 = if *self {
            255
        } else {
            0
        };
        tag.encode_bin(dest)
    }

    fn decode_bin(src: &mut Source) -> (r: Result<Self, Error>) {
        let x = u8::decode_bin(src)?;
        Ok(x != 0)
    }

    proof fn lemma_round_trip(m: bool, rest: Seq<u8>) {
    }
}

impl Type for () {
    type Model = ();

    open spec fn model(&self) -> () {
        ()
    }

    open spec fn representable(m: ()) -> bool {
        true
    }

    open spec fn decodable() -> bool {
        true
    }

    open spec fn encoding(m: ()) -> Seq<u8> {
        Seq::empty()
    }

    open spec fn decoding(s: Seq<u8>) -> Result<((), nat), Error> {
        Ok(((), 0nat))
    }

    fn encode_bin(&self, dest: &mut Vec<u8>) -> (n: usize) {
        0
    }

    fn decode_bin(src: &mut Source) -> (r: Result<Self, Error>) {
        Ok(())
    }

    proof fn lemma_round_trip(m: (), rest: Seq<u8>) {
    }
}

/// `true` is written as the byte 255 and `false` as the byte 0, and every
/// byte but 0 is read as `true`.
pub proof fn lemma_bool_bytes(b: u8, rest: Seq<u8>)
    ensures
        <bool as Type>::encoding(true) == seq![255u8],
        <bool as Type>::encoding(false) == seq![0u8],
        <bool as Type>::decoding(seq![b] + rest) == Ok::<(bool, nat), Error>((b != 0, 1nat)),
{
}

/// Nothing can be read from no bytes but the unit value: a byte or a
/// boolean cut short is an unexpected end of input.
pub proof fn lemma_single_byte_truncated()
    ensures
        <u8 as Type>::decoding(Seq::empty()) == Err::<(u8, nat), Error>(Error::UnexpectedEof),
        <bool as Type>::decoding(Seq::empty()) == Err::<(bool, nat), Error>(Error::UnexpectedEof),
{
}

} // verus!
