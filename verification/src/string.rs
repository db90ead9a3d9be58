//! Text: the byte length of its UTF-8 form as a varint, then those bytes.

use vstd::prelude::*;
use vstd::slice::slice_to_vec;
use vstd::utf8::{
    decode_utf8, encode_utf8, encode_utf8_decode_utf8, encode_utf8_valid_utf8, valid_utf8,
};
use crate::bytes::{
    lemma_prefixed_round_trip, prefixed, prefixed_decoding, read_prefixed, write_prefixed,
};
use crate::codec::Type;
use crate::error::Error;
use crate::source::Source;
use crate::varint::{uint_of_nat, varint_decoding};

verus! {

/// The error of `String::from_utf8`, carried through and never looked into.
#[verifier::external_type_specification]
#[verifier::external_body]
pub struct ExFromUtf8Error(std::string::FromUtf8Error);

/// `String::from_utf8`, which turns bytes into text without copying them.
/// Believed of it, as its documentation says: it succeeds exactly on
/// well-formed UTF-8, and the text it returns is the one that those bytes
/// spell.
#[verifier::external_body]
fn string_from_utf8(bytes: Vec<u8>) -> (r: Result<String, std::string::FromUtf8Error>)
    ensures
        r is Ok <==> valid_utf8(bytes@),
        r matches Ok(s) ==> s@ == decode_utf8(bytes@),
{
    String::from_utf8(bytes)
}

/// The wire form of the text `chars`.
pub open spec fn text_encoding(chars: Seq<char>) -> Seq<u8> {
    prefixed(encode_utf8(chars))
}

/// What a decoder of text makes of `s`: a length-prefixed payload that must
/// be well-formed UTF-8.
pub open spec fn text_decoding(s: Seq<u8>) -> Result<(Seq<char>, nat), Error> {
    match prefixed_decoding(s) {
        Ok((payload, k)) => {
            if valid_utf8(payload) {
                Ok((decode_utf8(payload), k))
            } else {
                Err(Error::InvalidData)
            }
        },
        Err(e) => Err(e),
    }
}

/// Whether text is short enough to exist: its UTF-8 form has a length that
/// fits the platform's unsigned integer.
pub open spec fn text_representable(chars: Seq<char>) -> bool {
    encode_utf8(chars).len() <= usize::MAX
}

/// Decoding encoded text gives the text back, whatever follows it.
pub proof fn lemma_text_round_trip(chars: Seq<char>, rest: Seq<u8>)
    requires
        text_representable(chars),
    ensures
        text_decoding(text_encoding(chars) + rest) == Ok::<(Seq<char>, nat), Error>(
            (chars, text_encoding(chars).len()),
        ),
{
    lemma_prefixed_round_trip(encode_utf8(chars), rest);
    encode_utf8_valid_utf8(chars);
    encode_utf8_decode_utf8(chars);
}

/// A payload that is not well-formed UTF-8 is rejected as invalid data.
pub proof fn lemma_text_malformed(s: Seq<u8>)
    requires
        prefixed_decoding(s) matches Ok((payload, k)) && !valid_utf8(payload),
    ensures
        text_decoding(s) == Err::<(Seq<char>, nat), Error>(Error::InvalidData),
{
}

/// Text cut short is an unexpected end of input: where the length decodes
/// and announces more bytes than follow it, decoding fails so.
pub proof fn lemma_text_truncated(s: Seq<u8>)
    requires
        varint_decoding(s) matches Ok((v, k)) && s.len() - k < uint_of_nat(v),
    ensures
        text_decoding(s) == Err::<(Seq<char>, nat), Error>(Error::UnexpectedEof),
{
}

/// Appends the wire form of `text` to `dest`.
fn write_text(text: &str, dest: &mut Vec<u8>) -> (n: usize)
    ensures
        text_representable(text@),
        final(dest)@ == old(dest)@ + text_encoding(text@),
        n == text_encoding(text@).len(),
{
    write_prefixed(text.as_bytes(), dest)
}

/// Text, borrowed from the caller or owned.  Both encode alike, and decoding
/// gives owned text.
pub enum Str<'a> {
    /// Text that the caller owns.
    Ref(&'a str),
    /// Text that this value owns.
    Owned(String),
}

impl<'a> View for Str<'a> {
    type V = Seq<char>;

    open spec fn view(&self) -> Seq<char> {
        match self {
            Str::Ref(s) => s@,
            Str::Owned(s) => s@,
        }
    }
}

impl<'a> Str<'a> {
    /// The text, whichever variant holds it.
    pub fn as_ref(&self) -> (s: &str)
        ensures
            s@ == self@,
    {
        match self {
            Str::Ref(s) => s,
            Str::Owned(s) => s.as_str(),
        }
    }

    /// The length of the text in bytes of UTF-8.
    pub fn len(&self) -> (n: usize)
        ensures
            n == encode_utf8(self@).len(),
    {
        self.as_ref().as_bytes().len()
    }
}

impl Type for String {
    type Model = Seq<char>;

    open spec fn model(&self) -> Seq<char> {
        self@
    }

    open spec fn representable(m: Seq<char>) -> bool {
        text_representable(m)
    }

    open spec fn decodable() -> bool {
        true
    }

    open spec fn encoding(m: Seq<char>) -> Seq<u8> {
        text_encoding(m)
    }

    open spec fn decoding(s: Seq<u8>) -> Result<(Seq<char>, nat), Error> {
        text_decoding(s)
    }

    fn encode_bin(&self, dest: &mut Vec<u8>) -> (n: usize) {
        write_text(self.as_str(), dest)
    }

    fn decode_bin(src: &mut Source) -> (r: Result<Self, Error>) {
        let bytes = read_prefixed(src)?;
        match string_from_utf8(slice_to_vec(bytes)) {
            Ok(text) => Ok(text),
            Err(_) => Err(Error::InvalidData),
        }
    }

    proof fn lemma_round_trip(m: Seq<char>, rest: Seq<u8>) {
        lemma_text_round_trip(m, rest);
    }
}

impl<'a> Type for Str<'a> {
    type Model = Seq<char>;

    open spec fn model(&self) -> Seq<char> {
        self@
    }

    open spec fn representable(m: Seq<char>) -> bool {
        text_representable(m)
    }

    open spec fn decodable() -> bool {
        true
    }

    open spec fn encoding(m: Seq<char>) -> Seq<u8> {
        text_encoding(m)
    }

    open spec fn decoding(s: Seq<u8>) -> Result<(Seq<char>, nat), Error> {
        text_decoding(s)
    }

    fn encode_bin(&self, dest: &mut Vec<u8>) -> (n: usize) {
        write_text(self.as_ref(), dest)
    }

    fn decode_bin(src: &mut Source) -> (r: Result<Self, Error>)
        ensures
            r matches Ok(v) ==> v is Owned,
    {
        let text = String::decode_bin(src)?;
        Ok(Str::Owned(text))
    }

    proof fn lemma_round_trip(m: Seq<char>, rest: Seq<u8>) {
        lemma_text_round_trip(m, rest);
    }
}

impl<'a> Type for &'a str {
    type Model = Seq<char>;

    open spec fn model(&self) -> Seq<char> {
        self@
    }

    open spec fn representable(m: Seq<char>) -> bool {
        text_representable(m)
    }

    open spec fn decodable() -> bool {
        false
    }

    open spec fn encoding(m: Seq<char>) -> Seq<u8> {
        text_encoding(m)
    }

    open spec fn decoding(s: Seq<u8>) -> Result<(Seq<char>, nat), Error> {
        Err(Error::InvalidData)
    }

    fn encode_bin(&self, dest: &mut Vec<u8>) -> (n: usize) {
        write_text(*self, dest)
    }

    fn decode_bin(src: &mut Source) -> (r: Result<Self, Error>) {
        proof {
            crate::source::lemma_rest_of_self(src@);
        }
        Err(Error::InvalidData)
    }

    proof fn lemma_round_trip(m: Seq<char>, rest: Seq<u8>) {
    }
}

} // verus!
