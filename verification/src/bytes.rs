//! Raw byte buffers: the byte count as a varint, then the bytes.

use vstd::prelude::*;
use vstd::slice::slice_to_vec;
use crate::codec::Type;
use crate::error::Error;
use crate::source::{is_rest_of, lemma_rest_of_rest, Source};
use crate::varint::{
    lemma_uint_of_nat, lemma_varint_round_trip, uint_of_nat, varint_bytes, varint_decoding,
};

verus! {

/// The wire form of a payload of bytes: its length, then the payload.
pub open spec fn prefixed(payload: Seq<u8>) -> Seq<u8> {
    varint_bytes(payload.len()) + payload
}

/// What a decoder of a length-prefixed payload makes of `s`: the payload
/// and the number of bytes that hold length and payload.  Where fewer bytes
/// follow the length than it announces, the input has ended too soon.
pub open spec fn prefixed_decoding(s: Seq<u8>) -> Result<(Seq<u8>, nat), Error> {
    match varint_decoding(s) {
        Ok((v, k)) => {
            let n = uint_of_nat(v) as nat;
            if s.len() - k < n {
                Err(Error::UnexpectedEof)
            } else {
                Ok((s.subrange(k as int, (k + n) as int), k + n))
            }
        },
        Err(e) => Err(e),
    }
}

/// Decoding a length-prefixed payload gives the payload back, whatever
/// follows it.
pub proof fn lemma_prefixed_round_trip(payload: Seq<u8>, rest: Seq<u8>)
    requires
        payload.len() <= usize::MAX,
    ensures
        prefixed_decoding(prefixed(payload) + rest) == Ok::<(Seq<u8>, nat), Error>(
            (payload, prefixed(payload).len()),
        ),
{
    let n = payload.len();
    let s = prefixed(payload) + rest;
    let k = varint_bytes(n).len();
    assert(s =~= varint_bytes(n) + (payload + rest));
    lemma_varint_round_trip(n, payload + rest);
    lemma_uint_of_nat(n as usize);
    assert(s.subrange(k as int, (k + n) as int) =~= payload);
}

/// A payload cut short is an unexpected end of input: where the length
/// decodes and announces more bytes than follow it, decoding fails so.
pub proof fn lemma_prefixed_truncated(s: Seq<u8>)
    requires
        varint_decoding(s) matches Ok((v, k)) && s.len() - k < uint_of_nat(v),
    ensures
        prefixed_decoding(s) == Err::<(Seq<u8>, nat), Error>(Error::UnexpectedEof),
{
}

/// Appends the length of `payload` and then `payload` to `dest`, and
/// returns the number of bytes appended.
pub(crate) fn write_prefixed(payload: &[u8], dest: &mut Vec<u8>) -> (n: usize)
    ensures
        final(dest)@ == old(dest)@ + prefixed(payload@),
        n == prefixed(payload@).len(),
{
    let i = payload.len();
    let n = i.encode_bin(dest);
    dest.extend_from_slice(payload);
    proof {
        assert(dest@.len() == dest.len());
    }
    n + i
}

/// Reads a length and then that many bytes.
pub(crate) fn read_prefixed<'a>(src: &mut Source<'a>) -> (r: Result<&'a [u8], Error>)
    ensures
        is_rest_of(final(src)@, old(src)@),
        match prefixed_decoding(old(src)@) {
            Ok((payload, k)) => {
                &&& r matches Ok(bytes)
                &&& bytes@ == payload
                &&& k <= old(src)@.len()
                &&& final(src)@ == old(src)@.skip(k as int)
            },
            Err(e) => r == Err::<&[u8], Error>(e),
        },
{
    let n = usize::decode_bin(src)?;
    let ghost mid = src@;
    let bytes = src.read_exact(n)?;
    proof {
        lemma_rest_of_rest(src@, mid, old(src)@);
    }
    Ok(bytes)
}

/// A byte buffer, borrowed from the caller or owned.  Both encode alike, and
/// decoding gives an owned one.
pub enum Bytes<'a> {
    /// Bytes that the caller owns.
    Ref(&'a [u8]),
    /// Bytes that this value owns.
    Owned(Vec<u8>),
}

impl<'a> View for Bytes<'a> {
    type V = Seq<u8>;

    open spec fn view(&self) -> Seq<u8> {
        match self {
            Bytes::Ref(b) => b@,
            Bytes::Owned(b) => b@,
        }
    }
}

impl<'a> Bytes<'a> {
    /// The bytes, whichever variant holds them.
    pub fn as_ref(&self) -> (b: &[u8])
        ensures
            b@ == self@,
    {
        match self {
            Bytes::Ref(b) => b,
            Bytes::Owned(b) => b.as_slice(),
        }
    }

    /// The number of bytes.
    pub fn len(&self) -> (n: usize)
        ensures
            n == self@.len(),
    {
        self.as_ref().len()
    }
}

impl<'a> Type for Bytes<'a> {
    type Model = Seq<u8>;

    open spec fn model(&self) -> Seq<u8> {
        self@
    }

    open spec fn representable(m: Seq<u8>) -> bool {
        m.len() <= usize::MAX
    }

    open spec fn decodable() -> bool {
        true
    }

    open spec fn encoding(m: Seq<u8>) -> Seq<u8> {
        prefixed(m)
    }

    open spec fn decoding(s: Seq<u8>) -> Result<(Seq<u8>, nat), Error> {
        prefixed_decoding(s)
    }

    fn encode_bin(&self, dest: &mut Vec<u8>) -> (n: usize) {
        write_prefixed(self.as_ref(), dest)
    }

    fn decode_bin(src: &mut Source) -> (r: Result<Self, Error>)
        ensures
            r matches Ok(v) ==> v is Owned,
    {
        let bytes = read_prefixed(src)?;
        Ok(Bytes::Owned(slice_to_vec(bytes)))
    }

    proof fn lemma_round_trip(m: Seq<u8>, rest: Seq<u8>) {
        lemma_prefixed_round_trip(m, rest);
    }
}

} // verus!
