//! Fixed-width integers: big-endian, as many bytes as the type is wide.
//! A signed integer is written as the unsigned integer with the same bits,
//! and so is a 64-bit floating-point number.

use vstd::prelude::*;
use crate::codec::Type;
use crate::error::Error;
use crate::source::{is_rest_of, Source};

verus! {

/// The low `width` bytes of `x`, most significant first.
pub open spec fn be_bytes(x: nat, width: nat) -> Seq<u8>
    decreases width,
{
    if width == 0 {
        Seq::empty()
    } else {
        be_bytes(x / 256, (width - 1) as nat).push((x % 256) as u8)
    }
}

/// The number that the bytes of `s` spell, most significant first.
pub open spec fn be_value(s: Seq<u8>) -> nat
    decreases s.len(),
{
    if s.len() == 0 {
        0
    } else {
        be_value(s.drop_last()) * 256 + s.last() as nat
    }
}

/// Whether `x` can be written in `width` bytes.
pub open spec fn fits_in(x: nat, width: nat) -> bool
    decreases width,
{
    if width == 0 {
        x == 0
    } else {
        fits_in(x / 256, (width - 1) as nat)
    }
}

/// What a decoder of a `width`-byte unsigned integer makes of `s`.
pub open spec fn be_decoding(s: Seq<u8>, width: nat) -> Result<(nat, nat), Error> {
    if s.len() < width {
        Err(Error::UnexpectedEof)
    } else {
        Ok((be_value(s.take(width as int)), width))
    }
}

/// `be_bytes` gives exactly `width` bytes.
pub proof fn lemma_be_bytes_len(x: nat, width: nat)
    ensures
        be_bytes(x, width).len() == width,
    decreases width,
{
    if width > 0 {
        lemma_be_bytes_len(x / 256, (width - 1) as nat);
    }
}

/// The bytes of a number that fits spell that number.
pub proof fn lemma_be_value_of_bytes(x: nat, width: nat)
    requires
        fits_in(x, width),
    ensures
        be_value(be_bytes(x, width)) == x,
    decreases width,
{
    if width > 0 {
        let head = be_bytes(x / 256, (width - 1) as nat);
        lemma_be_value_of_bytes(x / 256, (width - 1) as nat);
        assert(head.push((x % 256) as u8).drop_last() =~= head);
    }
}

/// Decoding the bytes of a number that fits gives the number back,
/// whatever follows them.
pub proof fn lemma_be_round_trip(x: nat, width: nat, rest: Seq<u8>)
    requires
        fits_in(x, width),
    ensures
        be_decoding(be_bytes(x, width) + rest, width) == Ok::<(nat, nat), Error>((x, width)),
        be_bytes(x, width).len() == width,
{
    lemma_be_bytes_len(x, width);
    lemma_be_value_of_bytes(x, width);
    assert((be_bytes(x, width) + rest).take(width as int) =~= be_bytes(x, width));
}

/// Appends the two bytes of `x`.
fn write_be16(x: u16, dest: &mut Vec<u8>)
    ensures
        final(dest)@ == old(dest)@ + be_bytes(x as nat, 2),
        fits_in(x as nat, 2),
{
    let b0: u8 = #[verifier::truncate] ((x >> 8) as u8);
    let b1: u8 = #[verifier::truncate] (x as u8);
    assert(b0 == x / 256 % 256 && b1 == x % 256 && x / 256 / 256 == 0) by (bit_vector)
        requires
            b0 == (x >> 8) as u8,
            b1 == x as u8,
    ;
    dest.push(b0);
    dest.push(b1);
    proof {
        reveal_with_fuel(be_bytes, 3);
        reveal_with_fuel(fits_in, 3);
    }
}

/// Appends the four bytes of `x`.
fn write_be32(x: u32, dest: &mut Vec<u8>)
    ensures
        final(dest)@ == old(dest)@ + be_bytes(x as nat, 4),
        fits_in(x as nat, 4),
{
    let b0: u8 = #[verifier::truncate] ((x >> 24) as u8);
    let b1: u8 = #[verifier::truncate] ((x >> 16) as u8);
    let b2: u8 = #[verifier::truncate] ((x >> 8) as u8);
    let b3: u8 = #[verifier::truncate] (x as u8);
    assert(b0 == x / 256 / 256 / 256 % 256 && b1 == x / 256 / 256 % 256 && b2 == x / 256 % 256
        && b3 == x % 256 && x / 256 / 256 / 256 / 256 == 0) by (bit_vector)
        requires
            b0 == (x >> 24) as u8,
            b1 == (x >> 16) as u8,
            b2 == (x >> 8) as u8,
            b3 == x as u8,
    ;
    dest.push(b0);
    dest.push(b1);
    dest.push(b2);
    dest.push(b3);
    proof {
        reveal_with_fuel(be_bytes, 5);
        reveal_with_fuel(fits_in, 5);
    }
}

/// Appends the eight bytes of `x`.
fn write_be64(x: u64, dest: &mut Vec<u8>)
    ensures
        final(dest)@ == old(dest)@ + be_bytes(x as nat, 8),
        fits_in(x as nat, 8),
{
    let b0: u8 = #[verifier::truncate] ((x >> 56) as u8);
    let b1: u8 = #[verifier::truncate] ((x >> 48) as u8);
    let b2: u8 = #[verifier::truncate] ((x >> 40) as u8);
    let b3: u8 = #[verifier::truncate] ((x >> 32) as u8);
    let b4: u8 = #[verifier::truncate] ((x >> 24) as u8);
    let b5: u8 = #[verifier::truncate] ((x >> 16) as u8);
    let b6: u8 = #[verifier::truncate] ((x >> 8) as u8);
    let b7: u8 = #[verifier::truncate] (x as u8);
    assert(b0 == x / 256 / 256 / 256 / 256 / 256 / 256 / 256 % 256 && b1 == x / 256 / 256 / 256
        / 256 / 256 / 256 % 256 && b2 == x / 256 / 256 / 256 / 256 / 256 % 256 && b3 == x / 256
        / 256 / 256 / 256 % 256 && x / 256 / 256 / 256 / 256 / 256 / 256 / 256 / 256 == 0)
        by (bit_vector)
        requires
            b0 == (x >> 56) as u8,
            b1 == (x >> 48) as u8,
            b2 == (x >> 40) as u8,
            b3 == (x >> 32) as u8,
    ;
    assert(b4 == x / 256 / 256 / 256 % 256 && b5 == x / 256 / 256 % 256 && b6 == x / 256 % 256
        && b7 == x % 256) by (bit_vector)
        requires
            b4 == (x >> 24) as u8,
            b5 == (x >> 16) as u8,
            b6 == (x >> 8) as u8,
            b7 == x as u8,
    ;
    dest.push(b0);
    dest.push(b1);
    dest.push(b2);
    dest.push(b3);
    dest.push(b4);
    dest.push(b5);
    dest.push(b6);
    dest.push(b7);
    proof {
        reveal_with_fuel(be_bytes, 9);
        reveal_with_fuel(fits_in, 9);
    }
}

/// 256 to the power `width`.
pub open spec fn span(width: nat) -> nat
    decreases width,
{
    if width == 0 {
        1
    } else {
        256 * span((width - 1) as nat)
    }
}

/// The spans of the widths up to eight bytes.
pub proof fn lemma_span_values()
    ensures
        span(0) == 1,
        span(1) == 0x100,
        span(2) == 0x1_0000,
        span(3) == 0x100_0000,
        span(4) == 0x1_0000_0000,
        span(5) == 0x100_0000_0000,
        span(6) == 0x1_0000_0000_0000,
        span(7) == 0x100_0000_0000_0000,
        span(8) == 0x1_0000_0000_0000_0000,
{
    reveal_with_fuel(span, 9);
}

/// What `s` spells is below the span of its length, and fits that length.
pub proof fn lemma_be_value_bound(s: Seq<u8>)
    ensures
        be_value(s) < span(s.len()),
    decreases s.len(),
{
    if s.len() > 0 {
        lemma_be_value_bound(s.drop_last());
    }
}

/// Reads an unsigned integer of `width` bytes, most significant first.
fn read_be(src: &mut Source, width: usize) -> (r: Result<u64, Error>)
    requires
        1 <= width <= 8,
    ensures
        is_rest_of(final(src)@, old(src)@),
        match be_decoding(old(src)@, width as nat) {
            Ok((v, k)) => {
                &&& r == Ok::<u64, Error>(v as u64)
                &&& v < span(width as nat)
                &&& k <= old(src)@.len()
                &&& final(src)@ == old(src)@.skip(k as int)
            },
            Err(e) => r == Err::<u64, Error>(e),
        },
{
    let bytes = src.read_exact(width)?;
    let mut v: u64 = 0;
    let mut i: usize = 0;
    proof {
        lemma_span_values();
    }
    while i < width
        invariant
            i <= width <= 8,
            bytes@.len() == width,
            v == be_value(bytes@.take(i as int)),
            v < span(i as nat),
        decreases width - i,
    {
        proof {
            lemma_span_values();
            assert(bytes@.take(i + 1).drop_last() =~= bytes@.take(i as int));
        }
        v = v * 256 + bytes[i] as u64;
        i = i + 1;
    }
    proof {
        assert(bytes@.take(width as int) =~= bytes@);
    }
    Ok(v)
}

/// The 32-bit two's-complement bit pattern of `x`, read as a natural number.
pub open spec fn bits32(x: i32) -> nat {
    if x >= 0 {
        x as nat
    } else {
        (x + 0x1_0000_0000) as nat
    }
}

/// The signed 32-bit integer with the bit pattern `v`.
pub open spec fn signed32(v: nat) -> i32 {
    if v < 0x8000_0000 {
        v as i32
    } else {
        (v - 0x1_0000_0000) as i32
    }
}

/// The 64-bit two's-complement bit pattern of `x`, read as a natural number.
pub open spec fn bits64(x: i64) -> nat {
    if x >= 0 {
        x as nat
    } else {
        (x + 0x1_0000_0000_0000_0000) as nat
    }
}

/// The signed 64-bit integer with the bit pattern `v`.
pub open spec fn signed64(v: nat) -> i64 {
    if v < 0x8000_0000_0000_0000 {
        v as i64
    } else {
        (v - 0x1_0000_0000_0000_0000) as i64
    }
}

impl Type for u16 {
    type Model = u16;

    open spec fn model(&self) -> u16 {
        *self
    }

    open spec fn representable(m: u16) -> bool {
        true
    }

    open spec fn decodable() -> bool {
        true
    }

    open spec fn encoding(m: u16) -> Seq<u8> {
        be_bytes(m as nat, 2)
    }

    open spec fn decoding(s: Seq<u8>) -> Result<(u16, nat), Error> {
        match be_decoding(s, 2) {
            Ok((v, k)) => Ok((v as u16, k)),
            Err(e) => Err(e),
        }
    }

    fn encode_bin(&self, dest: &mut Vec<u8>) -> (n: usize) {
        write_be16(*self, dest);
        proof {
            lemma_be_bytes_len(*self as nat, 2);
        }
        2
    }

    fn decode_bin(src: &mut Source) -> (r: Result<Self, Error>) {
        proof {
            lemma_span_values();
        }
        let v = read_be(src, 2)?;
        Ok(v as u16)
    }

    proof fn lemma_round_trip(m: u16, rest: Seq<u8>) {
        reveal_with_fuel(fits_in, 3);
        lemma_be_round_trip(m as nat, 2, rest);
    }
}

impl Type for u32 {
    type Model = u32;

    open spec fn model(&self) -> u32 {
        *self
    }

    open spec fn representable(m: u32) -> bool {
        true
    }

    open spec fn decodable() -> bool {
        true
    }

    open spec fn encoding(m: u32) -> Seq<u8> {
        be_bytes(m as nat, 4)
    }

    open spec fn decoding(s: Seq<u8>) -> Result<(u32, nat), Error> {
        match be_decoding(s, 4) {
            Ok((v, k)) => Ok((v as u32, k)),
            Err(e) => Err(e),
        }
    }

    fn encode_bin(&self, dest: &mut Vec<u8>) -> (n: usize) {
        write_be32(*self, dest);
        proof {
            lemma_be_bytes_len(*self as nat, 4);
        }
        4
    }

    fn decode_bin(src: &mut Source) -> (r: Result<Self, Error>) {
        proof {
            lemma_span_values();
        }
        let v = read_be(src, 4)?;
        Ok(v as u32)
    }

    proof fn lemma_round_trip(m: u32, rest: Seq<u8>) {
        reveal_with_fuel(fits_in, 5);
        lemma_be_round_trip(m as nat, 4, rest);
    }
}

impl Type for u64 {
    type Model = u64;

    open spec fn model(&self) -> u64 {
        *self
    }

    open spec fn representable(m: u64) -> bool {
        true
    }

    open spec fn decodable() -> bool {
        true
    }

    open spec fn encoding(m: u64) -> Seq<u8> {
        be_bytes(m as nat, 8)
    }

    open spec fn decoding(s: Seq<u8>) -> Result<(u64, nat), Error> {
        match be_decoding(s, 8) {
            Ok((v, k)) => Ok((v as u64, k)),
            Err(e) => Err(e),
        }
    }

    fn encode_bin(&self, dest: &mut Vec<u8>) -> (n: usize) {
        write_be64(*self, dest);
        proof {
            lemma_be_bytes_len(*self as nat, 8);
        }
        8
    }

    fn decode_bin(src: &mut Source) -> (r: Result<Self, Error>) {
        read_be(src, 8)
    }

    proof fn lemma_round_trip(m: u64, rest: Seq<u8>) {
        reveal_with_fuel(fits_in, 9);
        lemma_be_round_trip(m as nat, 8, rest);
    }
}

/// A 64-bit floating-point number, held as its IEEE-754 bit pattern.  The
/// library does no floating-point arithmetic: all it needs of such a number
/// is its bits, which are written as a 64-bit unsigned integer.  Two values
/// are equal where their bits are.
#[derive(Clone, Copy, Debug, PartialEq, Eq)]
pub struct Float {
    bits: u64,
}

impl View for Float {
    type V = u64;

    closed spec fn view(&self) -> u64 {
        self.bits
    }
}

impl Float {
    /// The number with the bit pattern `bits`.
    pub fn from_bits(bits: u64) -> (f: Self)
        ensures
            f@ == bits,
    {
        Float { bits }
    }

    /// The bit pattern of this number.
    pub fn to_bits(&self) -> (bits: u64)
        ensures
            bits == self@,
    {
        self.bits
    }
}

impl Type for Float {
    type Model = u64;

    open spec fn model(&self) -> u64 {
        self@
    }

    open spec fn representable(m: u64) -> bool {
        true
    }

    open spec fn decodable() -> bool {
        true
    }

    open spec fn encoding(m: u64) -> Seq<u8> {
        be_bytes(m as nat, 8)
    }

    open spec fn decoding(s: Seq<u8>) -> Result<(u64, nat), Error> {
        <u64 as Type>::decoding(s)
    }

    fn encode_bin(&self, dest: &mut Vec<u8>) -> (n: usize) {
        self.to_bits().encode_bin(dest)
    }

    fn decode_bin(src: &mut Source) -> (r: Result<Self, Error>) {
        let bits = u64::decode_bin(src)?;
        Ok(Float::from_bits(bits))
    }

    proof fn lemma_round_trip(m: u64, rest: Seq<u8>) {
        <u64 as Type>::lemma_round_trip(m, rest);
    }
}

impl Type for i32 {
    type Model = i32;

    open spec fn model(&self) -> i32 {
        *self
    }

    open spec fn representable(m: i32) -> bool {
        true
    }

    open spec fn decodable() -> bool {
        true
    }

    open spec fn encoding(m: i32) -> Seq<u8> {
        be_bytes(bits32(m), 4)
    }

    open spec fn decoding(s: Seq<u8>) -> Result<(i32, nat), Error> {
        match be_decoding(s, 4) {
            Ok((v, k)) => Ok((signed32(v), k)),
            Err(e) => Err(e),
        }
    }

    fn encode_bin(&self, dest: &mut Vec<u8>) -> (n: usize) {
        let x = *self;
        let u: u32 = #[verifier::truncate] (x as u32);
        assert(u == (if x >= 0 { x as int } else { x + 0x1_0000_0000 })) by (bit_vector)
            requires
                u == x as u32,
        ;
        u.encode_bin(dest)
    }

    fn decode_bin(src: &mut Source) -> (r: Result<Self, Error>) {
        let n = u32::decode_bin(src)?;
        let x: i32 = #[verifier::truncate] (n as i32);
        assert(x == (if n < 0x8000_0000 { n as int } else { n - 0x1_0000_0000 })) by (bit_vector)
            requires
                x == n as i32,
        ;
        proof {
            lemma_be_value_bound(old(src)@.take(4));
            lemma_span_values();
        }
        Ok(x)
    }

    proof fn lemma_round_trip(m: i32, rest: Seq<u8>) {
        reveal_with_fuel(fits_in, 5);
        lemma_be_round_trip(bits32(m), 4, rest);
    }
}

impl Type for i64 {
    type Model = i64;

    open spec fn model(&self) -> i64 {
        *self
    }

    open spec fn representable(m: i64) -> bool {
        true
    }

    open spec fn decodable() -> bool {
        true
    }

    open spec fn encoding(m: i64) -> Seq<u8> {
        be_bytes(bits64(m), 8)
    }

    open spec fn decoding(s: Seq<u8>) -> Result<(i64, nat), Error> {
        match be_decoding(s, 8) {
            Ok((v, k)) => Ok((signed64(v), k)),
            Err(e) => Err(e),
        }
    }

    fn encode_bin(&self, dest: &mut Vec<u8>) -> (n: usize) {
        let x = *self;
        let u: u64 = #[verifier::truncate] (x as u64);
        assert(u == (if x >= 0 { x as int } else { x + 0x1_0000_0000_0000_0000 })) by (bit_vector)
            requires
                u == x as u64,
        ;
        u.encode_bin(dest)
    }

    fn decode_bin(src: &mut Source) -> (r: Result<Self, Error>) {
        let n = u64::decode_bin(src)?;
        proof {
            lemma_be_value_bound(old(src)@.take(8));
            lemma_span_values();
        }
        let x: i64 = #[verifier::truncate] (n as i64);
        assert(x == (if n < 0x8000_0000_0000_0000 { n as int } else {
            n - 0x1_0000_0000_0000_0000
        })) by (bit_vector)
            requires
                x == n as i64,
        ;
        Ok(x)
    }

    proof fn lemma_round_trip(m: i64, rest: Seq<u8>) {
        reveal_with_fuel(fits_in, 9);
        lemma_be_round_trip(bits64(m), 8, rest);
    }
}

/// A fixed-width integer with fewer bytes than its width before it fails to
/// decode with an unexpected end of input.
pub proof fn lemma_fixed_width_truncated(s: Seq<u8>)
    ensures
        s.len() < 2 ==> <u16 as Type>::decoding(s) == Err::<(u16, nat), Error>(
            Error::UnexpectedEof,
        ),
        s.len() < 4 ==> <u32 as Type>::decoding(s) == Err::<(u32, nat), Error>(
            Error::UnexpectedEof,
        ),
        s.len() < 4 ==> <i32 as Type>::decoding(s) == Err::<(i32, nat), Error>(
            Error::UnexpectedEof,
        ),
        s.len() < 8 ==> <u64 as Type>::decoding(s) == Err::<(u64, nat), Error>(
            Error::UnexpectedEof,
        ),
        s.len() < 8 ==> <i64 as Type>::decoding(s) == Err::<(i64, nat), Error>(
            Error::UnexpectedEof,
        ),
        s.len() < 8 ==> <Float as Type>::decoding(s) == Err::<(u64, nat), Error>(
            Error::UnexpectedEof,
        ),
{
}

} // verus!
