//! The variable-length integer that carries every length prefix and every
//! platform-width scalar.
//!
//! A number is written seven bits at a time, least significant group first.
//! Each byte but the last has its top bit set.  A signed input is written as
//! its 64-bit two's-complement bit pattern, shifted logically, so a negative
//! number takes ten bytes and encoding always ends.

use vstd::prelude::*;
use vstd::arithmetic::div_mod::{
    lemma_add_mod_noop, lemma_mod_mod, lemma_mod_multiples_vanish, lemma_mul_mod_noop_right,
    lemma_small_mod,
};
use vstd::arithmetic::power2::{lemma2_to64, lemma2_to64_rest, lemma_pow2_adds, pow2};
use vstd::bits::{lemma_u64_pow2_no_overflow, lemma_u64_shl_is_mul};
use crate::codec::Type;
use crate::error::Error;
use crate::fixed::bits64;
use crate::source::{is_rest_of, lemma_skip_is_rest, Source};
use crate::Int;

verus! {

/// The wire form of the natural number `n`.
pub open spec fn varint_bytes(n: nat) -> Seq<u8>
    decreases n,
{
    if n < 128 {
        seq![n as u8]
    } else {
        seq![(128 + n % 128) as u8] + varint_bytes(n / 128)
    }
}

/// What a decoder makes of `s`: the number written at its start and the
/// count of bytes that hold it, or `None` where `s` ends before a byte
/// below 128.
pub open spec fn varint_parse(s: Seq<u8>) -> Option<(nat, nat)>
    decreases s.len(),
{
    if s.len() == 0 {
        None
    } else if s[0] < 128 {
        Some((s[0] as nat, 1nat))
    } else {
        match varint_parse(s.skip(1)) {
            Some((v, k)) => Some(((s[0] - 128) as nat + 128 * v, k + 1)),
            None => None,
        }
    }
}

/// The platform-width signed integer whose two's-complement bit pattern is
/// the low platform-width bits of `v`.
pub open spec fn int_of_nat(v: nat) -> isize {
    let m = v as int % (usize::MAX as int + 1);
    if m <= isize::MAX as int {
        m as isize
    } else {
        (m - usize::MAX as int - 1) as isize
    }
}

/// The platform-width unsigned integer made of the low platform-width bits
/// of `v`.
pub open spec fn uint_of_nat(v: nat) -> usize {
    (v as int % (usize::MAX as int + 1)) as usize
}

/// Every value below 128 is written as the one byte equal to it.
pub proof fn lemma_varint_small(n: nat)
    requires
        n < 128,
    ensures
        varint_bytes(n) == seq![n as u8],
{
}

/// Decoding what encoding wrote gives the number back and stops at the end
/// of its bytes, whatever follows them.
pub proof fn lemma_varint_round_trip(n: nat, rest: Seq<u8>)
    ensures
        varint_parse(varint_bytes(n) + rest) == Some((n, varint_bytes(n).len())),
    decreases n,
{
    if n >= 128 {
        lemma_varint_round_trip(n / 128, rest);
        assert((varint_bytes(n) + rest).skip(1) =~= varint_bytes(n / 128) + rest);
    }
}

/// A varint cut short is an unexpected end of input: bytes that all have
/// their top bit set hold no complete number.
pub proof fn lemma_varint_truncated(s: Seq<u8>)
    requires
        forall|i: int| 0 <= i < s.len() ==> s[i] >= 128,
    ensures
        varint_decoding(s) == Err::<(nat, nat), Error>(Error::UnexpectedEof),
    decreases s.len(),
{
    if s.len() > 0 {
        lemma_varint_truncated(s.skip(1));
    }
}

/// A signed platform-width integer comes back from its own bit pattern.
pub proof fn lemma_int_of_bits64(x: isize)
    ensures
        int_of_nat(bits64(x as i64)) == x,
{
    let m = usize::MAX as int + 1;
    let v = bits64(x as i64) as int;
    if x >= 0 {
        lemma_small_mod(x as nat, m as nat);
    } else if usize::MAX == 0xffff_ffff {
        lemma_mod_multiples_vanish(0xffff_ffff, x + m, m);
        lemma_small_mod((x + m) as nat, m as nat);
    } else {
        lemma_small_mod(v as nat, m as nat);
    }
}

/// An unsigned platform-width integer comes back from itself.
pub proof fn lemma_uint_of_nat(x: usize)
    ensures
        uint_of_nat(x as nat) == x,
{
    lemma_small_mod(x as nat, (usize::MAX as int + 1) as nat);
}

/// Writes `n` as a varint at the end of `dest` and returns the number of
/// bytes written. A negative `n` is written as its unsigned bit pattern.
pub fn encode_int(n: i64, dest: &mut Vec<u8>) -> (count: usize)
    ensures
        final(dest)@ == old(dest)@ + varint_bytes(bits64(n)),
        count == varint_bytes(bits64(n)).len(),
{
    let mut u: u64 = #[verifier::truncate] (n as u64);
    let mut count: usize = 0;
    assert(u == (if n >= 0 { n as int } else { n + 0x1_0000_0000_0000_0000 })) by (bit_vector)
        requires
            u == n as u64,
    ;
    while u >= 128
        invariant
            dest@ + varint_bytes(u as nat) == old(dest)@ + varint_bytes(bits64(n)),
            count + old(dest)@.len() == dest@.len(),
        decreases u,
    {
        let out: u64 = 128 | (u & 127);
        assert(out == 128 + u % 128 && out < 256 && u >> 7 == u / 128) by (bit_vector)
            requires
                out == 128 | (u & 127),
        ;
        dest.push(out as u8);
        assert(dest@.len() == dest.len());
        count = count + 1;
        u = u >> 7;
    }
    dest.push(u as u8);
    assert(dest@.len() == dest.len());
    count = count + 1;
    count
}

/// What a decoder that has read `j` bytes makes of the whole input, given
/// what it would make of the bytes that are left: the groups read so far
/// add up to `acc`, and the next group weighs `scale`.
spec fn resume(rest: Option<(nat, nat)>, acc: nat, scale: nat, j: nat) -> Option<(nat, nat)> {
    match rest {
        Some((v, k)) => Some((acc + scale * v, k + j)),
        None => None,
    }
}

/// One continuation byte `b` moves a group from the bytes left into `acc`.
proof fn lemma_resume_step(s: Seq<u8>, acc: nat, scale: nat, j: nat)
    requires
        s.len() > 0,
        s[0] >= 128,
    ensures
        resume(varint_parse(s), acc, scale, j) == resume(
            varint_parse(s.skip(1)),
            acc + (s[0] - 128) as nat * scale,
            scale * 128,
            j + 1,
        ),
{
    match varint_parse(s.skip(1)) {
        Some((v, k)) => {
            let g = (s[0] - 128) as nat;
            assert(acc + scale * (g + 128 * v) == (acc + g * scale) + (scale * 128) * v)
                by (nonlinear_arith);
        },
        None => {},
    }
}

/// The weight of the next group after one more continuation byte: the shift
/// `p` grows by seven while it is below 64, and from then on every further
/// group lies beyond the 64 bits that are kept.
proof fn lemma_scale_step(p: u64, scale: nat)
    requires
        p <= 70,
        p < 64 ==> scale == pow2(p as nat),
        p >= 64 ==> scale % 0x1_0000_0000_0000_0000 == 0,
    ensures
        p < 57 ==> scale * 128 == pow2((p + 7) as nat),
        p >= 57 ==> (scale * 128) % 0x1_0000_0000_0000_0000 == 0,
{
    lemma2_to64();
    lemma2_to64_rest();
    let w = 0x1_0000_0000_0000_0000int;
    if p < 64 {
        lemma_pow2_adds(p as nat, 7);
        if p >= 57 {
            lemma_pow2_adds(64, (p + 7 - 64) as nat);
            let q = pow2((p + 7 - 64) as nat) as int;
            lemma_mod_multiples_vanish(q, 0, w);
        }
    } else {
        lemma_mul_mod_noop_right(128, scale as int, w);
    }
}

/// Adding the group `g`, shifted left by `p`, into 64 bits keeps the sum of
/// the groups modulo 2^64.
proof fn lemma_accumulate(n: u64, added: u64, g: u64, p: u64, acc: nat, scale: nat)
    requires
        g < 128,
        p <= 70,
        n == acc % 0x1_0000_0000_0000_0000,
        p < 64 ==> scale == pow2(p as nat),
        p >= 64 ==> scale % 0x1_0000_0000_0000_0000 == 0,
        added == (if p < 64 { n.wrapping_add(g << p) } else { n }),
    ensures
        added == (acc + g * scale) % 0x1_0000_0000_0000_0000,
{
    let w = 0x1_0000_0000_0000_0000int;
    let t = (g * scale) as int;
    if p < 64 {
        lemma_u64_pow2_no_overflow(p as nat);
        lemma_u64_shl_is_mul(1, p);
        assert((g << p) == (g * (1u64 << p)) % 0x1_0000_0000_0000_0000) by (bit_vector)
            requires
                g < 128,
                p < 64,
        ;
        lemma_add_mod_noop(acc as int, t, w);
        lemma_small_mod(n as nat, w as nat);
        if n + (g << p) > u64::MAX {
            lemma_mod_multiples_vanish(-1, n + (g << p), w);
            lemma_small_mod((n + (g << p) - w) as nat, w as nat);
        } else {
            lemma_small_mod((n + (g << p)) as nat, w as nat);
        }
    } else {
        lemma_mul_mod_noop_right(g as int, scale as int, w);
        lemma_add_mod_noop(acc as int, t, w);
        lemma_small_mod(n as nat, w as nat);
    }
}

/// The signed platform-width integer held in the low bits of `n`.
pub(crate) fn int_of_word(n: u64) -> (r: isize)
    ensures
        r == int_of_nat(n as nat),
{
    let mask: u64 = usize::MAX as u64;
    let m: u64 = n & mask;
    proof {
        if usize::MAX == 0xffff_ffff {
            assert(n & 0xffff_ffff == n % 0x1_0000_0000) by (bit_vector);
        } else {
            assert(n & 0xffff_ffff_ffff_ffff == n) by (bit_vector);
            lemma_small_mod(n as nat, 0x1_0000_0000_0000_0000);
        }
    }
    if m <= isize::MAX as u64 {
        m as isize
    } else {
        ((m - (isize::MAX as u64) - 1) as isize) + isize::MIN
    }
}

/// Reads one varint from `src` and returns it as a platform-width signed
/// integer: the low platform-width bits of the number, in two's complement.
/// Fails with `UnexpectedEof`, the source exhausted, where the bytes end
/// before one below 128.
pub fn decode_int(src: &mut Source) -> (r: Result<Int, Error>)
    ensures
        is_rest_of(final(src)@, old(src)@),
        match varint_parse(old(src)@) {
            Some((v, k)) => {
                &&& r == Ok::<Int, Error>(int_of_nat(v))
                &&& k <= old(src)@.len()
                &&& final(src)@ == old(src)@.skip(k as int)
            },
            None => r == Err::<Int, Error>(Error::UnexpectedEof) && final(src)@.len() == 0,
        },
{
    let mut n: u64 = 0;
    let mut p: u64 = 0;
    let ghost s0 = src@;
    let ghost mut acc: nat = 0;
    let ghost mut scale: nat = 1;
    let ghost mut j: nat = 0;
    proof {
        lemma2_to64();
    }
    loop
        invariant
            s0 == old(src)@,
            j <= s0.len(),
            src@ == s0.skip(j as int),
            p <= 70,
            n == acc % 0x1_0000_0000_0000_0000,
            p < 64 ==> scale == pow2(p as nat),
            p >= 64 ==> scale % 0x1_0000_0000_0000_0000 == 0,
            varint_parse(s0) == resume(varint_parse(src@), acc, scale, j),
        decreases src@.len(),
    {
        let ghost here = src@;
        let b = match src.read_u8() {
            Ok(b) => b,
            Err(_) => {
                proof {
                    lemma_skip_is_rest(s0, j);
                }
                return Err(Error::UnexpectedEof);
            },
        };
        let g: u64 = (b & 127) as u64;
        assert(g == b % 128) by (bit_vector)
            requires
                g == (b & 127) as u64,
        ;
        let added: u64 = if p < 64 {
            n.wrapping_add(g << p)
        } else {
            n
        };
        proof {
            lemma_accumulate(n, added, g, p, acc, scale);
        }
        if b < 128 {
            let r = int_of_word(added);
            proof {
                let v = acc + scale * (b as nat);
                assert(g * scale == scale * (b as nat)) by (nonlinear_arith)
                    requires
                        g == b,
                ;
                assert(src@ =~= s0.skip((j + 1) as int));
                lemma_skip_is_rest(s0, j + 1);
                let m = usize::MAX as int + 1;
                if usize::MAX == 0xffff_ffff {
                    lemma_mod_mod(v as int, m, 0x1_0000_0000);
                } else {
                    lemma_mod_mod(v as int, m, 1);
                }
            }
            return Ok(r);
        }
        proof {
            lemma_resume_step(here, acc, scale, j);
            lemma_scale_step(p, scale);
            acc = acc + (b - 128) as nat * scale;
            scale = scale * 128;
            j = j + 1;
        }
        n = added;
        if p < 64 {
            p = p + 7;
        }
    }
}

/// The unsigned platform-width integer with the bits of `i`.
pub(crate) fn word_of_int(i: isize) -> (r: usize)
    ensures
        r == (if i >= 0 { i as int } else { i + usize::MAX + 1 }),
{
    if i >= 0 {
        i as usize
    } else {
        ((i - isize::MIN) as usize) + (isize::MAX as usize) + 1
    }
}

/// What a decoder of a varint makes of `s`, before the number is cut to
/// the width of its type.
pub open spec fn varint_decoding(s: Seq<u8>) -> Result<(nat, nat), Error> {
    match varint_parse(s) {
        Some((v, k)) => Ok((v, k)),
        None => Err(Error::UnexpectedEof),
    }
}

impl Type for isize {
    type Model = isize;

    open spec fn model(&self) -> isize {
        *self
    }

    open spec fn representable(m: isize) -> bool {
        true
    }

    open spec fn decodable() -> bool {
        true
    }

    open spec fn encoding(m: isize) -> Seq<u8> {
        varint_bytes(bits64(m as i64))
    }

    open spec fn decoding(s: Seq<u8>) -> Result<(isize, nat), Error> {
        match varint_decoding(s) {
            Ok((v, k)) => Ok((int_of_nat(v), k)),
            Err(e) => Err(e),
        }
    }

    fn encode_bin(&self, dest: &mut Vec<u8>) -> (n: usize) {
        encode_int(*self as i64, dest)
    }

    fn decode_bin(src: &mut Source) -> (r: Result<Self, Error>) {
        decode_int(src)
    }

    proof fn lemma_round_trip(m: isize, rest: Seq<u8>) {
        lemma_varint_round_trip(bits64(m as i64), rest);
        lemma_int_of_bits64(m);
    }
}

impl Type for usize {
    type Model = usize;

    open spec fn model(&self) -> usize {
        *self
    }

    open spec fn representable(m: usize) -> bool {
        true
    }

    open spec fn decodable() -> bool {
        true
    }

    open spec fn encoding(m: usize) -> Seq<u8> {
        varint_bytes(m as nat)
    }

    open spec fn decoding(s: Seq<u8>) -> Result<(usize, nat), Error> {
        match varint_decoding(s) {
            Ok((v, k)) => Ok((uint_of_nat(v), k)),
            Err(e) => Err(e),
        }
    }

    fn encode_bin(&self, dest: &mut Vec<u8>) -> (n: usize) {
        let x = *self;
        let i: i64 = #[verifier::truncate] (x as i64);
        assert(x == (if i >= 0 { i as int } else { i + 0x1_0000_0000_0000_0000 })) by (bit_vector)
            requires
                i == x as i64,
        ;
        encode_int(i, dest)
    }

    fn decode_bin(src: &mut Source) -> (r: Result<Self, Error>) {
        let i = decode_int(src)?;
        Ok(word_of_int(i))
    }

    proof fn lemma_round_trip(m: usize, rest: Seq<u8>) {
        lemma_varint_round_trip(m as nat, rest);
        lemma_uint_of_nat(m);
    }
}

} // verus!
