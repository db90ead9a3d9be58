//! Sequences: the element count as a varint, then each element in order.

use vstd::prelude::*;
use crate::codec::Type;
use crate::error::Error;
use crate::source::{is_rest_of, lemma_rest_of_rest, lemma_rest_of_self, Source};
use crate::varint::{
    lemma_uint_of_nat, lemma_varint_round_trip, uint_of_nat, varint_bytes, varint_decoding,
};

verus! {

/// The models of the values of `s`, in order.
pub open spec fn models<T: Type>(s: Seq<T>) -> Seq<T::Model> {
    Seq::new(s.len(), |i: int| s[i].model())
}

/// The wire forms of the elements `ms`, one after another.
pub open spec fn items_encoding<T: Type>(ms: Seq<T::Model>) -> Seq<u8>
    decreases ms.len(),
{
    if ms.len() == 0 {
        Seq::empty()
    } else {
        T::encoding(ms[0]) + items_encoding::<T>(ms.skip(1))
    }
}

/// What a decoder of `count` elements in a row makes of `s`: the elements
/// and the number of bytes that hold them, or the first error met.
pub open spec fn items_decoding<T: Type>(s: Seq<u8>, count: nat) -> Result<
    (Seq<T::Model>, nat),
    Error,
>
    decreases count,
{
    if count == 0 {
        Ok((Seq::empty(), 0nat))
    } else {
        match T::decoding(s) {
            Ok((m, k)) => match items_decoding::<T>(s.skip(k as int), (count - 1) as nat) {
                Ok((ms, k2)) => Ok((seq![m] + ms, k + k2)),
                Err(e) => Err(e),
            },
            Err(e) => Err(e),
        }
    }
}

/// The wire form of the sequence `ms`.
pub open spec fn seq_encoding<T: Type>(ms: Seq<T::Model>) -> Seq<u8> {
    varint_bytes(ms.len()) + items_encoding::<T>(ms)
}

/// What a decoder of a sequence makes of `s`: a count, then that many
/// elements.
pub open spec fn seq_decoding<T: Type>(s: Seq<u8>) -> Result<(Seq<T::Model>, nat), Error> {
    match varint_decoding(s) {
        Ok((v, k)) => match items_decoding::<T>(s.skip(k as int), uint_of_nat(v) as nat) {
            Ok((ms, k2)) => Ok((ms, k + k2)),
            Err(e) => Err(e),
        },
        Err(e) => Err(e),
    }
}

/// Whether a sequence with the elements `ms` can exist.
pub open spec fn seq_representable<T: Type>(ms: Seq<T::Model>) -> bool {
    &&& ms.len() <= usize::MAX
    &&& forall|i: int| 0 <= i < ms.len() ==> T::representable(#[trigger] ms[i])
}

/// One more element at the end adds its wire form at the end.
pub proof fn lemma_items_encoding_push<T: Type>(ms: Seq<T::Model>, m: T::Model)
    ensures
        items_encoding::<T>(ms.push(m)) == items_encoding::<T>(ms) + T::encoding(m),
    decreases ms.len(),
{
    let all = ms.push(m);
    if ms.len() == 0 {
        assert(items_encoding::<T>(all.skip(1)) =~= Seq::<u8>::empty());
    } else {
        lemma_items_encoding_push::<T>(ms.skip(1), m);
        assert(all.skip(1) =~= ms.skip(1).push(m));
    }
}

/// Decoding the elements that encoding wrote gives them back, whatever
/// follows them.
pub proof fn lemma_items_round_trip<T: Type>(ms: Seq<T::Model>, rest: Seq<u8>)
    requires
        T::decodable(),
        forall|i: int| 0 <= i < ms.len() ==> T::representable(#[trigger] ms[i]),
    ensures
        items_decoding::<T>(items_encoding::<T>(ms) + rest, ms.len()) == Ok::<
            (Seq<T::Model>, nat),
            Error,
        >((ms, items_encoding::<T>(ms).len())),
    decreases ms.len(),
{
    if ms.len() == 0 {
        assert(ms =~= Seq::<T::Model>::empty());
    } else {
        let head = T::encoding(ms[0]);
        let tail = items_encoding::<T>(ms.skip(1));
        let s = items_encoding::<T>(ms) + rest;
        assert(s =~= head + (tail + rest));
        T::lemma_round_trip(ms[0], tail + rest);
        assert(s.skip(head.len() as int) =~= tail + rest);
        lemma_items_round_trip::<T>(ms.skip(1), rest);
        assert(seq![ms[0]] + ms.skip(1) =~= ms);
    }
}

/// Decoding an encoded sequence gives the sequence back, whatever follows
/// it.
pub proof fn lemma_seq_round_trip<T: Type>(ms: Seq<T::Model>, rest: Seq<u8>)
    requires
        T::decodable(),
        seq_representable::<T>(ms),
    ensures
        seq_decoding::<T>(seq_encoding::<T>(ms) + rest) == Ok::<(Seq<T::Model>, nat), Error>(
            (ms, seq_encoding::<T>(ms).len()),
        ),
{
    let count = varint_bytes(ms.len());
    let items = items_encoding::<T>(ms);
    let s = seq_encoding::<T>(ms) + rest;
    assert(s =~= count + (items + rest));
    lemma_varint_round_trip(ms.len(), items + rest);
    lemma_uint_of_nat(ms.len() as usize);
    assert(s.skip(count.len() as int) =~= items + rest);
    lemma_items_round_trip::<T>(ms, rest);
}

/// What a decoder that has read the elements `done` from `consumed` bytes
/// makes of all of them, given what it would make of those still to come.
pub open spec fn resume<M>(
    rest: Result<(Seq<M>, nat), Error>,
    done: Seq<M>,
    consumed: nat,
) -> Result<(Seq<M>, nat), Error> {
    match rest {
        Ok((ms, k)) => Ok((done + ms, consumed + k)),
        Err(e) => Err(e),
    }
}

/// One decoded element moves from the elements to come to those done.
pub proof fn lemma_resume_step<T: Type>(
    s: Seq<u8>,
    count: nat,
    done: Seq<T::Model>,
    consumed: nat,
)
    requires
        count > 0,
        T::decoding(s) is Ok,
    ensures
        resume(items_decoding::<T>(s, count), done, consumed) == resume(
            items_decoding::<T>(s.skip(T::decoding(s)->Ok_0.1 as int), (count - 1) as nat),
            done.push(T::decoding(s)->Ok_0.0),
            consumed + T::decoding(s)->Ok_0.1,
        ),
{
    let (m, k) = T::decoding(s)->Ok_0;
    match items_decoding::<T>(s.skip(k as int), (count - 1) as nat) {
        Ok((ms, k2)) => {
            assert(done + (seq![m] + ms) =~= done.push(m) + ms);
        },
        Err(e) => {},
    }
}

/// Appends the count of `items` and then each of them to `dest`, and returns
/// the number of bytes appended.
pub(crate) fn write_items<T: Type>(items: &[T], dest: &mut Vec<u8>) -> (n: usize)
    ensures
        seq_representable::<T>(models(items@)),
        final(dest)@ == old(dest)@ + seq_encoding::<T>(models(items@)),
        n == seq_encoding::<T>(models(items@)).len(),
{
    let count = items.len();
    let ghost ms = models(items@);
    let mut n = count.encode_bin(dest);
    let mut i: usize = 0;
    proof {
        assert(dest@ =~= old(dest)@ + varint_bytes(count as nat) + items_encoding::<T>(
            ms.take(0),
        ));
    }
    while i < count
        invariant
            i <= count,
            count == items@.len(),
            ms == models(items@),
            dest@ == old(dest)@ + varint_bytes(count as nat) + items_encoding::<T>(
                ms.take(i as int),
            ),
            n + old(dest)@.len() == dest@.len(),
            forall|j: int| 0 <= j < i ==> T::representable(#[trigger] ms[j]),
        decreases count - i,
    {
        let k = items[i].encode_bin(dest);
        proof {
            assert(dest@.len() == dest.len());
            lemma_items_encoding_push::<T>(ms.take(i as int), ms[i as int]);
            assert(ms.take(i as int).push(ms[i as int]) =~= ms.take(i + 1));
            assert(dest@ =~= old(dest)@ + varint_bytes(count as nat) + items_encoding::<T>(
                ms.take(i + 1),
            ));
        }
        n = n + k;
        i = i + 1;
    }
    proof {
        assert(ms.take(count as int) =~= ms);
    }
    n
}

/// Reads a count and then that many elements.
pub(crate) fn read_items<T: Type>(src: &mut Source) -> (r: Result<Vec<T>, Error>)
    ensures
        is_rest_of(final(src)@, old(src)@),
        match seq_decoding::<T>(old(src)@) {
            Ok((ms, k)) => {
                &&& r matches Ok(v)
                &&& models(v@) == ms
                &&& k <= old(src)@.len()
                &&& final(src)@ == old(src)@.skip(k as int)
            },
            Err(e) => r matches Err(x) && x == e,
        },
{
    let count = usize::decode_bin(src)?;
    let ghost start = src@;
    let ghost lead = (old(src)@.len() - start.len()) as nat;
    let mut dest: Vec<T> = Vec::new();
    let mut i: usize = 0;
    proof {
        lemma_rest_of_self(start);
    }
    while i < count
        invariant
            i <= count,
            dest@.len() == i,
            is_rest_of(src@, start),
            is_rest_of(start, old(src)@),
            lead == old(src)@.len() - start.len(),
            seq_decoding::<T>(old(src)@) == resume(
                items_decoding::<T>(start, count as nat),
                Seq::<T::Model>::empty(),
                lead,
            ),
            items_decoding::<T>(start, count as nat) == resume(
                items_decoding::<T>(src@, (count - i) as nat),
                models(dest@),
                (start.len() - src@.len()) as nat,
            ),
        decreases count - i,
    {
        let ghost here = src@;
        let ghost done = models(dest@);
        match T::decode_bin(src) {
            Ok(v) => {
                dest.push(v);
            },
            Err(e) => {
                proof {
                    lemma_rest_of_rest(src@, here, start);
                    lemma_rest_of_rest(src@, start, old(src)@);
                }
                return Err(e);
            },
        }
        proof {
            lemma_rest_of_rest(src@, here, start);
            lemma_resume_step::<T>(
                here,
                (count - i) as nat,
                done,
                (start.len() - here.len()) as nat,
            );
            assert(models(dest@) =~= done.push(T::decoding(here)->Ok_0.0));
        }
        i = i + 1;
    }
    proof {
        lemma_rest_of_rest(src@, start, old(src)@);
    }
    Ok(dest)
}

/// A sequence, borrowed from the caller or owned.  Both encode alike, and
/// decoding gives an owned one.
pub enum Array<'a, T> {
    /// Elements that the caller owns.
    Ref(&'a [T]),
    /// Elements that this value owns.
    Owned(Vec<T>),
}

impl<'a, T> View for Array<'a, T> {
    type V = Seq<T>;

    open spec fn view(&self) -> Seq<T> {
        match self {
            Array::Ref(items) => items@,
            Array::Owned(items) => items@,
        }
    }
}

impl<'a, T> Array<'a, T> {
    /// The elements, whichever variant holds them.
    pub fn as_ref(&self) -> (items: &[T])
        ensures
            items@ == self@,
    {
        match self {
            Array::Ref(items) => items,
            Array::Owned(items) => items.as_slice(),
        }
    }

    /// The number of elements.
    pub fn len(&self) -> (n: usize)
        ensures
            n == self@.len(),
    {
        self.as_ref().len()
    }
}

impl<T: Type> Type for Vec<T> {
    type Model = Seq<T::Model>;

    open spec fn model(&self) -> Seq<T::Model> {
        models(self@)
    }

    open spec fn representable(m: Seq<T::Model>) -> bool {
        seq_representable::<T>(m)
    }

    open spec fn decodable() -> bool {
        T::decodable()
    }

    open spec fn encoding(m: Seq<T::Model>) -> Seq<u8> {
        seq_encoding::<T>(m)
    }

    open spec fn decoding(s: Seq<u8>) -> Result<(Seq<T::Model>, nat), Error> {
        seq_decoding::<T>(s)
    }

    fn encode_bin(&self, dest: &mut Vec<u8>) -> (n: usize) {
        write_items(self.as_slice(), dest)
    }

    fn decode_bin(src: &mut Source) -> (r: Result<Self, Error>) {
        read_items(src)
    }

    proof fn lemma_round_trip(m: Seq<T::Model>, rest: Seq<u8>) {
        if T::decodable() {
            lemma_seq_round_trip::<T>(m, rest);
        }
    }
}

impl<'a, T: Type> Type for Array<'a, T> {
    type Model = Seq<T::Model>;

    open spec fn model(&self) -> Seq<T::Model> {
        models(self@)
    }

    open spec fn representable(m: Seq<T::Model>) -> bool {
        seq_representable::<T>(m)
    }

    open spec fn decodable() -> bool {
        T::decodable()
    }

    open spec fn encoding(m: Seq<T::Model>) -> Seq<u8> {
        seq_encoding::<T>(m)
    }

    open spec fn decoding(s: Seq<u8>) -> Result<(Seq<T::Model>, nat), Error> {
        seq_decoding::<T>(s)
    }

    fn encode_bin(&self, dest: &mut Vec<u8>) -> (n: usize) {
        write_items(self.as_ref(), dest)
    }

    fn decode_bin(src: &mut Source) -> (r: Result<Self, Error>)
        ensures
            r matches Ok(v) ==> v is Owned,
    {
        let items = Vec::<T>::decode_bin(src)?;
        Ok(Array::Owned(items))
    }

    proof fn lemma_round_trip(m: Seq<T::Model>, rest: Seq<u8>) {
        if T::decodable() {
            lemma_seq_round_trip::<T>(m, rest);
        }
    }
}

} // verus!
