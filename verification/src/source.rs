//! A readable byte source over bytes held in memory.

use vstd::prelude::*;
use vstd::slice::slice_subrange;
use crate::error::Error;

verus! {

/// A cursor over a byte slice. Its view is the bytes not yet read.
pub struct Source<'a> {
    data: &'a [u8],
}

impl<'a> View for Source<'a> {
    type V = Seq<u8>;

    closed spec fn view(&self) -> Seq<u8> {
        self.data@
    }
}

/// Whether `after` is what is left of `before` once some of its first bytes
/// have been read.
pub open spec fn is_rest_of(after: Seq<u8>, before: Seq<u8>) -> bool {
    &&& after.len() <= before.len()
    &&& after == before.skip(before.len() - after.len())
}

/// Reading on from what is left leaves a rest of the whole.
pub proof fn lemma_rest_of_rest(a: Seq<u8>, b: Seq<u8>, c: Seq<u8>)
    requires
        is_rest_of(a, b),
        is_rest_of(b, c),
    ensures
        is_rest_of(a, c),
{
    assert(a =~= c.skip(c.len() - a.len()));
}

/// Skipping `k` bytes leaves a rest.
pub proof fn lemma_skip_is_rest(s: Seq<u8>, k: nat)
    requires
        k <= s.len(),
    ensures
        is_rest_of(s.skip(k as int), s),
{
}

/// With nothing read, all is left.
pub proof fn lemma_rest_of_self(s: Seq<u8>)
    ensures
        is_rest_of(s, s),
{
    assert(s.skip(0) =~= s);
}

impl<'a> Source<'a> {
    /// A source that will yield the bytes of `data`, first to last.
    pub fn new(data: &'a [u8]) -> (s: Self)
        ensures
            s@ == data@,
    {
        Source { data }
    }

    /// The number of bytes not yet read.
    pub fn remaining(&self) -> (n: usize)
        ensures
            n == self@.len(),
    {
        self.data.len()
    }

    /// Reads one byte. Fails with `UnexpectedEof` on an exhausted source.
    pub fn read_u8(&mut self) -> (r: Result<u8, Error>)
        ensures
            is_rest_of(final(self)@, old(self)@),
            old(self)@.len() > 0 ==> {
                &&& r == Ok::<u8, Error>(old(self)@[0])
                &&& final(self)@ == old(self)@.skip(1)
            },
            old(self)@.len() == 0 ==> {
                &&& r == Err::<u8, Error>(Error::UnexpectedEof)
                &&& final(self)@ == old(self)@
            },
    {
        proof {
            lemma_rest_of_self(self@);
        }
        if self.data.len() == 0 {
            Err(Error::UnexpectedEof)
        } else {
            let b = self.data[0];
            self.data = slice_subrange(self.data, 1, self.data.len());
            Ok(b)
        }
    }

    /// Reads the next `n` bytes. Fails with `UnexpectedEof` where fewer are
    /// left, and then reads nothing.
    pub fn read_exact(&mut self, n: usize) -> (r: Result<&'a [u8], Error>)
        ensures
            is_rest_of(final(self)@, old(self)@),
            n <= old(self)@.len() ==> {
                &&& r matches Ok(bytes)
                &&& bytes@ == old(self)@.take(n as int)
                &&& final(self)@ == old(self)@.skip(n as int)
            },
            n > old(self)@.len() ==> {
                &&& r == Err::<&[u8], Error>(Error::UnexpectedEof)
                &&& final(self)@ == old(self)@
            },
    {
        let len = self.data.len();
        proof {
            lemma_rest_of_self(self@);
        }
        if n > len {
            Err(Error::UnexpectedEof)
        } else {
            let bytes = slice_subrange(self.data, 0, n);
            self.data = slice_subrange(self.data, n, len);
            Ok(bytes)
        }
    }
}

} // verus!
