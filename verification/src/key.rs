//! The keys of ordered mappings.

use vstd::prelude::*;
use vstd::laws_cmp::obeys_cmp;
use vstd::std_specs::btree::{axiom_increasing_seq_meaning, increasing_seq};
use vstd::std_specs::cmp::OrdSpec;
use crate::codec::Type;

verus! {

/// A type whose values can key an ordered mapping: a value is its own
/// model, and the type's comparison orders the values as their ranks are
/// ordered.
pub trait Key: Type<Model = Self> + Ord {
    /// The place of this key among all keys.
    spec fn rank(&self) -> int;

    /// A key is its own model, the type's comparison is a lawful total
    /// order, one key is less than another exactly where its rank is
    /// smaller, and no two keys share a rank.
    proof fn lemma_rank_is_order()
        ensures
            forall|k: Self| #[trigger] k.model() == k,
            obeys_cmp::<Self>(),
            forall|a: Self, b: Self| (#[trigger] a.cmp_spec(&b) is Less) <==> a.rank() < b.rank(),
            forall|a: Self, b: Self| #![trigger a.rank(), b.rank()] a.rank() == b.rank() ==> a == b,
    ;
}

/// Whether the keys `ks` stand in strictly ascending order.
pub open spec fn ascending<K: Key>(ks: Seq<K>) -> bool {
    forall|i: int, j: int|
        0 <= i < j < ks.len() ==> (#[trigger] ks[i]).rank() < (#[trigger] ks[j]).rank()
}

/// What the standard ordered map calls an increasing sequence of keys is an
/// ascending one.
pub proof fn lemma_increasing_is_ascending<K: Key>(ks: Seq<K>)
    requires
        increasing_seq(ks),
    ensures
        ascending(ks),
{
    K::lemma_rank_is_order();
    axiom_increasing_seq_meaning(ks);
    assert forall|i: int, j: int| 0 <= i < j < ks.len() implies (#[trigger] ks[i]).rank() < (
    #[trigger] ks[j]).rank() by {
        assert(ks[i].cmp_spec(&ks[j]) is Less);
    }
}

impl Key for u8 {
    open spec fn rank(&self) -> int {
        *self as int
    }

    proof fn lemma_rank_is_order() {
        broadcast use vstd::laws_cmp::group_laws_cmp;

    }
}

impl Key for u16 {
    open spec fn rank(&self) -> int {
        *self as int
    }

    proof fn lemma_rank_is_order() {
        broadcast use vstd::laws_cmp::group_laws_cmp;

    }
}

impl Key for u32 {
    open spec fn rank(&self) -> int {
        *self as int
    }

    proof fn lemma_rank_is_order() {
        broadcast use vstd::laws_cmp::group_laws_cmp;

    }
}

impl Key for u64 {
    open spec fn rank(&self) -> int {
        *self as int
    }

    proof fn lemma_rank_is_order() {
        broadcast use vstd::laws_cmp::group_laws_cmp;

    }
}

impl Key for i32 {
    open spec fn rank(&self) -> int {
        *self as int
    }

    proof fn lemma_rank_is_order() {
        broadcast use vstd::laws_cmp::group_laws_cmp;

    }
}

impl Key for i64 {
    open spec fn rank(&self) -> int {
        *self as int
    }

    proof fn lemma_rank_is_order() {
        broadcast use vstd::laws_cmp::group_laws_cmp;

    }
}

impl Key for isize {
    open spec fn rank(&self) -> int {
        *self as int
    }

    proof fn lemma_rank_is_order() {
        broadcast use vstd::laws_cmp::group_laws_cmp;

    }
}

impl Key for usize {
    open spec fn rank(&self) -> int {
        *self as int
    }

    proof fn lemma_rank_is_order() {
        broadcast use vstd::laws_cmp::group_laws_cmp;

    }
}

} // verus!
