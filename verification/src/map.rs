//! Ordered mappings: the entry count as a varint, then each entry, key
//! before value, in ascending order of the keys.

use std::collections::BTreeMap;
use vstd::prelude::*;
use vstd::std_specs::btree::{increasing_seq, spec_btree_map_iter};
use vstd::std_specs::iter::IteratorSpec;
use crate::array::{
    items_decoding, items_encoding, lemma_items_encoding_push, lemma_resume_step,
    lemma_seq_round_trip, resume, seq_decoding, seq_encoding,
};
use crate::codec::Type;
use crate::error::Error;
use crate::key::{ascending, lemma_increasing_is_ascending, Key};
use crate::source::{is_rest_of, lemma_rest_of_rest, lemma_rest_of_self, Source};
use crate::varint::varint_bytes;

verus! {

/// Whether `ks` lists the keys of `dom`, each once, in ascending order.
pub open spec fn lists<K: Key>(ks: Seq<K>, dom: Set<K>) -> bool {
    &&& ascending(ks)
    &&& forall|k: K| dom.contains(k) <==> ks.contains(k)
}

/// The keys of the finite set `dom` in ascending order.
pub open spec fn key_seq<K: Key>(dom: Set<K>) -> Seq<K> {
    choose|ks: Seq<K>| lists(ks, dom)
}

/// The entries of `m` in ascending order of their keys.
pub open spec fn map_entries<K: Key, M>(m: Map<K, M>) -> Seq<(K, M)> {
    key_seq(m.dom()).map_values(|k: K| (k, m[k]))
}

/// The keys of the entries `es`, in their order.
pub open spec fn entry_keys<K, M>(es: Seq<(K, M)>) -> Seq<K> {
    Seq::new(es.len(), |i: int| es[i].0)
}

/// The mapping that holds the entries `es`.  Where a key comes twice, the
/// later entry stands.
pub open spec fn entries_map<K, M>(es: Seq<(K, M)>) -> Map<K, M>
    decreases es.len(),
{
    if es.len() == 0 {
        Map::empty()
    } else {
        entries_map(es.drop_last()).insert(es.last().0, es.last().1)
    }
}

/// The wire form of the mapping `m`.
pub open spec fn map_encoding<K: Key, V: Type>(m: Map<K, V::Model>) -> Seq<u8> {
    seq_encoding::<(K, V)>(map_entries(m))
}

/// What a decoder of a mapping makes of `s`: a sequence of entries, put
/// into a mapping one after another.
pub open spec fn map_decoding<K: Key, V: Type>(s: Seq<u8>) -> Result<
    (Map<K, V::Model>, nat),
    Error,
> {
    match seq_decoding::<(K, V)>(s) {
        Ok((es, k)) => Ok((entries_map(es), k)),
        Err(e) => Err(e),
    }
}

/// Whether a mapping with the entries of `m` can exist.
pub open spec fn map_representable<K: Key, V: Type>(m: Map<K, V::Model>) -> bool {
    &&& m.dom().finite()
    &&& m.dom().len() <= usize::MAX
    &&& forall|k: K| #[trigger]
        m.dom().contains(k) ==> K::representable(k) && V::representable(m[k])
}

/// A finite set of keys that is not empty has a greatest key.
proof fn lemma_has_greatest<K: Key>(dom: Set<K>) -> (g: K)
    requires
        dom.finite(),
        dom.len() > 0,
    ensures
        dom.contains(g),
        forall|k: K| dom.contains(k) ==> k.rank() <= g.rank(),
    decreases dom.len(),
{
    let x = dom.choose();
    let rest = dom.remove(x);
    if rest.len() == 0 {
        rest.lemma_len0_is_empty();
        assert forall|k: K| dom.contains(k) implies k.rank() <= x.rank() by {
            if k != x {
                assert(rest.contains(k));
            }
        }
        x
    } else {
        let g = lemma_has_greatest(rest);
        let best = if x.rank() > g.rank() {
            x
        } else {
            g
        };
        assert forall|k: K| dom.contains(k) implies k.rank() <= best.rank() by {
            if k != x {
                assert(rest.contains(k));
            }
        }
        best
    }
}

/// The keys of a finite set can be listed in ascending order.
pub proof fn lemma_listable<K: Key>(dom: Set<K>) -> (ks: Seq<K>)
    requires
        dom.finite(),
    ensures
        lists(ks, dom),
    decreases dom.len(),
{
    K::lemma_rank_is_order();
    if dom.len() == 0 {
        dom.lemma_len0_is_empty();
        Seq::empty()
    } else {
        let g = lemma_has_greatest(dom);
        let rest = dom.remove(g);
        let head = lemma_listable(rest);
        let ks = head.push(g);
        assert forall|i: int, j: int| 0 <= i < j < ks.len() implies (#[trigger] ks[i]).rank() < (
        #[trigger] ks[j]).rank() by {
            if j == head.len() {
                assert(head.contains(head[i]));
                assert(rest.contains(ks[i]));
            } else {
                assert(ks[i] == head[i] && ks[j] == head[j]);
            }
        }
        assert forall|k: K| dom.contains(k) <==> ks.contains(k) by {
            if dom.contains(k) {
                if k == g {
                    assert(ks[head.len() as int] == k);
                } else {
                    assert(rest.contains(k));
                    let i = choose|i: int| 0 <= i < head.len() && head[i] == k;
                    assert(ks[i] == k);
                }
            }
            if ks.contains(k) {
                let i = choose|i: int| 0 <= i < ks.len() && ks[i] == k;
                if i < head.len() {
                    assert(head.contains(head[i]));
                    assert(rest.contains(k));
                }
            }
        }
        ks
    }
}

/// A set of keys has one ascending listing at most.
pub proof fn lemma_lists_unique<K: Key>(a: Seq<K>, b: Seq<K>, dom: Set<K>)
    requires
        lists(a, dom),
        lists(b, dom),
    ensures
        a == b,
    decreases a.len(),
{
    K::lemma_rank_is_order();
    if a.len() == 0 {
        if b.len() > 0 {
            assert(b.contains(b[0]));
            assert(a.contains(b[0]));
        }
        assert(a =~= b);
    } else {
        let ga = a.last();
        assert(a.contains(ga));
        assert(b.contains(ga));
        let j = choose|j: int| 0 <= j < b.len() && b[j] == ga;
        let gb = b.last();
        assert(b.contains(gb));
        assert(a.contains(gb));
        let i = choose|i: int| 0 <= i < a.len() && a[i] == gb;
        assert(a[i].rank() <= ga.rank());
        assert(b[j].rank() <= gb.rank());
        assert(ga == gb);
        let rest = dom.remove(ga);
        lemma_lists_drop_last(a, dom);
        lemma_lists_drop_last(b, dom);
        lemma_lists_unique(a.drop_last(), b.drop_last(), rest);
        assert(a =~= a.drop_last().push(ga));
        assert(b =~= b.drop_last().push(gb));
    }
}

/// Without its last key, a listing lists the set without that key.
proof fn lemma_lists_drop_last<K: Key>(a: Seq<K>, dom: Set<K>)
    requires
        lists(a, dom),
        a.len() > 0,
    ensures
        lists(a.drop_last(), dom.remove(a.last())),
{
    K::lemma_rank_is_order();
    let head = a.drop_last();
    let rest = dom.remove(a.last());
    assert forall|i: int, j: int| 0 <= i < j < head.len() implies (#[trigger] head[i]).rank() < (
    #[trigger] head[j]).rank() by {
        assert(head[i] == a[i] && head[j] == a[j]);
    }
    assert forall|k: K| rest.contains(k) <==> head.contains(k) by {
        if rest.contains(k) {
            assert(a.contains(k));
            let i = choose|i: int| 0 <= i < a.len() && a[i] == k;
            assert(head[i] == k);
        }
        if head.contains(k) {
            let i = choose|i: int| 0 <= i < head.len() && head[i] == k;
            assert(a[i] == k);
            assert(a.contains(k));
            assert(a[i].rank() < a[a.len() - 1].rank());
        }
    }
}

/// An ascending listing of a set is the listing that `key_seq` names.
pub proof fn lemma_key_seq<K: Key>(ks: Seq<K>, dom: Set<K>)
    requires
        lists(ks, dom),
    ensures
        key_seq(dom) == ks,
{
    lemma_lists_unique(key_seq(dom), ks, dom);
}

/// A set with a listing is finite and has as many keys as the listing.
pub proof fn lemma_lists_len<K: Key>(ks: Seq<K>, dom: Set<K>)
    requires
        lists(ks, dom),
    ensures
        dom.finite(),
        dom.len() == ks.len(),
    decreases ks.len(),
{
    if ks.len() == 0 {
        assert(dom =~= Set::<K>::empty()) by {
            assert forall|k: K| !dom.contains(k) by {
                if dom.contains(k) {
                    assert(ks.contains(k));
                }
            }
        }
    } else {
        let rest = dom.remove(ks.last());
        lemma_lists_drop_last(ks, dom);
        lemma_lists_len(ks.drop_last(), rest);
        assert(ks.contains(ks.last()));
        assert(dom =~= rest.insert(ks.last()));
    }
}

/// The entries of a mapping are in strictly ascending order of their keys,
/// each key of the mapping once, each with its value.
pub proof fn lemma_map_entries<K: Key, M>(m: Map<K, M>)
    requires
        m.dom().finite(),
    ensures
        map_entries(m).len() == m.dom().len(),
        lists(entry_keys(map_entries(m)), m.dom()),
        forall|i: int|
            0 <= i < map_entries(m).len() ==> (#[trigger] map_entries(m)[i]).1
                == m[map_entries(m)[i].0],
{
    let ks = lemma_listable(m.dom());
    lemma_key_seq(ks, m.dom());
    lemma_lists_len(ks, m.dom());
    assert(entry_keys(map_entries(m)) =~= ks);
}

/// The mapping built from entries with ascending keys holds each of them.
proof fn lemma_entries_map_holds<K: Key, M>(es: Seq<(K, M)>)
    requires
        ascending(entry_keys(es)),
    ensures
        forall|k: K| entries_map(es).dom().contains(k) <==> entry_keys(es).contains(k),
        forall|i: int|
            0 <= i < es.len() ==> entries_map(es).dom().contains((#[trigger] es[i]).0)
                && entries_map(es)[es[i].0] == es[i].1,
    decreases es.len(),
{
    K::lemma_rank_is_order();
    let ks = entry_keys(es);
    if es.len() == 0 {
        assert forall|k: K| !ks.contains(k) by {}
    } else {
        let head = es.drop_last();
        let hks = entry_keys(head);
        assert(hks =~= ks.drop_last());
        assert forall|i: int, j: int| 0 <= i < j < hks.len() implies (#[trigger] hks[i]).rank() < (
        #[trigger] hks[j]).rank() by {
            assert(hks[i] == ks[i] && hks[j] == ks[j]);
        }
        lemma_entries_map_holds(head);
        let last = es.last();
        assert forall|k: K| entries_map(es).dom().contains(k) <==> ks.contains(k) by {
            if entries_map(es).dom().contains(k) {
                if k == last.0 {
                    assert(ks[es.len() - 1] == k);
                } else {
                    assert(hks.contains(k));
                    let i = choose|i: int| 0 <= i < hks.len() && hks[i] == k;
                    assert(ks[i] == k);
                }
            }
            if ks.contains(k) {
                let i = choose|i: int| 0 <= i < ks.len() && ks[i] == k;
                if i < head.len() {
                    assert(hks[i] == k);
                    assert(hks.contains(k));
                }
            }
        }
        assert forall|i: int| 0 <= i < es.len() implies entries_map(es).dom().contains(
            (#[trigger] es[i]).0,
        ) && entries_map(es)[es[i].0] == es[i].1 by {
            if i < head.len() {
                assert(head[i] == es[i]);
                assert(ks[i].rank() < ks[es.len() - 1].rank());
            }
        }
    }
}

/// Putting the entries of a mapping into a mapping gives the mapping back.
pub proof fn lemma_entries_map_of_entries<K: Key, M>(m: Map<K, M>)
    requires
        m.dom().finite(),
    ensures
        entries_map(map_entries(m)) == m,
{
    let es = map_entries(m);
    lemma_map_entries(m);
    lemma_entries_map_holds(es);
    let ks = entry_keys(es);
    assert forall|k: K| m.dom().contains(k) implies #[trigger] entries_map(es)[k] == m[k] by {
        assert(ks.contains(k));
        let i = choose|i: int| 0 <= i < ks.len() && ks[i] == k;
        assert(es[i].0 == k);
    }
    assert(entries_map(es) =~= m);
}

/// Decoding an encoded mapping gives the mapping back, whatever follows it.
pub proof fn lemma_map_round_trip<K: Key, V: Type>(m: Map<K, V::Model>, rest: Seq<u8>)
    requires
        K::decodable(),
        V::decodable(),
        map_representable::<K, V>(m),
    ensures
        map_decoding::<K, V>(map_encoding::<K, V>(m) + rest) == Ok::<
            (Map<K, V::Model>, nat),
            Error,
        >((m, map_encoding::<K, V>(m).len())),
{
    let es = map_entries(m);
    lemma_map_entries(m);
    assert forall|i: int| 0 <= i < es.len() implies <(K, V) as Type>::representable(
        #[trigger] es[i],
    ) by {
        assert(entry_keys(es)[i] == es[i].0);
        assert(entry_keys(es).contains(es[i].0));
        assert(m.dom().contains(es[i].0));
    }
    lemma_seq_round_trip::<(K, V)>(es, rest);
    lemma_entries_map_of_entries(m);
}

/// Two mappings with the same entries have the same wire form, however
/// each of them came to hold its entries.
pub proof fn lemma_map_encoding_by_entries<K: Key, V: Type>(a: BTreeMap<K, V>, b: BTreeMap<K, V>)
    requires
        a@ == b@,
    ensures
        map_encoding::<K, V>(a.model()) == map_encoding::<K, V>(b.model()),
{
}

/// The mapping from each key of `m` to the model of its value.
pub open spec fn value_models<K, V: Type>(m: Map<K, V>) -> Map<K, V::Model> {
    Map::new(|k: K| m.dom().contains(k), |k: K| m[k].model())
}

/// The entries that an iteration over a mapping yields, each value as its
/// model.
pub open spec fn yielded<K: Key, V: Type>(all: Seq<(&K, &V)>) -> Seq<(K, V::Model)> {
    Seq::new(all.len(), |i: int| (*all[i].0, (*all[i].1).model()))
}

/// What walking a mapping in the order of its keys yields is the entries
/// of the mapping.
proof fn lemma_yielded_is_entries<K: Key, V: Type>(m: Map<K, V>, all: Seq<(&K, &V)>)
    requires
        m.dom().finite(),
        increasing_seq(all.map_values(|kv: (&K, &V)| *kv.0)),
        forall|i: int|
            0 <= i < all.len() ==> m.contains_key(*(#[trigger] all[i]).0)
                && m[*all[i].0] == *all[i].1,
        forall|k: K| #[trigger] m.contains_key(k) ==> all.contains((&k, &m[k])),
    ensures
        yielded(all) == map_entries(value_models(m)),
{
    let es = yielded::<K, V>(all);
    let ks = entry_keys(es);
    let vm = value_models(m);
    assert(ks =~= all.map_values(|kv: (&K, &V)| *kv.0));
    lemma_increasing_is_ascending(ks);
    assert forall|k: K| vm.dom().contains(k) <==> ks.contains(k) by {
        if vm.dom().contains(k) {
            assert(m.contains_key(k));
            let i = choose|i: int| 0 <= i < all.len() && all[i] == (&k, &m[k]);
            assert(ks[i] == k);
        }
        if ks.contains(k) {
            let i = choose|i: int| 0 <= i < ks.len() && ks[i] == k;
            assert(m.contains_key(*all[i].0));
        }
    }
    lemma_key_seq(ks, vm.dom());
    assert(es =~= map_entries(vm));
}

impl<K: Key, V: Type> Type for BTreeMap<K, V> {
    type Model = Map<K, V::Model>;

    open spec fn model(&self) -> Map<K, V::Model> {
        value_models(self@)
    }

    open spec fn representable(m: Map<K, V::Model>) -> bool {
        map_representable::<K, V>(m)
    }

    open spec fn decodable() -> bool {
        K::decodable() && V::decodable()
    }

    open spec fn encoding(m: Map<K, V::Model>) -> Seq<u8> {
        map_encoding::<K, V>(m)
    }

    open spec fn decoding(s: Seq<u8>) -> Result<(Map<K, V::Model>, nat), Error> {
        map_decoding::<K, V>(s)
    }

    fn encode_bin(&self, dest: &mut Vec<u8>) -> (n: usize) {
        proof {
            K::lemma_rank_is_order();
        }
        let count = self.len();
        let mut n = count.encode_bin(dest);
        let ghost all = spec_btree_map_iter(self).remaining();
        let ghost es = yielded::<K, V>(all);
        proof {
            assert(es.take(0) =~= Seq::<(K, V::Model)>::empty());
            assert(dest@ =~= old(dest)@ + varint_bytes(count as nat) + items_encoding::<(K, V)>(
                es.take(0),
            ));
        }
        for kv in it: self.iter()
            invariant
                it.seq() == all,
                es == yielded::<K, V>(all),
                dest@ == old(dest)@ + varint_bytes(count as nat) + items_encoding::<(K, V)>(
                    es.take(it.index()),
                ),
                n + old(dest)@.len() == dest@.len(),
                forall|j: int|
                    0 <= j < it.index() ==> <(K, V) as Type>::representable(#[trigger] es[j]),
        {
            let ghost i = it.index();
            let (k, v) = kv;
            let n0 = k.encode_bin(dest);
            let n1 = v.encode_bin(dest);
            proof {
                K::lemma_rank_is_order();
                assert(dest@.len() == dest.len());
                assert(es[i] == (k.model(), v.model()));
                lemma_items_encoding_push::<(K, V)>(es.take(i), es[i]);
                assert(es.take(i).push(es[i]) =~= es.take(i + 1));
                assert(dest@ =~= old(dest)@ + varint_bytes(count as nat) + items_encoding::<(K, V)>(
                    es.take(i + 1),
                ));
            }
            n = n + n0 + n1;
        }
        proof {
            assert(es.take(es.len() as int) =~= es);
            lemma_yielded_is_entries::<K, V>(self@, all);
            let m = self.model();
            assert(m.dom() =~= self@.dom());
            assert(self@.dom().finite());
            assert(self@.dom().len() == count);
            assert forall|k: K| #[trigger] m.dom().contains(k) implies K::representable(k)
                && V::representable(m[k]) by {
                let i = choose|i: int| 0 <= i < all.len() && all[i] == (&k, &self@[k]);
                assert(es[i] == (k, m[k]));
            }
        }
        n
    }

    fn decode_bin(src: &mut Source) -> (r: Result<Self, Error>) {
        proof {
            K::lemma_rank_is_order();
        }
        let count = usize::decode_bin(src)?;
        let ghost start = src@;
        let ghost lead = (old(src)@.len() - start.len()) as nat;
        let mut dest: BTreeMap<K, V> = BTreeMap::new();
        let ghost mut done: Seq<(K, V::Model)> = Seq::empty();
        let mut i: usize = 0;
        proof {
            lemma_rest_of_self(start);
            assert(value_models(dest@) =~= entries_map(done));
            match items_decoding::<(K, V)>(start, count as nat) {
                Ok((ms, k)) => {
                    assert(Seq::<(K, V::Model)>::empty() + ms =~= ms);
                },
                Err(e) => {},
            }
            assert(start =~= old(src)@.skip(lead as int));
        }
        while i < count
            invariant
                i <= count,
                value_models(dest@) == entries_map(done),
                is_rest_of(src@, start),
                is_rest_of(start, old(src)@),
                lead == old(src)@.len() - start.len(),
                seq_decoding::<(K, V)>(old(src)@) == resume(
                    items_decoding::<(K, V)>(start, count as nat),
                    Seq::<(K, V::Model)>::empty(),
                    lead,
                ),
                items_decoding::<(K, V)>(start, count as nat) == resume(
                    items_decoding::<(K, V)>(src@, (count - i) as nat),
                    done,
                    (start.len() - src@.len()) as nat,
                ),
            decreases count - i,
        {
            let ghost here = src@;
            let entry = match <(K, V) as Type>::decode_bin(src) {
                Ok(entry) => entry,
                Err(e) => {
                    proof {
                        lemma_rest_of_rest(src@, here, start);
                        lemma_rest_of_rest(src@, start, old(src)@);
                    }
                    return Err(e);
                },
            };
            let ghost m = entry.model();
            proof {
                K::lemma_rank_is_order();
            }
            dest.insert(entry.0, entry.1);
            proof {
                lemma_rest_of_rest(src@, here, start);
                lemma_resume_step::<(K, V)>(
                    here,
                    (count - i) as nat,
                    done,
                    (start.len() - here.len()) as nat,
                );
                let ghost prev = done;
                done = prev.push(m);
                assert(done.drop_last() =~= prev);
                assert(value_models(dest@) =~= entries_map(done));
            }
            i = i + 1;
        }
        proof {
            lemma_rest_of_rest(src@, start, old(src)@);
            assert(Seq::<(K, V::Model)>::empty() + done =~= done);
            assert(src@ =~= old(src)@.skip(lead + (start.len() - src@.len())));
        }
        Ok(dest)
    }

    proof fn lemma_round_trip(m: Map<K, V::Model>, rest: Seq<u8>) {
        if K::decodable() && V::decodable() {
            lemma_map_round_trip::<K, V>(m, rest);
        }
    }
}

} // verus!
