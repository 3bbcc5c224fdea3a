//! Typed indexed tables over a fork's keyspace: a plain map table and a
//! dense sequence table, each living under its own one-byte namespace, and
//! the hash-chain root that commits to a sequence's content and order.
//!
//! Composite keys concatenate the namespace, a table-local tag byte, and
//! the serialized index, so tables under distinct namespaces never collide.

use vstd::prelude::*;
use vstd::map::*;
use crate::codec::{u64_le, le_u64, lemma_le_round_trip, push_u64_le, read_u64_le, push_bytes};
use crate::fork::Fork;
use crate::hash::{chain_next, chain_next_exec, empty_root, empty_root_exec};

verus! {

/// The storage key of a map-table entry.
pub open spec fn entry_key(ns: u8, key: Seq<u8>) -> Seq<u8> {
    seq![ns, 0u8] + key
}

/// The storage key holding a sequence table's length.
pub open spec fn len_key(ns: u8) -> Seq<u8> {
    seq![ns, 1u8]
}

/// The storage key of a sequence table's `i`-th element.
pub open spec fn item_key(ns: u8, i: u64) -> Seq<u8> {
    seq![ns, 2u8] + u64_le(i)
}

/// The length a sequence table stores, zero when never written.
pub open spec fn list_len(m: Map<Seq<u8>, Seq<u8>>, ns: u8) -> u64 {
    if m.contains_key(len_key(ns)) {
        le_u64(m[len_key(ns)])
    } else {
        0
    }
}

/// The element sequence a sequence table holds.
pub open spec fn list_view(m: Map<Seq<u8>, Seq<u8>>, ns: u8) -> Seq<Seq<u8>> {
    Seq::new(
        list_len(m, ns) as nat,
        |i: int|
            if m.contains_key(item_key(ns, i as u64)) {
                m[item_key(ns, i as u64)]
            } else {
                Seq::empty()
            },
    )
}

/// A sequence table is well formed when its stored length is eight bytes.
pub open spec fn list_wf(m: Map<Seq<u8>, Seq<u8>>, ns: u8) -> bool {
    m.contains_key(len_key(ns)) ==> m[len_key(ns)].len() == 8
}

/// Distinct indices name distinct item keys, and neither collides with the
/// length key.
pub proof fn lemma_item_keys(ns: u8, i: u64, j: u64)
    ensures
        i != j ==> item_key(ns, i) != item_key(ns, j),
        item_key(ns, i) != len_key(ns),
{
    if i != j && item_key(ns, i) == item_key(ns, j) {
        assert forall|k: int| 0 <= k < 8 implies u64_le(i)[k] == u64_le(j)[k] by {
            assert(item_key(ns, i)[k + 2] == u64_le(i)[k]);
            assert(item_key(ns, j)[k + 2] == u64_le(j)[k]);
        }
        assert(u64_le(i) =~= u64_le(j));
        lemma_le_round_trip(i);
        lemma_le_round_trip(j);
    }
    assert(item_key(ns, i).len() == 10);
}

/// A plain byte-key/byte-value table under one namespace.
pub struct MapTable {
    pub ns: u8,
}

impl MapTable {
    /// The storage key this table gives a logical key.
    pub open spec fn key_of(&self, key: Seq<u8>) -> Seq<u8> {
        entry_key(self.ns, key)
    }

    /// Reads the value stored under `key`, if any.
    pub fn get(&self, f: &Fork, key: &Vec<u8>) -> (r: Option<Vec<u8>>)
        requires
            f.wf(),
        ensures
            match r {
                Some(v) => f.mapv().contains_key(self.key_of(key@)) && v@ == f.mapv()[self.key_of(
                    key@,
                )],
                None => !f.mapv().contains_key(self.key_of(key@)),
            },
    {
        let k = compose_key(self.ns, 0u8, key);
        f.get(&k)
    }

    /// Stores `value` under `key`.
    pub fn put(&self, f: &mut Fork, key: &Vec<u8>, value: Vec<u8>)
        requires
            old(f).wf(),
        ensures
            final(f).wf(),
            final(f).basev() == old(f).basev(),
            final(f).mapv() == old(f).mapv().insert(self.key_of(key@), value@),
            final(f).logv() == old(f).logv().push((self.key_of(key@), Some(value@))),
    {
        let k = compose_key(self.ns, 0u8, key);
        f.put(k, value);
    }

    /// Deletes whatever is stored under `key`.
    pub fn delete(&self, f: &mut Fork, key: &Vec<u8>)
        requires
            old(f).wf(),
        ensures
            final(f).wf(),
            final(f).basev() == old(f).basev(),
            final(f).mapv() == old(f).mapv().remove(self.key_of(key@)),
            final(f).logv() == old(f).logv().push((self.key_of(key@), None)),
    {
        let k = compose_key(self.ns, 0u8, key);
        f.delete(k);
    }
}

/// Builds a composite key: namespace, tag, then the logical key.
fn compose_key(ns: u8, tag: u8, key: &Vec<u8>) -> (r: Vec<u8>)
    ensures
        r@ == seq![ns, tag] + key@,
{
    let mut r: Vec<u8> = Vec::new();
    r.push(ns);
    r.push(tag);
    push_bytes(&mut r, key);
    proof {
        assert(r@ =~= seq![ns, tag] + key@);
    }
    r
}

/// A dense sequence table: indices `0 .. len` map to values, backed by the
/// map keyspace plus a stored length.
pub struct SeqTable {
    pub ns: u8,
}

impl SeqTable {
    /// How many elements the table holds in the fork.
    pub fn len(&self, f: &Fork) -> (n: u64)
        requires
            f.wf(),
            list_wf(f.mapv(), self.ns),
        ensures
            n == list_len(f.mapv(), self.ns),
    {
        let k = compose_len_key(self.ns);
        match f.get(&k) {
            Some(v) => read_u64_le(&v, 0),
            None => 0,
        }
    }

    /// Reads the `i`-th element.
    pub fn get(&self, f: &Fork, i: u64) -> (r: Option<Vec<u8>>)
        requires
            f.wf(),
        ensures
            match r {
                Some(v) => f.mapv().contains_key(item_key(self.ns, i)) && v@ == f.mapv()[item_key(
                    self.ns,
                    i,
                )],
                None => !f.mapv().contains_key(item_key(self.ns, i)),
            },
    {
        let mut k: Vec<u8> = Vec::new();
        k.push(self.ns);
        k.push(2u8);
        push_u64_le(&mut k, i);
        proof {
            assert(k@ =~= item_key(self.ns, i));
        }
        f.get(&k)
    }

    /// Replaces the `i`-th element; the length and every other element stay.
    pub fn set(&self, f: &mut Fork, i: u64, value: Vec<u8>)
        requires
            old(f).wf(),
            list_wf(old(f).mapv(), self.ns),
            i < list_len(old(f).mapv(), self.ns),
        ensures
            final(f).wf(),
            final(f).basev() == old(f).basev(),
            list_wf(final(f).mapv(), self.ns),
            list_len(final(f).mapv(), self.ns) == list_len(old(f).mapv(), self.ns),
            list_view(final(f).mapv(), self.ns) == list_view(old(f).mapv(), self.ns).update(
                i as int,
                value@,
            ),
            final(f).mapv() == old(f).mapv().insert(item_key(self.ns, i), value@),
            final(f).logv() == old(f).logv().push((item_key(self.ns, i), Some(value@))),
    {
        let ghost m0 = old(f).mapv();
        let ghost vv = value@;
        let mut ik: Vec<u8> = Vec::new();
        ik.push(self.ns);
        ik.push(2u8);
        push_u64_le(&mut ik, i);
        proof {
            assert(ik@ =~= item_key(self.ns, i));
        }
        f.put(ik, value);
        proof {
            let m2 = f.mapv();
            lemma_item_keys(self.ns, i, i);
            assert(list_len(m2, self.ns) == list_len(m0, self.ns));
            assert forall|j: int|
                0 <= j < list_len(m0, self.ns) implies list_view(m2, self.ns)[j] == list_view(
                m0,
                self.ns,
            ).update(i as int, vv)[j] by {
                lemma_item_keys(self.ns, j as u64, i);
                lemma_item_keys(self.ns, i, j as u64);
            }
            assert(list_view(m2, self.ns) =~= list_view(m0, self.ns).update(i as int, vv));
        }
    }

    /// Appends one element: the new element lands at the old length and the
    /// stored length grows by one; every earlier element stays put.
    pub fn push(&self, f: &mut Fork, value: Vec<u8>)
        requires
            old(f).wf(),
            list_wf(old(f).mapv(), self.ns),
            list_len(old(f).mapv(), self.ns) < u64::MAX,
        ensures
            final(f).wf(),
            final(f).basev() == old(f).basev(),
            list_wf(final(f).mapv(), self.ns),
            list_len(final(f).mapv(), self.ns) == list_len(old(f).mapv(), self.ns) + 1,
            list_view(final(f).mapv(), self.ns) == list_view(old(f).mapv(), self.ns).push(value@),
            final(f).mapv() == old(f).mapv().insert(
                item_key(self.ns, list_len(old(f).mapv(), self.ns)),
                value@,
            ).insert(len_key(self.ns), u64_le((list_len(old(f).mapv(), self.ns) + 1) as u64)),
    {
        let ghost m0 = old(f).mapv();
        let n = self.len(f);
        let ghost vv = value@;
        let mut ik: Vec<u8> = Vec::new();
        ik.push(self.ns);
        ik.push(2u8);
        push_u64_le(&mut ik, n);
        proof {
            assert(ik@ =~= item_key(self.ns, n));
        }
        f.put(ik, value);
        let lk = compose_len_key(self.ns);
        let mut lv: Vec<u8> = Vec::new();
        push_u64_le(&mut lv, n + 1);
        f.put(lk, lv);
        proof {
            let m2 = f.mapv();
            lemma_le_round_trip((n + 1) as u64);
            assert(list_len(m2, self.ns) == n + 1);
            assert forall|i: int|
                0 <= i <= n implies list_view(m2, self.ns)[i] == list_view(
                m0,
                self.ns,
            ).push(vv)[i] by {
                lemma_item_keys(self.ns, i as u64, n);
                lemma_item_keys(self.ns, n, i as u64);
            }
            assert(list_view(m2, self.ns) =~= list_view(m0, self.ns).push(vv));
        }
    }
}

impl SeqTable {
    /// The newest element of the sequence table, if it holds any.
    pub fn last(&self, f: &Fork) -> (r: Option<Vec<u8>>)
        requires
            f.wf(),
            list_wf(f.mapv(), self.ns),
            forall|i: u64|
                i < list_len(f.mapv(), self.ns) ==> f.mapv().contains_key(
                    #[trigger] item_key(self.ns, i),
                ),
        ensures
            match r {
                Some(v) => list_view(f.mapv(), self.ns).len() > 0 && v@ == list_view(
                    f.mapv(),
                    self.ns,
                ).last(),
                None => list_view(f.mapv(), self.ns).len() == 0,
            },
    {
        let n = self.len(f);
        if n == 0 {
            return None;
        }
        let r = self.get(f, n - 1);
        proof {
            assert(f.mapv().contains_key(item_key(self.ns, (n - 1) as u64)));
        }
        r
    }
}

/// Builds the key holding a sequence table's length.
fn compose_len_key(ns: u8) -> (r: Vec<u8>)
    ensures
        r@ == len_key(ns),
{
    let mut r: Vec<u8> = Vec::new();
    r.push(ns);
    r.push(1u8);
    proof {
        assert(r@ =~= len_key(ns));
    }
    r
}

/// The hash-chain root of an element sequence: commits to the elements and
/// to their order.
pub open spec fn chain_root(items: Seq<Seq<u8>>) -> Seq<u8>
    decreases items.len(),
{
    if items.len() == 0 {
        empty_root()
    } else {
        chain_next(chain_root(items.drop_last()), items.last())
    }
}

impl SeqTable {
    /// Computes the root that commits to the table's full content and order.
    pub fn root(&self, f: &Fork) -> (r: Vec<u8>)
        requires
            f.wf(),
            list_wf(f.mapv(), self.ns),
            forall|i: u64|
                i < list_len(f.mapv(), self.ns) ==> f.mapv().contains_key(
                    #[trigger] item_key(self.ns, i),
                ),
        ensures
            r@ == chain_root(list_view(f.mapv(), self.ns)),
    {
        let ghost items = list_view(f.mapv(), self.ns);
        let n = self.len(f);
        let mut acc = empty_root_exec();
        proof {
            assert(items.subrange(0, 0) =~= Seq::<Seq<u8>>::empty());
        }
        let mut i: u64 = 0;
        while i < n
            invariant
                f.wf(),
                list_wf(f.mapv(), self.ns),
                forall|j: u64|
                    j < list_len(f.mapv(), self.ns) ==> f.mapv().contains_key(
                        #[trigger] item_key(self.ns, j),
                    ),
                items == list_view(f.mapv(), self.ns),
                n == list_len(f.mapv(), self.ns),
                0 <= i <= n,
                acc@ == chain_root(items.subrange(0, i as int)),
            decreases n - i,
        {
            let item = match self.get(f, i) {
                Some(v) => v,
                None => {
                    proof {
                        assert(false);
                    }
                    Vec::new()
                },
            };
            assert(item@ == items[i as int]);
            acc = chain_next_exec(&acc, &item);
            proof {
                let s1 = items.subrange(0, i + 1);
                assert(s1.drop_last() =~= items.subrange(0, i as int));
                assert(s1.last() == items[i as int]);
            }
            i = i + 1;
        }
        proof {
            assert(items.subrange(0, n as int) =~= items);
        }
        acc
    }
}

} // verus!
