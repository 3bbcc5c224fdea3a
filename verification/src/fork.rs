//! Versioned key/value storage: an immutable `Store` snapshot and a
//! single-writer, copy-on-write `Fork` overlay with checkpoint/rollback.
//!
//! A `Fork` buffers pending writes in an ordered log. Reads consult the log
//! first (newest entry wins), then fall through to the base snapshot, so a
//! fork observes the base as of opening plus exactly its own writes.
//! `commit` folds the log into a new snapshot; `discard` drops it whole.

use vstd::prelude::*;
use vstd::map::*;
use crate::bytes_eq;
use crate::clone_bytes;

verus! {

/// Spec view of an `Option<Vec<u8>>`.
pub open spec fn opt_view(o: Option<Vec<u8>>) -> Option<Seq<u8>> {
    match o {
        Some(v) => Some(v@),
        None => None,
    }
}

/// Spec view of a snapshot's entry list.
pub open spec fn entry_views(es: Seq<(Vec<u8>, Vec<u8>)>) -> Seq<(Seq<u8>, Seq<u8>)> {
    es.map_values(|e: (Vec<u8>, Vec<u8>)| (e.0@, e.1@))
}

/// Spec view of a fork's write log: `Some` records a put, `None` a delete.
pub open spec fn log_views(ls: Seq<(Vec<u8>, Option<Vec<u8>>)>) -> Seq<
    (Seq<u8>, Option<Seq<u8>>),
> {
    ls.map_values(|e: (Vec<u8>, Option<Vec<u8>>)| (e.0@, opt_view(e.1)))
}

/// No two entries carry the same key.
pub open spec fn unique_keys(es: Seq<(Seq<u8>, Seq<u8>)>) -> bool {
    forall|i: int, j: int| 0 <= i < j < es.len() ==> es[i].0 != es[j].0
}

/// The key/value map an entry list denotes.
pub open spec fn map_of(es: Seq<(Seq<u8>, Seq<u8>)>) -> Map<Seq<u8>, Seq<u8>>
    decreases es.len(),
{
    if es.len() == 0 {
        Map::empty()
    } else {
        map_of(es.drop_last()).insert(es.last().0, es.last().1)
    }
}

/// The map a base snapshot denotes after replaying a write log over it.
pub open spec fn apply_log(
    base: Map<Seq<u8>, Seq<u8>>,
    log: Seq<(Seq<u8>, Option<Seq<u8>>)>,
) -> Map<Seq<u8>, Seq<u8>>
    decreases log.len(),
{
    if log.len() == 0 {
        base
    } else {
        let m = apply_log(base, log.drop_last());
        match log.last().1 {
            Some(v) => m.insert(log.last().0, v),
            None => m.remove(log.last().0),
        }
    }
}

/// The newest log entry for a key, if the log touches the key at all.
pub open spec fn log_lookup(log: Seq<(Seq<u8>, Option<Seq<u8>>)>, k: Seq<u8>) -> Option<
    Option<Seq<u8>>,
>
    decreases log.len(),
{
    if log.len() == 0 {
        None
    } else if log.last().0 == k {
        Some(log.last().1)
    } else {
        log_lookup(log.drop_last(), k)
    }
}

/// Index of the first entry with key `k`, or -1 when no entry has it.
pub open spec fn find_idx(es: Seq<(Seq<u8>, Seq<u8>)>, k: Seq<u8>) -> int
    decreases es.len(),
{
    if es.len() == 0 {
        -1
    } else if es[0].0 == k {
        0
    } else if find_idx(es.drop_first(), k) == -1 {
        -1
    } else {
        find_idx(es.drop_first(), k) + 1
    }
}

/// One write or deletion folded into an entry list.
pub open spec fn spec_apply_entry(
    es: Seq<(Seq<u8>, Seq<u8>)>,
    k: Seq<u8>,
    ov: Option<Seq<u8>>,
) -> Seq<(Seq<u8>, Seq<u8>)> {
    let i = find_idx(es, k);
    match ov {
        Some(v) => if i == -1 {
            es.push((k, v))
        } else {
            es.update(i, (k, v))
        },
        None => if i == -1 {
            es
        } else {
            es.remove(i)
        },
    }
}

/// A whole write log folded into an entry list, oldest write first.
pub open spec fn spec_merge(
    es: Seq<(Seq<u8>, Seq<u8>)>,
    log: Seq<(Seq<u8>, Option<Seq<u8>>)>,
) -> Seq<(Seq<u8>, Seq<u8>)>
    decreases log.len(),
{
    if log.len() == 0 {
        es
    } else {
        spec_apply_entry(spec_merge(es, log.drop_last()), log.last().0, log.last().1)
    }
}

/// `find_idx` finds an entry with the key, or there is none.
pub proof fn lemma_find_idx(es: Seq<(Seq<u8>, Seq<u8>)>, k: Seq<u8>)
    ensures
        find_idx(es, k) == -1 ==> forall|i: int| 0 <= i < es.len() ==> (#[trigger] es[i]).0 != k,
        find_idx(es, k) != -1 ==> 0 <= find_idx(es, k) < es.len() && es[find_idx(es, k)].0 == k,
    decreases es.len(),
{
    if es.len() > 0 && es[0].0 != k {
        lemma_find_idx(es.drop_first(), k);
        if find_idx(es, k) == -1 {
            assert forall|i: int| 0 <= i < es.len() implies (#[trigger] es[i]).0 != k by {
                if i > 0 {
                    assert(es.drop_first()[i - 1] == es[i]);
                }
            }
        } else {
            assert(es.drop_first()[find_idx(es, k) - 1] == es[find_idx(es, k)]);
        }
    }
}

/// The first match the executable scan finds is what `find_idx` names.
pub proof fn lemma_find_idx_first(es: Seq<(Seq<u8>, Seq<u8>)>, k: Seq<u8>, i: int)
    requires
        0 <= i < es.len(),
        es[i].0 == k,
        forall|j: int| 0 <= j < i ==> (#[trigger] es[j]).0 != k,
    ensures
        find_idx(es, k) == i,
    decreases i,
{
    if i > 0 {
        assert(es[0].0 != k);
        let tail = es.drop_first();
        assert(tail[i - 1] == es[i]);
        assert forall|j: int| 0 <= j < i - 1 implies (#[trigger] tail[j]).0 != k by {
            assert(tail[j] == es[j + 1]);
        }
        lemma_find_idx_first(tail, k, i - 1);
    }
}

/// A key no entry carries is not found.
pub proof fn lemma_find_idx_none(es: Seq<(Seq<u8>, Seq<u8>)>, k: Seq<u8>)
    requires
        forall|j: int| 0 <= j < es.len() ==> (#[trigger] es[j]).0 != k,
    ensures
        find_idx(es, k) == -1,
    decreases es.len(),
{
    if es.len() > 0 {
        let tail = es.drop_first();
        assert forall|j: int| 0 <= j < tail.len() implies (#[trigger] tail[j]).0 != k by {
            assert(tail[j] == es[j + 1]);
        }
        lemma_find_idx_none(tail, k);
    }
}

/// Overwriting the entry that holds key `k` inserts into the denoted map.
proof fn lemma_map_of_update(es: Seq<(Seq<u8>, Seq<u8>)>, i: int, k: Seq<u8>, v: Seq<u8>)
    requires
        unique_keys(es),
        0 <= i < es.len(),
        es[i].0 == k,
    ensures
        unique_keys(es.update(i, (k, v))),
        map_of(es.update(i, (k, v))) == map_of(es).insert(k, v),
    decreases es.len(),
{
    let es2 = es.update(i, (k, v));
    assert forall|a: int, b: int| 0 <= a < b < es2.len() implies (#[trigger] es2[a]).0 != (
    #[trigger] es2[b]).0 by {
        assert(es2[a].0 == es[a].0 && es2[b].0 == es[b].0);
    }
    let es0 = es.drop_last();
    if i == es.len() - 1 {
        assert(es2.drop_last() =~= es0);
        assert(es2.last() == (k, v));
        assert(map_of(es2) =~= map_of(es).insert(k, v));
    } else {
        assert(unique_keys(es0));
        assert(es0[i] == es[i]);
        lemma_map_of_update(es0, i, k, v);
        assert(es2.drop_last() =~= es0.update(i, (k, v)));
        assert(es2.last() == es.last());
        assert(es.last().0 != k);
        assert(map_of(es2) =~= map_of(es).insert(k, v));
    }
}

/// Appending an entry under a fresh key inserts into the denoted map.
proof fn lemma_map_of_push(es: Seq<(Seq<u8>, Seq<u8>)>, k: Seq<u8>, v: Seq<u8>)
    requires
        unique_keys(es),
        forall|j: int| 0 <= j < es.len() ==> (#[trigger] es[j]).0 != k,
    ensures
        unique_keys(es.push((k, v))),
        map_of(es.push((k, v))) == map_of(es).insert(k, v),
{
    let es2 = es.push((k, v));
    assert forall|a: int, b: int| 0 <= a < b < es2.len() implies (#[trigger] es2[a]).0 != (
    #[trigger] es2[b]).0 by {
        if b < es2.len() - 1 {
            assert(es2[a] == es[a] && es2[b] == es[b]);
        } else {
            assert(es2[a] == es[a] && es2[b] == (k, v));
        }
    }
    assert(es2.drop_last() =~= es);
    assert(es2.last() == (k, v));
}

/// Removing the entry that holds key `k` removes it from the denoted map.
proof fn lemma_map_of_remove(es: Seq<(Seq<u8>, Seq<u8>)>, i: int)
    requires
        unique_keys(es),
        0 <= i < es.len(),
    ensures
        unique_keys(es.remove(i)),
        map_of(es.remove(i)) == map_of(es).remove(es[i].0),
    decreases es.len(),
{
    let k = es[i].0;
    let er = es.remove(i);
    assert forall|a: int, b: int| 0 <= a < b < er.len() implies (#[trigger] er[a]).0 != (
    #[trigger] er[b]).0 by {
        let a2: int = if a < i {
            a
        } else {
            a + 1
        };
        let b2: int = if b < i {
            b
        } else {
            b + 1
        };
        assert(er[a] == es[a2] && er[b] == es[b2]);
    }
    let es0 = es.drop_last();
    assert(unique_keys(es0));
    if i == es.len() - 1 {
        assert(er =~= es0);
        lemma_map_of_props(es0);
        if map_of(es0).contains_key(k) {
            let j = choose|j: int| 0 <= j < es0.len() && es0[j].0 == k;
            assert(es[j].0 == es[i].0);
            assert(false);
        }
        assert(map_of(er) =~= map_of(es).remove(k));
    } else {
        assert(es0[i] == es[i]);
        lemma_map_of_remove(es0, i);
        assert(er.drop_last() =~= es0.remove(i));
        assert(er.last() == es.last());
        assert(es.last().0 != k);
        assert(map_of(er) =~= map_of(es).remove(k));
    }
}

/// Folding one logged write into an entry list acts on the denoted map as
/// an insert or a remove, and keeps keys unique.
pub proof fn lemma_apply_entry_map(es: Seq<(Seq<u8>, Seq<u8>)>, k: Seq<u8>, ov: Option<Seq<u8>>)
    requires
        unique_keys(es),
    ensures
        unique_keys(spec_apply_entry(es, k, ov)),
        map_of(spec_apply_entry(es, k, ov)) == match ov {
            Some(v) => map_of(es).insert(k, v),
            None => map_of(es).remove(k),
        },
{
    lemma_find_idx(es, k);
    let i = find_idx(es, k);
    match ov {
        Some(v) => {
            if i == -1 {
                lemma_map_of_push(es, k, v);
            } else {
                lemma_map_of_update(es, i, k, v);
            }
        },
        None => {
            if i == -1 {
                lemma_map_of_props(es);
                if map_of(es).contains_key(k) {
                    let j = choose|j: int| 0 <= j < es.len() && es[j].0 == k;
                    assert(false);
                }
                assert(map_of(es) =~= map_of(es).remove(k));
            } else {
                lemma_map_of_remove(es, i);
            }
        },
    }
}

/// Folding a whole log into an entry list denotes the same map as replaying
/// the log over the denoted map.
pub proof fn lemma_merge_map(es: Seq<(Seq<u8>, Seq<u8>)>, log: Seq<(Seq<u8>, Option<Seq<u8>>)>)
    requires
        unique_keys(es),
    ensures
        unique_keys(spec_merge(es, log)),
        map_of(spec_merge(es, log)) == apply_log(map_of(es), log),
    decreases log.len(),
{
    if log.len() > 0 {
        lemma_merge_map(es, log.drop_last());
        lemma_apply_entry_map(spec_merge(es, log.drop_last()), log.last().0, log.last().1);
    }
}

/// With unique keys, an entry list and the map it denotes agree pointwise.
pub proof fn lemma_map_of_props(es: Seq<(Seq<u8>, Seq<u8>)>)
    requires
        unique_keys(es),
    ensures
        forall|i: int|
            0 <= i < es.len() ==> map_of(es).contains_key(#[trigger] es[i].0) && map_of(es)[es[i].0]
                == es[i].1,
        forall|k: Seq<u8>|
            #[trigger] map_of(es).contains_key(k) ==> exists|i: int|
                0 <= i < es.len() && es[i].0 == k,
    decreases es.len(),
{
    if es.len() > 0 {
        let es0 = es.drop_last();
        assert(unique_keys(es0));
        lemma_map_of_props(es0);
        assert forall|i: int|
            0 <= i < es.len() implies map_of(es).contains_key(#[trigger] es[i].0) && map_of(
            es,
        )[es[i].0] == es[i].1 by {
            if i < es.len() - 1 {
                assert(es0[i] == es[i]);
                assert(es[i].0 != es.last().0);
            }
        }
        assert forall|k: Seq<u8>| #[trigger] map_of(es).contains_key(k) implies exists|i: int|
            0 <= i < es.len() && es[i].0 == k by {
            if k == es.last().0 {
                assert(es[es.len() - 1].0 == k);
            } else {
                assert(map_of(es0).contains_key(k));
                let i = choose|i: int| 0 <= i < es0.len() && es0[i].0 == k;
                assert(es[i].0 == k);
            }
        }
    }
}

/// Replaying a log answers a lookup by the newest log entry for the key,
/// falling through to the base where the log never touches it.
pub proof fn lemma_apply_log_lookup(
    base: Map<Seq<u8>, Seq<u8>>,
    log: Seq<(Seq<u8>, Option<Seq<u8>>)>,
    k: Seq<u8>,
)
    ensures
        match log_lookup(log, k) {
            None => apply_log(base, log).contains_key(k) == base.contains_key(k) && (
            base.contains_key(k) ==> apply_log(base, log)[k] == base[k]),
            Some(None) => !apply_log(base, log).contains_key(k),
            Some(Some(v)) => apply_log(base, log).contains_key(k) && apply_log(base, log)[k] == v,
        },
    decreases log.len(),
{
    if log.len() > 0 {
        lemma_apply_log_lookup(base, log.drop_last(), k);
    }
}

/// Folds one logged write or deletion into a snapshot's entry list.
fn apply_entry(entries: &mut Vec<(Vec<u8>, Vec<u8>)>, key: Vec<u8>, val: Option<Vec<u8>>)
    ensures
        entry_views(final(entries)@) == spec_apply_entry(
            entry_views(old(entries)@),
            key@,
            opt_view(val),
        ),
{
    let ghost es0 = entry_views(entries@);
    let n = entries.len();
    let mut i: usize = 0;
    while i < n
        invariant
            n == entries@.len(),
            0 <= i <= n,
            entries@ == old(entries)@,
            es0 == entry_views(entries@),
            forall|j: int| 0 <= j < i ==> (#[trigger] es0[j]).0 != key@,
        decreases n - i,
    {
        if bytes_eq(&entries[i].0, &key) {
            proof {
                assert(es0[i as int].0 == key@);
                lemma_find_idx_first(es0, key@, i as int);
            }
            match val {
                Some(v) => {
                    let ghost kv = key@;
                    let ghost vv = v@;
                    entries.remove(i);
                    entries.insert(i, (key, v));
                    proof {
                        assert(entry_views(entries@) =~= es0.update(i as int, (kv, vv)));
                    }
                },
                None => {
                    entries.remove(i);
                    proof {
                        assert(entry_views(entries@) =~= es0.remove(i as int));
                    }
                },
            }
            return;
        }
        i = i + 1;
    }
    proof {
        lemma_find_idx_none(es0, key@);
    }
    match val {
        Some(v) => {
            let ghost kv = key@;
            let ghost vv = v@;
            entries.push((key, v));
            proof {
                assert(entry_views(entries@) =~= es0.push((kv, vv)));
            }
        },
        None => {},
    }
}

/// An immutable, versioned key/value snapshot.
pub struct Store {
    entries: Vec<(Vec<u8>, Vec<u8>)>,
}

/// A single-writer transactional overlay opened against one snapshot.
pub struct Fork {
    base: Store,
    log: Vec<(Vec<u8>, Option<Vec<u8>>)>,
}

impl Store {
    /// The snapshot's entries, in storage order.
    pub closed spec fn entriesv(&self) -> Seq<(Seq<u8>, Seq<u8>)> {
        entry_views(self.entries@)
    }

    /// The key/value map this snapshot holds.
    pub open spec fn mapv(&self) -> Map<Seq<u8>, Seq<u8>> {
        map_of(self.entriesv())
    }

    /// Every key occurs at most once.
    pub open spec fn wf(&self) -> bool {
        unique_keys(self.entriesv())
    }

    /// An empty snapshot.
    pub fn new() -> (s: Store)
        ensures
            s.wf(),
            s.entriesv() == Seq::<(Seq<u8>, Seq<u8>)>::empty(),
            s.mapv() == Map::<Seq<u8>, Seq<u8>>::empty(),
    {
        let s = Store { entries: Vec::new() };
        proof {
            assert(s.entriesv() =~= Seq::<(Seq<u8>, Seq<u8>)>::empty());
        }
        s
    }

    /// Looks a key up in the snapshot.
    pub fn get(&self, key: &Vec<u8>) -> (r: Option<Vec<u8>>)
        requires
            self.wf(),
        ensures
            match r {
                Some(v) => self.mapv().contains_key(key@) && v@ == self.mapv()[key@],
                None => !self.mapv().contains_key(key@),
            },
    {
        proof {
            lemma_map_of_props(self.entriesv());
        }
        let n = self.entries.len();
        let mut i: usize = 0;
        while i < n
            invariant
                self.wf(),
                n == self.entries@.len(),
                0 <= i <= n,
                forall|j: int| 0 <= j < i ==> self.entriesv()[j].0 != key@,
            decreases n - i,
        {
            if bytes_eq(&self.entries[i].0, key) {
                assert(self.entriesv()[i as int].0 == key@);
                proof {
                    lemma_map_of_props(self.entriesv());
                }
                return Some(clone_bytes(&self.entries[i].1));
            }
            i = i + 1;
        }
        proof {
            if self.mapv().contains_key(key@) {
                lemma_map_of_props(self.entriesv());
            }
        }
        None
    }

    /// How many entries the snapshot holds.
    pub fn num_entries(&self) -> (n: usize)
        ensures
            n == self.entriesv().len(),
    {
        self.entries.len()
    }

    /// A copy of the `i`-th stored entry.
    pub fn entry_at(&self, i: usize) -> (e: (Vec<u8>, Vec<u8>))
        requires
            i < self.entriesv().len(),
        ensures
            (e.0@, e.1@) == self.entriesv()[i as int],
    {
        let p = &self.entries[i];
        (clone_bytes(&p.0), clone_bytes(&p.1))
    }

    /// Opens a fresh fork over this snapshot.
    pub fn open_fork(self) -> (f: Fork)
        requires
            self.wf(),
        ensures
            f.wf(),
            f.basev() == self.entriesv(),
            f.logv() == Seq::<(Seq<u8>, Option<Seq<u8>>)>::empty(),
            f.mapv() == self.mapv(),
    {
        let f = Fork { base: self, log: Vec::new() };
        proof {
            assert(f.logv() =~= Seq::<(Seq<u8>, Option<Seq<u8>>)>::empty());
        }
        f
    }
}

impl Fork {
    /// The entries of the base snapshot this fork was opened against.
    pub closed spec fn basev(&self) -> Seq<(Seq<u8>, Seq<u8>)> {
        self.base.entriesv()
    }

    /// The fork's pending write log, oldest first.
    pub closed spec fn logv(&self) -> Seq<(Seq<u8>, Option<Seq<u8>>)> {
        log_views(self.log@)
    }

    /// The key/value map this fork observes: base plus its own writes.
    pub open spec fn mapv(&self) -> Map<Seq<u8>, Seq<u8>> {
        apply_log(map_of(self.basev()), self.logv())
    }

    /// The base snapshot is well formed.
    pub closed spec fn wf(&self) -> bool {
        self.base.wf()
    }

    /// Reads a key: pending writes first, then the base snapshot.
    pub fn get(&self, key: &Vec<u8>) -> (r: Option<Vec<u8>>)
        requires
            self.wf(),
        ensures
            match r {
                Some(v) => self.mapv().contains_key(key@) && v@ == self.mapv()[key@],
                None => !self.mapv().contains_key(key@),
            },
    {
        let ghost logv = self.logv();
        let mut j = self.log.len();
        assert(logv =~= logv.subrange(0, j as int));
        while j > 0
            invariant
                self.wf(),
                0 <= j <= self.log@.len(),
                logv == self.logv(),
                log_lookup(logv, key@) == log_lookup(logv.subrange(0, j as int), key@),
            decreases j,
        {
            j = j - 1;
            let hit = bytes_eq(&self.log[j].0, key);
            proof {
                let pre = logv.subrange(0, j + 1);
                assert(pre.last() == logv[j as int]);
                assert(pre.drop_last() =~= logv.subrange(0, j as int));
            }
            if hit {
                proof {
                    lemma_apply_log_lookup(map_of(self.basev()), logv, key@);
                }
                match &self.log[j].1 {
                    Some(v) => {
                        return Some(clone_bytes(v));
                    },
                    None => {
                        return None;
                    },
                }
            }
        }
        assert(logv.subrange(0, 0) =~= Seq::<(Seq<u8>, Option<Seq<u8>>)>::empty());
        proof {
            lemma_apply_log_lookup(map_of(self.basev()), logv, key@);
        }
        self.base.get(key)
    }

    /// Buffers a write of `value` under `key`.
    pub fn put(&mut self, key: Vec<u8>, value: Vec<u8>)
        requires
            old(self).wf(),
        ensures
            final(self).wf(),
            final(self).basev() == old(self).basev(),
            final(self).logv() == old(self).logv().push((key@, Some(value@))),
            final(self).mapv() == old(self).mapv().insert(key@, value@),
    {
        let ghost k = key@;
        let ghost v = value@;
        self.log.push((key, Some(value)));
        proof {
            assert(self.logv() =~= old(self).logv().push((k, Some(v))));
            assert(self.logv().drop_last() =~= old(self).logv());
        }
    }

    /// Buffers a deletion of `key`.
    pub fn delete(&mut self, key: Vec<u8>)
        requires
            old(self).wf(),
        ensures
            final(self).wf(),
            final(self).basev() == old(self).basev(),
            final(self).logv() == old(self).logv().push((key@, None)),
            final(self).mapv() == old(self).mapv().remove(key@),
    {
        let ghost k = key@;
        self.log.push((key, None));
        proof {
            assert(self.logv() =~= old(self).logv().push((k, None)));
            assert(self.logv().drop_last() =~= old(self).logv());
        }
    }

    /// Marks the current extent of the write log.
    pub fn checkpoint(&self) -> (r: usize)
        ensures
            r == self.logv().len(),
    {
        self.log.len()
    }

    /// Discards every write buffered after the checkpoint, restoring the
    /// state the fork observed when the checkpoint was taken.
    pub fn rollback_to(&mut self, cp: usize)
        requires
            old(self).wf(),
            cp <= old(self).logv().len(),
        ensures
            final(self).wf(),
            final(self).basev() == old(self).basev(),
            final(self).logv() == old(self).logv().subrange(0, cp as int),
    {
        self.log.truncate(cp);
        proof {
            assert(self.logv() =~= old(self).logv().subrange(0, cp as int));
        }
    }

    /// Atomically folds the pending write log into a new snapshot.
    pub fn commit(self) -> (s: Store)
        requires
            self.wf(),
        ensures
            s.wf(),
            s.entriesv() == spec_merge(self.basev(), self.logv()),
            s.mapv() == self.mapv(),
    {
        let ghost glog = self.logv();
        let ghost gbase = self.basev();
        let ghost total = glog.len() as int;
        let Fork { base, log } = self;
        let mut log = log;
        let mut entries = base.entries;
        proof {
            assert(glog.subrange(0, 0) =~= Seq::<(Seq<u8>, Option<Seq<u8>>)>::empty());
            assert(log_views(log@) =~= glog.subrange(0, total));
        }
        while log.len() > 0
            invariant
                total == glog.len(),
                log@.len() <= total,
                log_views(log@) == glog.subrange(total - log@.len(), total),
                entry_views(entries@) == spec_merge(gbase, glog.subrange(0, total - log@.len())),
                unique_keys(entry_views(entries@)),
            decreases log@.len(),
        {
            let ghost i = total - log@.len();
            let ghost pre = entry_views(entries@);
            let ghost l0 = log@;
            let e = log.remove(0);
            proof {
                assert(e == l0[0]);
                assert(glog[i] == log_views(l0)[0]);
                assert(glog[i] == (e.0@, opt_view(e.1)));
                assert forall|j: int| 0 <= j < log@.len() implies log_views(log@)[j] == glog[i + 1
                    + j] by {
                    assert(log@[j] == l0[j + 1]);
                    assert(log_views(l0)[j + 1] == glog.subrange(i, total)[j + 1]);
                }
                assert(log_views(log@) =~= glog.subrange(i + 1, total));
            }
            apply_entry(&mut entries, e.0, e.1);
            proof {
                lemma_apply_entry_map(pre, glog[i].0, glog[i].1);
                assert(glog.subrange(0, i + 1).drop_last() =~= glog.subrange(0, i));
                assert(glog.subrange(0, i + 1).last() == glog[i]);
            }
        }
        proof {
            assert(glog.subrange(0, total) =~= glog);
            lemma_merge_map(gbase, glog);
        }
        Store { entries }
    }

    /// Drops the fork whole, handing back the untouched base snapshot.
    pub fn discard(self) -> (s: Store)
        requires
            self.wf(),
        ensures
            s.wf(),
            s.entriesv() == self.basev(),
    {
        self.base
    }
}

} // verus!
