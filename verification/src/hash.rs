//! The hash primitive, used opaquely for transaction identity, history
//! markers and table roots, and the root commitments built from it.

use vstd::prelude::*;
use crate::codec::{u64_le, push_u64_le, push_bytes};
use crate::fork::Store;
use crate::wallet::{concat_digests, digests_view};
use crate::is_digest;

verus! {

/// The digest the hash primitive assigns to a byte string.
pub uninterp spec fn digest_of(b: Seq<u8>) -> Seq<u8>;

/// Relies on sha2::Sha256::digest: the output is a pure function of the
/// input bytes and is always 32 bytes long.
#[verifier::external_body]
pub fn sha256(b: &Vec<u8>) -> (r: Vec<u8>)
    ensures
        r@ == digest_of(b@),
        is_digest(r@),
{
    let out = <sha2::Sha256 as sha2::Digest>::digest(b.as_slice());
    out.as_slice().to_vec()
}

/// The root of an empty history chain.
pub open spec fn empty_root() -> Seq<u8> {
    digest_of(Seq::empty())
}

/// Executable form of the empty history root.
pub fn empty_root_exec() -> (r: Vec<u8>)
    ensures
        r@ == empty_root(),
        is_digest(r@),
{
    let e: Vec<u8> = Vec::new();
    proof {
        assert(e@ =~= Seq::<u8>::empty());
    }
    sha256(&e)
}

/// The history chain extended by one item: the new root commits to the old
/// root, and through it to every item and their order.
pub open spec fn chain_next(prev: Seq<u8>, item: Seq<u8>) -> Seq<u8> {
    digest_of(prev + digest_of(item))
}

/// Executable form of one history chain step.
pub fn chain_next_exec(prev: &Vec<u8>, item: &Vec<u8>) -> (r: Vec<u8>)
    ensures
        r@ == chain_next(prev@, item@),
        is_digest(r@),
{
    let ih = sha256(item);
    let mut buf = crate::clone_bytes(prev);
    push_bytes(&mut buf, &ih);
    proof {
        assert(buf@ =~= prev@ + digest_of(item@));
    }
    sha256(&buf)
}

/// Lexicographic byte-string order: the order the root commitment sorts
/// entry digests by.
pub open spec fn lex_le(a: Seq<u8>, b: Seq<u8>) -> bool
    decreases a.len(),
{
    if a.len() == 0 {
        true
    } else if b.len() == 0 {
        false
    } else if a[0] < b[0] {
        true
    } else if a[0] > b[0] {
        false
    } else {
        lex_le(a.drop_first(), b.drop_first())
    }
}

/// A digest placed into a sorted list, before the first element it does not
/// come after.
pub open spec fn sorted_insert(l: Seq<Seq<u8>>, d: Seq<u8>) -> Seq<Seq<u8>>
    decreases l.len(),
{
    if l.len() == 0 {
        seq![d]
    } else if lex_le(d, l[0]) {
        seq![d] + l
    } else {
        seq![l[0]] + sorted_insert(l.drop_first(), d)
    }
}

/// The digest that commits to one stored entry: length-framed key, then value.
pub open spec fn entry_digest(k: Seq<u8>, v: Seq<u8>) -> Seq<u8> {
    digest_of(u64_le(k.len() as u64) + k + v)
}

/// The per-entry digests of a snapshot, in sorted order. Sorting makes the
/// commitment independent of the order writes produced the entries.
pub open spec fn sorted_digests(es: Seq<(Seq<u8>, Seq<u8>)>) -> Seq<Seq<u8>>
    decreases es.len(),
{
    if es.len() == 0 {
        Seq::empty()
    } else {
        sorted_insert(sorted_digests(es.drop_last()), entry_digest(es.last().0, es.last().1))
    }
}

/// The root hash that commits to a snapshot's full key/value content: the
/// hash of the sorted per-entry digests laid end to end.
pub open spec fn store_root(es: Seq<(Seq<u8>, Seq<u8>)>) -> Seq<u8> {
    digest_of(concat_digests(sorted_digests(es)))
}

/// Decides the lexicographic byte-string order in executable code.
pub fn lex_le_exec(a: &Vec<u8>, b: &Vec<u8>) -> (r: bool)
    ensures
        r == lex_le(a@, b@),
{
    let an = a.len();
    let bn = b.len();
    let mut i: usize = 0;
    proof {
        assert(a@.skip(0) =~= a@);
        assert(b@.skip(0) =~= b@);
    }
    while i < an && i < bn
        invariant
            an == a@.len(),
            bn == b@.len(),
            0 <= i <= an,
            0 <= i <= bn,
            lex_le(a@, b@) == lex_le(a@.skip(i as int), b@.skip(i as int)),
        decreases an - i,
    {
        let ghost sa = a@.skip(i as int);
        let ghost sb = b@.skip(i as int);
        proof {
            assert(sa[0] == a@[i as int] && sb[0] == b@[i as int]);
            assert(sa.drop_first() =~= a@.skip(i + 1));
            assert(sb.drop_first() =~= b@.skip(i + 1));
        }
        if a[i] < b[i] {
            return true;
        }
        if a[i] > b[i] {
            return false;
        }
        i = i + 1;
    }
    proof {
        if i == an {
            assert(a@.skip(i as int).len() == 0);
        } else {
            assert(b@.skip(i as int).len() == 0);
            assert(a@.skip(i as int).len() > 0);
        }
    }
    an <= bn
}

/// The executable scan's insertion point matches `sorted_insert`.
proof fn lemma_sorted_insert_at(l: Seq<Seq<u8>>, d: Seq<u8>, idx: int)
    requires
        0 <= idx <= l.len(),
        forall|j: int| 0 <= j < idx ==> !lex_le(d, #[trigger] l[j]),
        idx < l.len() ==> lex_le(d, l[idx]),
    ensures
        sorted_insert(l, d) == l.subrange(0, idx) + seq![d] + l.subrange(idx, l.len() as int),
    decreases l.len(),
{
    if l.len() == 0 {
        assert(sorted_insert(l, d) =~= l.subrange(0, idx) + seq![d] + l.subrange(
            idx,
            l.len() as int,
        ));
    } else if lex_le(d, l[0]) {
        assert(idx == 0);
        assert(seq![d] + l =~= l.subrange(0, 0) + seq![d] + l.subrange(0, l.len() as int));
    } else {
        assert(idx >= 1);
        let tail = l.drop_first();
        assert forall|j: int| 0 <= j < idx - 1 implies !lex_le(d, #[trigger] tail[j]) by {
            assert(tail[j] == l[j + 1]);
        }
        assert(idx - 1 < tail.len() ==> lex_le(d, tail[idx - 1]));
        lemma_sorted_insert_at(tail, d, idx - 1);
        assert(seq![l[0]] + sorted_insert(tail, d) =~= l.subrange(0, idx) + seq![d] + l.subrange(
            idx,
            l.len() as int,
        ));
    }
}

/// Places one digest into a sorted digest list.
fn sorted_insert_exec(l: &mut Vec<Vec<u8>>, d: Vec<u8>)
    ensures
        digests_view(final(l)@) == sorted_insert(digests_view(old(l)@), d@),
{
    let ghost lv = digests_view(l@);
    let n = l.len();
    let mut i: usize = 0;
    while i < n
        invariant
            n == l@.len(),
            0 <= i <= n,
            l@ == old(l)@,
            lv == digests_view(l@),
            forall|j: int| 0 <= j < i ==> !lex_le(d@, #[trigger] lv[j]),
        decreases n - i,
    {
        proof {
            assert(lv[i as int] == l@[i as int]@);
        }
        if lex_le_exec(&d, &l[i]) {
            let ghost gi = i as int;
            l.insert(i, d);
            proof {
                lemma_sorted_insert_at(lv, d@, gi);
                assert(digests_view(l@) =~= lv.subrange(0, gi) + seq![d@] + lv.subrange(
                    gi,
                    lv.len() as int,
                ));
            }
            return;
        }
        i = i + 1;
    }
    let ghost gn = n as int;
    l.push(d);
    proof {
        lemma_sorted_insert_at(lv, d@, gn);
        assert(digests_view(l@) =~= lv.subrange(0, gn) + seq![d@] + lv.subrange(
            gn,
            lv.len() as int,
        ));
    }
}

/// Computes the root hash of a committed snapshot.
pub fn store_root_exec(s: &Store) -> (r: Vec<u8>)
    requires
        s.wf(),
    ensures
        r@ == store_root(s.entriesv()),
        is_digest(r@),
{
    let ghost es = s.entriesv();
    let mut sorted: Vec<Vec<u8>> = Vec::new();
    proof {
        assert(es.subrange(0, 0) =~= Seq::<(Seq<u8>, Seq<u8>)>::empty());
        assert(digests_view(sorted@) =~= Seq::<Seq<u8>>::empty());
    }
    let n = s.num_entries();
    let mut i: usize = 0;
    while i < n
        invariant
            s.wf(),
            es == s.entriesv(),
            n == es.len(),
            0 <= i <= n,
            digests_view(sorted@) == sorted_digests(es.subrange(0, i as int)),
        decreases n - i,
    {
        let (k, v) = s.entry_at(i);
        let mut framed: Vec<u8> = Vec::new();
        push_u64_le(&mut framed, k.len() as u64);
        push_bytes(&mut framed, &k);
        push_bytes(&mut framed, &v);
        proof {
            assert(framed@ =~= u64_le(k@.len() as u64) + k@ + v@);
        }
        let dg = sha256(&framed);
        sorted_insert_exec(&mut sorted, dg);
        proof {
            let s1 = es.subrange(0, i + 1);
            assert(s1.drop_last() =~= es.subrange(0, i as int));
            assert(s1.last() == es[i as int]);
        }
        i = i + 1;
    }
    proof {
        assert(es.subrange(0, n as int) =~= es);
    }
    let ghost dv = digests_view(sorted@);
    let mut buf: Vec<u8> = Vec::new();
    proof {
        assert(buf@ =~= concat_digests(dv.subrange(0, 0)));
    }
    let sn = sorted.len();
    let mut j: usize = 0;
    while j < sn
        invariant
            sn == sorted@.len(),
            0 <= j <= sn,
            dv == digests_view(sorted@),
            buf@ == concat_digests(dv.subrange(0, j as int)),
        decreases sn - j,
    {
        push_bytes(&mut buf, &sorted[j]);
        proof {
            let s1 = dv.subrange(0, j + 1);
            assert(s1.drop_last() =~= dv.subrange(0, j as int));
            assert(s1.last() == dv[j as int]);
            assert(buf@ =~= concat_digests(s1));
        }
        j = j + 1;
    }
    proof {
        assert(dv.subrange(0, sn as int) =~= dv);
    }
    sha256(&buf)
}

} // verus!
