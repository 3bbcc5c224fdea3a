//! The wallet record: the ledger's account value, stored whole and replaced
//! whole on every update, together with its byte-level storage format.

use vstd::prelude::*;
use crate::codec::{u64_le, le_u64, lemma_le_round_trip, push_u64_le, read_u64_le, push_bytes, copy_range};
use crate::clone_bytes;
use crate::is_digest;
use crate::is_key;

verus! {

/// A ledger account: public key, balance, display name, and the set of
/// transfer reference digests already consumed (the replay guard).
pub struct Wallet {
    pub pub_key: Vec<u8>,
    pub balance: u64,
    pub name: Vec<u8>,
    pub used: Vec<Vec<u8>>,
}

/// Mathematical view of a wallet record.
#[verifier::ext_equal]
pub ghost struct WalletV {
    pub pub_key: Seq<u8>,
    pub balance: u64,
    pub name: Seq<u8>,
    pub used: Seq<Seq<u8>>,
}

/// Spec view of a list of digests.
pub open spec fn digests_view(s: Seq<Vec<u8>>) -> Seq<Seq<u8>> {
    s.map_values(|v: Vec<u8>| v@)
}

impl View for Wallet {
    type V = WalletV;

    open spec fn view(&self) -> WalletV {
        WalletV {
            pub_key: self.pub_key@,
            balance: self.balance,
            name: self.name@,
            used: digests_view(self.used@),
        }
    }
}

/// A well-formed wallet: key and markers have digest shape, and the marker
/// set holds no duplicate. The stored format counts the name's bytes and
/// the markers in 64-bit fields, so only those machine bounds apply; every
/// name and marker list an executable record can hold satisfies them.
pub open spec fn wallet_v_wf(w: WalletV) -> bool {
    &&& is_key(w.pub_key)
    &&& w.name.len() <= u64::MAX
    &&& w.used.len() <= u64::MAX
    &&& forall|i: int| 0 <= i < w.used.len() ==> is_digest(#[trigger] w.used[i])
    &&& forall|i: int, j: int| 0 <= i < j < w.used.len() ==> w.used[i] != w.used[j]
}

/// A fresh digest list with the same contents.
pub fn clone_digests(v: &Vec<Vec<u8>>) -> (r: Vec<Vec<u8>>)
    ensures
        digests_view(r@) == digests_view(v@),
{
    let mut used: Vec<Vec<u8>> = Vec::new();
    let n = v.len();
    let mut i: usize = 0;
    while i < n
        invariant
            n == v@.len(),
            0 <= i <= n,
            used@.len() == i,
            digests_view(used@) == digests_view(v@).subrange(0, i as int),
        decreases n - i,
    {
        used.push(clone_bytes(&v[i]));
        proof {
            assert(digests_view(used@) =~= digests_view(v@).subrange(0, i + 1));
        }
        i = i + 1;
    }
    proof {
        assert(digests_view(v@).subrange(0, n as int) =~= digests_view(v@));
    }
    used
}

impl Wallet {
    /// The record is well formed.
    pub open spec fn wf(&self) -> bool {
        wallet_v_wf(self@)
    }

    /// A fresh record with the same contents.
    pub fn dup(&self) -> (r: Wallet)
        ensures
            r@ == self@,
    {
        let used = clone_digests(&self.used);
        let r = Wallet {
            pub_key: clone_bytes(&self.pub_key),
            balance: self.balance,
            name: clone_bytes(&self.name),
            used,
        };
        proof {
            assert(r@ =~= self@);
        }
        r
    }
}

/// The digests of a replay-guard set laid end to end.
pub open spec fn concat_digests(used: Seq<Seq<u8>>) -> Seq<u8>
    decreases used.len(),
{
    if used.len() == 0 {
        Seq::empty()
    } else {
        concat_digests(used.drop_last()) + used.last()
    }
}

/// Laid end to end, `n` digests take `32 * n` bytes.
pub proof fn lemma_concat_digests_len(used: Seq<Seq<u8>>)
    requires
        forall|i: int| 0 <= i < used.len() ==> is_digest(#[trigger] used[i]),
    ensures
        concat_digests(used).len() == 32 * used.len(),
    decreases used.len(),
{
    if used.len() > 0 {
        assert(used.drop_last() =~= used.subrange(0, used.len() - 1));
        lemma_concat_digests_len(used.drop_last());
    }
}

/// The `i`-th 32-byte block of the concatenation is the `i`-th digest.
pub proof fn lemma_concat_digests_index(used: Seq<Seq<u8>>, i: int)
    requires
        forall|j: int| 0 <= j < used.len() ==> is_digest(#[trigger] used[j]),
        0 <= i < used.len(),
    ensures
        concat_digests(used).subrange(32 * i, 32 * i + 32) == used[i],
    decreases used.len(),
{
    lemma_concat_digests_len(used);
    let pre = used.drop_last();
    lemma_concat_digests_len(pre);
    if i == used.len() - 1 {
        assert(concat_digests(used).subrange(32 * i, 32 * i + 32) =~= used[i]);
    } else {
        lemma_concat_digests_index(pre, i);
        assert(concat_digests(used).subrange(32 * i, 32 * i + 32) =~= concat_digests(pre).subrange(
            32 * i,
            32 * i + 32,
        ));
    }
}

/// The stored byte format of a wallet record: balance, name length and
/// marker count (little-endian 64-bit each), then key, name and markers.
#[verifier::opaque]
pub open spec fn encode_wallet(w: WalletV) -> Seq<u8> {
    u64_le(w.balance) + u64_le(w.name.len() as u64) + u64_le(w.used.len() as u64) + w.pub_key
        + w.name + concat_digests(w.used)
}

/// The wallet a stored byte string denotes, if its shape is exactly right.
#[verifier::opaque]
pub open spec fn decode_wallet(b: Seq<u8>) -> Option<WalletV> {
    if b.len() < 56 {
        None
    } else {
        let balance = le_u64(b.subrange(0, 8));
        let nlen = le_u64(b.subrange(8, 16)) as int;
        let ulen = le_u64(b.subrange(16, 24)) as int;
        if b.len() != 56 + nlen + 32 * ulen {
            None
        } else {
            Some(
                WalletV {
                    pub_key: b.subrange(24, 56),
                    balance,
                    name: b.subrange(56, 56 + nlen),
                    used: Seq::new(
                        ulen as nat,
                        |i: int| b.subrange(56 + nlen + 32 * i, 56 + nlen + 32 * i + 32),
                    ),
                },
            )
        }
    }
}

/// Decoding an encoded well-formed wallet yields the wallet back.
pub proof fn lemma_wallet_round_trip(w: WalletV)
    requires
        wallet_v_wf(w),
    ensures
        decode_wallet(encode_wallet(w)) == Some(w),
{
    reveal(encode_wallet);
    reveal(decode_wallet);
    let e = encode_wallet(w);
    lemma_concat_digests_len(w.used);
    assert(e.len() == 56 + w.name.len() + 32 * w.used.len());
    assert(e.subrange(0, 8) =~= u64_le(w.balance));
    assert(e.subrange(8, 16) =~= u64_le(w.name.len() as u64));
    assert(e.subrange(16, 24) =~= u64_le(w.used.len() as u64));
    lemma_le_round_trip(w.balance);
    lemma_le_round_trip(w.name.len() as u64);
    lemma_le_round_trip(w.used.len() as u64);
    let nlen = w.name.len() as int;
    let ulen = w.used.len() as int;
    assert(e.subrange(24, 56) =~= w.pub_key);
    assert(e.subrange(56, 56 + nlen) =~= w.name);
    assert(e.subrange(56 + nlen, e.len() as int) =~= concat_digests(w.used));
    let dv = decode_wallet(e);
    assert forall|i: int| 0 <= i < ulen implies e.subrange(
        56 + nlen + 32 * i,
        56 + nlen + 32 * i + 32,
    ) == w.used[i] by {
        lemma_concat_digests_index(w.used, i);
        assert(e.subrange(56 + nlen + 32 * i, 56 + nlen + 32 * i + 32) =~= concat_digests(
            w.used,
        ).subrange(32 * i, 32 * i + 32));
    }
    assert(dv->Some_0.used =~= w.used);
    assert(dv->Some_0 =~~= w);
}

/// Serializes a wallet record into its stored byte format.
pub fn encode(w: &Wallet) -> (r: Vec<u8>)
    requires
        w.wf(),
    ensures
        r@ == encode_wallet(w@),
{
    let mut out: Vec<u8> = Vec::new();
    push_u64_le(&mut out, w.balance);
    push_u64_le(&mut out, w.name.len() as u64);
    push_u64_le(&mut out, w.used.len() as u64);
    push_bytes(&mut out, &w.pub_key);
    push_bytes(&mut out, &w.name);
    proof {
        reveal(encode_wallet);
    }
    let ghost pre = out@;
    let ghost dv = digests_view(w.used@);
    let n = w.used.len();
    let mut i: usize = 0;
    proof {
        assert(concat_digests(dv.subrange(0, 0)) =~= Seq::<u8>::empty());
        assert(out@ =~= pre + concat_digests(dv.subrange(0, 0)));
    }
    while i < n
        invariant
            n == w.used@.len(),
            0 <= i <= n,
            dv == digests_view(w.used@),
            out@ == pre + concat_digests(dv.subrange(0, i as int)),
        decreases n - i,
    {
        push_bytes(&mut out, &w.used[i]);
        proof {
            let s1 = dv.subrange(0, i + 1);
            assert(s1.drop_last() =~= dv.subrange(0, i as int));
            assert(s1.last() == dv[i as int]);
            assert(out@ =~= pre + concat_digests(s1));
        }
        i = i + 1;
    }
    proof {
        assert(dv.subrange(0, n as int) =~= dv);
        assert(out@ =~= encode_wallet(w@));
    }
    out
}

/// Parses a stored byte string back into a wallet record; rejects any byte
/// string whose shape is not exactly that of one encoded record.
pub fn decode(b: &Vec<u8>) -> (r: Option<Wallet>)
    ensures
        match r {
            Some(w) => decode_wallet(b@) == Some(w@),
            None => decode_wallet(b@) == None::<WalletV>,
        },
{
    proof {
        reveal(decode_wallet);
    }
    if b.len() < 56 {
        return None;
    }
    let balance = read_u64_le(b, 0);
    let nlen = read_u64_le(b, 8);
    let ulen = read_u64_le(b, 16);
    let expected: u128 = 56 + (nlen as u128) + 32 * (ulen as u128);
    if (b.len() as u128) != expected {
        return None;
    }
    let nlen_us = nlen as usize;
    let ulen_us = ulen as usize;
    let pub_key = copy_range(b, 24, 32);
    let name = copy_range(b, 56, nlen_us);
    let mut used: Vec<Vec<u8>> = Vec::new();
    let ghost gn = nlen as int;
    let ghost gu = ulen as int;
    let blen = b.len();
    let mut i: usize = 0;
    while i < ulen_us
        invariant
            ulen_us == gu,
            gn == nlen_us,
            blen == b@.len(),
            b@.len() == 56 + gn + 32 * gu,
            0 <= i <= ulen_us,
            used@.len() == i,
            digests_view(used@) == Seq::new(
                i as nat,
                |j: int| b@.subrange(56 + gn + 32 * j, 56 + gn + 32 * j + 32),
            ),
        decreases ulen_us - i,
    {
        proof {
            assert(56 + gn + 32 * (i as int) + 32 <= blen as int);
        }
        let off = 56 + nlen_us + 32 * i;
        let ghost u0 = used@;
        used.push(copy_range(b, off, 32));
        proof {
            assert forall|j: int|
                0 <= j <= i as int implies digests_view(used@)[j] == b@.subrange(
                56 + gn + 32 * j,
                56 + gn + 32 * j + 32,
            ) by {
                if j < i as int {
                    assert(used@[j] == u0[j]);
                    assert(digests_view(u0)[j] == u0[j]@);
                }
            }
            assert(digests_view(used@) =~= Seq::new(
                (i + 1) as nat,
                |j: int| b@.subrange(56 + gn + 32 * j, 56 + gn + 32 * j + 32),
            ));
        }
        i = i + 1;
    }
    let w = Wallet { pub_key, balance, name, used };
    proof {
        assert(w@ =~~= decode_wallet(b@)->Some_0);
    }
    Some(w)
}

} // verus!
