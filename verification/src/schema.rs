//! The schema: a typed facade over one fork's keyspace, holding the wallet
//! table and the per-wallet history markers under namespaced key prefixes.
//!
//! Every stored entity is an immutable value: a mutation reads the whole
//! record, constructs a new one, and writes it whole.

use vstd::prelude::*;
use vstd::map::*;
use crate::fork::Fork;
use crate::hash::{chain_next, chain_next_exec, empty_root, empty_root_exec, digest_of};
use crate::wallet::{Wallet, WalletV, encode_wallet, decode_wallet, encode, decode,
    lemma_wallet_round_trip, wallet_v_wf, digests_view};
use crate::codec::push_bytes;
use crate::is_digest;
use crate::is_key;

verus! {

/// Namespace prefix of the wallet table.
pub const NS_WALLETS: u8 = 1;

/// Namespace prefix of the per-wallet history markers.
pub const NS_HISTORY: u8 = 2;

/// The composite storage key of a wallet record.
pub open spec fn wallet_key(pk: Seq<u8>) -> Seq<u8> {
    seq![NS_WALLETS] + pk
}

/// The composite storage key of a wallet's history marker.
pub open spec fn history_key(pk: Seq<u8>) -> Seq<u8> {
    seq![NS_HISTORY] + pk
}

/// Distinct public keys name distinct storage keys, and the two namespaces
/// never collide.
pub proof fn lemma_keys(pk1: Seq<u8>, pk2: Seq<u8>)
    ensures
        wallet_key(pk1) == wallet_key(pk2) ==> pk1 == pk2,
        history_key(pk1) == history_key(pk2) ==> pk1 == pk2,
        wallet_key(pk1) != history_key(pk2),
{
    if wallet_key(pk1) == wallet_key(pk2) {
        assert(wallet_key(pk1).len() == 1 + pk1.len());
        assert(wallet_key(pk2).len() == 1 + pk2.len());
        assert forall|i: int| 0 <= i < pk1.len() implies pk1[i] == pk2[i] by {
            assert(wallet_key(pk1)[i + 1] == pk1[i]);
            assert(wallet_key(pk2)[i + 1] == pk2[i]);
        }
        assert(pk1 =~= pk2);
    }
    if history_key(pk1) == history_key(pk2) {
        assert(history_key(pk1).len() == 1 + pk1.len());
        assert(history_key(pk2).len() == 1 + pk2.len());
        assert forall|i: int| 0 <= i < pk1.len() implies pk1[i] == pk2[i] by {
            assert(history_key(pk1)[i + 1] == pk1[i]);
            assert(history_key(pk2)[i + 1] == pk2[i]);
        }
        assert(pk1 =~= pk2);
    }
    assert(wallet_key(pk1)[0] == NS_WALLETS);
    assert(history_key(pk2)[0] == NS_HISTORY);
}

/// The wallet stored under a public key, if any.
pub open spec fn wallet_at(m: Map<Seq<u8>, Seq<u8>>, pk: Seq<u8>) -> Option<WalletV> {
    if m.contains_key(wallet_key(pk)) {
        decode_wallet(m[wallet_key(pk)])
    } else {
        None
    }
}

/// The history marker of a wallet: the root of its update chain.
pub open spec fn history_of(m: Map<Seq<u8>, Seq<u8>>, pk: Seq<u8>) -> Seq<u8> {
    if m.contains_key(history_key(pk)) {
        m[history_key(pk)]
    } else {
        empty_root()
    }
}

/// Schema well-formedness: every value stored in the wallet namespace is a
/// well-formed encoded wallet whose recorded key matches its storage key.
pub open spec fn schema_wf(m: Map<Seq<u8>, Seq<u8>>) -> bool {
    forall|pk: Seq<u8>|
        #[trigger] m.contains_key(wallet_key(pk)) ==> {
            let d = decode_wallet(m[wallet_key(pk)]);
            d is Some && wallet_v_wf(d->Some_0) && d->Some_0.pub_key == pk
        }
}

/// A fresh, empty keyspace satisfies the schema invariant.
pub proof fn lemma_schema_wf_empty()
    ensures
        schema_wf(Map::<Seq<u8>, Seq<u8>>::empty()),
{
}

/// The map after one whole-record wallet write plus its history step.
pub open spec fn wallet_put_map(m: Map<Seq<u8>, Seq<u8>>, w: WalletV, d: Seq<u8>) -> Map<
    Seq<u8>,
    Seq<u8>,
> {
    m.insert(wallet_key(w.pub_key), encode_wallet(w)).insert(
        history_key(w.pub_key),
        chain_next(history_of(m, w.pub_key), d),
    )
}

/// The two log entries one wallet write appends.
pub open spec fn wallet_put_log(m: Map<Seq<u8>, Seq<u8>>, w: WalletV, d: Seq<u8>) -> Seq<
    (Seq<u8>, Option<Seq<u8>>),
> {
    seq![
        (wallet_key(w.pub_key), Some(encode_wallet(w))),
        (history_key(w.pub_key), Some(chain_next(history_of(m, w.pub_key), d))),
    ]
}

/// Builds the composite key of a namespace and a public key.
fn make_key(ns: u8, pk: &Vec<u8>) -> (r: Vec<u8>)
    ensures
        r@ == seq![ns] + pk@,
{
    let mut r: Vec<u8> = Vec::new();
    r.push(ns);
    push_bytes(&mut r, pk);
    proof {
        assert(r@ =~= seq![ns] + pk@);
    }
    r
}

/// Looks the wallet stored under `pk` up in the fork.
pub fn get_wallet(f: &Fork, pk: &Vec<u8>) -> (r: Option<Wallet>)
    requires
        f.wf(),
        schema_wf(f.mapv()),
    ensures
        match r {
            Some(w) => wallet_at(f.mapv(), pk@) == Some(w@) && w.wf() && w@.pub_key == pk@,
            None => wallet_at(f.mapv(), pk@) == None::<WalletV>,
        },
{
    let key = make_key(NS_WALLETS, pk);
    match f.get(&key) {
        Some(bytes) => {
            match decode(&bytes) {
                Some(w) => Some(w),
                None => {
                    proof {
                        assert(false);
                    }
                    None
                },
            }
        },
        None => None,
    }
}

/// Writes one wallet record whole and advances its history marker by the
/// given transaction digest. The log grows by exactly two entries; no other
/// wallet or history marker changes.
#[verifier::rlimit(100)]
pub fn store_wallet(f: &mut Fork, w: &Wallet, tx_digest: &Vec<u8>)
    requires
        old(f).wf(),
        schema_wf(old(f).mapv()),
        w.wf(),
        is_digest(tx_digest@),
    ensures
        final(f).wf(),
        schema_wf(final(f).mapv()),
        final(f).basev() == old(f).basev(),
        final(f).logv() == old(f).logv() + wallet_put_log(old(f).mapv(), w@, tx_digest@),
        final(f).mapv() == wallet_put_map(old(f).mapv(), w@, tx_digest@),
        wallet_at(final(f).mapv(), w@.pub_key) == Some(w@),
        history_of(final(f).mapv(), w@.pub_key) == chain_next(
            history_of(old(f).mapv(), w@.pub_key),
            tx_digest@,
        ),
        forall|pk: Seq<u8>|
            pk != w@.pub_key ==> #[trigger] wallet_at(final(f).mapv(), pk) == wallet_at(
                old(f).mapv(),
                pk,
            ),
        forall|pk: Seq<u8>|
            pk != w@.pub_key ==> #[trigger] history_of(final(f).mapv(), pk) == history_of(
                old(f).mapv(),
                pk,
            ),
{
    let ghost m0 = old(f).mapv();
    let bytes = encode(w);
    let wkey = make_key(NS_WALLETS, &w.pub_key);
    f.put(wkey, bytes);
    let ghost m1 = f.mapv();
    let hkey = make_key(NS_HISTORY, &w.pub_key);
    let prev = match f.get(&hkey) {
        Some(v) => v,
        None => empty_root_exec(),
    };
    proof {
        lemma_keys(w@.pub_key, w@.pub_key);
        assert(prev@ == history_of(m0, w@.pub_key));
    }
    let next = chain_next_exec(&prev, tx_digest);
    f.put(hkey, next);
    proof {
        lemma_wallet_round_trip(w@);
        assert(final(f).logv() =~= old(f).logv() + wallet_put_log(m0, w@, tx_digest@));
        assert(final(f).mapv() =~= wallet_put_map(m0, w@, tx_digest@));
        let m2 = final(f).mapv();
        assert forall|pk: Seq<u8>| #[trigger] m2.contains_key(wallet_key(pk)) implies {
            let d = decode_wallet(m2[wallet_key(pk)]);
            d is Some && wallet_v_wf(d->Some_0) && d->Some_0.pub_key == pk
        } by {
            lemma_keys(pk, w@.pub_key);
            lemma_keys(w@.pub_key, pk);
            if wallet_key(pk) == wallet_key(w@.pub_key) {
                assert(m2[wallet_key(pk)] == encode_wallet(w@));
            } else {
                assert(m0.contains_key(wallet_key(pk)));
                assert(m2[wallet_key(pk)] == m0[wallet_key(pk)]);
            }
        }
        assert(wallet_at(m2, w@.pub_key) == Some(w@));
        assert forall|pk: Seq<u8>|
            pk != w@.pub_key implies #[trigger] wallet_at(m2, pk) == wallet_at(m0, pk) by {
            lemma_keys(pk, w@.pub_key);
            lemma_keys(w@.pub_key, pk);
        }
        assert forall|pk: Seq<u8>|
            pk != w@.pub_key implies #[trigger] history_of(m2, pk) == history_of(m0, pk) by {
            lemma_keys(pk, w@.pub_key);
            lemma_keys(w@.pub_key, pk);
            lemma_keys(pk, pk);
        }
    }
}

/// Creates a wallet record with zero balance under a fresh public key.
/// The caller checks freshness; this writes unconditionally.
pub fn create_wallet(
    f: &mut Fork,
    pub_key: &Vec<u8>,
    name: &Vec<u8>,
    tx_digest: &Vec<u8>,
    used: Vec<Vec<u8>>,
) -> (w: Wallet)
    requires
        old(f).wf(),
        schema_wf(old(f).mapv()),
        is_key(pub_key@),
        name@.len() <= u64::MAX,
        is_digest(tx_digest@),
        digests_view(used@) =~= Seq::<Seq<u8>>::empty(),
    ensures
        final(f).wf(),
        schema_wf(final(f).mapv()),
        final(f).basev() == old(f).basev(),
        w@ == new_wallet(pub_key@, name@),
        w.wf(),
        final(f).logv() == old(f).logv() + wallet_put_log(
            old(f).mapv(),
            new_wallet(pub_key@, name@),
            tx_digest@,
        ),
        final(f).mapv() == wallet_put_map(old(f).mapv(), new_wallet(pub_key@, name@), tx_digest@),
        wallet_at(final(f).mapv(), pub_key@) == Some(new_wallet(pub_key@, name@)),
        forall|pk: Seq<u8>|
            pk != pub_key@ ==> #[trigger] wallet_at(final(f).mapv(), pk) == wallet_at(
                old(f).mapv(),
                pk,
            ),
{
    let w = Wallet {
        pub_key: crate::clone_bytes(pub_key),
        balance: 0,
        name: crate::clone_bytes(name),
        used,
    };
    proof {
        assert(w@ =~~= new_wallet(pub_key@, name@));
    }
    store_wallet(f, &w, tx_digest);
    w
}

/// A fresh wallet record: zero balance, empty replay guard.
pub open spec fn new_wallet(pk: Seq<u8>, name: Seq<u8>) -> WalletV {
    WalletV { pub_key: pk, balance: 0, name, used: Seq::empty() }
}

/// Replaces a wallet by the same record with `amount` more balance and the
/// given replay-guard set, and advances its history marker.
pub fn increase_balance(
    f: &mut Fork,
    wallet: Wallet,
    amount: u64,
    tx_digest: &Vec<u8>,
    used: Vec<Vec<u8>>,
) -> (w: Wallet)
    requires
        old(f).wf(),
        schema_wf(old(f).mapv()),
        wallet.wf(),
        wallet@.balance + amount <= u64::MAX,
        is_digest(tx_digest@),
        wallet_v_wf(
            WalletV {
                balance: (wallet@.balance + amount) as u64,
                used: digests_view(used@),
                ..wallet@
            },
        ),
    ensures
        final(f).wf(),
        schema_wf(final(f).mapv()),
        final(f).basev() == old(f).basev(),
        w@ == (WalletV {
            balance: (wallet@.balance + amount) as u64,
            used: digests_view(used@),
            ..wallet@
        }),
        final(f).logv() == old(f).logv() + wallet_put_log(old(f).mapv(), w@, tx_digest@),
        final(f).mapv() == wallet_put_map(old(f).mapv(), w@, tx_digest@),
        wallet_at(final(f).mapv(), wallet@.pub_key) == Some(w@),
        forall|pk: Seq<u8>|
            pk != wallet@.pub_key ==> #[trigger] wallet_at(final(f).mapv(), pk) == wallet_at(
                old(f).mapv(),
                pk,
            ),
{
    let mut w = wallet;
    w.balance = w.balance + amount;
    w.used = used;
    store_wallet(f, &w, tx_digest);
    w
}

/// Replaces a wallet by the same record with `amount` less balance and the
/// given replay-guard set, and advances its history marker.
pub fn decrease_balance(
    f: &mut Fork,
    wallet: Wallet,
    amount: u64,
    tx_digest: &Vec<u8>,
    used: Vec<Vec<u8>>,
) -> (w: Wallet)
    requires
        old(f).wf(),
        schema_wf(old(f).mapv()),
        wallet.wf(),
        amount <= wallet@.balance,
        is_digest(tx_digest@),
        wallet_v_wf(
            WalletV {
                balance: (wallet@.balance - amount) as u64,
                used: digests_view(used@),
                ..wallet@
            },
        ),
    ensures
        final(f).wf(),
        schema_wf(final(f).mapv()),
        final(f).basev() == old(f).basev(),
        w@ == (WalletV {
            balance: (wallet@.balance - amount) as u64,
            used: digests_view(used@),
            ..wallet@
        }),
        final(f).logv() == old(f).logv() + wallet_put_log(old(f).mapv(), w@, tx_digest@),
        final(f).mapv() == wallet_put_map(old(f).mapv(), w@, tx_digest@),
        wallet_at(final(f).mapv(), wallet@.pub_key) == Some(w@),
        forall|pk: Seq<u8>|
            pk != wallet@.pub_key ==> #[trigger] wallet_at(final(f).mapv(), pk) == wallet_at(
                old(f).mapv(),
                pk,
            ),
{
    let mut w = wallet;
    w.balance = w.balance - amount;
    w.used = used;
    store_wallet(f, &w, tx_digest);
    w
}

} // verus!
