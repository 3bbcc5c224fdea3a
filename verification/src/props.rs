//! The ledger's domain laws, stated and proved over the execution specs:
//! non-negative balances, exact balance deltas and supply conservation for
//! transfers, supply growth for issues, replay rejection, and create
//! idempotent-reject.

use vstd::prelude::*;
use vstd::map::*;
use crate::schema::{wallet_at, wallet_key, schema_wf, wallet_put_map, lemma_keys};
use crate::wallet::{WalletV, wallet_v_wf, lemma_wallet_round_trip};
use crate::tx::{ExecError, debited, credited, transfer_result, transfer_map, issue_result,
    create_result};
use crate::is_digest;

verus! {

/// Balances are unsigned: every wallet at every observable state holds a
/// non-negative balance.
pub proof fn lemma_balance_non_negative(m: Map<Seq<u8>, Seq<u8>>, pk: Seq<u8>)
    ensures
        wallet_at(m, pk) is Some ==> wallet_at(m, pk)->Some_0.balance >= 0,
{
}

/// A successful transfer debits the sender by exactly the amount, appends
/// the reference digest to the sender's replay guard, credits the receiver
/// by exactly the amount with its guard untouched, and changes no other
/// wallet.
pub proof fn lemma_transfer_effect(
    m: Map<Seq<u8>, Seq<u8>>,
    from: Seq<u8>,
    to: Seq<u8>,
    amount: u64,
    h: Seq<u8>,
    d: Seq<u8>,
    pk: Seq<u8>,
)
    requires
        schema_wf(m),
        from != to,
        is_digest(h),
        transfer_result(m, from, to, amount, h) is Ok,
    ensures
        wallet_at(transfer_map(m, from, to, amount, h, d), pk) == (if pk == from {
            Some(debited(wallet_at(m, from)->Some_0, amount, h))
        } else if pk == to {
            Some(credited(wallet_at(m, to)->Some_0, amount))
        } else {
            wallet_at(m, pk)
        }),
{
    let s = wallet_at(m, from)->Some_0;
    let rw = wallet_at(m, to)->Some_0;
    assert(m.contains_key(wallet_key(from)));
    assert(m.contains_key(wallet_key(to)));
    assert(wallet_v_wf(s) && s.pub_key == from);
    assert(wallet_v_wf(rw) && rw.pub_key == to);
    let sd = debited(s, amount, h);
    let rc = credited(rw, amount);
    assert(wallet_v_wf(sd)) by {
        assert(forall|i: int|
            0 <= i < sd.used.len() ==> is_digest(#[trigger] sd.used[i]) && (i < s.used.len()
                ==> sd.used[i] == s.used[i]));
        assert forall|i: int, j: int| 0 <= i < j < sd.used.len() implies sd.used[i] != sd.used[j] by {
            if j == sd.used.len() - 1 {
                assert(!s.used.contains(h));
                assert(sd.used[j] == h);
            }
        }
    }
    assert(wallet_v_wf(rc));
    lemma_wallet_round_trip(sd);
    lemma_wallet_round_trip(rc);
    lemma_keys(pk, from);
    lemma_keys(from, pk);
    lemma_keys(pk, to);
    lemma_keys(to, pk);
    lemma_keys(from, to);
    lemma_keys(pk, pk);
}

/// A successful issue credits the target wallet by exactly the amount and
/// changes no other wallet.
pub proof fn lemma_issue_effect(
    m: Map<Seq<u8>, Seq<u8>>,
    pk: Seq<u8>,
    amount: u64,
    d: Seq<u8>,
    pk2: Seq<u8>,
)
    requires
        schema_wf(m),
        issue_result(m, pk, amount) is Ok,
    ensures
        wallet_at(wallet_put_map(m, credited(wallet_at(m, pk)->Some_0, amount), d), pk2) == (if pk2
            == pk {
            Some(credited(wallet_at(m, pk)->Some_0, amount))
        } else {
            wallet_at(m, pk2)
        }),
{
    let w = wallet_at(m, pk)->Some_0;
    assert(m.contains_key(wallet_key(pk)));
    assert(wallet_v_wf(w) && w.pub_key == pk);
    let wc = credited(w, amount);
    assert(wallet_v_wf(wc));
    lemma_wallet_round_trip(wc);
    lemma_keys(pk2, pk);
    lemma_keys(pk, pk2);
    lemma_keys(pk2, pk2);
}

/// Total balance held by a list of wallets, each counted by its public key.
pub open spec fn supply_over(m: Map<Seq<u8>, Seq<u8>>, pks: Seq<Seq<u8>>) -> int
    decreases pks.len(),
{
    if pks.len() == 0 {
        0
    } else {
        supply_over(m, pks.drop_last()) + (match wallet_at(m, pks.last()) {
            Some(w) => w.balance as int,
            None => 0,
        })
    }
}

/// Membership in a list splits over dropping its last element.
proof fn lemma_contains_drop_last(pks: Seq<Seq<u8>>, x: Seq<u8>)
    requires
        pks.len() > 0,
    ensures
        pks.contains(x) == (pks.drop_last().contains(x) || pks.last() == x),
{
    if pks.contains(x) {
        let i = choose|i: int| 0 <= i < pks.len() && pks[i] == x;
        if i < pks.len() - 1 {
            assert(pks.drop_last()[i] == x);
        }
    }
    if pks.drop_last().contains(x) {
        let i = choose|i: int| 0 <= i < pks.drop_last().len() && pks.drop_last()[i] == x;
        assert(pks[i] == x);
    }
}

/// Changing exactly two wallets' balances changes the total supply over any
/// duplicate-free key list by exactly the two deltas it covers.
proof fn lemma_supply_two_changes(
    m1: Map<Seq<u8>, Seq<u8>>,
    m2: Map<Seq<u8>, Seq<u8>>,
    a: Seq<u8>,
    da: int,
    b: Seq<u8>,
    db: int,
    pks: Seq<Seq<u8>>,
)
    requires
        a != b,
        wallet_at(m1, a) is Some,
        wallet_at(m2, a) is Some,
        wallet_at(m2, a)->Some_0.balance == wallet_at(m1, a)->Some_0.balance + da,
        wallet_at(m1, b) is Some,
        wallet_at(m2, b) is Some,
        wallet_at(m2, b)->Some_0.balance == wallet_at(m1, b)->Some_0.balance + db,
        forall|pk: Seq<u8>|
            pk != a && pk != b ==> #[trigger] wallet_at(m2, pk) == wallet_at(m1, pk),
        forall|i: int, j: int| 0 <= i < j < pks.len() ==> pks[i] != pks[j],
    ensures
        supply_over(m2, pks) == supply_over(m1, pks) + (if pks.contains(a) {
            da
        } else {
            0
        }) + (if pks.contains(b) {
            db
        } else {
            0
        }),
    decreases pks.len(),
{
    if pks.len() > 0 {
        let pre = pks.drop_last();
        let last = pks.last();
        lemma_supply_two_changes(m1, m2, a, da, b, db, pre);
        lemma_contains_drop_last(pks, a);
        lemma_contains_drop_last(pks, b);
        if last == a {
            if pre.contains(a) {
                let i = choose|i: int| 0 <= i < pre.len() && pre[i] == a;
                assert(pks[i] == pks[pks.len() - 1]);
                assert(false);
            }
        }
        if last == b {
            if pre.contains(b) {
                let i = choose|i: int| 0 <= i < pre.len() && pre[i] == b;
                assert(pks[i] == pks[pks.len() - 1]);
                assert(false);
            }
        }
    }
}

/// Changing exactly one wallet's balance changes the total supply over any
/// duplicate-free key list by exactly that delta, when covered.
proof fn lemma_supply_one_change(
    m1: Map<Seq<u8>, Seq<u8>>,
    m2: Map<Seq<u8>, Seq<u8>>,
    a: Seq<u8>,
    da: int,
    pks: Seq<Seq<u8>>,
)
    requires
        wallet_at(m1, a) is Some,
        wallet_at(m2, a) is Some,
        wallet_at(m2, a)->Some_0.balance == wallet_at(m1, a)->Some_0.balance + da,
        forall|pk: Seq<u8>| pk != a ==> #[trigger] wallet_at(m2, pk) == wallet_at(m1, pk),
        forall|i: int, j: int| 0 <= i < j < pks.len() ==> pks[i] != pks[j],
    ensures
        supply_over(m2, pks) == supply_over(m1, pks) + (if pks.contains(a) {
            da
        } else {
            0
        }),
    decreases pks.len(),
{
    if pks.len() > 0 {
        let pre = pks.drop_last();
        lemma_supply_one_change(m1, m2, a, da, pre);
        lemma_contains_drop_last(pks, a);
        if pks.last() == a {
            if pre.contains(a) {
                let i = choose|i: int| 0 <= i < pre.len() && pre[i] == a;
                assert(pks[i] == pks[pks.len() - 1]);
                assert(false);
            }
        }
    }
}

/// A successful transfer moves exactly the amount from sender to receiver:
/// over any duplicate-free key list covering both, total supply is
/// unchanged.
pub proof fn lemma_transfer_preserves_supply(
    m: Map<Seq<u8>, Seq<u8>>,
    from: Seq<u8>,
    to: Seq<u8>,
    amount: u64,
    h: Seq<u8>,
    d: Seq<u8>,
    pks: Seq<Seq<u8>>,
)
    requires
        schema_wf(m),
        from != to,
        is_digest(h),
        transfer_result(m, from, to, amount, h) is Ok,
        pks.contains(from),
        pks.contains(to),
        forall|i: int, j: int| 0 <= i < j < pks.len() ==> pks[i] != pks[j],
    ensures
        supply_over(transfer_map(m, from, to, amount, h, d), pks) == supply_over(m, pks),
{
    let m2 = transfer_map(m, from, to, amount, h, d);
    assert forall|pk: Seq<u8>|
        pk != from && pk != to implies #[trigger] wallet_at(m2, pk) == wallet_at(m, pk) by {
        lemma_transfer_effect(m, from, to, amount, h, d, pk);
    }
    lemma_transfer_effect(m, from, to, amount, h, d, from);
    lemma_transfer_effect(m, from, to, amount, h, d, to);
    lemma_supply_two_changes(m, m2, from, -(amount as int), to, amount as int, pks);
}

/// A successful issue raises total supply by exactly the issued amount,
/// over any duplicate-free key list covering the target wallet.
pub proof fn lemma_issue_increases_supply(
    m: Map<Seq<u8>, Seq<u8>>,
    pk: Seq<u8>,
    amount: u64,
    d: Seq<u8>,
    pks: Seq<Seq<u8>>,
)
    requires
        schema_wf(m),
        issue_result(m, pk, amount) is Ok,
        pks.contains(pk),
        forall|i: int, j: int| 0 <= i < j < pks.len() ==> pks[i] != pks[j],
    ensures
        supply_over(wallet_put_map(m, credited(wallet_at(m, pk)->Some_0, amount), d), pks)
            == supply_over(m, pks) + amount,
{
    let m2 = wallet_put_map(m, credited(wallet_at(m, pk)->Some_0, amount), d);
    assert forall|pk2: Seq<u8>|
        pk2 != pk implies #[trigger] wallet_at(m2, pk2) == wallet_at(m, pk2) by {
        lemma_issue_effect(m, pk, amount, d, pk2);
    }
    lemma_issue_effect(m, pk, amount, d, pk);
    lemma_supply_one_change(m, m2, pk, amount as int, pks);
}

/// Replay protection: a transfer whose reference digest is already in the
/// sender's replay guard always fails with `UsedHash`. Together with
/// `execute`'s contract, a failing transfer leaves every balance unchanged.
pub proof fn lemma_replay_rejected(
    m: Map<Seq<u8>, Seq<u8>>,
    from: Seq<u8>,
    to: Seq<u8>,
    amount: u64,
    h: Seq<u8>,
)
    requires
        wallet_at(m, from) is Some,
        wallet_at(m, from)->Some_0.used.contains(h),
    ensures
        transfer_result(m, from, to, amount, h) == Err::<(), ExecError>(ExecError::UsedHash),
{
}

/// Create is idempotent-reject: a second create under an existing public
/// key fails with `WalletAlreadyExists`. Together with `execute`'s
/// contract, the existing record (balance, name, guard) stays unchanged.
pub proof fn lemma_create_rejected(m: Map<Seq<u8>, Seq<u8>>, pk: Seq<u8>)
    requires
        wallet_at(m, pk) is Some,
    ensures
        create_result(m, pk) == Err::<(), ExecError>(ExecError::WalletAlreadyExists),
{
}

} // verus!
