//! The execution engine: runs the ordered transaction list of one pending
//! block against a single fork, sequentially, each transaction bracketed by
//! a checkpoint taken before `execute` and rolled back on failure, so a
//! failed transaction leaves zero observable trace.

use vstd::prelude::*;
use vstd::map::*;
use crate::fork::{Fork, Store, spec_merge};
use crate::schema::schema_wf;
use crate::tx::{Transaction, ExecError, execute};
use crate::hash::{store_root, store_root_exec};

verus! {

/// Outcome of one transaction within a block.
#[derive(Clone, Copy, PartialEq, Eq, Structural, Debug)]
pub enum TxError {
    /// Stateless verification rejected the transaction: it never reached
    /// storage and left no trace.
    Validation,
    /// Execution failed with the given error; its writes were rolled back.
    Execution(ExecError),
}

/// The outcome the engine owes for one transaction against the map `m`.
pub open spec fn tx_outcome(m: Map<Seq<u8>, Seq<u8>>, tx: Transaction) -> Result<(), TxError> {
    if !tx.verified() {
        Err(TxError::Validation)
    } else {
        match tx.exec_result(m) {
            Ok(()) => Ok(()),
            Err(e) => Err(TxError::Execution(e)),
        }
    }
}

/// The map after one engine step: only a verified transaction that executes
/// successfully changes anything.
pub open spec fn step_map(m: Map<Seq<u8>, Seq<u8>>, tx: Transaction) -> Map<Seq<u8>, Seq<u8>> {
    if tx.verified() && tx.exec_result(m) is Ok {
        tx.apply_map(m)
    } else {
        m
    }
}

/// The log entries one engine step leaves behind after rollback handling.
pub open spec fn step_log(m: Map<Seq<u8>, Seq<u8>>, tx: Transaction) -> Seq<
    (Seq<u8>, Option<Seq<u8>>),
> {
    if tx.verified() && tx.exec_result(m) is Ok {
        tx.apply_log(m)
    } else {
        Seq::empty()
    }
}

/// The map a whole ordered transaction list leaves behind.
pub open spec fn apply_block(m: Map<Seq<u8>, Seq<u8>>, txs: Seq<Transaction>) -> Map<
    Seq<u8>,
    Seq<u8>,
>
    decreases txs.len(),
{
    if txs.len() == 0 {
        m
    } else {
        step_map(apply_block(m, txs.drop_last()), txs.last())
    }
}

/// The log a whole ordered transaction list leaves behind.
pub open spec fn block_log(m: Map<Seq<u8>, Seq<u8>>, txs: Seq<Transaction>) -> Seq<
    (Seq<u8>, Option<Seq<u8>>),
>
    decreases txs.len(),
{
    if txs.len() == 0 {
        Seq::empty()
    } else {
        block_log(m, txs.drop_last()) + step_log(apply_block(m, txs.drop_last()), txs.last())
    }
}

/// A transaction whose outcome is an error leaves the state and the log of
/// its block exactly as they were: failed work is unobservable.
pub proof fn lemma_failed_tx_no_trace(m: Map<Seq<u8>, Seq<u8>>, tx: Transaction)
    requires
        tx_outcome(m, tx) is Err,
    ensures
        step_map(m, tx) == m,
        step_log(m, tx) == Seq::<(Seq<u8>, Option<Seq<u8>>)>::empty(),
{
}

/// Determinism: two forks holding equal base snapshots and equal pending
/// logs observe equal maps; replaying the same ordered transaction list
/// yields equal final maps and logs, and committing yields equal snapshot
/// entries, hence identical root hashes.
pub proof fn lemma_replay_determinism(f1: Fork, f2: Fork, txs: Seq<Transaction>)
    requires
        f1.basev() == f2.basev(),
        f1.logv() == f2.logv(),
    ensures
        f1.mapv() == f2.mapv(),
        apply_block(f1.mapv(), txs) == apply_block(f2.mapv(), txs),
        block_log(f1.mapv(), txs) == block_log(f2.mapv(), txs),
        spec_merge(f1.basev(), f1.logv() + block_log(f1.mapv(), txs)) == spec_merge(
            f2.basev(),
            f2.logv() + block_log(f2.mapv(), txs),
        ),
        store_root(spec_merge(f1.basev(), f1.logv() + block_log(f1.mapv(), txs))) == store_root(
            spec_merge(f2.basev(), f2.logv() + block_log(f2.mapv(), txs)),
        ),
{
}

/// Runs a block's ordered transaction list against the fork. Each
/// transaction is verified statelessly, then executed under a checkpoint
/// that is restored if execution fails; the per-transaction outcomes are
/// returned in order.
pub fn run_block(f: &mut Fork, txs: &Vec<Transaction>) -> (outcomes: Vec<Result<(), TxError>>)
    requires
        old(f).wf(),
        schema_wf(old(f).mapv()),
    ensures
        final(f).wf(),
        schema_wf(final(f).mapv()),
        final(f).basev() == old(f).basev(),
        final(f).mapv() == apply_block(old(f).mapv(), txs@),
        final(f).logv() == old(f).logv() + block_log(old(f).mapv(), txs@),
        outcomes@.len() == txs@.len(),
        forall|i: int|
            0 <= i < txs@.len() ==> outcomes@[i] == tx_outcome(
                apply_block(old(f).mapv(), txs@.subrange(0, i)),
                txs@[i],
            ),
{
    let ghost m0 = old(f).mapv();
    let ghost l0 = old(f).logv();
    let mut outcomes: Vec<Result<(), TxError>> = Vec::new();
    let n = txs.len();
    let mut i: usize = 0;
    proof {
        assert(txs@.subrange(0, 0) =~= Seq::<Transaction>::empty());
        assert(f.logv() =~= l0 + block_log(m0, txs@.subrange(0, 0)));
    }
    while i < n
        invariant
            f.wf(),
            schema_wf(f.mapv()),
            n == txs@.len(),
            0 <= i <= n,
            f.basev() == old(f).basev(),
            m0 == old(f).mapv(),
            l0 == old(f).logv(),
            f.mapv() == apply_block(m0, txs@.subrange(0, i as int)),
            f.logv() == l0 + block_log(m0, txs@.subrange(0, i as int)),
            outcomes@.len() == i,
            forall|j: int|
                0 <= j < i ==> outcomes@[j] == tx_outcome(
                    apply_block(m0, txs@.subrange(0, j)),
                    txs@[j],
                ),
        decreases n - i,
    {
        let ghost pre = txs@.subrange(0, i as int);
        let ghost cur = txs@.subrange(0, i + 1);
        let ghost mi = f.mapv();
        proof {
            assert(cur.drop_last() =~= pre);
            assert(cur.last() == txs@[i as int]);
        }
        let tx = &txs[i];
        let cp = f.checkpoint();
        if tx.verify() {
            match execute(tx, f) {
                Ok(()) => {
                    outcomes.push(Ok(()));
                    proof {
                        assert(f.logv() =~= l0 + block_log(m0, cur));
                    }
                },
                Err(e) => {
                    f.rollback_to(cp);
                    outcomes.push(Err(TxError::Execution(e)));
                    proof {
                        assert(f.logv() =~= l0 + block_log(m0, cur));
                    }
                },
            }
        } else {
            outcomes.push(Err(TxError::Validation));
            proof {
                assert(f.logv() =~= l0 + block_log(m0, cur));
            }
        }
        i = i + 1;
    }
    proof {
        assert(txs@.subrange(0, n as int) =~= txs@);
    }
    outcomes
}

/// Processes one pending block end to end: opens a fork over the snapshot,
/// runs the ordered transaction list, commits, and hands out the new
/// snapshot, the per-transaction outcomes, and the root hash that commits
/// to the new state. Every part of the result is a function of the
/// snapshot and the list alone, so independent replicas agree bit for bit.
pub fn process_block(store: Store, txs: &Vec<Transaction>) -> (res: (
    Store,
    Vec<Result<(), TxError>>,
    Vec<u8>,
))
    requires
        store.wf(),
        schema_wf(store.mapv()),
    ensures
        res.0.wf(),
        schema_wf(res.0.mapv()),
        res.0.mapv() == apply_block(store.mapv(), txs@),
        res.0.entriesv() == spec_merge(store.entriesv(), block_log(store.mapv(), txs@)),
        res.2@ == store_root(res.0.entriesv()),
        res.1@.len() == txs@.len(),
        forall|i: int|
            0 <= i < txs@.len() ==> res.1@[i] == tx_outcome(
                apply_block(store.mapv(), txs@.subrange(0, i)),
                txs@[i],
            ),
{
    let mut f = store.open_fork();
    let outcomes = run_block(&mut f, txs);
    let s2 = f.commit();
    let root = store_root_exec(&s2);
    proof {
        assert(Seq::<(Seq<u8>, Option<Seq<u8>>)>::empty() + block_log(store.mapv(), txs@)
            =~= block_log(store.mapv(), txs@));
    }
    (s2, outcomes, root)
}

} // verus!
