//! The transactions and their two-phase contract: stateless `verify`
//! (signature and shape), stateful `execute` (storage effects against one
//! fork), with a closed set of execution errors carrying stable codes.

use vstd::prelude::*;
use vstd::map::*;
use crate::fork::Fork;
use crate::schema::{wallet_at, schema_wf, wallet_put_map, wallet_put_log,
    new_wallet, get_wallet, create_wallet, increase_balance, decrease_balance};
use crate::wallet::{Wallet, WalletV, wallet_v_wf, digests_view, clone_digests};
use crate::hash::{digest_of, sha256};
use crate::sig::{sig_valid, ed25519_verify};
use crate::codec::{u64_le, push_u64_le, push_bytes};
use crate::bytes_eq;
use crate::clone_bytes;
use crate::is_digest;
use crate::is_key;

verus! {

/// Execution error of a transaction. The set is closed and each variant
/// maps to a stable numeric code.
#[derive(Clone, Copy, PartialEq, Eq, Structural, Debug)]
pub enum ExecError {
    /// A wallet already exists under the public key.
    WalletAlreadyExists,
    /// The sending wallet does not exist.
    SenderNotFound,
    /// The receiving wallet does not exist.
    ReceiverNotFound,
    /// The sender's balance does not cover the amount.
    InsufficientCurrencyAmount,
    /// The transfer's reference digest was already consumed by this sender.
    UsedHash,
    /// A balance update would overflow, or a replay-guard count would
    /// exceed its 64-bit storage field.
    Overflow,
}

impl ExecError {
    /// The stable numeric code of each error kind.
    pub open spec fn code_spec(&self) -> u8 {
        match self {
            ExecError::WalletAlreadyExists => 0,
            ExecError::SenderNotFound => 1,
            ExecError::ReceiverNotFound => 2,
            ExecError::InsufficientCurrencyAmount => 3,
            ExecError::UsedHash => 4,
            ExecError::Overflow => 5,
        }
    }

    /// The stable numeric code recorded for this error.
    pub fn code(&self) -> (r: u8)
        ensures
            r == self.code_spec(),
    {
        match self {
            ExecError::WalletAlreadyExists => 0,
            ExecError::SenderNotFound => 1,
            ExecError::ReceiverNotFound => 2,
            ExecError::InsufficientCurrencyAmount => 3,
            ExecError::UsedHash => 4,
            ExecError::Overflow => 5,
        }
    }

    /// The description text of each error kind.
    pub open spec fn description_spec(&self) -> Seq<char> {
        match self {
            ExecError::WalletAlreadyExists => "Wallet already exists"@,
            ExecError::SenderNotFound => "Sender doesn't exist"@,
            ExecError::ReceiverNotFound => "Receiver doesn't exist"@,
            ExecError::InsufficientCurrencyAmount => "Insufficient currency amount"@,
            ExecError::UsedHash => "Used hash"@,
            ExecError::Overflow => "Balance overflow"@,
        }
    }

    /// A human-readable description of the error.
    pub fn description(&self) -> (r: &'static str)
        ensures
            r@ == self.description_spec(),
    {
        match self {
            ExecError::WalletAlreadyExists => "Wallet already exists",
            ExecError::SenderNotFound => "Sender doesn't exist",
            ExecError::ReceiverNotFound => "Receiver doesn't exist",
            ExecError::InsufficientCurrencyAmount => "Insufficient currency amount",
            ExecError::UsedHash => "Used hash",
            ExecError::Overflow => "Balance overflow",
        }
    }
}

/// A ledger transaction: a tagged variant carrying signer keys, amounts, an
/// idempotence seed, and (for transfers) an explicit reference digest used
/// purely as a replay marker.
pub enum Transaction {
    /// Creates a wallet with the given name under a fresh public key.
    CreateWallet { pub_key: Vec<u8>, name: Vec<u8>, signature: Vec<u8> },
    /// Issues `amount` of the currency to an existing wallet.
    Issue { pub_key: Vec<u8>, amount: u64, seed: u64, signature: Vec<u8> },
    /// Moves `amount` from one wallet to another, consuming `tx_hash` as a
    /// replay marker in the sender's record.
    Transfer {
        tx_hash: Vec<u8>,
        from: Vec<u8>,
        to: Vec<u8>,
        amount: u64,
        seed: u64,
        signature: Vec<u8>,
    },
    /// Two transfer legs applied against the same fork as one unit; either
    /// leg's failure aborts both. Each leg consumes its own reference digest
    /// in its own sender's record.
    MultiTransfer {
        tx_hash1: Vec<u8>,
        tx_hash2: Vec<u8>,
        from1: Vec<u8>,
        from2: Vec<u8>,
        to1: Vec<u8>,
        to2: Vec<u8>,
        amount1: u64,
        amount2: u64,
        seed: u64,
        signature: Vec<u8>,
    },
}

impl Transaction {
    /// Structural validity: field shapes, and distinct endpoints per leg.
    /// Each leg of a two-leg transfer must have distinct endpoints: with
    /// whole-record writes, a leg sending to its own sender would credit a
    /// record read before the debit, inflating supply and dropping the
    /// replay marker, so the non-negative-supply and replay invariants
    /// force the check on both legs.
    pub open spec fn structural(&self) -> bool {
        match self {
            Transaction::CreateWallet { pub_key, signature, .. } => is_key(pub_key@)
                && signature@.len() == 64,
            Transaction::Issue { pub_key, signature, .. } => is_key(pub_key@) && signature@.len()
                == 64,
            Transaction::Transfer { tx_hash, from, to, signature, .. } => is_digest(tx_hash@)
                && is_key(from@) && is_key(to@) && from@ != to@ && signature@.len() == 64,
            Transaction::MultiTransfer {
                tx_hash1,
                tx_hash2,
                from1,
                from2,
                to1,
                to2,
                signature,
                ..
            } => is_digest(tx_hash1@) && is_digest(tx_hash2@) && is_key(from1@) && is_key(from2@)
                && is_key(to1@) && is_key(to2@) && from1@ != to1@ && from2@ != to2@
                && signature@.len() == 64,
        }
    }

    /// The key the transaction must be signed under.
    pub open spec fn signer(&self) -> Seq<u8> {
        match self {
            Transaction::CreateWallet { pub_key, .. } => pub_key@,
            Transaction::Issue { pub_key, .. } => pub_key@,
            Transaction::Transfer { from, .. } => from@,
            Transaction::MultiTransfer { from1, .. } => from1@,
        }
    }

    /// The signature carried by the transaction.
    pub open spec fn sig(&self) -> Seq<u8> {
        match self {
            Transaction::CreateWallet { signature, .. } => signature@,
            Transaction::Issue { signature, .. } => signature@,
            Transaction::Transfer { signature, .. } => signature@,
            Transaction::MultiTransfer { signature, .. } => signature@,
        }
    }

    /// The canonical signed byte form: a tag byte, then every field but the
    /// signature, fixed-size fields in place and the name length-framed.
    pub open spec fn msg(&self) -> Seq<u8> {
        match self {
            Transaction::CreateWallet { pub_key, name, .. } => seq![0u8] + pub_key@ + u64_le(
                name@.len() as u64,
            ) + name@,
            Transaction::Issue { pub_key, amount, seed, .. } => seq![1u8] + pub_key@ + u64_le(
                *amount,
            ) + u64_le(*seed),
            Transaction::Transfer { tx_hash, from, to, amount, seed, .. } => seq![2u8] + tx_hash@
                + from@ + to@ + u64_le(*amount) + u64_le(*seed),
            Transaction::MultiTransfer {
                tx_hash1,
                tx_hash2,
                from1,
                from2,
                to1,
                to2,
                amount1,
                amount2,
                seed,
                ..
            } => seq![3u8] + tx_hash1@ + tx_hash2@ + from1@ + from2@ + to1@ + to2@ + u64_le(
                *amount1,
            ) + u64_le(*amount2) + u64_le(*seed),
        }
    }

    /// The transaction's own content digest, distinct from any carried
    /// reference digest.
    pub open spec fn digest(&self) -> Seq<u8> {
        digest_of(self.msg())
    }

    /// A transaction is verified when its shape is valid and its signature
    /// is accepted under the declared signer key.
    pub open spec fn verified(&self) -> bool {
        self.structural() && sig_valid(self.signer(), self.msg(), self.sig())
    }

    /// Serializes the canonical signed byte form.
    pub fn encode_msg(&self) -> (r: Vec<u8>)
        ensures
            r@ == self.msg(),
    {
        let mut out: Vec<u8> = Vec::new();
        match self {
            Transaction::CreateWallet { pub_key, name, .. } => {
                out.push(0u8);
                push_bytes(&mut out, pub_key);
                push_u64_le(&mut out, name.len() as u64);
                push_bytes(&mut out, name);
            },
            Transaction::Issue { pub_key, amount, seed, .. } => {
                out.push(1u8);
                push_bytes(&mut out, pub_key);
                push_u64_le(&mut out, *amount);
                push_u64_le(&mut out, *seed);
            },
            Transaction::Transfer { tx_hash, from, to, amount, seed, .. } => {
                out.push(2u8);
                push_bytes(&mut out, tx_hash);
                push_bytes(&mut out, from);
                push_bytes(&mut out, to);
                push_u64_le(&mut out, *amount);
                push_u64_le(&mut out, *seed);
            },
            Transaction::MultiTransfer {
                tx_hash1,
                tx_hash2,
                from1,
                from2,
                to1,
                to2,
                amount1,
                amount2,
                seed,
                ..
            } => {
                out.push(3u8);
                push_bytes(&mut out, tx_hash1);
                push_bytes(&mut out, tx_hash2);
                push_bytes(&mut out, from1);
                push_bytes(&mut out, from2);
                push_bytes(&mut out, to1);
                push_bytes(&mut out, to2);
                push_u64_le(&mut out, *amount1);
                push_u64_le(&mut out, *amount2);
                push_u64_le(&mut out, *seed);
            },
        }
        proof {
            assert(out@ =~= self.msg());
        }
        out
    }

    /// Computes the transaction's content digest.
    pub fn hash(&self) -> (r: Vec<u8>)
        ensures
            r@ == self.digest(),
            is_digest(r@),
    {
        let msg = self.encode_msg();
        sha256(&msg)
    }

    /// Stateless verification: shape and signature only, no storage access.
    pub fn verify(&self) -> (r: bool)
        ensures
            r == self.verified(),
    {
        let shape_ok = match self {
            Transaction::CreateWallet { pub_key, signature, .. } => pub_key.len() == 32
                && signature.len() == 64,
            Transaction::Issue { pub_key, signature, .. } => pub_key.len() == 32
                && signature.len() == 64,
            Transaction::Transfer { tx_hash, from, to, signature, .. } => tx_hash.len() == 32
                && from.len() == 32 && to.len() == 32 && !bytes_eq(from, to) && signature.len()
                == 64,
            Transaction::MultiTransfer {
                tx_hash1,
                tx_hash2,
                from1,
                from2,
                to1,
                to2,
                signature,
                ..
            } => tx_hash1.len() == 32 && tx_hash2.len() == 32 && from1.len() == 32 && from2.len()
                == 32 && to1.len() == 32 && to2.len() == 32 && !bytes_eq(from1, to1) && !bytes_eq(
                from2,
                to2,
            ) && signature.len() == 64,
        };
        if !shape_ok {
            return false;
        }
        let msg = self.encode_msg();
        let (signer, signature): (&Vec<u8>, &Vec<u8>) = match self {
            Transaction::CreateWallet { pub_key, signature, .. } => (pub_key, signature),
            Transaction::Issue { pub_key, signature, .. } => (pub_key, signature),
            Transaction::Transfer { from, signature, .. } => (from, signature),
            Transaction::MultiTransfer { from1, signature, .. } => (from1, signature),
        };
        ed25519_verify(signer, &msg, signature)
    }
}

/// The sender record after a debit: balance reduced, the reference digest
/// appended to its replay guard.
pub open spec fn debited(s: WalletV, amount: u64, h: Seq<u8>) -> WalletV {
    WalletV { balance: (s.balance - amount) as u64, used: s.used.push(h), ..s }
}

/// The receiver record after a credit: balance raised, replay guard
/// untouched.
pub open spec fn credited(r: WalletV, amount: u64) -> WalletV {
    WalletV { balance: (r.balance + amount) as u64, ..r }
}

/// Outcome of creating a wallet under `pk` against map `m`.
pub open spec fn create_result(m: Map<Seq<u8>, Seq<u8>>, pk: Seq<u8>) -> Result<(), ExecError> {
    if wallet_at(m, pk) is Some {
        Err(ExecError::WalletAlreadyExists)
    } else {
        Ok(())
    }
}

/// Outcome of issuing `amount` to the wallet under `pk` against map `m`.
pub open spec fn issue_result(m: Map<Seq<u8>, Seq<u8>>, pk: Seq<u8>, amount: u64) -> Result<
    (),
    ExecError,
> {
    match wallet_at(m, pk) {
        None => Err(ExecError::ReceiverNotFound),
        Some(w) => if w.balance + amount > u64::MAX {
            Err(ExecError::Overflow)
        } else {
            Ok(())
        },
    }
}

/// Outcome of one transfer leg against map `m`: sender looked up first,
/// replay guard checked, receiver looked up, balance checked — all reads
/// before any write — then the hardening bounds.
pub open spec fn transfer_result(
    m: Map<Seq<u8>, Seq<u8>>,
    from: Seq<u8>,
    to: Seq<u8>,
    amount: u64,
    h: Seq<u8>,
) -> Result<(), ExecError> {
    match wallet_at(m, from) {
        None => Err(ExecError::SenderNotFound),
        Some(s) => if s.used.contains(h) {
            Err(ExecError::UsedHash)
        } else {
            match wallet_at(m, to) {
                None => Err(ExecError::ReceiverNotFound),
                Some(rw) => if s.balance < amount {
                    Err(ExecError::InsufficientCurrencyAmount)
                } else if s.used.len() >= u64::MAX {
                    Err(ExecError::Overflow)
                } else if rw.balance + amount > u64::MAX {
                    Err(ExecError::Overflow)
                } else {
                    Ok(())
                },
            }
        },
    }
}

/// The map after one successful transfer leg: debit written, then credit,
/// each with its history step under transaction digest `d`.
pub open spec fn transfer_map(
    m: Map<Seq<u8>, Seq<u8>>,
    from: Seq<u8>,
    to: Seq<u8>,
    amount: u64,
    h: Seq<u8>,
    d: Seq<u8>,
) -> Map<Seq<u8>, Seq<u8>> {
    let s = wallet_at(m, from)->Some_0;
    let rw = wallet_at(m, to)->Some_0;
    let m1 = wallet_put_map(m, debited(s, amount, h), d);
    wallet_put_map(m1, credited(rw, amount), d)
}

/// The log entries one successful transfer leg appends.
pub open spec fn transfer_log(
    m: Map<Seq<u8>, Seq<u8>>,
    from: Seq<u8>,
    to: Seq<u8>,
    amount: u64,
    h: Seq<u8>,
    d: Seq<u8>,
) -> Seq<(Seq<u8>, Option<Seq<u8>>)> {
    let s = wallet_at(m, from)->Some_0;
    let rw = wallet_at(m, to)->Some_0;
    let m1 = wallet_put_map(m, debited(s, amount, h), d);
    wallet_put_log(m, debited(s, amount, h), d) + wallet_put_log(m1, credited(rw, amount), d)
}

/// Decides whether `h` is already in the wallet's replay guard.
pub fn used_contains(w: &Wallet, h: &Vec<u8>) -> (r: bool)
    ensures
        r == w@.used.contains(h@),
{
    let n = w.used.len();
    let mut i: usize = 0;
    while i < n
        invariant
            n == w.used@.len(),
            0 <= i <= n,
            forall|j: int| 0 <= j < i ==> w@.used[j] != h@,
        decreases n - i,
    {
        if bytes_eq(&w.used[i], h) {
            assert(w@.used[i as int] == h@);
            return true;
        }
        i = i + 1;
    }
    assert(!w@.used.contains(h@));
    false
}

/// One transfer leg: validates everything against the current fork state,
/// then writes the debit and the credit. On any error the fork is untouched.
pub fn transfer_step(
    f: &mut Fork,
    from: &Vec<u8>,
    to: &Vec<u8>,
    amount: u64,
    tx_hash: &Vec<u8>,
    d: &Vec<u8>,
) -> (r: Result<(), ExecError>)
    requires
        old(f).wf(),
        schema_wf(old(f).mapv()),
        is_key(from@),
        is_key(to@),
        from@ != to@,
        is_digest(tx_hash@),
        is_digest(d@),
    ensures
        final(f).wf(),
        schema_wf(final(f).mapv()),
        final(f).basev() == old(f).basev(),
        r == transfer_result(old(f).mapv(), from@, to@, amount, tx_hash@),
        r is Ok ==> final(f).mapv() == transfer_map(old(f).mapv(), from@, to@, amount, tx_hash@, d@)
            && final(f).logv() == old(f).logv() + transfer_log(
            old(f).mapv(),
            from@,
            to@,
            amount,
            tx_hash@,
            d@,
        ),
        r is Err ==> final(f).mapv() == old(f).mapv() && final(f).logv() == old(f).logv(),
{
    let sender = match get_wallet(f, from) {
        None => {
            return Err(ExecError::SenderNotFound);
        },
        Some(s) => s,
    };
    if used_contains(&sender, tx_hash) {
        return Err(ExecError::UsedHash);
    }
    let receiver = match get_wallet(f, to) {
        None => {
            return Err(ExecError::ReceiverNotFound);
        },
        Some(rw) => rw,
    };
    if sender.balance < amount {
        return Err(ExecError::InsufficientCurrencyAmount);
    }
    if sender.used.len() as u64 >= u64::MAX {
        return Err(ExecError::Overflow);
    }
    if receiver.balance > u64::MAX - amount {
        return Err(ExecError::Overflow);
    }
    let ghost m0 = f.mapv();
    let ghost s0 = sender@;
    let ghost r0 = receiver@;
    let mut new_used = clone_digests(&sender.used);
    new_used.push(clone_bytes(tx_hash));
    proof {
        assert(digests_view(new_used@) =~= s0.used.push(tx_hash@));
    }
    let s2 = decrease_balance(f, sender, amount, d, new_used);
    proof {
        assert(s2@ =~~= debited(s0, amount, tx_hash@));
    }
    let r_used = clone_digests(&receiver.used);
    let r2 = increase_balance(f, receiver, amount, d, r_used);
    proof {
        assert(r2@ =~~= credited(r0, amount));
        assert(f.logv() =~= old(f).logv() + transfer_log(
            m0,
            from@,
            to@,
            amount,
            tx_hash@,
            d@,
        ));
    }
    Ok(())
}

impl Transaction {
    /// The outcome `execute` owes against the map `m` the fork observes.
    pub open spec fn exec_result(&self, m: Map<Seq<u8>, Seq<u8>>) -> Result<(), ExecError> {
        match self {
            Transaction::CreateWallet { pub_key, .. } => create_result(m, pub_key@),
            Transaction::Issue { pub_key, amount, .. } => issue_result(m, pub_key@, *amount),
            Transaction::Transfer { tx_hash, from, to, amount, .. } => transfer_result(
                m,
                from@,
                to@,
                *amount,
                tx_hash@,
            ),
            Transaction::MultiTransfer {
                tx_hash1,
                tx_hash2,
                from1,
                from2,
                to1,
                to2,
                amount1,
                amount2,
                ..
            } => {
                let r1 = transfer_result(m, from1@, to1@, *amount1, tx_hash1@);
                if r1 is Err {
                    r1
                } else {
                    transfer_result(
                        transfer_map(m, from1@, to1@, *amount1, tx_hash1@, self.digest()),
                        from2@,
                        to2@,
                        *amount2,
                        tx_hash2@,
                    )
                }
            },
        }
    }

    /// The map a successful `execute` leaves behind.
    pub open spec fn apply_map(&self, m: Map<Seq<u8>, Seq<u8>>) -> Map<Seq<u8>, Seq<u8>> {
        let d = self.digest();
        match self {
            Transaction::CreateWallet { pub_key, name, .. } => wallet_put_map(
                m,
                new_wallet(pub_key@, name@),
                d,
            ),
            Transaction::Issue { pub_key, amount, .. } => wallet_put_map(
                m,
                credited(wallet_at(m, pub_key@)->Some_0, *amount),
                d,
            ),
            Transaction::Transfer { tx_hash, from, to, amount, .. } => transfer_map(
                m,
                from@,
                to@,
                *amount,
                tx_hash@,
                d,
            ),
            Transaction::MultiTransfer {
                tx_hash1,
                tx_hash2,
                from1,
                from2,
                to1,
                to2,
                amount1,
                amount2,
                ..
            } => transfer_map(
                transfer_map(m, from1@, to1@, *amount1, tx_hash1@, d),
                from2@,
                to2@,
                *amount2,
                tx_hash2@,
                d,
            ),
        }
    }

    /// The log entries a successful `execute` appends.
    pub open spec fn apply_log(&self, m: Map<Seq<u8>, Seq<u8>>) -> Seq<(Seq<u8>, Option<Seq<u8>>)> {
        let d = self.digest();
        match self {
            Transaction::CreateWallet { pub_key, name, .. } => wallet_put_log(
                m,
                new_wallet(pub_key@, name@),
                d,
            ),
            Transaction::Issue { pub_key, amount, .. } => wallet_put_log(
                m,
                credited(wallet_at(m, pub_key@)->Some_0, *amount),
                d,
            ),
            Transaction::Transfer { tx_hash, from, to, amount, .. } => transfer_log(
                m,
                from@,
                to@,
                *amount,
                tx_hash@,
                d,
            ),
            Transaction::MultiTransfer {
                tx_hash1,
                tx_hash2,
                from1,
                from2,
                to1,
                to2,
                amount1,
                amount2,
                ..
            } => transfer_log(m, from1@, to1@, *amount1, tx_hash1@, d) + transfer_log(
                transfer_map(m, from1@, to1@, *amount1, tx_hash1@, d),
                from2@,
                to2@,
                *amount2,
                tx_hash2@,
                d,
            ),
        }
    }
}

/// Stateful execution of one transaction against a fork. The outcome and
/// every storage effect are fixed by the fork's observed map; a failing
/// transaction leaves the fork exactly as it was.
pub fn execute(tx: &Transaction, f: &mut Fork) -> (r: Result<(), ExecError>)
    requires
        old(f).wf(),
        schema_wf(old(f).mapv()),
        tx.structural(),
    ensures
        final(f).wf(),
        schema_wf(final(f).mapv()),
        final(f).basev() == old(f).basev(),
        r == tx.exec_result(old(f).mapv()),
        r is Ok ==> final(f).mapv() == tx.apply_map(old(f).mapv()) && final(f).logv() == old(
            f,
        ).logv() + tx.apply_log(old(f).mapv()),
        r is Err ==> final(f).mapv() == old(f).mapv() && final(f).logv() == old(f).logv(),
{
    let d = tx.hash();
    match tx {
        Transaction::CreateWallet { pub_key, name, .. } => {
            match get_wallet(f, pub_key) {
                Some(_) => Err(ExecError::WalletAlreadyExists),
                None => {
                    let used: Vec<Vec<u8>> = Vec::new();
                    proof {
                        assert(digests_view(used@) =~= Seq::<Seq<u8>>::empty());
                        assert(name@.len() == name.len());
                    }
                    let _w = create_wallet(f, pub_key, name, &d, used);
                    Ok(())
                },
            }
        },
        Transaction::Issue { pub_key, amount, .. } => {
            match get_wallet(f, pub_key) {
                None => Err(ExecError::ReceiverNotFound),
                Some(w) => {
                    if w.balance > u64::MAX - *amount {
                        Err(ExecError::Overflow)
                    } else {
                        let ghost w0 = w@;
                        let nu = clone_digests(&w.used);
                        let w2 = increase_balance(f, w, *amount, &d, nu);
                        proof {
                            assert(w2@ =~~= credited(w0, *amount));
                        }
                        Ok(())
                    }
                },
            }
        },
        Transaction::Transfer { tx_hash, from, to, amount, .. } => {
            transfer_step(f, from, to, *amount, tx_hash, &d)
        },
        Transaction::MultiTransfer {
            tx_hash1,
            tx_hash2,
            from1,
            from2,
            to1,
            to2,
            amount1,
            amount2,
            ..
        } => {
            let cp = f.checkpoint();
            match transfer_step(f, from1, to1, *amount1, tx_hash1, &d) {
                Err(e) => Err(e),
                Ok(()) => {
                    match transfer_step(f, from2, to2, *amount2, tx_hash2, &d) {
                        Ok(()) => {
                            proof {
                                assert(f.logv() =~= old(f).logv() + tx.apply_log(old(f).mapv()));
                            }
                            Ok(())
                        },
                        Err(e) => {
                            f.rollback_to(cp);
                            proof {
                                assert(f.logv() =~= old(f).logv());
                            }
                            Err(e)
                        },
                    }
                },
            }
        },
    }
}

} // verus!
