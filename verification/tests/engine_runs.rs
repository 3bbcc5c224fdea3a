use ed25519_dalek::Signer;
use ed25519_dalek::SigningKey;
use ledger_core::engine::{run_block, TxError};
use ledger_core::fork::{Fork, Store};
use ledger_core::hash::store_root_exec;
use ledger_core::schema::get_wallet;
use ledger_core::tx::{ExecError, Transaction};

fn signer(seed: u8) -> SigningKey {
    SigningKey::from_bytes(&[seed; 32])
}

fn pk_of(sk: &SigningKey) -> Vec<u8> {
    sk.verifying_key().to_bytes().to_vec()
}

fn digest(b: u8) -> Vec<u8> {
    vec![b; 32]
}

fn sign_tx(mut tx: Transaction, sk: &SigningKey) -> Transaction {
    let msg = tx.encode_msg();
    let sig = sk.sign(&msg).to_bytes().to_vec();
    match &mut tx {
        Transaction::CreateWallet { signature, .. } => *signature = sig,
        Transaction::Issue { signature, .. } => *signature = sig,
        Transaction::Transfer { signature, .. } => *signature = sig,
        Transaction::MultiTransfer { signature, .. } => *signature = sig,
    }
    tx
}

fn zero_sig() -> Vec<u8> {
    vec![0u8; 64]
}

fn block() -> Vec<Transaction> {
    let alice = signer(1);
    let bob = signer(2);
    let create_a = sign_tx(
        Transaction::CreateWallet {
            pub_key: pk_of(&alice),
            name: b"Alice".to_vec(),
            signature: zero_sig(),
        },
        &alice,
    );
    let create_b = sign_tx(
        Transaction::CreateWallet {
            pub_key: pk_of(&bob),
            name: b"Bob".to_vec(),
            signature: zero_sig(),
        },
        &bob,
    );
    let issue_a = sign_tx(
        Transaction::Issue { pub_key: pk_of(&alice), amount: 100, seed: 1, signature: zero_sig() },
        &alice,
    );
    let pay = sign_tx(
        Transaction::Transfer {
            tx_hash: digest(0x11),
            from: pk_of(&alice),
            to: pk_of(&bob),
            amount: 40,
            seed: 2,
            signature: zero_sig(),
        },
        &alice,
    );
    let replay = sign_tx(
        Transaction::Transfer {
            tx_hash: digest(0x11),
            from: pk_of(&alice),
            to: pk_of(&bob),
            amount: 40,
            seed: 3,
            signature: zero_sig(),
        },
        &alice,
    );
    let too_much = sign_tx(
        Transaction::Transfer {
            tx_hash: digest(0x12),
            from: pk_of(&alice),
            to: pk_of(&bob),
            amount: 1000,
            seed: 4,
            signature: zero_sig(),
        },
        &alice,
    );
    let unsigned = Transaction::Issue {
        pub_key: pk_of(&alice),
        amount: 5,
        seed: 5,
        signature: zero_sig(),
    };
    vec![create_a, create_b, issue_a, pay, replay, too_much, unsigned]
}

fn final_state(txs: &Vec<Transaction>) -> (Vec<Result<(), TxError>>, u64, u64, Vec<u8>) {
    let mut f: Fork = Store::new().open_fork();
    let outcomes = run_block(&mut f, txs);
    let a = get_wallet(&f, &pk_of(&signer(1))).unwrap().balance;
    let b = get_wallet(&f, &pk_of(&signer(2))).unwrap().balance;
    let store = f.commit();
    let root = store_root_exec(&store);
    (outcomes, a, b, root)
}

#[test]
fn verify_accepts_valid_signature_and_rejects_tampering() {
    let alice = signer(1);
    let tx = sign_tx(
        Transaction::Issue { pub_key: pk_of(&alice), amount: 7, seed: 1, signature: zero_sig() },
        &alice,
    );
    assert!(tx.verify());
    let tampered = match tx {
        Transaction::Issue { pub_key, seed, signature, .. } => Transaction::Issue {
            pub_key,
            amount: 8,
            seed,
            signature,
        },
        _ => unreachable!(),
    };
    assert!(!tampered.verify());
    let unsigned = Transaction::Issue {
        pub_key: pk_of(&alice),
        amount: 7,
        seed: 1,
        signature: zero_sig(),
    };
    assert!(!unsigned.verify());
}

#[test]
fn verify_rejects_self_transfer() {
    let alice = signer(1);
    let tx = sign_tx(
        Transaction::Transfer {
            tx_hash: digest(0x11),
            from: pk_of(&alice),
            to: pk_of(&alice),
            amount: 1,
            seed: 1,
            signature: zero_sig(),
        },
        &alice,
    );
    assert!(!tx.verify());
}

#[test]
fn block_outcomes_are_recorded_in_order() {
    let txs = block();
    let (outcomes, a, b, _root) = final_state(&txs);
    assert_eq!(outcomes.len(), 7);
    assert_eq!(outcomes[0], Ok(()));
    assert_eq!(outcomes[1], Ok(()));
    assert_eq!(outcomes[2], Ok(()));
    assert_eq!(outcomes[3], Ok(()));
    assert_eq!(outcomes[4], Err(TxError::Execution(ExecError::UsedHash)));
    assert_eq!(
        outcomes[5],
        Err(TxError::Execution(ExecError::InsufficientCurrencyAmount))
    );
    assert_eq!(outcomes[6], Err(TxError::Validation));
    assert_eq!(a, 60);
    assert_eq!(b, 40);
}

#[test]
fn independent_replays_agree_on_balances_and_root() {
    let txs = block();
    let (o1, a1, b1, r1) = final_state(&txs);
    let (o2, a2, b2, r2) = final_state(&txs);
    assert_eq!(o1, o2);
    assert_eq!((a1, b1), (a2, b2));
    assert_eq!(r1, r2);
}

#[test]
fn failed_transactions_leave_no_trace_in_the_block() {
    let all = block();
    let only_good: Vec<Transaction> = block().into_iter().take(4).collect();
    let (_, a1, b1, r1) = final_state(&all);
    let (_, a2, b2, r2) = final_state(&only_good);
    assert_eq!((a1, b1), (a2, b2));
    assert_eq!(r1, r2);
}

#[test]
fn verify_accepts_any_name_length() {
    let alice = signer(1);
    let tx = sign_tx(
        Transaction::CreateWallet {
            pub_key: pk_of(&alice),
            name: vec![0x61u8; 70_000],
            signature: zero_sig(),
        },
        &alice,
    );
    assert!(tx.verify());
}
