use ledger_core::bytes_eq;
use ledger_core::fork::Store;
use ledger_core::hash::{lex_le_exec, store_root_exec};
use ledger_core::tx::{ExecError, Transaction};
use ledger_core::wallet::{decode, encode, Wallet};

fn digest(b: u8) -> Vec<u8> {
    vec![b; 32]
}

#[test]
fn error_codes_are_stable() {
    assert_eq!(ExecError::WalletAlreadyExists.code(), 0);
    assert_eq!(ExecError::SenderNotFound.code(), 1);
    assert_eq!(ExecError::ReceiverNotFound.code(), 2);
    assert_eq!(ExecError::InsufficientCurrencyAmount.code(), 3);
    assert_eq!(ExecError::UsedHash.code(), 4);
    assert_eq!(ExecError::Overflow.code(), 5);
    assert_eq!(ExecError::WalletAlreadyExists.description(), "Wallet already exists");
    assert_eq!(ExecError::UsedHash.description(), "Used hash");
}

#[test]
fn wallet_codec_round_trips() {
    let w = Wallet {
        pub_key: digest(0xA1),
        balance: 123456789,
        name: b"Alice".to_vec(),
        used: vec![digest(0x11), digest(0x12)],
    };
    let bytes = encode(&w);
    let back = decode(&bytes).expect("round trip");
    assert_eq!(back.pub_key, w.pub_key);
    assert_eq!(back.balance, w.balance);
    assert_eq!(back.name, w.name);
    assert_eq!(back.used, w.used);
}

#[test]
fn wallet_codec_rejects_wrong_shapes() {
    assert!(decode(&vec![0u8; 10]).is_none());
    let w = Wallet { pub_key: digest(0xA1), balance: 5, name: b"x".to_vec(), used: vec![] };
    let mut bytes = encode(&w);
    bytes.push(0);
    assert!(decode(&bytes).is_none());
}

#[test]
fn transaction_hash_depends_on_content() {
    let t1 = Transaction::Issue {
        pub_key: digest(0xA1),
        amount: 5,
        seed: 1,
        signature: vec![0u8; 64],
    };
    let t2 = Transaction::Issue {
        pub_key: digest(0xA1),
        amount: 5,
        seed: 2,
        signature: vec![0u8; 64],
    };
    let h1 = t1.hash();
    let h2 = t2.hash();
    assert_eq!(h1.len(), 32);
    assert_ne!(h1, h2);
    assert_eq!(h1, t1.hash());
}

#[test]
fn fork_overlay_reads_pending_writes_first() {
    let mut f = Store::new().open_fork();
    assert!(f.get(&b"k".to_vec()).is_none());
    f.put(b"k".to_vec(), b"v1".to_vec());
    assert_eq!(f.get(&b"k".to_vec()), Some(b"v1".to_vec()));
    f.put(b"k".to_vec(), b"v2".to_vec());
    assert_eq!(f.get(&b"k".to_vec()), Some(b"v2".to_vec()));
    f.delete(b"k".to_vec());
    assert!(f.get(&b"k".to_vec()).is_none());
    let store = f.commit();
    assert!(store.get(&b"k".to_vec()).is_none());
}

#[test]
fn checkpoint_rollback_restores_prior_state() {
    let mut f = Store::new().open_fork();
    f.put(b"a".to_vec(), b"1".to_vec());
    let cp = f.checkpoint();
    f.put(b"a".to_vec(), b"2".to_vec());
    f.put(b"b".to_vec(), b"3".to_vec());
    assert_eq!(f.get(&b"a".to_vec()), Some(b"2".to_vec()));
    f.rollback_to(cp);
    assert_eq!(f.get(&b"a".to_vec()), Some(b"1".to_vec()));
    assert!(f.get(&b"b".to_vec()).is_none());
}

#[test]
fn commit_folds_overlay_into_snapshot() {
    let mut f = Store::new().open_fork();
    f.put(b"a".to_vec(), b"1".to_vec());
    f.put(b"b".to_vec(), b"2".to_vec());
    let store = f.commit();
    assert_eq!(store.get(&b"a".to_vec()), Some(b"1".to_vec()));
    assert_eq!(store.get(&b"b".to_vec()), Some(b"2".to_vec()));
    let mut f2 = store.open_fork();
    f2.put(b"a".to_vec(), b"9".to_vec());
    let store2 = f2.commit();
    assert_eq!(store2.get(&b"a".to_vec()), Some(b"9".to_vec()));
    assert_eq!(store2.get(&b"b".to_vec()), Some(b"2".to_vec()));
}

#[test]
fn discard_drops_every_pending_write() {
    let mut f = Store::new().open_fork();
    f.put(b"a".to_vec(), b"1".to_vec());
    let store = f.discard();
    assert!(store.get(&b"a".to_vec()).is_none());
}

#[test]
fn store_root_is_content_not_write_order() {
    let mut f1 = Store::new().open_fork();
    f1.put(b"a".to_vec(), b"1".to_vec());
    f1.put(b"b".to_vec(), b"2".to_vec());
    let r1 = store_root_exec(&f1.commit());

    let mut f2 = Store::new().open_fork();
    f2.put(b"b".to_vec(), b"2".to_vec());
    f2.put(b"a".to_vec(), b"1".to_vec());
    let r2 = store_root_exec(&f2.commit());
    assert_eq!(r1, r2);

    let mut f3 = Store::new().open_fork();
    f3.put(b"a".to_vec(), b"1".to_vec());
    f3.put(b"b".to_vec(), b"3".to_vec());
    let r3 = store_root_exec(&f3.commit());
    assert_ne!(r1, r3);
    assert_eq!(r1.len(), 32);
}

#[test]
fn bytes_eq_compares_contents() {
    assert!(bytes_eq(&b"abc".to_vec(), &b"abc".to_vec()));
    assert!(!bytes_eq(&b"abc".to_vec(), &b"abd".to_vec()));
    assert!(!bytes_eq(&b"abc".to_vec(), &b"ab".to_vec()));
}

#[test]
fn empty_store_has_a_root_and_empty_block_changes_nothing() {
    let r0 = store_root_exec(&Store::new());
    assert_eq!(r0.len(), 32);
    let mut f = ledger_core::fork::Store::new().open_fork();
    let outcomes = ledger_core::engine::run_block(&mut f, &Vec::new());
    assert!(outcomes.is_empty());
    let r1 = store_root_exec(&f.commit());
    assert_eq!(r0, r1);
}

#[test]
fn empty_name_wallet_round_trips() {
    let w = Wallet { pub_key: digest(0xA1), balance: 0, name: vec![], used: vec![] };
    let back = decode(&encode(&w)).expect("round trip");
    assert_eq!(back.name, Vec::<u8>::new());
    assert_eq!(back.used, Vec::<Vec<u8>>::new());
}

#[test]
fn store_root_ignores_write_order_across_three_keys() {
    let orders: [[u8; 3]; 3] = [[1, 2, 3], [3, 1, 2], [2, 3, 1]];
    let mut roots = Vec::new();
    for order in orders {
        let mut f = Store::new().open_fork();
        for k in order {
            f.put(vec![k], vec![k, k]);
        }
        roots.push(store_root_exec(&f.commit()));
    }
    assert_eq!(roots[0], roots[1]);
    assert_eq!(roots[0], roots[2]);
}

#[test]
fn lexicographic_order_handles_prefixes() {
    assert!(lex_le_exec(&b"a".to_vec(), &b"ab".to_vec()));
    assert!(!lex_le_exec(&b"ab".to_vec(), &b"a".to_vec()));
    assert!(lex_le_exec(&b"ab".to_vec(), &b"b".to_vec()));
    assert!(lex_le_exec(&b"".to_vec(), &b"a".to_vec()));
    assert!(lex_le_exec(&b"x".to_vec(), &b"x".to_vec()));
}
