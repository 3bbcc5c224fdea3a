use ledger_core::fork::{Fork, Store};
use ledger_core::schema::get_wallet;
use ledger_core::tx::{execute, ExecError, Transaction};

fn key(b: u8) -> Vec<u8> {
    vec![b; 32]
}

fn digest(b: u8) -> Vec<u8> {
    vec![b; 32]
}

fn zero_sig() -> Vec<u8> {
    vec![0u8; 64]
}

fn create(pk: u8, name: &str) -> Transaction {
    Transaction::CreateWallet {
        pub_key: key(pk),
        name: name.as_bytes().to_vec(),
        signature: zero_sig(),
    }
}

fn issue(pk: u8, amount: u64, seed: u64) -> Transaction {
    Transaction::Issue { pub_key: key(pk), amount, seed, signature: zero_sig() }
}

fn transfer(h: u8, from: u8, to: u8, amount: u64, seed: u64) -> Transaction {
    Transaction::Transfer {
        tx_hash: digest(h),
        from: key(from),
        to: key(to),
        amount,
        seed,
        signature: zero_sig(),
    }
}

fn balance_of(f: &Fork, pk: u8) -> u64 {
    get_wallet(f, &key(pk)).expect("wallet must exist").balance
}

#[test]
fn create_wallet_then_reject_duplicate() {
    let mut f = Store::new().open_fork();
    assert_eq!(execute(&create(0xA1, "Alice"), &mut f), Ok(()));
    let r = execute(&create(0xA1, "Alice2"), &mut f);
    assert_eq!(r, Err(ExecError::WalletAlreadyExists));
    let w = get_wallet(&f, &key(0xA1)).unwrap();
    assert_eq!(w.name, b"Alice".to_vec());
    assert_eq!(w.balance, 0);
    assert!(w.used.is_empty());
}

#[test]
fn issue_adds_to_balance() {
    let mut f = Store::new().open_fork();
    assert_eq!(execute(&create(0xA1, "Alice"), &mut f), Ok(()));
    assert_eq!(execute(&issue(0xA1, 100, 1), &mut f), Ok(()));
    assert_eq!(balance_of(&f, 0xA1), 100);
}

#[test]
fn issue_to_missing_wallet_fails() {
    let mut f = Store::new().open_fork();
    let r = execute(&issue(0xB2, 100, 1), &mut f);
    assert_eq!(r, Err(ExecError::ReceiverNotFound));
}

#[test]
fn transfer_moves_amount_and_marks_hash() {
    let mut f = Store::new().open_fork();
    assert_eq!(execute(&create(0xA1, "Alice"), &mut f), Ok(()));
    assert_eq!(execute(&create(0xB2, "Bob"), &mut f), Ok(()));
    assert_eq!(execute(&issue(0xA1, 100, 1), &mut f), Ok(()));
    assert_eq!(execute(&transfer(0x11, 0xA1, 0xB2, 40, 2), &mut f), Ok(()));
    assert_eq!(balance_of(&f, 0xA1), 60);
    assert_eq!(balance_of(&f, 0xB2), 40);
    let a = get_wallet(&f, &key(0xA1)).unwrap();
    assert!(a.used.contains(&digest(0x11)));
    let b = get_wallet(&f, &key(0xB2)).unwrap();
    assert!(b.used.is_empty());
}

#[test]
fn replayed_transfer_fails_and_changes_nothing() {
    let mut f = Store::new().open_fork();
    assert_eq!(execute(&create(0xA1, "Alice"), &mut f), Ok(()));
    assert_eq!(execute(&create(0xB2, "Bob"), &mut f), Ok(()));
    assert_eq!(execute(&issue(0xA1, 100, 1), &mut f), Ok(()));
    assert_eq!(execute(&transfer(0x11, 0xA1, 0xB2, 40, 2), &mut f), Ok(()));
    let r = execute(&transfer(0x11, 0xA1, 0xB2, 40, 3), &mut f);
    assert_eq!(r, Err(ExecError::UsedHash));
    assert_eq!(balance_of(&f, 0xA1), 60);
    assert_eq!(balance_of(&f, 0xB2), 40);
}

#[test]
fn insufficient_balance_fails_and_changes_nothing() {
    let mut f = Store::new().open_fork();
    assert_eq!(execute(&create(0xA1, "Alice"), &mut f), Ok(()));
    assert_eq!(execute(&create(0xB2, "Bob"), &mut f), Ok(()));
    assert_eq!(execute(&issue(0xA1, 60, 1), &mut f), Ok(()));
    let r = execute(&transfer(0x12, 0xA1, 0xB2, 1000, 2), &mut f);
    assert_eq!(r, Err(ExecError::InsufficientCurrencyAmount));
    assert_eq!(balance_of(&f, 0xA1), 60);
    assert_eq!(balance_of(&f, 0xB2), 0);
}

#[test]
fn transfer_without_sender_or_receiver_fails() {
    let mut f = Store::new().open_fork();
    let r = execute(&transfer(0x11, 0xA1, 0xB2, 1, 1), &mut f);
    assert_eq!(r, Err(ExecError::SenderNotFound));
    assert_eq!(execute(&create(0xA1, "Alice"), &mut f), Ok(()));
    assert_eq!(execute(&issue(0xA1, 10, 1), &mut f), Ok(()));
    let r = execute(&transfer(0x11, 0xA1, 0xB2, 1, 2), &mut f);
    assert_eq!(r, Err(ExecError::ReceiverNotFound));
    assert_eq!(balance_of(&f, 0xA1), 10);
}

#[test]
fn issue_overflow_is_rejected() {
    let mut f = Store::new().open_fork();
    assert_eq!(execute(&create(0xA1, "Alice"), &mut f), Ok(()));
    assert_eq!(execute(&issue(0xA1, u64::MAX, 1), &mut f), Ok(()));
    let r = execute(&issue(0xA1, 1, 2), &mut f);
    assert_eq!(r, Err(ExecError::Overflow));
    assert_eq!(balance_of(&f, 0xA1), u64::MAX);
}

#[test]
fn multi_transfer_marks_each_senders_own_guard() {
    let mut f = Store::new().open_fork();
    for (pk, name) in [(0xA1, "a"), (0xB2, "b"), (0xC3, "c"), (0xD4, "d")] {
        assert_eq!(execute(&create(pk, name), &mut f), Ok(()));
    }
    assert_eq!(execute(&issue(0xA1, 50, 1), &mut f), Ok(()));
    assert_eq!(execute(&issue(0xC3, 70, 2), &mut f), Ok(()));
    let tx = Transaction::MultiTransfer {
        tx_hash1: digest(0x21),
        tx_hash2: digest(0x22),
        from1: key(0xA1),
        from2: key(0xC3),
        to1: key(0xB2),
        to2: key(0xD4),
        amount1: 20,
        amount2: 30,
        seed: 3,
        signature: zero_sig(),
    };
    assert_eq!(execute(&tx, &mut f), Ok(()));
    assert_eq!(balance_of(&f, 0xA1), 30);
    assert_eq!(balance_of(&f, 0xB2), 20);
    assert_eq!(balance_of(&f, 0xC3), 40);
    assert_eq!(balance_of(&f, 0xD4), 30);
    let a = get_wallet(&f, &key(0xA1)).unwrap();
    assert_eq!(a.used, vec![digest(0x21)]);
    let c = get_wallet(&f, &key(0xC3)).unwrap();
    assert_eq!(c.used, vec![digest(0x22)]);
}

#[test]
fn multi_transfer_failing_leg_aborts_both() {
    let mut f = Store::new().open_fork();
    for (pk, name) in [(0xA1, "a"), (0xB2, "b"), (0xC3, "c"), (0xD4, "d")] {
        assert_eq!(execute(&create(pk, name), &mut f), Ok(()));
    }
    assert_eq!(execute(&issue(0xA1, 50, 1), &mut f), Ok(()));
    let tx = Transaction::MultiTransfer {
        tx_hash1: digest(0x21),
        tx_hash2: digest(0x22),
        from1: key(0xA1),
        from2: key(0xC3),
        to1: key(0xB2),
        to2: key(0xD4),
        amount1: 20,
        amount2: 30,
        seed: 3,
        signature: zero_sig(),
    };
    let r = execute(&tx, &mut f);
    assert_eq!(r, Err(ExecError::InsufficientCurrencyAmount));
    assert_eq!(balance_of(&f, 0xA1), 50);
    assert_eq!(balance_of(&f, 0xB2), 0);
    assert_eq!(balance_of(&f, 0xC3), 0);
    let a = get_wallet(&f, &key(0xA1)).unwrap();
    assert!(a.used.is_empty());
}

#[test]
fn total_supply_conserved_by_transfer_raised_by_issue() {
    let mut f = Store::new().open_fork();
    assert_eq!(execute(&create(0xA1, "Alice"), &mut f), Ok(()));
    assert_eq!(execute(&create(0xB2, "Bob"), &mut f), Ok(()));
    let supply = |f: &Fork| balance_of(f, 0xA1) + balance_of(f, 0xB2);
    assert_eq!(supply(&f), 0);
    assert_eq!(execute(&issue(0xA1, 100, 1), &mut f), Ok(()));
    assert_eq!(supply(&f), 100);
    assert_eq!(execute(&transfer(0x11, 0xA1, 0xB2, 40, 2), &mut f), Ok(()));
    assert_eq!(supply(&f), 100);
}

#[test]
fn long_names_are_accepted() {
    let mut f = Store::new().open_fork();
    let name = vec![0x61u8; 70_000];
    let tx = Transaction::CreateWallet {
        pub_key: key(0xA1),
        name: name.clone(),
        signature: zero_sig(),
    };
    assert_eq!(execute(&tx, &mut f), Ok(()));
    let w = get_wallet(&f, &key(0xA1)).unwrap();
    assert_eq!(w.name, name);
}
