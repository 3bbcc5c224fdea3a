use ledger_core::fork::Store;
use ledger_core::table::{MapTable, SeqTable};

#[test]
fn map_table_namespaces_are_disjoint() {
    let mut f = Store::new().open_fork();
    let t1 = MapTable { ns: 10 };
    let t2 = MapTable { ns: 11 };
    t1.put(&mut f, &b"k".to_vec(), b"one".to_vec());
    t2.put(&mut f, &b"k".to_vec(), b"two".to_vec());
    assert_eq!(t1.get(&f, &b"k".to_vec()), Some(b"one".to_vec()));
    assert_eq!(t2.get(&f, &b"k".to_vec()), Some(b"two".to_vec()));
    t1.delete(&mut f, &b"k".to_vec());
    assert!(t1.get(&f, &b"k".to_vec()).is_none());
    assert_eq!(t2.get(&f, &b"k".to_vec()), Some(b"two".to_vec()));
}

#[test]
fn seq_table_push_get_len() {
    let mut f = Store::new().open_fork();
    let t = SeqTable { ns: 12 };
    assert_eq!(t.len(&f), 0);
    t.push(&mut f, b"a".to_vec());
    t.push(&mut f, b"b".to_vec());
    assert_eq!(t.len(&f), 2);
    assert_eq!(t.get(&f, 0), Some(b"a".to_vec()));
    assert_eq!(t.get(&f, 1), Some(b"b".to_vec()));
    assert!(t.get(&f, 2).is_none());
}

#[test]
fn seq_table_root_depends_on_order() {
    let mut f1 = Store::new().open_fork();
    let t = SeqTable { ns: 12 };
    t.push(&mut f1, b"a".to_vec());
    t.push(&mut f1, b"b".to_vec());
    let r1 = t.root(&f1);

    let mut f2 = Store::new().open_fork();
    t.push(&mut f2, b"b".to_vec());
    t.push(&mut f2, b"a".to_vec());
    let r2 = t.root(&f2);
    assert_ne!(r1, r2);

    let mut f3 = Store::new().open_fork();
    t.push(&mut f3, b"a".to_vec());
    t.push(&mut f3, b"b".to_vec());
    let r3 = t.root(&f3);
    assert_eq!(r1, r3);
    assert_eq!(r1.len(), 32);
}

#[test]
fn seq_table_last_is_newest() {
    let mut f = Store::new().open_fork();
    let t = SeqTable { ns: 12 };
    assert!(t.last(&f).is_none());
    t.push(&mut f, b"a".to_vec());
    t.push(&mut f, b"b".to_vec());
    assert_eq!(t.last(&f), Some(b"b".to_vec()));
}

#[test]
fn seq_table_set_replaces_in_place() {
    let mut f = Store::new().open_fork();
    let t = SeqTable { ns: 12 };
    t.push(&mut f, b"a".to_vec());
    t.push(&mut f, b"b".to_vec());
    t.set(&mut f, 0, b"z".to_vec());
    assert_eq!(t.len(&f), 2);
    assert_eq!(t.get(&f, 0), Some(b"z".to_vec()));
    assert_eq!(t.get(&f, 1), Some(b"b".to_vec()));
}
