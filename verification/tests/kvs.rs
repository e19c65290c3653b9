use txkv::backend::BackendKind;
use txkv::ds::{is_uuid_text, Config, Datastore};
use txkv::err::Error;

const NODE: &str = "b7afc077-2123-476f-bee0-43d7504f1e0a";

fn open(kind: BackendKind) -> Datastore {
    let config = Config { node_id: NODE.to_string() };
    Datastore::open(kind, String::new(), config).unwrap()
}

#[test]
fn multireader() {
    // Create a new datastore
    let node_id = NODE.to_string();
    assert!(is_uuid_text(&node_id));
    let mut ds = Datastore::open(BackendKind::Memory, String::new(), Config { node_id }).unwrap();
    assert_eq!(ds.node(), NODE);
    // Insert an initial key
    let mut tx = ds.transaction(true, false).unwrap();
    tx.set(b"test".to_vec(), b"some text".to_vec()).unwrap();
    tx.commit(&mut ds).unwrap();
    // Create a readonly transaction
    let mut tx1 = ds.transaction(false, false).unwrap();
    let val = tx1.get(&b"test".to_vec()).unwrap().unwrap();
    assert_eq!(val, b"some text");
    // Create a readonly transaction
    let mut tx2 = ds.transaction(false, false).unwrap();
    let val = tx2.get(&b"test".to_vec()).unwrap().unwrap();
    assert_eq!(val, b"some text");
    // Create a readonly transaction
    let mut tx3 = ds.transaction(false, false).unwrap();
    let val = tx3.get(&b"test".to_vec()).unwrap().unwrap();
    assert_eq!(val, b"some text");
    // Cancel all readonly transactions
    tx1.cancel().unwrap();
    tx2.cancel().unwrap();
    tx3.cancel().unwrap();
}

#[test]
fn multireader_journal() {
    let mut ds = open(BackendKind::Journal);
    let mut tx = ds.transaction(true, false).unwrap();
    tx.set(b"test".to_vec(), b"some text".to_vec()).unwrap();
    tx.commit(&mut ds).unwrap();
    let mut tx1 = ds.transaction(false, false).unwrap();
    let mut tx2 = ds.transaction(false, false).unwrap();
    assert_eq!(tx1.get(&b"test".to_vec()).unwrap().unwrap(), b"some text");
    assert_eq!(tx2.get(&b"test".to_vec()).unwrap().unwrap(), b"some text");
    tx1.cancel().unwrap();
    tx2.cancel().unwrap();
}

#[test]
fn read_your_writes() {
    let mut ds = open(BackendKind::Memory);
    let mut w = ds.transaction(true, false).unwrap();
    w.set(b"k".to_vec(), b"v1".to_vec()).unwrap();
    // the writer sees its own uncommitted write
    assert_eq!(w.get(&b"k".to_vec()).unwrap().unwrap(), b"v1");
    assert!(w.exi(&b"k".to_vec()).unwrap());
    // no other transaction can see it yet
    let mut r = ds.transaction(false, false).unwrap();
    assert_eq!(r.get(&b"k".to_vec()).unwrap(), None);
    assert!(!r.exi(&b"k".to_vec()).unwrap());
    r.cancel().unwrap();
    // a staged delete also reads back as gone
    w.delete(b"k".to_vec()).unwrap();
    assert_eq!(w.get(&b"k".to_vec()).unwrap(), None);
    w.cancel().unwrap();
}

#[test]
fn atomic_visibility() {
    let mut ds = open(BackendKind::Memory);
    let mut w = ds.transaction(true, false).unwrap();
    w.set(b"a".to_vec(), b"1".to_vec()).unwrap();
    w.set(b"b".to_vec(), b"2".to_vec()).unwrap();
    // a reader opened before the commit sees none of the batch
    let mut before = ds.transaction(false, false).unwrap();
    w.commit(&mut ds).unwrap();
    assert_eq!(before.get(&b"a".to_vec()).unwrap(), None);
    assert_eq!(before.get(&b"b".to_vec()).unwrap(), None);
    before.cancel().unwrap();
    // a reader opened after the commit sees the whole batch
    let mut after = ds.transaction(false, false).unwrap();
    assert_eq!(after.get(&b"a".to_vec()).unwrap().unwrap(), b"1");
    assert_eq!(after.get(&b"b".to_vec()).unwrap().unwrap(), b"2");
    after.cancel().unwrap();
}

#[test]
fn conflict_on_write_write() {
    let mut ds = open(BackendKind::Memory);
    let mut seed = ds.transaction(true, false).unwrap();
    seed.set(b"k".to_vec(), b"v0".to_vec()).unwrap();
    seed.commit(&mut ds).unwrap();
    // A and B both read k, both stage a write of k
    let mut a = ds.transaction(true, false).unwrap();
    let mut b = ds.transaction(true, false).unwrap();
    assert_eq!(a.get(&b"k".to_vec()).unwrap().unwrap(), b"v0");
    assert_eq!(b.get(&b"k".to_vec()).unwrap().unwrap(), b"v0");
    a.set(b"k".to_vec(), b"from a".to_vec()).unwrap();
    b.set(b"k".to_vec(), b"from b".to_vec()).unwrap();
    // A commits first and wins
    a.commit(&mut ds).unwrap();
    // B must fail with a conflict, never silently overwrite A
    assert_eq!(b.commit(&mut ds), Err(Error::ConflictError));
    let mut r = ds.transaction(false, false).unwrap();
    assert_eq!(r.get(&b"k".to_vec()).unwrap().unwrap(), b"from a");
    r.cancel().unwrap();
}

#[test]
fn conflict_on_read_write() {
    let mut ds = open(BackendKind::Journal);
    let mut seed = ds.transaction(true, false).unwrap();
    seed.set(b"k".to_vec(), b"v0".to_vec()).unwrap();
    seed.commit(&mut ds).unwrap();
    let mut a = ds.transaction(true, false).unwrap();
    let mut b = ds.transaction(true, false).unwrap();
    assert_eq!(b.get(&b"k".to_vec()).unwrap().unwrap(), b"v0");
    b.set(b"other".to_vec(), b"x".to_vec()).unwrap();
    a.set(b"k".to_vec(), b"new".to_vec()).unwrap();
    a.commit(&mut ds).unwrap();
    // B read a key that A changed after B began, so B's commit conflicts
    assert_eq!(b.commit(&mut ds), Err(Error::ConflictError));
}

#[test]
fn no_conflict_on_disjoint_keys() {
    let mut ds = open(BackendKind::Memory);
    let mut a = ds.transaction(true, false).unwrap();
    let mut b = ds.transaction(true, false).unwrap();
    a.set(b"a".to_vec(), b"1".to_vec()).unwrap();
    b.set(b"b".to_vec(), b"2".to_vec()).unwrap();
    a.commit(&mut ds).unwrap();
    b.commit(&mut ds).unwrap();
    let mut r = ds.transaction(false, false).unwrap();
    assert_eq!(r.get(&b"a".to_vec()).unwrap().unwrap(), b"1");
    assert_eq!(r.get(&b"b".to_vec()).unwrap().unwrap(), b"2");
    r.cancel().unwrap();
}

#[test]
fn idempotent_termination() {
    let mut ds = open(BackendKind::Memory);
    // a second commit fails
    let mut t = ds.transaction(true, false).unwrap();
    t.set(b"k".to_vec(), b"v".to_vec()).unwrap();
    t.commit(&mut ds).unwrap();
    assert_eq!(t.commit(&mut ds), Err(Error::TransactionFinished));
    assert_eq!(t.cancel(), Err(Error::TransactionFinished));
    // no operation after termination succeeds
    assert_eq!(t.get(&b"k".to_vec()), Err(Error::TransactionFinished));
    assert_eq!(t.exi(&b"k".to_vec()), Err(Error::TransactionFinished));
    assert_eq!(t.set(b"k".to_vec(), b"v".to_vec()), Err(Error::TransactionFinished));
    assert_eq!(t.delete(b"k".to_vec()), Err(Error::TransactionFinished));
    assert_eq!(t.scan(&b"".to_vec(), &b"\xff".to_vec()), Err(Error::TransactionFinished));
    // a second cancel fails too
    let mut c = ds.transaction(false, false).unwrap();
    c.cancel().unwrap();
    assert_eq!(c.cancel(), Err(Error::TransactionFinished));
    assert_eq!(c.commit(&mut ds), Err(Error::TransactionFinished));
}

#[test]
fn noop_commit_always_succeeds() {
    let mut ds = open(BackendKind::Memory);
    let mut t = ds.transaction(true, false).unwrap();
    t.commit(&mut ds).unwrap();
    let mut r = ds.transaction(false, false).unwrap();
    r.commit(&mut ds).unwrap();
    // even a reader whose keys were overwritten after it began commits
    // fine: with nothing staged there is nothing to conflict with
    let mut seed = ds.transaction(true, false).unwrap();
    seed.set(b"k".to_vec(), b"v0".to_vec()).unwrap();
    seed.commit(&mut ds).unwrap();
    let mut r2 = ds.transaction(false, false).unwrap();
    assert_eq!(r2.get(&b"k".to_vec()).unwrap().unwrap(), b"v0");
    let mut w = ds.transaction(true, false).unwrap();
    w.set(b"k".to_vec(), b"v1".to_vec()).unwrap();
    w.commit(&mut ds).unwrap();
    r2.commit(&mut ds).unwrap();
}

#[test]
fn scan_orders_keys_ascending() {
    let mut ds = open(BackendKind::Memory);
    let mut w = ds.transaction(true, false).unwrap();
    w.set(b"b".to_vec(), b"2".to_vec()).unwrap();
    w.set(b"aa".to_vec(), b"3".to_vec()).unwrap();
    w.set(b"a".to_vec(), b"1".to_vec()).unwrap();
    w.set(b"c".to_vec(), b"4".to_vec()).unwrap();
    w.set(b"a".to_vec(), b"1bis".to_vec()).unwrap();  // overwrite, no duplicate
    w.delete(b"c".to_vec()).unwrap();  // tombstone is not scanned
    w.commit(&mut ds).unwrap();
    let mut r = ds.transaction(false, false).unwrap();
    let rs = r.scan(&b"a".to_vec(), &b"z".to_vec()).unwrap();
    let keys: Vec<&[u8]> = rs.iter().map(|p| p.0.as_slice()).collect();
    assert_eq!(keys, vec![b"a".as_slice(), b"aa".as_slice(), b"b".as_slice()]);
    assert_eq!(rs[0].1, b"1bis");
    assert_eq!(rs[1].1, b"3");
    assert_eq!(rs[2].1, b"2");
    r.cancel().unwrap();
}

#[test]
fn scan_range_is_half_open() {
    let mut ds = open(BackendKind::Journal);
    let mut w = ds.transaction(true, false).unwrap();
    w.set(b"a".to_vec(), b"1".to_vec()).unwrap();
    w.set(b"b".to_vec(), b"2".to_vec()).unwrap();
    w.set(b"c".to_vec(), b"3".to_vec()).unwrap();
    w.commit(&mut ds).unwrap();
    let mut r = ds.transaction(false, false).unwrap();
    // lower bound inclusive, upper bound exclusive
    let rs = r.scan(&b"a".to_vec(), &b"c".to_vec()).unwrap();
    assert_eq!(rs.len(), 2);
    assert_eq!(rs[0].0, b"a");
    assert_eq!(rs[1].0, b"b");
    // an empty range scans nothing
    let rs = r.scan(&b"b".to_vec(), &b"b".to_vec()).unwrap();
    assert!(rs.is_empty());
    r.cancel().unwrap();
}

#[test]
fn scan_sees_own_staged_writes() {
    let mut ds = open(BackendKind::Memory);
    let mut seed = ds.transaction(true, false).unwrap();
    seed.set(b"a".to_vec(), b"old".to_vec()).unwrap();
    seed.set(b"b".to_vec(), b"stays".to_vec()).unwrap();
    seed.commit(&mut ds).unwrap();
    let mut w = ds.transaction(true, false).unwrap();
    w.set(b"a".to_vec(), b"new".to_vec()).unwrap();
    w.delete(b"b".to_vec()).unwrap();
    w.set(b"c".to_vec(), b"added".to_vec()).unwrap();
    let rs = w.scan(&b"a".to_vec(), &b"z".to_vec()).unwrap();
    assert_eq!(rs.len(), 2);
    assert_eq!((rs[0].0.as_slice(), rs[0].1.as_slice()), (b"a".as_slice(), b"new".as_slice()));
    assert_eq!((rs[1].0.as_slice(), rs[1].1.as_slice()), (b"c".as_slice(), b"added".as_slice()));
    w.cancel().unwrap();
}

#[test]
fn readonly_rejects_writes() {
    let mut ds = open(BackendKind::Memory);
    let mut r = ds.transaction(false, false).unwrap();
    assert_eq!(r.set(b"k".to_vec(), b"v".to_vec()), Err(Error::ReadOnlyViolation));
    assert_eq!(r.delete(b"k".to_vec()), Err(Error::ReadOnlyViolation));
    // cancel is the expected way to release a read-only transaction
    r.cancel().unwrap();
}

#[test]
fn lock_support_is_per_backend() {
    let ds = open(BackendKind::Memory);
    // the memory driver accepts an exclusive write transaction
    let mut t = ds.transaction(true, true).unwrap();
    t.cancel().unwrap();
    // a read-only lock is not a supported combination
    assert!(matches!(ds.transaction(false, true), Err(Error::UnsupportedFeature)));
    // the journal driver has no locking capability at all
    let dsj = open(BackendKind::Journal);
    assert!(matches!(dsj.transaction(true, true), Err(Error::UnsupportedFeature)));
}

#[test]
fn open_rejects_bad_node_identity() {
    let config = Config { node_id: "not-a-uuid".to_string() };
    let r = Datastore::open(BackendKind::Memory, String::new(), config);
    assert!(matches!(r, Err(Error::ConnectionError)));
    // wrong length
    assert!(!is_uuid_text("b7afc077-2123-476f-bee0-43d7504f1e0"));
    // wrong separator position
    assert!(!is_uuid_text("b7afc0772-123-476f-bee0-43d7504f1e0a"));
    // non-hex character
    assert!(!is_uuid_text("z7afc077-2123-476f-bee0-43d7504f1e0a"));
    // upper-case hex digits are accepted
    assert!(is_uuid_text("B7AFC077-2123-476F-BEE0-43D7504F1E0A"));
}

#[test]
fn key_order_is_lexicographic_by_byte() {
    // a proper prefix comes first, then byte value decides
    assert!(txkv::key::key_lt(&b"a".to_vec(), &b"aa".to_vec()));
    assert!(txkv::key::key_lt(&b"a".to_vec(), &b"b".to_vec()));
    assert!(!txkv::key::key_lt(&b"b".to_vec(), &b"ab".to_vec()));
    assert!(!txkv::key::key_lt(&b"a".to_vec(), &b"a".to_vec()));
    assert!(txkv::key::key_lt(&b"".to_vec(), &b"\x00".to_vec()));
    assert!(txkv::key::key_le(&b"a".to_vec(), &b"a".to_vec()));
    assert!(txkv::key::key_eq(&b"ab".to_vec(), &b"ab".to_vec()));
    assert!(!txkv::key::key_eq(&b"ab".to_vec(), &b"abc".to_vec()));
}

#[test]
fn engine_error_messages_are_stable() {
    assert_eq!(
        Error::TransactionFinished.message(),
        "Couldn't execute query because the transaction has already been committed or cancelled"
    );
    assert_eq!(Error::ReadOnlyViolation.message(), "Couldn't write to a read only transaction");
}

#[test]
fn commits_are_ordered_by_version() {
    let mut ds = open(BackendKind::Journal);
    for i in 0..5u8 {
        let mut w = ds.transaction(true, false).unwrap();
        w.set(b"k".to_vec(), vec![i]).unwrap();
        w.commit(&mut ds).unwrap();
        // a transaction opened after a commit observes that commit
        let mut r = ds.transaction(false, false).unwrap();
        assert_eq!(r.get(&b"k".to_vec()).unwrap().unwrap(), vec![i]);
        r.cancel().unwrap();
    }
}
