use term_index::error::DictError;
use term_index::latch::Latch;
use term_index::index::InvertedIndex;
use term_index::store::EntryStore;

#[test]
fn store_insert_get_scan() {
    let mut store = EntryStore::new();
    assert_eq!(store.len(), 0);
    let a = store.insert("alpha".to_string(), "first".to_string()).unwrap();
    let b = store.insert("beta".to_string(), "second".to_string()).unwrap();
    assert_eq!((a, b), (0, 1));
    assert_eq!(store.len(), 2);
    let e = store.get(a).unwrap();
    assert_eq!(e.id, 0);
    assert_eq!(e.term, "alpha");
    assert_eq!(e.definition, "first");
    assert!(store.get(2).is_none());
    let all = store.scan();
    assert_eq!(all.len(), 2);
    assert_eq!(all[1].term, "beta");
}

#[test]
fn store_rejects_empty_term() {
    let mut store = EntryStore::new();
    assert_eq!(
        store.insert(String::new(), "def".to_string()).unwrap_err(),
        DictError::InvalidInput
    );
    assert_eq!(store.len(), 0);
}

#[test]
fn index_add_lookup_in_order() {
    let mut index = InvertedIndex::new();
    let term = "bank".to_string();
    index.add(&term, 0);
    index.add(&term, 4);
    index.add(&term, 2);
    assert_eq!(index.lookup(&term), vec![0, 4, 2]);
    assert_eq!(index.lookup(&"absent".to_string()), Vec::<usize>::new());
}

#[test]
fn index_add_is_idempotent() {
    let mut index = InvertedIndex::new();
    let term = "bank".to_string();
    index.add(&term, 7);
    index.add(&term, 7);
    index.add(&term, 9);
    index.add(&term, 7);
    assert_eq!(index.lookup(&term), vec![7, 9]);
}

#[test]
fn index_remove_keeps_order_of_rest() {
    let mut index = InvertedIndex::new();
    let term = "bank".to_string();
    let other = "river".to_string();
    index.add(&term, 1);
    index.add(&term, 2);
    index.add(&term, 3);
    index.add(&other, 2);
    index.remove(&term, 2);
    assert_eq!(index.lookup(&term), vec![1, 3]);
    assert_eq!(index.lookup(&other), vec![2]);
    index.remove(&term, 99);
    assert_eq!(index.lookup(&term), vec![1, 3]);
    index.remove(&"absent".to_string(), 1);
    assert_eq!(index.lookup(&term), vec![1, 3]);
}

#[test]
fn latch_admits_concurrent_readers() {
    let mut latch = Latch::new();
    assert!(latch.try_acquire_read());
    assert!(latch.try_acquire_read());
    assert!(latch.try_acquire_read());
    latch.release_read();
    latch.release_read();
    latch.release_read();
    assert!(latch.try_acquire_write());
}

#[test]
fn latch_excludes_writer_while_reading() {
    let mut latch = Latch::new();
    assert!(latch.try_acquire_read());
    assert!(!latch.try_acquire_write());
    assert_eq!(
        latch.acquire_write_or_timeout().unwrap_err(),
        DictError::LockTimeout
    );
    latch.release_read();
    assert_eq!(latch.acquire_write_or_timeout(), Ok(()));
}

#[test]
fn latch_excludes_everyone_while_writing() {
    let mut latch = Latch::new();
    assert!(latch.try_acquire_write());
    assert!(!latch.try_acquire_read());
    assert!(!latch.try_acquire_write());
    latch.release_write();
    assert!(latch.try_acquire_read());
}

#[test]
fn error_descriptions_are_distinct() {
    let kinds = [
        DictError::InvalidInput,
        DictError::QueryRejected,
        DictError::LockTimeout,
        DictError::StoreInitFailed,
    ];
    for (i, a) in kinds.iter().enumerate() {
        for (j, b) in kinds.iter().enumerate() {
            if i == j {
                assert_eq!(a.describe(), b.describe());
            } else {
                assert_ne!(a.describe(), b.describe());
            }
        }
    }
    assert_eq!(
        DictError::QueryRejected.describe(),
        "query rejected: empty query"
    );
}
