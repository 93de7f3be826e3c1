use wdb_storage_engine::hashed_bytes::HashedBytes;
use wdb_storage_engine::table::{Table, TableError};

#[test]
fn read_point_never_decreases() {
    let mut t = Table::new(1, b"t".to_vec());
    let mut seen = vec![t.mvcc_get_read_point()];
    let a = t.mvcc_new_write();
    let b = t.mvcc_new_write();
    let c = t.mvcc_new_write();
    seen.push(t.mvcc_get_read_point());
    t.mvcc_complete(c);
    seen.push(t.mvcc_get_read_point());
    t.mvcc_complete(a);
    seen.push(t.mvcc_get_read_point());
    t.mvcc_complete(b);
    seen.push(t.mvcc_get_read_point());
    assert_eq!(seen, vec![0, 0, 0, 1, 3]);
}

#[test]
fn read_point_is_completed_prefix() {
    let mut t = Table::new(1, b"t".to_vec());
    let tickets: Vec<_> = (0..4).map(|_| t.mvcc_new_write()).collect();
    let nums: Vec<u64> = tickets.iter().map(|w| w.get_write_num()).collect();
    assert_eq!(nums, vec![1, 2, 3, 4]);
    let mut it = tickets.into_iter();
    let w1 = it.next().unwrap();
    let w2 = it.next().unwrap();
    let w3 = it.next().unwrap();
    let w4 = it.next().unwrap();
    t.mvcc_complete(w1);
    t.mvcc_complete(w2);
    t.mvcc_complete(w4);
    assert_eq!(t.mvcc_get_read_point(), 2);
    t.mvcc_complete(w3);
    assert_eq!(t.mvcc_get_read_point(), 4);
}

#[test]
fn completing_twice_changes_nothing() {
    let mut t = Table::new(1, b"t".to_vec());
    let w1 = t.mvcc_new_write();
    let again = wdb_storage_engine::table::MVCCWriteEntry { write_num: w1.get_write_num(), completed: false };
    t.mvcc_complete(w1);
    assert_eq!(t.mvcc_get_read_point(), 1);
    t.mvcc_complete(again);
    assert_eq!(t.mvcc_get_read_point(), 1);
    assert!(t.mvcc_write_queue.is_empty());
}

#[test]
fn reopened_table_starts_at_its_write_number() {
    let mut t = Table::new_from_families_vec(2, b"t".to_vec(), 41, vec![(b"F1".to_vec(), vec![]), (b"F1".to_vec(), vec![])]);
    assert_eq!(t.mvcc_get_read_point(), 41);
    assert_eq!(t.families.len(), 1);
    assert_eq!(t.mvcc_new_write().get_write_num(), 42);
}

#[test]
fn family_creation_refuses_duplicates() {
    let mut t = Table::new(1, b"t".to_vec());
    assert_eq!(t.create_family(b"F1".to_vec()), Ok(()));
    assert_eq!(t.create_family(b"F1".to_vec()), Err(TableError::FamilyAlreadyExists));
    assert!(t.get_family(&b"F1".to_vec()).is_some());
    assert!(t.get_family(&b"F2".to_vec()).is_none());
    assert_eq!(t.get_name(), &b"t".to_vec());
}

#[test]
fn fnv_hash_values() {
    assert_eq!(*HashedBytes::from_bytes(vec![]).hash_as_ref(), 0xcbf29ce484222325);
    assert_eq!(*HashedBytes::from_bytes(b"a".to_vec()).hash_as_ref(), 0xaf63dc4c8601ec8c);
}

#[test]
fn one_write_lease_per_row() {
    let mut t = Table::new(1, b"t".to_vec());
    let row = HashedBytes::from_bytes(b"A".to_vec());
    let other = HashedBytes::from_bytes(b"B".to_vec());
    assert!(t.row_locks.try_lock_write(&row));
    assert!(!t.row_locks.try_lock_write(&row));
    assert!(t.row_locks.try_lock_write(&other));
    t.row_locks.unlock_write(&row);
    assert!(t.row_locks.try_lock_write(&row));
    let i = t.get_row_lock(&row);
    let j = t.get_row_lock(&row);
    assert_eq!(i, j);
    assert_eq!(t.row_locks.leases.len(), 2);
}
