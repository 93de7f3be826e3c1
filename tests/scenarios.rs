use std::collections::HashMap;

use wdb_storage_engine::cell::{CellType, KeyValue};
use wdb_storage_engine::sstable::{DataBlock, IndexEntry, SSTable};
use wdb_storage_engine::table::{Table, TableError};
use wdb_storage_engine::table_family::{PersistanceLayer, PersistenceError, ScanError};

struct Blocks {
    blocks: HashMap<(Vec<u8>, u64), Vec<KeyValue>>,
}

impl PersistanceLayer for Blocks {
    fn load_block(
        &self,
        _table: &Vec<u8>,
        _family: &Vec<u8>,
        segment: &Vec<u8>,
        block: DataBlock,
    ) -> Result<Vec<KeyValue>, PersistenceError> {
        match self.blocks.get(&(segment.clone(), block.offset)) {
            Some(cells) => Ok(cells.clone()),
            None => Err(PersistenceError { message: "no such block".to_string() }),
        }
    }
}

fn no_blocks() -> Blocks {
    Blocks { blocks: HashMap::new() }
}

fn kv(row: &str, family: &str, qualifier: &str, ts: u64, w: u64, t: CellType, value: &str) -> KeyValue {
    KeyValue::new(
        row.as_bytes().to_vec(),
        family.as_bytes().to_vec(),
        qualifier.as_bytes().to_vec(),
        ts,
        w,
        t,
        value.as_bytes().to_vec(),
    )
}

fn family_index(t: &Table, name: &str) -> usize {
    let id = t.get_family(&name.as_bytes().to_vec()).unwrap().id;
    t.families.iter().position(|f| f.id == id).unwrap()
}

fn put(t: &mut Table, family: &str, cell: KeyValue) {
    t.put(&family.as_bytes().to_vec(), cell).unwrap();
}

fn summary(cells: &[KeyValue]) -> Vec<(String, String, String, u64, CellType, String)> {
    cells
        .iter()
        .map(|c| {
            (
                String::from_utf8(c.row.clone()).unwrap(),
                String::from_utf8(c.family.clone()).unwrap(),
                String::from_utf8(c.qualifier.clone()).unwrap(),
                c.timestamp,
                c.cell_type,
                String::from_utf8(c.value.clone()).unwrap(),
            )
        })
        .collect()
}

fn scan_all(t: &Table) -> Vec<KeyValue> {
    t.scan(&no_blocks(), None, None).unwrap()
}

fn table_with(families: &[&str]) -> Table {
    let mut t = Table::new(1, b"t".to_vec());
    for f in families {
        t.create_family(f.as_bytes().to_vec()).unwrap();
    }
    t
}

#[test]
fn basic_visibility() {
    let mut t = table_with(&["F1"]);
    let w = t.mvcc_new_write();
    assert_eq!(w.get_write_num(), 1);
    put(&mut t, "F1", kv("A", "F1", "Q", 10, 1, CellType::Put, "v1"));
    t.mvcc_complete(w);
    assert_eq!(t.mvcc_get_read_point(), 1);
    let out = scan_all(&t);
    assert_eq!(summary(&out), vec![("A".into(), "F1".into(), "Q".into(), 10, CellType::Put, "v1".into())]);
}

#[test]
fn pending_hides_newer() {
    let mut t = table_with(&["F1"]);
    let w1 = t.mvcc_new_write();
    let w2 = t.mvcc_new_write();
    put(&mut t, "F1", kv("A", "F1", "Q", 1, 1, CellType::Put, "one"));
    put(&mut t, "F1", kv("A", "F1", "Q", 2, 2, CellType::Put, "two"));
    t.mvcc_complete(w2);
    assert_eq!(t.mvcc_get_read_point(), 0);
    assert!(scan_all(&t).is_empty());
    t.mvcc_complete(w1);
    assert_eq!(t.mvcc_get_read_point(), 2);
    let out = scan_all(&t);
    assert_eq!(
        summary(&out),
        vec![
            ("A".into(), "F1".into(), "Q".into(), 2, CellType::Put, "two".into()),
            ("A".into(), "F1".into(), "Q".into(), 1, CellType::Put, "one".into()),
        ]
    );
}

fn write(t: &mut Table, family: &str, mut cell: KeyValue) {
    let w = t.mvcc_new_write();
    cell.write_num = w.get_write_num();
    put(t, family, cell);
    t.mvcc_complete(w);
}

#[test]
fn tombstone_masks_older_put() {
    let mut t = table_with(&["F1"]);
    write(&mut t, "F1", kv("A", "F1", "Q", 5, 0, CellType::Put, "old"));
    write(&mut t, "F1", kv("A", "F1", "Q", 7, 0, CellType::DeleteColumn, ""));
    assert!(scan_all(&t).is_empty());
}

#[test]
fn tombstone_spares_newer_put() {
    let mut t = table_with(&["F1"]);
    write(&mut t, "F1", kv("A", "F1", "Q", 5, 0, CellType::Put, "old"));
    write(&mut t, "F1", kv("A", "F1", "Q", 7, 0, CellType::DeleteColumn, ""));
    write(&mut t, "F1", kv("A", "F1", "Q", 9, 0, CellType::Put, "new"));
    let out = scan_all(&t);
    assert_eq!(summary(&out), vec![("A".into(), "F1".into(), "Q".into(), 9, CellType::Put, "new".into())]);
}

#[test]
fn cross_family_merge() {
    let mut t = table_with(&["F2", "F1"]);
    write(&mut t, "F1", kv("A", "F1", "Q", 1, 0, CellType::Put, "x"));
    write(&mut t, "F2", kv("A", "F2", "Q", 1, 0, CellType::Put, "y"));
    let out = scan_all(&t);
    assert_eq!(
        summary(&out),
        vec![
            ("A".into(), "F1".into(), "Q".into(), 1, CellType::Put, "x".into()),
            ("A".into(), "F2".into(), "Q".into(), 1, CellType::Put, "y".into()),
        ]
    );
}

#[test]
fn delete_family_masks_row() {
    let mut t = table_with(&["F1"]);
    write(&mut t, "F1", kv("A", "F1", "Q1", 1, 0, CellType::Put, "a"));
    write(&mut t, "F1", kv("A", "F1", "Q2", 2, 0, CellType::Put, "b"));
    write(&mut t, "F1", kv("A", "F1", "", 3, 0, CellType::DeleteFamily, ""));
    assert!(scan_all(&t).is_empty());
}

#[test]
fn delete_family_spares_other_rows() {
    let mut t = table_with(&["F1"]);
    write(&mut t, "F1", kv("A", "F1", "", 3, 0, CellType::DeleteFamily, ""));
    write(&mut t, "F1", kv("B", "F1", "Q", 1, 0, CellType::Put, "b"));
    let out = scan_all(&t);
    assert_eq!(summary(&out), vec![("B".into(), "F1".into(), "Q".into(), 1, CellType::Put, "b".into())]);
}

#[test]
fn point_delete_masks_exact_timestamp_only() {
    let mut t = table_with(&["F1"]);
    write(&mut t, "F1", kv("A", "F1", "Q", 4, 0, CellType::Put, "four"));
    write(&mut t, "F1", kv("A", "F1", "Q", 5, 0, CellType::Put, "five"));
    write(&mut t, "F1", kv("A", "F1", "Q", 5, 0, CellType::Delete, ""));
    let out = scan_all(&t);
    assert_eq!(summary(&out), vec![("A".into(), "F1".into(), "Q".into(), 4, CellType::Put, "four".into())]);
}

#[test]
fn scan_respects_bounds() {
    let mut t = table_with(&["F1"]);
    write(&mut t, "F1", kv("A", "F1", "Q", 1, 0, CellType::Put, "a"));
    write(&mut t, "F1", kv("B", "F1", "Q", 1, 0, CellType::Put, "b"));
    write(&mut t, "F1", kv("C", "F1", "Q", 1, 0, CellType::Put, "c"));
    let start = Some(kv("B", "", "", u64::MAX, u64::MAX, CellType::DeleteFamily, ""));
    let end = Some(kv("B", "\u{7f}", "", 0, 0, CellType::Put, ""));
    let out = t.scan(&no_blocks(), start, end).unwrap();
    assert_eq!(summary(&out), vec![("B".into(), "F1".into(), "Q".into(), 1, CellType::Put, "b".into())]);
}

#[test]
fn duplicates_across_sources_collapse() {
    let mut t = table_with(&["F1"]);
    let w = t.mvcc_new_write();
    put(&mut t, "F1", kv("A", "F1", "Q", 1, 1, CellType::Put, "x"));
    t.mvcc_complete(w);
    let i = family_index(&t, "F1");
    let index = vec![IndexEntry { first: kv("A", "F1", "Q", 1, 1, CellType::Put, "x"), block: DataBlock { offset: 0, length: 10 } }];
    let seg = SSTable::new(&b"t".to_vec(), &b"F1".to_vec(), &b"s1".to_vec(), index, 1);
    t.families[i].segments.push(seg);
    let mut blocks = HashMap::new();
    blocks.insert((b"s1".to_vec(), 0u64), vec![kv("A", "F1", "Q", 1, 1, CellType::Put, "x")]);
    let out = t.scan(&Blocks { blocks }, None, None).unwrap();
    assert_eq!(out.len(), 1);
}

#[test]
fn segment_cells_merge_with_memtable() {
    let mut t = table_with(&["F1"]);
    let w1 = t.mvcc_new_write();
    let w2 = t.mvcc_new_write();
    put(&mut t, "F1", kv("B", "F1", "Q", 1, 2, CellType::Put, "mem"));
    t.mvcc_complete(w1);
    t.mvcc_complete(w2);
    let i = family_index(&t, "F1");
    let index = vec![
        IndexEntry { first: kv("A", "F1", "Q", 1, 1, CellType::Put, "a"), block: DataBlock { offset: 0, length: 10 } },
        IndexEntry { first: kv("C", "F1", "Q", 1, 1, CellType::Put, "c"), block: DataBlock { offset: 10, length: 10 } },
    ];
    t.families[i].segments.push(SSTable::new(&b"t".to_vec(), &b"F1".to_vec(), &b"s1".to_vec(), index, 1));
    let mut blocks = HashMap::new();
    blocks.insert((b"s1".to_vec(), 0u64), vec![kv("A", "F1", "Q", 1, 1, CellType::Put, "a")]);
    blocks.insert((b"s1".to_vec(), 10u64), vec![kv("C", "F1", "Q", 1, 1, CellType::Put, "c"), kv("D", "F1", "Q", 1, 3, CellType::Put, "late")]);
    let out = t.scan(&Blocks { blocks }, None, None).unwrap();
    let values: Vec<String> = out.iter().map(|c| String::from_utf8(c.value.clone()).unwrap()).collect();
    assert_eq!(values, vec!["a", "mem", "c"]);
}

#[test]
fn missing_block_is_a_persistence_error() {
    let mut t = table_with(&["F1"]);
    let i = family_index(&t, "F1");
    let index = vec![IndexEntry { first: kv("A", "F1", "Q", 1, 1, CellType::Put, "a"), block: DataBlock { offset: 0, length: 10 } }];
    t.families[i].segments.push(SSTable::new(&b"t".to_vec(), &b"F1".to_vec(), &b"s1".to_vec(), index, 1));
    let r = t.scan(&no_blocks(), None, None);
    assert!(matches!(r, Err(ScanError::Persistence(_))));
}

#[test]
fn out_of_order_source_is_refused() {
    let mut t = table_with(&["F1"]);
    let i = family_index(&t, "F1");
    t.families[i].memtable.push(kv("B", "F1", "Q", 1, 0, CellType::Put, "b"));
    t.families[i].memtable.push(kv("A", "F1", "Q", 1, 0, CellType::Put, "a"));
    let r = t.scan(&no_blocks(), None, None);
    assert!(matches!(r, Err(ScanError::OutOfOrder)));
}

#[test]
fn put_into_missing_family_is_refused() {
    let mut t = table_with(&["F1"]);
    let r = t.put(&b"F9".to_vec(), kv("A", "F9", "Q", 1, 0, CellType::Put, "x"));
    assert_eq!(r, Err(TableError::FamilyNotFound));
}

#[test]
fn cloned_segment_serves_the_same_blocks() {
    let index = vec![
        IndexEntry { first: kv("A", "F1", "Q", 1, 1, CellType::Put, "a"), block: DataBlock { offset: 0, length: 10 } },
        IndexEntry { first: kv("C", "F1", "Q", 1, 1, CellType::Put, "c"), block: DataBlock { offset: 10, length: 4 } },
    ];
    let seg = SSTable::new(&b"t".to_vec(), &b"F1".to_vec(), &b"s1".to_vec(), index, 5);
    let copy = seg.clone();
    assert_eq!(copy.get_blocks(None, None), seg.get_blocks(None, None));
    assert_eq!(copy.get_max_mvcc_id(), 5);
    assert_eq!(copy.get_segment(), &b"s1".to_vec());
}

#[test]
fn reopened_families_serve_their_segments() {
    let index = vec![IndexEntry { first: kv("A", "F1", "Q", 1, 1, CellType::Put, "a"), block: DataBlock { offset: 0, length: 10 } }];
    let seg = SSTable::new(&b"t".to_vec(), &b"F1".to_vec(), &b"s1".to_vec(), index, 1);
    let t = Table::new_from_families_vec(1, b"t".to_vec(), 1, vec![(b"F1".to_vec(), vec![seg])]);
    let mut blocks = HashMap::new();
    blocks.insert((b"s1".to_vec(), 0u64), vec![kv("A", "F1", "Q", 1, 1, CellType::Put, "a")]);
    let out = t.scan(&Blocks { blocks }, None, None).unwrap();
    assert_eq!(summary(&out), vec![("A".into(), "F1".into(), "Q".into(), 1, CellType::Put, "a".into())]);
}

#[test]
fn later_family_entry_wins_on_reopen() {
    let first = SSTable::new(&b"t".to_vec(), &b"F1".to_vec(), &b"old".to_vec(), vec![], 1);
    let second = SSTable::new(&b"t".to_vec(), &b"F1".to_vec(), &b"new".to_vec(), vec![], 1);
    let t = Table::new_from_families_vec(1, b"t".to_vec(), 1, vec![(b"F1".to_vec(), vec![first]), (b"F1".to_vec(), vec![second])]);
    assert_eq!(t.families.len(), 1);
    assert_eq!(t.families[0].segments.len(), 1);
    assert_eq!(t.families[0].segments[0].get_segment(), &b"new".to_vec());
}
