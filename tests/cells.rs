use wdb_storage_engine::table_family::{merge_sources, ScanError};
use wdb_storage_engine::cell::{compare_bytes, CellType, KeyValue};
use wdb_storage_engine::delete_tracker::DeleteTracker;
use wdb_storage_engine::merge::{is_sorted, live_cells, merge_runs};
use wdb_storage_engine::sstable::{DataBlock, IndexEntry, SSTable};

fn kv(row: &str, q: &str, ts: u64, w: u64, t: CellType) -> KeyValue {
    KeyValue::new(row.as_bytes().to_vec(), b"F".to_vec(), q.as_bytes().to_vec(), ts, w, t, vec![])
}

#[test]
fn byte_order_is_lexicographic() {
    assert_eq!(compare_bytes(&b"ab".to_vec(), &b"abc".to_vec()), -1);
    assert_eq!(compare_bytes(&b"b".to_vec(), &b"abc".to_vec()), 1);
    assert_eq!(compare_bytes(&b"abc".to_vec(), &b"abc".to_vec()), 0);
}

#[test]
fn newer_timestamps_and_tombstones_sort_first() {
    assert_eq!(kv("A", "Q", 9, 1, CellType::Put).compare(&kv("A", "Q", 5, 1, CellType::Put)), -1);
    assert_eq!(kv("A", "Q", 5, 2, CellType::Put).compare(&kv("A", "Q", 5, 1, CellType::Put)), -1);
    assert_eq!(kv("A", "Q", 5, 1, CellType::DeleteColumn).compare(&kv("A", "Q", 5, 1, CellType::Put)), -1);
    assert_eq!(kv("B", "Q", 9, 1, CellType::Put).compare(&kv("A", "Q", 5, 1, CellType::Put)), 1);
    assert!(kv("A", "P", 1, 1, CellType::Put).less_than(&kv("A", "Q", 9, 1, CellType::Put)));
}

#[test]
fn merge_interleaves_runs() {
    let out = merge_runs(vec![
        vec![kv("A", "Q", 1, 1, CellType::Put), kv("C", "Q", 1, 1, CellType::Put)],
        vec![kv("B", "Q", 1, 1, CellType::Put)],
    ]);
    let rows: Vec<Vec<u8>> = out.iter().map(|c| c.row.clone()).collect();
    assert_eq!(rows, vec![b"A".to_vec(), b"B".to_vec(), b"C".to_vec()]);
    assert!(is_sorted(&out));
}

#[test]
fn live_cells_resets_at_row_boundary() {
    let stream = vec![
        kv("A", "Q", 5, 2, CellType::DeleteColumn),
        kv("A", "Q", 3, 1, CellType::Put),
        kv("B", "Q", 3, 1, CellType::Put),
    ];
    let out = live_cells(stream);
    assert_eq!(out.len(), 1);
    assert_eq!(out[0].row, b"B".to_vec());
}

#[test]
fn tracker_rules() {
    let mut t = DeleteTracker::new();
    t.add(&kv("A", "Q", 5, 1, CellType::Delete));
    assert!(t.is_deleted(&kv("A", "Q", 5, 1, CellType::Put)));
    assert!(!t.is_deleted(&kv("A", "Q", 4, 1, CellType::Put)));
    t.add(&kv("A", "R", 5, 1, CellType::DeleteColumn));
    assert!(t.is_deleted(&kv("A", "R", 2, 1, CellType::Put)));
    assert!(!t.is_deleted(&kv("A", "R", 6, 1, CellType::Put)));
    t.reset();
    assert!(!t.is_deleted(&kv("A", "Q", 5, 1, CellType::Put)));
    t.add(&kv("A", "", 5, 1, CellType::DeleteFamily));
    assert!(t.is_deleted(&kv("A", "Z", 5, 1, CellType::Put)));
    assert!(!t.is_deleted(&kv("A", "Z", 6, 1, CellType::Put)));
    assert!(!t.is_deleted(&kv("A", "Z", 1, 1, CellType::Delete)));
}

fn segment() -> SSTable {
    let index = vec![
        IndexEntry { first: kv("A", "Q", 1, 1, CellType::Put), block: DataBlock { offset: 0, length: 5 } },
        IndexEntry { first: kv("C", "Q", 1, 1, CellType::Put), block: DataBlock { offset: 5, length: 5 } },
        IndexEntry { first: kv("E", "Q", 1, 1, CellType::Put), block: DataBlock { offset: 10, length: 5 } },
    ];
    SSTable::new(&b"t".to_vec(), &b"F".to_vec(), &b"s".to_vec(), index, 7)
}

fn offsets(v: &[DataBlock]) -> Vec<u64> {
    v.iter().map(|b| b.offset).collect()
}

#[test]
fn blocks_floor_seek() {
    let s = segment();
    assert_eq!(s.get_max_mvcc_id(), 7);
    assert_eq!(offsets(&s.get_blocks(None, None)), vec![0, 5, 10]);
    assert_eq!(offsets(&s.get_blocks(Some(kv("D", "Q", 1, 1, CellType::Put)), None)), vec![5, 10]);
    assert_eq!(offsets(&s.get_blocks(Some(kv("C", "Q", 1, 1, CellType::Put)), Some(kv("D", "Q", 1, 1, CellType::Put)))), vec![5]);
    assert_eq!(offsets(&s.get_blocks(Some(kv("0", "Q", 1, 1, CellType::Put)), Some(kv("C", "Q", 1, 1, CellType::Put)))), vec![0, 5]);
    assert_eq!(offsets(&s.get_blocks(Some(kv("Z", "Q", 1, 1, CellType::Put)), None)), vec![10]);
    assert_eq!(s.get_family(), &b"F".to_vec());
    assert_eq!(s.get_segment(), &b"s".to_vec());
    assert_eq!(s.get_table(), &b"t".to_vec());
}

#[test]
fn tombstone_masks_value_that_sorts_before_it() {
    let stream = vec![
        kv("A", "Q", 7, 2, CellType::Put),
        kv("A", "Q", 7, 1, CellType::DeleteColumn),
        kv("A", "R", 1, 1, CellType::Put),
    ];
    let out = live_cells(stream);
    assert_eq!(out.len(), 1);
    assert_eq!(out[0].qualifier, b"R".to_vec());
}

#[test]
fn merge_sources_keeps_visible_cells_of_every_source() {
    let loaded = vec![
        vec![kv("A", "Q", 1, 1, CellType::Put), kv("C", "Q", 1, 9, CellType::Put)],
        vec![kv("B", "Q", 1, 2, CellType::Put)],
    ];
    let memtable = vec![kv("D", "Q", 1, 3, CellType::Put)];
    let out = merge_sources(loaded, &memtable, &None, &None, 5).unwrap();
    let rows: Vec<Vec<u8>> = out.iter().map(|c| c.row.clone()).collect();
    assert_eq!(rows, vec![b"A".to_vec(), b"B".to_vec(), b"D".to_vec()]);
    let unsorted = vec![vec![kv("B", "Q", 1, 1, CellType::Put), kv("A", "Q", 1, 1, CellType::Put)]];
    assert!(matches!(merge_sources(unsorted, &vec![], &None, &None, 5), Err(ScanError::OutOfOrder)));
}
