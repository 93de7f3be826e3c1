//! The transactional read path of a column-family storage engine: the cell
//! order, segment block lookup, tombstone tracking, the MVCC sequencer, the
//! row-lease registry and the k-way merge that a table scan runs.

pub mod cell;
pub mod delete_tracker;
pub mod footer;
pub mod hashed_bytes;
pub mod merge;
pub mod row_lock;
pub mod sstable;
pub mod table;
pub mod table_family;
