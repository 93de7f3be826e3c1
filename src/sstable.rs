use vstd::prelude::*;
use crate::cell::{CellView, KeyValue, cell_le};

verus! {

/// Where a data block lies in its segment file.
#[derive(Clone, Copy, Debug, PartialEq, Eq, Structural)]
pub struct DataBlock {
    pub offset: u64,
    pub length: u64,
}

/// The trailing footer of a segment file: where its index lies.
#[derive(Clone, Copy, Debug, PartialEq, Eq, Structural)]
pub struct SSTableFooter {
    pub index_pos: u64,
    pub index_size: u64,
}

/// One serialized index record: the first cell's key of a block and where the block lies.
#[derive(Clone, Debug)]
pub struct SSTableIndex {
    pub row: String,
    pub column_name: String,
    pub timestamp: u64,
    pub offset: u64,
    pub length: u64,
}

/// A row as a segment stores it.
#[derive(Clone, Debug)]
pub struct SSTableRow {
    pub row: String,
    pub column_name: String,
    pub timestamp: u64,
    pub data: Vec<u8>,
}

/// An index entry: the first cell of a data block and the block itself.
#[derive(Debug)]
pub struct IndexEntry {
    pub first: KeyValue,
    pub block: DataBlock,
}

/// An immutable sorted segment: its identity, its block index (ordered by
/// first cell) and the largest write number it holds.
pub struct SSTable {
    pub table: Vec<u8>,
    pub family: Vec<u8>,
    pub segment: Vec<u8>,
    pub index: Vec<IndexEntry>,
    pub max_mvcc_id: u64,
}

pub open spec fn opt_view(o: Option<KeyValue>) -> Option<CellView> {
    match o {
        Some(k) => Some(k@),
        None => None,
    }
}

/// `k` is where the run of keys at most `c`, starting at `from`, ends.
pub open spec fn leading_le(keys: Seq<CellView>, c: CellView, from: int, k: int) -> bool {
    &&& 0 <= from <= k <= keys.len()
    &&& forall|j: int| from <= j < k ==> cell_le(#[trigger] keys[j], c)
    &&& (k == keys.len() || !cell_le(keys[k], c))
}

/// `p` is the floor position of `start`: the last key at most `start`, or the
/// first key when there is none (or no `start`).
pub open spec fn seek_start(keys: Seq<CellView>, start: Option<CellView>, p: int) -> bool {
    match start {
        None => p == 0,
        Some(c) => 0 <= p && (leading_le(keys, c, 0, p + 1) || (p == 0 && leading_le(keys, c, 0, 0))),
    }
}

/// From `p`, the walk stops at `q`: the first key above `end`, or the end.
pub open spec fn seek_end(keys: Seq<CellView>, end: Option<CellView>, p: int, q: int) -> bool {
    match end {
        None => p <= q == keys.len(),
        Some(c) => leading_le(keys, c, p, q),
    }
}

fn count_leading_le(index: &Vec<IndexEntry>, c: &KeyValue, from: usize) -> (k: usize)
    requires
        from <= index@.len(),
    ensures
        leading_le(index@.map_values(|e: IndexEntry| e.first@), c@, from as int, k as int),
{
    let ghost keys = index@.map_values(|e: IndexEntry| e.first@);
    let mut k = from;
    while k < index.len()
        invariant
            from <= k <= index@.len(),
            keys == index@.map_values(|e: IndexEntry| e.first@),
            forall|j: int| from <= j < k ==> cell_le(#[trigger] keys[j], c@),
        decreases index.len() - k,
    {
        assert(keys[k as int] == index@[k as int].first@);
        if index[k].first.compare(c) > 0 {
            return k;
        }
        k = k + 1;
    }
    k
}

impl SSTable {
    pub fn new(
        table: &Vec<u8>,
        family: &Vec<u8>,
        segment: &Vec<u8>,
        index: Vec<IndexEntry>,
        max_mvcc_id: u64,
    ) -> (r: SSTable)
        ensures
            r.table@ == table@,
            r.family@ == family@,
            r.segment@ == segment@,
            r.index@ == index@,
            r.max_mvcc_id == max_mvcc_id,
    {
        let t = table.clone();
        let f = family.clone();
        let s = segment.clone();
        assert(t@ =~= table@ && f@ =~= family@ && s@ =~= segment@);
        SSTable { table: t, family: f, segment: s, index, max_mvcc_id }
    }

    /// The first cells of the blocks, in index order.
    pub open spec fn index_keys(&self) -> Seq<CellView> {
        self.index@.map_values(|e: IndexEntry| e.first@)
    }

    /// The blocks, in index order.
    pub open spec fn index_blocks(&self) -> Seq<DataBlock> {
        self.index@.map_values(|e: IndexEntry| e.block)
    }

    /// The index is ordered by first cell, strictly.
    pub open spec fn wf(&self) -> bool {
        crate::cell::strictly_sorted(self.index_keys())
    }

    pub fn get_max_mvcc_id(&self) -> (r: u64)
        ensures
            r == self.max_mvcc_id,
    {
        self.max_mvcc_id
    }

    /// The blocks that may hold cells in `[start, end]`: from the last block
    /// whose first cell is at most `start` on, while first cells are at most `end`.
    pub fn get_blocks(&self, start: Option<KeyValue>, end: Option<KeyValue>) -> (r: Vec<DataBlock>)
        ensures
            exists|p: int, q: int|
                seek_start(self.index_keys(), opt_view(start), p) && seek_end(
                    self.index_keys(),
                    opt_view(end),
                    p,
                    q,
                ) && r@ == self.index_blocks().subrange(p, q),
    {
        let p: usize = match &start {
            None => 0,
            Some(c) => {
                let k = count_leading_le(&self.index, c, 0);
                if k == 0 { 0 } else { k - 1 }
            },
        };
        let q: usize = match &end {
            None => self.index.len(),
            Some(c) => count_leading_le(&self.index, c, p),
        };
        let mut r: Vec<DataBlock> = Vec::new();
        let mut i = p;
        while i < q
            invariant
                p <= i <= q <= self.index@.len(),
                r@ == self.index_blocks().subrange(p as int, i as int),
            decreases q - i,
        {
            r.push(self.index[i].block);
            assert(r@ =~= self.index_blocks().subrange(p as int, i + 1));
            i = i + 1;
        }
        proof {
            assert(r@ =~= self.index_blocks().subrange(p as int, q as int));
        }
        r
    }

    pub fn get_table(&self) -> (r: &Vec<u8>)
        ensures
            r@ == self.table@,
    {
        &self.table
    }

    pub fn get_family(&self) -> (r: &Vec<u8>)
        ensures
            r@ == self.family@,
    {
        &self.family
    }

    pub fn get_segment(&self) -> (r: &Vec<u8>)
        ensures
            r@ == self.segment@,
    {
        &self.segment
    }
}

impl Clone for IndexEntry {
    fn clone(&self) -> (r: Self)
        ensures
            r.first@ == self.first@,
            r.block == self.block,
    {
        IndexEntry { first: self.first.clone(), block: self.block }
    }
}

impl Clone for SSTable {
    /// A copy with its own index.
    fn clone(&self) -> (r: Self)
        ensures
            r.table@ == self.table@,
            r.family@ == self.family@,
            r.segment@ == self.segment@,
            r.index_keys() == self.index_keys(),
            r.index_blocks() == self.index_blocks(),
            r.max_mvcc_id == self.max_mvcc_id,
    {
        let mut index: Vec<IndexEntry> = Vec::new();
        let mut i: usize = 0;
        while i < self.index.len()
            invariant
                i <= self.index@.len(),
                index@.len() == i,
                forall|k: int| 0 <= k < i ==> (#[trigger] index@[k]).first@ == self.index@[k].first@
                    && index@[k].block == self.index@[k].block,
            decreases self.index.len() - i,
        {
            index.push(self.index[i].clone());
            i = i + 1;
        }
        let r = SSTable::new(&self.table, &self.family, &self.segment, index, self.max_mvcc_id);
        assert(r.index_keys() =~= self.index_keys());
        assert(r.index_blocks() =~= self.index_blocks());
        r
    }
}

} // verus!
