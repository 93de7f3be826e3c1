use vstd::prelude::*;
use crate::cell::{CellType, CellView, KeyValue, bytes_equal};

verus! {

/// Tombstone `d` masks cell `p` of the same row: a family tombstone every
/// older cell of its family, a column tombstone every older cell of its
/// column, a point tombstone the cell of its column at its exact timestamp.
pub open spec fn dominates(d: CellView, p: CellView) -> bool {
    &&& d.row == p.row
    &&& d.family == p.family
    &&& match d.cell_type {
        CellType::DeleteFamily => p.timestamp <= d.timestamp,
        CellType::DeleteColumn => d.qualifier == p.qualifier && p.timestamp <= d.timestamp,
        CellType::Delete => d.qualifier == p.qualifier && p.timestamp == d.timestamp,
        CellType::Put => false,
    }
}

/// The tombstones seen so far in the current row.
pub struct DeleteTracker {
    pub deletes: Vec<KeyValue>,
}

impl View for DeleteTracker {
    type V = Seq<CellView>;

    open spec fn view(&self) -> Seq<CellView> {
        self.deletes@.map_values(|k: KeyValue| k@)
    }
}

fn dominates_exec(d: &KeyValue, p: &KeyValue) -> (r: bool)
    ensures
        r == dominates(d@, p@),
{
    if !bytes_equal(&d.row, &p.row) || !bytes_equal(&d.family, &p.family) {
        return false;
    }
    match d.cell_type {
        CellType::DeleteFamily => p.timestamp <= d.timestamp,
        CellType::DeleteColumn => bytes_equal(&d.qualifier, &p.qualifier) && p.timestamp <= d.timestamp,
        CellType::Delete => bytes_equal(&d.qualifier, &p.qualifier) && p.timestamp == d.timestamp,
        CellType::Put => false,
    }
}

impl DeleteTracker {
    pub fn new() -> (r: DeleteTracker)
        ensures
            r@ == Seq::<CellView>::empty(),
    {
        let r = DeleteTracker { deletes: Vec::new() };
        assert(r@ =~= Seq::<CellView>::empty());
        r
    }

    /// Forgets every tombstone: called at each row boundary.
    pub fn reset(&mut self)
        ensures
            final(self)@ == Seq::<CellView>::empty(),
    {
        self.deletes = Vec::new();
        assert(self@ =~= Seq::<CellView>::empty());
    }

    /// Records the cell if it is a tombstone.
    pub fn add(&mut self, cell: &KeyValue)
        ensures
            final(self)@ == if cell.cell_type != CellType::Put {
                old(self)@.push(cell@)
            } else {
                old(self)@
            },
    {
        if !matches!(cell.cell_type, CellType::Put) {
            self.deletes.push(cell.clone());
            assert(self@ =~= old(self)@.push(cell@));
        }
    }

    /// A value cell is deleted when a recorded tombstone masks it.
    pub fn is_deleted(&self, cell: &KeyValue) -> (r: bool)
        ensures
            r == (cell.cell_type == CellType::Put && exists|i: int|
                0 <= i < self@.len() && dominates(#[trigger] self@[i], cell@)),
    {
        if !matches!(cell.cell_type, CellType::Put) {
            return false;
        }
        let mut i: usize = 0;
        while i < self.deletes.len()
            invariant
                i <= self.deletes@.len(),
                self@.len() == self.deletes@.len(),
                cell.cell_type == CellType::Put,
                forall|j: int| 0 <= j < i ==> !dominates(#[trigger] self@[j], cell@),
            decreases self.deletes.len() - i,
        {
            assert(self@[i as int] == self.deletes@[i as int]@);
            if dominates_exec(&self.deletes[i], cell) {
                assert(dominates(self@[i as int], cell@));
                return true;
            }
            i = i + 1;
        }
        false
    }
}

} // verus!
