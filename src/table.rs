use vstd::prelude::*;
use crate::cell::{CellType, CellView, KeyValue, sorted, strictly_sorted};
use crate::delete_tracker::dominates;
use crate::hashed_bytes::{HashedBytes, fnv1a};
use crate::merge::{emitted, lemma_tombstone_masking, in_runs, lemma_live_from_stream, lemma_live_strictly_sorted, live, live_cells, merge_runs, views};
use crate::row_lock::RowLocks;
use crate::sstable::{SSTable, opt_view};
use crate::table_family::{PersistanceLayer, ScanError, TableFamily, visible};

verus! {

/// Why a table operation was refused.
#[derive(Debug, PartialEq, Eq, Structural)]
pub enum TableError {
    FamilyAlreadyExists,
    FamilyNotFound,
}

/// A write ticket: its sequence number and whether it has completed.
#[derive(Debug)]
pub struct MVCCWriteEntry {
    pub write_num: u64,
    pub completed: bool,
}

impl MVCCWriteEntry {
    pub fn get_write_num(&self) -> (r: u64)
        ensures
            r == self.write_num,
    {
        self.write_num
    }

    pub fn mark_as_completed(&mut self)
        ensures
            final(self).completed,
            final(self).write_num == old(self).write_num,
    {
        self.completed = true;
    }
}

/// Ticket `w` is done in the MVCC state with read point `rp`, write point
/// `wp` and write queue `q`.
pub open spec fn done_in(rp: int, wp: int, q: Seq<MVCCWriteEntry>, w: int) -> bool {
    ||| 1 <= w <= rp
    ||| (rp < w <= wp && q[w - rp - 1].completed)
}

/// A table: its name, its column families, its row leases and its MVCC state.
pub struct Table {
    pub id: u64,
    pub name: Vec<u8>,
    pub families: Vec<TableFamily>,
    pub row_locks: RowLocks,
    pub mvcc_read_point: u64,
    pub mvcc_write_point: u64,
    pub mvcc_write_queue: Vec<MVCCWriteEntry>,
}

/// The family at position `i` is the one named by hash `h`.
pub open spec fn family_has_hash(families: Seq<TableFamily>, i: int, h: u64) -> bool {
    0 <= i < families.len() && families[i].id == h
}

/// Each family is keyed by the hash of its name, no two share a key, and
/// every memtable is sorted.
pub open spec fn families_wf(families: Seq<TableFamily>) -> bool {
    &&& forall|i: int| 0 <= i < families.len() ==> (#[trigger] families[i]).id == fnv1a(families[i].name@)
    &&& forall|i: int| 0 <= i < families.len() ==> sorted(views((#[trigger] families[i]).memtable@))
    &&& forall|i: int, j: int|
        0 <= i < j < families.len() ==> (#[trigger] families[i]).id != (#[trigger] families[j]).id
}

/// Entry `k` is the last one among the first `upto` of `data` whose name
/// hashes to `h`.
pub open spec fn last_with_hash(data: Seq<(Vec<u8>, Vec<SSTable>)>, h: u64, k: int, upto: int) -> bool {
    &&& 0 <= k < upto <= data.len()
    &&& fnv1a(data[k].0@) == h
    &&& forall|k2: int| k < k2 < upto ==> fnv1a((#[trigger] data[k2]).0@) != h
}

/// Family `f` was built from the last entry among the first `upto` of `data`
/// whose name hashes to its key: it has that entry's name and segments.
pub open spec fn built_from_last(data: Seq<(Vec<u8>, Vec<SSTable>)>, f: TableFamily, upto: int) -> bool {
    exists|k: int|
        last_with_hash(data, f.id, k, upto) && f.name@ == data[k].0@ && f.segments@ == data[k].1@
}

/// Some family is keyed by hash `h`.
pub open spec fn has_family(families: Seq<TableFamily>, h: u64) -> bool {
    exists|i: int| #[trigger] family_has_hash(families, i, h)
}

fn find_family(families: &Vec<TableFamily>, h: u64) -> (r: Option<usize>)
    ensures
        match r {
            Some(i) => family_has_hash(families@, i as int, h),
            None => !has_family(families@, h),
        },
{
    let mut i: usize = 0;
    while i < families.len()
        invariant
            i <= families@.len(),
            forall|j: int| 0 <= j < i ==> (#[trigger] families@[j]).id != h,
        decreases families.len() - i,
    {
        if families[i].id == h {
            return Some(i);
        }
        i = i + 1;
    }
    assert forall|j: int| !(#[trigger] family_has_hash(families@, j, h)) by {
        if 0 <= j < families@.len() {
            assert(families@[j].id != h);
        }
    }
    None
}

impl Table {
    /// The whole table is consistent.
    pub open spec fn wf(&self) -> bool {
        &&& self.mvcc_wf()
        &&& families_wf(self.families@)
        &&& self.row_locks.wf()
    }

    pub fn new(id: u64, name: Vec<u8>) -> (r: Table)
        ensures
            r.wf(),
            r.id == id,
            r.name@ == name@,
            r.families@.len() == 0,
            r.row_locks.leases@.len() == 0,
            r.mvcc_write_queue@.len() == 0,
            r.mvcc_read_point == 0,
            r.mvcc_write_point == 0,
    {
        Table {
            id,
            name,
            families: Vec::new(),
            row_locks: RowLocks::new(),
            mvcc_read_point: 0,
            mvcc_write_point: 0,
            mvcc_write_queue: Vec::new(),
        }
    }

    /// Opens a table over existing families and their segments, with every
    /// write up to `mvcc_id` already visible. A later entry of the same name
    /// replaces an earlier one.
    pub fn new_from_families_vec(
        id: u64,
        name: Vec<u8>,
        mvcc_id: u64,
        families_data: Vec<(Vec<u8>, Vec<SSTable>)>,
    ) -> (r: Table)
        ensures
            r.wf(),
            r.id == id,
            r.name@ == name@,
            r.mvcc_read_point == mvcc_id,
            r.mvcc_write_point == mvcc_id,
            r.row_locks.leases@.len() == 0,
            r.mvcc_write_queue@.len() == 0,
            forall|i: int| 0 <= i < r.families@.len() ==> (#[trigger] r.families@[i]).memtable@.len() == 0,
            forall|k: int| 0 <= k < families_data@.len() ==> has_family(r.families@, fnv1a((#[trigger] families_data@[k]).0@)),
            forall|i: int|
                0 <= i < r.families@.len() ==> built_from_last(
                    families_data@,
                    #[trigger] r.families@[i],
                    families_data@.len() as int,
                ),
    {
        let mut families: Vec<TableFamily> = Vec::new();
        let mut data = families_data;
        let ghost all = data@;
        let ghost mut taken: int = 0;
        while data.len() > 0
            invariant
                families_wf(families@),
                0 <= taken <= all.len(),
                data@ == all.subrange(taken, all.len() as int),
                forall|k: int| 0 <= k < taken ==> has_family(families@, fnv1a((#[trigger] all[k]).0@)),
                forall|i: int| 0 <= i < families@.len() ==> built_from_last(all, #[trigger] families@[i], taken),
                forall|i: int| 0 <= i < families@.len() ==> (#[trigger] families@[i]).memtable@.len() == 0,
            decreases data.len(),
        {
            let (fname, segments) = data.remove(0);
            let ghost k = taken;
            assert(all[k].0 == fname);
            assert(all[k].1 == segments);
            let hashed = HashedBytes::from_bytes(fname);
            let h = *hashed.hash_as_ref();
            let family = TableFamily::new_from_segments_vec(h, hashed.bytes, segments);
            let ghost fam = family;
            let ghost before = families@;
            match find_family(&families, h) {
                Some(i) => {
                    families.set(i, family);
                },
                None => {
                    families.push(family);
                },
            }
            proof {
                taken = taken + 1;
                assert(data@ =~= all.subrange(taken, all.len() as int));
                assert forall|i: int, j: int|
                    0 <= i < j < families@.len() implies (#[trigger] families@[i]).id != (#[trigger] families@[j]).id by {
                    if j == before.len() {
                        assert(!family_has_hash(before, i, h));
                    } else {
                        assert(families@[i].id == before[i].id && families@[j].id == before[j].id);
                    }
                }
                assert forall|m: int| 0 <= m < taken implies has_family(families@, fnv1a((#[trigger] all[m]).0@)) by {
                    if m == k {
                        let p = if before.len() < families@.len() { before.len() as int } else {
                            choose|p: int| family_has_hash(before, p, h)
                        };
                        assert(family_has_hash(families@, p, h));
                    } else {
                        let p = choose|p: int| family_has_hash(before, p, fnv1a(all[m].0@));
                        assert(families@[p].id == before[p].id);
                        assert(family_has_hash(families@, p, fnv1a(all[m].0@)));
                    }
                }
                assert forall|i: int| 0 <= i < families@.len() implies built_from_last(all, #[trigger] families@[i], taken) by {
                    if families@[i].id == h {
                        assert(families@[i] == fam);
                        assert(last_with_hash(all, h, k, taken));
                    } else {
                        assert(families@[i] == before[i]);
                        assert(built_from_last(all, before[i], taken - 1));
                        let k2 = choose|k2: int|
                            last_with_hash(all, before[i].id, k2, taken - 1) && before[i].name@ == all[k2].0@
                                && before[i].segments@ == all[k2].1@;
                        assert(last_with_hash(all, before[i].id, k2, taken));
                    }
                }
            }
        }
        assert(taken == all.len());
        assert(all == families_data@);
        Table {
            id,
            name,
            families,
            row_locks: RowLocks::new(),
            mvcc_read_point: mvcc_id,
            mvcc_write_point: mvcc_id,
            mvcc_write_queue: Vec::new(),
        }
    }

    pub fn get_name(&self) -> (r: &Vec<u8>)
        ensures
            r@ == self.name@,
    {
        &self.name
    }

    /// The family of the given name, found by the hash of the name.
    pub fn get_family(&self, name: &Vec<u8>) -> (r: Option<&TableFamily>)
        ensures
            r is Some <==> has_family(self.families@, fnv1a(name@)),
            r matches Some(f) ==> f.id == fnv1a(name@) && exists|i: int|
                family_has_hash(self.families@, i, fnv1a(name@)) && *f == self.families@[i],
    {
        let hashed = HashedBytes::from_bytes(name.clone());
        let h = *hashed.hash_as_ref();
        proof {
            assert(hashed.bytes@ =~= name@);
        }
        match find_family(&self.families, h) {
            Some(i) => Some(&self.families[i]),
            None => None,
        }
    }

    pub fn get_families_iter(&self) -> (r: &Vec<TableFamily>)
        ensures
            r@ == self.families@,
    {
        &self.families
    }

    /// Adds an empty family of the given name; refused when a family of that
    /// name (hash) exists.
    pub fn create_family(&mut self, name: Vec<u8>) -> (r: Result<(), TableError>)
        requires
            old(self).wf(),
        ensures
            final(self).wf(),
            r is Err <==> has_family(old(self).families@, fnv1a(name@)),
            r is Err ==> final(self).families@ == old(self).families@,
            r is Ok ==> final(self).families@.len() == old(self).families@.len() + 1
                && final(self).families@.subrange(0, old(self).families@.len() as int) == old(self).families@
                && final(self).families@.last().id == fnv1a(name@)
                && final(self).families@.last().name@ == name@
                && final(self).families@.last().segments@.len() == 0
                && final(self).families@.last().memtable@.len() == 0,
            final(self).mvcc_read_point == old(self).mvcc_read_point,
            final(self).mvcc_write_point == old(self).mvcc_write_point,
            final(self).mvcc_write_queue == old(self).mvcc_write_queue,
            final(self).row_locks == old(self).row_locks,
    {
        let hashed = HashedBytes::from_bytes(name);
        let h = *hashed.hash_as_ref();
        match find_family(&self.families, h) {
            Some(_) => Err(TableError::FamilyAlreadyExists),
            None => {
                let family = TableFamily::new(h, hashed.bytes);
                let ghost before = self.families@;
                self.families.push(family);
                proof {
                    assert(self.families@.subrange(0, before.len() as int) =~= before);
                    assert forall|i: int, j: int|
                        0 <= i < j < self.families@.len() implies (#[trigger] self.families@[i]).id
                            != (#[trigger] self.families@[j]).id by {
                        if j == before.len() {
                            assert(!family_has_hash(before, i, h));
                        }
                    }
                }
                Ok(())
            },
        }
    }

    /// Stages a cell in the memtable of the named family; refused when the
    /// table has no family of that name (hash).
    pub fn put(&mut self, family: &Vec<u8>, cell: KeyValue) -> (r: Result<(), TableError>)
        requires
            old(self).wf(),
        ensures
            final(self).wf(),
            r is Err <==> !has_family(old(self).families@, fnv1a(family@)),
            r is Err ==> r == Err::<(), TableError>(TableError::FamilyNotFound) && final(self).families@ == old(self).families@,
            r is Ok ==> exists|i: int| #[trigger] family_has_hash(old(self).families@, i, fnv1a(family@))
                && final(self).families@ == old(self).families@.update(i, final(self).families@[i])
                && exists|p: int| 0 <= p <= old(self).families@[i].memtable@.len()
                    && final(self).families@[i].memtable@ == old(self).families@[i].memtable@.insert(p, cell)
                    && sorted(views(final(self).families@[i].memtable@))
                    && final(self).families@[i].segments == old(self).families@[i].segments,
            final(self).mvcc_read_point == old(self).mvcc_read_point,
            final(self).mvcc_write_point == old(self).mvcc_write_point,
            final(self).mvcc_write_queue == old(self).mvcc_write_queue,
            final(self).row_locks == old(self).row_locks,
    {
        let hashed = HashedBytes::from_bytes(family.clone());
        let h = *hashed.hash_as_ref();
        proof {
            assert(hashed.bytes@ =~= family@);
        }
        match find_family(&self.families, h) {
            Some(i) => {
                let ghost before = self.families@;
                let mut f = self.families.remove(i);
                f.put(cell);
                self.families.insert(i, f);
                proof {
                    assert(self.families@ =~= before.update(i as int, self.families@[i as int]));
                    assert forall|a: int, b: int|
                        0 <= a < b < self.families@.len() implies (#[trigger] self.families@[a]).id
                            != (#[trigger] self.families@[b]).id by {
                        assert(before[a].id == self.families@[a].id && before[b].id == self.families@[b].id);
                    }
                    assert forall|a: int| 0 <= a < self.families@.len() implies (#[trigger] self.families@[a]).id
                        == fnv1a(self.families@[a].name@) by {
                        assert(before[a].id == self.families@[a].id && before[a].name == self.families@[a].name);
                    }
                    assert forall|a: int| 0 <= a < self.families@.len() implies sorted(views((#[trigger] self.families@[a]).memtable@)) by {
                        if a != i {
                            assert(before[a] == self.families@[a]);
                        }
                    }
                }
                Ok(())
            },
            None => Err(TableError::FamilyNotFound),
        }
    }

    /// The lease of the row, created free if the row's hash has none.
    pub fn get_row_lock(&mut self, row: &HashedBytes) -> (r: usize)
        requires
            old(self).wf(),
        ensures
            final(self).wf(),
            final(self).row_locks.holds_hash(r as int, row.hash),
            forall|i: int|
                0 <= i < old(self).row_locks.leases@.len() ==> final(self).row_locks.leases@[i]
                    == old(self).row_locks.leases@[i],
            (final(self).row_locks.leases@.len() == old(self).row_locks.leases@.len()) == (exists|i: int|
                #[trigger] old(self).row_locks.holds_hash(i, row.hash)),
            final(self).row_locks.leases@.len() == old(self).row_locks.leases@.len() || (
            final(self).row_locks.leases@.len() == old(self).row_locks.leases@.len() + 1
                && !final(self).row_locks.leases@[r as int].writer
                && final(self).row_locks.leases@[r as int].readers == 0
                && final(self).row_locks.leases@[r as int].row.bytes@ == row.bytes@),
            final(self).families == old(self).families,
            final(self).mvcc_read_point == old(self).mvcc_read_point,
            final(self).mvcc_write_point == old(self).mvcc_write_point,
            final(self).mvcc_write_queue == old(self).mvcc_write_queue,
    {
        self.row_locks.get_row_lock(row)
    }

    /// Scans every family at the current read point: each family's visible
    /// cells in `[start, end]` are merged under the cell order and run through
    /// a tombstone tracker. The result is strictly increasing and holds only
    /// live values written at or before the read point.
    pub fn scan<P: PersistanceLayer>(
        &self,
        persistance: &P,
        start: Option<KeyValue>,
        end: Option<KeyValue>,
    ) -> (r: Result<Vec<KeyValue>, ScanError>)
        ensures
            self.wf() && (forall|f: int|
                0 <= f < self.families@.len() ==> (#[trigger] self.families@[f]).segments@.len() == 0) ==> r is Ok,
            r is Ok ==> {
                let out = views(r->Ok_0@);
                &&& strictly_sorted(out)
                &&& forall|c: CellView| #[trigger] out.contains(c) ==> c.cell_type == CellType::Put
                    && visible(c, opt_view(start), opt_view(end), self.mvcc_read_point)
                &&& exists|m: Seq<CellView>|
                    sorted(m) && out == live(m) && (forall|c: CellView| #[trigger] m.contains(c) ==> visible(
                        c,
                        opt_view(start),
                        opt_view(end),
                        self.mvcc_read_point,
                    )) && (forall|f: int, c: CellView|
                        0 <= f < self.families@.len() && #[trigger] views(self.families@[f].memtable@).contains(c)
                            && visible(c, opt_view(start), opt_view(end), self.mvcc_read_point) ==> m.contains(c))
                    && (forall|c: CellView| #[trigger] m.contains(c) ==> exists|f: int|
                        0 <= f < self.families@.len() && (self.families@[f].segments@.len() > 0
                            || views(self.families@[f].memtable@).contains(c)))
            },
    {
        let read_point = self.mvcc_get_read_point();
        let mut runs: Vec<Vec<KeyValue>> = Vec::new();
        let mut i: usize = 0;
        while i < self.families.len()
            invariant
                i <= self.families@.len(),
                runs@.len() == i,
                read_point == self.mvcc_read_point,
                forall|f: int, c: CellView|
                    0 <= f < i && #[trigger] views(self.families@[f].memtable@).contains(c) && visible(
                        c,
                        opt_view(start),
                        opt_view(end),
                        read_point,
                    ) ==> views(runs@[f]@).contains(c),
                forall|k: int| 0 <= k < runs@.len() ==> #[trigger] sorted(views(runs@[k]@)),
                forall|k: int, c: CellView|
                    0 <= k < runs@.len() && #[trigger] views(runs@[k]@).contains(c) ==> visible(
                        c,
                        opt_view(start),
                        opt_view(end),
                        read_point,
                    ),
                forall|f: int, c: CellView|
                    0 <= f < i && #[trigger] views(runs@[f]@).contains(c) ==> self.families@[f].segments@.len() > 0
                        || views(self.families@[f].memtable@).contains(c),
            decreases self.families.len() - i,
        {
            match self.families[i].scan(persistance, &start, &end, read_point) {
                Ok(cells) => runs.push(cells),
                Err(e) => {
                    return Err(e);
                },
            }
            i = i + 1;
        }
        let merged = merge_runs(runs);
        let ghost m = views(merged@);
        assert forall|c: CellView| #[trigger] m.contains(c) implies visible(
            c,
            opt_view(start),
            opt_view(end),
            read_point,
        ) by {
            assert(in_runs(runs@, c));
        }
        assert forall|f: int, c: CellView|
            0 <= f < self.families@.len() && #[trigger] views(self.families@[f].memtable@).contains(c)
                && visible(c, opt_view(start), opt_view(end), read_point) implies m.contains(c) by {
            assert(views(runs@[f]@).contains(c));
            assert(in_runs(runs@, c));
        }
        assert forall|c: CellView| #[trigger] m.contains(c) implies exists|f: int|
            0 <= f < self.families@.len() && (self.families@[f].segments@.len() > 0
                || views(self.families@[f].memtable@).contains(c)) by {
            assert(in_runs(runs@, c));
            let f = choose|f: int| 0 <= f < runs@.len() && #[trigger] views(runs@[f]@).contains(c);
            assert(f < self.families@.len());
            assert(self.families@[f].segments@.len() > 0 || views(self.families@[f].memtable@).contains(c));
        }
        let out = live_cells(merged);
        proof {
            lemma_live_strictly_sorted(m, m.len() as int);
            lemma_live_from_stream(m, m.len() as int);
            assert forall|c: CellView| #[trigger] views(out@).contains(c) implies c.cell_type == CellType::Put
                && visible(c, opt_view(start), opt_view(end), read_point) by {
                let t = choose|t: int| 0 <= t < views(out@).len() && views(out@)[t] == c;
                let j = choose|j: int| 0 <= j < m.len() && #[trigger] live(m)[t] == m[j] && emitted(m, j);
                assert(m.contains(m[j]));
            }
        }
        Ok(out)
    }
    /// The MVCC state is consistent: the queue holds, in order, the tickets
    /// after the read point up to the write point, and its head is pending.
    pub open spec fn mvcc_wf(&self) -> bool {
        &&& self.mvcc_read_point <= self.mvcc_write_point
        &&& self.mvcc_write_queue@.len() == self.mvcc_write_point - self.mvcc_read_point
        &&& forall|i: int|
            0 <= i < self.mvcc_write_queue@.len() ==> (#[trigger] self.mvcc_write_queue@[i]).write_num
                == self.mvcc_read_point + 1 + i
        &&& self.mvcc_write_queue@.len() > 0 ==> !self.mvcc_write_queue@[0].completed
    }

    /// Ticket `w` has been handed out and completed.
    pub open spec fn ticket_done(&self, w: int) -> bool {
        done_in(self.mvcc_read_point as int, self.mvcc_write_point as int, self.mvcc_write_queue@, w)
    }

    /// Hands out the next write ticket, pending, at the tail of the queue.
    pub fn mvcc_new_write(&mut self) -> (r: MVCCWriteEntry)
        requires
            old(self).mvcc_wf(),
            old(self).mvcc_write_point < u64::MAX,
        ensures
            final(self).mvcc_wf(),
            r.write_num == old(self).mvcc_write_point + 1,
            !r.completed,
            final(self).mvcc_write_point == r.write_num,
            final(self).mvcc_read_point == old(self).mvcc_read_point,
            forall|w: int| #[trigger] final(self).ticket_done(w) == old(self).ticket_done(w),
            final(self).id == old(self).id,
            final(self).name == old(self).name,
            final(self).families == old(self).families,
            final(self).row_locks == old(self).row_locks,
    {
        let write_num = self.mvcc_write_point + 1;
        self.mvcc_write_point = write_num;
        self.mvcc_write_queue.push(MVCCWriteEntry { write_num, completed: false });
        MVCCWriteEntry { write_num, completed: false }
    }

    /// The highest write number below which every write has completed.
    pub fn mvcc_get_read_point(&self) -> (r: u64)
        ensures
            r == self.mvcc_read_point,
    {
        self.mvcc_read_point
    }

    /// Marks a ticket completed, then advances the read point over the
    /// completed prefix of the queue. Completing a ticket twice changes nothing.
    pub fn mvcc_complete(&mut self, write_entry: MVCCWriteEntry)
        requires
            old(self).mvcc_wf(),
            write_entry.write_num <= old(self).mvcc_write_point,
        ensures
            final(self).mvcc_wf(),
            final(self).mvcc_write_point == old(self).mvcc_write_point,
            old(self).mvcc_read_point <= final(self).mvcc_read_point,
            forall|w: int|
                #[trigger] final(self).ticket_done(w) == (old(self).ticket_done(w) || (w
                    == write_entry.write_num && 1 <= w <= old(self).mvcc_write_point)),
            final(self).id == old(self).id,
            final(self).name == old(self).name,
            final(self).families == old(self).families,
            final(self).row_locks == old(self).row_locks,
    {
        let mut write_entry = write_entry;
        let w = write_entry.write_num;
        let ghost target = |x: int|
            old(self).ticket_done(x) || (x == w && 1 <= x <= old(self).mvcc_write_point);
        let ghost q0 = self.mvcc_write_queue@;
        if self.mvcc_read_point < w && w <= self.mvcc_write_point {
            let d: u64 = w - self.mvcc_read_point - 1;
            assert(d < self.mvcc_write_queue.len());
            let idx: usize = d as usize;
            assert(q0[idx as int].write_num == w);
            write_entry.mark_as_completed();
            self.mvcc_write_queue.set(idx, write_entry);
        }
        assert forall|x: int| #[trigger] self.ticket_done(x) == target(x) by {
            if self.mvcc_read_point < x <= self.mvcc_write_point {
                assert(q0[x - self.mvcc_read_point - 1].write_num == x);
            }
        }
        assert forall|i: int| 0 <= i < self.mvcc_write_queue@.len() implies (#[trigger] self.mvcc_write_queue@[i]).write_num
                == self.mvcc_read_point + 1 + i by {
            assert(q0[i].write_num == self.mvcc_read_point + 1 + i);
        }
        while self.mvcc_write_queue.len() > 0 && self.mvcc_write_queue[0].completed
            invariant
                self.mvcc_read_point <= self.mvcc_write_point,
                self.mvcc_write_point == old(self).mvcc_write_point,
                old(self).mvcc_read_point <= self.mvcc_read_point,
                self.mvcc_write_queue@.len() == self.mvcc_write_point - self.mvcc_read_point,
                forall|i: int|
                    0 <= i < self.mvcc_write_queue@.len() ==> (#[trigger] self.mvcc_write_queue@[i]).write_num
                        == self.mvcc_read_point + 1 + i,
                forall|x: int| #[trigger] self.ticket_done(x) == target(x),
                self.id == old(self).id,
                self.name == old(self).name,
                self.families == old(self).families,
                self.row_locks == old(self).row_locks,
            decreases self.mvcc_write_queue.len(),
        {
            let ghost before = self.mvcc_write_queue@;
            let ghost rp = self.mvcc_read_point as int;
            assert forall|x: int| #[trigger] done_in(rp, self.mvcc_write_point as int, before, x) == target(x) by {
                assert(self.ticket_done(x) == target(x));
            }
            assert(before[0].write_num == rp + 1);
            assert(before[0].completed);
            self.mvcc_read_point = self.mvcc_write_queue[0].write_num;
            self.mvcc_write_queue.remove(0);
            assert(self.mvcc_write_queue@ =~= before.subrange(1, before.len() as int));
            assert forall|x: int| #[trigger] self.ticket_done(x) == target(x) by {
                assert(done_in(rp, self.mvcc_write_point as int, before, x) == target(x));
                if rp < x <= self.mvcc_write_point {
                    assert(before[x - rp - 1].write_num == x);
                    assert(done_in(rp, self.mvcc_write_point as int, before, x) == target(x));
                }
                if self.mvcc_read_point < x <= self.mvcc_write_point {
                    assert(self.mvcc_write_queue@[x - self.mvcc_read_point - 1] == before[x - rp - 1]);
                }
                if x == rp + 1 {
                    assert(done_in(rp, self.mvcc_write_point as int, before, x));
                }
            }
        }
    }
}

/// Read points only grow: neither handing out a ticket nor completing one
/// lowers the read point, so repeated samples form a non-decreasing sequence.
pub proof fn lemma_read_point_monotone(before: &Table, after: &Table)
    requires
        before.mvcc_wf(),
        after.mvcc_wf(),
        after.mvcc_write_point >= before.mvcc_write_point,
        forall|x: int| before.ticket_done(x) ==> #[trigger] after.ticket_done(x),
    ensures
        before.mvcc_read_point <= after.mvcc_read_point,
{
    if after.mvcc_read_point < before.mvcc_read_point {
        let h = after.mvcc_read_point + 1;
        assert(before.ticket_done(h));
        assert(after.ticket_done(h));
        assert(after.mvcc_write_queue@[0].write_num == h);
    }
}

/// When every ticket up to `n` is done and none after it, the read point is `n`.
pub proof fn lemma_prefix_visibility(t: &Table, n: int)
    requires
        t.mvcc_wf(),
        0 <= n <= t.mvcc_write_point,
        forall|w: int| 1 <= w <= n ==> #[trigger] t.ticket_done(w),
        forall|w: int| w > n ==> !#[trigger] t.ticket_done(w),
    ensures
        t.mvcc_read_point == n,
{
    if t.mvcc_read_point < n {
        let h = t.mvcc_read_point + 1;
        assert(t.ticket_done(h));
        assert(t.mvcc_write_queue@[0].write_num == h);
    }
    if t.mvcc_read_point > n {
        assert(t.ticket_done(t.mvcc_read_point as int));
    }
}

/// A pending ticket bounds the read point from above.
pub proof fn lemma_pending_bounds_read_point(t: &Table, w: int)
    requires
        t.mvcc_wf(),
        1 <= w <= t.mvcc_write_point,
        !t.ticket_done(w),
    ensures
        t.mvcc_read_point < w,
{
}

/// A visible cell held in the memtable of some family.
pub open spec fn stored_visible(t: &Table, c: CellView, start: Option<CellView>, end: Option<CellView>) -> bool {
    &&& visible(c, start, end, t.mvcc_read_point)
    &&& exists|f: int| 0 <= f < t.families@.len() && #[trigger] views(t.families@[f].memtable@).contains(c)
}

/// Tombstone masking at the table: when a scan of a table without segments
/// runs over one row, it returns exactly the visible values that no visible
/// tombstone masks.
pub proof fn lemma_scan_masks_tombstones(
    t: &Table,
    start: Option<CellView>,
    end: Option<CellView>,
    m: Seq<CellView>,
    c: CellView,
)
    requires
        forall|f: int| 0 <= f < t.families@.len() ==> (#[trigger] t.families@[f]).segments@.len() == 0,
        sorted(m),
        forall|x: CellView| #[trigger] m.contains(x) ==> visible(x, start, end, t.mvcc_read_point),
        forall|f: int, x: CellView|
            0 <= f < t.families@.len() && #[trigger] views(t.families@[f].memtable@).contains(x) && visible(
                x,
                start,
                end,
                t.mvcc_read_point,
            ) ==> m.contains(x),
        forall|x: CellView| #[trigger] m.contains(x) ==> exists|f: int|
            0 <= f < t.families@.len() && (t.families@[f].segments@.len() > 0 || views(
                t.families@[f].memtable@,
            ).contains(x)),
        forall|i: int, j: int| 0 <= i < m.len() && 0 <= j < m.len() ==> (#[trigger] m[i]).row == (#[trigger] m[j]).row,
    ensures
        live(m).contains(c) <==> (stored_visible(t, c, start, end) && c.cell_type == CellType::Put && forall|d: CellView|
            #[trigger] stored_visible(t, d, start, end) ==> !dominates(d, c)),
{
    lemma_tombstone_masking(m, c);
    assert forall|x: CellView| #[trigger] m.contains(x) <==> stored_visible(t, x, start, end) by {
        if m.contains(x) {
            let f = choose|f: int|
                0 <= f < t.families@.len() && (t.families@[f].segments@.len() > 0 || views(
                    t.families@[f].memtable@,
                ).contains(x));
            assert(t.families@[f].segments@.len() == 0);
        }
        if stored_visible(t, x, start, end) {
            let f = choose|f: int| 0 <= f < t.families@.len() && #[trigger] views(t.families@[f].memtable@).contains(x);
        }
    }
    if live(m).contains(c) {
        assert forall|d: CellView| #[trigger] stored_visible(t, d, start, end) implies !dominates(d, c) by {
            assert(m.contains(d));
            let j = choose|j: int| 0 <= j < m.len() && m[j] == d;
        }
    }
    if stored_visible(t, c, start, end) && c.cell_type == CellType::Put && forall|d: CellView|
        #[trigger] stored_visible(t, d, start, end) ==> !dominates(d, c) {
        assert forall|j: int| 0 <= j < m.len() implies !dominates(#[trigger] m[j], c) by {
            assert(m.contains(m[j]));
            assert(stored_visible(t, m[j], start, end));
        }
    }
}

} // verus!
