use vstd::prelude::*;
use crate::hashed_bytes::HashedBytes;

verus! {

/// A lease on the rows of one hash: the row that created it, and who holds it.
#[derive(Debug)]
pub struct RowLockContext {
    pub row: HashedBytes,
    pub writer: bool,
    pub readers: u64,
}

/// The row-lease registry: at most one lease per row hash.
pub struct RowLocks {
    pub leases: Vec<RowLockContext>,
}

impl RowLocks {
    /// One lease per hash, and a held write lease excludes readers.
    pub open spec fn wf(&self) -> bool {
        &&& forall|i: int, j: int|
            0 <= i < j < self.leases@.len() ==> (#[trigger] self.leases@[i]).row.hash
                != (#[trigger] self.leases@[j]).row.hash
        &&& forall|i: int| 0 <= i < self.leases@.len() ==> (#[trigger] self.leases@[i]).writer ==> self.leases@[i].readers == 0
    }

    /// Position of the lease of hash `h`, if any.
    pub open spec fn holds_hash(&self, i: int, h: u64) -> bool {
        0 <= i < self.leases@.len() && self.leases@[i].row.hash == h
    }

    pub fn new() -> (r: RowLocks)
        ensures
            r.wf(),
            r.leases@.len() == 0,
    {
        RowLocks { leases: Vec::new() }
    }

    fn find(&self, hash: u64) -> (r: Option<usize>)
        ensures
            match r {
                Some(i) => self.holds_hash(i as int, hash),
                None => forall|i: int| 0 <= i < self.leases@.len() ==> (#[trigger] self.leases@[i]).row.hash != hash,
            },
    {
        let mut i: usize = 0;
        while i < self.leases.len()
            invariant
                i <= self.leases@.len(),
                forall|j: int| 0 <= j < i ==> (#[trigger] self.leases@[j]).row.hash != hash,
            decreases self.leases.len() - i,
        {
            if self.leases[i].row.hash == hash {
                return Some(i);
            }
            i = i + 1;
        }
        None
    }

    /// Looks up the lease of the row's hash, inserting a free one if there is
    /// none; rows whose hashes collide share a lease. Returns its position.
    pub fn get_row_lock(&mut self, row: &HashedBytes) -> (r: usize)
        requires
            old(self).wf(),
        ensures
            final(self).wf(),
            final(self).holds_hash(r as int, row.hash),
            forall|i: int| 0 <= i < old(self).leases@.len() ==> final(self).leases@[i] == old(self).leases@[i],
            (final(self).leases@.len() == old(self).leases@.len()) == (exists|i: int| #[trigger] old(self).holds_hash(i, row.hash)),
            final(self).leases@.len() == old(self).leases@.len() || (final(self).leases@.len()
                == old(self).leases@.len() + 1 && !final(self).leases@[r as int].writer
                && final(self).leases@[r as int].readers == 0
                && final(self).leases@[r as int].row.bytes@ == row.bytes@),
    {
        match self.find(row.hash) {
            Some(i) => {
                assert(self.holds_hash(i as int, row.hash));
                i
            },
            None => {
                self.leases.push(RowLockContext { row: row.clone(), writer: false, readers: 0 });
                self.leases.len() - 1
            },
        }
    }

    /// Takes the write lease of the row when nobody holds it.
    pub fn try_lock_write(&mut self, row: &HashedBytes) -> (r: bool)
        requires
            old(self).wf(),
        ensures
            final(self).wf(),
            r == forall|i: int| #[trigger] old(self).holds_hash(i, row.hash) ==> !old(self).leases@[i].writer
                && old(self).leases@[i].readers == 0,
            r ==> exists|i: int| #[trigger] final(self).holds_hash(i, row.hash) && final(self).leases@[i].writer,
            forall|i: int|
                0 <= i < old(self).leases@.len() && old(self).leases@[i].row.hash != row.hash
                    ==> final(self).leases@[i] == old(self).leases@[i],
            final(self).leases@.len() <= old(self).leases@.len() + 1,
    {
        let i = self.get_row_lock(row);
        let lease = &self.leases[i];
        proof {
            assert forall|k: int| #[trigger] old(self).holds_hash(k, row.hash) implies k == i as int by {
                assert(self.leases@[k] == old(self).leases@[k]);
                if k < i {
                    assert(self.leases@[k].row.hash != self.leases@[i as int].row.hash);
                } else if k > i {
                    assert(self.leases@[i as int].row.hash != self.leases@[k].row.hash);
                }
            }
            if i < old(self).leases@.len() {
                assert(old(self).holds_hash(i as int, row.hash));
            }
        }
        if !lease.writer && lease.readers == 0 {
            let row_copy = lease.row.clone();
            self.leases.set(i, RowLockContext { row: row_copy, writer: true, readers: 0 });
            assert(self.holds_hash(i as int, row.hash));
            true
        } else {
            proof {
                if i < old(self).leases@.len() {
                    assert(old(self).holds_hash(i as int, row.hash));
                }
            }
            false
        }
    }

    /// Gives the write lease of the row back.
    pub fn unlock_write(&mut self, row: &HashedBytes)
        requires
            old(self).wf(),
        ensures
            final(self).wf(),
            forall|i: int| #[trigger] final(self).holds_hash(i, row.hash) ==> !final(self).leases@[i].writer,
            forall|i: int|
                0 <= i < old(self).leases@.len() && old(self).leases@[i].row.hash != row.hash
                    ==> final(self).leases@[i] == old(self).leases@[i],
            final(self).leases@.len() <= old(self).leases@.len() + 1,
    {
        let i = self.get_row_lock(row);
        let lease = &self.leases[i];
        let row_copy = lease.row.clone();
        let readers = lease.readers;
        self.leases.set(i, RowLockContext { row: row_copy, writer: false, readers });
        assert forall|k: int| #[trigger] self.holds_hash(k, row.hash) implies k == i as int by {
            if k < i {
                assert(self.leases@[k].row.hash != self.leases@[i as int].row.hash);
            } else if k > i {
                assert(self.leases@[i as int].row.hash != self.leases@[k].row.hash);
            }
        }
    }
}

/// Row-lease mutual exclusion: under the registry's invariant, two write
/// leases held at once belong to rows of different hashes.
pub proof fn lemma_one_writer_per_hash(locks: &RowLocks, i: int, j: int)
    requires
        locks.wf(),
        0 <= i < locks.leases@.len(),
        0 <= j < locks.leases@.len(),
        locks.leases@[i].writer,
        locks.leases@[j].writer,
        locks.leases@[i].row.hash == locks.leases@[j].row.hash,
    ensures
        i == j,
{
    if i < j {
        assert(locks.leases@[i].row.hash != locks.leases@[j].row.hash);
    } else if j < i {
        assert(locks.leases@[j].row.hash != locks.leases@[i].row.hash);
    }
}

} // verus!
