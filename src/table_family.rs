use vstd::prelude::*;
use crate::cell::{CellView, KeyValue, cell_le, cell_lt, lemma_cell_cmp_antisym, sorted};
use crate::merge::{in_runs, is_sorted, merge_runs, views};
use crate::sstable::{DataBlock, SSTable, opt_view};

verus! {

/// What a persistence collaborator reports when it cannot hand a block over.
#[derive(Debug)]
pub struct PersistenceError {
    pub message: String,
}

/// Why a scan stopped.
#[derive(Debug)]
pub enum ScanError {
    /// The persistence layer failed to load a block.
    Persistence(PersistenceError),
    /// A segment or memtable handed over cells out of order.
    OutOfOrder,
}

/// The storage collaborator: loads the cells of one data block of a segment.
pub trait PersistanceLayer {
    fn load_block(
        &self,
        table: &Vec<u8>,
        family: &Vec<u8>,
        segment: &Vec<u8>,
        block: DataBlock,
    ) -> Result<Vec<KeyValue>, PersistenceError>;
}

/// Cell `c` lies in `[start, end]` (an absent bound does not limit) and is
/// visible at `read_point`.
pub open spec fn visible(c: CellView, start: Option<CellView>, end: Option<CellView>, read_point: u64) -> bool {
    &&& c.write_num <= read_point
    &&& match start {
        Some(s) => cell_le(s, c),
        None => true,
    }
    &&& match end {
        Some(e) => cell_le(c, e),
        None => true,
    }
}

/// The cells of the first `n` of `s` that are visible, in order.
pub open spec fn visible_prefix(
    s: Seq<CellView>,
    start: Option<CellView>,
    end: Option<CellView>,
    read_point: u64,
    n: int,
) -> Seq<CellView>
    decreases n,
{
    if n <= 0 {
        Seq::empty()
    } else if visible(s[n - 1], start, end, read_point) {
        visible_prefix(s, start, end, read_point, n - 1).push(s[n - 1])
    } else {
        visible_prefix(s, start, end, read_point, n - 1)
    }
}

proof fn lemma_visible_prefix_sorted(
    s: Seq<CellView>,
    start: Option<CellView>,
    end: Option<CellView>,
    read_point: u64,
    n: int,
)
    requires
        sorted(s),
        0 <= n <= s.len(),
    ensures
        sorted(visible_prefix(s, start, end, read_point, n)),
        forall|t: int|
            0 <= t < visible_prefix(s, start, end, read_point, n).len() ==> visible(
                #[trigger] visible_prefix(s, start, end, read_point, n)[t],
                start,
                end,
                read_point,
            ),
        visible_prefix(s, start, end, read_point, n).len() > 0 ==> exists|j: int|
            0 <= j < n && visible_prefix(s, start, end, read_point, n).last() == #[trigger] s[j],
        forall|t: int|
            0 <= t < visible_prefix(s, start, end, read_point, n).len() ==> s.contains(
                #[trigger] visible_prefix(s, start, end, read_point, n)[t],
            ),
    decreases n,
{
    if n > 0 {
        lemma_visible_prefix_sorted(s, start, end, read_point, n - 1);
        let p = visible_prefix(s, start, end, read_point, n - 1);
        let q = visible_prefix(s, start, end, read_point, n);
        if visible(s[n - 1], start, end, read_point) {
            if p.len() > 0 {
                let j = choose|j: int| 0 <= j < n - 1 && p.last() == #[trigger] s[j];
                crate::merge::lemma_sorted_le(s, j, n - 1);
            }
            assert forall|i: int| 0 <= i < q.len() - 1 implies cell_le(#[trigger] q[i], q[i + 1]) by {
                if i < p.len() - 1 {
                    assert(q[i] == p[i] && q[i + 1] == p[i + 1]);
                } else {
                    assert(q[i] == p.last());
                }
            }
            assert(q.last() == s[n - 1]);
            assert forall|t: int| 0 <= t < q.len() implies visible(#[trigger] q[t], start, end, read_point) by {
                if t < p.len() {
                    assert(q[t] == p[t]);
                }
            }
            assert forall|t: int| 0 <= t < q.len() implies s.contains(#[trigger] q[t]) by {
                if t < p.len() {
                    assert(q[t] == p[t]);
                } else {
                    assert(q[t] == s[n - 1]);
                }
            }
        }
    }
}

proof fn lemma_visible_prefix_complete(
    s: Seq<CellView>,
    start: Option<CellView>,
    end: Option<CellView>,
    read_point: u64,
    n: int,
    j: int,
)
    requires
        0 <= j < n <= s.len(),
        visible(s[j], start, end, read_point),
    ensures
        visible_prefix(s, start, end, read_point, n).contains(s[j]),
    decreases n,
{
    let p = visible_prefix(s, start, end, read_point, n - 1);
    if j == n - 1 {
        assert(visible_prefix(s, start, end, read_point, n).last() == s[j]);
    } else {
        lemma_visible_prefix_complete(s, start, end, read_point, n - 1, j);
        let k = choose|k: int| 0 <= k < p.len() && p[k] == s[j];
        assert(visible_prefix(s, start, end, read_point, n)[k] == s[j]);
    }
}

fn visible_exec(c: &KeyValue, start: &Option<KeyValue>, end: &Option<KeyValue>, read_point: u64) -> (r: bool)
    ensures
        r == visible(c@, opt_view(*start), opt_view(*end), read_point),
{
    if c.write_num > read_point {
        return false;
    }
    let after_start = match start {
        Some(s) => s.compare(c) <= 0,
        None => true,
    };
    let before_end = match end {
        Some(e) => c.compare(e) <= 0,
        None => true,
    };
    after_start && before_end
}

/// Keeps, in order, the cells that lie in `[start, end]` and are visible at `read_point`.
pub fn filter_visible(
    cells: Vec<KeyValue>,
    start: &Option<KeyValue>,
    end: &Option<KeyValue>,
    read_point: u64,
) -> (r: Vec<KeyValue>)
    ensures
        views(r@) == visible_prefix(views(cells@), opt_view(*start), opt_view(*end), read_point, cells@.len() as int),
{
    let ghost s = views(cells@);
    let mut out: Vec<KeyValue> = Vec::new();
    let mut i: usize = 0;
    assert(views(out@) =~= visible_prefix(s, opt_view(*start), opt_view(*end), read_point, 0));
    while i < cells.len()
        invariant
            s == views(cells@),
            i <= cells@.len(),
            views(out@) == visible_prefix(s, opt_view(*start), opt_view(*end), read_point, i as int),
        decreases cells.len() - i,
    {
        assert(s[i as int] == cells@[i as int]@);
        if visible_exec(&cells[i], start, end, read_point) {
            out.push(cells[i].clone());
        }
        assert(views(out@) =~= visible_prefix(s, opt_view(*start), opt_view(*end), read_point, i + 1));
        i = i + 1;
    }
    out
}

fn clone_bound(o: &Option<KeyValue>) -> (r: Option<KeyValue>)
    ensures
        opt_view(r) == opt_view(*o),
{
    match o {
        Some(k) => Some(k.clone()),
        None => None,
    }
}

/// Merges the cells loaded from a family's segments, one run per segment,
/// with its memtable: the result holds exactly the visible cells in
/// `[start, end]` of all of them, sorted. Fails when a source is out of order.
pub fn merge_sources(
    loaded: Vec<Vec<KeyValue>>,
    memtable: &Vec<KeyValue>,
    start: &Option<KeyValue>,
    end: &Option<KeyValue>,
    read_point: u64,
) -> (r: Result<Vec<KeyValue>, ScanError>)
    ensures
        r is Err <==> (exists|i: int| 0 <= i < loaded@.len() && !#[trigger] sorted(views(loaded@[i]@))) || !sorted(
            views(memtable@),
        ),
        r matches Err(e) ==> e is OutOfOrder,
        r is Ok ==> sorted(views(r->Ok_0@)),
        r is Ok ==> forall|c: CellView|
            #[trigger] views(r->Ok_0@).contains(c) <==> (in_runs(loaded@, c) || views(memtable@).contains(c))
                && visible(c, opt_view(*start), opt_view(*end), read_point),
{
    let ghost all = loaded@;
    let mut rest = loaded;
    let ghost mut taken: int = 0;
    let mut runs: Vec<Vec<KeyValue>> = Vec::new();
    while rest.len() > 0
        invariant
            0 <= taken <= all.len(),
            all == loaded@,
            rest@ == all.subrange(taken, all.len() as int),
            runs@.len() == taken,
            forall|i: int| 0 <= i < taken ==> #[trigger] sorted(views(all[i]@)),
            forall|i: int| 0 <= i < runs@.len() ==> #[trigger] sorted(views(runs@[i]@)),
            forall|i: int, c: CellView|
                0 <= i < runs@.len() ==> (#[trigger] views(runs@[i]@).contains(c) <==> views(all[i]@).contains(c)
                    && visible(c, opt_view(*start), opt_view(*end), read_point)),
        decreases rest.len(),
    {
        let source = rest.remove(0);
        let ghost src = source@;
        assert(src == all[taken].view());
        match keep_sorted_visible(source, start, end, read_point) {
            Some(v) => {
                runs.push(v);
            },
            None => {
                assert(!sorted(views(all[taken]@)));
                assert(all == loaded@);
                assert(!sorted(views(loaded@[taken]@)));
                return Err(ScanError::OutOfOrder);
            },
        }
        proof {
            taken = taken + 1;
            assert(rest@ =~= all.subrange(taken, all.len() as int));
        }
    }
    assert(taken == all.len());
    let mut mem: Vec<KeyValue> = Vec::new();
    let mut mi: usize = 0;
    while mi < memtable.len()
        invariant
            mi <= memtable@.len(),
            views(mem@) == views(memtable@).subrange(0, mi as int),
        decreases memtable.len() - mi,
    {
        let c = memtable[mi].clone();
        assert(c@ == views(memtable@)[mi as int]);
        let ghost before = mem@;
        mem.push(c);
        assert(views(mem@) =~= views(before).push(c@));
        mi = mi + 1;
        assert(views(mem@) =~= views(memtable@).subrange(0, mi as int));
    }
    assert(views(mem@) =~= views(memtable@));
    let ghost n = runs@.len();
    match keep_sorted_visible(mem, start, end, read_point) {
        Some(v) => {
            runs.push(v);
        },
        None => {
            return Err(ScanError::OutOfOrder);
        },
    }
    let ghost rs = runs@;
    let merged = merge_runs(runs);
    proof {
        assert forall|c: CellView|
            #[trigger] views(merged@).contains(c) <==> (in_runs(all, c) || views(memtable@).contains(c))
                && visible(c, opt_view(*start), opt_view(*end), read_point) by {
            if views(merged@).contains(c) {
                assert(in_runs(rs, c));
                let i = choose|i: int| 0 <= i < rs.len() && #[trigger] views(rs[i]@).contains(c);
                if i < n {
                    assert(views(all[i]@).contains(c));
                    assert(in_runs(all, c));
                }
            }
            if in_runs(all, c) && visible(c, opt_view(*start), opt_view(*end), read_point) {
                let i = choose|i: int| 0 <= i < all.len() && #[trigger] views(all[i]@).contains(c);
                assert(views(rs[i]@).contains(c));
                assert(in_runs(rs, c));
            }
            if views(memtable@).contains(c) && visible(c, opt_view(*start), opt_view(*end), read_point) {
                assert(views(rs[n as int]@).contains(c));
                assert(in_runs(rs, c));
            }
        }
    }
    Ok(merged)
}

/// A column family: its segments and its memtable.
pub struct TableFamily {
    pub id: u64,
    pub name: Vec<u8>,
    pub segments: Vec<SSTable>,
    pub memtable: Vec<KeyValue>,
}

impl TableFamily {
    pub fn new(id: u64, name: Vec<u8>) -> (r: TableFamily)
        ensures
            r.id == id,
            r.name@ == name@,
            r.segments@.len() == 0,
            r.memtable@.len() == 0,
    {
        TableFamily { id, name, segments: Vec::new(), memtable: Vec::new() }
    }

    pub fn new_from_segments_vec(id: u64, name: Vec<u8>, segments: Vec<SSTable>) -> (r: TableFamily)
        ensures
            r.id == id,
            r.name@ == name@,
            r.segments@ == segments@,
            r.memtable@.len() == 0,
    {
        TableFamily { id, name, segments, memtable: Vec::new() }
    }

    /// Inserts a cell into the memtable ahead of every cell that is not below
    /// it, so a sorted memtable stays sorted.
    pub fn put(&mut self, cell: KeyValue)
        ensures
            exists|p: int| 0 <= p <= old(self).memtable@.len() && final(self).memtable@ == old(self).memtable@.insert(p, cell),
            sorted(views(old(self).memtable@)) ==> sorted(views(final(self).memtable@)),
            final(self).id == old(self).id,
            final(self).name == old(self).name,
            final(self).segments == old(self).segments,
    {
        let ghost s = views(self.memtable@);
        let mut p: usize = 0;
        while p < self.memtable.len() && self.memtable[p].less_than(&cell)
            invariant
                p <= self.memtable@.len(),
                s == views(self.memtable@),
                p > 0 ==> cell_lt(s[p - 1], cell@),
            decreases self.memtable.len() - p,
        {
            p = p + 1;
        }
        let ghost c = cell@;
        self.memtable.insert(p, cell);
        proof {
            let t = views(self.memtable@);
            assert(t =~= s.insert(p as int, c));
            if sorted(s) {
                if p < s.len() {
                    lemma_cell_cmp_antisym(s[p as int], c);
                }
                assert forall|i: int| 0 <= i < t.len() - 1 implies cell_le(#[trigger] t[i], t[i + 1]) by {
                    if i + 1 < p {
                        assert(t[i] == s[i] && t[i + 1] == s[i + 1]);
                    } else if i > p {
                        assert(t[i] == s[i - 1] && t[i + 1] == s[i]);
                    }
                }
            }
        }
    }

    /// Collects, for each segment and for the memtable, the cells in
    /// `[start, end]` that are visible at `read_point`, and merges them into
    /// one sorted stream. Fails when a block cannot be loaded or a source is
    /// out of order.
    pub fn scan<P: PersistanceLayer>(
        &self,
        persistance: &P,
        start: &Option<KeyValue>,
        end: &Option<KeyValue>,
        read_point: u64,
    ) -> (r: Result<Vec<KeyValue>, ScanError>)
        ensures
            r is Ok ==> sorted(views(r->Ok_0@)) && forall|c: CellView| #[trigger] views(r->Ok_0@).contains(c)
                ==> visible(c, opt_view(*start), opt_view(*end), read_point),
            r is Ok ==> forall|c: CellView|
                #[trigger] views(self.memtable@).contains(c) && visible(c, opt_view(*start), opt_view(*end), read_point)
                    ==> views(r->Ok_0@).contains(c),
            r is Ok ==> forall|c: CellView| #[trigger] views(r->Ok_0@).contains(c)
                ==> self.segments@.len() > 0 || views(self.memtable@).contains(c),
            !sorted(views(self.memtable@)) ==> r is Err,
            self.segments@.len() == 0 && sorted(views(self.memtable@)) ==> r is Ok,
    {
        let mut loaded: Vec<Vec<KeyValue>> = Vec::new();
        let mut si: usize = 0;
        while si < self.segments.len()
            invariant
                si <= self.segments@.len(),
                loaded@.len() == si,
            decreases self.segments.len() - si,
        {
            let seg = &self.segments[si];
            let blocks = seg.get_blocks(clone_bound(start), clone_bound(end));
            let mut run: Vec<KeyValue> = Vec::new();
            let mut bi: usize = 0;
            while bi < blocks.len()
                invariant
                    si < self.segments@.len(),
                decreases blocks.len() - bi,
            {
                match persistance.load_block(&seg.table, &seg.family, &seg.segment, blocks[bi]) {
                    Ok(cells) => {
                        let mut cells = cells;
                        run.append(&mut cells);
                    },
                    Err(e) => {
                        return Err(ScanError::Persistence(e));
                    },
                }
                bi = bi + 1;
            }
            loaded.push(run);
            si = si + 1;
        }
        let r = merge_sources(loaded, &self.memtable, start, end, read_point);
        proof {
            if r is Ok && self.segments@.len() == 0 {
                assert forall|c: CellView| #[trigger] views(r->Ok_0@).contains(c) implies views(self.memtable@).contains(c) by {
                    if in_runs(loaded@, c) {
                        let i = choose|i: int| 0 <= i < loaded@.len() && #[trigger] views(loaded@[i]@).contains(c);
                    }
                }
            }
        }
        r
    }
}

/// The visible cells of a source in `[start, end]`, in order, or `None` when
/// the source is out of order.
pub fn keep_sorted_visible(
    cells: Vec<KeyValue>,
    start: &Option<KeyValue>,
    end: &Option<KeyValue>,
    read_point: u64,
) -> (r: Option<Vec<KeyValue>>)
    ensures
        r is None <==> !sorted(views(cells@)),
        r matches Some(v) ==> sorted(views(v@)) && forall|c: CellView| #[trigger] views(v@).contains(c)
            ==> visible(c, opt_view(*start), opt_view(*end), read_point),
        r matches Some(v) ==> forall|c: CellView|
            #[trigger] views(cells@).contains(c) && visible(c, opt_view(*start), opt_view(*end), read_point)
                ==> views(v@).contains(c),
        r matches Some(v) ==> forall|c: CellView| #[trigger] views(v@).contains(c) ==> views(cells@).contains(c),
{
    if !is_sorted(&cells) {
        return None;
    }
    let ghost s = views(cells@);
    let ghost n = cells@.len() as int;
    let v = filter_visible(cells, start, end, read_point);
    proof {
        lemma_visible_prefix_sorted(s, opt_view(*start), opt_view(*end), read_point, n);
        assert forall|c: CellView| #[trigger] views(v@).contains(c) implies visible(
            c,
            opt_view(*start),
            opt_view(*end),
            read_point,
        ) by {
            let t = choose|t: int| 0 <= t < views(v@).len() && views(v@)[t] == c;
            assert(visible(visible_prefix(s, opt_view(*start), opt_view(*end), read_point, n)[t], opt_view(*start), opt_view(*end), read_point));
        }
        assert forall|c: CellView|
            #[trigger] s.contains(c) && visible(c, opt_view(*start), opt_view(*end), read_point)
                implies views(v@).contains(c) by {
            let j = choose|j: int| 0 <= j < s.len() && s[j] == c;
            lemma_visible_prefix_complete(s, opt_view(*start), opt_view(*end), read_point, n, j);
        }
    }
    Some(v)
}

} // verus!
