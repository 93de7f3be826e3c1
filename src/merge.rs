use vstd::prelude::*;
use crate::cell::{
    CellType, CellView, KeyValue, bytes_equal, cell_le, cell_lt, is_delete_type,
    lemma_cell_cmp_antisym, lemma_cell_cmp_trans, sorted, strictly_sorted,
};
use crate::delete_tracker::{DeleteTracker, dominates};

verus! {

/// The values of a sequence of cells.
pub open spec fn views(v: Seq<KeyValue>) -> Seq<CellView> {
    v.map_values(|k: KeyValue| k@)
}

/// Every cell between `j` and `i` (either way round) lies in the row of cell `i`.
pub open spec fn same_row_run(s: Seq<CellView>, j: int, i: int) -> bool {
    forall|k: int| (j <= k <= i || i <= k <= j) ==> (#[trigger] s[k]).row == s[i].row
}

/// Cell `i` is masked by a tombstone of its row: a tombstone anywhere in the
/// run of cells around it that share its row.
#[verifier::opaque]
pub open spec fn masked(s: Seq<CellView>, i: int) -> bool {
    exists|j: int| 0 <= j < s.len() && same_row_run(s, j, i) && dominates(#[trigger] s[j], s[i])
}

/// Cell `i` repeats the cell before it.
pub open spec fn is_duplicate(s: Seq<CellView>, i: int) -> bool {
    i > 0 && s[i - 1] == s[i]
}

/// Cell `i` of a merged stream reaches the reader.
pub open spec fn emitted(s: Seq<CellView>, i: int) -> bool {
    s[i].cell_type == CellType::Put && !is_duplicate(s, i) && !masked(s, i)
}

/// What the reader sees of the first `n` cells of a merged stream.
pub open spec fn live_prefix(s: Seq<CellView>, n: int) -> Seq<CellView>
    decreases n,
{
    if n <= 0 {
        Seq::empty()
    } else if emitted(s, n - 1) {
        live_prefix(s, n - 1).push(s[n - 1])
    } else {
        live_prefix(s, n - 1)
    }
}

/// What the reader sees of a merged stream.
pub open spec fn live(s: Seq<CellView>) -> Seq<CellView> {
    live_prefix(s, s.len() as int)
}

/// `d` is a tombstone among the cells from `lo` up to `hi`.
pub open spec fn delete_in(s: Seq<CellView>, lo: int, hi: int, d: CellView) -> bool {
    exists|j: int| lo <= j < hi && #[trigger] s[j] == d && is_delete_type(d.cell_type)
}

/// Cell `c` stands in one of the runs.
pub open spec fn in_runs(runs: Seq<Vec<KeyValue>>, c: CellView) -> bool {
    exists|i: int| 0 <= i < runs.len() && #[trigger] views(runs[i]@).contains(c)
}

/// Relies on itertools::kmerge_by: it hands out every item of every run
/// once, picking the least head by the given predicate, so runs sorted by the
/// cell order merge into one sorted sequence.
#[verifier::external_body]
fn kmerge_cells(runs: Vec<Vec<KeyValue>>) -> (r: Vec<KeyValue>)
    ensures
        forall|c: CellView| #[trigger] views(r@).contains(c) <==> in_runs(runs@, c),
        (forall|i: int| 0 <= i < runs@.len() ==> #[trigger] sorted(views(runs@[i]@))) ==> sorted(
            views(r@),
        ),
{
    itertools::kmerge_by(runs, |a: &KeyValue, b: &KeyValue| a.less_than(b)).collect()
}

/// Merges sorted runs of cells into one sorted sequence holding each of their cells.
pub fn merge_runs(runs: Vec<Vec<KeyValue>>) -> (r: Vec<KeyValue>)
    requires
        forall|i: int| 0 <= i < runs@.len() ==> #[trigger] sorted(views(runs@[i]@)),
    ensures
        forall|c: CellView| #[trigger] views(r@).contains(c) <==> in_runs(runs@, c),
        sorted(views(r@)),
{
    kmerge_cells(runs)
}

/// True when each cell is at most the next one.
pub fn is_sorted(v: &Vec<KeyValue>) -> (r: bool)
    ensures
        r == sorted(views(v@)),
{
    let mut i: usize = 1;
    while i < v.len()
        invariant
            1 <= i,
            forall|k: int| 0 <= k < i - 1 && k < v@.len() - 1 ==> cell_le(#[trigger] views(v@)[k], views(v@)[k + 1]),
        decreases v.len() - i,
    {
        if v[i - 1].compare(&v[i]) > 0 {
            assert(!cell_le(views(v@)[i - 1], views(v@)[i as int]));
            return false;
        }
        i = i + 1;
    }
    true
}

/// Runs a merged stream through a tombstone tracker, one row at a time: the
/// tracker first takes every tombstone of the row, then tombstones and
/// repeated cells are dropped, and so is every value that a tombstone of its
/// row masks.
pub fn live_cells(merged: Vec<KeyValue>) -> (r: Vec<KeyValue>)
    ensures
        views(r@) == live(views(merged@)),
{
    let ghost s = views(merged@);
    let mut out: Vec<KeyValue> = Vec::new();
    let mut tracker = DeleteTracker::new();
    let mut i: usize = 0;
    assert(views(out@) =~= live_prefix(s, 0));
    while i < merged.len()
        invariant
            s == views(merged@),
            i <= merged@.len(),
            views(out@) == live_prefix(s, i as int),
            0 < i < s.len() ==> s[i - 1].row != s[i as int].row,
        decreases merged.len() - i,
    {
        assert(s[i as int] == merged@[i as int]@);
        let mut j: usize = i + 1;
        while j < merged.len() && bytes_equal(&merged[j].row, &merged[i].row)
            invariant
                s == views(merged@),
                i < j <= merged@.len(),
                forall|k: int| i <= k < j ==> (#[trigger] s[k]).row == s[i as int].row,
            decreases merged.len() - j,
        {
            assert(s[j as int] == merged@[j as int]@);
            j = j + 1;
        }
        proof {
            if j < merged@.len() {
                assert(s[j as int] == merged@[j as int]@);
            }
        }
        tracker.reset();
        let mut k: usize = i;
        while k < j
            invariant
                s == views(merged@),
                i <= k <= j <= merged@.len(),
                forall|t: int| 0 <= t < tracker@.len() ==> delete_in(s, i as int, k as int, #[trigger] tracker@[t]),
                forall|m: int|
                    i <= m < k && is_delete_type((#[trigger] s[m]).cell_type) ==> exists|t: int|
                        0 <= t < tracker@.len() && tracker@[t] == s[m],
            decreases j - k,
        {
            let ghost tr0 = tracker@;
            assert(s[k as int] == merged@[k as int]@);
            tracker.add(&merged[k]);
            proof {
                assert forall|t: int| 0 <= t < tracker@.len() implies delete_in(s, i as int, k + 1, #[trigger] tracker@[t]) by {
                    if t < tr0.len() {
                        assert(tracker@[t] == tr0[t]);
                        assert(delete_in(s, i as int, k as int, tr0[t]));
                    } else {
                        assert(tracker@[t] == s[k as int]);
                    }
                }
                assert forall|m: int|
                    i <= m < k + 1 && is_delete_type((#[trigger] s[m]).cell_type) implies exists|t: int|
                        0 <= t < tracker@.len() && tracker@[t] == s[m] by {
                    if m == k {
                        assert(tracker@[tracker@.len() - 1] == s[m]);
                    } else {
                        let t = choose|t: int| 0 <= t < tr0.len() && tr0[t] == s[m];
                        assert(tracker@[t] == tr0[t]);
                    }
                }
            }
            k = k + 1;
        }
        let mut k: usize = i;
        while k < j
            invariant
                s == views(merged@),
                i <= k <= j <= merged@.len(),
                views(out@) == live_prefix(s, k as int),
                0 < i < s.len() ==> s[i - 1].row != s[i as int].row,
                forall|m: int| i <= m < j ==> (#[trigger] s[m]).row == s[i as int].row,
                j < s.len() ==> s[j as int].row != s[i as int].row,
                forall|t: int| 0 <= t < tracker@.len() ==> delete_in(s, i as int, j as int, #[trigger] tracker@[t]),
                forall|m: int|
                    i <= m < j && is_delete_type((#[trigger] s[m]).cell_type) ==> exists|t: int|
                        0 <= t < tracker@.len() && tracker@[t] == s[m],
            decreases j - k,
        {
            let cell = &merged[k];
            let ghost kk = k as int;
            assert(s[kk] == cell@);
            let is_put = matches!(cell.cell_type, CellType::Put);
            let dup = k > 0 && merged[k - 1].compare(cell) == 0;
            proof {
                if k > 0 {
                    assert(s[kk - 1] == merged@[kk - 1]@);
                    lemma_cell_cmp_antisym(s[kk - 1], s[kk]);
                }
            }
            let deleted = tracker.is_deleted(cell);
            proof {
                reveal(masked);
                if is_put {
                    if masked(s, kk) {
                        let m = choose|m: int| 0 <= m < s.len() && same_row_run(s, m, kk) && dominates(#[trigger] s[m], s[kk]);
                        if m < i {
                            assert(s[i - 1].row == s[kk].row);
                            assert(s[i as int].row == s[kk].row);
                        }
                        if m >= j {
                            assert(s[j as int].row == s[kk].row);
                        }
                        assert(is_delete_type(s[m].cell_type));
                        let t = choose|t: int| 0 <= t < tracker@.len() && tracker@[t] == s[m];
                        assert(dominates(tracker@[t], cell@));
                    }
                    if deleted {
                        let t = choose|t: int| 0 <= t < tracker@.len() && dominates(#[trigger] tracker@[t], cell@);
                        assert(delete_in(s, i as int, j as int, tracker@[t]));
                        let m = choose|m: int|
                            i <= m < j && #[trigger] s[m] == tracker@[t] && is_delete_type(tracker@[t].cell_type);
                        assert forall|q: int| (m <= q <= kk || kk <= q <= m) implies (#[trigger] s[q]).row == s[kk].row by {
                            assert(s[q].row == s[i as int].row);
                        }
                        assert(same_row_run(s, m, kk));
                    }
                }
            }
            if is_put && !dup && !deleted {
                out.push(cell.clone());
            }
            proof {
                assert(emitted(s, kk) == (is_put && !dup && !deleted));
                assert(views(out@) =~= live_prefix(s, kk + 1));
            }
            k = k + 1;
        }
        i = j;
    }
    assert(s.len() == merged@.len());
    out
}

/// In a sorted sequence every cell is at most every later one.
pub proof fn lemma_sorted_le(s: Seq<CellView>, j: int, m: int)
    requires
        sorted(s),
        0 <= j <= m < s.len(),
    ensures
        cell_le(s[j], s[m]),
    decreases m - j,
{
    if j == m {
        lemma_cell_cmp_antisym(s[j], s[m]);
    } else {
        lemma_sorted_le(s, j, m - 1);
        assert(cell_le(s[m - 1], s[m]));
        lemma_cell_cmp_trans(s[j], s[m - 1], s[m]);
    }
}

/// Every cell the reader sees is an emitted cell of the stream, and the last
/// one comes from before the end of the prefix.
pub proof fn lemma_live_from_stream(s: Seq<CellView>, n: int)
    requires
        0 <= n <= s.len(),
    ensures
        forall|t: int|
            0 <= t < live_prefix(s, n).len() ==> exists|j: int|
                0 <= j < n && #[trigger] live_prefix(s, n)[t] == s[j] && emitted(s, j),
        live_prefix(s, n).len() > 0 ==> exists|j: int|
            0 <= j < n && live_prefix(s, n).last() == #[trigger] s[j] && emitted(s, j),
    decreases n,
{
    if n > 0 {
        lemma_live_from_stream(s, n - 1);
        let p = live_prefix(s, n - 1);
        if emitted(s, n - 1) {
            assert forall|t: int|
                0 <= t < live_prefix(s, n).len() implies exists|j: int|
                    0 <= j < n && #[trigger] live_prefix(s, n)[t] == s[j] && emitted(s, j) by {
                if t < p.len() {
                    assert(live_prefix(s, n)[t] == p[t]);
                } else {
                    assert(live_prefix(s, n)[t] == s[n - 1]);
                }
            }
            assert(live_prefix(s, n).last() == s[n - 1]);
        }
    }
}

/// A sorted stream gives the reader a strictly increasing sequence.
pub proof fn lemma_live_strictly_sorted(s: Seq<CellView>, n: int)
    requires
        sorted(s),
        0 <= n <= s.len(),
    ensures
        strictly_sorted(live_prefix(s, n)),
    decreases n,
{
    if n > 0 {
        lemma_live_strictly_sorted(s, n - 1);
        let p = live_prefix(s, n - 1);
        if emitted(s, n - 1) && p.len() > 0 {
            lemma_live_from_stream(s, n - 1);
            let j = choose|j: int| 0 <= j < n - 1 && p.last() == #[trigger] s[j] && emitted(s, j);
            lemma_sorted_le(s, j, n - 1);
            lemma_cell_cmp_antisym(s[j], s[n - 1]);
            if s[j] == s[n - 1] {
                lemma_sorted_le(s, j, n - 2);
                lemma_cell_cmp_antisym(s[j], s[n - 2]);
                assert(cell_le(s[n - 2], s[n - 1]));
                assert(s[n - 2] == s[n - 1]);
            }
            assert(cell_lt(p.last(), s[n - 1]));
            let q = live_prefix(s, n);
            assert forall|i: int| 0 <= i < q.len() - 1 implies cell_lt(#[trigger] q[i], q[i + 1]) by {
                if i < p.len() - 1 {
                    assert(q[i] == p[i] && q[i + 1] == p[i + 1]);
                } else {
                    assert(q[i] == p.last());
                }
            }
        }
    }
}

/// A cell the stream emits stays in what the reader sees of every longer prefix.
pub proof fn lemma_emitted_in_live(s: Seq<CellView>, i: int, n: int)
    requires
        0 <= i < n <= s.len(),
        emitted(s, i),
    ensures
        live_prefix(s, n).contains(s[i]),
    decreases n - i,
{
    if n == i + 1 {
        assert(live_prefix(s, n).last() == s[i]);
    } else {
        lemma_emitted_in_live(s, i, n - 1);
        let p = live_prefix(s, n - 1);
        let k = choose|k: int| 0 <= k < p.len() && p[k] == s[i];
        assert(live_prefix(s, n)[k] == s[i]);
    }
}

proof fn lemma_unmasked_put_reaches_reader(s: Seq<CellView>, i: int)
    requires
        0 <= i < s.len(),
        s[i].cell_type == CellType::Put,
        forall|j: int| 0 <= j < s.len() ==> !dominates(#[trigger] s[j], s[i]),
    ensures
        live(s).contains(s[i]),
    decreases i,
{
    if i > 0 && s[i - 1] == s[i] {
        lemma_unmasked_put_reaches_reader(s, i - 1);
    } else {
        reveal(masked);
        lemma_emitted_in_live(s, i, s.len() as int);
    }
}

/// Tombstone masking: in a stream of one row, the reader sees exactly the
/// values of the stream that no tombstone of the stream masks.
pub proof fn lemma_tombstone_masking(s: Seq<CellView>, c: CellView)
    requires
        forall|i: int, j: int| 0 <= i < s.len() && 0 <= j < s.len() ==> (#[trigger] s[i]).row == (#[trigger] s[j]).row,
    ensures
        live(s).contains(c) <==> (s.contains(c) && c.cell_type == CellType::Put && forall|j: int|
            0 <= j < s.len() ==> !dominates(#[trigger] s[j], c)),
{
    if live(s).contains(c) {
        lemma_live_from_stream(s, s.len() as int);
        let t = choose|t: int| 0 <= t < live(s).len() && live(s)[t] == c;
        let i = choose|i: int| 0 <= i < s.len() && #[trigger] live(s)[t] == s[i] && emitted(s, i);
        assert forall|j: int| 0 <= j < s.len() implies !dominates(#[trigger] s[j], c) by {
            if dominates(s[j], s[i]) {
                assert forall|k: int| (j <= k <= i || i <= k <= j) implies (#[trigger] s[k]).row == s[i].row by {
                    assert(s[k].row == s[i].row);
                }
                assert(same_row_run(s, j, i));
                reveal(masked);
                assert(masked(s, i));
            }
        }
        assert(s.contains(c));
    }
    if s.contains(c) && c.cell_type == CellType::Put && forall|j: int|
        0 <= j < s.len() ==> !dominates(#[trigger] s[j], c) {
        let i = choose|i: int| 0 <= i < s.len() && s[i] == c;
        lemma_unmasked_put_reaches_reader(s, i);
    }
}

/// A strictly increasing stream of values, none masked, reaches the reader
/// whole: what was stored is what is read.
pub proof fn lemma_live_keeps_unmasked_puts(s: Seq<CellView>)
    requires
        strictly_sorted(s),
        forall|i: int| 0 <= i < s.len() ==> (#[trigger] s[i]).cell_type == CellType::Put,
    ensures
        live(s) == s,
{
    assert forall|n: int| 0 <= n <= s.len() implies #[trigger] live_prefix(s, n) == s.subrange(0, n) by {
        lemma_live_prefix_whole(s, n);
    }
    assert(s.subrange(0, s.len() as int) =~= s);
}

proof fn lemma_live_prefix_whole(s: Seq<CellView>, n: int)
    requires
        strictly_sorted(s),
        forall|i: int| 0 <= i < s.len() ==> (#[trigger] s[i]).cell_type == CellType::Put,
        0 <= n <= s.len(),
    ensures
        live_prefix(s, n) == s.subrange(0, n),
    decreases n,
{
    if n == 0 {
        assert(live_prefix(s, 0) =~= s.subrange(0, 0));
    } else {
        lemma_live_prefix_whole(s, n - 1);
        if n >= 2 {
            assert(cell_lt(s[n - 2], s[n - 1]));
            lemma_cell_cmp_antisym(s[n - 2], s[n - 1]);
        }
        reveal(masked);
        assert(!masked(s, n - 1));
        assert(emitted(s, n - 1));
        assert(live_prefix(s, n) =~= s.subrange(0, n));
    }
}

} // verus!
