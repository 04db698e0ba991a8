//! The physical grid of the XLSX export and the merges it carries.
//!
//! When rows are laid out on different column sets, "the second column"
//! of a header and of a table body are different places. The platform
//! merges the sets into one grid by the union of their boundaries, and a
//! logical cell takes several physical columns.

use vstd::prelude::*;
use crate::groups::{increasing, set_bounds, set_fits};
use crate::model::{Merge, SpreadDocData};

verus! {

/// Where the first element not below `x` is: the partition point of a
/// sorted sequence.
pub open spec fn count_below(g: Seq<i64>, x: i64) -> int
    decreases g.len(),
{
    if g.len() == 0 {
        0
    } else if g[0] < x {
        1 + count_below(g.drop_first(), x)
    } else {
        0
    }
}

/// The set a row is bound to: the last binding of that row.
pub open spec fn binding_of(bs: Seq<(u32, u32)>, row: u32) -> Option<u32>
    decreases bs.len(),
{
    if bs.len() == 0 {
        None
    } else if bs.last().0 == row {
        Some(bs.last().1)
    } else {
        binding_of(bs.drop_last(), row)
    }
}

pub open spec fn sat_sub1(x: u32) -> u32 {
    if x == 0 {
        0
    } else {
        (x - 1) as u32
    }
}

/// The first and last physical columns of a logical cell; without column
/// sets (or without a binding, or past the set) it is the column itself.
pub open spec fn span_of(grid: Seq<i64>, bounds: Seq<Seq<i64>>, bs: Seq<(u32, u32)>, row: u32, col: u32) -> (u32, u32) {
    if grid.len() == 0 {
        (col, col)
    } else {
        match binding_of(bs, row) {
            None => (col, col),
            Some(set) => if set as int >= bounds.len() || col as int + 1 >= bounds[set as int].len() {
                (col, col)
            } else {
                let b = bounds[set as int];
                let first = count_below(grid, b[col as int]) as u32;
                let last = sat_sub1(count_below(grid, b[col + 1]) as u32);
                (first, if last >= first { last } else { first })
            },
        }
    }
}

/// The layout, computed once per document.
#[derive(Debug)]
pub struct Layout {
    pub grid: Vec<i64>,
    /// The boundaries of every column set.
    pub bounds: Vec<Vec<i64>>,
    /// Rows bound to sets, `(row, set)`.
    pub bindings: Vec<(u32, u32)>,
}

impl Layout {
    pub open spec fn bounds_view(&self) -> Seq<Seq<i64>> {
        self.bounds@.map_values(|b: Vec<i64>| b@)
    }

    pub open spec fn of(&self, doc: &SpreadDocData) -> bool {
        &&& increasing(self.grid@)
        &&& doc.column_sets@.len() == 0 ==> self.grid@.len() == 0
        &&& doc.column_sets@.len() > 0 ==> forall|x: i64| self.grid@.contains(x) <==> doc.grid_points().contains(x)
        &&& self.bounds_view().len() == doc.column_sets@.len()
        &&& forall|i: int| 0 <= i < doc.column_sets@.len() ==> #[trigger] self.bounds_view()[i] == set_bounds(doc.column_sets@[i])
        &&& self.bindings@ == doc.row_sets@
    }

    pub fn new(doc: &SpreadDocData) -> (l: Layout)
        requires
            doc.grid_fits(),
        ensures
            l.of(doc),
    {
        let grid = doc.physical_grid();
        let mut bounds: Vec<Vec<i64>> = Vec::new();
        let mut i: usize = 0;
        while i < doc.column_sets.len()
            invariant
                doc.grid_fits(),
                i <= doc.column_sets@.len(),
                bounds@.len() == i,
                forall|j: int| 0 <= j < i ==> #[trigger] bounds@[j]@ == set_bounds(doc.column_sets@[j]),
            decreases doc.column_sets@.len() - i,
        {
            proof {
                assert(set_fits(doc.column_sets@[i as int]));
            }
            let b = doc.column_sets[i].boundaries();
            bounds.push(b);
            i = i + 1;
        }
        let mut bindings: Vec<(u32, u32)> = Vec::new();
        let mut k: usize = 0;
        while k < doc.row_sets.len()
            invariant
                k <= doc.row_sets@.len(),
                bindings@ == doc.row_sets@.take(k as int),
            decreases doc.row_sets@.len() - k,
        {
            bindings.push(doc.row_sets[k]);
            proof {
                assert(bindings@ =~= doc.row_sets@.take(k + 1));
            }
            k = k + 1;
        }
        proof {
            assert(doc.row_sets@.take(doc.row_sets@.len() as int) =~= doc.row_sets@);
        }
        let l = Layout { grid, bounds, bindings };
        proof {
            assert forall|j: int| 0 <= j < doc.column_sets@.len() implies #[trigger] l.bounds_view()[j] == set_bounds(
                doc.column_sets@[j],
            ) by {
                assert(l.bounds_view()[j] == l.bounds@[j]@);
            }
        }
        l
    }

    fn partition(g: &Vec<i64>, x: i64) -> (r: usize)
        ensures
            r == count_below(g@, x),
    {
        let mut i: usize = 0;
        proof {
            assert(g@.skip(0) =~= g@);
        }
        while i < g.len() && g[i] < x
            invariant
                i <= g@.len(),
                count_below(g@, x) == i + count_below(g@.skip(i as int), x),
            decreases g@.len() - i,
        {
            proof {
                assert(g@.skip(i as int).drop_first() =~= g@.skip(i + 1));
                assert(g@.skip(i as int)[0] == g@[i as int]);
            }
            i = i + 1;
        }
        proof {
            if i < g@.len() {
                assert(g@.skip(i as int)[0] == g@[i as int]);
            }
        }
        i
    }

    fn binding(&self, row: u32) -> (r: Option<u32>)
        ensures
            r == binding_of(self.bindings@, row),
    {
        let mut k = self.bindings.len();
        proof {
            assert(self.bindings@.take(k as int) =~= self.bindings@);
        }
        while k > 0
            invariant
                k <= self.bindings@.len(),
                binding_of(self.bindings@, row) == binding_of(self.bindings@.take(k as int), row),
            decreases k,
        {
            proof {
                assert(self.bindings@.take(k as int).drop_last() =~= self.bindings@.take(k - 1));
            }
            if self.bindings[k - 1].0 == row {
                return Some(self.bindings[k - 1].1);
            }
            k = k - 1;
        }
        None
    }

    /// `(first, last)` physical columns of the cell at `(row, col)`.
    pub fn span(&self, row: u32, col: u32) -> (r: (u32, u32))
        ensures
            r == span_of(self.grid@, self.bounds_view(), self.bindings@, row, col),
    {
        if self.grid.len() == 0 {
            return (col, col);
        }
        proof {
            assert(self.bindings@.take(self.bindings@.len() as int) =~= self.bindings@);
        }
        match self.binding(row) {
            None => (col, col),
            Some(set) => {
                if set as usize >= self.bounds.len() {
                    return (col, col);
                }
                let b = &self.bounds[set as usize];
                proof {
                    assert(self.bounds_view()[set as int] == b@);
                }
                if col as usize >= b.len() || b.len() - (col as usize) < 2 {
                    return (col, col);
                }
                let first: u32 = #[verifier::truncate] (Self::partition(&self.grid, b[col as usize]) as u32);
                let p: u32 = #[verifier::truncate] (Self::partition(&self.grid, b[col as usize + 1]) as u32);
                let last = if p == 0 { 0 } else { p - 1 };
                (first, if last >= first { last } else { first })
            },
        }
    }
}

// --- merges -------------------------------------------------------------------------

/// A rectangle `(r1, c1, r2, c2)`.
pub type Quad = (u32, u32, u32, u32);

/// Excel takes neither reversed bounds nor a merge of one cell.
pub open spec fn proper(x: Quad) -> bool {
    !(x.0 > x.2 || x.1 > x.3 || (x.0 == x.2 && x.1 == x.3))
}

pub open spec fn overlap(a: Quad, b: Quad) -> bool {
    a.0 <= b.2 && b.0 <= a.2 && a.1 <= b.3 && b.1 <= a.3
}

pub open spec fn overlaps_any(k: Seq<Quad>, x: Quad) -> bool {
    exists|i: int| 0 <= i < k.len() && overlap(#[trigger] k[i], x)
}

/// The rectangles that reach the workbook: each proper one that does not
/// overlap one kept before it (Excel calls overlaps a damaged file).
pub open spec fn kept(c: Seq<Quad>) -> Seq<Quad>
    decreases c.len(),
{
    if c.len() == 0 {
        Seq::empty()
    } else {
        let k = kept(c.drop_last());
        let x = c.last();
        if proper(x) && !overlaps_any(k, x) {
            k.push(x)
        } else {
            k
        }
    }
}

pub open spec fn min_u32(a: u32, b: u32) -> u32 {
    if a <= b {
        a
    } else {
        b
    }
}

/// A column merge is cancelled in row `r` by an unmerge over its columns.
pub open spec fn cancelled(ms: Seq<Merge>, c1: u32, c2: u32, r: u32) -> bool {
    exists|i: int|
        0 <= i < ms.len() && (#[trigger] ms[i]).unmerge && ms[i].r1 <= r <= ms[i].r2 && ms[i].c1 <= c1 && ms[i].c2
            >= c2
}

/// The pieces of a column merge between the rows where it is cancelled,
/// scanning from row `r`; `start` is the first row of the open piece.
pub open spec fn chunks(ms: Seq<Merge>, c1: u32, c2: u32, r: int, last_row: u32, last_col: u32, start: Option<u32>) -> Seq<Quad>
    decreases last_row + 1 - r,
{
    if r > last_row || r < 0 {
        match start {
            Some(s) => seq![(s, c1, last_row, min_u32(c2, last_col))],
            None => Seq::empty(),
        }
    } else {
        let cz = cancelled(ms, c1, c2, r as u32);
        if !cz && start is None {
            chunks(ms, c1, c2, r + 1, last_row, last_col, Some(r as u32))
        } else if cz && start is Some {
            seq![(start->0, c1, (r - 1) as u32, min_u32(c2, last_col))] + chunks(
                ms,
                c1,
                c2,
                r + 1,
                last_row,
                last_col,
                None,
            )
        } else {
            chunks(ms, c1, c2, r + 1, last_row, last_col, start)
        }
    }
}

/// Plain merges on the physical grid.
pub open spec fn merge_cands(ms: Seq<Merge>, grid: Seq<i64>, bounds: Seq<Seq<i64>>, bs: Seq<(u32, u32)>) -> Seq<Quad>
    decreases ms.len(),
{
    if ms.len() == 0 {
        Seq::empty()
    } else {
        let prev = merge_cands(ms.drop_last(), grid, bounds, bs);
        let m = ms.last();
        if m.unmerge {
            prev
        } else {
            let first = span_of(grid, bounds, bs, m.r1, m.c1).0;
            let last = span_of(grid, bounds, bs, m.r1, m.c2).1;
            prev.push((m.r1, first, m.r2, if last >= first { last } else { first }))
        }
    }
}

pub open spec fn row_cands(rm: Seq<(u32, u32)>, last_row: u32, last_col: u32) -> Seq<Quad> {
    Seq::new(rm.len(), |i: int| (rm[i].0, 0u32, min_u32(rm[i].1, last_row), last_col))
}

pub open spec fn col_cands(ms: Seq<Merge>, cm: Seq<(u32, u32)>, last_row: u32, last_col: u32) -> Seq<Quad>
    decreases cm.len(),
{
    if cm.len() == 0 {
        Seq::empty()
    } else {
        col_cands(ms, cm.drop_last(), last_row, last_col) + chunks(ms, cm.last().0, cm.last().1, 0, last_row, last_col, None)
    }
}

/// The merges of the workbook: merges of rectangles, rows expanded to the
/// full width, columns to the full height and cut where cancelled; then
/// only those Excel accepts.
pub open spec fn merge_rects_of(doc: &SpreadDocData, l: &Layout) -> Seq<Quad> {
    if doc.height == 0 || doc.width == 0 {
        Seq::empty()
    } else {
        let lr = (doc.height - 1) as u32;
        let lc = (doc.width - 1) as u32;
        kept(
            merge_cands(doc.merges@, l.grid@, l.bounds_view(), l.bindings@) + row_cands(doc.row_merges@, lr, lc)
                + col_cands(doc.merges@, doc.col_merges@, lr, lc),
        )
    }
}

fn is_cancelled(ms: &Vec<Merge>, c1: u32, c2: u32, r: u32) -> (b: bool)
    ensures
        b == cancelled(ms@, c1, c2, r),
{
    let mut i: usize = 0;
    while i < ms.len()
        invariant
            i <= ms@.len(),
            forall|j: int|
                0 <= j < i ==> !((#[trigger] ms@[j]).unmerge && ms@[j].r1 <= r <= ms@[j].r2 && ms@[j].c1 <= c1
                    && ms@[j].c2 >= c2),
        decreases ms@.len() - i,
    {
        let m = ms[i];
        if m.unmerge && m.r1 <= r && r <= m.r2 && m.c1 <= c1 && m.c2 >= c2 {
            return true;
        }
        i = i + 1;
    }
    false
}

fn push_chunks(out: &mut Vec<Quad>, ms: &Vec<Merge>, c1: u32, c2: u32, last_row: u32, last_col: u32)
    ensures
        final(out)@ == old(out)@ + chunks(ms@, c1, c2, 0, last_row, last_col, None),
{
    let mut start: Option<u32> = None;
    let mut r: u64 = 0;
    let ghost base = out@;
    while r <= last_row as u64
        invariant
            r <= last_row as u64 + 1,
            start is Some ==> (start->0 as u64) < r,
            out@ + chunks(ms@, c1, c2, r as int, last_row, last_col, start) == base + chunks(
                ms@,
                c1,
                c2,
                0,
                last_row,
                last_col,
                None,
            ),
        decreases last_row as u64 + 1 - r,
    {
        let rr = r as u32;
        let cz = is_cancelled(ms, c1, c2, rr);
        let ghost before = out@;
        let ghost st = start;
        match start {
            None => {
                if !cz {
                    start = Some(rr);
                }
            },
            Some(s) => {
                if cz {
                    out.push((s, c1, rr - 1, if c2 <= last_col { c2 } else { last_col }));
                    start = None;
                    proof {
                        assert(before + chunks(ms@, c1, c2, r as int, last_row, last_col, st) =~= out@ + chunks(
                            ms@,
                            c1,
                            c2,
                            r + 1,
                            last_row,
                            last_col,
                            start,
                        ));
                    }
                }
            },
        }
        r = r + 1;
    }
    if let Some(s) = start {
        out.push((s, c1, last_row, if c2 <= last_col { c2 } else { last_col }));
    }
    proof {
        assert(final(out)@ =~= base + chunks(ms@, c1, c2, 0, last_row, last_col, None));
    }
}

/// `kept` step: the new rectangle goes in if Excel accepts it.
fn keep(k: &mut Vec<Quad>, x: Quad)
    ensures
        final(k)@ == (if proper(x) && !overlaps_any(old(k)@, x) {
            old(k)@.push(x)
        } else {
            old(k)@
        }),
{
    if x.0 > x.2 || x.1 > x.3 || (x.0 == x.2 && x.1 == x.3) {
        return;
    }
    let mut i: usize = 0;
    while i < k.len()
        invariant
            i <= k@.len(),
            k@ == old(k)@,
            forall|j: int| 0 <= j < i ==> !overlap(#[trigger] k@[j], x),
        decreases k@.len() - i,
    {
        let a = k[i];
        if a.0 <= x.2 && x.0 <= a.2 && a.1 <= x.3 && x.1 <= a.3 {
            return;
        }
        i = i + 1;
    }
    k.push(x);
}

/// `merge_rects`: the merges of the document as workbook rectangles.
pub fn merge_rects(doc: &SpreadDocData, layout: &Layout) -> (r: Vec<Quad>)
    ensures
        r@ == merge_rects_of(doc, layout),
{
    let height = doc.height;
    let width = doc.width;
    if height == 0 || width == 0 {
        return Vec::new();
    }
    let last_row = height - 1;
    let last_col = width - 1;
    let mut cands: Vec<Quad> = Vec::new();
    let mut i: usize = 0;
    while i < doc.merges.len()
        invariant
            i <= doc.merges@.len(),
            cands@ == merge_cands(doc.merges@.take(i as int), layout.grid@, layout.bounds_view(), layout.bindings@),
        decreases doc.merges@.len() - i,
    {
        let m = doc.merges[i];
        proof {
            assert(doc.merges@.take(i + 1).drop_last() =~= doc.merges@.take(i as int));
        }
        if !m.unmerge {
            let first = layout.span(m.r1, m.c1).0;
            let last = layout.span(m.r1, m.c2).1;
            cands.push((m.r1, first, m.r2, if last >= first { last } else { first }));
        }
        i = i + 1;
    }
    proof {
        assert(doc.merges@.take(doc.merges@.len() as int) =~= doc.merges@);
    }
    let ghost a = cands@;
    let mut j: usize = 0;
    while j < doc.row_merges.len()
        invariant
            j <= doc.row_merges@.len(),
            cands@ == a + row_cands(doc.row_merges@.take(j as int), last_row, last_col),
        decreases doc.row_merges@.len() - j,
    {
        let (r1, r2) = doc.row_merges[j];
        cands.push((r1, 0, if r2 <= last_row { r2 } else { last_row }, last_col));
        proof {
            assert(cands@ =~= a + row_cands(doc.row_merges@.take(j + 1), last_row, last_col));
        }
        j = j + 1;
    }
    proof {
        assert(doc.row_merges@.take(doc.row_merges@.len() as int) =~= doc.row_merges@);
    }
    let ghost b = cands@;
    let mut k: usize = 0;
    while k < doc.col_merges.len()
        invariant
            k <= doc.col_merges@.len(),
            cands@ == b + col_cands(doc.merges@, doc.col_merges@.take(k as int), last_row, last_col),
        decreases doc.col_merges@.len() - k,
    {
        let (c1, c2) = doc.col_merges[k];
        proof {
            assert(doc.col_merges@.take(k + 1).drop_last() =~= doc.col_merges@.take(k as int));
        }
        push_chunks(&mut cands, &doc.merges, c1, c2, last_row, last_col);
        proof {
            assert(cands@ =~= b + col_cands(doc.merges@, doc.col_merges@.take(k + 1), last_row, last_col));
        }
        k = k + 1;
    }
    proof {
        assert(doc.col_merges@.take(doc.col_merges@.len() as int) =~= doc.col_merges@);
    }
    let ghost all = cands@;
    let mut out: Vec<Quad> = Vec::new();
    let mut t: usize = 0;
    while t < cands.len()
        invariant
            cands@ == all,
            t <= all.len(),
            out@ == kept(all.take(t as int)),
        decreases all.len() - t,
    {
        proof {
            assert(all.take(t + 1).drop_last() =~= all.take(t as int));
        }
        keep(&mut out, cands[t]);
        t = t + 1;
    }
    proof {
        assert(all.take(all.len() as int) =~= all);
    }
    out
}

} // verus!
