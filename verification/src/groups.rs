//! Row groups, column sets and the physical grid.

use vstd::prelude::*;
use crate::keyed::{as_map, sorted};
use crate::model::{ColumnSet, RowGroup, SpreadDocData, max_int};

verus! {

/// Groups are ordered by first row, then by level (outer before inner).
pub open spec fn group_le(a: RowGroup, b: RowGroup) -> bool {
    a.r1 < b.r1 || (a.r1 == b.r1 && a.level <= b.level)
}

/// `t` with `g` placed after every element that does not come after it —
/// the step of a stable insertion sort.
pub open spec fn insert_group(t: Seq<RowGroup>, g: RowGroup) -> Seq<RowGroup>
    decreases t.len(),
{
    if t.len() == 0 {
        seq![g]
    } else if group_le(t.last(), g) {
        t.push(g)
    } else {
        insert_group(t.drop_last(), g).push(t.last())
    }
}

/// A stable sort of groups by first row and level.
pub open spec fn sort_groups(s: Seq<RowGroup>) -> Seq<RowGroup>
    decreases s.len(),
{
    if s.len() == 0 {
        s
    } else {
        insert_group(sort_groups(s.drop_last()), s.last())
    }
}

pub proof fn lemma_insert_len(t: Seq<RowGroup>, g: RowGroup)
    ensures
        insert_group(t, g).len() == t.len() + 1,
    decreases t.len(),
{
    if t.len() > 0 && !group_le(t.last(), g) {
        lemma_insert_len(t.drop_last(), g);
    }
}

/// Sorting keeps the number of groups.
pub proof fn lemma_sort_len(s: Seq<RowGroup>)
    ensures
        sort_groups(s).len() == s.len(),
    decreases s.len(),
{
    if s.len() > 0 {
        lemma_sort_len(s.drop_last());
        lemma_insert_len(sort_groups(s.drop_last()), s.last());
    }
}

/// Where the scan from the end stops.
pub open spec fn insert_point(t: Seq<RowGroup>, g: RowGroup) -> int
    decreases t.len(),
{
    if t.len() == 0 {
        0
    } else if group_le(t.last(), g) {
        t.len() as int
    } else {
        insert_point(t.drop_last(), g)
    }
}

proof fn lemma_insert_group(t: Seq<RowGroup>, g: RowGroup)
    ensures
        0 <= insert_point(t, g) <= t.len(),
        insert_group(t, g) == t.insert(insert_point(t, g), g),
        forall|i: int| insert_point(t, g) <= i < t.len() ==> !group_le(#[trigger] t[i], g),
        insert_point(t, g) > 0 ==> group_le(t[insert_point(t, g) - 1], g),
    decreases t.len(),
{
    if t.len() == 0 {
        assert(seq![g] =~= t.insert(0, g));
    } else if group_le(t.last(), g) {
        assert(t.push(g) =~= t.insert(t.len() as int, g));
    } else {
        lemma_insert_group(t.drop_last(), g);
        let p = insert_point(t.drop_last(), g);
        assert(insert_group(t.drop_last(), g).push(t.last()) =~= t.insert(p, g));
        assert forall|i: int| p <= i < t.len() implies !group_le(#[trigger] t[i], g) by {
            if i < t.len() - 1 {
                assert(t[i] == t.drop_last()[i]);
            }
        }
        if p > 0 {
            assert(t[p - 1] == t.drop_last()[p - 1]);
        }
    }
}

/// Insert a group by the stable order.
fn insert_group_exec(t: &mut Vec<RowGroup>, g: RowGroup)
    ensures
        final(t)@ == insert_group(old(t)@, g),
{
    let mut p = t.len();
    proof {
        lemma_insert_group(t@, g);
    }
    while p > 0 && !(t[p - 1].r1 < g.r1 || (t[p - 1].r1 == g.r1 && t[p - 1].level <= g.level))
        invariant
            p <= t@.len(),
            t@ == old(t)@,
            forall|i: int| p <= i < t@.len() ==> !group_le(#[trigger] t@[i], g),
            0 <= insert_point(t@, g) <= t@.len(),
            forall|i: int| insert_point(t@, g) <= i < t@.len() ==> !group_le(#[trigger] t@[i], g),
            insert_point(t@, g) > 0 ==> group_le(t@[insert_point(t@, g) - 1], g),
            insert_point(t@, g) <= p,
        decreases p,
    {
        p = p - 1;
    }
    proof {
        if p < insert_point(t@, g) {
            assert(false);
        }
        if p > insert_point(t@, g) {
            assert(!group_le(t@[p - 1], g));
        }
        assert(p == insert_point(t@, g));
    }
    t.insert(p, g);
}

impl SpreadDocData {
    /// `НачатьГруппуСтрок`. The bounds are fixed when the group is closed:
    /// until then it is not known how many rows it takes.
    pub fn begin_row_group(&mut self, name: &str, collapsed: bool)
        ensures
            final(self).open_groups@.len() == old(self).open_groups@.len() + 1,
            final(self).open_groups@.drop_last() == old(self).open_groups@,
            final(self).open_groups@.last().0@ == name@,
            final(self).open_groups@.last().1 == collapsed,
            final(self).open_groups@.last().2 == old(self).height,
            final(self).rows == old(self).rows,
            final(self).height == old(self).height,
            final(self).width == old(self).width,
            final(self).row_groups == old(self).row_groups,
            final(self).names == old(self).names,
            final(self).col_widths == old(self).col_widths,
            final(self).merges == old(self).merges,
            final(self).row_merges == old(self).row_merges,
            final(self).col_merges == old(self).col_merges,
            final(self).same_but_groups(old(self)),
            old(self).wf() ==> final(self).wf(),
    {
        let h = self.height;
        self.open_groups.push((name.to_owned(), collapsed, h));
        proof {
            assert(self.open_groups@.drop_last() =~= old(self).open_groups@);
        }
    }

    /// `ЗакончитьГруппуСтрок`: close the innermost open group. Its level is
    /// the number of groups still open around it; its last row the last row
    /// of the document, but never above its first. An extra call does
    /// nothing, as on the platform.
    pub fn end_row_group(&mut self)
        ensures
            old(self).open_groups@.len() == 0 ==> final(self).open_groups@ == old(self).open_groups@
                && final(self).row_groups == old(self).row_groups,
            old(self).open_groups@.len() > 0 ==> ({
                let top = old(self).open_groups@.last();
                let r2 = if old(self).height == 0 { 0 } else { old(self).height - 1 };
                &&& final(self).open_groups@ == old(self).open_groups@.drop_last()
                &&& exists|g: RowGroup| #![trigger old(self).row_groups@.push(g)] {
                    &&& g.r1 == top.2
                    &&& g.r2 == max_int(r2, top.2 as int)
                    &&& g.level == (old(self).open_groups@.len() - 1) as u32
                    &&& g.name@ == top.0@
                    &&& g.collapsed == top.1
                    &&& final(self).row_groups@ == sort_groups(old(self).row_groups@.push(g))
                }
            }),
            final(self).rows == old(self).rows,
            final(self).height == old(self).height,
            final(self).width == old(self).width,
            final(self).names == old(self).names,
            final(self).col_widths == old(self).col_widths,
            final(self).merges == old(self).merges,
            final(self).row_merges == old(self).row_merges,
            final(self).col_merges == old(self).col_merges,
            final(self).same_but_groups(old(self)),
            old(self).wf() ==> final(self).wf(),
    {
        match self.open_groups.pop() {
            None => {},
            Some((name, collapsed, start)) => {
                let level = #[verifier::truncate] (self.open_groups.len() as u32);
                let last = if self.height == 0 { 0 } else { self.height - 1 };
                let g = RowGroup { r1: start, r2: if last > start { last } else { start }, level, name, collapsed };
                let ghost gg = g;
                let mut all: Vec<RowGroup> = Vec::new();
                std::mem::swap(&mut all, &mut self.row_groups);
                all.push(g);
                let ghost input = all@;
                // A stable insertion sort by first row, then level.
                let mut sorted_groups: Vec<RowGroup> = Vec::new();
                let mut taken: usize = 0;
                let n = all.len();
                let mut rest = all;
                proof {
                    assert(input.take(0) =~= Seq::<RowGroup>::empty());
                    assert(rest@ =~= input.skip(0));
                }
                while taken < n
                    invariant
                        n == input.len(),
                        taken <= n,
                        rest@ == input.skip(taken as int),
                        sorted_groups@ == sort_groups(input.take(taken as int)),
                    decreases n - taken,
                {
                    let x = rest.remove(0);
                    proof {
                        assert(x == input[taken as int]);
                        assert(input.take(taken + 1).drop_last() =~= input.take(taken as int));
                        assert(rest@ =~= input.skip(taken + 1));
                    }
                    insert_group_exec(&mut sorted_groups, x);
                    taken = taken + 1;
                }
                proof {
                    assert(input.take(n as int) =~= input);
                    assert(old(self).open_groups@.drop_last() =~= self.open_groups@);
                }
                self.row_groups = sorted_groups;
                proof {
                    assert(input == old(self).row_groups@.push(gg));
                    assert(gg.level == (old(self).open_groups@.len() - 1) as u32);
                    assert(self.row_groups@ == sort_groups(old(self).row_groups@.push(gg)));
                    let top = old(self).open_groups@.last();
                    assert(gg.r1 == top.2);
                    assert(gg.name@ == top.0@);
                    assert(gg.collapsed == top.1);
                    assert(self.open_groups@ == old(self).open_groups@.drop_last());
                }
            },
        }
    }

    pub fn row_groups(&self) -> (r: &Vec<RowGroup>)
        ensures
            r == &self.row_groups,
    {
        &self.row_groups
    }

    pub fn column_sets(&self) -> (r: &Vec<ColumnSet>)
        ensures
            r == &self.column_sets,
    {
        &self.column_sets
    }

    /// The bindings of rows to column sets, as they are.
    pub fn row_bindings(&self) -> (r: &Vec<(u32, u32)>)
        ensures
            r == &self.row_sets,
    {
        &self.row_sets
    }
}


/// The width of a column: its own, scaled, or the default.
pub open spec fn width_or(m: Map<u32, i64>, c: u32, default: int, scale: int) -> int {
    if m.contains_key(c) {
        m[c] * scale
    } else {
        default
    }
}

/// Where column `n` begins: the widths of the columns before it.
pub open spec fn prefix(m: Map<u32, i64>, n: nat, default: int, scale: int) -> int
    decreases n,
{
    if n == 0 {
        0
    } else {
        prefix(m, (n - 1) as nat, default, scale) + width_or(m, (n - 1) as u32, default, scale)
    }
}

/// Default column width in internal units, the first number of `{128,72}`.
pub const DEFAULT_COL_WIDTH: i64 = 128;
/// API width units to internal units.
pub const COL_WIDTH_SCALE: i64 = 8;

/// The column boundaries of a set fit in `i64`.
pub open spec fn set_fits(cs: ColumnSet) -> bool {
    &&& sorted(cs.widths@)
    &&& forall|k: nat| k <= cs.count ==> i64::MIN <= #[trigger] prefix(as_map(cs.widths@), k, 128, 1) <= i64::MAX
}

/// The boundaries of a column set: running sums from 0.
pub open spec fn set_bounds(cs: ColumnSet) -> Seq<i64> {
    Seq::new((cs.count + 1) as nat, |k: int| prefix(as_map(cs.widths@), k as nat, 128, 1) as i64)
}

/// The boundaries of every set, one set after another.
pub open spec fn all_set_bounds(sets: Seq<ColumnSet>) -> Seq<i64>
    decreases sets.len(),
{
    if sets.len() == 0 {
        Seq::empty()
    } else {
        all_set_bounds(sets.drop_last()) + set_bounds(sets.last())
    }
}

impl ColumnSet {
    /// The boundaries of the set's columns as running sums, starting with 0;
    /// a column without a width of its own takes the default.
    pub fn boundaries(&self) -> (out: Vec<i64>)
        requires
            set_fits(*self),
        ensures
            out@ == set_bounds(*self),
    {
        let mut out: Vec<i64> = Vec::new();
        out.push(0);
        let mut x: i64 = 0;
        let mut c: u32 = 0;
        while c < self.count
            invariant
                set_fits(*self),
                c <= self.count,
                out@.len() == c + 1,
                x == prefix(as_map(self.widths@), c as nat, 128, 1),
                forall|k: int| 0 <= k <= c ==> out@[k] == #[trigger] prefix(as_map(self.widths@), k as nat, 128, 1),
            decreases self.count - c,
        {
            let w = match crate::keyed::get(&self.widths, c) {
                Some(w) => *w,
                None => DEFAULT_COL_WIDTH,
            };
            proof {
                assert(prefix(as_map(self.widths@), (c + 1) as nat, 128, 1) == x + w);
                assert(i64::MIN <= prefix(as_map(self.widths@), (c + 1) as nat, 128, 1) <= i64::MAX);
            }
            x = x + w;
            out.push(x);
            c = c + 1;
        }
        proof {
            assert(out@ =~= set_bounds(*self));
        }
        out
    }
}

/// Strictly increasing.
pub open spec fn increasing(s: Seq<i64>) -> bool {
    forall|i: int, j: int| 0 <= i < j < s.len() ==> s[i] < s[j]
}

pub proof fn lemma_push_contains(s: Seq<i64>, v: i64, x: i64)
    ensures
        s.push(v).contains(x) <==> (s.contains(x) || x == v),
{
    if s.push(v).contains(x) {
        let i = choose|i: int| 0 <= i < s.push(v).len() && s.push(v)[i] == x;
        if i < s.len() {
            assert(s[i] == x);
        }
    }
    if s.contains(x) {
        let i = choose|i: int| 0 <= i < s.len() && s[i] == x;
        assert(s.push(v)[i] == x);
    }
    if x == v {
        assert(s.push(v)[s.len() as int] == x);
    }
}

/// Put a value into an increasing list unless it is there.
#[verifier::spinoff_prover]
fn insert_point_value(v: &mut Vec<i64>, x: i64)
    requires
        increasing(old(v)@),
    ensures
        increasing(final(v)@),
        forall|y: i64| final(v)@.contains(y) <==> (old(v)@.contains(y) || y == x),
{
    let mut p: usize = 0;
    while p < v.len() && v[p] < x
        invariant
            p <= v@.len(),
            increasing(v@),
            v@ == old(v)@,
            forall|i: int| 0 <= i < p ==> v@[i] < x,
        decreases v@.len() - p,
    {
        p = p + 1;
    }
    if p < v.len() && v[p] == x {
        proof {
            assert(v@.contains(x));
        }
        return;
    }
    let ghost s = v@;
    v.insert(p, x);
    proof {
        assert forall|i: int, j: int| 0 <= i < j < v@.len() implies v@[i] < v@[j] by {
            if i < p && j < p {
            } else if i < p && j == p {
            } else if i < p {
                assert(s[i] < s[j - 1]);
            } else if i == p {
                assert(x < s[j - 1]) by {
                    assert(s[p as int] > x);
                    if j - 1 > p {
                        assert(s[p as int] < s[j - 1]);
                    }
                }
            } else {
                assert(s[i - 1] < s[j - 1]);
            }
        }
        assert forall|y: i64| #[trigger] v@.contains(y) <==> (old(v)@.contains(y) || y == x) by {
            if v@.contains(y) {
                let i = choose|i: int| 0 <= i < v@.len() && v@[i] == y;
                if i < p {
                    assert(s[i] == y);
                } else if i > p {
                    assert(s[i - 1] == y);
                }
            }
            if s.contains(y) {
                let i = choose|i: int| 0 <= i < s.len() && s[i] == y;
                if i < p {
                    assert(v@[i] == y);
                } else {
                    assert(v@[i + 1] == y);
                }
            }
            if y == x {
                assert(v@[p as int] == y);
            }
        }
        assert(s == old(v)@);
    }
}

impl SpreadDocData {
    /// Everything the physical grid sums fits in `i64`.
    pub open spec fn grid_fits(&self) -> bool {
        &&& forall|i: int| 0 <= i < self.column_sets@.len() ==> set_fits(#[trigger] self.column_sets@[i])
        &&& sorted(self.col_widths@)
        &&& forall|k: nat| k <= self.main_columns ==> i64::MIN <= #[trigger] prefix(as_map(self.col_widths@), k, 128, 8) <= i64::MAX
        &&& forall|c: u32| #[trigger] as_map(self.col_widths@).contains_key(c) ==> i64::MIN <= as_map(self.col_widths@)[c] * 8 <= i64::MAX
    }

    /// The boundaries of the main set, as declared.
    pub open spec fn main_bounds(&self) -> Seq<i64> {
        Seq::new((self.main_columns + 1) as nat, |k: int| prefix(as_map(self.col_widths@), k as nat, 128, 8) as i64)
    }

    /// Every boundary the physical grid is made of.
    pub open spec fn grid_points(&self) -> Seq<i64> {
        all_set_bounds(self.column_sets@) + self.main_bounds()
    }

    /// The PHYSICAL grid: the union of the boundaries of every column set
    /// and of the main set as declared, in increasing order. The platform
    /// lays the document out on it when it exports; without column sets
    /// there is none.
    pub fn physical_grid(&self) -> (out: Vec<i64>)
        requires
            self.grid_fits(),
        ensures
            self.column_sets@.len() == 0 ==> out@.len() == 0,
            increasing(out@),
            self.column_sets@.len() > 0 ==> forall|x: i64| out@.contains(x) <==> self.grid_points().contains(x),
    {
        let mut out: Vec<i64> = Vec::new();
        if self.column_sets.len() == 0 {
            return out;
        }
        let ghost mut pts: Seq<i64> = Seq::empty();
        let mut i: usize = 0;
        proof {
            assert(self.column_sets@.take(0) =~= Seq::<ColumnSet>::empty());
        }
        while i < self.column_sets.len()
            invariant
                self.grid_fits(),
                i <= self.column_sets@.len(),
                increasing(out@),
                pts == all_set_bounds(self.column_sets@.take(i as int)),
                forall|x: i64| out@.contains(x) <==> pts.contains(x),
            decreases self.column_sets@.len() - i,
        {
            proof {
                assert(set_fits(self.column_sets@[i as int]));
            }
            let b = self.column_sets[i].boundaries();
            let ghost before = pts;
            let mut k: usize = 0;
            while k < b.len()
                invariant
                    k <= b@.len(),
                    increasing(out@),
                    pts == before + b@.take(k as int),
                    forall|x: i64| out@.contains(x) <==> pts.contains(x),
                decreases b@.len() - k,
            {
                let ghost old_out = out@;
                insert_point_value(&mut out, b[k]);
                proof {
                    assert forall|x: i64| out@.contains(x) <==> pts.push(b@[k as int]).contains(x) by {
                        lemma_push_contains(pts, b@[k as int], x);
                    }
                    assert(before + b@.take(k + 1) =~= (before + b@.take(k as int)).push(b@[k as int]));
                    pts = pts.push(b@[k as int]);
                }
                k = k + 1;
            }
            proof {
                assert(b@.take(b@.len() as int) =~= b@);
                let t = self.column_sets@.take(i + 1);
                assert(t.drop_last() =~= self.column_sets@.take(i as int));
                assert(t.last() == self.column_sets@[i as int]);
            }
            i = i + 1;
        }
        proof {
            assert(self.column_sets@.take(self.column_sets@.len() as int) =~= self.column_sets@);
        }
        let ghost sets_part = pts;
        // The main set takes part too, by its DECLARED number of columns.
        proof {
            lemma_push_contains(pts, 0, 0);
            assert forall|y: i64| (out@.contains(y) || y == 0) <==> pts.push(0).contains(y) by {
                lemma_push_contains(pts, 0, y);
            }
        }
        insert_point_value(&mut out, 0);
        proof {
            pts = pts.push(0);
            assert(prefix(as_map(self.col_widths@), 0, 128, 8) == 0);
            assert(self.main_bounds().take(1) =~= seq![0i64]);
        }
        let mut x: i64 = 0;
        let mut c: u32 = 0;
        while c < self.main_columns
            invariant
                self.grid_fits(),
                c <= self.main_columns,
                increasing(out@),
                x == prefix(as_map(self.col_widths@), c as nat, 128, 8),
                pts == sets_part + self.main_bounds().take(c + 1),
                forall|y: i64| out@.contains(y) <==> pts.contains(y),
            decreases self.main_columns - c,
        {
            let w = match crate::keyed::get(&self.col_widths, c) {
                Some(w) => {
                    proof {
                        assert(i64::MIN <= as_map(self.col_widths@)[c] * 8 <= i64::MAX);
                    }
                    *w * COL_WIDTH_SCALE
                },
                None => DEFAULT_COL_WIDTH,
            };
            proof {
                assert(prefix(as_map(self.col_widths@), (c + 1) as nat, 128, 8) == x + w);
                assert(i64::MIN <= prefix(as_map(self.col_widths@), (c + 1) as nat, 128, 8) <= i64::MAX);
            }
            x = x + w;
            insert_point_value(&mut out, x);
            proof {
                assert forall|y: i64| out@.contains(y) <==> pts.push(x).contains(y) by {
                    lemma_push_contains(pts, x, y);
                }
                assert(self.main_bounds()[c + 1] == x);
                assert(sets_part + self.main_bounds().take(c + 2) =~= (sets_part + self.main_bounds().take(c + 1)).push(x));
                pts = pts.push(x);
            }
            c = c + 1;
        }
        proof {
            assert(self.main_bounds().take(c + 1) =~= self.main_bounds());
        }
        out
    }
}

/// Keys strictly increase along the list.
fn sorted_check<V>(s: &Vec<(u32, V)>) -> (b: bool)
    ensures
        b == sorted(s@),
{
    let mut k: usize = 1;
    if s.len() == 0 {
        return true;
    }
    while k < s.len()
        invariant
            1 <= k <= s@.len(),
            forall|i: int, j: int| 0 <= i < j < k ==> #[trigger] s@[i].0 < #[trigger] s@[j].0,
        decreases s@.len() - k,
    {
        if s[k - 1].0 >= s[k].0 {
            return false;
        }
        proof {
            assert forall|i: int, j: int| 0 <= i < j < k + 1 implies #[trigger] s@[i].0 < #[trigger] s@[j].0 by {
                if j == k && i < k - 1 {
                    assert(s@[i].0 < s@[k - 1].0);
                }
            }
        }
        k = k + 1;
    }
    true
}

/// Every running sum of widths up to column `count` fits in `i64`.
fn prefixes_fit(widths: &Vec<(u32, i64)>, count: u32, scale: i64) -> (b: bool)
    requires
        sorted(widths@),
        scale == 1 || scale == 8,
    ensures
        b == forall|k: nat| k <= count ==> i64::MIN <= #[trigger] prefix(as_map(widths@), k, 128, scale as int) <= i64::MAX,
{
    let mut x: i128 = 0;
    let mut c: u32 = 0;
    while c < count
        invariant
            sorted(widths@),
            scale == 1 || scale == 8,
            c <= count,
            x == prefix(as_map(widths@), c as nat, 128, scale as int),
            forall|k: nat| k <= c ==> i64::MIN <= #[trigger] prefix(as_map(widths@), k, 128, scale as int) <= i64::MAX,
        decreases count - c,
    {
        let raw: i128 = match crate::keyed::get(widths, c) {
            Some(w) => *w as i128,
            None => 128,
        };
        let w: i128 = match crate::keyed::get(widths, c) {
            Some(_) => if scale == 1 {
                raw
            } else {
                raw * 8
            },
            None => 128,
        };
        proof {
            assert(prefix(as_map(widths@), (c + 1) as nat, 128, scale as int) == x + w);
        }
        x = x + w;
        c = c + 1;
        if x < i64::MIN as i128 || x > i64::MAX as i128 {
            return false;
        }
        proof {
            assert forall|k: nat| k <= c implies i64::MIN <= #[trigger] prefix(as_map(widths@), k, 128, scale as int)
                <= i64::MAX by {
                if k == c {
                } else {
                }
            }
        }
    }
    true
}

impl SpreadDocData {
    /// Whether the grid sums fit: the check that precedes writing XLSX.
    pub fn fits_grid(&self) -> (b: bool)
        requires
            self.wf(),
        ensures
            b == self.grid_fits(),
    {
        let mut i: usize = 0;
        while i < self.column_sets.len()
            invariant
                i <= self.column_sets@.len(),
                forall|j: int| 0 <= j < i ==> set_fits(#[trigger] self.column_sets@[j]),
            decreases self.column_sets@.len() - i,
        {
            let cs = &self.column_sets[i];
            if !sorted_check(&cs.widths) {
                return false;
            }
            if !prefixes_fit(&cs.widths, cs.count, 1) {
                return false;
            }
            i = i + 1;
        }
        if !prefixes_fit(&self.col_widths, self.main_columns, 8) {
            return false;
        }
        let mut k: usize = 0;
        while k < self.col_widths.len()
            invariant
                self.wf(),
                k <= self.col_widths@.len(),
                forall|q: int| 0 <= q < k ==> i64::MIN <= (#[trigger] self.col_widths@[q]).1 * 8 <= i64::MAX,
            decreases self.col_widths@.len() - k,
        {
            let w = self.col_widths[k].1 as i128 * 8;
            if w < i64::MIN as i128 || w > i64::MAX as i128 {
                proof {
                    crate::keyed::lemma_at(self.col_widths@, k as int);
                }
                return false;
            }
            k = k + 1;
        }
        proof {
            assert forall|c: u32| #[trigger] as_map(self.col_widths@).contains_key(c) implies i64::MIN <= as_map(
                self.col_widths@,
            )[c] * 8 <= i64::MAX by {
                let q = crate::keyed::lemma_index_of(self.col_widths@, c);
            }
        }
        true
    }
}

} // verus!
