//! Drawings and their place on the grid.
//!
//! Geometry is measured in quarter points. A row is 45 by default and 4 per
//! unit of an explicit height; a column is 189 by default and 21 per unit
//! of an explicit width (both measured on the platform).

use vstd::prelude::*;
use crate::keyed;
use crate::keyed::as_map;
use crate::model::{Drawing, SpreadDocData};

verus! {

/// Quarter points of a row of default height: 11.25 points.
pub const DEFAULT_ROW_QP: i128 = 45;
/// Quarter points per unit of `ВысотаСтроки`.
pub const ROW_HEIGHT_QP: i128 = 4;
/// Quarter points of a column of default width.
pub const DEFAULT_COL_QP: i128 = 189;
/// Quarter points per unit of `ШиринаКолонки`.
pub const COL_WIDTH_QP: i128 = 21;

/// The height of a row in quarter points.
pub open spec fn row_qp(doc: &SpreadDocData, r: u32) -> int {
    match doc.row_or_empty(r).height {
        Some(h) => h * 4,
        None => 45,
    }
}

/// The width of a column in quarter points.
pub open spec fn col_qp(doc: &SpreadDocData, c: u32) -> int {
    if as_map(doc.col_widths@).contains_key(c) {
        as_map(doc.col_widths@)[c] * 21
    } else {
        189
    }
}

/// One past the last row the document stores.
pub open spec fn rows_end(doc: &SpreadDocData) -> int {
    if doc.rows@.len() == 0 {
        0
    } else {
        doc.rows@.last().0 + 1
    }
}

/// One past the last column with an explicit width.
pub open spec fn cols_end(doc: &SpreadDocData) -> int {
    if doc.col_widths@.len() == 0 {
        0
    } else {
        doc.col_widths@.last().0 + 1
    }
}

/// The row a coordinate falls into, counting from `row`, and the offset
/// inside it. Past the stored rows every row has the default height.
pub open spec fn split_row_from(doc: &SpreadDocData, q: int, row: int) -> (int, int)
    decreases rows_end(doc) - row,
{
    if 0 <= row < rows_end(doc) {
        if q < row_qp(doc, row as u32) {
            (row, q)
        } else {
            split_row_from(doc, q - row_qp(doc, row as u32), row + 1)
        }
    } else if q < 45 {
        (row, q)
    } else {
        (row + q / 45, q % 45)
    }
}

pub open spec fn split_col_from(doc: &SpreadDocData, q: int, col: int) -> (int, int)
    decreases cols_end(doc) - col,
{
    if 0 <= col < cols_end(doc) {
        if q < col_qp(doc, col as u32) {
            (col, q)
        } else {
            split_col_from(doc, q - col_qp(doc, col as u32), col + 1)
        }
    } else if q < 189 {
        (col, q)
    } else {
        (col + q / 189, q % 189)
    }
}

/// A drawing on the grid: `(c1, r1, c2, r2)` and the four offsets inside
/// those cells.
pub open spec fn drawing_cells(doc: &SpreadDocData, d: Drawing) -> (int, int, int, int, int, int, int, int) {
    let a = split_col_from(doc, d.left as int, 0);
    let b = split_row_from(doc, d.top as int, 0);
    let c = split_col_from(doc, d.left + d.width, 0);
    let e = split_row_from(doc, d.top + d.height, 0);
    (a.0, b.0, c.0, e.0, a.1, b.1, c.1, e.1)
}

pub open spec fn i64_bounded(q: int) -> bool {
    -0x1_0000_0000_0000_0000 <= q <= 0x1_0000_0000_0000_0000
}

impl SpreadDocData {
    fn row_height_qp(&self, row: u32) -> (h: i128)
        requires
            self.wf(),
        ensures
            h == row_qp(self, row),
    {
        match keyed::get(&self.rows, row) {
            Some(data) => match data.height {
                Some(x) => x as i128 * 4,
                None => 45,
            },
            None => 45,
        }
    }

    fn col_width_qp(&self, col: u32) -> (w: i128)
        requires
            self.wf(),
        ensures
            w == col_qp(self, col),
    {
        match keyed::get(&self.col_widths, col) {
            Some(x) => *x as i128 * 21,
            None => 189,
        }
    }

    /// `split_row_from(q, 0)`.
    pub fn split_row(&self, q: i128) -> (r: (i128, i128))
        requires
            self.wf(),
            i64_bounded(q as int),
        ensures
            (r.0 as int, r.1 as int) == split_row_from(self, q as int, 0),
    {
        let end: u64 = if self.rows.len() == 0 {
            0
        } else {
            self.rows[self.rows.len() - 1].0 as u64 + 1
        };
        let mut rest: i128 = q;
        let mut row: u64 = 0;
        while row < end
            invariant
                self.wf(),
                end == rows_end(self),
                end <= 0x1_0000_0000,
                row <= end,
                -0x1_0000_0000_0000_0000 - row * 0x4_0000_0000_0000_0000 <= rest,
                rest <= 0x1_0000_0000_0000_0000 + row * 0x4_0000_0000_0000_0000,
                split_row_from(self, q as int, 0) == split_row_from(self, rest as int, row as int),
            decreases end - row,
        {
            let h = self.row_height_qp(row as u32);
            if rest < h {
                return (row as i128, rest);
            }
            rest = rest - h;
            row = row + 1;
        }
        if rest < 45 {
            (row as i128, rest)
        } else {
            (row as i128 + rest / 45, rest % 45)
        }
    }

    /// `split_col_from(q, 0)`.
    pub fn split_col(&self, q: i128) -> (r: (i128, i128))
        requires
            self.wf(),
            i64_bounded(q as int),
        ensures
            (r.0 as int, r.1 as int) == split_col_from(self, q as int, 0),
    {
        let end: u64 = if self.col_widths.len() == 0 {
            0
        } else {
            self.col_widths[self.col_widths.len() - 1].0 as u64 + 1
        };
        let mut rest: i128 = q;
        let mut col: u64 = 0;
        while col < end
            invariant
                self.wf(),
                end == cols_end(self),
                end <= 0x1_0000_0000,
                col <= end,
                -0x1_0000_0000_0000_0000 - col * 0x10_0000_0000_0000_0000 <= rest,
                rest <= 0x1_0000_0000_0000_0000 + col * 0x10_0000_0000_0000_0000,
                split_col_from(self, q as int, 0) == split_col_from(self, rest as int, col as int),
            decreases end - col,
        {
            let w = self.col_width_qp(col as u32);
            if rest < w {
                return (col as i128, rest);
            }
            rest = rest - w;
            col = col + 1;
        }
        if rest < 189 {
            (col as i128, rest)
        } else {
            (col as i128 + rest / 189, rest % 189)
        }
    }

    /// The cells a drawing covers and its offsets inside them.
    pub fn drawing_cells(&self, d: &Drawing) -> (r: (i128, i128, i128, i128, i128, i128, i128, i128))
        requires
            self.wf(),
        ensures
            (r.0 as int, r.1 as int, r.2 as int, r.3 as int, r.4 as int, r.5 as int, r.6 as int, r.7 as int)
                == drawing_cells(self, *d),
    {
        let a = self.split_col(d.left as i128);
        let b = self.split_row(d.top as i128);
        let c = self.split_col(d.left as i128 + d.width as i128);
        let e = self.split_row(d.top as i128 + d.height as i128);
        (a.0, b.0, c.0, e.0, a.1, b.1, c.1, e.1)
    }
}

/// The last cell a drawing of this geometry occupies, `(row, column)`: an
/// edge exactly on a cell boundary does not take the next cell, unless the
/// drawing has no extent along that axis.
pub open spec fn geometry_corner(doc: &SpreadDocData, left: i64, top: i64, width: i64, height: i64) -> (int, int) {
    let c1 = split_col_from(doc, left as int, 0);
    let r1 = split_row_from(doc, top as int, 0);
    let c2 = split_col_from(doc, left + width, 0);
    let r2 = split_row_from(doc, top + height, 0);
    (
        if r2.1 == 0 && r2.0 > r1.0 {
            r2.0 - 1
        } else {
            r2.0
        },
        if c2.1 == 0 && c2.0 > c1.0 {
            c2.0 - 1
        } else {
            c2.0
        },
    )
}

pub open spec fn drawing_corner(doc: &SpreadDocData, d: Drawing) -> (int, int) {
    geometry_corner(doc, d.left, d.top, d.width, d.height)
}

/// A corner the document can grow to.
pub open spec fn corner_fits(p: (int, int)) -> bool {
    0 <= p.0 < u32::MAX && 0 <= p.1 < u32::MAX
}

/// The name the platform gives the `n`-th drawing: `D<n>`.
pub open spec fn drawing_name(n: nat) -> Seq<char> {
    seq!['D'] + crate::text::spec_digits(n)
}

proof fn lemma_split_row_same(a: &SpreadDocData, b: &SpreadDocData, q: int, row: int)
    requires
        a.rows == b.rows,
    ensures
        split_row_from(a, q, row) == split_row_from(b, q, row),
    decreases rows_end(a) - row,
{
    if 0 <= row < rows_end(a) {
        assert(row_qp(a, row as u32) == row_qp(b, row as u32));
        if q >= row_qp(a, row as u32) {
            lemma_split_row_same(a, b, q - row_qp(a, row as u32), row + 1);
        }
    }
}

proof fn lemma_split_col_same(a: &SpreadDocData, b: &SpreadDocData, q: int, col: int)
    requires
        a.col_widths == b.col_widths,
    ensures
        split_col_from(a, q, col) == split_col_from(b, q, col),
    decreases cols_end(a) - col,
{
    if 0 <= col < cols_end(a) {
        if q >= col_qp(a, col as u32) {
            lemma_split_col_same(a, b, q - col_qp(a, col as u32), col + 1);
        }
    }
}

/// The corner depends on the rows and the column widths alone.
pub proof fn lemma_corner_same(a: &SpreadDocData, b: &SpreadDocData, left: i64, top: i64, width: i64, height: i64)
    requires
        a.rows == b.rows,
        a.col_widths == b.col_widths,
    ensures
        geometry_corner(a, left, top, width, height) == geometry_corner(b, left, top, width, height),
{
    lemma_split_row_same(a, b, top as int, 0);
    lemma_split_row_same(a, b, top + height, 0);
    lemma_split_col_same(a, b, left as int, 0);
    lemma_split_col_same(a, b, left + width, 0);
}

impl SpreadDocData {
    /// The last cell a drawing of this geometry would occupy.
    pub fn corner_of(&self, left: i64, top: i64, width: i64, height: i64) -> (r: (i128, i128))
        requires
            self.wf(),
        ensures
            (r.0 as int, r.1 as int) == geometry_corner(self, left, top, width, height),
    {
        let c1 = self.split_col(left as i128);
        let r1 = self.split_row(top as i128);
        let c2 = self.split_col(left as i128 + width as i128);
        let r2 = self.split_row(top as i128 + height as i128);
        let row: i128 = if r2.1 == 0 && r2.0 > r1.0 {
            r2.0 - 1
        } else {
            r2.0
        };
        let col: i128 = if c2.1 == 0 && c2.0 > c1.0 {
            c2.0 - 1
        } else {
            c2.0
        };
        (row, col)
    }

    /// Grow the occupied size after the geometry of drawing `i` changed: a
    /// drawing grows the document at once, not when it is written.
    pub fn refresh_drawing_bounds(&mut self, i: usize)
        requires
            old(self).wf(),
            i < old(self).drawings@.len(),
            corner_fits(drawing_corner(old(self), old(self).drawings@[i as int])),
        ensures
            final(self).wf(),
            final(self).touched(
                old(self),
                drawing_corner(old(self), old(self).drawings@[i as int]).0 as u32,
                drawing_corner(old(self), old(self).drawings@[i as int]).1 as u32,
            ),
            final(self).rows == old(self).rows,
            final(self).same_but_rows(old(self)),
    {
        let t = self.drawing_cells(&self.drawings[i]);
        let row: i128 = if t.7 == 0 && t.3 > t.1 {
            t.3 - 1
        } else {
            t.3
        };
        let col: i128 = if t.6 == 0 && t.2 > t.0 {
            t.2 - 1
        } else {
            t.2
        };
        self.touch(row as u32, col as u32);
    }

    /// `Рисунки.Добавить`: a rectangle drawing with this geometry, named
    /// `D<number>`. Returns its number, counted from 1.
    pub fn add_drawing(&mut self, left: i64, top: i64, width: i64, height: i64) -> (n: usize)
        requires
            old(self).wf(),
            old(self).drawings@.len() < usize::MAX,
            corner_fits(geometry_corner(old(self), left, top, width, height)),
        ensures
            final(self).wf(),
            n == old(self).drawings@.len() + 1,
            final(self).drawings@.len() == n,
            final(self).drawings@.drop_last() == old(self).drawings@,
            final(self).drawings@.last().left == left,
            final(self).drawings@.last().top == top,
            final(self).drawings@.last().width == width,
            final(self).drawings@.last().height == height,
            final(self).drawings@.last().name@ == drawing_name(n as nat),
            final(self).touched(
                old(self),
                geometry_corner(old(self), left, top, width, height).0 as u32,
                geometry_corner(old(self), left, top, width, height).1 as u32,
            ),
            final(self).rows == old(self).rows,
            final(self).col_widths == old(self).col_widths,
            final(self).merges == old(self).merges,
            final(self).names == old(self).names,
    {
        let n = self.drawings.len() + 1;
        let mut name = String::new();
        crate::text::push_char(&mut name, 'D');
        crate::text::push_digits(&mut name, n as u128);
        let ghost before = self.drawings@;
        self.drawings.push(Drawing { left, top, width, height, name });
        proof {
            assert(self.drawings@.drop_last() =~= before);
            assert(self.rows_view() == old(self).rows_view());
            lemma_corner_same(self, old(self), left, top, width, height);
        }
        self.refresh_drawing_bounds(n - 1);
        n
    }
}

} // verus!
