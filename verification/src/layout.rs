//! The middle of the MXL text: columns, column sets, row bindings,
//! drawings and row groups.

use vstd::prelude::*;
use crate::drawings::drawing_cells;
use crate::format::{concat, join, lemma_concat_step, lemma_join_step, lemma_take_all};
use crate::model::{ColumnSet, Drawing, RowGroup, SpreadDocData};
use crate::records::group_text;
use crate::text::{push_int, push_str, spec_int};

verus! {

/// `,column,format` for every entry.
pub open spec fn refs_text(ws: Seq<(u32, i64)>, fmts: Seq<int>) -> Seq<char> {
    concat(Seq::new(ws.len(), |i: int| ","@ + spec_int(ws[i].0 as int) + ","@ + spec_int(fmts[i])))
}

/// A counted list of column references, closed by a brace.
pub open spec fn counted_refs(ws: Seq<(u32, i64)>, fmts: Seq<int>) -> Seq<char> {
    if ws.len() == 0 {
        "0}"@
    } else {
        spec_int(ws.len() as int) + refs_text(ws, fmts) + "}"@
    }
}

pub open spec fn nums(v: Seq<usize>) -> Seq<int> {
    v.map_values(|x: usize| x as int)
}

fn push_counted_refs(out: &mut String, ws: &Vec<(u32, i64)>, fmts: &Vec<usize>)
    requires
        fmts@.len() == ws@.len(),
    ensures
        final(out)@ == old(out)@ + counted_refs(ws@, nums(fmts@)),
{
    if ws.len() == 0 {
        push_str(out, "0}");
        return;
    }
    let ghost f = nums(fmts@);
    let ghost parts = Seq::new(ws@.len(), |i: int| ","@ + spec_int(ws@[i].0 as int) + ","@ + spec_int(f[i]));
    push_int(out, ws.len() as i128);
    let ghost start = out@;
    let mut i: usize = 0;
    while i < ws.len()
        invariant
            fmts@.len() == ws@.len(),
            f == nums(fmts@),
            parts == Seq::new(ws@.len(), |i: int| ","@ + spec_int(ws@[i].0 as int) + ","@ + spec_int(f[i])),
            i <= ws@.len(),
            out@ == start + concat(parts.take(i as int)),
        decreases ws@.len() - i,
    {
        let ghost before = out@;
        push_str(out, ",");
        push_int(out, ws[i].0 as i128);
        push_str(out, ",");
        push_int(out, fmts[i] as i128);
        proof {
            assert(out@ =~= before + parts[i as int]);
            lemma_concat_step(parts, i as int);
        }
        i = i + 1;
    }
    push_str(out, "}");
    proof {
        lemma_take_all(parts);
        assert(final(out)@ =~= old(out)@ + counted_refs(ws@, f));
    }
}

/// The main column set: width, the formats of the columns with a width,
/// then the height of the document.
pub open spec fn cols_text(width: u32, height: u32, ws: Seq<(u32, i64)>, fmts: Seq<int>) -> Seq<char> {
    "{"@ + spec_int(width as int) + ",0,00000000-0000-0000-0000-000000000000,"@ + counted_refs(ws, fmts) + ","@
        + spec_int(height as int) + ","@
}

pub fn push_cols(out: &mut String, width: u32, height: u32, ws: &Vec<(u32, i64)>, fmts: &Vec<usize>)
    requires
        fmts@.len() == ws@.len(),
    ensures
        final(out)@ == old(out)@ + cols_text(width, height, ws@, nums(fmts@)),
{
    push_str(out, "{");
    push_int(out, width as i128);
    push_str(out, ",0,00000000-0000-0000-0000-000000000000,");
    push_counted_refs(out, ws, fmts);
    push_str(out, ",");
    push_int(out, height as i128);
    push_str(out, ",");
    proof {
        assert(final(out)@ =~= old(out)@ + cols_text(width, height, ws@, nums(fmts@)));
    }
}

/// An additional column set: its number of columns, its id as is, and its
/// width formats.
pub open spec fn set_text(set: ColumnSet, fmts: Seq<int>) -> Seq<char> {
    "{"@ + spec_int(set.count as int) + ",0,"@ + set.id@ + ","@ + counted_refs(set.widths@, fmts)
}

pub open spec fn sets_text(sets: Seq<ColumnSet>, sf: Seq<Seq<int>>) -> Seq<char> {
    if sets.len() == 0 {
        "0,"@
    } else {
        spec_int(sets.len() as int) + ",\n"@ + join(Seq::new(sets.len(), |i: int| set_text(sets[i], sf[i])), ",\n"@)
            + ",\n"@
    }
}

fn push_set(out: &mut String, set: &ColumnSet, fmts: &Vec<usize>)
    requires
        fmts@.len() == set.widths@.len(),
    ensures
        final(out)@ == old(out)@ + set_text(*set, nums(fmts@)),
{
    push_str(out, "{");
    push_int(out, set.count as i128);
    push_str(out, ",0,");
    push_str(out, set.id.as_str());
    push_str(out, ",");
    push_counted_refs(out, &set.widths, fmts);
    proof {
        assert(final(out)@ =~= old(out)@ + set_text(*set, nums(fmts@)));
    }
}

pub open spec fn nums2(v: Seq<Vec<usize>>) -> Seq<Seq<int>> {
    v.map_values(|w: Vec<usize>| nums(w@))
}

pub fn push_sets(out: &mut String, sets: &Vec<ColumnSet>, sf: &Vec<Vec<usize>>)
    requires
        sf@.len() == sets@.len(),
        forall|i: int| 0 <= i < sets@.len() ==> (#[trigger] sf@[i])@.len() == sets@[i].widths@.len(),
    ensures
        final(out)@ == old(out)@ + sets_text(sets@, nums2(sf@)),
{
    if sets.len() == 0 {
        push_str(out, "0,");
        return;
    }
    let ghost g = nums2(sf@);
    let ghost parts = Seq::new(sets@.len(), |i: int| set_text(sets@[i], g[i]));
    push_int(out, sets.len() as i128);
    push_str(out, ",\n");
    let ghost start = out@;
    let mut i: usize = 0;
    while i < sets.len()
        invariant
            sf@.len() == sets@.len(),
            forall|i: int| 0 <= i < sets@.len() ==> (#[trigger] sf@[i])@.len() == sets@[i].widths@.len(),
            g == nums2(sf@),
            parts == Seq::new(sets@.len(), |i: int| set_text(sets@[i], g[i])),
            i <= sets@.len(),
            out@ == start + join(parts.take(i as int), ",\n"@),
        decreases sets@.len() - i,
    {
        if i > 0 {
            push_str(out, ",\n");
        }
        let ghost before = out@;
        push_set(out, &sets[i], &sf[i]);
        proof {
            assert(out@ == before + parts[i as int]);
            lemma_join_step(parts, ",\n"@, i as int);
        }
        i = i + 1;
    }
    push_str(out, ",\n");
    proof {
        lemma_take_all(parts);
        assert(final(out)@ =~= old(out)@ + sets_text(sets@, g));
    }
}

/// Bindings of rows to sets: a counted list of `,row,set` closed by a comma.
pub open spec fn row_sets_text(rs: Seq<(u32, u32)>) -> Seq<char> {
    if rs.len() == 0 {
        "0,"@
    } else {
        spec_int(rs.len() as int) + concat(
            Seq::new(rs.len(), |i: int| ","@ + spec_int(rs[i].0 as int) + ","@ + spec_int(rs[i].1 as int)),
        ) + ","@
    }
}

pub fn push_row_sets(out: &mut String, rs: &Vec<(u32, u32)>)
    ensures
        final(out)@ == old(out)@ + row_sets_text(rs@),
{
    if rs.len() == 0 {
        push_str(out, "0,");
        return;
    }
    let ghost parts = Seq::new(rs@.len(), |i: int| ","@ + spec_int(rs@[i].0 as int) + ","@ + spec_int(rs@[i].1 as int));
    push_int(out, rs.len() as i128);
    let ghost start = out@;
    let mut i: usize = 0;
    while i < rs.len()
        invariant
            parts == Seq::new(rs@.len(), |i: int| ","@ + spec_int(rs@[i].0 as int) + ","@ + spec_int(rs@[i].1 as int)),
            i <= rs@.len(),
            out@ == start + concat(parts.take(i as int)),
        decreases rs@.len() - i,
    {
        let ghost before = out@;
        push_str(out, ",");
        push_int(out, rs[i].0 as i128);
        push_str(out, ",");
        push_int(out, rs[i].1 as i128);
        proof {
            assert(out@ =~= before + parts[i as int]);
            lemma_concat_step(parts, i as int);
        }
        i = i + 1;
    }
    push_str(out, ",");
    proof {
        lemma_take_all(parts);
        assert(final(out)@ =~= old(out)@ + row_sets_text(rs@));
    }
}

/// A corner of a drawing: column, row and the two offsets.
pub open spec fn corner_text(c: int, r: int, oc: int, or: int) -> Seq<char> {
    spec_int(c) + ","@ + spec_int(r) + ","@ + spec_int(oc) + ","@ + spec_int(or)
}

/// A drawing record: the shared format, its two corners and its number.
pub open spec fn drawing_record(doc: &SpreadDocData, d: Drawing, df: int, i: int) -> Seq<char> {
    let x = drawing_cells(doc, d);
    "\n{\n{0,"@ + spec_int(df) + "},2,"@ + corner_text(x.0, x.1, x.4, x.5) + ","@ + corner_text(x.2, x.3, x.6, x.7)
        + ","@ + spec_int(i + 1) + ",0}"@
}

/// The drawings: numbers given out, drawings present, then the records.
pub open spec fn drawings_text(doc: &SpreadDocData, df: int) -> Seq<char> {
    let n = doc.drawings@.len();
    if n == 0 {
        "0,0,"@
    } else {
        spec_int(n as int) + ","@ + spec_int(n as int) + ","@ + join(
            Seq::new(n, |i: int| drawing_record(doc, doc.drawings@[i], df, i)),
            ","@,
        ) + ","@
    }
}

fn push_corner(out: &mut String, c: i128, r: i128, oc: i128, or: i128)
    ensures
        final(out)@ == old(out)@ + corner_text(c as int, r as int, oc as int, or as int),
{
    push_int(out, c);
    push_str(out, ",");
    push_int(out, r);
    push_str(out, ",");
    push_int(out, oc);
    push_str(out, ",");
    push_int(out, or);
    proof {
        assert(final(out)@ =~= old(out)@ + corner_text(c as int, r as int, oc as int, or as int));
    }
}

fn push_drawing(out: &mut String, doc: &SpreadDocData, i: usize, df: usize)
    requires
        doc.wf(),
        i < doc.drawings@.len(),
    ensures
        final(out)@ == old(out)@ + drawing_record(doc, doc.drawings@[i as int], df as int, i as int),
{
    let x = doc.drawing_cells(&doc.drawings[i]);
    push_str(out, "\n{\n{0,");
    push_int(out, df as i128);
    push_str(out, "},2,");
    push_corner(out, x.0, x.1, x.4, x.5);
    push_str(out, ",");
    push_corner(out, x.2, x.3, x.6, x.7);
    push_str(out, ",");
    push_int(out, i as i128 + 1);
    push_str(out, ",0}");
    proof {
        assert(final(out)@ =~= old(out)@ + drawing_record(doc, doc.drawings@[i as int], df as int, i as int));
    }
}

pub fn push_drawings(out: &mut String, doc: &SpreadDocData, df: usize)
    requires
        doc.wf(),
    ensures
        final(out)@ == old(out)@ + drawings_text(doc, df as int),
{
    let n = doc.drawings.len();
    if n == 0 {
        push_str(out, "0,0,");
        return;
    }
    let ghost parts = Seq::new(n as nat, |i: int| drawing_record(doc, doc.drawings@[i], df as int, i));
    push_int(out, n as i128);
    push_str(out, ",");
    push_int(out, n as i128);
    push_str(out, ",");
    let ghost start = out@;
    let mut i: usize = 0;
    while i < n
        invariant
            doc.wf(),
            n == doc.drawings@.len(),
            parts == Seq::new(n as nat, |i: int| drawing_record(doc, doc.drawings@[i], df as int, i)),
            i <= n,
            out@ == start + join(parts.take(i as int), ","@),
        decreases n - i,
    {
        if i > 0 {
            push_str(out, ",");
        }
        let ghost before = out@;
        push_drawing(out, doc, i, df);
        proof {
            assert(out@ == before + parts[i as int]);
            lemma_join_step(parts, ","@, i as int);
        }
        i = i + 1;
    }
    push_str(out, ",");
    proof {
        lemma_take_all(parts);
        assert(final(out)@ =~= old(out)@ + drawings_text(doc, df as int));
    }
}

/// The row groups, each block with its closing -1.
pub open spec fn groups_text(gs: Seq<RowGroup>) -> Seq<char> {
    if gs.len() == 0 {
        "0,"@
    } else {
        spec_int(gs.len() as int) + ","@ + join(Seq::new(gs.len(), |i: int| group_text(gs[i])), ","@) + ","@
    }
}

pub fn push_groups(out: &mut String, gs: &Vec<RowGroup>)
    ensures
        final(out)@ == old(out)@ + groups_text(gs@),
{
    if gs.len() == 0 {
        push_str(out, "0,");
        return;
    }
    let ghost parts = Seq::new(gs@.len(), |i: int| group_text(gs@[i]));
    push_int(out, gs.len() as i128);
    push_str(out, ",");
    let ghost start = out@;
    let mut i: usize = 0;
    while i < gs.len()
        invariant
            parts == Seq::new(gs@.len(), |i: int| group_text(gs@[i])),
            i <= gs@.len(),
            out@ == start + join(parts.take(i as int), ","@),
        decreases gs@.len() - i,
    {
        if i > 0 {
            push_str(out, ",");
        }
        let ghost before = out@;
        gs[i].push_render(out);
        proof {
            lemma_join_step(parts, ","@, i as int);
        }
        i = i + 1;
    }
    push_str(out, ",");
    proof {
        lemma_take_all(parts);
        assert(final(out)@ =~= old(out)@ + groups_text(gs@));
    }
}

} // verus!
