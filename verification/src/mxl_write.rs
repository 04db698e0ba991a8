//! Writing a document as MXL text.
//!
//! The order in which palette entries are first used decides the format
//! NUMBERS, and so the bytes of the file: rows go first (the row format,
//! then the formats of its cells), then the column widths, then the widths
//! of the additional column sets, then the drawing format.

use vstd::prelude::*;
use crate::format::{
    BACK_COLOR, COL_WIDTH, ColorPalette, ColorsView, FontPalette, Format, LinePalette, Palette, Pals,
    ROW_HEIGHT, ROW_HIDDEN, V_ALIGN, cell_format, first_index, fmt_insert, fmt_small, intern_at, join,
    lemma_insert_small, lemma_join_step, lemma_take_all, pal_intern, pals_of,
};
use crate::keyed;
use crate::layout::{
    cols_text, drawings_text, groups_text, push_cols, push_drawings, push_groups, push_row_sets, push_sets,
    row_sets_text, sets_text,
};
use crate::model::{CellData, ColumnSet, RowData, RowGroup, SpreadDocData};
use crate::sections::{head_text, push_head, push_rows, rows_text};
use crate::tail::{
    formats_tail, fonts_tail, merges_text, names_text, page_pairs, page_text, print_area_text, push_fonts,
    push_formats, push_merges, push_names, push_page, push_print_area, push_values_tail, push_view,
    values_tail, view_text,
};
use crate::bytes::{crlf, push_text_bytes, utf8};
use crate::keyed::as_map;
use crate::text::push_str;

verus! {

/// The palettes while the document is walked.
pub struct WState {
    pub formats: Seq<Seq<(u32, i128)>>,
    pub pals: Pals,
}

/// Palette indices as numbers.
pub open spec fn ints(v: Seq<usize>) -> Seq<int> {
    v.map_values(|x: usize| x as int)
}

/// Every format of the palette is one a cell, row, column or drawing can
/// have.
pub open spec fn pal_small(p: Seq<Seq<(u32, i128)>>) -> bool {
    forall|i: int| 0 <= i < p.len() ==> fmt_small(#[trigger] p[i])
}

pub proof fn lemma_intern_small(p: Seq<Seq<(u32, i128)>>, f: Seq<(u32, i128)>)
    requires
        pal_small(p),
        fmt_small(f),
    ensures
        pal_small(pal_intern(p, f).0),
        0 <= pal_intern(p, f).1 <= pal_intern(p, f).0.len(),
        pal_intern(p, f).0.len() >= p.len(),
{
    if f.len() != 0 && p.contains(f) {
        let k = first_index(p, f);
        let w = choose|i: int| 0 <= i < p.len() && p[i] == f;
        assert(0 <= w < p.len() && p[w] == f);
        assert(exists|i: int| 0 <= i < p.len() && p[i] == f && forall|j: int| 0 <= j < i ==> p[j] != f) by {
            lemma_some_first(p, f, w);
        }
    }
}

proof fn lemma_some_first<T>(s: Seq<T>, x: T, w: int)
    requires
        0 <= w < s.len(),
        s[w] == x,
    ensures
        exists|i: int| 0 <= i < s.len() && s[i] == x && forall|j: int| 0 <= j < i ==> s[j] != x,
    decreases w,
{
    if exists|j: int| 0 <= j < w && s[j] == x {
        let j = choose|j: int| 0 <= j < w && s[j] == x;
        lemma_some_first(s, x, j);
    } else {
        assert(forall|j: int| 0 <= j < w ==> s[j] != x);
    }
}

// --- rows ------------------------------------------------------------------

/// A row of a collapsed group is hidden.
pub open spec fn hidden(groups: Seq<RowGroup>, r: u32) -> bool {
    exists|i: int| 0 <= i < groups.len() && #[trigger] groups[i].collapsed && groups[i].r1 <= r <= groups[i].r2
}

/// The format of a row: its height in quarter points and the hidden bit.
pub open spec fn row_format(height: Option<i64>, hid: bool) -> Seq<(u32, i128)> {
    let f0 = match height {
        Some(h) => fmt_insert(Seq::empty(), ROW_HEIGHT, (h * 4) as i128),
        None => Seq::empty(),
    };
    if hid {
        fmt_insert(f0, ROW_HIDDEN, 1)
    } else {
        f0
    }
}

/// The cells of a row in order: each one's format goes to the palette.
pub open spec fn cells_pass(cells: Seq<(u32, CellData)>, st: WState) -> (WState, Seq<int>)
    decreases cells.len(),
{
    if cells.len() == 0 {
        (st, Seq::empty())
    } else {
        let prev = cells_pass(cells.drop_last(), st);
        let cf = cell_format(cells.last().1@, prev.0.pals);
        let pi = pal_intern(prev.0.formats, cf.1);
        (WState { formats: pi.0, pals: cf.0 }, prev.1.push(pi.1))
    }
}

/// The rows in order: the row format, then the formats of its cells.
pub open spec fn rows_pass(rows: Seq<(u32, RowData)>, groups: Seq<RowGroup>, st: WState) -> (
    WState,
    Seq<int>,
    Seq<Seq<int>>,
)
    decreases rows.len(),
{
    if rows.len() == 0 {
        (st, Seq::empty(), Seq::empty())
    } else {
        let prev = rows_pass(rows.drop_last(), groups, st);
        let row = rows.last();
        let ri = pal_intern(prev.0.formats, row_format(row.1.height, hidden(groups, row.0)));
        let cp = cells_pass(row.1.cells@, WState { formats: ri.0, pals: prev.0.pals });
        (cp.0, prev.1.push(ri.1), prev.2.push(cp.1))
    }
}

/// Column widths, each scaled into a width format.
pub open spec fn widths_pass(ws: Seq<(u32, i64)>, scale: int, p: Seq<Seq<(u32, i128)>>) -> (
    Seq<Seq<(u32, i128)>>,
    Seq<int>,
)
    decreases ws.len(),
{
    if ws.len() == 0 {
        (p, Seq::empty())
    } else {
        let prev = widths_pass(ws.drop_last(), scale, p);
        let pi = pal_intern(prev.0, fmt_insert(Seq::empty(), COL_WIDTH, (ws.last().1 * scale) as i128));
        (pi.0, prev.1.push(pi.1))
    }
}

/// The widths of the additional column sets, set after set.
pub open spec fn sets_pass(sets: Seq<ColumnSet>, p: Seq<Seq<(u32, i128)>>) -> (
    Seq<Seq<(u32, i128)>>,
    Seq<Seq<int>>,
)
    decreases sets.len(),
{
    if sets.len() == 0 {
        (p, Seq::empty())
    } else {
        let prev = sets_pass(sets.drop_last(), p);
        let w = widths_pass(sets.last().widths@, 1, prev.0);
        (w.0, prev.1.push(w.1))
    }
}

/// The format every drawing shares, with the style color it needs.
pub open spec fn drawing_format() -> Seq<(u32, i128)> {
    fmt_insert(fmt_insert(Seq::empty(), V_ALIGN, 0), BACK_COLOR, 2)
}

fn is_hidden(groups: &Vec<RowGroup>, r: u32) -> (b: bool)
    ensures
        b == hidden(groups@, r),
{
    let mut i: usize = 0;
    while i < groups.len()
        invariant
            i <= groups@.len(),
            forall|j: int| 0 <= j < i ==> !(#[trigger] groups@[j].collapsed && groups@[j].r1 <= r <= groups@[j].r2),
        decreases groups@.len() - i,
    {
        if groups[i].collapsed && groups[i].r1 <= r && r <= groups[i].r2 {
            return true;
        }
        i = i + 1;
    }
    false
}

fn row_format_exec(height: Option<i64>, hid: bool) -> (f: Format)
    ensures
        f@ == row_format(height, hid),
        fmt_small(f@),
{
    let mut f = Format::new();
    if let Some(h) = height {
        proof {
            lemma_insert_small(f@, ROW_HEIGHT, (h * 4) as i128, 0);
        }
        f = f.with(ROW_HEIGHT, h as i128 * 4);
    }
    if hid {
        proof {
            lemma_insert_small(f@, ROW_HIDDEN, 1, 1);
        }
        f = f.with(ROW_HIDDEN, 1);
    }
    f
}

#[verifier::spinoff_prover]
#[verifier::rlimit(40)]
fn cells_pass_exec(
    cells: &Vec<(u32, CellData)>,
    pal: &mut Palette,
    colors: &mut ColorPalette,
    fonts: &mut FontPalette,
    lines: &mut LinePalette,
) -> (out: Vec<usize>)
    requires
        pal_small(old(pal)@),
    ensures
        pal_small(final(pal)@),
        forall|j: int| 0 <= j < out@.len() ==> #[trigger] out@[j] <= final(pal)@.len(),
        (WState { formats: final(pal)@, pals: pals_of(final(colors), final(fonts), final(lines)) }, ints(out@))
            == cells_pass(
            cells@,
            WState { formats: old(pal)@, pals: pals_of(old(colors), old(fonts), old(lines)) },
        ),
{
    let ghost st0 = WState { formats: pal@, pals: pals_of(colors, fonts, lines) };
    let mut out: Vec<usize> = Vec::new();
    let mut i: usize = 0;
    while i < cells.len()
        invariant
            i <= cells@.len(),
            pal_small(pal@),
            forall|j: int| 0 <= j < out@.len() ==> #[trigger] out@[j] <= pal@.len(),
            (WState { formats: pal@, pals: pals_of(colors, fonts, lines) }, ints(out@)) == cells_pass(
                cells@.take(i as int),
                st0,
            ),
        decreases cells@.len() - i,
    {
        let ghost before = pal@;
        let ghost prev_out = out@;
        let f = cells[i].1.format(colors, fonts, lines);
        proof {
            lemma_intern_small(pal@, f@);
        }
        let k = pal.intern(f);
        out.push(k);
        proof {
            assert(cells@.take(i + 1).drop_last() =~= cells@.take(i as int));
            assert(out@ =~= prev_out.push(k));
            assert(ints(out@) =~= ints(prev_out).push(k as int));
            assert forall|j: int| 0 <= j < out@.len() implies #[trigger] out@[j] <= pal@.len() by {
                if j < out@.len() - 1 {
                    assert(before.len() <= pal@.len());
                }
            }
        }
        i = i + 1;
    }
    proof {
        keyed_take_all(cells@);
    }
    out
}

proof fn keyed_take_all<T>(s: Seq<T>)
    ensures
        s.take(s.len() as int) == s,
{
    lemma_take_all(s);
}

/// Nested palette indices as numbers.
pub open spec fn ints2(v: Seq<Vec<usize>>) -> Seq<Seq<int>> {
    v.map_values(|w: Vec<usize>| ints(w@))
}

fn rows_pass_exec(
    rows: &Vec<(u32, RowData)>,
    groups: &Vec<RowGroup>,
    pal: &mut Palette,
    colors: &mut ColorPalette,
    fonts: &mut FontPalette,
    lines: &mut LinePalette,
) -> (out: (Vec<usize>, Vec<Vec<usize>>))
    requires
        pal_small(old(pal)@),
    ensures
        pal_small(final(pal)@),
        (
            WState { formats: final(pal)@, pals: pals_of(final(colors), final(fonts), final(lines)) },
            ints(out.0@),
            ints2(out.1@),
        ) == rows_pass(
            rows@,
            groups@,
            WState { formats: old(pal)@, pals: pals_of(old(colors), old(fonts), old(lines)) },
        ),
{
    let ghost st0 = WState { formats: pal@, pals: pals_of(colors, fonts, lines) };
    let mut rf: Vec<usize> = Vec::new();
    let mut cf: Vec<Vec<usize>> = Vec::new();
    let mut i: usize = 0;
    while i < rows.len()
        invariant
            i <= rows@.len(),
            pal_small(pal@),
            (WState { formats: pal@, pals: pals_of(colors, fonts, lines) }, ints(rf@), ints2(cf@)) == rows_pass(
                rows@.take(i as int),
                groups@,
                st0,
            ),
        decreases rows@.len() - i,
    {
        let ghost prev_rf = rf@;
        let ghost prev_cf = cf@;
        let r = rows[i].0;
        let hid = is_hidden(groups, r);
        let f = row_format_exec(rows[i].1.height, hid);
        proof {
            lemma_intern_small(pal@, f@);
        }
        let k = pal.intern(f);
        let cells = cells_pass_exec(&rows[i].1.cells, pal, colors, fonts, lines);
        rf.push(k);
        cf.push(cells);
        proof {
            assert(rows@.take(i + 1).drop_last() =~= rows@.take(i as int));
            assert(rf@ =~= prev_rf.push(k));
            assert(ints(rf@) =~= ints(prev_rf).push(k as int));
            assert(cf@ =~= prev_cf.push(cells));
            assert(ints2(cf@) =~= ints2(prev_cf).push(ints(cells@)));
        }
        i = i + 1;
    }
    proof {
        lemma_take_all(rows@);
    }
    (rf, cf)
}

fn widths_pass_exec(ws: &Vec<(u32, i64)>, scale: i128, pal: &mut Palette) -> (out: Vec<usize>)
    requires
        pal_small(old(pal)@),
        scale == 1 || scale == 8,
    ensures
        pal_small(final(pal)@),
        (final(pal)@, ints(out@)) == widths_pass(ws@, scale as int, old(pal)@),
{
    let ghost p0 = pal@;
    let mut out: Vec<usize> = Vec::new();
    let mut i: usize = 0;
    while i < ws.len()
        invariant
            i <= ws@.len(),
            scale == 1 || scale == 8,
            pal_small(pal@),
            (pal@, ints(out@)) == widths_pass(ws@.take(i as int), scale as int, p0),
        decreases ws@.len() - i,
    {
        let ghost prev = out@;
        let f = Format::new();
        let v: i128 = if scale == 8 {
            ws[i].1 as i128 * 8
        } else {
            ws[i].1 as i128
        };
        proof {
            lemma_insert_small(f@, COL_WIDTH, v, 0);
        }
        let f = f.with(COL_WIDTH, v);
        proof {
            lemma_intern_small(pal@, f@);
        }
        let k = pal.intern(f);
        out.push(k);
        proof {
            assert(ws@.take(i + 1).drop_last() =~= ws@.take(i as int));
            assert(out@ =~= prev.push(k));
            assert(ints(out@) =~= ints(prev).push(k as int));
        }
        i = i + 1;
    }
    proof {
        lemma_take_all(ws@);
    }
    out
}

fn sets_pass_exec(sets: &Vec<ColumnSet>, pal: &mut Palette) -> (out: Vec<Vec<usize>>)
    requires
        pal_small(old(pal)@),
    ensures
        pal_small(final(pal)@),
        (final(pal)@, ints2(out@)) == sets_pass(sets@, old(pal)@),
{
    let ghost p0 = pal@;
    let mut out: Vec<Vec<usize>> = Vec::new();
    let mut i: usize = 0;
    while i < sets.len()
        invariant
            i <= sets@.len(),
            pal_small(pal@),
            (pal@, ints2(out@)) == sets_pass(sets@.take(i as int), p0),
        decreases sets@.len() - i,
    {
        let ghost prev = out@;
        let w = widths_pass_exec(&sets[i].widths, 1, pal);
        out.push(w);
        proof {
            assert(sets@.take(i + 1).drop_last() =~= sets@.take(i as int));
            assert(out@ =~= prev.push(w));
            assert(ints2(out@) =~= ints2(prev).push(ints(w@)));
        }
        i = i + 1;
    }
    proof {
        lemma_take_all(sets@);
    }
    out
}

/// The format of drawings: it takes its place after the column formats,
/// and it claims a style color first.
fn drawing_pass_exec(any: bool, pal: &mut Palette, colors: &mut ColorPalette) -> (k: usize)
    requires
        pal_small(old(pal)@),
    ensures
        pal_small(final(pal)@),
        any ==> final(colors)@.styles == intern_at(old(colors)@.styles, -10i64).0,
        any ==> (final(pal)@, k as int) == pal_intern(old(pal)@, drawing_format()),
        !any ==> final(colors)@ == old(colors)@ && final(pal)@ == old(pal)@ && k == 0,
        final(colors)@.colors == old(colors)@.colors,
{
    if !any {
        return 0;
    }
    colors.intern_style(-10);
    let f = Format::new();
    proof {
        lemma_insert_small(f@, V_ALIGN, 0, 0);
    }
    let f = f.with(V_ALIGN, 0);
    proof {
        lemma_insert_small(f@, BACK_COLOR, 2, 1);
    }
    let f = f.with(BACK_COLOR, 2);
    proof {
        lemma_intern_small(pal@, f@);
    }
    pal.intern(f)
}

// --- lengths of the passes ---------------------------------------------------------

pub proof fn lemma_cells_pass_len(cells: Seq<(u32, CellData)>, st: WState)
    ensures
        cells_pass(cells, st).1.len() == cells.len(),
    decreases cells.len(),
{
    if cells.len() > 0 {
        lemma_cells_pass_len(cells.drop_last(), st);
    }
}

pub proof fn lemma_rows_pass_len(rows: Seq<(u32, RowData)>, groups: Seq<RowGroup>, st: WState)
    ensures
        rows_pass(rows, groups, st).1.len() == rows.len(),
        rows_pass(rows, groups, st).2.len() == rows.len(),
        forall|i: int| 0 <= i < rows.len() ==> (#[trigger] rows_pass(rows, groups, st).2[i]).len() == rows[i].1.cells@.len(),
    decreases rows.len(),
{
    if rows.len() > 0 {
        lemma_rows_pass_len(rows.drop_last(), groups, st);
        let prev = rows_pass(rows.drop_last(), groups, st);
        let row = rows.last();
        let ri = pal_intern(prev.0.formats, row_format(row.1.height, hidden(groups, row.0)));
        lemma_cells_pass_len(row.1.cells@, WState { formats: ri.0, pals: prev.0.pals });
        assert forall|i: int| 0 <= i < rows.len() implies (#[trigger] rows_pass(rows, groups, st).2[i]).len()
            == rows[i].1.cells@.len() by {
            if i < rows.len() - 1 {
                assert(rows.drop_last()[i] == rows[i]);
            }
        }
    }
}

pub proof fn lemma_widths_pass_len(ws: Seq<(u32, i64)>, scale: int, p: Seq<Seq<(u32, i128)>>)
    ensures
        widths_pass(ws, scale, p).1.len() == ws.len(),
    decreases ws.len(),
{
    if ws.len() > 0 {
        lemma_widths_pass_len(ws.drop_last(), scale, p);
    }
}

pub proof fn lemma_sets_pass_len(sets: Seq<ColumnSet>, p: Seq<Seq<(u32, i128)>>)
    ensures
        sets_pass(sets, p).1.len() == sets.len(),
        forall|i: int| 0 <= i < sets.len() ==> (#[trigger] sets_pass(sets, p).1[i]).len() == sets[i].widths@.len(),
    decreases sets.len(),
{
    if sets.len() > 0 {
        lemma_sets_pass_len(sets.drop_last(), p);
        let prev = sets_pass(sets.drop_last(), p);
        lemma_widths_pass_len(sets.last().widths@, 1, prev.0);
        assert forall|i: int| 0 <= i < sets.len() implies (#[trigger] sets_pass(sets, p).1[i]).len()
            == sets[i].widths@.len() by {
            if i < sets.len() - 1 {
                assert(sets.drop_last()[i] == sets[i]);
            }
        }
    }
}

// --- the whole text -------------------------------------------------------------------

/// Some cell holds a value.
pub open spec fn has_values(rows: Seq<(u32, RowData)>) -> bool {
    exists|i: int, j: int|
        0 <= i < rows.len() && 0 <= j < rows[i].1.cells@.len() && (#[trigger] rows[i].1.cells@[j]).1.value is Some
}

fn has_values_exec(rows: &Vec<(u32, RowData)>) -> (b: bool)
    ensures
        b == has_values(rows@),
{
    let mut i: usize = 0;
    while i < rows.len()
        invariant
            i <= rows@.len(),
            forall|a: int, j: int|
                0 <= a < i && 0 <= j < rows@[a].1.cells@.len() ==> !((#[trigger] rows@[a].1.cells@[j]).1.value is Some),
        decreases rows@.len() - i,
    {
        let cells = &rows[i].1.cells;
        let mut j: usize = 0;
        while j < cells.len()
            invariant
                i < rows@.len(),
                cells == &rows@[i as int].1.cells,
                j <= cells@.len(),
                forall|a: int, k: int|
                    0 <= a < i && 0 <= k < rows@[a].1.cells@.len() ==> !((#[trigger] rows@[a].1.cells@[k]).1.value is Some),
                forall|k: int| 0 <= k < j ==> !((#[trigger] cells@[k]).1.value is Some),
            decreases cells@.len() - j,
        {
            if cells[j].1.value.is_some() {
                return true;
            }
            j = j + 1;
        }
        i = i + 1;
    }
    false
}

/// No palette has an entry before the document is walked.
pub open spec fn empty_state() -> WState {
    WState {
        formats: Seq::empty(),
        pals: Pals {
            colors: ColorsView { colors: Seq::empty(), styles: Seq::empty() },
            fonts: Seq::empty(),
            lines: Seq::empty(),
        },
    }
}

/// The MXL text of a document, without the file header, with `\n` line
/// breaks.
pub open spec fn mxl_text(doc: &SpreadDocData) -> Seq<char> {
    let rp = rows_pass(doc.rows@, doc.row_groups@, empty_state());
    let cw = widths_pass(doc.col_widths@, 8, rp.0.formats);
    let sp = sets_pass(doc.column_sets@, cw.0);
    let any = doc.drawings@.len() > 0;
    let colors = if any {
        ColorsView { styles: intern_at(rp.0.pals.colors.styles, -10i64).0, ..rp.0.pals.colors }
    } else {
        rp.0.pals.colors
    };
    let dp = if any {
        pal_intern(sp.0, drawing_format())
    } else {
        (sp.0, 0)
    };
    head_text(rp.0.pals.lines) + rows_text(doc.rows@, rp.1, rp.2) + cols_text(doc.width, doc.height, doc.col_widths@, cw.1)
        + sets_text(doc.column_sets@, sp.1) + row_sets_text(doc.row_sets@) + drawings_text(doc, dp.1) + groups_text(
        doc.row_groups@,
    ) + "0,0,0,\n"@ + merges_text(doc.merges@, doc.row_merges@, doc.col_merges@) + names_text(doc.names@)
        + page_text(page_pairs(doc.landscape, doc.print_scale, doc.margins)) + print_area_text(doc.print_area)
        + formats_tail(dp.0) + fonts_tail(rp.0.pals.fonts) + values_tail(has_values(doc.rows@), colors) + view_text(
        doc.show_grid,
        doc.fix_left,
        doc.fix_top,
    )
}

/// The MXL text of the document (no header, `\n` line breaks).
pub fn mxl_body(doc: &SpreadDocData) -> (s: String)
    requires
        doc.wf(),
    ensures
        s@ == mxl_text(doc),
{
    let mut pal = Palette::new();
    let mut colors = ColorPalette::new();
    let mut fonts = FontPalette::new();
    let mut lines = LinePalette::new();
    proof {
        assert(WState { formats: pal@, pals: pals_of(&colors, &fonts, &lines) } == empty_state()) by {
            assert(colors@.colors =~= Seq::<crate::model::Color>::empty());
        }
    }
    let (rf, cf) = rows_pass_exec(&doc.rows, &doc.row_groups, &mut pal, &mut colors, &mut fonts, &mut lines);
    let ghost rp = rows_pass(doc.rows@, doc.row_groups@, empty_state());
    let cwf = widths_pass_exec(&doc.col_widths, 8, &mut pal);
    let ghost cw = widths_pass(doc.col_widths@, 8, rp.0.formats);
    let sf = sets_pass_exec(&doc.column_sets, &mut pal);
    let ghost sp = sets_pass(doc.column_sets@, cw.0);
    let df = drawing_pass_exec(doc.drawings.len() > 0, &mut pal, &mut colors);
    proof {
        lemma_rows_pass_len(doc.rows@, doc.row_groups@, empty_state());
        lemma_widths_pass_len(doc.col_widths@, 8, rp.0.formats);
        lemma_sets_pass_len(doc.column_sets@, cw.0);
        assert(rf@.len() == doc.rows@.len()) by {
            assert(ints(rf@).len() == rf@.len());
        }
        assert(cf@.len() == doc.rows@.len()) by {
            assert(ints2(cf@).len() == cf@.len());
        }
        assert forall|i: int| 0 <= i < doc.rows@.len() implies (#[trigger] cf@[i])@.len() == doc.rows@[i].1.cells@.len() by {
            assert(ints2(cf@)[i] == ints(cf@[i]@));
        }
        assert(cwf@.len() == doc.col_widths@.len()) by {
            assert(ints(cwf@).len() == cwf@.len());
        }
        assert(sf@.len() == doc.column_sets@.len()) by {
            assert(ints2(sf@).len() == sf@.len());
        }
        assert forall|i: int| 0 <= i < doc.column_sets@.len() implies (#[trigger] sf@[i])@.len() == doc.column_sets@[i].widths@.len() by {
            assert(ints2(sf@)[i] == ints(sf@[i]@));
        }
        assert(ints2(cf@) == cf@.map_values(|w: Vec<usize>| w@.map_values(|x: usize| x as int))) by {
            assert(ints2(cf@) =~= cf@.map_values(|w: Vec<usize>| w@.map_values(|x: usize| x as int)));
        }
        assert(ints2(sf@) == crate::layout::nums2(sf@)) by {
            assert(ints2(sf@) =~= crate::layout::nums2(sf@));
        }
        assert(ints(cwf@) == crate::layout::nums(cwf@)) by {
            assert(ints(cwf@) =~= crate::layout::nums(cwf@));
        }
    }
    let mut out = String::new();
    push_head(&mut out, &lines);
    push_rows(&mut out, &doc.rows, &rf, &cf);
    push_cols(&mut out, doc.width, doc.height, &doc.col_widths, &cwf);
    push_sets(&mut out, &doc.column_sets, &sf);
    push_row_sets(&mut out, &doc.row_sets);
    push_drawings(&mut out, doc, df);
    push_groups(&mut out, &doc.row_groups);
    push_str(&mut out, "0,0,0,\n");
    push_merges(&mut out, doc);
    push_names(&mut out, &doc.names);
    push_page(&mut out, doc);
    push_print_area(&mut out, doc.print_area);
    push_formats(&mut out, &pal);
    push_fonts(&mut out, &fonts);
    let hv = has_values_exec(&doc.rows);
    push_values_tail(&mut out, hv, &colors);
    push_view(&mut out, doc);
    proof {
        assert(out@ =~= mxl_text(doc));
    }
    out
}

// --- files ---------------------------------------------------------------------------

/// `MOXCEL` and six bytes of version, as the platform writes them.
pub open spec fn mxl_header() -> Seq<u8> {
    seq![77u8, 79u8, 88u8, 67u8, 69u8, 76u8, 0u8, 8u8, 0u8, 1u8, 0u8, 12u8, 0u8]
}

/// The UTF-8 byte order mark.
pub open spec fn bom() -> Seq<u8> {
    seq![0xEFu8, 0xBBu8, 0xBFu8]
}

fn push_header(out: &mut Vec<u8>)
    ensures
        final(out)@ == old(out)@ + mxl_header(),
{
    out.push(77);
    out.push(79);
    out.push(88);
    out.push(67);
    out.push(69);
    out.push(76);
    out.push(0);
    out.push(8);
    out.push(0);
    out.push(1);
    out.push(0);
    out.push(12);
    out.push(0);
    proof {
        assert(final(out)@ =~= old(out)@ + mxl_header());
    }
}

fn push_bom(out: &mut Vec<u8>)
    ensures
        final(out)@ == old(out)@ + bom(),
{
    out.push(0xEF);
    out.push(0xBB);
    out.push(0xBF);
    proof {
        assert(final(out)@ =~= old(out)@ + bom());
    }
}

/// The bytes of an `.mxl` file: header, BOM and the text with `CR LF`.
pub fn to_mxl_bytes(doc: &SpreadDocData) -> (b: Vec<u8>)
    requires
        doc.wf(),
    ensures
        b@ == mxl_header() + bom() + utf8(crlf(mxl_text(doc))),
{
    let body = mxl_body(doc);
    let mut out: Vec<u8> = Vec::new();
    push_header(&mut out);
    push_bom(&mut out);
    push_text_bytes(&mut out, body.as_str(), true);
    proof {
        assert(out@ =~= mxl_header() + bom() + utf8(crlf(mxl_text(doc))));
    }
    out
}

/// The last column of a stored row with cells, or 0.
pub open spec fn last_col(row: RowData) -> u32 {
    if row.cells@.len() == 0 {
        0
    } else {
        row.cells@.last().0
    }
}

/// A row of the text file: the texts of its cells up to the last stored
/// one, tab between them; a row that is not stored is empty.
pub open spec fn txt_line(doc: &SpreadDocData, r: u32) -> Seq<char> {
    if as_map(doc.rows@).contains_key(r) {
        let last = last_col(as_map(doc.rows@)[r]);
        crate::format::join(
            Seq::new((last + 1) as nat, |c: int| doc.cell_or_blank(r, c as u32).text),
            "\t"@,
        )
    } else {
        Seq::empty()
    }
}

/// The text file: every row up to the height, `CR LF` between rows.
pub open spec fn txt_text(doc: &SpreadDocData) -> Seq<char> {
    crate::format::join(Seq::new(doc.height as nat, |r: int| txt_line(doc, r as u32)), "\r\n"@)
}

fn push_txt_line(out: &mut String, doc: &SpreadDocData, r: u32)
    requires
        doc.wf(),
    ensures
        final(out)@ == old(out)@ + txt_line(doc, r),
{
    match keyed::get(&doc.rows, r) {
        None => {},
        Some(row) => {
            let last: u32 = if row.cells.len() == 0 {
                0
            } else {
                row.cells[row.cells.len() - 1].0
            };
            proof {
                assert(last == last_col(*row));
            }
            let ghost parts = Seq::new((last + 1) as nat, |c: int| doc.cell_or_blank(r, c as u32).text);
            let ghost start = out@;
            let mut c: u64 = 0;
            while c <= last as u64
                invariant
                    doc.wf(),
                    c <= last as u64 + 1,
                    parts == Seq::new((last + 1) as nat, |c: int| doc.cell_or_blank(r, c as u32).text),
                    out@ == start + crate::format::join(parts.take(c as int), "\t"@),
                decreases last as u64 + 1 - c,
            {
                if c > 0 {
                    push_str(out, "\t");
                }
                let t = doc.cell_text(r, c as u32);
                push_str(out, t.as_str());
                proof {
                    crate::format::lemma_join_step(parts, "\t"@, c as int);
                }
                c = c + 1;
            }
            proof {
                lemma_take_all(parts);
            }
        },
    }
}

/// The bytes of a `.txt` export: BOM, then the rows.
pub fn to_txt_bytes(doc: &SpreadDocData) -> (b: Vec<u8>)
    requires
        doc.wf(),
    ensures
        b@ == bom() + utf8(txt_text(doc)),
{
    let ghost parts = Seq::new(doc.height as nat, |r: int| txt_line(doc, r as u32));
    let mut text = String::new();
    let mut r: u32 = 0;
    while r < doc.height
        invariant
            doc.wf(),
            r <= doc.height,
            parts == Seq::new(doc.height as nat, |r: int| txt_line(doc, r as u32)),
            text@ == crate::format::join(parts.take(r as int), "\r\n"@),
        decreases doc.height - r,
    {
        if r > 0 {
            push_str(&mut text, "\r\n");
        }
        push_txt_line(&mut text, doc, r);
        proof {
            crate::format::lemma_join_step(parts, "\r\n"@, r as int);
        }
        r = r + 1;
    }
    proof {
        lemma_take_all(parts);
    }
    let mut out: Vec<u8> = Vec::new();
    push_bom(&mut out);
    push_text_bytes(&mut out, text.as_str(), false);
    proof {
        assert(out@ =~= bom() + utf8(txt_text(doc)));
    }
    out
}

/// The formats a document can be written in.
#[derive(Debug, Clone, Copy, PartialEq, Eq, Structural)]
pub enum FileKind {
    Mxl,
    Txt,
    Xlsx,
    Pdf,
}

} // verus!
