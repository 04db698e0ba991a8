//! The sections of the MXL text, each as what it reads and how it is
//! written.

use vstd::prelude::*;
use crate::format::{concat, lemma_concat_step, lemma_take_all, lines_text, LinePalette};
use crate::model::{CellData, CellView, RowData};
use crate::records::flag;
use crate::text::{push_int, push_quoted, push_str, quote, spec_int};

verus! {

// --- head ----------------------------------------------------------------------

/// The head of the file: version, language, default sizes, the line
/// palette and five empty pairs.
pub open spec fn head_text(lines: Seq<crate::model::Line>) -> Seq<char> {
    "{8,1,12,\n"@ + "{\"#\",\"\",1,1,\"#\",\"Язык по умолчанию\",\"Язык по умолчанию\",0},\n"@ + "{128,72},\n"@
        + lines_text(lines) + "{0,0},\n{0,0},\n{0,0},\n{0,0},\n{0,0},\n"@
}

pub fn push_head(out: &mut String, lines: &LinePalette)
    ensures
        final(out)@ == old(out)@ + head_text(lines.lines@),
{
    push_str(out, "{8,1,12,\n");
    push_str(out, "{\"#\",\"\",1,1,\"#\",\"Язык по умолчанию\",\"Язык по умолчанию\",0},\n");
    push_str(out, "{128,72},\n");
    lines.push_render(out);
    push_str(out, "{0,0},\n{0,0},\n{0,0},\n{0,0},\n{0,0},\n");
    proof {
        assert(final(out)@ =~= old(out)@ + head_text(lines.lines@));
    }
}

// --- cells ------------------------------------------------------------------------

/// The localized string of a cell: language `#` for text, the empty
/// language for a template parameter.
pub open spec fn text_block(c: CellView) -> Seq<char> {
    if c.parameter.len() == 0 {
        "{"@ + quote("#"@) + ","@ + quote(c.text) + "}\n"@
    } else {
        "{"@ + quote(""@) + ","@ + quote(c.parameter) + "}\n"@
    }
}

fn push_text_block(out: &mut String, c: &CellData)
    ensures
        final(out)@ == old(out)@ + text_block(c@),
{
    push_str(out, "{");
    if c.parameter.as_str().is_empty() {
        push_quoted(out, "#");
        push_str(out, ",");
        push_quoted(out, c.text.as_str());
    } else {
        push_quoted(out, "");
        push_str(out, ",");
        push_quoted(out, c.parameter.as_str());
    }
    push_str(out, "}\n");
    proof {
        assert(final(out)@ =~= old(out)@ + text_block(c@));
    }
}

/// What a cell record carries, one bit each: value, detail, detail
/// parameter, text.
pub open spec fn cell_mask(c: CellView) -> int {
    flag(c.value is Some) * 2 + flag(c.detail is Some) * 4 + flag(c.detail_param.len() > 0) * 8 + flag(
        c.has_text(),
    ) * 16
}

pub open spec fn detail_part(c: CellView) -> Seq<char> {
    match c.detail {
        Some(d) => "\n{\"S\","@ + quote(d) + "},"@,
        None => Seq::empty(),
    }
}

pub open spec fn detail_param_part(c: CellView) -> Seq<char> {
    if c.detail_param.len() > 0 {
        quote(c.detail_param) + ","@
    } else {
        Seq::empty()
    }
}

pub open spec fn text_part(c: CellView) -> Seq<char> {
    if c.has_text() {
        "\n{1,1,\n"@ + text_block(c) + "},0"@
    } else {
        Seq::empty()
    }
}

/// The record of a cell with format `fmt`.
pub open spec fn cell_record(c: CellView, fmt: int) -> Seq<char> {
    if c.detail is Some || c.detail_param.len() > 0 {
        "{"@ + spec_int(cell_mask(c)) + ","@ + spec_int(fmt) + ","@ + detail_part(c) + detail_param_part(c)
            + text_part(c) + "},"@
    } else if c.value is Some {
        "{2,"@ + spec_int(fmt) + ",\n"@ + "{\"S\","@ + quote(c.value->0) + "}\n"@ + "},"@
    } else if c.has_text() {
        "{16,"@ + spec_int(fmt) + ",\n{1,1,\n"@ + text_block(c) + "},0},"@
    } else {
        "{0,"@ + spec_int(fmt) + "},"@
    }
}

fn mask_of(c: &CellData) -> (m: i128)
    ensures
        m == cell_mask(c@),
{
    let a: i128 = if c.value.is_some() { 2 } else { 0 };
    let b: i128 = if c.detail.is_some() { 4 } else { 0 };
    let d: i128 = if c.detail_param.as_str().is_empty() { 0 } else { 8 };
    let e: i128 = if c.has_text() { 16 } else { 0 };
    a + b + d + e
}

fn push_detail_parts(out: &mut String, c: &CellData)
    ensures
        final(out)@ == old(out)@ + detail_part(c@) + detail_param_part(c@),
{
    if let Some(d) = &c.detail {
        push_str(out, "\n{\"S\",");
        push_quoted(out, d.as_str());
        push_str(out, "},");
    }
    proof {
        assert(out@ =~= old(out)@ + detail_part(c@));
    }
    let ghost mid = out@;
    if !c.detail_param.as_str().is_empty() {
        push_quoted(out, c.detail_param.as_str());
        push_str(out, ",");
    }
    proof {
        assert(out@ =~= mid + detail_param_part(c@));
        assert(final(out)@ =~= old(out)@ + detail_part(c@) + detail_param_part(c@));
    }
}

fn push_text_part(out: &mut String, c: &CellData)
    ensures
        final(out)@ == old(out)@ + text_part(c@),
{
    if c.has_text() {
        push_str(out, "\n{1,1,\n");
        push_text_block(out, c);
        push_str(out, "},0");
    }
    proof {
        assert(final(out)@ =~= old(out)@ + text_part(c@));
    }
}

fn push_full_record(out: &mut String, c: &CellData, fmt: usize)
    requires
        c@.detail is Some || c@.detail_param.len() > 0,
    ensures
        final(out)@ == old(out)@ + cell_record(c@, fmt as int),
{
    let mask = mask_of(c);
    push_str(out, "{");
    push_int(out, mask);
    push_str(out, ",");
    push_int(out, fmt as i128);
    push_str(out, ",");
    let ghost mid = out@;
    push_detail_parts(out, c);
    push_text_part(out, c);
    push_str(out, "},");
    proof {
        assert(final(out)@ =~= old(out)@ + cell_record(c@, fmt as int));
    }
}

pub fn push_cell_record(out: &mut String, c: &CellData, fmt: usize)
    ensures
        final(out)@ == old(out)@ + cell_record(c@, fmt as int),
{
    if c.detail.is_some() || !c.detail_param.as_str().is_empty() {
        push_full_record(out, c, fmt);
    } else if let Some(p) = &c.value {
        push_str(out, "{2,");
        push_int(out, fmt as i128);
        push_str(out, ",\n");
        push_str(out, "{\"S\",");
        push_quoted(out, p.as_str());
        push_str(out, "}\n");
        push_str(out, "},");
        proof {
            assert(final(out)@ =~= old(out)@ + cell_record(c@, fmt as int));
        }
    } else if c.has_text() {
        push_str(out, "{16,");
        push_int(out, fmt as i128);
        push_str(out, ",\n{1,1,\n");
        push_text_block(out, c);
        push_str(out, "},0},");
        proof {
            assert(final(out)@ =~= old(out)@ + cell_record(c@, fmt as int));
        }
    } else {
        push_str(out, "{0,");
        push_int(out, fmt as i128);
        push_str(out, "},");
        proof {
            assert(final(out)@ =~= old(out)@ + cell_record(c@, fmt as int));
        }
    }
}

// --- rows --------------------------------------------------------------------------

/// The head of a row: index, format, number of cells and the first column;
/// a row without cells has three fields.
pub open spec fn row_header(r: u32, fmt: int, cells: Seq<(u32, CellData)>) -> Seq<char> {
    if cells.len() > 0 {
        spec_int(r as int) + ","@ + spec_int(fmt) + ","@ + spec_int(cells.len() as int) + ","@ + spec_int(
            cells[0].0 as int,
        ) + ","@
    } else {
        spec_int(r as int) + ","@ + spec_int(fmt) + ",0,"@
    }
}

/// A cell record; inside a row the column of the next cell follows it.
pub open spec fn cell_piece(cells: Seq<(u32, CellData)>, fmts: Seq<int>, j: int) -> Seq<char> {
    cell_record(cells[j].1@, fmts[j]) + if j + 1 < cells.len() {
        spec_int(cells[j + 1].0 as int) + ",\n"@
    } else {
        Seq::empty()
    }
}

pub open spec fn cells_text(cells: Seq<(u32, CellData)>, fmts: Seq<int>) -> Seq<char> {
    concat(Seq::new(cells.len(), |j: int| cell_piece(cells, fmts, j)))
}

/// A row: its head, then, when it has cells, a line break and the cells.
/// The head of the next row continues the line of the last cell.
pub open spec fn row_piece(row: (u32, RowData), fmt: int, fmts: Seq<int>) -> Seq<char> {
    row_header(row.0, fmt, row.1.cells@) + if row.1.cells@.len() > 0 {
        "\n"@ + cells_text(row.1.cells@, fmts)
    } else {
        Seq::empty()
    }
}

/// All stored rows and cells, empty ones too.
pub open spec fn rows_text(rows: Seq<(u32, RowData)>, rf: Seq<int>, cf: Seq<Seq<int>>) -> Seq<char> {
    "{0,0},0,2,"@ + spec_int(rows.len() as int) + ","@ + concat(
        Seq::new(rows.len(), |i: int| row_piece(rows[i], rf[i], cf[i])),
    ) + "\n"@
}

fn push_cells(out: &mut String, cells: &Vec<(u32, CellData)>, fmts: &Vec<usize>)
    requires
        fmts@.len() == cells@.len(),
    ensures
        final(out)@ == old(out)@ + cells_text(cells@, fmts@.map_values(|x: usize| x as int)),
{
    let ghost f = fmts@.map_values(|x: usize| x as int);
    let ghost parts = Seq::new(cells@.len(), |j: int| cell_piece(cells@, f, j));
    let ghost start = out@;
    let mut j: usize = 0;
    while j < cells.len()
        invariant
            fmts@.len() == cells@.len(),
            f == fmts@.map_values(|x: usize| x as int),
            parts == Seq::new(cells@.len(), |j: int| cell_piece(cells@, f, j)),
            j <= cells@.len(),
            out@ == start + concat(parts.take(j as int)),
        decreases cells@.len() - j,
    {
        let ghost before = out@;
        push_cell_record(out, &cells[j].1, fmts[j]);
        if j + 1 < cells.len() {
            push_int(out, cells[j + 1].0 as i128);
            push_str(out, ",\n");
        }
        proof {
            assert(out@ =~= before + cell_piece(cells@, f, j as int));
            lemma_concat_step(parts, j as int);
        }
        j = j + 1;
    }
    proof {
        lemma_take_all(parts);
    }
}

fn push_row(out: &mut String, row: &(u32, RowData), fmt: usize, fmts: &Vec<usize>)
    requires
        fmts@.len() == row.1.cells@.len(),
    ensures
        final(out)@ == old(out)@ + row_piece(*row, fmt as int, fmts@.map_values(|x: usize| x as int)),
{
    let cells = &row.1.cells;
    push_int(out, row.0 as i128);
    push_str(out, ",");
    push_int(out, fmt as i128);
    if cells.len() > 0 {
        push_str(out, ",");
        push_int(out, cells.len() as i128);
        push_str(out, ",");
        push_int(out, cells[0].0 as i128);
        push_str(out, ",");
    } else {
        push_str(out, ",0,");
    }
    proof {
        assert(out@ =~= old(out)@ + row_header(row.0, fmt as int, cells@));
    }
    let ghost mid = out@;
    if cells.len() > 0 {
        push_str(out, "\n");
        push_cells(out, cells, fmts);
    }
    proof {
        assert(final(out)@ =~= old(out)@ + row_piece(*row, fmt as int, fmts@.map_values(|x: usize| x as int)));
    }
}

pub fn push_rows(out: &mut String, rows: &Vec<(u32, RowData)>, rf: &Vec<usize>, cf: &Vec<Vec<usize>>)
    requires
        rf@.len() == rows@.len(),
        cf@.len() == rows@.len(),
        forall|i: int| 0 <= i < rows@.len() ==> (#[trigger] cf@[i])@.len() == rows@[i].1.cells@.len(),
    ensures
        final(out)@ == old(out)@ + rows_text(
            rows@,
            rf@.map_values(|x: usize| x as int),
            cf@.map_values(|w: Vec<usize>| w@.map_values(|x: usize| x as int)),
        ),
{
    let ghost f = rf@.map_values(|x: usize| x as int);
    let ghost g = cf@.map_values(|w: Vec<usize>| w@.map_values(|x: usize| x as int));
    let ghost parts = Seq::new(rows@.len(), |i: int| row_piece(rows@[i], f[i], g[i]));
    push_str(out, "{0,0},0,2,");
    push_int(out, rows.len() as i128);
    push_str(out, ",");
    let ghost start = out@;
    let mut i: usize = 0;
    while i < rows.len()
        invariant
            rf@.len() == rows@.len(),
            cf@.len() == rows@.len(),
            forall|i: int| 0 <= i < rows@.len() ==> (#[trigger] cf@[i])@.len() == rows@[i].1.cells@.len(),
            f == rf@.map_values(|x: usize| x as int),
            g == cf@.map_values(|w: Vec<usize>| w@.map_values(|x: usize| x as int)),
            parts == Seq::new(rows@.len(), |i: int| row_piece(rows@[i], f[i], g[i])),
            i <= rows@.len(),
            out@ == start + concat(parts.take(i as int)),
        decreases rows@.len() - i,
    {
        let ghost before = out@;
        push_row(out, &rows[i], rf[i], &cf[i]);
        proof {
            assert(out@ == before + parts[i as int]);
            lemma_concat_step(parts, i as int);
        }
        i = i + 1;
    }
    push_str(out, "\n");
    proof {
        lemma_take_all(parts);
        assert(final(out)@ =~= old(out)@ + rows_text(rows@, f, g));
    }
}

} // verus!
