//! The XLSX export: a minimal OOXML package of seven parts that the
//! platform reads back. Strings go to `sharedStrings`, as the platform
//! itself writes them.

use vstd::prelude::*;
use crate::bytes::{push_text_bytes, utf8};
use crate::format::{concat, intern_at, lemma_concat_step, lemma_take_all};
use crate::model::{CellData, CellView, RowData, SpreadDocData};
use crate::text::{push_int, push_str, spec_int};
use crate::xlsx_layout::{Layout, Quad, merge_rects, merge_rects_of, overlap, overlaps_any, span_of};
use crate::xlsx_styles::{BookView, StyleBook, book_intern, push_nat, styles, styles_text};
use crate::xlsx_text::{
    SharedStrings, as_number, cell_ref_text, content_types, content_types_text, number_text, push_cell_ref,
    push_xml_header, root_rels, root_rels_text, shared_strings, shared_strings_text, workbook, workbook_rels,
    workbook_rels_text, workbook_text, xml_header,
};

verus! {

// --- the zip archive -------------------------------------------------------------------

/// A zip archive being written in memory: a `zip::ZipWriter` over a
/// cursor, with the files it holds and whether one is open for writing.
#[verifier::external_body]
pub struct Archive {
    inner: zip::ZipWriter<std::io::Cursor<Vec<u8>>>,
}

/// The files the archive holds so far: names and contents, in order.
pub uninterp spec fn zip_entries(w: Archive) -> Seq<(Seq<char>, Seq<u8>)>;

/// Whether a file of the archive is open for writing.
pub uninterp spec fn zip_writing(w: Archive) -> bool;

/// Whether no file was ever given up half written: the writer removes such
/// a file from its list but leaves its bytes in the buffer.
pub uninterp spec fn zip_clean(w: Archive) -> bool;

/// The bytes of the archive `ZipWriter::finish` makes of those files
/// (deflate at level 1, the default time stamp).
pub uninterp spec fn zip_archive(entries: Seq<(Seq<char>, Seq<u8>)>) -> Seq<u8>;

/// The bytes of all the files.
pub open spec fn zip_bytes(e: Seq<(Seq<char>, Seq<u8>)>) -> int
    decreases e.len(),
{
    if e.len() == 0 {
        0
    } else {
        zip_bytes(e.drop_last()) + e.last().1.len()
    }
}

/// Files the writer takes without running into any of its limits: fewer
/// than 1024, with names shorter than 1024 characters and 1 GiB of
/// contents in all. Deflate never makes a block larger than its input and
/// a few bytes, so no size or offset in the archive reaches 4 GiB.
pub open spec fn zip_room(e: Seq<(Seq<char>, Seq<u8>)>) -> bool {
    &&& e.len() < 1024
    &&& forall|k: int| 0 <= k < e.len() ==> (#[trigger] e[k]).0.len() < 1024
    &&& zip_bytes(e) < 0x4000_0000
}

/// A file of that name is in the archive.
pub open spec fn zip_named(e: Seq<(Seq<char>, Seq<u8>)>, name: Seq<char>) -> bool {
    exists|k: int| 0 <= k < e.len() && (#[trigger] e[k]).0 == name
}

/// `zip::ZipWriter::new` over an empty in-memory cursor: no files yet,
/// none open.
#[verifier::external_body]
fn zip_new() -> (w: Archive)
    ensures
        zip_entries(w) == Seq::<(Seq<char>, Seq<u8>)>::empty(),
        !zip_writing(w),
        zip_clean(w),
{
    Archive { inner: zip::ZipWriter::new(std::io::Cursor::new(Vec::new())) }
}

/// `zip::ZipWriter::start_file` with deflate at level 1 and the default
/// time stamp. It first finishes the file that is open, then adds a new
/// empty file that is open for writing. It refuses a name already taken;
/// a name longer than 65535 bytes makes it panic.
#[verifier::external_body]
fn zip_start_file(w: &mut Archive, name: &str) -> (ok: bool)
    requires
        name@.len() < 1024,
    ensures
        ok ==> zip_entries(*final(w)) == zip_entries(*old(w)).push((name@, Seq::<u8>::empty())) && zip_writing(
            *final(w),
        ) && (zip_clean(*old(w)) ==> zip_clean(*final(w))),
        !zip_named(zip_entries(*old(w)), name@) && zip_room(zip_entries(*old(w)).push((name@, Seq::<u8>::empty())))
            ==> ok,
{
    let options = zip::write::SimpleFileOptions::default().compression_method(
        zip::CompressionMethod::Deflated,
    ).compression_level(Some(1)).last_modified_time(zip::DateTime::default());
    w.inner.start_file(name, options).is_ok()
}

/// `std::io::Write::write_all` on the writer: the bytes are appended to
/// the open file. Empty data is taken without a call to the writer; with
/// no file open, other data is refused.
#[verifier::external_body]
fn zip_write_all(w: &mut Archive, data: &[u8]) -> (ok: bool)
    ensures
        ok && data@.len() == 0 ==> zip_entries(*final(w)) == zip_entries(*old(w)),
        ok && data@.len() > 0 ==> zip_writing(*old(w)) && zip_entries(*old(w)).len() > 0 && zip_entries(*final(w))
            == zip_entries(*old(w)).update(
            zip_entries(*old(w)).len() - 1,
            (zip_entries(*old(w)).last().0, zip_entries(*old(w)).last().1 + data@),
        ),
        ok ==> zip_writing(*final(w)) == zip_writing(*old(w)) && zip_clean(*final(w)) == zip_clean(*old(w)),
        zip_writing(*old(w)) && zip_entries(*old(w)).len() > 0 && zip_room(
            zip_entries(*old(w)).update(
                zip_entries(*old(w)).len() - 1,
                (zip_entries(*old(w)).last().0, zip_entries(*old(w)).last().1 + data@),
            ),
        ) ==> ok,
{
    std::io::Write::write_all(&mut w.inner, data).is_ok()
}

/// `zip::ZipWriter::finish`, then the bytes of the cursor. When no file
/// was given up half written, the bytes are the archive of the files.
#[verifier::external_body]
fn zip_finish(w: Archive) -> (r: Option<Vec<u8>>)
    ensures
        zip_clean(w) && r is Some ==> r->0@ == zip_archive(zip_entries(w)),
        zip_room(zip_entries(w)) ==> r is Some,
{
    match w.inner.finish() {
        Ok(c) => Some(c.into_inner()),
        Err(_) => None,
    }
}

proof fn lemma_zip_bytes_concat(a: Seq<(Seq<char>, Seq<u8>)>, b: Seq<(Seq<char>, Seq<u8>)>)
    ensures
        zip_bytes(a + b) == zip_bytes(a) + zip_bytes(b),
        zip_bytes(b) >= 0,
    decreases b.len(),
{
    if b.len() == 0 {
        assert(a + b =~= a);
    } else {
        lemma_zip_bytes_concat(a, b.drop_last());
        assert((a + b).drop_last() =~= a + b.drop_last());
        assert((a + b).last() == b.last());
    }
}

/// Taking files from the end leaves room.
proof fn lemma_zip_room_prefix(a: Seq<(Seq<char>, Seq<u8>)>, b: Seq<(Seq<char>, Seq<u8>)>)
    requires
        zip_room(a + b),
    ensures
        zip_room(a),
{
    lemma_zip_bytes_concat(a, b);
    assert forall|k: int| 0 <= k < a.len() implies (#[trigger] a[k]).0.len() < 1024 by {
        assert((a + b)[k] == a[k]);
    }
}

/// Adds a file of text; `false` when the archive refused. It does not
/// refuse a new name with room for the file in an archive where no file
/// was given up.
fn zip_add(w: &mut Archive, name: &str, text: &str) -> (ok: bool)
    requires
        name@.len() < 1024,
    ensures
        ok ==> zip_entries(*final(w)) == zip_entries(*old(w)).push((name@, utf8(text@))),
        ok ==> (zip_clean(*old(w)) ==> zip_clean(*final(w))),
        !zip_named(zip_entries(*old(w)), name@) && zip_room(zip_entries(*old(w)).push((name@, utf8(text@)))) ==> ok,
{
    let ghost e0 = zip_entries(*w);
    proof {
        let e1 = e0.push((name@, utf8(text@)));
        let e2 = e0.push((name@, Seq::<u8>::empty()));
        if zip_room(e1) {
            lemma_zip_bytes_concat(e0, seq![(name@, utf8(text@))]);
            lemma_zip_bytes_concat(e0, seq![(name@, Seq::<u8>::empty())]);
            assert(seq![(name@, utf8(text@))].drop_last() =~= Seq::<(Seq<char>, Seq<u8>)>::empty());
            assert(seq![(name@, Seq::<u8>::empty())].drop_last() =~= Seq::<(Seq<char>, Seq<u8>)>::empty());
            assert(e0 + seq![(name@, utf8(text@))] == e1);
            assert(e0 + seq![(name@, Seq::<u8>::empty())] == e2);
            assert forall|k: int| 0 <= k < e2.len() implies (#[trigger] e2[k]).0.len() < 1024 by {
                assert(e1[k].0 == e2[k].0);
            }
        }
    }
    if !zip_start_file(w, name) {
        return false;
    }
    let mut bytes: Vec<u8> = Vec::new();
    push_text_bytes(&mut bytes, text, false);
    proof {
        assert(Seq::<u8>::empty() + bytes@ =~= utf8(text@));
        let e2 = zip_entries(*w);
        assert(e2.update(e2.len() - 1, (e2.last().0, e2.last().1 + bytes@)) =~= e0.push((name@, utf8(text@))));
    }
    let ok = zip_write_all(w, bytes.as_slice());
    proof {
        if ok {
            assert(zip_entries(*final(w)) =~= zip_entries(*old(w)).push((name@, utf8(text@))));
        }
    }
    ok
}

// --- the sheet ------------------------------------------------------------------------

/// What a cell shows in the workbook: the presentation of its value, its
/// text or its parameter name, the first one that is not empty.
pub open spec fn display(c: CellView) -> Option<Seq<char>> {
    match c.value {
        Some(v) => if v.len() > 0 {
            Some(v)
        } else if c.text.len() > 0 {
            Some(c.text)
        } else if c.parameter.len() > 0 {
            Some(c.parameter)
        } else {
            None
        },
        None => if c.text.len() > 0 {
            Some(c.text)
        } else if c.parameter.len() > 0 {
            Some(c.parameter)
        } else {
            None
        },
    }
}

/// The cells of a row that show something: column, text, style, numeric
/// flag; their styles take places in the book in that order.
pub open spec fn shown_cells(cells: Seq<(u32, CellData)>, b: BookView) -> (BookView, Seq<(u32, Seq<char>, int, bool)>)
    decreases cells.len(),
{
    if cells.len() == 0 {
        (b, Seq::empty())
    } else {
        let p = shown_cells(cells.drop_last(), b);
        let c = cells.last();
        match display(c.1@) {
            Some(t) => {
                let bi = book_intern(p.0, c.1@);
                (bi.0, p.1.push((c.0, t, bi.1, c.1@.numeric)))
            },
            None => p,
        }
    }
}

/// A cell element: a number when the cell has a number format and its
/// text reads as one, else a shared string.
pub open spec fn cell_xml(r: u32, c: u32, style: int, t: Seq<char>, numeric: bool, ss: Seq<Seq<char>>) -> (Seq<Seq<char>>, Seq<char>) {
    match (if numeric {
        number_text(t)
    } else {
        None
    }) {
        Some(n) => (ss, "<c r=\""@ + cell_ref_text(r, c) + "\" s=\""@ + spec_int(style) + "\"><v>"@ + n + "</v></c>"@),
        None => (
            intern_at(ss, t).0,
            "<c r=\""@ + cell_ref_text(r, c) + "\" s=\""@ + spec_int(style) + "\" t=\"s\"><v>"@ + spec_int(
                intern_at(ss, t).1,
            ) + "</v></c>"@,
        ),
    }
}

/// One shown cell of row `r` on the physical grid: the strings, the spans
/// wider than one column, and the text after it.
pub open spec fn emit_step(
    p: (Seq<Seq<char>>, Seq<(u32, u32, u32)>, Seq<char>),
    x: (u32, Seq<char>, int, bool),
    r: u32,
    l: &Layout,
) -> (Seq<Seq<char>>, Seq<(u32, u32, u32)>, Seq<char>) {
    let sp = span_of(l.grid@, l.bounds_view(), l.bindings@, r, x.0);
    let spans2 = if sp.1 > sp.0 {
        p.1.push((r, sp.0, sp.1))
    } else {
        p.1
    };
    let cx = cell_xml(r, sp.0, x.2, x.1, x.3, p.0);
    (cx.0, spans2, p.2 + cx.1)
}

/// The shown cells of row `r`, one after another.
pub open spec fn emit(
    shown: Seq<(u32, Seq<char>, int, bool)>,
    r: u32,
    l: &Layout,
    p: (Seq<Seq<char>>, Seq<(u32, u32, u32)>, Seq<char>),
) -> (Seq<Seq<char>>, Seq<(u32, u32, u32)>, Seq<char>)
    decreases shown.len(),
{
    if shown.len() == 0 {
        p
    } else {
        emit_step(emit(shown.drop_last(), r, l, p), shown.last(), r, l)
    }
}

pub open spec fn row_open(r: u32, h: Option<i64>) -> Seq<char> {
    match h {
        Some(h) => "<row r=\""@ + spec_int(r + 1) + "\" ht=\""@ + spec_int(h as int) + "\" customHeight=\"1\">"@,
        None => "<row r=\""@ + spec_int(r + 1) + "\">"@,
    }
}

pub struct SheetState {
    pub strings: Seq<Seq<char>>,
    pub book: BookView,
    pub spans: Seq<(u32, u32, u32)>,
    pub text: Seq<char>,
}

/// One row of the sheet; a row with nothing shown and no height is left
/// out.
pub open spec fn row_step(p: SheetState, r: u32, row: RowData, l: &Layout) -> SheetState {
    let sc = shown_cells(row.cells@, p.book);
    if sc.1.len() == 0 && row.height is None {
        SheetState { book: sc.0, ..p }
    } else {
        let e = emit(sc.1, r, l, (p.strings, p.spans, p.text + row_open(r, row.height)));
        SheetState { strings: e.0, book: sc.0, spans: e.1, text: e.2 + "</row>"@ }
    }
}

/// The rows of the sheet.
pub open spec fn sheet_rows(rows: Seq<(u32, RowData)>, l: &Layout, st: SheetState) -> SheetState
    decreases rows.len(),
{
    if rows.len() == 0 {
        st
    } else {
        row_step(sheet_rows(rows.drop_last(), l, st), rows.last().0, rows.last().1, l)
    }
}

/// Spans a layout makes join the merges unless they overlap one.
pub open spec fn add_spans(ms: Seq<Quad>, spans: Seq<(u32, u32, u32)>) -> Seq<Quad>
    decreases spans.len(),
{
    if spans.len() == 0 {
        ms
    } else {
        let p = add_spans(ms, spans.drop_last());
        let s = spans.last();
        if overlaps_any(p, (s.0, s.1, s.0, s.2)) {
            p
        } else {
            p.push((s.0, s.1, s.0, s.2))
        }
    }
}

pub open spec fn quad_le(a: Quad, b: Quad) -> bool {
    a.0 < b.0 || (a.0 == b.0 && (a.1 < b.1 || (a.1 == b.1 && (a.2 < b.2 || (a.2 == b.2 && a.3 <= b.3)))))
}

pub open spec fn insert_quad(t: Seq<Quad>, x: Quad) -> Seq<Quad>
    decreases t.len(),
{
    if t.len() == 0 {
        seq![x]
    } else if quad_le(t.last(), x) {
        t.push(x)
    } else {
        insert_quad(t.drop_last(), x).push(t.last())
    }
}

/// The rectangles in order (an insertion sort).
pub open spec fn sort_quads(s: Seq<Quad>) -> Seq<Quad>
    decreases s.len(),
{
    if s.len() == 0 {
        s
    } else {
        insert_quad(sort_quads(s.drop_last()), s.last())
    }
}

pub open spec fn merge_cell_xml(q: Quad) -> Seq<char> {
    "<mergeCell ref=\""@ + cell_ref_text(q.0, q.1) + ":"@ + cell_ref_text(q.2, q.3) + "\"/>"@
}

pub open spec fn merges_xml(ms: Seq<Quad>) -> Seq<char> {
    if ms.len() == 0 {
        Seq::empty()
    } else {
        "<mergeCells count=\""@ + spec_int(ms.len() as int) + "\">"@ + concat(
            Seq::new(ms.len(), |i: int| merge_cell_xml(ms[i])),
        ) + "</mergeCells>"@
    }
}

pub open spec fn col_xml(w: (u32, i64)) -> Seq<char> {
    "<col min=\""@ + spec_int(w.0 + 1) + "\" max=\""@ + spec_int(w.0 + 1) + "\" width=\""@ + spec_int(w.1 as int)
        + "\" customWidth=\"1\"/>"@
}

pub open spec fn cols_xml(ws: Seq<(u32, i64)>) -> Seq<char> {
    if ws.len() == 0 {
        Seq::empty()
    } else {
        "<cols>"@ + concat(Seq::new(ws.len(), |i: int| col_xml(ws[i]))) + "</cols>"@
    }
}

/// The sheet, and the strings and styles after it.
pub open spec fn worksheet_of(doc: &SpreadDocData, l: &Layout, ss: Seq<Seq<char>>, b: BookView) -> (
    Seq<Seq<char>>,
    BookView,
    Seq<char>,
) {
    let st = sheet_rows(doc.rows@, l, SheetState { strings: ss, book: b, spans: Seq::empty(), text: Seq::empty() });
    let ms = sort_quads(add_spans(merge_rects_of(doc, l), st.spans));
    (
        st.strings,
        st.book,
        xml_header() + "<worksheet xmlns=\"http://schemas.openxmlformats.org/spreadsheetml/2006/main\">"@ + cols_xml(
            doc.col_widths@,
        ) + "<sheetData>"@ + st.text + "</sheetData>"@ + merges_xml(ms) + "</worksheet>"@,
    )
}

fn shown_cells_exec(cells: &Vec<(u32, CellData)>, book: &mut StyleBook) -> (out: Vec<(u32, String, u128, bool)>)
    ensures
        (final(book)@, out@.map_values(|x: (u32, String, u128, bool)| (x.0, x.1@, x.2 as int, x.3))) == shown_cells(
            cells@,
            old(book)@,
        ),
{
    let ghost b0 = book@;
    let mut out: Vec<(u32, String, u128, bool)> = Vec::new();
    let mut i: usize = 0;
    while i < cells.len()
        invariant
            i <= cells@.len(),
            (book@, out@.map_values(|x: (u32, String, u128, bool)| (x.0, x.1@, x.2 as int, x.3))) == shown_cells(
                cells@.take(i as int),
                b0,
            ),
        decreases cells@.len() - i,
    {
        let c = &cells[i].1;
        let ghost prev = out@;
        proof {
            assert(cells@.take(i + 1).drop_last() =~= cells@.take(i as int));
        }
        let shown: Option<String> = match &c.value {
            Some(v) => if !v.as_str().is_empty() {
                Some(v.clone())
            } else if !c.text.as_str().is_empty() {
                Some(c.text.clone())
            } else if !c.parameter.as_str().is_empty() {
                Some(c.parameter.clone())
            } else {
                None
            },
            None => if !c.text.as_str().is_empty() {
                Some(c.text.clone())
            } else if !c.parameter.as_str().is_empty() {
                Some(c.parameter.clone())
            } else {
                None
            },
        };
        match shown {
            Some(t) => {
                let st = book.intern(c);
                out.push((cells[i].0, t, st, c.numeric));
                proof {
                    assert(out@.map_values(|x: (u32, String, u128, bool)| (x.0, x.1@, x.2 as int, x.3)) =~= prev.map_values(
                        |x: (u32, String, u128, bool)| (x.0, x.1@, x.2 as int, x.3),
                    ).push((cells@[i as int].0, t@, st as int, c@.numeric)));
                }
            },
            None => {},
        }
        i = i + 1;
    }
    proof {
        lemma_take_all(cells@);
    }
    out
}

fn push_cell_xml(out: &mut String, strings: &mut SharedStrings, r: u32, c: u32, style: u128, t: String, numeric: bool)
    ensures
        (final(strings)@, final(out)@) == ({
            let x = cell_xml(r, c, style as int, t@, numeric, old(strings)@);
            (x.0, old(out)@ + x.1)
        }),
{
    let number = if numeric {
        as_number(t.as_str())
    } else {
        None
    };
    match number {
        Some(n) => {
            push_str(out, "<c r=\"");
            push_cell_ref(out, r, c);
            push_str(out, "\" s=\"");
            push_nat(out, style);
            push_str(out, "\"><v>");
            push_str(out, n.as_str());
            push_str(out, "</v></c>");
            proof {
                assert(final(out)@ =~= old(out)@ + cell_xml(r, c, style as int, t@, numeric, old(strings)@).1);
            }
        },
        None => {
            let index = strings.intern(t);
            push_str(out, "<c r=\"");
            push_cell_ref(out, r, c);
            push_str(out, "\" s=\"");
            push_nat(out, style);
            push_str(out, "\" t=\"s\"><v>");
            push_int(out, index as i128);
            push_str(out, "</v></c>");
            proof {
                assert(final(out)@ =~= old(out)@ + cell_xml(r, c, style as int, t@, numeric, old(strings)@).1);
            }
        },
    }
}

fn emit_exec(
    out: &mut String,
    strings: &mut SharedStrings,
    spans: &mut Vec<(u32, u32, u32)>,
    shown: &Vec<(u32, String, u128, bool)>,
    r: u32,
    l: &Layout,
)
    ensures
        ({
            let e = emit(
                shown@.map_values(|x: (u32, String, u128, bool)| (x.0, x.1@, x.2 as int, x.3)),
                r,
                l,
                (old(strings)@, old(spans)@, old(out)@),
            );
            final(strings)@ == e.0 && final(spans)@ == e.1 && final(out)@ == e.2
        }),
{
    let ghost sv = shown@.map_values(|x: (u32, String, u128, bool)| (x.0, x.1@, x.2 as int, x.3));
    let ghost p0 = (strings@, spans@, out@);
    let mut i: usize = 0;
    while i < shown.len()
        invariant
            sv == shown@.map_values(|x: (u32, String, u128, bool)| (x.0, x.1@, x.2 as int, x.3)),
            i <= shown@.len(),
            strings@ == emit(sv.take(i as int), r, l, p0).0,
            spans@ == emit(sv.take(i as int), r, l, p0).1,
            out@ == emit(sv.take(i as int), r, l, p0).2,
        decreases shown@.len() - i,
    {
        proof {
            assert(sv.take(i + 1).drop_last() =~= sv.take(i as int));
        }
        let x = &shown[i];
        let sp = l.span(r, x.0);
        if sp.1 > sp.0 {
            spans.push((r, sp.0, sp.1));
        }
        push_cell_xml(out, strings, r, sp.0, x.2, x.1.clone(), x.3);
        i = i + 1;
    }
    proof {
        assert(sv.take(shown@.len() as int) =~= sv);
    }
}

fn push_row_open(out: &mut String, r: u32, h: Option<i64>)
    ensures
        final(out)@ == old(out)@ + row_open(r, h),
{
    push_str(out, "<row r=\"");
    push_int(out, r as i128 + 1);
    match h {
        Some(v) => {
            push_str(out, "\" ht=\"");
            push_int(out, v as i128);
            push_str(out, "\" customHeight=\"1\">");
        },
        None => {
            push_str(out, "\">");
        },
    }
    proof {
        assert(final(out)@ =~= old(out)@ + row_open(r, h));
    }
}

fn row_step_exec(
    out: &mut String,
    r: u32,
    row: &RowData,
    l: &Layout,
    strings: &mut SharedStrings,
    book: &mut StyleBook,
    spans: &mut Vec<(u32, u32, u32)>,
    Ghost(p): Ghost<SheetState>,
)
    requires
        p.strings == old(strings)@,
        p.book == old(book)@,
        p.spans == old(spans)@,
        p.text == old(out)@,
    ensures
        ({
            let q = row_step(p, r, *row, l);
            final(strings)@ == q.strings && final(book)@ == q.book && final(spans)@ == q.spans && final(out)@ == q.text
        }),
{
    let shown = shown_cells_exec(&row.cells, book);
    if shown.len() == 0 && row.height.is_none() {
    } else {
        push_row_open(out, r, row.height);
        emit_exec(out, strings, spans, &shown, r, l);
        push_str(out, "</row>");
    }
}

#[verifier::rlimit(40)]
fn sheet_rows_exec(
    out: &mut String,
    doc: &SpreadDocData,
    l: &Layout,
    strings: &mut SharedStrings,
    book: &mut StyleBook,
    spans: &mut Vec<(u32, u32, u32)>,
)
    ensures
        ({
            let st = sheet_rows(
                doc.rows@,
                l,
                SheetState { strings: old(strings)@, book: old(book)@, spans: old(spans)@, text: old(out)@ },
            );
            final(strings)@ == st.strings && final(book)@ == st.book && final(spans)@ == st.spans && final(out)@
                == st.text
        }),
{
    let ghost st0 = SheetState { strings: strings@, book: book@, spans: spans@, text: out@ };
    let mut i: usize = 0;
    while i < doc.rows.len()
        invariant
            i <= doc.rows@.len(),
            strings@ == sheet_rows(doc.rows@.take(i as int), l, st0).strings,
            book@ == sheet_rows(doc.rows@.take(i as int), l, st0).book,
            spans@ == sheet_rows(doc.rows@.take(i as int), l, st0).spans,
            out@ == sheet_rows(doc.rows@.take(i as int), l, st0).text,
        decreases doc.rows@.len() - i,
    {
        proof {
            assert(doc.rows@.take(i + 1).drop_last() =~= doc.rows@.take(i as int));
        }
        let ghost p = sheet_rows(doc.rows@.take(i as int), l, st0);
        row_step_exec(out, doc.rows[i].0, &doc.rows[i].1, l, strings, book, spans, Ghost(p));
        i = i + 1;
    }
    proof {
        lemma_take_all(doc.rows@);
    }
}

fn add_spans_exec(ms: &mut Vec<Quad>, spans: &Vec<(u32, u32, u32)>)
    ensures
        final(ms)@ == add_spans(old(ms)@, spans@),
{
    let ghost m0 = ms@;
    let mut i: usize = 0;
    while i < spans.len()
        invariant
            i <= spans@.len(),
            ms@ == add_spans(m0, spans@.take(i as int)),
        decreases spans@.len() - i,
    {
        proof {
            assert(spans@.take(i + 1).drop_last() =~= spans@.take(i as int));
        }
        let (r, c1, c2) = spans[i];
        let x: Quad = (r, c1, r, c2);
        let mut j: usize = 0;
        let mut hit = false;
        while j < ms.len()
            invariant
                j <= ms@.len(),
                !hit ==> forall|k: int| 0 <= k < j ==> !overlap(#[trigger] ms@[k], x),
                hit ==> overlaps_any(ms@, x),
            decreases ms@.len() - j,
        {
            let a = ms[j];
            if a.0 <= x.2 && x.0 <= a.2 && a.1 <= x.3 && x.1 <= a.3 {
                hit = true;
                proof {
                    assert(overlap(ms@[j as int], x));
                }
            }
            j = j + 1;
        }
        if !hit {
            ms.push(x);
        }
        i = i + 1;
    }
    proof {
        lemma_take_all(spans@);
    }
}

fn insert_quad_exec(t: &mut Vec<Quad>, x: Quad)
    ensures
        final(t)@ == insert_quad(old(t)@, x),
    decreases old(t)@.len(),
{
    if t.len() == 0 {
        t.push(x);
        proof {
            assert(t@ =~= seq![x]);
        }
        return;
    }
    let a = t[t.len() - 1];
    if a.0 < x.0 || (a.0 == x.0 && (a.1 < x.1 || (a.1 == x.1 && (a.2 < x.2 || (a.2 == x.2 && a.3 <= x.3))))) {
        t.push(x);
    } else {
        let y = t.pop().unwrap();
        proof {
            assert(t@ == old(t)@.drop_last());
        }
        insert_quad_exec(t, x);
        t.push(y);
    }
}

fn sort_quads_exec(s: &Vec<Quad>) -> (r: Vec<Quad>)
    ensures
        r@ == sort_quads(s@),
{
    let mut out: Vec<Quad> = Vec::new();
    let mut i: usize = 0;
    while i < s.len()
        invariant
            i <= s@.len(),
            out@ == sort_quads(s@.take(i as int)),
        decreases s@.len() - i,
    {
        proof {
            assert(s@.take(i + 1).drop_last() =~= s@.take(i as int));
        }
        insert_quad_exec(&mut out, s[i]);
        i = i + 1;
    }
    proof {
        lemma_take_all(s@);
    }
    out
}

fn push_merges_xml(out: &mut String, ms: &Vec<Quad>)
    ensures
        final(out)@ == old(out)@ + merges_xml(ms@),
{
    if ms.len() == 0 {
        return;
    }
    let ghost parts = Seq::new(ms@.len(), |i: int| merge_cell_xml(ms@[i]));
    push_str(out, "<mergeCells count=\"");
    push_int(out, ms.len() as i128);
    push_str(out, "\">");
    let ghost start = out@;
    let mut i: usize = 0;
    while i < ms.len()
        invariant
            parts == Seq::new(ms@.len(), |i: int| merge_cell_xml(ms@[i])),
            i <= ms@.len(),
            out@ == start + concat(parts.take(i as int)),
        decreases ms@.len() - i,
    {
        let ghost before = out@;
        let q = ms[i];
        push_str(out, "<mergeCell ref=\"");
        push_cell_ref(out, q.0, q.1);
        push_str(out, ":");
        push_cell_ref(out, q.2, q.3);
        push_str(out, "\"/>");
        proof {
            assert(out@ =~= before + parts[i as int]);
            lemma_concat_step(parts, i as int);
        }
        i = i + 1;
    }
    push_str(out, "</mergeCells>");
    proof {
        lemma_take_all(parts);
        assert(final(out)@ =~= old(out)@ + merges_xml(ms@));
    }
}

fn push_cols_xml(out: &mut String, ws: &Vec<(u32, i64)>)
    ensures
        final(out)@ == old(out)@ + cols_xml(ws@),
{
    if ws.len() == 0 {
        return;
    }
    let ghost parts = Seq::new(ws@.len(), |i: int| col_xml(ws@[i]));
    push_str(out, "<cols>");
    let ghost start = out@;
    let mut i: usize = 0;
    while i < ws.len()
        invariant
            parts == Seq::new(ws@.len(), |i: int| col_xml(ws@[i])),
            i <= ws@.len(),
            out@ == start + concat(parts.take(i as int)),
        decreases ws@.len() - i,
    {
        let ghost before = out@;
        let (c, w) = ws[i];
        push_str(out, "<col min=\"");
        push_int(out, c as i128 + 1);
        push_str(out, "\" max=\"");
        push_int(out, c as i128 + 1);
        push_str(out, "\" width=\"");
        push_int(out, w as i128);
        push_str(out, "\" customWidth=\"1\"/>");
        proof {
            assert(out@ =~= before + parts[i as int]);
            lemma_concat_step(parts, i as int);
        }
        i = i + 1;
    }
    push_str(out, "</cols>");
    proof {
        lemma_take_all(parts);
        assert(final(out)@ =~= old(out)@ + cols_xml(ws@));
    }
}

/// `worksheet`: the sheet, filling the string table and the style book.
pub fn worksheet(doc: &SpreadDocData, strings: &mut SharedStrings, book: &mut StyleBook, layout: &Layout) -> (s: String)
    ensures
        (final(strings)@, final(book)@, s@) == worksheet_of(doc, layout, old(strings)@, old(book)@),
{
    let mut out = String::new();
    push_xml_header(&mut out);
    push_str(&mut out, "<worksheet xmlns=\"http://schemas.openxmlformats.org/spreadsheetml/2006/main\">");
    push_cols_xml(&mut out, &doc.col_widths);
    push_str(&mut out, "<sheetData>");
    let mut spans: Vec<(u32, u32, u32)> = Vec::new();
    let ghost mid = out@;
    let mut body = String::new();
    sheet_rows_exec(&mut body, doc, layout, strings, book, &mut spans);
    push_str(&mut out, body.as_str());
    push_str(&mut out, "</sheetData>");
    let mut merges = merge_rects(doc, layout);
    add_spans_exec(&mut merges, &spans);
    let sorted = sort_quads_exec(&merges);
    push_merges_xml(&mut out, &sorted);
    push_str(&mut out, "</worksheet>");
    proof {
        assert(spans@ =~= sheet_rows(
            doc.rows@,
            layout,
            SheetState { strings: old(strings)@, book: old(book)@, spans: Seq::empty(), text: Seq::empty() },
        ).spans);
        assert(out@ =~= worksheet_of(doc, layout, old(strings)@, old(book)@).2);
    }
    out
}

/// The files of the package and their texts.
pub open spec fn xlsx_entries(doc: &SpreadDocData, l: &Layout) -> Seq<(Seq<char>, Seq<u8>)> {
    let empty_book = BookView {
        fonts: Seq::empty(),
        fills: Seq::empty(),
        borders: Seq::empty(),
        styles: Seq::empty(),
        plain: None,
    };
    let w = worksheet_of(doc, l, Seq::empty(), empty_book);
    seq![
        ("[Content_Types].xml"@, utf8(content_types_text())),
        ("_rels/.rels"@, utf8(root_rels_text())),
        ("xl/workbook.xml"@, utf8(workbook_text())),
        ("xl/_rels/workbook.xml.rels"@, utf8(workbook_rels_text())),
        ("xl/worksheets/sheet1.xml"@, utf8(w.2)),
        ("xl/styles.xml"@, utf8(styles_text(w.1))),
        ("xl/sharedStrings.xml"@, utf8(shared_strings_text(w.0))),
    ]
}

/// None of the names of `parts` is in the archive, and no two of them are
/// the same.
pub open spec fn zip_fresh(e: Seq<(Seq<char>, Seq<u8>)>, parts: Seq<(Seq<char>, Seq<u8>)>) -> bool {
    &&& forall|k: int| 0 <= k < parts.len() ==> !zip_named(e, #[trigger] parts[k].0)
    &&& forall|j: int, k: int| 0 <= j < k < parts.len() ==> #[trigger] parts[j].0 != #[trigger] parts[k].0
}

/// What adding part `i` of `parts` needs, once the parts before it are in.
proof fn lemma_part_step(e0: Seq<(Seq<char>, Seq<u8>)>, parts: Seq<(Seq<char>, Seq<u8>)>, i: int)
    requires
        zip_room(e0 + parts),
        zip_fresh(e0, parts),
        0 <= i < parts.len(),
    ensures
        !zip_named(e0 + parts.take(i), parts[i].0),
        zip_room((e0 + parts.take(i)).push(parts[i])),
        (e0 + parts.take(i)).push(parts[i]) == e0 + parts.take(i + 1),
{
    let cur = e0 + parts.take(i);
    assert(cur.push(parts[i]) =~= e0 + parts.take(i + 1));
    assert(e0 + parts =~= (e0 + parts.take(i + 1)) + parts.skip(i + 1));
    lemma_zip_room_prefix(e0 + parts.take(i + 1), parts.skip(i + 1));
    if zip_named(cur, parts[i].0) {
        let k = choose|k: int| 0 <= k < cur.len() && (#[trigger] cur[k]).0 == parts[i].0;
        if k < e0.len() {
            assert(e0[k] == cur[k]);
            assert(zip_named(e0, parts[i].0));
        } else {
            assert(cur[k] == parts[k - e0.len()]);
        }
    }
}

/// The fixed parts of the package, in order.
pub open spec fn fixed_parts() -> Seq<(Seq<char>, Seq<u8>)> {
    seq![
        ("[Content_Types].xml"@, utf8(content_types_text())),
        ("_rels/.rels"@, utf8(root_rels_text())),
        ("xl/workbook.xml"@, utf8(workbook_text())),
        ("xl/_rels/workbook.xml.rels"@, utf8(workbook_rels_text())),
    ]
}

/// The parts made of the document, in order.
pub open spec fn sheet_parts(sheet: Seq<char>, book: BookView, strings: Seq<Seq<char>>) -> Seq<(Seq<char>, Seq<u8>)> {
    seq![
        ("xl/worksheets/sheet1.xml"@, utf8(sheet)),
        ("xl/styles.xml"@, utf8(styles_text(book))),
        ("xl/sharedStrings.xml"@, utf8(shared_strings_text(strings))),
    ]
}

proof fn lemma_part_names()
    ensures
        "[Content_Types].xml"@.len() == 19,
        "_rels/.rels"@.len() == 11,
        "xl/workbook.xml"@.len() == 15,
        "xl/_rels/workbook.xml.rels"@.len() == 26,
        "xl/worksheets/sheet1.xml"@.len() == 24,
        "xl/styles.xml"@.len() == 13,
        "xl/sharedStrings.xml"@.len() == 20,
{
    reveal_strlit("[Content_Types].xml");
    reveal_strlit("_rels/.rels");
    reveal_strlit("xl/workbook.xml");
    reveal_strlit("xl/_rels/workbook.xml.rels");
    reveal_strlit("xl/worksheets/sheet1.xml");
    reveal_strlit("xl/styles.xml");
    reveal_strlit("xl/sharedStrings.xml");
}

/// The fixed parts of the package. The archive takes them when it has room
/// for them, holds none of their names and gave up no file.
fn add_fixed_parts(zip: &mut Archive) -> (ok: bool)
    ensures
        ok ==> zip_entries(*final(zip)) == zip_entries(*old(zip)) + fixed_parts(),
        ok ==> (zip_clean(*old(zip)) ==> zip_clean(*final(zip))),
        zip_fresh(zip_entries(*old(zip)), fixed_parts()) && zip_room(zip_entries(*old(zip)) + fixed_parts()) ==> ok,
{
    let ghost e0 = zip_entries(*zip);
    let ghost ps = fixed_parts();
    let ghost go = zip_fresh(e0, ps) && zip_room(e0 + ps);
    proof {
        lemma_part_names();
        assert(ps.take(0) =~= Seq::<(Seq<char>, Seq<u8>)>::empty());
        assert(e0 + ps.take(0) =~= e0);
        if go {
            lemma_part_step(e0, ps, 0);
        }
    }
    if !zip_add(zip, "[Content_Types].xml", content_types().as_str()) {
        return false;
    }
    proof {
        if go {
            lemma_part_step(e0, ps, 1);
        }
        assert(zip_entries(*zip) =~= e0 + ps.take(1));
    }
    if !zip_add(zip, "_rels/.rels", root_rels().as_str()) {
        return false;
    }
    proof {
        if go {
            lemma_part_step(e0, ps, 2);
        }
        assert(zip_entries(*zip) =~= e0 + ps.take(2));
    }
    if !zip_add(zip, "xl/workbook.xml", workbook().as_str()) {
        return false;
    }
    proof {
        if go {
            lemma_part_step(e0, ps, 3);
        }
        assert(zip_entries(*zip) =~= e0 + ps.take(3));
    }
    if !zip_add(zip, "xl/_rels/workbook.xml.rels", workbook_rels().as_str()) {
        return false;
    }
    proof {
        assert(zip_entries(*zip) =~= e0 + ps);
    }
    true
}

/// The parts made of the document. The archive takes them when it has
/// room for them, holds none of their names and gave up no file.
fn add_sheet_parts(zip: &mut Archive, sheet: &String, book: &StyleBook, strings: &SharedStrings) -> (ok: bool)
    ensures
        ok ==> zip_entries(*final(zip)) == zip_entries(*old(zip)) + sheet_parts(sheet@, book@, strings@),
        ok ==> (zip_clean(*old(zip)) ==> zip_clean(*final(zip))),
        zip_fresh(zip_entries(*old(zip)), sheet_parts(sheet@, book@, strings@)) && zip_room(
            zip_entries(*old(zip)) + sheet_parts(sheet@, book@, strings@),
        ) ==> ok,
{
    let ghost e0 = zip_entries(*zip);
    let ghost ps = sheet_parts(sheet@, book@, strings@);
    let ghost go = zip_fresh(e0, ps) && zip_room(e0 + ps);
    proof {
        lemma_part_names();
        assert(ps.take(0) =~= Seq::<(Seq<char>, Seq<u8>)>::empty());
        assert(e0 + ps.take(0) =~= e0);
        if go {
            lemma_part_step(e0, ps, 0);
        }
    }
    if !zip_add(zip, "xl/worksheets/sheet1.xml", sheet.as_str()) {
        return false;
    }
    proof {
        if go {
            lemma_part_step(e0, ps, 1);
        }
        assert(zip_entries(*zip) =~= e0 + ps.take(1));
    }
    let st = styles(book);
    if !zip_add(zip, "xl/styles.xml", st.as_str()) {
        return false;
    }
    let ss = shared_strings(&strings.strings);
    proof {
        assert(strings.strings@.map_values(|x: String| x@) == strings@);
        if go {
            lemma_part_step(e0, ps, 2);
        }
        assert(zip_entries(*zip) =~= e0 + ps.take(2));
    }
    if !zip_add(zip, "xl/sharedStrings.xml", ss.as_str()) {
        return false;
    }
    proof {
        assert(zip_entries(*zip) =~= e0 + ps);
    }
    true
}

/// The bytes of an `.xlsx` file. The zip writer takes the seven parts
/// whenever they are under its limits (`zip_room`), and then `Some` holds
/// the archive of them.
#[verifier::rlimit(40)]
pub fn to_xlsx_bytes(doc: &SpreadDocData) -> (r: Option<Vec<u8>>)
    requires
        doc.grid_fits(),
    ensures
        r is Some ==> exists|l: Layout| l.of(doc) && r->0@ == zip_archive(#[trigger] xlsx_entries(doc, &l)),
        (forall|l: Layout| l.of(doc) ==> zip_room(#[trigger] xlsx_entries(doc, &l))) ==> r is Some,
{
    let mut strings = SharedStrings::new();
    let mut book = StyleBook::new();
    let layout = Layout::new(doc);
    let ghost b0 = book@;
    let sheet = worksheet(doc, &mut strings, &mut book, &layout);
    let mut zip = zip_new();
    let ghost entries = xlsx_entries(doc, &layout);
    let ghost go = zip_room(entries);
    proof {
        let empty_book = BookView {
            fonts: Seq::empty(),
            fills: Seq::empty(),
            borders: Seq::empty(),
            styles: Seq::empty(),
            plain: None,
        };
        assert(b0 == empty_book);
        lemma_part_names();
        let fp = fixed_parts();
        let sp = sheet_parts(sheet@, book@, strings@);
        assert(entries =~= fp + sp);
        let e0 = Seq::<(Seq<char>, Seq<u8>)>::empty();
        assert(e0 + fp =~= fp);
        assert(zip_fresh(e0, fp));
        assert(zip_fresh(fp, sp)) by {
            assert forall|k: int| 0 <= k < sp.len() implies !zip_named(fp, #[trigger] sp[k].0) by {
                if zip_named(fp, sp[k].0) {
                    let j = choose|j: int| 0 <= j < fp.len() && (#[trigger] fp[j]).0 == sp[k].0;
                }
            }
        }
        if go {
            lemma_zip_room_prefix(fp, sp);
        }
    }
    if !add_fixed_parts(&mut zip) {
        return None;
    }
    if !add_sheet_parts(&mut zip, &sheet, &book, &strings) {
        return None;
    }
    proof {
        assert(zip_entries(zip) =~= entries);
    }
    let r = zip_finish(zip);
    proof {
        if r is Some {
            assert(layout.of(doc) && r->0@ == zip_archive(xlsx_entries(doc, &layout)));
        }
    }
    r
}

} // verus!
