//! The bridge to BSL values: documents and areas are handles into a
//! workspace of documents, and the operations of the language work on
//! them.

use vstd::prelude::*;
use crate::bytes::{crlf, utf8};
use crate::convert::failure;
use crate::mxl_read::{body_of, decode_utf8, from_mxl_bytes, has_signature};
use crate::drawings::{corner_fits, drawing_name, geometry_corner};
use crate::mxl_write::{bom, mxl_header, mxl_text, to_mxl_bytes, to_txt_bytes, txt_text, FileKind};
use crate::xlsx::{to_xlsx_bytes, xlsx_entries, zip_archive};
use crate::xlsx_layout::Layout;
use crate::keyed;
use crate::keyed::as_map;
use crate::model::{
    add_merges, add_pairs, clone_cells, max_int, shift_merge, shift_pair, shift_rows, with_pair, AreaKind,
    CellView, Member, Merge, Rect, RowData, SpreadDocData, Value,
};


verus! {

/// Why an operation of the bridge failed.
#[derive(Debug)]
pub enum SpreadError {
    /// A spreadsheet error with its message.
    Spread(String),
    /// The object has no such property.
    UnknownProperty(String),
    /// The receiver is not an object of this library.
    NotAnObject,
}

/// Every document the running program holds; values refer to them by
/// index.
#[derive(Debug)]
pub struct Workspace {
    pub docs: Vec<SpreadDocData>,
}

impl Workspace {
    pub open spec fn wf(&self) -> bool {
        forall|i: int| 0 <= i < self.docs@.len() ==> (#[trigger] self.docs@[i]).wf()
    }

    pub fn new() -> (w: Workspace)
        ensures
            w.wf(),
            w.docs@.len() == 0,
    {
        Workspace { docs: Vec::new() }
    }
}

/// The document of a value: of a document or of an area.
pub open spec fn doc_index(ws: &Workspace, v: &Value) -> Option<usize> {
    match *v {
        Value::Doc(i) => if i < ws.docs@.len() {
            Some(i)
        } else {
            None
        },
        Value::Area(i, _) => if i < ws.docs@.len() {
            Some(i)
        } else {
            None
        },
        _ => None,
    }
}

/// The document and rectangle of an area.
pub open spec fn area_of(ws: &Workspace, v: &Value) -> Option<(usize, Rect)> {
    match *v {
        Value::Area(i, r) => if i < ws.docs@.len() {
            Some((i, r))
        } else {
            None
        },
        _ => None,
    }
}

/// A rectangle the document can hold: bounds in order, below the largest
/// index.
pub open spec fn rect_ok(r: Rect) -> bool {
    r.r1 <= r.r2 < u32::MAX && r.c1 <= r.c2 < u32::MAX
}

pub fn doc_of(ws: &Workspace, v: &Value) -> (r: Option<usize>)
    ensures
        r == doc_index(ws, v),
{
    match v {
        Value::Doc(i) => if *i < ws.docs.len() {
            Some(*i)
        } else {
            None
        },
        Value::Area(i, _) => if *i < ws.docs.len() {
            Some(*i)
        } else {
            None
        },
        _ => None,
    }
}

pub fn area(ws: &Workspace, v: &Value) -> (r: Option<(usize, Rect)>)
    ensures
        r == area_of(ws, v),
{
    match v {
        Value::Area(i, rect) => if *i < ws.docs.len() {
            Some((*i, *rect))
        } else {
            None
        },
        _ => None,
    }
}

/// An area is the receiver of `Значение`, which the VM intercepts.
pub fn is_area(ws: &Workspace, v: &Value) -> (b: bool)
    ensures
        b == area_of(ws, v) is Some,
{
    area(ws, v).is_some()
}

pub fn is_spread_document(ws: &Workspace, v: &Value) -> (b: bool)
    ensures
        b == (match *v {
            Value::Doc(i) => i < ws.docs@.len(),
            _ => false,
        }),
{
    match v {
        Value::Doc(i) => *i < ws.docs.len(),
        _ => false,
    }
}

/// A new empty document.
pub fn new_document(ws: &mut Workspace) -> (v: Value)
    requires
        old(ws).wf(),
    ensures
        final(ws).wf(),
        final(ws).docs@.len() == old(ws).docs@.len() + 1,
        final(ws).docs@.drop_last() == old(ws).docs@,
        final(ws).docs@.last().is_fresh(),
        v == Value::Doc(old(ws).docs@.len() as usize),
{
    let n = ws.docs.len();
    let d = SpreadDocData::new();
    ws.docs.push(d);
    proof {
        assert(ws.docs@.drop_last() =~= old(ws).docs@);
        assert forall|i: int| 0 <= i < ws.docs@.len() implies (#[trigger] ws.docs@[i]).wf() by {
            if i < n {
                assert(ws.docs@[i] == old(ws).docs@[i]);
            }
        }
    }
    Value::Doc(n)
}

/// Adds a document to the workspace; its number is returned.
pub fn put_new_doc(ws: &mut Workspace, d: SpreadDocData) -> (n: usize)
    requires
        old(ws).wf(),
        d.wf(),
    ensures
        final(ws).wf(),
        n == old(ws).docs@.len(),
        final(ws).docs@ == old(ws).docs@.push(d),
{
    let n = ws.docs.len();
    ws.docs.push(d);
    proof {
        assert forall|i: int| 0 <= i < ws.docs@.len() implies (#[trigger] ws.docs@[i]).wf() by {
            if i < n {
                assert(ws.docs@[i] == old(ws).docs@[i]);
            }
        }
    }
    n
}

/// Takes document `i` out of the workspace for a change.
pub fn take_doc(ws: &mut Workspace, i: usize) -> (d: SpreadDocData)
    requires
        i < old(ws).docs@.len(),
    ensures
        d == old(ws).docs@[i as int],
        final(ws).docs@ == old(ws).docs@.remove(i as int),
{
    ws.docs.remove(i)
}

/// Puts a changed document back in its place.
pub fn put_doc(ws: &mut Workspace, i: usize, d: SpreadDocData)
    requires
        i <= old(ws).docs@.len(),
    ensures
        final(ws).docs@ == old(ws).docs@.insert(i as int, d),
{
    ws.docs.insert(i, d);
}

pub proof fn lemma_replace(s: Seq<SpreadDocData>, i: int, d: SpreadDocData)
    requires
        0 <= i < s.len(),
    ensures
        s.remove(i).insert(i, d) == s.update(i, d),
{
    assert(s.remove(i).insert(i, d) =~= s.update(i, d));
}

pub proof fn lemma_replace_wf(s: Seq<SpreadDocData>, i: int, d: SpreadDocData)
    requires
        0 <= i < s.len(),
        forall|k: int| 0 <= k < s.len() ==> (#[trigger] s[k]).wf(),
        d.wf(),
    ensures
        forall|k: int| 0 <= k < s.len() ==> (#[trigger] s.update(i, d)[k]).wf(),
{
}

/// The result is the spreadsheet error with this message.
pub open spec fn spread_err<T>(r: Result<T, SpreadError>, msg: Seq<char>) -> bool {
    match r {
        Err(SpreadError::Spread(m)) => m@ == msg,
        _ => false,
    }
}

pub fn spread_error(msg: &str) -> (e: SpreadError)
    ensures
        e matches SpreadError::Spread(s) && s@ == msg@,
{
    SpreadError::Spread(msg.to_owned())
}

/// The area's document after a change to its top left cell, or the error
/// when the value is no area (or an area the document cannot hold).
pub open spec fn cell_change_ok(ws: &Workspace, obj: &Value) -> bool {
    area_of(ws, obj) is Some && rect_ok((area_of(ws, obj)->0).1)
}

/// An area whose top left cell the document can hold: what `Значение` and
/// `Расшифровка` write to.
pub open spec fn corner_change_ok(ws: &Workspace, obj: &Value) -> bool {
    area_of(ws, obj) is Some && (area_of(ws, obj)->0).1.r1 < u32::MAX && (area_of(ws, obj)->0).1.c1 < u32::MAX
}

/// An area whose merge the document can record: whole rows need their row
/// bounds in order, whole columns their column bounds, a rectangle both.
pub open spec fn merge_ok(r: Rect) -> bool {
    match r.kind {
        AreaKind::Rows => r.r1 <= r.r2 < u32::MAX,
        AreaKind::Columns => r.c1 <= r.c2 < u32::MAX,
        AreaKind::Rect => rect_ok(r),
    }
}

/// Put the presentation of a value into the top left cell of an area as
/// its detail (`Расшифровка`).
pub fn set_detail(ws: &mut Workspace, obj: &Value, presentation: &str) -> (r: Result<(), SpreadError>)
    requires
        old(ws).wf(),
    ensures
        final(ws).wf(),
        r is Ok <==> corner_change_ok(old(ws), obj),
        r is Err ==> final(ws).docs@ == old(ws).docs@,
        area_of(old(ws), obj) is None ==> spread_err(r, "Расшифровка: не область ячеек"@),
        r is Ok ==> ({
            let (i, rect) = area_of(old(ws), obj)->0;
            let od = old(ws).docs@[i as int];
            let nd = final(ws).docs@[i as int];
            &&& final(ws).docs@ == old(ws).docs@.update(i as int, nd)
            &&& nd.rows_view() == od.with_cell(
                rect.r1,
                rect.c1,
                CellView { detail: Some(presentation@), ..od.cell_or_blank(rect.r1, rect.c1) },
            )
            &&& nd.touched(&od, rect.r1, rect.c1)
            &&& nd.same_but_rows(&od)
        }),
{
    let (i, rect) = match area(ws, obj) {
        Some(x) => x,
        None => {
            return Err(spread_error("Расшифровка: не область ячеек"));
        },
    };
    if !(rect.r1 < u32::MAX && rect.c1 < u32::MAX) {
        return Err(spread_error("Расшифровка: область вне документа"));
    }
    let ghost s = ws.docs@;
    let mut d = take_doc(ws, i);
    d.set_cell_detail(rect.r1, rect.c1, presentation);
    put_doc(ws, i, d);
    proof {
        lemma_replace(s, i as int, d);
        lemma_replace_wf(s, i as int, d);
    }
    Ok(())
}

/// Put the presentation of a value into the top left cell of an area as
/// its value (`Значение`).
pub fn set_value(ws: &mut Workspace, obj: &Value, presentation: &str) -> (r: Result<(), SpreadError>)
    requires
        old(ws).wf(),
    ensures
        final(ws).wf(),
        r is Ok <==> corner_change_ok(old(ws), obj),
        r is Err ==> final(ws).docs@ == old(ws).docs@,
        area_of(old(ws), obj) is None ==> spread_err(r, "Значение: не область ячеек"@),
        r is Ok ==> ({
            let (i, rect) = area_of(old(ws), obj)->0;
            let od = old(ws).docs@[i as int];
            let nd = final(ws).docs@[i as int];
            &&& final(ws).docs@ == old(ws).docs@.update(i as int, nd)
            &&& nd.rows_view() == od.with_cell(
                rect.r1,
                rect.c1,
                CellView {
                    value: Some(presentation@),
                    text: Seq::empty(),
                    parameter: Seq::empty(),
                    ..od.cell_or_blank(rect.r1, rect.c1)
                },
            )
            &&& nd.touched(&od, rect.r1, rect.c1)
            &&& nd.same_but_rows(&od)
        }),
{
    let (i, rect) = match area(ws, obj) {
        Some(x) => x,
        None => {
            return Err(spread_error("Значение: не область ячеек"));
        },
    };
    if !(rect.r1 < u32::MAX && rect.c1 < u32::MAX) {
        return Err(spread_error("Значение: область вне документа"));
    }
    let ghost s = ws.docs@;
    let mut d = take_doc(ws, i);
    d.set_cell_value(rect.r1, rect.c1, presentation);
    put_doc(ws, i, d);
    proof {
        lemma_replace(s, i as int, d);
        lemma_replace_wf(s, i as int, d);
    }
    Ok(())
}

/// `Объединить`: the kind of the area decides which of the three lists
/// the merge goes to.
pub fn merge_cells(ws: &mut Workspace, obj: &Value) -> (r: Result<(), SpreadError>)
    requires
        old(ws).wf(),
    ensures
        final(ws).wf(),
        r is Ok <==> area_of(old(ws), obj) is Some && merge_ok((area_of(old(ws), obj)->0).1),
        r is Err ==> final(ws).docs@ == old(ws).docs@,
        area_of(old(ws), obj) is None ==> spread_err(r, "Объединить: не область ячеек"@),
        r is Ok ==> ({
            let (i, rect) = area_of(old(ws), obj)->0;
            let od = old(ws).docs@[i as int];
            let nd = final(ws).docs@[i as int];
            &&& final(ws).docs@ == old(ws).docs@.update(i as int, nd)
            &&& nd.row_merges@ == if rect.kind == AreaKind::Rows {
                with_pair(od.row_merges@, (rect.r1, rect.r2))
            } else {
                od.row_merges@
            }
            &&& nd.col_merges@ == if rect.kind == AreaKind::Columns {
                with_pair(od.col_merges@, (rect.c1, rect.c2))
            } else {
                od.col_merges@
            }
            &&& nd.merges@ == if rect.kind == AreaKind::Rect {
                crate::model::with_merge(
                    od.merges@,
                    Merge { r1: rect.r1, c1: rect.c1, r2: rect.r2, c2: rect.c2, unmerge: false },
                )
            } else {
                od.merges@
            }
        }),
{
    let (i, rect) = match area(ws, obj) {
        Some(x) => x,
        None => {
            return Err(spread_error("Объединить: не область ячеек"));
        },
    };
    let fits = match rect.kind {
        AreaKind::Rows => rect.r1 <= rect.r2 && rect.r2 < u32::MAX,
        AreaKind::Columns => rect.c1 <= rect.c2 && rect.c2 < u32::MAX,
        AreaKind::Rect => rect.r1 <= rect.r2 && rect.r2 < u32::MAX && rect.c1 <= rect.c2 && rect.c2 < u32::MAX,
    };
    if !fits {
        return Err(spread_error("Объединить: область вне документа"));
    }
    let ghost s = ws.docs@;
    let mut d = take_doc(ws, i);
    match rect.kind {
        AreaKind::Rows => d.merge_rows(rect.r1, rect.r2),
        AreaKind::Columns => d.merge_columns(rect.c1, rect.c2),
        AreaKind::Rect => d.merge(Merge::new(rect.r1, rect.c1, rect.r2, rect.c2)),
    }
    put_doc(ws, i, d);
    proof {
        lemma_replace(s, i as int, d);
        lemma_replace_wf(s, i as int, d);
    }
    Ok(())
}

/// `Разъединить`: the cells stay, merges inside the area go.
pub fn unmerge_cells(ws: &mut Workspace, obj: &Value) -> (r: Result<(), SpreadError>)
    requires
        old(ws).wf(),
    ensures
        final(ws).wf(),
        r is Ok <==> cell_change_ok(old(ws), obj),
        r is Err ==> final(ws).docs@ == old(ws).docs@,
        area_of(old(ws), obj) is None ==> spread_err(r, "Разъединить: не область ячеек"@),
        r is Ok ==> ({
            let (i, rect) = area_of(old(ws), obj)->0;
            let od = old(ws).docs@[i as int];
            let nd = final(ws).docs@[i as int];
            &&& final(ws).docs@ == old(ws).docs@.update(i as int, nd)
            &&& nd.merges@ == crate::model::without_merge(od.merges@, rect.r1, rect.c1, rect.r2, rect.c2)
            &&& nd.touched(&od, rect.r2, rect.c2)
        }),
{
    let (i, rect) = match area(ws, obj) {
        Some(x) => x,
        None => {
            return Err(spread_error("Разъединить: не область ячеек"));
        },
    };
    if !(rect.r1 <= rect.r2 && rect.r2 < u32::MAX && rect.c1 <= rect.c2 && rect.c2 < u32::MAX) {
        return Err(spread_error("Разъединить: область вне документа"));
    }
    let ghost s = ws.docs@;
    let mut d = take_doc(ws, i);
    d.unmerge(rect.r1, rect.c1, rect.r2, rect.c2);
    put_doc(ws, i, d);
    proof {
        lemma_replace(s, i as int, d);
        lemma_replace_wf(s, i as int, d);
    }
    Ok(())
}

/// `Очистить`: an empty document that keeps its grid setting.
pub fn clear(ws: &mut Workspace, obj: &Value) -> (r: Result<(), SpreadError>)
    requires
        old(ws).wf(),
    ensures
        final(ws).wf(),
        r is Ok <==> doc_index(old(ws), obj) is Some,
        r is Err ==> final(ws).docs@ == old(ws).docs@ && spread_err(r, "Очистить: не табличный документ"@),
        r is Ok ==> ({
            let i = doc_index(old(ws), obj)->0;
            let nd = final(ws).docs@[i as int];
            &&& final(ws).docs@ == old(ws).docs@.update(i as int, nd)
            &&& nd.cleared_from(&old(ws).docs@[i as int])
        }),
{
    let i = match doc_of(ws, obj) {
        Some(i) => i,
        None => {
            return Err(spread_error("Очистить: не табличный документ"));
        },
    };
    let ghost s = ws.docs@;
    let mut d = take_doc(ws, i);
    d.clear();
    put_doc(ws, i, d);
    proof {
        lemma_replace(s, i as int, d);
        lemma_replace_wf(s, i as int, d);
    }
    Ok(())
}

/// `НачатьГруппуСтрок([Имя][, Сворачиваемость])`: `Ложь` as the second
/// argument gives a collapsed group.
pub fn begin_row_group(ws: &mut Workspace, obj: &Value, args: &Vec<Value>) -> (r: Result<(), SpreadError>)
    requires
        old(ws).wf(),
    ensures
        final(ws).wf(),
        r is Ok <==> doc_index(old(ws), obj) is Some,
        r is Err ==> final(ws).docs@ == old(ws).docs@,
        r is Ok ==> ({
            let i = doc_index(old(ws), obj)->0;
            let od = old(ws).docs@[i as int];
            let nd = final(ws).docs@[i as int];
            &&& final(ws).docs@ == old(ws).docs@.update(i as int, nd)
            &&& nd.open_groups@.drop_last() == od.open_groups@
            &&& nd.open_groups@.len() == od.open_groups@.len() + 1
            &&& nd.open_groups@.last().0@ == (if args@.len() > 0 && args@[0] is Str {
                args@[0]->Str_0@
            } else {
                Seq::<char>::empty()
            })
            &&& nd.open_groups@.last().1 == (args@.len() > 1 && args@[1] == Value::Bool(false))
            &&& nd.open_groups@.last().2 == od.height
            &&& nd.row_groups == od.row_groups
            &&& nd.same_but_groups(&od)
        }),
{
    let i = match doc_of(ws, obj) {
        Some(i) => i,
        None => {
            return Err(spread_error("НачатьГруппуСтрок: не табличный документ"));
        },
    };
    let name = if args.len() > 0 {
        match &args[0] {
            Value::Str(s) => s.clone(),
            _ => String::new(),
        }
    } else {
        String::new()
    };
    let collapsed = args.len() > 1 && match &args[1] {
        Value::Bool(b) => !*b,
        _ => false,
    };
    let ghost s = ws.docs@;
    let mut d = take_doc(ws, i);
    d.begin_row_group(name.as_str(), collapsed);
    put_doc(ws, i, d);
    proof {
        lemma_replace(s, i as int, d);
        lemma_replace_wf(s, i as int, d);
    }
    Ok(())
}

/// `ЗакончитьГруппуСтрок`: an extra call is ignored, as by the platform.
pub fn end_row_group(ws: &mut Workspace, obj: &Value) -> (r: Result<(), SpreadError>)
    requires
        old(ws).wf(),
    ensures
        final(ws).wf(),
        r is Ok <==> doc_index(old(ws), obj) is Some,
        r is Err ==> final(ws).docs@ == old(ws).docs@,
        r is Ok ==> ({
            let i = doc_index(old(ws), obj)->0;
            let od = old(ws).docs@[i as int];
            let nd = final(ws).docs@[i as int];
            &&& final(ws).docs@ == old(ws).docs@.update(i as int, nd)
            &&& od.open_groups@.len() == 0 ==> nd.open_groups@ == od.open_groups@ && nd.row_groups == od.row_groups
            &&& od.open_groups@.len() > 0 ==> nd.open_groups@ == od.open_groups@.drop_last()
                && nd.row_groups@.len() == od.row_groups@.len() + 1 && ({
                let top = od.open_groups@.last();
                let r2 = if od.height == 0 { 0 } else { od.height - 1 };
                exists|g: crate::model::RowGroup| #![trigger od.row_groups@.push(g)] {
                    &&& g.r1 == top.2
                    &&& g.r2 == crate::model::max_int(r2, top.2 as int)
                    &&& g.level == (od.open_groups@.len() - 1) as u32
                    &&& g.name@ == top.0@
                    &&& g.collapsed == top.1
                    &&& nd.row_groups@ == crate::groups::sort_groups(od.row_groups@.push(g))
                }
            })
            &&& nd.same_but_groups(&od)
        }),
{
    let i = match doc_of(ws, obj) {
        Some(i) => i,
        None => {
            return Err(spread_error("ЗакончитьГруппуСтрок: не табличный документ"));
        },
    };
    let ghost s = ws.docs@;
    let mut d = take_doc(ws, i);
    d.end_row_group();
    proof {
        if s[i as int].open_groups@.len() > 0 {
            let od = s[i as int];
            let g = choose|g: crate::model::RowGroup| #![trigger od.row_groups@.push(g)] {
                &&& d.row_groups@ == crate::groups::sort_groups(od.row_groups@.push(g))
            };
            crate::groups::lemma_sort_len(od.row_groups@.push(g));
        }
    }
    put_doc(ws, i, d);
    proof {
        lemma_replace(s, i as int, d);
        lemma_replace_wf(s, i as int, d);
    }
    Ok(())
}

/// The copy `Вывести` appends: rows, merges, column widths and size of the
/// source, so that a document can be output into itself.
fn output_copy(d: &SpreadDocData) -> (out: SpreadDocData)
    requires
        d.wf(),
    ensures
        out.wf(),
        out.rows_view() == d.rows_view(),
        out.height == d.height,
        out.width == d.width,
        out.merges@ == d.merges@,
        out.row_merges@ == d.row_merges@,
        out.col_merges@ == d.col_merges@,
        out.col_widths@ == d.col_widths@,
{
    let mut rows: Vec<(u32, RowData)> = Vec::new();
    let mut i: usize = 0;
    while i < d.rows.len()
        invariant
            d.wf(),
            i <= d.rows@.len(),
            rows@.len() == i,
            forall|j: int| 0 <= j < i ==> (#[trigger] rows@[j]).0 == d.rows@[j].0 && rows@[j].1@ == d.rows@[j].1@
                && rows@[j].1.wf(),
        decreases d.rows@.len() - i,
    {
        assert(d.rows@[i as int].1.wf());
        let cells = clone_cells(&d.rows[i].1.cells);
        rows.push((d.rows[i].0, RowData { height: d.rows[i].1.height, cells }));
        i = i + 1;
    }
    let mut out = SpreadDocData::new();
    out.rows = rows;
    out.height = d.height;
    out.width = d.width;
    out.merges = copy_vec(&d.merges);
    out.row_merges = copy_vec(&d.row_merges);
    out.col_merges = copy_vec(&d.col_merges);
    out.col_widths = copy_vec(&d.col_widths);
    proof {
        keyed::lemma_same_keys(d.rows@, out.rows@);
        keyed::lemma_all(d.rows@);
        keyed::lemma_all(out.rows@);
        assert(out.rows_view() =~= d.rows_view()) by {
            assert forall|r: u32| #[trigger] out.rows_view().contains_key(r) implies out.rows_view()[r] == d.rows_view()[r] by {
                let j = keyed::lemma_index_of(out.rows@, r);
            }
        }
    }
    out
}

/// A copy of a list of plain values.
fn copy_vec<T: Copy>(v: &Vec<T>) -> (out: Vec<T>)
    ensures
        out@ == v@,
{
    let mut out: Vec<T> = Vec::new();
    let mut i: usize = 0;
    while i < v.len()
        invariant
            i <= v@.len(),
            out@ == v@.take(i as int),
        decreases v@.len() - i,
    {
        proof {
            assert(v@.take(i + 1) =~= v@.take(i as int).push(v@[i as int]));
        }
        out.push(v[i]);
        i = i + 1;
    }
    proof {
        assert(v@.take(v@.len() as int) =~= v@);
    }
    out
}

/// Document `src` can be appended below `dst`: the height and every row
/// merge still fit after the shift.
pub open spec fn append_fits(dst: SpreadDocData, src: SpreadDocData) -> bool {
    &&& dst.height + src.height <= u32::MAX
    &&& forall|k: int| 0 <= k < src.merges@.len() ==> (#[trigger] src.merges@[k]).r2 + dst.height <= u32::MAX
        && src.merges@[k].r1 + dst.height <= u32::MAX
    &&& forall|k: int| 0 <= k < src.row_merges@.len() ==> (#[trigger] src.row_merges@[k]).1 + dst.height <= u32::MAX
        && src.row_merges@[k].0 + dst.height <= u32::MAX
}

fn check_append(dst: &SpreadDocData, src: &SpreadDocData) -> (b: bool)
    ensures
        b == append_fits(*dst, *src),
{
    let shift: u64 = dst.height as u64;
    if shift + src.height as u64 > u32::MAX as u64 {
        return false;
    }
    let mut k: usize = 0;
    while k < src.merges.len()
        invariant
            k <= src.merges@.len(),
            shift == dst.height,
            forall|q: int| 0 <= q < k ==> (#[trigger] src.merges@[q]).r2 + dst.height <= u32::MAX
                && src.merges@[q].r1 + dst.height <= u32::MAX,
        decreases src.merges@.len() - k,
    {
        let m = src.merges[k];
        if m.r2 as u64 + shift > u32::MAX as u64 || m.r1 as u64 + shift > u32::MAX as u64 {
            return false;
        }
        k = k + 1;
    }
    let mut k: usize = 0;
    while k < src.row_merges.len()
        invariant
            k <= src.row_merges@.len(),
            shift == dst.height,
            forall|q: int| 0 <= q < k ==> (#[trigger] src.row_merges@[q]).1 + dst.height <= u32::MAX
                && src.row_merges@[q].0 + dst.height <= u32::MAX,
        decreases src.row_merges@.len() - k,
    {
        let m = src.row_merges[k];
        if m.1 as u64 + shift > u32::MAX as u64 || m.0 as u64 + shift > u32::MAX as u64 {
            return false;
        }
        k = k + 1;
    }
    true
}

/// Document `nd` is `dst` with `src` appended below it.
pub open spec fn appended(nd: SpreadDocData, dst: SpreadDocData, src: SpreadDocData) -> bool {
    &&& nd.rows_view() == dst.rows_view().union_prefer_right(shift_rows(src.rows_view(), dst.height))
    &&& nd.height == dst.height + src.height
    &&& nd.width == max_int(dst.width as int, src.width as int)
    &&& nd.merges@ == add_merges(dst.merges@, src.merges@.map_values(|m: Merge| shift_merge(m, dst.height)))
    &&& nd.row_merges@ == add_pairs(
        dst.row_merges@,
        src.row_merges@.map_values(|p: (u32, u32)| shift_pair(p, dst.height)),
    )
    &&& nd.col_merges@ == add_pairs(dst.col_merges@, src.col_merges@)
    &&& as_map(nd.col_widths@) == as_map(src.col_widths@).union_prefer_right(as_map(dst.col_widths@))
    &&& nd.same_but_cells_and_merges(&dst)
}

/// The source document of `Вывести`: the one argument, a document.
pub open spec fn output_source(ws: &Workspace, args: Seq<Value>) -> Option<usize> {
    if args.len() == 1 {
        match args[0] {
            Value::Doc(j) => if j < ws.docs@.len() {
                Some(j)
            } else {
                None
            },
            _ => None,
        }
    } else {
        None
    }
}

/// `Вывести(Документ)`: the target grows downwards by the source. An area
/// is not accepted as the source, as by the platform; a document may be
/// output into itself.
pub fn output(ws: &mut Workspace, target: &Value, args: &Vec<Value>) -> (r: Result<(), SpreadError>)
    requires
        old(ws).wf(),
    ensures
        final(ws).wf(),
        r is Err ==> final(ws).docs@ == old(ws).docs@,
        doc_index(old(ws), target) is None ==> spread_err(r, "Вывести: не табличный документ"@),
        doc_index(old(ws), target) is Some && output_source(old(ws), args@) is None ==> spread_err(
            r,
            "Вывести: ожидался табличный документ"@,
        ),
        doc_index(old(ws), target) matches Some(i) ==> output_source(old(ws), args@) matches Some(j) ==> {
            let dst = old(ws).docs@[i as int];
            let src = old(ws).docs@[j as int];
            if append_fits(dst, src) {
                &&& r is Ok
                &&& final(ws).docs@ == old(ws).docs@.update(i as int, final(ws).docs@[i as int])
                &&& appended(final(ws).docs@[i as int], dst, src)
            } else {
                spread_err(r, "Вывести: документ слишком велик"@)
            }
        },
{
    let i = match doc_of(ws, target) {
        Some(i) => i,
        None => {
            return Err(spread_error("Вывести: не табличный документ"));
        },
    };
    let j = if args.len() == 1 {
        match &args[0] {
            Value::Doc(j) => {
                if *j < ws.docs.len() {
                    *j
                } else {
                    return Err(spread_error("Вывести: ожидался табличный документ"));
                }
            },
            _ => {
                return Err(spread_error("Вывести: ожидался табличный документ"));
            },
        }
    } else {
        return Err(spread_error("Вывести: ожидался табличный документ"));
    };
    if !check_append(&ws.docs[i], &ws.docs[j]) {
        return Err(spread_error("Вывести: документ слишком велик"));
    }
    let copy = output_copy(&ws.docs[j]);
    let ghost s = ws.docs@;
    let mut d = take_doc(ws, i);
    d.append(&copy);
    put_doc(ws, i, d);
    proof {
        lemma_replace(s, i as int, d);
        lemma_replace_wf(s, i as int, d);
    }
    Ok(())
}

/// The document of a drawings collection.
pub open spec fn drawings_of(ws: &Workspace, v: &Value) -> Option<usize> {
    match *v {
        Value::Drawings(i) => if i < ws.docs@.len() {
            Some(i)
        } else {
            None
        },
        _ => None,
    }
}

/// `Рисунки.Добавить(ТипРисунка)`: a rectangle at the top left corner; the
/// result is the new drawing.
pub fn drawings_add(ws: &mut Workspace, obj: &Value) -> (r: Result<Value, SpreadError>)
    requires
        old(ws).wf(),
    ensures
        final(ws).wf(),
        r is Err ==> final(ws).docs@ == old(ws).docs@,
        drawings_of(old(ws), obj) is None ==> spread_err(r, "Добавить: не коллекция рисунков"@),
        drawings_of(old(ws), obj) matches Some(i) ==> {
            let od = old(ws).docs@[i as int];
            let corner = geometry_corner(&od, 0, 0, 0, 0);
            if corner_fits(corner) && od.drawings@.len() < usize::MAX {
                let nd = final(ws).docs@[i as int];
                &&& r == Ok::<Value, SpreadError>(Value::Drawing(i, od.drawings@.len() as usize))
                &&& final(ws).docs@ == old(ws).docs@.update(i as int, nd)
                &&& nd.drawings@.drop_last() == od.drawings@
                &&& nd.drawings@.len() == od.drawings@.len() + 1
                &&& nd.drawings@.last().name@ == drawing_name(nd.drawings@.len())
                &&& nd.drawings@.last().left == 0 && nd.drawings@.last().top == 0
                &&& nd.drawings@.last().width == 0 && nd.drawings@.last().height == 0
                &&& nd.touched(&od, corner.0 as u32, corner.1 as u32)
                &&& nd.rows == od.rows
            } else {
                spread_err(r, "Добавить: рисунок вне документа"@)
            }
        },
{
    let i = match obj {
        Value::Drawings(i) => {
            if *i < ws.docs.len() {
                *i
            } else {
                return Err(spread_error("Добавить: не коллекция рисунков"));
            }
        },
        _ => {
            return Err(spread_error("Добавить: не коллекция рисунков"));
        },
    };
    let corner = ws.docs[i].corner_of(0, 0, 0, 0);
    if !(0 <= corner.0 && corner.0 < 0xFFFF_FFFF && 0 <= corner.1 && corner.1 < 0xFFFF_FFFF)
        || ws.docs[i].drawings.len() == usize::MAX {
        return Err(spread_error("Добавить: рисунок вне документа"));
    }
    let ghost s = ws.docs@;
    let mut d = take_doc(ws, i);
    let n = d.add_drawing(0, 0, 0, 0);
    put_doc(ws, i, d);
    proof {
        lemma_replace(s, i as int, d);
        lemma_replace_wf(s, i as int, d);
    }
    Ok(Value::Drawing(i, n - 1))
}

/// The file type `Записать` is asked for: none given is MXL.
pub open spec fn file_kind_spec(args: Seq<Value>) -> Result<FileKind, Seq<char>> {
    if args.len() < 2 {
        Ok(FileKind::Mxl)
    } else {
        match args[1] {
            Value::Enum(Member::FileMxl) => Ok(FileKind::Mxl),
            Value::Enum(Member::FileTxt) => Ok(FileKind::Txt),
            Value::Enum(Member::FileXlsx) => Ok(FileKind::Xlsx),
            Value::Enum(Member::FilePdf) => Ok(FileKind::Pdf),
            Value::Enum(_) => Err("Записать: неподдерживаемый тип файла"@),
            _ => Err("Записать: ожидался ТипФайлаТабличногоДокумента"@),
        }
    }
}

/// The file type of `Записать(Файл [, ТипФайла])`.
pub fn file_kind(args: &Vec<Value>) -> (r: Result<FileKind, SpreadError>)
    ensures
        match file_kind_spec(args@) {
            Ok(k) => r == Ok::<FileKind, SpreadError>(k),
            Err(m) => spread_err(r, m),
        },
{
    if args.len() < 2 {
        return Ok(FileKind::Mxl);
    }
    match &args[1] {
        Value::Enum(Member::FileMxl) => Ok(FileKind::Mxl),
        Value::Enum(Member::FileTxt) => Ok(FileKind::Txt),
        Value::Enum(Member::FileXlsx) => Ok(FileKind::Xlsx),
        Value::Enum(Member::FilePdf) => Ok(FileKind::Pdf),
        Value::Enum(_) => Err(spread_error("Записать: неподдерживаемый тип файла")),
        _ => Err(spread_error("Записать: ожидался ТипФайлаТабличногоДокумента")),
    }
}

/// The path `Записать` writes to: its first argument, a string.
pub open spec fn write_path(args: Seq<Value>) -> Option<Seq<char>> {
    if args.len() > 0 && args[0] is Str {
        Some(args[0]->Str_0@)
    } else {
        None
    }
}

/// `Записать(Файл [, ТипФайла])`: the path and the bytes the file gets; the
/// host writes them.
pub fn write(ws: &Workspace, obj: &Value, args: &Vec<Value>) -> (r: Result<(String, Vec<u8>), SpreadError>)
    requires
        ws.wf(),
    ensures
        doc_index(ws, obj) is None ==> spread_err(r, "Записать: не табличный документ"@),
        doc_index(ws, obj) is Some && write_path(args@) is None ==> spread_err(r, "Записать: ожидался путь к файлу"@),
        doc_index(ws, obj) matches Some(i) ==> (write_path(args@) matches Some(p) ==> {
            let d = ws.docs@[i as int];
            match file_kind_spec(args@) {
                Err(m) => spread_err(r, m),
                Ok(FileKind::Mxl) => r matches Ok(out) && out.0@ == p && out.1@ == mxl_header() + bom() + utf8(
                    crlf(mxl_text(&d)),
                ),
                Ok(FileKind::Txt) => r matches Ok(out) && out.0@ == p && out.1@ == bom() + utf8(txt_text(&d)),
                Ok(FileKind::Xlsx) => if d.grid_fits() {
                    &&& r matches Ok(out) ==> out.0@ == p && exists|l: Layout|
                        l.of(&d) && out.1@ == zip_archive(#[trigger] xlsx_entries(&d, &l))
                    &&& r is Err ==> spread_err(r, "Записать: не удалось собрать XLSX"@)
                    &&& (forall|l: Layout| l.of(&d) ==> crate::xlsx::zip_room(#[trigger] xlsx_entries(&d, &l))) ==> r is Ok
                } else {
                    spread_err(r, "Записать: ширины колонок вне допустимого"@)
                },
                Ok(FileKind::Pdf) => spread_err(r, "Записать: PDF здесь не строится"@),
            }
        }),
{
    let i = match doc_of(ws, obj) {
        Some(i) => i,
        None => {
            return Err(spread_error("Записать: не табличный документ"));
        },
    };
    let path = if args.len() > 0 {
        match &args[0] {
            Value::Str(s) => s.clone(),
            _ => {
                return Err(spread_error("Записать: ожидался путь к файлу"));
            },
        }
    } else {
        return Err(spread_error("Записать: ожидался путь к файлу"));
    };
    let kind = file_kind(args)?;
    let d = &ws.docs[i];
    assert(d.wf());
    match kind {
        FileKind::Mxl => Ok((path, to_mxl_bytes(d))),
        FileKind::Txt => Ok((path, to_txt_bytes(d))),
        FileKind::Xlsx => {
            if !d.fits_grid() {
                return Err(spread_error("Записать: ширины колонок вне допустимого"));
            }
            match to_xlsx_bytes(d) {
                Some(b) => Ok((path, b)),
                None => Err(spread_error("Записать: не удалось собрать XLSX")),
            }
        },
        FileKind::Pdf => Err(spread_error("Записать: PDF здесь не строится")),
    }
}

/// `Прочитать(Файл)`: the document to load into and the path of the file.
pub fn read_target(ws: &Workspace, obj: &Value, args: &Vec<Value>) -> (r: Result<(usize, String), SpreadError>)
    ensures
        doc_index(ws, obj) is None ==> spread_err(r, "Прочитать: не табличный документ"@),
        doc_index(ws, obj) is Some && write_path(args@) is None ==> spread_err(r, "Прочитать: ожидался путь к файлу"@),
        doc_index(ws, obj) matches Some(i) ==> (write_path(args@) matches Some(p) ==> r matches Ok(t) && t.0 == i
            && t.1@ == p),
{
    let i = match doc_of(ws, obj) {
        Some(i) => i,
        None => {
            return Err(spread_error("Прочитать: не табличный документ"));
        },
    };
    if args.len() > 0 {
        match &args[0] {
            Value::Str(s) => Ok((i, s.clone())),
            _ => Err(spread_error("Прочитать: ожидался путь к файлу")),
        }
    } else {
        Err(spread_error("Прочитать: ожидался путь к файлу"))
    }
}

/// The contents of a file loaded into document `i`, which it replaces, as
/// the platform does: the format goes by the content, an MXL file by its
/// signature. The XML template format is not read by this library.
pub fn read_into(ws: &mut Workspace, i: usize, bytes: &Vec<u8>, path: &str) -> (r: Result<(), SpreadError>)
    requires
        old(ws).wf(),
        i < old(ws).docs@.len(),
    ensures
        final(ws).wf(),
        r is Err ==> final(ws).docs@ == old(ws).docs@,
        r is Ok ==> final(ws).docs@ == old(ws).docs@.update(i as int, final(ws).docs@[i as int]) && has_signature(
            bytes@,
        ),
        has_signature(bytes@) && bytes@.len() < 13 ==> spread_err(r, "файл MXL оборван на заголовке"@),
        has_signature(bytes@) && bytes@.len() >= 13 && (forall|t: Seq<char>| utf8(t) != body_of(bytes@)) ==> spread_err(
            r,
            "тело MXL не в UTF-8"@,
        ),
        !has_signature(bytes@) && (forall|t: Seq<char>| utf8(t) != bytes@) ==> spread_err(
            r,
            path@ + ": не MXL и не текст в UTF-8"@,
        ),
        !has_signature(bytes@) && (exists|t: Seq<char>| utf8(t) == bytes@) ==> spread_err(
            r,
            path@ + ": макет XML здесь не читается"@,
        ),
{
    if !(bytes.len() >= 6 && bytes[0] == 77 && bytes[1] == 79 && bytes[2] == 88 && bytes[3] == 67 && bytes[4] == 69
        && bytes[5] == 76) {
        return match decode_utf8(bytes.as_slice()) {
            Some(_) => Err(failure(path, ": макет XML здесь не читается")),
            None => Err(failure(path, ": не MXL и не текст в UTF-8")),
        };
    }
    match from_mxl_bytes(bytes) {
        Ok(d) => {
            let ghost s = ws.docs@;
            let _ = take_doc(ws, i);
            put_doc(ws, i, d);
            proof {
                lemma_replace(s, i as int, d);
                lemma_replace_wf(s, i as int, d);
            }
            Ok(())
        },
        Err(e) => Err(SpreadError::Spread(e.message())),
    }
}

} // verus!
