//! Template parameters: the values the cells of a template wait for, and
//! putting them into the cells before `Вывести`.

use vstd::prelude::*;
use crate::bridge::{
    doc_index, doc_of, lemma_replace, lemma_replace_wf, put_doc, spread_err, spread_error, take_doc, SpreadError,
    Workspace,
};
use crate::convert::{eq_fold, eq_ignore_ascii_case, str_upper, to_upper};
use crate::keyed;
use crate::keyed::sorted;
use crate::model::{
    cells_view, clone_opt_str, opt_str_view, CellData, CellView, RowData, RowView, SpreadDocData, Value,
};
use crate::text::{chars_eq, to_chars};

verus! {

// --- the values --------------------------------------------------------------------

/// Where a key first sits among the values.
pub open spec fn slot_of(ps: Seq<(String, Value)>, key: Seq<char>) -> Option<int>
    decreases ps.len(),
{
    if ps.len() == 0 {
        None
    } else {
        match slot_of(ps.drop_last(), key) {
            Some(k) => Some(k),
            None => if ps.last().0@ == key {
                Some(ps.len() - 1)
            } else {
                None
            },
        }
    }
}

proof fn lemma_slot_bound(ps: Seq<(String, Value)>, key: Seq<char>)
    ensures
        slot_of(ps, key) matches Some(k) ==> 0 <= k < ps.len() && ps[k].0@ == key,
    decreases ps.len(),
{
    if ps.len() > 0 {
        lemma_slot_bound(ps.drop_last(), key);
    }
}

/// The value under a key; `Неопределено` when there is none.
pub open spec fn lookup(ps: Seq<(String, Value)>, key: Seq<char>) -> Value {
    match slot_of(ps, key) {
        Some(k) => ps[k].1,
        None => Value::Undefined,
    }
}

fn find_slot(ps: &Vec<(String, Value)>, key: &Vec<char>) -> (r: Option<usize>)
    ensures
        match r {
            Some(k) => slot_of(ps@, key@) == Some(k as int),
            None => slot_of(ps@, key@) is None,
        },
{
    let mut k: usize = 0;
    while k < ps.len()
        invariant
            k <= ps@.len(),
            slot_of(ps@.take(k as int), key@) is None,
        decreases ps@.len() - k,
    {
        let name = to_chars(ps[k].0.as_str());
        proof {
            assert(ps@.take(k + 1).drop_last() =~= ps@.take(k as int));
        }
        if chars_eq(&name, key) {
            proof {
                assert(ps@.take(k + 1).last() == ps@[k as int]);
                lemma_take_slot(ps@, key@, k + 1);
            }
            return Some(k);
        }
        k = k + 1;
    }
    proof {
        assert(ps@.take(ps@.len() as int) =~= ps@);
    }
    None
}

/// A key found in a prefix is found at the same place in the whole.
proof fn lemma_take_slot(ps: Seq<(String, Value)>, key: Seq<char>, n: int)
    requires
        0 <= n <= ps.len(),
        slot_of(ps.take(n), key) is Some,
    ensures
        slot_of(ps, key) == slot_of(ps.take(n), key),
    decreases ps.len() - n,
{
    if n < ps.len() {
        assert(ps.take(n + 1).drop_last() =~= ps.take(n));
        lemma_take_slot(ps, key, n + 1);
    } else {
        assert(ps.take(n) =~= ps);
    }
}

/// The parameters object of a document.
pub open spec fn params_of(ws: &Workspace, v: &Value) -> Option<usize> {
    match *v {
        Value::Params(i) => if i < ws.docs@.len() {
            Some(i)
        } else {
            None
        },
        _ => None,
    }
}

fn params_doc(ws: &Workspace, v: &Value) -> (r: Option<usize>)
    ensures
        r == params_of(ws, v),
{
    match v {
        Value::Params(i) => if *i < ws.docs.len() {
            Some(*i)
        } else {
            None
        },
        _ => None,
    }
}

/// `Область.Параметры.Имя`: the value under the upper-cased name;
/// `Неопределено` for a name never set, as a structure answers.
pub fn get_param(ws: &Workspace, obj: &Value, name: &str) -> (r: Result<Value, SpreadError>)
    ensures
        params_of(ws, obj) is None ==> spread_err(r, "Параметры: не объект параметров макета"@),
        params_of(ws, obj) matches Some(i) ==> r == Ok::<Value, SpreadError>(
            lookup(ws.docs@[i as int].params@, str_upper(name@)),
        ),
{
    let i = match params_doc(ws, obj) {
        Some(i) => i,
        None => {
            return Err(spread_error("Параметры: не объект параметров макета"));
        },
    };
    let up = to_upper(name);
    let key = to_chars(up.as_str());
    proof {
        lemma_slot_bound(ws.docs@[i as int].params@, key@);
    }
    match find_slot(&ws.docs[i].params, &key) {
        Some(k) => Ok(ws.docs[i].params[k].1.clone()),
        None => Ok(Value::Undefined),
    }
}

/// Everything but the parameter values is the same.
pub open spec fn same_but_params(a: SpreadDocData, b: SpreadDocData) -> bool {
    &&& a.rows == b.rows
    &&& a.height == b.height
    &&& a.width == b.width
    &&& a.col_widths == b.col_widths
    &&& a.merges == b.merges
    &&& a.row_merges == b.row_merges
    &&& a.col_merges == b.col_merges
    &&& a.column_sets == b.column_sets
    &&& a.row_sets == b.row_sets
    &&& a.main_columns == b.main_columns
    &&& a.drawings == b.drawings
    &&& a.row_groups == b.row_groups
    &&& a.open_groups == b.open_groups
    &&& a.names == b.names
    &&& a.show_grid == b.show_grid
    &&& a.fix_top == b.fix_top
    &&& a.fix_left == b.fix_left
    &&& a.print_scale == b.print_scale
    &&& a.landscape == b.landscape
    &&& a.margins == b.margins
    &&& a.print_area == b.print_area
}

/// `Область.Параметры.Имя = Значение`: the value replaces the one under the
/// upper-cased name, or is added under it.
pub fn set_param(ws: &mut Workspace, obj: &Value, name: &str, val: Value) -> (r: Result<(), SpreadError>)
    requires
        old(ws).wf(),
    ensures
        final(ws).wf(),
        params_of(old(ws), obj) is None ==> spread_err(r, "Параметры: не объект параметров макета"@)
            && final(ws).docs@ == old(ws).docs@,
        params_of(old(ws), obj) matches Some(i) ==> {
            let od = old(ws).docs@[i as int];
            let nd = final(ws).docs@[i as int];
            &&& r is Ok
            &&& final(ws).docs@ == old(ws).docs@.update(i as int, nd)
            &&& same_but_params(nd, od)
            &&& match slot_of(od.params@, str_upper(name@)) {
                Some(k) => nd.params@ == od.params@.update(k, (od.params@[k].0, val)),
                None => {
                    &&& nd.params@.drop_last() == od.params@
                    &&& nd.params@.len() == od.params@.len() + 1
                    &&& nd.params@.last().0@ == str_upper(name@)
                    &&& nd.params@.last().1 == val
                },
            }
        },
{
    let i = match params_doc(ws, obj) {
        Some(i) => i,
        None => {
            return Err(spread_error("Параметры: не объект параметров макета"));
        },
    };
    let up = to_upper(name);
    let key = to_chars(up.as_str());
    let ghost s = ws.docs@;
    let mut d = take_doc(ws, i);
    let ghost od = d;
    match find_slot(&d.params, &key) {
        Some(k) => {
            proof {
                lemma_slot_bound(d.params@, key@);
            }
            let (name_k, _) = d.params.remove(k);
            d.params.insert(k, (name_k, val));
            proof {
                assert(d.params@ =~= od.params@.update(k as int, (od.params@[k as int].0, val)));
            }
        },
        None => {
            d.params.push((up, val));
            proof {
                assert(d.params@.drop_last() =~= od.params@);
            }
        },
    }
    put_doc(ws, i, d);
    proof {
        assert(d.rows_view() == od.rows_view());
        lemma_replace(s, i as int, d);
        lemma_replace_wf(s, i as int, d);
    }
    Ok(())
}

// --- the cells in order ------------------------------------------------------------

/// The cells of a row, in column order.
pub open spec fn row_cells(row: RowData) -> Seq<CellView> {
    row.cells@.map_values(|e: (u32, CellData)| e.1@)
}

/// The cells of a document, row by row.
pub open spec fn doc_cells(rows: Seq<(u32, RowData)>) -> Seq<CellView>
    decreases rows.len(),
{
    if rows.len() == 0 {
        Seq::empty()
    } else {
        doc_cells(rows.drop_last()) + row_cells(rows.last().1)
    }
}

proof fn lemma_doc_cells_step(rows: Seq<(u32, RowData)>, i: int)
    requires
        0 <= i < rows.len(),
    ensures
        doc_cells(rows.take(i + 1)) == doc_cells(rows.take(i)) + row_cells(rows[i].1),
{
    assert(rows.take(i + 1).drop_last() =~= rows.take(i));
}

proof fn lemma_row_cells_step(row: RowData, j: int)
    requires
        0 <= j < row.cells@.len(),
    ensures
        row_cells(row).take(j + 1) == row_cells(row).take(j).push(row.cells@[j].1@),
{
    assert(row_cells(row).take(j + 1) =~= row_cells(row).take(j).push(row.cells@[j].1@));
}

// --- names of parameters -----------------------------------------------------------

pub open spec fn has_fold(p: Seq<Seq<char>>, x: Seq<char>) -> bool {
    exists|k: int| 0 <= k < p.len() && eq_fold(#[trigger] p[k], x)
}

/// The parameter names of the cells, each once up to ASCII case, in the
/// order the cells come.
pub open spec fn param_list(cells: Seq<CellView>) -> Seq<Seq<char>>
    decreases cells.len(),
{
    if cells.len() == 0 {
        Seq::empty()
    } else {
        let p = param_list(cells.drop_last());
        let x = cells.last().parameter;
        if x.len() == 0 || has_fold(p, x) {
            p
        } else {
            p.push(x)
        }
    }
}

fn names_have(out: &Vec<String>, x: &String) -> (b: bool)
    ensures
        b == has_fold(out@.map_values(|s: String| s@), x@),
{
    let ghost p = out@.map_values(|s: String| s@);
    let mut k: usize = 0;
    while k < out.len()
        invariant
            k <= out@.len(),
            p == out@.map_values(|s: String| s@),
            forall|q: int| 0 <= q < k ==> !eq_fold(#[trigger] p[q], x@),
        decreases out@.len() - k,
    {
        if eq_ignore_ascii_case(out[k].as_str(), x.as_str()) {
            assert(eq_fold(p[k as int], x@));
            return true;
        }
        k = k + 1;
    }
    false
}

/// The names of all template parameters of the document: the cells with a
/// parameter, each name once up to ASCII case.
pub fn param_names(doc: &SpreadDocData) -> (out: Vec<String>)
    ensures
        out@.map_values(|s: String| s@) == param_list(doc_cells(doc.rows@)),
{
    let mut out: Vec<String> = Vec::new();
    let mut i: usize = 0;
    while i < doc.rows.len()
        invariant
            i <= doc.rows@.len(),
            out@.map_values(|s: String| s@) == param_list(doc_cells(doc.rows@.take(i as int))),
        decreases doc.rows@.len() - i,
    {
        let row = &doc.rows[i].1;
        let ghost before = doc_cells(doc.rows@.take(i as int));
        let mut j: usize = 0;
        proof {
            assert(before + row_cells(*row).take(0) =~= before);
        }
        while j < row.cells.len()
            invariant
                j <= row.cells@.len(),
                i < doc.rows@.len(),
                *row == doc.rows@[i as int].1,
                out@.map_values(|s: String| s@) == param_list(before + row_cells(*row).take(j as int)),
            decreases row.cells@.len() - j,
        {
            let cell = &row.cells[j].1;
            proof {
                lemma_row_cells_step(*row, j as int);
                let prev = before + row_cells(*row).take(j as int);
                assert((prev.push(cell@)).drop_last() =~= prev);
                assert(before + row_cells(*row).take(j + 1) =~= prev.push(cell@));
            }
            if !cell.parameter.as_str().is_empty() && !names_have(&out, &cell.parameter) {
                let ghost o = out@;
                out.push(cell.parameter.clone());
                proof {
                    assert(out@.map_values(|s: String| s@) =~= o.map_values(|s: String| s@).push(cell.parameter@));
                }
            }
            j = j + 1;
        }
        proof {
            lemma_doc_cells_step(doc.rows@, i as int);
            assert(row_cells(*row).take(row.cells@.len() as int) =~= row_cells(*row));
        }
        i = i + 1;
    }
    proof {
        assert(doc.rows@.take(doc.rows@.len() as int) =~= doc.rows@);
    }
    out
}

/// Some cell has a parameter of this name, compared in upper case.
pub open spec fn has_param_spec(doc: SpreadDocData, name: Seq<char>) -> bool {
    exists|k: int|
        0 <= k < doc_cells(doc.rows@).len() && str_upper(#[trigger] doc_cells(doc.rows@)[k].parameter) == str_upper(
            name,
        )
}

/// Whether the document has a parameter of this name.
pub fn has_param(doc: &SpreadDocData, name: &str) -> (b: bool)
    ensures
        b == has_param_spec(*doc, name@),
{
    let up = to_upper(name);
    let key = to_chars(up.as_str());
    let mut i: usize = 0;
    while i < doc.rows.len()
        invariant
            i <= doc.rows@.len(),
            key@ == str_upper(name@),
            forall|k: int|
                0 <= k < doc_cells(doc.rows@.take(i as int)).len() ==> str_upper(
                    #[trigger] doc_cells(doc.rows@.take(i as int))[k].parameter,
                ) != key@,
        decreases doc.rows@.len() - i,
    {
        let row = &doc.rows[i].1;
        let ghost before = doc_cells(doc.rows@.take(i as int));
        let mut j: usize = 0;
        while j < row.cells.len()
            invariant
                j <= row.cells@.len(),
                i < doc.rows@.len(),
                before == doc_cells(doc.rows@.take(i as int)),
                *row == doc.rows@[i as int].1,
                key@ == str_upper(name@),
                forall|k: int| 0 <= k < before.len() ==> str_upper(#[trigger] before[k].parameter) != key@,
                forall|k: int| 0 <= k < j ==> str_upper(#[trigger] row_cells(*row)[k].parameter) != key@,
            decreases row.cells@.len() - j,
        {
            let p = to_upper(row.cells[j].1.parameter.as_str());
            let pc = to_chars(p.as_str());
            if chars_eq(&pc, &key) {
                proof {
                    lemma_doc_cells_step(doc.rows@, i as int);
                    lemma_doc_cells_prefix(doc.rows@, i + 1);
                    let all = doc_cells(doc.rows@);
                    let nxt = doc_cells(doc.rows@.take(i + 1));
                    let k = before.len() + j;
                    assert(nxt[k] == row_cells(*row)[j as int]);
                    assert(row_cells(*row)[j as int] == row.cells@[j as int].1@);
                    assert(all[k] == nxt[k]);
                    assert(str_upper(all[k].parameter) == str_upper(name@));
                }
                return true;
            }
            j = j + 1;
        }
        proof {
            lemma_doc_cells_step(doc.rows@, i as int);
            let nxt = doc_cells(doc.rows@.take(i + 1));
            assert forall|k: int| 0 <= k < nxt.len() implies str_upper(#[trigger] nxt[k].parameter) != key@ by {
                if k < before.len() {
                    assert(nxt[k] == before[k]);
                } else {
                    assert(nxt[k] == row_cells(*row)[k - before.len()]);
                }
            }
        }
        i = i + 1;
    }
    proof {
        assert(doc.rows@.take(doc.rows@.len() as int) =~= doc.rows@);
    }
    false
}

/// The cells of a prefix of the rows come first among all cells.
proof fn lemma_doc_cells_prefix(rows: Seq<(u32, RowData)>, n: int)
    requires
        0 <= n <= rows.len(),
    ensures
        doc_cells(rows.take(n)).len() <= doc_cells(rows).len(),
        forall|k: int| 0 <= k < doc_cells(rows.take(n)).len() ==> #[trigger] doc_cells(rows.take(n))[k] == doc_cells(rows)[k],
    decreases rows.len() - n,
{
    if n < rows.len() {
        lemma_doc_cells_prefix(rows, n + 1);
        lemma_doc_cells_step(rows, n);
        let a = doc_cells(rows.take(n));
        let b = doc_cells(rows.take(n + 1));
        assert forall|k: int| 0 <= k < a.len() implies #[trigger] a[k] == doc_cells(rows)[k] by {
            assert(a[k] == b[k]);
        }
    } else {
        assert(rows.take(n) =~= rows);
    }
}

// --- putting values into the cells --------------------------------------------------

/// The text for a parameter: that of the first pair whose name, upper-cased,
/// is the upper-cased parameter.
pub open spec fn param_text(ps: Seq<(String, String)>, u: Seq<char>) -> Option<Seq<char>>
    decreases ps.len(),
{
    if ps.len() == 0 {
        None
    } else {
        match param_text(ps.drop_last(), u) {
            Some(t) => Some(t),
            None => if str_upper(ps.last().0@) == u {
                Some(ps.last().1@)
            } else {
                None
            },
        }
    }
}

proof fn lemma_take_text(ps: Seq<(String, String)>, u: Seq<char>, n: int)
    requires
        0 <= n <= ps.len(),
        param_text(ps.take(n), u) is Some,
    ensures
        param_text(ps, u) == param_text(ps.take(n), u),
    decreases ps.len() - n,
{
    if n < ps.len() {
        assert(ps.take(n + 1).drop_last() =~= ps.take(n));
        lemma_take_text(ps, u, n + 1);
    } else {
        assert(ps.take(n) =~= ps);
    }
}

/// A cell after the values were put in: a cell with a parameter whose value
/// is given shows that value as its text.
pub open spec fn apply_cell(v: CellView, ps: Seq<(String, String)>) -> CellView {
    if v.parameter.len() > 0 {
        match param_text(ps, str_upper(v.parameter)) {
            Some(t) => CellView { text: t, ..v },
            None => v,
        }
    } else {
        v
    }
}

pub open spec fn applied_rows(m: Map<u32, RowView>, ps: Seq<(String, String)>) -> Map<u32, RowView> {
    m.map_values(|row: RowView| RowView { height: row.height, cells: row.cells.map_values(|v: CellView| apply_cell(v, ps)) })
}

fn upper_names(ps: &Vec<(String, String)>) -> (ups: Vec<Vec<char>>)
    ensures
        ups@.len() == ps@.len(),
        forall|k: int| 0 <= k < ps@.len() ==> (#[trigger] ups@[k])@ == str_upper(ps@[k].0@),
{
    let mut ups: Vec<Vec<char>> = Vec::new();
    let mut k: usize = 0;
    while k < ps.len()
        invariant
            k <= ps@.len(),
            ups@.len() == k,
            forall|q: int| 0 <= q < k ==> (#[trigger] ups@[q])@ == str_upper(ps@[q].0@),
        decreases ps@.len() - k,
    {
        let up = to_upper(ps[k].0.as_str());
        ups.push(to_chars(up.as_str()));
        k = k + 1;
    }
    ups
}

fn find_text(ups: &Vec<Vec<char>>, ps: &Vec<(String, String)>, key: &Vec<char>) -> (r: Option<usize>)
    requires
        ups@.len() == ps@.len(),
        forall|k: int| 0 <= k < ps@.len() ==> (#[trigger] ups@[k])@ == str_upper(ps@[k].0@),
    ensures
        match r {
            Some(k) => k < ps@.len() && param_text(ps@, key@) == Some(ps@[k as int].1@),
            None => param_text(ps@, key@) is None,
        },
{
    let mut k: usize = 0;
    while k < ups.len()
        invariant
            k <= ups@.len(),
            ups@.len() == ps@.len(),
            forall|q: int| 0 <= q < ps@.len() ==> (#[trigger] ups@[q])@ == str_upper(ps@[q].0@),
            param_text(ps@.take(k as int), key@) is None,
        decreases ups@.len() - k,
    {
        proof {
            assert(ps@.take(k + 1).drop_last() =~= ps@.take(k as int));
            assert(ps@.take(k + 1).last() == ps@[k as int]);
        }
        if chars_eq(&ups[k], key) {
            proof {
                lemma_take_text(ps@, key@, k + 1);
            }
            return Some(k);
        }
        k = k + 1;
    }
    proof {
        assert(ps@.take(ps@.len() as int) =~= ps@);
    }
    None
}

fn apply_cells(cells: &Vec<(u32, CellData)>, ups: &Vec<Vec<char>>, ps: &Vec<(String, String)>) -> (out: Vec<(u32, CellData)>)
    requires
        sorted(cells@),
        ups@.len() == ps@.len(),
        forall|k: int| 0 <= k < ps@.len() ==> (#[trigger] ups@[k])@ == str_upper(ps@[k].0@),
    ensures
        sorted(out@),
        keyed::same_keys(cells@, out@),
        cells_view(out@) == cells_view(cells@).map_values(|v: CellView| apply_cell(v, ps@)),
{
    let mut out: Vec<(u32, CellData)> = Vec::new();
    let mut j: usize = 0;
    while j < cells.len()
        invariant
            j <= cells@.len(),
            out@.len() == j,
            ups@.len() == ps@.len(),
            forall|k: int| 0 <= k < ps@.len() ==> (#[trigger] ups@[k])@ == str_upper(ps@[k].0@),
            forall|q: int| 0 <= q < j ==> (#[trigger] out@[q]).0 == cells@[q].0 && out@[q].1@ == apply_cell(
                cells@[q].1@,
                ps@,
            ),
        decreases cells@.len() - j,
    {
        let mut c = cells[j].1.clone();
        if !c.parameter.as_str().is_empty() {
            let up = to_upper(c.parameter.as_str());
            let key = to_chars(up.as_str());
            match find_text(ups, ps, &key) {
                Some(k) => {
                    c.text = ps[k].1.clone();
                },
                None => {},
            }
        }
        out.push((cells[j].0, c));
        j = j + 1;
    }
    proof {
        keyed::lemma_same_keys(cells@, out@);
        keyed::lemma_all(cells@);
        keyed::lemma_all(out@);
        assert(cells_view(out@) =~= cells_view(cells@).map_values(|v: CellView| apply_cell(v, ps@))) by {
            assert forall|c: u32| #[trigger] cells_view(out@).contains_key(c) implies cells_view(out@)[c]
                == apply_cell(cells_view(cells@)[c], ps@) by {
                let q = keyed::lemma_index_of(out@, c);
            }
        }
    }
    out
}

/// The rows of a document with the values put in.
fn apply_rows(d: &SpreadDocData, ps: &Vec<(String, String)>) -> (rows: Vec<(u32, RowData)>)
    requires
        d.wf(),
    ensures
        keyed::same_keys(d.rows@, rows@),
        sorted(rows@),
        forall|j: int| 0 <= j < rows@.len() ==> (#[trigger] rows@[j]).1.wf()
            && rows@[j].1@ == (RowView {
                height: d.rows@[j].1@.height,
                cells: d.rows@[j].1@.cells.map_values(|v: CellView| apply_cell(v, ps@)),
            }),
{
    let ups = upper_names(ps);
    let mut rows: Vec<(u32, RowData)> = Vec::new();
    let mut i: usize = 0;
    while i < d.rows.len()
        invariant
            d.wf(),
            i <= d.rows@.len(),
            rows@.len() == i,
            ups@.len() == ps@.len(),
            forall|k: int| 0 <= k < ps@.len() ==> (#[trigger] ups@[k])@ == str_upper(ps@[k].0@),
            forall|j: int| 0 <= j < i ==> (#[trigger] rows@[j]).0 == d.rows@[j].0 && rows@[j].1.wf()
                && rows@[j].1@ == (RowView {
                    height: d.rows@[j].1@.height,
                    cells: d.rows@[j].1@.cells.map_values(|v: CellView| apply_cell(v, ps@)),
                }),
        decreases d.rows@.len() - i,
    {
        assert(d.rows@[i as int].1.wf());
        let cells = apply_cells(&d.rows[i].1.cells, &ups, ps);
        rows.push((d.rows[i].0, RowData { height: d.rows[i].1.height, cells }));
        i = i + 1;
    }
    proof {
        keyed::lemma_same_keys(d.rows@, rows@);
    }
    rows
}

/// Put the values of the parameters into the cells: every cell with a
/// parameter whose name (compared in upper case) has a value takes that
/// value as its text. The host formats the values before `Вывести`.
pub fn apply_params(ws: &mut Workspace, obj: &Value, params: &Vec<(String, String)>) -> (r: Result<(), SpreadError>)
    requires
        old(ws).wf(),
    ensures
        final(ws).wf(),
        r is Err ==> final(ws).docs@ == old(ws).docs@,
        params@.len() == 0 ==> r is Ok && final(ws).docs@ == old(ws).docs@,
        params@.len() > 0 && doc_index(old(ws), obj) is None ==> spread_err(r, "Вывести: не табличный документ"@),
        params@.len() > 0 ==> (doc_index(old(ws), obj) matches Some(i) ==> {
            let od = old(ws).docs@[i as int];
            let nd = final(ws).docs@[i as int];
            &&& r is Ok
            &&& final(ws).docs@ == old(ws).docs@.update(i as int, nd)
            &&& nd.rows_view() == applied_rows(od.rows_view(), params@)
            &&& nd.height == od.height
            &&& nd.width == od.width
            &&& nd.same_but_rows(&od)
        }),
{
    if params.len() == 0 {
        return Ok(());
    }
    let i = match doc_of(ws, obj) {
        Some(i) => i,
        None => {
            return Err(spread_error("Вывести: не табличный документ"));
        },
    };
    let rows = apply_rows(&ws.docs[i], params);
    let ghost s = ws.docs@;
    let mut d = take_doc(ws, i);
    let ghost od = d;
    d.rows = rows;
    proof {
        keyed::lemma_same_keys(od.rows@, d.rows@);
        keyed::lemma_all(od.rows@);
        keyed::lemma_all(d.rows@);
        assert(d.rows_view() =~= applied_rows(od.rows_view(), params@)) by {
            assert forall|r: u32| #[trigger] d.rows_view().contains_key(r) implies d.rows_view()[r]
                == applied_rows(od.rows_view(), params@)[r] by {
                let j = keyed::lemma_index_of(d.rows@, r);
                assert(d.rows_view()[r].cells =~= applied_rows(od.rows_view(), params@)[r].cells);
            }
        }
        assert forall|r: u32, c: u32|
            #[trigger] d.rows_view().contains_key(r) && #[trigger] d.rows_view()[r].cells.contains_key(c)
                implies c < d.width by {
            assert(od.rows_view().contains_key(r));
            assert(od.rows_view()[r].cells.contains_key(c));
        }
    }
    put_doc(ws, i, d);
    proof {
        lemma_replace(s, i as int, d);
        lemma_replace_wf(s, i as int, d);
    }
    Ok(())
}

// --- taking the values out --------------------------------------------------------

/// A parameter as `take_params` hands it out: name, value and the format of
/// its cell.
pub open spec fn taken(p: Seq<(Seq<char>, Value, Option<Seq<char>>)>, u: Seq<char>) -> bool {
    exists|k: int| 0 <= k < p.len() && str_upper(#[trigger] p[k].0) == u
}

/// The parameters of the cells, each once in upper case, in the order the
/// cells come, with the value stored under the name and the format of the
/// first cell.
pub open spec fn take_list(cells: Seq<CellView>, ps: Seq<(String, Value)>) -> Seq<(Seq<char>, Value, Option<Seq<char>>)>
    decreases cells.len(),
{
    if cells.len() == 0 {
        Seq::empty()
    } else {
        let p = take_list(cells.drop_last(), ps);
        let x = cells.last();
        if x.parameter.len() == 0 || taken(p, str_upper(x.parameter)) {
            p
        } else {
            p.push((x.parameter, lookup(ps, str_upper(x.parameter)), x.format_spec))
        }
    }
}

pub open spec fn entries_view(out: Seq<(String, Value, Option<String>)>) -> Seq<(Seq<char>, Value, Option<Seq<char>>)> {
    out.map_values(|e: (String, Value, Option<String>)| (e.0@, e.1, opt_str_view(e.2)))
}

fn seen_has(seen: &Vec<Vec<char>>, u: &Vec<char>) -> (b: bool)
    ensures
        b == exists|k: int| 0 <= k < seen@.len() && (#[trigger] seen@[k])@ == u@,
{
    let mut k: usize = 0;
    while k < seen.len()
        invariant
            k <= seen@.len(),
            forall|q: int| 0 <= q < k ==> (#[trigger] seen@[q])@ != u@,
        decreases seen@.len() - k,
    {
        if chars_eq(&seen[k], u) {
            return true;
        }
        k = k + 1;
    }
    false
}

/// The values of the template's parameters with the format of each
/// parameter's cell, for the host to format before `apply_params`; the
/// values are taken out of the document.
pub fn take_params(ws: &mut Workspace, obj: &Value) -> (r: Result<Vec<(String, Value, Option<String>)>, SpreadError>)
    requires
        old(ws).wf(),
    ensures
        final(ws).wf(),
        doc_index(old(ws), obj) is None ==> spread_err(r, "Вывести: не табличный документ"@)
            && final(ws).docs@ == old(ws).docs@,
        doc_index(old(ws), obj) matches Some(i) ==> {
            let od = old(ws).docs@[i as int];
            let nd = final(ws).docs@[i as int];
            &&& r matches Ok(out) && entries_view(out@) == take_list(doc_cells(od.rows@), od.params@)
            &&& final(ws).docs@ == old(ws).docs@.update(i as int, nd)
            &&& nd.params@.len() == 0
            &&& same_but_params(nd, od)
        },
{
    let i = match doc_of(ws, obj) {
        Some(i) => i,
        None => {
            return Err(spread_error("Вывести: не табличный документ"));
        },
    };
    let d = &ws.docs[i];
    let mut out: Vec<(String, Value, Option<String>)> = Vec::new();
    let mut seen: Vec<Vec<char>> = Vec::new();
    let mut ri: usize = 0;
    while ri < d.rows.len()
        invariant
            ri <= d.rows@.len(),
            *d == ws.docs@[i as int],
            seen@.len() == out@.len(),
            forall|k: int| 0 <= k < out@.len() ==> (#[trigger] seen@[k])@ == str_upper(out@[k].0@),
            entries_view(out@) == take_list(doc_cells(d.rows@.take(ri as int)), d.params@),
        decreases d.rows@.len() - ri,
    {
        let row = &d.rows[ri].1;
        let ghost before = doc_cells(d.rows@.take(ri as int));
        let mut j: usize = 0;
        proof {
            assert(before + row_cells(*row).take(0) =~= before);
        }
        while j < row.cells.len()
            invariant
                j <= row.cells@.len(),
                ri < d.rows@.len(),
                *row == d.rows@[ri as int].1,
                seen@.len() == out@.len(),
                forall|k: int| 0 <= k < out@.len() ==> (#[trigger] seen@[k])@ == str_upper(out@[k].0@),
                entries_view(out@) == take_list(before + row_cells(*row).take(j as int), d.params@),
            decreases row.cells@.len() - j,
        {
            let cell = &row.cells[j].1;
            proof {
                lemma_row_cells_step(*row, j as int);
                let prev = before + row_cells(*row).take(j as int);
                assert((prev.push(cell@)).drop_last() =~= prev);
                assert(before + row_cells(*row).take(j + 1) =~= prev.push(cell@));
            }
            if !cell.parameter.as_str().is_empty() {
                let up = to_upper(cell.parameter.as_str());
                let key = to_chars(up.as_str());
                let was = seen_has(&seen, &key);
                proof {
                    let p = entries_view(out@);
                    if was {
                        let k = choose|k: int| 0 <= k < seen@.len() && (#[trigger] seen@[k])@ == key@;
                        assert(p[k].0 == out@[k].0@);
                        assert(str_upper(p[k].0) == key@);
                    } else {
                        assert forall|k: int| 0 <= k < p.len() implies str_upper(#[trigger] p[k].0) != key@ by {
                            assert(p[k].0 == out@[k].0@);
                            assert(seen@[k]@ == str_upper(out@[k].0@));
                        }
                    }
                }
                if !was {
                    proof {
                        lemma_slot_bound(d.params@, key@);
                    }
                    let value = match find_slot(&d.params, &key) {
                        Some(k) => d.params[k].1.clone(),
                        None => Value::Undefined,
                    };
                    let ghost o = out@;
                    out.push((cell.parameter.clone(), value, clone_opt_str(&cell.format_spec)));
                    seen.push(key);
                    proof {
                        assert(entries_view(out@) =~= entries_view(o).push(
                            (cell.parameter@, lookup(d.params@, str_upper(cell.parameter@)), cell@.format_spec),
                        ));
                    }
                }
            }
            j = j + 1;
        }
        proof {
            lemma_doc_cells_step(d.rows@, ri as int);
            assert(row_cells(*row).take(row.cells@.len() as int) =~= row_cells(*row));
        }
        ri = ri + 1;
    }
    proof {
        assert(d.rows@.take(d.rows@.len() as int) =~= d.rows@);
    }
    let ghost s = ws.docs@;
    let mut nd = take_doc(ws, i);
    let ghost od = nd;
    nd.params = Vec::new();
    proof {
        assert(nd.rows_view() == od.rows_view());
    }
    put_doc(ws, i, nd);
    proof {
        lemma_replace(s, i as int, nd);
        lemma_replace_wf(s, i as int, nd);
    }
    Ok(out)
}

// --- filling values in -----------------------------------------------------------

/// The pairs the parameters give to `ЗаполнитьЗначенияСвойств`: each
/// parameter name in the order of the text, with its value.
pub open spec fn fill_pairs(d: SpreadDocData) -> Seq<(Seq<char>, Value)> {
    param_list(doc_cells(d.rows@)).map_values(|n: Seq<char>| (n, lookup(d.params@, str_upper(n))))
}

/// `ЗаполнитьЗначенияСвойств` with the parameters as its source.
pub fn fill_source_pairs(ws: &Workspace, obj: &Value) -> (r: Result<Vec<(String, Value)>, SpreadError>)
    ensures
        params_of(ws, obj) is None ==> spread_err(r, "Параметры: не объект параметров макета"@),
        params_of(ws, obj) matches Some(i) ==> r matches Ok(out) && out@.map_values(|e: (String, Value)| (e.0@, e.1))
            == fill_pairs(ws.docs@[i as int]),
{
    let i = match params_doc(ws, obj) {
        Some(i) => i,
        None => {
            return Err(spread_error("Параметры: не объект параметров макета"));
        },
    };
    let d = &ws.docs[i];
    let names = param_names(d);
    let ghost want = fill_pairs(*d);
    let mut out: Vec<(String, Value)> = Vec::new();
    let mut k: usize = 0;
    while k < names.len()
        invariant
            *d == ws.docs@[i as int],
            want == fill_pairs(*d),
            names@.map_values(|s: String| s@) == param_list(doc_cells(d.rows@)),
            k <= names@.len(),
            out@.len() == k,
            forall|q: int| 0 <= q < k ==> (#[trigger] out@[q]).0@ == want[q].0 && out@[q].1 == want[q].1,
        decreases names@.len() - k,
    {
        let up = to_upper(names[k].as_str());
        let key = to_chars(up.as_str());
        proof {
            lemma_slot_bound(d.params@, key@);
            assert(names@.map_values(|s: String| s@)[k as int] == names@[k as int]@);
        }
        let value = match find_slot(&d.params, &key) {
            Some(j) => d.params[j].1.clone(),
            None => Value::Undefined,
        };
        out.push((names[k].clone(), value));
        k = k + 1;
    }
    proof {
        assert(out@.map_values(|e: (String, Value)| (e.0@, e.1)) =~= want);
    }
    Ok(out)
}

/// `ЗаполнитьЗначенияСвойств` with the parameters as its target: a name the
/// template has takes the value, another is skipped (`false`).
pub fn fill_property(ws: &mut Workspace, obj: &Value, name: &str, val: Value) -> (r: Result<bool, SpreadError>)
    requires
        old(ws).wf(),
    ensures
        final(ws).wf(),
        params_of(old(ws), obj) is None ==> spread_err(r, "Параметры: не объект параметров макета"@)
            && final(ws).docs@ == old(ws).docs@,
        params_of(old(ws), obj) matches Some(i) ==> {
            let od = old(ws).docs@[i as int];
            if has_param_spec(od, name@) {
                &&& r == Ok::<bool, SpreadError>(true)
                &&& lookup(final(ws).docs@[i as int].params@, str_upper(name@)) == val
                &&& same_but_params(final(ws).docs@[i as int], od)
                &&& final(ws).docs@ == old(ws).docs@.update(i as int, final(ws).docs@[i as int])
            } else {
                r == Ok::<bool, SpreadError>(false) && final(ws).docs@ == old(ws).docs@
            }
        },
{
    let i = match params_doc(ws, obj) {
        Some(i) => i,
        None => {
            return Err(spread_error("Параметры: не объект параметров макета"));
        },
    };
    if !has_param(&ws.docs[i], name) {
        return Ok(false);
    }
    let ghost od = ws.docs@[i as int];
    let ghost v = val;
    set_param(ws, obj, name, val)?;
    proof {
        let nd = ws.docs@[i as int];
        let key = str_upper(name@);
        if slot_of(od.params@, key) is None {
            crate::laws::lemma_push_lookup(od.params@, nd.params@, key, v);
        } else {
            crate::laws::lemma_update_lookup(od.params@, nd.params@, key, v);
        }
    }
    Ok(true)
}

} // verus!
