//! Areas by coordinates and by address: `Область` and `ПолучитьОбласть`.

use vstd::prelude::*;
use crate::bridge::{doc_index, doc_of, put_new_doc, spread_err, spread_error, SpreadError, Workspace};
use crate::convert::{failure, number, str_upper, to_upper, trim, trim_chars, whole_of};
use crate::lexer::{i64_of, is_digit, parse_i64};
use crate::model::{
    api_index, max_u32, min_u32, window, window_merges, window_rows, AreaKind, Merge, NamedArea, Rect,
    SpreadDocData, Value,
};
use crate::keyed::as_map;
use crate::text::{from_chars, to_chars};

verus! {

// --- numbers of the API ------------------------------------------------------------

/// What `number` gives for a value: the whole number, or the message.
pub open spec fn number_spec(v: Value, what: Seq<char>) -> Result<i64, Seq<char>> {
    match whole_of(v) {
        Some(q) => Ok(q as i64),
        None => Err(
            if v is Number {
                what + ": ожидалось целое число"@
            } else {
                what + ": ожидалось число"@
            },
        ),
    }
}

/// A result of the library against its expected value: the same value, or
/// a spreadsheet error with the expected message.
pub open spec fn agrees<T>(r: Result<T, SpreadError>, s: Result<T, Seq<char>>) -> bool {
    match s {
        Ok(v) => r == Ok::<T, SpreadError>(v),
        Err(m) => spread_err(r, m),
    }
}

pub fn read_number(v: &Value, what: &str) -> (r: Result<i64, SpreadError>)
    ensures
        agrees(r, number_spec(*v, what@)),
{
    number(v, what)
}

/// Four whole numbers, the first failure winning.
pub open spec fn coords_spec(args: Seq<Value>, what: Seq<char>) -> Result<(i64, i64, i64, i64), Seq<char>> {
    match number_spec(args[0], what) {
        Err(m) => Err(m),
        Ok(a) => match number_spec(args[1], what) {
            Err(m) => Err(m),
            Ok(b) => match number_spec(args[2], what) {
                Err(m) => Err(m),
                Ok(c) => match number_spec(args[3], what) {
                    Err(m) => Err(m),
                    Ok(d) => Ok((a, b, c, d)),
                },
            },
        },
    }
}

/// A 1-based API coordinate the document can index.
pub open spec fn api_ok(v: i64) -> bool {
    v <= u32::MAX + 1
}

/// The rectangle of four API coordinates, bounds put in order.
pub open spec fn api_rect(r1: i64, c1: i64, r2: i64, c2: i64) -> Rect {
    Rect {
        r1: min_u32(api_index(r1), api_index(r2)),
        c1: min_u32(api_index(c1), api_index(c2)),
        r2: max_u32(api_index(r1), api_index(r2)),
        c2: max_u32(api_index(c1), api_index(c2)),
        kind: AreaKind::Rect,
    }
}

/// The rectangle of four coordinates, or the message when one is beyond
/// any document.
pub open spec fn coords_rect(args: Seq<Value>, what: Seq<char>) -> Result<Rect, Seq<char>> {
    match coords_spec(args, what) {
        Err(m) => Err(m),
        Ok((a, b, c, d)) => if api_ok(a) && api_ok(b) && api_ok(c) && api_ok(d) {
            Ok(api_rect(a, b, c, d))
        } else {
            Err(what + ": координата вне документа"@)
        },
    }
}

fn rect_from_args(args: &Vec<Value>, what: &str) -> (r: Result<Rect, SpreadError>)
    requires
        args@.len() == 4,
    ensures
        agrees(r, coords_rect(args@, what@)),
{
    let a = read_number(&args[0], what)?;
    let b = read_number(&args[1], what)?;
    let c = read_number(&args[2], what)?;
    let d = read_number(&args[3], what)?;
    let top: i64 = 0x1_0000_0000;
    if a > top || b > top || c > top || d > top {
        return Err(failure(what, ": координата вне документа"));
    }
    Ok(Rect::from_api(a, b, c, d))
}

// --- addresses ---------------------------------------------------------------------

/// The number of ASCII digits a text starts with.
pub open spec fn digit_run(s: Seq<char>) -> int
    decreases s.len(),
{
    if s.len() > 0 && is_digit(s[0]) {
        1 + digit_run(s.drop_first())
    } else {
        0
    }
}

/// One side of an address, already trimmed and upper-cased: letters `R`
/// (or the Cyrillic `С`) for the row and `C` for the column, each with its
/// number; a later letter overrides an earlier one of its axis. At least
/// one axis must be given.
pub open spec fn part_scan(u: Seq<char>, row: Option<i64>, col: Option<i64>) -> Option<(Option<i64>, Option<i64>)>
    decreases u.len(),
{
    if u.len() == 0 {
        if row is None && col is None {
            None
        } else {
            Some((row, col))
        }
    } else {
        let c = u[0];
        let rest = u.drop_first();
        let k = digit_run(rest);
        proof {
            lemma_digit_run_bound(rest);
        }
        match i64_of(rest.take(k)) {
            None => None,
            Some(n) => if c == 'R' || c == 'С' {
                part_scan(rest.skip(k), Some(n), col)
            } else if c == 'C' {
                part_scan(rest.skip(k), row, Some(n))
            } else {
                None
            },
        }
    }
}

proof fn lemma_digit_run(s: Seq<char>, i: int)
    requires
        0 <= i <= s.len(),
        forall|j: int| 0 <= j < i ==> is_digit(#[trigger] s[j]),
    ensures
        digit_run(s) == i + digit_run(s.skip(i)),
    decreases i,
{
    if i > 0 {
        assert(s.drop_first().skip(i - 1) =~= s.skip(i));
        lemma_digit_run(s.drop_first(), i - 1);
    } else {
        assert(s.skip(0) =~= s);
    }
}

pub proof fn lemma_digit_run_bound(s: Seq<char>)
    ensures
        0 <= digit_run(s) <= s.len(),
    decreases s.len(),
{
    if s.len() > 0 && is_digit(s[0]) {
        lemma_digit_run_bound(s.drop_first());
    }
}

/// Reads one side of an address out of upper-cased characters.
pub fn scan_part(u: &Vec<char>) -> (r: Option<(Option<i64>, Option<i64>)>)
    ensures
        r == part_scan(u@, None, None),
{
    let n = u.len();
    let mut row: Option<i64> = None;
    let mut col: Option<i64> = None;
    let mut i: usize = 0;
    proof {
        assert(u@.skip(0) =~= u@);
    }
    while i < n
        invariant
            i <= n,
            n == u@.len(),
            part_scan(u@, None, None) == part_scan(u@.skip(i as int), row, col),
        decreases n - i,
    {
        let c = u[i];
        let mut j: usize = i + 1;
        while j < n && '0' <= u[j] && u[j] <= '9'
            invariant
                i + 1 <= j <= n,
                n == u@.len(),
                forall|q: int| i + 1 <= q < j ==> is_digit(#[trigger] u@[q]),
            decreases n - j,
        {
            j = j + 1;
        }
        let mut digits: Vec<char> = Vec::new();
        let mut q: usize = i + 1;
        while q < j
            invariant
                i + 1 <= q <= j <= n,
                n == u@.len(),
                digits@ == u@.subrange(i + 1, q as int),
            decreases j - q,
        {
            proof {
                assert(u@.subrange(i + 1, q + 1) =~= u@.subrange(i + 1, q as int).push(u@[q as int]));
            }
            digits.push(u[q]);
            q = q + 1;
        }
        proof {
            let s = u@.skip(i as int);
            let rest = s.drop_first();
            assert(rest =~= u@.skip(i + 1));
            assert forall|p: int| 0 <= p < j - (i + 1) implies is_digit(#[trigger] rest[p]) by {
                assert(rest[p] == u@[p + i + 1]);
            }
            lemma_digit_run(rest, j - (i + 1));
            if j < n {
                assert(rest.skip(j - (i + 1))[0] == u@[j as int]);
            }
            assert(digit_run(rest) == j - (i + 1));
            assert(rest.take(j - (i + 1)) =~= digits@);
            assert(rest.skip(j - (i + 1)) =~= u@.skip(j as int));
            assert(s[0] == c);
        }
        let v = match parse_i64(&digits) {
            Some(v) => v,
            None => {
                return None;
            },
        };
        if c == 'R' || c == 'С' {
            row = Some(v);
        } else if c == 'C' {
            col = Some(v);
        } else {
            return None;
        }
        i = j;
    }
    if row.is_none() && col.is_none() {
        return None;
    }
    Some((row, col))
}

/// One side of an address as the platform reads it.
pub open spec fn part_of(s: Seq<char>) -> Option<(Option<i64>, Option<i64>)> {
    part_scan(str_upper(trim(s)), None, None)
}

fn part(s: &Vec<char>) -> (r: Option<(Option<i64>, Option<i64>)>)
    ensures
        r == part_of(s@),
{
    let t = trim_chars(s);
    let ts = from_chars(&t);
    let up = to_upper(ts.as_str());
    let u = to_chars(up.as_str());
    scan_part(&u)
}

/// The index of the first `:`, or the length.
pub open spec fn colon_at(s: Seq<char>) -> int
    decreases s.len(),
{
    if s.len() == 0 {
        0
    } else if s[0] == ':' {
        0
    } else {
        1 + colon_at(s.drop_first())
    }
}

proof fn lemma_colon_at(s: Seq<char>, i: int)
    requires
        0 <= i <= s.len(),
        forall|j: int| 0 <= j < i ==> #[trigger] s[j] != ':',
    ensures
        colon_at(s) == i + colon_at(s.skip(i)),
    decreases i,
{
    if i > 0 {
        assert(s.drop_first().skip(i - 1) =~= s.skip(i));
        lemma_colon_at(s.drop_first(), i - 1);
    } else {
        assert(s.skip(0) =~= s);
    }
}

pub open spec fn or_else(o: Option<i64>, d: i64) -> i64 {
    match o {
        Some(v) => v,
        None => d,
    }
}

/// The kind of an area by the axes its start gives: only rows, only
/// columns, or a rectangle.
pub open spec fn kind_of(start: (Option<i64>, Option<i64>)) -> AreaKind {
    if start.0 is Some && start.1 is None {
        AreaKind::Rows
    } else if start.0 is None && start.1 is Some {
        AreaKind::Columns
    } else {
        AreaKind::Rect
    }
}

/// The area of two address sides; a missing axis spans the document
/// (at least one row or column).
pub open spec fn sides_rect(start: (Option<i64>, Option<i64>), end: (Option<i64>, Option<i64>), h: u32, w: u32) -> Option<Rect> {
    let r1 = or_else(start.0, 1);
    let c1 = or_else(start.1, 1);
    let r2 = or_else(end.0, if h >= 1 { h as i64 } else { 1 });
    let c2 = or_else(end.1, if w >= 1 { w as i64 } else { 1 });
    if api_ok(r1) && api_ok(c1) && api_ok(r2) && api_ok(c2) {
        Some(Rect { kind: kind_of(start), ..api_rect(r1, c1, r2, c2) })
    } else {
        None
    }
}

/// An address such as `R1C1`, `R1C1:R2C3`, `R2`, `R2:R3`, `C1` or `C1:C2`
/// in a document of `h` rows and `w` columns.
pub open spec fn address_of(s: Seq<char>, h: u32, w: u32) -> Option<Rect> {
    let k = colon_at(s);
    let a = if k < s.len() {
        s.take(k)
    } else {
        s
    };
    let b = if k < s.len() {
        s.skip(k + 1)
    } else {
        s
    };
    match (part_of(a), part_of(b)) {
        (Some(start), Some(end)) => sides_rect(start, end, h, w),
        _ => None,
    }
}

pub fn parse_address(s: &str, height: u32, width: u32) -> (r: Option<Rect>)
    ensures
        r == address_of(s@, height, width),
{
    let v = to_chars(s);
    let n = v.len();
    let mut k: usize = 0;
    while k < n && v[k] != ':'
        invariant
            k <= n,
            n == v@.len(),
            v@ == s@,
            forall|j: int| 0 <= j < k ==> #[trigger] v@[j] != ':',
        decreases n - k,
    {
        k = k + 1;
    }
    proof {
        lemma_colon_at(v@, k as int);
        if k < n {
            assert(v@.skip(k as int)[0] == v@[k as int]);
        }
    }
    let (a, b) = if k < n {
        let mut a: Vec<char> = Vec::new();
        let mut i: usize = 0;
        while i < k
            invariant
                i <= k < n,
                n == v@.len(),
                a@ == v@.take(i as int),
            decreases k - i,
        {
            proof {
                assert(v@.take(i + 1) =~= v@.take(i as int).push(v@[i as int]));
            }
            a.push(v[i]);
            i = i + 1;
        }
        let mut b: Vec<char> = Vec::new();
        let mut j: usize = k + 1;
        while j < n
            invariant
                k < j <= n,
                n == v@.len(),
                b@ == v@.subrange(k + 1, j as int),
            decreases n - j,
        {
            proof {
                assert(v@.subrange(k + 1, j + 1) =~= v@.subrange(k + 1, j as int).push(v@[j as int]));
            }
            b.push(v[j]);
            j = j + 1;
        }
        proof {
            assert(b@ =~= v@.skip(k + 1));
        }
        (part(&a), part(&b))
    } else {
        let p = part(&v);
        (p, p)
    };
    let start = match a {
        Some(x) => x,
        None => {
            return None;
        },
    };
    let end = match b {
        Some(x) => x,
        None => {
            return None;
        },
    };
    let r1: i64 = match start.0 {
        Some(x) => x,
        None => 1,
    };
    let c1: i64 = match start.1 {
        Some(x) => x,
        None => 1,
    };
    let r2: i64 = match end.0 {
        Some(x) => x,
        None => if height >= 1 {
            height as i64
        } else {
            1
        },
    };
    let c2: i64 = match end.1 {
        Some(x) => x,
        None => if width >= 1 {
            width as i64
        } else {
            1
        },
    };
    let top: i64 = 0x1_0000_0000;
    if r1 > top || c1 > top || r2 > top || c2 > top {
        return None;
    }
    let kind = if start.0.is_some() && start.1.is_none() {
        AreaKind::Rows
    } else if start.0.is_none() && start.1.is_some() {
        AreaKind::Columns
    } else {
        AreaKind::Rect
    };
    let rect = Rect::from_api(r1, c1, r2, c2);
    Some(Rect { kind, ..rect })
}

// --- Область -----------------------------------------------------------------------

/// What `Область` gives: an area of the document, or the message.
pub open spec fn region_spec(ws: &Workspace, obj: &Value, args: Seq<Value>) -> Result<Value, Seq<char>> {
    match doc_index(ws, obj) {
        None => Err("Область: не табличный документ"@),
        Some(i) => if args.len() == 4 {
            match coords_rect(args, "Область"@) {
                Ok(rect) => Ok(Value::Area(i, rect)),
                Err(m) => Err(m),
            }
        } else if args.len() == 1 {
            match args[0] {
                Value::Str(s) => match address_of(s@, ws.docs@[i as int].height, ws.docs@[i as int].width) {
                    Some(rect) => Ok(Value::Area(i, rect)),
                    None => Err("Область не найдена: "@ + s@),
                },
                _ => Err("Область: ожидались координаты или адрес"@),
            }
        } else {
            Err("Область: ожидалось 1 или 4 аргумента"@)
        },
    }
}

/// `Область(СтрокаНач, КолонкаНач, СтрокаКон, КолонкаКон)` or
/// `Область("R1C1:R2C3")`: an area that looks into the same document.
pub fn region(ws: &Workspace, obj: &Value, args: &Vec<Value>) -> (r: Result<Value, SpreadError>)
    ensures
        agrees(r, region_spec(ws, obj, args@)),
{
    let i = match doc_of(ws, obj) {
        Some(i) => i,
        None => {
            return Err(spread_error("Область: не табличный документ"));
        },
    };
    if args.len() == 4 {
        let rect = rect_from_args(args, "Область")?;
        Ok(Value::Area(i, rect))
    } else if args.len() == 1 {
        match &args[0] {
            Value::Str(s) => {
                let h = ws.docs[i].height;
                let w = ws.docs[i].width;
                match parse_address(s.as_str(), h, w) {
                    Some(rect) => Ok(Value::Area(i, rect)),
                    None => Err(failure("Область не найдена: ", s.as_str())),
                }
            },
            _ => Err(spread_error("Область: ожидались координаты или адрес")),
        }
    } else {
        Err(spread_error("Область: ожидалось 1 или 4 аргумента"))
    }
}

// --- ПолучитьОбласть ---------------------------------------------------------------

/// The rectangle of a named area: whole columns run to the last row, whole
/// rows to the last column.
pub open spec fn named_rect(a: NamedArea, h: u32, w: u32) -> Rect {
    Rect {
        r1: a.r1,
        c1: a.c1,
        r2: if a.kind == AreaKind::Columns {
            if h >= 1 {
                (h - 1) as u32
            } else {
                0
            }
        } else {
            a.r2
        },
        c2: if a.kind == AreaKind::Rows {
            if w >= 1 {
                (w - 1) as u32
            } else {
                0
            }
        } else {
            a.c2
        },
        kind: a.kind,
    }
}

/// The rectangle `ПолучитьОбласть` cuts out of document `d`.
pub open spec fn cut_rect(d: SpreadDocData, args: Seq<Value>) -> Result<Rect, Seq<char>> {
    if args.len() == 4 {
        coords_rect(args, "ПолучитьОбласть"@)
    } else if args.len() == 1 && args[0] is Str {
        let s = args[0]->Str_0@;
        if d.names_view().contains_key(s) {
            Ok(named_rect(d.names_view()[s], d.height, d.width))
        } else {
            match address_of(s, d.height, d.width) {
                Some(rect) => Ok(rect),
                None => Err("Область не найдена: "@ + s),
            }
        }
    } else {
        Err("ПолучитьОбласть: ожидалось 1 или 4 аргумента"@)
    }
}

/// A rectangle a copy can be cut by: bounds in order, not the whole index
/// range, and no merge that starts inside it ends before it starts.
pub open spec fn cut_ok(d: SpreadDocData, r: Rect) -> bool {
    &&& r.r1 <= r.r2
    &&& r.c1 <= r.c2
    &&& r.r2 - r.r1 < u32::MAX
    &&& r.c2 - r.c1 < u32::MAX
    &&& forall|i: int|
        0 <= i < d.merges@.len() && r.r1 <= (#[trigger] d.merges@[i]).r1 <= r.r2 && r.c1 <= d.merges@[i].c1 <= r.c2
            ==> d.merges@[i].r2 >= r.r1 && d.merges@[i].c2 >= r.c1
}

fn check_cut(d: &SpreadDocData, r: Rect) -> (b: bool)
    ensures
        b == cut_ok(*d, r),
{
    if !(r.r1 <= r.r2 && r.c1 <= r.c2 && r.r2 - r.r1 < u32::MAX && r.c2 - r.c1 < u32::MAX) {
        return false;
    }
    let mut i: usize = 0;
    while i < d.merges.len()
        invariant
            i <= d.merges@.len(),
            forall|j: int|
                0 <= j < i && r.r1 <= (#[trigger] d.merges@[j]).r1 <= r.r2 && r.c1 <= d.merges@[j].c1 <= r.c2
                    ==> d.merges@[j].r2 >= r.r1 && d.merges@[j].c2 >= r.c1,
        decreases d.merges@.len() - i,
    {
        let m: Merge = d.merges[i];
        if r.r1 <= m.r1 && m.r1 <= r.r2 && r.c1 <= m.c1 && m.c1 <= r.c2 && !(m.r2 >= r.r1 && m.c2 >= r.c1) {
            return false;
        }
        i = i + 1;
    }
    true
}

/// Document `out` is the copy of rectangle `r` of `src`, moved to the top
/// left corner.
pub open spec fn is_cut_of(out: SpreadDocData, src: SpreadDocData, r: Rect) -> bool {
    &&& out.wf()
    &&& out.rows_view() == window_rows(src.rows_view(), r.r1, r.c1, r.r2, r.c2)
    &&& as_map(out.col_widths@) == window(as_map(src.col_widths@), r.c1, r.c2)
    &&& out.merges@ == window_merges(src.merges@, r.r1, r.c1, r.r2, r.c2)
    &&& out.height == r.r2 - r.r1 + 1
    &&& out.width == r.c2 - r.c1 + 1
    &&& out.show_grid == src.show_grid
    &&& out.row_merges@.len() == 0
    &&& out.col_merges@.len() == 0
    &&& out.names@.len() == 0
    &&& out.drawings@.len() == 0
}

/// `ПолучитьОбласть(СтрокаНач, КолонкаНач, СтрокаКон, КолонкаКон)` or
/// `ПолучитьОбласть(ИмяИлиАдрес)`: a COPY of the area as a document of its
/// own, added to the workspace.
pub fn get_area(ws: &mut Workspace, obj: &Value, args: &Vec<Value>) -> (r: Result<Value, SpreadError>)
    requires
        old(ws).wf(),
    ensures
        final(ws).wf(),
        doc_index(old(ws), obj) is None ==> spread_err(r, "ПолучитьОбласть: не табличный документ"@)
            && final(ws).docs@ == old(ws).docs@,
        doc_index(old(ws), obj) matches Some(i) ==> {
            let d = old(ws).docs@[i as int];
            match cut_rect(d, args@) {
                Err(m) => spread_err(r, m) && final(ws).docs@ == old(ws).docs@,
                Ok(rect) => if cut_ok(d, rect) {
                    &&& r == Ok::<Value, SpreadError>(Value::Doc(old(ws).docs@.len() as usize))
                    &&& final(ws).docs@.drop_last() == old(ws).docs@
                    &&& final(ws).docs@.len() == old(ws).docs@.len() + 1
                    &&& is_cut_of(final(ws).docs@.last(), d, rect)
                } else {
                    &&& spread_err(r, "ПолучитьОбласть: область вне документа"@)
                    &&& final(ws).docs@ == old(ws).docs@
                },
            }
        },
{
    let i = match doc_of(ws, obj) {
        Some(i) => i,
        None => {
            return Err(spread_error("ПолучитьОбласть: не табличный документ"));
        },
    };
    let h = ws.docs[i].height;
    let w = ws.docs[i].width;
    let rect = if args.len() == 4 {
        rect_from_args(args, "ПолучитьОбласть")?
    } else if args.len() == 1 {
        let s = match &args[0] {
            Value::Str(s) => s,
            _ => {
                return Err(spread_error("ПолучитьОбласть: ожидалось 1 или 4 аргумента"));
            },
        };
        match ws.docs[i].area_named(s.as_str()) {
            Some(a) => Rect {
                r1: a.r1,
                c1: a.c1,
                r2: if a.kind == AreaKind::Columns {
                    if h >= 1 {
                        h - 1
                    } else {
                        0
                    }
                } else {
                    a.r2
                },
                c2: if a.kind == AreaKind::Rows {
                    if w >= 1 {
                        w - 1
                    } else {
                        0
                    }
                } else {
                    a.c2
                },
                kind: a.kind,
            },
            None => match parse_address(s.as_str(), h, w) {
                Some(rect) => rect,
                None => {
                    return Err(failure("Область не найдена: ", s.as_str()));
                },
            },
        }
    } else {
        return Err(spread_error("ПолучитьОбласть: ожидалось 1 или 4 аргумента"));
    };
    if !check_cut(&ws.docs[i], rect) {
        return Err(spread_error("ПолучитьОбласть: область вне документа"));
    }
    let cut = ws.docs[i].extract(rect.r1, rect.c1, rect.r2, rect.c2);
    let n = put_new_doc(ws, cut);
    Ok(Value::Doc(n))
}

} // verus!
