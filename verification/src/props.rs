//! Properties of documents and areas as the language reads and writes
//! them; names are taken in Russian or English, ASCII letters in any case.

use vstd::prelude::*;
use crate::bridge::{
    area, area_of, doc_index, doc_of, lemma_replace, lemma_replace_wf, put_doc, spread_err, spread_error, take_doc,
    SpreadError, Workspace,
};
use crate::convert::{
    abs, decimal_value, failure, fits_i64, hundredths, hundredths_of, is_named, named, number, parse_decimal, trim,
    trim_chars,
};
use crate::keyed::as_map;
use crate::names::without_corner;
use crate::address::{agrees, number_spec, read_number};
use crate::model::{
    box_before, box_rows_before, empty_row, AreaKind, CellView, Member, NamedArea, PageMargins, Rect, RowView, SpreadDocData, Value,
};
use crate::text::to_chars;

verus! {

/// The properties of an area.
#[derive(Debug, Clone, Copy, PartialEq, Eq, Structural)]
pub enum AreaProp {
    /// `Текст`.
    Text,
    /// `Расшифровка`.
    Details,
    /// `ПараметрРасшифровки`.
    DetailParam,
    /// `СодержитЗначение`.
    ContainsValue,
    /// `Параметр`.
    Parameter,
    /// `Имя`.
    Name,
    /// `ШиринаКолонки`.
    ColumnWidth,
    /// `ВысотаСтроки`.
    RowHeight,
}

/// The properties of a document.
#[derive(Debug, Clone, Copy, PartialEq, Eq, Structural)]
pub enum DocProp {
    TableHeight,
    TableWidth,
    ShowGrid,
    FixedTop,
    FixedLeft,
    LeftMargin,
    RightMargin,
    TopMargin,
    BottomMargin,
    Orientation,
}

pub open spec fn area_prop_of(n: Seq<char>) -> Option<AreaProp> {
    if named(n, "Текст"@, "Text"@) {
        Some(AreaProp::Text)
    } else if named(n, "Расшифровка"@, "Details"@) {
        Some(AreaProp::Details)
    } else if named(n, "ПараметрРасшифровки"@, "DetailsParameter"@) {
        Some(AreaProp::DetailParam)
    } else if named(n, "СодержитЗначение"@, "ContainsValue"@) {
        Some(AreaProp::ContainsValue)
    } else if named(n, "Параметр"@, "Parameter"@) {
        Some(AreaProp::Parameter)
    } else if named(n, "Имя"@, "Name"@) {
        Some(AreaProp::Name)
    } else if named(n, "ШиринаКолонки"@, "ColumnWidth"@) {
        Some(AreaProp::ColumnWidth)
    } else if named(n, "ВысотаСтроки"@, "RowHeight"@) {
        Some(AreaProp::RowHeight)
    } else {
        None
    }
}

pub fn area_prop(n: &str) -> (r: Option<AreaProp>)
    ensures
        r == area_prop_of(n@),
{
    if is_named(n, "Текст", "Text") {
        Some(AreaProp::Text)
    } else if is_named(n, "Расшифровка", "Details") {
        Some(AreaProp::Details)
    } else if is_named(n, "ПараметрРасшифровки", "DetailsParameter") {
        Some(AreaProp::DetailParam)
    } else if is_named(n, "СодержитЗначение", "ContainsValue") {
        Some(AreaProp::ContainsValue)
    } else if is_named(n, "Параметр", "Parameter") {
        Some(AreaProp::Parameter)
    } else if is_named(n, "Имя", "Name") {
        Some(AreaProp::Name)
    } else if is_named(n, "ШиринаКолонки", "ColumnWidth") {
        Some(AreaProp::ColumnWidth)
    } else if is_named(n, "ВысотаСтроки", "RowHeight") {
        Some(AreaProp::RowHeight)
    } else {
        None
    }
}

pub open spec fn doc_prop_of(n: Seq<char>) -> Option<DocProp> {
    if named(n, "ВысотаТаблицы"@, "TableHeight"@) {
        Some(DocProp::TableHeight)
    } else if named(n, "ШиринаТаблицы"@, "TableWidth"@) {
        Some(DocProp::TableWidth)
    } else if named(n, "ОтображатьСетку"@, "ShowGrid"@) {
        Some(DocProp::ShowGrid)
    } else if named(n, "ФиксацияСверху"@, "FixedTop"@) {
        Some(DocProp::FixedTop)
    } else if named(n, "ФиксацияСлева"@, "FixedLeft"@) {
        Some(DocProp::FixedLeft)
    } else if named(n, "ПолеСлева"@, "LeftMargin"@) {
        Some(DocProp::LeftMargin)
    } else if named(n, "ПолеСправа"@, "RightMargin"@) {
        Some(DocProp::RightMargin)
    } else if named(n, "ПолеСверху"@, "TopMargin"@) {
        Some(DocProp::TopMargin)
    } else if named(n, "ПолеСнизу"@, "BottomMargin"@) {
        Some(DocProp::BottomMargin)
    } else if named(n, "ОриентацияСтраницы"@, "PageOrientation"@) {
        Some(DocProp::Orientation)
    } else {
        None
    }
}

pub fn doc_prop(n: &str) -> (r: Option<DocProp>)
    ensures
        r == doc_prop_of(n@),
{
    if is_named(n, "ВысотаТаблицы", "TableHeight") {
        Some(DocProp::TableHeight)
    } else if is_named(n, "ШиринаТаблицы", "TableWidth") {
        Some(DocProp::TableWidth)
    } else if is_named(n, "ОтображатьСетку", "ShowGrid") {
        Some(DocProp::ShowGrid)
    } else if is_named(n, "ФиксацияСверху", "FixedTop") {
        Some(DocProp::FixedTop)
    } else if is_named(n, "ФиксацияСлева", "FixedLeft") {
        Some(DocProp::FixedLeft)
    } else if is_named(n, "ПолеСлева", "LeftMargin") {
        Some(DocProp::LeftMargin)
    } else if is_named(n, "ПолеСправа", "RightMargin") {
        Some(DocProp::RightMargin)
    } else if is_named(n, "ПолеСверху", "TopMargin") {
        Some(DocProp::TopMargin)
    } else if is_named(n, "ПолеСнизу", "BottomMargin") {
        Some(DocProp::BottomMargin)
    } else if is_named(n, "ОриентацияСтраницы", "PageOrientation") {
        Some(DocProp::Orientation)
    } else {
        None
    }
}

// --- reading -----------------------------------------------------------------------

/// What a property read gives: a string with this text, or this value.
pub enum Shown {
    Str(Seq<char>),
    Plain(Value),
}

pub open spec fn shows(v: Value, e: Shown) -> bool {
    match e {
        Shown::Str(t) => v matches Value::Str(s) && s@ == t,
        Shown::Plain(x) => v == x,
    }
}

/// The first name, in the order of names, of an area that starts at
/// `(r1, c1)`.
pub open spec fn name_at(s: Seq<(String, NamedArea)>, r1: u32, c1: u32) -> Option<Seq<char>>
    decreases s.len(),
{
    if s.len() == 0 {
        None
    } else {
        match name_at(s.drop_last(), r1, c1) {
            Some(n) => Some(n),
            None => if s.last().1.r1 == r1 && s.last().1.c1 == c1 {
                Some(s.last().0@)
            } else {
                None
            },
        }
    }
}

proof fn lemma_take_name(s: Seq<(String, NamedArea)>, r1: u32, c1: u32, n: int)
    requires
        0 <= n <= s.len(),
        name_at(s.take(n), r1, c1) is Some,
    ensures
        name_at(s, r1, c1) == name_at(s.take(n), r1, c1),
    decreases s.len() - n,
{
    if n < s.len() {
        assert(s.take(n + 1).drop_last() =~= s.take(n));
        lemma_take_name(s, r1, c1, n + 1);
    } else {
        assert(s.take(n) =~= s);
    }
}

fn find_name_at(s: &Vec<(String, NamedArea)>, r1: u32, c1: u32) -> (r: String)
    ensures
        r@ == match name_at(s@, r1, c1) {
            Some(n) => n,
            None => Seq::<char>::empty(),
        },
{
    let mut k: usize = 0;
    while k < s.len()
        invariant
            k <= s@.len(),
            name_at(s@.take(k as int), r1, c1) is None,
        decreases s@.len() - k,
    {
        proof {
            assert(s@.take(k + 1).drop_last() =~= s@.take(k as int));
            assert(s@.take(k + 1).last() == s@[k as int]);
        }
        if s[k].1.r1 == r1 && s[k].1.c1 == c1 {
            proof {
                lemma_take_name(s@, r1, c1, k + 1);
            }
            return s[k].0.clone();
        }
        k = k + 1;
    }
    proof {
        assert(s@.take(s@.len() as int) =~= s@);
    }
    String::new()
}

/// What reading a property of an area gives; `None` for a property an area
/// does not have.
pub open spec fn area_get(d: SpreadDocData, rect: Rect, p: AreaProp) -> Option<Shown> {
    let cell = d.cell_or_blank(rect.r1, rect.c1);
    match p {
        AreaProp::Text => Some(
            Shown::Str(
                match cell.value {
                    Some(v) => v,
                    None => cell.text,
                },
            ),
        ),
        AreaProp::Details => Some(
            Shown::Str(
                match cell.detail {
                    Some(v) => v,
                    None => Seq::empty(),
                },
            ),
        ),
        AreaProp::DetailParam => Some(Shown::Str(cell.detail_param)),
        AreaProp::ContainsValue => Some(Shown::Plain(Value::Bool(cell.value is Some))),
        AreaProp::Parameter => Some(Shown::Str(Seq::empty())),
        AreaProp::Name => Some(
            Shown::Str(
                match name_at(d.names@, rect.r1, rect.c1) {
                    Some(n) => n,
                    None => Seq::empty(),
                },
            ),
        ),
        _ => None,
    }
}

/// A number of hundredths as the language sees it, without trailing zeros
/// in the fraction.
pub open spec fn hundredths_value(h: i64) -> Value {
    if abs(h as int) % 100 == 0 {
        Value::Number {
            mantissa: (if h < 0 {
                -(abs(h as int) / 100)
            } else {
                (abs(h as int) / 100) as int
            }) as i64,
            scale: 0,
        }
    } else if abs(h as int) % 10 == 0 {
        Value::Number {
            mantissa: (if h < 0 {
                -(abs(h as int) / 10)
            } else {
                (abs(h as int) / 10) as int
            }) as i64,
            scale: 1,
        }
    } else {
        Value::Number { mantissa: h, scale: 2 }
    }
}

pub fn hundredths_number(h: i64) -> (v: Value)
    ensures
        v == hundredths_value(h),
{
    let wide: i128 = h as i128;
    let a: u64 = if h < 0 {
        (-wide) as u64
    } else {
        h as u64
    };
    if a % 100 == 0 {
        let q: i128 = (a / 100) as i128;
        Value::Number {
            mantissa: if h < 0 {
                (-q) as i64
            } else {
                q as i64
            },
            scale: 0,
        }
    } else if a % 10 == 0 {
        let q: i128 = (a / 10) as i128;
        Value::Number {
            mantissa: if h < 0 {
                (-q) as i64
            } else {
                q as i64
            },
            scale: 1,
        }
    } else {
        Value::Number { mantissa: h, scale: 2 }
    }
}

/// What reading a property of a document gives.
pub open spec fn doc_get(d: SpreadDocData, p: DocProp) -> Value {
    match p {
        DocProp::TableHeight => Value::Number { mantissa: d.height as i64, scale: 0 },
        DocProp::TableWidth => Value::Number { mantissa: d.width as i64, scale: 0 },
        DocProp::ShowGrid => Value::Bool(d.show_grid),
        DocProp::FixedTop => Value::Number { mantissa: d.fix_top, scale: 0 },
        DocProp::FixedLeft => Value::Number { mantissa: d.fix_left, scale: 0 },
        DocProp::LeftMargin => hundredths_value(d.margins.left),
        DocProp::RightMargin => hundredths_value(d.margins.right),
        DocProp::TopMargin => hundredths_value(d.margins.top),
        DocProp::BottomMargin => hundredths_value(d.margins.bottom),
        DocProp::Orientation => Value::Enum(
            if d.landscape {
                Member::PageLandscape
            } else {
                Member::PagePortrait
            },
        ),
    }
}

pub open spec fn unknown<T>(r: Result<T, SpreadError>, name: Seq<char>) -> bool {
    r matches Err(SpreadError::UnknownProperty(n)) && n@ == name
}

/// Reading a property of a document or of an area.
pub fn get_property(ws: &Workspace, obj: &Value, name: &str) -> (r: Result<Value, SpreadError>)
    requires
        ws.wf(),
    ensures
        doc_index(ws, obj) is None ==> r matches Err(SpreadError::NotAnObject),
        area_of(ws, obj) matches Some((i, rect)) ==> match area_prop_of(name@) {
            Some(p) => match area_get(ws.docs@[i as int], rect, p) {
                Some(e) => r matches Ok(v) && shows(v, e),
                None => unknown(r, name@),
            },
            None => unknown(r, name@),
        },
        (*obj matches Value::Doc(i) && i < ws.docs@.len()) ==> match doc_prop_of(name@) {
            Some(p) => r == Ok::<Value, SpreadError>(doc_get(ws.docs@[obj->Doc_0 as int], p)),
            None => unknown(r, name@),
        },
{
    let i = match doc_of(ws, obj) {
        Some(i) => i,
        None => {
            return Err(SpreadError::NotAnObject);
        },
    };
    let d = &ws.docs[i];
    assert(d.wf());
    if let Some((_, rect)) = area(ws, obj) {
        let p = match area_prop(name) {
            Some(p) => p,
            None => {
                return Err(SpreadError::UnknownProperty(name.to_owned()));
            },
        };
        return match p {
            AreaProp::Text => {
                let text = match d.cell_value(rect.r1, rect.c1) {
                    Some(v) => v,
                    None => d.cell_text(rect.r1, rect.c1),
                };
                Ok(Value::Str(text))
            },
            AreaProp::Details => Ok(
                Value::Str(
                    match d.cell_detail(rect.r1, rect.c1) {
                        Some(v) => v,
                        None => String::new(),
                    },
                ),
            ),
            AreaProp::DetailParam => Ok(Value::Str(d.cell_detail_param(rect.r1, rect.c1))),
            AreaProp::ContainsValue => Ok(Value::Bool(d.cell_value(rect.r1, rect.c1).is_some())),
            AreaProp::Parameter => Ok(Value::Str(String::new())),
            AreaProp::Name => Ok(Value::Str(find_name_at(&d.names, rect.r1, rect.c1))),
            _ => Err(SpreadError::UnknownProperty(name.to_owned())),
        };
    }
    let p = match doc_prop(name) {
        Some(p) => p,
        None => {
            return Err(SpreadError::UnknownProperty(name.to_owned()));
        },
    };
    match p {
        DocProp::TableHeight => Ok(Value::Number { mantissa: d.height as i64, scale: 0 }),
        DocProp::TableWidth => Ok(Value::Number { mantissa: d.width as i64, scale: 0 }),
        DocProp::ShowGrid => Ok(Value::Bool(d.show_grid)),
        DocProp::FixedTop => Ok(Value::Number { mantissa: d.fix_top, scale: 0 }),
        DocProp::FixedLeft => Ok(Value::Number { mantissa: d.fix_left, scale: 0 }),
        DocProp::LeftMargin => Ok(hundredths_number(d.margins.left)),
        DocProp::RightMargin => Ok(hundredths_number(d.margins.right)),
        DocProp::TopMargin => Ok(hundredths_number(d.margins.top)),
        DocProp::BottomMargin => Ok(hundredths_number(d.margins.bottom)),
        DocProp::Orientation => Ok(
            Value::Enum(
                if d.landscape {
                    Member::PageLandscape
                } else {
                    Member::PagePortrait
                },
            ),
        ),
    }
}

// --- writing: the cells of an area ------------------------------------------------

/// The cell after its text was set: the parameter in the same place goes.
pub open spec fn with_text(v: CellView, t: Seq<char>) -> CellView {
    CellView { text: t, parameter: Seq::empty(), ..v }
}

/// Rows after the text of every cell where `cells` holds was set (rows and
/// cells are created where missing).
pub open spec fn text_fill(
    base: Map<u32, RowView>,
    rows: spec_fn(u32) -> bool,
    cells: spec_fn(u32, u32) -> bool,
    t: Seq<char>,
) -> Map<u32, RowView> {
    Map::new(
        |r: u32| base.contains_key(r) || rows(r),
        |r: u32|
            {
                let row = if base.contains_key(r) {
                    base[r]
                } else {
                    empty_row()
                };
                RowView {
                    height: row.height,
                    cells: Map::new(
                        |c: u32| row.cells.contains_key(c) || cells(r, c),
                        |c: u32|
                            {
                                let v = if row.cells.contains_key(c) {
                                    row.cells[c]
                                } else {
                                    CellView::blank()
                                };
                                if cells(r, c) {
                                    with_text(v, t)
                                } else {
                                    v
                                }
                            },
                    ),
                }
            },
    )
}

proof fn lemma_text_step(
    base: Map<u32, RowView>,
    rows: spec_fn(u32) -> bool,
    cols: spec_fn(u32, u32) -> bool,
    rows2: spec_fn(u32) -> bool,
    cols2: spec_fn(u32, u32) -> bool,
    t: Seq<char>,
    r: u32,
    c: u32,
)
    requires
        forall|a: u32| a != r ==> #[trigger] rows2(a) == rows(a),
        rows2(r),
        forall|a: u32, b: u32| (a != r || b != c) ==> #[trigger] cols2(a, b) == cols(a, b),
        cols2(r, c),
        !cols(r, c),
        forall|a: u32, b: u32| #[trigger] cols(a, b) ==> base.contains_key(a) || rows(a),
    ensures
        ({
            let f = text_fill(base, rows, cols, t);
            let row = if f.contains_key(r) { f[r] } else { empty_row() };
            let cell = if row.cells.contains_key(c) { row.cells[c] } else { CellView::blank() };
            text_fill(base, rows2, cols2, t) == f.insert(
                r,
                RowView { height: row.height, cells: row.cells.insert(c, with_text(cell, t)) },
            )
        }),
{
    let f = text_fill(base, rows, cols, t);
    let row = if f.contains_key(r) { f[r] } else { empty_row() };
    let cell = if row.cells.contains_key(c) { row.cells[c] } else { CellView::blank() };
    let g = text_fill(base, rows2, cols2, t);
    let h = f.insert(r, RowView { height: row.height, cells: row.cells.insert(c, with_text(cell, t)) });
    assert(g.dom() =~= h.dom());
    assert forall|a: u32| #[trigger] g.contains_key(a) implies g[a] == h[a] by {
        assert(g[a].cells =~= h[a].cells);
    }
    assert(g =~= h);
}

/// The box `[r1, r2] x [c1, c2]` and its rows.
pub open spec fn in_box(r1: u32, c1: u32, r2: u32, c2: u32) -> spec_fn(u32, u32) -> bool {
    |a: u32, b: u32| r1 <= a <= r2 && c1 <= b <= c2
}

pub open spec fn box_rows(r1: u32, c1: u32, r2: u32, c2: u32) -> spec_fn(u32) -> bool {
    |a: u32| r1 <= a <= r2 && c1 <= c2
}

impl SpreadDocData {
    /// `Область.Текст = ...`: the text goes into every cell of the box.
    pub fn set_box_text(&mut self, r1: u32, c1: u32, r2: u32, c2: u32, text: &str)
        requires
            old(self).wf(),
            r1 <= r2 < u32::MAX,
            c1 <= c2 < u32::MAX,
        ensures
            final(self).wf(),
            final(self).touched(old(self), r2, c2),
            final(self).rows_view() == text_fill(
                old(self).rows_view(),
                box_rows(r1, c1, r2, c2),
                in_box(r1, c1, r2, c2),
                text@,
            ),
            final(self).same_but_rows(old(self)),
    {
        self.touch(r2, c2);
        let ghost base = old(self).rows_view();
        proof {
            let f = text_fill(base, box_rows_before(r1, c1, r1, c1), box_before(r1, c1, r2, c2, r1, c1), text@);
            assert(f.dom() =~= base.dom());
            assert forall|a: u32| #[trigger] f.contains_key(a) implies f[a] == base[a] by {
                assert(f[a].cells =~= base[a].cells);
            }
            assert(f =~= base);
        }
        let mut r = r1;
        while r <= r2
            invariant
                r1 <= r <= r2 + 1,
                self.wf(),
                self.touched(old(self), r2, c2),
                self.same_but_rows(old(self)),
                self.rows_view() == text_fill(base, box_rows_before(r1, c1, r, c1), box_before(r1, c1, r2, c2, r, c1), text@),
                r2 < u32::MAX,
                c1 <= c2 < u32::MAX,
            decreases r2 + 1 - r,
        {
            let mut c = c1;
            while c <= c2
                invariant
                    r1 <= r <= r2,
                    c1 <= c <= c2 + 1,
                    self.wf(),
                    self.touched(old(self), r2, c2),
                    self.same_but_rows(old(self)),
                    self.rows_view() == text_fill(base, box_rows_before(r1, c1, r, c), box_before(r1, c1, r2, c2, r, c), text@),
                    r2 < u32::MAX,
                    c2 < u32::MAX,
                decreases c2 + 1 - c,
            {
                proof {
                    lemma_text_step(
                        base,
                        box_rows_before(r1, c1, r, c),
                        box_before(r1, c1, r2, c2, r, c),
                        box_rows_before(r1, c1, r, (c + 1) as u32),
                        box_before(r1, c1, r2, c2, r, (c + 1) as u32),
                        text@,
                        r,
                        c,
                    );
                }
                self.set_cell_text(r, c, text);
                c = c + 1;
            }
            proof {
                let lhs = text_fill(base, box_rows_before(r1, c1, r, (c2 + 1) as u32), box_before(r1, c1, r2, c2, r, (c2 + 1) as u32), text@);
                let nxt = text_fill(base, box_rows_before(r1, c1, (r + 1) as u32, c1), box_before(r1, c1, r2, c2, (r + 1) as u32, c1), text@);
                assert(lhs.dom() =~= nxt.dom());
                assert forall|a: u32| #[trigger] lhs.contains_key(a) implies lhs[a] == nxt[a] by {
                    assert(lhs[a].cells =~= nxt[a].cells);
                }
                assert(lhs =~= nxt);
            }
            r = r + 1;
        }
        proof {
            let lhs = text_fill(base, box_rows_before(r1, c1, r, c1), box_before(r1, c1, r2, c2, r, c1), text@);
            let fin = text_fill(base, box_rows(r1, c1, r2, c2), in_box(r1, c1, r2, c2), text@);
            assert(lhs.dom() =~= fin.dom());
            assert forall|a: u32| #[trigger] lhs.contains_key(a) implies lhs[a] == fin[a] by {
                assert(lhs[a].cells =~= fin[a].cells);
            }
            assert(lhs =~= fin);
        }
    }
}

/// Rows after rows `[r1, e)` got height `h`; rows are created where missing.
pub open spec fn heights_fill(base: Map<u32, RowView>, r1: u32, e: int, h: i64) -> Map<u32, RowView> {
    Map::new(
        |r: u32| base.contains_key(r) || (r1 <= r && r < e),
        |r: u32|
            if r1 <= r && r < e {
                RowView {
                    height: Some(h),
                    cells: if base.contains_key(r) {
                        base[r].cells
                    } else {
                        Map::empty()
                    },
                }
            } else {
                base[r]
            },
    )
}

/// Column widths after columns `[c1, e)` got width `w`.
pub open spec fn widths_fill(base: Map<u32, i64>, c1: u32, e: int, w: i64) -> Map<u32, i64> {
    Map::new(
        |c: u32| base.contains_key(c) || (c1 <= c && c < e),
        |c: u32|
            if c1 <= c && c < e {
                w
            } else {
                base[c]
            },
    )
}

impl SpreadDocData {
    /// `Область.ВысотаСтроки = ...` over rows `r1..=r2`.
    pub fn set_rows_height(&mut self, r1: u32, r2: u32, h: i64)
        requires
            old(self).wf(),
            r1 <= r2 < u32::MAX,
        ensures
            final(self).wf(),
            final(self).touched(old(self), r2, 0),
            final(self).rows_view() == heights_fill(old(self).rows_view(), r1, r2 + 1, h),
            final(self).same_but_rows(old(self)),
    {
        self.touch(r2, 0);
        let ghost base = old(self).rows_view();
        proof {
            assert(heights_fill(base, r1, r1 as int, h) =~= base);
        }
        let mut r = r1;
        while r <= r2
            invariant
                r1 <= r <= r2 + 1,
                r2 < u32::MAX,
                self.wf(),
                self.touched(old(self), r2, 0),
                self.same_but_rows(old(self)),
                self.rows_view() == heights_fill(base, r1, r as int, h),
            decreases r2 + 1 - r,
        {
            self.set_row_height(r, h);
            proof {
                assert(self.rows_view() =~= heights_fill(base, r1, r + 1, h));
            }
            r = r + 1;
        }
    }

    /// `Область.ШиринаКолонки = ...` over columns `c1..=c2`.
    pub fn set_cols_width(&mut self, c1: u32, c2: u32, w: i64)
        requires
            old(self).wf(),
        ensures
            final(self).wf(),
            as_map(final(self).col_widths@) == widths_fill(as_map(old(self).col_widths@), c1, c2 + 1, w),
            final(self).rows == old(self).rows,
            final(self).height == old(self).height,
            final(self).width == old(self).width,
            final(self).same_but_rows_and_widths(old(self)),
    {
        let ghost base = as_map(old(self).col_widths@);
        proof {
            assert(widths_fill(base, c1, c1 as int, w) =~= base);
        }
        let mut c: u64 = c1 as u64;
        while c <= c2 as u64
            invariant
                c1 <= c,
                c <= c2 + 1 || c == c1,
                self.wf(),
                self.rows == old(self).rows,
                self.height == old(self).height,
                self.width == old(self).width,
                self.same_but_rows_and_widths(old(self)),
                as_map(self.col_widths@) == widths_fill(base, c1, c as int, w),
            decreases c2 + 1 - c,
        {
            self.set_col_width(c as u32, w);
            proof {
                assert(as_map(self.col_widths@) =~= widths_fill(base, c1, c + 1, w));
            }
            c = c + 1;
        }
        proof {
            assert(widths_fill(base, c1, c as int, w) =~= widths_fill(base, c1, c2 + 1, w));
        }
    }
}

// --- numbers of the page -----------------------------------------------------------

/// What a margin assignment reads out of a value, in hundredths of a
/// millimetre: a number, or a string with a decimal comma or point; the
/// message when it cannot.
pub open spec fn margin_spec(v: Value, what: Seq<char>) -> Result<i64, Seq<char>> {
    match v {
        Value::Number { mantissa, scale } => {
            let h = hundredths_of(mantissa as int, scale as nat);
            if fits_i64(h) {
                Ok(h as i64)
            } else {
                Err(what + ": ожидалось конечное число"@)
            }
        },
        Value::Str(s) => match decimal_value(trim(s@)) {
            Some((m, sc)) => {
                let h = hundredths_of(m as int, sc as nat);
                if fits_i64(h) {
                    Ok(h as i64)
                } else {
                    Err(what + ": ожидалось конечное число"@)
                }
            },
            None => Err(what + ": строка не преобразуется в число"@),
        },
        _ => Err(what + ": ожидалось число"@),
    }
}

pub fn margin_value(v: &Value, what: &str) -> (r: Result<i64, SpreadError>)
    ensures
        agrees(r, margin_spec(*v, what@)),
{
    let (m, sc) = match v {
        Value::Number { mantissa, scale } => (*mantissa, *scale),
        Value::Str(s) => {
            let t = trim_chars(&to_chars(s.as_str()));
            match parse_decimal(&t) {
                Some(x) => x,
                None => {
                    return Err(failure(what, ": строка не преобразуется в число"));
                },
            }
        },
        _ => {
            return Err(failure(what, ": ожидалось число"));
        },
    };
    match hundredths(m, sc) {
        Some(h) => Ok(h),
        None => Err(failure(what, ": ожидалось конечное число")),
    }
}

// --- writing ---------------------------------------------------------------------

/// Why a write failed: a message, or a property the object does not have.
pub enum Fail {
    Message(Seq<char>),
    Unknown,
}

pub open spec fn fails<T>(r: Result<T, SpreadError>, f: Fail, name: Seq<char>) -> bool {
    match f {
        Fail::Message(m) => spread_err(r, m),
        Fail::Unknown => unknown(r, name),
    }
}

/// The page and view settings of a document.
pub open spec fn settings(d: SpreadDocData) -> (bool, i64, i64, bool, PageMargins) {
    (d.show_grid, d.fix_top, d.fix_left, d.landscape, d.margins)
}

/// Everything but the settings is the same.
pub open spec fn same_but_settings(a: SpreadDocData, b: SpreadDocData) -> bool {
    &&& a.rows == b.rows
    &&& a.height == b.height
    &&& a.width == b.width
    &&& a.col_widths == b.col_widths
    &&& a.merges == b.merges
    &&& a.row_merges == b.row_merges
    &&& a.col_merges == b.col_merges
    &&& a.column_sets == b.column_sets
    &&& a.row_sets == b.row_sets
    &&& a.main_columns == b.main_columns
    &&& a.drawings == b.drawings
    &&& a.row_groups == b.row_groups
    &&& a.open_groups == b.open_groups
    &&& a.names == b.names
    &&& a.print_scale == b.print_scale
    &&& a.print_area == b.print_area
    &&& a.params == b.params
}

/// The settings after writing a property of a document, or why the write
/// fails.
pub open spec fn doc_set(d: SpreadDocData, p: Option<DocProp>, v: Value) -> Result<(bool, i64, i64, bool, PageMargins), Fail> {
    let (g, t, l, o, m) = settings(d);
    match p {
        Some(DocProp::ShowGrid) => Ok((v == Value::Bool(true), t, l, o, m)),
        Some(DocProp::FixedTop) => match number_spec(v, "ФиксацияСверху"@) {
            Ok(n) => Ok((g, n, l, o, m)),
            Err(e) => Err(Fail::Message(e)),
        },
        Some(DocProp::FixedLeft) => match number_spec(v, "ФиксацияСлева"@) {
            Ok(n) => Ok((g, t, n, o, m)),
            Err(e) => Err(Fail::Message(e)),
        },
        Some(DocProp::LeftMargin) => match margin_spec(v, "ПолеСлева"@) {
            Ok(h) => Ok((g, t, l, o, PageMargins { left: h, ..m })),
            Err(e) => Err(Fail::Message(e)),
        },
        Some(DocProp::RightMargin) => match margin_spec(v, "ПолеСправа"@) {
            Ok(h) => Ok((g, t, l, o, PageMargins { right: h, ..m })),
            Err(e) => Err(Fail::Message(e)),
        },
        Some(DocProp::TopMargin) => match margin_spec(v, "ПолеСверху"@) {
            Ok(h) => Ok((g, t, l, o, PageMargins { top: h, ..m })),
            Err(e) => Err(Fail::Message(e)),
        },
        Some(DocProp::BottomMargin) => match margin_spec(v, "ПолеСнизу"@) {
            Ok(h) => Ok((g, t, l, o, PageMargins { bottom: h, ..m })),
            Err(e) => Err(Fail::Message(e)),
        },
        Some(DocProp::Orientation) => match v {
            Value::Enum(Member::PageLandscape) => Ok((g, t, l, true, m)),
            Value::Enum(Member::PagePortrait) => Ok((g, t, l, false, m)),
            _ => Err(Fail::Message("ОриентацияСтраницы: ожидался член ОриентацияСтраницы"@)),
        },
        _ => Err(Fail::Unknown),
    }
}

impl SpreadDocData {
    /// Writing a property of the document.
    pub fn set_doc_prop(&mut self, name: &str, val: &Value) -> (r: Result<(), SpreadError>)
        requires
            old(self).wf(),
        ensures
            final(self).wf(),
            same_but_settings(*final(self), *old(self)),
            match doc_set(*old(self), doc_prop_of(name@), *val) {
                Ok(st) => r is Ok && settings(*final(self)) == st,
                Err(f) => fails(r, f, name@) && settings(*final(self)) == settings(*old(self)),
            },
    {
        let p = doc_prop(name);
        match p {
            Some(DocProp::ShowGrid) => {
                self.show_grid = match val {
                    Value::Bool(b) => *b,
                    _ => false,
                };
                Ok(())
            },
            Some(DocProp::FixedTop) => {
                let n = read_number(val, "ФиксацияСверху")?;
                self.fix_top = n;
                Ok(())
            },
            Some(DocProp::FixedLeft) => {
                let n = read_number(val, "ФиксацияСлева")?;
                self.fix_left = n;
                Ok(())
            },
            Some(DocProp::LeftMargin) => {
                let h = margin_value(val, "ПолеСлева")?;
                self.margins.left = h;
                Ok(())
            },
            Some(DocProp::RightMargin) => {
                let h = margin_value(val, "ПолеСправа")?;
                self.margins.right = h;
                Ok(())
            },
            Some(DocProp::TopMargin) => {
                let h = margin_value(val, "ПолеСверху")?;
                self.margins.top = h;
                Ok(())
            },
            Some(DocProp::BottomMargin) => {
                let h = margin_value(val, "ПолеСнизу")?;
                self.margins.bottom = h;
                Ok(())
            },
            Some(DocProp::Orientation) => match val {
                Value::Enum(Member::PageLandscape) => {
                    self.landscape = true;
                    Ok(())
                },
                Value::Enum(Member::PagePortrait) => {
                    self.landscape = false;
                    Ok(())
                },
                _ => Err(spread_error("ОриентацияСтраницы: ожидался член ОриентацияСтраницы")),
            },
            _ => Err(SpreadError::UnknownProperty(name.to_owned())),
        }
    }
}

/// A cell written through the top left corner of an area must be one the
/// document can index.
pub open spec fn corner_ok(rect: Rect) -> bool {
    rect.r1 < u32::MAX && rect.c1 < u32::MAX
}

/// What writing a property of an area does to its document `od`, giving
/// `nd` and the result `r`.
pub open spec fn area_set_post(
    nd: SpreadDocData,
    od: SpreadDocData,
    rect: Rect,
    name: Seq<char>,
    val: Value,
    text: Seq<char>,
    r: Result<(), SpreadError>,
) -> bool {
    let (r1, c1, r2, c2) = (rect.r1, rect.c1, rect.r2, rect.c2);
    let cell = od.cell_or_blank(r1, c1);
    match area_prop_of(name) {
        Some(AreaProp::Text) => if r1 > r2 || c1 > c2 {
            r is Ok && nd == od
        } else if r2 < u32::MAX && c2 < u32::MAX {
            &&& r is Ok
            &&& nd.rows_view() == text_fill(od.rows_view(), box_rows(r1, c1, r2, c2), in_box(r1, c1, r2, c2), text)
            &&& nd.touched(&od, r2, c2)
            &&& nd.same_but_rows(&od)
        } else {
            spread_err(r, "Текст: область вне документа"@) && nd == od
        },
        Some(AreaProp::DetailParam) => if corner_ok(rect) {
            &&& r is Ok
            &&& nd.rows_view() == od.with_cell(r1, c1, CellView { detail_param: text, ..cell })
            &&& nd.touched(&od, r1, c1)
            &&& nd.same_but_rows(&od)
        } else {
            spread_err(r, "ПараметрРасшифровки: область вне документа"@) && nd == od
        },
        Some(AreaProp::ContainsValue) => if !corner_ok(rect) {
            spread_err(r, "СодержитЗначение: область вне документа"@) && nd == od
        } else if val == Value::Bool(true) && cell.value is Some {
            r is Ok && nd == od
        } else {
            &&& r is Ok
            &&& nd.rows_view() == od.with_cell(
                r1,
                c1,
                if val == Value::Bool(true) {
                    CellView { value: Some(Seq::empty()), text: Seq::empty(), parameter: Seq::empty(), ..cell }
                } else {
                    CellView { text: Seq::empty(), parameter: Seq::empty(), ..cell }
                },
            )
            &&& nd.touched(&od, r1, c1)
            &&& nd.same_but_rows(&od)
        },
        Some(AreaProp::Parameter) => if corner_ok(rect) {
            &&& r is Ok
            &&& nd.rows_view() == od.with_cell(r1, c1, CellView { parameter: text, text: Seq::empty(), ..cell })
            &&& nd.touched(&od, r1, c1)
            &&& nd.same_but_rows(&od)
        } else {
            spread_err(r, "Параметр: область вне документа"@) && nd == od
        },
        Some(AreaProp::Name) => {
            &&& r is Ok
            &&& nd.wf()
            &&& nd.names_view() == (if text.len() == 0 {
                without_corner(od.names_view(), r1, c1)
            } else if od.names_view().contains_key(text) {
                od.names_view()
            } else {
                od.names_view().insert(text, NamedArea { kind: AreaKind::Rect, r1, c1, r2, c2 })
            })
            &&& nd.rows == od.rows
            &&& nd.height == od.height
            &&& nd.width == od.width
            &&& nd.col_widths == od.col_widths
            &&& nd.merges == od.merges
        },
        Some(AreaProp::ColumnWidth) => match number_spec(val, "ШиринаКолонки"@) {
            Err(m) => spread_err(r, m) && nd == od,
            Ok(w) => {
                &&& r is Ok
                &&& as_map(nd.col_widths@) == widths_fill(as_map(od.col_widths@), c1, c2 + 1, w)
                &&& nd.rows == od.rows
                &&& nd.height == od.height
                &&& nd.width == od.width
                &&& nd.same_but_rows_and_widths(&od)
            },
        },
        Some(AreaProp::RowHeight) => match number_spec(val, "ВысотаСтроки"@) {
            Err(m) => spread_err(r, m) && nd == od,
            Ok(h) => if r1 > r2 {
                r is Ok && nd == od
            } else if r2 < u32::MAX {
                &&& r is Ok
                &&& nd.rows_view() == heights_fill(od.rows_view(), r1, r2 + 1, h)
                &&& nd.touched(&od, r2, 0)
                &&& nd.same_but_rows(&od)
            } else {
                spread_err(r, "ВысотаСтроки: область вне документа"@) && nd == od
            },
        },
        _ => unknown(r, name) && nd == od,
    }
}

impl SpreadDocData {
    /// Writing a property of an area of this document; `text` is the
    /// presentation of the value, for the properties that take one.
    pub fn set_area_prop(&mut self, rect: Rect, name: &str, val: &Value, text: &str) -> (r: Result<(), SpreadError>)
        requires
            old(self).wf(),
        ensures
            final(self).wf(),
            area_set_post(*final(self), *old(self), rect, name@, *val, text@, r),
    {
        let (r1, c1, r2, c2) = (rect.r1, rect.c1, rect.r2, rect.c2);
        let p = match area_prop(name) {
            Some(p) => p,
            None => {
                return Err(SpreadError::UnknownProperty(name.to_owned()));
            },
        };
        match p {
            AreaProp::Text => {
                if r1 > r2 || c1 > c2 {
                    return Ok(());
                }
                if !(r2 < u32::MAX && c2 < u32::MAX) {
                    return Err(spread_error("Текст: область вне документа"));
                }
                self.set_box_text(r1, c1, r2, c2, text);
                Ok(())
            },
            AreaProp::DetailParam => {
                if !(r1 < u32::MAX && c1 < u32::MAX) {
                    return Err(spread_error("ПараметрРасшифровки: область вне документа"));
                }
                self.set_cell_detail_param(r1, c1, text);
                Ok(())
            },
            AreaProp::ContainsValue => {
                if !(r1 < u32::MAX && c1 < u32::MAX) {
                    return Err(spread_error("СодержитЗначение: область вне документа"));
                }
                let on = match val {
                    Value::Bool(b) => *b,
                    _ => false,
                };
                if on {
                    if self.cell_value(r1, c1).is_none() {
                        self.set_cell_value(r1, c1, "");
                        proof {
                            reveal_strlit("");
                            assert(""@ =~= Seq::<char>::empty());
                        }
                    }
                } else {
                    self.set_cell_text(r1, c1, "");
                    proof {
                        reveal_strlit("");
                        assert(""@ =~= Seq::<char>::empty());
                    }
                }
                Ok(())
            },
            AreaProp::Parameter => {
                if !(r1 < u32::MAX && c1 < u32::MAX) {
                    return Err(spread_error("Параметр: область вне документа"));
                }
                self.set_cell_parameter(r1, c1, text);
                Ok(())
            },
            AreaProp::Name => {
                if text.is_empty() {
                    self.clear_names_at(r1, c1);
                } else {
                    self.set_area_name(text, NamedArea::rect(r1, c1, r2, c2));
                }
                Ok(())
            },
            AreaProp::ColumnWidth => {
                let w = read_number(val, "ШиринаКолонки")?;
                self.set_cols_width(c1, c2, w);
                Ok(())
            },
            AreaProp::RowHeight => {
                let h = read_number(val, "ВысотаСтроки")?;
                if r1 > r2 {
                    return Ok(());
                }
                if !(r2 < u32::MAX) {
                    return Err(spread_error("ВысотаСтроки: область вне документа"));
                }
                self.set_rows_height(r1, r2, h);
                Ok(())
            },
            AreaProp::Details => Err(SpreadError::UnknownProperty(name.to_owned())),
        }
    }
}

/// Writing a property of a document or of an area; `text` is the
/// presentation of the value, which the host formats.
pub fn set_property(ws: &mut Workspace, obj: &Value, name: &str, val: &Value, text: &str) -> (r: Result<(), SpreadError>)
    requires
        old(ws).wf(),
    ensures
        final(ws).wf(),
        doc_index(old(ws), obj) is None ==> (r matches Err(SpreadError::NotAnObject)) && final(ws).docs@ == old(ws).docs@,
        doc_index(old(ws), obj) matches Some(i) ==> final(ws).docs@ == old(ws).docs@.update(i as int, final(ws).docs@[i as int]),
        area_of(old(ws), obj) matches Some((i, rect)) ==> area_set_post(
            final(ws).docs@[i as int],
            old(ws).docs@[i as int],
            rect,
            name@,
            *val,
            text@,
            r,
        ),
        (*obj matches Value::Doc(i) && i < old(ws).docs@.len()) ==> {
            let i = obj->Doc_0;
            let od = old(ws).docs@[i as int];
            let nd = final(ws).docs@[i as int];
            &&& same_but_settings(nd, od)
            &&& match doc_set(od, doc_prop_of(name@), *val) {
                Ok(st) => r is Ok && settings(nd) == st,
                Err(f) => fails(r, f, name@) && settings(nd) == settings(od),
            }
        },
{
    let i = match doc_of(ws, obj) {
        Some(i) => i,
        None => {
            return Err(SpreadError::NotAnObject);
        },
    };
    let target = area(ws, obj);
    let ghost s = ws.docs@;
    let mut d = take_doc(ws, i);
    assert(d.wf());
    let r = match target {
        Some((_, rect)) => d.set_area_prop(rect, name, val, text),
        None => d.set_doc_prop(name, val),
    };
    put_doc(ws, i, d);
    proof {
        lemma_replace(s, i as int, d);
        lemma_replace_wf(s, i as int, d);
    }
    r
}

} // verus!
