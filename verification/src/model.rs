//! The state of a `ТабличныйДокумент`: cells, sizes, merges and named areas.
//!
//! Coordinates are 0-based here; the BSL API is 1-based and converts at the
//! boundary (`Rect::from_api`). `height`/`width` are the numbers of the last
//! occupied row and column, not the number of filled ones: they never shrink
//! when a cell is cleared.

use vstd::prelude::*;
use crate::keyed;
use crate::keyed::{as_map, sorted};

verus! {

/// `ГоризонтальноеПоложение`.
#[derive(Debug, Clone, Copy, PartialEq, Eq, Structural)]
pub enum HAlign {
    Auto,
    Left,
    Center,
    Right,
}

/// `ВертикальноеПоложение` (it has no `Авто`).
#[derive(Debug, Clone, Copy, PartialEq, Eq, Structural)]
pub enum VAlign {
    Top,
    Center,
    Bottom,
}

/// The kind of a cell border line.
#[derive(Debug, Clone, Copy, PartialEq, Eq, Structural)]
pub enum LineStyle {
    Solid,
    Dotted,
    Double,
}

/// A border line: style and thickness (1 thin, 2 thick).
#[derive(Debug, Clone, Copy, PartialEq, Eq, Structural)]
pub struct Line {
    pub style: LineStyle,
    pub width: i64,
}

impl Line {
    pub fn new(style: LineStyle) -> (r: Self)
        ensures
            r == (Line { style, width: 1 }),
    {
        Line { style, width: 1 }
    }

    pub fn thick(self) -> (r: Self)
        ensures
            r == (Line { style: self.style, width: 2 }),
    {
        Line { style: self.style, width: 2 }
    }
}

/// A cell color.
#[derive(Debug, Clone, Copy, PartialEq, Eq, Structural)]
pub struct Color {
    pub r: u8,
    pub g: u8,
    pub b: u8,
}

impl Color {
    pub fn new(r: u8, g: u8, b: u8) -> (c: Self)
        ensures
            c == (Color { r, g, b }),
    {
        Color { r, g, b }
    }
}

/// What a font is, with its face as characters.
pub struct FontView {
    pub face: Seq<char>,
    pub size: i64,
    pub bold: bool,
    pub italic: bool,
    pub underline: bool,
    pub strikeout: bool,
}

/// A cell font: face, size in points and four style flags.
#[derive(Debug)]
pub struct Font {
    pub face: String,
    pub size: i64,
    pub bold: bool,
    pub italic: bool,
    pub underline: bool,
    pub strikeout: bool,
}

impl View for Font {
    type V = FontView;

    open spec fn view(&self) -> FontView {
        FontView {
            face: self.face@,
            size: self.size,
            bold: self.bold,
            italic: self.italic,
            underline: self.underline,
            strikeout: self.strikeout,
        }
    }
}

impl Clone for Font {
    fn clone(&self) -> (r: Self)
        ensures
            r@ == self@,
    {
        Font {
            face: self.face.clone(),
            size: self.size,
            bold: self.bold,
            italic: self.italic,
            underline: self.underline,
            strikeout: self.strikeout,
        }
    }
}

impl Font {
    pub fn new(face: &str, size: i64) -> (f: Self)
        ensures
            f@ == (FontView {
                face: face@,
                size,
                bold: false,
                italic: false,
                underline: false,
                strikeout: false,
            }),
    {
        Font {
            face: face.to_owned(),
            size,
            bold: false,
            italic: false,
            underline: false,
            strikeout: false,
        }
    }

    pub fn bold(self) -> (f: Self)
        ensures
            f@ == (FontView { bold: true, ..self@ }),
    {
        Font { bold: true, ..self }
    }

    pub fn italic(self) -> (f: Self)
        ensures
            f@ == (FontView { italic: true, ..self@ }),
    {
        Font { italic: true, ..self }
    }

    pub fn underline(self) -> (f: Self)
        ensures
            f@ == (FontView { underline: true, ..self@ }),
    {
        Font { underline: true, ..self }
    }

    pub fn strikeout(self) -> (f: Self)
        ensures
            f@ == (FontView { strikeout: true, ..self@ }),
    {
        Font { strikeout: true, ..self }
    }

    /// Equal faces, sizes and flags.
    pub fn same(&self, other: &Font) -> (r: bool)
        ensures
            r == (self@ == other@),
    {
        self.face == other.face && self.size == other.size && self.bold == other.bold
            && self.italic == other.italic && self.underline == other.underline
            && self.strikeout == other.strikeout
    }
}

pub open spec fn opt_str_view(o: Option<String>) -> Option<Seq<char>> {
    match o {
        Some(s) => Some(s@),
        None => None,
    }
}

pub open spec fn opt_font_view(o: Option<Font>) -> Option<FontView> {
    match o {
        Some(f) => Some(f@),
        None => None,
    }
}

pub fn clone_opt_str(o: &Option<String>) -> (r: Option<String>)
    ensures
        opt_str_view(r) == opt_str_view(*o),
{
    match o {
        Some(s) => Some(s.clone()),
        None => None,
    }
}

pub fn clone_opt_font(o: &Option<Font>) -> (r: Option<Font>)
    ensures
        opt_font_view(r) == opt_font_view(*o),
{
    match o {
        Some(f) => Some(f.clone()),
        None => None,
    }
}

/// What a cell holds.
pub struct CellView {
    pub text: Seq<char>,
    pub parameter: Seq<char>,
    pub h_align: Option<HAlign>,
    pub v_align: Option<VAlign>,
    pub wrap: bool,
    pub text_color: Option<Color>,
    pub back_color: Option<Color>,
    pub font: Option<FontView>,
    pub border_left: Option<Line>,
    pub border_top: Option<Line>,
    pub border_right: Option<Line>,
    pub border_bottom: Option<Line>,
    pub detail: Option<Seq<char>>,
    pub detail_param: Seq<char>,
    pub numeric: bool,
    pub format_spec: Option<Seq<char>>,
    pub value: Option<Seq<char>>,
}

impl CellView {
    /// A cell that was created and given nothing.
    pub open spec fn blank() -> CellView {
        CellView {
            text: Seq::empty(),
            parameter: Seq::empty(),
            h_align: None,
            v_align: None,
            wrap: false,
            text_color: None,
            back_color: None,
            font: None,
            border_left: None,
            border_top: None,
            border_right: None,
            border_bottom: None,
            detail: None,
            detail_param: Seq::empty(),
            numeric: false,
            format_spec: None,
            value: None,
        }
    }

    /// Text, or a template parameter in the same place of the file.
    pub open spec fn has_text(self) -> bool {
        self.text.len() > 0 || self.parameter.len() > 0
    }
}

/// A cell. Text and template parameter share one place of the file, told
/// apart by the language code: a parameter replaces the text and back.
#[derive(Debug)]
pub struct CellData {
    pub text: String,
    pub parameter: String,
    pub h_align: Option<HAlign>,
    pub v_align: Option<VAlign>,
    pub wrap: bool,
    pub text_color: Option<Color>,
    pub back_color: Option<Color>,
    pub font: Option<Font>,
    pub border_left: Option<Line>,
    pub border_top: Option<Line>,
    pub border_right: Option<Line>,
    pub border_bottom: Option<Line>,
    /// `Расшифровка`, as its presentation.
    pub detail: Option<String>,
    /// `ПараметрРасшифровки`.
    pub detail_param: String,
    /// The cell has a numeric format.
    pub numeric: bool,
    /// The BSL format string of a template cell (such as `ЧДЦ=2`).
    pub format_spec: Option<String>,
    /// `СодержитЗначение`: the presentation of the value.
    pub value: Option<String>,
}

impl View for CellData {
    type V = CellView;

    open spec fn view(&self) -> CellView {
        CellView {
            text: self.text@,
            parameter: self.parameter@,
            h_align: self.h_align,
            v_align: self.v_align,
            wrap: self.wrap,
            text_color: self.text_color,
            back_color: self.back_color,
            font: opt_font_view(self.font),
            border_left: self.border_left,
            border_top: self.border_top,
            border_right: self.border_right,
            border_bottom: self.border_bottom,
            detail: opt_str_view(self.detail),
            detail_param: self.detail_param@,
            numeric: self.numeric,
            format_spec: opt_str_view(self.format_spec),
            value: opt_str_view(self.value),
        }
    }
}

impl Clone for CellData {
    fn clone(&self) -> (r: Self)
        ensures
            r@ == self@,
    {
        CellData {
            text: self.text.clone(),
            parameter: self.parameter.clone(),
            h_align: self.h_align,
            v_align: self.v_align,
            wrap: self.wrap,
            text_color: self.text_color,
            back_color: self.back_color,
            font: clone_opt_font(&self.font),
            border_left: self.border_left,
            border_top: self.border_top,
            border_right: self.border_right,
            border_bottom: self.border_bottom,
            detail: clone_opt_str(&self.detail),
            detail_param: self.detail_param.clone(),
            numeric: self.numeric,
            format_spec: clone_opt_str(&self.format_spec),
            value: clone_opt_str(&self.value),
        }
    }
}

impl CellData {
    pub fn blank() -> (c: Self)
        ensures
            c@ == CellView::blank(),
    {
        CellData {
            text: String::new(),
            parameter: String::new(),
            h_align: None,
            v_align: None,
            wrap: false,
            text_color: None,
            back_color: None,
            font: None,
            border_left: None,
            border_top: None,
            border_right: None,
            border_bottom: None,
            detail: None,
            detail_param: String::new(),
            numeric: false,
            format_spec: None,
            value: None,
        }
    }

    pub fn has_value(&self) -> (r: bool)
        ensures
            r == self@.value.is_some(),
    {
        self.value.is_some()
    }

    pub fn has_text(&self) -> (r: bool)
        ensures
            r == self@.has_text(),
    {
        !self.text.as_str().is_empty() || !self.parameter.as_str().is_empty()
    }
}

/// The cells of a list, read as a map of views.
pub open spec fn cells_view(cells: Seq<(u32, CellData)>) -> Map<u32, CellView> {
    as_map(cells).map_values(|c: CellData| c@)
}

/// What a row holds.
pub struct RowView {
    pub height: Option<i64>,
    pub cells: Map<u32, CellView>,
}

/// A row: its height in API units and its cells by column.
#[derive(Debug)]
pub struct RowData {
    pub height: Option<i64>,
    pub cells: Vec<(u32, CellData)>,
}

impl View for RowData {
    type V = RowView;

    open spec fn view(&self) -> RowView {
        RowView { height: self.height, cells: cells_view(self.cells@) }
    }
}

impl RowData {
    pub open spec fn wf(&self) -> bool {
        sorted(self.cells@)
    }
}

/// A merge: absolute inclusive bounds, 0-based. `unmerge` marks the record
/// that cancels a column merge in these cells.
#[derive(Debug, Clone, Copy, PartialEq, Eq, Structural)]
pub struct Merge {
    pub r1: u32,
    pub c1: u32,
    pub r2: u32,
    pub c2: u32,
    pub unmerge: bool,
}

impl Merge {
    pub fn new(r1: u32, c1: u32, r2: u32, c2: u32) -> (m: Self)
        ensures
            m == (Merge { r1, c1, r2, c2, unmerge: false }),
    {
        Merge { r1, c1, r2, c2, unmerge: false }
    }
}

/// How an area was given: a rectangle, whole rows or whole columns.
#[derive(Debug, Clone, Copy, PartialEq, Eq, Structural)]
pub enum AreaKind {
    Rect,
    Rows,
    Columns,
}

/// A cell area, 0-based and inclusive, with the kind it was given as.
#[derive(Debug, Clone, Copy, PartialEq, Eq, Structural)]
pub struct Rect {
    pub r1: u32,
    pub c1: u32,
    pub r2: u32,
    pub c2: u32,
    pub kind: AreaKind,
}

/// The 0-based index of a 1-based API coordinate; values below 1 count as 1.
pub open spec fn api_index(v: i64) -> u32 {
    if v < 1 {
        0
    } else if v - 1 > u32::MAX {
        u32::MAX
    } else {
        (v - 1) as u32
    }
}

pub open spec fn min_u32(a: u32, b: u32) -> u32 {
    if a <= b {
        a
    } else {
        b
    }
}

pub open spec fn max_u32(a: u32, b: u32) -> u32 {
    if a >= b {
        a
    } else {
        b
    }
}

fn to_index(v: i64) -> (r: u32)
    ensures
        r == api_index(v),
{
    if v < 1 {
        0
    } else if v - 1 > u32::MAX as i64 {
        u32::MAX
    } else {
        (v - 1) as u32
    }
}

impl Rect {
    /// From 1-based API coordinates. Reversed bounds are accepted and
    /// normalized, as the platform does.
    pub fn from_api(r1: i64, c1: i64, r2: i64, c2: i64) -> (r: Rect)
        requires
            r1 <= u32::MAX + 1,
            c1 <= u32::MAX + 1,
            r2 <= u32::MAX + 1,
            c2 <= u32::MAX + 1,
        ensures
            r.r1 == min_u32(api_index(r1), api_index(r2)),
            r.r2 == max_u32(api_index(r1), api_index(r2)),
            r.c1 == min_u32(api_index(c1), api_index(c2)),
            r.c2 == max_u32(api_index(c1), api_index(c2)),
            r.kind == AreaKind::Rect,
    {
        let a = to_index(r1);
        let b = to_index(r2);
        let c = to_index(c1);
        let d = to_index(c2);
        Rect {
            r1: if a <= b { a } else { b },
            c1: if c <= d { c } else { d },
            r2: if a >= b { a } else { b },
            c2: if c >= d { c } else { d },
            kind: AreaKind::Rect,
        }
    }
}

/// A named area. Rows and columns keep only their meaningful axis.
#[derive(Debug, Clone, Copy, PartialEq, Eq, Structural)]
pub struct NamedArea {
    pub kind: AreaKind,
    pub r1: u32,
    pub c1: u32,
    pub r2: u32,
    pub c2: u32,
}

impl NamedArea {
    pub fn rect(r1: u32, c1: u32, r2: u32, c2: u32) -> (a: Self)
        ensures
            a == (NamedArea { kind: AreaKind::Rect, r1, c1, r2, c2 }),
    {
        NamedArea { kind: AreaKind::Rect, r1, c1, r2, c2 }
    }

    pub fn rows(r1: u32, r2: u32) -> (a: Self)
        ensures
            a == (NamedArea { kind: AreaKind::Rows, r1, c1: 0, r2, c2: 0 }),
    {
        NamedArea { kind: AreaKind::Rows, r1, c1: 0, r2, c2: 0 }
    }

    pub fn columns(c1: u32, c2: u32) -> (a: Self)
        ensures
            a == (NamedArea { kind: AreaKind::Columns, r1: 0, c1, r2: 0, c2 }),
    {
        NamedArea { kind: AreaKind::Columns, r1: 0, c1, r2: 0, c2 }
    }
}


/// A group of rows, `НачатьГруппуСтрок`..`ЗакончитьГруппуСтрок`: inclusive
/// bounds, nesting level (0 outermost), name and whether it is collapsed.
#[derive(Debug)]
pub struct RowGroup {
    pub r1: u32,
    pub r2: u32,
    pub level: u32,
    pub name: String,
    pub collapsed: bool,
}

impl Clone for RowGroup {
    fn clone(&self) -> (r: Self)
        ensures
            r.r1 == self.r1,
            r.r2 == self.r2,
            r.level == self.level,
            r.name@ == self.name@,
            r.collapsed == self.collapsed,
    {
        RowGroup {
            r1: self.r1,
            r2: self.r2,
            level: self.level,
            name: self.name.clone(),
            collapsed: self.collapsed,
        }
    }
}

/// An additional column set with its own grid: id, number of columns and
/// widths in internal units (eighths of a character), by column.
#[derive(Debug)]
pub struct ColumnSet {
    pub id: String,
    pub count: u32,
    pub widths: Vec<(u32, i64)>,
}

/// A rectangle drawing. Its geometry is kept in quarter points (1/288
/// inch), the grid the platform snaps drawings to; the API speaks
/// millimetres and converts at the boundary.
#[derive(Debug)]
pub struct Drawing {
    pub left: i64,
    pub top: i64,
    pub width: i64,
    pub height: i64,
    pub name: String,
}

/// Page margins in hundredths of a millimetre, as the file stores them.
#[derive(Debug, Clone, Copy, PartialEq, Eq, Structural)]
pub struct PageMargins {
    pub left: i64,
    pub right: i64,
    pub top: i64,
    pub bottom: i64,
}

impl PageMargins {
    /// 10 mm on every side (measured on an empty document).
    pub fn standard() -> (m: Self)
        ensures
            m == (PageMargins { left: 1000, right: 1000, top: 1000, bottom: 1000 }),
    {
        PageMargins { left: 1000, right: 1000, top: 1000, bottom: 1000 }
    }
}

/// Members of system enumerations the document reads or gives out.
#[derive(Debug, Clone, Copy, PartialEq, Eq, Structural)]
pub enum Member {
    /// `ОриентацияСтраницы.Портрет`.
    PagePortrait,
    /// `ОриентацияСтраницы.Ландшафт`.
    PageLandscape,
    /// `ТипФайлаТабличногоДокумента.MXL`.
    FileMxl,
    /// `ТипФайлаТабличногоДокумента.TXT`.
    FileTxt,
    /// `ТипФайлаТабличногоДокумента.XLSX`.
    FileXlsx,
    /// `ТипФайлаТабличногоДокумента.PDF`.
    FilePdf,
    /// Any other member.
    Other,
}

/// A BSL value as the library sees it. Documents and the objects that
/// look into them are handles into a `Workspace`; values the library does
/// not look into are kept by the host and named by the number it finds
/// them with.
#[derive(Debug)]
pub enum Value {
    Undefined,
    Bool(bool),
    /// `mantissa / 10^scale`.
    Number { mantissa: i64, scale: u32 },
    Str(String),
    Enum(Member),
    /// `ТабличныйДокумент`: the document with this number.
    Doc(usize),
    /// `ОбластьЯчеекТабличногоДокумента`: a rectangle of a document.
    Area(usize, Rect),
    /// `КоллекцияРисунковТабличногоДокумента` of a document.
    Drawings(usize),
    /// `РисунокТабличногоДокумента`: a document and the index of a drawing.
    Drawing(usize, usize),
    /// `ПараметрыМакетаТабличногоДокумента` of a document.
    Params(usize),
    Host(u64),
}

impl Clone for Value {
    fn clone(&self) -> (r: Self)
        ensures
            r == *self,
    {
        match self {
            Value::Undefined => Value::Undefined,
            Value::Bool(b) => Value::Bool(*b),
            Value::Number { mantissa, scale } => Value::Number { mantissa: *mantissa, scale: *scale },
            Value::Str(s) => Value::Str(s.clone()),
            Value::Enum(m) => Value::Enum(*m),
            Value::Doc(i) => Value::Doc(*i),
            Value::Area(i, r) => Value::Area(*i, *r),
            Value::Drawings(i) => Value::Drawings(*i),
            Value::Drawing(i, k) => Value::Drawing(*i, *k),
            Value::Params(i) => Value::Params(*i),
            Value::Host(h) => Value::Host(*h),
        }
    }
}

/// The state of `ТабличныйДокумент`.
#[derive(Debug)]
pub struct SpreadDocData {
    /// Rows by index, in increasing order.
    pub rows: Vec<(u32, RowData)>,
    /// Column widths in API units; only those set explicitly.
    pub col_widths: Vec<(u32, i64)>,
    pub merges: Vec<Merge>,
    /// Merges of whole rows, `(first, last)`.
    pub row_merges: Vec<(u32, u32)>,
    /// Merges of whole columns, `(first, last)`.
    pub col_merges: Vec<(u32, u32)>,
    pub column_sets: Vec<ColumnSet>,
    /// Bindings of rows to column sets, `(row, set number)`.
    pub row_sets: Vec<(u32, u32)>,
    /// The number of columns declared in the main set.
    pub main_columns: u32,
    /// Drawings in the order they were added; the file numbers them from 1.
    pub drawings: Vec<Drawing>,
    pub row_groups: Vec<RowGroup>,
    /// Open groups: name, collapsed, first row.
    pub open_groups: Vec<(String, bool, u32)>,
    /// Named areas in increasing order of name.
    pub names: Vec<(String, NamedArea)>,
    /// The last occupied row and column, 1-based.
    pub height: u32,
    pub width: u32,
    /// `ОтображатьСетку`.
    pub show_grid: bool,
    pub fix_top: i64,
    pub fix_left: i64,
    /// `МасштабПечати` in percent.
    pub print_scale: Option<i64>,
    /// `ОриентацияСтраницы.Ландшафт`.
    pub landscape: bool,
    pub margins: PageMargins,
    /// `ОбластьПечати`: `(r1, c1, r2, c2)`, 0-based.
    pub print_area: Option<(u32, u32, u32, u32)>,
    /// Template parameter values by upper-cased name.
    pub params: Vec<(String, Value)>,
}

/// What a row would be if it was not there yet.
pub open spec fn empty_row() -> RowView {
    RowView { height: None, cells: Map::empty() }
}

pub open spec fn max_int(a: int, b: int) -> int {
    if a >= b {
        a
    } else {
        b
    }
}

impl SpreadDocData {
    /// The rows, read as a map of views.
    pub open spec fn rows_view(&self) -> Map<u32, RowView> {
        as_map(self.rows@).map_values(|r: RowData| r@)
    }

    pub open spec fn row_or_empty(&self, r: u32) -> RowView {
        if self.rows_view().contains_key(r) {
            self.rows_view()[r]
        } else {
            empty_row()
        }
    }

    /// The cell at `(r, c)`, if it was created.
    pub open spec fn cell_at(&self, r: u32, c: u32) -> Option<CellView> {
        if self.row_or_empty(r).cells.contains_key(c) {
            Some(self.row_or_empty(r).cells[c])
        } else {
            None
        }
    }

    pub open spec fn cell_or_blank(&self, r: u32, c: u32) -> CellView {
        match self.cell_at(r, c) {
            Some(v) => v,
            None => CellView::blank(),
        }
    }

    /// The rows after the cell at `(r, c)` becomes `v`; the row is created
    /// when it is missing.
    pub open spec fn with_cell(&self, r: u32, c: u32, v: CellView) -> Map<u32, RowView> {
        self.rows_view().insert(
            r,
            RowView { height: self.row_or_empty(r).height, cells: self.row_or_empty(r).cells.insert(c, v) },
        )
    }

    /// Storage is ordered, every row and cell lies within the occupied size.
    pub open spec fn wf(&self) -> bool {
        &&& sorted(self.rows@)
        &&& forall|i: int| 0 <= i < self.rows@.len() ==> (#[trigger] self.rows@[i]).1.wf()
        &&& forall|r: u32| #[trigger] self.rows_view().contains_key(r) ==> r < self.height
        &&& forall|r: u32, c: u32|
            #[trigger] self.rows_view().contains_key(r) && #[trigger] self.rows_view()[r].cells.contains_key(c)
                ==> c < self.width
        &&& sorted(self.col_widths@)
        &&& crate::names::names_sorted(self.names@)
    }

    /// Everything but the rows and the occupied size is the same.
    pub open spec fn same_but_rows(&self, other: &SpreadDocData) -> bool {
        &&& self.col_widths == other.col_widths
        &&& self.same_but_rows_and_widths(other)
    }

    pub open spec fn same_but_rows_and_widths(&self, other: &SpreadDocData) -> bool {
        &&& self.merges == other.merges
        &&& self.row_merges == other.row_merges
        &&& self.col_merges == other.col_merges
        &&& self.same_but_cells_and_merges(other)
    }

    /// Everything but the row groups, closed and open, is the same.
    pub open spec fn same_but_groups(&self, other: &SpreadDocData) -> bool {
        &&& self.rows == other.rows
        &&& self.col_widths == other.col_widths
        &&& self.merges == other.merges
        &&& self.row_merges == other.row_merges
        &&& self.col_merges == other.col_merges
        &&& self.column_sets == other.column_sets
        &&& self.row_sets == other.row_sets
        &&& self.main_columns == other.main_columns
        &&& self.drawings == other.drawings
        &&& self.names == other.names
        &&& self.height == other.height
        &&& self.width == other.width
        &&& self.show_grid == other.show_grid
        &&& self.fix_top == other.fix_top
        &&& self.fix_left == other.fix_left
        &&& self.print_scale == other.print_scale
        &&& self.landscape == other.landscape
        &&& self.margins == other.margins
        &&& self.print_area == other.print_area
        &&& self.params == other.params
    }

    /// A new document that kept the grid setting of `other`.
    pub open spec fn cleared_from(&self, other: &SpreadDocData) -> bool {
        &&& self.rows_view() == Map::<u32, RowView>::empty()
        &&& self.height == 0
        &&& self.width == 0
        &&& self.show_grid == other.show_grid
        &&& self.col_widths@.len() == 0
        &&& self.merges@.len() == 0
        &&& self.row_merges@.len() == 0
        &&& self.col_merges@.len() == 0
        &&& self.names@.len() == 0
        &&& self.drawings@.len() == 0
        &&& self.row_groups@.len() == 0
        &&& self.open_groups@.len() == 0
        &&& self.column_sets@.len() == 0
        &&& self.row_sets@.len() == 0
        &&& self.params@.len() == 0
        &&& self.margins == (PageMargins { left: 1000, right: 1000, top: 1000, bottom: 1000 })
        &&& !self.landscape
        &&& self.print_scale.is_none()
        &&& self.print_area.is_none()
        &&& self.fix_top == 0
        &&& self.fix_left == 0
        &&& self.main_columns == 0
    }

    pub open spec fn same_but_cells_and_merges(&self, other: &SpreadDocData) -> bool {
        &&& self.column_sets == other.column_sets
        &&& self.row_sets == other.row_sets
        &&& self.main_columns == other.main_columns
        &&& self.drawings == other.drawings
        &&& self.row_groups == other.row_groups
        &&& self.open_groups == other.open_groups
        &&& self.names == other.names
        &&& self.show_grid == other.show_grid
        &&& self.fix_top == other.fix_top
        &&& self.fix_left == other.fix_left
        &&& self.print_scale == other.print_scale
        &&& self.landscape == other.landscape
        &&& self.margins == other.margins
        &&& self.print_area == other.print_area
        &&& self.params == other.params
    }

    /// The occupied size grew to take in `(r, c)`.
    pub open spec fn touched(&self, old: &SpreadDocData, r: u32, c: u32) -> bool {
        &&& self.height == max_int(old.height as int, r + 1)
        &&& self.width == max_int(old.width as int, c + 1)
    }

    /// An empty document: grid shown, standard margins.
    pub open spec fn is_fresh(&self) -> bool {
        &&& self.wf()
        &&& self.rows@.len() == 0
        &&& self.col_widths@.len() == 0
        &&& self.merges@.len() == 0
        &&& self.row_merges@.len() == 0
        &&& self.col_merges@.len() == 0
        &&& self.column_sets@.len() == 0
        &&& self.row_sets@.len() == 0
        &&& self.main_columns == 0
        &&& self.drawings@.len() == 0
        &&& self.row_groups@.len() == 0
        &&& self.open_groups@.len() == 0
        &&& self.names@.len() == 0
        &&& self.height == 0
        &&& self.width == 0
        &&& self.show_grid
        &&& self.fix_top == 0
        &&& self.fix_left == 0
        &&& self.print_scale.is_none()
        &&& !self.landscape
        &&& self.margins == (PageMargins { left: 1000, right: 1000, top: 1000, bottom: 1000 })
        &&& self.print_area.is_none()
        &&& self.params@.len() == 0
    }

    pub fn new() -> (d: Self)
        ensures
            d.is_fresh(),
            d.wf(),
            d.rows_view() == Map::<u32, RowView>::empty(),
            d.rows@.len() == 0,
            d.col_widths@.len() == 0,
            d.merges@.len() == 0,
            d.row_merges@.len() == 0,
            d.col_merges@.len() == 0,
            d.column_sets@.len() == 0,
            d.row_sets@.len() == 0,
            d.main_columns == 0,
            d.drawings@.len() == 0,
            d.row_groups@.len() == 0,
            d.open_groups@.len() == 0,
            d.names@.len() == 0,
            d.height == 0,
            d.width == 0,
            d.show_grid,
            d.fix_top == 0,
            d.fix_left == 0,
            d.print_scale.is_none(),
            !d.landscape,
            d.margins == (PageMargins { left: 1000, right: 1000, top: 1000, bottom: 1000 }),
            d.print_area.is_none(),
            d.params@.len() == 0,
    {
        let d = SpreadDocData {
            rows: Vec::new(),
            col_widths: Vec::new(),
            merges: Vec::new(),
            row_merges: Vec::new(),
            col_merges: Vec::new(),
            column_sets: Vec::new(),
            row_sets: Vec::new(),
            main_columns: 0,
            drawings: Vec::new(),
            row_groups: Vec::new(),
            open_groups: Vec::new(),
            names: Vec::new(),
            height: 0,
            width: 0,
            show_grid: true,
            fix_top: 0,
            fix_left: 0,
            print_scale: None,
            landscape: false,
            margins: PageMargins::standard(),
            print_area: None,
            params: Vec::new(),
        };
        proof {
            keyed::lemma_empty(d.rows@);
            keyed::lemma_empty(d.col_widths@);
            assert(d.rows_view() =~= Map::<u32, RowView>::empty());
        }
        d
    }

    pub fn height(&self) -> (h: u32)
        ensures
            h == self.height,
    {
        self.height
    }

    pub fn width(&self) -> (w: u32)
        ensures
            w == self.width,
    {
        self.width
    }

    /// Sizes are declared directly when a template is read; they only grow.
    pub fn set_height(&mut self, height: u32)
        ensures
            final(self).height == max_int(old(self).height as int, height as int),
            final(self).width == old(self).width,
            final(self).rows == old(self).rows,
            final(self).same_but_rows(old(self)),
            old(self).wf() ==> final(self).wf(),
    {
        if height > self.height {
            self.height = height;
        }
    }

    pub fn set_width(&mut self, width: u32)
        ensures
            final(self).width == max_int(old(self).width as int, width as int),
            final(self).height == old(self).height,
            final(self).rows == old(self).rows,
            final(self).same_but_rows(old(self)),
            old(self).wf() ==> final(self).wf(),
    {
        if width > self.width {
            self.width = width;
        }
    }

    /// Grow the occupied size to take in a cell (0-based).
    pub(crate) fn touch(&mut self, row: u32, col: u32)
        requires
            row < u32::MAX,
            col < u32::MAX,
        ensures
            final(self).touched(old(self), row, col),
            final(self).rows == old(self).rows,
            final(self).same_but_rows(old(self)),
            old(self).wf() ==> final(self).wf(),
    {
        if row + 1 > self.height {
            self.height = row + 1;
        }
        if col + 1 > self.width {
            self.width = col + 1;
        }
    }

    /// Put a cell in place, creating its row when it is missing.
    fn put_cell(&mut self, r: u32, c: u32, cell: CellData)
        requires
            old(self).wf(),
            r < old(self).height,
            c < old(self).width,
        ensures
            final(self).wf(),
            final(self).rows_view() == old(self).with_cell(r, c, cell@),
            old(self).rows_view().contains_key(r) ==> keyed::keys(final(self).rows@) == keyed::keys(old(self).rows@),
            final(self).height == old(self).height,
            final(self).width == old(self).width,
            final(self).same_but_rows(old(self)),
    {
        let ghost v = cell@;
        let ghost old_rows = self.rows@;
        proof {
            keyed::lemma_all(self.rows@);
        }
        match keyed::find_slot(&self.rows, r) {
            Ok(i) => {
                let (k, mut row) = self.rows.remove(i);
                let ghost old_row = row;
                proof {
                    assert(old_rows[i as int].1.wf());
                    keyed::lemma_all(row.cells@);
                }
                keyed::put(&mut row.cells, c, cell);
                proof {
                    assert(row@.cells =~= old_row@.cells.insert(c, v));
                    assert(self.rows@.insert(i as int, (k, row)) =~= old_rows.update(
                        i as int,
                        (k, row),
                    ));
                    keyed::lemma_update(old_rows, i as int, row);
                }
                self.rows.insert(i, (k, row));
                proof {
                    assert(self.rows@ == old_rows.update(i as int, (k, row)));
                    assert(old_rows[i as int].0 == k);
                    assert(self.rows_view() =~= old(self).with_cell(r, c, v));
                    assert forall|j: int| 0 <= j < self.rows@.len() implies (
                    #[trigger] self.rows@[j]).1.wf() by {
                        if j != i {
                            assert(self.rows@[j] == old_rows[j]);
                        }
                    }
                }
            },
            Err(p) => {
                let mut cells: Vec<(u32, CellData)> = Vec::new();
                proof {
                    keyed::lemma_empty(cells@);
                    keyed::lemma_insert(cells@, 0, c, cell);
                }
                cells.insert(0, (c, cell));
                let row = RowData { height: None, cells };
                proof {
                    assert(row@.cells =~= Map::<u32, CellView>::empty().insert(c, v));
                    keyed::lemma_insert(old_rows, p as int, r, row);
                }
                self.rows.insert(p, (r, row));
                proof {
                    assert(self.rows_view() =~= old(self).with_cell(r, c, v));
                    assert forall|j: int| 0 <= j < self.rows@.len() implies (
                    #[trigger] self.rows@[j]).1.wf() by {
                        if j < p {
                            assert(self.rows@[j] == old_rows[j]);
                        } else if j > p {
                            assert(self.rows@[j] == old_rows[j - 1]);
                        }
                    }
                }
            },
        }
    }

    /// Make sure the cell at `(r, c)` is stored: a blank one is created
    /// when it is missing.
    pub(crate) fn ensure_cell(&mut self, r: u32, c: u32)
        requires
            old(self).wf(),
            r < u32::MAX,
            c < u32::MAX,
        ensures
            final(self).wf(),
            final(self).touched(old(self), r, c),
            final(self).rows_view() == (if old(self).cell_at(r, c) is Some {
                old(self).rows_view()
            } else {
                old(self).with_cell(r, c, CellView::blank())
            }),
            final(self).same_but_rows(old(self)),
    {
        self.touch(r, c);
        let present = match keyed::get(&self.rows, r) {
            Some(row) => {
                proof {
                    keyed::lemma_index_of(self.rows@, r);
                    let i = keyed::lemma_index_of(self.rows@, r);
                    assert(self.rows@[i].1.wf());
                }
                keyed::get(&row.cells, c).is_some()
            },
            None => false,
        };
        if !present {
            self.put_cell(r, c, CellData::blank());
        }
    }

    /// Make sure row `r` is stored, growing the height to take it in.
    pub(crate) fn ensure_row(&mut self, r: u32)
        requires
            old(self).wf(),
            r < u32::MAX,
        ensures
            final(self).wf(),
            final(self).height == max_int(old(self).height as int, r + 1),
            final(self).width == old(self).width,
            final(self).rows_view() == (if old(self).rows_view().contains_key(r) {
                old(self).rows_view()
            } else {
                old(self).rows_view().insert(r, empty_row())
            }),
            final(self).same_but_rows(old(self)),
    {
        if r + 1 > self.height {
            self.height = r + 1;
        }
        let ghost old_rows = self.rows@;
        proof {
            keyed::lemma_all(self.rows@);
        }
        match keyed::find_slot(&self.rows, r) {
            Ok(_) => {
                proof {
                    keyed::lemma_all(self.rows@);
                }
            },
            Err(p) => {
                let row = RowData { height: None, cells: Vec::new() };
                proof {
                    keyed::lemma_empty(row.cells@);
                    assert(row@.cells =~= Map::<u32, CellView>::empty());
                    keyed::lemma_insert(old_rows, p as int, r, row);
                }
                self.rows.insert(p, (r, row));
                proof {
                    assert(self.rows_view() =~= old(self).rows_view().insert(r, empty_row()));
                    assert forall|j: int| 0 <= j < self.rows@.len() implies (#[trigger] self.rows@[j]).1.wf() by {
                        if j < p {
                            assert(self.rows@[j] == old_rows[j]);
                        } else if j > p {
                            assert(self.rows@[j] == old_rows[j - 1]);
                        }
                    }
                }
            },
        }
    }

    /// A copy of the cell at `(r, c)`, or a blank one.
    fn cell_copy(&self, r: u32, c: u32) -> (cell: CellData)
        requires
            self.wf(),
        ensures
            cell@ == self.cell_or_blank(r, c),
    {
        proof {
            keyed::lemma_all(self.rows@);
        }
        match keyed::get(&self.rows, r) {
            Some(row) => {
                proof {
                    let i = choose|i: int| 0 <= i < self.rows@.len() && #[trigger] self.rows@[i].0 == r;
                    keyed::lemma_at(self.rows@, i);
                    assert(self.rows@[i].1.wf());
                    keyed::lemma_all(row.cells@);
                }
                match keyed::get(&row.cells, c) {
                    Some(cell) => cell.clone(),
                    None => CellData::blank(),
                }
            },
            None => CellData::blank(),
        }
    }
}


impl SpreadDocData {
    /// Horizontal alignment. The cell is created even without text: the platform writes such a cell.
    pub fn set_cell_h_align(&mut self, row: u32, col: u32, align: HAlign)
        requires
            old(self).wf(),
            row < u32::MAX,
            col < u32::MAX,
        ensures
            final(self).wf(),
            final(self).touched(old(self), row, col),
            final(self).rows_view() == old(self).with_cell(
                row,
                col,
                CellView { h_align: Some(align), ..old(self).cell_or_blank(row, col) },
            ),
            final(self).same_but_rows(old(self)),
    {
        self.touch(row, col);
        let mut cell = self.cell_copy(row, col);
        cell.h_align = Some(align);
        self.put_cell(row, col, cell);
    }

    /// Vertical alignment.
    pub fn set_cell_v_align(&mut self, row: u32, col: u32, align: VAlign)
        requires
            old(self).wf(),
            row < u32::MAX,
            col < u32::MAX,
        ensures
            final(self).wf(),
            final(self).touched(old(self), row, col),
            final(self).rows_view() == old(self).with_cell(
                row,
                col,
                CellView { v_align: Some(align), ..old(self).cell_or_blank(row, col) },
            ),
            final(self).same_but_rows(old(self)),
    {
        self.touch(row, col);
        let mut cell = self.cell_copy(row, col);
        cell.v_align = Some(align);
        self.put_cell(row, col, cell);
    }

    /// The cell font.
    pub fn set_cell_font(&mut self, row: u32, col: u32, font: Font)
        requires
            old(self).wf(),
            row < u32::MAX,
            col < u32::MAX,
        ensures
            final(self).wf(),
            final(self).touched(old(self), row, col),
            final(self).rows_view() == old(self).with_cell(
                row,
                col,
                CellView { font: Some(font@), ..old(self).cell_or_blank(row, col) },
            ),
            final(self).same_but_rows(old(self)),
    {
        self.touch(row, col);
        let mut cell = self.cell_copy(row, col);
        cell.font = Some(font);
        self.put_cell(row, col, cell);
    }

    /// `Расшифровка`, as its presentation.
    pub fn set_cell_detail(&mut self, row: u32, col: u32, presentation: &str)
        requires
            old(self).wf(),
            row < u32::MAX,
            col < u32::MAX,
        ensures
            final(self).wf(),
            final(self).touched(old(self), row, col),
            final(self).rows_view() == old(self).with_cell(
                row,
                col,
                CellView { detail: Some(presentation@), ..old(self).cell_or_blank(row, col) },
            ),
            final(self).same_but_rows(old(self)),
    {
        self.touch(row, col);
        let mut cell = self.cell_copy(row, col);
        cell.detail = Some(presentation.to_owned());
        self.put_cell(row, col, cell);
    }

    /// `ПараметрРасшифровки`.
    pub fn set_cell_detail_param(&mut self, row: u32, col: u32, name: &str)
        requires
            old(self).wf(),
            row < u32::MAX,
            col < u32::MAX,
        ensures
            final(self).wf(),
            final(self).touched(old(self), row, col),
            final(self).rows_view() == old(self).with_cell(
                row,
                col,
                CellView { detail_param: name@, ..old(self).cell_or_blank(row, col) },
            ),
            final(self).same_but_rows(old(self)),
    {
        self.touch(row, col);
        let mut cell = self.cell_copy(row, col);
        cell.detail_param = name.to_owned();
        self.put_cell(row, col, cell);
    }

    /// `ЦветТекста`.
    pub fn set_cell_text_color(&mut self, row: u32, col: u32, color: Color)
        requires
            old(self).wf(),
            row < u32::MAX,
            col < u32::MAX,
        ensures
            final(self).wf(),
            final(self).touched(old(self), row, col),
            final(self).rows_view() == old(self).with_cell(
                row,
                col,
                CellView { text_color: Some(color), ..old(self).cell_or_blank(row, col) },
            ),
            final(self).same_but_rows(old(self)),
    {
        self.touch(row, col);
        let mut cell = self.cell_copy(row, col);
        cell.text_color = Some(color);
        self.put_cell(row, col, cell);
    }

    /// `ЦветФона`.
    pub fn set_cell_back_color(&mut self, row: u32, col: u32, color: Color)
        requires
            old(self).wf(),
            row < u32::MAX,
            col < u32::MAX,
        ensures
            final(self).wf(),
            final(self).touched(old(self), row, col),
            final(self).rows_view() == old(self).with_cell(
                row,
                col,
                CellView { back_color: Some(color), ..old(self).cell_or_blank(row, col) },
            ),
            final(self).same_but_rows(old(self)),
    {
        self.touch(row, col);
        let mut cell = self.cell_copy(row, col);
        cell.back_color = Some(color);
        self.put_cell(row, col, cell);
    }

    /// Mark the cell as having a numeric format.
    pub fn set_cell_numeric(&mut self, row: u32, col: u32)
        requires
            old(self).wf(),
            row < u32::MAX,
            col < u32::MAX,
        ensures
            final(self).wf(),
            final(self).touched(old(self), row, col),
            final(self).rows_view() == old(self).with_cell(
                row,
                col,
                CellView { numeric: true, ..old(self).cell_or_blank(row, col) },
            ),
            final(self).same_but_rows(old(self)),
    {
        self.touch(row, col);
        let mut cell = self.cell_copy(row, col);
        cell.numeric = true;
        self.put_cell(row, col, cell);
    }

    /// The BSL format string of the cell.
    pub fn set_cell_format_spec(&mut self, row: u32, col: u32, spec: &str)
        requires
            old(self).wf(),
            row < u32::MAX,
            col < u32::MAX,
        ensures
            final(self).wf(),
            final(self).touched(old(self), row, col),
            final(self).rows_view() == old(self).with_cell(
                row,
                col,
                CellView { format_spec: Some(spec@), ..old(self).cell_or_blank(row, col) },
            ),
            final(self).same_but_rows(old(self)),
    {
        self.touch(row, col);
        let mut cell = self.cell_copy(row, col);
        cell.format_spec = Some(spec.to_owned());
        self.put_cell(row, col, cell);
    }

    /// `РазмещениеТекста.Переносить`.
    pub fn set_cell_wrap(&mut self, row: u32, col: u32, wrap: bool)
        requires
            old(self).wf(),
            row < u32::MAX,
            col < u32::MAX,
        ensures
            final(self).wf(),
            final(self).touched(old(self), row, col),
            final(self).rows_view() == old(self).with_cell(
                row,
                col,
                CellView { wrap: wrap, ..old(self).cell_or_blank(row, col) },
            ),
            final(self).same_but_rows(old(self)),
    {
        self.touch(row, col);
        let mut cell = self.cell_copy(row, col);
        cell.wrap = wrap;
        self.put_cell(row, col, cell);
    }

    /// Cell text; it replaces a template parameter in the same place.
    pub fn set_cell_text(&mut self, row: u32, col: u32, text: &str)
        requires
            old(self).wf(),
            row < u32::MAX,
            col < u32::MAX,
        ensures
            final(self).wf(),
            final(self).touched(old(self), row, col),
            final(self).rows_view() == old(self).with_cell(
                row,
                col,
                CellView { text: text@, parameter: Seq::empty(), ..old(self).cell_or_blank(row, col) },
            ),
            final(self).same_but_rows(old(self)),
    {
        self.touch(row, col);
        let mut cell = self.cell_copy(row, col);
        cell.text = text.to_owned();
        cell.parameter = String::new();
        self.put_cell(row, col, cell);
    }

    /// Template parameter name; it replaces the text in the same place.
    pub fn set_cell_parameter(&mut self, row: u32, col: u32, name: &str)
        requires
            old(self).wf(),
            row < u32::MAX,
            col < u32::MAX,
        ensures
            final(self).wf(),
            final(self).touched(old(self), row, col),
            final(self).rows_view() == old(self).with_cell(
                row,
                col,
                CellView { parameter: name@, text: Seq::empty(), ..old(self).cell_or_blank(row, col) },
            ),
            final(self).same_but_rows(old(self)),
    {
        self.touch(row, col);
        let mut cell = self.cell_copy(row, col);
        cell.parameter = name.to_owned();
        cell.text = String::new();
        self.put_cell(row, col, cell);
    }

    /// Put a value in the cell, given by its presentation; text and parameter go.
    pub fn set_cell_value(&mut self, row: u32, col: u32, presentation: &str)
        requires
            old(self).wf(),
            row < u32::MAX,
            col < u32::MAX,
        ensures
            final(self).wf(),
            final(self).touched(old(self), row, col),
            final(self).rows_view() == old(self).with_cell(
                row,
                col,
                CellView { value: Some(presentation@), text: Seq::empty(), parameter: Seq::empty(), ..old(self).cell_or_blank(row, col) },
            ),
            final(self).same_but_rows(old(self)),
    {
        self.touch(row, col);
        let mut cell = self.cell_copy(row, col);
        cell.value = Some(presentation.to_owned());
        cell.text = String::new();
        cell.parameter = String::new();
        self.put_cell(row, col, cell);
    }

    /// Borders, one side at a time: a side given as `None` stays as it was.
    pub fn set_cell_border(
        &mut self,
        row: u32,
        col: u32,
        left: Option<Line>,
        top: Option<Line>,
        right: Option<Line>,
        bottom: Option<Line>,
    )
        requires
            old(self).wf(),
            row < u32::MAX,
            col < u32::MAX,
        ensures
            final(self).wf(),
            final(self).touched(old(self), row, col),
            final(self).rows_view() == old(self).with_cell(
                row,
                col,
                CellView {
                    border_left: if left.is_some() { left } else { old(self).cell_or_blank(row, col).border_left },
                    border_top: if top.is_some() { top } else { old(self).cell_or_blank(row, col).border_top },
                    border_right: if right.is_some() { right } else { old(self).cell_or_blank(row, col).border_right },
                    border_bottom: if bottom.is_some() { bottom } else { old(self).cell_or_blank(row, col).border_bottom },
                    ..old(self).cell_or_blank(row, col)
                },
            ),
            final(self).same_but_rows(old(self)),
    {
        self.touch(row, col);
        let mut cell = self.cell_copy(row, col);
        if left.is_some() {
            cell.border_left = left;
        }
        if top.is_some() {
            cell.border_top = top;
        }
        if right.is_some() {
            cell.border_right = right;
        }
        if bottom.is_some() {
            cell.border_bottom = bottom;
        }
        self.put_cell(row, col, cell);
    }

    /// Cell text; a missing cell reads as empty text.
    pub fn cell_text(&self, row: u32, col: u32) -> (t: String)
        requires
            self.wf(),
        ensures
            t@ == self.cell_or_blank(row, col).text,
    {
        self.cell_copy(row, col).text
    }

    pub fn cell_parameter(&self, row: u32, col: u32) -> (t: String)
        requires
            self.wf(),
        ensures
            t@ == self.cell_or_blank(row, col).parameter,
    {
        self.cell_copy(row, col).parameter
    }

    pub fn cell_value(&self, row: u32, col: u32) -> (v: Option<String>)
        requires
            self.wf(),
        ensures
            opt_str_view(v) == self.cell_or_blank(row, col).value,
    {
        self.cell_copy(row, col).value
    }

    pub fn cell_detail(&self, row: u32, col: u32) -> (v: Option<String>)
        requires
            self.wf(),
        ensures
            opt_str_view(v) == self.cell_or_blank(row, col).detail,
    {
        self.cell_copy(row, col).detail
    }

    pub fn cell_detail_param(&self, row: u32, col: u32) -> (t: String)
        requires
            self.wf(),
        ensures
            t@ == self.cell_or_blank(row, col).detail_param,
    {
        self.cell_copy(row, col).detail_param
    }

    /// Whether the cell is marked with a numeric format.
    pub fn cell_numeric(&self, row: u32, col: u32) -> (b: bool)
        requires
            self.wf(),
        ensures
            b == self.cell_or_blank(row, col).numeric,
    {
        self.cell_copy(row, col).numeric
    }

    pub fn cell_format_spec(&self, row: u32, col: u32) -> (v: Option<String>)
        requires
            self.wf(),
        ensures
            opt_str_view(v) == self.cell_or_blank(row, col).format_spec,
    {
        self.cell_copy(row, col).format_spec
    }

    /// `ВысотаСтроки`; the row is created when missing.
    pub fn set_row_height(&mut self, row: u32, height: i64)
        requires
            old(self).wf(),
            row < u32::MAX,
        ensures
            final(self).wf(),
            final(self).touched(old(self), row, 0),
            final(self).rows_view() == old(self).rows_view().insert(
                row,
                RowView { height: Some(height), cells: old(self).row_or_empty(row).cells },
            ),
            final(self).same_but_rows(old(self)),
    {
        self.touch(row, 0);
        let ghost old_rows = self.rows@;
        proof {
            keyed::lemma_all(self.rows@);
        }
        match keyed::find_slot(&self.rows, row) {
            Ok(i) => {
                let (k, mut data) = self.rows.remove(i);
                data.height = Some(height);
                proof {
                    assert(self.rows@.insert(i as int, (k, data)) =~= old_rows.update(
                        i as int,
                        (k, data),
                    ));
                    keyed::lemma_update(old_rows, i as int, data);
                    assert(old_rows[i as int].1.wf());
                }
                self.rows.insert(i, (k, data));
                proof {
                    assert(self.rows_view() =~= old(self).rows_view().insert(
                        row,
                        RowView { height: Some(height), cells: old(self).row_or_empty(row).cells },
                    ));
                    assert forall|j: int| 0 <= j < self.rows@.len() implies (
                    #[trigger] self.rows@[j]).1.wf() by {
                        if j != i {
                            assert(self.rows@[j] == old_rows[j]);
                        }
                    }
                }
            },
            Err(p) => {
                let cells: Vec<(u32, CellData)> = Vec::new();
                proof {
                    keyed::lemma_empty(cells@);
                }
                let data = RowData { height: Some(height), cells };
                proof {
                    assert(data@.cells =~= Map::<u32, CellView>::empty());
                    keyed::lemma_insert(old_rows, p as int, row, data);
                }
                self.rows.insert(p, (row, data));
                proof {
                    assert(self.rows_view() =~= old(self).rows_view().insert(
                        row,
                        RowView { height: Some(height), cells: old(self).row_or_empty(row).cells },
                    ));
                    assert forall|j: int| 0 <= j < self.rows@.len() implies (
                    #[trigger] self.rows@[j]).1.wf() by {
                        if j < p {
                            assert(self.rows@[j] == old_rows[j]);
                        } else if j > p {
                            assert(self.rows@[j] == old_rows[j - 1]);
                        }
                    }
                }
            },
        }
    }

    /// `ШиринаКолонки` in API units.
    pub fn set_col_width(&mut self, col: u32, width: i64)
        requires
            old(self).wf(),
        ensures
            final(self).wf(),
            as_map(final(self).col_widths@) == as_map(old(self).col_widths@).insert(col, width),
            final(self).rows == old(self).rows,
            final(self).height == old(self).height,
            final(self).width == old(self).width,
            final(self).same_but_rows_and_widths(old(self)),
    {
        keyed::put(&mut self.col_widths, col, width);
    }
}


/// The cells of a row that a merge keeps: those outside its columns, and
/// its corner.
pub open spec fn kept_by_merge(m: Merge, r: u32, c: u32) -> bool {
    c < m.c1 || c > m.c2 || (r == m.r1 && c == m.c1)
}

/// A row after a merge dropped the cells it covers.
pub open spec fn row_after_merge(m: Merge, r: u32, row: RowView) -> RowView {
    if m.r1 <= r && r <= m.r2 {
        RowView {
            height: row.height,
            cells: Map::new(
                |c: u32| row.cells.contains_key(c) && kept_by_merge(m, r, c),
                |c: u32| row.cells[c],
            ),
        }
    } else {
        row
    }
}

/// A list of merges with `m` added unless it is already there.
pub open spec fn with_merge(ms: Seq<Merge>, m: Merge) -> Seq<Merge> {
    if ms.contains(m) {
        ms
    } else {
        ms.push(m)
    }
}

pub open spec fn with_pair(ms: Seq<(u32, u32)>, m: (u32, u32)) -> Seq<(u32, u32)> {
    if ms.contains(m) {
        ms
    } else {
        ms.push(m)
    }
}

fn push_merge_once(ms: &mut Vec<Merge>, m: Merge)
    ensures
        final(ms)@ == with_merge(old(ms)@, m),
{
    let mut i: usize = 0;
    while i < ms.len()
        invariant
            i <= ms@.len(),
            forall|j: int| 0 <= j < i ==> ms@[j] != m,
        decreases ms@.len() - i,
    {
        if ms[i] == m {
            proof {
                assert(ms@.contains(m));
            }
            return;
        }
        i = i + 1;
    }
    proof {
        assert(!ms@.contains(m));
    }
    ms.push(m);
}

fn push_pair_once(ms: &mut Vec<(u32, u32)>, m: (u32, u32))
    ensures
        final(ms)@ == with_pair(old(ms)@, m),
{
    let mut i: usize = 0;
    while i < ms.len()
        invariant
            i <= ms@.len(),
            forall|j: int| 0 <= j < i ==> ms@[j] != m,
        decreases ms@.len() - i,
    {
        if ms[i].0 == m.0 && ms[i].1 == m.1 {
            proof {
                assert(ms@[i as int] == m);
                assert(ms@.contains(m));
            }
            return;
        }
        i = i + 1;
    }
    proof {
        assert(!ms@.contains(m));
    }
    ms.push(m);
}

/// The cells of a row with those a merge covers removed.
fn filter_merged(cells: &Vec<(u32, CellData)>, m: Merge, r: u32) -> (out: Vec<(u32, CellData)>)
    requires
        sorted(cells@),
    ensures
        sorted(out@),
        cells_view(out@) == Map::new(
            |c: u32| cells_view(cells@).contains_key(c) && kept_by_merge(m, r, c),
            |c: u32| cells_view(cells@)[c],
        ),
        forall|j: int| 0 <= j < out@.len() ==> cells_view(cells@).contains_key(#[trigger] out@[j].0),
{
    let mut out: Vec<(u32, CellData)> = Vec::new();
    let mut i: usize = 0;
    proof {
        keyed::lemma_all(cells@);
    }
    while i < cells.len()
        invariant
            sorted(cells@),
            i <= cells@.len(),
            sorted(out@),
            forall|j: int| 0 <= j < out@.len() ==> (#[trigger] out@[j]).0 < (if i < cells@.len() { cells@[i as int].0 as int } else { u32::MAX as int + 1 }),
            forall|j: int| 0 <= j < out@.len() ==> keyed::has_key(cells@, #[trigger] out@[j].0),
            forall|j: int| 0 <= j < out@.len() ==> kept_by_merge(m, r, #[trigger] out@[j].0),
            forall|j: int| 0 <= j < out@.len() ==> (#[trigger] out@[j]).1@ == cells_view(cells@)[out@[j].0],
            forall|j: int| 0 <= j < i && kept_by_merge(m, r, cells@[j].0) ==> keyed::has_key(out@, #[trigger] cells@[j].0),
            forall|j: int| 0 <= j < cells@.len() ==> #[trigger] as_map(cells@).contains_key(cells@[j].0) && as_map(cells@)[cells@[j].0] == cells@[j].1,
        decreases cells@.len() - i,
    {
        let c = cells[i].0;
        if c < m.c1 || c > m.c2 || (r == m.r1 && c == m.c1) {
            let cell = cells[i].1.clone();
            let ghost before = out@;
            out.push((c, cell));
            proof {
                assert(keyed::has_key(cells@, c)) by {
                    assert(cells@[i as int].0 == c);
                }
                assert forall|a: int, b: int| 0 <= a < b < out@.len() implies #[trigger] out@[a].0
                    < #[trigger] out@[b].0 by {
                    if b == out@.len() - 1 && a < b {
                        assert(out@[a] == before[a]);
                    } else {
                        assert(before[a].0 < before[b].0);
                    }
                }
                assert forall|j: int| 0 <= j < i + 1 && kept_by_merge(m, r, cells@[j].0) implies keyed::has_key(out@, #[trigger] cells@[j].0) by {
                    if j < i {
                        let q = choose|q: int| 0 <= q < before.len() && #[trigger] before[q].0 == cells@[j].0;
                        assert(out@[q] == before[q]);
                    } else {
                        assert(out@[out@.len() - 1].0 == c);
                    }
                }
            }
        } else {
            proof {
                assert forall|j: int| 0 <= j < i + 1 && kept_by_merge(m, r, cells@[j].0) implies keyed::has_key(out@, #[trigger] cells@[j].0) by {
                    if j == i {
                        assert(false);
                    }
                }
            }
        }
        proof {
            if i + 1 < cells@.len() {
                assert(cells@[i as int].0 < cells@[i + 1].0);
            }
        }
        i = i + 1;
    }
    proof {
        keyed::lemma_all(out@);
        let target = Map::new(
            |c: u32| cells_view(cells@).contains_key(c) && kept_by_merge(m, r, c),
            |c: u32| cells_view(cells@)[c],
        );
        assert(cells_view(out@) =~= target) by {
            assert forall|c: u32| cells_view(out@).contains_key(c) == target.contains_key(c) by {
                if keyed::has_key(out@, c) {
                    let j = choose|j: int| 0 <= j < out@.len() && #[trigger] out@[j].0 == c;
                }
                if target.contains_key(c) {
                    let j = choose|j: int| 0 <= j < cells@.len() && #[trigger] cells@[j].0 == c;
                }
            }
            assert forall|c: u32| #[trigger] cells_view(out@).contains_key(c) implies cells_view(out@)[c] == target[c] by {
                let j = choose|j: int| 0 <= j < out@.len() && #[trigger] out@[j].0 == c;
            }
        }
    }
    out
}

impl SpreadDocData {
    /// Drop the cells that `m` covers, keeping its corner.
    fn drop_merged_cells(&mut self, m: Merge)
        requires
            old(self).wf(),
        ensures
            final(self).wf(),
            final(self).rows_view() == Map::new(
                |r: u32| old(self).rows_view().contains_key(r),
                |r: u32| row_after_merge(m, r, old(self).rows_view()[r]),
            ),
            final(self).height == old(self).height,
            final(self).width == old(self).width,
            final(self).same_but_rows(old(self)),
    {
        let ghost old_rows = self.rows@;
        let mut i: usize = 0;
        proof {
            keyed::lemma_all(old_rows);
        }
        while i < self.rows.len()
            invariant
                sorted(old_rows),
                keyed::same_keys(old_rows, self.rows@),
                i <= self.rows@.len(),
                forall|j: int| 0 <= j < self.rows@.len() ==> (#[trigger] self.rows@[j]).1.wf(),
                forall|j: int| 0 <= j < i ==> (#[trigger] self.rows@[j]).1@ == row_after_merge(m, old_rows[j].0, old_rows[j].1@),
                forall|j: int| i <= j < self.rows@.len() ==> #[trigger] self.rows@[j] == old_rows[j],
                forall|j: int| 0 <= j < i ==> forall|q: int| 0 <= q < (#[trigger] self.rows@[j]).1.cells@.len() ==> cells_view(old_rows[j].1.cells@).contains_key(self.rows@[j].1.cells@[q].0),
                self.height == old(self).height,
                self.width == old(self).width,
                self.same_but_rows(old(self)),
                old(self).rows@ == old_rows,
                old(self).wf(),
            decreases self.rows@.len() - i,
        {
            let r = self.rows[i].0;
            if m.r1 <= r && r <= m.r2 {
                let (k, row) = self.rows.remove(i);
                proof {
                    assert(old_rows[i as int].1.wf());
                }
                let cells = filter_merged(&row.cells, m, r);
                let new_row = RowData { height: row.height, cells };
                proof {
                    assert(new_row@ == row_after_merge(m, r, row@));
                }
                self.rows.insert(i, (k, new_row));
            }
            proof {
                assert forall|j: int| 0 <= j < i + 1 implies (#[trigger] self.rows@[j]).1@ == row_after_merge(m, old_rows[j].0, old_rows[j].1@) by {
                    if j == i && !(m.r1 <= r && r <= m.r2) {
                        assert(row_after_merge(m, r, old_rows[j].1@) == old_rows[j].1@);
                    }
                }
            }
            i = i + 1;
        }
        proof {
            keyed::lemma_same_keys(old_rows, self.rows@);
            let target = Map::new(
                |r: u32| old(self).rows_view().contains_key(r),
                |r: u32| row_after_merge(m, r, old(self).rows_view()[r]),
            );
            assert(self.rows_view() =~= target) by {
                assert forall|r: u32| #[trigger] self.rows_view().contains_key(r) implies self.rows_view()[r] == target[r] by {
                    let j = keyed::lemma_index_of(self.rows@, r);
                    assert(old_rows[j].0 == r);
                    keyed::lemma_at(old_rows, j);
                }
            }
            assert forall|r: u32, c: u32| #[trigger] self.rows_view().contains_key(r) && #[trigger] self.rows_view()[r].cells.contains_key(c) implies c < self.width by {
                assert(old(self).rows_view().contains_key(r));
                let row = old(self).rows_view()[r];
                assert(row.cells.contains_key(c));
            }
        }
    }

    /// `Объединить` on a rectangle. The merge also changes the content: the
    /// corner cell is created and every other covered cell is removed with
    /// its text. A merge already recorded is not recorded twice.
    pub fn merge(&mut self, m: Merge)
        requires
            old(self).wf(),
            m.r1 <= m.r2,
            m.c1 <= m.c2,
            m.r2 < u32::MAX,
            m.c2 < u32::MAX,
        ensures
            final(self).wf(),
            final(self).touched(old(self), m.r2, m.c2),
            ({
                let dropped = Map::new(
                    |r: u32| old(self).rows_view().contains_key(r),
                    |r: u32| row_after_merge(m, r, old(self).rows_view()[r]),
                );
                let base = if dropped.contains_key(m.r1) { dropped[m.r1] } else { empty_row() };
                final(self).rows_view() == dropped.insert(
                    m.r1,
                    RowView { height: base.height, cells: base.cells.insert(m.c1, old(self).cell_or_blank(m.r1, m.c1)) },
                )
            }),
            final(self).merges@ == with_merge(old(self).merges@, m),
            final(self).col_widths == old(self).col_widths,
            final(self).row_merges == old(self).row_merges,
            final(self).col_merges == old(self).col_merges,
            final(self).same_but_cells_and_merges(old(self)),
    {
        self.touch(m.r2, m.c2);
        let corner = self.cell_copy(m.r1, m.c1);
        self.drop_merged_cells(m);
        proof {
            assert(m.r1 < self.height);
            assert(m.c1 < self.width);
        }
        self.put_cell(m.r1, m.c1, corner);
        push_merge_once(&mut self.merges, m);
    }
}


/// Rows after blank cells were created wherever `cols` holds (and rows
/// wherever `rows` holds); existing cells stay as they are.
pub open spec fn fill(
    base: Map<u32, RowView>,
    rows: spec_fn(u32) -> bool,
    cols: spec_fn(u32, u32) -> bool,
) -> Map<u32, RowView> {
    Map::new(
        |r: u32| base.contains_key(r) || rows(r),
        |r: u32|
            {
                let row = if base.contains_key(r) {
                    base[r]
                } else {
                    empty_row()
                };
                RowView {
                    height: row.height,
                    cells: Map::new(
                        |c: u32| row.cells.contains_key(c) || cols(r, c),
                        |c: u32|
                            if row.cells.contains_key(c) {
                                row.cells[c]
                            } else {
                                CellView::blank()
                            },
                    ),
                }
            },
    )
}

/// The cells of a box `[r1, r2] x [c1, c2]`, taken row by row up to
/// `(r, c)` exclusive.
pub open spec fn box_before(r1: u32, c1: u32, r2: u32, c2: u32, r: u32, c: u32) -> spec_fn(u32, u32) -> bool {
    |a: u32, b: u32| r1 <= a <= r2 && c1 <= b <= c2 && (a < r || (a == r && b < c))
}

pub open spec fn box_rows_before(r1: u32, c1: u32, r: u32, c: u32) -> spec_fn(u32) -> bool {
    |a: u32| r1 <= a && (a < r || (a == r && c > c1))
}

/// The merge list without the record of exactly this rectangle (cancel
/// records stay).
pub open spec fn without_merge(ms: Seq<Merge>, r1: u32, c1: u32, r2: u32, c2: u32) -> Seq<Merge>
    decreases ms.len(),
{
    if ms.len() == 0 {
        ms
    } else {
        let rest = without_merge(ms.drop_last(), r1, c1, r2, c2);
        let m = ms.last();
        if m.r1 == r1 && m.c1 == c1 && m.r2 == r2 && m.c2 == c2 && !m.unmerge {
            rest
        } else {
            rest.push(m)
        }
    }
}

proof fn lemma_fill_step(
    base: Map<u32, RowView>,
    rows: spec_fn(u32) -> bool,
    cols: spec_fn(u32, u32) -> bool,
    rows2: spec_fn(u32) -> bool,
    cols2: spec_fn(u32, u32) -> bool,
    r: u32,
    c: u32,
)
    requires
        forall|a: u32| a != r ==> #[trigger] rows2(a) == rows(a),
        rows2(r),
        forall|a: u32, b: u32| (a != r || b != c) ==> #[trigger] cols2(a, b) == cols(a, b),
        cols2(r, c),
        forall|a: u32, b: u32| #[trigger] cols(a, b) ==> base.contains_key(a) || rows(a),
    ensures
        ({
            let f = fill(base, rows, cols);
            let row = if f.contains_key(r) { f[r] } else { empty_row() };
            let cell = if row.cells.contains_key(c) { row.cells[c] } else { CellView::blank() };
            fill(base, rows2, cols2) == f.insert(r, RowView { height: row.height, cells: row.cells.insert(c, cell) })
        }),
{
    let f = fill(base, rows, cols);
    let row = if f.contains_key(r) { f[r] } else { empty_row() };
    let cell = if row.cells.contains_key(c) { row.cells[c] } else { CellView::blank() };
    let g = fill(base, rows2, cols2);
    let h = f.insert(r, RowView { height: row.height, cells: row.cells.insert(c, cell) });
    assert(g.dom() =~= h.dom());
    assert forall|a: u32| #[trigger] g.contains_key(a) implies g[a] == h[a] by {
        if a == r {
            assert(g[a].cells =~= h[a].cells);
        } else {
            assert(g[a].cells =~= h[a].cells);
        }
    }
    assert(g =~= h);
}

impl SpreadDocData {
    /// Create blank cells in the whole rectangle. `Разъединить` behaves this
    /// way: the cells stay, and the table width no longer shrinks.
    fn materialize(&mut self, r1: u32, c1: u32, r2: u32, c2: u32)
        requires
            old(self).wf(),
            r1 <= r2 < u32::MAX,
            c1 <= c2 < u32::MAX,
        ensures
            final(self).wf(),
            final(self).touched(old(self), r2, c2),
            final(self).rows_view() == fill(
                old(self).rows_view(),
                |a: u32| r1 <= a <= r2,
                |a: u32, b: u32| r1 <= a <= r2 && c1 <= b <= c2,
            ),
            final(self).same_but_rows(old(self)),
    {
        self.touch(r2, c2);
        let ghost base = old(self).rows_view();
        proof {
            assert(fill(base, box_rows_before(r1, c1, r1, c1), box_before(r1, c1, r2, c2, r1, c1)) =~= base) by {
                let f = fill(base, box_rows_before(r1, c1, r1, c1), box_before(r1, c1, r2, c2, r1, c1));
                assert forall|a: u32| #[trigger] f.contains_key(a) implies f[a] == base[a] by {
                    assert(f[a].cells =~= base[a].cells);
                }
            }
        }
        let mut r = r1;
        while r <= r2
            invariant
                r1 <= r <= r2 + 1,
                self.wf(),
                self.touched(old(self), r2, c2),
                self.same_but_rows(old(self)),
                self.rows_view() == fill(base, box_rows_before(r1, c1, r, c1), box_before(r1, c1, r2, c2, r, c1)),
                r2 < u32::MAX,
                c1 <= c2 < u32::MAX,
            decreases r2 + 1 - r,
        {
            let mut c = c1;
            while c <= c2
                invariant
                    r1 <= r <= r2,
                    c1 <= c <= c2 + 1,
                    self.wf(),
                    self.touched(old(self), r2, c2),
                    self.same_but_rows(old(self)),
                    self.rows_view() == fill(base, box_rows_before(r1, c1, r, c), box_before(r1, c1, r2, c2, r, c)),
                    r2 < u32::MAX,
                    c2 < u32::MAX,
                decreases c2 + 1 - c,
            {
                let cell = self.cell_copy(r, c);
                proof {
                    lemma_fill_step(
                        base,
                        box_rows_before(r1, c1, r, c),
                        box_before(r1, c1, r2, c2, r, c),
                        box_rows_before(r1, c1, r, (c + 1) as u32),
                        box_before(r1, c1, r2, c2, r, (c + 1) as u32),
                        r,
                        c,
                    );
                }
                self.put_cell(r, c, cell);
                c = c + 1;
            }
            proof {
                let lhs = fill(base, box_rows_before(r1, c1, r, (c2 + 1) as u32), box_before(r1, c1, r2, c2, r, (c2 + 1) as u32));
                let nxt = fill(base, box_rows_before(r1, c1, (r + 1) as u32, c1), box_before(r1, c1, r2, c2, (r + 1) as u32, c1));
                assert(lhs.dom() =~= nxt.dom());
                assert forall|a: u32| #[trigger] lhs.contains_key(a) implies lhs[a] == nxt[a] by {
                    assert(lhs[a].cells =~= nxt[a].cells);
                }
                assert(lhs =~= nxt);
            }
            r = r + 1;
        }
        proof {
            let lhs = fill(base, box_rows_before(r1, c1, r, c1), box_before(r1, c1, r2, c2, r, c1));
            let fin = fill(base, |a: u32| r1 <= a <= r2, |a: u32, b: u32| r1 <= a <= r2 && c1 <= b <= c2);
            assert(lhs.dom() =~= fin.dom());
            assert forall|a: u32| #[trigger] lhs.contains_key(a) implies lhs[a] == fin[a] by {
                assert(lhs[a].cells =~= fin[a].cells);
            }
            assert(lhs =~= fin);
        }
    }

    /// `Разъединить` removes the record of exactly this rectangle and
    /// creates the cells it covered.
    pub fn unmerge(&mut self, r1: u32, c1: u32, r2: u32, c2: u32)
        requires
            old(self).wf(),
            r1 <= r2 < u32::MAX,
            c1 <= c2 < u32::MAX,
        ensures
            final(self).wf(),
            final(self).touched(old(self), r2, c2),
            final(self).rows_view() == fill(
                old(self).rows_view(),
                |a: u32| r1 <= a <= r2,
                |a: u32, b: u32| r1 <= a <= r2 && c1 <= b <= c2,
            ),
            final(self).merges@ == without_merge(old(self).merges@, r1, c1, r2, c2),
            final(self).col_widths == old(self).col_widths,
            final(self).row_merges == old(self).row_merges,
            final(self).col_merges == old(self).col_merges,
            final(self).same_but_cells_and_merges(old(self)),
    {
        let mut kept: Vec<Merge> = Vec::new();
        let mut i: usize = 0;
        while i < self.merges.len()
            invariant
                i <= self.merges@.len(),
                self.merges == old(self).merges,
                kept@ == without_merge(self.merges@.take(i as int), r1, c1, r2, c2),
            decreases self.merges@.len() - i,
        {
            let m = self.merges[i];
            proof {
                assert(self.merges@.take(i + 1).drop_last() =~= self.merges@.take(i as int));
            }
            if !(m.r1 == r1 && m.c1 == c1 && m.r2 == r2 && m.c2 == c2 && !m.unmerge) {
                kept.push(m);
            }
            i = i + 1;
        }
        proof {
            assert(self.merges@.take(self.merges@.len() as int) =~= self.merges@);
        }
        self.merges = kept;
        self.materialize(r1, c1, r2, c2);
    }

    /// The cancel record over a merge of whole columns, and the cells.
    pub fn unmerge_cells(&mut self, r1: u32, c1: u32, r2: u32, c2: u32)
        requires
            old(self).wf(),
            r1 <= r2 < u32::MAX,
            c1 <= c2 < u32::MAX,
        ensures
            final(self).wf(),
            final(self).touched(old(self), r2, c2),
            final(self).rows_view() == fill(
                old(self).rows_view(),
                |a: u32| r1 <= a <= r2,
                |a: u32, b: u32| r1 <= a <= r2 && c1 <= b <= c2,
            ),
            final(self).merges@ == with_merge(old(self).merges@, Merge { r1, c1, r2, c2, unmerge: true }),
            final(self).col_widths == old(self).col_widths,
            final(self).row_merges == old(self).row_merges,
            final(self).col_merges == old(self).col_merges,
            final(self).same_but_cells_and_merges(old(self)),
    {
        push_merge_once(&mut self.merges, Merge { r1, c1, r2, c2, unmerge: true });
        self.materialize(r1, c1, r2, c2);
    }

    /// `Область("R2:R3").Объединить()`: a merge of whole rows; a cell is
    /// created in the first row only.
    pub fn merge_rows(&mut self, r1: u32, r2: u32)
        requires
            old(self).wf(),
            r1 <= r2 < u32::MAX,
        ensures
            final(self).wf(),
            final(self).touched(old(self), r2, 0),
            final(self).rows_view() == old(self).with_cell(r1, 0, old(self).cell_or_blank(r1, 0)),
            final(self).row_merges@ == with_pair(old(self).row_merges@, (r1, r2)),
            final(self).col_widths == old(self).col_widths,
            final(self).merges == old(self).merges,
            final(self).col_merges == old(self).col_merges,
            final(self).same_but_cells_and_merges(old(self)),
    {
        self.touch(r2, 0);
        let cell = self.cell_copy(r1, 0);
        self.put_cell(r1, 0, cell);
        push_pair_once(&mut self.row_merges, (r1, r2));
    }

    /// `Область("C2:C4").Объединить()`: a merge of whole columns; a cell in
    /// its first column is created in every row that already exists.
    pub fn merge_columns(&mut self, c1: u32, c2: u32)
        requires
            old(self).wf(),
            c1 <= c2 < u32::MAX,
        ensures
            final(self).wf(),
            final(self).touched(old(self), 0, c2),
            final(self).rows_view() == fill(
                old(self).rows_view(),
                |a: u32| false,
                |a: u32, b: u32| old(self).rows_view().contains_key(a) && b == c1,
            ),
            final(self).col_merges@ == with_pair(old(self).col_merges@, (c1, c2)),
            final(self).col_widths == old(self).col_widths,
            final(self).merges == old(self).merges,
            final(self).row_merges == old(self).row_merges,
            final(self).same_but_cells_and_merges(old(self)),
    {
        self.touch(0, c2);
        let ghost base = old(self).rows_view();
        let ghost keys = keyed::keys(self.rows@);
        let n = self.rows.len();
        proof {
            keyed::lemma_all(self.rows@);
            let f = fill(base, |a: u32| false, |a: u32, b: u32| b == c1 && exists|j: int| 0 <= j < 0 && keys[j] == a);
            assert forall|a: u32| #[trigger] f.contains_key(a) implies f[a] == base[a] by {
                assert(f[a].cells =~= base[a].cells);
            }
            assert(f =~= base);
            assert forall|a: u32| #[trigger] base.contains_key(a) implies exists|j: int| 0 <= j < n && keys[j] == a by {
                let j = keyed::lemma_index_of(self.rows@, a);
                assert(keys[j] == a);
            }
        }
        let mut i: usize = 0;
        while i < n
            invariant
                i <= n,
                n == self.rows@.len(),
                keys == keyed::keys(self.rows@),
                self.wf(),
                self.touched(old(self), 0, c2),
                self.same_but_rows(old(self)),
                c1 < self.width,
                forall|j: int| 0 <= j < n ==> #[trigger] base.contains_key(keys[j]),
                forall|a: u32| #[trigger] base.contains_key(a) ==> exists|j: int| 0 <= j < n && keys[j] == a,
                self.rows_view() == fill(base, |a: u32| false, |a: u32, b: u32| b == c1 && exists|j: int| 0 <= j < i && keys[j] == a),
            decreases n - i,
        {
            let r = self.rows[i].0;
            proof {
                keyed::lemma_at(self.rows@, i as int);
                assert(self.rows_view().contains_key(r));
                assert(r < self.height);
            }
            let cell = self.cell_copy(r, c1);
            let ghost before = self.rows_view();
            proof {
                let cols = |a: u32, b: u32| b == c1 && exists|j: int| 0 <= j < i && keys[j] == a;
                let cols2 = |a: u32, b: u32| b == c1 && exists|j: int| 0 <= j < i + 1 && keys[j] == a;
                assert forall|a: u32, b: u32| (a != r || b != c1) implies #[trigger] cols2(a, b) == cols(a, b) by {
                    if cols2(a, b) && a != r {
                        let j = choose|j: int| 0 <= j < i + 1 && keys[j] == a;
                        assert(j != i);
                    }
                }
                assert(cols2(r, c1)) by {
                    assert(keys[i as int] == r);
                }
                assert(base.contains_key(r));
                assert forall|a: u32, b: u32| #[trigger] cols(a, b) implies base.contains_key(a) || false by {
                    let j = choose|j: int| 0 <= j < i && keys[j] == a;
                }
                lemma_fill_step(base, |a: u32| false, cols, |a: u32| base.contains_key(a) && a == r, cols2, r, c1);
                let f1 = fill(base, |a: u32| false, cols2);
                let f2 = fill(base, |a: u32| base.contains_key(a) && a == r, cols2);
                assert(f1.dom() =~= f2.dom());
                assert forall|a: u32| #[trigger] f1.contains_key(a) implies f1[a] == f2[a] by {
                    assert(f1[a].cells =~= f2[a].cells);
                }
                assert(f1 =~= f2);
            }
            self.put_cell(r, c1, cell);
            proof {
                assert(keyed::keys(self.rows@).len() == self.rows@.len());
                assert(keys.len() == n);
            }
            i = i + 1;
        }
        proof {
            let f1 = fill(base, |a: u32| false, |a: u32, b: u32| b == c1 && exists|j: int| 0 <= j < n && keys[j] == a);
            let f2 = fill(base, |a: u32| false, |a: u32, b: u32| base.contains_key(a) && b == c1);
            assert forall|a: u32| #[trigger] f1.contains_key(a) implies f1[a] == f2[a] by {
                assert(f1[a].cells =~= f2[a].cells);
            }
            assert(f1 =~= f2);
        }
        push_pair_once(&mut self.col_merges, (c1, c2));
    }
}


/// Rows moved down by `d`.
pub open spec fn shift_rows(m: Map<u32, RowView>, d: u32) -> Map<u32, RowView> {
    Map::new(
        |r: u32| r >= d && m.contains_key((r - d) as u32),
        |r: u32| m[(r - d) as u32],
    )
}

/// `ms` with every merge of `adds` added in turn, each only once.
pub open spec fn add_merges(ms: Seq<Merge>, adds: Seq<Merge>) -> Seq<Merge>
    decreases adds.len(),
{
    if adds.len() == 0 {
        ms
    } else {
        with_merge(add_merges(ms, adds.drop_last()), adds.last())
    }
}

/// A merge is in the list after the additions when it was in it before or
/// was added.
pub proof fn lemma_add_merges(ms: Seq<Merge>, adds: Seq<Merge>)
    ensures
        forall|x: Merge| #[trigger] add_merges(ms, adds).contains(x) <==> ms.contains(x) || adds.contains(x),
    decreases adds.len(),
{
    if adds.len() > 0 {
        lemma_add_merges(ms, adds.drop_last());
        let prev = add_merges(ms, adds.drop_last());
        assert forall|x: Merge| #[trigger] add_merges(ms, adds).contains(x) <==> ms.contains(x) || adds.contains(x) by {
            if adds.drop_last().contains(x) {
                let k = choose|k: int| 0 <= k < adds.drop_last().len() && adds.drop_last()[k] == x;
                assert(adds[k] == x);
            }
            if adds.contains(x) && x != adds.last() {
                let k = choose|k: int| 0 <= k < adds.len() && adds[k] == x;
                assert(k < adds.len() - 1);
                assert(adds.drop_last()[k] == x);
            }
            if !prev.contains(adds.last()) {
                if prev.push(adds.last()).contains(x) && x != adds.last() {
                    let k = choose|k: int| 0 <= k < prev.push(adds.last()).len() && prev.push(adds.last())[k] == x;
                    assert(prev[k] == x);
                }
                if prev.contains(x) {
                    let k = choose|k: int| 0 <= k < prev.len() && prev[k] == x;
                    assert(prev.push(adds.last())[k] == x);
                }
                assert(prev.push(adds.last())[prev.len() as int] == adds.last());
            }
        }
    }
}

pub open spec fn add_pairs(ms: Seq<(u32, u32)>, adds: Seq<(u32, u32)>) -> Seq<(u32, u32)>
    decreases adds.len(),
{
    if adds.len() == 0 {
        ms
    } else {
        with_pair(add_pairs(ms, adds.drop_last()), adds.last())
    }
}

pub open spec fn shift_merge(m: Merge, d: u32) -> Merge {
    Merge { r1: (m.r1 + d) as u32, r2: (m.r2 + d) as u32, ..m }
}

pub open spec fn shift_pair(p: (u32, u32), d: u32) -> (u32, u32) {
    ((p.0 + d) as u32, (p.1 + d) as u32)
}

/// A copy of a list of cells.
pub fn clone_cells(cells: &Vec<(u32, CellData)>) -> (out: Vec<(u32, CellData)>)
    requires
        sorted(cells@),
    ensures
        sorted(out@),
        keyed::same_keys(cells@, out@),
        cells_view(out@) == cells_view(cells@),
{
    let mut out: Vec<(u32, CellData)> = Vec::new();
    let mut i: usize = 0;
    while i < cells.len()
        invariant
            i <= cells@.len(),
            out@.len() == i,
            forall|j: int| 0 <= j < i ==> (#[trigger] out@[j]).0 == cells@[j].0 && out@[j].1@ == cells@[j].1@,
        decreases cells@.len() - i,
    {
        out.push((cells[i].0, cells[i].1.clone()));
        i = i + 1;
    }
    proof {
        keyed::lemma_same_keys(cells@, out@);
        keyed::lemma_all(cells@);
        assert(cells_view(out@) =~= cells_view(cells@)) by {
            assert forall|c: u32| #[trigger] cells_view(out@).contains_key(c) implies cells_view(out@)[c] == cells_view(cells@)[c] by {
                let j = keyed::lemma_index_of(out@, c);
            }
        }
    }
    out
}

impl SpreadDocData {
    /// `Очистить`: an empty document that keeps `ОтображатьСетку`.
    pub fn clear(&mut self)
        ensures
            final(self).wf(),
            final(self).rows_view() == Map::<u32, RowView>::empty(),
            final(self).height == 0,
            final(self).width == 0,
            final(self).show_grid == old(self).show_grid,
            final(self).col_widths@.len() == 0,
            final(self).merges@.len() == 0,
            final(self).row_merges@.len() == 0,
            final(self).col_merges@.len() == 0,
            final(self).names@.len() == 0,
            final(self).drawings@.len() == 0,
            final(self).row_groups@.len() == 0,
            final(self).open_groups@.len() == 0,
            final(self).column_sets@.len() == 0,
            final(self).row_sets@.len() == 0,
            final(self).params@.len() == 0,
            final(self).margins == (PageMargins { left: 1000, right: 1000, top: 1000, bottom: 1000 }),
            !final(self).landscape,
            final(self).print_scale.is_none(),
            final(self).print_area.is_none(),
            final(self).fix_top == 0,
            final(self).fix_left == 0,
            final(self).main_columns == 0,
            final(self).cleared_from(old(self)),
    {
        let grid = self.show_grid;
        *self = SpreadDocData::new();
        self.show_grid = grid;
    }

    /// `Вывести(Документ)`: the other document is appended below, its rows
    /// moved down by the current height; columns are not moved.
    pub fn append(&mut self, other: &SpreadDocData)
        requires
            old(self).wf(),
            other.wf(),
            old(self).height + other.height <= u32::MAX,
            forall|i: int| 0 <= i < other.merges@.len() ==> (#[trigger] other.merges@[i]).r2 + old(self).height <= u32::MAX
                && other.merges@[i].r1 + old(self).height <= u32::MAX,
            forall|i: int| 0 <= i < other.row_merges@.len() ==> (#[trigger] other.row_merges@[i]).1 + old(self).height <= u32::MAX
                && other.row_merges@[i].0 + old(self).height <= u32::MAX,
        ensures
            final(self).wf(),
            final(self).rows_view() == old(self).rows_view().union_prefer_right(shift_rows(other.rows_view(), old(self).height)),
            final(self).height == old(self).height + other.height,
            final(self).width == max_int(old(self).width as int, other.width as int),
            final(self).merges@ == add_merges(old(self).merges@, other.merges@.map_values(|m: Merge| shift_merge(m, old(self).height))),
            final(self).row_merges@ == add_pairs(old(self).row_merges@, other.row_merges@.map_values(|p: (u32, u32)| shift_pair(p, old(self).height))),
            final(self).col_merges@ == add_pairs(old(self).col_merges@, other.col_merges@),
            as_map(final(self).col_widths@) == as_map(other.col_widths@).union_prefer_right(as_map(old(self).col_widths@)),
            final(self).same_but_cells_and_merges(old(self)),
    {
        let shift = self.height;
        let ghost old_rows = self.rows@;
        let ghost target = old(self).rows_view().union_prefer_right(shift_rows(other.rows_view(), shift));
        // Rows: every key of the other document lands at or below `shift`,
        // past every row of this one.
        let mut i: usize = 0;
        proof {
            keyed::lemma_all(old_rows);
            keyed::lemma_all(other.rows@);
            assert forall|j: int| 0 <= j < old_rows.len() implies (#[trigger] old_rows[j]).0 < shift by {
                assert(old(self).rows_view().contains_key(old_rows[j].0));
            }
        }
        while i < other.rows.len()
            invariant
                i <= other.rows@.len(),
                other.wf(),
                shift == old(self).height,
                shift + other.height <= u32::MAX,
                self.rows@.len() == old_rows.len() + i,
                sorted(self.rows@),
                forall|j: int| 0 <= j < old_rows.len() ==> #[trigger] self.rows@[j] == old_rows[j],
                forall|j: int| 0 <= j < i ==> (#[trigger] self.rows@[old_rows.len() + j]).0 == other.rows@[j].0 + shift
                    && self.rows@[old_rows.len() + j].1@ == other.rows@[j].1@
                    && self.rows@[old_rows.len() + j].1.wf(),
                forall|j: int| 0 <= j < self.rows@.len() ==> (#[trigger] self.rows@[j]).0 < (if i < other.rows@.len() { other.rows@[i as int].0 + shift } else { u32::MAX + 1 }),
                forall|j: int| 0 <= j < old_rows.len() ==> (#[trigger] old_rows[j]).0 < shift,
                forall|j: int| 0 <= j < old_rows.len() ==> (#[trigger] old_rows[j]).1.wf(),
                old(self).rows@ == old_rows,
                old(self).wf(),
                self.height == old(self).height,
                self.width == old(self).width,
                self.same_but_rows(old(self)),
            decreases other.rows@.len() - i,
        {
            let (r, row) = (other.rows[i].0, &other.rows[i].1);
            proof {
                assert(other.rows_view().contains_key(r));
                assert(other.rows@[i as int].1.wf());
            }
            let cells = clone_cells(&row.cells);
            let ghost before = self.rows@;
            self.rows.push((r + shift, RowData { height: row.height, cells }));
            proof {
                assert forall|a: int, b: int| 0 <= a < b < self.rows@.len() implies #[trigger] self.rows@[a].0 < #[trigger] self.rows@[b].0 by {
                    if b == self.rows@.len() - 1 {
                        assert(self.rows@[a] == before[a]);
                    } else {
                        assert(before[a].0 < before[b].0);
                    }
                }
                if i + 1 < other.rows@.len() {
                    assert(other.rows@[i as int].0 < other.rows@[i + 1].0);
                }
            }
            i = i + 1;
        }
        proof {
            keyed::lemma_all(self.rows@);
            assert(self.rows_view() =~= target) by {
                assert forall|r: u32| self.rows_view().contains_key(r) == target.contains_key(r) by {
                    if self.rows_view().contains_key(r) {
                        let j = keyed::lemma_index_of(self.rows@, r);
                        if j >= old_rows.len() {
                            let q = j - old_rows.len();
                            assert(self.rows@[old_rows.len() + q].0 == other.rows@[q].0 + shift);
                            assert(other.rows_view().contains_key(other.rows@[q].0));
                            assert((r - shift) as u32 == other.rows@[q].0);
                        } else {
                            assert(old_rows[j] == self.rows@[j]);
                            assert(old(self).rows_view().contains_key(r));
                        }
                    }
                    if old(self).rows_view().contains_key(r) {
                        let j = keyed::lemma_index_of(old_rows, r);
                        assert(self.rows@[j] == old_rows[j]);
                    }
                    if shift_rows(other.rows_view(), shift).contains_key(r) {
                        let q = keyed::lemma_index_of(other.rows@, (r - shift) as u32);
                        assert(self.rows@[old_rows.len() + q].0 == r);
                    }
                }
                assert forall|r: u32| #[trigger] self.rows_view().contains_key(r) implies self.rows_view()[r] == target[r] by {
                    let j = keyed::lemma_index_of(self.rows@, r);
                    if j >= old_rows.len() {
                        let q = j - old_rows.len();
                        assert(self.rows@[old_rows.len() + q].0 == other.rows@[q].0 + shift);
                        keyed::lemma_at(other.rows@, q);
                        assert((r - shift) as u32 == other.rows@[q].0);
                        assert(!old(self).rows_view().contains_key(r)) by {
                            if old(self).rows_view().contains_key(r) {
                                let k = keyed::lemma_index_of(old_rows, r);
                            }
                        }
                    } else {
                        assert(old_rows[j] == self.rows@[j]);
                        keyed::lemma_at(old_rows, j);
                        assert(!shift_rows(other.rows_view(), shift).contains_key(r));
                    }
                }
            }
        }
        let ghost rows1 = self.rows;
        // Merges.
        let ghost adds = other.merges@.map_values(|m: Merge| shift_merge(m, shift));
        let mut k: usize = 0;
        while k < other.merges.len()
            invariant
                k <= other.merges@.len(),
                shift == old(self).height,
                adds == other.merges@.map_values(|m: Merge| shift_merge(m, shift)),
                forall|q: int| 0 <= q < other.merges@.len() ==> (#[trigger] other.merges@[q]).r2 + shift <= u32::MAX
                    && other.merges@[q].r1 + shift <= u32::MAX,
                self.merges@ == add_merges(old(self).merges@, adds.take(k as int)),
                self.rows == rows1,
                self.height == old(self).height,
                self.width == old(self).width,
                self.same_but_cells_and_merges(old(self)),
                self.col_widths == old(self).col_widths,
                self.row_merges == old(self).row_merges,
                self.col_merges == old(self).col_merges,
            decreases other.merges@.len() - k,
        {
            let m = other.merges[k];
            let moved = Merge { r1: m.r1 + shift, c1: m.c1, r2: m.r2 + shift, c2: m.c2, unmerge: m.unmerge };
            proof {
                assert(adds.take(k + 1).drop_last() =~= adds.take(k as int));
                assert(adds[k as int] == moved);
            }
            push_merge_once(&mut self.merges, moved);
            k = k + 1;
        }
        proof {
            assert(adds.take(other.merges@.len() as int) =~= adds);
        }
        let ghost merges1 = self.merges;
        proof {
            assert(adds.take(0) =~= Seq::<Merge>::empty());
        }
        let ghost radds = other.row_merges@.map_values(|p: (u32, u32)| shift_pair(p, shift));
        proof {
            assert(radds.take(0) =~= Seq::<(u32, u32)>::empty());
        }
        let mut k: usize = 0;
        while k < other.row_merges.len()
            invariant
                k <= other.row_merges@.len(),
                shift == old(self).height,
                radds == other.row_merges@.map_values(|p: (u32, u32)| shift_pair(p, shift)),
                forall|q: int| 0 <= q < other.row_merges@.len() ==> (#[trigger] other.row_merges@[q]).1 + shift <= u32::MAX
                    && other.row_merges@[q].0 + shift <= u32::MAX,
                self.row_merges@ == add_pairs(old(self).row_merges@, radds.take(k as int)),
                self.rows == rows1,
                self.height == old(self).height,
                self.width == old(self).width,
                self.same_but_cells_and_merges(old(self)),
                self.col_widths == old(self).col_widths,
                self.merges == merges1,
                self.col_merges == old(self).col_merges,
            decreases other.row_merges@.len() - k,
        {
            let p = other.row_merges[k];
            let moved = (p.0 + shift, p.1 + shift);
            proof {
                assert(radds.take(k + 1).drop_last() =~= radds.take(k as int));
                assert(radds[k as int] == moved);
            }
            push_pair_once(&mut self.row_merges, moved);
            k = k + 1;
        }
        proof {
            assert(radds.take(other.row_merges@.len() as int) =~= radds);
        }
        let ghost rmerges1 = self.row_merges;
        proof {
            assert(other.col_merges@.take(0) =~= Seq::<(u32, u32)>::empty());
        }
        let mut k: usize = 0;
        while k < other.col_merges.len()
            invariant
                k <= other.col_merges@.len(),
                self.col_merges@ == add_pairs(old(self).col_merges@, other.col_merges@.take(k as int)),
                self.rows == rows1,
                self.height == old(self).height,
                self.width == old(self).width,
                self.same_but_cells_and_merges(old(self)),
                self.col_widths == old(self).col_widths,
                self.merges == merges1,
                self.row_merges == rmerges1,
            decreases other.col_merges@.len() - k,
        {
            let p = other.col_merges[k];
            proof {
                assert(other.col_merges@.take(k + 1).drop_last() =~= other.col_merges@.take(k as int));
            }
            push_pair_once(&mut self.col_merges, p);
            k = k + 1;
        }
        proof {
            assert(other.col_merges@.take(other.col_merges@.len() as int) =~= other.col_merges@);
        }
        let ghost cmerges1 = self.col_merges;
        proof {
            keyed::lemma_empty(other.col_widths@.take(0));
            assert(as_map(self.col_widths@) =~= as_map(other.col_widths@.take(0)).union_prefer_right(as_map(old(self).col_widths@)));
            keyed::lemma_all(other.col_widths@);
        }
        // Widths: the receiver keeps its own.
        let mut k: usize = 0;
        while k < other.col_widths.len()
            invariant
                k <= other.col_widths@.len(),
                sorted(self.col_widths@),
                sorted(other.col_widths@),
                as_map(self.col_widths@) == as_map(other.col_widths@.take(k as int)).union_prefer_right(as_map(old(self).col_widths@)),
                forall|q: int| 0 <= q < other.col_widths@.len() ==> #[trigger] as_map(other.col_widths@).contains_key(other.col_widths@[q].0)
                    && as_map(other.col_widths@)[other.col_widths@[q].0] == other.col_widths@[q].1,
                self.rows == rows1,
                self.height == old(self).height,
                self.width == old(self).width,
                self.same_but_cells_and_merges(old(self)),
                self.merges == merges1,
                self.row_merges == rmerges1,
                self.col_merges == cmerges1,
            decreases other.col_widths@.len() - k,
        {
            let (c, w) = other.col_widths[k];
            let ghost pre = other.col_widths@.take(k as int);
            let ghost post = other.col_widths@.take(k + 1);
            proof {
                assert(sorted(pre));
                assert(sorted(post));
                keyed::lemma_all(pre);
                keyed::lemma_all(post);
                assert(as_map(post) =~= as_map(pre).insert(c, w)) by {
                    assert forall|q: u32| as_map(post).contains_key(q) == as_map(pre).insert(c, w).contains_key(q) by {
                        if keyed::has_key(post, q) {
                            let j = choose|j: int| 0 <= j < post.len() && #[trigger] post[j].0 == q;
                            if j < k {
                                assert(pre[j].0 == q);
                            }
                        }
                        if keyed::has_key(pre, q) {
                            let j = choose|j: int| 0 <= j < pre.len() && #[trigger] pre[j].0 == q;
                            assert(post[j].0 == q);
                        }
                        if q == c {
                            assert(post[k as int].0 == q);
                        }
                    }
                    assert forall|q: u32| #[trigger] as_map(post).contains_key(q) implies as_map(post)[q] == as_map(pre).insert(c, w)[q] by {
                        let j = keyed::lemma_index_of(post, q);
                        if j < k {
                            assert(pre[j] == post[j]);
                            keyed::lemma_at(pre, j);
                            assert(q != c) by {
                                assert(post[j].0 < post[k as int].0);
                            }
                        }
                    }
                }
            }
            match keyed::find_slot(&self.col_widths, c) {
                Ok(_) => {
                    proof {
                        assert(as_map(self.col_widths@) =~= as_map(post).union_prefer_right(as_map(old(self).col_widths@)));
                    }
                },
                Err(_) => {
                    keyed::put(&mut self.col_widths, c, w);
                    proof {
                        assert(as_map(self.col_widths@) =~= as_map(post).union_prefer_right(as_map(old(self).col_widths@)));
                    }
                },
            }
            k = k + 1;
        }
        proof {
            assert(other.col_widths@.take(other.col_widths@.len() as int) =~= other.col_widths@);
        }
        self.height = self.height + other.height;
        if other.width > self.width {
            self.width = other.width;
        }
        proof {
            assert forall|j: int| 0 <= j < self.rows@.len() implies (#[trigger] self.rows@[j]).1.wf() by {
                if j >= old_rows.len() {
                    let q = j - old_rows.len();
                    assert(self.rows@[old_rows.len() + q].1.wf());
                } else {
                    assert(self.rows@[j] == old_rows[j]);
                }
            }
            assert forall|r: u32| #[trigger] self.rows_view().contains_key(r) implies r < self.height by {
                if !old(self).rows_view().contains_key(r) {
                    assert(other.rows_view().contains_key(#[verifier::truncate] ((r - shift) as u32)));
                }
            }
            assert forall|r: u32, c: u32| #[trigger] self.rows_view().contains_key(r) && #[trigger] self.rows_view()[r].cells.contains_key(c) implies c < self.width by {
                if old(self).rows_view().contains_key(r) {
                    assert(self.rows_view()[r] == old(self).rows_view()[r]);
                } else {
                    assert(other.rows_view().contains_key(#[verifier::truncate] ((r - shift) as u32)));
                    assert(self.rows_view()[r] == other.rows_view()[(r - shift) as u32]);
                }
            }
        }
    }
}


/// The entries of a map whose keys fall in `[lo, hi]`, moved to start at 0.
pub open spec fn window<V>(m: Map<u32, V>, lo: u32, hi: u32) -> Map<u32, V> {
    Map::new(
        |k: u32| lo + k <= hi && m.contains_key((k + lo) as u32),
        |k: u32| m[(k + lo) as u32],
    )
}

/// The rows of the rectangle `[r1, r2] x [c1, c2]`, moved to the origin.
pub open spec fn window_rows(m: Map<u32, RowView>, r1: u32, c1: u32, r2: u32, c2: u32) -> Map<u32, RowView> {
    Map::new(
        |r: u32| r1 + r <= r2 && m.contains_key((r + r1) as u32),
        |r: u32| RowView { height: m[(r + r1) as u32].height, cells: window(m[(r + r1) as u32].cells, c1, c2) },
    )
}

/// The merges whose corner lies in the rectangle, clipped to it and moved
/// to its origin.
pub open spec fn window_merges(ms: Seq<Merge>, r1: u32, c1: u32, r2: u32, c2: u32) -> Seq<Merge>
    decreases ms.len(),
{
    if ms.len() == 0 {
        ms
    } else {
        let rest = window_merges(ms.drop_last(), r1, c1, r2, c2);
        let m = ms.last();
        if r1 <= m.r1 <= r2 && c1 <= m.c1 <= c2 {
            rest.push(Merge {
                r1: (m.r1 - r1) as u32,
                c1: (m.c1 - c1) as u32,
                r2: (min_u32(m.r2, r2) - r1) as u32,
                c2: (min_u32(m.c2, c2) - c1) as u32,
                unmerge: m.unmerge,
            })
        } else {
            rest
        }
    }
}

/// The entries of a sorted list whose keys fall in `[lo, hi]`, moved to
/// start at 0.
fn window_widths(s: &Vec<(u32, i64)>, lo: u32, hi: u32) -> (out: Vec<(u32, i64)>)
    requires
        sorted(s@),
    ensures
        sorted(out@),
        as_map(out@) == window(as_map(s@), lo, hi),
        forall|j: int| 0 <= j < out@.len() ==> lo + (#[trigger] out@[j]).0 <= hi,
{
    let mut out: Vec<(u32, i64)> = Vec::new();
    let mut i: usize = 0;
    proof {
        keyed::lemma_all(s@);
    }
    while i < s.len()
        invariant
            sorted(s@),
            i <= s@.len(),
            sorted(out@),
            forall|j: int| 0 <= j < out@.len() ==> (#[trigger] out@[j]).0 + lo < (if i < s@.len() { s@[i as int].0 as int } else { u32::MAX as int + 1 }),
            forall|j: int| 0 <= j < out@.len() ==> lo + (#[trigger] out@[j]).0 <= hi,
            forall|j: int| 0 <= j < out@.len() ==> #[trigger] as_map(s@).contains_key((out@[j].0 + lo) as u32) && as_map(s@)[(out@[j].0 + lo) as u32] == out@[j].1,
            forall|j: int| 0 <= j < i && lo <= s@[j].0 <= hi ==> keyed::has_key(out@, (#[trigger] s@[j].0 - lo) as u32),
            forall|j: int| 0 <= j < s@.len() ==> #[trigger] as_map(s@).contains_key(s@[j].0) && as_map(s@)[s@[j].0] == s@[j].1,
        decreases s@.len() - i,
    {
        let (k, v) = s[i];
        if lo <= k && k <= hi {
            let ghost before = out@;
            out.push((k - lo, v));
            proof {
                assert(as_map(s@).contains_key(s@[i as int].0) && as_map(s@)[s@[i as int].0] == s@[i as int].1);
                assert(((k - lo) + lo) as u32 == k);
                assert forall|j: int| 0 <= j < out@.len() implies #[trigger] as_map(s@).contains_key((out@[j].0 + lo) as u32) && as_map(s@)[(out@[j].0 + lo) as u32] == out@[j].1 by {
                    if j < before.len() {
                        assert(out@[j] == before[j]);
                    }
                }
                assert forall|a: int, b: int| 0 <= a < b < out@.len() implies #[trigger] out@[a].0 < #[trigger] out@[b].0 by {
                    if b == out@.len() - 1 {
                        assert(out@[a] == before[a]);
                    } else {
                        assert(before[a].0 < before[b].0);
                    }
                }
                assert forall|j: int| 0 <= j < i + 1 && lo <= s@[j].0 <= hi implies keyed::has_key(out@, (#[trigger] s@[j].0 - lo) as u32) by {
                    if j < i {
                        let q = choose|q: int| 0 <= q < before.len() && #[trigger] before[q].0 == (s@[j].0 - lo) as u32;
                        assert(out@[q] == before[q]);
                    } else {
                        assert(out@[out@.len() - 1].0 == (k - lo) as u32);
                    }
                }
            }
        }
        proof {
            if i + 1 < s@.len() {
                assert(s@[i as int].0 < s@[i + 1].0);
            }
        }
        i = i + 1;
    }
    proof {
        keyed::lemma_all(out@);
        let target = window(as_map(s@), lo, hi);
        assert(as_map(out@) =~= target) by {
            assert forall|k: u32| as_map(out@).contains_key(k) == target.contains_key(k) by {
                if keyed::has_key(out@, k) {
                    let j = choose|j: int| 0 <= j < out@.len() && #[trigger] out@[j].0 == k;
                }
                if target.contains_key(k) {
                    let j = keyed::lemma_index_of(s@, (k + lo) as u32);
                }
            }
            assert forall|k: u32| #[trigger] as_map(out@).contains_key(k) implies as_map(out@)[k] == target[k] by {
                let j = keyed::lemma_index_of(out@, k);
            }
        }
    }
    out
}

/// The cells of a row whose columns fall in `[lo, hi]`, moved to start at 0.
fn window_cells(s: &Vec<(u32, CellData)>, lo: u32, hi: u32) -> (out: Vec<(u32, CellData)>)
    requires
        sorted(s@),
    ensures
        sorted(out@),
        cells_view(out@) == window(cells_view(s@), lo, hi),
        forall|j: int| 0 <= j < out@.len() ==> lo + (#[trigger] out@[j]).0 <= hi,
{
    let mut out: Vec<(u32, CellData)> = Vec::new();
    let mut i: usize = 0;
    proof {
        keyed::lemma_all(s@);
    }
    while i < s.len()
        invariant
            sorted(s@),
            i <= s@.len(),
            sorted(out@),
            forall|j: int| 0 <= j < out@.len() ==> (#[trigger] out@[j]).0 + lo < (if i < s@.len() { s@[i as int].0 as int } else { u32::MAX as int + 1 }),
            forall|j: int| 0 <= j < out@.len() ==> lo + (#[trigger] out@[j]).0 <= hi,
            forall|j: int| 0 <= j < out@.len() ==> #[trigger] as_map(s@).contains_key((out@[j].0 + lo) as u32) && as_map(s@)[(out@[j].0 + lo) as u32]@ == out@[j].1@,
            forall|j: int| 0 <= j < i && lo <= s@[j].0 <= hi ==> keyed::has_key(out@, (#[trigger] s@[j].0 - lo) as u32),
            forall|j: int| 0 <= j < s@.len() ==> #[trigger] as_map(s@).contains_key(s@[j].0) && as_map(s@)[s@[j].0] == s@[j].1,
        decreases s@.len() - i,
    {
        let k = s[i].0;
        if lo <= k && k <= hi {
            let ghost before = out@;
            out.push((k - lo, s[i].1.clone()));
            proof {
                assert forall|a: int, b: int| 0 <= a < b < out@.len() implies #[trigger] out@[a].0 < #[trigger] out@[b].0 by {
                    if b == out@.len() - 1 {
                        assert(out@[a] == before[a]);
                    } else {
                        assert(before[a].0 < before[b].0);
                    }
                }
                assert forall|j: int| 0 <= j < i + 1 && lo <= s@[j].0 <= hi implies keyed::has_key(out@, (#[trigger] s@[j].0 - lo) as u32) by {
                    if j < i {
                        let q = choose|q: int| 0 <= q < before.len() && #[trigger] before[q].0 == (s@[j].0 - lo) as u32;
                        assert(out@[q] == before[q]);
                    } else {
                        assert(out@[out@.len() - 1].0 == (k - lo) as u32);
                    }
                }
            }
        }
        proof {
            if i + 1 < s@.len() {
                assert(s@[i as int].0 < s@[i + 1].0);
            }
        }
        i = i + 1;
    }
    proof {
        keyed::lemma_all(out@);
        let target = window(cells_view(s@), lo, hi);
        assert(cells_view(out@) =~= target) by {
            assert forall|k: u32| cells_view(out@).contains_key(k) == target.contains_key(k) by {
                if keyed::has_key(out@, k) {
                    let j = choose|j: int| 0 <= j < out@.len() && #[trigger] out@[j].0 == k;
                }
                if target.contains_key(k) {
                    let j = keyed::lemma_index_of(s@, (k + lo) as u32);
                }
            }
            assert forall|k: u32| #[trigger] cells_view(out@).contains_key(k) implies cells_view(out@)[k] == target[k] by {
                let j = keyed::lemma_index_of(out@, k);
            }
        }
    }
    out
}

impl SpreadDocData {
    /// A copy of a rectangle as a document of its own — what
    /// `ПолучитьОбласть` returns. Coordinates are 0-based and inclusive.
    pub fn extract(&self, r1: u32, c1: u32, r2: u32, c2: u32) -> (out: SpreadDocData)
        requires
            self.wf(),
            r2 - r1 < u32::MAX,
            c2 - c1 < u32::MAX,
            forall|i: int| 0 <= i < self.merges@.len() && r1 <= (#[trigger] self.merges@[i]).r1 <= r2 && c1 <= self.merges@[i].c1 <= c2
                ==> self.merges@[i].r2 >= r1 && self.merges@[i].c2 >= c1,
        ensures
            out.wf(),
            out.rows_view() == window_rows(self.rows_view(), r1, c1, r2, c2),
            as_map(out.col_widths@) == window(as_map(self.col_widths@), c1, c2),
            out.merges@ == window_merges(self.merges@, r1, c1, r2, c2),
            out.height == (if r2 >= r1 { r2 - r1 + 1 } else { 1 }),
            out.width == (if c2 >= c1 { c2 - c1 + 1 } else { 1 }),
            out.show_grid == self.show_grid,
            out.row_merges@.len() == 0,
            out.col_merges@.len() == 0,
            out.names@.len() == 0,
            out.drawings@.len() == 0,
            out.row_groups@.len() == 0,
            out.params@.len() == 0,
    {
        let mut out = SpreadDocData::new();
        out.show_grid = self.show_grid;
        let mut i: usize = 0;
        proof {
            keyed::lemma_all(self.rows@);
        }
        while i < self.rows.len()
            invariant
                self.wf(),
                i <= self.rows@.len(),
                sorted(out.rows@),
                forall|j: int| 0 <= j < out.rows@.len() ==> (#[trigger] out.rows@[j]).0 + r1 < (if i < self.rows@.len() { self.rows@[i as int].0 as int } else { u32::MAX as int + 1 }),
                forall|j: int| 0 <= j < out.rows@.len() ==> r1 + (#[trigger] out.rows@[j]).0 <= r2,
                forall|j: int| 0 <= j < out.rows@.len() ==> (#[trigger] out.rows@[j]).1.wf(),
                forall|j: int| 0 <= j < out.rows@.len() ==> forall|q: int| 0 <= q < (#[trigger] out.rows@[j]).1.cells@.len() ==> c1 + out.rows@[j].1.cells@[q].0 <= c2,
                forall|j: int| 0 <= j < out.rows@.len() ==> #[trigger] self.rows_view().contains_key((out.rows@[j].0 + r1) as u32)
                    && out.rows@[j].1@ == (RowView {
                        height: self.rows_view()[(out.rows@[j].0 + r1) as u32].height,
                        cells: window(self.rows_view()[(out.rows@[j].0 + r1) as u32].cells, c1, c2),
                    }),
                forall|j: int| 0 <= j < i && r1 <= self.rows@[j].0 <= r2 ==> keyed::has_key(out.rows@, (#[trigger] self.rows@[j].0 - r1) as u32),
                forall|j: int| 0 <= j < self.rows@.len() ==> #[trigger] as_map(self.rows@).contains_key(self.rows@[j].0) && as_map(self.rows@)[self.rows@[j].0] == self.rows@[j].1,
                out.show_grid == self.show_grid,
                out.col_widths@.len() == 0,
                out.merges@.len() == 0,
                out.row_merges@.len() == 0,
                out.col_merges@.len() == 0,
                out.names@.len() == 0,
                out.drawings@.len() == 0,
                out.row_groups@.len() == 0,
                out.params@.len() == 0,
            decreases self.rows@.len() - i,
        {
            let k = self.rows[i].0;
            if r1 <= k && k <= r2 {
                proof {
                    assert(self.rows@[i as int].1.wf());
                }
                let cells = window_cells(&self.rows[i].1.cells, c1, c2);
                let ghost before = out.rows@;
                out.rows.push((k - r1, RowData { height: self.rows[i].1.height, cells }));
                proof {
                    assert forall|a: int, b: int| 0 <= a < b < out.rows@.len() implies #[trigger] out.rows@[a].0 < #[trigger] out.rows@[b].0 by {
                        if b == out.rows@.len() - 1 {
                            assert(out.rows@[a] == before[a]);
                        } else {
                            assert(before[a].0 < before[b].0);
                        }
                    }
                    assert forall|j: int| 0 <= j < i + 1 && r1 <= self.rows@[j].0 <= r2 implies keyed::has_key(out.rows@, (#[trigger] self.rows@[j].0 - r1) as u32) by {
                        if j < i {
                            let q = choose|q: int| 0 <= q < before.len() && #[trigger] before[q].0 == (self.rows@[j].0 - r1) as u32;
                            assert(out.rows@[q] == before[q]);
                        } else {
                            assert(out.rows@[out.rows@.len() - 1].0 == (k - r1) as u32);
                        }
                    }
                    assert(self.rows_view().contains_key(k));
                }
            }
            proof {
                if i + 1 < self.rows@.len() {
                    assert(self.rows@[i as int].0 < self.rows@[i + 1].0);
                }
            }
            i = i + 1;
        }
        proof {
            keyed::lemma_all(out.rows@);
            let target = window_rows(self.rows_view(), r1, c1, r2, c2);
            assert(out.rows_view() =~= target) by {
                assert forall|k: u32| out.rows_view().contains_key(k) == target.contains_key(k) by {
                    if keyed::has_key(out.rows@, k) {
                        let j = choose|j: int| 0 <= j < out.rows@.len() && #[trigger] out.rows@[j].0 == k;
                    }
                    if target.contains_key(k) {
                        let j = keyed::lemma_index_of(self.rows@, (k + r1) as u32);
                    }
                }
                assert forall|k: u32| #[trigger] out.rows_view().contains_key(k) implies out.rows_view()[k] == target[k] by {
                    let j = keyed::lemma_index_of(out.rows@, k);
                    assert(self.rows_view().contains_key((out.rows@[j].0 + r1) as u32));
                    assert(out.rows_view()[k] == out.rows@[j].1@);
                    assert(out.rows@[j].0 == k);
                }
            }
            assert forall|r: u32| #[trigger] out.rows_view().contains_key(r) implies r < (if r2 >= r1 { r2 - r1 + 1 } else { 1 }) by {
                let j = keyed::lemma_index_of(out.rows@, r);
            }
            assert forall|r: u32, c: u32| #[trigger] out.rows_view().contains_key(r) && #[trigger] out.rows_view()[r].cells.contains_key(c) implies c < (if c2 >= c1 { c2 - c1 + 1 } else { 1 }) by {
                let j = keyed::lemma_index_of(out.rows@, r);
                assert(out.rows@[j].1.wf());
                let q = keyed::lemma_index_of(out.rows@[j].1.cells@, c);
            }
        }
        let ghost out_rows = out.rows;
        out.col_widths = window_widths(&self.col_widths, c1, c2);
        let ghost out_widths = out.col_widths;
        let mut k: usize = 0;
        proof {
            assert(self.merges@.take(0) =~= Seq::<Merge>::empty());
        }
        while k < self.merges.len()
            invariant
                k <= self.merges@.len(),
                out.merges@ == window_merges(self.merges@.take(k as int), r1, c1, r2, c2),
                forall|i: int| 0 <= i < self.merges@.len() && r1 <= (#[trigger] self.merges@[i]).r1 <= r2 && c1 <= self.merges@[i].c1 <= c2
                    ==> self.merges@[i].r2 >= r1 && self.merges@[i].c2 >= c1,
                out.rows == out_rows,
                out.col_widths == out_widths,
                out.show_grid == self.show_grid,
                out.row_merges@.len() == 0,
                out.col_merges@.len() == 0,
                out.names@.len() == 0,
                out.drawings@.len() == 0,
                out.row_groups@.len() == 0,
                out.params@.len() == 0,
            decreases self.merges@.len() - k,
        {
            let m = self.merges[k];
            proof {
                assert(self.merges@.take(k + 1).drop_last() =~= self.merges@.take(k as int));
            }
            if r1 <= m.r1 && m.r1 <= r2 && c1 <= m.c1 && m.c1 <= c2 {
                let er2 = if m.r2 < r2 { m.r2 } else { r2 };
                let ec2 = if m.c2 < c2 { m.c2 } else { c2 };
                out.merges.push(Merge { r1: m.r1 - r1, c1: m.c1 - c1, r2: er2 - r1, c2: ec2 - c1, unmerge: m.unmerge });
            }
            k = k + 1;
        }
        proof {
            assert(self.merges@.take(self.merges@.len() as int) =~= self.merges@);
        }
        out.height = if r2 >= r1 { r2 - r1 + 1 } else { 1 };
        out.width = if c2 >= c1 { c2 - c1 + 1 } else { 1 };
        out
    }
}

} // verus!
