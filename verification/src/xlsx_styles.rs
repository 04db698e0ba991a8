//! Cell styles of the XLSX export: fonts, fills, borders and the `<xf>`
//! records, collected while the sheet is written.

use vstd::prelude::*;
use crate::format::{concat, intern_at, lemma_concat_step, lemma_first_index, lemma_take_all};
use crate::model::{CellData, CellView, Color, HAlign, VAlign};
use crate::text::{push_digits, push_int, push_str, spec_int, str_eq};
use crate::xlsx_text::{escaped, push_escaped, push_rgb, push_xml_header, rgb_text, xml_header};

verus! {

/// `horizontal` of an `<xf>`: `Авто` and `Лево` are both `left`.
#[derive(Debug, Clone, Copy, PartialEq, Eq, Structural)]
pub enum HPos {
    Left,
    Center,
    Right,
}

/// `vertical` of an `<xf>`, or none.
#[derive(Debug, Clone, Copy, PartialEq, Eq, Structural)]
pub enum VPos {
    Unset,
    Top,
    Center,
    Bottom,
}

pub open spec fn hpos(a: Option<HAlign>) -> HPos {
    match a {
        Some(HAlign::Center) => HPos::Center,
        Some(HAlign::Right) => HPos::Right,
        _ => HPos::Left,
    }
}

pub open spec fn vpos(a: Option<VAlign>) -> VPos {
    match a {
        Some(VAlign::Center) => VPos::Center,
        Some(VAlign::Bottom) => VPos::Bottom,
        Some(VAlign::Top) => VPos::Top,
        None => VPos::Unset,
    }
}

/// The look of one cell: font, fill and border numbers and alignment.
#[derive(Debug, Clone, Copy, PartialEq, Eq, Structural)]
pub struct CellStyle {
    pub font: u128,
    pub fill: u128,
    pub border: u128,
    pub h: HPos,
    pub v: VPos,
    pub wrap: bool,
}

pub struct XlsxFontView {
    pub face: Seq<char>,
    pub size: i64,
    pub bold: bool,
    pub italic: bool,
    pub underline: bool,
    pub strikeout: bool,
    pub color: Option<Color>,
}

/// A workbook font: the text color lives inside it.
#[derive(Debug)]
pub struct XlsxFont {
    pub face: String,
    pub size: i64,
    pub bold: bool,
    pub italic: bool,
    pub underline: bool,
    pub strikeout: bool,
    pub color: Option<Color>,
}

impl View for XlsxFont {
    type V = XlsxFontView;

    open spec fn view(&self) -> XlsxFontView {
        XlsxFontView {
            face: self.face@,
            size: self.size,
            bold: self.bold,
            italic: self.italic,
            underline: self.underline,
            strikeout: self.strikeout,
            color: self.color,
        }
    }
}

/// The platform's default: Arial, 8 points.
pub open spec fn default_font() -> XlsxFontView {
    XlsxFontView {
        face: "Arial"@,
        size: 8,
        bold: false,
        italic: false,
        underline: false,
        strikeout: false,
        color: None,
    }
}

impl XlsxFont {
    pub fn default_font() -> (f: XlsxFont)
        ensures
            f@ == default_font(),
    {
        XlsxFont {
            face: "Arial".to_owned(),
            size: 8,
            bold: false,
            italic: false,
            underline: false,
            strikeout: false,
            color: None,
        }
    }

    pub fn same(&self, other: &XlsxFont) -> (r: bool)
        ensures
            r == (self@ == other@),
    {
        str_eq(self.face.as_str(), other.face.as_str()) && self.size == other.size && self.bold == other.bold
            && self.italic == other.italic && self.underline == other.underline && self.strikeout == other.strikeout
            && self.color == other.color
    }
}

pub struct BookView {
    pub fonts: Seq<XlsxFontView>,
    pub fills: Seq<Color>,
    pub borders: Seq<(bool, bool, bool, bool)>,
    pub styles: Seq<CellStyle>,
    pub plain: Option<u128>,
}

/// The palettes of the workbook.
#[derive(Debug)]
pub struct StyleBook {
    pub fonts: Vec<XlsxFont>,
    /// Background colors; the two mandatory fills `none` and `gray125` come
    /// before them.
    pub fills: Vec<Color>,
    /// Which of the four sides (left, right, top, bottom) a border has.
    pub borders: Vec<(bool, bool, bool, bool)>,
    pub styles: Vec<CellStyle>,
    /// The style of a cell without any look, once there is one.
    pub plain: Option<u128>,
}

impl View for StyleBook {
    type V = BookView;

    open spec fn view(&self) -> BookView {
        BookView {
            fonts: self.fonts@.map_values(|f: XlsxFont| f@),
            fills: self.fills@,
            borders: self.borders@,
            styles: self.styles@,
            plain: self.plain,
        }
    }
}

/// The cell has no look of its own.
pub open spec fn unformatted(c: CellView) -> bool {
    &&& c.font is None
    &&& c.text_color is None
    &&& c.back_color is None
    &&& c.h_align is None
    &&& c.v_align is None
    &&& !c.wrap
    &&& c.border_left is None
    &&& c.border_top is None
    &&& c.border_right is None
    &&& c.border_bottom is None
}

pub open spec fn cell_font(c: CellView) -> XlsxFontView {
    match c.font {
        Some(f) => XlsxFontView {
            face: f.face,
            size: f.size,
            bold: f.bold,
            italic: f.italic,
            underline: f.underline,
            strikeout: f.strikeout,
            color: c.text_color,
        },
        None => XlsxFontView { color: c.text_color, ..default_font() },
    }
}

pub open spec fn cell_sides(c: CellView) -> (bool, bool, bool, bool) {
    (c.border_left is Some, c.border_right is Some, c.border_top is Some, c.border_bottom is Some)
}

/// The style number of a cell (from 1; 0 is "no look"), and the book after
/// it: equal looks share a style, font, fill and border. The style of the
/// first cell without any look is remembered as the plain one.
pub open spec fn book_intern(b: BookView, c: CellView) -> (BookView, int) {
    if unformatted(c) && b.plain is Some {
        (b, b.plain->0 as int)
    } else {
        let fi = intern_at(b.fonts, cell_font(c));
        let fl = match c.back_color {
            Some(col) => (intern_at(b.fills, col).0, intern_at(b.fills, col).1 + 2),
            None => (b.fills, 0int),
        };
        let sides = cell_sides(c);
        let bd = if sides == (false, false, false, false) {
            (b.borders, 0int)
        } else {
            (intern_at(b.borders, sides).0, intern_at(b.borders, sides).1 + 1)
        };
        let style = CellStyle {
            font: fi.1 as u128,
            fill: fl.1 as u128,
            border: bd.1 as u128,
            h: hpos(c.h_align),
            v: vpos(c.v_align),
            wrap: c.wrap,
        };
        let si = intern_at(b.styles, style);
        let n = si.1 + 1;
        let plain = if unformatted(c) && b.plain is None {
            Some(n as u128)
        } else {
            b.plain
        };
        (BookView { fonts: fi.0, fills: fl.0, borders: bd.0, styles: si.0, plain }, n)
    }
}

proof fn lemma_not_contains<T>(s: Seq<T>, x: T)
    requires
        forall|j: int| 0 <= j < s.len() ==> s[j] != x,
    ensures
        !s.contains(x),
{
    if s.contains(x) {
        let k = choose|k: int| 0 <= k < s.len() && s[k] == x;
        assert(s[k] != x);
    }
}

impl StyleBook {
    pub fn new() -> (b: StyleBook)
        ensures
            b@.fonts == Seq::<XlsxFontView>::empty(),
            b@.fills == Seq::<Color>::empty(),
            b@.borders == Seq::<(bool, bool, bool, bool)>::empty(),
            b@.styles == Seq::<CellStyle>::empty(),
            b@.plain is None,
    {
        let b = StyleBook { fonts: Vec::new(), fills: Vec::new(), borders: Vec::new(), styles: Vec::new(), plain: None };
        proof {
            assert(b@.fonts =~= Seq::<XlsxFontView>::empty());
        }
        b
    }

    fn intern_font(&mut self, f: XlsxFont) -> (i: usize)
        ensures
            final(self)@.fonts == intern_at(old(self)@.fonts, f@).0,
            i == intern_at(old(self)@.fonts, f@).1,
            final(self).fills == old(self).fills,
            final(self).borders == old(self).borders,
            final(self).styles == old(self).styles,
            final(self).plain == old(self).plain,
    {
        let ghost s = self@.fonts;
        let mut i: usize = 0;
        while i < self.fonts.len()
            invariant
                s == self@.fonts,
                self@ == old(self)@,
                self.fills == old(self).fills,
                self.borders == old(self).borders,
                self.styles == old(self).styles,
                self.plain == old(self).plain,
                i <= s.len(),
                forall|j: int| 0 <= j < i ==> s[j] != f@,
            decreases s.len() - i,
        {
            if self.fonts[i].same(&f) {
                proof {
                    lemma_first_index(s, f@, i as int);
                }
                return i;
            }
            i = i + 1;
        }
        proof {
            lemma_not_contains(s, f@);
        }
        let n = self.fonts.len();
        self.fonts.push(f);
        proof {
            assert(self@.fonts =~= s.push(f@));
        }
        n
    }

    fn intern_fill(&mut self, c: Color) -> (i: usize)
        ensures
            final(self)@.fills == intern_at(old(self)@.fills, c).0,
            i == intern_at(old(self)@.fills, c).1,
            final(self).fonts == old(self).fonts,
            final(self).borders == old(self).borders,
            final(self).styles == old(self).styles,
            final(self).plain == old(self).plain,
    {
        let ghost s = self.fills@;
        let mut i: usize = 0;
        while i < self.fills.len()
            invariant
                s == self.fills@,
                s == old(self).fills@,
                self.fonts == old(self).fonts,
                self.borders == old(self).borders,
                self.styles == old(self).styles,
                self.plain == old(self).plain,
                i <= s.len(),
                forall|j: int| 0 <= j < i ==> s[j] != c,
            decreases s.len() - i,
        {
            if self.fills[i] == c {
                proof {
                    lemma_first_index(s, c, i as int);
                }
                return i;
            }
            i = i + 1;
        }
        proof {
            lemma_not_contains(s, c);
        }
        let n = self.fills.len();
        self.fills.push(c);
        n
    }

    fn intern_border(&mut self, b: (bool, bool, bool, bool)) -> (i: usize)
        ensures
            final(self)@.borders == intern_at(old(self)@.borders, b).0,
            i == intern_at(old(self)@.borders, b).1,
            final(self).fonts == old(self).fonts,
            final(self).fills == old(self).fills,
            final(self).styles == old(self).styles,
            final(self).plain == old(self).plain,
    {
        let ghost s = self.borders@;
        let mut i: usize = 0;
        while i < self.borders.len()
            invariant
                s == self.borders@,
                s == old(self).borders@,
                self.fonts == old(self).fonts,
                self.fills == old(self).fills,
                self.styles == old(self).styles,
                self.plain == old(self).plain,
                i <= s.len(),
                forall|j: int| 0 <= j < i ==> s[j] != b,
            decreases s.len() - i,
        {
            let x = self.borders[i];
            if x.0 == b.0 && x.1 == b.1 && x.2 == b.2 && x.3 == b.3 {
                proof {
                    lemma_first_index(s, b, i as int);
                }
                return i;
            }
            i = i + 1;
        }
        proof {
            lemma_not_contains(s, b);
        }
        let n = self.borders.len();
        self.borders.push(b);
        n
    }

    fn intern_style(&mut self, st: CellStyle) -> (i: usize)
        ensures
            final(self)@.styles == intern_at(old(self)@.styles, st).0,
            i == intern_at(old(self)@.styles, st).1,
            final(self).fonts == old(self).fonts,
            final(self).fills == old(self).fills,
            final(self).borders == old(self).borders,
            final(self).plain == old(self).plain,
    {
        let ghost s = self.styles@;
        let mut i: usize = 0;
        while i < self.styles.len()
            invariant
                s == self.styles@,
                s == old(self).styles@,
                self.fonts == old(self).fonts,
                self.fills == old(self).fills,
                self.borders == old(self).borders,
                self.plain == old(self).plain,
                i <= s.len(),
                forall|j: int| 0 <= j < i ==> s[j] != st,
            decreases s.len() - i,
        {
            if self.styles[i] == st {
                proof {
                    lemma_first_index(s, st, i as int);
                }
                return i;
            }
            i = i + 1;
        }
        proof {
            lemma_not_contains(s, st);
        }
        let n = self.styles.len();
        self.styles.push(st);
        n
    }

    /// The style number of a cell. Zero is kept for "no look", as the
    /// platform does: its cells start from one.
    pub fn intern(&mut self, cell: &CellData) -> (n: u128)
        ensures
            (final(self)@, n as int) == book_intern(old(self)@, cell@),
    {
        let bare = cell.font.is_none() && cell.text_color.is_none() && cell.back_color.is_none()
            && cell.h_align.is_none() && cell.v_align.is_none() && !cell.wrap && cell.border_left.is_none()
            && cell.border_top.is_none() && cell.border_right.is_none() && cell.border_bottom.is_none();
        if bare {
            if let Some(ready) = self.plain {
                return ready;
            }
        }
        let ghost b0 = self@;
        let ghost c = cell@;
        let mut font = XlsxFont::default_font();
        if let Some(f) = &cell.font {
            font.face = f.face.clone();
            font.size = f.size;
            font.bold = f.bold;
            font.italic = f.italic;
            font.underline = f.underline;
            font.strikeout = f.strikeout;
        }
        font.color = cell.text_color;
        proof {
            assert(font@ == cell_font(c));
        }
        let fi = self.intern_font(font);
        let fill: u128 = match cell.back_color {
            Some(col) => {
                let k = self.intern_fill(col);
                k as u128 + 2
            },
            None => 0,
        };
        let sides = (
            cell.border_left.is_some(),
            cell.border_right.is_some(),
            cell.border_top.is_some(),
            cell.border_bottom.is_some(),
        );
        let border: u128 = if !sides.0 && !sides.1 && !sides.2 && !sides.3 {
            0
        } else {
            let k = self.intern_border(sides);
            k as u128 + 1
        };
        let h = match cell.h_align {
            Some(HAlign::Center) => HPos::Center,
            Some(HAlign::Right) => HPos::Right,
            _ => HPos::Left,
        };
        let v = match cell.v_align {
            Some(VAlign::Center) => VPos::Center,
            Some(VAlign::Bottom) => VPos::Bottom,
            Some(VAlign::Top) => VPos::Top,
            None => VPos::Unset,
        };
        let style = CellStyle { font: fi as u128, fill, border, h, v, wrap: cell.wrap };
        let si = self.intern_style(style);
        let n = si as u128 + 1;
        if bare && self.plain.is_none() {
            self.plain = Some(n);
        }
        proof {
            assert(self@ =~= book_intern(b0, c).0);
        }
        n
    }
}

// --- styles.xml ----------------------------------------------------------------------

/// Appends a natural number in decimal.
pub fn push_nat(out: &mut String, n: u128)
    ensures
        final(out)@ == old(out)@ + spec_int(n as int),
{
    push_digits(out, n);
}

/// `true` or `false`, as Rust prints a `bool`.
pub open spec fn bool_text(b: bool) -> Seq<char> {
    if b {
        "true"@
    } else {
        "false"@
    }
}

pub fn push_bool(out: &mut String, b: bool)
    ensures
        final(out)@ == old(out)@ + bool_text(b),
{
    if b {
        push_str(out, "true");
    } else {
        push_str(out, "false");
    }
}

pub open spec fn font_head_xml(f: XlsxFontView) -> Seq<char> {
    "<font><name val=\""@ + escaped(f.face) + "\"/><charset val=\"0\"/><family val=\"2\"/><b val=\""@ + bool_text(
        f.bold,
    ) + "\"/><i val=\""@ + bool_text(f.italic) + "\"/><strike val=\""@ + bool_text(f.strikeout) + "\"/>"@
}

pub open spec fn font_tail_xml(f: XlsxFontView) -> Seq<char> {
    (match f.color {
        Some(c) => "<color rgb=\""@ + rgb_text(c) + "\"/>"@,
        None => Seq::empty(),
    }) + "<sz val=\""@ + spec_int(f.size as int) + "\"/><u val=\""@ + (if f.underline {
        "single"@
    } else {
        "none"@
    }) + "\"/></font>"@
}

pub open spec fn font_xml(f: XlsxFontView) -> Seq<char> {
    font_head_xml(f) + font_tail_xml(f)
}

fn push_font_head(out: &mut String, f: &XlsxFont)
    ensures
        final(out)@ == old(out)@ + font_head_xml(f@),
{
    push_str(out, "<font><name val=\"");
    push_escaped(out, f.face.as_str());
    push_str(out, "\"/><charset val=\"0\"/><family val=\"2\"/><b val=\"");
    push_bool(out, f.bold);
    push_str(out, "\"/><i val=\"");
    push_bool(out, f.italic);
    push_str(out, "\"/><strike val=\"");
    push_bool(out, f.strikeout);
    push_str(out, "\"/>");
    proof {
        assert(final(out)@ =~= old(out)@ + font_head_xml(f@));
    }
}

fn push_font_tail(out: &mut String, f: &XlsxFont)
    ensures
        final(out)@ == old(out)@ + font_tail_xml(f@),
{
    if let Some(c) = f.color {
        push_str(out, "<color rgb=\"");
        push_rgb(out, c);
        push_str(out, "\"/>");
    }
    let ghost mid = out@;
    push_str(out, "<sz val=\"");
    push_int(out, f.size as i128);
    push_str(out, "\"/><u val=\"");
    if f.underline {
        push_str(out, "single");
    } else {
        push_str(out, "none");
    }
    push_str(out, "\"/></font>");
    proof {
        assert(final(out)@ =~= old(out)@ + font_tail_xml(f@));
    }
}

pub open spec fn fonts_xml(fonts: Seq<XlsxFontView>) -> Seq<char> {
    let list = if fonts.len() == 0 {
        seq![default_font()]
    } else {
        fonts
    };
    "<fonts count=\""@ + spec_int(list.len() as int) + "\">"@ + concat(Seq::new(list.len(), |i: int| font_xml(list[i])))
        + "</fonts>"@
}

fn push_fonts_xml(out: &mut String, book: &StyleBook)
    ensures
        final(out)@ == old(out)@ + fonts_xml(book@.fonts),
{
    let mut list: Vec<XlsxFont> = Vec::new();
    let mut k: usize = 0;
    while k < book.fonts.len()
        invariant
            k <= book.fonts@.len(),
            list@.map_values(|f: XlsxFont| f@) == book@.fonts.take(k as int),
        decreases book.fonts@.len() - k,
    {
        let f = &book.fonts[k];
        let g = XlsxFont { face: f.face.clone(), size: f.size, bold: f.bold, italic: f.italic, underline: f.underline, strikeout: f.strikeout, color: f.color };
        let ghost prev = list@;
        proof {
            assert(g@ == book@.fonts[k as int]);
        }
        list.push(g);
        proof {
            assert(list@ == prev.push(g));
            assert(book@.fonts.take(k + 1) =~= book@.fonts.take(k as int).push(g@));
            assert(list@.map_values(|f: XlsxFont| f@) =~= prev.map_values(|f: XlsxFont| f@).push(g@));
        }
        k = k + 1;
    }
    if list.len() == 0 {
        list.push(XlsxFont::default_font());
    }
    let ghost fl = list@.map_values(|f: XlsxFont| f@);
    proof {
        if book.fonts@.len() == 0 {
            assert(fl =~= seq![default_font()]);
        } else {
            assert(book@.fonts.take(book.fonts@.len() as int) =~= book@.fonts);
        }
    }
    let ghost parts = Seq::new(fl.len(), |i: int| font_xml(fl[i]));
    push_str(out, "<fonts count=\"");
    push_int(out, list.len() as i128);
    push_str(out, "\">");
    let ghost start = out@;
    let mut i: usize = 0;
    while i < list.len()
        invariant
            fl == list@.map_values(|f: XlsxFont| f@),
            parts == Seq::new(fl.len(), |i: int| font_xml(fl[i])),
            i <= fl.len(),
            out@ == start + concat(parts.take(i as int)),
        decreases fl.len() - i,
    {
        let ghost before = out@;
        push_font_head(out, &list[i]);
        push_font_tail(out, &list[i]);
        proof {
            assert(out@ =~= before + parts[i as int]);
            lemma_concat_step(parts, i as int);
        }
        i = i + 1;
    }
    push_str(out, "</fonts>");
    proof {
        lemma_take_all(parts);
        assert(final(out)@ =~= old(out)@ + fonts_xml(book@.fonts));
    }
}

pub open spec fn fill_xml(c: Color) -> Seq<char> {
    "<fill><patternFill patternType=\"solid\"><fgColor rgb=\""@ + rgb_text(c)
        + "\"/><bgColor auto=\"true\"/></patternFill></fill>"@
}

pub open spec fn fills_xml(fills: Seq<Color>) -> Seq<char> {
    "<fills count=\""@ + spec_int(fills.len() as int + 2) + "\">"@ + "<fill><patternFill patternType=\"none\"/></fill>"@
        + "<fill><patternFill patternType=\"gray125\"/></fill>"@ + concat(
        Seq::new(fills.len(), |i: int| fill_xml(fills[i])),
    ) + "</fills>"@
}

fn push_fills_xml(out: &mut String, fills: &Vec<Color>)
    ensures
        final(out)@ == old(out)@ + fills_xml(fills@),
{
    let ghost parts = Seq::new(fills@.len(), |i: int| fill_xml(fills@[i]));
    push_str(out, "<fills count=\"");
    push_int(out, fills.len() as i128 + 2);
    push_str(out, "\">");
    push_str(out, "<fill><patternFill patternType=\"none\"/></fill>");
    push_str(out, "<fill><patternFill patternType=\"gray125\"/></fill>");
    let ghost start = out@;
    let mut i: usize = 0;
    while i < fills.len()
        invariant
            parts == Seq::new(fills@.len(), |i: int| fill_xml(fills@[i])),
            i <= fills@.len(),
            out@ == start + concat(parts.take(i as int)),
        decreases fills@.len() - i,
    {
        let ghost before = out@;
        push_str(out, "<fill><patternFill patternType=\"solid\"><fgColor rgb=\"");
        push_rgb(out, fills[i]);
        push_str(out, "\"/><bgColor auto=\"true\"/></patternFill></fill>");
        proof {
            assert(out@ =~= before + parts[i as int]);
            lemma_concat_step(parts, i as int);
        }
        i = i + 1;
    }
    push_str(out, "</fills>");
    proof {
        lemma_take_all(parts);
        assert(final(out)@ =~= old(out)@ + fills_xml(fills@));
    }
}

pub open spec fn border_xml(b: (bool, bool, bool, bool)) -> Seq<char> {
    "<border>"@ + (if b.0 {
        "<left style=\"thin\"><color rgb=\"000000\"/></left>"@
    } else {
        "<left/>"@
    }) + (if b.1 {
        "<right style=\"thin\"><color rgb=\"000000\"/></right>"@
    } else {
        "<right/>"@
    }) + (if b.2 {
        "<top style=\"thin\"><color rgb=\"000000\"/></top>"@
    } else {
        "<top/>"@
    }) + (if b.3 {
        "<bottom style=\"thin\"><color rgb=\"000000\"/></bottom>"@
    } else {
        "<bottom/>"@
    }) + "<diagonal/></border>"@
}

pub open spec fn borders_xml(bs: Seq<(bool, bool, bool, bool)>) -> Seq<char> {
    "<borders count=\""@ + spec_int(bs.len() as int + 1) + "\">"@ + "<border><left/><right/><top/><bottom/><diagonal/></border>"@
        + concat(Seq::new(bs.len(), |i: int| border_xml(bs[i]))) + "</borders>"@
}

fn push_border(out: &mut String, b: (bool, bool, bool, bool))
    ensures
        final(out)@ == old(out)@ + border_xml(b),
{
    push_str(out, "<border>");
    if b.0 {
        push_str(out, "<left style=\"thin\"><color rgb=\"000000\"/></left>");
    } else {
        push_str(out, "<left/>");
    }
    if b.1 {
        push_str(out, "<right style=\"thin\"><color rgb=\"000000\"/></right>");
    } else {
        push_str(out, "<right/>");
    }
    if b.2 {
        push_str(out, "<top style=\"thin\"><color rgb=\"000000\"/></top>");
    } else {
        push_str(out, "<top/>");
    }
    if b.3 {
        push_str(out, "<bottom style=\"thin\"><color rgb=\"000000\"/></bottom>");
    } else {
        push_str(out, "<bottom/>");
    }
    push_str(out, "<diagonal/></border>");
    proof {
        assert(final(out)@ =~= old(out)@ + border_xml(b));
    }
}

fn push_borders_xml(out: &mut String, bs: &Vec<(bool, bool, bool, bool)>)
    ensures
        final(out)@ == old(out)@ + borders_xml(bs@),
{
    let ghost parts = Seq::new(bs@.len(), |i: int| border_xml(bs@[i]));
    push_str(out, "<borders count=\"");
    push_int(out, bs.len() as i128 + 1);
    push_str(out, "\">");
    push_str(out, "<border><left/><right/><top/><bottom/><diagonal/></border>");
    let ghost start = out@;
    let mut i: usize = 0;
    while i < bs.len()
        invariant
            parts == Seq::new(bs@.len(), |i: int| border_xml(bs@[i])),
            i <= bs@.len(),
            out@ == start + concat(parts.take(i as int)),
        decreases bs@.len() - i,
    {
        push_border(out, bs[i]);
        proof {
            lemma_concat_step(parts, i as int);
        }
        i = i + 1;
    }
    push_str(out, "</borders>");
    proof {
        lemma_take_all(parts);
        assert(final(out)@ =~= old(out)@ + borders_xml(bs@));
    }
}

pub open spec fn opt_text(b: bool, t: Seq<char>) -> Seq<char> {
    if b {
        t
    } else {
        Seq::empty()
    }
}

/// The ids and the `apply*` flags of an `<xf>`.
pub open spec fn xf_head(s: CellStyle) -> Seq<char> {
    "<xf numFmtId=\"0\" fontId=\""@ + spec_int(s.font as int) + "\""@ + opt_text(
        s.fill > 0,
        " fillId=\""@ + spec_int(s.fill as int) + "\""@,
    ) + opt_text(s.border > 0, " borderId=\""@ + spec_int(s.border as int) + "\""@) + opt_text(
        s.font > 0,
        " applyFont=\"true\""@,
    ) + opt_text(s.fill > 0, " applyFill=\"true\""@) + opt_text(s.border > 0, " applyBorder=\"true\""@)
}

pub open spec fn h_name(h: HPos) -> Seq<char> {
    match h {
        HPos::Left => "left"@,
        HPos::Center => "center"@,
        HPos::Right => "right"@,
    }
}

pub open spec fn v_name(v: VPos) -> Seq<char> {
    match v {
        VPos::Unset => Seq::empty(),
        VPos::Top => "top"@,
        VPos::Center => "center"@,
        VPos::Bottom => "bottom"@,
    }
}

/// The alignment of an `<xf>`.
pub open spec fn xf_tail(s: CellStyle) -> Seq<char> {
    " applyAlignment=\"true\"><alignment"@ + " horizontal=\""@ + h_name(s.h) + "\""@ + opt_text(
        s.v != VPos::Unset,
        " vertical=\""@ + v_name(s.v) + "\""@,
    ) + opt_text(s.wrap, " wrapText=\"1\""@) + "/></xf>"@
}

fn push_apply_flags(out: &mut String, s: CellStyle)
    ensures
        final(out)@ == old(out)@ + opt_text(s.font > 0, " applyFont=\"true\""@) + opt_text(s.fill > 0, " applyFill=\"true\""@)
            + opt_text(s.border > 0, " applyBorder=\"true\""@),
{
    let ghost c = out@;
    if s.font > 0 {
        push_str(out, " applyFont=\"true\"");
    }
    let ghost d = out@;
    if s.fill > 0 {
        push_str(out, " applyFill=\"true\"");
    }
    let ghost e = out@;
    if s.border > 0 {
        push_str(out, " applyBorder=\"true\"");
    }
    proof {
        assert(d =~= c + opt_text(s.font > 0, " applyFont=\"true\""@));
        assert(e =~= d + opt_text(s.fill > 0, " applyFill=\"true\""@));
        assert(out@ =~= e + opt_text(s.border > 0, " applyBorder=\"true\""@));
    }
}

fn push_opt_id(out: &mut String, on: bool, label: &str, n: u128)
    ensures
        final(out)@ == old(out)@ + opt_text(on, label@ + spec_int(n as int) + "\""@),
{
    let ghost a = out@;
    if on {
        push_str(out, label);
        push_nat(out, n);
        push_str(out, "\"");
    }
    proof {
        assert(out@ =~= a + opt_text(on, label@ + spec_int(n as int) + "\""@));
    }
}

#[verifier::spinoff_prover]
fn push_xf_head(out: &mut String, s: CellStyle)
    ensures
        final(out)@ == old(out)@ + xf_head(s),
{
    push_str(out, "<xf numFmtId=\"0\" fontId=\"");
    push_nat(out, s.font);
    push_str(out, "\"");
    let ghost a = out@;
    push_opt_id(out, s.fill > 0, " fillId=\"", s.fill);
    let ghost b = out@;
    push_opt_id(out, s.border > 0, " borderId=\"", s.border);
    let ghost c = out@;
    push_apply_flags(out, s);
    proof {
        assert(final(out)@ =~= old(out)@ + xf_head(s));
    }
}

fn push_xf_tail(out: &mut String, s: CellStyle)
    ensures
        final(out)@ == old(out)@ + xf_tail(s),
{
    push_str(out, " applyAlignment=\"true\"><alignment");
    push_str(out, " horizontal=\"");
    match s.h {
        HPos::Left => push_str(out, "left"),
        HPos::Center => push_str(out, "center"),
        HPos::Right => push_str(out, "right"),
    }
    push_str(out, "\"");
    let ghost a = out@;
    if s.v != VPos::Unset {
        push_str(out, " vertical=\"");
        match s.v {
            VPos::Top => push_str(out, "top"),
            VPos::Center => push_str(out, "center"),
            VPos::Bottom => push_str(out, "bottom"),
            VPos::Unset => {},
        }
        push_str(out, "\"");
    }
    proof {
        assert(out@ =~= a + opt_text(s.v != VPos::Unset, " vertical=\""@ + v_name(s.v) + "\""@));
    }
    if s.wrap {
        push_str(out, " wrapText=\"1\"");
    }
    push_str(out, "/></xf>");
    proof {
        assert(final(out)@ =~= old(out)@ + xf_tail(s));
    }
}

pub open spec fn xf_xml(s: CellStyle) -> Seq<char> {
    xf_head(s) + xf_tail(s)
}

pub open spec fn xfs_xml(styles: Seq<CellStyle>) -> Seq<char> {
    "<cellStyleXfs count=\"1\"><xf numFmtId=\"0\" fontId=\"0\" fillId=\"0\" borderId=\"0\"/></cellStyleXfs>"@
        + "<cellXfs count=\""@ + spec_int(styles.len() as int + 1) + "\">"@ + "<xf numFmtId=\"0\" fontId=\"0\"/>"@ + concat(
        Seq::new(styles.len(), |i: int| xf_xml(styles[i])),
    ) + "</cellXfs>"@
}

fn push_xfs_xml(out: &mut String, styles: &Vec<CellStyle>)
    ensures
        final(out)@ == old(out)@ + xfs_xml(styles@),
{
    let ghost parts = Seq::new(styles@.len(), |i: int| xf_xml(styles@[i]));
    push_str(out, "<cellStyleXfs count=\"1\"><xf numFmtId=\"0\" fontId=\"0\" fillId=\"0\" borderId=\"0\"/></cellStyleXfs>");
    push_str(out, "<cellXfs count=\"");
    push_int(out, styles.len() as i128 + 1);
    push_str(out, "\">");
    push_str(out, "<xf numFmtId=\"0\" fontId=\"0\"/>");
    let ghost start = out@;
    let mut i: usize = 0;
    while i < styles.len()
        invariant
            parts == Seq::new(styles@.len(), |i: int| xf_xml(styles@[i])),
            i <= styles@.len(),
            out@ == start + concat(parts.take(i as int)),
        decreases styles@.len() - i,
    {
        let ghost before = out@;
        push_xf_head(out, styles[i]);
        push_xf_tail(out, styles[i]);
        proof {
            assert(out@ =~= before + parts[i as int]);
            lemma_concat_step(parts, i as int);
        }
        i = i + 1;
    }
    push_str(out, "</cellXfs>");
    proof {
        lemma_take_all(parts);
        assert(final(out)@ =~= old(out)@ + xfs_xml(styles@));
    }
}

/// `styles.xml`. Without this part the platform does not open the file
/// at all.
pub open spec fn styles_text(b: BookView) -> Seq<char> {
    xml_header() + "<styleSheet xmlns=\"http://schemas.openxmlformats.org/spreadsheetml/2006/main\">"@ + fonts_xml(b.fonts)
        + fills_xml(b.fills) + borders_xml(b.borders) + xfs_xml(b.styles)
        + "<cellStyles count=\"1\"><cellStyle name=\"Обычный\" xfId=\"0\" builtinId=\"0\"/></cellStyles>"@
        + "<dxfs count=\"0\"/>"@ + "</styleSheet>"@
}

pub fn styles(book: &StyleBook) -> (s: String)
    ensures
        s@ == styles_text(book@),
{
    let mut out = String::new();
    push_xml_header(&mut out);
    push_str(&mut out, "<styleSheet xmlns=\"http://schemas.openxmlformats.org/spreadsheetml/2006/main\">");
    push_fonts_xml(&mut out, book);
    push_fills_xml(&mut out, &book.fills);
    push_borders_xml(&mut out, &book.borders);
    push_xfs_xml(&mut out, &book.styles);
    push_str(&mut out, "<cellStyles count=\"1\"><cellStyle name=\"Обычный\" xfId=\"0\" builtinId=\"0\"/></cellStyles>");
    push_str(&mut out, "<dxfs count=\"0\"/>");
    push_str(&mut out, "</styleSheet>");
    proof {
        assert(out@ =~= styles_text(book@));
    }
    out
}

} // verus!
