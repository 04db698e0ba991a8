//! Formats and palettes of the MXL file, and the small records that go
//! into it.
//!
//! A format is not a record with fixed fields but a set of "bit and value"
//! pairs: `{257,0,6}` is the font (bit 1) with value 0 and the horizontal
//! alignment (bit 256) with value 6 in ONE palette entry. Palettes hand out
//! indices in the order their entries are first used, and equal entries are
//! shared.

use vstd::prelude::*;
use crate::model::{CellData, CellView, Color, Font, FontView, HAlign, Line, LineStyle, VAlign};
use crate::text::{push_char, push_int, push_str, spec_int};

verus! {

// --- joining pieces of text ------------------------------------------------

/// The pieces one after another.
pub open spec fn concat(parts: Seq<Seq<char>>) -> Seq<char>
    decreases parts.len(),
{
    if parts.len() == 0 {
        Seq::empty()
    } else {
        concat(parts.drop_last()) + parts.last()
    }
}

/// The pieces with `sep` between neighbours.
pub open spec fn join(parts: Seq<Seq<char>>, sep: Seq<char>) -> Seq<char>
    decreases parts.len(),
{
    if parts.len() == 0 {
        Seq::empty()
    } else if parts.len() == 1 {
        parts[0]
    } else {
        join(parts.drop_last(), sep) + sep + parts.last()
    }
}

pub proof fn lemma_concat_step(parts: Seq<Seq<char>>, i: int)
    requires
        0 <= i < parts.len(),
    ensures
        concat(parts.take(i + 1)) == concat(parts.take(i)) + parts[i],
{
    assert(parts.take(i + 1).drop_last() =~= parts.take(i));
}

pub proof fn lemma_join_step(parts: Seq<Seq<char>>, sep: Seq<char>, i: int)
    requires
        0 <= i < parts.len(),
    ensures
        join(parts.take(i + 1), sep) == (if i == 0 {
            parts[0]
        } else {
            join(parts.take(i), sep) + sep + parts[i]
        }),
{
    assert(parts.take(i + 1).drop_last() =~= parts.take(i));
}

pub proof fn lemma_take_all<T>(s: Seq<T>)
    ensures
        s.take(s.len() as int) == s,
{
    assert(s.take(s.len() as int) =~= s);
}

/// Appends `n` in decimal.
pub fn push_num(out: &mut String, n: i128)
    ensures
        final(out)@ == old(out)@ + spec_int(n as int),
{
    push_int(out, n);
}

// --- format bits -------------------------------------------------------------

/// Index in the font palette.
pub const FONT: u32 = 1;
/// Indices in the line palette.
pub const BORDER_LEFT: u32 = 2;
pub const BORDER_TOP: u32 = 4;
pub const BORDER_RIGHT: u32 = 8;
pub const BORDER_BOTTOM: u32 = 16;
/// Row height, in quarter points.
pub const ROW_HEIGHT: u32 = 64;
/// Column width, in eighths of a character.
pub const COL_WIDTH: u32 = 128;
pub const H_ALIGN: u32 = 256;
pub const V_ALIGN: u32 = 512;
/// Indices in the color palette.
pub const TEXT_COLOR: u32 = 1024;
pub const BACK_COLOR: u32 = 2048;
pub const TEXT_PLACEMENT: u32 = 16384;
/// The row is hidden: set by a collapsed row group.
pub const ROW_HIDDEN: u32 = 131072;
/// The three bits of a cell with a value; together mask 46137344.
pub const VALUE_A: u32 = 4194304;
pub const VALUE_B: u32 = 8388608;
pub const VALUE_C: u32 = 33554432;

// --- alignment codes -----------------------------------------------------------

pub open spec fn h_code(a: HAlign) -> i64 {
    match a {
        HAlign::Left => 0,
        HAlign::Right => 2,
        HAlign::Auto => 5,
        HAlign::Center => 6,
    }
}

pub open spec fn h_from_code(code: i64) -> Option<HAlign> {
    if code == 0 {
        Some(HAlign::Left)
    } else if code == 2 {
        Some(HAlign::Right)
    } else if code == 5 {
        Some(HAlign::Auto)
    } else if code == 6 {
        Some(HAlign::Center)
    } else {
        None
    }
}

pub open spec fn v_code(a: VAlign) -> i64 {
    match a {
        VAlign::Top => 0,
        VAlign::Bottom => 8,
        VAlign::Center => 24,
    }
}

pub open spec fn v_from_code(code: i64) -> Option<VAlign> {
    if code == 0 {
        Some(VAlign::Top)
    } else if code == 8 {
        Some(VAlign::Bottom)
    } else if code == 24 {
        Some(VAlign::Center)
    } else {
        None
    }
}

impl HAlign {
    /// The code the file stores; not the order of declaration.
    pub fn code(self) -> (c: i64)
        ensures
            c == h_code(self),
    {
        match self {
            HAlign::Left => 0,
            HAlign::Right => 2,
            HAlign::Auto => 5,
            HAlign::Center => 6,
        }
    }

    pub fn from_code(code: i64) -> (r: Option<HAlign>)
        ensures
            r == h_from_code(code),
    {
        if code == 0 {
            Some(HAlign::Left)
        } else if code == 2 {
            Some(HAlign::Right)
        } else if code == 5 {
            Some(HAlign::Auto)
        } else if code == 6 {
            Some(HAlign::Center)
        } else {
            None
        }
    }
}

impl VAlign {
    pub fn code(self) -> (c: i64)
        ensures
            c == v_code(self),
    {
        match self {
            VAlign::Top => 0,
            VAlign::Bottom => 8,
            VAlign::Center => 24,
        }
    }

    pub fn from_code(code: i64) -> (r: Option<VAlign>)
        ensures
            r == v_from_code(code),
    {
        if code == 0 {
            Some(VAlign::Top)
        } else if code == 8 {
            Some(VAlign::Bottom)
        } else if code == 24 {
            Some(VAlign::Center)
        } else {
            None
        }
    }
}

/// Every code maps back to the alignment it came from.
pub proof fn lemma_align_codes(h: HAlign, v: VAlign)
    ensures
        h_from_code(h_code(h)) == Some(h),
        v_from_code(v_code(v)) == Some(v),
{
}

// --- formats -----------------------------------------------------------------

/// How many leading pairs have a bit not above `bit`.
pub open spec fn upto(s: Seq<(u32, i128)>, bit: u32) -> int
    decreases s.len(),
{
    if s.len() == 0 || s[0].0 > bit {
        0
    } else {
        1 + upto(s.drop_first(), bit)
    }
}

pub proof fn lemma_upto_bound(s: Seq<(u32, i128)>, bit: u32)
    ensures
        0 <= upto(s, bit) <= s.len(),
    decreases s.len(),
{
    if s.len() > 0 && s[0].0 <= bit {
        lemma_upto_bound(s.drop_first(), bit);
    }
}

/// The pair joins the format after every pair with a bit not above its own:
/// the order is by bit, and among equal bits by arrival.
pub open spec fn fmt_insert(s: Seq<(u32, i128)>, bit: u32, value: i128) -> Seq<(u32, i128)> {
    s.insert(upto(s, bit), (bit, value))
}

/// The mask of a format: the sum of its bits.
pub open spec fn bit_sum(s: Seq<(u32, i128)>) -> int
    decreases s.len(),
{
    if s.len() == 0 {
        0
    } else {
        bit_sum(s.drop_last()) + s.last().0
    }
}

/// `{mask,value,...}`.
pub open spec fn format_text(s: Seq<(u32, i128)>) -> Seq<char> {
    seq!['{'] + spec_int(bit_sum(s)) + concat(
        Seq::new(s.len(), |i: int| seq![','] + spec_int(s[i].1 as int)),
    ) + seq!['}']
}

/// An element of the format palette.
#[derive(Debug)]
pub struct Format {
    pub pairs: Vec<(u32, i128)>,
}

impl View for Format {
    type V = Seq<(u32, i128)>;

    open spec fn view(&self) -> Seq<(u32, i128)> {
        self.pairs@
    }
}

impl Format {
    pub fn new() -> (f: Format)
        ensures
            f@ == Seq::<(u32, i128)>::empty(),
    {
        Format { pairs: Vec::new() }
    }

    pub fn with(self, bit: u32, value: i128) -> (f: Format)
        ensures
            f@ == fmt_insert(self@, bit, value),
    {
        let mut pairs = self.pairs;
        let ghost s = pairs@;
        let mut k: usize = 0;
        proof {
            assert(s.skip(0) =~= s);
        }
        while k < pairs.len() && pairs[k].0 <= bit
            invariant
                pairs@ == s,
                k <= s.len(),
                upto(s, bit) == k + upto(s.skip(k as int), bit),
            decreases s.len() - k,
        {
            proof {
                assert(s.skip(k as int).drop_first() =~= s.skip(k + 1));
            }
            k = k + 1;
        }
        proof {
            if k < s.len() {
                assert(s.skip(k as int)[0] == s[k as int]);
            }
        }
        pairs.insert(k, (bit, value));
        Format { pairs }
    }

    pub fn is_empty(&self) -> (r: bool)
        ensures
            r == (self@.len() == 0),
    {
        self.pairs.len() == 0
    }

    pub fn same(&self, other: &Format) -> (r: bool)
        ensures
            r == (self@ == other@),
    {
        if self.pairs.len() != other.pairs.len() {
            return false;
        }
        let mut i: usize = 0;
        while i < self.pairs.len()
            invariant
                self@.len() == other@.len(),
                i <= self@.len(),
                forall|j: int| 0 <= j < i ==> self@[j] == other@[j],
            decreases self@.len() - i,
        {
            if self.pairs[i].0 != other.pairs[i].0 || self.pairs[i].1 != other.pairs[i].1 {
                return false;
            }
            i = i + 1;
        }
        proof {
            assert(self@ =~= other@);
        }
        true
    }

    /// Appends `format_text`.
    pub fn push_render(&self, out: &mut String)
        requires
            bit_sum(self@) <= u32::MAX,
        ensures
            final(out)@ == old(out)@ + format_text(self@),
    {
        let ghost s = self@;
        proof {
            lemma_bit_sum_prefix(s);
        }
        let mut mask: u64 = 0;
        let mut i: usize = 0;
        while i < self.pairs.len()
            invariant
                s == self@,
                i <= s.len(),
                mask == bit_sum(s.take(i as int)),
                bit_sum(s) <= u32::MAX,
                forall|k: int| 0 <= k <= s.len() ==> bit_sum(#[trigger] s.take(k)) <= bit_sum(s),
            decreases s.len() - i,
        {
            proof {
                assert(s.take(i + 1).drop_last() =~= s.take(i as int));
            }
            mask = mask + self.pairs[i].0 as u64;
            i = i + 1;
        }
        proof {
            lemma_take_all(s);
        }
        let ghost start = out@;
        push_char(out, '{');
        push_int(out, mask as i128);
        let ghost parts = Seq::new(s.len(), |j: int| seq![','] + spec_int(s[j].1 as int));
        let mut j: usize = 0;
        while j < self.pairs.len()
            invariant
                s == self@,
                parts == Seq::new(s.len(), |j: int| seq![','] + spec_int(s[j].1 as int)),
                j <= s.len(),
                out@ == start + seq!['{'] + spec_int(bit_sum(s)) + concat(parts.take(j as int)),
            decreases s.len() - j,
        {
            push_char(out, ',');
            push_int(out, self.pairs[j].1);
            proof {
                lemma_concat_step(parts, j as int);
                assert(out@ =~= start + seq!['{'] + spec_int(bit_sum(s)) + concat(parts.take(j + 1)));
            }
            j = j + 1;
        }
        push_char(out, '}');
        proof {
            lemma_take_all(parts);
            assert(out@ =~= old(out)@ + format_text(self@));
        }
    }

    pub fn render(&self) -> (r: String)
        requires
            bit_sum(self@) <= u32::MAX,
        ensures
            r@ == format_text(self@),
    {
        let mut out = String::new();
        self.push_render(&mut out);
        proof {
            assert(out@ =~= format_text(self@));
        }
        out
    }
}

/// Prefix sums of a format never exceed the whole (bits are not negative).
pub proof fn lemma_bit_sum_prefix(s: Seq<(u32, i128)>)
    ensures
        forall|k: int| 0 <= k <= s.len() ==> bit_sum(#[trigger] s.take(k)) <= bit_sum(s),
        bit_sum(s) >= 0,
    decreases s.len(),
{
    if s.len() > 0 {
        lemma_bit_sum_prefix(s.drop_last());
        assert forall|k: int| 0 <= k <= s.len() implies bit_sum(#[trigger] s.take(k)) <= bit_sum(s) by {
            if k == s.len() {
                lemma_take_all(s);
            } else {
                assert(s.take(k) =~= s.drop_last().take(k));
            }
        }
    }
}

/// A format of at most `n` pairs, each bit at most `2^25`, has a mask of at
/// most `n * 2^25`.
pub proof fn lemma_bit_sum_bound(s: Seq<(u32, i128)>)
    requires
        forall|j: int| 0 <= j < s.len() ==> #[trigger] s[j].0 <= VALUE_C,
    ensures
        bit_sum(s) <= s.len() * 33554432,
    decreases s.len(),
{
    if s.len() > 0 {
        lemma_bit_sum_bound(s.drop_last());
    }
}

// --- interning ---------------------------------------------------------------

/// The first position of `x` in `s`.
pub open spec fn first_index<T>(s: Seq<T>, x: T) -> int {
    choose|i: int| 0 <= i < s.len() && s[i] == x && forall|j: int| 0 <= j < i ==> s[j] != x
}

/// The palette after using `x`, and the 0-based index `x` has in it: an
/// entry already there is shared, a new one goes to the end.
pub open spec fn intern_at<T>(s: Seq<T>, x: T) -> (Seq<T>, int) {
    if s.contains(x) {
        (s, first_index(s, x))
    } else {
        (s.push(x), s.len() as int)
    }
}

/// A found position is the first one.
pub proof fn lemma_first_index<T>(s: Seq<T>, x: T, i: int)
    requires
        0 <= i < s.len(),
        s[i] == x,
        forall|j: int| 0 <= j < i ==> s[j] != x,
    ensures
        first_index(s, x) == i,
        s.contains(x),
{
    let k = first_index(s, x);
    assert(0 <= k < s.len() && s[k] == x && forall|j: int| 0 <= j < k ==> s[j] != x);
    if k < i {
        assert(s[k] != x);
    }
    if k > i {
        assert(s[i] != x);
    }
}

/// The format palette, 1-based: index 0 means "no format".
pub open spec fn pal_intern(p: Seq<Seq<(u32, i128)>>, f: Seq<(u32, i128)>) -> (Seq<Seq<(u32, i128)>>, int) {
    if f.len() == 0 {
        (p, 0)
    } else {
        (intern_at(p, f).0, intern_at(p, f).1 + 1)
    }
}

/// The format palette of a document.
#[derive(Debug)]
pub struct Palette {
    pub formats: Vec<Format>,
}

impl View for Palette {
    type V = Seq<Seq<(u32, i128)>>;

    open spec fn view(&self) -> Seq<Seq<(u32, i128)>> {
        self.formats@.map_values(|f: Format| f@)
    }
}

impl Palette {
    pub fn new() -> (p: Palette)
        ensures
            p@ == Seq::<Seq<(u32, i128)>>::empty(),
    {
        let p = Palette { formats: Vec::new() };
        proof {
            assert(p@ =~= Seq::<Seq<(u32, i128)>>::empty());
        }
        p
    }

    /// Equal formats are shared, not repeated.
    pub fn intern(&mut self, f: Format) -> (i: usize)
        ensures
            (final(self)@, i as int) == pal_intern(old(self)@, f@),
    {
        if f.is_empty() {
            return 0;
        }
        let ghost s = self@;
        let mut i: usize = 0;
        while i < self.formats.len()
            invariant
                s == self@,
                s == old(self)@,
                f@.len() != 0,
                i <= s.len(),
                forall|j: int| 0 <= j < i ==> s[j] != f@,
            decreases s.len() - i,
        {
            if self.formats[i].same(&f) {
                proof {
                    lemma_first_index(s, f@, i as int);
                    assert(intern_at(s, f@) == (s, i as int));
                }
                return i + 1;
            }
            i = i + 1;
        }
        proof {
            assert(!s.contains(f@)) by {
                if s.contains(f@) {
                    let k = choose|k: int| 0 <= k < s.len() && s[k] == f@;
                    assert(s[k] != f@);
                }
            }
        }
        self.formats.push(f);
        proof {
            assert(self@ =~= s.push(f@));
        }
        self.formats.len()
    }
}

// --- colors ------------------------------------------------------------------

/// `B<<16 | G<<8 | R`: blue in the high byte.
pub open spec fn packed(c: Color) -> int {
    c.b * 65536 + c.g * 256 + c.r
}

impl Color {
    pub fn packed(self) -> (p: i64)
        ensures
            p == packed(self),
    {
        (self.b as i64) * 65536 + (self.g as i64) * 256 + (self.r as i64)
    }
}

/// What the color palette holds: colors given by the user, then style
/// colors, after the two style colors every document has.
pub struct ColorsView {
    pub colors: Seq<Color>,
    pub styles: Seq<i64>,
}

/// The color palette. The first two places are taken by style colors
/// (`{3,3,{-1}}` and `{3,3,{-3}}`), so the first color given gets index 2.
#[derive(Debug)]
pub struct ColorPalette {
    pub colors: Vec<Color>,
    pub styles: Vec<i64>,
}

impl View for ColorPalette {
    type V = ColorsView;

    open spec fn view(&self) -> ColorsView {
        ColorsView { colors: self.colors@, styles: self.styles@ }
    }
}

/// A color given by the user, with the separator before it.
pub open spec fn color_record(c: Color) -> Seq<char> {
    ",\n{3,0,\n{"@ + spec_int(packed(c)) + "}\n}"@
}

/// A style color, with the separator before it.
pub open spec fn style_record(code: i64) -> Seq<char> {
    ",\n{3,3,\n{"@ + spec_int(code as int) + "}\n}"@
}

/// The records of the color palette, `,\n` between them.
pub open spec fn colors_text(p: ColorsView) -> Seq<char> {
    "{3,3,\n{-1}\n},\n{3,3,\n{-3}\n}"@ + concat(
        Seq::new(p.colors.len(), |i: int| color_record(p.colors[i])),
    ) + concat(Seq::new(p.styles.len(), |i: int| style_record(p.styles[i])))
}

impl ColorPalette {
    pub fn new() -> (p: ColorPalette)
        ensures
            p@.colors == Seq::<Color>::empty(),
            p@.styles == Seq::<i64>::empty(),
    {
        ColorPalette { colors: Vec::new(), styles: Vec::new() }
    }

    pub fn intern(&mut self, c: Color) -> (i: i128)
        ensures
            final(self)@.colors == intern_at(old(self)@.colors, c).0,
            final(self)@.styles == old(self)@.styles,
            i == intern_at(old(self)@.colors, c).1 + 2,
    {
        let ghost s = self.colors@;
        let mut i: usize = 0;
        while i < self.colors.len()
            invariant
                s == self.colors@,
                s == old(self).colors@,
                self.styles@ == old(self).styles@,
                i <= s.len(),
                forall|j: int| 0 <= j < i ==> s[j] != c,
            decreases s.len() - i,
        {
            if self.colors[i] == c {
                proof {
                    lemma_first_index(s, c, i as int);
                }
                return i as i128 + 2;
            }
            i = i + 1;
        }
        proof {
            assert(!s.contains(c)) by {
                if s.contains(c) {
                    let k = choose|k: int| 0 <= k < s.len() && s[k] == c;
                    assert(s[k] != c);
                }
            }
        }
        self.colors.push(c);
        i as i128 + 2
    }

    /// A style color: it comes after the colors given so far.
    pub fn intern_style(&mut self, code: i64) -> (i: i128)
        ensures
            final(self)@.styles == intern_at(old(self)@.styles, code).0,
            final(self)@.colors == old(self)@.colors,
            i == intern_at(old(self)@.styles, code).1 + 2 + old(self)@.colors.len(),
    {
        let ghost s = self.styles@;
        let mut i: usize = 0;
        while i < self.styles.len()
            invariant
                s == self.styles@,
                s == old(self).styles@,
                self.colors@ == old(self).colors@,
                i <= s.len(),
                forall|j: int| 0 <= j < i ==> s[j] != code,
            decreases s.len() - i,
        {
            if self.styles[i] == code {
                proof {
                    lemma_first_index(s, code, i as int);
                }
                return i as i128 + 2 + self.colors.len() as i128;
            }
            i = i + 1;
        }
        proof {
            assert(!s.contains(code)) by {
                if s.contains(code) {
                    let k = choose|k: int| 0 <= k < s.len() && s[k] == code;
                    assert(s[k] != code);
                }
            }
        }
        self.styles.push(code);
        i as i128 + 2 + self.colors.len() as i128
    }

    /// The size written to the file: with the two style colors.
    pub fn size(&self) -> (n: u128)
        ensures
            n == self@.colors.len() + self@.styles.len() + 2,
            n <= 0x3_0000_0000_0000_0000,
    {
        self.colors.len() as u128 + self.styles.len() as u128 + 2
    }

    pub fn push_render(&self, out: &mut String)
        ensures
            final(out)@ == old(out)@ + colors_text(self@),
    {
        let ghost start = out@;
        push_str(out, "{3,3,\n{-1}\n},\n{3,3,\n{-3}\n}");
        let ghost cparts = Seq::new(self.colors@.len(), |i: int| color_record(self.colors@[i]));
        let mut i: usize = 0;
        while i < self.colors.len()
            invariant
                i <= self.colors@.len(),
                cparts == Seq::new(self.colors@.len(), |i: int| color_record(self.colors@[i])),
                out@ == start + "{3,3,\n{-1}\n},\n{3,3,\n{-3}\n}"@ + concat(cparts.take(i as int)),
            decreases self.colors@.len() - i,
        {
            push_str(out, ",\n{3,0,\n{");
            push_int(out, self.colors[i].packed() as i128);
            push_str(out, "}\n}");
            proof {
                lemma_concat_step(cparts, i as int);
                assert(out@ =~= start + "{3,3,\n{-1}\n},\n{3,3,\n{-3}\n}"@ + concat(cparts.take(i + 1)));
            }
            i = i + 1;
        }
        proof {
            lemma_take_all(cparts);
        }
        let ghost mid = out@;
        let ghost sparts = Seq::new(self.styles@.len(), |i: int| style_record(self.styles@[i]));
        let mut j: usize = 0;
        while j < self.styles.len()
            invariant
                j <= self.styles@.len(),
                sparts == Seq::new(self.styles@.len(), |i: int| style_record(self.styles@[i])),
                out@ == mid + concat(sparts.take(j as int)),
            decreases self.styles@.len() - j,
        {
            push_str(out, ",\n{3,3,\n{");
            push_int(out, self.styles[j] as i128);
            push_str(out, "}\n}");
            proof {
                lemma_concat_step(sparts, j as int);
                assert(out@ =~= mid + concat(sparts.take(j + 1)));
            }
            j = j + 1;
        }
        proof {
            lemma_take_all(sparts);
            assert(out@ =~= old(out)@ + colors_text(self@));
        }
    }

    pub fn render(&self) -> (r: String)
        ensures
            r@ == colors_text(self@),
    {
        let mut out = String::new();
        self.push_render(&mut out);
        proof {
            assert(out@ =~= colors_text(self@));
        }
        out
    }
}

// --- fonts and lines -----------------------------------------------------------

/// The font palette: 0-based, nothing given in advance.
#[derive(Debug)]
pub struct FontPalette {
    pub fonts: Vec<Font>,
}

impl View for FontPalette {
    type V = Seq<FontView>;

    open spec fn view(&self) -> Seq<FontView> {
        self.fonts@.map_values(|f: Font| f@)
    }
}

impl FontPalette {
    pub fn new() -> (p: FontPalette)
        ensures
            p@ == Seq::<FontView>::empty(),
    {
        let p = FontPalette { fonts: Vec::new() };
        proof {
            assert(p@ =~= Seq::<FontView>::empty());
        }
        p
    }

    pub fn intern(&mut self, f: &Font) -> (i: i128)
        ensures
            final(self)@ == intern_at(old(self)@, f@).0,
            i == intern_at(old(self)@, f@).1,
    {
        let ghost s = self@;
        let mut i: usize = 0;
        while i < self.fonts.len()
            invariant
                s == self@,
                s == old(self)@,
                i <= s.len(),
                forall|j: int| 0 <= j < i ==> s[j] != f@,
            decreases s.len() - i,
        {
            if self.fonts[i].same(f) {
                proof {
                    lemma_first_index(s, f@, i as int);
                }
                return i as i128;
            }
            i = i + 1;
        }
        proof {
            assert(!s.contains(f@)) by {
                if s.contains(f@) {
                    let k = choose|k: int| 0 <= k < s.len() && s[k] == f@;
                    assert(s[k] != f@);
                }
            }
        }
        self.fonts.push(f.clone());
        proof {
            assert(self@ =~= s.push(f@));
        }
        i as i128
    }
}

pub open spec fn style_code(s: LineStyle) -> int {
    match s {
        LineStyle::Solid => 1,
        LineStyle::Dotted => 2,
        LineStyle::Double => 3,
    }
}

/// A line record. The GUID is the same in every file: it tags the kind of
/// record, not the line.
pub open spec fn line_text(l: Line) -> Seq<char> {
    "1,\n{4,0,\n{0},"@ + spec_int(style_code(l.style)) + ","@ + spec_int(l.width as int)
        + ",7,f527dc88-1d39-40b3-bcbb-d98b690ead68,0},0"@
}

impl Line {
    pub fn push_render(&self, out: &mut String)
        ensures
            final(out)@ == old(out)@ + line_text(*self),
    {
        push_str(out, "1,\n{4,0,\n{0},");
        let code: i128 = match self.style {
            LineStyle::Solid => 1,
            LineStyle::Dotted => 2,
            LineStyle::Double => 3,
        };
        push_int(out, code);
        push_str(out, ",");
        push_int(out, self.width as i128);
        push_str(out, ",7,f527dc88-1d39-40b3-bcbb-d98b690ead68,0},0");
        proof {
            assert(final(out)@ =~= old(out)@ + line_text(*self));
        }
    }

    pub fn render(&self) -> (r: String)
        ensures
            r@ == line_text(*self),
    {
        let mut out = String::new();
        self.push_render(&mut out);
        proof {
            assert(out@ =~= line_text(*self));
        }
        out
    }
}

/// The line palette as the header of the file holds it.
pub open spec fn lines_text(ls: Seq<Line>) -> Seq<char> {
    if ls.len() == 0 {
        "{0},0,\n"@
    } else {
        "{"@ + spec_int(ls.len() as int) + ","@ + join(Seq::new(ls.len(), |i: int| line_text(ls[i])), ","@)
            + "},0,\n"@
    }
}

/// The line palette: 0-based, and it lives in the HEAD of the file.
#[derive(Debug)]
pub struct LinePalette {
    pub lines: Vec<Line>,
}

impl LinePalette {
    pub fn new() -> (p: LinePalette)
        ensures
            p.lines@ == Seq::<Line>::empty(),
    {
        LinePalette { lines: Vec::new() }
    }

    pub fn intern(&mut self, l: Line) -> (i: i128)
        ensures
            final(self).lines@ == intern_at(old(self).lines@, l).0,
            i == intern_at(old(self).lines@, l).1,
    {
        let ghost s = self.lines@;
        let mut i: usize = 0;
        while i < self.lines.len()
            invariant
                s == self.lines@,
                s == old(self).lines@,
                i <= s.len(),
                forall|j: int| 0 <= j < i ==> s[j] != l,
            decreases s.len() - i,
        {
            if self.lines[i] == l {
                proof {
                    lemma_first_index(s, l, i as int);
                }
                return i as i128;
            }
            i = i + 1;
        }
        proof {
            assert(!s.contains(l)) by {
                if s.contains(l) {
                    let k = choose|k: int| 0 <= k < s.len() && s[k] == l;
                    assert(s[k] != l);
                }
            }
        }
        self.lines.push(l);
        i as i128
    }

    pub fn push_render(&self, out: &mut String)
        ensures
            final(out)@ == old(out)@ + lines_text(self.lines@),
    {
        if self.lines.len() == 0 {
            push_str(out, "{0},0,\n");
            return;
        }
        let ghost start = out@;
        let ghost parts = Seq::new(self.lines@.len(), |i: int| line_text(self.lines@[i]));
        push_str(out, "{");
        push_int(out, self.lines.len() as i128);
        push_str(out, ",");
        let ghost mid = out@;
        let mut i: usize = 0;
        while i < self.lines.len()
            invariant
                i <= self.lines@.len(),
                parts == Seq::new(self.lines@.len(), |i: int| line_text(self.lines@[i])),
                out@ == mid + join(parts.take(i as int), ","@),
            decreases self.lines@.len() - i,
        {
            if i > 0 {
                push_str(out, ",");
            }
            self.lines[i].push_render(out);
            proof {
                lemma_join_step(parts, ","@, i as int);
                assert(out@ =~= mid + join(parts.take(i + 1), ","@));
            }
            i = i + 1;
        }
        push_str(out, "},0,\n");
        proof {
            lemma_take_all(parts);
            assert(out@ =~= old(out)@ + lines_text(self.lines@));
        }
    }

    pub fn render(&self) -> (r: String)
        ensures
            r@ == lines_text(self.lines@),
    {
        let mut out = String::new();
        self.push_render(&mut out);
        proof {
            assert(out@ =~= lines_text(self.lines@));
        }
        out
    }
}

// --- the format of a cell ----------------------------------------------------------

/// The palettes a cell format draws on besides the format palette.
pub struct Pals {
    pub colors: ColorsView,
    pub fonts: Seq<FontView>,
    pub lines: Seq<Line>,
}

pub open spec fn add_font(p: Pals, f: Seq<(u32, i128)>, font: Option<FontView>) -> (Pals, Seq<(u32, i128)>) {
    match font {
        Some(x) => (
            Pals { fonts: intern_at(p.fonts, x).0, ..p },
            fmt_insert(f, FONT, intern_at(p.fonts, x).1 as i128),
        ),
        None => (p, f),
    }
}

pub open spec fn add_line(p: Pals, f: Seq<(u32, i128)>, bit: u32, l: Option<Line>) -> (Pals, Seq<(u32, i128)>) {
    match l {
        Some(x) => (
            Pals { lines: intern_at(p.lines, x).0, ..p },
            fmt_insert(f, bit, intern_at(p.lines, x).1 as i128),
        ),
        None => (p, f),
    }
}

pub open spec fn add_color(p: Pals, f: Seq<(u32, i128)>, bit: u32, c: Option<Color>) -> (Pals, Seq<(u32, i128)>) {
    match c {
        Some(x) => (
            Pals {
                colors: ColorsView { colors: intern_at(p.colors.colors, x).0, ..p.colors },
                ..p
            },
            fmt_insert(f, bit, (intern_at(p.colors.colors, x).1 + 2) as i128),
        ),
        None => (p, f),
    }
}

/// The format of a cell, and the palettes after it. Colors take their
/// places in the order of the bits: text color before background.
pub open spec fn cell_format(c: CellView, p: Pals) -> (Pals, Seq<(u32, i128)>) {
    let s0 = add_font(p, Seq::empty(), c.font);
    let s1 = add_line(s0.0, s0.1, BORDER_LEFT, c.border_left);
    let s2 = add_line(s1.0, s1.1, BORDER_TOP, c.border_top);
    let s3 = add_line(s2.0, s2.1, BORDER_RIGHT, c.border_right);
    let s4 = add_line(s3.0, s3.1, BORDER_BOTTOM, c.border_bottom);
    let f5 = match c.h_align {
        Some(a) => fmt_insert(s4.1, H_ALIGN, h_code(a) as i128),
        None => s4.1,
    };
    let f6 = match c.v_align {
        Some(a) => fmt_insert(f5, V_ALIGN, v_code(a) as i128),
        None => f5,
    };
    let s7 = add_color(s4.0, f6, TEXT_COLOR, c.text_color);
    let s8 = add_color(s7.0, s7.1, BACK_COLOR, c.back_color);
    let f9 = if c.wrap {
        fmt_insert(s8.1, TEXT_PLACEMENT, 3)
    } else {
        s8.1
    };
    let f10 = if c.value is Some {
        fmt_insert(fmt_insert(fmt_insert(f9, VALUE_A, 1), VALUE_B, 0), VALUE_C, 0)
    } else {
        f9
    };
    (s8.0, f10)
}

pub open spec fn pals_of(colors: &ColorPalette, fonts: &FontPalette, lines: &LinePalette) -> Pals {
    Pals { colors: colors@, fonts: fonts@, lines: lines.lines@ }
}

/// Every bit is one of those a format can carry, and there are few pairs.
pub open spec fn fmt_small(s: Seq<(u32, i128)>) -> bool {
    fmt_within(s, 13)
}

pub proof fn lemma_insert_small(s: Seq<(u32, i128)>, bit: u32, value: i128, n: int)
    requires
        s.len() <= n,
        forall|j: int| 0 <= j < s.len() ==> #[trigger] s[j].0 <= VALUE_C,
        bit <= VALUE_C,
    ensures
        fmt_insert(s, bit, value).len() <= n + 1,
        forall|j: int| 0 <= j < fmt_insert(s, bit, value).len() ==> #[trigger] fmt_insert(s, bit, value)[j].0 <= VALUE_C,
{
    lemma_upto_bound(s, bit);
    let t = fmt_insert(s, bit, value);
    let k = upto(s, bit);
    assert forall|j: int| 0 <= j < t.len() implies #[trigger] t[j].0 <= VALUE_C by {
        if j < k {
            assert(t[j] == s[j]);
        } else if j > k {
            assert(t[j] == s[j - 1]);
        }
    }
}

pub proof fn lemma_small_mask(s: Seq<(u32, i128)>)
    requires
        fmt_small(s),
    ensures
        bit_sum(s) <= u32::MAX,
{
    lemma_bit_sum_bound(s);
}

/// A format with at most `n` pairs, each with a bit a format can carry.
pub open spec fn fmt_within(s: Seq<(u32, i128)>, n: int) -> bool {
    &&& s.len() <= n
    &&& forall|j: int| 0 <= j < s.len() ==> #[trigger] s[j].0 <= VALUE_C
}

fn step_line(f: Format, bit: u32, l: Option<Line>, lines: &mut LinePalette, Ghost(n): Ghost<int>, Ghost(p): Ghost<Pals>) -> (g: Format)
    requires
        fmt_within(f@, n),
        bit <= VALUE_C,
        p.lines == old(lines).lines@,
    ensures
        fmt_within(g@, n + 1),
        (Pals { lines: final(lines).lines@, ..p }, g@) == add_line(p, f@, bit, l),
{
    match l {
        Some(x) => {
            let i = lines.intern(x);
            proof {
                lemma_insert_small(f@, bit, i, n);
            }
            f.with(bit, i)
        },
        None => f,
    }
}

fn step_color(f: Format, bit: u32, c: Option<Color>, colors: &mut ColorPalette, Ghost(n): Ghost<int>, Ghost(p): Ghost<Pals>) -> (g: Format)
    requires
        fmt_within(f@, n),
        bit <= VALUE_C,
        p.colors == old(colors)@,
    ensures
        fmt_within(g@, n + 1),
        (Pals { colors: final(colors)@, ..p }, g@) == add_color(p, f@, bit, c),
{
    match c {
        Some(x) => {
            let i = colors.intern(x);
            proof {
                lemma_insert_small(f@, bit, i, n);
            }
            f.with(bit, i)
        },
        None => f,
    }
}

fn step_value(f: Format, bit: u32, v: Option<i128>, Ghost(n): Ghost<int>) -> (g: Format)
    requires
        fmt_within(f@, n),
        bit <= VALUE_C,
    ensures
        fmt_within(g@, n + 1),
        g@ == (match v {
            Some(x) => fmt_insert(f@, bit, x),
            None => f@,
        }),
{
    match v {
        Some(x) => {
            proof {
                lemma_insert_small(f@, bit, x, n);
            }
            f.with(bit, x)
        },
        None => f,
    }
}

impl CellData {
    /// The format of the cell. Colors, fonts and lines go to their own
    /// palettes, which is why those are handed in.
    pub fn format(&self, colors: &mut ColorPalette, fonts: &mut FontPalette, lines: &mut LinePalette) -> (f: Format)
        ensures
            (pals_of(final(colors), final(fonts), final(lines)), f@) == cell_format(
                self@,
                pals_of(old(colors), old(fonts), old(lines)),
            ),
            fmt_small(f@),
    {
        let ghost p0 = pals_of(colors, fonts, lines);
        let ghost c = self@;
        let mut f = Format::new();
        let ghost e = f@;
        if let Some(font) = &self.font {
            let i = fonts.intern(font);
            proof {
                lemma_insert_small(f@, FONT, i, 0);
            }
            f = f.with(FONT, i);
        }
        let ghost s0 = add_font(p0, e, c.font);
        assert(pals_of(colors, fonts, lines) == s0.0 && f@ == s0.1);
        f = step_line(f, BORDER_LEFT, self.border_left, lines, Ghost(1), Ghost(s0.0));
        let ghost s1 = add_line(s0.0, s0.1, BORDER_LEFT, c.border_left);
        assert(pals_of(colors, fonts, lines) == s1.0 && f@ == s1.1);
        f = step_line(f, BORDER_TOP, self.border_top, lines, Ghost(2), Ghost(s1.0));
        let ghost s2 = add_line(s1.0, s1.1, BORDER_TOP, c.border_top);
        assert(pals_of(colors, fonts, lines) == s2.0 && f@ == s2.1);
        f = step_line(f, BORDER_RIGHT, self.border_right, lines, Ghost(3), Ghost(s2.0));
        let ghost s3 = add_line(s2.0, s2.1, BORDER_RIGHT, c.border_right);
        assert(pals_of(colors, fonts, lines) == s3.0 && f@ == s3.1);
        f = step_line(f, BORDER_BOTTOM, self.border_bottom, lines, Ghost(4), Ghost(s3.0));
        let ghost s4 = add_line(s3.0, s3.1, BORDER_BOTTOM, c.border_bottom);
        assert(pals_of(colors, fonts, lines) == s4.0 && f@ == s4.1);
        let h: Option<i128> = match self.h_align {
            Some(a) => Some(a.code() as i128),
            None => None,
        };
        f = step_value(f, H_ALIGN, h, Ghost(5));
        let v: Option<i128> = match self.v_align {
            Some(a) => Some(a.code() as i128),
            None => None,
        };
        f = step_value(f, V_ALIGN, v, Ghost(6));
        let ghost f6 = f@;
        f = step_color(f, TEXT_COLOR, self.text_color, colors, Ghost(7), Ghost(s4.0));
        let ghost s7 = add_color(s4.0, f6, TEXT_COLOR, c.text_color);
        assert(pals_of(colors, fonts, lines) == s7.0 && f@ == s7.1);
        f = step_color(f, BACK_COLOR, self.back_color, colors, Ghost(8), Ghost(s7.0));
        let ghost s8 = add_color(s7.0, s7.1, BACK_COLOR, c.back_color);
        assert(pals_of(colors, fonts, lines) == s8.0 && f@ == s8.1);
        let w: Option<i128> = if self.wrap {
            Some(3)
        } else {
            None
        };
        f = step_value(f, TEXT_PLACEMENT, w, Ghost(9));
        let has = self.value.is_some();
        f = step_value(f, VALUE_A, if has { Some(1) } else { None }, Ghost(10));
        f = step_value(f, VALUE_B, if has { Some(0) } else { None }, Ghost(11));
        f = step_value(f, VALUE_C, if has { Some(0) } else { None }, Ghost(12));
        f
    }
}

} // verus!
