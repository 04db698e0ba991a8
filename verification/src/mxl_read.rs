//! Reading a document from MXL bytes.
//!
//! The sections of the format follow one another without markup, so they
//! are read by position, in exactly the order `mxl_body` writes them.

use vstd::prelude::*;
use crate::bytes::{crlf, lemma_crlf_append, lemma_crlf_one, lemma_utf8_injective, utf8};
use crate::format::{
    BACK_COLOR, BORDER_BOTTOM, BORDER_LEFT, BORDER_RIGHT, BORDER_TOP, COL_WIDTH, FONT, H_ALIGN, ROW_HEIGHT,
    TEXT_COLOR, TEXT_PLACEMENT, V_ALIGN,
};
use crate::keyed;
use crate::lexer::{group_from, trees, Node, NodeView, ReadError, parse_nodes};
use crate::model::{
    AreaKind, CellData, CellView, Color, ColumnSet, Drawing, PageMargins, RowView, Font, HAlign, Line, LineStyle, Merge, NamedArea, RowGroup,
    SpreadDocData, VAlign,
};
use crate::text::{push_char, push_int, to_chars};

verus! {

/// `NUMBER_FORMAT`: the cell has a number format.
pub const NUMBER_FORMAT: u64 = 16777216;

/// The signature of the format: a file is recognised by it.
pub open spec fn has_signature(b: Seq<u8>) -> bool {
    b.len() >= 6 && b[0] == 77u8 && b[1] == 79u8 && b[2] == 88u8 && b[3] == 67u8 && b[4] == 69u8 && b[5] == 76u8
}

/// The body after the 13-byte header, without a leading BOM.
pub open spec fn body_of(b: Seq<u8>) -> Seq<u8> {
    let rest = b.skip(13);
    if rest.len() >= 3 && rest[0] == 0xEFu8 && rest[1] == 0xBBu8 && rest[2] == 0xBFu8 {
        rest.skip(3)
    } else {
        rest
    }
}

/// Every `CR LF` becomes `LF`, left to right.
pub open spec fn lf(s: Seq<char>) -> Seq<char>
    decreases s.len(),
{
    if s.len() == 0 {
        Seq::empty()
    } else if s.len() >= 2 && s[0] == '\r' && s[1] == '\n' {
        seq!['\n'] + lf(s.skip(2))
    } else {
        seq![s[0]] + lf(s.drop_first())
    }
}

/// `std::str::from_utf8`: the text the bytes encode, if they are UTF-8.
#[verifier::external_body]
pub(crate) fn decode_utf8(b: &[u8]) -> (r: Option<String>)
    ensures
        match r {
            Some(s) => utf8(s@) == b@,
            None => forall|t: Seq<char>| utf8(t) != b@,
        },
{
    match std::str::from_utf8(b) {
        Ok(s) => Some(s.to_owned()),
        Err(_) => None,
    }
}

fn fold_crlf(s: &Vec<char>) -> (r: Vec<char>)
    ensures
        r@ == lf(s@),
{
    let mut out: Vec<char> = Vec::new();
    let mut i: usize = 0;
    proof {
        assert(s@.skip(0) =~= s@);
    }
    while i < s.len()
        invariant
            i <= s@.len(),
            out@ + lf(s@.skip(i as int)) == lf(s@),
        decreases s@.len() - i,
    {
        let ghost t = s@.skip(i as int);
        if i + 1 < s.len() && s[i] == '\r' && s[i + 1] == '\n' {
            proof {
                assert(t.skip(2) =~= s@.skip(i + 2));
                assert(lf(t) == seq!['\n'] + lf(t.skip(2)));
                assert(out@.push('\n') + lf(s@.skip(i + 2)) =~= out@ + lf(t));
            }
            out.push('\n');
            i = i + 2;
        } else {
            proof {
                assert(t.drop_first() =~= s@.skip(i + 1));
                assert(lf(t) == seq![s@[i as int]] + lf(t.drop_first()));
                assert(out@.push(s@[i as int]) + lf(s@.skip(i + 1)) =~= out@ + lf(t));
            }
            out.push(s[i]);
            i = i + 1;
        }
    }
    proof {
        assert(s@.skip(i as int) =~= Seq::<char>::empty());
        assert(out@ + lf(Seq::<char>::empty()) =~= out@);
    }
    out
}

proof fn lemma_crlf_head(y: Seq<char>)
    ensures
        crlf(y).len() == 0 || crlf(y)[0] != '\n',
{
    if y.len() > 0 {
        let c = y[0];
        assert(y =~= seq![c] + y.drop_first());
        lemma_crlf_append(seq![c], y.drop_first());
        lemma_crlf_one(c);
    }
}

/// Folding the line breaks of a text written with `CR LF` gives the text
/// back.
pub proof fn lemma_lf_crlf(x: Seq<char>)
    ensures
        lf(crlf(x)) == x,
    decreases x.len(),
{
    if x.len() == 0 {
        assert(crlf(x) == Seq::<char>::empty());
    } else {
        let c = x[0];
        let r = x.drop_first();
        assert(x =~= seq![c] + r);
        lemma_crlf_append(seq![c], r);
        lemma_crlf_one(c);
        lemma_lf_crlf(r);
        lemma_crlf_head(r);
        let s = crlf(x);
        if c == '\n' {
            assert(s.skip(2) =~= crlf(r));
            assert(lf(s) == seq!['\n'] + lf(s.skip(2)));
        } else {
            assert(s.drop_first() =~= crlf(r));
            assert(lf(s) == seq![c] + lf(s.drop_first()));
        }
        assert(lf(s) =~= x);
    }
}

/// The characters of the body, with `CR LF` folded back into `LF`.
fn body_chars(bytes: &Vec<u8>) -> (r: Result<Vec<char>, ReadError>)
    ensures
        !has_signature(bytes@) ==> r == Err::<Vec<char>, ReadError>(ReadError::NoSignature),
        has_signature(bytes@) && bytes@.len() < 13 ==> r == Err::<Vec<char>, ReadError>(ReadError::TruncatedHeader),
        has_signature(bytes@) && bytes@.len() >= 13 ==> match r {
            Ok(cs) => (exists|t: Seq<char>| utf8(t) == body_of(bytes@)) && forall|t: Seq<char>|
                utf8(t) == body_of(bytes@) ==> cs@ == lf(t),
            Err(e) => e == ReadError::NotUtf8 && forall|t: Seq<char>| utf8(t) != body_of(bytes@),
        },
{
    if !(bytes.len() >= 6 && bytes[0] == 77 && bytes[1] == 79 && bytes[2] == 88 && bytes[3] == 67 && bytes[4] == 69
        && bytes[5] == 76) {
        return Err(ReadError::NoSignature);
    }
    if bytes.len() < 13 {
        return Err(ReadError::TruncatedHeader);
    }
    let mut from: usize = 13;
    if bytes.len() >= 16 && bytes[13] == 0xEF && bytes[14] == 0xBB && bytes[15] == 0xBF {
        from = 16;
    }
    let mut body: Vec<u8> = Vec::new();
    let mut i = from;
    while i < bytes.len()
        invariant
            from <= i <= bytes@.len(),
            body@ == bytes@.subrange(from as int, i as int),
        decreases bytes@.len() - i,
    {
        body.push(bytes[i]);
        proof {
            assert(body@ =~= bytes@.subrange(from as int, i + 1));
        }
        i = i + 1;
    }
    proof {
        assert(body@ =~= body_of(bytes@)) by {
            let rest = bytes@.skip(13);
            if from == 16 {
                assert(rest.skip(3) =~= bytes@.subrange(16, bytes@.len() as int));
            } else {
                assert(rest =~= bytes@.subrange(13, bytes@.len() as int));
            }
        }
    }
    match decode_utf8(body.as_slice()) {
        Some(text) => {
            let cs = to_chars(text.as_str());
            proof {
                assert forall|t: Seq<char>| utf8(t) == body_of(bytes@) implies t == text@ by {
                    lemma_utf8_injective(t, text@);
                }
            }
            Ok(fold_crlf(&cs))
        },
        None => Err(ReadError::NotUtf8),
    }
}

// --- the cursor ------------------------------------------------------------------

/// A cursor over the top-level items.
pub struct Cursor<'a> {
    pub items: &'a Vec<Node>,
    pub pos: usize,
}

impl<'a> Cursor<'a> {
    pub fn next(&mut self) -> (r: Result<&'a Node, ReadError>)
        requires
            old(self).pos <= old(self).items@.len(),
        ensures
            final(self).items == old(self).items,
            final(self).pos <= final(self).items@.len(),
            old(self).pos < old(self).items@.len() ==> r == Ok::<&'a Node, ReadError>(&old(self).items@[old(self).pos as int])
                && final(self).pos == old(self).pos + 1,
            old(self).pos >= old(self).items@.len() ==> r == Err::<&'a Node, ReadError>(ReadError::UnexpectedEnd)
                && final(self).pos == old(self).pos,
    {
        if self.pos < self.items.len() {
            let n = &self.items[self.pos];
            self.pos = self.pos + 1;
            Ok(n)
        } else {
            Err(ReadError::UnexpectedEnd)
        }
    }

    pub fn number(&mut self) -> (r: Result<i64, ReadError>)
        requires
            old(self).pos <= old(self).items@.len(),
        ensures
            final(self).items == old(self).items,
            final(self).pos <= final(self).items@.len(),
            old(self).pos < old(self).items@.len() ==> r == node_number(old(self).items@[old(self).pos as int])
                && final(self).pos == old(self).pos + 1,
            old(self).pos >= old(self).items@.len() ==> r == Err::<i64, ReadError>(ReadError::UnexpectedEnd)
                && final(self).pos == old(self).pos,
    {
        let n = self.next()?;
        n.number()
    }

    /// The next group.
    pub fn group(&mut self) -> (r: Result<&'a Vec<Node>, ReadError>)
        requires
            old(self).pos <= old(self).items@.len(),
        ensures
            final(self).items == old(self).items,
            final(self).pos <= final(self).items@.len(),
            old(self).pos < old(self).items@.len() ==> final(self).pos == old(self).pos + 1 && match old(
                self,
            ).items@[old(self).pos as int] {
                Node::Group(g) => r == Ok::<&'a Vec<Node>, ReadError>(&g),
                _ => r == Err::<&'a Vec<Node>, ReadError>(ReadError::ExpectedGroup),
            },
            old(self).pos >= old(self).items@.len() ==> r == Err::<&'a Vec<Node>, ReadError>(ReadError::UnexpectedEnd)
                && final(self).pos == old(self).pos,
    {
        let n = self.next()?;
        n.group()
    }

    pub fn skip(&mut self, n: usize) -> (r: Result<(), ReadError>)
        requires
            old(self).pos <= old(self).items@.len(),
        ensures
            final(self).items == old(self).items,
            final(self).pos <= final(self).items@.len(),
            r is Ok <==> old(self).pos + n <= old(self).items@.len(),
            r is Ok ==> final(self).pos == old(self).pos + n,
            r is Err ==> r == Err::<(), ReadError>(ReadError::UnexpectedEnd),
    {
        if self.items.len() - self.pos < n {
            self.pos = self.items.len();
            return Err(ReadError::UnexpectedEnd);
        }
        self.pos = self.pos + n;
        Ok(())
    }
}

// --- small readers ---------------------------------------------------------------

/// The number a node holds: an atom written as a decimal integer.
pub open spec fn node_number(n: Node) -> Result<i64, ReadError> {
    match n {
        Node::Atom(t) => match crate::lexer::i64_of(t@) {
            Some(v) => Ok(v),
            None => Err(ReadError::ExpectedNumber),
        },
        _ => Err(ReadError::ExpectedNumber),
    }
}

/// The text of a string or an atom; a group has none.
pub open spec fn node_text(n: Node) -> Seq<char> {
    match n {
        Node::Text(t) => t@,
        Node::Atom(t) => t@,
        Node::Group(_) => Seq::empty(),
    }
}

/// The number at `i`, or `default` when the group is shorter.
pub open spec fn num_at_spec(g: Seq<Node>, i: int, default: i64) -> Result<i64, ReadError> {
    if i < g.len() {
        node_number(g[i])
    } else {
        Ok(default)
    }
}

fn num_at(g: &Vec<Node>, i: usize, default: i64) -> (r: Result<i64, ReadError>)
    ensures
        r == num_at_spec(g@, i as int, default),
{
    if i < g.len() {
        g[i].number()
    } else {
        Ok(default)
    }
}

/// The text at `i` of a pair, or nothing.
fn text_at(g: &Vec<Node>, i: usize) -> (s: String)
    ensures
        s@ == (if i < g@.len() {
            node_text(g@[i as int])
        } else {
            Seq::<char>::empty()
        }),
{
    if i < g.len() {
        g[i].text()
    } else {
        String::new()
    }
}

/// The items of the group at `i`, if there is a group there.
pub open spec fn group_at_spec(g: Seq<Node>, i: int) -> Option<Vec<Node>> {
    if 0 <= i < g.len() {
        match g[i] {
            Node::Group(x) => Some(x),
            _ => None,
        }
    } else {
        None
    }
}

/// The text at `i` of a group, or nothing.
pub open spec fn text_at_spec(g: Seq<Node>, i: int) -> Seq<char> {
    if 0 <= i < g.len() {
        node_text(g[i])
    } else {
        Seq::empty()
    }
}

/// The group at `i`, if there is one there.
fn group_at(g: &Vec<Node>, i: usize) -> (r: Option<&Vec<Node>>)
    ensures
        match group_at_spec(g@, i as int) {
            Some(x) => r matches Some(y) && *y == x,
            None => r is None,
        },
        r is Some ==> i < g@.len(),
{
    if i < g.len() {
        match &g[i] {
            Node::Group(x) => Some(x),
            _ => None,
        }
    } else {
        None
    }
}

/// The bits of a 64-bit mask, from the lowest; `pairs` reads one value per
/// set bit.
pub open spec fn mask_bit(mask: u64, bit: nat) -> bool {
    (mask as int / vstd::arithmetic::power2::pow2(bit) as int) % 2 == 1
}

/// The values of a format from bit `bit` on: one value per set bit of the
/// mask, read from position `i` on; a set bit past the end of the group has
/// no value, and the first value that is no number fails the format.
pub open spec fn format_bits(g: Seq<Node>, mask: u64, bit: nat, i: int) -> Result<Seq<(u64, i64)>, ReadError>
    decreases 64 - bit,
{
    if bit >= 64 {
        Ok(Seq::empty())
    } else if mask_bit(mask, bit) {
        if i < g.len() {
            match node_number(g[i]) {
                Err(e) => Err(e),
                Ok(v) => match format_bits(g, mask, bit + 1, i + 1) {
                    Ok(rest) => Ok(seq![(vstd::arithmetic::power2::pow2(bit) as u64, v)] + rest),
                    Err(e) => Err(e),
                },
            }
        } else {
            format_bits(g, mask, bit + 1, i + 1)
        }
    } else {
        format_bits(g, mask, bit + 1, i)
    }
}

/// A format: a mask, then the values of its set bits in increasing order
/// of bit.
pub open spec fn format_of(g: Seq<Node>) -> Result<Seq<(u64, i64)>, ReadError> {
    match num_at_spec(g, 0, 0) {
        Err(e) => Err(e),
        Ok(m) => format_bits(g, m as u64, 0, 1),
    }
}

/// A format: the mask and its values in increasing order of bit. The mask
/// is wider than 32 bits in files the platform writes.
pub fn parse_format(g: &Vec<Node>) -> (r: Result<Vec<(u64, i64)>, ReadError>)
    ensures
        match format_of(g@) {
            Ok(f) => r matches Ok(x) && x@ == f,
            Err(e) => r matches Err(x) && x == e,
        },
        r is Ok ==> r->Ok_0@.len() <= 64,
{
    let mask: u64 = #[verifier::truncate] (num_at(g, 0, 0)? as u64);
    let mut out: Vec<(u64, i64)> = Vec::new();
    let mut rest: u64 = mask;
    let mut i: usize = 1;
    let mut bit: u64 = 0;
    proof {
        vstd::arithmetic::power2::lemma2_to64();
        assert(mask as int / vstd::arithmetic::power2::pow2(0) as int == mask);
    }
    while bit < 64
        invariant
            bit <= 64,
            out@.len() <= bit,
            1 <= i <= bit + 1,
            rest as int == mask as int / vstd::arithmetic::power2::pow2(bit as nat) as int,
            format_of(g@) == match format_bits(g@, mask, bit as nat, i as int) {
                Ok(tail) => Ok(out@ + tail),
                Err(e) => Err(e),
            },
        decreases 64 - bit,
    {
        proof {
            vstd::arithmetic::power2::lemma_pow2_pos(bit as nat);
            vstd::bits::lemma_u64_pow2_no_overflow(bit as nat);
        }
        if rest % 2 == 1 {
            if i < g.len() {
                let v = g[i].number()?;
                proof {
                    vstd::bits::lemma_u64_shl_is_mul(1, bit);
                }
                let b: u64 = 1u64 << bit;
                let ghost before = out@;
                out.push((b, v));
                proof {
                    match format_bits(g@, mask, (bit + 1) as nat, i + 1) {
                        Ok(tail) => {
                            assert(before + (seq![(b, v)] + tail) =~= out@ + tail);
                        },
                        Err(_) => {},
                    }
                }
            }
            i = i + 1;
        }
        proof {
            vstd::arithmetic::div_mod::lemma_div_denominator(
                mask as int,
                vstd::arithmetic::power2::pow2(bit as nat) as int,
                2,
            );
            vstd::arithmetic::power2::lemma_pow2_unfold((bit + 1) as nat);
            assert(vstd::arithmetic::power2::pow2(bit as nat) * 2 == vstd::arithmetic::power2::pow2((bit + 1) as nat))
                by (nonlinear_arith)
                requires
                    vstd::arithmetic::power2::pow2((bit + 1) as nat) == 2 * vstd::arithmetic::power2::pow2(bit as nat),
            ;
        }
        rest = rest / 2;
        bit = bit + 1;
    }
    proof {
        assert(out@ + Seq::<(u64, i64)>::empty() =~= out@);
    }
    Ok(out)
}

/// Whole tenths of a value, rounded toward zero.
pub open spec fn tenths(v: i64) -> i64 {
    if v >= 0 {
        (v / 10) as i64
    } else {
        (-((-v) / 10)) as i64
    }
}

/// The font a group describes: `0` (or no number) in the second field is a
/// full font with its size in the fourth, otherwise a reference, whose size
/// is not read; then weight, italic, underline, strikeout and the face.
pub open spec fn font_of(g: Seq<Node>) -> Result<crate::model::FontView, ReadError> {
    let absolute = g.len() <= 1 || match node_number(g[1]) {
        Ok(v) => v == 0,
        Err(_) => true,
    };
    let size = if absolute {
        match num_at_spec(g, 3, 100) {
            Ok(v) => Ok(tenths(v)),
            Err(e) => Err(e),
        }
    } else {
        Ok(10i64)
    };
    match (size, num_at_spec(g, 7, 400), num_at_spec(g, 8, 0), num_at_spec(g, 9, 0), num_at_spec(g, 10, 0)) {
        (Err(e), _, _, _, _) => Err(e),
        (Ok(_), Err(e), _, _, _) => Err(e),
        (Ok(_), Ok(_), Err(e), _, _) => Err(e),
        (Ok(_), Ok(_), Ok(_), Err(e), _) => Err(e),
        (Ok(_), Ok(_), Ok(_), Ok(_), Err(e)) => Err(e),
        (Ok(sz), Ok(w), Ok(i), Ok(u), Ok(st)) => Ok(
            crate::model::FontView {
                face: if 16 < g.len() {
                    node_text(g[16])
                } else {
                    Seq::empty()
                },
                size: sz,
                bold: w >= 700,
                italic: i != 0,
                underline: u != 0,
                strikeout: st != 0,
            },
        ),
    }
}

/// A font: `0` in the second field is a full font, otherwise a reference
/// with few fields, of which only the safe ones are read.
pub fn parse_font(g: &Vec<Node>) -> (r: Result<Font, ReadError>)
    ensures
        match font_of(g@) {
            Ok(f) => r matches Ok(x) && x@ == f,
            Err(e) => r matches Err(x) && x == e,
        },
{
    let absolute = if g.len() > 1 {
        match g[1].number() {
            Ok(v) => v == 0,
            Err(_) => true,
        }
    } else {
        true
    };
    let size = if absolute {
        let v = num_at(g, 3, 100)?;
        if v >= 0 {
            v / 10
        } else {
            -((-(v as i128)) / 10) as i64
        }
    } else {
        10
    };
    let weight = num_at(g, 7, 400)?;
    let italic = num_at(g, 8, 0)?;
    let underline = num_at(g, 9, 0)?;
    let strikeout = num_at(g, 10, 0)?;
    Ok(
        Font {
            face: text_at(g, 16),
            size,
            bold: weight >= 700,
            italic: italic != 0,
            underline: underline != 0,
            strikeout: strikeout != 0,
        },
    )
}

// --- sections --------------------------------------------------------------------

pub open spec fn cursor_ok(cur: &Cursor) -> bool {
    cur.pos <= cur.items@.len()
}

pub open spec fn line_style_of(code: i64) -> LineStyle {
    if code == 2 {
        LineStyle::Dotted
    } else if code == 3 {
        LineStyle::Double
    } else {
        LineStyle::Solid
    }
}

/// The lines of the line palette from line `i` of `count` on: a record of
/// three items per line from position 2 on, the line in the group that
/// starts it (style code at 3: 2 dotted, 3 double, else solid; width at 4).
pub open spec fn lines_from(g: Seq<Node>, i: int, count: int) -> Result<Seq<Line>, ReadError>
    decreases count - i,
{
    if i >= count || i < 0 || 2 + 3 * i >= g.len() {
        Ok(Seq::empty())
    } else {
        match group_at_spec(g, 2 + 3 * i) {
            Some(rec) => match num_at_spec(rec@, 3, 1) {
                Err(e) => Err(e),
                Ok(code) => match num_at_spec(rec@, 4, 1) {
                    Err(e) => Err(e),
                    Ok(w) => match lines_from(g, i + 1, count) {
                        Ok(rest) => Ok(seq![Line { style: line_style_of(code), width: w }] + rest),
                        Err(x) => Err(x),
                    },
                },
            },
            None => lines_from(g, i + 1, count),
        }
    }
}

/// The head at `p`: five items, the line palette (a count at 0 and the
/// lines), nine items. The lines and the position after the head.
pub open spec fn head_section(items: Seq<Node>, p: int) -> Result<(Seq<Line>, int), ReadError> {
    if p + 5 > items.len() {
        Err(ReadError::UnexpectedEnd)
    } else {
        match item_group(items, p + 5) {
            Err(e) => Err(e),
            Ok(g) => match num_at_spec(g@, 0, 0) {
                Err(e) => Err(e),
                Ok(n) => match lines_from(g@, 0, n as usize as int) {
                    Err(e) => Err(e),
                    Ok(ls) => if p + 15 > items.len() {
                        Err(ReadError::UnexpectedEnd)
                    } else {
                        Ok((ls, p + 15))
                    },
                },
            },
        }
    }
}

/// The head: version, languages, default sizes, the line palette and the
/// empty groups after it. Line records come in threes, each wrapped in a
/// pair of numbers.
fn read_head(cur: &mut Cursor) -> (r: Result<Vec<Line>, ReadError>)
    requires
        cursor_ok(old(cur)),
    ensures
        cursor_ok(final(cur)),
        final(cur).items == old(cur).items,
        match head_section(old(cur).items@, old(cur).pos as int) {
            Ok((ls, e)) => r matches Ok(o) && o@ == ls && final(cur).pos == e,
            Err(x) => r == Err::<Vec<Line>, ReadError>(x),
        },
{
    cur.skip(3)?;
    cur.skip(1)?;
    cur.skip(1)?;
    let g = cur.group()?;
    let count = num_at(g, 0, 0)?;
    let count: usize = #[verifier::truncate] (count as usize);
    let mut out: Vec<Line> = Vec::new();
    let mut i: usize = 0;
    proof {
        match lines_from(g@, 0, count as int) {
            Ok(ls) => {
                assert(out@ + ls =~= ls);
            },
            Err(_) => {},
        }
    }
    while i < count
        invariant
            i <= count,
            cursor_ok(cur),
            cur.items == old(cur).items,
            cur.pos == old(cur).pos + 6,
            head_section(old(cur).items@, old(cur).pos as int) == match lines_from(g@, 0, count as int) {
                Ok(ls) => if old(cur).pos + 15 > old(cur).items@.len() {
                    Err(ReadError::UnexpectedEnd)
                } else {
                    Ok::<(Seq<Line>, int), ReadError>((ls, old(cur).pos + 15))
                },
                Err(x) => Err(x),
            },
            lines_from(g@, 0, count as int) == match lines_from(g@, i as int, count as int) {
                Ok(rest) => Ok::<Seq<Line>, ReadError>(out@ + rest),
                Err(x) => Err(x),
            },
        ensures
            cur.pos == old(cur).pos + 6,
            cursor_ok(cur),
            cur.items == old(cur).items,
            lines_from(g@, 0, count as int) == Ok::<Seq<Line>, ReadError>(out@),
        decreases count - i,
    {
        let idx_wide: u128 = 2 + (i as u128) * 3;
        if idx_wide >= g.len() as u128 {
            proof {
                assert(out@ + Seq::<Line>::empty() =~= out@);
            }
            break;
        }
        let idx = idx_wide as usize;
        let ghost before = out@;
        let ghost here: Seq<Line> = Seq::empty();
        if let Some(record) = group_at(g, idx) {
            let code = num_at(record, 3, 1)?;
            let style = if code == 2 {
                LineStyle::Dotted
            } else if code == 3 {
                LineStyle::Double
            } else {
                LineStyle::Solid
            };
            let width = num_at(record, 4, 1)?;
            let line = Line { style, width };
            proof {
                here = seq![line];
            }
            out.push(line);
        }
        proof {
            assert(out@ =~= before + here);
            match lines_from(g@, i + 1, count as int) {
                Ok(rest) => {
                    assert((before + here) + rest =~= before + (here + rest));
                },
                Err(_) => {},
            }
        }
        i = i + 1;
    }
    cur.skip(1)?;
    cur.skip(6)?;
    cur.skip(2)?;
    Ok(out)
}

/// What the rows section holds, before formats are known.
pub struct RowsRead {
    /// Rows without cells.
    pub bare_rows: Vec<u32>,
    pub cells: Vec<(u32, u32, CellData)>,
    pub row_formats: Vec<(u32, usize)>,
    pub cell_formats: Vec<(u32, u32, usize)>,
}

/// Bit `bit` of the mask, the mask taken as 64 unsigned bits.
pub open spec fn bit_of(mask: i64, bit: u64) -> bool {
    ((mask as u64) / bit) % 2 == 1
}

fn has_bit(mask: i64, bit: u64) -> (b: bool)
    requires
        bit == 2 || bit == 4 || bit == 8 || bit == 16,
    ensures
        b == bit_of(mask, bit),
{
    let m: u64 = #[verifier::truncate] (mask as u64);
    (m / bit) % 2 == 1
}

/// The text at position 1 of the group at `i`, if there is a group there.
pub open spec fn pair_value(g: Seq<Node>, i: int) -> Option<Seq<char>> {
    match group_at_spec(g, i) {
        Some(pair) => Some(text_at_spec(pair@, 1)),
        None => None,
    }
}

/// The text and the template parameter of a cell: the pair at position 2
/// of the text block; an empty language code marks a parameter.
pub open spec fn text_and_param(g: Seq<Node>, i: int) -> (Seq<char>, Seq<char>) {
    match group_at_spec(g, i) {
        Some(block) => match group_at_spec(block@, 2) {
            Some(pair) => if text_at_spec(pair@, 0).len() == 0 {
                (Seq::empty(), text_at_spec(pair@, 1))
            } else {
                (text_at_spec(pair@, 1), Seq::empty())
            },
            None => (Seq::empty(), Seq::empty()),
        },
        None => (Seq::empty(), Seq::empty()),
    }
}

/// A cell record: the mask, the format, then one field for each of the
/// bits 2 (value), 4 (detail), 8 (detail parameter) and 16 (text) that is
/// set, in that order.
pub open spec fn cell_of(g: Seq<Node>) -> Result<(CellView, i64), ReadError> {
    if g.len() == 0 {
        Err(ReadError::EmptyCell)
    } else {
        match node_number(g[0]) {
            Err(e) => Err(e),
            Ok(mask) => {
                let f1: int = if bit_of(mask, 2) { 3 } else { 2 };
                let f2: int = if bit_of(mask, 4) { f1 + 1 } else { f1 };
                let f3: int = if bit_of(mask, 8) { f2 + 1 } else { f2 };
                let value = if bit_of(mask, 2) { pair_value(g, 2) } else { None };
                let detail = if bit_of(mask, 4) { pair_value(g, f1) } else { None };
                let detail_param = if bit_of(mask, 8) { text_at_spec(g, f2) } else { Seq::empty() };
                let tp = if bit_of(mask, 16) { text_and_param(g, f3) } else { (Seq::empty(), Seq::empty()) };
                match num_at_spec(g, 1, 0) {
                    Err(e) => Err(e),
                    Ok(format) => Ok(
                        (
                            CellView {
                                text: tp.0,
                                parameter: tp.1,
                                detail,
                                detail_param,
                                value,
                                ..CellView::blank()
                            },
                            format,
                        ),
                    ),
                }
            },
        }
    }
}

/// One cell record.
fn read_cell(g: &Vec<Node>) -> (r: Result<(CellData, i64), ReadError>)
    ensures
        match cell_of(g@) {
            Ok((v, f)) => r matches Ok((c, f2)) && c@ == v && f2 == f,
            Err(e) => r == Err::<(CellData, i64), ReadError>(e),
        },
{
    if g.len() == 0 {
        return Err(ReadError::EmptyCell);
    }
    let mask = g[0].number()?;
    let mut cell = CellData::blank();
    let mut field: usize = 2;
    if has_bit(mask, 2) {
        if let Some(pair) = group_at(g, field) {
            cell.value = Some(text_at(pair, 1));
        }
        field = field + 1;
    }
    if has_bit(mask, 4) {
        if let Some(pair) = group_at(g, field) {
            cell.detail = Some(text_at(pair, 1));
        }
        field = field + 1;
    }
    if has_bit(mask, 8) {
        cell.detail_param = text_at(g, field);
        field = field + 1;
    }
    let format = num_at(g, 1, 0)?;
    if has_bit(mask, 16) {
        if let Some(block) = group_at(g, field) {
            if let Some(pair) = group_at(block, 2) {
                let lang = text_at(pair, 0);
                let value = text_at(pair, 1);
                if lang.as_str().is_empty() {
                    cell.parameter = value;
                } else {
                    cell.text = value;
                }
            }
        }
    }
    Ok((cell, format))
}

/// The number at position `p` of the top-level items.
pub open spec fn item_number(items: Seq<Node>, p: int) -> Result<i64, ReadError> {
    if 0 <= p < items.len() {
        node_number(items[p])
    } else {
        Err(ReadError::UnexpectedEnd)
    }
}

/// Cells with their row and column, as views.
pub open spec fn cells3(s: Seq<(u32, u32, CellData)>) -> Seq<(u32, u32, CellView)> {
    s.map_values(|t: (u32, u32, CellData)| (t.0, t.1, t.2@))
}

/// What the rows section holds: the cells with their row and column, the
/// rows without cells, and the format references of rows and of cells.
pub struct RowsView {
    pub cells: Seq<(u32, u32, CellView)>,
    pub bare_rows: Seq<u32>,
    pub row_formats: Seq<(u32, usize)>,
    pub cell_formats: Seq<(u32, u32, usize)>,
}

pub open spec fn rv_empty() -> RowsView {
    RowsView { cells: Seq::empty(), bare_rows: Seq::empty(), row_formats: Seq::empty(), cell_formats: Seq::empty() }
}

/// Two parts of the section, one after the other.
pub open spec fn rv_add(a: RowsView, b: RowsView) -> RowsView {
    RowsView {
        cells: a.cells + b.cells,
        bare_rows: a.bare_rows + b.bare_rows,
        row_formats: a.row_formats + b.row_formats,
        cell_formats: a.cell_formats + b.cell_formats,
    }
}

pub open spec fn rows_read_view(out: RowsRead) -> RowsView {
    RowsView {
        cells: cells3(out.cells@),
        bare_rows: out.bare_rows@,
        row_formats: out.row_formats@,
        cell_formats: out.cell_formats@,
    }
}

proof fn lemma_rv(a: RowsView, b: RowsView, c: RowsView)
    ensures
        rv_add(rv_add(a, b), c) == rv_add(a, rv_add(b, c)),
        rv_add(a, rv_empty()) == a,
        rv_add(rv_empty(), a) == a,
{
    assert(rv_add(rv_add(a, b), c).cells =~= rv_add(a, rv_add(b, c)).cells);
    assert(rv_add(rv_add(a, b), c).bare_rows =~= rv_add(a, rv_add(b, c)).bare_rows);
    assert(rv_add(rv_add(a, b), c).row_formats =~= rv_add(a, rv_add(b, c)).row_formats);
    assert(rv_add(rv_add(a, b), c).cell_formats =~= rv_add(a, rv_add(b, c)).cell_formats);
    assert(rv_add(a, rv_empty()).cells =~= a.cells);
    assert(rv_add(a, rv_empty()).bare_rows =~= a.bare_rows);
    assert(rv_add(a, rv_empty()).row_formats =~= a.row_formats);
    assert(rv_add(a, rv_empty()).cell_formats =~= a.cell_formats);
    assert(rv_add(rv_empty(), a).cells =~= a.cells);
    assert(rv_add(rv_empty(), a).bare_rows =~= a.bare_rows);
    assert(rv_add(rv_empty(), a).row_formats =~= a.row_formats);
    assert(rv_add(rv_empty(), a).cell_formats =~= a.cell_formats);
}

/// One cell record's share of the section: the cell, and its format
/// reference when it has one.
pub open spec fn cell_share(row: u32, column: u32, cell: CellView, format: i64) -> RowsView {
    RowsView {
        cells: seq![(row, column, cell)],
        bare_rows: Seq::empty(),
        row_formats: Seq::empty(),
        cell_formats: if format > 0 {
            seq![(row, column, format as usize)]
        } else {
            Seq::empty()
        },
    }
}

/// The cells of row `row` from cell `i` of `count` on, the record of cell
/// `i` at `p` and its column `column`: a cell record is a group, and the
/// column of the next cell follows it. The cells and the position after
/// them.
pub open spec fn row_cells_from(items: Seq<Node>, p: int, row: u32, column: u32, i: int, count: int) -> Result<
    (RowsView, int),
    ReadError,
>
    decreases count - i,
{
    if i >= count {
        Ok((rv_empty(), p))
    } else if !(0 <= p < items.len()) {
        Err(ReadError::UnexpectedEnd)
    } else {
        match items[p] {
            Node::Group(g) => match cell_of(g@) {
                Err(e) => Err(e),
                Ok((cell, f)) => if i + 1 < count {
                    match item_number(items, p + 1) {
                        Err(e) => Err(e),
                        Ok(next) => match row_cells_from(items, p + 2, row, next as u32, i + 1, count) {
                            Ok((rest, e)) => Ok((rv_add(cell_share(row, column, cell, f), rest), e)),
                            Err(e) => Err(e),
                        },
                    }
                } else {
                    Ok((cell_share(row, column, cell, f), p + 1))
                },
            },
            _ => Err(ReadError::ExpectedGroup),
        }
    }
}

/// One row at `p`: its index, its format, its count of cells and, when
/// that is not 0, the column of its first cell and the cells. What it
/// holds and the position after it.
pub open spec fn row_at(items: Seq<Node>, p: int) -> Result<(RowsView, int), ReadError> {
    match item_number(items, p) {
        Err(e) => Err(e),
        Ok(index) => match item_number(items, p + 1) {
            Err(e) => Err(e),
            Ok(fmt) => match item_number(items, p + 2) {
                Err(e) => Err(e),
                Ok(count) => {
                    let head = RowsView {
                        cells: Seq::empty(),
                        bare_rows: if count == 0 {
                            seq![index as u32]
                        } else {
                            Seq::empty()
                        },
                        row_formats: if (fmt as usize) > 0 {
                            seq![(index as u32, fmt as usize)]
                        } else {
                            Seq::empty()
                        },
                        cell_formats: Seq::empty(),
                    };
                    if count == 0 {
                        Ok((head, p + 3))
                    } else {
                        match item_number(items, p + 3) {
                            Err(e) => Err(e),
                            Ok(column) => match row_cells_from(items, p + 4, index as u32, column as u32, 0, count as int) {
                                Err(e) => Err(e),
                                Ok((cs, e)) => Ok((rv_add(head, cs), e)),
                            },
                        }
                    }
                },
            },
        },
    }
}

/// The rows from row `k` of `row_count` on, the first of them at `p`, and
/// the position after them.
pub open spec fn rows_from(items: Seq<Node>, p: int, k: int, row_count: int) -> Result<(RowsView, int), ReadError>
    decreases row_count - k,
{
    if k >= row_count {
        Ok((rv_empty(), p))
    } else {
        match row_at(items, p) {
            Err(e) => Err(e),
            Ok((x, e)) => match rows_from(items, e, k + 1, row_count) {
                Ok((rest, e2)) => Ok((rv_add(x, rest), e2)),
                Err(y) => Err(y),
            },
        }
    }
}

/// The rows section at `p`: the count of rows, then the rows.
pub open spec fn rows_section(items: Seq<Node>, p: int) -> Result<(RowsView, int), ReadError> {
    match item_number(items, p) {
        Err(e) => Err(e),
        Ok(n) => rows_from(items, p + 1, 0, n as int),
    }
}

/// The rows section: for each row its index, format and cells.
fn read_rows(cur: &mut Cursor) -> (r: Result<RowsRead, ReadError>)
    requires
        cursor_ok(old(cur)),
    ensures
        cursor_ok(final(cur)),
        final(cur).items == old(cur).items,
        match rows_section(old(cur).items@, old(cur).pos as int) {
            Ok((v, e)) => r matches Ok(out) && rows_read_view(out) == v && final(cur).pos == e,
            Err(e) => r == Err::<RowsRead, ReadError>(e),
        },
{
    let mut out = RowsRead { bare_rows: Vec::new(), cells: Vec::new(), row_formats: Vec::new(), cell_formats: Vec::new() };
    let ghost items = cur.items@;
    let ghost p0 = cur.pos as int;
    let row_count = cur.number()?;
    proof {
        assert(rows_read_view(out) =~= rv_empty()) by {
            assert(cells3(out.cells@) =~= Seq::<(u32, u32, CellView)>::empty());
        }
        match rows_from(items, cur.pos as int, 0, row_count as int) {
            Ok((rest, e)) => {
                lemma_rv(rv_empty(), rest, rest);
            },
            Err(_) => {},
        }
    }
    let mut k: i64 = 0;
    while k < row_count
        invariant
            cursor_ok(cur),
            cur.items == old(cur).items,
            items == cur.items@,
            items == old(cur).items@,
            p0 == old(cur).pos,
            0 <= k,
            rows_section(items, p0) == match rows_from(items, cur.pos as int, k as int, row_count as int) {
                Ok((rest, e)) => Ok::<(RowsView, int), ReadError>((rv_add(rows_read_view(out), rest), e)),
                Err(x) => Err(x),
            },
        decreases cur.items@.len() - cur.pos,
    {
        let ghost before = rows_read_view(out);
        let ghost at = cur.pos as int;
        read_row(cur, &mut out)?;
        proof {
            match row_at(items, at) {
                Ok((x, e)) => match rows_from(items, e, k + 1, row_count as int) {
                    Ok((rest, e2)) => {
                        lemma_rv(before, x, rest);
                    },
                    Err(_) => {},
                },
                Err(_) => {},
            }
        }
        k = k + 1;
    }
    proof {
        lemma_rv(rows_read_view(out), rv_empty(), rv_empty());
    }
    Ok(out)
}

/// One row: its index, format and cells.
fn read_row(cur: &mut Cursor, out: &mut RowsRead) -> (r: Result<(), ReadError>)
    requires
        cursor_ok(old(cur)),
    ensures
        cursor_ok(final(cur)),
        final(cur).items == old(cur).items,
        r is Ok ==> final(cur).pos > old(cur).pos,
        match row_at(old(cur).items@, old(cur).pos as int) {
            Ok((v, e)) => r is Ok && rows_read_view(*final(out)) == rv_add(rows_read_view(*old(out)), v)
                && final(cur).pos == e,
            Err(x) => r == Err::<(), ReadError>(x),
        },
{
    let ghost v0 = rows_read_view(*out);
    let index: u32 = #[verifier::truncate] (cur.number()? as u32);
    let row_format: usize = #[verifier::truncate] (cur.number()? as usize);
    if row_format > 0 {
        out.row_formats.push((index, row_format));
    }
    let count = cur.number()?;
    if count == 0 {
        out.bare_rows.push(index);
    }
    let ghost head = RowsView {
        cells: Seq::empty(),
        bare_rows: if count == 0 {
            seq![index]
        } else {
            Seq::empty()
        },
        row_formats: if row_format > 0 {
            seq![(index, row_format)]
        } else {
            Seq::empty()
        },
        cell_formats: Seq::empty(),
    };
    proof {
        assert(rows_read_view(*out).cells =~= v0.cells + head.cells);
        assert(rows_read_view(*out).bare_rows =~= v0.bare_rows + head.bare_rows);
        assert(rows_read_view(*out).row_formats =~= v0.row_formats + head.row_formats);
        assert(rows_read_view(*out).cell_formats =~= v0.cell_formats + head.cell_formats);
        assert(rows_read_view(*out) == rv_add(v0, head));
    }
    if count != 0 {
        let column: u32 = #[verifier::truncate] (cur.number()? as u32);
        let ghost at = cur.pos as int;
        read_row_cells(cur, out, index, column, count)?;
        proof {
            match row_cells_from(old(cur).items@, at, index, column, 0, count as int) {
                Ok((cs, e)) => {
                    lemma_rv(v0, head, cs);
                },
                Err(_) => {},
            }
        }
    }
    Ok(())
}

/// The cells of one row, appended to the cells read so far; the formats of
/// those that have one, to the cell formats.
fn read_row_cells(cur: &mut Cursor, out: &mut RowsRead, index: u32, first_column: u32, count: i64) -> (r: Result<
    (),
    ReadError,
>)
    requires
        cursor_ok(old(cur)),
    ensures
        cursor_ok(final(cur)),
        final(cur).items == old(cur).items,
        final(cur).pos >= old(cur).pos,
        match row_cells_from(old(cur).items@, old(cur).pos as int, index, first_column, 0, count as int) {
            Ok((v, e)) => r is Ok && rows_read_view(*final(out)) == rv_add(rows_read_view(*old(out)), v)
                && final(cur).pos == e,
            Err(x) => r == Err::<(), ReadError>(x),
        },
{
    let ghost items = cur.items@;
    let ghost p0 = cur.pos as int;
    let ghost acc: RowsView = rv_empty();
    let mut column = first_column;
    let mut i: i64 = 0;
    proof {
        lemma_rv(rows_read_view(*out), rv_empty(), rv_empty());
        match row_cells_from(items, p0, index, column, 0, count as int) {
            Ok((v, e)) => {
                lemma_rv(rv_empty(), v, v);
            },
            Err(_) => {},
        }
    }
    while i < count
        invariant
            cursor_ok(cur),
            cur.items == old(cur).items,
            items == cur.items@,
            items == old(cur).items@,
            p0 == old(cur).pos,
            cur.pos >= p0,
            0 <= i,
            rows_read_view(*out) == rv_add(rows_read_view(*old(out)), acc),
            row_cells_from(items, p0, index, first_column, 0, count as int) == match row_cells_from(
                items,
                cur.pos as int,
                index,
                column,
                i as int,
                count as int,
            ) {
                Ok((v, e)) => Ok::<(RowsView, int), ReadError>((rv_add(acc, v), e)),
                Err(x) => Err(x),
            },
        decreases cur.items@.len() - cur.pos,
    {
        let ghost pos = cur.pos as int;
        let ghost prev = rows_read_view(*out);
        let g = cur.group()?;
        let (cell, format) = read_cell(g)?;
        if format > 0 {
            out.cell_formats.push((index, column, #[verifier::truncate] (format as usize)));
        }
        let ghost share = cell_share(index, column, cell@, format);
        out.cells.push((index, column, cell));
        proof {
            assert(rows_read_view(*out).cells =~= prev.cells + share.cells);
            assert(rows_read_view(*out).bare_rows =~= prev.bare_rows + share.bare_rows);
            assert(rows_read_view(*out).row_formats =~= prev.row_formats + share.row_formats);
            assert(rows_read_view(*out).cell_formats =~= prev.cell_formats + share.cell_formats);
            assert(rows_read_view(*out) == rv_add(prev, share));
            lemma_rv(rows_read_view(*old(out)), acc, share);
        }
        if i + 1 < count {
            column = #[verifier::truncate] (cur.number()? as u32);
            proof {
                match row_cells_from(items, pos + 2, index, column, i + 1, count as int) {
                    Ok((v, e)) => {
                        lemma_rv(acc, share, v);
                    },
                    Err(_) => {},
                }
            }
        } else {
            proof {
                lemma_rv(rv_add(acc, share), rv_empty(), rv_empty());
            }
        }
        proof {
            acc = rv_add(acc, share);
        }
        i = i + 1;
    }
    proof {
        lemma_rv(acc, rv_empty(), rv_empty());
    }
    Ok(())
}

pub open spec fn clamped(v: i64, clamp: bool) -> i64 {
    if clamp && v < 0 {
        0
    } else {
        v
    }
}

/// The pairs from pair `i` on, up to `count` of them and while the group
/// lasts.
pub open spec fn refs_from(g: Seq<Node>, clamp: bool, i: int, count: int) -> Result<Seq<(u32, usize)>, ReadError>
    decreases count - i,
{
    if i >= count || i < 0 || 5 + 2 * i >= g.len() {
        Ok(Seq::empty())
    } else {
        match node_number(g[4 + 2 * i]) {
            Err(e) => Err(e),
            Ok(x) => match node_number(g[5 + 2 * i]) {
                Err(e) => Err(e),
                Ok(y) => match refs_from(g, clamp, i + 1, count) {
                    Ok(rest) => Ok(seq![(clamped(x, clamp) as u32, clamped(y, clamp) as usize)] + rest),
                    Err(e) => Err(e),
                },
            },
        }
    }
}

/// Pairs `column, format` after a count at position 3 of a descriptor;
/// with `clamp`, negative numbers read as 0.
pub open spec fn refs_of(g: Seq<Node>, clamp: bool) -> Result<Seq<(u32, usize)>, ReadError> {
    if g.len() > 4 {
        match node_number(g[3]) {
            Err(e) => Err(e),
            Ok(n) => refs_from(g, clamp, 0, clamped(n, clamp) as usize as int),
        }
    } else {
        Ok(Seq::empty())
    }
}

/// Pairs `column, format` after a count at position 3 of a column-set
/// descriptor.
fn read_refs(g: &Vec<Node>, clamp: bool) -> (r: Result<Vec<(u32, usize)>, ReadError>)
    ensures
        match refs_of(g@, clamp) {
            Ok(v) => r matches Ok(o) && o@ == v,
            Err(e) => r == Err::<Vec<(u32, usize)>, ReadError>(e),
        },
{
    let mut out: Vec<(u32, usize)> = Vec::new();
    if g.len() > 4 {
        let n = g[3].number()?;
        let n = if clamp && n < 0 { 0 } else { n };
        let count: usize = #[verifier::truncate] (n as usize);
        let mut i: usize = 0;
        proof {
            assert(out@ + Seq::<(u32, usize)>::empty() =~= out@);
        }
        while i < count
            invariant
                i <= count,
                g@.len() > 4,
                refs_of(g@, clamp) == match refs_from(g@, clamp, i as int, count as int) {
                    Ok(rest) => Ok::<Seq<(u32, usize)>, ReadError>(out@ + rest),
                    Err(e) => Err(e),
                },
            ensures
                refs_of(g@, clamp) == Ok::<Seq<(u32, usize)>, ReadError>(out@),
            decreases count - i,
        {
            let b_wide: u128 = 5 + (i as u128) * 2;
            if b_wide >= g.len() as u128 {
                proof {
                    assert(out@ + Seq::<(u32, usize)>::empty() =~= out@);
                }
                break;
            }
            let a = (4 + (i as u128) * 2) as usize;
            let b = b_wide as usize;
            if b < g.len() {
                let x = g[a].number()?;
                let y = g[b].number()?;
                let x = if clamp && x < 0 { 0 } else { x };
                let y = if clamp && y < 0 { 0 } else { y };
                let ghost before = out@;
                out.push((#[verifier::truncate] (x as u32), #[verifier::truncate] (y as usize)));
                proof {
                    match refs_from(g@, clamp, i + 1, count as int) {
                        Ok(rest) => {
                            assert(before + (seq![(x as u32, y as usize)] + rest) =~= out@ + rest);
                        },
                        Err(_) => {},
                    }
                }
            }
            i = i + 1;
        }
    }
    Ok(out)
}

fn clamp0(v: i64) -> (r: i64)
    ensures
        r == (if v < 0 { 0 } else { v }),
{
    if v < 0 {
        0
    } else {
        v
    }
}

/// The columns section and the column sets after it.
pub struct ColumnsRead {
    pub width: u32,
    pub column_formats: Vec<(u32, usize)>,
    pub height: u32,
    pub raw_sets: Vec<(String, u32, Vec<(u32, usize)>)>,
    pub bindings: Vec<(u32, u32)>,
}

/// The columns section as plain values.
pub struct ColumnsView {
    pub width: u32,
    pub column_formats: Seq<(u32, usize)>,
    pub height: u32,
    pub raw_sets: Seq<(Seq<char>, u32, Seq<(u32, usize)>)>,
    pub bindings: Seq<(u32, u32)>,
}

pub open spec fn raw_sets_view(s: Seq<(String, u32, Vec<(u32, usize)>)>) -> Seq<(Seq<char>, u32, Seq<(u32, usize)>)> {
    s.map_values(|t: (String, u32, Vec<(u32, usize)>)| (t.0@, t.1, t.2@))
}

pub open spec fn columns_view(c: ColumnsRead) -> ColumnsView {
    ColumnsView {
        width: c.width,
        column_formats: c.column_formats@,
        height: c.height,
        raw_sets: raw_sets_view(c.raw_sets@),
        bindings: c.bindings@,
    }
}

/// The group at position `p` of the top-level items.
pub open spec fn item_group(items: Seq<Node>, p: int) -> Result<Vec<Node>, ReadError> {
    if 0 <= p < items.len() {
        match items[p] {
            Node::Group(g) => Ok(g),
            _ => Err(ReadError::ExpectedGroup),
        }
    } else {
        Err(ReadError::UnexpectedEnd)
    }
}

/// A column set descriptor: the count of columns at 0 (negative reads as
/// 0), the id at 2, the pairs `column, format` after position 3.
pub open spec fn set_of(g: Seq<Node>) -> Result<(Seq<char>, u32, Seq<(u32, usize)>), ReadError> {
    match num_at_spec(g, 0, 0) {
        Err(e) => Err(e),
        Ok(n) => match refs_of(g, true) {
            Err(e) => Err(e),
            Ok(refs) => Ok((text_at_spec(g, 2), clamp0_spec(n) as u32, refs)),
        },
    }
}

/// The column sets from set `k` of `n` on, one group each.
pub open spec fn sets_from(items: Seq<Node>, p: int, k: int, n: int) -> Result<
    (Seq<(Seq<char>, u32, Seq<(u32, usize)>)>, int),
    ReadError,
>
    decreases n - k,
{
    if k >= n {
        Ok((Seq::empty(), p))
    } else {
        match item_group(items, p) {
            Err(e) => Err(e),
            Ok(g) => match set_of(g@) {
                Err(e) => Err(e),
                Ok(x) => match sets_from(items, p + 1, k + 1, n) {
                    Ok((rest, e)) => Ok((seq![x] + rest, e)),
                    Err(y) => Err(y),
                },
            },
        }
    }
}

/// The bindings `row, set` from binding `k` of `n` on, two numbers each
/// (negative reads as 0).
pub open spec fn bindings_from(items: Seq<Node>, p: int, k: int, n: int) -> Result<(Seq<(u32, u32)>, int), ReadError>
    decreases n - k,
{
    if k >= n {
        Ok((Seq::empty(), p))
    } else {
        match item_number(items, p) {
            Err(e) => Err(e),
            Ok(a) => match item_number(items, p + 1) {
                Err(e) => Err(e),
                Ok(b) => match bindings_from(items, p + 2, k + 1, n) {
                    Ok((rest, e)) => Ok((seq![(clamp0_spec(a) as u32, clamp0_spec(b) as u32)] + rest, e)),
                    Err(y) => Err(y),
                },
            },
        }
    }
}

/// The columns section at `p`: the column descriptor (count at 0, pairs
/// `column, format` after 3), the height, the count of column sets and the
/// sets, the count of bindings and the bindings.
pub open spec fn columns_section(items: Seq<Node>, p: int) -> Result<(ColumnsView, int), ReadError> {
    match item_group(items, p) {
        Err(e) => Err(e),
        Ok(cols) => match num_at_spec(cols@, 0, 0) {
            Err(e) => Err(e),
            Ok(w) => match refs_of(cols@, false) {
                Err(e) => Err(e),
                Ok(cf) => match item_number(items, p + 1) {
                    Err(e) => Err(e),
                    Ok(h) => match item_number(items, p + 2) {
                        Err(e) => Err(e),
                        Ok(sc) => match sets_from(items, p + 3, 0, sc as usize as int) {
                            Err(e) => Err(e),
                            Ok((sets, e1)) => match item_number(items, e1) {
                                Err(e) => Err(e),
                                Ok(bc) => match bindings_from(items, e1 + 1, 0, bc as usize as int) {
                                    Err(e) => Err(e),
                                    Ok((b, e2)) => Ok(
                                        (
                                            ColumnsView {
                                                width: w as u32,
                                                column_formats: cf,
                                                height: h as u32,
                                                raw_sets: sets,
                                                bindings: b,
                                            },
                                            e2,
                                        ),
                                    ),
                                },
                            },
                        },
                    },
                },
            },
        },
    }
}

fn read_sets(cur: &mut Cursor, n: usize) -> (r: Result<Vec<(String, u32, Vec<(u32, usize)>)>, ReadError>)
    requires
        cursor_ok(old(cur)),
    ensures
        cursor_ok(final(cur)),
        final(cur).items == old(cur).items,
        match sets_from(old(cur).items@, old(cur).pos as int, 0, n as int) {
            Ok((v, e)) => r matches Ok(o) && raw_sets_view(o@) == v && final(cur).pos == e,
            Err(x) => r == Err::<Vec<(String, u32, Vec<(u32, usize)>)>, ReadError>(x),
        },
{
    let ghost items = cur.items@;
    let ghost p0 = cur.pos as int;
    let mut raw_sets: Vec<(String, u32, Vec<(u32, usize)>)> = Vec::new();
    let mut k: usize = 0;
    proof {
        match sets_from(items, p0, 0, n as int) {
            Ok((v, e)) => {
                assert(raw_sets_view(raw_sets@) + v =~= v);
            },
            Err(_) => {},
        }
    }
    while k < n
        invariant
            cursor_ok(cur),
            cur.items == old(cur).items,
            items == old(cur).items@,
            p0 == old(cur).pos,
            sets_from(items, p0, 0, n as int) == match sets_from(items, cur.pos as int, k as int, n as int) {
                Ok((rest, e)) => Ok::<(Seq<(Seq<char>, u32, Seq<(u32, usize)>)>, int), ReadError>(
                    (raw_sets_view(raw_sets@) + rest, e),
                ),
                Err(x) => Err(x),
            },
        decreases cur.items@.len() - cur.pos,
    {
        let ghost pos = cur.pos as int;
        let g = cur.group()?;
        let count: u32 = #[verifier::truncate] (clamp0(num_at(g, 0, 0)?) as u32);
        let id = text_at(g, 2);
        let formats = read_refs(g, true)?;
        let ghost x = (id@, count, formats@);
        let ghost before = raw_sets_view(raw_sets@);
        raw_sets.push((id, count, formats));
        proof {
            assert(raw_sets_view(raw_sets@) =~= before.push(x));
            match sets_from(items, pos + 1, k + 1, n as int) {
                Ok((rest, e)) => {
                    assert(before.push(x) + rest =~= before + (seq![x] + rest));
                },
                Err(_) => {},
            }
        }
        k = k + 1;
    }
    proof {
        assert(raw_sets_view(raw_sets@) + Seq::<(Seq<char>, u32, Seq<(u32, usize)>)>::empty() =~= raw_sets_view(
            raw_sets@,
        ));
    }
    Ok(raw_sets)
}

fn read_bindings(cur: &mut Cursor, n: usize) -> (r: Result<Vec<(u32, u32)>, ReadError>)
    requires
        cursor_ok(old(cur)),
    ensures
        cursor_ok(final(cur)),
        final(cur).items == old(cur).items,
        match bindings_from(old(cur).items@, old(cur).pos as int, 0, n as int) {
            Ok((v, e)) => r matches Ok(o) && o@ == v && final(cur).pos == e,
            Err(x) => r == Err::<Vec<(u32, u32)>, ReadError>(x),
        },
{
    let ghost items = cur.items@;
    let ghost p0 = cur.pos as int;
    let mut bindings: Vec<(u32, u32)> = Vec::new();
    let mut k: usize = 0;
    proof {
        match bindings_from(items, p0, 0, n as int) {
            Ok((v, e)) => {
                assert(bindings@ + v =~= v);
            },
            Err(_) => {},
        }
    }
    while k < n
        invariant
            cursor_ok(cur),
            cur.items == old(cur).items,
            items == old(cur).items@,
            p0 == old(cur).pos,
            bindings_from(items, p0, 0, n as int) == match bindings_from(items, cur.pos as int, k as int, n as int) {
                Ok((rest, e)) => Ok::<(Seq<(u32, u32)>, int), ReadError>((bindings@ + rest, e)),
                Err(x) => Err(x),
            },
        decreases cur.items@.len() - cur.pos,
    {
        let ghost pos = cur.pos as int;
        let row: u32 = #[verifier::truncate] (clamp0(cur.number()?) as u32);
        let set: u32 = #[verifier::truncate] (clamp0(cur.number()?) as u32);
        let ghost before = bindings@;
        bindings.push((row, set));
        proof {
            match bindings_from(items, pos + 2, k + 1, n as int) {
                Ok((rest, e)) => {
                    assert(before.push((row, set)) + rest =~= before + (seq![(row, set)] + rest));
                },
                Err(_) => {},
            }
        }
        k = k + 1;
    }
    proof {
        assert(bindings@ + Seq::<(u32, u32)>::empty() =~= bindings@);
    }
    Ok(bindings)
}

fn read_columns(cur: &mut Cursor) -> (r: Result<ColumnsRead, ReadError>)
    requires
        cursor_ok(old(cur)),
    ensures
        cursor_ok(final(cur)),
        final(cur).items == old(cur).items,
        match columns_section(old(cur).items@, old(cur).pos as int) {
            Ok((v, e)) => r matches Ok(o) && columns_view(o) == v && final(cur).pos == e,
            Err(x) => r == Err::<ColumnsRead, ReadError>(x),
        },
{
    let columns = cur.group()?;
    let width: u32 = #[verifier::truncate] (num_at(columns, 0, 0)? as u32);
    let column_formats = read_refs(columns, false)?;
    let height: u32 = #[verifier::truncate] (cur.number()? as u32);
    let set_count: usize = #[verifier::truncate] (cur.number()? as usize);
    let raw_sets = read_sets(cur, set_count)?;
    let binding_count: usize = #[verifier::truncate] (cur.number()? as usize);
    let bindings = read_bindings(cur, binding_count)?;
    Ok(ColumnsRead { width, column_formats, height, raw_sets, bindings })
}

/// A drawing record: the grid box at positions 2 to 9.
pub open spec fn drawing_box_of(g: Seq<Node>) -> Result<(u32, u32, i64, i64, u32, u32, i64, i64), ReadError> {
    match num_at_spec(g, 2, 0) {
        Err(e) => Err(e),
        Ok(c1) => match num_at_spec(g, 3, 0) {
            Err(e) => Err(e),
            Ok(r1) => match num_at_spec(g, 4, 0) {
                Err(e) => Err(e),
                Ok(oc1) => match num_at_spec(g, 5, 0) {
                    Err(e) => Err(e),
                    Ok(or1) => match num_at_spec(g, 6, 0) {
                        Err(e) => Err(e),
                        Ok(c2) => match num_at_spec(g, 7, 0) {
                            Err(e) => Err(e),
                            Ok(r2) => match num_at_spec(g, 8, 0) {
                                Err(e) => Err(e),
                                Ok(oc2) => match num_at_spec(g, 9, 0) {
                                    Err(e) => Err(e),
                                    Ok(or2) => Ok((c1 as u32, r1 as u32, oc1, or1, c2 as u32, r2 as u32, oc2, or2)),
                                },
                            },
                        },
                    },
                },
            },
        },
    }
}

/// The drawing records from `k` of `n` on, one group each.
pub open spec fn drawings_from(items: Seq<Node>, p: int, k: int, n: int) -> Result<
    (Seq<(u32, u32, i64, i64, u32, u32, i64, i64)>, int),
    ReadError,
>
    decreases n - k,
{
    if k >= n {
        Ok((Seq::empty(), p))
    } else {
        match item_group(items, p) {
            Err(e) => Err(e),
            Ok(g) => match drawing_box_of(g@) {
                Err(e) => Err(e),
                Ok(x) => match drawings_from(items, p + 1, k + 1, n) {
                    Ok((rest, e)) => Ok((seq![x] + rest, e)),
                    Err(y) => Err(y),
                },
            },
        }
    }
}

/// A row group as plain values: first and last row, level, name,
/// collapsed.
pub open spec fn row_group_view(g: RowGroup) -> (u32, u32, u32, Seq<char>, bool) {
    (g.r1, g.r2, g.level, g.name@, g.collapsed)
}

pub open spec fn row_groups_view(s: Seq<RowGroup>) -> Seq<(u32, u32, u32, Seq<char>, bool)> {
    s.map_values(|g: RowGroup| row_group_view(g))
}

/// A row group record: first row, last row and level at 0 to 2 (negative
/// reads as 0), the collapsed flag at 4, the name in the pair at 2 of the
/// group at 3.
pub open spec fn row_group_of(g: Seq<Node>) -> Result<(u32, u32, u32, Seq<char>, bool), ReadError> {
    let name = match group_at_spec(g, 3) {
        Some(loc) => match group_at_spec(loc@, 2) {
            Some(pair) => text_at_spec(pair@, 1),
            None => Seq::empty(),
        },
        None => Seq::empty(),
    };
    match num_at_spec(g, 0, 0) {
        Err(e) => Err(e),
        Ok(a) => match num_at_spec(g, 1, 0) {
            Err(e) => Err(e),
            Ok(b) => match num_at_spec(g, 2, 0) {
                Err(e) => Err(e),
                Ok(l) => match num_at_spec(g, 4, 0) {
                    Err(e) => Err(e),
                    Ok(f) => Ok((clamp0_spec(a) as u32, clamp0_spec(b) as u32, clamp0_spec(l) as u32, name, f != 0)),
                },
            },
        },
    }
}

/// The row groups from `k` of `n` on: a record and one item after it each.
pub open spec fn groups_from(items: Seq<Node>, p: int, k: int, n: int) -> Result<
    (Seq<(u32, u32, u32, Seq<char>, bool)>, int),
    ReadError,
>
    decreases n - k,
{
    if k >= n {
        Ok((Seq::empty(), p))
    } else {
        match item_group(items, p) {
            Err(e) => Err(e),
            Ok(g) => match row_group_of(g@) {
                Err(e) => Err(e),
                Ok(x) => if p + 2 > items.len() {
                    Err(ReadError::UnexpectedEnd)
                } else {
                    match groups_from(items, p + 2, k + 1, n) {
                        Ok((rest, e)) => Ok((seq![x] + rest, e)),
                        Err(y) => Err(y),
                    }
                },
            },
        }
    }
}

/// The drawings and row groups at `p`: one item, the count of drawings and
/// their records, the count of row groups and theirs, three items.
pub open spec fn drawings_section(items: Seq<Node>, p: int) -> Result<
    ((Seq<(u32, u32, i64, i64, u32, u32, i64, i64)>, Seq<(u32, u32, u32, Seq<char>, bool)>), int),
    ReadError,
> {
    if p + 1 > items.len() {
        Err(ReadError::UnexpectedEnd)
    } else {
        match item_number(items, p + 1) {
            Err(e) => Err(e),
            Ok(dc) => match drawings_from(items, p + 2, 0, dc as usize as int) {
                Err(e) => Err(e),
                Ok((ds, e1)) => match item_number(items, e1) {
                    Err(e) => Err(e),
                    Ok(gc) => match groups_from(items, e1 + 1, 0, gc as usize as int) {
                        Err(e) => Err(e),
                        Ok((gs, e2)) => if e2 + 3 > items.len() {
                            Err(ReadError::UnexpectedEnd)
                        } else {
                            Ok(((ds, gs), e2 + 3))
                        },
                    },
                },
            },
        }
    }
}

fn read_drawing_boxes(cur: &mut Cursor, n: usize) -> (r: Result<Vec<(u32, u32, i64, i64, u32, u32, i64, i64)>, ReadError>)
    requires
        cursor_ok(old(cur)),
    ensures
        cursor_ok(final(cur)),
        final(cur).items == old(cur).items,
        match drawings_from(old(cur).items@, old(cur).pos as int, 0, n as int) {
            Ok((v, e)) => r matches Ok(o) && o@ == v && final(cur).pos == e,
            Err(x) => r == Err::<Vec<(u32, u32, i64, i64, u32, u32, i64, i64)>, ReadError>(x),
        },
{
    let ghost items = cur.items@;
    let ghost p0 = cur.pos as int;
    let mut cells: Vec<(u32, u32, i64, i64, u32, u32, i64, i64)> = Vec::new();
    let mut k: usize = 0;
    proof {
        match drawings_from(items, p0, 0, n as int) {
            Ok((v, e)) => {
                assert(cells@ + v =~= v);
            },
            Err(_) => {},
        }
    }
    while k < n
        invariant
            cursor_ok(cur),
            cur.items == old(cur).items,
            items == old(cur).items@,
            p0 == old(cur).pos,
            drawings_from(items, p0, 0, n as int) == match drawings_from(items, cur.pos as int, k as int, n as int) {
                Ok((rest, e)) => Ok::<(Seq<(u32, u32, i64, i64, u32, u32, i64, i64)>, int), ReadError>(
                    (cells@ + rest, e),
                ),
                Err(x) => Err(x),
            },
        decreases cur.items@.len() - cur.pos,
    {
        let ghost pos = cur.pos as int;
        let g = cur.group()?;
        let c1: u32 = #[verifier::truncate] (num_at(g, 2, 0)? as u32);
        let r1: u32 = #[verifier::truncate] (num_at(g, 3, 0)? as u32);
        let oc1 = num_at(g, 4, 0)?;
        let or1 = num_at(g, 5, 0)?;
        let c2: u32 = #[verifier::truncate] (num_at(g, 6, 0)? as u32);
        let r2: u32 = #[verifier::truncate] (num_at(g, 7, 0)? as u32);
        let oc2 = num_at(g, 8, 0)?;
        let or2 = num_at(g, 9, 0)?;
        let ghost before = cells@;
        let ghost x = (c1, r1, oc1, or1, c2, r2, oc2, or2);
        cells.push((c1, r1, oc1, or1, c2, r2, oc2, or2));
        proof {
            match drawings_from(items, pos + 1, k + 1, n as int) {
                Ok((rest, e)) => {
                    assert(before.push(x) + rest =~= before + (seq![x] + rest));
                },
                Err(_) => {},
            }
        }
        k = k + 1;
    }
    proof {
        assert(cells@ + Seq::<(u32, u32, i64, i64, u32, u32, i64, i64)>::empty() =~= cells@);
    }
    Ok(cells)
}

fn read_row_groups(cur: &mut Cursor, n: usize) -> (r: Result<Vec<RowGroup>, ReadError>)
    requires
        cursor_ok(old(cur)),
    ensures
        cursor_ok(final(cur)),
        final(cur).items == old(cur).items,
        match groups_from(old(cur).items@, old(cur).pos as int, 0, n as int) {
            Ok((v, e)) => r matches Ok(o) && row_groups_view(o@) == v && final(cur).pos == e,
            Err(x) => r == Err::<Vec<RowGroup>, ReadError>(x),
        },
{
    let ghost items = cur.items@;
    let ghost p0 = cur.pos as int;
    let mut groups: Vec<RowGroup> = Vec::new();
    let mut k: usize = 0;
    proof {
        match groups_from(items, p0, 0, n as int) {
            Ok((v, e)) => {
                assert(row_groups_view(groups@) + v =~= v);
            },
            Err(_) => {},
        }
    }
    while k < n
        invariant
            cursor_ok(cur),
            cur.items == old(cur).items,
            items == old(cur).items@,
            p0 == old(cur).pos,
            groups_from(items, p0, 0, n as int) == match groups_from(items, cur.pos as int, k as int, n as int) {
                Ok((rest, e)) => Ok::<(Seq<(u32, u32, u32, Seq<char>, bool)>, int), ReadError>(
                    (row_groups_view(groups@) + rest, e),
                ),
                Err(x) => Err(x),
            },
        decreases cur.items@.len() - cur.pos,
    {
        let ghost pos = cur.pos as int;
        let g = cur.group()?;
        let name = match group_at(g, 3) {
            Some(loc) => match group_at(loc, 2) {
                Some(pair) => text_at(pair, 1),
                None => String::new(),
            },
            None => String::new(),
        };
        let r1: u32 = #[verifier::truncate] (clamp0(num_at(g, 0, 0)?) as u32);
        let r2: u32 = #[verifier::truncate] (clamp0(num_at(g, 1, 0)?) as u32);
        let level: u32 = #[verifier::truncate] (clamp0(num_at(g, 2, 0)?) as u32);
        let collapsed = num_at(g, 4, 0)? != 0;
        let ghost before = row_groups_view(groups@);
        let group = RowGroup { r1, r2, level, name, collapsed };
        let ghost x = row_group_view(group);
        groups.push(group);
        proof {
            assert(row_groups_view(groups@) =~= before.push(x));
        }
        cur.skip(1)?;
        proof {
            match groups_from(items, pos + 2, k + 1, n as int) {
                Ok((rest, e)) => {
                    assert(before.push(x) + rest =~= before + (seq![x] + rest));
                },
                Err(_) => {},
            }
        }
        k = k + 1;
    }
    proof {
        assert(row_groups_view(groups@) + Seq::<(u32, u32, u32, Seq<char>, bool)>::empty() =~= row_groups_view(
            groups@,
        ));
    }
    Ok(groups)
}

/// Drawings (the grid cells they cover and the offsets) and row groups.
fn read_drawings_groups(cur: &mut Cursor) -> (r: Result<(Vec<(u32, u32, i64, i64, u32, u32, i64, i64)>, Vec<RowGroup>), ReadError>)
    requires
        cursor_ok(old(cur)),
    ensures
        cursor_ok(final(cur)),
        final(cur).items == old(cur).items,
        match drawings_section(old(cur).items@, old(cur).pos as int) {
            Ok(((ds, gs), e)) => r matches Ok((o1, o2)) && o1@ == ds && row_groups_view(o2@) == gs && final(cur).pos
                == e,
            Err(x) => r == Err::<(Vec<(u32, u32, i64, i64, u32, u32, i64, i64)>, Vec<RowGroup>), ReadError>(x),
        },
{
    cur.skip(1)?;
    let drawing_count: usize = #[verifier::truncate] (cur.number()? as usize);
    let cells = read_drawing_boxes(cur, drawing_count)?;
    let group_count: usize = #[verifier::truncate] (cur.number()? as usize);
    let groups = read_row_groups(cur, group_count)?;
    cur.skip(3)?;
    Ok((cells, groups))
}

/// What a cell says, apart from how it looks: its text, template
/// parameter, value, detail and detail parameter.
pub open spec fn content(v: CellView) -> (Seq<char>, Seq<char>, Option<Seq<char>>, Option<Seq<char>>, Seq<char>) {
    (v.text, v.parameter, v.value, v.detail, v.detail_param)
}

/// Two documents say the same in every cell.
pub open spec fn same_contents(a: &SpreadDocData, b: &SpreadDocData) -> bool {
    forall|r: u32, c: u32| #[trigger] content(a.cell_or_blank(r, c)) == content(b.cell_or_blank(r, c))
}

/// A cell after a record of the rows section went into it: the detail and
/// its parameter when the record has them, then its value, else its text,
/// else its parameter.
pub open spec fn put_record(v: CellView, rec: CellView) -> CellView {
    let v1 = match rec.detail {
        Some(d) => CellView { detail: Some(d), ..v },
        None => v,
    };
    let v2 = if rec.detail_param.len() > 0 {
        CellView { detail_param: rec.detail_param, ..v1 }
    } else {
        v1
    };
    match rec.value {
        Some(p) => CellView { value: Some(p), text: Seq::empty(), parameter: Seq::empty(), ..v2 },
        None => if rec.text.len() > 0 {
            CellView { text: rec.text, parameter: Seq::empty(), ..v2 }
        } else if rec.parameter.len() > 0 {
            CellView { parameter: rec.parameter, text: Seq::empty(), ..v2 }
        } else {
            v2
        },
    }
}

/// Cell `(r, c)`, first `base`, after the records in order.
pub open spec fn applied(base: CellView, cells: Seq<(u32, u32, CellView)>, r: u32, c: u32) -> CellView
    decreases cells.len(),
{
    if cells.len() == 0 {
        base
    } else {
        let prev = applied(base, cells.drop_last(), r, c);
        let e = cells.last();
        if e.0 == r && e.1 == c {
            put_record(prev, e.2)
        } else {
            prev
        }
    }
}

proof fn lemma_cell_after(a: &SpreadDocData, b: &SpreadDocData, r0: u32, c0: u32, v: CellView)
    requires
        b.rows_view() == a.with_cell(r0, c0, v),
    ensures
        forall|r: u32, c: u32| #[trigger]
            b.cell_or_blank(r, c) == if r == r0 && c == c0 {
                v
            } else {
                a.cell_or_blank(r, c)
            },
{
    assert forall|r: u32, c: u32| #[trigger]
        b.cell_or_blank(r, c) == if r == r0 && c == c0 {
            v
        } else {
            a.cell_or_blank(r, c)
        } by {
        if r == r0 {
            assert(b.row_or_empty(r) == RowView {
                height: a.row_or_empty(r0).height,
                cells: a.row_or_empty(r0).cells.insert(c0, v),
            });
        } else {
            assert(b.row_or_empty(r) == a.row_or_empty(r));
        }
    }
}

proof fn lemma_row_kept(a: &SpreadDocData, b: &SpreadDocData, r0: u32, h: Option<i64>)
    requires
        b.rows_view() == a.rows_view().insert(r0, RowView { height: h, cells: a.row_or_empty(r0).cells }),
    ensures
        forall|r: u32, c: u32| #[trigger] b.cell_or_blank(r, c) == a.cell_or_blank(r, c),
{
    assert forall|r: u32, c: u32| #[trigger] b.cell_or_blank(r, c) == a.cell_or_blank(r, c) by {
        if r == r0 {
            assert(b.row_or_empty(r).cells == a.row_or_empty(r).cells);
        } else {
            assert(b.row_or_empty(r) == a.row_or_empty(r));
        }
    }
}

/// One record into cell `(r, c)`.
fn put_cell_record(doc: &mut SpreadDocData, r: u32, c: u32, cell: &CellData)
    requires
        old(doc).wf(),
        r < u32::MAX,
        c < u32::MAX,
    ensures
        final(doc).wf(),
        forall|rr: u32, cc: u32| #[trigger]
            final(doc).cell_or_blank(rr, cc) == if rr == r && cc == c {
                put_record(old(doc).cell_or_blank(r, c), cell@)
            } else {
                old(doc).cell_or_blank(rr, cc)
            },
        final(doc).same_but_rows(old(doc)),
        forall|rr: u32| #[trigger] final(doc).row_or_empty(rr).height == old(doc).row_or_empty(rr).height,
        touched_if(final(doc), old(doc), r, c, true),
{
    let ghost d0 = *doc;
    proof {
        lemma_no_step(doc, r, c);
    }
    let ghost t1 = cell.detail is Some;
    if let Some(d) = &cell.detail {
        let ghost before = *doc;
        doc.set_cell_detail(r, c, d.as_str());
        proof {
            lemma_set_step(&before, doc, r, c, CellView { detail: Some(d@), ..before.cell_or_blank(r, c) });
            lemma_touch(&before, doc, r, c, CellView { detail: Some(d@), ..before.cell_or_blank(r, c) });
        }
    }
    let ghost d1 = *doc;
    proof {
        lemma_no_step(doc, r, c);
    }
    let ghost t2 = cell.detail_param@.len() > 0;
    if !cell.detail_param.as_str().is_empty() {
        let ghost before = *doc;
        doc.set_cell_detail_param(r, c, cell.detail_param.as_str());
        proof {
            lemma_set_step(&before, doc, r, c, CellView { detail_param: cell.detail_param@, ..before.cell_or_blank(r, c) });
            lemma_touch(&before, doc, r, c, CellView { detail_param: cell.detail_param@, ..before.cell_or_blank(r, c) });
        }
    }
    let ghost d2 = *doc;
    proof {
        lemma_touch_chain(&d0, &d1, doc, r, c, t1, t2);
        assert forall|rr: u32| #[trigger] d2.row_or_empty(rr).height == d0.row_or_empty(rr).height by {
            assert(d2.row_or_empty(rr).height == d1.row_or_empty(rr).height);
        }
        assert forall|rr: u32, cc: u32| !(rr == r && cc == c) implies #[trigger] d2.cell_or_blank(rr, cc)
            == d0.cell_or_blank(rr, cc) by {
            assert(d2.cell_or_blank(rr, cc) == d1.cell_or_blank(rr, cc));
        }
    }
    if let Some(p) = &cell.value {
        doc.set_cell_value(r, c, p.as_str());
        proof {
            lemma_set_step(&d2, doc, r, c, CellView { value: Some(p@), text: Seq::empty(), parameter: Seq::empty(), ..d2.cell_or_blank(r, c) });
            lemma_touch(&d2, doc, r, c, CellView { value: Some(p@), text: Seq::empty(), parameter: Seq::empty(), ..d2.cell_or_blank(r, c) });
        }
    } else if !cell.text.as_str().is_empty() {
        doc.set_cell_text(r, c, cell.text.as_str());
        proof {
            lemma_set_step(&d2, doc, r, c, CellView { text: cell.text@, parameter: Seq::empty(), ..d2.cell_or_blank(r, c) });
            lemma_touch(&d2, doc, r, c, CellView { text: cell.text@, parameter: Seq::empty(), ..d2.cell_or_blank(r, c) });
        }
    } else if !cell.parameter.as_str().is_empty() {
        doc.set_cell_parameter(r, c, cell.parameter.as_str());
        proof {
            lemma_set_step(&d2, doc, r, c, CellView { parameter: cell.parameter@, text: Seq::empty(), ..d2.cell_or_blank(r, c) });
            lemma_touch(&d2, doc, r, c, CellView { parameter: cell.parameter@, text: Seq::empty(), ..d2.cell_or_blank(r, c) });
        }
    } else {
        doc.ensure_cell(r, c);
        proof {
            if d2.cell_at(r, c) is None {
                lemma_set_step(&d2, doc, r, c, CellView::blank());
                lemma_touch(&d2, doc, r, c, CellView::blank());
            } else {
                assert(d2.rows_view().contains_key(r));
            }
        }
    }
    proof {
        lemma_touch_chain(&d0, &d2, doc, r, c, t1 || t2, true);
    }
}

/// The occupied size after a cell at `(r, c)` is stored.
pub open spec fn grow(e: (int, int), r: u32, c: u32) -> (int, int) {
    (crate::model::max_int(e.0, r + 1), crate::model::max_int(e.1, c + 1))
}

/// The occupied size after the cell records.
pub open spec fn extent_cells(e: (int, int), cells: Seq<(u32, u32, CellView)>) -> (int, int)
    decreases cells.len(),
{
    if cells.len() == 0 {
        e
    } else {
        grow(extent_cells(e, cells.drop_last()), cells.last().0, cells.last().1)
    }
}

/// The occupied size after the rows without cells: they take in rows only.
pub open spec fn extent_rows(e: (int, int), rows: Seq<u32>) -> (int, int)
    decreases rows.len(),
{
    if rows.len() == 0 {
        e
    } else {
        let p = extent_rows(e, rows.drop_last());
        (crate::model::max_int(p.0, rows.last() + 1), p.1)
    }
}

/// The occupied size after the row heights: a row given a height counts
/// with its first column.
pub open spec fn extent_heights(e: (int, int), fmts: Seq<(u32, usize)>, fs: Seq<Seq<(u64, i64)>>) -> (int, int)
    decreases fmts.len(),
{
    if fmts.len() == 0 {
        e
    } else {
        let p = extent_heights(e, fmts.drop_last(), fs);
        if format_value(fs, fmts.last().1 as int, ROW_HEIGHT as u64) is Some {
            grow(p, fmts.last().0, 0)
        } else {
            p
        }
    }
}

/// The occupied size after the cell formats that set something.
pub open spec fn extent_looks(e: (int, int), fmts: Seq<(u32, u32, usize)>, pv: PalettesView, lines: Seq<Line>) -> (int, int)
    decreases fmts.len(),
{
    if fmts.len() == 0 {
        e
    } else {
        let p = extent_looks(e, fmts.drop_last(), pv, lines);
        if touches(fmts.last().2, pv, lines) {
            grow(p, fmts.last().0, fmts.last().1)
        } else {
            p
        }
    }
}

/// Whether a record of the list is for cell `(r, c)`.
pub open spec fn cell_listed(cells: Seq<(u32, u32, CellView)>, r: u32, c: u32) -> bool
    decreases cells.len(),
{
    cells.len() > 0 && (cell_listed(cells.drop_last(), r, c) || (cells.last().0 == r && cells.last().1 == c))
}

/// Whether a record of the list is in row `r`.
pub open spec fn row_listed(cells: Seq<(u32, u32, CellView)>, r: u32) -> bool
    decreases cells.len(),
{
    cells.len() > 0 && (row_listed(cells.drop_last(), r) || cells.last().0 == r)
}

pub open spec fn bare_listed(rows: Seq<u32>, r: u32) -> bool
    decreases rows.len(),
{
    rows.len() > 0 && (bare_listed(rows.drop_last(), r) || rows.last() == r)
}

/// Whether row `r` is given a height.
pub open spec fn height_listed(fmts: Seq<(u32, usize)>, fs: Seq<Seq<(u64, i64)>>, r: u32) -> bool
    decreases fmts.len(),
{
    fmts.len() > 0 && (height_listed(fmts.drop_last(), fs, r) || (fmts.last().0 == r && format_value(
        fs,
        fmts.last().1 as int,
        ROW_HEIGHT as u64,
    ) is Some))
}

/// Whether a format that sets something is given to cell `(r, c)`.
pub open spec fn look_listed(fmts: Seq<(u32, u32, usize)>, pv: PalettesView, lines: Seq<Line>, r: u32, c: u32) -> bool
    decreases fmts.len(),
{
    fmts.len() > 0 && (look_listed(fmts.drop_last(), pv, lines, r, c) || (fmts.last().0 == r && fmts.last().1 == c
        && touches(fmts.last().2, pv, lines)))
}

/// Whether a format that sets something is given to a cell of row `r`.
pub open spec fn look_row_listed(fmts: Seq<(u32, u32, usize)>, pv: PalettesView, lines: Seq<Line>, r: u32) -> bool
    decreases fmts.len(),
{
    fmts.len() > 0 && (look_row_listed(fmts.drop_last(), pv, lines, r) || (fmts.last().0 == r && touches(
        fmts.last().2,
        pv,
        lines,
    )))
}

/// Row `r` got a height: the row is stored, the occupied size takes in its
/// first cell, no cell changed.
proof fn lemma_height_touch(a: &SpreadDocData, b: &SpreadDocData, r: u32, h: i64)
    requires
        b.rows_view() == a.rows_view().insert(r, RowView { height: Some(h), cells: a.row_or_empty(r).cells }),
        b.touched(a, r, 0),
    ensures
        forall|rr: u32, cc: u32| #[trigger] b.cell_at(rr, cc) == a.cell_at(rr, cc),
        forall|rr: u32| #[trigger] b.rows_view().contains_key(rr) <==> (a.rows_view().contains_key(rr) || rr == r),
{
    assert forall|rr: u32, cc: u32| #[trigger] b.cell_at(rr, cc) == a.cell_at(rr, cc) by {
        if rr == r {
            assert(b.row_or_empty(rr).cells == a.row_or_empty(r).cells);
        } else {
            assert(b.row_or_empty(rr) == a.row_or_empty(rr));
        }
    }
}

/// Cells go into the document in the order they were read: detail,
/// detail parameter, then value, text or parameter; a cell with none of
/// them is still created.
fn apply_cells(doc: &mut SpreadDocData, cells: &Vec<(u32, u32, CellData)>, bare_rows: &Vec<u32>) -> (r: Result<(), ReadError>)
    requires
        old(doc).wf(),
    ensures
        final(doc).wf(),
        r is Ok ==> forall|rr: u32, cc: u32| #[trigger]
            final(doc).cell_or_blank(rr, cc) == applied(old(doc).cell_or_blank(rr, cc), cells3(cells@), rr, cc),
        r is Ok ==> final(doc).same_but_rows(old(doc)),
        r is Ok ==> forall|rr: u32| #[trigger] final(doc).row_or_empty(rr).height == old(doc).row_or_empty(rr).height,
        r is Ok <==> cells_in_range(cells3(cells@), bare_rows@),
        r is Ok ==> forall|rr: u32, cc: u32| #[trigger]
            final(doc).cell_at(rr, cc) is Some <==> (old(doc).cell_at(rr, cc) is Some || cell_listed(cells3(cells@), rr, cc)),
        r is Ok ==> forall|rr: u32| #[trigger]
            final(doc).rows_view().contains_key(rr) <==> (old(doc).rows_view().contains_key(rr) || row_listed(
                cells3(cells@),
                rr,
            ) || bare_listed(bare_rows@, rr)),
        r is Ok ==> (final(doc).height as int, final(doc).width as int) == extent_rows(
            extent_cells((old(doc).height as int, old(doc).width as int), cells3(cells@)),
            bare_rows@,
        ),
        r is Err ==> r == Err::<(), ReadError>(ReadError::IndexOutOfRange),
{
    let ghost d0 = *doc;
    let mut i: usize = 0;
    while i < cells.len()
        invariant
            doc.wf(),
            i <= cells@.len(),
            forall|rr: u32, cc: u32| #[trigger]
                doc.cell_or_blank(rr, cc) == applied(d0.cell_or_blank(rr, cc), cells3(cells@).take(i as int), rr, cc),
            doc.same_but_rows(&d0),
            forall|rr: u32| #[trigger] doc.row_or_empty(rr).height == d0.row_or_empty(rr).height,
            forall|j: int| 0 <= j < i ==> (#[trigger] cells3(cells@)[j]).0 != u32::MAX && cells3(cells@)[j].1 != u32::MAX,
            forall|rr: u32, cc: u32| #[trigger]
                doc.cell_at(rr, cc) is Some <==> (d0.cell_at(rr, cc) is Some || cell_listed(cells3(cells@).take(i as int), rr, cc)),
            forall|rr: u32| #[trigger]
                doc.rows_view().contains_key(rr) <==> (d0.rows_view().contains_key(rr) || row_listed(
                    cells3(cells@).take(i as int),
                    rr,
                )),
            (doc.height as int, doc.width as int) == extent_cells(
                (d0.height as int, d0.width as int),
                cells3(cells@).take(i as int),
            ),
        decreases cells@.len() - i,
    {
        let r = cells[i].0;
        let c = cells[i].1;
        let cell = &cells[i].2;
        if r == u32::MAX || c == u32::MAX {
            proof {
                assert(cells3(cells@)[i as int].0 == r && cells3(cells@)[i as int].1 == c);
            }
            return Err(ReadError::IndexOutOfRange);
        }
        let ghost before = *doc;
        put_cell_record(doc, r, c, cell);
        proof {
            let t = cells3(cells@).take(i + 1);
            assert(t.drop_last() =~= cells3(cells@).take(i as int));
            assert(t.last() == (r, c, cell@));
            assert forall|rr: u32| #[trigger] doc.row_or_empty(rr).height == d0.row_or_empty(rr).height by {
                assert(doc.row_or_empty(rr).height == before.row_or_empty(rr).height);
            }
            assert forall|rr: u32, cc: u32| #[trigger]
                doc.cell_at(rr, cc) is Some <==> (d0.cell_at(rr, cc) is Some || cell_listed(t, rr, cc)) by {
                assert(doc.cell_at(rr, cc) is Some <==> (before.cell_at(rr, cc) is Some || (rr == r && cc == c)));
            }
            assert forall|rr: u32| #[trigger]
                doc.rows_view().contains_key(rr) <==> (d0.rows_view().contains_key(rr) || row_listed(t, rr)) by {
                assert(doc.rows_view().contains_key(rr) <==> (before.rows_view().contains_key(rr) || rr == r));
            }
            assert forall|rr: u32, cc: u32| #[trigger]
                doc.cell_or_blank(rr, cc) == applied(d0.cell_or_blank(rr, cc), t, rr, cc) by {
                assert(before.cell_or_blank(rr, cc) == applied(d0.cell_or_blank(rr, cc), cells3(cells@).take(i as int), rr, cc));
            }
        }
        i = i + 1;
    }
    proof {
        assert(cells3(cells@).take(cells@.len() as int) =~= cells3(cells@));
        assert(bare_rows@.take(0) =~= Seq::<u32>::empty());
    }
    let ghost d1 = *doc;
    let mut j: usize = 0;
    while j < bare_rows.len()
        invariant
            doc.wf(),
            forall|rr: u32, cc: u32| #[trigger] doc.cell_or_blank(rr, cc) == d1.cell_or_blank(rr, cc),
            doc.same_but_rows(&d0),
            forall|rr: u32| #[trigger] doc.row_or_empty(rr).height == d0.row_or_empty(rr).height,
            forall|k: int| 0 <= k < cells@.len() ==> (#[trigger] cells3(cells@)[k]).0 != u32::MAX && cells3(cells@)[k].1 != u32::MAX,
            forall|k: int| 0 <= k < j ==> #[trigger] bare_rows@[k] != u32::MAX,
            j <= bare_rows@.len(),
            forall|rr: u32, cc: u32| #[trigger] doc.cell_at(rr, cc) == d1.cell_at(rr, cc),
            forall|rr: u32| #[trigger]
                doc.rows_view().contains_key(rr) <==> (d1.rows_view().contains_key(rr) || bare_listed(
                    bare_rows@.take(j as int),
                    rr,
                )),
            (doc.height as int, doc.width as int) == extent_rows(
                (d1.height as int, d1.width as int),
                bare_rows@.take(j as int),
            ),
        decreases bare_rows@.len() - j,
    {
        let r = bare_rows[j];
        if r == u32::MAX {
            return Err(ReadError::IndexOutOfRange);
        }
        let ghost before = *doc;
        doc.ensure_row(r);
        proof {
            let t = bare_rows@.take(j + 1);
            assert(t.drop_last() =~= bare_rows@.take(j as int));
            assert(t.last() == r);
            assert forall|rr: u32, cc: u32| #[trigger] doc.cell_at(rr, cc) == d1.cell_at(rr, cc) by {
                assert(doc.cell_at(rr, cc) == before.cell_at(rr, cc)) by {
                    if !before.rows_view().contains_key(r) && rr == r {
                        assert(before.row_or_empty(r) == crate::model::empty_row());
                    } else if rr != r {
                        assert(doc.row_or_empty(rr) == before.row_or_empty(rr));
                    }
                }
            }
            assert forall|rr: u32| #[trigger]
                doc.rows_view().contains_key(rr) <==> (d1.rows_view().contains_key(rr) || bare_listed(t, rr)) by {
                assert(doc.rows_view().contains_key(rr) <==> (before.rows_view().contains_key(rr) || rr == r));
            }
            if !before.rows_view().contains_key(r) {
                assert(before.row_or_empty(r) == crate::model::empty_row());
                lemma_row_kept(&before, doc, r, None);
            }
            assert forall|rr: u32, cc: u32| #[trigger] doc.cell_or_blank(rr, cc) == d1.cell_or_blank(rr, cc) by {
                assert(doc.cell_or_blank(rr, cc) == before.cell_or_blank(rr, cc));
            }
            assert forall|rr: u32| #[trigger] doc.row_or_empty(rr).height == d0.row_or_empty(rr).height by {
                assert(doc.row_or_empty(rr).height == before.row_or_empty(rr).height) by {
                    if !before.rows_view().contains_key(r) && rr == r {
                        assert(before.row_or_empty(r) == crate::model::empty_row());
                    }
                }
            }
        }
        j = j + 1;
    }
    proof {
        assert(bare_rows@.take(bare_rows@.len() as int) =~= bare_rows@);
    }
    Ok(())
}

/// The items of a node that is a group.
pub open spec fn node_group(n: Node) -> Result<Vec<Node>, ReadError> {
    match n {
        Node::Group(g) => Ok(g),
        _ => Err(ReadError::ExpectedGroup),
    }
}

pub open spec fn opt_seq<T>(o: Option<T>) -> Seq<T> {
    match o {
        Some(x) => seq![x],
        None => Seq::empty(),
    }
}

/// A merge record: column, row, column, row and flag (2 for a cancelled
/// merge); a shorter record is skipped.
pub open spec fn merge_of(g: Seq<Node>) -> Result<Option<Merge>, ReadError> {
    if g.len() >= 5 {
        match node_number(g[0]) {
            Err(e) => Err(e),
            Ok(c1) => match node_number(g[1]) {
                Err(e) => Err(e),
                Ok(r1) => match node_number(g[2]) {
                    Err(e) => Err(e),
                    Ok(c2) => match node_number(g[3]) {
                        Err(e) => Err(e),
                        Ok(r2) => match node_number(g[4]) {
                            Err(e) => Err(e),
                            Ok(f) => Ok(Some(Merge { r1: r1 as u32, c1: c1 as u32, r2: r2 as u32, c2: c2 as u32, unmerge: f == 2 })),
                        },
                    },
                },
            },
        }
    } else {
        Ok(None)
    }
}

/// A whole-row merge record: the rows at 1 and 3.
pub open spec fn row_merge_of(g: Seq<Node>) -> Result<Option<(u32, u32)>, ReadError> {
    if g.len() >= 4 {
        match node_number(g[1]) {
            Err(e) => Err(e),
            Ok(r1) => match node_number(g[3]) {
                Err(e) => Err(e),
                Ok(r2) => Ok(Some((r1 as u32, r2 as u32))),
            },
        }
    } else {
        Ok(None)
    }
}

/// A whole-column merge record: the columns at 0 and 2.
pub open spec fn col_merge_of(g: Seq<Node>) -> Result<Option<(u32, u32)>, ReadError> {
    if g.len() >= 3 {
        match node_number(g[0]) {
            Err(e) => Err(e),
            Ok(c1) => match node_number(g[2]) {
                Err(e) => Err(e),
                Ok(c2) => Ok(Some((c1 as u32, c2 as u32))),
            },
        }
    } else {
        Ok(None)
    }
}

/// The merges of a list from record `i` on; each record is a group.
pub open spec fn merges_from(list: Seq<Node>, i: int) -> Result<Seq<Merge>, ReadError>
    decreases list.len() - i,
{
    if i < 0 || i >= list.len() {
        Ok(Seq::empty())
    } else {
        match node_group(list[i]) {
            Err(e) => Err(e),
            Ok(g) => match merge_of(g@) {
                Err(e) => Err(e),
                Ok(m) => match merges_from(list, i + 1) {
                    Ok(rest) => Ok(opt_seq(m) + rest),
                    Err(x) => Err(x),
                },
            },
        }
    }
}

/// The row merges (`rows`) or column merges of a list from record `i` on.
pub open spec fn pairs_from(list: Seq<Node>, i: int, rows: bool) -> Result<Seq<(u32, u32)>, ReadError>
    decreases list.len() - i,
{
    if i < 0 || i >= list.len() {
        Ok(Seq::empty())
    } else {
        match node_group(list[i]) {
            Err(e) => Err(e),
            Ok(g) => match (if rows {
                row_merge_of(g@)
            } else {
                col_merge_of(g@)
            }) {
                Err(e) => Err(e),
                Ok(m) => match pairs_from(list, i + 1, rows) {
                    Ok(rest) => Ok(opt_seq(m) + rest),
                    Err(x) => Err(x),
                },
            },
        }
    }
}

/// The three merge lists at `p`, each a group whose records start at 1:
/// rectangles, whole rows, whole columns.
pub open spec fn merges_section(items: Seq<Node>, p: int) -> Result<
    ((Seq<Merge>, Seq<(u32, u32)>, Seq<(u32, u32)>), int),
    ReadError,
> {
    match item_group(items, p) {
        Err(e) => Err(e),
        Ok(l1) => match merges_from(l1@, 1) {
            Err(e) => Err(e),
            Ok(ms) => match item_group(items, p + 1) {
                Err(e) => Err(e),
                Ok(l2) => match pairs_from(l2@, 1, true) {
                    Err(e) => Err(e),
                    Ok(rs) => match item_group(items, p + 2) {
                        Err(e) => Err(e),
                        Ok(l3) => match pairs_from(l3@, 1, false) {
                            Err(e) => Err(e),
                            Ok(cs) => Ok(((ms, rs, cs), p + 3)),
                        },
                    },
                },
            },
        },
    }
}

fn read_merge_list(list: &Vec<Node>, out: &mut Vec<Merge>) -> (r: Result<(), ReadError>)
    ensures
        match merges_from(list@, 1) {
            Ok(ms) => r is Ok && final(out)@ == old(out)@ + ms,
            Err(x) => r == Err::<(), ReadError>(x),
        },
{
    let mut i: usize = 1;
    let ghost acc: Seq<Merge> = Seq::empty();
    proof {
        assert(out@ =~= old(out)@ + acc);
        match merges_from(list@, 1) {
            Ok(ms) => {
                assert(acc + ms =~= ms);
            },
            Err(_) => {},
        }
    }
    while i < list.len()
        invariant
            1 <= i,
            out@ == old(out)@ + acc,
            merges_from(list@, 1) == match merges_from(list@, i as int) {
                Ok(rest) => Ok::<Seq<Merge>, ReadError>(acc + rest),
                Err(x) => Err(x),
            },
        decreases list@.len() - i,
    {
        let g = list[i].group()?;
        let ghost here: Seq<Merge> = Seq::empty();
        if g.len() >= 5 {
            let c1: u32 = #[verifier::truncate] (g[0].number()? as u32);
            let r1: u32 = #[verifier::truncate] (g[1].number()? as u32);
            let c2: u32 = #[verifier::truncate] (g[2].number()? as u32);
            let r2: u32 = #[verifier::truncate] (g[3].number()? as u32);
            let flag = g[4].number()?;
            let m = Merge { r1, c1, r2, c2, unmerge: flag == 2 };
            proof {
                here = seq![m];
            }
            out.push(m);
        }
        proof {
            assert(out@ =~= old(out)@ + (acc + here));
            match merges_from(list@, i + 1) {
                Ok(rest) => {
                    assert((acc + here) + rest =~= acc + (here + rest));
                },
                Err(_) => {},
            }
            acc = acc + here;
        }
        i = i + 1;
    }
    proof {
        assert(acc + Seq::<Merge>::empty() =~= acc);
    }
    Ok(())
}

fn read_pair_list(list: &Vec<Node>, rows: bool, out: &mut Vec<(u32, u32)>) -> (r: Result<(), ReadError>)
    ensures
        match pairs_from(list@, 1, rows) {
            Ok(ps) => r is Ok && final(out)@ == old(out)@ + ps,
            Err(x) => r == Err::<(), ReadError>(x),
        },
{
    let mut i: usize = 1;
    let ghost acc: Seq<(u32, u32)> = Seq::empty();
    proof {
        assert(out@ =~= old(out)@ + acc);
        match pairs_from(list@, 1, rows) {
            Ok(ps) => {
                assert(acc + ps =~= ps);
            },
            Err(_) => {},
        }
    }
    while i < list.len()
        invariant
            1 <= i,
            out@ == old(out)@ + acc,
            pairs_from(list@, 1, rows) == match pairs_from(list@, i as int, rows) {
                Ok(rest) => Ok::<Seq<(u32, u32)>, ReadError>(acc + rest),
                Err(x) => Err(x),
            },
        decreases list@.len() - i,
    {
        let g = list[i].group()?;
        let ghost here: Seq<(u32, u32)> = Seq::empty();
        if rows {
            if g.len() >= 4 {
                let r1: u32 = #[verifier::truncate] (g[1].number()? as u32);
                let r2: u32 = #[verifier::truncate] (g[3].number()? as u32);
                proof {
                    here = seq![(r1, r2)];
                }
                out.push((r1, r2));
            }
        } else {
            if g.len() >= 3 {
                let c1: u32 = #[verifier::truncate] (g[0].number()? as u32);
                let c2: u32 = #[verifier::truncate] (g[2].number()? as u32);
                proof {
                    here = seq![(c1, c2)];
                }
                out.push((c1, c2));
            }
        }
        proof {
            assert(out@ =~= old(out)@ + (acc + here));
            match pairs_from(list@, i + 1, rows) {
                Ok(rest) => {
                    assert((acc + here) + rest =~= acc + (here + rest));
                },
                Err(_) => {},
            }
            acc = acc + here;
        }
        i = i + 1;
    }
    proof {
        assert(acc + Seq::<(u32, u32)>::empty() =~= acc);
    }
    Ok(())
}

/// The three merge lists: rectangles, whole rows, whole columns.
fn read_merges(cur: &mut Cursor, doc: &mut SpreadDocData) -> (r: Result<(), ReadError>)
    requires
        cursor_ok(old(cur)),
        old(doc).wf(),
    ensures
        cursor_ok(final(cur)),
        final(cur).items == old(cur).items,
        final(doc).wf(),
        final(doc).rows == old(doc).rows,
        match merges_section(old(cur).items@, old(cur).pos as int) {
            Ok(((ms, rs, cs), e)) => r is Ok && final(cur).pos == e && final(doc).merges@ == old(doc).merges@ + ms
                && final(doc).row_merges@ == old(doc).row_merges@ + rs && final(doc).col_merges@
                == old(doc).col_merges@ + cs,
            Err(x) => r == Err::<(), ReadError>(x),
        },
        final(doc).same_but_cells_and_merges(old(doc)),
        final(doc).col_widths == old(doc).col_widths,
        final(doc).height == old(doc).height,
        final(doc).width == old(doc).width,
{
    let list = cur.group()?;
    read_merge_list(list, &mut doc.merges)?;
    let list = cur.group()?;
    read_pair_list(list, true, &mut doc.row_merges)?;
    let list = cur.group()?;
    read_pair_list(list, false, &mut doc.col_merges)?;
    Ok(())
}

/// An area record: kind code (1 rows, 2 columns, else a rectangle), then
/// column, row, column, row (negative reads as 0).
pub open spec fn area_of(area: Seq<Node>) -> Result<NamedArea, ReadError> {
    match node_number(area[0]) {
        Err(e) => Err(e),
        Ok(code) => match node_number(area[1]) {
            Err(e) => Err(e),
            Ok(c1) => match node_number(area[2]) {
                Err(e) => Err(e),
                Ok(r1) => match node_number(area[3]) {
                    Err(e) => Err(e),
                    Ok(c2) => match node_number(area[4]) {
                        Err(e) => Err(e),
                        Ok(r2) => Ok(
                            NamedArea {
                                kind: if code == 1 {
                                    AreaKind::Rows
                                } else if code == 2 {
                                    AreaKind::Columns
                                } else {
                                    AreaKind::Rect
                                },
                                r1: clamp0_spec(r1) as u32,
                                c1: clamp0_spec(c1) as u32,
                                r2: clamp0_spec(r2) as u32,
                                c2: clamp0_spec(c2) as u32,
                            },
                        ),
                    },
                },
            },
        },
    }
}

/// The area a name's body `{1,{<area>},0}` names; other bodies name none.
pub open spec fn body_area(n: Node) -> Result<Option<NamedArea>, ReadError> {
    match n {
        Node::Group(body) => match num_at_spec(body@, 0, 0) {
            Err(e) => Err(e),
            Ok(k) => if k == 1 {
                match group_at_spec(body@, 1) {
                    Some(area) => if area@.len() >= 5 {
                        match area_of(area@) {
                            Err(e) => Err(e),
                            Ok(a) => Ok(Some(a)),
                        }
                    } else {
                        Ok(None)
                    },
                    None => Ok(None),
                }
            } else {
                Ok(None)
            },
        },
        _ => Ok(None),
    }
}

/// The named areas of the list from position `i` on: name and body in
/// turn.
pub open spec fn names_from(list: Seq<Node>, i: int) -> Result<Seq<(Seq<char>, NamedArea)>, ReadError>
    decreases list.len() - i,
{
    if i < 1 || i >= list.len() || list.len() - i <= 1 {
        Ok(Seq::empty())
    } else {
        match body_area(list[i + 1]) {
            Err(e) => Err(e),
            Ok(o) => match names_from(list, i + 2) {
                Ok(rest) => Ok(
                    match o {
                        Some(a) => seq![(node_text(list[i]), a)],
                        None => Seq::empty(),
                    } + rest,
                ),
                Err(x) => Err(x),
            },
        }
    }
}

/// The names after the named areas were given in order: each takes its
/// area, an empty name none.
pub open spec fn names_after(m: Map<Seq<char>, NamedArea>, es: Seq<(Seq<char>, NamedArea)>) -> Map<Seq<char>, NamedArea>
    decreases es.len(),
{
    if es.len() == 0 {
        m
    } else {
        let m1 = names_after(m, es.drop_last());
        let (n, a) = es.last();
        if n.len() == 0 {
            m1.remove(n)
        } else {
            m1.insert(n, a)
        }
    }
}

/// The names section at `p`: one group.
pub open spec fn names_section(items: Seq<Node>, p: int) -> Result<(Seq<(Seq<char>, NamedArea)>, int), ReadError> {
    match item_group(items, p) {
        Err(e) => Err(e),
        Ok(list) => match names_from(list@, 1) {
            Err(e) => Err(e),
            Ok(es) => Ok((es, p + 1)),
        },
    }
}

/// Named areas: name and body `{1,{<area>},0}`; drawings named here
/// (`{2,...}`) are skipped.
fn read_names(cur: &mut Cursor, doc: &mut SpreadDocData) -> (r: Result<(), ReadError>)
    requires
        cursor_ok(old(cur)),
        old(doc).wf(),
    ensures
        cursor_ok(final(cur)),
        final(cur).items == old(cur).items,
        final(doc).wf(),
        final(doc).rows == old(doc).rows,
        final(doc).same_but_names(old(doc)),
        match names_section(old(cur).items@, old(cur).pos as int) {
            Ok((es, e)) => r is Ok && final(cur).pos == e && final(doc).names_view() == names_after(
                old(doc).names_view(),
                es,
            ),
            Err(x) => r == Err::<(), ReadError>(x),
        },
{
    let names = cur.group()?;
    let ghost d0 = *doc;
    let ghost acc: Seq<(Seq<char>, NamedArea)> = Seq::empty();
    let mut i: usize = 1;
    proof {
        match names_from(names@, 1) {
            Ok(es) => {
                assert(acc + es =~= es);
            },
            Err(_) => {},
        }
    }
    while i < names.len() && names.len() - i > 1
        invariant
            doc.rows == old(doc).rows,
            doc.wf(),
            cursor_ok(cur),
            cur.items == old(cur).items,
            i >= 1,
            d0 == *old(doc),
            doc.same_but_names(&d0),
            doc.names_view() == names_after(d0.names_view(), acc),
            names_section(old(cur).items@, old(cur).pos as int) == match names_from(names@, 1) {
                Ok(es) => Ok::<(Seq<(Seq<char>, NamedArea)>, int), ReadError>((es, old(cur).pos + 1)),
                Err(x) => Err(x),
            },
            cur.pos == old(cur).pos + 1,
            names_from(names@, 1) == match names_from(names@, i as int) {
                Ok(rest) => Ok::<Seq<(Seq<char>, NamedArea)>, ReadError>(acc + rest),
                Err(x) => Err(x),
            },
        ensures
            names_from(names@, 1) == Ok::<Seq<(Seq<char>, NamedArea)>, ReadError>(acc),
            doc.rows == old(doc).rows,
            doc.wf(),
            doc.same_but_names(&d0),
            doc.names_view() == names_after(d0.names_view(), acc),
        decreases names@.len() - i,
    {
        let name = names[i].text();
        let ghost here: Seq<(Seq<char>, NamedArea)> = Seq::empty();
        if let Node::Group(body) = &names[i + 1] {
            if num_at(body, 0, 0)? == 1 {
                if let Some(area) = group_at(body, 1) {
                    if area.len() >= 5 {
                        let code = area[0].number()?;
                        let kind = if code == 1 {
                            AreaKind::Rows
                        } else if code == 2 {
                            AreaKind::Columns
                        } else {
                            AreaKind::Rect
                        };
                        let c1 = area[1].number()?;
                        let r1 = area[2].number()?;
                        let c2 = area[3].number()?;
                        let r2 = area[4].number()?;
                        let a = NamedArea {
                            kind,
                            r1: #[verifier::truncate] (clamp0(r1) as u32),
                            c1: #[verifier::truncate] (clamp0(c1) as u32),
                            r2: #[verifier::truncate] (clamp0(r2) as u32),
                            c2: #[verifier::truncate] (clamp0(c2) as u32),
                        };
                        let ghost before = doc.names_view();
                        doc.clear_area_name(name.as_str());
                        doc.set_area_name(name.as_str(), a);
                        proof {
                            here = seq![(name@, a)];
                            let es = acc + here;
                            assert(es.drop_last() =~= acc);
                            assert(es.last() == (name@, a));
                            if name@.len() > 0 {
                                assert(doc.names_view() =~= before.remove(name@).insert(name@, a));
                                assert(before.remove(name@).insert(name@, a) =~= before.insert(name@, a));
                            }
                        }
                    }
                }
            }
        }
        proof {
            match names_from(names@, i + 2) {
                Ok(rest) => {
                    assert((acc + here) + rest =~= acc + (here + rest));
                },
                Err(_) => {},
            }
            if here.len() == 0 {
                assert(acc + here =~= acc);
            }
            acc = acc + here;
        }
        i = i + 2;
    }
    proof {
        assert(acc + Seq::<(Seq<char>, NamedArea)>::empty() =~= acc);
    }
    Ok(())
}

/// The page settings: landscape, print scale, margins, print area.
pub type PageView = (bool, Option<i64>, PageMargins, Option<(u32, u32, u32, u32)>);

/// The page settings after one pair `id, value`: 1 orientation (2 is
/// landscape), 2 print scale, 6 to 9 the top, left, bottom and right
/// margin; other ids change nothing.
pub open spec fn page_pair(st: (bool, Option<i64>, PageMargins), id: i64, v: i64) -> (bool, Option<i64>, PageMargins) {
    if id == 1 {
        (v == 2, st.1, st.2)
    } else if id == 2 {
        (st.0, Some(v), st.2)
    } else if id == 6 {
        (st.0, st.1, PageMargins { top: v, ..st.2 })
    } else if id == 7 {
        (st.0, st.1, PageMargins { left: v, ..st.2 })
    } else if id == 8 {
        (st.0, st.1, PageMargins { bottom: v, ..st.2 })
    } else if id == 9 {
        (st.0, st.1, PageMargins { right: v, ..st.2 })
    } else {
        st
    }
}

/// The page settings after the pairs of the list from `i` on: an id (0
/// when it is no number) and a group with the value at 1.
pub open spec fn page_pairs_from(list: Seq<Node>, i: int, st: (bool, Option<i64>, PageMargins)) -> Result<
    (bool, Option<i64>, PageMargins),
    ReadError,
>
    decreases list.len() - i,
{
    if i < 2 || i >= list.len() || list.len() - i <= 1 {
        Ok(st)
    } else {
        let id = match node_number(list[i]) {
            Ok(v) => v,
            Err(_) => 0,
        };
        match list[i + 1] {
            Node::Group(val) => match num_at_spec(val@, 1, 0) {
                Err(e) => Err(e),
                Ok(v) => page_pairs_from(list, i + 2, page_pair(st, id, v)),
            },
            _ => page_pairs_from(list, i + 2, st),
        }
    }
}

/// The print area of an area record `{1,r1,c1,r2,c2}`; a record with 0
/// at its head leaves the print area as it was.
pub open spec fn print_area_of(area: Seq<Node>, old: Option<(u32, u32, u32, u32)>) -> Result<
    Option<(u32, u32, u32, u32)>,
    ReadError,
> {
    match num_at_spec(area, 0, 0) {
        Err(e) => Err(e),
        Ok(k) => if k != 0 && area.len() >= 5 {
            match node_number(area[2]) {
                Err(e) => Err(e),
                Ok(a2) => match node_number(area[1]) {
                    Err(e) => Err(e),
                    Ok(a1) => match node_number(area[4]) {
                        Err(e) => Err(e),
                        Ok(a4) => match node_number(area[3]) {
                            Err(e) => Err(e),
                            Ok(a3) => Ok(
                                Some(
                                    (
                                        clamp0_spec(a1) as u32,
                                        clamp0_spec(a2) as u32,
                                        clamp0_spec(a3) as u32,
                                        clamp0_spec(a4) as u32,
                                    ),
                                ),
                            ),
                        },
                    },
                },
            }
        } else {
            Ok(old)
        },
    }
}

/// The page section at `p`, given the settings before: one item, the page
/// group (its pairs in the group at 0, from 2 on), the print area, ten
/// items.
pub open spec fn page_section(items: Seq<Node>, p: int, st: PageView) -> Result<(PageView, int), ReadError> {
    if p + 1 > items.len() {
        Err(ReadError::UnexpectedEnd)
    } else {
        match item_group(items, p + 1) {
            Err(e) => Err(e),
            Ok(page) => {
                let pairs = match group_at_spec(page@, 0) {
                    Some(list) => page_pairs_from(list@, 2, (st.0, st.1, st.2)),
                    None => Ok((st.0, st.1, st.2)),
                };
                match pairs {
                    Err(e) => Err(e),
                    Ok(s1) => match item_group(items, p + 2) {
                        Err(e) => Err(e),
                        Ok(area) => match print_area_of(area@, st.3) {
                            Err(e) => Err(e),
                            Ok(pa) => if p + 13 > items.len() {
                                Err(ReadError::UnexpectedEnd)
                            } else {
                                Ok(((s1.0, s1.1, s1.2, pa), p + 13))
                            },
                        },
                    },
                }
            },
        }
    }
}

pub open spec fn page_of(d: &SpreadDocData) -> PageView {
    (d.landscape, d.print_scale, d.margins, d.print_area)
}

/// Everything but the page settings is the same.
pub open spec fn same_but_page(a: &SpreadDocData, b: &SpreadDocData) -> bool {
    &&& a.rows == b.rows
    &&& a.col_widths == b.col_widths
    &&& a.merges == b.merges
    &&& a.row_merges == b.row_merges
    &&& a.col_merges == b.col_merges
    &&& a.column_sets == b.column_sets
    &&& a.row_sets == b.row_sets
    &&& a.main_columns == b.main_columns
    &&& a.drawings == b.drawings
    &&& a.row_groups == b.row_groups
    &&& a.open_groups == b.open_groups
    &&& a.names == b.names
    &&& a.height == b.height
    &&& a.width == b.width
    &&& a.show_grid == b.show_grid
    &&& a.fix_top == b.fix_top
    &&& a.fix_left == b.fix_left
    &&& a.params == b.params
}

/// Page setup pairs and the print area. Margins are in hundredths of a
/// millimetre, ids `6..9` for top, left, bottom, right.
fn read_page(cur: &mut Cursor, doc: &mut SpreadDocData) -> (r: Result<(), ReadError>)
    requires
        cursor_ok(old(cur)),
        old(doc).wf(),
    ensures
        cursor_ok(final(cur)),
        final(cur).items == old(cur).items,
        final(doc).wf(),
        final(doc).rows == old(doc).rows,
        same_but_page(final(doc), old(doc)),
        match page_section(old(cur).items@, old(cur).pos as int, page_of(old(doc))) {
            Ok((st, e)) => r is Ok && final(cur).pos == e && page_of(final(doc)) == st,
            Err(x) => r == Err::<(), ReadError>(x),
        },
{
    let ghost d0 = *doc;
    cur.skip(1)?;
    let page = cur.group()?;
    if let Some(list) = group_at(page, 0) {
        let mut i: usize = 2;
        while i < list.len() && list.len() - i > 1
            invariant
                doc.wf(),
                cursor_ok(cur),
                cur.items == old(cur).items,
                cur.pos == old(cur).pos + 2,
                i >= 2,
                d0 == *old(doc),
                same_but_page(doc, &d0),
                doc.print_area == d0.print_area,
                item_group(old(cur).items@, old(cur).pos + 1) == Ok::<Vec<Node>, ReadError>(*page),
                group_at_spec(page@, 0) == Some(*list),
                old(cur).pos + 1 <= old(cur).items@.len(),
                page_pairs_from(list@, 2, (d0.landscape, d0.print_scale, d0.margins)) == page_pairs_from(
                    list@,
                    i as int,
                    (doc.landscape, doc.print_scale, doc.margins),
                ),
            decreases list@.len() - i,
        {
            let id = match list[i].number() {
                Ok(v) => v,
                Err(_) => 0,
            };
            if let Node::Group(val) = &list[i + 1] {
                let value = num_at(val, 1, 0)?;
                if id == 1 {
                    doc.landscape = value == 2;
                } else if id == 2 {
                    doc.print_scale = Some(value);
                } else if id == 6 {
                    doc.margins.top = value;
                } else if id == 7 {
                    doc.margins.left = value;
                } else if id == 8 {
                    doc.margins.bottom = value;
                } else if id == 9 {
                    doc.margins.right = value;
                }
            }
            i = i + 2;
        }
    }
    let area = cur.group()?;
    if num_at(area, 0, 0)? != 0 && area.len() >= 5 {
        let a2 = area[2].number()?;
        let a1 = area[1].number()?;
        let a4 = area[4].number()?;
        let a3 = area[3].number()?;
        doc.print_area = Some(
            (
                #[verifier::truncate] (clamp0(a1) as u32),
                #[verifier::truncate] (clamp0(a2) as u32),
                #[verifier::truncate] (clamp0(a3) as u32),
                #[verifier::truncate] (clamp0(a4) as u32),
            ),
        );
    }
    cur.skip(10)?;
    Ok(())
}

/// The palettes in the tail of the file.
pub struct Palettes {
    pub formats: Vec<Vec<(u64, i64)>>,
    pub fonts: Vec<Font>,
    pub num_formats: Vec<Option<String>>,
    pub colors: Vec<Option<Color>>,
}

/// The number format from language `i` on, given the one chosen so far:
/// the Russian string wins, otherwise the first one stays.
pub open spec fn num_format_from(g: Seq<Node>, i: int, count: int, acc: Option<Seq<char>>) -> Option<Seq<char>>
    decreases count - i,
{
    if i >= count || i < 0 || i >= g.len() || g.len() - i <= 2 {
        acc
    } else {
        let next = match group_at_spec(g, 2 + i) {
            Some(pair) => if text_at_spec(pair@, 0) == "ru"@ || acc is None {
                Some(text_at_spec(pair@, 1))
            } else {
                acc
            },
            None => acc,
        };
        num_format_from(g, i + 1, count, next)
    }
}

/// A number format record: the count of languages at position 1, then a
/// pair `language, string` for each.
pub open spec fn num_format_of(g: Seq<Node>) -> Result<Option<Seq<char>>, ReadError> {
    match num_at_spec(g, 1, 0) {
        Err(e) => Err(e),
        Ok(n) => Ok(num_format_from(g, 0, clamp0_spec(n) as usize as int, None)),
    }
}

pub open spec fn clamp0_spec(v: i64) -> i64 {
    if v < 0 {
        0
    } else {
        v
    }
}

/// A number format: the Russian string, or else the first one.
fn read_num_format(g: &Vec<Node>) -> (r: Result<Option<String>, ReadError>)
    ensures
        match num_format_of(g@) {
            Ok(v) => r matches Ok(o) && crate::model::opt_str_view(o) == v,
            Err(e) => r == Err::<Option<String>, ReadError>(e),
        },
{
    let lang_count: usize = #[verifier::truncate] (clamp0(num_at(g, 1, 0)?) as usize);
    let mut spec: Option<String> = None;
    let mut i: usize = 0;
    while i < lang_count
        invariant
            i <= lang_count,
            num_format_of(g@) == Ok::<Option<Seq<char>>, ReadError>(
                num_format_from(g@, i as int, lang_count as int, crate::model::opt_str_view(spec)),
            ),
        ensures
            num_format_of(g@) == Ok::<Option<Seq<char>>, ReadError>(crate::model::opt_str_view(spec)),
        decreases lang_count - i,
    {
        if i >= g.len() || g.len() - i <= 2 {
            break;
        }
        if let Some(pair) = group_at(g, 2 + i) {
            let lang = text_at(pair, 0);
            let value = text_at(pair, 1);
            if crate::text::str_eq(lang.as_str(), "ru") || spec.is_none() {
                spec = Some(value);
            }
        }
        i = i + 1;
    }
    Ok(spec)
}

/// A color record: `{3,0,{<packed>}}` is a color of its own, red in the
/// lowest byte; `{3,3,{...}}` is a style color, which is not modelled.
pub open spec fn color_of(g: Seq<Node>) -> Result<Option<Color>, ReadError> {
    match num_at_spec(g, 1, 3) {
        Err(e) => Err(e),
        Ok(kind) => {
            let value = match group_at_spec(g, 2) {
                Some(v) => num_at_spec(v@, 0, 0),
                None => Ok(0i64),
            };
            match value {
                Err(e) => Err(e),
                Ok(v) => if kind != 0 {
                    Ok(None)
                } else {
                    let u = v as u64;
                    Ok(Some(Color { r: (u % 256) as u8, g: ((u / 256) % 256) as u8, b: ((u / 65536) % 256) as u8 }))
                },
            }
        },
    }
}

/// A color record: `{3,0,{<packed>}}` is a color, `{3,3,{...}}` a style
/// color, which is not modelled.
fn read_color(g: &Vec<Node>) -> (r: Result<Option<Color>, ReadError>)
    ensures
        r == color_of(g@),
{
    let own = num_at(g, 1, 3)? == 0;
    let value = match group_at(g, 2) {
        Some(v) => num_at(v, 0, 0)?,
        None => 0,
    };
    if !own {
        return Ok(None);
    }
    let u: u64 = #[verifier::truncate] (value as u64);
    Ok(Some(Color { r: (u % 256) as u8, g: ((u / 256) % 256) as u8, b: ((u / 65536) % 256) as u8 }))
}

/// Records from `k` of `n` on, one group each, read by `f`.
pub open spec fn records_from<T>(
    items: Seq<Node>,
    p: int,
    k: int,
    n: int,
    f: spec_fn(Seq<Node>) -> Result<T, ReadError>,
) -> Result<(Seq<T>, int), ReadError>
    decreases n - k,
{
    if k >= n {
        Ok((Seq::empty(), p))
    } else {
        match item_group(items, p) {
            Err(e) => Err(e),
            Ok(g) => match f(g@) {
                Err(e) => Err(e),
                Ok(x) => match records_from(items, p + 1, k + 1, n, f) {
                    Ok((rest, e)) => Ok((seq![x] + rest, e)),
                    Err(y) => Err(y),
                },
            },
        }
    }
}

pub open spec fn formats_from(items: Seq<Node>, p: int, n: int) -> Result<(Seq<Seq<(u64, i64)>>, int), ReadError> {
    records_from(items, p, 0, n, |g: Seq<Node>| format_of(g))
}

pub open spec fn fonts_from(items: Seq<Node>, p: int, n: int) -> Result<(Seq<crate::model::FontView>, int), ReadError> {
    records_from(items, p, 0, n, |g: Seq<Node>| font_of(g))
}

pub open spec fn num_formats_from(items: Seq<Node>, p: int, n: int) -> Result<(Seq<Option<Seq<char>>>, int), ReadError> {
    records_from(items, p, 0, n, |g: Seq<Node>| num_format_of(g))
}

pub open spec fn colors_from(items: Seq<Node>, p: int, n: int) -> Result<(Seq<Option<Color>>, int), ReadError> {
    records_from(items, p, 0, n, |g: Seq<Node>| color_of(g))
}

/// The palettes as plain values: formats, fonts, number formats, colors.
pub type PalettesView = (Seq<Seq<(u64, i64)>>, Seq<crate::model::FontView>, Seq<Option<Seq<char>>>, Seq<Option<Color>>);

pub open spec fn palettes_view(p: Palettes) -> PalettesView {
    (
        formats_view(p.formats@),
        p.fonts@.map_values(|f: Font| f@),
        p.num_formats@.map_values(|o: Option<String>| crate::model::opt_str_view(o)),
        p.colors@,
    )
}

/// The view settings at `p`: a group with the grid flag at 4 (1 when
/// missing), the fixed columns at 11 and rows at 12; anything else there
/// leaves the settings alone.
pub open spec fn settings_at(items: Seq<Node>, p: int) -> Result<Option<(bool, i64, i64)>, ReadError> {
    if 0 <= p < items.len() {
        match items[p] {
            Node::Group(st) => match num_at_spec(st@, 4, 1) {
                Err(e) => Err(e),
                Ok(g) => match num_at_spec(st@, 11, 0) {
                    Err(e) => Err(e),
                    Ok(l) => match num_at_spec(st@, 12, 0) {
                        Err(e) => Err(e),
                        Ok(t) => Ok(Some((g != 0, l, t))),
                    },
                },
            },
            _ => Ok(None),
        }
    } else {
        Ok(None)
    }
}

/// The tail at `p`: formats, fonts and number formats, each a count and
/// records; the counted items of types and of ids, skipped; colors; the
/// counted pictures, skipped; four items; the view settings.
pub open spec fn palettes_section(items: Seq<Node>, p: int) -> Result<
    ((PalettesView, Option<(bool, i64, i64)>), int),
    ReadError,
> {
    match item_number(items, p) {
        Err(e) => Err(e),
        Ok(n1) => match formats_from(items, p + 1, n1 as usize as int) {
            Err(e) => Err(e),
            Ok((fs, e1)) => match item_number(items, e1) {
                Err(e) => Err(e),
                Ok(n2) => match fonts_from(items, e1 + 1, n2 as usize as int) {
                    Err(e) => Err(e),
                    Ok((fonts, e2)) => match item_number(items, e2) {
                        Err(e) => Err(e),
                        Ok(n3) => match num_formats_from(items, e2 + 1, n3 as usize as int) {
                            Err(e) => Err(e),
                            Ok((nfs, e3)) => match item_number(items, e3) {
                                Err(e) => Err(e),
                                Ok(types) => if e3 + 1 + (types as usize) > items.len() {
                                    Err(ReadError::UnexpectedEnd)
                                } else {
                                    let e4 = e3 + 1 + (types as usize);
                                    match item_number(items, e4) {
                                        Err(e) => Err(e),
                                        Ok(ids) => if e4 + 1 + (ids as usize) > items.len() {
                                            Err(ReadError::UnexpectedEnd)
                                        } else {
                                            let e5 = e4 + 1 + (ids as usize);
                                            match item_number(items, e5) {
                                                Err(e) => Err(e),
                                                Ok(n4) => match colors_from(items, e5 + 1, n4 as usize as int) {
                                                    Err(e) => Err(e),
                                                    Ok((cs, e6)) => match item_number(items, e6) {
                                                        Err(e) => Err(e),
                                                        Ok(pics) => if e6 + 1 + (pics as usize) + 4 > items.len() {
                                                            Err(ReadError::UnexpectedEnd)
                                                        } else {
                                                            let e8 = e6 + 1 + (pics as usize) + 4;
                                                            match settings_at(items, e8) {
                                                                Err(e) => Err(e),
                                                                Ok(st) => Ok(
                                                                    (
                                                                        ((fs, fonts, nfs, cs), st),
                                                                        if e8 < items.len() {
                                                                            e8 + 1
                                                                        } else {
                                                                            e8
                                                                        },
                                                                    ),
                                                                ),
                                                            }
                                                        },
                                                    },
                                                },
                                            }
                                        },
                                    }
                                },
                            },
                        },
                    },
                },
            },
        },
    }
}

fn read_format_list(cur: &mut Cursor, n: usize) -> (r: Result<Vec<Vec<(u64, i64)>>, ReadError>)
    requires
        cursor_ok(old(cur)),
    ensures
        cursor_ok(final(cur)),
        final(cur).items == old(cur).items,
        match formats_from(old(cur).items@, old(cur).pos as int, n as int) {
            Ok((v, e)) => r matches Ok(o) && o@.map_values(|f: Vec<(u64, i64)>| f@) == v && final(cur).pos == e,
            Err(x) => r == Err::<Vec<Vec<(u64, i64)>>, ReadError>(x),
        },
{
    let ghost items = cur.items@;
    let ghost p0 = cur.pos as int;
    let ghost f = |g: Seq<Node>| format_of(g);
    let mut out: Vec<Vec<(u64, i64)>> = Vec::new();
    let mut k: usize = 0;
    proof {
        match records_from(items, p0, 0, n as int, f) {
            Ok((v, e)) => {
                assert(out@.map_values(|x: Vec<(u64, i64)>| x@) + v =~= v);
            },
            Err(_) => {},
        }
    }
    while k < n
        invariant
            cursor_ok(cur),
            cur.items == old(cur).items,
            items == old(cur).items@,
            p0 == old(cur).pos,
            f == (|g: Seq<Node>| format_of(g)),
            records_from(items, p0, 0, n as int, f) == match records_from(items, cur.pos as int, k as int, n as int, f) {
                Ok((rest, e)) => Ok::<(Seq<Seq<(u64, i64)>>, int), ReadError>(
                    (out@.map_values(|x: Vec<(u64, i64)>| x@) + rest, e),
                ),
                Err(x) => Err(x),
            },
        decreases cur.items@.len() - cur.pos,
    {
        let ghost pos = cur.pos as int;
        let g = cur.group()?;
        let fmt = parse_format(g)?;
        let ghost before = out@.map_values(|x: Vec<(u64, i64)>| x@);
        let ghost x = fmt@;
        out.push(fmt);
        proof {
            assert(out@.map_values(|x: Vec<(u64, i64)>| x@) =~= before.push(x));
            match records_from(items, pos + 1, k + 1, n as int, f) {
                Ok((rest, e)) => {
                    assert(before.push(x) + rest =~= before + (seq![x] + rest));
                },
                Err(_) => {},
            }
        }
        k = k + 1;
    }
    proof {
        assert(out@.map_values(|x: Vec<(u64, i64)>| x@) + Seq::<Seq<(u64, i64)>>::empty() =~= out@.map_values(
            |x: Vec<(u64, i64)>| x@,
        ));
    }
    Ok(out)
}

fn read_font_list(cur: &mut Cursor, n: usize) -> (r: Result<Vec<Font>, ReadError>)
    requires
        cursor_ok(old(cur)),
    ensures
        cursor_ok(final(cur)),
        final(cur).items == old(cur).items,
        match fonts_from(old(cur).items@, old(cur).pos as int, n as int) {
            Ok((v, e)) => r matches Ok(o) && o@.map_values(|f: Font| f@) == v && final(cur).pos == e,
            Err(x) => r == Err::<Vec<Font>, ReadError>(x),
        },
{
    let ghost items = cur.items@;
    let ghost p0 = cur.pos as int;
    let ghost f = |g: Seq<Node>| font_of(g);
    let mut out: Vec<Font> = Vec::new();
    let mut k: usize = 0;
    proof {
        match records_from(items, p0, 0, n as int, f) {
            Ok((v, e)) => {
                assert(out@.map_values(|x: Font| x@) + v =~= v);
            },
            Err(_) => {},
        }
    }
    while k < n
        invariant
            cursor_ok(cur),
            cur.items == old(cur).items,
            items == old(cur).items@,
            p0 == old(cur).pos,
            f == (|g: Seq<Node>| font_of(g)),
            records_from(items, p0, 0, n as int, f) == match records_from(items, cur.pos as int, k as int, n as int, f) {
                Ok((rest, e)) => Ok::<(Seq<crate::model::FontView>, int), ReadError>(
                    (out@.map_values(|x: Font| x@) + rest, e),
                ),
                Err(x) => Err(x),
            },
        decreases cur.items@.len() - cur.pos,
    {
        let ghost pos = cur.pos as int;
        let g = cur.group()?;
        let font = parse_font(g)?;
        let ghost before = out@.map_values(|x: Font| x@);
        let ghost x = font@;
        out.push(font);
        proof {
            assert(out@.map_values(|x: Font| x@) =~= before.push(x));
            match records_from(items, pos + 1, k + 1, n as int, f) {
                Ok((rest, e)) => {
                    assert(before.push(x) + rest =~= before + (seq![x] + rest));
                },
                Err(_) => {},
            }
        }
        k = k + 1;
    }
    proof {
        assert(out@.map_values(|x: Font| x@) + Seq::<crate::model::FontView>::empty() =~= out@.map_values(|x: Font| x@));
    }
    Ok(out)
}

fn read_num_format_list(cur: &mut Cursor, n: usize) -> (r: Result<Vec<Option<String>>, ReadError>)
    requires
        cursor_ok(old(cur)),
    ensures
        cursor_ok(final(cur)),
        final(cur).items == old(cur).items,
        match num_formats_from(old(cur).items@, old(cur).pos as int, n as int) {
            Ok((v, e)) => r matches Ok(o) && o@.map_values(|x: Option<String>| crate::model::opt_str_view(x)) == v
                && final(cur).pos == e,
            Err(x) => r == Err::<Vec<Option<String>>, ReadError>(x),
        },
{
    let ghost items = cur.items@;
    let ghost p0 = cur.pos as int;
    let ghost f = |g: Seq<Node>| num_format_of(g);
    let mut out: Vec<Option<String>> = Vec::new();
    let mut k: usize = 0;
    proof {
        match records_from(items, p0, 0, n as int, f) {
            Ok((v, e)) => {
                assert(out@.map_values(|x: Option<String>| crate::model::opt_str_view(x)) + v =~= v);
            },
            Err(_) => {},
        }
    }
    while k < n
        invariant
            cursor_ok(cur),
            cur.items == old(cur).items,
            items == old(cur).items@,
            p0 == old(cur).pos,
            f == (|g: Seq<Node>| num_format_of(g)),
            records_from(items, p0, 0, n as int, f) == match records_from(items, cur.pos as int, k as int, n as int, f) {
                Ok((rest, e)) => Ok::<(Seq<Option<Seq<char>>>, int), ReadError>(
                    (out@.map_values(|x: Option<String>| crate::model::opt_str_view(x)) + rest, e),
                ),
                Err(x) => Err(x),
            },
        decreases cur.items@.len() - cur.pos,
    {
        let ghost pos = cur.pos as int;
        let g = cur.group()?;
        let nf = read_num_format(g)?;
        let ghost before = out@.map_values(|x: Option<String>| crate::model::opt_str_view(x));
        let ghost x = crate::model::opt_str_view(nf);
        out.push(nf);
        proof {
            assert(out@.map_values(|x: Option<String>| crate::model::opt_str_view(x)) =~= before.push(x));
            match records_from(items, pos + 1, k + 1, n as int, f) {
                Ok((rest, e)) => {
                    assert(before.push(x) + rest =~= before + (seq![x] + rest));
                },
                Err(_) => {},
            }
        }
        k = k + 1;
    }
    proof {
        assert(out@.map_values(|x: Option<String>| crate::model::opt_str_view(x)) + Seq::<Option<Seq<char>>>::empty()
            =~= out@.map_values(|x: Option<String>| crate::model::opt_str_view(x)));
    }
    Ok(out)
}

fn read_color_list(cur: &mut Cursor, n: usize) -> (r: Result<Vec<Option<Color>>, ReadError>)
    requires
        cursor_ok(old(cur)),
    ensures
        cursor_ok(final(cur)),
        final(cur).items == old(cur).items,
        match colors_from(old(cur).items@, old(cur).pos as int, n as int) {
            Ok((v, e)) => r matches Ok(o) && o@ == v && final(cur).pos == e,
            Err(x) => r == Err::<Vec<Option<Color>>, ReadError>(x),
        },
{
    let ghost items = cur.items@;
    let ghost p0 = cur.pos as int;
    let ghost f = |g: Seq<Node>| color_of(g);
    let mut out: Vec<Option<Color>> = Vec::new();
    let mut k: usize = 0;
    proof {
        match records_from(items, p0, 0, n as int, f) {
            Ok((v, e)) => {
                assert(out@ + v =~= v);
            },
            Err(_) => {},
        }
    }
    while k < n
        invariant
            cursor_ok(cur),
            cur.items == old(cur).items,
            items == old(cur).items@,
            p0 == old(cur).pos,
            f == (|g: Seq<Node>| color_of(g)),
            records_from(items, p0, 0, n as int, f) == match records_from(items, cur.pos as int, k as int, n as int, f) {
                Ok((rest, e)) => Ok::<(Seq<Option<Color>>, int), ReadError>((out@ + rest, e)),
                Err(x) => Err(x),
            },
        decreases cur.items@.len() - cur.pos,
    {
        let ghost pos = cur.pos as int;
        let g = cur.group()?;
        let c = read_color(g)?;
        let ghost before = out@;
        out.push(c);
        proof {
            match records_from(items, pos + 1, k + 1, n as int, f) {
                Ok((rest, e)) => {
                    assert(before.push(c) + rest =~= before + (seq![c] + rest));
                },
                Err(_) => {},
            }
        }
        k = k + 1;
    }
    proof {
        assert(out@ + Seq::<Option<Color>>::empty() =~= out@);
    }
    Ok(out)
}

/// Everything but the view settings is the same.
pub open spec fn same_but_view(a: &SpreadDocData, b: &SpreadDocData) -> bool {
    &&& a.rows == b.rows
    &&& a.col_widths == b.col_widths
    &&& a.merges == b.merges
    &&& a.row_merges == b.row_merges
    &&& a.col_merges == b.col_merges
    &&& a.column_sets == b.column_sets
    &&& a.row_sets == b.row_sets
    &&& a.main_columns == b.main_columns
    &&& a.drawings == b.drawings
    &&& a.row_groups == b.row_groups
    &&& a.open_groups == b.open_groups
    &&& a.names == b.names
    &&& a.height == b.height
    &&& a.width == b.width
    &&& a.print_scale == b.print_scale
    &&& a.landscape == b.landscape
    &&& a.margins == b.margins
    &&& a.print_area == b.print_area
    &&& a.params == b.params
}

fn read_palettes(cur: &mut Cursor, doc: &mut SpreadDocData) -> (r: Result<Palettes, ReadError>)
    requires
        cursor_ok(old(cur)),
        old(doc).wf(),
    ensures
        cursor_ok(final(cur)),
        final(cur).items == old(cur).items,
        final(doc).wf(),
        final(doc).rows == old(doc).rows,
        same_but_view(final(doc), old(doc)),
        match palettes_section(old(cur).items@, old(cur).pos as int) {
            Ok(((pv, st), e)) => r matches Ok(o) && palettes_view(o) == pv && final(cur).pos == e && match st {
                Some((g, l, t)) => final(doc).show_grid == g && final(doc).fix_left == l && final(doc).fix_top == t,
                None => final(doc).show_grid == old(doc).show_grid && final(doc).fix_left == old(doc).fix_left
                    && final(doc).fix_top == old(doc).fix_top,
            },
            Err(x) => r == Err::<Palettes, ReadError>(x),
        },
{
    let n: usize = #[verifier::truncate] (cur.number()? as usize);
    let formats = read_format_list(cur, n)?;
    let n: usize = #[verifier::truncate] (cur.number()? as usize);
    let fonts = read_font_list(cur, n)?;
    let n: usize = #[verifier::truncate] (cur.number()? as usize);
    let num_formats = read_num_format_list(cur, n)?;
    let types: usize = #[verifier::truncate] (cur.number()? as usize);
    cur.skip(types)?;
    let guids: usize = #[verifier::truncate] (cur.number()? as usize);
    cur.skip(guids)?;
    let n: usize = #[verifier::truncate] (cur.number()? as usize);
    let colors = read_color_list(cur, n)?;
    let pictures: usize = #[verifier::truncate] (cur.number()? as usize);
    cur.skip(pictures)?;
    cur.skip(2)?;
    cur.skip(1)?;
    cur.skip(1)?;
    if let Ok(Node::Group(settings)) = cur.next() {
        doc.show_grid = num_at(settings, 4, 1)? != 0;
        doc.fix_left = num_at(settings, 11, 0)?;
        doc.fix_top = num_at(settings, 12, 0)?;
    }
    Ok(Palettes { formats, fonts, num_formats, colors })
}

/// The value of the first pair for `bit`.
pub open spec fn bit_value(f: Seq<(u64, i64)>, bit: u64) -> Option<i64>
    decreases f.len(),
{
    if f.len() == 0 {
        None
    } else if f[0].0 == bit {
        Some(f[0].1)
    } else {
        bit_value(f.drop_first(), bit)
    }
}

/// The value format `index` gives a bit; index 0 is no format.
pub open spec fn format_value(palette: Seq<Seq<(u64, i64)>>, index: int, bit: u64) -> Option<i64> {
    if index == 0 || index > palette.len() {
        None
    } else {
        bit_value(palette[index - 1], bit)
    }
}

pub open spec fn formats_view(palette: Seq<Vec<(u64, i64)>>) -> Seq<Seq<(u64, i64)>> {
    palette.map_values(|f: Vec<(u64, i64)>| f@)
}

/// The value a format gives a bit; index 0 is no format.
fn value_of(palette: &Vec<Vec<(u64, i64)>>, index: usize, bit: u64) -> (r: Option<i64>)
    ensures
        r == format_value(formats_view(palette@), index as int, bit),
{
    if index == 0 || index > palette.len() {
        return None;
    }
    let f = &palette[index - 1];
    let mut i: usize = 0;
    proof {
        assert(f@.skip(0) =~= f@);
    }
    while i < f.len()
        invariant
            i <= f@.len(),
            bit_value(f@, bit) == bit_value(f@.skip(i as int), bit),
            0 < index <= palette@.len(),
            *f == palette@[index - 1],
        decreases f@.len() - i,
    {
        proof {
            assert(f@.skip(i as int).drop_first() =~= f@.skip(i + 1));
            assert(f@.skip(i as int)[0] == f@[i as int]);
        }
        if f[i].0 == bit {
            proof {
                let t = f@.skip(i as int);
                assert(t.len() > 0 && t[0].0 == bit);
                assert(bit_value(t, bit) == Some(t[0].1));
                assert(f@ == palette@[index - 1]@);
                assert(formats_view(palette@)[index - 1] == f@);
            }
            return Some(f[i].1);
        }
        i = i + 1;
    }
    proof {
        assert(formats_view(palette@)[index - 1] == f@);
    }
    None
}

/// `v / d` rounded toward zero, as Rust divides.
pub open spec fn trunc_div(v: int, d: int) -> int {
    if v >= 0 {
        v / d
    } else {
        -((-v) / d)
    }
}

fn div_trunc(v: i64, d: i64) -> (r: i64)
    requires
        d == 4 || d == 8,
    ensures
        r == trunc_div(v as int, d as int),
{
    if v >= 0 {
        v / d
    } else {
        let m: i128 = -(v as i128);
        let q: i128 = m / (d as i128);
        (-q) as i64
    }
}

fn index_of(v: i64) -> (r: usize)
    ensures
        r == (if v < 0 {
            0
        } else {
            v
        }) as usize,
{
    #[verifier::truncate] (clamp0(v) as usize)
}

/// The index a format value names, negative read as 0.
pub open spec fn index_spec(x: i64) -> int {
    clamp0_spec(x) as usize as int
}

pub open spec fn border_bit(side: int) -> u64 {
    if side == 0 {
        BORDER_LEFT as u64
    } else if side == 1 {
        BORDER_TOP as u64
    } else if side == 2 {
        BORDER_RIGHT as u64
    } else {
        BORDER_BOTTOM as u64
    }
}

/// A cell after the border of one side (0 left, 1 top, 2 right, 3 bottom)
/// that format `fmt` gives, a line of the palette.
pub open spec fn border_step(v: CellView, fmt: usize, fs: Seq<Seq<(u64, i64)>>, lines: Seq<Line>, side: int) -> CellView {
    match format_value(fs, fmt as int, border_bit(side)) {
        Some(x) => if index_spec(x) < lines.len() {
            let line = Some(lines[index_spec(x)]);
            if side == 0 {
                CellView { border_left: line, ..v }
            } else if side == 1 {
                CellView { border_top: line, ..v }
            } else if side == 2 {
                CellView { border_right: line, ..v }
            } else {
                CellView { border_bottom: line, ..v }
            }
        } else {
            v
        },
        None => v,
    }
}

pub open spec fn step_h(v: CellView, fs: Seq<Seq<(u64, i64)>>, fmt: usize) -> CellView {
    match format_value(fs, fmt as int, H_ALIGN as u64) {
        Some(x) => match crate::format::h_from_code(x) {
            Some(a) => CellView { h_align: Some(a), ..v },
            None => v,
        },
        None => v,
    }
}

pub open spec fn step_v(v: CellView, fs: Seq<Seq<(u64, i64)>>, fmt: usize) -> CellView {
    match format_value(fs, fmt as int, V_ALIGN as u64) {
        Some(x) => match crate::format::v_from_code(x) {
            Some(a) => CellView { v_align: Some(a), ..v },
            None => v,
        },
        None => v,
    }
}

pub open spec fn step_wrap(v: CellView, fs: Seq<Seq<(u64, i64)>>, fmt: usize) -> CellView {
    match format_value(fs, fmt as int, TEXT_PLACEMENT as u64) {
        Some(x) => if x == 3 {
            CellView { wrap: true, ..v }
        } else {
            v
        },
        None => v,
    }
}

pub open spec fn step_number(v: CellView, fs: Seq<Seq<(u64, i64)>>, fmt: usize, nfs: Seq<Option<Seq<char>>>) -> CellView {
    match format_value(fs, fmt as int, NUMBER_FORMAT) {
        Some(x) => {
            let w = CellView { numeric: true, ..v };
            if index_spec(x) < nfs.len() && nfs[index_spec(x)] is Some {
                CellView { format_spec: nfs[index_spec(x)], ..w }
            } else {
                w
            }
        },
        None => v,
    }
}

pub open spec fn step_font(v: CellView, fs: Seq<Seq<(u64, i64)>>, fmt: usize, fonts: Seq<crate::model::FontView>) -> CellView {
    match format_value(fs, fmt as int, FONT as u64) {
        Some(x) => if index_spec(x) < fonts.len() {
            CellView { font: Some(fonts[index_spec(x)]), ..v }
        } else {
            v
        },
        None => v,
    }
}

/// The text color (`back` false) or back color that the format gives.
pub open spec fn step_color(v: CellView, fs: Seq<Seq<(u64, i64)>>, fmt: usize, colors: Seq<Option<Color>>, back: bool) -> CellView {
    match format_value(fs, fmt as int, if back { BACK_COLOR as u64 } else { TEXT_COLOR as u64 }) {
        Some(x) => if index_spec(x) < colors.len() && colors[index_spec(x)] is Some {
            if back {
                CellView { back_color: colors[index_spec(x)], ..v }
            } else {
                CellView { text_color: colors[index_spec(x)], ..v }
            }
        } else {
            v
        },
        None => v,
    }
}

/// A cell after the alignments, wrapping, number format, font and text
/// color that format `fmt` gives.
pub open spec fn formatted_front(v: CellView, fmt: usize, pv: PalettesView) -> CellView {
    let fs = pv.0;
    step_color(
        step_font(step_number(step_wrap(step_v(step_h(v, fs, fmt), fs, fmt), fs, fmt), fs, fmt, pv.2), fs, fmt, pv.1),
        fs,
        fmt,
        pv.3,
        false,
    )
}

/// A cell after the borders and back color that format `fmt` gives.
pub open spec fn formatted_back(v: CellView, fmt: usize, pv: PalettesView, lines: Seq<Line>) -> CellView {
    let fs = pv.0;
    let v7 = border_step(
        border_step(border_step(border_step(v, fmt, fs, lines, 0), fmt, fs, lines, 1), fmt, fs, lines, 2),
        fmt,
        fs,
        lines,
        3,
    );
    step_color(v7, fs, fmt, pv.3, true)
}

/// A cell after format `fmt` of the palettes: alignments, wrapping, number
/// format, font, text color, borders and back color, each when the format
/// gives it and the palette has what it names.
pub open spec fn formatted(v: CellView, fmt: usize, pv: PalettesView, lines: Seq<Line>) -> CellView {
    formatted_back(formatted_front(v, fmt, pv), fmt, pv, lines)
}

/// The cell `(r, c)` became `v`; no other cell and no row height changed.
pub open spec fn only_cell(a: &SpreadDocData, b: &SpreadDocData, r: u32, c: u32, v: CellView) -> bool {
    &&& forall|rr: u32, cc: u32| #[trigger]
        a.cell_or_blank(rr, cc) == if rr == r && cc == c {
            v
        } else {
            b.cell_or_blank(rr, cc)
        }
    &&& forall|rr: u32| #[trigger] a.row_or_empty(rr).height == b.row_or_empty(rr).height
}

proof fn lemma_set_step(a: &SpreadDocData, b: &SpreadDocData, r: u32, c: u32, v: CellView)
    requires
        b.rows_view() == a.with_cell(r, c, v),
    ensures
        only_cell(b, a, r, c, v),
{
    lemma_cell_after(a, b, r, c, v);
    assert forall|rr: u32| #[trigger] b.row_or_empty(rr).height == a.row_or_empty(rr).height by {
        if rr == r {
            assert(b.row_or_empty(rr).height == a.row_or_empty(r).height);
        } else {
            assert(b.row_or_empty(rr) == a.row_or_empty(rr));
        }
    }
}

proof fn lemma_no_step(a: &SpreadDocData, r: u32, c: u32)
    ensures
        only_cell(a, a, r, c, a.cell_or_blank(r, c)),
        touched_if(a, a, r, c, false),
{
}

/// When `t`, cell `(r, c)` and its row are stored and the occupied size
/// takes them in; otherwise storage and size are as they were.
pub open spec fn touched_if(a: &SpreadDocData, b: &SpreadDocData, r: u32, c: u32, t: bool) -> bool {
    &&& a.height == if t {
        crate::model::max_int(b.height as int, r + 1)
    } else {
        b.height as int
    }
    &&& a.width == if t {
        crate::model::max_int(b.width as int, c + 1)
    } else {
        b.width as int
    }
    &&& forall|rr: u32, cc: u32| #[trigger]
        a.cell_at(rr, cc) is Some <==> (b.cell_at(rr, cc) is Some || (t && rr == r && cc == c))
    &&& forall|rr: u32| #[trigger] a.rows_view().contains_key(rr) <==> (b.rows_view().contains_key(rr) || (t && rr == r))
}

proof fn lemma_touch(a: &SpreadDocData, b: &SpreadDocData, r: u32, c: u32, v: CellView)
    requires
        b.rows_view() == a.with_cell(r, c, v),
        b.touched(a, r, c),
    ensures
        touched_if(b, a, r, c, true),
{
    assert forall|rr: u32, cc: u32| #[trigger]
        b.cell_at(rr, cc) is Some <==> (a.cell_at(rr, cc) is Some || (rr == r && cc == c)) by {
        if rr == r {
            assert(b.row_or_empty(rr).cells == a.row_or_empty(r).cells.insert(c, v));
        } else {
            assert(b.row_or_empty(rr) == a.row_or_empty(rr));
        }
    }
}

proof fn lemma_touch_chain(a: &SpreadDocData, m: &SpreadDocData, b: &SpreadDocData, r: u32, c: u32, t1: bool, t2: bool)
    requires
        touched_if(m, a, r, c, t1),
        touched_if(b, m, r, c, t2),
    ensures
        touched_if(b, a, r, c, t1 || t2),
{
    assert forall|rr: u32, cc: u32| #[trigger]
        b.cell_at(rr, cc) is Some <==> (a.cell_at(rr, cc) is Some || ((t1 || t2) && rr == r && cc == c)) by {
        assert(b.cell_at(rr, cc) is Some <==> (m.cell_at(rr, cc) is Some || (t2 && rr == r && cc == c)));
        assert(m.cell_at(rr, cc) is Some <==> (a.cell_at(rr, cc) is Some || (t1 && rr == r && cc == c)));
    }
    assert forall|rr: u32| #[trigger]
        b.rows_view().contains_key(rr) <==> (a.rows_view().contains_key(rr) || ((t1 || t2) && rr == r)) by {
        assert(b.rows_view().contains_key(rr) <==> (m.rows_view().contains_key(rr) || (t2 && rr == r)));
        assert(m.rows_view().contains_key(rr) <==> (a.rows_view().contains_key(rr) || (t1 && rr == r)));
    }
}

/// Whether the format sets the horizontal, the vertical alignment.
pub open spec fn touch_align(fs: Seq<Seq<(u64, i64)>>, fmt: usize) -> (bool, bool) {
    (
        format_value(fs, fmt as int, H_ALIGN as u64) matches Some(x) && crate::format::h_from_code(x) is Some,
        format_value(fs, fmt as int, V_ALIGN as u64) matches Some(x) && crate::format::v_from_code(x) is Some,
    )
}

/// Whether the format sets wrapping, a number format.
pub open spec fn touch_number(fs: Seq<Seq<(u64, i64)>>, fmt: usize) -> (bool, bool) {
    (
        format_value(fs, fmt as int, TEXT_PLACEMENT as u64) == Some(3i64),
        format_value(fs, fmt as int, NUMBER_FORMAT) is Some,
    )
}

/// Whether the format sets the font, the text color.
pub open spec fn touch_font(fs: Seq<Seq<(u64, i64)>>, fmt: usize, pv: PalettesView) -> (bool, bool) {
    (
        format_value(fs, fmt as int, FONT as u64) matches Some(x) && index_spec(x) < pv.1.len(),
        format_value(fs, fmt as int, TEXT_COLOR as u64) matches Some(x) && index_spec(x) < pv.3.len() && pv.3[index_spec(
            x,
        )] is Some,
    )
}

/// Whether the format sets the border of a side.
pub open spec fn touch_border(fs: Seq<Seq<(u64, i64)>>, fmt: usize, lines: Seq<Line>, side: int) -> bool {
    format_value(fs, fmt as int, border_bit(side)) matches Some(x) && index_spec(x) < lines.len()
}

/// Whether the format sets the back color.
pub open spec fn touch_back(fs: Seq<Seq<(u64, i64)>>, fmt: usize, pv: PalettesView) -> bool {
    format_value(fs, fmt as int, BACK_COLOR as u64) matches Some(x) && index_spec(x) < pv.3.len() && pv.3[index_spec(
        x,
    )] is Some
}

/// Whether format `fmt` sets an alignment, wrapping, a number format, the
/// font or the text color.
pub open spec fn touches_front(fmt: usize, pv: PalettesView) -> bool {
    let fs = pv.0;
    ||| touch_align(fs, fmt).0
    ||| touch_align(fs, fmt).1
    ||| touch_number(fs, fmt).0
    ||| touch_number(fs, fmt).1
    ||| touch_font(fs, fmt, pv).0
    ||| touch_font(fs, fmt, pv).1
}

/// Whether format `fmt` sets a border or the back color.
pub open spec fn touches_back(fmt: usize, pv: PalettesView, lines: Seq<Line>) -> bool {
    let fs = pv.0;
    ||| touch_border(fs, fmt, lines, 0)
    ||| touch_border(fs, fmt, lines, 1)
    ||| touch_border(fs, fmt, lines, 2)
    ||| touch_border(fs, fmt, lines, 3)
    ||| touch_back(fs, fmt, pv)
}

/// Whether format `fmt` sets anything in a cell: then the cell is stored.
pub open spec fn touches(fmt: usize, pv: PalettesView, lines: Seq<Line>) -> bool {
    touches_front(fmt, pv) || touches_back(fmt, pv, lines)
}

/// The border of one side that the format gives.
fn apply_border(doc: &mut SpreadDocData, r: u32, c: u32, fmt: usize, p: &Palettes, lines: &Vec<Line>, side: usize)
    requires
        old(doc).wf(),
        r < u32::MAX,
        c < u32::MAX,
        side < 4,
    ensures
        final(doc).wf(),
        only_cell(
            final(doc),
            old(doc),
            r,
            c,
            border_step(old(doc).cell_or_blank(r, c), fmt, formats_view(p.formats@), lines@, side as int),
        ),
        touched_if(final(doc), old(doc), r, c, touch_border(formats_view(p.formats@), fmt, lines@, side as int)),
        final(doc).same_but_rows(old(doc)),
{
    let bit: u64 = if side == 0 {
        BORDER_LEFT as u64
    } else if side == 1 {
        BORDER_TOP as u64
    } else if side == 2 {
        BORDER_RIGHT as u64
    } else {
        BORDER_BOTTOM as u64
    };
    if let Some(v) = value_of(&p.formats, fmt, bit) {
        let k = index_of(v);
        if k < lines.len() {
            let line = lines[k];
            let left = if side == 0 { Some(line) } else { None };
            let top = if side == 1 { Some(line) } else { None };
            let right = if side == 2 { Some(line) } else { None };
            let bottom = if side == 3 { Some(line) } else { None };
            let ghost before = *doc;
            doc.set_cell_border(r, c, left, top, right, bottom);
            proof {
                let old_cell = before.cell_or_blank(r, c);
                let nv = CellView {
                    border_left: if left.is_some() { left } else { old_cell.border_left },
                    border_top: if top.is_some() { top } else { old_cell.border_top },
                    border_right: if right.is_some() { right } else { old_cell.border_right },
                    border_bottom: if bottom.is_some() { bottom } else { old_cell.border_bottom },
                    ..old_cell
                };
                lemma_set_step(&before, doc, r, c, nv);
                lemma_touch(&before, doc, r, c, nv);
                assert(nv == border_step(old_cell, fmt, formats_view(p.formats@), lines@, side as int));
            }
            return;
        }
    }
    proof {
        lemma_no_step(doc, r, c);
    }
}

fn apply_align(doc: &mut SpreadDocData, r: u32, c: u32, fmt: usize, p: &Palettes)
    requires
        old(doc).wf(),
        r < u32::MAX,
        c < u32::MAX,
    ensures
        final(doc).wf(),
        only_cell(
            final(doc),
            old(doc),
            r,
            c,
            step_v(step_h(old(doc).cell_or_blank(r, c), formats_view(p.formats@), fmt), formats_view(p.formats@), fmt),
        ),
        touched_if(
            final(doc),
            old(doc),
            r,
            c,
            touch_align(formats_view(p.formats@), fmt).0 || touch_align(formats_view(p.formats@), fmt).1,
        ),
        final(doc).same_but_rows(old(doc)),
{
    let ghost d0 = *doc;
    proof {
        lemma_no_step(doc, r, c);
    }
    if let Some(v) = value_of(&p.formats, fmt, H_ALIGN as u64) {
        if let Some(a) = HAlign::from_code(v) {
            let ghost before = *doc;
            doc.set_cell_h_align(r, c, a);
            proof {
                lemma_set_step(&before, doc, r, c, CellView { h_align: Some(a), ..before.cell_or_blank(r, c) });
                lemma_touch(&before, doc, r, c, CellView { h_align: Some(a), ..before.cell_or_blank(r, c) });
            }
        }
    }
    let ghost d1 = *doc;
    proof {
        lemma_no_step(doc, r, c);
    }
    if let Some(v) = value_of(&p.formats, fmt, V_ALIGN as u64) {
        if let Some(a) = VAlign::from_code(v) {
            let ghost before = *doc;
            doc.set_cell_v_align(r, c, a);
            proof {
                lemma_set_step(&before, doc, r, c, CellView { v_align: Some(a), ..before.cell_or_blank(r, c) });
                lemma_touch(&before, doc, r, c, CellView { v_align: Some(a), ..before.cell_or_blank(r, c) });
            }
        }
    }
    proof {
        lemma_only_chain(&d0, &d1, doc, r, c);
        lemma_touch_chain(
            &d0,
            &d1,
            doc,
            r,
            c,
            touch_align(formats_view(p.formats@), fmt).0,
            touch_align(formats_view(p.formats@), fmt).1,
        );
    }
}

fn apply_wrap_number(doc: &mut SpreadDocData, r: u32, c: u32, fmt: usize, p: &Palettes)
    requires
        old(doc).wf(),
        r < u32::MAX,
        c < u32::MAX,
    ensures
        final(doc).wf(),
        only_cell(
            final(doc),
            old(doc),
            r,
            c,
            step_number(
                step_wrap(old(doc).cell_or_blank(r, c), formats_view(p.formats@), fmt),
                formats_view(p.formats@),
                fmt,
                palettes_view(*p).2,
            ),
        ),
        touched_if(
            final(doc),
            old(doc),
            r,
            c,
            touch_number(formats_view(p.formats@), fmt).0 || touch_number(formats_view(p.formats@), fmt).1,
        ),
        final(doc).same_but_rows(old(doc)),
{
    let ghost d0 = *doc;
    proof {
        lemma_no_step(doc, r, c);
    }
    if let Some(v) = value_of(&p.formats, fmt, TEXT_PLACEMENT as u64) {
        if v == 3 {
            let ghost before = *doc;
            doc.set_cell_wrap(r, c, true);
            proof {
                lemma_set_step(&before, doc, r, c, CellView { wrap: true, ..before.cell_or_blank(r, c) });
                lemma_touch(&before, doc, r, c, CellView { wrap: true, ..before.cell_or_blank(r, c) });
            }
        }
    }
    let ghost d1 = *doc;
    proof {
        lemma_no_step(doc, r, c);
    }
    if let Some(v) = value_of(&p.formats, fmt, NUMBER_FORMAT) {
        let ghost before = *doc;
        doc.set_cell_numeric(r, c);
        proof {
            lemma_set_step(&before, doc, r, c, CellView { numeric: true, ..before.cell_or_blank(r, c) });
            lemma_touch(&before, doc, r, c, CellView { numeric: true, ..before.cell_or_blank(r, c) });
        }
        let ghost d2 = *doc;
        let k = index_of(v);
        if k < p.num_formats.len() {
            if let Some(spec) = &p.num_formats[k] {
                let ghost before = *doc;
                doc.set_cell_format_spec(r, c, spec.as_str());
                proof {
                    lemma_set_step(&before, doc, r, c, CellView { format_spec: Some(spec@), ..before.cell_or_blank(r, c) });
                    lemma_touch(&before, doc, r, c, CellView { format_spec: Some(spec@), ..before.cell_or_blank(r, c) });
                    assert(palettes_view(*p).2[k as int] == Some(spec@));
                    lemma_only_chain(&d1, &d2, doc, r, c);
                    lemma_touch_chain(&d1, &d2, doc, r, c, true, true);
                }
            } else {
                proof {
                    assert(palettes_view(*p).2[k as int] is None);
                }
            }
        }
    }
    proof {
        lemma_only_chain(&d0, &d1, doc, r, c);
        lemma_touch_chain(
            &d0,
            &d1,
            doc,
            r,
            c,
            touch_number(formats_view(p.formats@), fmt).0,
            touch_number(formats_view(p.formats@), fmt).1,
        );
    }
}

fn apply_font_color(doc: &mut SpreadDocData, r: u32, c: u32, fmt: usize, p: &Palettes)
    requires
        old(doc).wf(),
        r < u32::MAX,
        c < u32::MAX,
    ensures
        final(doc).wf(),
        only_cell(
            final(doc),
            old(doc),
            r,
            c,
            step_color(
                step_font(old(doc).cell_or_blank(r, c), formats_view(p.formats@), fmt, palettes_view(*p).1),
                formats_view(p.formats@),
                fmt,
                palettes_view(*p).3,
                false,
            ),
        ),
        touched_if(
            final(doc),
            old(doc),
            r,
            c,
            touch_font(formats_view(p.formats@), fmt, palettes_view(*p)).0 || touch_font(
                formats_view(p.formats@),
                fmt,
                palettes_view(*p),
            ).1,
        ),
        final(doc).same_but_rows(old(doc)),
{
    let ghost d0 = *doc;
    proof {
        lemma_no_step(doc, r, c);
    }
    if let Some(v) = value_of(&p.formats, fmt, FONT as u64) {
        let k = index_of(v);
        if k < p.fonts.len() {
            let f = p.fonts[k].clone();
            let ghost fv = f@;
            let ghost before = *doc;
            doc.set_cell_font(r, c, f);
            proof {
                lemma_set_step(&before, doc, r, c, CellView { font: Some(fv), ..before.cell_or_blank(r, c) });
                lemma_touch(&before, doc, r, c, CellView { font: Some(fv), ..before.cell_or_blank(r, c) });
                assert(palettes_view(*p).1[k as int] == fv);
            }
        }
    }
    let ghost d1 = *doc;
    proof {
        lemma_no_step(doc, r, c);
    }
    if let Some(v) = value_of(&p.formats, fmt, TEXT_COLOR as u64) {
        let k = index_of(v);
        if k < p.colors.len() {
            if let Some(color) = p.colors[k] {
                let ghost before = *doc;
                doc.set_cell_text_color(r, c, color);
                proof {
                    lemma_set_step(&before, doc, r, c, CellView { text_color: Some(color), ..before.cell_or_blank(r, c) });
                    lemma_touch(&before, doc, r, c, CellView { text_color: Some(color), ..before.cell_or_blank(r, c) });
                }
            }
        }
    }
    proof {
        lemma_only_chain(&d0, &d1, doc, r, c);
        lemma_touch_chain(
            &d0,
            &d1,
            doc,
            r,
            c,
            touch_font(formats_view(p.formats@), fmt, palettes_view(*p)).0,
            touch_font(formats_view(p.formats@), fmt, palettes_view(*p)).1,
        );
    }
}

fn apply_back_color(doc: &mut SpreadDocData, r: u32, c: u32, fmt: usize, p: &Palettes)
    requires
        old(doc).wf(),
        r < u32::MAX,
        c < u32::MAX,
    ensures
        final(doc).wf(),
        only_cell(
            final(doc),
            old(doc),
            r,
            c,
            step_color(old(doc).cell_or_blank(r, c), formats_view(p.formats@), fmt, palettes_view(*p).3, true),
        ),
        touched_if(final(doc), old(doc), r, c, touch_back(formats_view(p.formats@), fmt, palettes_view(*p))),
        final(doc).same_but_rows(old(doc)),
{
    if let Some(v) = value_of(&p.formats, fmt, BACK_COLOR as u64) {
        let k = index_of(v);
        if k < p.colors.len() {
            if let Some(color) = p.colors[k] {
                let ghost before = *doc;
                doc.set_cell_back_color(r, c, color);
                proof {
                    lemma_set_step(&before, doc, r, c, CellView { back_color: Some(color), ..before.cell_or_blank(r, c) });
                    lemma_touch(&before, doc, r, c, CellView { back_color: Some(color), ..before.cell_or_blank(r, c) });
                }
                return;
            }
        }
    }
    proof {
        lemma_no_step(doc, r, c);
    }
}

fn apply_front(doc: &mut SpreadDocData, r: u32, c: u32, fmt: usize, p: &Palettes)
    requires
        old(doc).wf(),
        r < u32::MAX,
        c < u32::MAX,
    ensures
        final(doc).wf(),
        only_cell(final(doc), old(doc), r, c, formatted_front(old(doc).cell_or_blank(r, c), fmt, palettes_view(*p))),
        touched_if(final(doc), old(doc), r, c, touches_front(fmt, palettes_view(*p))),
        final(doc).same_but_rows(old(doc)),
{
    let ghost d0 = *doc;
    let ghost fs = formats_view(p.formats@);
    let ghost pv = palettes_view(*p);
    apply_align(doc, r, c, fmt, p);
    let ghost d1 = *doc;
    apply_wrap_number(doc, r, c, fmt, p);
    proof {
        lemma_only_chain(&d0, &d1, doc, r, c);
        lemma_touch_chain(
            &d0,
            &d1,
            doc,
            r,
            c,
            touch_align(fs, fmt).0 || touch_align(fs, fmt).1,
            touch_number(fs, fmt).0 || touch_number(fs, fmt).1,
        );
    }
    let ghost d2 = *doc;
    apply_font_color(doc, r, c, fmt, p);
    proof {
        lemma_only_chain(&d0, &d2, doc, r, c);
        lemma_touch_chain(
            &d0,
            &d2,
            doc,
            r,
            c,
            touch_align(fs, fmt).0 || touch_align(fs, fmt).1 || touch_number(fs, fmt).0 || touch_number(fs, fmt).1,
            touch_font(fs, fmt, pv).0 || touch_font(fs, fmt, pv).1,
        );
        assert(fs == pv.0);
    }
}

fn apply_back(doc: &mut SpreadDocData, r: u32, c: u32, fmt: usize, p: &Palettes, lines: &Vec<Line>)
    requires
        old(doc).wf(),
        r < u32::MAX,
        c < u32::MAX,
    ensures
        final(doc).wf(),
        only_cell(
            final(doc),
            old(doc),
            r,
            c,
            formatted_back(old(doc).cell_or_blank(r, c), fmt, palettes_view(*p), lines@),
        ),
        touched_if(final(doc), old(doc), r, c, touches_back(fmt, palettes_view(*p), lines@)),
        final(doc).same_but_rows(old(doc)),
{
    let ghost d0 = *doc;
    let ghost fs = formats_view(p.formats@);
    let ghost pv = palettes_view(*p);
    apply_border(doc, r, c, fmt, p, lines, 0);
    let ghost d1 = *doc;
    apply_border(doc, r, c, fmt, p, lines, 1);
    proof {
        lemma_only_chain(&d0, &d1, doc, r, c);
        lemma_touch_chain(&d0, &d1, doc, r, c, touch_border(fs, fmt, lines@, 0), touch_border(fs, fmt, lines@, 1));
    }
    let ghost d2 = *doc;
    apply_border(doc, r, c, fmt, p, lines, 2);
    proof {
        lemma_only_chain(&d0, &d2, doc, r, c);
        lemma_touch_chain(
            &d0,
            &d2,
            doc,
            r,
            c,
            touch_border(fs, fmt, lines@, 0) || touch_border(fs, fmt, lines@, 1),
            touch_border(fs, fmt, lines@, 2),
        );
    }
    let ghost d3 = *doc;
    apply_border(doc, r, c, fmt, p, lines, 3);
    proof {
        lemma_only_chain(&d0, &d3, doc, r, c);
        lemma_touch_chain(
            &d0,
            &d3,
            doc,
            r,
            c,
            touch_border(fs, fmt, lines@, 0) || touch_border(fs, fmt, lines@, 1) || touch_border(fs, fmt, lines@, 2),
            touch_border(fs, fmt, lines@, 3),
        );
    }
    let ghost d4 = *doc;
    apply_back_color(doc, r, c, fmt, p);
    proof {
        lemma_only_chain(&d0, &d4, doc, r, c);
        lemma_touch_chain(
            &d0,
            &d4,
            doc,
            r,
            c,
            touch_border(fs, fmt, lines@, 0) || touch_border(fs, fmt, lines@, 1) || touch_border(fs, fmt, lines@, 2)
                || touch_border(fs, fmt, lines@, 3),
            touch_back(fs, fmt, pv),
        );
        assert(fs == pv.0);
    }
}

proof fn lemma_formatted_content(v: CellView, fmt: usize, pv: PalettesView, lines: Seq<Line>)
    ensures
        content(formatted(v, fmt, pv, lines)) == content(v),
{
    let w = formatted_front(v, fmt, pv);
    assert(content(w) == content(v));
    assert(content(formatted_back(w, fmt, pv, lines)) == content(w));
}

/// The formats of one cell.
#[verifier::spinoff_prover]
fn apply_cell_format(doc: &mut SpreadDocData, r: u32, c: u32, fmt: usize, p: &Palettes, lines: &Vec<Line>)
    requires
        old(doc).wf(),
        r < u32::MAX,
        c < u32::MAX,
    ensures
        final(doc).wf(),
        same_contents(final(doc), old(doc)),
        only_cell(final(doc), old(doc), r, c, formatted(old(doc).cell_or_blank(r, c), fmt, palettes_view(*p), lines@)),
        touched_if(final(doc), old(doc), r, c, touches(fmt, palettes_view(*p), lines@)),
        final(doc).same_but_rows(old(doc)),
{
    let ghost d0 = *doc;
    apply_front(doc, r, c, fmt, p);
    let ghost d1 = *doc;
    apply_back(doc, r, c, fmt, p, lines);
    proof {
        lemma_only_chain(&d0, &d1, doc, r, c);
        lemma_touch_chain(&d0, &d1, doc, r, c, touches_front(fmt, palettes_view(*p)), touches_back(fmt, palettes_view(*p), lines@));
        lemma_formatted_content(d0.cell_or_blank(r, c), fmt, palettes_view(*p), lines@);
        assert forall|rr: u32, cc: u32| #[trigger] content(doc.cell_or_blank(rr, cc)) == content(
            d0.cell_or_blank(rr, cc),
        ) by {
            if !(rr == r && cc == c) {
                assert(doc.cell_or_blank(rr, cc) == d0.cell_or_blank(rr, cc));
            }
        }
    }
}

proof fn lemma_only_chain(d0: &SpreadDocData, m: &SpreadDocData, b: &SpreadDocData, r: u32, c: u32)
    requires
        only_cell(m, d0, r, c, m.cell_or_blank(r, c)),
        only_cell(b, m, r, c, b.cell_or_blank(r, c)),
    ensures
        only_cell(b, d0, r, c, b.cell_or_blank(r, c)),
{
    assert forall|rr: u32, cc: u32| #[trigger]
        b.cell_or_blank(rr, cc) == if rr == r && cc == c {
            b.cell_or_blank(r, c)
        } else {
            d0.cell_or_blank(rr, cc)
        } by {
        if !(rr == r && cc == c) {
            assert(b.cell_or_blank(rr, cc) == m.cell_or_blank(rr, cc));
        }
    }
    assert forall|rr: u32| #[trigger] b.row_or_empty(rr).height == d0.row_or_empty(rr).height by {
        assert(b.row_or_empty(rr).height == m.row_or_empty(rr).height);
    }
}

/// The height of row `r`, first `h`, after the row format references in
/// order: a format with a row height sets it, in API units (the file
/// holds quarters).
pub open spec fn heights_after(h: Option<i64>, fmts: Seq<(u32, usize)>, fs: Seq<Seq<(u64, i64)>>, r: u32) -> Option<i64>
    decreases fmts.len(),
{
    if fmts.len() == 0 {
        h
    } else {
        let prev = heights_after(h, fmts.drop_last(), fs, r);
        let e = fmts.last();
        if e.0 == r {
            match format_value(fs, e.1 as int, ROW_HEIGHT as u64) {
                Some(v) => Some(trunc_div(v as int, 4) as i64),
                None => prev,
            }
        } else {
            prev
        }
    }
}

/// The column widths after the column format references in order: a
/// format with a column width sets it, in API units (the file holds
/// eighths).
pub open spec fn widths_after(m: Map<u32, i64>, fmts: Seq<(u32, usize)>, fs: Seq<Seq<(u64, i64)>>) -> Map<u32, i64>
    decreases fmts.len(),
{
    if fmts.len() == 0 {
        m
    } else {
        let prev = widths_after(m, fmts.drop_last(), fs);
        let e = fmts.last();
        match format_value(fs, e.1 as int, COL_WIDTH as u64) {
            Some(v) => prev.insert(e.0, trunc_div(v as int, 8) as i64),
            None => prev,
        }
    }
}

/// Cell `(r, c)`, first `v`, after the cell format references in order.
pub open spec fn looks_after(
    v: CellView,
    fmts: Seq<(u32, u32, usize)>,
    pv: PalettesView,
    lines: Seq<Line>,
    r: u32,
    c: u32,
) -> CellView
    decreases fmts.len(),
{
    if fmts.len() == 0 {
        v
    } else {
        let prev = looks_after(v, fmts.drop_last(), pv, lines, r, c);
        let e = fmts.last();
        if e.0 == r && e.1 == c {
            formatted(prev, e.2, pv, lines)
        } else {
            prev
        }
    }
}

fn apply_formats(doc: &mut SpreadDocData, rows: &RowsRead, cols: &ColumnsRead, p: &Palettes, lines: &Vec<Line>) -> (r: Result<(), ReadError>)
    requires
        old(doc).wf(),
    ensures
        final(doc).wf(),
        same_contents(final(doc), old(doc)),
        final(doc).same_but_rows_and_widths(old(doc)),
        r is Ok ==> forall|rr: u32| #[trigger]
            final(doc).row_or_empty(rr).height == heights_after(
                old(doc).row_or_empty(rr).height,
                rows.row_formats@,
                formats_view(p.formats@),
                rr,
            ),
        r is Ok ==> keyed::as_map(final(doc).col_widths@) == widths_after(
            keyed::as_map(old(doc).col_widths@),
            cols.column_formats@,
            formats_view(p.formats@),
        ),
        r is Ok ==> forall|rr: u32, cc: u32| #[trigger]
            final(doc).cell_or_blank(rr, cc) == looks_after(
                old(doc).cell_or_blank(rr, cc),
                rows.cell_formats@,
                palettes_view(*p),
                lines@,
                rr,
                cc,
            ),
        r is Ok <==> formats_in_range(rows.row_formats@, rows.cell_formats@, formats_view(p.formats@)),
        r is Ok ==> forall|rr: u32, cc: u32| #[trigger]
            final(doc).cell_at(rr, cc) is Some <==> (old(doc).cell_at(rr, cc) is Some || look_listed(
                rows.cell_formats@,
                palettes_view(*p),
                lines@,
                rr,
                cc,
            )),
        r is Ok ==> forall|rr: u32| #[trigger]
            final(doc).rows_view().contains_key(rr) <==> (old(doc).rows_view().contains_key(rr) || height_listed(
                rows.row_formats@,
                formats_view(p.formats@),
                rr,
            ) || look_row_listed(rows.cell_formats@, palettes_view(*p), lines@, rr)),
        r is Ok ==> (final(doc).height as int, final(doc).width as int) == extent_looks(
            extent_heights((old(doc).height as int, old(doc).width as int), rows.row_formats@, formats_view(p.formats@)),
            rows.cell_formats@,
            palettes_view(*p),
            lines@,
        ),
        r is Err ==> r == Err::<(), ReadError>(ReadError::IndexOutOfRange),
{
    let ghost d0 = *doc;
    let ghost fs = formats_view(p.formats@);
    proof {
        assert(rows.row_formats@.take(0) =~= Seq::<(u32, usize)>::empty());
    }
    let mut i: usize = 0;
    while i < rows.row_formats.len()
        invariant
            doc.wf(),
            same_contents(doc, &d0),
            d0 == *old(doc),
            doc.same_but_rows_and_widths(&d0),
            fs == formats_view(p.formats@),
            i <= rows.row_formats@.len(),
            forall|rr: u32, cc: u32| #[trigger] doc.cell_or_blank(rr, cc) == d0.cell_or_blank(rr, cc),
            doc.col_widths == d0.col_widths,
            forall|j: int|
                0 <= j < i && format_value(fs, (#[trigger] rows.row_formats@[j]).1 as int, ROW_HEIGHT as u64) is Some
                    ==> rows.row_formats@[j].0 != u32::MAX,
            forall|rr: u32, cc: u32| #[trigger] doc.cell_at(rr, cc) == d0.cell_at(rr, cc),
            forall|rr: u32| #[trigger]
                doc.rows_view().contains_key(rr) <==> (d0.rows_view().contains_key(rr) || height_listed(
                    rows.row_formats@.take(i as int),
                    fs,
                    rr,
                )),
            (doc.height as int, doc.width as int) == extent_heights(
                (d0.height as int, d0.width as int),
                rows.row_formats@.take(i as int),
                fs,
            ),
            forall|rr: u32| #[trigger]
                doc.row_or_empty(rr).height == heights_after(
                    d0.row_or_empty(rr).height,
                    rows.row_formats@.take(i as int),
                    fs,
                    rr,
                ),
        decreases rows.row_formats@.len() - i,
    {
        let (r, fmt) = rows.row_formats[i];
        let ghost before = *doc;
        proof {
            let t = rows.row_formats@.take(i + 1);
            assert(t.drop_last() =~= rows.row_formats@.take(i as int));
            assert(t.last() == (r, fmt));
        }
        if let Some(v) = value_of(&p.formats, fmt, ROW_HEIGHT as u64) {
            if r == u32::MAX {
                return Err(ReadError::IndexOutOfRange);
            }
            let h = div_trunc(v, 4);
            doc.set_row_height(r, h);
            proof {
                lemma_row_kept(&before, doc, r, Some(h));
                lemma_height_touch(&before, doc, r, h);
                assert forall|rr: u32, cc: u32| #[trigger] doc.cell_at(rr, cc) == d0.cell_at(rr, cc) by {
                    assert(doc.cell_at(rr, cc) == before.cell_at(rr, cc));
                }
                assert forall|rr: u32| #[trigger]
                    doc.rows_view().contains_key(rr) <==> (d0.rows_view().contains_key(rr) || height_listed(
                        rows.row_formats@.take(i + 1),
                        fs,
                        rr,
                    )) by {
                    assert(doc.rows_view().contains_key(rr) <==> (before.rows_view().contains_key(rr) || rr == r));
                }
                assert forall|rr: u32| #[trigger]
                    doc.row_or_empty(rr).height == heights_after(
                        d0.row_or_empty(rr).height,
                        rows.row_formats@.take(i + 1),
                        fs,
                        rr,
                    ) by {
                    if rr != r {
                        assert(doc.row_or_empty(rr) == before.row_or_empty(rr));
                    }
                }
                assert forall|rr: u32, cc: u32| #[trigger] content(doc.cell_or_blank(rr, cc)) == content(
                    d0.cell_or_blank(rr, cc),
                ) by {
                    assert(doc.cell_or_blank(rr, cc) == before.cell_or_blank(rr, cc));
                }
            }
        }
        i = i + 1;
    }
    proof {
        assert(rows.row_formats@.take(rows.row_formats@.len() as int) =~= rows.row_formats@);
        assert(cols.column_formats@.take(0) =~= Seq::<(u32, usize)>::empty());
    }
    let ghost d1 = *doc;
    let mut i: usize = 0;
    while i < cols.column_formats.len()
        invariant
            doc.wf(),
            same_contents(doc, &d0),
            d0 == *old(doc),
            doc.same_but_rows_and_widths(&d0),
            doc.rows == d1.rows,
            doc.height == d1.height,
            doc.width == d1.width,
            fs == formats_view(p.formats@),
            i <= cols.column_formats@.len(),
            forall|j: int|
                0 <= j < rows.row_formats@.len() && format_value(fs, (#[trigger] rows.row_formats@[j]).1 as int, ROW_HEIGHT as u64) is Some
                    ==> rows.row_formats@[j].0 != u32::MAX,
            keyed::as_map(doc.col_widths@) == widths_after(
                keyed::as_map(d0.col_widths@),
                cols.column_formats@.take(i as int),
                fs,
            ),
        decreases cols.column_formats@.len() - i,
    {
        let (c, fmt) = cols.column_formats[i];
        proof {
            let t = cols.column_formats@.take(i + 1);
            assert(t.drop_last() =~= cols.column_formats@.take(i as int));
            assert(t.last() == (c, fmt));
        }
        if let Some(v) = value_of(&p.formats, fmt, COL_WIDTH as u64) {
            let ghost before = *doc;
            doc.set_col_width(c, div_trunc(v, 8));
            proof {
                assert forall|rr: u32, cc: u32| #[trigger] content(doc.cell_or_blank(rr, cc)) == content(
                    d0.cell_or_blank(rr, cc),
                ) by {
                    assert(doc.cell_or_blank(rr, cc) == before.cell_or_blank(rr, cc));
                    assert(content(before.cell_or_blank(rr, cc)) == content(d0.cell_or_blank(rr, cc)));
                }
            }
        }
        i = i + 1;
    }
    proof {
        assert(cols.column_formats@.take(cols.column_formats@.len() as int) =~= cols.column_formats@);
        assert forall|rr: u32, cc: u32| #[trigger]
            doc.cell_or_blank(rr, cc) == looks_after(
                d0.cell_or_blank(rr, cc),
                rows.cell_formats@.take(0),
                palettes_view(*p),
                lines@,
                rr,
                cc,
            ) by {
            assert(doc.cell_or_blank(rr, cc) == d1.cell_or_blank(rr, cc));
        }
    }
    let ghost d2 = *doc;
    proof {
        assert(rows.cell_formats@.take(0) =~= Seq::<(u32, u32, usize)>::empty());
    }
    let mut i: usize = 0;
    while i < rows.cell_formats.len()
        invariant
            doc.wf(),
            same_contents(doc, &d0),
            d0 == *old(doc),
            doc.same_but_rows_and_widths(&d0),
            doc.col_widths == d2.col_widths,
            i <= rows.cell_formats@.len(),
            fs == formats_view(p.formats@),
            forall|j: int|
                0 <= j < rows.row_formats@.len() && format_value(fs, (#[trigger] rows.row_formats@[j]).1 as int, ROW_HEIGHT as u64) is Some
                    ==> rows.row_formats@[j].0 != u32::MAX,
            forall|j: int| 0 <= j < i ==> (#[trigger] rows.cell_formats@[j]).0 != u32::MAX && rows.cell_formats@[j].1 != u32::MAX,
            forall|rr: u32, cc: u32| #[trigger]
                doc.cell_at(rr, cc) is Some <==> (d2.cell_at(rr, cc) is Some || look_listed(
                    rows.cell_formats@.take(i as int),
                    palettes_view(*p),
                    lines@,
                    rr,
                    cc,
                )),
            forall|rr: u32| #[trigger]
                doc.rows_view().contains_key(rr) <==> (d2.rows_view().contains_key(rr) || look_row_listed(
                    rows.cell_formats@.take(i as int),
                    palettes_view(*p),
                    lines@,
                    rr,
                )),
            (doc.height as int, doc.width as int) == extent_looks(
                (d2.height as int, d2.width as int),
                rows.cell_formats@.take(i as int),
                palettes_view(*p),
                lines@,
            ),
            forall|rr: u32| #[trigger] doc.row_or_empty(rr).height == d2.row_or_empty(rr).height,
            forall|rr: u32, cc: u32| #[trigger]
                doc.cell_or_blank(rr, cc) == looks_after(
                    d0.cell_or_blank(rr, cc),
                    rows.cell_formats@.take(i as int),
                    palettes_view(*p),
                    lines@,
                    rr,
                    cc,
                ),
        decreases rows.cell_formats@.len() - i,
    {
        let (r, c, fmt) = rows.cell_formats[i];
        if r == u32::MAX || c == u32::MAX {
            return Err(ReadError::IndexOutOfRange);
        }
        let ghost before = *doc;
        apply_cell_format(doc, r, c, fmt, p, lines);
        proof {
            let t = rows.cell_formats@.take(i + 1);
            assert(t.drop_last() =~= rows.cell_formats@.take(i as int));
            assert(t.last() == (r, c, fmt));
            assert forall|rr: u32, cc: u32| #[trigger] content(doc.cell_or_blank(rr, cc)) == content(
                d0.cell_or_blank(rr, cc),
            ) by {
                assert(content(doc.cell_or_blank(rr, cc)) == content(before.cell_or_blank(rr, cc)));
                assert(content(before.cell_or_blank(rr, cc)) == content(d0.cell_or_blank(rr, cc)));
            }
            assert forall|rr: u32, cc: u32| #[trigger]
                doc.cell_or_blank(rr, cc) == looks_after(d0.cell_or_blank(rr, cc), t, palettes_view(*p), lines@, rr, cc) by {
                assert(before.cell_or_blank(rr, cc) == looks_after(
                    d0.cell_or_blank(rr, cc),
                    rows.cell_formats@.take(i as int),
                    palettes_view(*p),
                    lines@,
                    rr,
                    cc,
                ));
            }
            assert forall|rr: u32| #[trigger] doc.row_or_empty(rr).height == d2.row_or_empty(rr).height by {
                assert(doc.row_or_empty(rr).height == before.row_or_empty(rr).height);
            }
            let tt = touches(fmt, palettes_view(*p), lines@);
            assert forall|rr: u32, cc: u32| #[trigger]
                doc.cell_at(rr, cc) is Some <==> (d2.cell_at(rr, cc) is Some || look_listed(
                    t,
                    palettes_view(*p),
                    lines@,
                    rr,
                    cc,
                )) by {
                assert(doc.cell_at(rr, cc) is Some <==> (before.cell_at(rr, cc) is Some || (tt && rr == r && cc == c)));
            }
            assert forall|rr: u32| #[trigger]
                doc.rows_view().contains_key(rr) <==> (d2.rows_view().contains_key(rr) || look_row_listed(
                    t,
                    palettes_view(*p),
                    lines@,
                    rr,
                )) by {
                assert(doc.rows_view().contains_key(rr) <==> (before.rows_view().contains_key(rr) || (tt && rr == r)));
            }
        }
        i = i + 1;
    }
    proof {
        assert(rows.cell_formats@.take(rows.cell_formats@.len() as int) =~= rows.cell_formats@);
        assert forall|rr: u32, cc: u32| #[trigger] d2.cell_at(rr, cc) == d0.cell_at(rr, cc) by {
            assert(d2.cell_at(rr, cc) == d1.cell_at(rr, cc));
        }
        assert forall|rr: u32| #[trigger]
            doc.row_or_empty(rr).height == heights_after(d0.row_or_empty(rr).height, rows.row_formats@, fs, rr) by {
            assert(doc.row_or_empty(rr).height == d2.row_or_empty(rr).height);
            assert(d2.row_or_empty(rr) == d1.row_or_empty(rr));
        }
    }
    Ok(())
}

/// The height of a row in quarter points: four per API unit, 45 when the
/// row has none of its own.
pub open spec fn row_quarters(doc: &SpreadDocData, r: u32) -> int {
    match doc.row_or_empty(r).height {
        Some(v) => v * 4,
        None => 45,
    }
}

/// The width of a column in quarter points: 21 per API unit, 189 when the
/// column has none of its own.
pub open spec fn col_quarters(doc: &SpreadDocData, c: u32) -> int {
    if keyed::as_map(doc.col_widths@).contains_key(c) {
        keyed::as_map(doc.col_widths@)[c] * 21
    } else {
        189
    }
}

/// Where row `row` starts: the heights of the rows above it.
pub open spec fn row_pos(doc: &SpreadDocData, row: int) -> int
    decreases row,
{
    if row <= 0 {
        0
    } else {
        row_pos(doc, row - 1) + row_quarters(doc, (row - 1) as u32)
    }
}

/// Where column `col` starts: the widths of the columns before it.
pub open spec fn col_pos(doc: &SpreadDocData, col: int) -> int
    decreases col,
{
    if col <= 0 {
        0
    } else {
        col_pos(doc, col - 1) + col_quarters(doc, (col - 1) as u32)
    }
}

/// The start of a row in quarter points.
fn row_start(doc: &SpreadDocData, row: u32) -> (r: i128)
    requires
        doc.wf(),
    ensures
        -0x4_0000_0000_0000_0000_0000_0000 <= r <= 0x4_0000_0000_0000_0000_0000_0000,
        r == row_pos(doc, row as int),
{
    let mut x: i128 = 0;
    let mut r: u32 = 0;
    while r < row
        invariant
            doc.wf(),
            r <= row,
            -0x4_0000_0000_0000_0000 * r <= x <= 0x4_0000_0000_0000_0000 * r,
            x == row_pos(doc, r as int),
        decreases row - r,
    {
        let h: i128 = match keyed::get(&doc.rows, r) {
            Some(data) => match data.height {
                Some(v) => v as i128 * 4,
                None => 45,
            },
            None => 45,
        };
        proof {
            assert(h == row_quarters(doc, r));
        }
        x = x + h;
        r = r + 1;
    }
    x
}

/// The start of a column in quarter points.
fn col_start(doc: &SpreadDocData, col: u32) -> (r: i128)
    requires
        doc.wf(),
    ensures
        -0x10_0000_0000_0000_0000_0000_0000 <= r <= 0x10_0000_0000_0000_0000_0000_0000,
        r == col_pos(doc, col as int),
{
    let mut x: i128 = 0;
    let mut c: u32 = 0;
    while c < col
        invariant
            doc.wf(),
            c <= col,
            -0x10_0000_0000_0000_0000 * c <= x <= 0x10_0000_0000_0000_0000 * c,
            x == col_pos(doc, c as int),
        decreases col - c,
    {
        let w: i128 = match keyed::get(&doc.col_widths, c) {
            Some(v) => *v as i128 * 21,
            None => 189,
        };
        proof {
            assert(w == col_quarters(doc, c));
        }
        x = x + w;
        c = c + 1;
    }
    x
}

/// `D<number>`: the default name of a drawing.
fn drawing_name(n: usize) -> (s: String)
    ensures
        s@ == seq!['D'] + crate::text::spec_int(n as int),
{
    let mut s = String::new();
    push_char(&mut s, 'D');
    push_int(&mut s, n as i128);
    s
}

/// What the last step of reading leaves alone: rows, widths, merges,
/// names, page and view settings.
pub open spec fn kept_by_finish(a: &SpreadDocData, b: &SpreadDocData) -> bool {
    &&& a.rows == b.rows
    &&& a.col_widths == b.col_widths
    &&& a.merges == b.merges
    &&& a.row_merges == b.row_merges
    &&& a.col_merges == b.col_merges
    &&& a.open_groups == b.open_groups
    &&& a.names == b.names
    &&& a.show_grid == b.show_grid
    &&& a.fix_top == b.fix_top
    &&& a.fix_left == b.fix_left
    &&& a.print_scale == b.print_scale
    &&& a.landscape == b.landscape
    &&& a.margins == b.margins
    &&& a.print_area == b.print_area
    &&& a.params == b.params
}

/// The widths a column set's references give: a format with a column
/// width sets the width of its column (as the file holds it).
pub open spec fn set_widths(refs: Seq<(u32, usize)>, fs: Seq<Seq<(u64, i64)>>) -> Map<u32, i64>
    decreases refs.len(),
{
    if refs.len() == 0 {
        Map::empty()
    } else {
        let prev = set_widths(refs.drop_last(), fs);
        match format_value(fs, refs.last().1 as int, COL_WIDTH as u64) {
            Some(w) => prev.insert(refs.last().0, w),
            None => prev,
        }
    }
}

/// A column set as plain values: id, count, widths by column.
pub open spec fn column_set_view(s: ColumnSet) -> (Seq<char>, u32, Map<u32, i64>) {
    (s.id@, s.count, keyed::as_map(s.widths@))
}

pub open spec fn column_sets_view(s: Seq<ColumnSet>) -> Seq<(Seq<char>, u32, Map<u32, i64>)> {
    s.map_values(|x: ColumnSet| column_set_view(x))
}

/// The column sets the raw sets of the file give.
pub open spec fn sets_of(raw: Seq<(Seq<char>, u32, Seq<(u32, usize)>)>, fs: Seq<Seq<(u64, i64)>>) -> Seq<
    (Seq<char>, u32, Map<u32, i64>),
> {
    raw.map_values(|t: (Seq<char>, u32, Seq<(u32, usize)>)| (t.0, t.1, set_widths(t.2, fs)))
}

/// A drawing as plain values: left, top, width, height, name.
pub open spec fn drawing_view(d: Drawing) -> (i64, i64, i64, i64, Seq<char>) {
    (d.left, d.top, d.width, d.height, d.name@)
}

pub open spec fn drawings_view(s: Seq<Drawing>) -> Seq<(i64, i64, i64, i64, Seq<char>)> {
    s.map_values(|d: Drawing| drawing_view(d))
}

/// Drawing number `n` (from 0) placed on the grid of `doc`: the corners are
/// cell starts plus offsets, in quarter points; the name is `D` and its
/// number from 1.
pub open spec fn placed(doc: &SpreadDocData, b: (u32, u32, i64, i64, u32, u32, i64, i64), n: int) -> (
    i64,
    i64,
    i64,
    i64,
    Seq<char>,
) {
    let left = col_pos(doc, b.0 as int) + b.2;
    let top = row_pos(doc, b.1 as int) + b.3;
    let right = col_pos(doc, b.4 as int) + b.6;
    let bottom = row_pos(doc, b.5 as int) + b.7;
    (
        left as i64,
        top as i64,
        (right - left) as i64,
        (bottom - top) as i64,
        seq!['D'] + crate::text::spec_int(
            if n < usize::MAX {
                n + 1
            } else {
                n
            },
        ),
    )
}

fn set_of_raw(refs: &Vec<(u32, usize)>, p: &Palettes) -> (widths: Vec<(u32, i64)>)
    ensures
        keyed::sorted(widths@),
        keyed::as_map(widths@) == set_widths(refs@, formats_view(p.formats@)),
{
    let mut widths: Vec<(u32, i64)> = Vec::new();
    proof {
        keyed::lemma_empty(widths@);
        assert(keyed::as_map(widths@) =~= Map::<u32, i64>::empty());
        assert(refs@.take(0) =~= Seq::<(u32, usize)>::empty());
    }
    let mut j: usize = 0;
    while j < refs.len()
        invariant
            j <= refs@.len(),
            keyed::sorted(widths@),
            keyed::as_map(widths@) == set_widths(refs@.take(j as int), formats_view(p.formats@)),
        decreases refs@.len() - j,
    {
        proof {
            let t = refs@.take(j + 1);
            assert(t.drop_last() =~= refs@.take(j as int));
            assert(t.last() == refs@[j as int]);
        }
        if let Some(w) = value_of(&p.formats, refs[j].1, COL_WIDTH as u64) {
            keyed::put(&mut widths, refs[j].0, w);
        }
        j = j + 1;
    }
    proof {
        assert(refs@.take(refs@.len() as int) =~= refs@);
    }
    widths
}

/// Column sets, bindings, sizes, groups and drawings: the last step, as
/// drawing geometry needs the widths and heights from the format palette.
fn finish(doc: &mut SpreadDocData, cols: ColumnsRead, groups: Vec<RowGroup>, raw: &Vec<(u32, u32, i64, i64, u32, u32, i64, i64)>, p: &Palettes)
    requires
        old(doc).wf(),
    ensures
        final(doc).wf(),
        final(doc).rows == old(doc).rows,
        kept_by_finish(final(doc), old(doc)),
        column_sets_view(final(doc).column_sets@) == sets_of(raw_sets_view(cols.raw_sets@), formats_view(p.formats@)),
        final(doc).row_sets@ == cols.bindings@,
        final(doc).main_columns == cols.width,
        final(doc).height == (if cols.height > old(doc).height {
            cols.height
        } else {
            old(doc).height
        }),
        final(doc).width == (if cols.width > old(doc).width {
            cols.width
        } else {
            old(doc).width
        }),
        row_groups_view(final(doc).row_groups@) == row_groups_view(groups@),
        drawings_view(final(doc).drawings@) == drawings_view(old(doc).drawings@) + Seq::new(
            raw@.len(),
            |i: int| placed(old(doc), raw@[i], old(doc).drawings@.len() + i),
        ),
{
    let ghost d0 = *doc;
    let mut sets: Vec<ColumnSet> = Vec::new();
    let mut i: usize = 0;
    while i < cols.raw_sets.len()
        invariant
            i <= cols.raw_sets@.len(),
            column_sets_view(sets@) == sets_of(raw_sets_view(cols.raw_sets@).take(i as int), formats_view(p.formats@)),
        decreases cols.raw_sets@.len() - i,
    {
        let widths = set_of_raw(&cols.raw_sets[i].2, p);
        let ghost before = column_sets_view(sets@);
        let set = ColumnSet { id: cols.raw_sets[i].0.clone(), count: cols.raw_sets[i].1, widths };
        sets.push(set);
        proof {
            let t = raw_sets_view(cols.raw_sets@).take(i + 1);
            assert(t =~= raw_sets_view(cols.raw_sets@).take(i as int).push(raw_sets_view(cols.raw_sets@)[i as int]));
            assert(column_sets_view(sets@) =~= before.push(column_set_view(set)));
            assert(sets_of(t, formats_view(p.formats@)) =~= sets_of(
                raw_sets_view(cols.raw_sets@).take(i as int),
                formats_view(p.formats@),
            ).push(column_set_view(set)));
        }
        i = i + 1;
    }
    proof {
        assert(raw_sets_view(cols.raw_sets@).take(cols.raw_sets@.len() as int) =~= raw_sets_view(cols.raw_sets@));
    }
    doc.column_sets = sets;
    doc.row_sets = cols.bindings;
    doc.main_columns = cols.width;
    if cols.height > doc.height {
        doc.height = cols.height;
    }
    if cols.width > doc.width {
        doc.width = cols.width;
    }
    doc.row_groups = groups;
    let ghost d1 = *doc;
    let mut k: usize = 0;
    proof {
        assert(drawings_view(doc.drawings@) =~= drawings_view(d0.drawings@) + Seq::new(
            0,
            |i: int| placed(&d0, raw@[i], d0.drawings@.len() + i),
        ));
    }
    while k < raw.len()
        invariant
            kept_by_finish(doc, old(doc)),
            doc.rows == old(doc).rows,
            doc.wf(),
            d0 == *old(doc),
            k <= raw@.len(),
            doc.drawings@.len() == d0.drawings@.len() + k,
            doc.column_sets == d1.column_sets,
            doc.row_sets == d1.row_sets,
            doc.main_columns == d1.main_columns,
            doc.height == d1.height,
            doc.width == d1.width,
            doc.row_groups == d1.row_groups,
            drawings_view(doc.drawings@) == drawings_view(d0.drawings@) + Seq::new(
                k as nat,
                |i: int| placed(&d0, raw@[i], d0.drawings@.len() + i),
            ),
        decreases raw@.len() - k,
    {
        let (c1, r1, oc1, or1, c2, r2, oc2, or2) = raw[k];
        let left = col_start(doc, c1) + oc1 as i128;
        let top = row_start(doc, r1) + or1 as i128;
        let right = col_start(doc, c2) + oc2 as i128;
        let bottom = row_start(doc, r2) + or2 as i128;
        let n = doc.drawings.len();
        let name = drawing_name(if n < usize::MAX { n + 1 } else { n });
        let d = Drawing {
            left: #[verifier::truncate] (left as i64),
            top: #[verifier::truncate] (top as i64),
            width: #[verifier::truncate] ((right - left) as i64),
            height: #[verifier::truncate] ((bottom - top) as i64),
            name,
        };
        let ghost before = drawings_view(doc.drawings@);
        proof {
            lemma_pos_same(doc, &d0, r1 as int, c1 as int);
            lemma_pos_same(doc, &d0, r2 as int, c2 as int);
            assert(drawing_view(d) == placed(&d0, raw@[k as int], d0.drawings@.len() + k));
        }
        doc.drawings.push(d);
        proof {
            assert(drawings_view(doc.drawings@) =~= before.push(drawing_view(d)));
            assert(drawings_view(d0.drawings@) + Seq::new(
                (k + 1) as nat,
                |i: int| placed(&d0, raw@[i], d0.drawings@.len() + i),
            ) =~= (drawings_view(d0.drawings@) + Seq::new(
                k as nat,
                |i: int| placed(&d0, raw@[i], d0.drawings@.len() + i),
            )).push(placed(&d0, raw@[k as int], d0.drawings@.len() + k)));
        }
        k = k + 1;
    }
}

/// Row and column starts depend on the rows and the column widths alone.
proof fn lemma_pos_same(a: &SpreadDocData, b: &SpreadDocData, row: int, col: int)
    requires
        a.rows == b.rows,
        a.col_widths == b.col_widths,
    ensures
        row_pos(a, row) == row_pos(b, row),
        col_pos(a, col) == col_pos(b, col),
{
    lemma_row_pos_same(a, b, row);
    lemma_col_pos_same(a, b, col);
}

proof fn lemma_row_pos_same(a: &SpreadDocData, b: &SpreadDocData, row: int)
    requires
        a.rows == b.rows,
    ensures
        row_pos(a, row) == row_pos(b, row),
    decreases row,
{
    if row > 0 {
        lemma_row_pos_same(a, b, row - 1);
    }
}

proof fn lemma_col_pos_same(a: &SpreadDocData, b: &SpreadDocData, col: int)
    requires
        a.col_widths == b.col_widths,
    ensures
        col_pos(a, col) == col_pos(b, col),
    decreases col,
{
    if col > 0 {
        lemma_col_pos_same(a, b, col - 1);
    }
}

/// No cell record and no row of the rows section is at the last row or
/// column number, which the document cannot hold.
pub open spec fn cells_in_range(cells: Seq<(u32, u32, CellView)>, bare_rows: Seq<u32>) -> bool {
    &&& forall|i: int| 0 <= i < cells.len() ==> (#[trigger] cells[i]).0 != u32::MAX && cells[i].1 != u32::MAX
    &&& forall|i: int| 0 <= i < bare_rows.len() ==> #[trigger] bare_rows[i] != u32::MAX
}

/// No row that gets a height and no cell that gets a format is at the last
/// row or column number.
pub open spec fn formats_in_range(
    row_formats: Seq<(u32, usize)>,
    cell_formats: Seq<(u32, u32, usize)>,
    fs: Seq<Seq<(u64, i64)>>,
) -> bool {
    &&& forall|i: int|
        0 <= i < row_formats.len() && format_value(fs, (#[trigger] row_formats[i]).1 as int, ROW_HEIGHT as u64) is Some
            ==> row_formats[i].0 != u32::MAX
    &&& forall|i: int|
        0 <= i < cell_formats.len() ==> (#[trigger] cell_formats[i]).0 != u32::MAX && cell_formats[i].1 != u32::MAX
}

/// What the sections of a file hold, read in order.
pub struct ReadView {
    pub lines: Seq<Line>,
    pub rows: RowsView,
    pub columns: ColumnsView,
    pub drawings: Seq<(u32, u32, i64, i64, u32, u32, i64, i64)>,
    pub groups: Seq<(u32, u32, u32, Seq<char>, bool)>,
    pub merges: Seq<Merge>,
    pub row_merges: Seq<(u32, u32)>,
    pub col_merges: Seq<(u32, u32)>,
    pub names: Seq<(Seq<char>, NamedArea)>,
    pub page: PageView,
    pub palettes: PalettesView,
    pub settings: Option<(bool, i64, i64)>,
}

/// The page settings of a new document.
pub open spec fn fresh_page() -> PageView {
    (false, None, PageMargins { left: 1000, right: 1000, top: 1000, bottom: 1000 }, None)
}

/// The sections of the top-level items, in the order `mxl_body` writes
/// them: the head, rows, columns, drawings and row groups, merges, names,
/// page, palettes and view settings. A cell or a row at the last number
/// is refused once the sections before the merges are read; a row height
/// or a cell format at the last number, once the palettes are.
pub open spec fn read_view(items: Seq<Node>) -> Result<ReadView, ReadError> {
    match head_section(items, 0) {
        Err(e) => Err(e),
        Ok((lines, h)) => match rows_section(items, h) {
            Err(e) => Err(e),
            Ok((rows, e1)) => match columns_section(items, e1) {
                Err(e) => Err(e),
                Ok((columns, e2)) => match drawings_section(items, e2) {
                    Err(e) => Err(e),
                    Ok(((drawings, groups), e3)) => if !cells_in_range(rows.cells, rows.bare_rows) {
                        Err(ReadError::IndexOutOfRange)
                    } else {
                        match merges_section(items, e3) {
                            Err(e) => Err(e),
                            Ok(((merges, row_merges, col_merges), e4)) => match names_section(items, e4) {
                                Err(e) => Err(e),
                                Ok((names, e5)) => match page_section(items, e5, fresh_page()) {
                                    Err(e) => Err(e),
                                    Ok((page, e6)) => match palettes_section(items, e6) {
                                        Err(e) => Err(e),
                                        Ok(((palettes, settings), _)) => if !formats_in_range(
                                            rows.row_formats,
                                            rows.cell_formats,
                                            palettes.0,
                                        ) {
                                            Err(ReadError::IndexOutOfRange)
                                        } else {
                                            Ok(
                                                ReadView {
                                                    lines,
                                                    rows,
                                                    columns,
                                                    drawings,
                                                    groups,
                                                    merges,
                                                    row_merges,
                                                    col_merges,
                                                    names,
                                                    page,
                                                    palettes,
                                                    settings,
                                                },
                                            )
                                        },
                                    },
                                },
                            },
                        }
                    },
                },
            },
        },
    }
}

/// A document holds what the sections say: every cell is what the records
/// of the rows section put into a blank cell, in order, and then the
/// formats its references name; row heights and column widths are what
/// the format references of rows and columns give; the merge lists are
/// those of the file; the names are given in order; page and view
/// settings are those of the file, or a new document's; column sets,
/// bindings, row groups are those of the file, and the drawings are
/// placed on the grid in the order of the file.
pub open spec fn holds(v: ReadView, doc: SpreadDocData) -> bool {
    &&& forall|rr: u32, cc: u32| #[trigger]
        doc.cell_or_blank(rr, cc) == looks_after(
            applied(CellView::blank(), v.rows.cells, rr, cc),
            v.rows.cell_formats,
            v.palettes,
            v.lines,
            rr,
            cc,
        )
    &&& forall|rr: u32| #[trigger]
        doc.row_or_empty(rr).height == heights_after(None, v.rows.row_formats, v.palettes.0, rr)
    &&& keyed::as_map(doc.col_widths@) == widths_after(Map::empty(), v.columns.column_formats, v.palettes.0)
    &&& column_sets_view(doc.column_sets@) == sets_of(v.columns.raw_sets, v.palettes.0)
    &&& doc.row_sets@ == v.columns.bindings
    &&& doc.main_columns == v.columns.width
    &&& row_groups_view(doc.row_groups@) == v.groups
    &&& drawings_view(doc.drawings@) == Seq::new(v.drawings.len(), |i: int| placed(&doc, v.drawings[i], i))
    &&& forall|rr: u32, cc: u32| #[trigger]
        doc.cell_at(rr, cc) is Some <==> (cell_listed(v.rows.cells, rr, cc) || look_listed(
            v.rows.cell_formats,
            v.palettes,
            v.lines,
            rr,
            cc,
        ))
    &&& forall|rr: u32| #[trigger]
        doc.rows_view().contains_key(rr) <==> (row_listed(v.rows.cells, rr) || bare_listed(v.rows.bare_rows, rr)
            || height_listed(v.rows.row_formats, v.palettes.0, rr) || look_row_listed(
            v.rows.cell_formats,
            v.palettes,
            v.lines,
            rr,
        ))
    &&& doc.height == crate::model::max_int(v.columns.height as int, read_extent(v).0)
    &&& doc.width == crate::model::max_int(v.columns.width as int, read_extent(v).1)
    &&& doc.open_groups@.len() == 0
    &&& doc.params@.len() == 0
    &&& doc.merges@ == v.merges
    &&& doc.row_merges@ == v.row_merges
    &&& doc.col_merges@ == v.col_merges
    &&& doc.names_view() == names_after(Map::empty(), v.names)
    &&& page_of(&doc) == v.page
    &&& match v.settings {
        Some((g, l, t)) => doc.show_grid == g && doc.fix_left == l && doc.fix_top == t,
        None => doc.show_grid && doc.fix_left == 0 && doc.fix_top == 0,
    }
}

/// The occupied size the records and formats of the rows section give.
pub open spec fn read_extent(v: ReadView) -> (int, int) {
    extent_looks(
        extent_heights(extent_rows(extent_cells((0, 0), v.rows.cells), v.rows.bare_rows), v.rows.row_formats, v.palettes.0),
        v.rows.cell_formats,
        v.palettes,
        v.lines,
    )
}

/// What reading the text `x` gives: the text parses into a root group
/// whose items hold the sections; reading fails with the first error, or
/// gives a document that holds what the sections say.
pub open spec fn read_outcome(x: Seq<char>, r: Result<SpreadDocData, ReadError>) -> bool {
    match group_from(x, 1, Seq::empty(), Seq::empty()) {
        Err(e) => r == Err::<SpreadDocData, ReadError>(e),
        Ok((g, _)) => exists|items: Seq<Node>|
            #[trigger] trees(items) == g && match read_view(items) {
                Ok(v) => r matches Ok(d) && holds(v, d),
                Err(e) => r == Err::<SpreadDocData, ReadError>(e),
            },
    }
}

/// The document the top-level items hold.
#[verifier::spinoff_prover]
#[verifier::rlimit(60)]
fn read_items(items: &Vec<Node>) -> (r: Result<SpreadDocData, ReadError>)
    ensures
        match read_view(items@) {
            Ok(v) => r matches Ok(d) && holds(v, d) && d.wf(),
            Err(e) => r == Err::<SpreadDocData, ReadError>(e),
        },
{
    let mut cur = Cursor { items, pos: 0 };
    let mut doc = SpreadDocData::new();
    let ghost d0 = doc;
    let ghost its = items@;
    let lines = read_head(&mut cur)?;
    let rows = read_rows(&mut cur)?;
    let ghost cells = cells3(rows.cells@);
    let cols = read_columns(&mut cur)?;
    let (drawings, groups) = read_drawings_groups(&mut cur)?;
    apply_cells(&mut doc, &rows.cells, &rows.bare_rows)?;
    let ghost d1 = doc;
    read_merges(&mut cur, &mut doc)?;
    let ghost dm = doc;
    read_names(&mut cur, &mut doc)?;
    let ghost dn = doc;
    read_page(&mut cur, &mut doc)?;
    let pals = read_palettes(&mut cur, &mut doc)?;
    let ghost d2 = doc;
    apply_formats(&mut doc, &rows, &cols, &pals, &lines)?;
    let ghost d3 = doc;
    finish(&mut doc, cols, groups, &drawings, &pals);
    proof {
        assert(d0.names_view() =~= Map::<Seq<char>, NamedArea>::empty());
        assert(d0.merges@ + Seq::<Merge>::empty() =~= Seq::<Merge>::empty());
        assert(keyed::as_map(d0.col_widths@) =~= Map::<u32, i64>::empty());
        assert(d2.col_widths == d0.col_widths);
        assert(d2.rows == d1.rows);
        assert(d3.drawings@.len() == 0);
        let v = read_view(its)->Ok_0;
        assert(v.rows.cells == cells);
        assert(v.palettes == palettes_view(pals));
        assert(v.lines == lines@);
        assert(dm.merges@ =~= v.merges);
        assert(dm.row_merges@ =~= v.row_merges);
        assert(dm.col_merges@ =~= v.col_merges);
        assert(page_of(&dn) == fresh_page());
        assert forall|rr: u32, cc: u32| #[trigger]
            doc.cell_or_blank(rr, cc) == looks_after(
                applied(CellView::blank(), v.rows.cells, rr, cc),
                v.rows.cell_formats,
                v.palettes,
                v.lines,
                rr,
                cc,
            ) by {
            assert(d0.cell_or_blank(rr, cc) == CellView::blank());
            assert(d1.cell_or_blank(rr, cc) == applied(d0.cell_or_blank(rr, cc), cells, rr, cc));
            assert(d2.cell_or_blank(rr, cc) == d1.cell_or_blank(rr, cc));
            assert(doc.cell_or_blank(rr, cc) == d3.cell_or_blank(rr, cc));
        }
        assert forall|rr: u32| #[trigger]
            doc.row_or_empty(rr).height == heights_after(None, v.rows.row_formats, v.palettes.0, rr) by {
            assert(d0.row_or_empty(rr).height == None::<i64>);
            assert(d1.row_or_empty(rr).height == d0.row_or_empty(rr).height);
            assert(d2.row_or_empty(rr) == d1.row_or_empty(rr));
            assert(doc.row_or_empty(rr) == d3.row_or_empty(rr));
        }
        assert forall|i: int| 0 <= i < v.drawings.len() implies placed(&d3, v.drawings[i], i) == placed(
            &doc,
            v.drawings[i],
            i,
        ) by {
            let b = v.drawings[i];
            lemma_pos_same(&d3, &doc, b.1 as int, b.0 as int);
            lemma_pos_same(&d3, &doc, b.5 as int, b.4 as int);
        }
        assert(drawings_view(doc.drawings@) =~= Seq::new(
            v.drawings.len(),
            |i: int| placed(&doc, v.drawings[i], i),
        ));
        assert forall|rr: u32, cc: u32| #[trigger]
            doc.cell_at(rr, cc) is Some <==> (cell_listed(v.rows.cells, rr, cc) || look_listed(
                v.rows.cell_formats,
                v.palettes,
                v.lines,
                rr,
                cc,
            )) by {
            assert(d0.cell_at(rr, cc) is None);
            assert(d2.cell_at(rr, cc) == d1.cell_at(rr, cc));
            assert(doc.cell_at(rr, cc) == d3.cell_at(rr, cc));
        }
        assert forall|rr: u32| #[trigger]
            doc.rows_view().contains_key(rr) <==> (row_listed(v.rows.cells, rr) || bare_listed(v.rows.bare_rows, rr)
                || height_listed(v.rows.row_formats, v.palettes.0, rr) || look_row_listed(
                v.rows.cell_formats,
                v.palettes,
                v.lines,
                rr,
            )) by {
            assert(!d0.rows_view().contains_key(rr));
            assert(d2.rows_view() == d1.rows_view());
            assert(doc.rows_view() == d3.rows_view());
        }
        assert(d2.height == d1.height && d2.width == d1.width);
        assert(holds(v, doc));
    }
    Ok(doc)
}

/// Read a document from the bytes of an `.mxl` file.
///
/// The signature is checked, not the whole header: its last byte is the
/// format version, and it varies (11 in files of older platforms, 12 in
/// ours); the body is laid out the same way.
pub fn from_mxl_bytes(bytes: &Vec<u8>) -> (r: Result<SpreadDocData, ReadError>)
    ensures
        !has_signature(bytes@) ==> r == Err::<SpreadDocData, ReadError>(ReadError::NoSignature),
        has_signature(bytes@) && bytes@.len() < 13 ==> r == Err::<SpreadDocData, ReadError>(
            ReadError::TruncatedHeader,
        ),
        has_signature(bytes@) && bytes@.len() >= 13 && (forall|t: Seq<char>| utf8(t) != body_of(bytes@)) ==> r
            == Err::<SpreadDocData, ReadError>(ReadError::NotUtf8),
        forall|t: Seq<char>|
            has_signature(bytes@) && bytes@.len() >= 13 && #[trigger] utf8(t) == body_of(bytes@) ==> {
                let x = lf(t);
                &&& (x.len() == 0 || x[0] != '{') ==> r == Err::<SpreadDocData, ReadError>(ReadError::NoRootGroup)
                &&& (x.len() > 0 && x[0] == '{') ==> read_outcome(x, r)
            },
        r is Ok ==> r->Ok_0.wf(),
{
    let text = body_chars(bytes)?;
    let root = parse_nodes(&text)?;
    let items = root.group()?;
    let ghost g = trees(items@);
    proof {
        assert(crate::lexer::tree(root) == NodeView::Group(g));
    }
    let r = read_items(items);
    proof {
        assert forall|t: Seq<char>|
            has_signature(bytes@) && bytes@.len() >= 13 && #[trigger] utf8(t) == body_of(bytes@) && lf(t).len() > 0
                && lf(t)[0] == '{' implies read_outcome(lf(t), r) by {
            assert(text@ == lf(t));
            assert(trees(items@) == g);
        }
    }
    r
}

} // verus!
