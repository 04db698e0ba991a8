//! Text pieces of the XLSX export: escaping, cell references, colors,
//! numbers and the fixed parts of the package.

use vstd::prelude::*;
use crate::format::{concat, lemma_concat_step, lemma_take_all};
use crate::model::Color;
use crate::text::{push_char, push_int, push_str, spec_int, to_chars};

verus! {

// --- escaping ---------------------------------------------------------------------

/// The XML form of a character: `&`, `<` and `>` as entities, a tab as
/// four spaces (the platform does the same).
pub open spec fn escape_char(c: char) -> Seq<char> {
    if c == '&' {
        "&amp;"@
    } else if c == '<' {
        "&lt;"@
    } else if c == '>' {
        "&gt;"@
    } else if c == '\t' {
        "    "@
    } else {
        seq![c]
    }
}

pub open spec fn escaped(s: Seq<char>) -> Seq<char>
    decreases s.len(),
{
    if s.len() == 0 {
        Seq::empty()
    } else {
        escaped(s.drop_last()) + escape_char(s.last())
    }
}

pub fn push_escaped(out: &mut String, s: &str)
    ensures
        final(out)@ == old(out)@ + escaped(s@),
{
    let cs = to_chars(s);
    let ghost start = out@;
    let mut i: usize = 0;
    while i < cs.len()
        invariant
            i <= cs@.len(),
            out@ == start + escaped(cs@.take(i as int)),
        decreases cs@.len() - i,
    {
        let c = cs[i];
        if c == '&' {
            push_str(out, "&amp;");
        } else if c == '<' {
            push_str(out, "&lt;");
        } else if c == '>' {
            push_str(out, "&gt;");
        } else if c == '\t' {
            push_str(out, "    ");
        } else {
            push_char(out, c);
        }
        proof {
            assert(cs@.take(i + 1).drop_last() =~= cs@.take(i as int));
            assert(out@ =~= start + escaped(cs@.take(i + 1)));
        }
        i = i + 1;
    }
    proof {
        lemma_take_all(cs@);
    }
}

/// `escape`: the text made safe for XML.
pub fn escape(s: &str) -> (r: String)
    ensures
        r@ == escaped(s@),
{
    let mut out = String::new();
    push_escaped(&mut out, s);
    proof {
        assert(out@ =~= escaped(s@));
    }
    out
}

// --- cell references ------------------------------------------------------------------

pub open spec fn letter(d: nat) -> char {
    ((d + 65) as u8) as char
}

/// A column in A1 notation: 0 is `A`, 25 is `Z`, 26 is `AA`.
pub open spec fn column_letters(c: nat) -> Seq<char>
    decreases c,
{
    if c < 26 {
        seq![letter(c)]
    } else {
        column_letters((c / 26 - 1) as nat).push(letter(c % 26))
    }
}

pub fn push_column_name(out: &mut String, col: u32)
    ensures
        final(out)@ == old(out)@ + column_letters(col as nat),
    decreases col,
{
    if col >= 26 {
        push_column_name(out, col / 26 - 1);
    }
    let d: u8 = (col % 26) as u8;
    push_char(out, (d + 65) as char);
    proof {
        if col < 26 {
            assert(column_letters(col as nat) =~= seq![letter(col as nat)]);
        }
    }
}

pub fn column_name(col: u32) -> (s: String)
    ensures
        s@ == column_letters(col as nat),
{
    let mut out = String::new();
    push_column_name(&mut out, col);
    proof {
        assert(out@ =~= column_letters(col as nat));
    }
    out
}

/// `C5`: column letters, then the row counted from 1.
pub open spec fn cell_ref_text(row: u32, col: u32) -> Seq<char> {
    column_letters(col as nat) + spec_int(row + 1)
}

pub fn push_cell_ref(out: &mut String, row: u32, col: u32)
    ensures
        final(out)@ == old(out)@ + cell_ref_text(row, col),
{
    push_column_name(out, col);
    push_int(out, row as i128 + 1);
    proof {
        assert(final(out)@ =~= old(out)@ + cell_ref_text(row, col));
    }
}

pub fn cell_ref(row: u32, col: u32) -> (s: String)
    ensures
        s@ == cell_ref_text(row, col),
{
    let mut out = String::new();
    push_cell_ref(&mut out, row, col);
    proof {
        assert(out@ =~= cell_ref_text(row, col));
    }
    out
}

// --- colors -------------------------------------------------------------------------

pub open spec fn hex_digit(d: nat) -> char {
    if d < 10 {
        ((d + 48) as u8) as char
    } else {
        ((d + 55) as u8) as char
    }
}

pub open spec fn hex2(x: u8) -> Seq<char> {
    seq![hex_digit((x / 16) as nat), hex_digit((x % 16) as nat)]
}

/// `RRGGBB` in upper case: the direct order, unlike MXL.
pub open spec fn rgb_text(c: Color) -> Seq<char> {
    hex2(c.r) + hex2(c.g) + hex2(c.b)
}

fn push_hex2(out: &mut String, x: u8)
    ensures
        final(out)@ == old(out)@ + hex2(x),
{
    let hi = x / 16;
    let lo = x % 16;
    push_char(out, if hi < 10 { (hi + 48) as char } else { (hi + 55) as char });
    push_char(out, if lo < 10 { (lo + 48) as char } else { (lo + 55) as char });
    proof {
        assert(final(out)@ =~= old(out)@ + hex2(x));
    }
}

pub fn push_rgb(out: &mut String, c: Color)
    ensures
        final(out)@ == old(out)@ + rgb_text(c),
{
    push_hex2(out, c.r);
    push_hex2(out, c.g);
    push_hex2(out, c.b);
    proof {
        assert(final(out)@ =~= old(out)@ + rgb_text(c));
    }
}

pub fn rgb(c: Color) -> (s: String)
    ensures
        s@ == rgb_text(c),
{
    let mut out = String::new();
    push_rgb(&mut out, c);
    proof {
        assert(out@ =~= rgb_text(c));
    }
    out
}

// --- numbers ------------------------------------------------------------------------

pub open spec fn ascii_digit(c: char) -> bool {
    '0' <= c && c <= '9'
}

/// Empty, or with a character that is not an ASCII digit.
pub open spec fn bad_digits(s: Seq<char>) -> bool {
    s.len() == 0 || exists|i: int| 0 <= i < s.len() && !ascii_digit(#[trigger] s[i])
}

pub fn celaya_bad(s: &Vec<char>) -> (b: bool)
    ensures
        b == bad_digits(s@),
{
    if s.len() == 0 {
        return true;
    }
    let mut i: usize = 0;
    while i < s.len()
        invariant
            i <= s@.len(),
            forall|j: int| 0 <= j < i ==> ascii_digit(#[trigger] s@[j]),
        decreases s@.len() - i,
    {
        if !('0' <= s[i] && s[i] <= '9') {
            return true;
        }
        i = i + 1;
    }
    false
}

/// The text without group separators: spaces and no-break spaces.
pub open spec fn ungrouped(s: Seq<char>) -> Seq<char>
    decreases s.len(),
{
    if s.len() == 0 {
        Seq::empty()
    } else if s.last() == ' ' || s.last() == '\u{a0}' {
        ungrouped(s.drop_last())
    } else {
        ungrouped(s.drop_last()).push(s.last())
    }
}

/// Where the first comma is.
pub open spec fn comma_at(s: Seq<char>) -> int
    decreases s.len(),
{
    if s.len() == 0 {
        0
    } else if s[0] == ',' {
        0
    } else {
        1 + comma_at(s.drop_first())
    }
}

/// Trailing zeros cut off.
pub open spec fn trim_zeros(s: Seq<char>) -> Seq<char>
    decreases s.len(),
{
    if s.len() > 0 && s.last() == '0' {
        trim_zeros(s.drop_last())
    } else {
        s
    }
}

/// A number as 1C writes it — groups split by spaces, a comma before the
/// fraction — in the form a workbook takes: no groups, a point, no
/// trailing zeros in the fraction. A point is not accepted, else a date
/// would pass.
pub open spec fn number_text(t: Seq<char>) -> Option<Seq<char>> {
    let u = ungrouped(t);
    let neg = u.len() > 0 && u[0] == '-';
    let body = if neg {
        u.drop_first()
    } else {
        u
    };
    let k = comma_at(body);
    let int_part = body.take(k);
    let has_frac = k < body.len();
    let frac = body.skip(k + 1);
    if body.len() == 0 || bad_digits(int_part) || (has_frac && bad_digits(frac)) {
        None
    } else {
        let sign = if neg {
            seq!['-']
        } else {
            Seq::empty()
        };
        let f = trim_zeros(frac);
        if has_frac && f.len() > 0 {
            Some(sign + int_part + seq!['.'] + f)
        } else {
            Some(sign + int_part)
        }
    }
}

proof fn lemma_comma_at(s: Seq<char>)
    ensures
        0 <= comma_at(s) <= s.len(),
        comma_at(s) < s.len() ==> s[comma_at(s)] == ',',
        forall|j: int| 0 <= j < comma_at(s) ==> s[j] != ',',
    decreases s.len(),
{
    if s.len() > 0 && s[0] != ',' {
        lemma_comma_at(s.drop_first());
        assert forall|j: int| 0 <= j < comma_at(s) implies s[j] != ',' by {
            if j > 0 {
                assert(s[j] == s.drop_first()[j - 1]);
            }
        }
    }
}

fn sub_chars(s: &Vec<char>, a: usize, b: usize) -> (r: Vec<char>)
    requires
        a <= b <= s@.len(),
    ensures
        r@ == s@.subrange(a as int, b as int),
{
    let mut out: Vec<char> = Vec::new();
    let mut i = a;
    while i < b
        invariant
            a <= i <= b <= s@.len(),
            out@ == s@.subrange(a as int, i as int),
        decreases b - i,
    {
        out.push(s[i]);
        proof {
            assert(out@ =~= s@.subrange(a as int, i + 1));
        }
        i = i + 1;
    }
    out
}

/// `as_number`: the text as a workbook number, if it is one.
pub fn as_number(text: &str) -> (r: Option<String>)
    ensures
        match r {
            Some(s) => number_text(text@) == Some(s@),
            None => number_text(text@) is None,
        },
{
    let cs = to_chars(text);
    let mut u: Vec<char> = Vec::new();
    let mut i: usize = 0;
    while i < cs.len()
        invariant
            i <= cs@.len(),
            u@ == ungrouped(cs@.take(i as int)),
        decreases cs@.len() - i,
    {
        let c = cs[i];
        proof {
            assert(cs@.take(i + 1).drop_last() =~= cs@.take(i as int));
        }
        if c != ' ' && c != '\u{a0}' {
            u.push(c);
        }
        i = i + 1;
    }
    proof {
        lemma_take_all(cs@);
    }
    let neg = u.len() > 0 && u[0] == '-';
    let start: usize = if neg { 1 } else { 0 };
    let body = sub_chars(&u, start, u.len());
    proof {
        if neg {
            assert(body@ =~= u@.drop_first());
        } else {
            assert(body@ =~= u@);
        }
    }
    if body.len() == 0 {
        return None;
    }
    let mut k: usize = 0;
    while k < body.len() && body[k] != ','
        invariant
            k <= body@.len(),
            forall|j: int| 0 <= j < k ==> body@[j] != ',',
        decreases body@.len() - k,
    {
        k = k + 1;
    }
    proof {
        lemma_comma_at(body@);
        let c = comma_at(body@);
        if c < k {
            assert(body@[c] != ',');
        }
        if k < c {
            assert(body@[k as int] != ',');
        }
    }
    let int_part = sub_chars(&body, 0, k);
    proof {
        assert(int_part@ =~= body@.take(k as int));
    }
    if celaya_bad(&int_part) {
        return None;
    }
    let has_frac = k < body.len();
    let frac = if has_frac {
        sub_chars(&body, k + 1, body.len())
    } else {
        Vec::new()
    };
    proof {
        if has_frac {
            assert(frac@ =~= body@.skip(k + 1));
        }
    }
    if has_frac && celaya_bad(&frac) {
        return None;
    }
    let mut e = frac.len();
    proof {
        lemma_take_all(frac@);
    }
    while e > 0 && frac[e - 1] == '0'
        invariant
            e <= frac@.len(),
            trim_zeros(frac@) == trim_zeros(frac@.take(e as int)),
        decreases e,
    {
        proof {
            assert(frac@.take(e as int).drop_last() =~= frac@.take(e - 1));
        }
        e = e - 1;
    }
    proof {
        assert(trim_zeros(frac@.take(e as int)) == frac@.take(e as int));
    }
    let mut out = String::new();
    if neg {
        push_char(&mut out, '-');
    }
    let mut j: usize = 0;
    while j < int_part.len()
        invariant
            j <= int_part@.len(),
            out@ == (if neg { seq!['-'] } else { Seq::<char>::empty() }) + int_part@.take(j as int),
        decreases int_part@.len() - j,
    {
        push_char(&mut out, int_part[j]);
        proof {
            assert(int_part@.take(j + 1) =~= int_part@.take(j as int).push(int_part@[j as int]));
        }
        j = j + 1;
    }
    proof {
        lemma_take_all(int_part@);
    }
    if has_frac && e > 0 {
        push_char(&mut out, '.');
        let ghost mid = out@;
        let mut j: usize = 0;
        while j < e
            invariant
                j <= e <= frac@.len(),
                out@ == mid + frac@.take(j as int),
            decreases e - j,
        {
            push_char(&mut out, frac[j]);
            proof {
                assert(frac@.take(j + 1) =~= frac@.take(j as int).push(frac@[j as int]));
            }
            j = j + 1;
        }
        proof {
            assert(frac@.take(e as int) =~= trim_zeros(frac@));
            assert(out@ =~= (if neg { seq!['-'] } else { Seq::<char>::empty() }) + int_part@ + seq!['.'] + trim_zeros(frac@));
        }
    } else {
        proof {
            assert(out@ =~= (if neg { seq!['-'] } else { Seq::<char>::empty() }) + int_part@);
        }
    }
    Some(out)
}

// --- fixed parts ----------------------------------------------------------------------

pub open spec fn xml_header() -> Seq<char> {
    "<?xml version=\"1.0\" encoding=\"UTF-8\" standalone=\"yes\"?>\n"@
}

pub fn push_xml_header(out: &mut String)
    ensures
        final(out)@ == old(out)@ + xml_header(),
{
    push_str(out, "<?xml version=\"1.0\" encoding=\"UTF-8\" standalone=\"yes\"?>\n");
}

pub open spec fn content_types_text() -> Seq<char> {
    xml_header() + "<Types xmlns=\"http://schemas.openxmlformats.org/package/2006/content-types\"><Default Extension=\"rels\" ContentType=\"application/vnd.openxmlformats-package.relationships+xml\"/><Default Extension=\"xml\" ContentType=\"application/xml\"/><Override PartName=\"/xl/workbook.xml\" ContentType=\"application/vnd.openxmlformats-officedocument.spreadsheetml.sheet.main+xml\"/><Override PartName=\"/xl/worksheets/sheet1.xml\" ContentType=\"application/vnd.openxmlformats-officedocument.spreadsheetml.worksheet+xml\"/><Override PartName=\"/xl/sharedStrings.xml\" ContentType=\"application/vnd.openxmlformats-officedocument.spreadsheetml.sharedStrings+xml\"/><Override PartName=\"/xl/styles.xml\" ContentType=\"application/vnd.openxmlformats-officedocument.spreadsheetml.styles+xml\"/></Types>"@
}

pub fn content_types() -> (s: String)
    ensures
        s@ == content_types_text(),
{
    let mut out = String::new();
    push_xml_header(&mut out);
    push_str(&mut out, "<Types xmlns=\"http://schemas.openxmlformats.org/package/2006/content-types\"><Default Extension=\"rels\" ContentType=\"application/vnd.openxmlformats-package.relationships+xml\"/><Default Extension=\"xml\" ContentType=\"application/xml\"/><Override PartName=\"/xl/workbook.xml\" ContentType=\"application/vnd.openxmlformats-officedocument.spreadsheetml.sheet.main+xml\"/><Override PartName=\"/xl/worksheets/sheet1.xml\" ContentType=\"application/vnd.openxmlformats-officedocument.spreadsheetml.worksheet+xml\"/><Override PartName=\"/xl/sharedStrings.xml\" ContentType=\"application/vnd.openxmlformats-officedocument.spreadsheetml.sharedStrings+xml\"/><Override PartName=\"/xl/styles.xml\" ContentType=\"application/vnd.openxmlformats-officedocument.spreadsheetml.styles+xml\"/></Types>");
    proof {
        assert(out@ =~= content_types_text());
    }
    out
}

pub open spec fn root_rels_text() -> Seq<char> {
    xml_header() + "<Relationships xmlns=\"http://schemas.openxmlformats.org/package/2006/relationships\"><Relationship Id=\"rId1\" Type=\"http://schemas.openxmlformats.org/officeDocument/2006/relationships/officeDocument\" Target=\"xl/workbook.xml\"/></Relationships>"@
}

pub fn root_rels() -> (s: String)
    ensures
        s@ == root_rels_text(),
{
    let mut out = String::new();
    push_xml_header(&mut out);
    push_str(&mut out, "<Relationships xmlns=\"http://schemas.openxmlformats.org/package/2006/relationships\"><Relationship Id=\"rId1\" Type=\"http://schemas.openxmlformats.org/officeDocument/2006/relationships/officeDocument\" Target=\"xl/workbook.xml\"/></Relationships>");
    proof {
        assert(out@ =~= root_rels_text());
    }
    out
}

pub open spec fn workbook_text() -> Seq<char> {
    xml_header() + "<workbook xmlns=\"http://schemas.openxmlformats.org/spreadsheetml/2006/main\" xmlns:r=\"http://schemas.openxmlformats.org/officeDocument/2006/relationships\"><sheets><sheet name=\"Лист1\" sheetId=\"1\" r:id=\"rId1\"/></sheets></workbook>"@
}

pub fn workbook() -> (s: String)
    ensures
        s@ == workbook_text(),
{
    let mut out = String::new();
    push_xml_header(&mut out);
    push_str(&mut out, "<workbook xmlns=\"http://schemas.openxmlformats.org/spreadsheetml/2006/main\" xmlns:r=\"http://schemas.openxmlformats.org/officeDocument/2006/relationships\"><sheets><sheet name=\"Лист1\" sheetId=\"1\" r:id=\"rId1\"/></sheets></workbook>");
    proof {
        assert(out@ =~= workbook_text());
    }
    out
}

pub open spec fn workbook_rels_text() -> Seq<char> {
    xml_header() + "<Relationships xmlns=\"http://schemas.openxmlformats.org/package/2006/relationships\"><Relationship Id=\"rId1\" Type=\"http://schemas.openxmlformats.org/officeDocument/2006/relationships/worksheet\" Target=\"worksheets/sheet1.xml\"/><Relationship Id=\"rId2\" Type=\"http://schemas.openxmlformats.org/officeDocument/2006/relationships/sharedStrings\" Target=\"sharedStrings.xml\"/><Relationship Id=\"rId3\" Type=\"http://schemas.openxmlformats.org/officeDocument/2006/relationships/styles\" Target=\"styles.xml\"/></Relationships>"@
}

pub fn workbook_rels() -> (s: String)
    ensures
        s@ == workbook_rels_text(),
{
    let mut out = String::new();
    push_xml_header(&mut out);
    push_str(&mut out, "<Relationships xmlns=\"http://schemas.openxmlformats.org/package/2006/relationships\"><Relationship Id=\"rId1\" Type=\"http://schemas.openxmlformats.org/officeDocument/2006/relationships/worksheet\" Target=\"worksheets/sheet1.xml\"/><Relationship Id=\"rId2\" Type=\"http://schemas.openxmlformats.org/officeDocument/2006/relationships/sharedStrings\" Target=\"sharedStrings.xml\"/><Relationship Id=\"rId3\" Type=\"http://schemas.openxmlformats.org/officeDocument/2006/relationships/styles\" Target=\"styles.xml\"/></Relationships>");
    proof {
        assert(out@ =~= workbook_rels_text());
    }
    out
}

// --- shared strings ---------------------------------------------------------------------

/// The table of shared strings, in the order they were first used; a
/// string is there once.
#[derive(Debug)]
pub struct SharedStrings {
    pub strings: Vec<String>,
}

impl View for SharedStrings {
    type V = Seq<Seq<char>>;

    open spec fn view(&self) -> Seq<Seq<char>> {
        self.strings@.map_values(|s: String| s@)
    }
}

impl SharedStrings {
    pub fn new() -> (t: SharedStrings)
        ensures
            t@ == Seq::<Seq<char>>::empty(),
    {
        let t = SharedStrings { strings: Vec::new() };
        proof {
            assert(t@ =~= Seq::<Seq<char>>::empty());
        }
        t
    }

    /// The index of a string, added when it is new.
    pub fn intern(&mut self, text: String) -> (i: usize)
        ensures
            (final(self)@, i as int) == crate::format::intern_at(old(self)@, text@),
    {
        let ghost s = self@;
        let key = to_chars(text.as_str());
        let mut i: usize = 0;
        while i < self.strings.len()
            invariant
                s == self@,
                s == old(self)@,
                key@ == text@,
                i <= s.len(),
                forall|j: int| 0 <= j < i ==> s[j] != text@,
            decreases s.len() - i,
        {
            let other = to_chars(self.strings[i].as_str());
            if crate::text::chars_eq(&other, &key) {
                proof {
                    crate::format::lemma_first_index(s, text@, i as int);
                }
                return i;
            }
            i = i + 1;
        }
        proof {
            assert(!s.contains(text@)) by {
                if s.contains(text@) {
                    let k = choose|k: int| 0 <= k < s.len() && s[k] == text@;
                    assert(s[k] != text@);
                }
            }
        }
        let n = self.strings.len();
        self.strings.push(text);
        proof {
            assert(self@ =~= s.push(text@));
        }
        n
    }
}

pub open spec fn si_text(s: Seq<char>) -> Seq<char> {
    "<si><t xml:space=\"preserve\">"@ + escaped(s) + "</t></si>"@
}

/// `sharedStrings.xml`. `xml:space="preserve"` keeps leading and trailing
/// spaces of a cell.
pub open spec fn shared_strings_text(ss: Seq<Seq<char>>) -> Seq<char> {
    xml_header() + "<sst xmlns=\"http://schemas.openxmlformats.org/spreadsheetml/2006/main\" count=\""@ + spec_int(
        ss.len() as int,
    ) + "\" uniqueCount=\""@ + spec_int(ss.len() as int) + "\">"@ + concat(Seq::new(ss.len(), |i: int| si_text(ss[i])))
        + "</sst>"@
}

pub fn shared_strings(strings: &Vec<String>) -> (s: String)
    ensures
        s@ == shared_strings_text(strings@.map_values(|x: String| x@)),
{
    let ghost ss = strings@.map_values(|x: String| x@);
    let ghost parts = Seq::new(ss.len(), |i: int| si_text(ss[i]));
    let mut out = String::new();
    push_xml_header(&mut out);
    push_str(&mut out, "<sst xmlns=\"http://schemas.openxmlformats.org/spreadsheetml/2006/main\" count=\"");
    push_int(&mut out, strings.len() as i128);
    push_str(&mut out, "\" uniqueCount=\"");
    push_int(&mut out, strings.len() as i128);
    push_str(&mut out, "\">");
    let ghost start = out@;
    let mut i: usize = 0;
    while i < strings.len()
        invariant
            ss == strings@.map_values(|x: String| x@),
            parts == Seq::new(ss.len(), |i: int| si_text(ss[i])),
            i <= ss.len(),
            out@ == start + concat(parts.take(i as int)),
        decreases ss.len() - i,
    {
        let ghost before = out@;
        push_str(&mut out, "<si><t xml:space=\"preserve\">");
        push_escaped(&mut out, strings[i].as_str());
        push_str(&mut out, "</t></si>");
        proof {
            assert(out@ =~= before + parts[i as int]);
            lemma_concat_step(parts, i as int);
        }
        i = i + 1;
    }
    push_str(&mut out, "</sst>");
    proof {
        lemma_take_all(parts);
        assert(out@ =~= shared_strings_text(ss));
    }
    out
}

} // verus!
