//! What holds across the operations of the library.

use vstd::prelude::*;
use crate::bridge::appended;
use crate::bytes::{crlf, lemma_utf8_injective, utf8};
use crate::format::{intern_at, lemma_first_index};
use crate::lexer::{all_digits, digits_value, group_from, i64_of, is_digit, tree, unquoted_from, Node, NodeView, ReadError};
use crate::model::{CellView, FontView, add_merges, lemma_add_merges, shift_merge, window_merges, window_rows, Merge, NamedArea, PageMargins, RowGroup, SpreadDocData, Value};
use crate::mxl_read::{groups_from, item_number, merges_section, names_after, names_section, page_section, PageView};
use crate::names::{names_map, names_sorted};
use crate::readback::{
    at, atoms, blank, entries, font_nodes, lemma_font_of, lemma_font_text, group_tuples, groups_items, lemma_groups_from, lemma_groups_items_len, lemma_groups_text, lemma_trees_index, lemma_merges_section, lemma_merges_text, list_nodes, merges_tokens, pairs_tokens,
    lemma_names_read, lemma_names_section, lemma_names_text, lemma_page_pairs_applied,
    lemma_close, lemma_page_section, lemma_page_text, lemma_print_area_text, lemma_quoted, lemma_split, lemma_unquote_doubled, names_nodes,
    normal_area, page_nodes, print_area_read, print_area_tokens,
};
use crate::layout::groups_text;
use crate::lexer::trees;
use crate::keyed::as_map;
use crate::tail::{merges_text, names_text, page_pairs, page_text, print_area_text};
use crate::sorting::{lemma_sort_merges, lemma_sort_pairs, merge_le, pair_le, sort_merges, sort_pairs};
use crate::mxl_read::{body_of, has_signature, lemma_lf_crlf, lf};
use crate::mxl_write::{bom, mxl_header, mxl_text, txt_line};
use crate::sections::head_text;
use crate::params::{applied_rows, lookup, param_text, slot_of};
use crate::convert::str_upper;
use crate::props::{
    doc_get, doc_set, hundredths_value, in_box, settings, text_fill, with_text, DocProp, box_rows,
};
use crate::text::{digit_char, doubled, quote, spec_digits, spec_int};
use crate::xlsx_layout::{kept, overlap, proper, Quad};
use crate::xlsx_text::{escape_char, escaped};

verus! {

// --- strings and numbers of the file -------------------------------------------------

/// A string the writer puts in quotes, its quotes doubled, is read back as
/// itself, whatever follows it in the file but another quote.
pub proof fn law_quoted_text_reads_back(t: Seq<char>, rest: Seq<char>)
    requires
        rest.len() == 0 || rest[0] != '"',
    ensures
        unquoted_from(quote(t) + rest, 1) == Some((t, quote(t).len() as int)),
{
    lemma_unquote_doubled(seq!['"'], t, rest);
    assert(seq!['"'] + doubled(t) + seq!['"'] + rest =~= quote(t) + rest);
}

proof fn lemma_digit(d: nat)
    requires
        d < 10,
    ensures
        is_digit(digit_char(d)),
        digit_char(d) as int - 48 == d,
{
    assert(((d + 48) as u8) as int == d + 48);
}

proof fn lemma_digits_read_back(m: nat)
    ensures
        spec_digits(m).len() > 0,
        all_digits(spec_digits(m)),
        digits_value(spec_digits(m)) == m,
    decreases m,
{
    if m < 10 {
        lemma_digit(m);
        assert(spec_digits(m).drop_last() =~= Seq::<char>::empty());
        assert(digits_value(Seq::<char>::empty()) == 0);
        assert(spec_digits(m).last() == digit_char(m));
    } else {
        lemma_digits_read_back(m / 10);
        lemma_digit(m % 10);
        let s = spec_digits(m);
        assert(s.drop_last() =~= spec_digits(m / 10));
        assert forall|i: int| 0 <= i < s.len() implies is_digit(#[trigger] s[i]) by {
            if i < s.len() - 1 {
                assert(s[i] == spec_digits(m / 10)[i]);
            }
        }
    }
}

/// The digits of a number are digits.
pub proof fn lemma_digits_are_digits(m: nat)
    ensures
        all_digits(spec_digits(m)),
{
    lemma_digits_read_back(m);
}

/// A whole number the writer puts in the file is read back as itself.
pub proof fn law_integer_reads_back(n: i64)
    ensures
        i64_of(spec_int(n as int)) == Some(n),
{
    if n < 0 {
        let d = spec_digits((-n) as nat);
        lemma_digits_read_back((-n) as nat);
        let s = seq!['-'] + d;
        assert(s.drop_first() =~= d);
        assert(s[0] == '-');
    } else {
        let d = spec_digits(n as nat);
        lemma_digits_read_back(n as nat);
        assert(is_digit(d[0]));
    }
}

/// The framing the writer puts around the text of a file is the one the
/// reader takes off: the signature, the 13-byte header and the BOM.
pub proof fn law_written_header_is_read_back(doc: &SpreadDocData)
    ensures
        ({
            let b = mxl_header() + bom() + utf8(crlf(mxl_text(doc)));
            &&& has_signature(b)
            &&& b.len() >= 13
            &&& body_of(b) == utf8(crlf(mxl_text(doc)))
        }),
{
    lemma_framing(utf8(crlf(mxl_text(doc))));
}

/// The text of a written file is read back exactly as it was written:
/// whatever text its body decodes to, with its line breaks folded, is the
/// written text, and that text opens with the root group.
pub proof fn law_written_text_is_read_back(doc: &SpreadDocData, t: Seq<char>)
    requires
        utf8(t) == body_of(mxl_header() + bom() + utf8(crlf(mxl_text(doc)))),
    ensures
        lf(t) == mxl_text(doc),
        mxl_text(doc).len() > 0 && mxl_text(doc)[0] == '{',
{
    lemma_framing(utf8(crlf(mxl_text(doc))));
    lemma_utf8_injective(t, crlf(mxl_text(doc)));
    lemma_lf_crlf(mxl_text(doc));
    reveal_strlit("{8,1,12,\n");
    let x = mxl_text(doc);
    let h = head_text(crate::mxl_write::rows_pass(doc.rows@, doc.row_groups@, crate::mxl_write::empty_state()).0.pals.lines);
    assert(h[0] == '{');
    assert(x.len() >= h.len());
    assert(x[0] == h[0]);
}

proof fn lemma_framing(x: Seq<u8>)
    ensures
        has_signature(mxl_header() + bom() + x),
        (mxl_header() + bom() + x).len() >= 13,
        body_of(mxl_header() + bom() + x) == x,
{
    let b = mxl_header() + bom() + x;
    assert(b.skip(13) =~= bom() + x);
    assert((bom() + x).skip(3) =~= x);
}

// --- the document --------------------------------------------------------------------

/// Writing a cell never makes the document smaller: clearing a cell keeps
/// the size it gave.
pub proof fn law_size_never_shrinks(a: SpreadDocData, b: SpreadDocData, r: u32, c: u32)
    requires
        b.touched(&a, r, c),
    ensures
        b.height >= a.height,
        b.width >= a.width,
        b.height > r,
        b.width > c,
{
}

/// `Вывести` keeps every row of the target and puts every row of the
/// source below it, shifted by the target's height.
pub proof fn law_output_keeps_and_shifts(dst: SpreadDocData, src: SpreadDocData, nd: SpreadDocData)
    requires
        dst.wf(),
        appended(nd, dst, src),
    ensures
        forall|r: u32| #[trigger] dst.rows_view().contains_key(r) ==> nd.rows_view().contains_key(r)
            && nd.rows_view()[r] == dst.rows_view()[r],
        forall|r: u32|
            #[trigger] src.rows_view().contains_key(r) && r + dst.height <= u32::MAX ==> nd.rows_view().contains_key(
                (r + dst.height) as u32,
            ) && nd.rows_view()[(r + dst.height) as u32] == src.rows_view()[r],
        nd.height == dst.height + src.height,
{
    assert forall|r: u32| #[trigger] dst.rows_view().contains_key(r) implies nd.rows_view().contains_key(r)
        && nd.rows_view()[r] == dst.rows_view()[r] by {
        assert(r < dst.height);
        assert(!crate::model::shift_rows(src.rows_view(), dst.height).contains_key(r));
    }
    assert forall|r: u32|
        #[trigger] src.rows_view().contains_key(r) && r + dst.height <= u32::MAX implies nd.rows_view().contains_key(
            (r + dst.height) as u32,
        ) && nd.rows_view()[(r + dst.height) as u32] == src.rows_view()[r] by {
        let k = (r + dst.height) as u32;
        assert(((k - dst.height) as u32) == r);
        assert(crate::model::shift_rows(src.rows_view(), dst.height).contains_key(k));
    }
}

/// Writing text into an area sets the text of every cell of the area (its
/// parameter goes) and leaves every other cell as it was.
pub proof fn law_area_text_reads_back(
    od: SpreadDocData,
    nd: SpreadDocData,
    r1: u32,
    c1: u32,
    r2: u32,
    c2: u32,
    t: Seq<char>,
    r: u32,
    c: u32,
)
    requires
        nd.rows_view() == text_fill(od.rows_view(), box_rows(r1, c1, r2, c2), in_box(r1, c1, r2, c2), t),
    ensures
        r1 <= r <= r2 && c1 <= c <= c2 ==> nd.cell_or_blank(r, c) == with_text(od.cell_or_blank(r, c), t),
        !(r1 <= r <= r2 && c1 <= c <= c2) ==> nd.cell_or_blank(r, c) == od.cell_or_blank(r, c),
{
}

// --- values written and read back ------------------------------------------------------

proof fn lemma_slot_same_keys(s: Seq<(String, Value)>, t: Seq<(String, Value)>, x: Seq<char>)
    requires
        s.len() == t.len(),
        forall|i: int| 0 <= i < s.len() ==> (#[trigger] s[i]).0@ == t[i].0@,
    ensures
        slot_of(s, x) == slot_of(t, x),
    decreases s.len(),
{
    if s.len() > 0 {
        lemma_slot_same_keys(s.drop_last(), t.drop_last(), x);
        assert(s.last().0@ == t[t.len() - 1].0@);
    }
}

proof fn lemma_slot_found(s: Seq<(String, Value)>, x: Seq<char>)
    ensures
        slot_of(s, x) matches Some(k) ==> 0 <= k < s.len() && s[k].0@ == x,
    decreases s.len(),
{
    if s.len() > 0 {
        lemma_slot_found(s.drop_last(), x);
    }
}

pub proof fn lemma_update_lookup(od: Seq<(String, Value)>, nd: Seq<(String, Value)>, key: Seq<char>, val: Value)
    requires
        slot_of(od, key) is Some,
        nd == od.update(slot_of(od, key)->0, (od[slot_of(od, key)->0].0, val)),
    ensures
        lookup(nd, key) == val,
{
    lemma_slot_found(od, key);
    assert forall|i: int| 0 <= i < od.len() implies (#[trigger] od[i]).0@ == nd[i].0@ by {}
    lemma_slot_same_keys(od, nd, key);
}

pub proof fn lemma_push_lookup(od: Seq<(String, Value)>, nd: Seq<(String, Value)>, key: Seq<char>, val: Value)
    requires
        slot_of(od, key) is None,
        nd.drop_last() == od,
        nd.len() == od.len() + 1,
        nd.last().0@ == key,
        nd.last().1 == val,
    ensures
        lookup(nd, key) == val,
{
}

/// A template parameter reads back the value last written under its name,
/// and a write under one name leaves the values of the others alone; names
/// are compared after upper-casing, which `set_param` and `get_param` both do.
pub proof fn law_parameter_reads_back(od: Seq<(String, Value)>, nd: Seq<(String, Value)>, key: Seq<char>, val: Value, other: Seq<char>)
    requires
        match slot_of(od, key) {
            Some(k) => nd == od.update(k, (od[k].0, val)),
            None => nd.drop_last() == od && nd.len() == od.len() + 1 && nd.last().0@ == key && nd.last().1 == val,
        },
        other != key,
    ensures
        lookup(nd, key) == val,
        lookup(nd, other) == lookup(od, other),
{
    lemma_slot_found(od, key);
    lemma_slot_found(od, other);
    match slot_of(od, key) {
        Some(k) => {
            assert forall|i: int| 0 <= i < od.len() implies (#[trigger] od[i]).0@ == nd[i].0@ by {}
            lemma_slot_same_keys(od, nd, key);
            lemma_slot_same_keys(od, nd, other);
        },
        None => {
            assert(nd.drop_last() == od);
        },
    }
}

/// What reading a setting gives after it was written with `v`.
pub open spec fn read_back(p: DocProp, v: Value, st: (bool, i64, i64, bool, crate::model::PageMargins)) -> Value {
    match p {
        DocProp::ShowGrid => Value::Bool(st.0),
        DocProp::FixedTop => Value::Number { mantissa: st.1, scale: 0 },
        DocProp::FixedLeft => Value::Number { mantissa: st.2, scale: 0 },
        DocProp::LeftMargin => hundredths_value(st.4.left),
        DocProp::RightMargin => hundredths_value(st.4.right),
        DocProp::TopMargin => hundredths_value(st.4.top),
        DocProp::BottomMargin => hundredths_value(st.4.bottom),
        _ => v,
    }
}

/// A document setting reads back what was written: the grid flag as
/// written, the fixed rows and columns as the whole number, a margin in
/// hundredths of a millimetre, the page orientation as the member.
pub proof fn law_setting_reads_back(od: SpreadDocData, nd: SpreadDocData, p: DocProp, v: Value)
    requires
        doc_set(od, Some(p), v) is Ok,
        settings(nd) == doc_set(od, Some(p), v)->Ok_0,
    ensures
        doc_get(nd, p) == read_back(p, v, settings(nd)),
        p == DocProp::ShowGrid ==> doc_get(nd, p) == Value::Bool(v == Value::Bool(true)),
        p == DocProp::Orientation ==> doc_get(nd, p) == v,
{
}

// --- the workbook -----------------------------------------------------------------------

pub open spec fn distinct<T>(s: Seq<T>) -> bool {
    forall|i: int, j: int| 0 <= i < j < s.len() ==> s[i] != s[j]
}

/// Using an entry of a palette twice gives the same index and leaves the
/// palette as the first use left it: equal texts share one shared string,
/// equal looks one style.
pub proof fn law_intern_is_stable<T>(s: Seq<T>, x: T)
    ensures
        ({
            let (s1, i) = intern_at(s, x);
            &&& 0 <= i < s1.len()
            &&& s1[i] == x
            &&& intern_at(s1, x) == (s1, i)
        }),
{
    let (s1, i) = intern_at(s, x);
    if s.contains(x) {
        let k = choose|k: int| 0 <= k < s.len() && s[k] == x;
        lemma_exists_first(s, x, k);
        let g = choose|g: int| 0 <= g < s.len() && s[g] == x && forall|j: int| 0 <= j < g ==> s[j] != x;
        lemma_first_index(s, x, g);
    } else {
        assert(s1[s.len() as int] == x);
        assert(s1.contains(x));
        assert forall|j: int| 0 <= j < s.len() implies s1[j] != x by {
            assert(s1[j] == s[j]);
        }
        lemma_first_index(s1, x, s.len() as int);
    }
}

proof fn lemma_exists_first<T>(s: Seq<T>, x: T, k: int)
    requires
        0 <= k < s.len(),
        s[k] == x,
    ensures
        exists|g: int| 0 <= g < s.len() && s[g] == x && forall|j: int| 0 <= j < g ==> s[j] != x,
    decreases k,
{
    if exists|j: int| 0 <= j < k && s[j] == x {
        let j = choose|j: int| 0 <= j < k && s[j] == x;
        lemma_exists_first(s, x, j);
    } else {
        assert(forall|j: int| 0 <= j < k ==> s[j] != x);
    }
}

/// Interning keeps a palette free of repeats: no text is shared twice and
/// no look gets two styles.
pub proof fn law_intern_keeps_distinct<T>(s: Seq<T>, x: T)
    requires
        distinct(s),
    ensures
        distinct(intern_at(s, x).0),
{
    if !s.contains(x) {
        let s1 = s.push(x);
        assert forall|i: int, j: int| 0 <= i < j < s1.len() implies s1[i] != s1[j] by {
            if j == s.len() {
                assert(s1[i] == s[i]);
                if s[i] == x {
                    assert(s.contains(x));
                }
            } else {
                assert(s1[i] == s[i] && s1[j] == s[j]);
            }
        }
    }
}

/// The merges that reach the workbook are proper (more than one cell,
/// bounds in order) and no two of them overlap.
pub proof fn law_merges_never_overlap(c: Seq<Quad>)
    ensures
        forall|i: int| 0 <= i < kept(c).len() ==> proper(#[trigger] kept(c)[i]),
        forall|i: int, j: int| 0 <= i < j < kept(c).len() ==> !overlap(#[trigger] kept(c)[i], #[trigger] kept(c)[j]),
    decreases c.len(),
{
    if c.len() > 0 {
        law_merges_never_overlap(c.drop_last());
        let k = kept(c.drop_last());
        let x = c.last();
        if proper(x) && !crate::xlsx_layout::overlaps_any(k, x) {
            let k1 = k.push(x);
            assert forall|i: int, j: int| 0 <= i < j < k1.len() implies !overlap(#[trigger] k1[i], #[trigger] k1[j]) by {
                if j == k.len() {
                    assert(k1[i] == k[i]);
                    assert(!overlap(k[i], x));
                } else {
                    assert(k1[i] == k[i] && k1[j] == k[j]);
                }
            }
            assert forall|i: int| 0 <= i < k1.len() implies proper(#[trigger] k1[i]) by {
                if i < k.len() {
                    assert(k1[i] == k[i]);
                }
            }
        }
    }
}

/// Escaped text has no markup left in it: every `<` and `>` became an
/// entity.
pub proof fn law_escaped_has_no_markup(s: Seq<char>)
    ensures
        forall|i: int| 0 <= i < escaped(s).len() ==> #[trigger] escaped(s)[i] != '<' && escaped(s)[i] != '>',
    decreases s.len(),
{
    reveal_strlit("&amp;");
    reveal_strlit("&lt;");
    reveal_strlit("&gt;");
    reveal_strlit("    ");
    if s.len() > 0 {
        law_escaped_has_no_markup(s.drop_last());
        let a = escaped(s.drop_last());
        let b = escape_char(s.last());
        assert forall|i: int| 0 <= i < b.len() implies b[i] != '<' && b[i] != '>' by {}
        assert forall|i: int| 0 <= i < escaped(s).len() implies #[trigger] escaped(s)[i] != '<' && escaped(s)[i] != '>' by {
            if i < a.len() {
                assert(escaped(s)[i] == a[i]);
            } else {
                assert(escaped(s)[i] == b[i - a.len()]);
            }
        }
    }
}

/// The named areas the writer puts down are the ones the reader takes back.
/// The names text parses into the names group (and the empty string after
/// it); that group, read where the names section stands, gives each name
/// its area, with the axis that does not count read as 0. Names must be
/// nonempty: the reader drops an empty one.
pub proof fn law_names_survive_the_file(
    ns: Seq<(String, NamedArea)>,
    s: Seq<char>,
    i: int,
    acc: Seq<NodeView>,
    items: Seq<Node>,
    p: int,
)
    requires
        names_sorted(ns),
        forall|k: int| 0 <= k < ns.len() ==> (#[trigger] ns[k]).0@.len() > 0,
        at(s, i, names_text(ns)),
        0 <= p < items.len(),
        tree(items[p]) == NodeView::Group(names_nodes(ns)),
    ensures
        group_from(s, i, acc, Seq::empty()) == group_from(
            s,
            i + names_text(ns).len(),
            acc + seq![NodeView::Group(names_nodes(ns)), NodeView::Text(Seq::empty())],
            seq![' '],
        ),
        names_section(items, p) == Ok::<(Seq<(Seq<char>, NamedArea)>, int), ReadError>((entries(ns), p + 1)),
        names_after(Map::empty(), entries(ns)) == names_map(ns).map_values(|a: NamedArea| normal_area(a)),
{
    lemma_names_text(s, i, ns, acc);
    lemma_names_section(items, p, ns);
    lemma_names_read(ns);
}

/// The page setup survives the file. The page group and the print area
/// record the writer puts down parse into two groups; from them the reader,
/// whatever settings it had, takes back the orientation (landscape stays
/// landscape), the print scale when one is set, the four margins, and the
/// print area when one is set.
pub proof fn law_page_survives_the_file(
    landscape: bool,
    scale: Option<i64>,
    m: PageMargins,
    pa: Option<(u32, u32, u32, u32)>,
    s: Seq<char>,
    i: int,
    acc: Seq<NodeView>,
    items: Seq<Node>,
    p: int,
    st: PageView,
)
    requires
        at(s, i, page_text(page_pairs(landscape, scale, m)) + print_area_text(pa)),
        0 <= p,
        p + 13 <= items.len(),
        tree(items[p + 1]) == NodeView::Group(page_nodes(page_pairs(landscape, scale, m))),
        tree(items[p + 2]) == NodeView::Group(atoms(print_area_tokens(pa))),
    ensures
        group_from(s, i, acc, Seq::empty()) == group_from(
            s,
            i + (page_text(page_pairs(landscape, scale, m)) + print_area_text(pa)).len(),
            acc + seq![
                NodeView::Group(page_nodes(page_pairs(landscape, scale, m))),
                NodeView::Group(atoms(print_area_tokens(pa))),
            ],
            Seq::empty(),
        ),
        page_section(items, p, st) == Ok::<(PageView, int), ReadError>(
            (
                (
                    st.0 || landscape,
                    match scale {
                        Some(x) => Some(x),
                        None => st.1,
                    },
                    m,
                    print_area_read(pa, st.3),
                ),
                p + 13,
            ),
        ),
{
    let ps = page_pairs(landscape, scale, m);
    let pt = page_text(ps);
    lemma_split(s, i, pt, print_area_text(pa));
    assert(ps.len() >= 6);
    lemma_page_text(s, i, ps, acc);
    let acc1 = acc.push(NodeView::Group(page_nodes(ps)));
    lemma_print_area_text(s, i + pt.len(), pa, acc1, seq![' ']);
    assert(acc1.push(NodeView::Group(atoms(print_area_tokens(pa)))) =~= acc + seq![
        NodeView::Group(page_nodes(ps)),
        NodeView::Group(atoms(print_area_tokens(pa))),
    ]);
    lemma_page_pairs_applied((st.0, st.1, st.2), landscape, scale, m);
    lemma_page_section(items, p, st, ps, pa);
}

/// The merges survive the file. The three merge lists the writer puts
/// down (rectangles, whole rows, whole columns) parse into three groups,
/// and the reader takes back each list as written: every merge, each as
/// often as it was given, in order of row, then column.
pub proof fn law_merges_survive_the_file(
    ms: Seq<Merge>,
    rows: Seq<(u32, u32)>,
    cols: Seq<(u32, u32)>,
    s: Seq<char>,
    i: int,
    acc: Seq<NodeView>,
    atom: Seq<char>,
    items: Seq<Node>,
    p: int,
)
    requires
        blank(atom),
        at(s, i, merges_text(ms, rows, cols)),
        0 <= p,
        p + 3 <= items.len(),
        tree(items[p]) == NodeView::Group(list_nodes(merges_tokens(sort_merges(ms)))),
        tree(items[p + 1]) == NodeView::Group(list_nodes(pairs_tokens(sort_pairs(rows), false))),
        tree(items[p + 2]) == NodeView::Group(list_nodes(pairs_tokens(sort_pairs(cols), true))),
    ensures
        group_from(s, i, acc, atom) == group_from(
            s,
            i + merges_text(ms, rows, cols).len(),
            acc + seq![
                NodeView::Group(list_nodes(merges_tokens(sort_merges(ms)))),
                NodeView::Group(list_nodes(pairs_tokens(sort_pairs(rows), false))),
                NodeView::Group(list_nodes(pairs_tokens(sort_pairs(cols), true))),
            ],
            seq![' '],
        ),
        merges_section(items, p) == Ok::<((Seq<Merge>, Seq<(u32, u32)>, Seq<(u32, u32)>), int), ReadError>(
            ((sort_merges(ms), sort_pairs(rows), sort_pairs(cols)), p + 3),
        ),
        sort_merges(ms).to_multiset() == ms.to_multiset(),
        sort_pairs(rows).to_multiset() == rows.to_multiset(),
        sort_pairs(cols).to_multiset() == cols.to_multiset(),
        forall|a: int, b: int|
            0 <= a < b < sort_merges(ms).len() ==> merge_le(#[trigger] sort_merges(ms)[a], #[trigger] sort_merges(ms)[b]),
        forall|a: int, b: int|
            0 <= a < b < sort_pairs(rows).len() ==> pair_le(#[trigger] sort_pairs(rows)[a], #[trigger] sort_pairs(rows)[b]),
        forall|a: int, b: int|
            0 <= a < b < sort_pairs(cols).len() ==> pair_le(#[trigger] sort_pairs(cols)[a], #[trigger] sort_pairs(cols)[b]),
{
    lemma_sort_merges(ms);
    lemma_sort_pairs(rows);
    lemma_sort_pairs(cols);
    lemma_merges_text(s, i, ms, rows, cols, acc, atom);
    lemma_merges_section(items, p, sort_merges(ms), sort_pairs(rows), sort_pairs(cols));
}

/// Parsing undoes quoting inside a group, whatever the text holds (quotes,
/// commas, braces, line breaks): `{` + the quoted text + `}` is one group
/// holding the text, and the doubled quote is the only escape.
pub proof fn law_parsing_undoes_quoting(t: Seq<char>)
    ensures
        group_from(seq!['{'] + quote(t) + seq!['}'], 1, Seq::empty(), Seq::empty()) == Ok::<
            (Seq<NodeView>, int),
            ReadError,
        >((seq![NodeView::Text(t)], quote(t).len() + 2int)),
{
    let q = quote(t);
    let n = q.len() as int;
    let s = seq!['{'] + q + seq!['}'];
    assert(s.subrange(1, 1 + n) =~= q);
    assert(s[1 + n] == '}');
    lemma_quoted(s, 1, t, Seq::empty(), Seq::empty());
    lemma_close(s, 1 + n, Seq::<NodeView>::empty().push(NodeView::Text(t)), Seq::empty());
    assert(Seq::<NodeView>::empty().push(NodeView::Text(t)) =~= seq![NodeView::Text(t)]);
}

/// The version bytes of the header (6 to 12) are never read: two files
/// that differ only there have the same signature and, once the header is
/// whole, the same body, and so read alike.
pub proof fn law_version_bytes_are_not_read(a: Seq<u8>, b: Seq<u8>)
    requires
        a.len() == b.len(),
        forall|k: int| 0 <= k < a.len() && !(6 <= k < 13) ==> a[k] == b[k],
    ensures
        has_signature(a) == has_signature(b),
        a.len() >= 13 ==> body_of(a) == body_of(b),
{
    if a.len() >= 6 {
        assert(a[0] == b[0] && a[1] == b[1] && a[2] == b[2] && a[3] == b[3] && a[4] == b[4] && a[5] == b[5]);
    }
    if a.len() >= 13 {
        assert(a.skip(13) =~= b.skip(13)) by {
            assert forall|k: int| 0 <= k < a.skip(13).len() implies a.skip(13)[k] == b.skip(13)[k] by {
                assert(a[k + 13] == b[k + 13]);
            }
        }
    }
}

/// What `extract` gives holds exactly the cells of the rectangle, moved to
/// the origin: the cell at `(r, c)` of the copy is the cell at
/// `(r1 + r, c1 + c)` of the document inside the rectangle, and there is
/// none outside it.
pub proof fn law_extract_moves_cells(d: &SpreadDocData, out: &SpreadDocData, r1: u32, c1: u32, r2: u32, c2: u32)
    requires
        out.rows_view() == window_rows(d.rows_view(), r1, c1, r2, c2),
    ensures
        forall|r: u32, c: u32|
            #[trigger] out.cell_at(r, c) == (if r1 + r <= r2 && c1 + c <= c2 {
                d.cell_at((r + r1) as u32, (c + c1) as u32)
            } else {
                None
            }),
{
    assert forall|r: u32, c: u32|
        #[trigger] out.cell_at(r, c) == (if r1 + r <= r2 && c1 + c <= c2 {
            d.cell_at((r + r1) as u32, (c + c1) as u32)
        } else {
            None
        }) by {
        let rr = (r + r1) as u32;
        if out.rows_view().contains_key(r) {
            assert(r1 + r <= r2 && d.rows_view().contains_key(rr));
        } else if r1 + r <= r2 {
            assert(!d.rows_view().contains_key(rr));
        }
    }
}

/// The row groups survive the file. The count and the group records the
/// writer puts down parse into the count and one record and a `-1` for
/// each group; the reader takes the count, then each group back in order:
/// its rows, level, name and whether it is collapsed.
pub proof fn law_row_groups_survive_the_file(
    gs: Seq<RowGroup>,
    s: Seq<char>,
    i: int,
    acc: Seq<NodeView>,
    items: Seq<Node>,
    p: int,
)
    requires
        gs.len() <= i64::MAX,
        at(s, i, groups_text(gs)),
        0 <= p,
        p + 1 + 2 * gs.len() <= items.len(),
        trees(items).subrange(p, p + 1 + 2 * gs.len()) == seq![NodeView::Atom(spec_int(gs.len() as int))]
            + groups_items(gs),
    ensures
        group_from(s, i, acc, Seq::empty()) == group_from(
            s,
            i + groups_text(gs).len(),
            acc + seq![NodeView::Atom(spec_int(gs.len() as int))] + groups_items(gs),
            Seq::empty(),
        ),
        item_number(items, p) == Ok::<i64, ReadError>(gs.len() as i64),
        groups_from(items, p + 1, 0, gs.len() as int) == Ok::<
            (Seq<(u32, u32, u32, Seq<char>, bool)>, int),
            ReadError,
        >((group_tuples(gs), p + 1 + 2 * gs.len())),
{
    lemma_groups_text(s, i, gs, acc);
    lemma_groups_items_len(gs);
    lemma_trees_index(items);
    let sub = trees(items).subrange(p, p + 1 + 2 * gs.len());
    assert(sub[0] == NodeView::Atom(spec_int(gs.len() as int)));
    law_integer_reads_back(gs.len() as i64);
    match items[p] {
        Node::Atom(t) => {},
        Node::Group(v) => {},
        Node::Text(t) => {},
    }
    assert(trees(items).subrange(p + 1, p + 1 + 2 * gs.len()) =~= groups_items(gs)) by {
        assert forall|q: int| 0 <= q < groups_items(gs).len() implies trees(items).subrange(
            p + 1,
            p + 1 + 2 * gs.len(),
        )[q] == #[trigger] groups_items(gs)[q] by {
            assert(sub[q + 1] == (seq![NodeView::Atom(spec_int(gs.len() as int))] + groups_items(gs))[q + 1]);
        }
    }
    lemma_groups_from(items, p + 1, 0, gs);
}

/// Outputting a document moves its merges down with its rows: after
/// appending `other` to a document of height `h`, every merge of `other`
/// is there `h` rows lower, the merges that were there stay, and every
/// other merge is one of the moved ones, so none of them covers a row
/// above `h`.
pub proof fn law_append_moves_merges(before: &SpreadDocData, after: &SpreadDocData, other: &SpreadDocData)
    requires
        after.merges@ == add_merges(before.merges@, other.merges@.map_values(|m: Merge| shift_merge(m, before.height))),
        forall|i: int| 0 <= i < other.merges@.len() ==> (#[trigger] other.merges@[i]).r2 + before.height <= u32::MAX
            && other.merges@[i].r1 + before.height <= u32::MAX,
    ensures
        forall|i: int|
            0 <= i < other.merges@.len() ==> exists|j: int|
                0 <= j < after.merges@.len() && (#[trigger] after.merges@[j]).r1 == (#[trigger] other.merges@[i]).r1
                    + before.height && after.merges@[j].r2 == other.merges@[i].r2 + before.height
                    && after.merges@[j].c1 == other.merges@[i].c1 && after.merges@[j].c2 == other.merges@[i].c2
                    && after.merges@[j].unmerge == other.merges@[i].unmerge,
        forall|m: Merge| before.merges@.contains(m) ==> #[trigger] after.merges@.contains(m),
        forall|j: int|
            0 <= j < after.merges@.len() && !before.merges@.contains(#[trigger] after.merges@[j]) ==> exists|i: int|
                0 <= i < other.merges@.len() && after.merges@[j].r1 == (#[trigger] other.merges@[i]).r1 + before.height
                    && after.merges@[j].r2 == other.merges@[i].r2 + before.height && after.merges@[j].c1
                    == other.merges@[i].c1 && after.merges@[j].c2 == other.merges@[i].c2 && after.merges@[j].unmerge
                    == other.merges@[i].unmerge && after.merges@[j].r1 >= before.height,
{
    let h = before.height;
    let adds = other.merges@.map_values(|m: Merge| shift_merge(m, h));
    lemma_add_merges(before.merges@, adds);
    assert forall|i: int| 0 <= i < other.merges@.len() implies exists|j: int|
        0 <= j < after.merges@.len() && (#[trigger] after.merges@[j]).r1 == (#[trigger] other.merges@[i]).r1 + h
            && after.merges@[j].r2 == other.merges@[i].r2 + h && after.merges@[j].c1 == other.merges@[i].c1
            && after.merges@[j].c2 == other.merges@[i].c2 && after.merges@[j].unmerge == other.merges@[i].unmerge by {
        assert(adds[i] == shift_merge(other.merges@[i], h));
        assert(adds.contains(adds[i]));
        assert(after.merges@.contains(adds[i]));
        let j = choose|j: int| 0 <= j < after.merges@.len() && after.merges@[j] == adds[i];
        assert(after.merges@[j] == adds[i]);
    }
    assert forall|m: Merge| before.merges@.contains(m) implies #[trigger] after.merges@.contains(m) by {}
    assert forall|j: int|
        0 <= j < after.merges@.len() && !before.merges@.contains(#[trigger] after.merges@[j]) implies exists|i: int|
            0 <= i < other.merges@.len() && after.merges@[j].r1 == (#[trigger] other.merges@[i]).r1 + h
                && after.merges@[j].r2 == other.merges@[i].r2 + h && after.merges@[j].c1 == other.merges@[i].c1
                && after.merges@[j].c2 == other.merges@[i].c2 && after.merges@[j].unmerge == other.merges@[i].unmerge
                && after.merges@[j].r1 >= h by {
        assert(after.merges@.contains(after.merges@[j]));
        assert(adds.contains(after.merges@[j]));
        let i = choose|i: int| 0 <= i < adds.len() && adds[i] == after.merges@[j];
        assert(adds[i] == shift_merge(other.merges@[i], h));
    }
}

/// A source merge whose corner lies in the rectangle, moved to its origin
/// and clipped to it, is merge `x`.
pub open spec fn moved_in(x: Merge, m: Merge, r1: u32, c1: u32, r2: u32, c2: u32) -> bool {
    &&& r1 <= m.r1 <= r2
    &&& c1 <= m.c1 <= c2
    &&& x.r1 == m.r1 - r1
    &&& x.c1 == m.c1 - c1
    &&& x.r2 == (if m.r2 <= r2 { m.r2 } else { r2 }) - r1
    &&& x.c2 == (if m.c2 <= c2 { m.c2 } else { c2 }) - c1
    &&& x.unmerge == m.unmerge
}

proof fn lemma_window_merges(ms: Seq<Merge>, r1: u32, c1: u32, r2: u32, c2: u32)
    requires
        forall|i: int| 0 <= i < ms.len() && r1 <= (#[trigger] ms[i]).r1 <= r2 && c1 <= ms[i].c1 <= c2 ==> ms[i].r2
            >= r1 && ms[i].c2 >= c1,
    ensures
        forall|i: int|
            0 <= i < ms.len() && r1 <= (#[trigger] ms[i]).r1 <= r2 && c1 <= ms[i].c1 <= c2 ==> exists|j: int|
                0 <= j < window_merges(ms, r1, c1, r2, c2).len() && moved_in(
                    #[trigger] window_merges(ms, r1, c1, r2, c2)[j],
                    ms[i],
                    r1,
                    c1,
                    r2,
                    c2,
                ),
        forall|j: int|
            0 <= j < window_merges(ms, r1, c1, r2, c2).len() ==> exists|i: int|
                0 <= i < ms.len() && moved_in(#[trigger] window_merges(ms, r1, c1, r2, c2)[j], #[trigger] ms[i], r1, c1, r2, c2),
    decreases ms.len(),
{
    if ms.len() > 0 {
        let init = ms.drop_last();
        assert forall|i: int| 0 <= i < init.len() && r1 <= (#[trigger] init[i]).r1 <= r2 && c1 <= init[i].c1 <= c2
            implies init[i].r2 >= r1 && init[i].c2 >= c1 by {
            assert(init[i] == ms[i]);
        }
        lemma_window_merges(init, r1, c1, r2, c2);
        let rest = window_merges(init, r1, c1, r2, c2);
        let w = window_merges(ms, r1, c1, r2, c2);
        let m = ms.last();
        let inside = r1 <= m.r1 <= r2 && c1 <= m.c1 <= c2;
        if inside {
            assert(ms[ms.len() - 1] == m);
            assert(w[rest.len() as int] == w.last());
            assert(moved_in(w[rest.len() as int], m, r1, c1, r2, c2));
        }
        assert forall|i: int|
            0 <= i < ms.len() && r1 <= (#[trigger] ms[i]).r1 <= r2 && c1 <= ms[i].c1 <= c2 implies exists|j: int|
                0 <= j < w.len() && moved_in(#[trigger] w[j], ms[i], r1, c1, r2, c2) by {
            if i < ms.len() - 1 {
                assert(init[i] == ms[i]);
                let j = choose|j: int| 0 <= j < rest.len() && moved_in(#[trigger] rest[j], init[i], r1, c1, r2, c2);
                assert(w[j] == rest[j]);
            } else {
                assert(w[rest.len() as int] == w.last());
            }
        }
        assert forall|j: int| 0 <= j < w.len() implies exists|i: int|
            0 <= i < ms.len() && moved_in(#[trigger] w[j], #[trigger] ms[i], r1, c1, r2, c2) by {
            if j < rest.len() {
                assert(w[j] == rest[j]);
                let i = choose|i: int| 0 <= i < init.len() && moved_in(#[trigger] rest[j], #[trigger] init[i], r1, c1, r2, c2);
                assert(ms[i] == init[i]);
            } else {
                assert(ms[ms.len() - 1] == m);
            }
        }
    }
}

/// Copying an area moves its merges to the copy's origin: every merge of
/// the copy lies inside the copy and is a merge of the document whose
/// corner is in the rectangle, moved by `(-r1, -c1)` and clipped to it;
/// every such merge is in the copy.
pub proof fn law_extract_moves_merges(d: &SpreadDocData, out: &SpreadDocData, r1: u32, c1: u32, r2: u32, c2: u32)
    requires
        forall|i: int| 0 <= i < d.merges@.len() && r1 <= (#[trigger] d.merges@[i]).r1 <= r2 && c1 <= d.merges@[i].c1
            <= c2 ==> d.merges@[i].r2 >= r1 && d.merges@[i].c2 >= c1,
        out.merges@ == window_merges(d.merges@, r1, c1, r2, c2),
        out.height == (if r2 >= r1 { r2 - r1 + 1 } else { 1 }),
        out.width == (if c2 >= c1 { c2 - c1 + 1 } else { 1 }),
    ensures
        forall|j: int| 0 <= j < out.merges@.len() ==> (#[trigger] out.merges@[j]).r2 < out.height && out.merges@[j].c2 < out.width,
        forall|i: int|
            0 <= i < d.merges@.len() && r1 <= (#[trigger] d.merges@[i]).r1 <= r2 && c1 <= d.merges@[i].c1 <= c2 ==> exists|j: int|
                0 <= j < out.merges@.len() && moved_in(#[trigger] out.merges@[j], d.merges@[i], r1, c1, r2, c2),
        forall|j: int|
            0 <= j < out.merges@.len() ==> exists|i: int|
                0 <= i < d.merges@.len() && moved_in(#[trigger] out.merges@[j], #[trigger] d.merges@[i], r1, c1, r2, c2),
{
    lemma_window_merges(d.merges@, r1, c1, r2, c2);
    let w = out.merges@;
    assert forall|j: int| 0 <= j < w.len() implies (#[trigger] w[j]).r2 < out.height && w[j].c2 < out.width by {
        let i = choose|i: int| 0 <= i < d.merges@.len() && moved_in(#[trigger] w[j], #[trigger] d.merges@[i], r1, c1, r2, c2);
    }
}

/// The text given for an upper-cased name is that of the first pair with
/// that name; there is none when no pair has it.
proof fn lemma_param_text(ps: Seq<(String, String)>, u: Seq<char>)
    ensures
        param_text(ps, u) is None <==> forall|k: int| 0 <= k < ps.len() ==> str_upper(#[trigger] ps[k].0@) != u,
        param_text(ps, u) is Some ==> exists|k: int|
            0 <= k < ps.len() && str_upper(#[trigger] ps[k].0@) == u && param_text(ps, u)->0 == ps[k].1@ && forall|j: int|
                0 <= j < k ==> str_upper(#[trigger] ps[j].0@) != u,
    decreases ps.len(),
{
    if ps.len() > 0 {
        let init = ps.drop_last();
        lemma_param_text(init, u);
        assert forall|k: int| 0 <= k < init.len() implies init[k] == ps[k] by {}
        if param_text(init, u) is Some {
            let k = choose|k: int|
                0 <= k < init.len() && str_upper(#[trigger] init[k].0@) == u && param_text(init, u)->0 == init[k].1@
                    && forall|j: int| 0 <= j < k ==> str_upper(#[trigger] init[j].0@) != u;
            assert(ps[k] == init[k]);
            assert forall|j: int| 0 <= j < k implies str_upper(#[trigger] ps[j].0@) != u by {
                assert(ps[j] == init[j]);
            }
        } else {
            assert forall|j: int| 0 <= j < ps.len() - 1 implies str_upper(#[trigger] ps[j].0@) != u by {
                assert(ps[j] == init[j]);
            }
            if str_upper(ps.last().0@) == u {
                assert(ps[ps.len() - 1] == ps.last());
            } else {
                assert forall|k: int| 0 <= k < ps.len() implies str_upper(#[trigger] ps[k].0@) != u by {
                    if k < ps.len() - 1 {
                        assert(ps[k] == init[k]);
                    }
                }
            }
        }
    }
}

/// Filling template parameters changes only the text of cells: the same
/// rows with the same heights, the same cells, and in each cell every field
/// but the text, the parameter among them, as it was. So the template can
/// be filled and output again and again.
pub proof fn law_filling_parameters_changes_only_text(
    before: &SpreadDocData,
    after: &SpreadDocData,
    ps: Seq<(String, String)>,
)
    requires
        after.rows_view() == applied_rows(before.rows_view(), ps),
    ensures
        forall|r: u32| #[trigger] after.rows_view().contains_key(r) <==> before.rows_view().contains_key(r),
        forall|r: u32| #[trigger] after.rows_view().contains_key(r) ==> after.rows_view()[r].height == before.rows_view()[r].height,
        forall|r: u32, c: u32| (#[trigger] after.cell_at(r, c)) is Some <==> before.cell_at(r, c) is Some,
        forall|r: u32, c: u32|
            (#[trigger] after.cell_at(r, c)) is Some ==> before.cell_at(r, c) is Some && after.cell_at(r, c)->0 == (CellView {
                text: after.cell_at(r, c)->0.text,
                ..before.cell_at(r, c)->0
            }),
        forall|r: u32, c: u32| (#[trigger] after.cell_or_blank(r, c)).parameter == before.cell_or_blank(r, c).parameter,
        forall|r: u32, c: u32|
            (#[trigger] after.cell_at(r, c)) is Some ==> {
                let u = str_upper(before.cell_at(r, c)->0.parameter);
                let t = after.cell_at(r, c)->0.text;
                if before.cell_at(r, c)->0.parameter.len() > 0 && exists|k: int|
                    0 <= k < ps.len() && str_upper(#[trigger] ps[k].0@) == u {
                    exists|k: int|
                        0 <= k < ps.len() && str_upper(#[trigger] ps[k].0@) == u && t == ps[k].1@ && forall|j: int|
                            0 <= j < k ==> str_upper(#[trigger] ps[j].0@) != u
                } else {
                    t == before.cell_at(r, c)->0.text
                }
            },
{
    assert forall|r: u32, c: u32| (#[trigger] after.cell_at(r, c)) is Some <==> before.cell_at(r, c) is Some by {
        if before.rows_view().contains_key(r) {
            assert(after.rows_view()[r].cells.dom() =~= before.rows_view()[r].cells.dom());
        }
    }
    assert forall|r: u32, c: u32| (#[trigger] after.cell_at(r, c)) is Some implies before.cell_at(r, c) is Some
        && after.cell_at(r, c)->0 == (CellView { text: after.cell_at(r, c)->0.text, ..before.cell_at(r, c)->0 }) by {
        assert(before.rows_view().contains_key(r));
        assert(after.rows_view()[r].cells.contains_key(c));
        assert(before.rows_view()[r].cells.contains_key(c));
    }
    assert forall|r: u32, c: u32| (#[trigger] after.cell_or_blank(r, c)).parameter == before.cell_or_blank(r, c).parameter by {
        if before.rows_view().contains_key(r) {
            assert(after.rows_view()[r].cells.dom() =~= before.rows_view()[r].cells.dom());
        }
    }
    assert forall|r: u32, c: u32| (#[trigger] after.cell_at(r, c)) is Some implies {
        let u = str_upper(before.cell_at(r, c)->0.parameter);
        let t = after.cell_at(r, c)->0.text;
        if before.cell_at(r, c)->0.parameter.len() > 0 && exists|k: int|
            0 <= k < ps.len() && str_upper(#[trigger] ps[k].0@) == u {
            exists|k: int|
                0 <= k < ps.len() && str_upper(#[trigger] ps[k].0@) == u && t == ps[k].1@ && forall|j: int|
                    0 <= j < k ==> str_upper(#[trigger] ps[j].0@) != u
        } else {
            t == before.cell_at(r, c)->0.text
        }
    } by {
        assert(before.rows_view().contains_key(r));
        assert(before.rows_view()[r].cells.contains_key(c));
        let y = before.cell_at(r, c)->0;
        lemma_param_text(ps, str_upper(y.parameter));
    }
}

/// A row of the text export keeps every column in its place: for a row
/// whose last cell is in column `last`, the line is the texts of columns
/// `0..=last` with a tab between each two, a column without a cell giving
/// an empty field.
pub proof fn law_text_line_keeps_columns(doc: &SpreadDocData, r: u32, last: u32)
    requires
        doc.wf(),
        doc.cell_at(r, last) is Some,
        forall|c: u32| c > last ==> (#[trigger] doc.cell_at(r, c)) is None,
    ensures
        txt_line(doc, r) == crate::format::join(
            Seq::new((last + 1) as nat, |c: int| doc.cell_or_blank(r, c as u32).text),
            "\t"@,
        ),
{
    let rows = doc.rows@;
    assert(doc.rows_view().contains_key(r));
    assert(as_map(rows).contains_key(r));
    let i = crate::keyed::lemma_index_of(rows, r);
    let row = as_map(rows)[r];
    assert(row == rows[i].1);
    assert(row.wf());
    let cells = row.cells@;
    assert(doc.rows_view()[r] == row@);
    assert(row@.cells.contains_key(last));
    assert(as_map(cells).contains_key(last));
    let k = crate::keyed::lemma_index_of(cells, last);
    let top = cells[cells.len() - 1].0;
    crate::keyed::lemma_at(cells, cells.len() - 1);
    assert(row@.cells.contains_key(top));
    assert(doc.cell_at(r, top) is Some);
    if k < cells.len() - 1 {
        assert(cells[k].0 < cells[cells.len() - 1].0);
    }
    assert(crate::mxl_write::last_col(row) == last);
}

/// A font the writer puts down reads back as itself: the font record
/// parses into one group, and the font read from that group is the font
/// written, weight 700 read as bold and 400 as regular.
pub proof fn law_font_record_reads_back(f: FontView, s: Seq<char>, i: int, g: Seq<Node>)
    requires
        i64::MIN <= f.size * 10 <= i64::MAX,
        at(s, i, crate::records::font_text(f)),
        trees(g) == font_nodes(f),
    ensures
        group_from(s, i + 1, Seq::empty(), Seq::empty()) == Ok::<(Seq<NodeView>, int), ReadError>(
            (font_nodes(f), i + crate::records::font_text(f).len()),
        ),
        crate::mxl_read::font_of(g) == Ok::<FontView, ReadError>(f),
{
    lemma_font_text(s, i, f);
    lemma_font_of(g, f);
}

} // verus!
