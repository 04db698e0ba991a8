//! How the parser takes apart the pieces of text the writer puts down:
//! tokens, flat records, quoted strings and blank space between them.

use vstd::prelude::*;
use crate::format::join;
use crate::laws::law_integer_reads_back;
use crate::lexer::{flushed, group_from, is_digit, is_ws, lstrip, rstrip, tree, trees, unquoted_from, Node, NodeView, ReadError};
use crate::model::{AreaKind, FontView, Merge, NamedArea, PageMargins, RowGroup};
use crate::mxl_read::{
    area_of, body_area, clamp0_spec, group_at_spec, item_group, names_after, names_from, names_section, node_number,
    node_text, num_at_spec, text_at_spec, row_group_of, groups_from, item_number, page_pair, page_pairs_from, page_section, print_area_of, PageView, col_merge_of, merge_of,
    merges_from, merges_section, node_group, opt_seq, pairs_from, row_merge_of,
};
use crate::names::{has_name, lemma_lt_irreflexive, lemma_name_at, names_map, names_sorted, seq_lt};
use crate::records::{area_text, flag, font_flags, font_head, font_text, group_name_text, group_text, kind_code};
use crate::layout::groups_text;
use crate::tail::{
    col_merge_rec, list_text, merge_rec, merge_recs, merges_text, name_rec, names_text, page_pairs, page_rec, page_text,
    pair_recs, print_area_text, row_merge_rec,
};
use crate::sorting::{sort_merges, sort_pairs};
use crate::text::{doubled, quote, spec_digits, spec_int};

verus! {

/// A character that can stand in an atom.
pub open spec fn atom_char(c: char) -> bool {
    c != '{' && c != '}' && c != ',' && c != '"' && !is_ws(c)
}

/// A nonempty run of atom characters.
pub open spec fn is_token(t: Seq<char>) -> bool {
    t.len() > 0 && forall|k: int| 0 <= k < t.len() ==> atom_char(#[trigger] t[k])
}

/// Nothing but spaces.
pub open spec fn blank(a: Seq<char>) -> bool {
    forall|k: int| 0 <= k < a.len() ==> #[trigger] a[k] == ' '
}

pub open spec fn atoms(ts: Seq<Seq<char>>) -> Seq<NodeView> {
    ts.map_values(|t: Seq<char>| NodeView::Atom(t))
}

proof fn lemma_rstrip_token(t: Seq<char>)
    requires
        is_token(t),
    ensures
        rstrip(t) == t,
{
    assert(t.last() == t[t.len() - 1]);
}

proof fn lemma_strip_token(t: Seq<char>)
    requires
        is_token(t),
    ensures
        rstrip(lstrip(t)) == t,
{
    assert(t[0] != ' ');
    lemma_rstrip_token(t);
}

proof fn lemma_lstrip_blank(a: Seq<char>)
    requires
        blank(a),
    ensures
        lstrip(a).len() == 0,
    decreases a.len(),
{
    if a.len() > 0 {
        assert(a[0] == ' ');
        assert forall|k: int| 0 <= k < a.drop_first().len() implies #[trigger] a.drop_first()[k] == ' ' by {
            assert(a.drop_first()[k] == a[k + 1]);
        }
        lemma_lstrip_blank(a.drop_first());
    }
}

proof fn lemma_rstrip_empty(a: Seq<char>)
    requires
        a.len() == 0,
    ensures
        rstrip(a).len() == 0,
{
}

/// A blank atom leaves no item behind.
pub proof fn lemma_flush_blank(items: Seq<NodeView>, a: Seq<char>)
    requires
        blank(a),
    ensures
        flushed(items, a) == items,
{
    lemma_lstrip_blank(a);
    lemma_rstrip_empty(lstrip(a));
}

/// A token becomes one atom.
pub proof fn lemma_flush_token(items: Seq<NodeView>, t: Seq<char>)
    requires
        is_token(t),
    ensures
        flushed(items, t) == items.push(NodeView::Atom(t)),
{
    lemma_strip_token(t);
}

/// The characters of a token go into the atom being read.
pub proof fn lemma_token_chars(s: Seq<char>, i: int, j: int, items: Seq<NodeView>, atom: Seq<char>)
    requires
        0 <= i <= j <= s.len(),
        forall|k: int| i <= k < j ==> atom_char(#[trigger] s[k]),
    ensures
        group_from(s, i, items, atom) == group_from(s, j, items, atom + s.subrange(i, j)),
    decreases j - i,
{
    if i < j {
        let c = s[i];
        assert(atom_char(c));
        assert(group_from(s, i, items, atom) == group_from(s, i + 1, items, atom.push(c)));
        lemma_token_chars(s, i + 1, j, items, atom.push(c));
        assert(atom.push(c) + s.subrange(i + 1, j) =~= atom + s.subrange(i, j));
    } else {
        assert(atom + s.subrange(i, i) =~= atom);
    }
}

/// A token at `i`, then a comma.
pub proof fn lemma_token_comma(s: Seq<char>, i: int, t: Seq<char>, items: Seq<NodeView>)
    requires
        is_token(t),
        0 <= i,
        i + t.len() < s.len(),
        s.subrange(i, i + t.len()) == t,
        s[i + t.len()] == ',',
    ensures
        group_from(s, i, items, Seq::empty()) == group_from(s, i + t.len() + 1, items.push(NodeView::Atom(t)), Seq::empty()),
{
    assert forall|k: int| i <= k < i + t.len() implies atom_char(#[trigger] s[k]) by {
        assert(s[k] == t[k - i]);
    }
    lemma_token_chars(s, i, i + t.len(), items, Seq::empty());
    assert(Seq::<char>::empty() + t =~= t);
    lemma_flush_token(items, t);
}

/// A token at `i`, then the closing brace of its group.
pub proof fn lemma_token_close(s: Seq<char>, i: int, t: Seq<char>, items: Seq<NodeView>)
    requires
        is_token(t),
        0 <= i,
        i + t.len() < s.len(),
        s.subrange(i, i + t.len()) == t,
        s[i + t.len()] == '}',
    ensures
        group_from(s, i, items, Seq::empty()) == Ok::<(Seq<NodeView>, int), crate::lexer::ReadError>(
            (items.push(NodeView::Atom(t)), i + t.len() + 1),
        ),
{
    assert forall|k: int| i <= k < i + t.len() implies atom_char(#[trigger] s[k]) by {
        assert(s[k] == t[k - i]);
    }
    lemma_token_chars(s, i, i + t.len(), items, Seq::empty());
    assert(Seq::<char>::empty() + t =~= t);
    lemma_flush_token(items, t);
}

/// White space adds a space to a blank atom.
pub proof fn lemma_space(s: Seq<char>, i: int, items: Seq<NodeView>, atom: Seq<char>)
    requires
        0 <= i < s.len(),
        is_ws(s[i]),
        blank(atom),
    ensures
        group_from(s, i, items, atom) == group_from(s, i + 1, items, atom.push(' ')),
        blank(atom.push(' ')),
{
    assert(s[i] != '{' && s[i] != '}' && s[i] != ',' && s[i] != '"');
}

/// A comma after a blank atom.
pub proof fn lemma_comma(s: Seq<char>, i: int, items: Seq<NodeView>, atom: Seq<char>)
    requires
        0 <= i < s.len(),
        s[i] == ',',
        blank(atom),
    ensures
        group_from(s, i, items, atom) == group_from(s, i + 1, items, Seq::empty()),
{
    lemma_flush_blank(items, atom);
}

/// A closing brace after a blank atom ends the group.
pub proof fn lemma_close(s: Seq<char>, i: int, items: Seq<NodeView>, atom: Seq<char>)
    requires
        0 <= i < s.len(),
        s[i] == '}',
        blank(atom),
    ensures
        group_from(s, i, items, atom) == Ok::<(Seq<NodeView>, int), crate::lexer::ReadError>((items, i + 1)),
{
    lemma_flush_blank(items, atom);
}

/// A nested group after a blank atom.
pub proof fn lemma_open(s: Seq<char>, i: int, items: Seq<NodeView>, atom: Seq<char>, g: Seq<NodeView>, e: int)
    requires
        0 <= i < s.len(),
        s[i] == '{',
        blank(atom),
        group_from(s, i + 1, Seq::empty(), Seq::empty()) == Ok::<(Seq<NodeView>, int), crate::lexer::ReadError>((g, e)),
        i < e <= s.len(),
    ensures
        group_from(s, i, items, atom) == group_from(s, e, items.push(NodeView::Group(g)), Seq::empty()),
{
    lemma_flush_blank(items, atom);
}

pub proof fn lemma_doubled_concat(a: Seq<char>, b: Seq<char>)
    ensures
        doubled(a + b) == doubled(a) + doubled(b),
    decreases b.len(),
{
    if b.len() == 0 {
        assert(a + b =~= a);
        assert(doubled(a) + doubled(b) =~= doubled(a));
    } else {
        assert((a + b).drop_last() =~= a + b.drop_last());
        assert((a + b).last() == b.last());
        lemma_doubled_concat(a, b.drop_last());
        if b.last() == '"' {
            assert(doubled(a) + doubled(b.drop_last()) + seq!['"', '"'] =~= doubled(a) + (doubled(b.drop_last())
                + seq!['"', '"']));
        } else {
            assert((doubled(a) + doubled(b.drop_last())).push(b.last()) =~= doubled(a) + doubled(
                b.drop_last(),
            ).push(b.last()));
        }
    }
}

/// A string with its quotes doubled, then a closing quote, reads back as
/// itself, whatever came before it and whatever but a quote follows.
pub proof fn lemma_unquote_doubled(pre: Seq<char>, t: Seq<char>, rest: Seq<char>)
    requires
        rest.len() == 0 || rest[0] != '"',
    ensures
        unquoted_from(pre + doubled(t) + seq!['"'] + rest, pre.len() as int) == Some(
            (t, (pre.len() + doubled(t).len() + 1) as int),
        ),
    decreases t.len(),
{
    let s = pre + doubled(t) + seq!['"'] + rest;
    let p = pre.len() as int;
    if t.len() == 0 {
        assert(doubled(t) =~= Seq::<char>::empty());
        assert(s[p] == '"');
        if p + 1 < s.len() {
            assert(s[p + 1] == rest[0]);
        }
    } else {
        let c = t[0];
        let u = t.drop_first();
        assert(t =~= seq![c] + u);
        lemma_doubled_concat(seq![c], u);
        assert(seq![c].drop_last() =~= Seq::<char>::empty());
        assert(seq![c].last() == c);
        assert(doubled(Seq::<char>::empty()) =~= Seq::<char>::empty());
        if c == '"' {
            assert(doubled(seq![c]) =~= seq!['"', '"']);
            let pre2 = pre + seq!['"', '"'];
            lemma_unquote_doubled(pre2, u, rest);
            assert(pre2 + doubled(u) + seq!['"'] + rest =~= s);
            assert(s[p] == '"');
            assert(s[p + 1] == '"');
            assert(seq!['"'] + u =~= t);
        } else {
            assert(doubled(seq![c]) =~= seq![c]);
            let pre2 = pre + seq![c];
            lemma_unquote_doubled(pre2, u, rest);
            assert(pre2 + doubled(u) + seq!['"'] + rest =~= s);
            assert(s[p] == c);
            assert(seq![c] + u =~= t);
        }
    }
}

/// A quoted string after a blank atom becomes one text item.
pub proof fn lemma_quoted(s: Seq<char>, i: int, t: Seq<char>, items: Seq<NodeView>, atom: Seq<char>)
    requires
        0 <= i,
        i + quote(t).len() < s.len(),
        s.subrange(i, i + quote(t).len()) == quote(t),
        s[i + quote(t).len()] != '"',
        blank(atom),
    ensures
        group_from(s, i, items, atom) == group_from(s, i + quote(t).len(), items.push(NodeView::Text(t)), Seq::empty()),
{
    let q = quote(t);
    let pre = s.subrange(0, i + 1);
    let rest = s.subrange(i + q.len(), s.len() as int);
    assert(s =~= pre + doubled(t) + seq!['"'] + rest) by {
        assert(s =~= s.subrange(0, i) + q + rest);
    }
    assert(rest[0] == s[i + q.len()]);
    lemma_unquote_doubled(pre, t, rest);
    assert(s[i] == q[0]);
    lemma_flush_blank(items, atom);
}

// --- tokens the writer puts down -----------------------------------------------------

proof fn lemma_digits_token(m: nat)
    ensures
        is_token(spec_digits(m)),
    decreases m,
{
    let d = spec_digits(m);
    if m >= 10 {
        lemma_digits_token(m / 10);
    }
    assert forall|k: int| 0 <= k < d.len() implies atom_char(#[trigger] d[k]) by {
        crate::laws::lemma_digits_are_digits(m);
        assert(is_digit(d[k]));
    }
}

/// A whole number written out is a token.
pub proof fn lemma_int_token(n: int)
    ensures
        is_token(spec_int(n)),
{
    if n < 0 {
        let d = spec_digits((-n) as nat);
        lemma_digits_token((-n) as nat);
        let s = seq!['-'] + d;
        assert forall|k: int| 0 <= k < s.len() implies atom_char(#[trigger] s[k]) by {
            if k > 0 {
                assert(s[k] == d[k - 1]);
            }
        }
    } else {
        lemma_digits_token(n as nat);
    }
}

/// `join` read from the front: the first part, the separator, the rest.
pub proof fn lemma_join_front(ts: Seq<Seq<char>>, sep: Seq<char>)
    requires
        ts.len() >= 2,
    ensures
        join(ts, sep) == ts[0] + sep + join(ts.drop_first(), sep),
    decreases ts.len(),
{
    if ts.len() == 2 {
        assert(ts.drop_last() =~= seq![ts[0]]);
        assert(ts.drop_first() =~= seq![ts[1]]);
        assert(join(ts.drop_last(), sep) == ts[0]);
        assert(join(ts.drop_first(), sep) == ts[1]);
    } else {
        lemma_join_front(ts.drop_last(), sep);
        assert(ts.drop_last().drop_first() =~= ts.drop_first().drop_last());
        assert(ts.drop_first().last() == ts.last());
        assert(ts.drop_last()[0] == ts[0]);
        assert(join(ts.drop_first(), sep) == join(ts.drop_first().drop_last(), sep) + sep + ts.drop_first().last());
        assert(ts[0] + sep + join(ts.drop_last().drop_first(), sep) + sep + ts.last() =~= ts[0] + sep + (join(
            ts.drop_first().drop_last(),
            sep,
        ) + sep + ts.drop_first().last()));
    }
}

/// Tokens with commas between them and a closing brace after them read as
/// their atoms, and the group ends after the brace.
pub proof fn lemma_tokens(s: Seq<char>, i: int, ts: Seq<Seq<char>>, items: Seq<NodeView>)
    requires
        ts.len() > 0,
        forall|k: int| 0 <= k < ts.len() ==> is_token(#[trigger] ts[k]),
        0 <= i,
        i + join(ts, ","@).len() < s.len(),
        s.subrange(i, i + join(ts, ","@).len() + 1) == join(ts, ","@) + "}"@,
    ensures
        group_from(s, i, items, Seq::empty()) == Ok::<(Seq<NodeView>, int), crate::lexer::ReadError>(
            (items + atoms(ts), i + join(ts, ","@).len() + 1),
        ),
    decreases ts.len(),
{
    reveal_strlit(",");
    reveal_strlit("}");
    let j = join(ts, ","@);
    let t = ts[0];
    if ts.len() == 1 {
        assert(j == t);
        assert(s.subrange(i, i + t.len()) =~= t) by {
            assert forall|k: int| 0 <= k < t.len() implies s.subrange(i, i + t.len())[k] == t[k] by {
                assert(s.subrange(i, i + j.len() + 1)[k] == (j + "}"@)[k]);
            }
        }
        assert(s[i + t.len()] == (j + "}"@)[t.len() as int]);
        lemma_token_close(s, i, t, items);
        assert(items.push(NodeView::Atom(t)) =~= items + atoms(ts));
    } else {
        let rest = ts.drop_first();
        lemma_join_front(ts, ","@);
        let jr = join(rest, ","@);
        assert(j == t + ","@ + jr);
        assert(s.subrange(i, i + t.len()) =~= t) by {
            assert forall|k: int| 0 <= k < t.len() implies s.subrange(i, i + t.len())[k] == t[k] by {
                assert(s.subrange(i, i + j.len() + 1)[k] == (j + "}"@)[k]);
            }
        }
        assert(s[i + t.len()] == ',') by {
            assert(s.subrange(i, i + j.len() + 1)[t.len() as int] == (j + "}"@)[t.len() as int]);
        }
        lemma_token_comma(s, i, t, items);
        let i2 = i + t.len() + 1;
        assert(s.subrange(i2, i2 + jr.len() + 1) =~= jr + "}"@) by {
            assert forall|k: int| 0 <= k < jr.len() + 1 implies s.subrange(i2, i2 + jr.len() + 1)[k] == (jr + "}"@)[k] by {
                assert(s.subrange(i, i + j.len() + 1)[t.len() + 1 + k] == (j + "}"@)[t.len() + 1 + k]);
            }
        }
        assert forall|k: int| 0 <= k < rest.len() implies is_token(#[trigger] rest[k]) by {
            assert(rest[k] == ts[k + 1]);
        }
        lemma_tokens(s, i2, rest, items.push(NodeView::Atom(t)));
        assert(items.push(NodeView::Atom(t)) + atoms(rest) =~= items + atoms(ts));
    }
}

// --- splitting what the writer put down ---------------------------------------------

/// What stands at `i` of `s`.
pub open spec fn at(s: Seq<char>, i: int, x: Seq<char>) -> bool {
    0 <= i && i + x.len() <= s.len() && s.subrange(i, i + x.len()) == x
}

pub proof fn lemma_split(s: Seq<char>, i: int, x: Seq<char>, y: Seq<char>)
    requires
        at(s, i, x + y),
    ensures
        at(s, i, x),
        at(s, i + x.len(), y),
{
    assert(s.subrange(i, i + x.len()) =~= x) by {
        assert forall|k: int| 0 <= k < x.len() implies s.subrange(i, i + x.len())[k] == x[k] by {
            assert(s.subrange(i, i + (x + y).len())[k] == (x + y)[k]);
        }
    }
    assert(s.subrange(i + x.len(), i + x.len() + y.len()) =~= y) by {
        assert forall|k: int| 0 <= k < y.len() implies s.subrange(i + x.len(), i + x.len() + y.len())[k] == y[k] by {
            assert(s.subrange(i, i + (x + y).len())[x.len() + k] == (x + y)[x.len() + k]);
        }
    }
}

pub proof fn lemma_at_char(s: Seq<char>, i: int, x: Seq<char>, k: int)
    requires
        at(s, i, x),
        0 <= k < x.len(),
    ensures
        s[i + k] == x[k],
{
    assert(s.subrange(i, i + x.len())[k] == x[k]);
}

// --- named areas ---------------------------------------------------------------------

pub open spec fn guid() -> Seq<char> {
    "00000000-0000-0000-0000-000000000000"@
}

/// The bounds of an area as written: kind, then the bounds column first,
/// the axis that does not count as -1, then an empty id.
pub open spec fn area_tokens(a: NamedArea) -> Seq<Seq<char>> {
    let c1: int = if a.kind == AreaKind::Rows { -1 } else { a.c1 as int };
    let c2: int = if a.kind == AreaKind::Rows { -1 } else { a.c2 as int };
    let r1: int = if a.kind == AreaKind::Columns { -1 } else { a.r1 as int };
    let r2: int = if a.kind == AreaKind::Columns { -1 } else { a.r2 as int };
    seq![spec_int(kind_code(a.kind)), spec_int(c1), spec_int(r1), spec_int(c2), spec_int(r2), guid()]
}

proof fn lemma_area_tokens(a: NamedArea)
    ensures
        area_text(a) == join(area_tokens(a), ","@),
        forall|k: int| 0 <= k < area_tokens(a).len() ==> is_token(#[trigger] area_tokens(a)[k]),
{
    reveal_strlit(",");
    reveal_strlit(",00000000-0000-0000-0000-000000000000");
    reveal_strlit("00000000-0000-0000-0000-000000000000");
    let ts = area_tokens(a);
    reveal_with_fuel(join, 7);
    assert(ts.drop_last() =~= seq![ts[0], ts[1], ts[2], ts[3], ts[4]]);
    assert(ts.drop_last().drop_last() =~= seq![ts[0], ts[1], ts[2], ts[3]]);
    assert(ts.drop_last().drop_last().drop_last() =~= seq![ts[0], ts[1], ts[2]]);
    assert(ts.drop_last().drop_last().drop_last().drop_last() =~= seq![ts[0], ts[1]]);
    assert(ts.drop_last().drop_last().drop_last().drop_last().drop_last() =~= seq![ts[0]]);
    assert(","@ + guid() =~= ",00000000-0000-0000-0000-000000000000"@);
    assert(join(ts, ","@) =~= area_text(a));
    assert forall|k: int| 0 <= k < ts.len() implies is_token(#[trigger] ts[k]) by {
        if k == 0 {
            lemma_int_token(kind_code(a.kind));
        } else if k == 1 {
            lemma_int_token(if a.kind == AreaKind::Rows { -1 } else { a.c1 as int });
        } else if k == 2 {
            lemma_int_token(if a.kind == AreaKind::Columns { -1 } else { a.r1 as int });
        } else if k == 3 {
            lemma_int_token(if a.kind == AreaKind::Rows { -1 } else { a.c2 as int });
        } else if k == 4 {
            lemma_int_token(if a.kind == AreaKind::Columns { -1 } else { a.r2 as int });
        } else {
            assert forall|j: int| 0 <= j < guid().len() implies atom_char(#[trigger] guid()[j]) by {
            }
        }
    }
}

/// The body of a named area as written: `1`, the area record, `0`.
pub open spec fn body_text(a: NamedArea) -> Seq<char> {
    "{1,\n{"@ + area_text(a) + "},0}"@
}

pub open spec fn body_nodes(a: NamedArea) -> Seq<NodeView> {
    seq![NodeView::Atom("1"@), NodeView::Group(atoms(area_tokens(a))), NodeView::Atom("0"@)]
}

proof fn lemma_one_char(s: Seq<char>, i: int, c: char)
    requires
        0 <= i < s.len(),
        s[i] == c,
    ensures
        s.subrange(i, i + 1) == seq![c],
{
    assert(s.subrange(i, i + 1) =~= seq![c]);
}

/// The body of a named area parses into its three items.
pub proof fn lemma_body(s: Seq<char>, q: int, a: NamedArea)
    requires
        at(s, q, body_text(a)),
    ensures
        group_from(s, q + 1, Seq::empty(), Seq::empty()) == Ok::<(Seq<NodeView>, int), crate::lexer::ReadError>(
            (body_nodes(a), q + body_text(a).len()),
        ),
{
    reveal_strlit("{1,\n{");
    reveal_strlit("},0}");
    reveal_strlit("1");
    reveal_strlit("0");
    reveal_strlit("}");
    reveal_strlit(",0}");
    let head = "{1,\n{"@;
    let x = area_text(a);
    let tail = "},0}"@;
    let ts = area_tokens(a);
    lemma_area_tokens(a);
    assert(body_text(a) == head + (x + tail));
    lemma_split(s, q, head, x + tail);
    assert(x + tail =~= (x + "}"@) + ",0}"@);
    lemma_split(s, q + 5, x + "}"@, ",0}"@);
    let n = x.len() as int;
    lemma_at_char(s, q, head, 1);
    lemma_at_char(s, q, head, 2);
    lemma_at_char(s, q, head, 3);
    lemma_at_char(s, q, head, 4);
    lemma_at_char(s, q + 5, x + tail, n + 1);
    lemma_at_char(s, q + 5, x + tail, n + 2);
    lemma_at_char(s, q + 5, x + tail, n + 3);
    let empty = Seq::<NodeView>::empty();
    let a1 = NodeView::Atom("1"@);
    let a0 = NodeView::Atom("0"@);
    let g = NodeView::Group(atoms(ts));
    lemma_one_char(s, q + 1, '1');
    assert("1"@ =~= seq!['1']);
    assert(is_token("1"@));
    lemma_token_comma(s, q + 1, "1"@, empty);
    assert(empty.push(a1) == seq![a1]);
    lemma_space(s, q + 3, seq![a1], Seq::empty());
    lemma_tokens(s, q + 5, ts, empty);
    assert(empty + atoms(ts) =~= atoms(ts));
    lemma_open(s, q + 4, seq![a1], seq![' '], atoms(ts), q + 5 + n + 1);
    lemma_comma(s, q + 6 + n, seq![a1, g], Seq::empty());
    assert(seq![a1].push(g) =~= seq![a1, g]);
    lemma_one_char(s, q + 7 + n, '0');
    assert("0"@ =~= seq!['0']);
    assert(is_token("0"@));
    lemma_token_close(s, q + 7 + n, "0"@, seq![a1, g]);
    assert(seq![a1, g].push(a0) =~= body_nodes(a));
}

/// A name record as written: the quoted name, then the body.
pub proof fn lemma_name_record(s: Seq<char>, i: int, name: Seq<char>, a: NamedArea, items: Seq<NodeView>)
    requires
        at(s, i, quote(name) + ",\n"@ + body_text(a)),
    ensures
        group_from(s, i, items, Seq::empty()) == group_from(
            s,
            i + (quote(name) + ",\n"@ + body_text(a)).len(),
            items + seq![NodeView::Text(name), NodeView::Group(body_nodes(a))],
            Seq::empty(),
        ),
{
    reveal_strlit(",\n");
    let qn = quote(name);
    let b = body_text(a);
    lemma_split(s, i, qn + ",\n"@, b);
    lemma_split(s, i, qn, ",\n"@);
    let j = i + qn.len();
    lemma_at_char(s, j, ",\n"@, 0);
    lemma_at_char(s, j, ",\n"@, 1);
    lemma_quoted(s, i, name, items, Seq::empty());
    let it1 = items.push(NodeView::Text(name));
    lemma_comma(s, j, it1, Seq::empty());
    lemma_space(s, j + 1, it1, Seq::empty());
    lemma_body(s, j + 2, a);
    reveal_strlit("{1,\n{");
    lemma_at_char(s, j + 2, b, 0);
    lemma_open(s, j + 2, it1, seq![' '], body_nodes(a), j + 2 + b.len());
    assert(it1.push(NodeView::Group(body_nodes(a))) =~= items + seq![NodeView::Text(name), NodeView::Group(body_nodes(a))]);
}

/// The items of the name records: a text and a body group for each name.
pub open spec fn pairs_nodes(ns: Seq<(String, NamedArea)>) -> Seq<NodeView>
    decreases ns.len(),
{
    if ns.len() == 0 {
        Seq::empty()
    } else {
        seq![NodeView::Text(ns[0].0@), NodeView::Group(body_nodes(ns[0].1))] + pairs_nodes(ns.drop_first())
    }
}

/// The items of the names group: the count, then the name records.
pub open spec fn names_nodes(ns: Seq<(String, NamedArea)>) -> Seq<NodeView> {
    seq![NodeView::Atom(spec_int(ns.len() as int))] + pairs_nodes(ns)
}

pub open spec fn name_recs(ns: Seq<(String, NamedArea)>) -> Seq<Seq<char>> {
    Seq::new(ns.len(), |i: int| name_rec(ns[i]))
}

proof fn lemma_name_rec_parts(n: (String, NamedArea))
    ensures
        name_rec(n) == quote(n.0@) + ",\n"@ + body_text(n.1),
{
    reveal_strlit(",\n{1,\n{");
    reveal_strlit(",\n");
    reveal_strlit("{1,\n{");
    assert(name_rec(n) =~= quote(n.0@) + ",\n"@ + body_text(n.1));
}

/// The name records with commas between them, then a line break and the
/// closing brace of the names group.
proof fn lemma_name_list(s: Seq<char>, i: int, ns: Seq<(String, NamedArea)>, items: Seq<NodeView>)
    requires
        ns.len() > 0,
        at(s, i, join(name_recs(ns), ","@) + "\n}"@),
    ensures
        group_from(s, i, items, Seq::empty()) == Ok::<(Seq<NodeView>, int), crate::lexer::ReadError>(
            (items + pairs_nodes(ns), i + join(name_recs(ns), ","@).len() + 2),
        ),
    decreases ns.len(),
{
    reveal_strlit("\n}");
    reveal_strlit(",");
    let recs = name_recs(ns);
    let r0 = recs[0];
    lemma_name_rec_parts(ns[0]);
    let pair = seq![NodeView::Text(ns[0].0@), NodeView::Group(body_nodes(ns[0].1))];
    if ns.len() == 1 {
        assert(join(recs, ","@) == r0);
        lemma_split(s, i, r0, "\n}"@);
        lemma_name_record(s, i, ns[0].0@, ns[0].1, items);
        lemma_at_char(s, i + r0.len(), "\n}"@, 0);
        lemma_at_char(s, i + r0.len(), "\n}"@, 1);
        lemma_space(s, i + r0.len(), items + pair, Seq::empty());
        lemma_close(s, i + r0.len() + 1, items + pair, seq![' ']);
        assert(pairs_nodes(ns.drop_first()) =~= Seq::<NodeView>::empty());
        assert(items + pair =~= items + pairs_nodes(ns));
    } else {
        let rest = ns.drop_first();
        lemma_join_front(recs, ","@);
        assert(recs.drop_first() =~= name_recs(rest));
        let jr = join(name_recs(rest), ","@);
        assert(join(recs, ","@) + "\n}"@ =~= r0 + (","@ + (jr + "\n}"@)));
        lemma_split(s, i, r0, ","@ + (jr + "\n}"@));
        lemma_split(s, i + r0.len(), ","@, jr + "\n}"@);
        lemma_name_record(s, i, ns[0].0@, ns[0].1, items);
        lemma_at_char(s, i + r0.len(), ","@, 0);
        lemma_comma(s, i + r0.len(), items + pair, Seq::empty());
        lemma_name_list(s, i + r0.len() + 1, rest, items + pair);
        assert((items + pair) + pairs_nodes(rest) =~= items + pairs_nodes(ns));
    }
}

/// The names section as the writer puts it down parses into the names
/// group and an empty string, and leaves a blank atom behind.
pub proof fn lemma_names_text(s: Seq<char>, i: int, ns: Seq<(String, NamedArea)>, acc: Seq<NodeView>)
    requires
        at(s, i, names_text(ns)),
    ensures
        group_from(s, i, acc, Seq::empty()) == group_from(
            s,
            i + names_text(ns).len(),
            acc + seq![NodeView::Group(names_nodes(ns)), NodeView::Text(Seq::empty())],
            seq![' '],
        ),
{
    reveal_strlit("{0},\"\",\n");
    reveal_strlit("}");
    reveal_strlit("{");
    reveal_strlit(",");
    reveal_strlit("\n},\"\",\n");
    reveal_strlit("\n}");
    reveal_strlit(",\"\",\n");
    let t = names_text(ns);
    let tail = ",\"\",\n"@;
    let n = spec_int(ns.len() as int);
    lemma_int_token(ns.len() as int);
    let g: Seq<NodeView>;
    let e: int;
    if ns.len() == 0 {
        assert(n =~= seq!['0']);
        assert(t =~= "{"@ + (n + ("}"@ + tail)));
        lemma_split(s, i, "{"@, n + ("}"@ + tail));
        lemma_split(s, i + 1, n, "}"@ + tail);
        lemma_split(s, i + 2, "}"@, tail);
        lemma_at_char(s, i + 2, "}"@, 0);
        lemma_token_close(s, i + 1, n, Seq::empty());
        g = seq![NodeView::Atom(n)];
        e = i + 3;
        assert(Seq::<NodeView>::empty().push(NodeView::Atom(n)) =~= g);
        assert(names_nodes(ns) =~= g);
    } else {
        let j = join(name_recs(ns), ","@);
        assert(t =~= "{"@ + (n + (","@ + ((j + "\n}"@) + tail))));
        lemma_split(s, i, "{"@, n + (","@ + ((j + "\n}"@) + tail)));
        lemma_split(s, i + 1, n, ","@ + ((j + "\n}"@) + tail));
        lemma_split(s, i + 1 + n.len(), ","@, (j + "\n}"@) + tail);
        lemma_split(s, i + 2 + n.len(), j + "\n}"@, tail);
        lemma_at_char(s, i + 1 + n.len(), ","@, 0);
        lemma_token_comma(s, i + 1, n, Seq::empty());
        lemma_name_list(s, i + 2 + n.len(), ns, seq![NodeView::Atom(n)]);
        g = seq![NodeView::Atom(n)] + pairs_nodes(ns);
        e = i + 2 + n.len() + j.len() + 2;
        assert(Seq::<NodeView>::empty().push(NodeView::Atom(n)) =~= seq![NodeView::Atom(n)]);
    }
    assert(g == names_nodes(ns));
    assert(at(s, e, tail));
    lemma_at_char(s, i, t, 0);
    lemma_open(s, i, acc, Seq::empty(), g, e);
    let acc1 = acc.push(NodeView::Group(g));
    lemma_at_char(s, e, tail, 0);
    lemma_at_char(s, e, tail, 3);
    lemma_at_char(s, e, tail, 4);
    lemma_comma(s, e, acc1, Seq::empty());
    reveal_strlit("\"\"");
    assert(quote(Seq::<char>::empty()) =~= seq!['"', '"']) by {
        assert(crate::text::doubled(Seq::<char>::empty()) =~= Seq::<char>::empty());
    }
    assert(s.subrange(e + 1, e + 3) =~= quote(Seq::<char>::empty())) by {
        lemma_at_char(s, e, tail, 1);
        lemma_at_char(s, e, tail, 2);
    }
    lemma_quoted(s, e + 1, Seq::empty(), acc1, Seq::empty());
    let acc2 = acc1.push(NodeView::Text(Seq::empty()));
    lemma_comma(s, e + 3, acc2, Seq::empty());
    lemma_space(s, e + 4, acc2, Seq::empty());
    assert(acc2 =~= acc + seq![NodeView::Group(names_nodes(ns)), NodeView::Text(Seq::empty())]);
    assert(i + t.len() == e + 5);
}

// --- reading the names back -----------------------------------------------------------

/// The trees of a list, one by one.
pub proof fn lemma_trees_index(s: Seq<Node>)
    ensures
        trees(s).len() == s.len(),
        forall|k: int| 0 <= k < s.len() ==> #[trigger] trees(s)[k] == tree(s[k]),
    decreases s.len(),
{
    if s.len() > 0 {
        let p = s.subrange(0, s.len() - 1);
        lemma_trees_index(p);
        assert forall|k: int| 0 <= k < s.len() implies #[trigger] trees(s)[k] == tree(s[k]) by {
            if k < s.len() - 1 {
                assert(p[k] == s[k]);
            }
        }
    }
}

/// A node whose tree is a written number reads as that number.
proof fn lemma_atom_number(n: Node, x: int)
    requires
        tree(n) == NodeView::Atom(spec_int(x)),
        i64::MIN <= x <= i64::MAX,
    ensures
        node_number(n) == Ok::<i64, ReadError>(x as i64),
{
    law_integer_reads_back(x as i64);
    match n {
        Node::Atom(t) => {},
        Node::Group(v) => {},
        Node::Text(t) => {},
    }
}

/// A node whose tree is a group holds a group with those trees.
proof fn lemma_group_node(n: Node, g: Seq<NodeView>)
    requires
        tree(n) == NodeView::Group(g),
    ensures
        exists|v: Vec<Node>| n == Node::Group(v) && #[trigger] trees(v@) == g,
{
    match n {
        Node::Group(v) => {
            assert(trees(v@) == g);
        },
        Node::Atom(t) => {},
        Node::Text(t) => {},
    }
}

/// An area as it reads back: the axis that does not count is 0.
pub open spec fn normal_area(a: NamedArea) -> NamedArea {
    NamedArea {
        kind: a.kind,
        r1: if a.kind == AreaKind::Columns { 0 } else { a.r1 },
        c1: if a.kind == AreaKind::Rows { 0 } else { a.c1 },
        r2: if a.kind == AreaKind::Columns { 0 } else { a.r2 },
        c2: if a.kind == AreaKind::Rows { 0 } else { a.c2 },
    }
}

/// The bounds of an area as written read back as the area.
proof fn lemma_area_of(area: Seq<Node>, a: NamedArea)
    requires
        trees(area) == atoms(area_tokens(a)),
    ensures
        area.len() == 6,
        area_of(area) == Ok::<NamedArea, ReadError>(normal_area(a)),
{
    lemma_trees_index(area);
    let ts = area_tokens(a);
    let c1: int = if a.kind == AreaKind::Rows { -1 } else { a.c1 as int };
    let c2: int = if a.kind == AreaKind::Rows { -1 } else { a.c2 as int };
    let r1: int = if a.kind == AreaKind::Columns { -1 } else { a.r1 as int };
    let r2: int = if a.kind == AreaKind::Columns { -1 } else { a.r2 as int };
    assert(trees(area)[0] == NodeView::Atom(ts[0]));
    assert(trees(area)[1] == NodeView::Atom(ts[1]));
    assert(trees(area)[2] == NodeView::Atom(ts[2]));
    assert(trees(area)[3] == NodeView::Atom(ts[3]));
    assert(trees(area)[4] == NodeView::Atom(ts[4]));
    lemma_atom_number(area[0], kind_code(a.kind));
    lemma_atom_number(area[1], c1);
    lemma_atom_number(area[2], r1);
    lemma_atom_number(area[3], c2);
    lemma_atom_number(area[4], r2);
}

/// The body of a named area as written reads back as its area.
proof fn lemma_body_area(n: Node, a: NamedArea)
    requires
        tree(n) == NodeView::Group(body_nodes(a)),
    ensures
        body_area(n) == Ok::<Option<NamedArea>, ReadError>(Some(normal_area(a))),
{
    lemma_group_node(n, body_nodes(a));
    let v = choose|v: Vec<Node>| n == Node::Group(v) && #[trigger] trees(v@) == body_nodes(a);
    let body = v@;
    lemma_trees_index(body);
    reveal_strlit("1");
    assert(spec_int(1) =~= "1"@);
    assert(trees(body)[0] == NodeView::Atom("1"@));
    lemma_atom_number(body[0], 1);
    assert(num_at_spec(body, 0, 0) == Ok::<i64, ReadError>(1));
    assert(trees(body)[1] == NodeView::Group(atoms(area_tokens(a))));
    lemma_group_node(body[1], atoms(area_tokens(a)));
    let w = choose|w: Vec<Node>| body[1] == Node::Group(w) && #[trigger] trees(w@) == atoms(area_tokens(a));
    lemma_area_of(w@, a);
    assert(group_at_spec(body, 1) == Some(w));
}

/// What the reader makes of the name records: each name with its area.
pub open spec fn entries(ns: Seq<(String, NamedArea)>) -> Seq<(Seq<char>, NamedArea)> {
    Seq::new(ns.len(), |k: int| (ns[k].0@, normal_area(ns[k].1)))
}

/// The name records as written read back as the entries.
proof fn lemma_names_from(list: Seq<Node>, i: int, ns: Seq<(String, NamedArea)>)
    requires
        1 <= i <= list.len(),
        trees(list).subrange(i, list.len() as int) == pairs_nodes(ns),
    ensures
        names_from(list, i) == Ok::<Seq<(Seq<char>, NamedArea)>, ReadError>(entries(ns)),
    decreases ns.len(),
{
    lemma_trees_index(list);
    lemma_pairs_len(ns);
    if ns.len() == 0 {
        assert(entries(ns) =~= Seq::<(Seq<char>, NamedArea)>::empty());
    } else {
        let sub = trees(list).subrange(i, list.len() as int);
        assert(sub[0] == NodeView::Text(ns[0].0@));
        assert(sub[1] == NodeView::Group(body_nodes(ns[0].1)));
        assert(tree(list[i]) == NodeView::Text(ns[0].0@));
        assert(node_text(list[i]) == ns[0].0@) by {
            match list[i] {
                Node::Text(t) => {},
                Node::Atom(t) => {},
                Node::Group(v) => {},
            }
        }
        lemma_body_area(list[i + 1], ns[0].1);
        let rest = ns.drop_first();
        assert(trees(list).subrange(i + 2, list.len() as int) =~= pairs_nodes(rest)) by {
            let pair = seq![NodeView::Text(ns[0].0@), NodeView::Group(body_nodes(ns[0].1))];
            assert(pairs_nodes(ns) == pair + pairs_nodes(rest));
            assert forall|k: int| 0 <= k < pairs_nodes(rest).len() implies trees(list).subrange(
                i + 2,
                list.len() as int,
            )[k] == #[trigger] pairs_nodes(rest)[k] by {
                assert(sub[k + 2] == pairs_nodes(ns)[k + 2]);
                assert((pair + pairs_nodes(rest))[k + 2] == pairs_nodes(rest)[k]);
            }
        }
        lemma_names_from(list, i + 2, rest);
        assert(seq![(ns[0].0@, normal_area(ns[0].1))] + entries(rest) =~= entries(ns));
    }
}

proof fn lemma_pairs_len(ns: Seq<(String, NamedArea)>)
    ensures
        pairs_nodes(ns).len() == 2 * ns.len(),
    decreases ns.len(),
{
    if ns.len() > 0 {
        lemma_pairs_len(ns.drop_first());
    }
}

/// The names section read from a names group as the writer puts it down.
pub proof fn lemma_names_section(items: Seq<Node>, p: int, ns: Seq<(String, NamedArea)>)
    requires
        0 <= p < items.len(),
        tree(items[p]) == NodeView::Group(names_nodes(ns)),
    ensures
        names_section(items, p) == Ok::<(Seq<(Seq<char>, NamedArea)>, int), ReadError>((entries(ns), p + 1)),
{
    lemma_group_node(items[p], names_nodes(ns));
    let v = choose|v: Vec<Node>| items[p] == Node::Group(v) && #[trigger] trees(v@) == names_nodes(ns);
    assert(item_group(items, p) == Ok::<Vec<Node>, ReadError>(v));
    lemma_trees_index(v@);
    lemma_pairs_len(ns);
    assert(trees(v@).subrange(1, v@.len() as int) =~= pairs_nodes(ns));
    lemma_names_from(v@, 1, ns);
}

/// Given in order, the entries of a sorted list of nonempty names give
/// each name its area.
proof fn lemma_names_after(ns: Seq<(String, NamedArea)>)
    requires
        names_sorted(ns),
        forall|k: int| 0 <= k < ns.len() ==> (#[trigger] ns[k]).0@.len() > 0,
    ensures
        forall|k: int| 0 <= k < ns.len() ==> names_after(Map::empty(), entries(ns)).contains_key(#[trigger] ns[k].0@)
            && names_after(Map::empty(), entries(ns))[ns[k].0@] == normal_area(ns[k].1),
        forall|n: Seq<char>| #[trigger] names_after(Map::empty(), entries(ns)).contains_key(n) ==> has_name(ns, n),
    decreases ns.len(),
{
    if ns.len() > 0 {
        let init = ns.drop_last();
        assert(entries(ns).drop_last() =~= entries(init));
        assert forall|i: int, j: int| 0 <= i < j < init.len() implies seq_lt(#[trigger] init[i].0@, #[trigger] init[j].0@) by {
            assert(init[i] == ns[i] && init[j] == ns[j]);
        }
        assert forall|k: int| 0 <= k < init.len() implies (#[trigger] init[k]).0@.len() > 0 by {
            assert(init[k] == ns[k]);
        }
        lemma_names_after(init);
        let m = names_after(Map::empty(), entries(ns));
        let m1 = names_after(Map::empty(), entries(init));
        let last = ns.len() - 1;
        assert(entries(ns).last() == (ns[last].0@, normal_area(ns[last].1)));
        assert(ns[last].0@.len() > 0);
        assert(m == m1.insert(ns[last].0@, normal_area(ns[last].1)));
        assert forall|k: int| 0 <= k < ns.len() implies m.contains_key(#[trigger] ns[k].0@) && m[ns[k].0@]
            == normal_area(ns[k].1) by {
            if k < last {
                assert(init[k] == ns[k]);
                assert(seq_lt(ns[k].0@, ns[last].0@));
                if ns[k].0@ == ns[last].0@ {
                    lemma_lt_irreflexive(ns[k].0@);
                }
            }
        }
        assert forall|n: Seq<char>| #[trigger] m.contains_key(n) implies has_name(ns, n) by {
            if n != ns[last].0@ {
                assert(m1.contains_key(n));
                let k = choose|k: int| 0 <= k < init.len() && #[trigger] init[k].0@ == n;
                assert(ns[k].0@ == n);
            } else {
                assert(ns[last].0@ == n);
            }
        }
    }
}

/// The names the reader takes from the entries are the names of the list,
/// each with its area.
pub proof fn lemma_names_read(ns: Seq<(String, NamedArea)>)
    requires
        names_sorted(ns),
        forall|k: int| 0 <= k < ns.len() ==> (#[trigger] ns[k]).0@.len() > 0,
    ensures
        names_after(Map::empty(), entries(ns)) == names_map(ns).map_values(|a: NamedArea| normal_area(a)),
{
    lemma_names_after(ns);
    let m = names_after(Map::empty(), entries(ns));
    let want = names_map(ns).map_values(|a: NamedArea| normal_area(a));
    assert forall|n: Seq<char>| m.contains_key(n) <==> want.contains_key(n) by {
        if want.contains_key(n) {
            let k = choose|k: int| 0 <= k < ns.len() && #[trigger] ns[k].0@ == n;
            assert(m.contains_key(ns[k].0@));
        }
    }
    assert forall|n: Seq<char>| #[trigger] m.contains_key(n) implies m[n] == want[n] by {
        let k = choose|k: int| 0 <= k < ns.len() && #[trigger] ns[k].0@ == n;
        lemma_name_at(ns, k);
        assert(m.contains_key(ns[k].0@));
    }
    assert(m =~= want);
}

// --- the page setup ------------------------------------------------------------------

/// The items of one page pair as written: the id, then `{"N",<value>}`.
pub open spec fn page_rec_nodes(p: (int, int)) -> Seq<NodeView> {
    seq![NodeView::Atom(spec_int(p.0)), NodeView::Group(seq![NodeView::Text("N"@), NodeView::Atom(spec_int(p.1))])]
}

pub open spec fn page_list_nodes(ps: Seq<(int, int)>) -> Seq<NodeView>
    decreases ps.len(),
{
    if ps.len() == 0 {
        Seq::empty()
    } else {
        page_rec_nodes(ps[0]) + page_list_nodes(ps.drop_first())
    }
}

/// The page group as written: one group holding `0`, the count and the
/// pairs.
pub open spec fn page_nodes(ps: Seq<(int, int)>) -> Seq<NodeView> {
    seq![NodeView::Group(seq![NodeView::Atom("0"@), NodeView::Atom(spec_int(ps.len() as int))] + page_list_nodes(ps))]
}

pub open spec fn page_recs(ps: Seq<(int, int)>) -> Seq<Seq<char>> {
    Seq::new(ps.len(), |i: int| page_rec(ps[i]))
}

/// One page pair as written parses into its two items.
proof fn lemma_page_rec(s: Seq<char>, i: int, p: (int, int), items: Seq<NodeView>)
    requires
        at(s, i, page_rec(p)),
    ensures
        group_from(s, i, items, Seq::empty()) == group_from(
            s,
            i + page_rec(p).len(),
            items + page_rec_nodes(p),
            Seq::empty(),
        ),
{
    reveal_strlit(",\n{\"N\",");
    reveal_strlit("}");
    reveal_strlit("\"N\"");
    reveal_strlit("N");
    let id = spec_int(p.0);
    let v = spec_int(p.1);
    let mid = ",\n{\"N\","@;
    lemma_int_token(p.0);
    lemma_int_token(p.1);
    assert(page_rec(p) == id + (mid + (v + "}"@)));
    lemma_split(s, i, id, mid + (v + "}"@));
    let j = i + id.len();
    lemma_split(s, j, mid, v + "}"@);
    lemma_split(s, j + 7, v, "}"@);
    lemma_at_char(s, j, mid, 0);
    lemma_at_char(s, j, mid, 1);
    lemma_at_char(s, j, mid, 2);
    lemma_at_char(s, j, mid, 6);
    lemma_at_char(s, j + 7 + v.len(), "}"@, 0);
    lemma_token_comma(s, i, id, items);
    let it1 = items.push(NodeView::Atom(id));
    lemma_space(s, j + 1, it1, Seq::empty());
    let n = "N"@;
    assert(quote(n) =~= "\"N\""@) by {
        assert(doubled(n) =~= n) by {
            assert(n.drop_last() =~= Seq::<char>::empty());
            assert(doubled(Seq::<char>::empty()) =~= Seq::<char>::empty());
        }
    }
    assert(s.subrange(j + 3, j + 6) =~= quote(n)) by {
        lemma_at_char(s, j, mid, 3);
        lemma_at_char(s, j, mid, 4);
        lemma_at_char(s, j, mid, 5);
    }
    lemma_quoted(s, j + 3, n, Seq::empty(), Seq::empty());
    let t1 = Seq::<NodeView>::empty().push(NodeView::Text(n));
    lemma_comma(s, j + 6, t1, Seq::empty());
    lemma_token_close(s, j + 7, v, t1);
    let g = t1.push(NodeView::Atom(v));
    assert(g =~= seq![NodeView::Text("N"@), NodeView::Atom(v)]);
    lemma_open(s, j + 2, it1, seq![' '], g, j + 7 + v.len() + 1);
    assert(it1.push(NodeView::Group(g)) =~= items + page_rec_nodes(p));
}

/// The page pairs with commas between them, then a line break and the
/// closing brace of their group.
proof fn lemma_page_list(s: Seq<char>, i: int, ps: Seq<(int, int)>, items: Seq<NodeView>)
    requires
        ps.len() > 0,
        at(s, i, join(page_recs(ps), ","@) + "\n}"@),
    ensures
        group_from(s, i, items, Seq::empty()) == Ok::<(Seq<NodeView>, int), ReadError>(
            (items + page_list_nodes(ps), i + join(page_recs(ps), ","@).len() + 2),
        ),
    decreases ps.len(),
{
    reveal_strlit("\n}");
    reveal_strlit(",");
    let recs = page_recs(ps);
    let r0 = recs[0];
    if ps.len() == 1 {
        assert(join(recs, ","@) == r0);
        lemma_split(s, i, r0, "\n}"@);
        lemma_page_rec(s, i, ps[0], items);
        lemma_at_char(s, i + r0.len(), "\n}"@, 0);
        lemma_at_char(s, i + r0.len(), "\n}"@, 1);
        lemma_space(s, i + r0.len(), items + page_rec_nodes(ps[0]), Seq::empty());
        lemma_close(s, i + r0.len() + 1, items + page_rec_nodes(ps[0]), seq![' ']);
        assert(page_list_nodes(ps.drop_first()) =~= Seq::<NodeView>::empty());
        assert(items + page_rec_nodes(ps[0]) =~= items + page_list_nodes(ps));
    } else {
        let rest = ps.drop_first();
        lemma_join_front(recs, ","@);
        assert(recs.drop_first() =~= page_recs(rest));
        let jr = join(page_recs(rest), ","@);
        assert(join(recs, ","@) + "\n}"@ =~= r0 + (","@ + (jr + "\n}"@)));
        lemma_split(s, i, r0, ","@ + (jr + "\n}"@));
        lemma_split(s, i + r0.len(), ","@, jr + "\n}"@);
        lemma_page_rec(s, i, ps[0], items);
        lemma_at_char(s, i + r0.len(), ","@, 0);
        lemma_comma(s, i + r0.len(), items + page_rec_nodes(ps[0]), Seq::empty());
        lemma_page_list(s, i + r0.len() + 1, rest, items + page_rec_nodes(ps[0]));
        assert((items + page_rec_nodes(ps[0])) + page_list_nodes(rest) =~= items + page_list_nodes(ps));
    }
}

/// The page group as the writer puts it down parses into one group, and
/// leaves a blank atom behind.
pub proof fn lemma_page_text(s: Seq<char>, i: int, ps: Seq<(int, int)>, acc: Seq<NodeView>)
    requires
        ps.len() > 0,
        at(s, i, page_text(ps)),
    ensures
        group_from(s, i, acc, Seq::empty()) == group_from(
            s,
            i + page_text(ps).len(),
            acc.push(NodeView::Group(page_nodes(ps))),
            seq![' '],
        ),
{
    reveal_strlit("{\n{0,");
    reveal_strlit(",");
    reveal_strlit("\n}\n},\n");
    reveal_strlit("\n},\n");
    reveal_strlit("\n}");
    reveal_strlit("0");
    let t = page_text(ps);
    let n = spec_int(ps.len() as int);
    let j = join(page_recs(ps), ","@);
    let tail = "\n}\n},\n"@;
    lemma_int_token(ps.len() as int);
    assert(t =~= "{\n{0,"@ + (n + (","@ + ((j + "\n}"@) + "\n},\n"@))));
    lemma_split(s, i, "{\n{0,"@, n + (","@ + ((j + "\n}"@) + "\n},\n"@)));
    lemma_split(s, i + 5, n, ","@ + ((j + "\n}"@) + "\n},\n"@));
    lemma_split(s, i + 5 + n.len(), ","@, (j + "\n}"@) + "\n},\n"@);
    lemma_split(s, i + 6 + n.len(), j + "\n}"@, "\n},\n"@);
    let e1 = i + 6 + n.len() + j.len() + 2;
    lemma_at_char(s, i, "{\n{0,"@, 0);
    lemma_at_char(s, i, "{\n{0,"@, 1);
    lemma_at_char(s, i, "{\n{0,"@, 2);
    lemma_at_char(s, i, "{\n{0,"@, 3);
    lemma_at_char(s, i, "{\n{0,"@, 4);
    lemma_at_char(s, i + 5 + n.len(), ","@, 0);
    lemma_at_char(s, e1, "\n},\n"@, 0);
    lemma_at_char(s, e1, "\n},\n"@, 1);
    lemma_at_char(s, e1, "\n},\n"@, 2);
    lemma_at_char(s, e1, "\n},\n"@, 3);
    // the inner group: `0`, the count, the pairs
    let zero = "0"@;
    assert(zero =~= seq!['0']);
    assert(is_token(zero));
    lemma_one_char(s, i + 3, '0');
    lemma_token_comma(s, i + 3, zero, Seq::empty());
    let in1 = Seq::<NodeView>::empty().push(NodeView::Atom(zero));
    lemma_token_comma(s, i + 5, n, in1);
    let in2 = in1.push(NodeView::Atom(n));
    lemma_page_list(s, i + 6 + n.len(), ps, in2);
    let inner = in2 + page_list_nodes(ps);
    assert(inner =~= seq![NodeView::Atom("0"@), NodeView::Atom(n)] + page_list_nodes(ps));
    // the outer group around it
    lemma_space(s, i + 1, Seq::empty(), Seq::empty());
    lemma_open(s, i + 2, Seq::empty(), seq![' '], inner, e1);
    let out1 = Seq::<NodeView>::empty().push(NodeView::Group(inner));
    lemma_space(s, e1, out1, Seq::empty());
    lemma_close(s, e1 + 1, out1, seq![' ']);
    assert(out1 =~= page_nodes(ps));
    lemma_open(s, i, acc, Seq::empty(), out1, e1 + 2);
    lemma_comma(s, e1 + 2, acc.push(NodeView::Group(out1)), Seq::empty());
    lemma_space(s, e1 + 3, acc.push(NodeView::Group(out1)), Seq::empty());
    assert(i + t.len() == e1 + 4);
}

/// The print area record as written: the kind (3, or 0 for none), the
/// bounds in the order they are held (-1 for none), then an empty id.
pub open spec fn print_area_tokens(pa: Option<(u32, u32, u32, u32)>) -> Seq<Seq<char>> {
    match pa {
        Some(a) => seq![spec_int(3), spec_int(a.0 as int), spec_int(a.1 as int), spec_int(a.2 as int), spec_int(a.3 as int), guid()],
        None => seq![spec_int(0), spec_int(-1), spec_int(-1), spec_int(-1), spec_int(-1), guid()],
    }
}

#[verifier::rlimit(40)]
proof fn lemma_print_area_tokens(pa: Option<(u32, u32, u32, u32)>)
    ensures
        print_area_text(pa) == "{"@ + join(print_area_tokens(pa), ","@) + "},"@,
        forall|k: int| 0 <= k < print_area_tokens(pa).len() ==> is_token(#[trigger] print_area_tokens(pa)[k]),
{
    reveal_strlit(",");
    reveal_strlit("{");
    reveal_strlit("},");
    reveal_strlit("{3,");
    reveal_strlit(",00000000-0000-0000-0000-000000000000},");
    reveal_strlit("{0,-1,-1,-1,-1,00000000-0000-0000-0000-000000000000},");
    reveal_strlit("00000000-0000-0000-0000-000000000000");
    let ts = print_area_tokens(pa);
    reveal_with_fuel(join, 7);
    assert(ts.drop_last() =~= seq![ts[0], ts[1], ts[2], ts[3], ts[4]]);
    assert(ts.drop_last().drop_last() =~= seq![ts[0], ts[1], ts[2], ts[3]]);
    assert(ts.drop_last().drop_last().drop_last() =~= seq![ts[0], ts[1], ts[2]]);
    assert(ts.drop_last().drop_last().drop_last().drop_last() =~= seq![ts[0], ts[1]]);
    assert(ts.drop_last().drop_last().drop_last().drop_last().drop_last() =~= seq![ts[0]]);
    match pa {
        Some(a) => {
            assert(spec_int(3) =~= seq!['3']);
            assert(print_area_text(pa) =~= "{"@ + join(ts, ","@) + "},"@);
        },
        None => {
            assert(spec_int(0) =~= seq!['0']);
            assert(spec_int(-1) =~= seq!['-', '1']);
            assert(print_area_text(pa) =~= "{"@ + join(ts, ","@) + "},"@);
        },
    }
    assert forall|k: int| 0 <= k < ts.len() implies is_token(#[trigger] ts[k]) by {
        match pa {
            Some(a) => {
                if k == 0 {
                    lemma_int_token(3);
                } else if k == 1 {
                    lemma_int_token(a.0 as int);
                } else if k == 2 {
                    lemma_int_token(a.1 as int);
                } else if k == 3 {
                    lemma_int_token(a.2 as int);
                } else if k == 4 {
                    lemma_int_token(a.3 as int);
                }
            },
            None => {
                if k == 0 {
                    lemma_int_token(0);
                } else if k < 5 {
                    lemma_int_token(-1);
                }
            },
        }
        if k == 5 {
            assert forall|j: int| 0 <= j < guid().len() implies atom_char(#[trigger] guid()[j]) by {}
        }
    }
}

/// The print area record as the writer puts it down parses into one group.
pub proof fn lemma_print_area_text(
    s: Seq<char>,
    i: int,
    pa: Option<(u32, u32, u32, u32)>,
    acc: Seq<NodeView>,
    atom: Seq<char>,
)
    requires
        at(s, i, print_area_text(pa)),
        blank(atom),
    ensures
        group_from(s, i, acc, atom) == group_from(
            s,
            i + print_area_text(pa).len(),
            acc.push(NodeView::Group(atoms(print_area_tokens(pa)))),
            Seq::empty(),
        ),
{
    reveal_strlit("{");
    reveal_strlit("}");
    reveal_strlit("},");
    reveal_strlit(",");
    lemma_print_area_tokens(pa);
    let ts = print_area_tokens(pa);
    let j = join(ts, ","@);
    assert(print_area_text(pa) =~= "{"@ + ((j + "}"@) + ","@));
    lemma_split(s, i, "{"@, (j + "}"@) + ","@);
    lemma_split(s, i + 1, j + "}"@, ","@);
    lemma_at_char(s, i, "{"@, 0);
    lemma_at_char(s, i + 1 + j.len() + 1, ","@, 0);
    lemma_tokens(s, i + 1, ts, Seq::empty());
    assert(Seq::<NodeView>::empty() + atoms(ts) =~= atoms(ts));
    lemma_open(s, i, acc, atom, atoms(ts), i + 1 + j.len() + 1);
    lemma_comma(s, i + 2 + j.len(), acc.push(NodeView::Group(atoms(ts))), Seq::empty());
}

/// The page settings after the pairs, taken in order.
pub open spec fn pairs_applied(st: (bool, Option<i64>, PageMargins), ps: Seq<(int, int)>) -> (
    bool,
    Option<i64>,
    PageMargins,
)
    decreases ps.len(),
{
    if ps.len() == 0 {
        st
    } else {
        pairs_applied(page_pair(st, ps[0].0 as i64, ps[0].1 as i64), ps.drop_first())
    }
}

pub open spec fn fits_i64(ps: Seq<(int, int)>) -> bool {
    forall|k: int| 0 <= k < ps.len() ==> i64::MIN <= (#[trigger] ps[k]).0 <= i64::MAX && i64::MIN <= ps[k].1
        <= i64::MAX
}

proof fn lemma_page_list_len(ps: Seq<(int, int)>)
    ensures
        page_list_nodes(ps).len() == 2 * ps.len(),
    decreases ps.len(),
{
    if ps.len() > 0 {
        lemma_page_list_len(ps.drop_first());
    }
}

/// The page pairs as written read back as the pairs, taken in order.
proof fn lemma_page_pairs_from(list: Seq<Node>, i: int, ps: Seq<(int, int)>, st: (bool, Option<i64>, PageMargins))
    requires
        2 <= i <= list.len(),
        trees(list).subrange(i, list.len() as int) == page_list_nodes(ps),
        fits_i64(ps),
    ensures
        page_pairs_from(list, i, st) == Ok::<(bool, Option<i64>, PageMargins), ReadError>(pairs_applied(st, ps)),
    decreases ps.len(),
{
    lemma_trees_index(list);
    lemma_page_list_len(ps);
    if ps.len() > 0 {
        let sub = trees(list).subrange(i, list.len() as int);
        let p = ps[0];
        let pair = page_rec_nodes(p);
        let rest = ps.drop_first();
        assert(page_list_nodes(ps) == pair + page_list_nodes(rest));
        assert(sub[0] == pair[0]);
        assert(sub[1] == pair[1]);
        assert(tree(list[i]) == NodeView::Atom(spec_int(p.0)));
        lemma_atom_number(list[i], p.0);
        let g = seq![NodeView::Text("N"@), NodeView::Atom(spec_int(p.1))];
        assert(tree(list[i + 1]) == NodeView::Group(g));
        lemma_group_node(list[i + 1], g);
        let v = choose|v: Vec<Node>| list[i + 1] == Node::Group(v) && #[trigger] trees(v@) == g;
        lemma_trees_index(v@);
        assert(trees(v@)[1] == NodeView::Atom(spec_int(p.1)));
        lemma_atom_number(v@[1], p.1);
        assert(num_at_spec(v@, 1, 0) == Ok::<i64, ReadError>(p.1 as i64));
        assert(trees(list).subrange(i + 2, list.len() as int) =~= page_list_nodes(rest)) by {
            assert forall|k: int| 0 <= k < page_list_nodes(rest).len() implies trees(list).subrange(
                i + 2,
                list.len() as int,
            )[k] == #[trigger] page_list_nodes(rest)[k] by {
                assert(sub[k + 2] == page_list_nodes(ps)[k + 2]);
                assert((pair + page_list_nodes(rest))[k + 2] == page_list_nodes(rest)[k]);
            }
        }
        assert(fits_i64(rest)) by {
            assert forall|k: int| 0 <= k < rest.len() implies i64::MIN <= (#[trigger] rest[k]).0 <= i64::MAX
                && i64::MIN <= rest[k].1 <= i64::MAX by {
                assert(rest[k] == ps[k + 1]);
            }
        }
        assert(i64::MIN <= ps[0].0 <= i64::MAX);
        lemma_page_pairs_from(list, i + 2, rest, page_pair(st, p.0 as i64, p.1 as i64));
    }
}

/// What the reader makes of a print area record: the area as written;
/// none leaves the area as it was.
pub open spec fn print_area_read(
    pa: Option<(u32, u32, u32, u32)>,
    old: Option<(u32, u32, u32, u32)>,
) -> Option<(u32, u32, u32, u32)> {
    match pa {
        Some(a) => Some(a),
        None => old,
    }
}

proof fn lemma_print_area_of(area: Seq<Node>, pa: Option<(u32, u32, u32, u32)>, old: Option<(u32, u32, u32, u32)>)
    requires
        trees(area) == atoms(print_area_tokens(pa)),
    ensures
        print_area_of(area, old) == Ok::<Option<(u32, u32, u32, u32)>, ReadError>(print_area_read(pa, old)),
{
    lemma_trees_index(area);
    let ts = print_area_tokens(pa);
    assert(trees(area)[0] == NodeView::Atom(ts[0]));
    match pa {
        Some(a) => {
            lemma_atom_number(area[0], 3);
            assert(trees(area)[1] == NodeView::Atom(ts[1]));
            assert(trees(area)[2] == NodeView::Atom(ts[2]));
            assert(trees(area)[3] == NodeView::Atom(ts[3]));
            assert(trees(area)[4] == NodeView::Atom(ts[4]));
            lemma_atom_number(area[1], a.0 as int);
            lemma_atom_number(area[2], a.1 as int);
            lemma_atom_number(area[3], a.2 as int);
            lemma_atom_number(area[4], a.3 as int);
        },
        None => {
            lemma_atom_number(area[0], 0);
        },
    }
}

/// The page section read from the page group and the print area record
/// as the writer puts them down.
pub proof fn lemma_page_section(
    items: Seq<Node>,
    p: int,
    st: PageView,
    ps: Seq<(int, int)>,
    pa: Option<(u32, u32, u32, u32)>,
)
    requires
        0 <= p,
        p + 13 <= items.len(),
        tree(items[p + 1]) == NodeView::Group(page_nodes(ps)),
        tree(items[p + 2]) == NodeView::Group(atoms(print_area_tokens(pa))),
        fits_i64(ps),
    ensures
        page_section(items, p, st) == Ok::<(PageView, int), ReadError>(
            (
                (
                    pairs_applied((st.0, st.1, st.2), ps).0,
                    pairs_applied((st.0, st.1, st.2), ps).1,
                    pairs_applied((st.0, st.1, st.2), ps).2,
                    print_area_read(pa, st.3),
                ),
                p + 13,
            ),
        ),
{
    lemma_group_node(items[p + 1], page_nodes(ps));
    let page = choose|v: Vec<Node>| items[p + 1] == Node::Group(v) && #[trigger] trees(v@) == page_nodes(ps);
    assert(item_group(items, p + 1) == Ok::<Vec<Node>, ReadError>(page));
    lemma_trees_index(page@);
    let inner = seq![NodeView::Atom("0"@), NodeView::Atom(spec_int(ps.len() as int))] + page_list_nodes(ps);
    assert(trees(page@)[0] == NodeView::Group(inner));
    lemma_group_node(page@[0], inner);
    let list = choose|v: Vec<Node>| page@[0] == Node::Group(v) && #[trigger] trees(v@) == inner;
    assert(group_at_spec(page@, 0) == Some(list));
    lemma_trees_index(list@);
    lemma_page_list_len(ps);
    assert(trees(list@).subrange(2, list@.len() as int) =~= page_list_nodes(ps));
    lemma_page_pairs_from(list@, 2, ps, (st.0, st.1, st.2));
    lemma_group_node(items[p + 2], atoms(print_area_tokens(pa)));
    let area = choose|v: Vec<Node>| items[p + 2] == Node::Group(v) && #[trigger] trees(v@) == atoms(
        print_area_tokens(pa),
    );
    assert(item_group(items, p + 2) == Ok::<Vec<Node>, ReadError>(area));
    lemma_print_area_of(area@, pa, st.3);
}

/// The page setup the writer puts down, taken in order from any settings:
/// landscape if it was or is, the scale if one is given, and the margins.
pub proof fn lemma_page_pairs_applied(
    st: (bool, Option<i64>, PageMargins),
    landscape: bool,
    scale: Option<i64>,
    m: PageMargins,
)
    ensures
        fits_i64(page_pairs(landscape, scale, m)),
        pairs_applied(st, page_pairs(landscape, scale, m)) == (
            st.0 || landscape,
            match scale {
                Some(x) => Some(x),
                None => st.1,
            },
            m,
        ),
{
    let ps = page_pairs(landscape, scale, m);
    let fixed = seq![
        (6int, m.top as int),
        (7int, m.left as int),
        (8int, m.bottom as int),
        (9int, m.right as int),
        (10int, 1000int),
        (11int, 1000int),
    ];
    assert forall|k: int| 0 <= k < ps.len() implies i64::MIN <= (#[trigger] ps[k]).0 <= i64::MAX && i64::MIN
        <= ps[k].1 <= i64::MAX by {
        if landscape {
            if scale is Some {
            }
        }
    }
    let s1 = if landscape {
        page_pair(st, 1, 2)
    } else {
        st
    };
    let s2 = match scale {
        Some(x) => page_pair(s1, 2, x),
        None => s1,
    };
    lemma_fixed_applied(s2, m);
    let after_land = match scale {
        Some(x) => seq![(2int, x as int)] + fixed,
        None => fixed,
    };
    match scale {
        Some(x) => {
            assert(after_land.drop_first() =~= fixed);
            assert(after_land[0].1 as i64 == x);
            assert(pairs_applied(s1, after_land) == pairs_applied(s2, fixed));
        },
        None => {},
    }
    if landscape {
        assert(ps =~= seq![(1int, 2int)] + after_land);
        assert(ps.drop_first() =~= after_land);
        assert(pairs_applied(st, ps) == pairs_applied(s1, after_land));
    } else {
        assert(ps =~= after_land);
    }
}

/// The margins pairs and the two fixed ones, taken in order.
proof fn lemma_fixed_applied(st: (bool, Option<i64>, PageMargins), m: PageMargins)
    ensures
        pairs_applied(
            st,
            seq![
                (6int, m.top as int),
                (7int, m.left as int),
                (8int, m.bottom as int),
                (9int, m.right as int),
                (10int, 1000int),
                (11int, 1000int),
            ],
        ) == (st.0, st.1, m),
{
    let f = seq![
        (6int, m.top as int),
        (7int, m.left as int),
        (8int, m.bottom as int),
        (9int, m.right as int),
        (10int, 1000int),
        (11int, 1000int),
    ];
    let f1 = f.drop_first();
    let f2 = f1.drop_first();
    let f3 = f2.drop_first();
    let f4 = f3.drop_first();
    let f5 = f4.drop_first();
    let f6 = f5.drop_first();
    assert(f6.len() == 0);
    let t1 = page_pair(st, 6, m.top);
    let t2 = page_pair(t1, 7, m.left);
    let t3 = page_pair(t2, 8, m.bottom);
    let t4 = page_pair(t3, 9, m.right);
    let t5 = page_pair(t4, 10, 1000);
    let t6 = page_pair(t5, 11, 1000);
    assert(pairs_applied(t6, f6) == t6);
    assert(pairs_applied(t5, f5) == t6);
    assert(pairs_applied(t4, f4) == t6);
    assert(pairs_applied(t3, f3) == t6);
    assert(pairs_applied(t2, f2) == t6);
    assert(pairs_applied(t1, f1) == t6);
    assert(pairs_applied(st, f) == t6);
    assert(t6.2 == m);
}

// --- counted lists of flat records ---------------------------------------------------

/// A flat record as written: its tokens with commas between them, in braces.
pub open spec fn flat_rec(ts: Seq<Seq<char>>) -> Seq<char> {
    "{"@ + join(ts, ","@) + "}"@
}

pub open spec fn all_tokens(ts: Seq<Seq<char>>) -> bool {
    ts.len() > 0 && forall|k: int| 0 <= k < ts.len() ==> is_token(#[trigger] ts[k])
}

pub open spec fn flat_recs(tss: Seq<Seq<Seq<char>>>) -> Seq<Seq<char>> {
    Seq::new(tss.len(), |k: int| flat_rec(tss[k]))
}

/// The groups the records parse into.
pub open spec fn flat_groups(tss: Seq<Seq<Seq<char>>>) -> Seq<NodeView> {
    Seq::new(tss.len(), |k: int| NodeView::Group(atoms(tss[k])))
}

/// A counted list as written parses into the count and the records.
pub open spec fn list_nodes(tss: Seq<Seq<Seq<char>>>) -> Seq<NodeView> {
    seq![NodeView::Atom(spec_int(tss.len() as int))] + flat_groups(tss)
}

/// A flat record after a blank atom becomes one group.
proof fn lemma_flat_rec(s: Seq<char>, i: int, ts: Seq<Seq<char>>, items: Seq<NodeView>, atom: Seq<char>)
    requires
        all_tokens(ts),
        blank(atom),
        at(s, i, flat_rec(ts)),
    ensures
        group_from(s, i, items, atom) == group_from(
            s,
            i + flat_rec(ts).len(),
            items.push(NodeView::Group(atoms(ts))),
            Seq::empty(),
        ),
{
    reveal_strlit("{");
    reveal_strlit("}");
    let j = join(ts, ","@);
    assert(flat_rec(ts) == "{"@ + (j + "}"@));
    lemma_split(s, i, "{"@, j + "}"@);
    lemma_at_char(s, i, "{"@, 0);
    lemma_tokens(s, i + 1, ts, Seq::empty());
    assert(Seq::<NodeView>::empty() + atoms(ts) =~= atoms(ts));
    lemma_open(s, i, items, atom, atoms(ts), i + 1 + j.len() + 1);
}

/// Flat records with `,\n` between them, then a line break and the closing
/// brace of their list.
proof fn lemma_flat_list(s: Seq<char>, i: int, tss: Seq<Seq<Seq<char>>>, items: Seq<NodeView>, atom: Seq<char>)
    requires
        tss.len() > 0,
        forall|k: int| 0 <= k < tss.len() ==> all_tokens(#[trigger] tss[k]),
        blank(atom),
        at(s, i, join(flat_recs(tss), ",\n"@) + "\n}"@),
    ensures
        group_from(s, i, items, atom) == Ok::<(Seq<NodeView>, int), ReadError>(
            (items + flat_groups(tss), i + join(flat_recs(tss), ",\n"@).len() + 2),
        ),
    decreases tss.len(),
{
    reveal_strlit("\n}");
    reveal_strlit(",\n");
    let recs = flat_recs(tss);
    let r0 = recs[0];
    let g0 = NodeView::Group(atoms(tss[0]));
    if tss.len() == 1 {
        assert(join(recs, ",\n"@) == r0);
        lemma_split(s, i, r0, "\n}"@);
        lemma_flat_rec(s, i, tss[0], items, atom);
        lemma_at_char(s, i + r0.len(), "\n}"@, 0);
        lemma_at_char(s, i + r0.len(), "\n}"@, 1);
        lemma_space(s, i + r0.len(), items.push(g0), Seq::empty());
        lemma_close(s, i + r0.len() + 1, items.push(g0), seq![' ']);
        assert(items.push(g0) =~= items + flat_groups(tss));
    } else {
        let rest = tss.drop_first();
        lemma_join_front(recs, ",\n"@);
        assert(recs.drop_first() =~= flat_recs(rest));
        let jr = join(flat_recs(rest), ",\n"@);
        assert(join(recs, ",\n"@) + "\n}"@ =~= r0 + (",\n"@ + (jr + "\n}"@)));
        lemma_split(s, i, r0, ",\n"@ + (jr + "\n}"@));
        lemma_split(s, i + r0.len(), ",\n"@, jr + "\n}"@);
        lemma_flat_rec(s, i, tss[0], items, atom);
        lemma_at_char(s, i + r0.len(), ",\n"@, 0);
        lemma_at_char(s, i + r0.len(), ",\n"@, 1);
        lemma_comma(s, i + r0.len(), items.push(g0), Seq::empty());
        lemma_space(s, i + r0.len() + 1, items.push(g0), Seq::empty());
        assert forall|k: int| 0 <= k < rest.len() implies all_tokens(#[trigger] rest[k]) by {
            assert(rest[k] == tss[k + 1]);
        }
        lemma_flat_list(s, i + r0.len() + 2, rest, items.push(g0), seq![' ']);
        assert(items.push(g0) + flat_groups(rest) =~= items + flat_groups(tss));
    }
}

/// A counted list of flat records as the writer puts it down parses into
/// one group, and leaves a blank atom behind.
pub proof fn lemma_list_text(s: Seq<char>, i: int, tss: Seq<Seq<Seq<char>>>, acc: Seq<NodeView>, atom: Seq<char>)
    requires
        forall|k: int| 0 <= k < tss.len() ==> all_tokens(#[trigger] tss[k]),
        blank(atom),
        at(s, i, list_text(flat_recs(tss))),
    ensures
        group_from(s, i, acc, atom) == group_from(
            s,
            i + list_text(flat_recs(tss)).len(),
            acc.push(NodeView::Group(list_nodes(tss))),
            seq![' '],
        ),
{
    reveal_strlit("{0},\n");
    reveal_strlit("{");
    reveal_strlit(",\n");
    reveal_strlit("\n},\n");
    reveal_strlit("\n}");
    reveal_strlit(",");
    let t = list_text(flat_recs(tss));
    let n = spec_int(tss.len() as int);
    lemma_int_token(tss.len() as int);
    let g: Seq<NodeView>;
    let e: int;
    if tss.len() == 0 {
        assert(n =~= seq!['0']);
        reveal_strlit("{0}");
        lemma_at_char(s, i, t, 1);
        lemma_one_char(s, i + 1, '0');
        lemma_at_char(s, i, t, 2);
        lemma_token_close(s, i + 1, n, Seq::empty());
        g = seq![NodeView::Atom(n)];
        e = i + 3;
        assert(Seq::<NodeView>::empty().push(NodeView::Atom(n)) =~= g);
        assert(list_nodes(tss) =~= g);
        assert(at(s, e, ",\n"@)) by {
            assert(t =~= "{0}"@ + ",\n"@);
            lemma_split(s, i, "{0}"@, ",\n"@);
        }
    } else {
        let j = join(flat_recs(tss), ",\n"@);
        assert(t =~= "{"@ + (n + (",\n"@ + ((j + "\n}"@) + ",\n"@))));
        lemma_split(s, i, "{"@, n + (",\n"@ + ((j + "\n}"@) + ",\n"@)));
        lemma_split(s, i + 1, n, ",\n"@ + ((j + "\n}"@) + ",\n"@));
        lemma_split(s, i + 1 + n.len(), ",\n"@, (j + "\n}"@) + ",\n"@);
        lemma_split(s, i + 3 + n.len(), j + "\n}"@, ",\n"@);
        lemma_at_char(s, i + 1 + n.len(), ",\n"@, 0);
        lemma_at_char(s, i + 1 + n.len(), ",\n"@, 1);
        lemma_token_comma(s, i + 1, n, Seq::empty());
        let it1 = Seq::<NodeView>::empty().push(NodeView::Atom(n));
        lemma_space(s, i + 2 + n.len(), it1, Seq::empty());
        lemma_flat_list(s, i + 3 + n.len(), tss, it1, seq![' ']);
        g = it1 + flat_groups(tss);
        e = i + 3 + n.len() + j.len() + 2;
        assert(g =~= list_nodes(tss));
    }
    lemma_at_char(s, i, t, 0);
    lemma_open(s, i, acc, atom, g, e);
    lemma_at_char(s, e, ",\n"@, 0);
    lemma_at_char(s, e, ",\n"@, 1);
    lemma_comma(s, e, acc.push(NodeView::Group(g)), Seq::empty());
    lemma_space(s, e + 1, acc.push(NodeView::Group(g)), Seq::empty());
    assert(i + t.len() == e + 2);
}

// --- merges ----------------------------------------------------------------------------

pub open spec fn merge_tokens(m: Merge) -> Seq<Seq<char>> {
    seq![
        spec_int(m.c1 as int),
        spec_int(m.r1 as int),
        spec_int(m.c2 as int),
        spec_int(m.r2 as int),
        spec_int(if m.unmerge { 2 } else { 0 }),
    ]
}

pub open spec fn row_merge_tokens(p: (u32, u32)) -> Seq<Seq<char>> {
    seq![spec_int(-1), spec_int(p.0 as int), spec_int(-1), spec_int(p.1 as int), spec_int(0)]
}

pub open spec fn col_merge_tokens(p: (u32, u32)) -> Seq<Seq<char>> {
    seq![spec_int(p.0 as int), spec_int(-1), spec_int(p.1 as int), spec_int(-1), spec_int(0), guid()]
}

pub open spec fn merges_tokens(a: Seq<Merge>) -> Seq<Seq<Seq<char>>> {
    Seq::new(a.len(), |k: int| merge_tokens(a[k]))
}

pub open spec fn pairs_tokens(a: Seq<(u32, u32)>, columns: bool) -> Seq<Seq<Seq<char>>> {
    Seq::new(a.len(), |k: int| if columns { col_merge_tokens(a[k]) } else { row_merge_tokens(a[k]) })
}

proof fn lemma_join5(ts: Seq<Seq<char>>)
    requires
        ts.len() == 5,
    ensures
        join(ts, ","@) == ts[0] + ","@ + ts[1] + ","@ + ts[2] + ","@ + ts[3] + ","@ + ts[4],
{
    reveal_with_fuel(join, 6);
    assert(ts.drop_last() =~= seq![ts[0], ts[1], ts[2], ts[3]]);
    assert(ts.drop_last().drop_last() =~= seq![ts[0], ts[1], ts[2]]);
    assert(ts.drop_last().drop_last().drop_last() =~= seq![ts[0], ts[1]]);
    assert(ts.drop_last().drop_last().drop_last().drop_last() =~= seq![ts[0]]);
}

proof fn lemma_merge_rec(m: Merge)
    ensures
        merge_rec(m) == flat_rec(merge_tokens(m)),
        all_tokens(merge_tokens(m)),
{
    let ts = merge_tokens(m);
    lemma_join5(ts);
    assert(merge_rec(m) =~= flat_rec(ts));
    assert forall|k: int| 0 <= k < ts.len() implies is_token(#[trigger] ts[k]) by {
        if k == 0 { lemma_int_token(m.c1 as int); }
        else if k == 1 { lemma_int_token(m.r1 as int); }
        else if k == 2 { lemma_int_token(m.c2 as int); }
        else if k == 3 { lemma_int_token(m.r2 as int); }
        else { lemma_int_token(if m.unmerge { 2 } else { 0 }); }
    }
}

proof fn lemma_pair_rec(p: (u32, u32), columns: bool)
    ensures
        (if columns { col_merge_rec(p) } else { row_merge_rec(p) }) == flat_rec(
            if columns { col_merge_tokens(p) } else { row_merge_tokens(p) },
        ),
        all_tokens(if columns { col_merge_tokens(p) } else { row_merge_tokens(p) }),
{
    reveal_strlit("{-1,");
    reveal_strlit(",-1,");
    reveal_strlit(",0}");
    reveal_strlit("{");
    reveal_strlit("}");
    reveal_strlit(",");
    reveal_strlit(",-1,0,00000000-0000-0000-0000-000000000000}");
    reveal_strlit("00000000-0000-0000-0000-000000000000");
    assert(spec_int(-1) =~= seq!['-', '1']);
    assert(spec_int(0) =~= seq!['0']);
    lemma_int_token(-1);
    lemma_int_token(0);
    lemma_int_token(p.0 as int);
    lemma_int_token(p.1 as int);
    if columns {
        let ts = col_merge_tokens(p);
        reveal_with_fuel(join, 7);
        assert(ts.drop_last() =~= seq![ts[0], ts[1], ts[2], ts[3], ts[4]]);
        lemma_join5(ts.drop_last());
        assert(col_merge_rec(p) =~= flat_rec(ts));
        assert forall|k: int| 0 <= k < ts.len() implies is_token(#[trigger] ts[k]) by {
            if k == 5 {
                assert forall|j: int| 0 <= j < guid().len() implies atom_char(#[trigger] guid()[j]) by {}
            }
        }
    } else {
        let ts = row_merge_tokens(p);
        lemma_join5(ts);
        assert(row_merge_rec(p) =~= flat_rec(ts));
        assert forall|k: int| 0 <= k < ts.len() implies is_token(#[trigger] ts[k]) by {}
    }
}

/// The three merge lists as the writer puts them down parse into three
/// groups, and leave a blank atom behind.
pub proof fn lemma_merges_text(
    s: Seq<char>,
    i: int,
    ms: Seq<Merge>,
    rows: Seq<(u32, u32)>,
    cols: Seq<(u32, u32)>,
    acc: Seq<NodeView>,
    atom: Seq<char>,
)
    requires
        blank(atom),
        at(s, i, merges_text(ms, rows, cols)),
    ensures
        group_from(s, i, acc, atom) == group_from(
            s,
            i + merges_text(ms, rows, cols).len(),
            acc + seq![
                NodeView::Group(list_nodes(merges_tokens(sort_merges(ms)))),
                NodeView::Group(list_nodes(pairs_tokens(sort_pairs(rows), false))),
                NodeView::Group(list_nodes(pairs_tokens(sort_pairs(cols), true))),
            ],
            seq![' '],
        ),
{
    let a = sort_merges(ms);
    let b = sort_pairs(rows);
    let c = sort_pairs(cols);
    let ta = merges_tokens(a);
    let tb = pairs_tokens(b, false);
    let tc = pairs_tokens(c, true);
    assert(merge_recs(a) =~= flat_recs(ta)) by {
        assert forall|k: int| 0 <= k < a.len() implies merge_recs(a)[k] == flat_recs(ta)[k] by {
            lemma_merge_rec(a[k]);
        }
    }
    assert(pair_recs(b, false) =~= flat_recs(tb)) by {
        assert forall|k: int| 0 <= k < b.len() implies pair_recs(b, false)[k] == flat_recs(tb)[k] by {
            lemma_pair_rec(b[k], false);
        }
    }
    assert(pair_recs(c, true) =~= flat_recs(tc)) by {
        assert forall|k: int| 0 <= k < c.len() implies pair_recs(c, true)[k] == flat_recs(tc)[k] by {
            lemma_pair_rec(c[k], true);
        }
    }
    assert forall|k: int| 0 <= k < ta.len() implies all_tokens(#[trigger] ta[k]) by {
        lemma_merge_rec(a[k]);
    }
    assert forall|k: int| 0 <= k < tb.len() implies all_tokens(#[trigger] tb[k]) by {
        lemma_pair_rec(b[k], false);
    }
    assert forall|k: int| 0 <= k < tc.len() implies all_tokens(#[trigger] tc[k]) by {
        lemma_pair_rec(c[k], true);
    }
    let la = list_text(flat_recs(ta));
    let lb = list_text(flat_recs(tb));
    let lc = list_text(flat_recs(tc));
    assert(merges_text(ms, rows, cols) == la + (lb + lc));
    lemma_split(s, i, la, lb + lc);
    lemma_split(s, i + la.len(), lb, lc);
    lemma_list_text(s, i, ta, acc, atom);
    let acc1 = acc.push(NodeView::Group(list_nodes(ta)));
    lemma_list_text(s, i + la.len(), tb, acc1, seq![' ']);
    let acc2 = acc1.push(NodeView::Group(list_nodes(tb)));
    lemma_list_text(s, i + la.len() + lb.len(), tc, acc2, seq![' ']);
    assert(acc2.push(NodeView::Group(list_nodes(tc))) =~= acc + seq![
        NodeView::Group(list_nodes(ta)),
        NodeView::Group(list_nodes(tb)),
        NodeView::Group(list_nodes(tc)),
    ]);
}

proof fn lemma_merge_of(g: Seq<Node>, m: Merge)
    requires
        trees(g) == atoms(merge_tokens(m)),
    ensures
        merge_of(g) == Ok::<Option<Merge>, ReadError>(Some(m)),
{
    lemma_trees_index(g);
    let ts = merge_tokens(m);
    assert(trees(g)[0] == NodeView::Atom(ts[0]));
    assert(trees(g)[1] == NodeView::Atom(ts[1]));
    assert(trees(g)[2] == NodeView::Atom(ts[2]));
    assert(trees(g)[3] == NodeView::Atom(ts[3]));
    assert(trees(g)[4] == NodeView::Atom(ts[4]));
    lemma_atom_number(g[0], m.c1 as int);
    lemma_atom_number(g[1], m.r1 as int);
    lemma_atom_number(g[2], m.c2 as int);
    lemma_atom_number(g[3], m.r2 as int);
    lemma_atom_number(g[4], if m.unmerge { 2 } else { 0 });
}

proof fn lemma_pair_of(g: Seq<Node>, p: (u32, u32), columns: bool)
    requires
        trees(g) == atoms(if columns { col_merge_tokens(p) } else { row_merge_tokens(p) }),
    ensures
        (if columns { col_merge_of(g) } else { row_merge_of(g) }) == Ok::<Option<(u32, u32)>, ReadError>(Some(p)),
{
    lemma_trees_index(g);
    if columns {
        let ts = col_merge_tokens(p);
        assert(trees(g)[0] == NodeView::Atom(ts[0]));
        assert(trees(g)[2] == NodeView::Atom(ts[2]));
        lemma_atom_number(g[0], p.0 as int);
        lemma_atom_number(g[2], p.1 as int);
    } else {
        let ts = row_merge_tokens(p);
        assert(trees(g)[1] == NodeView::Atom(ts[1]));
        assert(trees(g)[3] == NodeView::Atom(ts[3]));
        lemma_atom_number(g[1], p.0 as int);
        lemma_atom_number(g[3], p.1 as int);
    }
}

/// A node whose tree is a flat group is that group.
proof fn lemma_flat_node(n: Node, ts: Seq<Seq<char>>) -> (v: Vec<Node>)
    requires
        tree(n) == NodeView::Group(atoms(ts)),
    ensures
        node_group(n) == Ok::<Vec<Node>, ReadError>(v),
        trees(v@) == atoms(ts),
{
    lemma_group_node(n, atoms(ts));
    choose|v: Vec<Node>| n == Node::Group(v) && #[trigger] trees(v@) == atoms(ts)
}

proof fn lemma_merges_from(list: Seq<Node>, i: int, a: Seq<Merge>)
    requires
        0 <= i <= list.len(),
        trees(list).subrange(i, list.len() as int) == flat_groups(merges_tokens(a)),
    ensures
        merges_from(list, i) == Ok::<Seq<Merge>, ReadError>(a),
    decreases a.len(),
{
    lemma_trees_index(list);
    let sub = trees(list).subrange(i, list.len() as int);
    assert(sub.len() == a.len());
    if a.len() > 0 {
        assert(sub[0] == NodeView::Group(atoms(merge_tokens(a[0]))));
        let v = lemma_flat_node(list[i], merge_tokens(a[0]));
        lemma_merge_of(v@, a[0]);
        let rest = a.drop_first();
        assert(trees(list).subrange(i + 1, list.len() as int) =~= flat_groups(merges_tokens(rest))) by {
            assert forall|k: int| 0 <= k < rest.len() implies trees(list).subrange(i + 1, list.len() as int)[k]
                == #[trigger] flat_groups(merges_tokens(rest))[k] by {
                assert(sub[k + 1] == flat_groups(merges_tokens(a))[k + 1]);
                assert(rest[k] == a[k + 1]);
                assert(flat_groups(merges_tokens(a))[k + 1] == NodeView::Group(atoms(merge_tokens(a[k + 1]))));
                assert(flat_groups(merges_tokens(rest))[k] == NodeView::Group(atoms(merge_tokens(rest[k]))));
                assert(trees(list).subrange(i + 1, list.len() as int)[k] == trees(list)[i + 1 + k]);
                assert(sub[k + 1] == trees(list)[i + k + 1]);
            }
        }
        lemma_merges_from(list, i + 1, rest);
        assert(opt_seq(Some(a[0])) + rest =~= a);
    } else {
        assert(i == list.len());
        assert(a =~= Seq::empty());
    }
}

proof fn lemma_pairs_from(list: Seq<Node>, i: int, a: Seq<(u32, u32)>, columns: bool)
    requires
        0 <= i <= list.len(),
        trees(list).subrange(i, list.len() as int) == flat_groups(pairs_tokens(a, columns)),
    ensures
        pairs_from(list, i, !columns) == Ok::<Seq<(u32, u32)>, ReadError>(a),
    decreases a.len(),
{
    lemma_trees_index(list);
    let sub = trees(list).subrange(i, list.len() as int);
    assert(sub.len() == a.len());
    if a.len() > 0 {
        let t0 = if columns { col_merge_tokens(a[0]) } else { row_merge_tokens(a[0]) };
        assert(sub[0] == NodeView::Group(atoms(t0)));
        let v = lemma_flat_node(list[i], t0);
        lemma_pair_of(v@, a[0], columns);
        let rest = a.drop_first();
        assert(trees(list).subrange(i + 1, list.len() as int) =~= flat_groups(pairs_tokens(rest, columns))) by {
            assert forall|k: int| 0 <= k < rest.len() implies trees(list).subrange(i + 1, list.len() as int)[k]
                == #[trigger] flat_groups(pairs_tokens(rest, columns))[k] by {
                assert(sub[k + 1] == flat_groups(pairs_tokens(a, columns))[k + 1]);
                assert(rest[k] == a[k + 1]);
                assert(pairs_tokens(a, columns)[k + 1] == pairs_tokens(rest, columns)[k]);
                assert(trees(list).subrange(i + 1, list.len() as int)[k] == trees(list)[i + 1 + k]);
                assert(sub[k + 1] == trees(list)[i + k + 1]);
            }
        }
        lemma_pairs_from(list, i + 1, rest, columns);
        assert(opt_seq(Some(a[0])) + rest =~= a);
    } else {
        assert(i == list.len());
        assert(a =~= Seq::empty());
    }
}

/// A counted list read from its group: the records after the count.
proof fn lemma_list_group(n: Node, tss: Seq<Seq<Seq<char>>>) -> (v: Vec<Node>)
    requires
        tree(n) == NodeView::Group(list_nodes(tss)),
    ensures
        n == Node::Group(v),
        1 <= v@.len(),
        trees(v@).subrange(1, v@.len() as int) == flat_groups(tss),
{
    lemma_group_node(n, list_nodes(tss));
    let v = choose|v: Vec<Node>| n == Node::Group(v) && #[trigger] trees(v@) == list_nodes(tss);
    lemma_trees_index(v@);
    assert(trees(v@).subrange(1, v@.len() as int) =~= flat_groups(tss));
    v
}

/// The merges section read from the three lists as the writer puts them
/// down.
pub proof fn lemma_merges_section(
    items: Seq<Node>,
    p: int,
    a: Seq<Merge>,
    b: Seq<(u32, u32)>,
    c: Seq<(u32, u32)>,
)
    requires
        0 <= p,
        p + 3 <= items.len(),
        tree(items[p]) == NodeView::Group(list_nodes(merges_tokens(a))),
        tree(items[p + 1]) == NodeView::Group(list_nodes(pairs_tokens(b, false))),
        tree(items[p + 2]) == NodeView::Group(list_nodes(pairs_tokens(c, true))),
    ensures
        merges_section(items, p) == Ok::<((Seq<Merge>, Seq<(u32, u32)>, Seq<(u32, u32)>), int), ReadError>(
            ((a, b, c), p + 3),
        ),
{
    let l1 = lemma_list_group(items[p], merges_tokens(a));
    lemma_merges_from(l1@, 1, a);
    let l2 = lemma_list_group(items[p + 1], pairs_tokens(b, false));
    lemma_pairs_from(l2@, 1, b, false);
    let l3 = lemma_list_group(items[p + 2], pairs_tokens(c, true));
    lemma_pairs_from(l3@, 1, c, true);
    assert(item_group(items, p) == Ok::<Vec<Node>, ReadError>(l1));
    assert(item_group(items, p + 1) == Ok::<Vec<Node>, ReadError>(l2));
    assert(item_group(items, p + 2) == Ok::<Vec<Node>, ReadError>(l3));
}

// --- row groups ------------------------------------------------------------------------

/// The name block of a row group as written: `{1,0}` for none, else the
/// name in a `"#"` pair.
pub open spec fn group_name_nodes(name: Seq<char>) -> Seq<NodeView> {
    if name.len() == 0 {
        seq![NodeView::Atom("1"@), NodeView::Atom("0"@)]
    } else {
        seq![NodeView::Atom("1"@), NodeView::Atom("1"@), NodeView::Group(seq![NodeView::Text("#"@), NodeView::Text(name)])]
    }
}

/// The record of a row group as written.
pub open spec fn group_rec_nodes(g: RowGroup) -> Seq<NodeView> {
    seq![
        NodeView::Atom(spec_int(g.r1 as int)),
        NodeView::Atom(spec_int(g.r2 as int)),
        NodeView::Atom(spec_int(g.level as int)),
        NodeView::Group(group_name_nodes(g.name@)),
        NodeView::Atom(spec_int(flag(g.collapsed))),
        NodeView::Atom("0"@),
    ]
}

/// The items of the row groups: each record, then `-1`.
pub open spec fn groups_items(gs: Seq<RowGroup>) -> Seq<NodeView>
    decreases gs.len(),
{
    if gs.len() == 0 {
        Seq::empty()
    } else {
        seq![NodeView::Group(group_rec_nodes(gs[0])), NodeView::Atom(spec_int(-1))] + groups_items(gs.drop_first())
    }
}

proof fn lemma_single_token(s: Seq<char>, i: int, c: char)
    requires
        0 <= i < s.len(),
        s[i] == c,
        atom_char(c),
    ensures
        s.subrange(i, i + 1) == seq![c],
        is_token(seq![c]),
{
    lemma_one_char(s, i, c);
}

/// The name block parses into one group.
proof fn lemma_group_name(s: Seq<char>, i: int, name: Seq<char>, items: Seq<NodeView>, atom: Seq<char>)
    requires
        blank(atom),
        at(s, i, group_name_text(name)),
    ensures
        group_from(s, i, items, atom) == group_from(
            s,
            i + group_name_text(name).len(),
            items.push(NodeView::Group(group_name_nodes(name))),
            Seq::empty(),
        ),
{
    reveal_strlit("{1,0}");
    reveal_strlit("{1,1,\n{\"#\",");
    reveal_strlit("}\n}");
    reveal_strlit("1");
    reveal_strlit("0");
    reveal_strlit("#");
    reveal_strlit("\"#\"");
    let t = group_name_text(name);
    lemma_at_char(s, i, t, 0);
    lemma_at_char(s, i, t, 1);
    lemma_at_char(s, i, t, 2);
    lemma_at_char(s, i, t, 3);
    assert("1"@ =~= seq!['1']);
    assert("0"@ =~= seq!['0']);
    lemma_single_token(s, i + 1, '1');
    let e = Seq::<NodeView>::empty();
    lemma_token_comma(s, i + 1, "1"@, e);
    let g1 = e.push(NodeView::Atom("1"@));
    if name.len() == 0 {
        lemma_at_char(s, i, t, 4);
        lemma_single_token(s, i + 3, '0');
        lemma_token_close(s, i + 3, "0"@, g1);
        assert(g1.push(NodeView::Atom("0"@)) =~= group_name_nodes(name));
        lemma_open(s, i, items, atom, group_name_nodes(name), i + 5);
    } else {
        let head = "{1,1,\n{\"#\","@;
        let q = quote(name);
        let n = q.len() as int;
        let tail = "}\n}"@;
        assert(t == head + (q + tail));
        lemma_split(s, i, head, q + tail);
        lemma_split(s, i + 11, q, tail);
        lemma_at_char(s, i, head, 4);
        lemma_at_char(s, i, head, 5);
        lemma_at_char(s, i, head, 6);
        lemma_at_char(s, i, head, 7);
        lemma_at_char(s, i, head, 8);
        lemma_at_char(s, i, head, 9);
        lemma_at_char(s, i, head, 10);
        lemma_at_char(s, i + 11 + n, tail, 0);
        lemma_at_char(s, i + 11 + n, tail, 1);
        lemma_at_char(s, i + 11 + n, tail, 2);
        lemma_single_token(s, i + 3, '1');
        lemma_token_comma(s, i + 3, "1"@, g1);
        let g2 = g1.push(NodeView::Atom("1"@));
        lemma_space(s, i + 5, g2, Seq::empty());
        // the pair `"#"`, name
        let h = "#"@;
        assert(quote(h) =~= "\"#\""@) by {
            assert(doubled(h) =~= h) by {
                assert(h.drop_last() =~= Seq::<char>::empty());
                assert(doubled(Seq::<char>::empty()) =~= Seq::<char>::empty());
            }
        }
        assert(s.subrange(i + 7, i + 10) =~= quote(h));
        lemma_quoted(s, i + 7, h, e, Seq::empty());
        let p1 = e.push(NodeView::Text(h));
        lemma_comma(s, i + 10, p1, Seq::empty());
        lemma_quoted(s, i + 11, name, p1, Seq::empty());
        let p2 = p1.push(NodeView::Text(name));
        lemma_close(s, i + 11 + n, p2, Seq::empty());
        assert(p2 =~= seq![NodeView::Text("#"@), NodeView::Text(name)]);
        lemma_open(s, i + 6, g2, seq![' '], p2, i + 12 + n);
        let g3 = g2.push(NodeView::Group(p2));
        lemma_space(s, i + 12 + n, g3, Seq::empty());
        lemma_close(s, i + 13 + n, g3, seq![' ']);
        assert(g3 =~= group_name_nodes(name));
        lemma_open(s, i, items, atom, group_name_nodes(name), i + 14 + n);
    }
}

/// The inside of a row group record as written, after its opening brace.
pub open spec fn group_inner(g: RowGroup) -> Seq<char> {
    spec_int(g.r1 as int) + (","@ + (spec_int(g.r2 as int) + (","@ + (spec_int(g.level as int) + (",\n"@ + (
    group_name_text(g.name@) + (","@ + (spec_int(flag(g.collapsed)) + ",0}"@))))))))
}

#[verifier::rlimit(30)]
proof fn lemma_group_rec(s: Seq<char>, p0: int, g: RowGroup)
    requires
        at(s, p0, group_inner(g)),
    ensures
        group_from(s, p0, Seq::empty(), Seq::empty()) == Ok::<(Seq<NodeView>, int), ReadError>(
            (group_rec_nodes(g), p0 + group_inner(g).len()),
        ),
{
    reveal_strlit(",");
    reveal_strlit(",\n");
    reveal_strlit(",0}");
    reveal_strlit("0");
    let a = spec_int(g.r1 as int);
    let b = spec_int(g.r2 as int);
    let c = spec_int(g.level as int);
    let nt = group_name_text(g.name@);
    let f = spec_int(flag(g.collapsed));
    lemma_int_token(g.r1 as int);
    lemma_int_token(g.r2 as int);
    lemma_int_token(g.level as int);
    lemma_int_token(flag(g.collapsed));
    lemma_split(s, p0, a, ","@ + (b + (","@ + (c + (",\n"@ + (nt + (","@ + (f + ",0}"@))))))));
    let p1 = p0 + a.len();
    lemma_split(s, p1, ","@, b + (","@ + (c + (",\n"@ + (nt + (","@ + (f + ",0}"@)))))));
    lemma_split(s, p1 + 1, b, ","@ + (c + (",\n"@ + (nt + (","@ + (f + ",0}"@))))));
    let p2 = p1 + 1 + b.len();
    lemma_split(s, p2, ","@, c + (",\n"@ + (nt + (","@ + (f + ",0}"@)))));
    lemma_split(s, p2 + 1, c, ",\n"@ + (nt + (","@ + (f + ",0}"@))));
    let p3 = p2 + 1 + c.len();
    lemma_split(s, p3, ",\n"@, nt + (","@ + (f + ",0}"@)));
    lemma_split(s, p3 + 2, nt, ","@ + (f + ",0}"@));
    let p4 = p3 + 2 + nt.len();
    lemma_split(s, p4, ","@, f + ",0}"@);
    lemma_split(s, p4 + 1, f, ",0}"@);
    let p5 = p4 + 1 + f.len();
    lemma_at_char(s, p1, ","@, 0);
    lemma_at_char(s, p2, ","@, 0);
    lemma_at_char(s, p3, ",\n"@, 0);
    lemma_at_char(s, p3, ",\n"@, 1);
    lemma_at_char(s, p4, ","@, 0);
    lemma_at_char(s, p5, ",0}"@, 0);
    lemma_at_char(s, p5, ",0}"@, 1);
    lemma_at_char(s, p5, ",0}"@, 2);
    let e = Seq::<NodeView>::empty();
    lemma_token_comma(s, p0, a, e);
    let r1 = e.push(NodeView::Atom(a));
    lemma_token_comma(s, p1 + 1, b, r1);
    let r2 = r1.push(NodeView::Atom(b));
    lemma_token_comma(s, p2 + 1, c, r2);
    let r3 = r2.push(NodeView::Atom(c));
    lemma_space(s, p3 + 1, r3, Seq::empty());
    lemma_group_name(s, p3 + 2, g.name@, r3, seq![' ']);
    let r4 = r3.push(NodeView::Group(group_name_nodes(g.name@)));
    lemma_comma(s, p4, r4, Seq::empty());
    lemma_token_comma(s, p4 + 1, f, r4);
    let r5 = r4.push(NodeView::Atom(f));
    assert("0"@ =~= seq!['0']);
    lemma_single_token(s, p5 + 1, '0');
    lemma_token_close(s, p5 + 1, "0"@, r5);
    assert(r5.push(NodeView::Atom("0"@)) =~= group_rec_nodes(g));
}

#[verifier::spinoff_prover]
#[verifier::rlimit(60)]
proof fn lemma_group_text_parts(g: RowGroup)
    ensures
        group_text(g) + ","@ == "\n{"@ + (group_inner(g) + ",-1,"@),
{
    reveal_strlit("\n{");
    reveal_strlit(",-1,");
    reveal_strlit(",0},-1");
    reveal_strlit(",0}");
    reveal_strlit(",");
    reveal_strlit(",\n");
    let a = spec_int(g.r1 as int);
    let b = spec_int(g.r2 as int);
    let c = spec_int(g.level as int);
    let nt = group_name_text(g.name@);
    let f = spec_int(flag(g.collapsed));
    let l = "\n{"@ + a + ","@ + b + ","@ + c + ",\n"@ + nt + ","@ + f;
    assert(group_text(g) == l + ",0},-1"@);
    assert(",0},-1"@ + ","@ =~= ",0}"@ + ",-1,"@);
    assert((l + ",0},-1"@) + ","@ =~= l + (",0},-1"@ + ","@));
    assert(l + ",0}"@ =~= "\n{"@ + group_inner(g));
    assert(l + (",0}"@ + ",-1,"@) =~= (l + ",0}"@) + ",-1,"@);
    assert(("\n{"@ + group_inner(g)) + ",-1,"@ =~= "\n{"@ + (group_inner(g) + ",-1,"@));
}

/// A row group record as written, its `-1` and the comma after it.
#[verifier::rlimit(40)]
proof fn lemma_group_text(s: Seq<char>, i: int, g: RowGroup, items: Seq<NodeView>, atom: Seq<char>)
    requires
        blank(atom),
        at(s, i, group_text(g) + ","@),
    ensures
        group_from(s, i, items, atom) == group_from(
            s,
            i + group_text(g).len() + 1,
            items + seq![NodeView::Group(group_rec_nodes(g)), NodeView::Atom(spec_int(-1))],
            Seq::empty(),
        ),
{
    reveal_strlit("\n{");
    reveal_strlit(",-1,");
    reveal_strlit(",0},-1");
    reveal_strlit(",0}");
    reveal_strlit(",");
    reveal_strlit(",\n");
    let inner = group_inner(g);
    let m1 = spec_int(-1);
    lemma_int_token(-1);
    assert(m1 =~= seq!['-', '1']);
    lemma_group_text_parts(g);
    lemma_split(s, i, "\n{"@, inner + ",-1,"@);
    lemma_split(s, i + 2, inner, ",-1,"@);
    let p6 = i + 2 + inner.len();
    lemma_at_char(s, i, "\n{"@, 0);
    lemma_at_char(s, i, "\n{"@, 1);
    lemma_at_char(s, p6, ",-1,"@, 0);
    lemma_at_char(s, p6, ",-1,"@, 1);
    lemma_at_char(s, p6, ",-1,"@, 2);
    lemma_at_char(s, p6, ",-1,"@, 3);
    lemma_group_rec(s, i + 2, g);
    let rec = group_rec_nodes(g);
    lemma_space(s, i, items, atom);
    lemma_open(s, i + 1, items, atom.push(' '), rec, p6);
    let it1 = items.push(NodeView::Group(rec));
    lemma_comma(s, p6, it1, Seq::empty());
    assert(s.subrange(p6 + 1, p6 + 3) =~= m1);
    lemma_token_comma(s, p6 + 1, m1, it1);
    assert(it1.push(NodeView::Atom(m1)) =~= items + seq![NodeView::Group(group_rec_nodes(g)), NodeView::Atom(spec_int(-1))]);
    assert(i + group_text(g).len() + 1 == p6 + 4);
}

pub open spec fn group_recs(gs: Seq<RowGroup>) -> Seq<Seq<char>> {
    Seq::new(gs.len(), |k: int| group_text(gs[k]))
}

proof fn lemma_group_list(s: Seq<char>, i: int, gs: Seq<RowGroup>, items: Seq<NodeView>)
    requires
        gs.len() > 0,
        at(s, i, join(group_recs(gs), ","@) + ","@),
    ensures
        group_from(s, i, items, Seq::empty()) == group_from(
            s,
            i + join(group_recs(gs), ","@).len() + 1,
            items + groups_items(gs),
            Seq::empty(),
        ),
    decreases gs.len(),
{
    reveal_strlit(",");
    let recs = group_recs(gs);
    let r0 = recs[0];
    let pair = seq![NodeView::Group(group_rec_nodes(gs[0])), NodeView::Atom(spec_int(-1))];
    let rest = gs.drop_first();
    assert(groups_items(gs) == pair + groups_items(rest));
    if gs.len() == 1 {
        assert(join(recs, ","@) == r0);
        lemma_group_text(s, i, gs[0], items, Seq::empty());
        assert(groups_items(rest) =~= Seq::<NodeView>::empty());
        assert(items + pair =~= items + groups_items(gs));
    } else {
        lemma_join_front(recs, ","@);
        assert(recs.drop_first() =~= group_recs(rest));
        let jr = join(group_recs(rest), ","@);
        assert(join(recs, ","@) + ","@ =~= (r0 + ","@) + (jr + ","@));
        lemma_split(s, i, r0 + ","@, jr + ","@);
        lemma_group_text(s, i, gs[0], items, Seq::empty());
        lemma_group_list(s, i + r0.len() + 1, rest, items + pair);
        assert((items + pair) + groups_items(rest) =~= items + groups_items(gs));
    }
}

/// The row groups as the writer puts them down: the count, then each
/// record with its `-1`.
pub proof fn lemma_groups_text(s: Seq<char>, i: int, gs: Seq<RowGroup>, items: Seq<NodeView>)
    requires
        at(s, i, groups_text(gs)),
    ensures
        group_from(s, i, items, Seq::empty()) == group_from(
            s,
            i + groups_text(gs).len(),
            items + seq![NodeView::Atom(spec_int(gs.len() as int))] + groups_items(gs),
            Seq::empty(),
        ),
{
    reveal_strlit("0,");
    reveal_strlit(",");
    let n = spec_int(gs.len() as int);
    lemma_int_token(gs.len() as int);
    if gs.len() == 0 {
        assert(n =~= seq!['0']);
        lemma_at_char(s, i, "0,"@, 0);
        lemma_at_char(s, i, "0,"@, 1);
        lemma_single_token(s, i, '0');
        lemma_token_comma(s, i, n, items);
        assert(groups_items(gs) =~= Seq::<NodeView>::empty());
        assert(items.push(NodeView::Atom(n)) =~= items + seq![NodeView::Atom(n)] + groups_items(gs));
    } else {
        let j = join(group_recs(gs), ","@);
        assert(groups_text(gs) =~= n + (","@ + (j + ","@)));
        lemma_split(s, i, n, ","@ + (j + ","@));
        lemma_split(s, i + n.len(), ","@, j + ","@);
        lemma_at_char(s, i + n.len(), ","@, 0);
        lemma_token_comma(s, i, n, items);
        lemma_group_list(s, i + n.len() + 1, gs, items.push(NodeView::Atom(n)));
        assert(items.push(NodeView::Atom(n)) + groups_items(gs) =~= items + seq![NodeView::Atom(n)] + groups_items(gs));
    }
}

/// What the reader takes from a row group.
pub open spec fn group_tuple(g: RowGroup) -> (u32, u32, u32, Seq<char>, bool) {
    (g.r1, g.r2, g.level, g.name@, g.collapsed)
}

pub open spec fn group_tuples(gs: Seq<RowGroup>) -> Seq<(u32, u32, u32, Seq<char>, bool)> {
    Seq::new(gs.len(), |k: int| group_tuple(gs[k]))
}

proof fn lemma_row_group_of(rec: Seq<Node>, g: RowGroup)
    requires
        trees(rec) == group_rec_nodes(g),
    ensures
        row_group_of(rec) == Ok::<(u32, u32, u32, Seq<char>, bool), ReadError>(group_tuple(g)),
{
    reveal_strlit("#");
    lemma_trees_index(rec);
    let ns = group_rec_nodes(g);
    assert(trees(rec)[0] == ns[0]);
    assert(trees(rec)[1] == ns[1]);
    assert(trees(rec)[2] == ns[2]);
    assert(trees(rec)[3] == ns[3]);
    assert(trees(rec)[4] == ns[4]);
    lemma_atom_number(rec[0], g.r1 as int);
    lemma_atom_number(rec[1], g.r2 as int);
    lemma_atom_number(rec[2], g.level as int);
    lemma_atom_number(rec[4], flag(g.collapsed));
    lemma_group_node(rec[3], group_name_nodes(g.name@));
    let loc = choose|v: Vec<Node>| rec[3] == Node::Group(v) && #[trigger] trees(v@) == group_name_nodes(g.name@);
    assert(group_at_spec(rec, 3) == Some(loc));
    lemma_trees_index(loc@);
    if g.name@.len() == 0 {
        assert(loc@.len() == 2);
        assert(group_at_spec(loc@, 2) is None);
        assert(g.name@ =~= Seq::<char>::empty());
    } else {
        let pr = seq![NodeView::Text("#"@), NodeView::Text(g.name@)];
        assert(trees(loc@)[2] == NodeView::Group(pr));
        lemma_group_node(loc@[2], pr);
        let pair = choose|v: Vec<Node>| loc@[2] == Node::Group(v) && #[trigger] trees(v@) == pr;
        assert(group_at_spec(loc@, 2) == Some(pair));
        lemma_trees_index(pair@);
        assert(trees(pair@)[1] == NodeView::Text(g.name@));
        assert(node_text(pair@[1]) == g.name@) by {
            match pair@[1] {
                Node::Text(t) => {},
                Node::Atom(t) => {},
                Node::Group(v) => {},
            }
        }
    }
}

/// The row groups read from their items as the writer puts them down.
pub proof fn lemma_groups_from(items: Seq<Node>, p: int, k: int, gs: Seq<RowGroup>)
    requires
        0 <= p,
        p + 2 * gs.len() <= items.len(),
        trees(items).subrange(p, p + 2 * gs.len()) == groups_items(gs),
    ensures
        groups_from(items, p, k, k + gs.len()) == Ok::<(Seq<(u32, u32, u32, Seq<char>, bool)>, int), ReadError>(
            (group_tuples(gs), p + 2 * gs.len()),
        ),
    decreases gs.len(),
{
    lemma_trees_index(items);
    if gs.len() == 0 {
        assert(group_tuples(gs) =~= Seq::<(u32, u32, u32, Seq<char>, bool)>::empty());
    } else {
        let rest = gs.drop_first();
        let pair = seq![NodeView::Group(group_rec_nodes(gs[0])), NodeView::Atom(spec_int(-1))];
        let sub = trees(items).subrange(p, p + 2 * gs.len());
        assert(groups_items(gs) == pair + groups_items(rest));
        assert(sub[0] == pair[0]);
        assert(tree(items[p]) == NodeView::Group(group_rec_nodes(gs[0])));
        lemma_group_node(items[p], group_rec_nodes(gs[0]));
        let v = choose|v: Vec<Node>| items[p] == Node::Group(v) && #[trigger] trees(v@) == group_rec_nodes(gs[0]);
        assert(item_group(items, p) == Ok::<Vec<Node>, ReadError>(v));
        lemma_row_group_of(v@, gs[0]);
        assert(trees(items).subrange(p + 2, p + 2 + 2 * rest.len()) =~= groups_items(rest)) by {
            assert forall|q: int| 0 <= q < groups_items(rest).len() implies trees(items).subrange(
                p + 2,
                p + 2 + 2 * rest.len(),
            )[q] == #[trigger] groups_items(rest)[q] by {
                assert(sub[q + 2] == (pair + groups_items(rest))[q + 2]);
            }
        }
        lemma_groups_from(items, p + 2, k + 1, rest);
        assert(seq![group_tuple(gs[0])] + group_tuples(rest) =~= group_tuples(gs));
    }
}

pub proof fn lemma_groups_items_len(gs: Seq<RowGroup>)
    ensures
        groups_items(gs).len() == 2 * gs.len(),
    decreases gs.len(),
{
    if gs.len() > 0 {
        lemma_groups_items_len(gs.drop_first());
    }
}


// --- fonts -------------------------------------------------------------------------------

/// Tokens each followed by a comma.
pub open spec fn commas(ts: Seq<Seq<char>>) -> Seq<char>
    decreases ts.len(),
{
    if ts.len() == 0 {
        Seq::empty()
    } else {
        ts[0] + ","@ + commas(ts.drop_first())
    }
}

proof fn lemma_commas_concat(a: Seq<Seq<char>>, b: Seq<Seq<char>>)
    ensures
        commas(a + b) == commas(a) + commas(b),
    decreases a.len(),
{
    if a.len() == 0 {
        assert(a + b =~= b);
        assert(commas(a) + commas(b) =~= commas(b));
    } else {
        assert((a + b).drop_first() =~= a.drop_first() + b);
        assert((a + b)[0] == a[0]);
        lemma_commas_concat(a.drop_first(), b);
        assert(a[0] + ","@ + commas(a.drop_first() + b) =~= a[0] + ","@ + commas(a.drop_first()) + commas(b));
    }
}

/// Tokens each followed by a comma read as their atoms.
proof fn lemma_commas_tokens(s: Seq<char>, i: int, ts: Seq<Seq<char>>, items: Seq<NodeView>)
    requires
        forall|k: int| 0 <= k < ts.len() ==> is_token(#[trigger] ts[k]),
        at(s, i, commas(ts)),
    ensures
        group_from(s, i, items, Seq::empty()) == group_from(s, i + commas(ts).len(), items + atoms(ts), Seq::empty()),
    decreases ts.len(),
{
    reveal_strlit(",");
    if ts.len() == 0 {
        assert(items + atoms(ts) =~= items);
    } else {
        let t = ts[0];
        let rest = ts.drop_first();
        assert(commas(ts) == t + (","@ + commas(rest)));
        lemma_split(s, i, t, ","@ + commas(rest));
        lemma_split(s, i + t.len(), ","@, commas(rest));
        lemma_at_char(s, i + t.len(), ","@, 0);
        lemma_token_comma(s, i, t, items);
        assert forall|k: int| 0 <= k < rest.len() implies is_token(#[trigger] rest[k]) by {
            assert(rest[k] == ts[k + 1]);
        }
        lemma_commas_tokens(s, i + t.len() + 1, rest, items.push(NodeView::Atom(t)));
        assert(items.push(NodeView::Atom(t)) + atoms(rest) =~= items + atoms(ts));
    }
}

/// The fields of a font record before its face, as written.
pub open spec fn font_tokens(f: FontView) -> Seq<Seq<char>> {
    seq![
        "7"@,
        "0"@,
        "703"@,
        spec_int(f.size * 10),
        "0"@,
        "0"@,
        "0"@,
        spec_int(if f.bold { 700 } else { 400 }),
        spec_int(flag(f.italic)),
        spec_int(flag(f.underline)),
        spec_int(flag(f.strikeout)),
        "0"@,
        "0"@,
        "0"@,
        "0"@,
        "34"@,
    ]
}

/// A font record as written: its fields, the face, then `1` and `100`.
pub open spec fn font_nodes(f: FontView) -> Seq<NodeView> {
    atoms(font_tokens(f)) + seq![NodeView::Text(f.face), NodeView::Atom("1"@), NodeView::Atom("100"@)]
}

#[verifier::rlimit(60)]
#[verifier::spinoff_prover]
proof fn lemma_font_text_parts(f: FontView)
    ensures
        font_text(f) == "{"@ + commas(font_tokens(f)) + (quote(f.face) + ",1,100}"@),
        forall|k: int| 0 <= k < font_tokens(f).len() ==> is_token(#[trigger] font_tokens(f)[k]),
{
    reveal_strlit("{7,0,703,");
    reveal_strlit(",0,0,0,");
    reveal_strlit(",");
    reveal_strlit(",0,0,0,0,34,");
    reveal_strlit("{");
    reveal_strlit("7");
    reveal_strlit("0");
    reveal_strlit("703");
    reveal_strlit("34");
    reveal_strlit("7,0,703,");
    reveal_strlit("0,0,0,");
    reveal_strlit("0,0,0,0,34,");
    let ts = font_tokens(f);
    let a = seq!["7"@, "0"@, "703"@];
    let b = seq![spec_int(f.size * 10)];
    let c = seq!["0"@, "0"@, "0"@];
    let d = seq![spec_int(if f.bold { 700 } else { 400 })];
    let e = seq![spec_int(flag(f.italic)), spec_int(flag(f.underline)), spec_int(flag(f.strikeout))];
    let g = seq!["0"@, "0"@, "0"@, "0"@, "34"@];
    assert(ts =~= a + b + c + d + e + g);
    lemma_commas_concat(a + b + c + d + e, g);
    lemma_commas_concat(a + b + c + d, e);
    lemma_commas_concat(a + b + c, d);
    lemma_commas_concat(a + b, c);
    lemma_commas_concat(a, b);
    reveal_with_fuel(commas, 6);
    assert(commas(a) =~= "7,0,703,"@);
    assert(commas(c) =~= "0,0,0,"@);
    assert(commas(g) =~= "0,0,0,0,34,"@);
    assert(commas(b) =~= spec_int(f.size * 10) + ","@);
    assert(commas(d) =~= spec_int(if f.bold { 700 } else { 400 }) + ","@);
    assert(commas(e) =~= spec_int(flag(f.italic)) + ","@ + spec_int(flag(f.underline)) + ","@ + spec_int(
        flag(f.strikeout),
    ) + ","@);
    assert(font_head(f) =~= "{"@ + commas(a) + commas(b) + commas(c) + commas(d));
    assert(font_flags(f) + ",0,0,0,0,34,"@ =~= commas(e) + commas(g));
    assert(font_text(f) =~= "{"@ + commas(ts) + (quote(f.face) + ",1,100}"@));
    assert forall|k: int| 0 <= k < ts.len() implies is_token(#[trigger] ts[k]) by {
        lemma_int_token(f.size * 10);
        lemma_int_token(if f.bold { 700 } else { 400 });
        lemma_int_token(flag(f.italic));
        lemma_int_token(flag(f.underline));
        lemma_int_token(flag(f.strikeout));
        assert(is_token("0"@));
        assert(is_token("7"@));
        assert(is_token("703"@));
        assert(is_token("34"@));
    }
}

/// A font record as the writer puts it down parses into one group of its
/// fields and face.
pub proof fn lemma_font_text(s: Seq<char>, i: int, f: FontView)
    requires
        at(s, i, font_text(f)),
    ensures
        group_from(s, i + 1, Seq::empty(), Seq::empty()) == Ok::<(Seq<NodeView>, int), ReadError>(
            (font_nodes(f), i + font_text(f).len()),
        ),
{
    reveal_strlit("{");
    reveal_strlit(",1,100}");
    reveal_strlit("1");
    reveal_strlit("100");
    lemma_font_text_parts(f);
    let ts = font_tokens(f);
    let q = quote(f.face);
    let tail = ",1,100}"@;
    assert(font_text(f) == "{"@ + (commas(ts) + (q + tail)));
    lemma_split(s, i, "{"@, commas(ts) + (q + tail));
    lemma_split(s, i + 1, commas(ts), q + tail);
    let j = i + 1 + commas(ts).len();
    lemma_split(s, j, q, tail);
    let e = Seq::<NodeView>::empty();
    lemma_commas_tokens(s, i + 1, ts, e);
    let it1 = e + atoms(ts);
    lemma_at_char(s, j + q.len(), tail, 0);
    lemma_quoted(s, j, f.face, it1, Seq::empty());
    let it2 = it1.push(NodeView::Text(f.face));
    let k = j + q.len();
    lemma_at_char(s, k, tail, 1);
    lemma_at_char(s, k, tail, 2);
    lemma_at_char(s, k, tail, 3);
    lemma_at_char(s, k, tail, 4);
    lemma_at_char(s, k, tail, 5);
    lemma_at_char(s, k, tail, 6);
    lemma_comma(s, k, it2, Seq::empty());
    assert("1"@ =~= seq!['1']);
    lemma_single_token(s, k + 1, '1');
    lemma_token_comma(s, k + 1, "1"@, it2);
    let it3 = it2.push(NodeView::Atom("1"@));
    assert(s.subrange(k + 3, k + 6) =~= "100"@);
    assert(is_token("100"@));
    lemma_token_close(s, k + 3, "100"@, it3);
    assert(it3.push(NodeView::Atom("100"@)) =~= font_nodes(f));
}

/// The tenth part of a number written times ten is the number.
proof fn lemma_tenths(x: i64)
    requires
        i64::MIN <= x * 10 <= i64::MAX,
    ensures
        crate::mxl_read::tenths((x * 10) as i64) == x,
{
    let v = (x * 10) as i64;
    if v >= 0 {
        assert(x >= 0);
        assert((x * 10) / 10 == x) by (nonlinear_arith);
    } else {
        assert(x < 0);
        assert((-(x * 10)) / 10 == -x) by (nonlinear_arith)
            requires
                x < 0,
        ;
    }
}

/// A font record as written reads back as the font.
pub proof fn lemma_font_of(g: Seq<Node>, f: FontView)
    requires
        trees(g) == font_nodes(f),
        i64::MIN <= f.size * 10 <= i64::MAX,
    ensures
        crate::mxl_read::font_of(g) == Ok::<FontView, ReadError>(f),
{
    reveal_strlit("0");
    lemma_trees_index(g);
    let ns = font_nodes(f);
    assert(spec_int(0) =~= "0"@);
    assert(trees(g)[1] == NodeView::Atom(spec_int(0)));
    assert(trees(g)[3] == NodeView::Atom(spec_int(f.size * 10)));
    assert(trees(g)[7] == NodeView::Atom(spec_int(if f.bold { 700 } else { 400 })));
    assert(trees(g)[8] == NodeView::Atom(spec_int(flag(f.italic))));
    assert(trees(g)[9] == NodeView::Atom(spec_int(flag(f.underline))));
    assert(trees(g)[10] == NodeView::Atom(spec_int(flag(f.strikeout))));
    assert(trees(g)[16] == NodeView::Text(f.face));
    lemma_atom_number(g[1], 0);
    lemma_atom_number(g[3], f.size * 10);
    lemma_atom_number(g[7], if f.bold { 700 } else { 400 });
    lemma_atom_number(g[8], flag(f.italic));
    lemma_atom_number(g[9], flag(f.underline));
    lemma_atom_number(g[10], flag(f.strikeout));
    lemma_tenths(f.size);
    assert(node_text(g[16]) == f.face) by {
        match g[16] {
            Node::Text(t) => {},
            Node::Atom(t) => {},
            Node::Group(v) => {},
        }
    }
}

} // verus!
