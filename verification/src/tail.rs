//! The end of the MXL text: merges, named areas, page setup, the format,
//! font and color palettes and the view settings.

use vstd::prelude::*;
use crate::format::{
    ColorPalette, ColorsView, FontPalette, Palette, colors_text, fmt_small, format_text, join,
    lemma_join_step, lemma_small_mask, lemma_take_all,
};
use crate::model::{FontView, Merge, NamedArea, PageMargins, SpreadDocData};
use crate::records::{area_text, flag, font_text, merge_text};
use crate::sorting::{sort_merges, sort_pairs, sorted_merges, sorted_pairs};
use crate::text::{push_int, push_quoted, push_str, quote, spec_int};

verus! {

/// A counted list of records, `,\n` between them.
pub open spec fn list_text(recs: Seq<Seq<char>>) -> Seq<char> {
    if recs.len() == 0 {
        "{0},\n"@
    } else {
        "{"@ + spec_int(recs.len() as int) + ",\n"@ + join(recs, ",\n"@) + "\n},\n"@
    }
}

pub open spec fn merge_rec(m: Merge) -> Seq<char> {
    "{"@ + merge_text(m) + "}"@
}

pub open spec fn row_merge_rec(p: (u32, u32)) -> Seq<char> {
    "{-1,"@ + spec_int(p.0 as int) + ",-1,"@ + spec_int(p.1 as int) + ",0}"@
}

pub open spec fn col_merge_rec(p: (u32, u32)) -> Seq<char> {
    "{"@ + spec_int(p.0 as int) + ",-1,"@ + spec_int(p.1 as int) + ",-1,0,00000000-0000-0000-0000-000000000000}"@
}

/// Three lists one after another: merges of rectangles, of whole rows and
/// of whole columns, each in order of row, then column.
pub open spec fn merges_text(ms: Seq<Merge>, rows: Seq<(u32, u32)>, cols: Seq<(u32, u32)>) -> Seq<char> {
    list_text(merge_recs(sort_merges(ms))) + list_text(pair_recs(sort_pairs(rows), false)) + list_text(
        pair_recs(sort_pairs(cols), true),
    )
}

pub open spec fn merge_recs(a: Seq<Merge>) -> Seq<Seq<char>> {
    Seq::new(a.len(), |i: int| merge_rec(a[i]))
}

pub open spec fn pair_recs(a: Seq<(u32, u32)>, columns: bool) -> Seq<Seq<char>> {
    Seq::new(
        a.len(),
        |i: int|
            if columns {
                col_merge_rec(a[i])
            } else {
                row_merge_rec(a[i])
            },
    )
}

fn push_list_head(out: &mut String, n: usize)
    requires
        n > 0,
    ensures
        final(out)@ == old(out)@ + "{"@ + spec_int(n as int) + ",\n"@,
{
    push_str(out, "{");
    push_int(out, n as i128);
    push_str(out, ",\n");
}

fn push_merge_list(out: &mut String, ms: &Vec<Merge>)
    ensures
        final(out)@ == old(out)@ + list_text(merge_recs(sort_merges(ms@))),
{
    let a = sorted_merges(ms);
    let ghost parts = merge_recs(a@);
    if a.len() == 0 {
        push_str(out, "{0},\n");
        return;
    }
    push_list_head(out, a.len());
    let ghost start = out@;
    let mut i: usize = 0;
    while i < a.len()
        invariant
            parts == merge_recs(a@),
            i <= a@.len(),
            out@ == start + join(parts.take(i as int), ",\n"@),
        decreases a@.len() - i,
    {
        if i > 0 {
            push_str(out, ",\n");
        }
        let ghost before = out@;
        push_str(out, "{");
        a[i].push_render(out);
        push_str(out, "}");
        proof {
            assert(out@ =~= before + parts[i as int]);
            lemma_join_step(parts, ",\n"@, i as int);
        }
        i = i + 1;
    }
    push_str(out, "\n},\n");
    proof {
        lemma_take_all(parts);
        assert(final(out)@ =~= old(out)@ + list_text(parts));
    }
}

fn push_pair_list(out: &mut String, ps: &Vec<(u32, u32)>, columns: bool)
    ensures
        final(out)@ == old(out)@ + list_text(pair_recs(sort_pairs(ps@), columns)),
{
    let a = sorted_pairs(ps);
    let ghost parts = pair_recs(a@, columns);
    if a.len() == 0 {
        push_str(out, "{0},\n");
        return;
    }
    push_list_head(out, a.len());
    let ghost start = out@;
    let mut i: usize = 0;
    while i < a.len()
        invariant
            parts == pair_recs(a@, columns),
            i <= a@.len(),
            out@ == start + join(parts.take(i as int), ",\n"@),
        decreases a@.len() - i,
    {
        if i > 0 {
            push_str(out, ",\n");
        }
        let ghost before = out@;
        if columns {
            push_str(out, "{");
            push_int(out, a[i].0 as i128);
            push_str(out, ",-1,");
            push_int(out, a[i].1 as i128);
            push_str(out, ",-1,0,00000000-0000-0000-0000-000000000000}");
        } else {
            push_str(out, "{-1,");
            push_int(out, a[i].0 as i128);
            push_str(out, ",-1,");
            push_int(out, a[i].1 as i128);
            push_str(out, ",0}");
        }
        proof {
            assert(out@ =~= before + parts[i as int]);
            lemma_join_step(parts, ",\n"@, i as int);
        }
        i = i + 1;
    }
    push_str(out, "\n},\n");
    proof {
        lemma_take_all(parts);
        assert(final(out)@ =~= old(out)@ + list_text(parts));
    }
}

pub fn push_merges(out: &mut String, doc: &SpreadDocData)
    ensures
        final(out)@ == old(out)@ + merges_text(doc.merges@, doc.row_merges@, doc.col_merges@),
{
    push_merge_list(out, &doc.merges);
    push_pair_list(out, &doc.row_merges, false);
    push_pair_list(out, &doc.col_merges, true);
    proof {
        assert(final(out)@ =~= old(out)@ + merges_text(doc.merges@, doc.row_merges@, doc.col_merges@));
    }
}

/// A named area record: the name, then the area.
pub open spec fn name_rec(n: (String, NamedArea)) -> Seq<char> {
    quote(n.0@) + ",\n{1,\n{"@ + area_text(n.1) + "},0}"@
}

/// The named areas, in order of name.
pub open spec fn names_text(ns: Seq<(String, NamedArea)>) -> Seq<char> {
    if ns.len() == 0 {
        "{0},\"\",\n"@
    } else {
        "{"@ + spec_int(ns.len() as int) + ","@ + join(Seq::new(ns.len(), |i: int| name_rec(ns[i])), ","@)
            + "\n},\"\",\n"@
    }
}

pub fn push_names(out: &mut String, ns: &Vec<(String, NamedArea)>)
    ensures
        final(out)@ == old(out)@ + names_text(ns@),
{
    if ns.len() == 0 {
        push_str(out, "{0},\"\",\n");
        return;
    }
    let ghost parts = Seq::new(ns@.len(), |i: int| name_rec(ns@[i]));
    push_str(out, "{");
    push_int(out, ns.len() as i128);
    push_str(out, ",");
    let ghost start = out@;
    let mut i: usize = 0;
    while i < ns.len()
        invariant
            parts == Seq::new(ns@.len(), |i: int| name_rec(ns@[i])),
            i <= ns@.len(),
            out@ == start + join(parts.take(i as int), ","@),
        decreases ns@.len() - i,
    {
        if i > 0 {
            push_str(out, ",");
        }
        let ghost before = out@;
        push_quoted(out, ns[i].0.as_str());
        push_str(out, ",\n{1,\n{");
        ns[i].1.push_render(out);
        push_str(out, "},0}");
        proof {
            assert(out@ =~= before + parts[i as int]);
            lemma_join_step(parts, ","@, i as int);
        }
        i = i + 1;
    }
    push_str(out, "\n},\"\",\n");
    proof {
        lemma_take_all(parts);
        assert(final(out)@ =~= old(out)@ + names_text(ns@));
    }
}

/// The page setup as pairs of id and value, in order of id: landscape is
/// `1 -> 2`, the print scale `2 -> percent`, and the margins are `6..9` in
/// the order top, left, bottom, right; `10` and `11` are always 1000.
pub open spec fn page_pairs(landscape: bool, scale: Option<i64>, m: PageMargins) -> Seq<(int, int)> {
    (if landscape {
        seq![(1int, 2int)]
    } else {
        Seq::empty()
    }) + (match scale {
        Some(s) => seq![(2int, s as int)],
        None => Seq::empty(),
    }) + seq![
        (6int, m.top as int),
        (7int, m.left as int),
        (8int, m.bottom as int),
        (9int, m.right as int),
        (10int, 1000int),
        (11int, 1000int),
    ]
}

pub open spec fn page_rec(p: (int, int)) -> Seq<char> {
    spec_int(p.0) + ",\n{\"N\","@ + spec_int(p.1) + "}"@
}

pub open spec fn page_text(ps: Seq<(int, int)>) -> Seq<char> {
    "{\n{0,"@ + spec_int(ps.len() as int) + ","@ + join(Seq::new(ps.len(), |i: int| page_rec(ps[i])), ","@)
        + "\n}\n},\n"@
}

pub fn push_page(out: &mut String, doc: &SpreadDocData)
    ensures
        final(out)@ == old(out)@ + page_text(page_pairs(doc.landscape, doc.print_scale, doc.margins)),
{
    let mut ids: Vec<i128> = Vec::new();
    let mut vals: Vec<i128> = Vec::new();
    if doc.landscape {
        ids.push(1);
        vals.push(2);
    }
    if let Some(s) = doc.print_scale {
        ids.push(2);
        vals.push(s as i128);
    }
    ids.push(6);
    vals.push(doc.margins.top as i128);
    ids.push(7);
    vals.push(doc.margins.left as i128);
    ids.push(8);
    vals.push(doc.margins.bottom as i128);
    ids.push(9);
    vals.push(doc.margins.right as i128);
    ids.push(10);
    vals.push(1000);
    ids.push(11);
    vals.push(1000);
    let ghost ps = page_pairs(doc.landscape, doc.print_scale, doc.margins);
    proof {
        assert(ids@.len() == ps.len());
        assert forall|i: int| 0 <= i < ps.len() implies ids@[i] as int == (#[trigger] ps[i]).0 && vals@[i] as int == ps[i].1 by {
            if doc.landscape {
                if doc.print_scale is Some {
                } else {
                }
            } else {
            }
        }
    }
    let ghost parts = Seq::new(ps.len(), |i: int| page_rec(ps[i]));
    push_str(out, "{\n{0,");
    push_int(out, ids.len() as i128);
    push_str(out, ",");
    let ghost start = out@;
    let mut i: usize = 0;
    while i < ids.len()
        invariant
            ids@.len() == ps.len(),
            vals@.len() == ps.len(),
            forall|i: int| 0 <= i < ps.len() ==> ids@[i] as int == (#[trigger] ps[i]).0 && vals@[i] as int == ps[i].1,
            parts == Seq::new(ps.len(), |i: int| page_rec(ps[i])),
            i <= ps.len(),
            out@ == start + join(parts.take(i as int), ","@),
        decreases ps.len() - i,
    {
        if i > 0 {
            push_str(out, ",");
        }
        let ghost before = out@;
        push_int(out, ids[i]);
        push_str(out, ",\n{\"N\",");
        push_int(out, vals[i]);
        push_str(out, "}");
        proof {
            assert(ps[i as int].0 == ids@[i as int] as int);
            assert(out@ =~= before + parts[i as int]);
            lemma_join_step(parts, ","@, i as int);
        }
        i = i + 1;
    }
    push_str(out, "\n}\n},\n");
    proof {
        lemma_take_all(parts);
        assert(final(out)@ =~= old(out)@ + page_text(ps));
    }
}

/// The print area; none is written with -1 bounds.
pub open spec fn print_area_text(pa: Option<(u32, u32, u32, u32)>) -> Seq<char> {
    match pa {
        Some(a) => "{3,"@ + spec_int(a.0 as int) + ","@ + spec_int(a.1 as int) + ","@ + spec_int(a.2 as int) + ","@
            + spec_int(a.3 as int) + ",00000000-0000-0000-0000-000000000000},"@,
        None => "{0,-1,-1,-1,-1,00000000-0000-0000-0000-000000000000},"@,
    }
}

pub fn push_print_area(out: &mut String, pa: Option<(u32, u32, u32, u32)>)
    ensures
        final(out)@ == old(out)@ + print_area_text(pa),
{
    match pa {
        Some(a) => {
            push_str(out, "{3,");
            push_int(out, a.0 as i128);
            push_str(out, ",");
            push_int(out, a.1 as i128);
            push_str(out, ",");
            push_int(out, a.2 as i128);
            push_str(out, ",");
            push_int(out, a.3 as i128);
            push_str(out, ",00000000-0000-0000-0000-000000000000},");
            proof {
                assert(final(out)@ =~= old(out)@ + print_area_text(pa));
            }
        },
        None => {
            push_str(out, "{0,-1,-1,-1,-1,00000000-0000-0000-0000-000000000000},");
        },
    }
}

/// The format palette: its size, then each format on a line of its own.
pub open spec fn formats_tail(fs: Seq<Seq<(u32, i128)>>) -> Seq<char> {
    "0,0,0,0,0,0,0,1,0,1,"@ + spec_int(fs.len() as int) + ","@ + if fs.len() > 0 {
        "\n"@ + join(Seq::new(fs.len(), |i: int| format_text(fs[i])), ",\n"@) + ","@
    } else {
        Seq::empty()
    }
}

pub fn push_formats(out: &mut String, pal: &Palette)
    requires
        forall|i: int| 0 <= i < pal@.len() ==> fmt_small(#[trigger] pal@[i]),
    ensures
        final(out)@ == old(out)@ + formats_tail(pal@),
{
    let ghost fs = pal@;
    push_str(out, "0,0,0,0,0,0,0,1,0,1,");
    push_int(out, pal.formats.len() as i128);
    push_str(out, ",");
    let ghost mid = out@;
    if pal.formats.len() > 0 {
        let ghost parts = Seq::new(fs.len(), |i: int| format_text(fs[i]));
        push_str(out, "\n");
        let ghost start = out@;
        let mut i: usize = 0;
        while i < pal.formats.len()
            invariant
                fs == pal@,
                forall|i: int| 0 <= i < fs.len() ==> fmt_small(#[trigger] fs[i]),
                parts == Seq::new(fs.len(), |i: int| format_text(fs[i])),
                i <= fs.len(),
                out@ == start + join(parts.take(i as int), ",\n"@),
            decreases fs.len() - i,
        {
            if i > 0 {
                push_str(out, ",\n");
            }
            proof {
                assert(fs[i as int] == pal.formats@[i as int]@);
                lemma_small_mask(fs[i as int]);
            }
            pal.formats[i].push_render(out);
            proof {
                lemma_join_step(parts, ",\n"@, i as int);
            }
            i = i + 1;
        }
        push_str(out, ",");
        proof {
            lemma_take_all(parts);
        }
    }
    proof {
        assert(final(out)@ =~= old(out)@ + formats_tail(fs));
    }
}

/// The font palette: its size, then each font on a line of its own.
pub open spec fn fonts_tail(fs: Seq<FontView>) -> Seq<char> {
    spec_int(fs.len() as int) + ","@ + if fs.len() > 0 {
        "\n"@ + join(Seq::new(fs.len(), |i: int| font_text(fs[i])), ",\n"@) + ","@
    } else {
        Seq::empty()
    }
}

pub fn push_fonts(out: &mut String, fonts: &FontPalette)
    ensures
        final(out)@ == old(out)@ + fonts_tail(fonts@),
{
    let ghost fs = fonts@;
    push_int(out, fonts.fonts.len() as i128);
    push_str(out, ",");
    if fonts.fonts.len() > 0 {
        let ghost parts = Seq::new(fs.len(), |i: int| font_text(fs[i]));
        push_str(out, "\n");
        let ghost start = out@;
        let mut i: usize = 0;
        while i < fonts.fonts.len()
            invariant
                fs == fonts@,
                parts == Seq::new(fs.len(), |i: int| font_text(fs[i])),
                i <= fs.len(),
                out@ == start + join(parts.take(i as int), ",\n"@),
            decreases fs.len() - i,
        {
            if i > 0 {
                push_str(out, ",\n");
            }
            fonts.fonts[i].push_render(out);
            proof {
                lemma_join_step(parts, ",\n"@, i as int);
            }
            i = i + 1;
        }
        push_str(out, ",");
        proof {
            lemma_take_all(parts);
        }
    }
    proof {
        assert(final(out)@ =~= old(out)@ + fonts_tail(fs));
    }
}

/// The type descriptions (one for all cells with values, if any), the
/// color palette and the fields after it.
pub open spec fn values_tail(has_values: bool, colors: ColorsView) -> Seq<char> {
    let size: int = colors.colors.len() as int + colors.styles.len() as int + 2;
    (if has_values {
        "0,1,\n{\"Pattern\",\n{\"S\"}\n},1,381ed624-9217-4e63-85db-c4c3cb87daae,"@ + spec_int(size) + ",\n"@
    } else {
        "0,0,0,"@ + spec_int(size) + ",\n"@
    }) + colors_text(colors) + ",0,0,0,\"\",0,\n"@
}

pub fn push_values_tail(out: &mut String, has_values: bool, colors: &ColorPalette)
    ensures
        final(out)@ == old(out)@ + values_tail(has_values, colors@),
{
    if has_values {
        push_str(out, "0,1,\n{\"Pattern\",\n{\"S\"}\n},1,381ed624-9217-4e63-85db-c4c3cb87daae,");
    } else {
        push_str(out, "0,0,0,");
    }
    let n = colors.size();
    push_int(out, n as i128);
    push_str(out, ",\n");
    colors.push_render(out);
    push_str(out, ",0,0,0,\"\",0,\n");
    proof {
        assert(final(out)@ =~= old(out)@ + values_tail(has_values, colors@));
    }
}

pub open spec fn max0(x: i64) -> int {
    if x > 0 {
        x as int
    } else {
        0
    }
}

/// Print and view settings: the grid flag, the fixed columns and rows,
/// and whether rows are fixed at all.
pub open spec fn view_text(show_grid: bool, fix_left: i64, fix_top: i64) -> Seq<char> {
    "{3,0,0,100,"@ + spec_int(flag(show_grid)) + ",1,0,1,1,0,0,"@ + spec_int(max0(fix_left)) + ","@ + spec_int(
        max0(fix_top),
    ) + ",0,0,0,0,0,0,0,0,\"\",0,0,0,0,"@ + spec_int(flag(fix_top > 0)) + ",0,0},\n"@ + "{0},0,0,0,1,0,0,0}"@
}

pub fn push_view(out: &mut String, doc: &SpreadDocData)
    ensures
        final(out)@ == old(out)@ + view_text(doc.show_grid, doc.fix_left, doc.fix_top),
{
    let fix_top: i128 = if doc.fix_top > 0 { doc.fix_top as i128 } else { 0 };
    let fix_left: i128 = if doc.fix_left > 0 { doc.fix_left as i128 } else { 0 };
    push_str(out, "{3,0,0,100,");
    push_int(out, if doc.show_grid { 1 } else { 0 });
    push_str(out, ",1,0,1,1,0,0,");
    push_int(out, fix_left);
    push_str(out, ",");
    push_int(out, fix_top);
    push_str(out, ",0,0,0,0,0,0,0,0,\"\",0,0,0,0,");
    push_int(out, if fix_top > 0 { 1 } else { 0 });
    push_str(out, ",0,0},\n");
    push_str(out, "{0},0,0,0,1,0,0,0}");
    proof {
        assert(final(out)@ =~= old(out)@ + view_text(doc.show_grid, doc.fix_left, doc.fix_top));
    }
}

} // verus!
