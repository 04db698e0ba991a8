//! Records of the MXL text: merges, fonts, named areas and row groups.

use vstd::prelude::*;
use crate::model::{AreaKind, Font, FontView, Merge, NamedArea, RowGroup};
use crate::text::{push_int, push_quoted, push_str, quote, spec_int};

verus! {

/// `c1,r1,c2,r2,flag`: the column comes first, and a cancelling record
/// carries 2.
pub open spec fn merge_text(m: Merge) -> Seq<char> {
    spec_int(m.c1 as int) + ","@ + spec_int(m.r1 as int) + ","@ + spec_int(m.c2 as int) + ","@
        + spec_int(m.r2 as int) + ","@ + spec_int(
        if m.unmerge {
            2
        } else {
            0
        },
    )
}

impl Merge {
    pub fn push_render(&self, out: &mut String)
        ensures
            final(out)@ == old(out)@ + merge_text(*self),
    {
        push_int(out, self.c1 as i128);
        push_str(out, ",");
        push_int(out, self.r1 as i128);
        push_str(out, ",");
        push_int(out, self.c2 as i128);
        push_str(out, ",");
        push_int(out, self.r2 as i128);
        push_str(out, ",");
        push_int(out, if self.unmerge { 2 } else { 0 });
        proof {
            assert(final(out)@ =~= old(out)@ + merge_text(*self));
        }
    }

    pub fn render(&self) -> (r: String)
        ensures
            r@ == merge_text(*self),
    {
        let mut out = String::new();
        self.push_render(&mut out);
        proof {
            assert(out@ =~= merge_text(*self));
        }
        out
    }
}

pub open spec fn flag(b: bool) -> int {
    if b {
        1
    } else {
        0
    }
}

/// The size and the weight of a font record.
pub open spec fn font_head(f: FontView) -> Seq<char> {
    "{7,0,703,"@ + spec_int(f.size * 10) + ",0,0,0,"@ + spec_int(
        if f.bold {
            700
        } else {
            400
        },
    ) + ","@
}

/// The three style flags of a font record.
pub open spec fn font_flags(f: FontView) -> Seq<char> {
    spec_int(flag(f.italic)) + ","@ + spec_int(flag(f.underline)) + ","@ + spec_int(flag(f.strikeout))
}

/// A font record. The size is stored times ten, the weight as a number
/// (400 regular, 700 bold), and the other styles as three flags.
pub open spec fn font_text(f: FontView) -> Seq<char> {
    font_head(f) + font_flags(f) + ",0,0,0,0,34,"@ + quote(f.face) + ",1,100}"@
}

impl Font {
    fn push_head(&self, out: &mut String)
        ensures
            final(out)@ == old(out)@ + font_head(self@),
    {
        push_str(out, "{7,0,703,");
        push_int(out, self.size as i128 * 10);
        push_str(out, ",0,0,0,");
        push_int(out, if self.bold { 700 } else { 400 });
        push_str(out, ",");
        proof {
            assert(final(out)@ =~= old(out)@ + font_head(self@));
        }
    }

    fn push_flags(&self, out: &mut String)
        ensures
            final(out)@ == old(out)@ + font_flags(self@),
    {
        push_int(out, if self.italic { 1 } else { 0 });
        push_str(out, ",");
        push_int(out, if self.underline { 1 } else { 0 });
        push_str(out, ",");
        push_int(out, if self.strikeout { 1 } else { 0 });
        proof {
            assert(final(out)@ =~= old(out)@ + font_flags(self@));
        }
    }

    pub fn push_render(&self, out: &mut String)
        ensures
            final(out)@ == old(out)@ + font_text(self@),
    {
        self.push_head(out);
        self.push_flags(out);
        push_str(out, ",0,0,0,0,34,");
        push_quoted(out, self.face.as_str());
        push_str(out, ",1,100}");
        proof {
            assert(final(out)@ =~= old(out)@ + font_text(self@));
        }
    }

    pub fn render(&self) -> (r: String)
        ensures
            r@ == font_text(self@),
    {
        let mut out = String::new();
        self.push_render(&mut out);
        proof {
            assert(out@ =~= font_text(self@));
        }
        out
    }
}

/// The kind of a named area as the first field of its record.
pub open spec fn kind_code(k: AreaKind) -> int {
    match k {
        AreaKind::Rows => 1,
        AreaKind::Columns => 2,
        AreaKind::Rect => 3,
    }
}

impl AreaKind {
    pub fn code(self) -> (c: i64)
        ensures
            c == kind_code(self),
    {
        match self {
            AreaKind::Rows => 1,
            AreaKind::Columns => 2,
            AreaKind::Rect => 3,
        }
    }
}

/// A named area: kind, then the bounds column first; the axis that does
/// not count is written as -1.
pub open spec fn area_text(a: NamedArea) -> Seq<char> {
    let c1: int = if a.kind == AreaKind::Rows { -1 } else { a.c1 as int };
    let c2: int = if a.kind == AreaKind::Rows { -1 } else { a.c2 as int };
    let r1: int = if a.kind == AreaKind::Columns { -1 } else { a.r1 as int };
    let r2: int = if a.kind == AreaKind::Columns { -1 } else { a.r2 as int };
    spec_int(kind_code(a.kind)) + ","@ + spec_int(c1) + ","@ + spec_int(r1) + ","@ + spec_int(c2) + ","@
        + spec_int(r2) + ",00000000-0000-0000-0000-000000000000"@
}

impl NamedArea {
    pub fn push_render(&self, out: &mut String)
        ensures
            final(out)@ == old(out)@ + area_text(*self),
    {
        let rows = self.kind == AreaKind::Rows;
        let cols = self.kind == AreaKind::Columns;
        let c1: i128 = if rows { -1 } else { self.c1 as i128 };
        let c2: i128 = if rows { -1 } else { self.c2 as i128 };
        let r1: i128 = if cols { -1 } else { self.r1 as i128 };
        let r2: i128 = if cols { -1 } else { self.r2 as i128 };
        push_int(out, self.kind.code() as i128);
        push_str(out, ",");
        push_int(out, c1);
        push_str(out, ",");
        push_int(out, r1);
        push_str(out, ",");
        push_int(out, c2);
        push_str(out, ",");
        push_int(out, r2);
        push_str(out, ",00000000-0000-0000-0000-000000000000");
        proof {
            assert(final(out)@ =~= old(out)@ + area_text(*self));
        }
    }

    pub fn render(&self) -> (r: String)
        ensures
            r@ == area_text(*self),
    {
        let mut out = String::new();
        self.push_render(&mut out);
        proof {
            assert(out@ =~= area_text(*self));
        }
        out
    }
}

/// The name of a row group: an empty name is `{1,0}`, without the pair of
/// language and text.
pub open spec fn group_name_text(name: Seq<char>) -> Seq<char> {
    if name.len() == 0 {
        "{1,0}"@
    } else {
        "{1,1,\n{\"#\","@ + quote(name) + "}\n}"@
    }
}

/// A row group block, with its closing -1.
pub open spec fn group_text(g: RowGroup) -> Seq<char> {
    "\n{"@ + spec_int(g.r1 as int) + ","@ + spec_int(g.r2 as int) + ","@ + spec_int(g.level as int) + ",\n"@
        + group_name_text(g.name@) + ","@ + spec_int(flag(g.collapsed)) + ",0},-1"@
}

impl RowGroup {
    pub fn push_render(&self, out: &mut String)
        ensures
            final(out)@ == old(out)@ + group_text(*self),
    {
        push_str(out, "\n{");
        push_int(out, self.r1 as i128);
        push_str(out, ",");
        push_int(out, self.r2 as i128);
        push_str(out, ",");
        push_int(out, self.level as i128);
        push_str(out, ",\n");
        if self.name.as_str().is_empty() {
            push_str(out, "{1,0}");
        } else {
            push_str(out, "{1,1,\n{\"#\",");
            push_quoted(out, self.name.as_str());
            push_str(out, "}\n}");
        }
        push_str(out, ",");
        push_int(out, if self.collapsed { 1 } else { 0 });
        push_str(out, ",0},-1");
        proof {
            assert(final(out)@ =~= old(out)@ + group_text(*self));
        }
    }

    pub fn render(&self) -> (r: String)
        ensures
            r@ == group_text(*self),
    {
        let mut out = String::new();
        self.push_render(&mut out);
        proof {
            assert(out@ =~= group_text(*self));
        }
        out
    }
}

} // verus!
