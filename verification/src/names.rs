//! Named areas: a list ordered by name, as the file lists them (and as the
//! `Области` collection walks them).

use vstd::prelude::*;
use crate::model::{NamedArea, SpreadDocData};
use crate::text::{to_chars, chars_eq};

verus! {

/// Lexicographic order of character sequences.
pub open spec fn seq_lt(a: Seq<char>, b: Seq<char>) -> bool
    decreases a.len(),
{
    if b.len() == 0 {
        false
    } else if a.len() == 0 {
        true
    } else if a[0] != b[0] {
        (a[0] as int) < (b[0] as int)
    } else {
        seq_lt(a.drop_first(), b.drop_first())
    }
}

pub proof fn lemma_lt_irreflexive(a: Seq<char>)
    ensures
        !seq_lt(a, a),
    decreases a.len(),
{
    if a.len() > 0 {
        lemma_lt_irreflexive(a.drop_first());
    }
}

pub proof fn lemma_lt_trans(a: Seq<char>, b: Seq<char>, c: Seq<char>)
    requires
        seq_lt(a, b),
        seq_lt(b, c),
    ensures
        seq_lt(a, c),
    decreases a.len(),
{
    if a.len() > 0 && b.len() > 0 && c.len() > 0 && a[0] == b[0] && b[0] == c[0] {
        lemma_lt_trans(a.drop_first(), b.drop_first(), c.drop_first());
    }
}

pub proof fn lemma_lt_total(a: Seq<char>, b: Seq<char>)
    ensures
        a == b || seq_lt(a, b) || seq_lt(b, a),
    decreases a.len(),
{
    if a.len() > 0 && b.len() > 0 {
        if a[0] == b[0] {
            lemma_lt_total(a.drop_first(), b.drop_first());
            if a.drop_first() =~= b.drop_first() {
                assert(a.len() == b.len());
                assert forall|i: int| 0 <= i < a.len() implies a[i] == b[i] by {
                    if i > 0 {
                        assert(a[i] == a.drop_first()[i - 1]);
                        assert(b[i] == b.drop_first()[i - 1]);
                    }
                }
                assert(a =~= b);
            }
        } else {
            assert((a[0] as int) != (b[0] as int));
        }
    } else if a.len() == 0 && b.len() == 0 {
        assert(a =~= b);
    }
}

/// Names strictly increase along the list.
pub open spec fn names_sorted(s: Seq<(String, NamedArea)>) -> bool {
    forall|i: int, j: int| 0 <= i < j < s.len() ==> seq_lt(#[trigger] s[i].0@, #[trigger] s[j].0@)
}

pub open spec fn has_name(s: Seq<(String, NamedArea)>, n: Seq<char>) -> bool {
    exists|i: int| 0 <= i < s.len() && #[trigger] s[i].0@ == n
}

/// Where a name sits in the list.
pub open spec fn name_index(s: Seq<(String, NamedArea)>, n: Seq<char>) -> int {
    choose|i: int| 0 <= i < s.len() && #[trigger] s[i].0@ == n
}

/// The list read as a map from names to areas.
pub open spec fn names_map(s: Seq<(String, NamedArea)>) -> Map<Seq<char>, NamedArea> {
    Map::new(|n: Seq<char>| has_name(s, n), |n: Seq<char>| s[name_index(s, n)].1)
}

pub proof fn lemma_name_at(s: Seq<(String, NamedArea)>, i: int)
    requires
        names_sorted(s),
        0 <= i < s.len(),
    ensures
        names_map(s).contains_key(s[i].0@),
        names_map(s)[s[i].0@] == s[i].1,
{
    let n = s[i].0@;
    assert(has_name(s, n));
    let j = name_index(s, n);
    assert(0 <= j < s.len() && s[j].0@ == n);
    if j != i {
        lemma_lt_irreflexive(n);
        if j < i {
            assert(seq_lt(s[j].0@, s[i].0@));
        } else {
            assert(seq_lt(s[i].0@, s[j].0@));
        }
    }
}

/// Where a name sits, or where it would go.
fn find_name(s: &Vec<(String, NamedArea)>, name: &Vec<char>) -> (r: Result<usize, usize>)
    requires
        names_sorted(s@),
    ensures
        match r {
            Ok(i) => i < s@.len() && s@[i as int].0@ == name@,
            Err(p) => {
                &&& p <= s@.len()
                &&& forall|i: int| 0 <= i < p ==> seq_lt(#[trigger] s@[i].0@, name@)
                &&& forall|i: int| p <= i < s@.len() ==> seq_lt(name@, #[trigger] s@[i].0@)
                &&& !has_name(s@, name@)
            },
        },
{
    let mut i: usize = 0;
    while i < s.len()
        invariant
            names_sorted(s@),
            i <= s@.len(),
            forall|j: int| 0 <= j < i ==> seq_lt(#[trigger] s@[j].0@, name@),
        decreases s@.len() - i,
    {
        let key = to_chars(s[i].0.as_str());
        if chars_eq(&key, name) {
            return Ok(i);
        }
        if crate::text::chars_lt(name, &key) {
            proof {
                assert forall|j: int| i <= j < s@.len() implies seq_lt(name@, #[trigger] s@[j].0@) by {
                    if j > i {
                        lemma_lt_trans(name@, s@[i as int].0@, s@[j].0@);
                    }
                }
                assert(!has_name(s@, name@)) by {
                    if has_name(s@, name@) {
                        let j = choose|j: int| 0 <= j < s@.len() && #[trigger] s@[j].0@ == name@;
                        lemma_lt_irreflexive(name@);
                    }
                }
            }
            return Err(i);
        }
        proof {
            lemma_lt_total(key@, name@);
        }
        i = i + 1;
    }
    proof {
        assert(!has_name(s@, name@)) by {
            if has_name(s@, name@) {
                let j = choose|j: int| 0 <= j < s@.len() && #[trigger] s@[j].0@ == name@;
                lemma_lt_irreflexive(name@);
            }
        }
    }
    Err(i)
}

impl SpreadDocData {
    /// The named areas, read as a map.
    pub open spec fn names_view(&self) -> Map<Seq<char>, NamedArea> {
        names_map(self.names@)
    }

    /// Everything but the named areas is the same.
    pub open spec fn same_but_names(&self, other: &SpreadDocData) -> bool {
        &&& self.rows == other.rows
        &&& self.col_widths == other.col_widths
        &&& self.merges == other.merges
        &&& self.row_merges == other.row_merges
        &&& self.col_merges == other.col_merges
        &&& self.column_sets == other.column_sets
        &&& self.row_sets == other.row_sets
        &&& self.main_columns == other.main_columns
        &&& self.drawings == other.drawings
        &&& self.row_groups == other.row_groups
        &&& self.open_groups == other.open_groups
        &&& self.height == other.height
        &&& self.width == other.width
        &&& self.show_grid == other.show_grid
        &&& self.fix_top == other.fix_top
        &&& self.fix_left == other.fix_left
        &&& self.print_scale == other.print_scale
        &&& self.landscape == other.landscape
        &&& self.margins == other.margins
        &&& self.print_area == other.print_area
        &&& self.params == other.params
    }

    /// Give an area a name. An empty name does nothing here (it removes the
    /// name, see `clear_area_name`); a name already taken keeps its first
    /// area.
    pub fn set_area_name(&mut self, name: &str, area: NamedArea)
        requires
            old(self).wf(),
        ensures
            final(self).wf(),
            final(self).names_view() == (if name@.len() == 0 || old(self).names_view().contains_key(name@) {
                old(self).names_view()
            } else {
                old(self).names_view().insert(name@, area)
            }),
            final(self).same_but_names(old(self)),
            final(self).rows == old(self).rows,
            final(self).height == old(self).height,
            final(self).width == old(self).width,
            final(self).col_widths == old(self).col_widths,
            final(self).merges == old(self).merges,
            final(self).row_merges == old(self).row_merges,
            final(self).col_merges == old(self).col_merges,
    {
        if name.is_empty() {
            return;
        }
        let key = to_chars(name);
        match find_name(&self.names, &key) {
            Ok(i) => {
                proof {
                    lemma_name_at(self.names@, i as int);
                }
            },
            Err(p) => {
                let ghost s = self.names@;
                let owned = name.to_owned();
                self.names.insert(p, (owned, area));
                proof {
                    let t = self.names@;
                    assert(names_sorted(t)) by {
                        assert forall|i: int, j: int| 0 <= i < j < t.len() implies seq_lt(#[trigger] t[i].0@, #[trigger] t[j].0@) by {
                            if i < p && j < p {
                                assert(seq_lt(s[i].0@, s[j].0@));
                            } else if i < p && j == p {
                            } else if i < p {
                                assert(seq_lt(s[i].0@, s[j - 1].0@));
                            } else if i == p {
                            } else {
                                assert(seq_lt(s[i - 1].0@, s[j - 1].0@));
                            }
                        }
                    }
                    assert(self.names_view() =~= names_map(s).insert(name@, area)) by {
                        assert forall|n: Seq<char>| self.names_view().contains_key(n) == names_map(s).insert(name@, area).contains_key(n) by {
                            if has_name(t, n) {
                                let i = choose|i: int| 0 <= i < t.len() && #[trigger] t[i].0@ == n;
                                if i < p {
                                    assert(s[i].0@ == n);
                                } else if i > p {
                                    assert(s[i - 1].0@ == n);
                                }
                            }
                            if has_name(s, n) {
                                let i = choose|i: int| 0 <= i < s.len() && #[trigger] s[i].0@ == n;
                                if i < p {
                                    assert(t[i].0@ == n);
                                } else {
                                    assert(t[i + 1].0@ == n);
                                }
                            }
                            if n == name@ {
                                assert(t[p as int].0@ == n);
                            }
                        }
                        assert forall|n: Seq<char>| #[trigger] self.names_view().contains_key(n) implies self.names_view()[n] == names_map(s).insert(name@, area)[n] by {
                            let i = choose|i: int| 0 <= i < t.len() && #[trigger] t[i].0@ == n;
                            lemma_name_at(t, i);
                            if i < p {
                                lemma_name_at(s, i);
                                assert(n != name@) by {
                                    lemma_lt_irreflexive(name@);
                                }
                            } else if i > p {
                                lemma_name_at(s, i - 1);
                                assert(n != name@) by {
                                    lemma_lt_irreflexive(name@);
                                }
                            }
                        }
                    }
                }
            },
        }
    }

    /// Remove a name.
    pub fn clear_area_name(&mut self, name: &str)
        requires
            old(self).wf(),
        ensures
            final(self).wf(),
            final(self).names_view() == old(self).names_view().remove(name@),
            final(self).same_but_names(old(self)),
            final(self).rows == old(self).rows,
            final(self).height == old(self).height,
            final(self).width == old(self).width,
            final(self).col_widths == old(self).col_widths,
            final(self).merges == old(self).merges,
            final(self).row_merges == old(self).row_merges,
            final(self).col_merges == old(self).col_merges,
    {
        let key = to_chars(name);
        match find_name(&self.names, &key) {
            Ok(i) => {
                let ghost s = self.names@;
                self.names.remove(i);
                proof {
                    let t = self.names@;
                    assert(names_sorted(t)) by {
                        assert forall|a: int, b: int| 0 <= a < b < t.len() implies seq_lt(#[trigger] t[a].0@, #[trigger] t[b].0@) by {
                            if a < i && b < i {
                                assert(seq_lt(s[a].0@, s[b].0@));
                            } else if a < i {
                                assert(seq_lt(s[a].0@, s[b + 1].0@));
                            } else {
                                assert(seq_lt(s[a + 1].0@, s[b + 1].0@));
                            }
                        }
                    }
                    assert(self.names_view() =~= names_map(s).remove(name@)) by {
                        assert forall|n: Seq<char>| self.names_view().contains_key(n) == names_map(s).remove(name@).contains_key(n) by {
                            if has_name(t, n) {
                                let j = choose|j: int| 0 <= j < t.len() && #[trigger] t[j].0@ == n;
                                if j < i {
                                    assert(s[j].0@ == n);
                                    assert(seq_lt(s[j].0@, s[i as int].0@));
                                } else {
                                    assert(s[j + 1].0@ == n);
                                    assert(seq_lt(s[i as int].0@, s[j + 1].0@));
                                }
                                lemma_lt_irreflexive(n);
                            }
                            if has_name(s, n) && n != name@ {
                                let j = choose|j: int| 0 <= j < s.len() && #[trigger] s[j].0@ == n;
                                if j < i {
                                    assert(t[j].0@ == n);
                                } else {
                                    assert(t[j - 1].0@ == n);
                                }
                            }
                        }
                        assert forall|n: Seq<char>| #[trigger] self.names_view().contains_key(n) implies self.names_view()[n] == names_map(s).remove(name@)[n] by {
                            let j = choose|j: int| 0 <= j < t.len() && #[trigger] t[j].0@ == n;
                            lemma_name_at(t, j);
                            if j < i {
                                lemma_name_at(s, j);
                            } else {
                                lemma_name_at(s, j + 1);
                            }
                        }
                    }
                }
            },
            Err(_) => {
                proof {
                    assert(self.names_view() =~= self.names_view().remove(name@));
                }
            },
        }
    }

    /// The area under a name.
    pub fn area_named(&self, name: &str) -> (r: Option<NamedArea>)
        requires
            self.wf(),
        ensures
            r == (if self.names_view().contains_key(name@) { Some(self.names_view()[name@]) } else { None::<NamedArea> }),
    {
        let key = to_chars(name);
        match find_name(&self.names, &key) {
            Ok(i) => {
                proof {
                    lemma_name_at(self.names@, i as int);
                }
                Some(self.names[i].1)
            },
            Err(_) => None,
        }
    }
}

/// The names without those of areas that start at `(r1, c1)`.
pub open spec fn without_corner(m: Map<Seq<char>, NamedArea>, r1: u32, c1: u32) -> Map<Seq<char>, NamedArea> {
    Map::new(|n: Seq<char>| m.contains_key(n) && !(m[n].r1 == r1 && m[n].c1 == c1), |n: Seq<char>| m[n])
}

impl SpreadDocData {
    /// `Область.Имя = ""`: every name of an area that starts where this one
    /// does goes.
    pub fn clear_names_at(&mut self, r1: u32, c1: u32)
        requires
            old(self).wf(),
        ensures
            final(self).wf(),
            final(self).names_view() == without_corner(old(self).names_view(), r1, c1),
            final(self).rows == old(self).rows,
            final(self).height == old(self).height,
            final(self).width == old(self).width,
            final(self).col_widths == old(self).col_widths,
            final(self).merges == old(self).merges,
            final(self).row_merges == old(self).row_merges,
            final(self).col_merges == old(self).col_merges,
    {
        let ghost s = self.names@;
        let mut kept: Vec<(String, NamedArea)> = Vec::new();
        let ghost mut idx: Seq<int> = Seq::empty();
        let mut i: usize = 0;
        while i < self.names.len()
            invariant
                s == self.names@,
                names_sorted(s),
                i <= s.len(),
                kept@.len() == idx.len(),
                forall|q: int| 0 <= q < kept@.len() ==> 0 <= #[trigger] idx[q] < i && kept@[q].0@ == s[idx[q]].0@
                    && kept@[q].1 == s[idx[q]].1 && !(s[idx[q]].1.r1 == r1 && s[idx[q]].1.c1 == c1),
                forall|a: int, b: int| 0 <= a < b < idx.len() ==> #[trigger] idx[a] < #[trigger] idx[b],
                forall|j: int| #![trigger s[j]] 0 <= j < i && !(s[j].1.r1 == r1 && s[j].1.c1 == c1) ==> exists|q: int|
                    0 <= q < idx.len() && #[trigger] idx[q] == j,
            decreases s.len() - i,
        {
            let a = self.names[i].1;
            let ghost before = idx;
            if !(a.r1 == r1 && a.c1 == c1) {
                let ghost k = kept@.len();
                kept.push((self.names[i].0.clone(), a));
                proof {
                    idx = idx.push(i as int);
                    assert(idx[k as int] == i);
                }
            }
            proof {
                assert forall|j: int| #![trigger s[j]] 0 <= j < i + 1 && !(s[j].1.r1 == r1 && s[j].1.c1 == c1) implies exists|q: int|
                    0 <= q < idx.len() && #[trigger] idx[q] == j by {
                    if j < i {
                        let q = choose|q: int| 0 <= q < before.len() && #[trigger] before[q] == j;
                        assert(idx[q] == before[q]);
                    } else {
                        assert(a == s[j].1);
                        assert(idx.len() == before.len() + 1);
                        assert(idx[idx.len() - 1] == j);
                    }
                }
            }
            i = i + 1;
        }
        proof {
            let t = kept@;
            assert(names_sorted(t)) by {
                assert forall|a: int, b: int| 0 <= a < b < t.len() implies seq_lt(#[trigger] t[a].0@, #[trigger] t[b].0@) by {
                    assert(idx[a] < idx[b]);
                    assert(seq_lt(s[idx[a]].0@, s[idx[b]].0@));
                }
            }
            let old_view = names_map(s);
            let goal = without_corner(old_view, r1, c1);
            assert forall|n: Seq<char>| #[trigger] names_map(t).contains_key(n) implies goal.contains_key(n)
                && names_map(t)[n] == goal[n] by {
                let q = choose|q: int| 0 <= q < t.len() && #[trigger] t[q].0@ == n;
                lemma_name_at(t, q);
                lemma_name_at(s, idx[q]);
            }
            assert forall|n: Seq<char>| #[trigger] goal.contains_key(n) implies names_map(t).contains_key(n) by {
                let j = choose|j: int| 0 <= j < s.len() && #[trigger] s[j].0@ == n;
                lemma_name_at(s, j);
                let q = choose|q: int| 0 <= q < idx.len() && #[trigger] idx[q] == j;
                assert(t[q].0@ == n);
            }
            assert(names_map(t) =~= goal);
        }
        self.names = kept;
    }
}

} // verus!
