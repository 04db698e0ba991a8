//! Sorting merge records the way the file lists them: by row, then by
//! column (the derived order of the records).

use vstd::prelude::*;
use crate::model::Merge;

verus! {

/// The order of merges: first row, first column, last row, last column,
/// and a plain merge before a cancelling one.
pub open spec fn merge_le(a: Merge, b: Merge) -> bool {
    a.r1 < b.r1 || (a.r1 == b.r1 && (a.c1 < b.c1 || (a.c1 == b.c1 && (a.r2 < b.r2 || (a.r2 == b.r2 && (a.c2
        < b.c2 || (a.c2 == b.c2 && (!a.unmerge || b.unmerge))))))))
}

/// The order of pairs: first element, then second.
pub open spec fn pair_le(a: (u32, u32), b: (u32, u32)) -> bool {
    a.0 < b.0 || (a.0 == b.0 && a.1 <= b.1)
}

pub open spec fn insert_merge(t: Seq<Merge>, m: Merge) -> Seq<Merge>
    decreases t.len(),
{
    if t.len() == 0 {
        seq![m]
    } else if merge_le(t.last(), m) {
        t.push(m)
    } else {
        insert_merge(t.drop_last(), m).push(t.last())
    }
}

/// The merges in order (an insertion sort).
pub open spec fn sort_merges(s: Seq<Merge>) -> Seq<Merge>
    decreases s.len(),
{
    if s.len() == 0 {
        s
    } else {
        insert_merge(sort_merges(s.drop_last()), s.last())
    }
}

pub open spec fn insert_pair(t: Seq<(u32, u32)>, m: (u32, u32)) -> Seq<(u32, u32)>
    decreases t.len(),
{
    if t.len() == 0 {
        seq![m]
    } else if pair_le(t.last(), m) {
        t.push(m)
    } else {
        insert_pair(t.drop_last(), m).push(t.last())
    }
}

/// The pairs in order (an insertion sort).
pub open spec fn sort_pairs(s: Seq<(u32, u32)>) -> Seq<(u32, u32)>
    decreases s.len(),
{
    if s.len() == 0 {
        s
    } else {
        insert_pair(sort_pairs(s.drop_last()), s.last())
    }
}

fn insert_merge_exec(t: &mut Vec<Merge>, m: Merge)
    ensures
        final(t)@ == insert_merge(old(t)@, m),
    decreases old(t)@.len(),
{
    if t.len() == 0 {
        t.push(m);
        proof {
            assert(t@ =~= seq![m]);
        }
        return;
    }
    let last = t[t.len() - 1];
    let le = last.r1 < m.r1 || (last.r1 == m.r1 && (last.c1 < m.c1 || (last.c1 == m.c1 && (last.r2 < m.r2 || (
    last.r2 == m.r2 && (last.c2 < m.c2 || (last.c2 == m.c2 && (!last.unmerge || m.unmerge))))))));
    if le {
        t.push(m);
    } else {
        let x = t.pop().unwrap();
        proof {
            assert(t@ == old(t)@.drop_last());
        }
        insert_merge_exec(t, m);
        t.push(x);
    }
}

fn insert_pair_exec(t: &mut Vec<(u32, u32)>, m: (u32, u32))
    ensures
        final(t)@ == insert_pair(old(t)@, m),
    decreases old(t)@.len(),
{
    if t.len() == 0 {
        t.push(m);
        proof {
            assert(t@ =~= seq![m]);
        }
        return;
    }
    let last = t[t.len() - 1];
    if last.0 < m.0 || (last.0 == m.0 && last.1 <= m.1) {
        t.push(m);
    } else {
        let x = t.pop().unwrap();
        proof {
            assert(t@ == old(t)@.drop_last());
        }
        insert_pair_exec(t, m);
        t.push(x);
    }
}

/// The merges in file order.
pub fn sorted_merges(s: &Vec<Merge>) -> (r: Vec<Merge>)
    ensures
        r@ == sort_merges(s@),
{
    let mut out: Vec<Merge> = Vec::new();
    let mut i: usize = 0;
    while i < s.len()
        invariant
            i <= s@.len(),
            out@ == sort_merges(s@.take(i as int)),
        decreases s@.len() - i,
    {
        proof {
            assert(s@.take(i + 1).drop_last() =~= s@.take(i as int));
        }
        insert_merge_exec(&mut out, s[i]);
        i = i + 1;
    }
    proof {
        assert(s@.take(s@.len() as int) =~= s@);
    }
    out
}

/// The pairs in file order.
pub fn sorted_pairs(s: &Vec<(u32, u32)>) -> (r: Vec<(u32, u32)>)
    ensures
        r@ == sort_pairs(s@),
{
    let mut out: Vec<(u32, u32)> = Vec::new();
    let mut i: usize = 0;
    while i < s.len()
        invariant
            i <= s@.len(),
            out@ == sort_pairs(s@.take(i as int)),
        decreases s@.len() - i,
    {
        proof {
            assert(s@.take(i + 1).drop_last() =~= s@.take(i as int));
        }
        insert_pair_exec(&mut out, s[i]);
        i = i + 1;
    }
    proof {
        assert(s@.take(s@.len() as int) =~= s@);
    }
    out
}

// --- what the sort keeps -------------------------------------------------------------

proof fn lemma_insert_merge(t: Seq<Merge>, m: Merge)
    requires
        forall|i: int, j: int| 0 <= i < j < t.len() ==> merge_le(#[trigger] t[i], #[trigger] t[j]),
    ensures
        insert_merge(t, m).to_multiset() == t.to_multiset().insert(m),
        forall|i: int, j: int|
            0 <= i < j < insert_merge(t, m).len() ==> merge_le(
                #[trigger] insert_merge(t, m)[i],
                #[trigger] insert_merge(t, m)[j],
            ),
        insert_merge(t, m).len() == t.len() + 1,
        forall|i: int| 0 <= i < insert_merge(t, m).len() ==> #[trigger] insert_merge(t, m)[i] == m || t.contains(insert_merge(t, m)[i]),
    decreases t.len(),
{
    broadcast use vstd::seq_lib::group_to_multiset_ensures;
    if t.len() == 0 {
        assert(seq![m] =~= Seq::<Merge>::empty().push(m));
    } else if merge_le(t.last(), m) {
        let r = t.push(m);
        assert forall|i: int| 0 <= i < r.len() implies #[trigger] r[i] == m || t.contains(r[i]) by {
            if i < t.len() {
                assert(t[i] == r[i]);
            }
        }
        assert forall|i: int, j: int| 0 <= i < j < r.len() implies merge_le(#[trigger] r[i], #[trigger] r[j]) by {
            if j == t.len() {
                if i < t.len() - 1 {
                    assert(merge_le(t[i], t[t.len() - 1]));
                }
            }
        }
    } else {
        let u = t.drop_last();
        let l = t.last();
        assert forall|i: int, j: int| 0 <= i < j < u.len() implies merge_le(#[trigger] u[i], #[trigger] u[j]) by {
            assert(u[i] == t[i] && u[j] == t[j]);
        }
        lemma_insert_merge(u, m);
        let w = insert_merge(u, m);
        let r = w.push(l);
        assert(t =~= u.push(l));
        assert(r.to_multiset() =~= t.to_multiset().insert(m)) by {
            assert(w.to_multiset() =~= u.to_multiset().insert(m));
        }
        assert forall|i: int| 0 <= i < r.len() implies #[trigger] r[i] == m || t.contains(r[i]) by {
            if i < w.len() {
                assert(r[i] == w[i]);
                if w[i] != m {
                    let k = choose|k: int| 0 <= k < u.len() && u[k] == w[i];
                    assert(t[k] == u[k]);
                }
            } else {
                assert(t[t.len() - 1] == l);
            }
        }
        assert forall|i: int, j: int| 0 <= i < j < r.len() implies merge_le(#[trigger] r[i], #[trigger] r[j]) by {
            if j == w.len() {
                assert(r[i] == w[i]);
                if w[i] != m {
                    let k = choose|k: int| 0 <= k < u.len() && u[k] == w[i];
                    assert(merge_le(t[k], t[t.len() - 1]));
                }
            } else {
                assert(r[i] == w[i] && r[j] == w[j]);
            }
        }
    }
}

/// The sorted merges are the merges given, each as often, in order.
pub proof fn lemma_sort_merges(s: Seq<Merge>)
    ensures
        sort_merges(s).to_multiset() == s.to_multiset(),
        sort_merges(s).len() == s.len(),
        forall|i: int, j: int|
            0 <= i < j < sort_merges(s).len() ==> merge_le(#[trigger] sort_merges(s)[i], #[trigger] sort_merges(s)[j]),
    decreases s.len(),
{
    broadcast use vstd::seq_lib::group_to_multiset_ensures;
    if s.len() > 0 {
        lemma_sort_merges(s.drop_last());
        lemma_insert_merge(sort_merges(s.drop_last()), s.last());
        assert(s =~= s.drop_last().push(s.last()));
    } else {
        assert(s.to_multiset() =~= vstd::multiset::Multiset::empty());
    }
}

proof fn lemma_insert_pair(t: Seq<(u32, u32)>, m: (u32, u32))
    requires
        forall|i: int, j: int| 0 <= i < j < t.len() ==> pair_le(#[trigger] t[i], #[trigger] t[j]),
    ensures
        insert_pair(t, m).to_multiset() == t.to_multiset().insert(m),
        forall|i: int, j: int|
            0 <= i < j < insert_pair(t, m).len() ==> pair_le(#[trigger] insert_pair(t, m)[i], #[trigger] insert_pair(t, m)[j]),
        insert_pair(t, m).len() == t.len() + 1,
        forall|i: int| 0 <= i < insert_pair(t, m).len() ==> #[trigger] insert_pair(t, m)[i] == m || t.contains(insert_pair(t, m)[i]),
    decreases t.len(),
{
    broadcast use vstd::seq_lib::group_to_multiset_ensures;
    if t.len() == 0 {
        assert(seq![m] =~= Seq::<(u32, u32)>::empty().push(m));
    } else if pair_le(t.last(), m) {
        let r = t.push(m);
        assert forall|i: int| 0 <= i < r.len() implies #[trigger] r[i] == m || t.contains(r[i]) by {
            if i < t.len() {
                assert(t[i] == r[i]);
            }
        }
        assert forall|i: int, j: int| 0 <= i < j < r.len() implies pair_le(#[trigger] r[i], #[trigger] r[j]) by {
            if j == t.len() {
                if i < t.len() - 1 {
                    assert(pair_le(t[i], t[t.len() - 1]));
                }
            }
        }
    } else {
        let u = t.drop_last();
        let l = t.last();
        assert forall|i: int, j: int| 0 <= i < j < u.len() implies pair_le(#[trigger] u[i], #[trigger] u[j]) by {
            assert(u[i] == t[i] && u[j] == t[j]);
        }
        lemma_insert_pair(u, m);
        let w = insert_pair(u, m);
        let r = w.push(l);
        assert(t =~= u.push(l));
        assert(r.to_multiset() =~= t.to_multiset().insert(m)) by {
            assert(w.to_multiset() =~= u.to_multiset().insert(m));
        }
        assert forall|i: int| 0 <= i < r.len() implies #[trigger] r[i] == m || t.contains(r[i]) by {
            if i < w.len() {
                assert(r[i] == w[i]);
                if w[i] != m {
                    let k = choose|k: int| 0 <= k < u.len() && u[k] == w[i];
                    assert(t[k] == u[k]);
                }
            } else {
                assert(t[t.len() - 1] == l);
            }
        }
        assert forall|i: int, j: int| 0 <= i < j < r.len() implies pair_le(#[trigger] r[i], #[trigger] r[j]) by {
            if j == w.len() {
                assert(r[i] == w[i]);
                if w[i] != m {
                    let k = choose|k: int| 0 <= k < u.len() && u[k] == w[i];
                    assert(pair_le(t[k], t[t.len() - 1]));
                }
            } else {
                assert(r[i] == w[i] && r[j] == w[j]);
            }
        }
    }
}

/// The sorted pairs are the pairs given, each as often, in order.
pub proof fn lemma_sort_pairs(s: Seq<(u32, u32)>)
    ensures
        sort_pairs(s).to_multiset() == s.to_multiset(),
        sort_pairs(s).len() == s.len(),
        forall|i: int, j: int|
            0 <= i < j < sort_pairs(s).len() ==> pair_le(#[trigger] sort_pairs(s)[i], #[trigger] sort_pairs(s)[j]),
    decreases s.len(),
{
    broadcast use vstd::seq_lib::group_to_multiset_ensures;
    if s.len() > 0 {
        lemma_sort_pairs(s.drop_last());
        lemma_insert_pair(sort_pairs(s.drop_last()), s.last());
        assert(s =~= s.drop_last().push(s.last()));
    } else {
        assert(s.to_multiset() =~= vstd::multiset::Multiset::empty());
    }
}

} // verus!
