//! Sorted association lists keyed by `u32`: the storage behind rows, cells
//! and column widths. Keys are strictly increasing, so the list is at the
//! same time a map and the order in which the file lists its entries.

use vstd::prelude::*;

verus! {

/// Keys strictly increase along the list.
pub open spec fn sorted<V>(s: Seq<(u32, V)>) -> bool {
    forall|i: int, j: int| 0 <= i < j < s.len() ==> #[trigger] s[i].0 < #[trigger] s[j].0
}

/// Some entry carries the key.
pub open spec fn has_key<V>(s: Seq<(u32, V)>, k: u32) -> bool {
    exists|i: int| 0 <= i < s.len() && #[trigger] s[i].0 == k
}

/// The list read as a map.
pub open spec fn as_map<V>(s: Seq<(u32, V)>) -> Map<u32, V> {
    Map::new(
        |k: u32| has_key(s, k),
        |k: u32| s[choose|i: int| 0 <= i < s.len() && #[trigger] s[i].0 == k].1,
    )
}

/// The keys in list order.
pub open spec fn keys<V>(s: Seq<(u32, V)>) -> Seq<u32> {
    s.map_values(|e: (u32, V)| e.0)
}

pub proof fn lemma_at<V>(s: Seq<(u32, V)>, i: int)
    requires
        sorted(s),
        0 <= i < s.len(),
    ensures
        as_map(s).contains_key(s[i].0),
        as_map(s)[s[i].0] == s[i].1,
{
    let k = s[i].0;
    assert(has_key(s, k));
    let j = choose|j: int| 0 <= j < s.len() && #[trigger] s[j].0 == k;
    if j != i {
        if j < i {
            assert(s[j].0 < s[i].0);
        } else {
            assert(s[i].0 < s[j].0);
        }
    }
}

/// Every entry is found again through the map.
pub proof fn lemma_all<V>(s: Seq<(u32, V)>)
    requires
        sorted(s),
    ensures
        forall|i: int|
            0 <= i < s.len() ==> #[trigger] as_map(s).contains_key(s[i].0) && as_map(s)[s[i].0]
                == s[i].1,
{
    assert forall|i: int| 0 <= i < s.len() implies #[trigger] as_map(s).contains_key(s[i].0)
        && as_map(s)[s[i].0] == s[i].1 by {
        lemma_at(s, i);
    }
}

pub proof fn lemma_empty<V>(s: Seq<(u32, V)>)
    requires
        s.len() == 0,
    ensures
        as_map(s) == Map::<u32, V>::empty(),
        sorted(s),
{
    assert(as_map(s) =~= Map::<u32, V>::empty());
}

/// Inserting at the insertion point keeps the order and inserts into the map.
pub proof fn lemma_insert<V>(s: Seq<(u32, V)>, p: int, k: u32, v: V)
    requires
        sorted(s),
        0 <= p <= s.len(),
        forall|i: int| 0 <= i < p ==> #[trigger] s[i].0 < k,
        forall|i: int| p <= i < s.len() ==> k < #[trigger] s[i].0,
    ensures
        sorted(s.insert(p, (k, v))),
        as_map(s.insert(p, (k, v))) == as_map(s).insert(k, v),
{
    let t = s.insert(p, (k, v));
    assert(sorted(t)) by {
        assert forall|i: int, j: int| 0 <= i < j < t.len() implies #[trigger] t[i].0
            < #[trigger] t[j].0 by {
            if i < p && j < p {
                assert(s[i].0 < s[j].0);
            } else if i < p && j == p {
            } else if i < p {
                assert(s[i].0 < s[j - 1].0);
            } else if i == p {
                assert(k < s[j - 1].0);
            } else {
                assert(s[i - 1].0 < s[j - 1].0);
            }
        }
    }
    lemma_all(s);
    lemma_all(t);
    assert(as_map(t) =~= as_map(s).insert(k, v)) by {
        assert forall|q: u32| #[trigger] as_map(t).contains_key(q) == as_map(s).insert(
            k,
            v,
        ).contains_key(q) by {
            if has_key(t, q) {
                let i = choose|i: int| 0 <= i < t.len() && #[trigger] t[i].0 == q;
                if i < p {
                    assert(s[i].0 == q);
                } else if i > p {
                    assert(s[i - 1].0 == q);
                }
            }
            if has_key(s, q) {
                let i = choose|i: int| 0 <= i < s.len() && #[trigger] s[i].0 == q;
                if i < p {
                    assert(t[i].0 == q);
                } else {
                    assert(t[i + 1].0 == q);
                }
            }
            if q == k {
                assert(t[p].0 == q);
            }
        }
        assert forall|q: u32| #[trigger] as_map(t).contains_key(q) implies as_map(t)[q]
            == as_map(s).insert(k, v)[q] by {
            let i = choose|i: int| 0 <= i < t.len() && #[trigger] t[i].0 == q;
            if i < p {
                assert(s[i] == t[i]);
            } else if i > p {
                assert(s[i - 1] == t[i]);
            }
        }
    }
}

/// Replacing the value of an entry keeps the order and updates the map.
pub proof fn lemma_update<V>(s: Seq<(u32, V)>, i: int, v: V)
    requires
        sorted(s),
        0 <= i < s.len(),
    ensures
        sorted(s.update(i, (s[i].0, v))),
        as_map(s.update(i, (s[i].0, v))) == as_map(s).insert(s[i].0, v),
        keys(s.update(i, (s[i].0, v))) == keys(s),
{
    let t = s.update(i, (s[i].0, v));
    assert(sorted(t)) by {
        assert forall|a: int, b: int| 0 <= a < b < t.len() implies #[trigger] t[a].0
            < #[trigger] t[b].0 by {
            assert(s[a].0 < s[b].0);
        }
    }
    lemma_all(s);
    lemma_all(t);
    assert(as_map(t) =~= as_map(s).insert(s[i].0, v)) by {
        assert forall|q: u32| #[trigger] as_map(t).contains_key(q) == as_map(s).insert(
            s[i].0,
            v,
        ).contains_key(q) by {
            if has_key(t, q) {
                let j = choose|j: int| 0 <= j < t.len() && #[trigger] t[j].0 == q;
                assert(s[j].0 == q);
            }
            if has_key(s, q) {
                let j = choose|j: int| 0 <= j < s.len() && #[trigger] s[j].0 == q;
                assert(t[j].0 == q);
            }
        }
        assert forall|q: u32| #[trigger] as_map(t).contains_key(q) implies as_map(t)[q]
            == as_map(s).insert(s[i].0, v)[q] by {
            let j = choose|j: int| 0 <= j < t.len() && #[trigger] t[j].0 == q;
            if j != i {
                assert(s[j] == t[j]);
            }
        }
    }
    assert(keys(t) =~= keys(s));
}

/// Two lists with the same keys at the same places.
pub open spec fn same_keys<V, W>(s: Seq<(u32, V)>, t: Seq<(u32, W)>) -> bool {
    &&& s.len() == t.len()
    &&& forall|i: int| 0 <= i < s.len() ==> #[trigger] s[i].0 == t[i].0
}

pub proof fn lemma_same_keys<V, W>(s: Seq<(u32, V)>, t: Seq<(u32, W)>)
    requires
        sorted(s),
        same_keys(s, t),
    ensures
        sorted(t),
        as_map(t).dom() == as_map(s).dom(),
        forall|i: int|
            0 <= i < t.len() ==> #[trigger] as_map(t).contains_key(t[i].0) && as_map(t)[t[i].0]
                == t[i].1,
{
    assert(sorted(t)) by {
        assert forall|i: int, j: int| 0 <= i < j < t.len() implies #[trigger] t[i].0
            < #[trigger] t[j].0 by {
            assert(s[i].0 < s[j].0);
            assert(s[i].0 == t[i].0);
            assert(s[j].0 == t[j].0);
        }
    }
    lemma_all(t);
    assert(as_map(t).dom() =~= as_map(s).dom()) by {
        assert forall|q: u32| as_map(t).dom().contains(q) == as_map(s).dom().contains(q) by {
            if has_key(t, q) {
                let i = choose|i: int| 0 <= i < t.len() && #[trigger] t[i].0 == q;
                assert(s[i].0 == q);
            }
            if has_key(s, q) {
                let i = choose|i: int| 0 <= i < s.len() && #[trigger] s[i].0 == q;
                assert(t[i].0 == q);
            }
        }
    }
}

/// The index an existing key sits at.
pub proof fn lemma_index_of<V>(s: Seq<(u32, V)>, k: u32) -> (i: int)
    requires
        sorted(s),
        as_map(s).contains_key(k),
    ensures
        0 <= i < s.len(),
        s[i].0 == k,
        as_map(s)[k] == s[i].1,
{
    let i = choose|i: int| 0 <= i < s.len() && #[trigger] s[i].0 == k;
    lemma_at(s, i);
    i
}

/// Where a key sits, or where it would go.
pub fn find_slot<V>(s: &Vec<(u32, V)>, k: u32) -> (r: Result<usize, usize>)
    requires
        sorted(s@),
    ensures
        match r {
            Ok(i) => i < s@.len() && s@[i as int].0 == k,
            Err(p) => {
                &&& p <= s@.len()
                &&& forall|i: int| 0 <= i < p ==> #[trigger] s@[i].0 < k
                &&& forall|i: int| p <= i < s@.len() ==> k < #[trigger] s@[i].0
                &&& !has_key(s@, k)
                &&& !as_map(s@).contains_key(k)
            },
        },
{
    let mut i: usize = 0;
    while i < s.len()
        invariant
            sorted(s@),
            i <= s@.len(),
            forall|j: int| 0 <= j < i ==> #[trigger] s@[j].0 < k,
        decreases s@.len() - i,
    {
        if s[i].0 == k {
            return Ok(i);
        }
        if k < s[i].0 {
            assert forall|j: int| i <= j < s@.len() implies k < #[trigger] s@[j].0 by {
                if j > i {
                    assert(s@[i as int].0 < s@[j].0);
                }
            }
            assert(!has_key(s@, k)) by {
                if has_key(s@, k) {
                    let j = choose|j: int| 0 <= j < s@.len() && #[trigger] s@[j].0 == k;
                }
            }
            return Err(i);
        }
        i = i + 1;
    }
    assert(!has_key(s@, k)) by {
        if has_key(s@, k) {
            let j = choose|j: int| 0 <= j < s@.len() && #[trigger] s@[j].0 == k;
        }
    }
    Err(i)
}

/// Put `(k, v)` into the list: replace the value under `k`, or insert it
/// in key order.
pub fn put<V>(s: &mut Vec<(u32, V)>, k: u32, v: V)
    requires
        sorted(old(s)@),
    ensures
        sorted(final(s)@),
        as_map(final(s)@) == as_map(old(s)@).insert(k, v),
{
    match find_slot(s, k) {
        Ok(i) => {
            proof {
                lemma_update(s@, i as int, v);
            }
            s.set(i, (k, v));
        },
        Err(p) => {
            proof {
                lemma_insert(s@, p as int, k, v);
            }
            s.insert(p, (k, v));
        },
    }
}

/// Look a key up.
pub fn get<V>(s: &Vec<(u32, V)>, k: u32) -> (r: Option<&V>)
    requires
        sorted(s@),
    ensures
        match r {
            Some(v) => as_map(s@).contains_key(k) && as_map(s@)[k] == *v,
            None => !as_map(s@).contains_key(k),
        },
{
    match find_slot(s, k) {
        Ok(i) => {
            proof {
                lemma_at(s@, i as int);
            }
            Some(&s[i].1)
        },
        Err(_) => None,
    }
}

} // verus!
