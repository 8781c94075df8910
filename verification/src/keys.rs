//! Ordered lookups on the keys of a `BTreeMap` keyed by price ticks.

use std::collections::BTreeMap;
use std::ops::Bound;
use vstd::prelude::*;

verus! {

/// `k` lies strictly above `bound` (every key does when there is no bound).
pub open spec fn above(bound: Option<i64>, k: i64) -> bool {
    match bound {
        None => true,
        Some(b) => b < k,
    }
}

/// `k` lies strictly below `bound` (every key does when there is no bound).
pub open spec fn below(bound: Option<i64>, k: i64) -> bool {
    match bound {
        None => true,
        Some(b) => k < b,
    }
}

/// `k` is the least element of `s` strictly above `bound`.
pub open spec fn is_least_above(s: Set<i64>, bound: Option<i64>, k: i64) -> bool {
    &&& s.contains(k)
    &&& above(bound, k)
    &&& forall|j: i64| #[trigger] s.contains(j) && above(bound, j) ==> k <= j
}

/// `k` is the greatest element of `s` strictly below `bound`.
pub open spec fn is_greatest_below(s: Set<i64>, bound: Option<i64>, k: i64) -> bool {
    &&& s.contains(k)
    &&& below(bound, k)
    &&& forall|j: i64| #[trigger] s.contains(j) && below(bound, j) ==> j <= k
}

/// The least element of `s` strictly above `bound`, if there is one.
pub open spec fn least_above(s: Set<i64>, bound: Option<i64>) -> Option<i64> {
    if exists|k: i64| is_least_above(s, bound, k) {
        Some(choose|k: i64| is_least_above(s, bound, k))
    } else {
        None
    }
}

/// The greatest element of `s` strictly below `bound`, if there is one.
pub open spec fn greatest_below(s: Set<i64>, bound: Option<i64>) -> Option<i64> {
    if exists|k: i64| is_greatest_below(s, bound, k) {
        Some(choose|k: i64| is_greatest_below(s, bound, k))
    } else {
        None
    }
}

pub proof fn lemma_least_above_unique(s: Set<i64>, bound: Option<i64>, k: i64)
    requires
        is_least_above(s, bound, k),
    ensures
        least_above(s, bound) == Some(k),
{
    let c = choose|k: i64| is_least_above(s, bound, k);
    assert(is_least_above(s, bound, c));
    assert(c <= k && k <= c);
}

pub proof fn lemma_greatest_below_unique(s: Set<i64>, bound: Option<i64>, k: i64)
    requires
        is_greatest_below(s, bound, k),
    ensures
        greatest_below(s, bound) == Some(k),
{
    let c = choose|k: i64| is_greatest_below(s, bound, k);
    assert(is_greatest_below(s, bound, c));
    assert(c <= k && k <= c);
}

/// Calls `BTreeMap::range` with the keys strictly above `bound` and takes the
/// first entry of the range. A `BTreeMap` holds finitely many keys and its
/// ranges run in ascending key order, so the result is the least key above
/// `bound`, or `None` when no key lies above it.
#[verifier::external_body]
pub(crate) fn least_key_above<V>(m: &BTreeMap<i64, V>, bound: Option<i64>) -> (r: Option<i64>)
    ensures
        r == least_above(m@.dom(), bound),
{
    let lower = match bound {
        Some(b) => Bound::Excluded(b),
        None => Bound::Unbounded,
    };
    m.range((lower, Bound::Unbounded)).next().map(|(k, _)| *k)
}

/// Calls `BTreeMap::range` with the keys strictly below `bound` and takes the
/// last entry of the range. A `BTreeMap` holds finitely many keys and its
/// ranges run in ascending key order, so the result is the greatest key below
/// `bound`, or `None` when no key lies below it.
#[verifier::external_body]
pub(crate) fn greatest_key_below<V>(m: &BTreeMap<i64, V>, bound: Option<i64>) -> (r: Option<i64>)
    ensures
        r == greatest_below(m@.dom(), bound),
{
    let upper = match bound {
        Some(b) => Bound::Excluded(b),
        None => Bound::Unbounded,
    };
    m.range((Bound::Unbounded, upper)).next_back().map(|(k, _)| *k)
}

pub proof fn lemma_least_exists(s: Set<i64>)
    requires
        s.finite(),
        s.len() > 0,
    ensures
        least_above(s, None) is Some,
    decreases s.len(),
{
    let x = s.choose();
    let t = s.remove(x);
    if t.len() == 0 {
        assert forall|j: i64| #[trigger] s.contains(j) && above(None, j) implies x <= j by {
            if j != x {
                assert(t.contains(j));
            }
        }
        assert(is_least_above(s, None, x));
    } else {
        lemma_least_exists(t);
        let y = least_above(t, None).unwrap();
        assert(is_least_above(t, None, y));
        let m = if x <= y { x } else { y };
        assert forall|j: i64| #[trigger] s.contains(j) && above(None, j) implies m <= j by {
            if j != x {
                assert(t.contains(j));
            }
        }
        assert(is_least_above(s, None, m));
    }
}

pub proof fn lemma_greatest_exists(s: Set<i64>)
    requires
        s.finite(),
        s.len() > 0,
    ensures
        greatest_below(s, None) is Some,
    decreases s.len(),
{
    let x = s.choose();
    let t = s.remove(x);
    if t.len() == 0 {
        assert forall|j: i64| #[trigger] s.contains(j) && below(None, j) implies j <= x by {
            if j != x {
                assert(t.contains(j));
            }
        }
        assert(is_greatest_below(s, None, x));
    } else {
        lemma_greatest_exists(t);
        let y = greatest_below(t, None).unwrap();
        assert(is_greatest_below(t, None, y));
        let m = if x >= y { x } else { y };
        assert forall|j: i64| #[trigger] s.contains(j) && below(None, j) implies j <= m by {
            if j != x {
                assert(t.contains(j));
            }
        }
        assert(is_greatest_below(s, None, m));
    }
}

pub proof fn lemma_least_above_exists(s: Set<i64>, bound: Option<i64>, j: i64)
    requires
        s.finite(),
        s.contains(j),
        above(bound, j),
    ensures
        least_above(s, bound) is Some,
{
    let t = s.filter(|x: i64| above(bound, x));
    assert(t.contains(j));
    vstd::set_lib::lemma_len_subset(t, s);
    lemma_least_exists(t);
    let m = least_above(t, None).unwrap();
    assert(is_least_above(t, None, m));
    assert forall|x: i64| #[trigger] s.contains(x) && above(bound, x) implies m <= x by {
        assert(t.contains(x));
    }
    assert(is_least_above(s, bound, m));
}

pub proof fn lemma_greatest_below_exists(s: Set<i64>, bound: Option<i64>, j: i64)
    requires
        s.finite(),
        s.contains(j),
        below(bound, j),
    ensures
        greatest_below(s, bound) is Some,
{
    let t = s.filter(|x: i64| below(bound, x));
    assert(t.contains(j));
    vstd::set_lib::lemma_len_subset(t, s);
    lemma_greatest_exists(t);
    let m = greatest_below(t, None).unwrap();
    assert(is_greatest_below(t, None, m));
    assert forall|x: i64| #[trigger] s.contains(x) && below(bound, x) implies x <= m by {
        assert(t.contains(x));
    }
    assert(is_greatest_below(s, bound, m));
}

} // verus!
