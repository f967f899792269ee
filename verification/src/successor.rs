//! What a successor query returns, stated over the sorted sequence of the
//! stored elements, and the laws that follow for every input.
use crate::order::{is_total_order, le, lemma_le_total, sorted};
use vstd::prelude::*;
use vstd::seq_lib::to_multiset_contains;

verus! {

/// Position of the first element of `s` that is greater than or equal to
/// `x`; the length of `s` if there is none.
pub open spec fn lower_bound<T: Ord>(s: Seq<T>, x: T) -> int
    decreases s.len(),
{
    if s.len() == 0 || le(x, s[0]) {
        0
    } else {
        1 + lower_bound(s.drop_first(), x)
    }
}

/// The first element of `s` that is greater than or equal to `x`. On a
/// sorted `s` this is the smallest such element.
pub open spec fn successor<T: Ord>(s: Seq<T>, x: T) -> Option<T> {
    if lower_bound(s, x) < s.len() {
        Some(s[lower_bound(s, x)])
    } else {
        None
    }
}

/// `lower_bound` stops at the first element that is at least `x`: every
/// element before it is not, and the element at it, if any, is.
pub proof fn lemma_lower_bound<T: Ord>(s: Seq<T>, x: T)
    ensures
        0 <= lower_bound(s, x) <= s.len(),
        forall|k: int| 0 <= k < lower_bound(s, x) ==> !le(x, #[trigger] s[k]),
        lower_bound(s, x) < s.len() ==> le(x, s[lower_bound(s, x)]),
    decreases s.len(),
{
    if !(s.len() == 0 || le(x, s[0])) {
        let rest = s.drop_first();
        lemma_lower_bound(rest, x);
        assert forall|k: int| 0 <= k < lower_bound(s, x) implies !le(x, #[trigger] s[k]) by {
            if k > 0 {
                assert(s[k] == rest[k - 1]);
            }
        }
    }
}

/// Only one position is as `lemma_lower_bound` says: a position with all
/// elements before it too small, and the element at it, if any, large enough,
/// is the lower bound.
pub proof fn lemma_lower_bound_unique<T: Ord>(s: Seq<T>, x: T, p: int)
    requires
        0 <= p <= s.len(),
        forall|k: int| 0 <= k < p ==> !le(x, #[trigger] s[k]),
        p < s.len() ==> le(x, s[p]),
    ensures
        lower_bound(s, x) == p,
{
    lemma_lower_bound(s, x);
}

/// The successor is the minimum. Let `s` hold the elements of `a` in sorted
/// order. Then the successor of `x` in `s` is an element of `a` that is
/// greater than or equal to `x` and at most every other such element; and
/// there is no successor exactly when no element of `a` is greater than or
/// equal to `x`.
pub proof fn lemma_successor_is_minimum<T: Ord>(a: Seq<T>, s: Seq<T>, x: T)
    requires
        is_total_order::<T>(),
        sorted(s),
        s.to_multiset() == a.to_multiset(),
    ensures
        (match successor(s, x) {
            Some(m) => {
                &&& a.contains(m)
                &&& le(x, m)
                &&& forall|e: T| a.contains(e) && le(x, e) ==> le(m, e)
            },
            None => forall|e: T| a.contains(e) ==> !le(x, e),
        }),
{
    lemma_lower_bound(s, x);
    let p = lower_bound(s, x);
    assert forall|e: T| a.contains(e) implies s.contains(e) by {
        to_multiset_contains(a, e);
        to_multiset_contains(s, e);
    }
    if p < s.len() {
        let m = s[p];
        to_multiset_contains(a, m);
        to_multiset_contains(s, m);
        assert forall|e: T| a.contains(e) && le(x, e) implies le(m, e) by {
            let k = choose|k: int| 0 <= k < s.len() && s[k] == e;
            if k == p {
                lemma_le_total(m, m);
            }
        }
    } else {
        assert forall|e: T| a.contains(e) implies !le(x, e) by {
            assert(s.contains(e));
        }
    }
}

/// In an empty sequence nothing has a successor.
pub proof fn lemma_successor_in_empty<T: Ord>(x: T)
    ensures
        successor(Seq::<T>::empty(), x) is None,
{
}

/// An element finds itself. The successor of an element `a` of a sorted `s`
/// exists and is equivalent to `a`: each of the two is at most the other.
pub proof fn lemma_successor_of_member<T: Ord>(s: Seq<T>, a: T)
    requires
        is_total_order::<T>(),
        sorted(s),
        s.contains(a),
    ensures
        successor(s, a) matches Some(m) && le(a, m) && le(m, a),
{
    lemma_lower_bound(s, a);
    lemma_le_total(a, a);
}

/// Larger queries have larger successors. On a sorted `s`, the successor of
/// a larger query lies at least as far to the right: if `x2` has a successor
/// then so has every `x1 <= x2`, and it is at most that of `x2`.
pub proof fn lemma_successor_monotone<T: Ord>(s: Seq<T>, x1: T, x2: T)
    requires
        is_total_order::<T>(),
        sorted(s),
        le(x1, x2),
    ensures
        lower_bound(s, x1) <= lower_bound(s, x2),
        successor(s, x1) is None ==> successor(s, x2) is None,
        successor(s, x2) matches Some(m2) ==> successor(s, x1) matches Some(m1) && le(m1, m2),
{
    lemma_lower_bound(s, x1);
    lemma_lower_bound(s, x2);
    let p1 = lower_bound(s, x1);
    if lower_bound(s, x2) < s.len() {
        lemma_le_total(s[p1], s[p1]);
    }
}

} // verus!
