//! The walk that a search takes down the implicit tree, as mathematics: where
//! it ends, what is read off its end, and why that is the successor.
use crate::layout::{in_order, lemma_in_order_len, lemma_whole_tree_size};
use crate::order::{is_total_order, le, lemma_le_total, sorted};
use crate::successor::{lemma_lower_bound_unique, successor};
use vstd::arithmetic::power2::{lemma2_to64, lemma_pow2_unfold, pow2};
use vstd::prelude::*;
use vstd::std_specs::bits::{axiom_u64_trailing_ones, u64_trailing_ones};

verus! {

/// The position that a walk for `x` goes to from position `i`: the left
/// child where `x` is at most the element at `i`, the right child where it
/// is not.
pub open spec fn next_position<T: Ord>(items: Seq<T>, x: T, i: int) -> int {
    if le(x, items[i]) {
        2 * i + 1
    } else {
        2 * i + 2
    }
}

/// The position at which a walk for `x` that stands at position `i` leaves
/// the array.
pub open spec fn walk_end<T: Ord>(items: Seq<T>, x: T, i: int) -> int
    decreases (if i < items.len() { items.len() - i } else { 0 }),
{
    if 0 <= i < items.len() {
        walk_end(items, x, next_position(items, x, i))
    } else {
        i
    }
}

/// Number of nodes that a walk for `x` visits from position `i` on, which is
/// the number of comparisons that it makes.
pub open spec fn walk_length<T: Ord>(items: Seq<T>, x: T, i: int) -> nat
    decreases (if i < items.len() { items.len() - i } else { 0 }),
{
    if 0 <= i < items.len() {
        1 + walk_length(items, x, next_position(items, x, i))
    } else {
        0
    }
}

/// Where a walk last went left. A walk from the root that stands at
/// position `k - 1` got there by going left whenever `k` was doubled and
/// right whenever it was doubled and incremented. The result is the position,
/// counted from one, of the last node that the walk left to the left; it is
/// zero if the walk only ever went right.
pub open spec fn last_left_turn(k: int) -> int
    decreases k,
{
    if k <= 0 {
        0
    } else if k % 2 == 0 {
        k / 2
    } else {
        last_left_turn(k / 2)
    }
}

/// What a walk that left the array at position `end` has found: the element
/// of the node at which it last went left, if it ever did.
pub open spec fn found_at<T>(items: Seq<T>, end: int) -> Option<T> {
    let j = last_left_turn(end + 1);
    if 0 < j <= items.len() {
        Some(items[j - 1])
    } else {
        None
    }
}

/// Each step at least doubles the position, counted from one, so a walk
/// from position `i` that takes `l` steps needs `2^(l - 1) * (i + 1)` nodes.
pub proof fn lemma_walk_length<T: Ord>(items: Seq<T>, x: T, i: int)
    requires
        0 <= i < items.len(),
    ensures
        walk_length(items, x, i) >= 1,
        pow2((walk_length(items, x, i) - 1) as nat) * (i + 1) <= items.len(),
    decreases items.len() - i,
{
    let next = next_position(items, x, i);
    let rest = walk_length(items, x, next);
    lemma2_to64();
    if next < items.len() {
        lemma_walk_length(items, x, next);
        lemma_pow2_unfold(rest);
        let p = pow2((rest - 1) as nat) as int;
        assert(p * (2 * (i + 1)) <= p * (next + 1)) by (nonlinear_arith)
            requires
                0 <= p,
                2 * (i + 1) <= next + 1,
        ;
        assert(p * (2 * (i + 1)) == (2 * p) * (i + 1)) by (nonlinear_arith);
        assert(pow2(rest) * (i + 1) == (2 * p) * (i + 1));
    } else {
        assert(pow2(0) * (i + 1) == i + 1);
    }
}

/// A search is short: a walk from the root makes at most `log2(n) + 1`
/// comparisons in a collection of `n` elements, that is, `2^(l - 1) <= n`
/// for a walk of `l` comparisons; and none in an empty collection.
pub proof fn lemma_walk_is_short<T: Ord>(items: Seq<T>, x: T)
    ensures
        items.len() == 0 ==> walk_length(items, x, 0) == 0,
        items.len() > 0 ==> walk_length(items, x, 0) >= 1 && pow2(
            (walk_length(items, x, 0) - 1) as nat,
        ) <= items.len(),
{
    if items.len() > 0 {
        lemma_walk_length(items, x, 0);
    }
}

/// The node of the last left turn lies above the position that the walk has
/// reached.
pub proof fn lemma_last_left_turn_bound(k: int)
    requires
        0 <= k,
    ensures
        0 <= last_left_turn(k) <= k / 2,
    decreases k,
{
    if k > 0 && k % 2 != 0 {
        lemma_last_left_turn_bound(k / 2);
    }
}

/// The step of the proof below. A walk stands at position `i`, whose subtree
/// holds the elements of ranks `lo` to `hi` of the sorted reading `s`. All
/// elements before `lo` are known to be too small, all from `hi` on to be
/// large enough, and the node of the last left turn holds the element of rank
/// `hi`. Then what the walk finds in the end is the element at the lower
/// bound.
proof fn lemma_walk_narrows<T: Ord>(items: Seq<T>, x: T, i: int, lo: int, hi: int)
    requires
        is_total_order::<T>(),
        sorted(in_order(items, 0)),
        0 <= i,
        0 <= lo <= hi <= items.len(),
        in_order(items, 0).len() == items.len(),
        in_order(items, 0).subrange(lo, hi) == in_order(items, i),
        forall|k: int| 0 <= k < lo ==> !le(x, #[trigger] in_order(items, 0)[k]),
        forall|k: int| hi <= k < items.len() ==> le(x, #[trigger] in_order(items, 0)[k]),
        found_at(items, i) == if hi < items.len() {
            Some(in_order(items, 0)[hi])
        } else {
            None
        },
    ensures
        found_at(items, walk_end(items, x, i)) == successor(in_order(items, 0), x),
    decreases (if i < items.len() { items.len() - i } else { 0 }),
{
    let s = in_order(items, 0);
    let n = items.len() as int;
    if i < n {
        let left = in_order(items, 2 * i + 1);
        let right = in_order(items, 2 * i + 2);
        let mid = lo + left.len();
        // the subtree reads: left subtree, node, right subtree
        assert(s.subrange(lo, hi).len() == left.len() + 1 + right.len());
        assert(s.subrange(lo, hi)[left.len() as int] == items[i]);
        assert(s.subrange(lo, mid) =~= left);
        assert(s.subrange(mid + 1, hi) =~= right) by {
            assert forall|r: int| 0 <= r < right.len() implies s.subrange(mid + 1, hi)[r]
                == right[r] by {
                assert(s.subrange(lo, hi)[left.len() + 1 + r] == right[r]);
            }
        }
        if le(x, items[i]) {
            // the node and all after it are at least `x`
            assert forall|k: int| mid <= k < n implies le(x, #[trigger] s[k]) by {
                if mid < k < hi {
                    assert(le(s[mid], s[k]));
                }
            }
            lemma_walk_narrows(items, x, 2 * i + 1, lo, mid);
        } else {
            // the node and all before it are below `x`
            assert forall|k: int| 0 <= k < mid + 1 implies !le(x, #[trigger] s[k]) by {
                if lo <= k {
                    lemma_le_total(s[k], s[mid]);
                    assert(le(s[k], s[mid]));
                }
            }
            lemma_last_left_turn_bound(i + 1);
            lemma_walk_narrows(items, x, 2 * i + 2, mid + 1, hi);
        }
    } else {
        lemma_in_order_len(items, i);
        lemma_lower_bound_unique(s, x, hi);
    }
}

/// The walk finds the successor. In a layout whose in-order reading is
/// sorted, a walk for `x` from the root ends where the node of its last left
/// turn holds the first element of the sorted reading that is at least `x`;
/// and it never went left exactly when no element is.
pub proof fn lemma_walk_finds_successor<T: Ord>(items: Seq<T>, x: T)
    requires
        is_total_order::<T>(),
        sorted(in_order(items, 0)),
    ensures
        found_at(items, walk_end(items, x, 0)) == successor(in_order(items, 0), x),
{
    let s = in_order(items, 0);
    lemma_whole_tree_size(items.len() as int);
    lemma_in_order_len(items, 0);
    assert(s.subrange(0, items.len() as int) =~= s);
    assert(last_left_turn(0) == 0);
    lemma_walk_narrows(items, x, 0, 0, items.len() as int);
}

/// Dropping the trailing one bits of `k`, and one bit more, leaves the
/// position of the last left turn.
proof fn lemma_last_left_turn_bits(k: u64)
    requires
        k < u64::MAX,
    ensures
        u64_trailing_ones(k) < 64,
        (k >> u64_trailing_ones(k)) >> 1u64 == last_left_turn(k as int),
    decreases k,
{
    axiom_u64_trailing_ones(k);
    let t = u64_trailing_ones(k) as u64;
    if k == 0 {
        assert(t == 0) by {
            if t > 0 {
                assert((0u64 >> 0u64) & 1u64 == 0u64) by (bit_vector);
            }
        }
        assert((0u64 >> 0u64) >> 1u64 == 0) by (bit_vector);
    } else if k % 2 == 0 {
        assert(t == 0) by {
            if t > 0 {
                assert(k % 2 == 0 ==> (k >> 0u64) & 1u64 == 0u64) by (bit_vector);
            }
        }
        assert((k >> 0u64) >> 1u64 == k / 2) by (bit_vector);
    } else {
        let m = k / 2;
        axiom_u64_trailing_ones(m);
        lemma_last_left_turn_bits(m);
        let tm = u64_trailing_ones(m) as u64;
        assert(t >= 1) by {
            assert(k % 2 != 0 ==> (k >> 0u64) & 1u64 == 1u64) by (bit_vector);
        }
        assert(tm == t - 1) by {
            if tm > t - 1 {
                let j = (t - 1) as u64;
                assert(1 <= t <= 63 && j == t - 1 ==> ((k / 2) >> j) & 1u64 == (k >> t) & 1u64)
                    by (bit_vector);
            }
            if tm < t - 1 {
                let j = (tm + 1) as u64;
                assert(tm <= 62 && j == tm + 1 ==> ((k / 2) >> tm) & 1u64 == (k >> j) & 1u64)
                    by (bit_vector);
            }
        }
        assert(1 <= t <= 63 && tm == t - 1 ==> (k >> t) >> 1u64 == ((k / 2) >> tm) >> 1u64)
            by (bit_vector);
    }
}

/// Recovers from the cursor `i` at which a walk ended the node at which it
/// last went left: the result is that node's position plus one, or zero if
/// the walk never went left. The path is read off the bits of `i + 1`.
pub fn last_left_turn_of(i: usize) -> (j: usize)
    requires
        i + 1 < usize::MAX,
    ensures
        j == last_left_turn(i + 1),
{
    let k: u64 = i as u64 + 1;
    proof {
        lemma_last_left_turn_bits(k);
    }
    let ones = (!k).trailing_zeros();
    let j = (k >> ones) >> 1;
    assert(j <= k) by (bit_vector)
        requires
            j == (k >> ones) >> 1u64,
    ;
    j as usize
}

} // verus!
