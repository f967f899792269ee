//! The implicit complete binary tree behind the Eytzinger layout: position
//! `i` of the array is a node whose children are at `2 * i + 1` and
//! `2 * i + 2`. This module holds the mathematics of that tree.
use crate::order::{le, sorted};
use vstd::prelude::*;

verus! {

/// The elements of the subtree rooted at position `i`, read in order: left
/// subtree, then the node, then the right subtree. The tree has as many nodes
/// as `items` has elements; a position past the end is an empty subtree.
pub open spec fn in_order<T>(items: Seq<T>, i: int) -> Seq<T>
    decreases (if i < items.len() { items.len() - i } else { 0 }),
{
    if 0 <= i < items.len() {
        in_order(items, 2 * i + 1).push(items[i]) + in_order(items, 2 * i + 2)
    } else {
        Seq::empty()
    }
}

/// Number of nodes in the subtree rooted at position `i` of a tree of `n`
/// nodes.
pub open spec fn subtree_size(n: int, i: int) -> int
    decreases (if i < n { n - i } else { 0 }),
{
    if 0 <= i < n {
        subtree_size(n, 2 * i + 1) + 1 + subtree_size(n, 2 * i + 2)
    } else {
        0
    }
}

/// Position `j` lies in the subtree rooted at position `i`: following parent
/// links from `j` reaches `i`.
pub open spec fn in_subtree(i: int, j: int) -> bool
    decreases j,
{
    j == i || (0 <= i < j && in_subtree(i, (j - 1) / 2))
}

/// The size of a subtree is not negative.
pub proof fn lemma_subtree_size_nonnegative(n: int, i: int)
    ensures
        0 <= subtree_size(n, i),
    decreases (if i < n { n - i } else { 0 }),
{
    if 0 <= i < n {
        lemma_subtree_size_nonnegative(n, 2 * i + 1);
        lemma_subtree_size_nonnegative(n, 2 * i + 2);
    }
}

/// The in-order reading of a subtree has one element for each of its nodes.
pub proof fn lemma_in_order_len<T>(items: Seq<T>, i: int)
    ensures
        in_order(items, i).len() == subtree_size(items.len() as int, i),
    decreases (if i < items.len() { items.len() - i } else { 0 }),
{
    if 0 <= i < items.len() {
        lemma_in_order_len(items, 2 * i + 1);
        lemma_in_order_len(items, 2 * i + 2);
    }
}

/// A node of a subtree other than its root lies under one of the root's
/// two children.
pub proof fn lemma_subtree_split(i: int, j: int)
    requires
        0 <= i,
        in_subtree(i, j),
        j != i,
    ensures
        in_subtree(2 * i + 1, j) || in_subtree(2 * i + 2, j),
    decreases j,
{
    let p = (j - 1) / 2;
    if p != i {
        lemma_subtree_split(i, p);
    }
}

/// What lies under a child of `i` lies under `i`, and is not `i` itself.
pub proof fn lemma_subtree_of_child(i: int, j: int)
    requires
        0 <= i,
        in_subtree(2 * i + 1, j) || in_subtree(2 * i + 2, j),
    ensures
        in_subtree(i, j),
        j > i,
    decreases j,
{
    if j != 2 * i + 1 && j != 2 * i + 2 {
        lemma_subtree_of_child(i, (j - 1) / 2);
    } else {
        assert(in_subtree(i, i));
    }
}

/// The subtrees of the two children of a node share no position.
pub proof fn lemma_children_disjoint(i: int, j: int)
    requires
        0 <= i,
    ensures
        !(in_subtree(2 * i + 1, j) && in_subtree(2 * i + 2, j)),
    decreases j,
{
    if in_subtree(2 * i + 1, j) && in_subtree(2 * i + 2, j) {
        if j == 2 * i + 2 {
            lemma_subtree_of_child(i, i);
        } else {
            lemma_children_disjoint(i, (j - 1) / 2);
        }
    }
}

/// Every position lies in the tree rooted at position 0.
pub proof fn lemma_root_reaches(j: int)
    requires
        0 <= j,
    ensures
        in_subtree(0, j),
    decreases j,
{
    if j > 0 {
        lemma_root_reaches((j - 1) / 2);
    }
}

/// Adding node `n` to a tree of `n` nodes enlarges exactly the subtrees that
/// node `n` lies in.
pub proof fn lemma_size_grows(n: int, i: int)
    requires
        0 <= n,
        0 <= i,
    ensures
        subtree_size(n + 1, i) == subtree_size(n, i) + if in_subtree(i, n) {
            1int
        } else {
            0int
        },
    decreases (if i < n + 1 { n + 1 - i } else { 0 }),
{
    if i < n {
        lemma_size_grows(n, 2 * i + 1);
        lemma_size_grows(n, 2 * i + 2);
        lemma_children_disjoint(i, n);
        if in_subtree(i, n) {
            lemma_subtree_split(i, n);
        }
        if in_subtree(2 * i + 1, n) || in_subtree(2 * i + 2, n) {
            lemma_subtree_of_child(i, n);
        }
    } else if i == n {
        assert(subtree_size(n + 1, 2 * i + 1) == 0);
        assert(subtree_size(n + 1, 2 * i + 2) == 0);
    }
}

/// The tree rooted at position 0 has all `n` nodes.
pub proof fn lemma_whole_tree_size(n: int)
    requires
        0 <= n,
    ensures
        subtree_size(n, 0) == n,
    decreases n,
{
    if n > 0 {
        lemma_whole_tree_size(n - 1);
        lemma_size_grows(n - 1, 0);
        lemma_root_reaches(n - 1);
    }
}

/// The in-order reading of a subtree depends only on the elements at the
/// positions of that subtree.
pub proof fn lemma_in_order_frame<T>(a: Seq<T>, b: Seq<T>, i: int)
    requires
        0 <= i,
        a.len() == b.len(),
        forall|j: int| 0 <= j < a.len() && #[trigger] in_subtree(i, j) ==> a[j] == b[j],
    ensures
        in_order(a, i) == in_order(b, i),
    decreases (if i < a.len() { a.len() - i } else { 0 }),
{
    if i < a.len() {
        assert forall|j: int| 0 <= j < a.len() && in_subtree(2 * i + 1, j) implies a[j] == b[j] by {
            lemma_subtree_of_child(i, j);
        }
        assert forall|j: int| 0 <= j < a.len() && in_subtree(2 * i + 2, j) implies a[j] == b[j] by {
            lemma_subtree_of_child(i, j);
        }
        lemma_in_order_frame(a, b, 2 * i + 1);
        lemma_in_order_frame(a, b, 2 * i + 2);
        assert(in_subtree(i, i));
    }
}

/// The element at a position of a subtree occurs in the in-order reading of
/// that subtree.
pub proof fn lemma_in_order_contains<T>(items: Seq<T>, i: int, j: int)
    requires
        0 <= i,
        0 <= j < items.len(),
        in_subtree(i, j),
    ensures
        in_order(items, i).contains(items[j]),
    decreases (if i < items.len() { items.len() - i } else { 0 }),
{
    let left = in_order(items, 2 * i + 1);
    let right = in_order(items, 2 * i + 2);
    let all = in_order(items, i);
    if j == i {
        assert(all[left.len() as int] == items[i]);
    } else {
        lemma_subtree_split(i, j);
        if in_subtree(2 * i + 1, j) {
            lemma_in_order_contains(items, 2 * i + 1, j);
            let k = choose|k: int| 0 <= k < left.len() && left[k] == items[j];
            assert(all[k] == items[j]);
        } else {
            lemma_in_order_contains(items, 2 * i + 2, j);
            let k = choose|k: int| 0 <= k < right.len() && right[k] == items[j];
            assert(all[left.len() + 1 + k] == items[j]);
        }
    }
}

/// Reading a tree in order commutes with mapping its elements.
pub proof fn lemma_in_order_map<T, U>(items: Seq<T>, f: spec_fn(T) -> U, i: int)
    ensures
        in_order(items.map_values(f), i) == in_order(items, i).map_values(f),
    decreases (if i < items.len() { items.len() - i } else { 0 }),
{
    if 0 <= i < items.len() {
        lemma_in_order_map(items, f, 2 * i + 1);
        lemma_in_order_map(items, f, 2 * i + 2);
    }
}

/// Where the in-order reading of the whole tree is sorted, so is that of
/// each subtree.
pub proof fn lemma_subtree_sorted<T: Ord>(items: Seq<T>, i: int)
    requires
        sorted(in_order(items, 0)),
        0 <= i,
    ensures
        sorted(in_order(items, i)),
    decreases i,
{
    if i > 0 {
        let p = (i - 1) / 2;
        lemma_subtree_sorted(items, p);
        if p < items.len() {
            let above = in_order(items, p);
            let left = in_order(items, 2 * p + 1);
            let here = in_order(items, i);
            assert forall|a: int, b: int| 0 <= a < b < here.len() implies le(
                #[trigger] here[a],
                #[trigger] here[b],
            ) by {
                if i == 2 * p + 1 {
                    assert(above[a] == here[a] && above[b] == here[b]);
                } else {
                    assert(above[left.len() + 1 + a] == here[a]);
                    assert(above[left.len() + 1 + b] == here[b]);
                }
            }
        }
    }
}

/// Search tree. Where the in-order reading of the tree is sorted, no element
/// in the left subtree of a node is above the element of the node, and no
/// element in its right subtree is below it.
pub proof fn lemma_search_tree<T: Ord>(items: Seq<T>, i: int, j: int)
    requires
        sorted(in_order(items, 0)),
        0 <= i < items.len(),
        0 <= j < items.len(),
    ensures
        in_subtree(2 * i + 1, j) ==> le(items[j], items[i]),
        in_subtree(2 * i + 2, j) ==> le(items[i], items[j]),
{
    lemma_subtree_sorted(items, i);
    let here = in_order(items, i);
    let left = in_order(items, 2 * i + 1);
    let right = in_order(items, 2 * i + 2);
    assert(here[left.len() as int] == items[i]);
    if in_subtree(2 * i + 1, j) {
        lemma_in_order_contains(items, 2 * i + 1, j);
        let k = choose|k: int| 0 <= k < left.len() && left[k] == items[j];
        assert(here[k] == items[j]);
    }
    if in_subtree(2 * i + 2, j) {
        lemma_in_order_contains(items, 2 * i + 2, j);
        let k = choose|k: int| 0 <= k < right.len() && right[k] == items[j];
        assert(here[left.len() + 1 + k] == items[j]);
    }
}

} // verus!
