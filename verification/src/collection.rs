//! The ordered collection: construction of the Eytzinger layout from a
//! sorted sequence, and the successor search over it.
use crate::layout::{
    in_order, in_subtree, lemma_children_disjoint, lemma_in_order_contains, lemma_in_order_frame,
    lemma_in_order_len, lemma_in_order_map, lemma_root_reaches, lemma_subtree_of_child,
    lemma_subtree_size_nonnegative, lemma_whole_tree_size, subtree_size,
};
use crate::order::{is_total_order, le, lemma_ref_total_order, sorted};
use crate::prefetch::{is_prefetch_mask, prefetch_mask};
use crate::successor::{lemma_successor_is_minimum, successor};
use crate::walk::{
    found_at, last_left_turn_of, lemma_last_left_turn_bound, lemma_walk_finds_successor,
    next_position, walk_end,
};
use vstd::prelude::*;
use vstd::seq_lib::to_multiset_len;
use vstd::std_specs::iter::IteratorSpec;

verus! {

/// Fills the subtree rooted at position `i` of `slots` with the next items
/// of `iter`, in order: the left subtree first, then position `i`, then the
/// right subtree. Positions outside the subtree are left as they are.
fn eytzinger_walk<I, T>(slots: &mut Vec<Option<T>>, iter: &mut I, i: usize) where
    I: Iterator<Item = T>,

    requires
        old(slots).len() < isize::MAX,
        <I as IteratorSpec>::obeys_prophetic_iter_laws(old(iter)),
        <I as IteratorSpec>::remaining(old(iter)).len() >= subtree_size(
            old(slots).len() as int,
            i as int,
        ),
    ensures
        final(slots).len() == old(slots).len(),
        <I as IteratorSpec>::obeys_prophetic_iter_laws(final(iter)),
        <I as IteratorSpec>::remaining(final(iter)) == <I as IteratorSpec>::remaining(
            old(iter),
        ).skip(subtree_size(old(slots).len() as int, i as int)),
        in_order(final(slots)@, i as int) == <I as IteratorSpec>::remaining(old(iter)).take(
            subtree_size(old(slots).len() as int, i as int),
        ).map_values(|t: T| Some(t)),
        forall|j: int|
            0 <= j < old(slots).len() && !in_subtree(i as int, j) ==> final(slots)@[j] == old(
                slots,
            )@[j],
    decreases (if i < old(slots).len() { old(slots).len() - i } else { 0 }),
{
    if i >= slots.len() {
        return ;
    }
    let ghost n = slots.len() as int;
    let ghost source = (*iter).remaining();
    let ghost before = slots@;
    let ghost left_size = subtree_size(n, 2 * i + 1);
    let ghost right_size = subtree_size(n, 2 * i + 2);
    proof {
        lemma_subtree_size_nonnegative(n, 2 * i + 1);
        lemma_subtree_size_nonnegative(n, 2 * i + 2);
    }

    eytzinger_walk(slots, iter, 2 * i + 1);
    let ghost after_left = slots@;

    match iter.next() {
        Some(item) => {
            slots[i] = Some(item);
        },
        None => {
            assert(false);
        },
    }

    eytzinger_walk(slots, iter, 2 * i + 2);

    proof {
        let some = |t: T| Some(t);
        // the node and its left subtree are untouched by the walk on the right
        assert forall|j: int| 0 <= j < n && in_subtree(2 * i + 1, j) implies slots@[j]
            == after_left[j] by {
            lemma_children_disjoint(i as int, j);
            lemma_subtree_of_child(i as int, j);
        }
        lemma_in_order_frame(slots@, after_left, 2 * i + 1);
        if in_subtree(2 * i + 2, i as int) {
            lemma_subtree_of_child(i as int, i as int);
        }
        assert(in_order(slots@, i as int) == in_order(slots@, 2 * i + 1).push(slots@[i as int])
            + in_order(slots@, 2 * i + 2));
        assert(in_order(slots@, i as int) =~= source.take(left_size + 1 + right_size).map_values(
            some,
        ));
        assert forall|j: int| 0 <= j < n && !in_subtree(i as int, j) implies slots@[j]
            == before[j] by {
            if in_subtree(2 * i + 1, j) || in_subtree(2 * i + 2, j) {
                lemma_subtree_of_child(i as int, j);
            }
        }
    }
}

/// A fixed collection of ordered items that answers successor queries.
///
/// The items are kept in Eytzinger order: position `i` of the backing array
/// is a node of a complete binary tree, with its children at `2 * i + 1` and
/// `2 * i + 2`. The view of the collection is the in-order reading of that
/// tree, which for a collection built from a sorted sequence is that
/// sequence.
pub struct OrderedCollection<T> {
    items: Vec<T>,
    mask: usize,
}

impl<T> View for OrderedCollection<T> {
    type V = Seq<T>;

    open spec fn view(&self) -> Seq<T> {
        in_order(self.layout(), 0)
    }
}

impl<T> OrderedCollection<T> {
    /// The backing array, in Eytzinger order.
    pub closed spec fn layout(&self) -> Seq<T> {
        self.items@
    }

    #[verifier::type_invariant]
    spec fn well_formed(&self) -> bool {
        &&& self.items.len() < isize::MAX
        &&& is_prefetch_mask(self.items.len() as int, self.mask as int)
    }

    /// The backing array, in Eytzinger order.
    pub fn as_slice(&self) -> (items: &[T])
        ensures
            items@ == self.layout(),
    {
        self.items.as_slice()
    }

    /// The mask that keeps prefetch hints near the backing array: the
    /// smallest number of the form `2^k - 1` that is at least the number of
    /// elements.
    pub fn mask(&self) -> (mask: usize)
        ensures
            is_prefetch_mask(self.layout().len() as int, mask as int),
    {
        proof {
            use_type_invariant(self);
        }
        self.mask
    }
}

impl<T: Ord> OrderedCollection<T> {
    /// Builds the collection from a vector of elements in any order, by
    /// sorting them first.
    pub fn from(v: Vec<T>) -> (c: Self)
        requires
            is_total_order::<T>(),
            v.len() < isize::MAX,
        ensures
            sorted(c@),
            c@.to_multiset() == v@.to_multiset(),
            c.layout().len() == v.len(),
    {
        let ghost given = v@;
        let mut v = v;
        v.sort_unstable();
        proof {
            to_multiset_len(given);
            to_multiset_len(v@);
        }
        Self::from_sorted_iter(v)
    }

    /// Builds a collection of references to the elements of a slice. The
    /// slice itself is sorted in place, and the collection borrows it.
    pub fn from_slice<'a>(v: &'a mut [T]) -> (c: OrderedCollection<&'a T>)
        requires
            is_total_order::<T>(),
            old(v).len() < isize::MAX,
        ensures
            sorted(final(v)@),
            final(v)@.to_multiset() == old(v)@.to_multiset(),
            c@ == final(v)@.as_ref(),
            sorted(c@),
            c.layout().len() == old(v).len(),
    {
        let ghost given = v@;
        v.sort_unstable();
        let items: &'a [T] = v;
        let n = items.len();
        proof {
            to_multiset_len(given);
            to_multiset_len(items@);
        }
        let mut refs: Vec<&'a T> = Vec::with_capacity(n);
        while refs.len() < n
            invariant
                n == items@.len(),
                n < isize::MAX,
                refs.len() <= n,
                forall|k: int| 0 <= k < refs.len() ==> refs@[k] == items@[k],
            decreases n - refs.len(),
        {
            refs.push(&items[refs.len()]);
        }
        proof {
            lemma_ref_total_order::<T>();
            assert forall|i: int, j: int| 0 <= i < j < refs@.len() implies le(
                #[trigger] refs@[i],
                #[trigger] refs@[j],
            ) by {
                assert(le(items@[i], items@[j]));
            }
        }
        OrderedCollection::from_sorted_iter(refs)
    }

    /// Builds the collection from a vector whose elements are in sorted
    /// order. The in-order reading of the result is the given sequence; if
    /// that sequence is not sorted the collection is still built, and later
    /// queries promise nothing beyond an element of the collection.
    pub fn from_sorted_iter(v: Vec<T>) -> (c: Self)
        requires
            v.len() < isize::MAX,
        ensures
            c@ == v@,
            c.layout().len() == v.len(),
    {
        let n = v.len();
        let mut slots: Vec<Option<T>> = Vec::with_capacity(n);
        while slots.len() < n
            invariant
                slots.len() <= n,
            decreases n - slots.len(),
        {
            slots.push(None);
        }
        let mut iter = v.into_iter();
        proof {
            lemma_whole_tree_size(n as int);
        }
        eytzinger_walk(&mut slots, &mut iter, 0);
        let ghost some = |t: T| Some(t);

        let ghost filled = slots@;
        let mut items: Vec<T> = Vec::with_capacity(n);
        for slot in it: slots
            invariant
                it.seq() == filled,
                filled.len() == n,
                items.len() == it.index(),
                forall|j: int| 0 <= j < it.index() ==> filled[j] == Some(#[trigger] items@[j]),
                in_order(filled, 0) == v@.map_values(some),
                forall|t: T| #[trigger] some(t) == Some(t),
        {
            proof {
                // every slot occurs in the in-order reading, which holds no `None`
                let k = it.index() as int;
                lemma_root_reaches(k);
                lemma_in_order_contains(filled, 0, k);
            }
            match slot {
                Some(item) => {
                    items.push(item);
                },
                None => {
                    assert(false);
                },
            }
        }
        proof {
            assert(filled =~= items@.map_values(some));
            lemma_in_order_map(items@, some, 0);
            assert(in_order(items@, 0) =~= v@) by {
                lemma_in_order_len(items@, 0);
                lemma_in_order_len(filled, 0);
                assert forall|j: int| 0 <= j < v@.len() implies in_order(items@, 0)[j] == v@[j] by {
                    assert(in_order(items@, 0).map_values(some)[j] == v@.map_values(some)[j]);
                }
            }
        }
        let mask = prefetch_mask(n);
        OrderedCollection { items, mask }
    }

    /// One step of a search for `x`: the position to go to from position
    /// `i`. That is the left child where `x` is at most the element at `i`,
    /// and the right child where it is not.
    pub fn descend(&self, i: usize, x: &T) -> (next: usize)
        requires
            i < self.layout().len(),
        ensures
            next == 2 * i + 1 || next == 2 * i + 2,
            is_total_order::<T>() ==> next == next_position(self.layout(), *x, i as int),
    {
        proof {
            use_type_invariant(self);
        }
        if *x <= self.items[i] {
            2 * i + 1
        } else {
            2 * i + 2
        }
    }

    /// The answer of a search whose walk left the array at position `end`:
    /// the element of the node at which the walk last went left, or `None`
    /// if it only ever went right.
    pub fn finish(&self, end: usize) -> (r: Option<&T>)
        requires
            end <= 2 * self.layout().len(),
        ensures
            (match r {
                Some(e) => found_at(self.layout(), end as int) == Some(*e),
                None => found_at(self.layout(), end as int) is None,
            }),
            r matches Some(e) ==> self@.contains(*e),
    {
        proof {
            use_type_invariant(self);
            lemma_last_left_turn_bound(end + 1);
        }
        let j = last_left_turn_of(end);
        if j == 0 {
            None
        } else {
            proof {
                lemma_root_reaches(j - 1);
                lemma_in_order_contains(self.items@, 0, j - 1);
            }
            Some(&self.items[j - 1])
        }
    }

    /// Finds the smallest element that is greater than or equal to `x`;
    /// `None` if there is no such element.
    ///
    /// The walk starts at the root and goes left where `x` is at most the
    /// element of the node and right where it is not, until it leaves the
    /// array. The answer is the node at which it last went left.
    ///
    /// What is found is always an element of the collection. That it is the
    /// smallest one at or above `x` is owed where the collection was built
    /// from a sorted sequence and the order of `T` is total.
    pub fn find_gte(&self, x: T) -> (r: Option<&T>)
        ensures
            r matches Some(e) ==> self@.contains(*e),
            is_total_order::<T>() && sorted(self@) ==> (match r {
                Some(e) => {
                    &&& successor(self@, x) == Some(*e)
                    &&& le(x, *e)
                    &&& forall|a: T| self@.contains(a) && le(x, a) ==> le(*e, a)
                },
                None => {
                    &&& successor(self@, x) is None
                    &&& forall|a: T| self@.contains(a) ==> !le(x, a)
                },
            }),
    {
        let n = self.items.len();
        let mut i: usize = 0;
        while i < n
            invariant
                n == self.layout().len(),
                i <= 2 * n,
                is_total_order::<T>() ==> walk_end(self.layout(), x, i as int) == walk_end(
                    self.layout(),
                    x,
                    0,
                ),
            decreases (if i < n { n - i } else { 0 }),
        {
            i = self.descend(i, &x);
        }
        proof {
            if is_total_order::<T>() && sorted(self@) {
                lemma_walk_finds_successor(self.layout(), x);
                lemma_successor_is_minimum(self@, self@, x);
            }
        }
        self.finish(i)
    }
}

} // verus!
