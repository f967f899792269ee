//! The order on the elements: what the library takes the comparison operators
//! of an element type to compute, and what it means for a sequence to be sorted.
use core::cmp::Ordering;
use vstd::prelude::*;
use vstd::std_specs::cmp::{OrdSpec, PartialOrdSpec};

verus! {

/// `a <= b` in the order that `T` implements.
pub open spec fn le<T: Ord>(a: T, b: T) -> bool {
    a.partial_cmp_spec(&b) == Some(Ordering::Less) || a.partial_cmp_spec(&b) == Some(
        Ordering::Equal,
    )
}

/// The comparisons of `T` compute what its `cmp_spec` and `partial_cmp_spec`
/// say, and these form a total order (on values up to equivalence):
/// `partial_cmp` agrees with `cmp`, `a < b` holds exactly when `b > a` does,
/// and `<=` is transitive.
///
/// The documentation of `Ord` asks this of every implementation. It holds of
/// the integer types, and Verus proves it of them unaided.
pub open spec fn is_total_order<T: Ord>() -> bool {
    &&& T::obeys_cmp_spec()
    &&& T::obeys_partial_cmp_spec()
    &&& forall|a: T, b: T| #[trigger] a.partial_cmp_spec(&b) == Some(a.cmp_spec(&b))
    &&& forall|a: T, b: T|
        (#[trigger] a.cmp_spec(&b) == Ordering::Less) <==> (b.cmp_spec(&a) == Ordering::Greater)
    &&& forall|a: T, b: T, c: T| #[trigger] le(a, b) && #[trigger] le(b, c) ==> le(a, c)
}

/// The elements of `s` are in non-decreasing order.
pub open spec fn sorted<T: Ord>(s: Seq<T>) -> bool {
    forall|i: int, j: int| 0 <= i < j < s.len() ==> le(#[trigger] s[i], #[trigger] s[j])
}

/// In a total order any two values are comparable, and every value is
/// below itself.
pub proof fn lemma_le_total<T: Ord>(a: T, b: T)
    requires
        is_total_order::<T>(),
    ensures
        le(a, b) || le(b, a),
        le(a, a),
{
}

/// References are ordered as the values they point to, so they are totally
/// ordered whenever the values are.
pub proof fn lemma_ref_total_order<T: Ord>()
    requires
        is_total_order::<T>(),
    ensures
        is_total_order::<&T>(),
{
    assert forall|a: &T, b: &T|
        (#[trigger] a.cmp_spec(&b) == Ordering::Less) <==> (b.cmp_spec(&a)
            == Ordering::Greater) by {
        assert(((*a).cmp_spec(&*b) == Ordering::Less) <==> ((*b).cmp_spec(&*a)
            == Ordering::Greater));
    }
    assert forall|a: &T, b: &T, c: &T| #[trigger] le(a, b) && #[trigger] le(b, c) implies le(
        a,
        c,
    ) by {
        assert(le(*a, *b) && le(*b, *c));
    }
}

/// Assumed of `<[E]>::sort_unstable` of the standard library, as its
/// documentation has it: provided that `E` implements a total order, the call
/// returns and leaves the slice in ascending order, holding the elements it
/// held before. Which of several equivalent elements comes first is left
/// open. Verus takes this on trust.
pub assume_specification<E>[ <[E]>::sort_unstable ](s: &mut [E]) where E: Ord
    requires
        is_total_order::<E>(),
    ensures
        sorted(final(s)@),
        final(s)@.to_multiset() == old(s)@.to_multiset(),
;

} // verus!
