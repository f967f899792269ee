//! Arithmetic for cache prefetch hints. A search may ask the processor to
//! load the part of the array that it will reach a few levels further down.
//! The address it asks for is kept near the array by a mask that is computed
//! once, when the collection is built. None of this changes what a search
//! returns.
use vstd::arithmetic::power2::{
    lemma2_to64, lemma_pow2_strictly_increases, lemma_pow2_unfold, pow2,
};
use vstd::bits::lemma_usize_shl_is_mul;
use vstd::prelude::*;

verus! {

/// Number of bytes in the cache line that the hints are laid out for.
pub const CACHE_LINE: usize = 64;

/// `m` is the mask for an array of `n` elements: the smallest number of the
/// form `2^k - 1` that is at least `n`.
pub open spec fn is_prefetch_mask(n: int, m: int) -> bool {
    &&& exists|k: nat| m == #[trigger] pow2(k) - 1
    &&& n <= m
    &&& forall|k: nat| n <= #[trigger] pow2(k) - 1 ==> m <= pow2(k) - 1
}

/// Computes the mask for an array of `n` elements.
pub fn prefetch_mask(n: usize) -> (mask: usize)
    requires
        n < isize::MAX,
    ensures
        is_prefetch_mask(n as int, mask as int),
{
    let mut mask: usize = 1;
    let ghost mut k: nat = 0;
    proof {
        lemma2_to64();
    }
    while mask <= n
        invariant
            n < isize::MAX,
            0 < mask == pow2(k),
            k > 0 ==> pow2((k - 1) as nat) <= n,
        decreases (if mask <= n { n + 1 - mask } else { 0 }),
    {
        proof {
            lemma2_to64();
            lemma_pow2_unfold(k + 1);
            lemma_usize_shl_is_mul(mask, 1);
            k = k + 1;
        }
        mask = mask << 1;
    }
    proof {
        assert forall|e: nat| n <= #[trigger] pow2(e) - 1 implies mask - 1 <= pow2(e) - 1 by {
            if e < k {
                if e < k - 1 {
                    lemma_pow2_strictly_increases(e, (k - 1) as nat);
                }
            } else if e > k {
                lemma_pow2_strictly_increases(k, e);
            }
        }
    }
    mask - 1
}

/// The position that a search standing at position `i` looks ahead to, for
/// elements of `element_size` bytes. With `m` elements to a cache line, the
/// descendants of `i` that lie `log2(m)` levels below it are the `m`
/// positions from `m * i + m - 1` on; the search looks at the middle of them.
pub open spec fn lookahead(i: int, element_size: int) -> int {
    let m = CACHE_LINE as int / element_size;
    m * i + m + m / 2
}

/// The offset from the start of the array, in elements, at which a search
/// standing at position `i` gives its hint: the position it looks ahead to,
/// cut down to the bits of `mask`.
pub fn prefetch_target(i: usize, element_size: usize, mask: usize) -> (at: usize)
    requires
        0 < element_size,
        lookahead(i as int, element_size as int) <= usize::MAX,
    ensures
        at == (lookahead(i as int, element_size as int) as usize) & mask,
        at <= mask,
{
    let multiplier = CACHE_LINE / element_size;
    let offset = multiplier + multiplier / 2;
    let ahead = multiplier * i + offset;
    assert(ahead & mask <= mask) by (bit_vector);
    ahead & mask
}

} // verus!
