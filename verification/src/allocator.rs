//! The ordinal allocator: given the set of ordinals already issued,
//! find the smallest positive integer not among them.

use std::collections::HashSet;
use vstd::prelude::*;
use vstd::set_lib::lemma_len_subset;

verus! {

broadcast use {vstd::set::group_set_axioms, vstd::std_specs::hash::group_hash_axioms};

/// Returns the smallest ordinal not in `used`: start at 1 and step
/// upward while the candidate is taken. Each membership test is one
/// hash lookup, so the search costs time proportional to the gap
/// found, not to the alphabet. The set must be small enough that some
/// ordinal stays representable in `usize`.
pub fn allocate(used: &HashSet<usize>) -> (r: usize)
    requires
        used@.finite(),
        used@.len() < usize::MAX,
    ensures
        r >= 1,
        !used@.contains(r),
        forall|m: usize| 1 <= m < r ==> #[trigger] used@.contains(m),
{
    let mut cand: usize = 1;
    let ghost mut seen: Set<usize> = Set::empty();
    while used.contains(&cand)
        invariant
            used@.finite(),
            used@.len() < usize::MAX,
            1 <= cand,
            seen.finite(),
            seen.len() == cand - 1,
            forall|m: usize| 1 <= m < cand ==> #[trigger] used@.contains(m),
            forall|m: usize| #[trigger] seen.contains(m) ==> 1 <= m < cand,
        decreases used@.len() + 1 - cand,
    {
        proof {
            let grown = seen.insert(cand);
            assert(!seen.contains(cand));
            vstd::set::axiom_set_insert_len(seen, cand);
            assert(grown.len() == cand);
            assert(grown.subset_of(used@));
            lemma_len_subset(grown, used@);
            assert(cand <= used@.len());
            seen = grown;
        }
        cand = cand + 1;
    }
    cand
}

} // verus!
