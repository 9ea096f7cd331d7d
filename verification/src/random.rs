//! Chance: shuffling, fair coins and fresh identifiers, drawn from the thread's random number
//! generator.
use vstd::prelude::*;
use rand::seq::SliceRandom;

verus! {

/// `perm` maps the positions `0..n` one to one onto positions `0..n`.
pub open spec fn is_index_permutation(perm: Seq<int>, n: int) -> bool {
    &&& perm.len() == n
    &&& forall|i: int| 0 <= i < n ==> 0 <= #[trigger] perm[i] < n
    &&& forall|i: int, j: int| 0 <= i < n && 0 <= j < n && i != j ==> #[trigger] perm[i] != #[trigger] perm[j]
}

/// `after` holds the items of `before`, rearranged.
pub open spec fn is_rearrangement<T>(after: Seq<T>, before: Seq<T>) -> bool {
    &&& after.len() == before.len()
    &&& exists|perm: Seq<int>|
        is_index_permutation(perm, before.len() as int) && forall|i: int|
            0 <= i < after.len() ==> #[trigger] after[i] == before[perm[i]]
}

/// Shuffles the vector in place with `rand`'s `SliceRandom::shuffle` and the thread's generator.
/// Claimed of it: the result holds the same items, each moved to some position, none lost or
/// repeated (the crate's shuffle only swaps items). Which rearrangement comes out is left open.
#[verifier::external_body]
pub(crate) fn shuffle_vec<T>(v: &mut Vec<T>)
    ensures
        is_rearrangement(final(v)@, old(v)@),
{
    v.shuffle(&mut rand::rng());
}

/// A fresh identifier from `rand::random::<u128>()`. Nothing is claimed of its value.
#[verifier::external_body]
pub(crate) fn random_u128() -> (r: u128) {
    rand::random::<u128>()
}

/// `true` with a chance of `numerator` in `denominator`, from `rand::random_ratio`.
/// Claimed of it: a chance of `denominator` in `denominator` always gives `true`, and a chance of
/// zero always gives `false` (the crate documents both); it panics when the denominator is zero
/// or smaller than the numerator, which `requires` leaves out.
#[verifier::external_body]
pub(crate) fn random_ratio(numerator: u32, denominator: u32) -> (r: bool)
    requires
        0 < denominator,
        numerator <= denominator,
    ensures
        numerator == denominator ==> r,
        numerator == 0 ==> !r,
{
    rand::random_ratio(numerator, denominator)
}

} // verus!
