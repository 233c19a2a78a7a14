//! The random draws of the generator, each made by the `rand` crate.

use vstd::prelude::*;
use rand::rngs::ThreadRng;
use rand::seq::{IndexedRandom, SliceRandom};
use rand::Rng;
use crate::types::Piece;

verus! {

/// The thread-local generator of `rand`. Nothing is known of its state.
#[verifier::external_type_specification]
#[verifier::external_body]
pub struct ExThreadRng(rand::rngs::ThreadRng);

/// Whether `chosen` holds `amount` items of `source`, or all of them where
/// there are fewer, each taken from another index, in any order.
pub open spec fn is_selection(chosen: Seq<u8>, source: Seq<u8>, amount: int) -> bool {
    &&& chosen.len() == if amount <= source.len() {
        amount
    } else {
        source.len() as int
    }
    &&& exists|from: Seq<int>|
        {
            &&& from.len() == chosen.len()
            &&& forall|j: int|
                0 <= j < from.len() ==> 0 <= #[trigger] from[j] < source.len() && chosen[j]
                    == source[from[j]]
            &&& forall|j: int, k: int|
                0 <= j < k < from.len() ==> #[trigger] from[j] != #[trigger] from[k]
        }
}

/// `rand::rng`: a handle to the generator of the current thread.
#[verifier::external_body]
pub(crate) fn thread_rng() -> ThreadRng {
    rand::rng()
}

/// `Rng::random_range` over `0..bound`: some value below `bound`. The range
/// must not be empty, or the call panics.
#[verifier::external_body]
pub(crate) fn random_below(rng: &mut ThreadRng, bound: usize) -> (value: usize)
    requires
        bound > 0,
    ensures
        value < bound,
{
    rng.random_range(0..bound)
}

/// `Rng::random_ratio`: `true` with probability `numerator / denominator`,
/// so always where the two are equal and never where `numerator` is 0. The
/// call panics where `denominator` is 0 or less than `numerator`.
#[verifier::external_body]
pub(crate) fn random_ratio(rng: &mut ThreadRng, numerator: u32, denominator: u32) -> (yes: bool)
    requires
        0 < denominator,
        numerator <= denominator,
    ensures
        numerator == denominator ==> yes,
        numerator == 0 ==> !yes,
{
    rng.random_ratio(numerator, denominator)
}

/// `SliceRandom::shuffle`: reorders the pieces in place. It only swaps
/// items, so the same pieces are there afterwards.
#[verifier::external_body]
pub(crate) fn shuffle(rng: &mut ThreadRng, pieces: &mut Vec<Piece>)
    ensures
        final(pieces)@.to_multiset() == old(pieces)@.to_multiset(),
{
    pieces.shuffle(rng)
}

/// `IndexedRandom::choose_multiple`: `amount` items of `ids` from distinct
/// indices, in random order; all of them where `ids` holds fewer. For a
/// list of more than `u32::MAX` items the call asserts that fewer items are
/// asked for than the list holds; the bound on `amount` leaves that out.
#[verifier::external_body]
pub(crate) fn choose_multiple(rng: &mut ThreadRng, ids: &Vec<u8>, amount: usize) -> (chosen: Vec<u8>)
    requires
        amount <= u32::MAX,
    ensures
        is_selection(chosen@, ids@, amount as int),
{
    ids.choose_multiple(rng, amount).copied().collect()
}

} // verus!
