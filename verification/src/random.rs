//! The library's use of randomness: a generator, a pick and a shuffle.

use rand::rngs::StdRng;
use rand::seq::SliceRandom;
use rand::Rng;
use rand::SeedableRng;
use vstd::prelude::*;

verus! {

/// rand's standard generator. The library hands it on to `shuffle` and reads
/// nothing of it.
#[verifier::external_type_specification]
#[verifier::external_body]
pub struct ExStdRng(StdRng);

/// Calls `SeedableRng::from_entropy`: a generator that the operating system has
/// seeded. Nothing is claimed of it. The call fails where the operating system
/// gives no entropy.
#[verifier::external_body]
pub(crate) fn fresh_rng() -> StdRng {
    StdRng::from_entropy()
}

/// Calls `Rng::gen_range` on the range from `low` up to, not including, `high`:
/// a number of that range, which depends on the generator.
#[verifier::external_body]
pub(crate) fn pick(rng: &mut StdRng, low: usize, high: usize) -> (picked: usize)
    requires
        low < high,
    ensures
        low <= picked < high,
{
    rng.gen_range(low..high)
}

/// Calls `SliceRandom::shuffle` on the items: it swaps items in place, so the
/// same items come back, in an order that depends on the generator.
#[verifier::external_body]
pub(crate) fn shuffle<T>(items: &mut Vec<T>, rng: &mut StdRng)
    ensures
        final(items)@.to_multiset() == old(items)@.to_multiset(),
{
    items.shuffle(rng);
}

/// After a shuffle every item is one of the items from before.
pub proof fn lemma_shuffled<T>(before: Seq<T>, after: Seq<T>, i: int)
    requires
        after.to_multiset() == before.to_multiset(),
        0 <= i < after.len(),
    ensures
        before.contains(after[i]),
{
    assert(after.contains(after[i]));
    vstd::seq_lib::to_multiset_contains(after, after[i]);
    vstd::seq_lib::to_multiset_contains(before, after[i]);
}

} // verus!
