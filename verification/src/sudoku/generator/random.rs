//! The two places where chance enters: the order of a vector and a number
//! below a bound.

use vstd::prelude::*;

verus! {

/// Puts the values into a random order.
///
/// This is `rand::Rng::shuffle` on the generator that `rand::thread_rng`
/// hands out. The shuffle only ever swaps two places of the slice, so the
/// values afterwards are the values before, each as often as before; of
/// their order nothing is claimed. `thread_rng` panics on a machine that has
/// no source of entropy.
#[verifier::external_body]
pub(crate) fn shuffle(values: &mut Vec<u8>)
    ensures
        final(values)@.to_multiset() == old(values)@.to_multiset(),
{
    rand::Rng::shuffle(&mut rand::thread_rng(), values);
}

/// A random number below `high`.
///
/// This is `rand::distributions::Range::new(0, high)` sampled once, with
/// `rand::distributions::IndependentSample::ind_sample`, on the generator
/// that `rand::thread_rng` hands out. A range of integers samples in
/// `[low, high)`; `Range::new` panics unless `low < high`.
#[verifier::external_body]
pub(crate) fn below(high: u8) -> (value: u8)
    requires
        0 < high,
    ensures
        value < high,
{
    let range = rand::distributions::Range::new(0u8, high);
    rand::distributions::IndependentSample::ind_sample(&range, &mut rand::thread_rng())
}

/// Two sequences that hold the same values equally often are equally long
/// and hold the same values, and none of them twice if the other does not.
pub proof fn lemma_permutation(a: Seq<u8>, b: Seq<u8>)
    requires
        a.to_multiset() == b.to_multiset(),
    ensures
        a.len() == b.len(),
        forall|x: u8| a.contains(x) <==> b.contains(x),
        b.no_duplicates() ==> a.no_duplicates(),
{
    vstd::seq_lib::to_multiset_len(a);
    vstd::seq_lib::to_multiset_len(b);
    assert forall|x: u8| a.contains(x) <==> b.contains(x) by {
        vstd::seq_lib::to_multiset_contains(a, x);
        vstd::seq_lib::to_multiset_contains(b, x);
    }
    if b.no_duplicates() {
        b.lemma_multiset_has_no_duplicates();
        a.lemma_multiset_has_no_duplicates_conv();
    }
}

} // verus!
