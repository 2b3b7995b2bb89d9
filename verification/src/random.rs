//! Random order, from the `rand` crate.
//!
//! Nothing in this module is proved: the function states what the operation
//! it calls promises.

use vstd::prelude::*;
use rand::seq::SliceRandom;

verus! {

/// `SliceRandom::shuffle` with the generator of `rand::thread_rng`: puts the
/// elements into a random order. Whatever the order, the elements are the
/// same, each as often as before.
#[verifier::external_body]
pub(crate) fn shuffle(v: &mut Vec<u64>)
    ensures
        final(v)@.to_multiset() == old(v)@.to_multiset(),
{
    v.shuffle(&mut rand::thread_rng());
}

} // verus!
