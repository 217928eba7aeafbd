//! The random permutation applied to a session's endpoint handles, so that a
//! session's internal preference order among servers is not correlated with
//! the server index.

use vstd::prelude::*;
use rand::seq::SliceRandom;

verus! {

/// Relies on rand::seq::SliceRandom::shuffle (driven by rand::thread_rng):
/// it permutes the elements in place, so the multiset of elements is kept.
/// The order is random; nothing is assumed of it.
#[verifier::external_body]
pub fn shuffle_ids(v: &mut Vec<u64>)
    ensures
        final(v)@.len() == old(v)@.len(),
        final(v)@.to_multiset() == old(v)@.to_multiset(),
{
    v.shuffle(&mut rand::thread_rng());
}

} // verus!
