use vstd::prelude::*;
use rand::Rng;
use rand::seq::SliceRandom;
use crate::combat::actor::InitiativeEntry;

verus! {

/// Relies on rand::Rng::gen_range on an inclusive range: it returns a value
/// of the range and panics only when the range is empty, which the
/// precondition rules out. Nothing is assumed about the distribution.
#[verifier::external_body]
pub(crate) fn rand_u64(lo: u64, hi: u64) -> (r: u64)
    requires
        lo <= hi,
    ensures
        lo <= r <= hi,
{
    rand::thread_rng().gen_range(lo..=hi)
}

/// Relies on rand::seq::SliceRandom::shuffle: it permutes the slice in
/// place, so the entries afterwards are exactly the entries before, as a
/// multiset. Nothing is assumed about the order that comes out.
#[verifier::external_body]
pub(crate) fn shuffle_entries(v: &mut Vec<InitiativeEntry>)
    ensures
        final(v)@.to_multiset() == old(v)@.to_multiset(),
{
    v.shuffle(&mut rand::thread_rng());
}

} // verus!
