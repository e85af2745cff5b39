//! The library's only source of randomness: thin trusted wrappers around the
//! `rand` crate. Nothing can be promised about which value comes back, so each
//! contract states only what holds of every outcome.

use rand::seq::SliceRandom;
use rand::Rng;
use vstd::prelude::*;

verus! {

/// Relies on rand::random::<bool>: a fair coin; nothing is known of the outcome.
#[verifier::external_body]
pub(crate) fn coin() -> bool {
    rand::random::<bool>()
}

/// Relies on Rng::gen_ratio: true with probability `num / den`; panics only
/// when `den == 0` or `num > den`, which the precondition rules out. Its
/// source fixes the two endpoints — a zero numerator never draws true, a
/// full one always does — and nothing is known of any outcome in between.
#[verifier::external_body]
pub(crate) fn chance(num: u32, den: u32) -> (r: bool)
    requires
        0 < den,
        num <= den,
    ensures
        num == 0 ==> r == false,
        num == den ==> r == true,
{
    rand::thread_rng().gen_ratio(num, den)
}

/// Relies on Rng::gen_range over an inclusive range: a uniform draw within the
/// bounds; panics only on an empty range, which the precondition rules out.
#[verifier::external_body]
pub(crate) fn random_int_in(lo: i32, hi: i32) -> (r: i32)
    requires
        lo <= hi,
    ensures
        lo <= r <= hi,
{
    rand::thread_rng().gen_range(lo..=hi)
}

/// Relies on SliceRandom::shuffle (a Fisher-Yates shuffle): the slice is
/// permuted in place, so the same elements remain, in some order.
#[verifier::external_body]
pub(crate) fn shuffle_order(v: &mut Vec<usize>)
    ensures
        final(v)@.to_multiset() == old(v)@.to_multiset(),
        final(v)@.len() == old(v)@.len(),
{
    v.shuffle(&mut rand::thread_rng());
}

} // verus!
