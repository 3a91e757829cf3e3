use vstd::prelude::*;

use rand::seq::SliceRandom;
use rand::Rng;

verus! {

/// Draws a number below `n` with `Rng::gen_range(0..n)` on the thread's
/// generator.  Trusted: the result is below `n`; which number it is, is
/// chance.
#[verifier::external_body]
pub(crate) fn random_below(n: u32) -> (r: u32)
    requires
        n > 0,
    ensures
        r < n,
{
    rand::thread_rng().gen_range(0..n)
}

/// Puts the items in a random order with `SliceRandom::shuffle` on the
/// thread's generator.  Trusted: the same items come out, each as often as
/// it went in; their order is chance.
#[verifier::external_body]
pub(crate) fn shuffle<T>(v: &mut Vec<T>)
    ensures
        final(v)@.to_multiset() == old(v)@.to_multiset(),
        final(v)@.len() == old(v)@.len(),
{
    v.shuffle(&mut rand::thread_rng());
}

} // verus!
