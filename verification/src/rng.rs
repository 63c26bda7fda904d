//! The library's one source of randomness.

use rand::Rng;
use vstd::prelude::*;

verus! {

/// Relies on rand::Rng::gen_range over the range `0..n`: returns a uniformly
/// random value below `n`. The call panics only on an empty range, which the
/// precondition rules out.
#[verifier::external_body]
pub(crate) fn random_below(n: u128) -> (r: u128)
    requires
        n > 0,
    ensures
        r < n,
{
    rand::thread_rng().gen_range(0..n)
}

} // verus!
