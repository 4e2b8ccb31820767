//! Chance.

use vstd::prelude::*;
use rand::Rng;

verus! {

/// A number below `n`, drawn with `rand::Rng::gen_range` from the thread's
/// `rand::thread_rng()`.
///
/// Believed: the number is at least zero and below `n`. Which one it is
/// depends on chance, so nothing more is said. The crate panics on an empty
/// range; that is kept away.
#[verifier::external_body]
pub(crate) fn random_below(n: usize) -> (r: usize)
    requires
        n > 0,
    ensures
        r < n,
{
    rand::thread_rng().gen_range(0, n)
}

} // verus!
