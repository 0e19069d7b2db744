use rand::Rng;
use vstd::prelude::*;

verus! {

/// `rand::Rng::gen_range(0..n)` on the thread's generator: some number
/// below `n`, chosen at random.
#[verifier::external_body]
pub(crate) fn random_below(n: u64) -> (r: u64)
    requires
        n > 0,
    ensures
        r < n,
{
    rand::thread_rng().gen_range(0..n)
}

/// `rand::Rng::gen::<bool>()` on the thread's generator: a fair coin.
/// Nothing is stated of which side comes up.
#[verifier::external_body]
pub(crate) fn random_bool() -> bool {
    rand::thread_rng().gen::<bool>()
}

} // verus!
