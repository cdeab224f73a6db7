//! The source of random words for the searches, and the bound that keeps
//! every randomised retry loop finite.

use vstd::prelude::*;

verus! {

/// The number of attempts after which a randomised retry loop gives up.
/// At one attempt per nanosecond it would take centuries to reach.
pub const SEARCH_LIMIT: u64 = 0xffff_ffff_ffff_ffff;

/// A uniformly drawn word from `rand`'s thread-local generator
/// (`rand::random::<u32>()`, which is `rand::thread_rng().gen()`).
/// The word depends on chance alone, so nothing is stated of it.
#[verifier::external_body]
pub(crate) fn random_word() -> u32 {
    rand::random::<u32>()
}

} // verus!
