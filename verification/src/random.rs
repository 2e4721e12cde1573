//! Chance.

use rand::Rng;
use vstd::prelude::*;

verus! {

/// `Rng::gen_range` of the crate `rand`, on the generator of the thread and an inclusive range:
/// some byte in the range. Which one is left to chance.
#[verifier::external_body]
pub(crate) fn random_byte(low: u8, high: u8) -> (r: u8)
    requires
        low <= high,
    ensures
        low <= r <= high,
{
    rand::thread_rng().gen_range(low..=high)
}

/// `Rng::gen` of the crate `rand`, on the generator of the thread: some number. Which one is left
/// to chance.
#[verifier::external_body]
pub(crate) fn random_u32() -> (r: u32) {
    rand::thread_rng().gen()
}

} // verus!
