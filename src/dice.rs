//! Dice and other uniform draws from the thread-local random generator.

use vstd::prelude::*;
use rand::Rng;

verus! {

/// Relies on rand's `Rng::gen_range` on the thread-local generator
/// (`rand::thread_rng`): a value drawn uniformly from `lo..=hi`, which lies
/// in that range. The range is never empty, so the call does not panic.
#[verifier::external_body]
pub(crate) fn uniform_between(lo: u8, hi: u8) -> (r: u8)
    requires
        lo <= hi,
    ensures
        lo <= r <= hi,
{
    rand::thread_rng().gen_range(lo..=hi)
}

/// One die, drawn independently of any other and uniformly: a value from
/// 1 to 6.
pub fn roll_die() -> (r: u8)
    ensures
        1 <= r <= 6,
{
    uniform_between(1, 6)
}

} // verus!
