//! Random numbers.

use rand::Rng;
use vstd::prelude::*;

verus! {

/// `gen_range` of the thread's generator in `rand`: any number below `end`.
#[verifier::external_body]
pub(crate) fn random_below(end: u32) -> (out: u32)
    requires
        end > 0,
    ensures
        out < end,
{
    rand::thread_rng().gen_range(0..end)
}

} // verus!
