//! Fault injection: a node may skip a whole election round to stand for a
//! crash and recovery.
//!
//! How often a round is skipped is a parameter. With odds of one in `n` a
//! number below `n` is drawn and the round is skipped when the draw is zero;
//! odds of zero never skip, odds of one always do.

use rand::Rng;
use vstd::prelude::*;

verus! {

/// Draws a number below `bound` from the thread's random number generator,
/// `rand::thread_rng().gen_range(0..bound)`. The generator refuses an empty
/// range, so `bound` is positive; all that is known of the draw is that it
/// lies below `bound`.
#[verifier::external_body]
fn random_below(bound: u32) -> (draw: u32)
    requires
        bound > 0,
    ensures
        draw < bound,
{
    rand::thread_rng().gen_range(0..bound)
}

/// Whether a round is skipped for this draw.
pub open spec fn skips(draw: u32) -> bool {
    draw == 0
}

/// Whether a round is skipped for this draw.
pub fn skip_for_draw(draw: u32) -> (skip: bool)
    ensures
        skip == skips(draw),
{
    draw == 0
}

/// Decides by a random draw whether to skip the round, with odds of one in
/// `one_in`. Odds of zero never skip and odds of one always do; for other
/// odds either answer may come.
pub fn skip_round(one_in: u32) -> (skip: bool)
    ensures
        one_in == 0 ==> !skip,
        one_in == 1 ==> skip,
{
    if one_in == 0 {
        false
    } else {
        let draw = random_below(one_in);
        skip_for_draw(draw)
    }
}

} // verus!
