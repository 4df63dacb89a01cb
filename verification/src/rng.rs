//! The single randomness source of the engine.
//!
//! Every probabilistic tie-break in the movement rules draws from
//! [`random_below`], so the named chance constants live at the call sites and
//! the verified logic only relies on the result being in range.

use vstd::prelude::*;

verus! {

/// Relies on rand::random_range over `0..n`: a uniformly distributed value in
/// `[0, n)` from the thread-local generator. Nothing more is assumed of the
/// draw; `n > 0` keeps the range non-empty, on which random_range would panic.
#[verifier::external_body]
pub(crate) fn random_below(n: u32) -> (r: u32)
    requires
        n > 0,
    ensures
        r < n,
{
    rand::random_range(0..n)
}

} // verus!
