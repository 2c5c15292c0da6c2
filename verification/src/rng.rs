//! A small deterministic pseudo-random generator (64-bit xorshift).
//!
//! The search needs a reproducible stream of draws: the same seed and the
//! same sequence of calls must give the same values in every run, so the
//! generator is an explicit value threaded through the search rather than an
//! ambient source. Each step is a pure function of the state, stated exactly
//! in the contracts.

use vstd::prelude::*;

verus! {

/// The seed the optimizer uses when the caller does not choose one.
pub const DEFAULT_SEED: u64 = 42;

/// One xorshift step: three shift-and-xor rounds on the 64-bit state.
pub open spec fn spec_rng_next(s: u64) -> u64 {
    let a = s ^ (s << 13);
    let b = a ^ (a >> 7);
    b ^ (b << 17)
}

/// Pseudo-random generator state.
#[derive(Clone, Copy, Debug, PartialEq, Eq, Structural)]
pub struct Rng {
    pub state: u64,
}

impl Rng {
    pub fn new(seed: u64) -> (r: Rng)
        ensures
            r.state == seed,
    {
        Rng { state: seed }
    }

    /// Advance the state and return it; the result is a pure function of the
    /// previous state.
    pub fn next(&mut self) -> (r: u64)
        ensures
            final(self).state == spec_rng_next(old(self).state),
            r == spec_rng_next(old(self).state),
    {
        let mut x = self.state;
        x = x ^ (x << 13);
        x = x ^ (x >> 7);
        x = x ^ (x << 17);
        self.state = x;
        x
    }
}

} // verus!
