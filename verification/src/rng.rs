//! Reproducible pseudo-random numbers (splitmix64) for self-play.

use vstd::prelude::*;
use crate::zobrist::{splitmix, spec_splitmix};

verus! {

/// Splitmix64 generator; the field is its state.
pub struct Rng(pub u64);

impl Rng {
    /// Next number of the stream; the state advances by one step.
    pub fn next(&mut self) -> (r: u64)
        ensures
            (r, final(self).0) == spec_splitmix(old(self).0),
    {
        let (out, state) = splitmix(self.0);
        self.0 = state;
        out
    }

    /// Next number of the stream reduced modulo `n`.
    pub fn below(&mut self, n: usize) -> (r: usize)
        requires
            n > 0,
        ensures
            r as int == spec_splitmix(old(self).0).0 as int % n as int,
            final(self).0 == spec_splitmix(old(self).0).1,
            r < n,
    {
        let x = self.next();
        (x % n as u64) as usize
    }
}

} // verus!
