//! A small deterministic pseudo-random generator owned by each rotator
//! instance. The whole chain of states is a spec-level function of the seed,
//! so everything built from it is pinned down in contracts: two generators
//! with the same seed produce the same values, by proof rather than by test.

use vstd::prelude::*;

verus! {

/// One step of the generator: an additive constant followed by two
/// xor-shift-multiply mixing rounds (the 64-bit "splitmix" finalizer).
pub open spec fn next_of(s: u64) -> u64 {
    let z0 = s.wrapping_add(0x9E3779B97F4A7C15);
    let z1 = (z0 ^ (z0 >> 30)).wrapping_mul(0xBF58476D1CE4E5B9);
    let z2 = (z1 ^ (z1 >> 27)).wrapping_mul(0x94D049BB133111EB);
    z2 ^ (z2 >> 31)
}

/// The state reached after `k` steps from `seed`.
pub open spec fn nth_state(seed: u64, k: nat) -> u64
    decreases k,
{
    if k == 0 {
        seed
    } else {
        next_of(nth_state(seed, (k - 1) as nat))
    }
}

/// Deterministic generator: the current state is always a known function of
/// the seed and the number of steps taken.
pub struct SplitMix {
    /// Seed the generator was started from.
    pub seed: u64,
    /// Current state.
    pub state: u64,
    /// Number of steps taken so far (ghost bookkeeping).
    pub steps: Ghost<nat>,
}

impl SplitMix {
    /// The state matches the spec-level chain.
    pub open spec fn wf(&self) -> bool {
        self.state == nth_state(self.seed, self.steps@)
    }

    /// Start a generator at `seed`.
    pub fn new(seed: u64) -> (r: SplitMix)
        ensures
            r.wf(),
            r.seed == seed,
            r.steps@ == 0,
    {
        SplitMix { seed, state: seed, steps: Ghost(0) }
    }

    /// Advance one step and return the new state.
    pub fn next(&mut self) -> (r: u64)
        requires
            old(self).wf(),
        ensures
            final(self).wf(),
            final(self).seed == old(self).seed,
            final(self).steps@ == old(self).steps@ + 1,
            r == nth_state(final(self).seed, final(self).steps@),
    {
        let z0 = self.state.wrapping_add(0x9E3779B97F4A7C15);
        let z1 = (z0 ^ (z0 >> 30u64)).wrapping_mul(0xBF58476D1CE4E5B9);
        let z2 = (z1 ^ (z1 >> 27u64)).wrapping_mul(0x94D049BB133111EB);
        let r = z2 ^ (z2 >> 31u64);
        self.state = r;
        proof {
            self.steps@ = self.steps@ + 1;
        }
        r
    }
}

} // verus!
