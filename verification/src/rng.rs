//! A deterministic xorshift generator (state transitions only; the float
//! draws built on it live with the training harness).

use vstd::prelude::*;

verus! {

/// One xorshift32 step: `x ^= x << 13; x ^= x >> 17; x ^= x << 5`.
pub open spec fn xorshift_step(x: u32) -> u32 {
    let a = x ^ (x << 13u32);
    let b = a ^ (a >> 17u32);
    b ^ (b << 5u32)
}

/// A deterministic xorshift PRNG.
#[derive(Clone, Copy, Debug)]
pub struct XorShift {
    state: u32,
}

impl XorShift {
    /// The current state.
    pub closed spec fn state_spec(&self) -> u32 {
        self.state
    }

    /// A generator seeded with `max(seed, 1)` (the state is never 0).
    pub fn new(seed: u32) -> (r: XorShift)
        ensures
            r.state_spec() == if seed > 1 { seed } else { 1 },
    {
        XorShift { state: if seed > 1 { seed } else { 1 } }
    }

    /// Advance the state by one xorshift step and return the new state.
    pub fn next_u32(&mut self) -> (r: u32)
        ensures
            r == xorshift_step(old(self).state_spec()),
            final(self).state_spec() == r,
    {
        let mut x = self.state;
        x = x ^ (x << 13u32);
        x = x ^ (x >> 17u32);
        x = x ^ (x << 5u32);
        self.state = x;
        x
    }
}

/// The xorshift step never maps a non-zero state to zero, so a generator
/// seeded as `new` does never gets stuck.
pub proof fn lemma_step_nonzero(x: u32)
    requires
        x != 0,
    ensures
        xorshift_step(x) != 0,
{
    assert(x != 0 ==> (x ^ (x << 13u32)) != 0) by (bit_vector);
    let a = x ^ (x << 13u32);
    assert(a != 0 ==> (a ^ (a >> 17u32)) != 0) by (bit_vector);
    let b = a ^ (a >> 17u32);
    assert(b != 0 ==> (b ^ (b << 5u32)) != 0) by (bit_vector);
}

} // verus!
