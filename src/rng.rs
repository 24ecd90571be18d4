use vstd::prelude::*;

verus! {

/// State that a zero seed is replaced with: a xorshift register never
/// leaves the all-zero state.
pub const ZERO_SEED_REPLACEMENT: u64 = 0xA5A5_A5A5_5A5A_5A5A;

/// The state a generator starts in for a given seed.
pub open spec fn initial_state(seed: u64) -> u64 {
    if seed == 0 {
        ZERO_SEED_REPLACEMENT
    } else {
        seed
    }
}

/// One xorshift64 step: shift-xor by 13 left, 7 right, 17 left.
pub open spec fn xorshift_step(x: u64) -> u64 {
    let a = x ^ (x << 13u64);
    let b = a ^ (a >> 7u64);
    b ^ (b << 17u64)
}

/// The state after `k` steps from `x`.
pub open spec fn state_after(x: u64, k: nat) -> u64
    decreases k,
{
    if k == 0 {
        x
    } else {
        xorshift_step(state_after(x, (k - 1) as nat))
    }
}

/// A step never takes a non-zero state to zero.
pub proof fn lemma_step_nonzero(x: u64)
    requires
        x != 0,
    ensures
        xorshift_step(x) != 0,
{
    let a = x ^ (x << 13u64);
    let b = a ^ (a >> 7u64);
    assert(x != 0 ==> x ^ (x << 13u64) != 0) by (bit_vector);
    assert(a != 0 ==> a ^ (a >> 7u64) != 0) by (bit_vector);
    assert(b != 0 ==> b ^ (b << 17u64) != 0) by (bit_vector);
}

/// Deterministic xorshift64 pseudo-random generator.
#[derive(Clone, Copy)]
pub struct XorShift64 {
    pub state: u64,
}

impl XorShift64 {
    /// The state is never zero.
    pub open spec fn wf(&self) -> bool {
        self.state != 0
    }

    pub fn new(seed: u64) -> (r: Self)
        ensures
            r.state == initial_state(seed),
            r.wf(),
    {
        let seed = if seed == 0 {
            ZERO_SEED_REPLACEMENT
        } else {
            seed
        };
        XorShift64 { state: seed }
    }

    /// Advances the state by one step and returns the new state.
    pub fn next_u64(&mut self) -> (r: u64)
        requires
            old(self).wf(),
        ensures
            r == xorshift_step(old(self).state),
            final(self).state == r,
            final(self).wf(),
    {
        proof {
            lemma_step_nonzero(self.state);
        }
        let mut x = self.state;
        x = x ^ (x << 13u64);
        x = x ^ (x >> 7u64);
        x = x ^ (x << 17u64);
        self.state = x;
        x
    }
}


/// Odd multiplier that spreads a process id over all 64 bits.
pub const SEED_MIX: u64 = 0x9E37_79B9_7F4A_7C15;

/// A seed made from a clock reading in nanoseconds and a process id, so
/// that runs started at the same moment still differ.
pub open spec fn mixed_seed(nanos: u64, pid: u32) -> u64 {
    nanos ^ (((pid as int) * (SEED_MIX as int)) % 0x1_0000_0000_0000_0000) as u64
}

/// Seed used when none is given: `nanos` mixed with the process id `pid`.
pub fn seed_from(nanos: u64, pid: u32) -> (r: u64)
    ensures
        r == mixed_seed(nanos, pid),
{
    nanos ^ (pid as u64).wrapping_mul(SEED_MIX)
}

} // verus!
