//! The deterministic sequence generator: a 64-bit linear congruential
//! recurrence shared by every seeded component of the crate.

use vstd::prelude::*;

verus! {

/// Multiplier of the recurrence.
pub const LCG_MUL: u64 = 6364136223846793005;

/// Increment of the recurrence.
pub const LCG_INC: u64 = 1;

/// `state * LCG_MUL + LCG_INC` modulo 2^64.
pub open spec fn next_state(s: u64) -> u64 {
    ((s as nat * LCG_MUL as nat + LCG_INC as nat) % 0x1_0000_0000_0000_0000nat) as u64
}

/// The state reached from `seed` after `k` steps.
pub open spec fn state_after(seed: u64, k: nat) -> u64
    decreases k,
{
    if k == 0 {
        seed
    } else {
        next_state(state_after(seed, (k - 1) as nat))
    }
}

/// One step of the recurrence; the new state is also the word produced.
pub fn lcg_step(state: u64) -> (r: u64)
    ensures
        r == next_state(state),
{
    let m = state.wrapping_mul(LCG_MUL);
    let r = m.wrapping_add(LCG_INC);
    proof {
        let p = state as nat * LCG_MUL as nat;
        let md = 0x1_0000_0000_0000_0000nat;
        assert(m as nat == p % md);
        vstd::arithmetic::div_mod::lemma_add_mod_noop(p as int, 1, md as int);
        assert((p % md) as int % md as int == (p % md) as int) by {
            vstd::arithmetic::div_mod::lemma_mod_twice(p as int, md as int);
        }
        assert(1int % (md as int) == 1);
    }
    r
}

} // verus!
