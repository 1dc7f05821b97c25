//! The seeded pseudo-random sequence that every random choice of generation draws from.
use vstd::prelude::*;

verus! {

/// One step of the linear congruential recurrence `s * 134775813 + 1 mod 2^32`.
pub open spec fn lcg_step(s: u32) -> u32 {
    ((s as int * 134775813 + 1) % 0x1_0000_0000) as u32
}

/// The value drawn from state `s`: the high half of the first step's word
/// in the low 16 bits, and the high half of the second step's word above it.
pub open spec fn random_output(s: u32) -> u32 {
    (lcg_step(s) >> 16u32) | (lcg_step(lcg_step(s)) & 0xffff_0000u32)
}

/// Advances `state` by two steps of the recurrence and returns the value drawn.
pub fn next_random(state: &mut u32) -> (out: u32)
    ensures
        *final(state) == lcg_step(lcg_step(*old(state))),
        out == random_output(*old(state)),
{
    let first: u32 = ((*state as u64 * 134775813 + 1) % 0x1_0000_0000) as u32;
    let second: u32 = ((first as u64 * 134775813 + 1) % 0x1_0000_0000) as u32;
    *state = second;
    (first >> 16) | (second & 0xffff_0000)
}

} // verus!
