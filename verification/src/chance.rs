//! The chance source: every initiative, attack and damage roll draws from
//! one of these. A seeded source steps a deterministic linear congruential
//! generator, so a whole run can be replayed; a system source draws from
//! the process-wide generator of the `rand` crate.

use vstd::prelude::*;

verus! {

/// Multiplier of the linear congruential step.
pub const LCG_MUL: u64 = 6364136223846793005;

/// Increment of the linear congruential step.
pub const LCG_INC: u64 = 1442695040888963407;

/// The generator state that follows `state`: one linear congruential step,
/// wrapping at 64 bits.
pub open spec fn spec_next_state(state: u64) -> u64 {
    vstd::wrapping::u64_specs::wrapping_add(
        vstd::wrapping::u64_specs::wrapping_mul(state, LCG_MUL),
        LCG_INC,
    )
}

/// The value a seeded source rolls from `state` on a die with `sides`
/// sides: the high bits of the next state, folded into `1..=sides`.
pub open spec fn spec_roll_value(state: u64, sides: u8) -> u8 {
    (1 + ((spec_next_state(state) >> 33) % (sides as u64))) as u8
}

/// A source of die rolls. With `seeded` set, rolls follow deterministically
/// from `state`; otherwise they come from the system generator and only
/// their range is known.
pub struct ChanceSource {
    pub seeded: bool,
    pub state: u64,
}

impl ChanceSource {
    /// A deterministic source: every roll is a function of the seed.
    pub fn seeded(seed: u64) -> (r: ChanceSource)
        ensures
            r.seeded,
            r.state == seed,
    {
        ChanceSource { seeded: true, state: seed }
    }

    /// A source backed by the system generator.
    pub fn system() -> (r: ChanceSource)
        ensures
            !r.seeded,
    {
        ChanceSource { seeded: false, state: 0 }
    }

    /// Rolls one die with `sides` sides, inclusive on both ends.
    pub fn roll(&mut self, sides: u8) -> (r: u8)
        requires
            sides >= 1,
        ensures
            1 <= r <= sides,
            final(self).seeded == old(self).seeded,
            old(self).seeded ==> final(self).state == spec_next_state(old(self).state),
            old(self).seeded ==> r == spec_roll_value(old(self).state, sides),
            !old(self).seeded ==> final(self).state == old(self).state,
    {
        if self.seeded {
            let next = self.state.wrapping_mul(LCG_MUL).wrapping_add(LCG_INC);
            self.state = next;
            assert((next >> 33) % (sides as u64) < sides as u64);
            (1 + ((next >> 33) % (sides as u64))) as u8
        } else {
            system_roll(sides)
        }
    }
}

/// Relies on `rand::thread_rng` and `rand::Rng::gen_range` over the
/// inclusive range `1..=sides`: with `sides >= 1` the range is non-empty,
/// so the call does not panic and returns a value within the range.
#[verifier::external_body]
fn system_roll(sides: u8) -> (r: u8)
    requires
        sides >= 1,
    ensures
        1 <= r && r <= sides,
{
    rand::Rng::gen_range(&mut rand::thread_rng(), 1..=sides)
}

} // verus!
