//! The LED chaser: three LEDs lit one after another.

use vstd::prelude::*;

verus! {

/// The LED lit at `position`.
pub open spec fn lit_led(position: int) -> int {
    position
}

/// The LED switched off at `position`: the one before the lit one.
pub open spec fn dimmed_led(position: int) -> int {
    (position + 2) % 3
}

/// The position after `position`.
pub open spec fn next_position(position: int) -> int {
    (position + 1) % 3
}

/// Each step switches off the LED that the step before lit.
pub proof fn lemma_step_dims_previous(position: int)
    requires
        0 <= position < 3,
    ensures
        dimmed_led(next_position(position)) == lit_led(position),
{
}

/// The chaser comes back to where it was every three steps.
pub proof fn lemma_cycle_of_three(position: int)
    requires
        0 <= position < 3,
    ensures
        next_position(next_position(next_position(position))) == position,
{
}

/// The position after `k` steps from `position`.
pub open spec fn position_after(position: int, k: nat) -> int
    decreases k,
{
    if k == 0 {
        position
    } else {
        next_position(position_after(position, (k - 1) as nat))
    }
}

/// Step `k` of a chaser started at the first LED lights LED `k mod 3` and
/// switches off LED `(k + 2) mod 3`: red, green, blue, red, ...
pub proof fn lemma_step_k_lights_k_mod_3(k: nat)
    ensures
        position_after(0, k) == k % 3,
        lit_led(position_after(0, k)) == k % 3,
        dimmed_led(position_after(0, k)) == (k + 2) % 3,
    decreases k,
{
    if k > 0 {
        lemma_step_k_lights_k_mod_3((k - 1) as nat);
    }
}

/// Where the chaser is in its cycle of three LEDs.
pub struct LedCycle {
    count: usize,
}

impl LedCycle {
    /// The position is always one of the three LEDs.
    #[verifier::type_invariant]
    spec fn below_three(self) -> bool {
        self.count < 3
    }

    /// The position in the cycle.
    pub closed spec fn position(&self) -> int {
        self.count as int
    }

    /// The position is one of the three LEDs.
    pub open spec fn wf(&self) -> bool {
        0 <= self.position() < 3
    }

    /// A chaser about to light the first LED.
    pub fn new() -> (c: Self)
        ensures
            c.wf(),
            c.position() == 0,
    {
        LedCycle { count: 0 }
    }

    /// The position in the cycle: the LED that the next step lights.
    pub fn count(&self) -> (c: usize)
        ensures
            c == self.position(),
            c < 3,
    {
        proof {
            use_type_invariant(self);
        }
        self.count
    }

    /// One step: the LEDs to switch off and on, as (off, on), and the
    /// cycle moves to the next position.
    pub fn step(&mut self) -> (leds: (usize, usize))
        ensures
            final(self).wf(),
            old(self).wf(),
            leds.0 < 3,
            leds.1 < 3,
            leds.0 == dimmed_led(old(self).position()),
            leds.1 == lit_led(old(self).position()),
            final(self).position() == next_position(old(self).position()),
    {
        proof {
            use_type_invariant(&*self);
        }
        let count = self.count;
        let off = (count + 2) % 3;
        self.count = (count + 1) % 3;
        (off, count)
    }
}

} // verus!
