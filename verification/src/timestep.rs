//! Fixed-timestep scheduling.
//!
//! The simulation runs at a fixed rate while frames arrive whenever they
//! do.  The shell measures the time since the last frame (the clock is the
//! windowing collaborator's) and asks this module how many simulation
//! steps to run now, carrying unspent time in an accumulator.  When far
//! too much time has piled up — a loading stall, a backgrounded window —
//! the plan collapses to a single catch-up step and drops the backlog,
//! trading determinism during the stall for responsiveness after it.

use vstd::prelude::*;

verus! {

/// Nanoseconds per simulation step: a 60 Hz tick, rounded down.
pub const STEP_NANOS: u64 = 16666666;

/// Piled-up steps beyond which the backlog is dropped.
pub const COLLAPSE_STEPS: u64 = 16;

/// Most steps run per frame when merely behind.
pub const MAX_STEPS_PER_FRAME: u64 = 4;

/// What to do this frame: how many simulation steps to run, the unspent
/// time to carry, and whether the frame clock should advance (when no
/// full step has accumulated, both the accumulator and the clock stay
/// put, so the elapsed time is offered again next frame).
#[derive(Clone, Copy, Debug, PartialEq, Eq, Structural)]
pub struct TickPlan {
    pub steps: u64,
    pub accumulator: u64,
    pub advance_clock: bool,
}

/// Decides the frame's simulation steps from the nanoseconds elapsed
/// since the clock last advanced and the accumulator carried over.
pub fn plan_ticks(elapsed: u64, accumulator: u64) -> (p: TickPlan)
    requires
        elapsed + accumulator <= u64::MAX,
    ensures
        ({
            let total = elapsed as int + accumulator as int;
            let wanted = total / (STEP_NANOS as int);
            let steps = if wanted <= MAX_STEPS_PER_FRAME as int {
                wanted
            } else {
                MAX_STEPS_PER_FRAME as int
            };
            if total >= COLLAPSE_STEPS as int * STEP_NANOS as int {
                // Far behind: one catch-up step, backlog dropped.
                p == (TickPlan { steps: 1, accumulator: 0, advance_clock: true })
            } else if total >= STEP_NANOS as int {
                // Behind: run the accumulated steps, a few at most, and
                // carry the remainder.
                &&& p.steps == steps
                &&& p.accumulator == total - steps * (STEP_NANOS as int)
                &&& p.advance_clock
            } else {
                // Not a full step yet: run nothing, keep everything.
                p == (TickPlan { steps: 0, accumulator, advance_clock: false })
            }
        }),
        p.accumulator <= elapsed + accumulator,
{
    let total: u64 = elapsed + accumulator;
    if total >= COLLAPSE_STEPS * STEP_NANOS {
        TickPlan { steps: 1, accumulator: 0, advance_clock: true }
    } else if total >= STEP_NANOS {
        let wanted: u64 = total / STEP_NANOS;
        let steps: u64 = if wanted <= MAX_STEPS_PER_FRAME {
            wanted
        } else {
            MAX_STEPS_PER_FRAME
        };
        proof {
            assert(steps as int * (STEP_NANOS as int) <= total as int) by (nonlinear_arith)
                requires
                    steps as int == if total as int / (STEP_NANOS as int) <= 4 {
                        total as int / (STEP_NANOS as int)
                    } else {
                        4
                    },
                    STEP_NANOS == 16666666,
                    total as int >= STEP_NANOS as int,
            ;
        }
        TickPlan { steps, accumulator: total - steps * STEP_NANOS, advance_clock: true }
    } else {
        TickPlan { steps: 0, accumulator, advance_clock: false }
    }
}

} // verus!
