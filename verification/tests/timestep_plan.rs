use beams::timestep::{plan_ticks, TickPlan, MAX_STEPS_PER_FRAME, STEP_NANOS};

#[test]
fn no_time_no_steps() {
    let p = plan_ticks(0, 0);
    assert_eq!(p, TickPlan { steps: 0, accumulator: 0, advance_clock: false });
}

#[test]
fn under_one_step_keeps_accumulating() {
    let p = plan_ticks(10_000_000, 0);
    assert_eq!(p, TickPlan { steps: 0, accumulator: 0, advance_clock: false });
    // The elapsed time is carried by not advancing the clock, so the next
    // frame offers it again together with new time.
    let p = plan_ticks(10_000_000, 7_000_000);
    assert_eq!(p, TickPlan { steps: 1, accumulator: 333_334, advance_clock: true });
}

#[test]
fn one_exact_step() {
    let p = plan_ticks(STEP_NANOS, 0);
    assert_eq!(p, TickPlan { steps: 1, accumulator: 0, advance_clock: true });
}

#[test]
fn two_steps_with_remainder() {
    let p = plan_ticks(40_000_000, 0);
    assert_eq!(p, TickPlan { steps: 2, accumulator: 6_666_668, advance_clock: true });
}

#[test]
fn steps_per_frame_are_capped() {
    // Five steps' worth of time runs only four steps; one step's worth
    // stays in the accumulator.
    let p = plan_ticks(5 * STEP_NANOS, 0);
    assert_eq!(p.steps, MAX_STEPS_PER_FRAME);
    assert_eq!(p.accumulator, STEP_NANOS);
    assert!(p.advance_clock);
}

#[test]
fn long_stall_collapses_to_one_step() {
    let p = plan_ticks(16 * STEP_NANOS, 0);
    assert_eq!(p, TickPlan { steps: 1, accumulator: 0, advance_clock: true });
    let p = plan_ticks(3_600_000_000_000, 0);
    assert_eq!(p, TickPlan { steps: 1, accumulator: 0, advance_clock: true });
}
