//! The runs of a measurement: one warmup, which is not timed, and then the timed ones.

use vstd::prelude::*;

verus! {

/// What is to be done next.
#[derive(Clone, Copy, Debug, PartialEq, Eq, Structural)]
pub enum RunStep {
    /// A run that is not timed.
    Warmup,
    /// A timed run.
    Timed,
    /// Nothing more: the result of the last run stands.
    Stop,
}

/// What is to be done once `done` runs are done, of a measurement of `repeats` timed
/// runs.
pub open spec fn step_after(done: int, repeats: int) -> RunStep {
    if done == 0 {
        RunStep::Warmup
    } else if done <= repeats {
        RunStep::Timed
    } else {
        RunStep::Stop
    }
}

/// What is to be done once `done` runs are done, of a measurement of `repeats` timed
/// runs.
pub fn next_run(done: usize, repeats: usize) -> (step: RunStep)
    ensures
        step == step_after(done as int, repeats as int),
        step == (if done == 0 {
            RunStep::Warmup
        } else if done <= repeats {
            RunStep::Timed
        } else {
            RunStep::Stop
        }),
{
    if done == 0 {
        RunStep::Warmup
    } else if done <= repeats {
        RunStep::Timed
    } else {
        RunStep::Stop
    }
}

/// Number of the first `done` steps that are `kind`.
pub open spec fn steps_of(kind: RunStep, done: nat, repeats: int) -> nat
    decreases done,
{
    if done == 0 {
        0
    } else {
        steps_of(kind, (done - 1) as nat, repeats) + (if step_after(done - 1, repeats) == kind {
            1nat
        } else {
            0nat
        })
    }
}

/// A measurement is one warmup, which comes first, and then exactly as many timed runs
/// as were asked for: it goes on until those are done, and then stops for good.
pub proof fn law_measurements_time_every_repeat(repeats: nat, done: nat)
    ensures
        step_after(0, repeats as int) == RunStep::Warmup,
        done <= repeats <==> step_after(done as int, repeats as int) != RunStep::Stop,
        done > 0 ==> steps_of(RunStep::Warmup, done, repeats as int) == 1,
        steps_of(RunStep::Timed, done, repeats as int) == (if done == 0 {
            0
        } else if done <= repeats {
            done - 1
        } else {
            repeats as int
        }),
    decreases done,
{
    reveal_with_fuel(steps_of, 2);
    if done > 0 {
        law_measurements_time_every_repeat(repeats, (done - 1) as nat);
    }
}

} // verus!
