//! The scheduler loop as a state machine: the driver performs each action
//! (one full cycle, one sleep tick, or the exit) and feeds back whether
//! shutdown has been requested. Every decision is taken here.

use vstd::prelude::*;

verus! {

/// Seconds of one cooperative sleep tick.
pub const TICK_SECONDS: u64 = 1;

/// Seconds a full sleep phase lasts before the next cycle.
pub const SLEEP_SECONDS: u64 = 10;

/// Where the scheduler loop stands.
#[derive(Clone, Copy, PartialEq, Eq, Structural, Debug)]
pub enum SchedState {
    /// About to reload the store fresh from disk.
    Idle,
    /// A cycle has just run.
    Running,
    /// Sleeping in ticks; this many seconds of the phase are left.
    Sleeping { remaining: u64 },
    /// The loop is over.
    Shutdown,
}

/// What the driver must perform before stepping again.
#[derive(Clone, Copy, PartialEq, Eq, Structural, Debug)]
pub enum SchedAction {
    /// Reload the store, prune, run due jobs, reconcile, notify, persist.
    Cycle,
    /// Sleep this many seconds, then report whether shutdown was requested.
    Sleep { seconds: u64 },
    /// Leave the loop.
    Exit,
    /// Nothing; step again.
    Pass,
}

/// The transition relation of the loop. Shutdown is only observed while
/// sleeping, as each tick ends, so a request is honoured after at most one
/// tick.
pub open spec fn sched_step_spec(s: SchedState, shutdown_requested: bool) -> (
    SchedState,
    SchedAction,
) {
    match s {
        SchedState::Idle => (SchedState::Running, SchedAction::Cycle),
        SchedState::Running => (
            SchedState::Sleeping { remaining: SLEEP_SECONDS },
            SchedAction::Sleep { seconds: TICK_SECONDS },
        ),
        SchedState::Sleeping { remaining } => {
            if shutdown_requested {
                (SchedState::Shutdown, SchedAction::Exit)
            } else if remaining > TICK_SECONDS {
                (
                    SchedState::Sleeping { remaining: (remaining - TICK_SECONDS) as u64 },
                    SchedAction::Sleep { seconds: TICK_SECONDS },
                )
            } else {
                (SchedState::Idle, SchedAction::Pass)
            }
        },
        SchedState::Shutdown => (SchedState::Shutdown, SchedAction::Exit),
    }
}

/// One step of the scheduler loop. A shutdown request observed during the
/// sleep phase ends the loop at once: at most one tick passes between the
/// request and the exit.
pub fn sched_step(s: SchedState, shutdown_requested: bool) -> (r: (SchedState, SchedAction))
    ensures
        r == sched_step_spec(s, shutdown_requested),
        (shutdown_requested && s matches SchedState::Sleeping { .. }) ==> r == ((
            SchedState::Shutdown,
            SchedAction::Exit,
        )),
{
    match s {
        SchedState::Idle => (SchedState::Running, SchedAction::Cycle),
        SchedState::Running => (
            SchedState::Sleeping { remaining: SLEEP_SECONDS },
            SchedAction::Sleep { seconds: TICK_SECONDS },
        ),
        SchedState::Sleeping { remaining } => {
            if shutdown_requested {
                (SchedState::Shutdown, SchedAction::Exit)
            } else if remaining > TICK_SECONDS {
                (
                    SchedState::Sleeping { remaining: remaining - TICK_SECONDS },
                    SchedAction::Sleep { seconds: TICK_SECONDS },
                )
            } else {
                (SchedState::Idle, SchedAction::Pass)
            }
        },
        SchedState::Shutdown => (SchedState::Shutdown, SchedAction::Exit),
    }
}

} // verus!
