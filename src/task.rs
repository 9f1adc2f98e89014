//! Decisions of a task group's join: how long each task may still take, and
//! the tally of how each task ended.
use vstd::prelude::*;

use crate::time::{total_nanos, Duration, SystemTime};

verus! {

/// The least time a task is given when joining with a deadline.
pub const JOIN_TIMEOUT_FLOOR_MILLIS: u64 = 10;

/// The floor, in nanoseconds.
pub open spec fn join_timeout_floor() -> int {
    JOIN_TIMEOUT_FLOOR_MILLIS * 1_000_000
}

/// The instant in nanoseconds since the epoch.
pub open spec fn instant_nanos(t: SystemTime) -> int {
    total_nanos(t.spec_since_epoch())
}

/// The time a task may still take: what is left until the deadline, but
/// never below the floor; no limit without a deadline.
pub fn join_timeout(deadline: Option<SystemTime>, now: SystemTime) -> (r: Option<Duration>)
    ensures
        r is Some <==> deadline is Some,
        r matches Some(d) ==> total_nanos(d) == if instant_nanos(deadline->0) - instant_nanos(now)
            >= join_timeout_floor() {
            instant_nanos(deadline->0) - instant_nanos(now)
        } else {
            join_timeout_floor()
        },
{
    match deadline {
        None => None,
        Some(d) => {
            let floor = Duration::from_millis(JOIN_TIMEOUT_FLOOR_MILLIS);
            match d.duration_since(&now) {
                Some(left) => {
                    if left.as_secs() > floor.as_secs() || (left.as_secs() == floor.as_secs()
                        && left.subsec_nanos() >= floor.subsec_nanos()) {
                        Some(left)
                    } else {
                        Some(floor)
                    }
                },
                None => Some(floor),
            }
        },
    }
}

/// How a joined task ended.
#[derive(Debug, Clone, PartialEq, Eq)]
pub enum TaskOutcome {
    /// The task returned.
    Finished,
    /// The task panicked or was cancelled; the message says how.
    Failed(String),
    /// The task did not finish before its time ran out.
    TimedOut,
}

/// The tally of a join: every task reaped lands in exactly one list.
#[derive(Debug)]
pub struct JoinReport {
    /// Names of the tasks that returned.
    pub finished: Vec<String>,
    /// Names and messages of the tasks that failed.
    pub errors: Vec<(String, String)>,
    /// Names of the tasks that ran out of time.
    pub timeouts: Vec<String>,
}

impl JoinReport {
    /// How many tasks were reaped.
    pub open spec fn reaped(&self) -> nat {
        self.finished@.len() + self.errors@.len() + self.timeouts@.len()
    }

    pub fn new() -> (r: JoinReport)
        ensures
            r.finished@.len() == 0,
            r.errors@.len() == 0,
            r.timeouts@.len() == 0,
    {
        JoinReport { finished: Vec::new(), errors: Vec::new(), timeouts: Vec::new() }
    }

    /// Records how the task `name` ended. A failure is collected as an error,
    /// a timeout only counted: neither stops the join of the other tasks.
    pub fn record(&mut self, name: String, outcome: TaskOutcome)
        ensures
            final(self).reaped() == old(self).reaped() + 1,
            match outcome {
                TaskOutcome::Finished => {
                    &&& final(self).finished@ == old(self).finished@.push(name)
                    &&& final(self).errors@ == old(self).errors@
                    &&& final(self).timeouts@ == old(self).timeouts@
                },
                TaskOutcome::Failed(msg) => {
                    &&& final(self).finished@ == old(self).finished@
                    &&& final(self).errors@ == old(self).errors@.push((name, msg))
                    &&& final(self).timeouts@ == old(self).timeouts@
                },
                TaskOutcome::TimedOut => {
                    &&& final(self).finished@ == old(self).finished@
                    &&& final(self).errors@ == old(self).errors@
                    &&& final(self).timeouts@ == old(self).timeouts@.push(name)
                },
            },
    {
        match outcome {
            TaskOutcome::Finished => self.finished.push(name),
            TaskOutcome::Failed(msg) => self.errors.push((name, msg)),
            TaskOutcome::TimedOut => self.timeouts.push(name),
        }
    }
}

} // verus!
