use crate::worker::worker::{WaitErrno, WaitOutcome, WaitStatus};
use vstd::prelude::*;

verus! {

/// How many passes over the unfilled slots of a group are made before giving up.
pub const START_PASSES: u32 = 5;

/// What is reported of a group whose start used up its passes with slots unfilled.
pub const START_FAILURE: &'static str = "Failed run workers";

/// Where the start of one group stands: the pass that is running, the fork
/// attempts still to make in it, and the slots that no child fills yet.
#[derive(Clone, Copy, Debug, PartialEq, Eq, Structural)]
pub struct StartProgress {
    pub pass: u32,
    pub attempts: u32,
    pub remains: u32,
}

/// What follows one fork attempt of a starting group.
#[derive(Clone, Copy, Debug, PartialEq, Eq, Structural)]
pub enum StartVerdict {
    /// Fork again, with this progress.
    Retry(StartProgress),
    /// Every slot is filled.
    Complete,
    /// The passes are used up and slots remain.
    Failed,
}

impl StartProgress {
    /// A start is under way: a pass within the budget, at least one attempt left
    /// in it, and no more attempts left than slots.
    pub open spec fn wf(self) -> bool {
        &&& self.pass < START_PASSES
        &&& 0 < self.attempts <= self.remains
    }

    /// The first pass over a group of `count` slots, all of them unfilled.
    pub open spec fn begin(count: u32) -> StartProgress {
        StartProgress { pass: 0, attempts: count, remains: count }
    }

    /// The slots that remain unfilled after an attempt that did (`forked`) or
    /// did not produce a child.
    pub open spec fn remains_after(self, forked: bool) -> u32 {
        if forked && self.remains > 0 {
            (self.remains - 1) as u32
        } else {
            self.remains
        }
    }

    /// The verdict after one attempt. Within a pass the attempts are counted
    /// down; at the end of a pass the group is complete if no slot remains, the
    /// next pass makes one attempt per remaining slot, and after the last pass
    /// the start has failed.
    pub open spec fn after(self, forked: bool) -> StartVerdict {
        let remains = self.remains_after(forked);
        if self.attempts > 1 {
            StartVerdict::Retry(
                StartProgress { pass: self.pass, attempts: (self.attempts - 1) as u32, remains },
            )
        } else if remains == 0 {
            StartVerdict::Complete
        } else if self.pass + 1 < START_PASSES {
            StartVerdict::Retry(
                StartProgress { pass: (self.pass + 1) as u32, attempts: remains, remains },
            )
        } else {
            StartVerdict::Failed
        }
    }

    /// Upper bound on the fork attempts that a start in this state can still make.
    pub open spec fn attempts_bound(self) -> int {
        self.attempts + (START_PASSES - 1 - self.pass) * self.remains
    }
}

/// Decides how the children of a group are started.
pub struct WorkerGenerator;

impl WorkerGenerator {
    /// The progress with which the start of a group of `count` children begins,
    /// or `None` where there is nothing to start.
    pub fn begin(&self, count: u32) -> (r: Option<StartProgress>)
        ensures
            r == if count == 0 {
                None
            } else {
                Some(StartProgress::begin(count))
            },
            r matches Some(p) ==> p.wf(),
    {
        if count == 0 {
            None
        } else {
            Some(StartProgress { pass: 0, attempts: count, remains: count })
        }
    }

    /// One step in the start of a group: takes the progress so far and whether
    /// the fork just attempted gave a child, and says what comes next.
    pub fn start_group_workers(&self, progress: StartProgress, forked: bool) -> (r: StartVerdict)
        ensures
            r == progress.after(forked),
    {
        let remains: u32 = if forked && progress.remains > 0 {
            progress.remains - 1
        } else {
            progress.remains
        };
        if progress.attempts > 1 {
            StartVerdict::Retry(
                StartProgress { pass: progress.pass, attempts: progress.attempts - 1, remains },
            )
        } else if remains == 0 {
            StartVerdict::Complete
        } else if progress.pass < START_PASSES - 1 {
            StartVerdict::Retry(
                StartProgress { pass: progress.pass + 1, attempts: remains, remains },
            )
        } else {
            StartVerdict::Failed
        }
    }
}

/// A start that is under way stays so while it asks for another fork, and each
/// attempt brings it nearer to its end: the bound on the attempts still to come
/// falls by at least one. A successful fork fills exactly one slot.
pub proof fn lemma_start_progress(progress: StartProgress, forked: bool)
    requires
        progress.wf(),
    ensures
        progress.remains_after(forked) + (if forked {
            1int
        } else {
            0int
        }) == progress.remains,
        progress.after(forked) matches StartVerdict::Retry(p) ==> p.wf() && 0 <= p.attempts_bound()
            < progress.attempts_bound(),
        progress.after(forked) is Complete ==> progress.remains_after(forked) == 0,
{
    let remains = progress.remains_after(forked);
    let left = START_PASSES - 1 - progress.pass;
    assert(left * remains <= left * progress.remains) by (nonlinear_arith)
        requires
            left >= 0,
            0 <= remains <= progress.remains,
    ;
    assert((left - 1) * remains + remains == left * remains) by (nonlinear_arith);
    assert(left * remains >= 0) by (nonlinear_arith)
        requires
            left >= 0,
            remains >= 0,
    ;
    assert((left - 1) * remains >= 0 || left == 0) by (nonlinear_arith)
        requires
            left >= 0,
            remains >= 0,
    ;
}

/// Reads what a wait call returned.
pub struct WorkerCleaner;

impl WorkerCleaner {
    /// Classifies the result of one wait call.
    pub fn outcome(&self, raw: Result<WaitStatus, WaitErrno>) -> (r: WaitOutcome)
        ensures
            r == WaitOutcome::of(raw),
    {
        match raw {
            Ok(WaitStatus::Exited { pid, code }) => {
                if code == 0 {
                    WaitOutcome::NormalExit(pid)
                } else {
                    WaitOutcome::NonZeroExit(pid, code)
                }
            },
            Ok(WaitStatus::Signaled { pid, signal, core_dumped: _ }) => {
                let code: i32 = if signal <= i32::MAX - 128 {
                    signal + 128
                } else {
                    i32::MAX
                };
                WaitOutcome::NonZeroExit(pid, code)
            },
            Ok(status) => WaitOutcome::NotExited(status),
            Err(errno) => WaitOutcome::WaitFailed(errno),
        }
    }
}

} // verus!
