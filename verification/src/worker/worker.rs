use vstd::prelude::*;

verus! {

/// What the operating system reported for one child, as plain numbers.
#[derive(Clone, Copy, Debug, PartialEq, Eq, Structural)]
pub enum WaitStatus {
    /// The child ended by itself with this exit code.
    Exited { pid: i32, code: i32 },
    /// The child was ended by a signal.
    Signaled { pid: i32, signal: i32, core_dumped: bool },
    /// The child is stopped by a signal and may go on later.
    Stopped { pid: i32, signal: i32 },
    /// The child went on after a stop.
    Continued { pid: i32 },
    /// No child changed state.
    StillAlive,
    /// A tracing stop of the child.
    Traced { pid: i32 },
}

/// Why a wait call itself failed.
#[derive(Clone, Copy, Debug, PartialEq, Eq, Structural)]
pub enum WaitErrno {
    /// ECHILD: the caller has no children left.
    NoChild,
    /// EINTR: a signal arrived while waiting.
    Interrupted,
    /// Any other error number.
    Other(i32),
}

/// One wait call, as the supervisor sees it.
#[derive(Clone, Copy, Debug, PartialEq, Eq, Structural)]
pub enum WaitOutcome {
    NormalExit(i32),
    NonZeroExit(i32, i32),
    NotExited(WaitStatus),
    WaitFailed(WaitErrno),
}

/// The exit code that stands for a death by `signal`: 128 more than the signal's
/// number, as shells report it, held at the largest `i32` where that does not fit.
pub open spec fn signal_exit_code(signal: i32) -> i32 {
    if signal <= i32::MAX - 128 {
        (signal + 128) as i32
    } else {
        i32::MAX
    }
}

impl WaitOutcome {
    /// The pid of the child that is gone for good, if this outcome reports one.
    pub open spec fn ended(self) -> Option<i32> {
        match self {
            WaitOutcome::NormalExit(pid) => Some(pid),
            WaitOutcome::NonZeroExit(pid, _) => Some(pid),
            _ => None,
        }
    }

    /// How a finished wait call is read. A child that ended with code 0 left
    /// normally; one that ended with another code, or was ended by a signal, left
    /// with a failure; every other status means that no child is gone.
    pub open spec fn of(raw: Result<WaitStatus, WaitErrno>) -> WaitOutcome {
        match raw {
            Ok(WaitStatus::Exited { pid, code }) => if code == 0 {
                WaitOutcome::NormalExit(pid)
            } else {
                WaitOutcome::NonZeroExit(pid, code)
            },
            Ok(WaitStatus::Signaled { pid, signal, core_dumped }) => WaitOutcome::NonZeroExit(
                pid,
                signal_exit_code(signal),
            ),
            Ok(status) => WaitOutcome::NotExited(status),
            Err(errno) => WaitOutcome::WaitFailed(errno),
        }
    }
}

} // verus!
