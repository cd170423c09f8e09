use crate::server::ListenerRegistry;
use std::rc::Rc;
use vstd::prelude::*;

verus! {

/// How an accept call ended.
#[derive(Clone, Copy, Debug, PartialEq, Eq, Structural)]
pub enum AcceptOutcome {
    /// A peer connected.
    Accepted,
    /// Nobody connected before the accept timeout.
    WouldBlock,
    /// The call failed for another reason.
    Failed,
}

/// What a child does next.
#[derive(Clone, Copy, Debug, PartialEq, Eq, Structural)]
pub enum WorkerAction {
    /// Accept the next connection.
    Accept,
    /// Serve the connection just accepted, with this limit in milliseconds on
    /// the time of a write.
    Serve { write_timeout_ms: u64 },
    /// Leave the process with this exit code.
    Exit { code: i32 },
}

/// A child that serves the connections of one endpoint.
pub struct TcpWorker<S, P> {
    pub timeout_ms: u64,
    pub listeners: Rc<ListenerRegistry<S>>,
    pub host: String,
    pub tcp_process: Rc<P>,
}

impl<S, P> TcpWorker<S, P> {
    /// The head of the accept loop: while `running`, accept; else leave with
    /// code 0.
    pub open spec fn spec_resume(running: bool) -> WorkerAction {
        if running {
            WorkerAction::Accept
        } else {
            WorkerAction::Exit { code: 0 }
        }
    }

    /// What follows an accept call. A connection is served, whatever the
    /// signal says; after a timeout the loop goes on from its head; any other
    /// failure ends the child with code 1.
    pub open spec fn spec_on_accept(&self, outcome: AcceptOutcome, running: bool) -> WorkerAction {
        match outcome {
            AcceptOutcome::Accepted => WorkerAction::Serve { write_timeout_ms: self.timeout_ms },
            AcceptOutcome::WouldBlock => Self::spec_resume(running),
            AcceptOutcome::Failed => WorkerAction::Exit { code: 1 },
        }
    }

    /// What the child does first, and after each connection that it served,
    /// whether that went well or not: `running` is false once the signal to
    /// stop was seen.
    pub fn resume(&self, running: bool) -> (r: WorkerAction)
        ensures
            r == Self::spec_resume(running),
    {
        if running {
            WorkerAction::Accept
        } else {
            WorkerAction::Exit { code: 0 }
        }
    }

    /// What the child does after an accept call that ended with `outcome`.
    pub fn on_accept(&self, outcome: AcceptOutcome, running: bool) -> (r: WorkerAction)
        ensures
            r == self.spec_on_accept(outcome, running),
    {
        match outcome {
            AcceptOutcome::Accepted => WorkerAction::Serve { write_timeout_ms: self.timeout_ms },
            AcceptOutcome::WouldBlock => self.resume(running),
            AcceptOutcome::Failed => WorkerAction::Exit { code: 1 },
        }
    }

    /// The listening socket that this child keeps.
    pub fn retained(&self) -> (r: Option<&S>)
        ensures
            match r {
                Some(socket) => crate::server::names(self.listeners@).index_of_first(self.host@)
                    matches Some(i) && *socket == self.listeners@[i].1,
                None => crate::server::names(self.listeners@).index_of_first(self.host@) is None,
            },
    {
        self.listeners.get(self.host.as_str())
    }

    /// The listening sockets that this child closes before it serves: those of
    /// every endpoint but its own.
    pub fn unused(&self) -> (r: Vec<&S>)
        ensures
            r@.len() == self.listeners@.filter(crate::server::is_other(self.host@)).len(),
            forall|i: int|
                0 <= i < r@.len() ==> *(#[trigger] r@[i]) == self.listeners@.filter(
                    crate::server::is_other(self.host@),
                )[i].1,
    {
        self.listeners.others(self.host.as_str())
    }
}

/// The signal to stop is seen at the next look. Once the flag says to stop,
/// the head of the loop leaves with code 0 and accepts nothing more; an accept
/// call that was under way is answered without another accept: a timeout ends
/// the child with code 0, a failure with code 1, and a connection that came in
/// is still served, after which the head of the loop leaves.
pub proof fn lemma_stop_is_seen<S, P>(worker: TcpWorker<S, P>, outcome: AcceptOutcome)
    ensures
        TcpWorker::<S, P>::spec_resume(false) == (WorkerAction::Exit { code: 0 }),
        TcpWorker::<S, P>::spec_resume(true) == WorkerAction::Accept,
        worker.spec_on_accept(outcome, false) != WorkerAction::Accept,
        outcome is WouldBlock ==> worker.spec_on_accept(outcome, false) == (WorkerAction::Exit {
            code: 0,
        }),
        forall|running: bool|
            outcome is Accepted ==> #[trigger] worker.spec_on_accept(outcome, running) == (
            WorkerAction::Serve { write_timeout_ms: worker.timeout_ms }),
        forall|running: bool|
            outcome is Failed ==> #[trigger] worker.spec_on_accept(outcome, running) == (
            WorkerAction::Exit { code: 1 }),
{
}

} // verus!
