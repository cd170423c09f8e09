use crate::worker::group::WorkerGroup;
use crate::worker::helper::{
    lemma_start_progress, StartProgress, StartVerdict, WorkerCleaner, WorkerGenerator,
    START_PASSES,
};
use crate::worker::worker::{WaitErrno, WaitOutcome, WaitStatus};
use crate::worker::Worker;
use vstd::prelude::*;

verus! {

/// What the supervisor is in the middle of.
#[derive(Clone, Copy, Debug, PartialEq, Eq, Structural)]
pub enum Phase {
    /// Nothing was started yet.
    Idle,
    /// The children of `group` are being started.
    Starting { group: usize, progress: StartProgress },
    /// Every group was started; the supervisor waits for a child to end.
    Supervising,
    /// A child of `group` ended and its replacement is being forked.
    Respawning { group: usize },
    /// Shutting down: the child at `next` in the table of `group` is signalled.
    Stopping { group: usize, next: usize },
    /// Shutting down: `left` more waits collect the children of `group`.
    Reaping { group: usize, left: usize },
    /// The shutdown is complete.
    Done,
}

/// What the caller is asked to do next.
#[derive(Clone, Copy, Debug, PartialEq, Eq, Structural)]
pub enum Action {
    /// Fork one child of the group with this index.
    Fork(usize),
    /// Wait for any child.
    Wait,
    /// Send the termination signal to this pid.
    Kill(i32),
    /// Leave: there is nothing more to do.
    Exit,
}

/// What came of the action that was asked for.
#[derive(Clone, Copy, Debug, PartialEq, Eq)]
pub enum Event {
    /// A fork was attempted: the child's pid, or the error number.
    Forked(Result<i32, i32>),
    /// A wait call returned: the status of a child, or the error of the call.
    Waited(Result<WaitStatus, WaitErrno>),
    /// The termination signal was sent (`true`) or could not be sent.
    Killed(bool),
}

/// Something worth a line in the log.
#[derive(Clone, Copy, Debug, PartialEq, Eq)]
pub enum Report {
    /// The start of this group used up its passes with slots unfilled.
    StartFailed { group: usize },
    /// A child ended that no group lists.
    NotInGroup { pid: i32 },
    /// A child ended with a failure; `owned` says whether a group listed it.
    ChildFailed { pid: i32, code: i32, owned: bool },
    /// The replacement for a child of this group could not be forked.
    ForkFailed { group: usize, errno: i32 },
    /// A wait call reported a child that is not gone.
    NotExited(WaitStatus),
    /// A wait call was interrupted by a signal.
    Interrupted,
    /// A wait call failed with this error number.
    WaitFailed { errno: i32 },
    /// The termination signal could not be sent to this pid.
    KillFailed { pid: i32 },
    /// A wait call during shutdown did not report a normal exit.
    ReapFailed(WaitOutcome),
}

impl Event {
    /// Whether this event is what comes of `action`.
    pub open spec fn answers(self, action: Action) -> bool {
        match (self, action) {
            (Event::Forked(_), Action::Fork(_)) => true,
            (Event::Waited(_), Action::Wait) => true,
            (Event::Killed(_), Action::Kill(_)) => true,
            _ => false,
        }
    }
}

/// The answer to an event: the next action, and what to log about the event.
#[derive(Clone, Copy, Debug, PartialEq, Eq)]
pub struct Step {
    pub action: Action,
    pub report: Option<Report>,
}

/// The least index at or after `from` and below `n` at which `p` holds, or `n`.
pub open spec fn first_from(n: int, from: int, p: spec_fn(int) -> bool) -> int
    decreases n - from,
{
    if from >= n {
        n
    } else if p(from) {
        from
    } else {
        first_from(n, from + 1, p)
    }
}

pub proof fn lemma_first_from(n: int, from: int, p: spec_fn(int) -> bool)
    requires
        from <= n,
    ensures
        from <= first_from(n, from, p) <= n,
        first_from(n, from, p) < n ==> p(first_from(n, from, p)),
        forall|j: int| from <= j < first_from(n, from, p) ==> !#[trigger] p(j),
    decreases n - from,
{
    if from < n && !p(from) {
        lemma_first_from(n, from + 1, p);
    }
}

/// The table `t` without the first occurrence of `pid`.
pub open spec fn without_first(t: Seq<i32>, pid: i32) -> Seq<i32> {
    match t.index_of_first(pid) {
        Some(i) => t.remove(i),
        None => t,
    }
}

/// The supervisor as a mathematical value: the target size of each group, the
/// pids recorded for each group, in the order in which they were forked, and
/// the phase.
pub struct ManagerState {
    pub counts: Seq<u32>,
    pub tables: Seq<Seq<i32>>,
    pub phase: Phase,
}

impl ManagerState {
    /// One table per group, none larger than its group's target.
    pub open spec fn tables_wf(self) -> bool {
        &&& self.tables.len() == self.counts.len()
        &&& self.tables.len() <= usize::MAX
        &&& forall|g: int| 0 <= g < self.tables.len() ==> #[trigger] self.tables[g].len()
            <= self.counts[g]
    }

    /// Well-formed tables, and a phase that points into them.
    pub open spec fn wf(self) -> bool {
        &&& self.tables_wf()
        &&& match self.phase {
            Phase::Idle => forall|g: int|
                0 <= g < self.tables.len() ==> (#[trigger] self.tables[g]).len() == 0,
            Phase::Starting { group, progress } => {
                &&& group < self.tables.len()
                &&& progress.wf()
                &&& self.tables[group as int].len() + progress.remains
                    == self.counts[group as int]
                &&& forall|g: int|
                    group < g < self.tables.len() ==> (#[trigger] self.tables[g]).len() == 0
            },
            Phase::Respawning { group } => {
                &&& group < self.tables.len()
                &&& self.tables[group as int].len() < self.counts[group as int]
            },
            Phase::Stopping { group, next } => {
                &&& group < self.tables.len()
                &&& next < self.tables[group as int].len()
            },
            Phase::Reaping { group, left } => {
                &&& group < self.tables.len()
                &&& 0 < left <= self.tables[group as int].len()
            },
            _ => true,
        }
    }

    pub open spec fn with_phase(self, phase: Phase) -> ManagerState {
        ManagerState { phase, ..self }
    }

    /// The same state with `pid` recorded last in the table of `group`.
    pub open spec fn with_child(self, group: int, pid: i32) -> ManagerState {
        ManagerState { tables: self.tables.update(group, self.tables[group].push(pid)), ..self }
    }

    /// The same state without the first record of `pid` in the table of `group`.
    pub open spec fn without_child(self, group: int, pid: i32) -> ManagerState {
        ManagerState {
            tables: self.tables.update(group, without_first(self.tables[group], pid)),
            ..self
        }
    }

    /// Whether group `g` wants any children.
    pub open spec fn wants(self) -> spec_fn(int) -> bool {
        |g: int| self.counts[g] > 0
    }

    /// Whether group `g` has any child on record.
    pub open spec fn populated(self) -> spec_fn(int) -> bool {
        |g: int| self.tables[g].len() > 0
    }

    /// Whether the table of group `g` lists `pid`.
    pub open spec fn lists(self, pid: i32) -> spec_fn(int) -> bool {
        |g: int| self.tables[g].contains(pid)
    }

    /// The first group at or after `from` that has children to start.
    pub open spec fn next_to_start(self, from: int) -> int {
        first_from(self.counts.len() as int, from, self.wants())
    }

    /// The first group at or after `from` that has children on record.
    pub open spec fn next_to_stop(self, from: int) -> int {
        first_from(self.tables.len() as int, from, self.populated())
    }

    /// The first group whose table lists `pid`, or the number of groups.
    pub open spec fn owner(self, pid: i32) -> int {
        first_from(self.tables.len() as int, 0, self.lists(pid))
    }

    /// The action that the caller owes in this phase.
    pub open spec fn pending(self) -> Action {
        match self.phase {
            Phase::Idle => Action::Exit,
            Phase::Starting { group, progress } => Action::Fork(group),
            Phase::Supervising => Action::Wait,
            Phase::Respawning { group } => Action::Fork(group),
            Phase::Stopping { group, next } => Action::Kill(self.tables[group as int][next as int]),
            Phase::Reaping { group, left } => Action::Wait,
            Phase::Done => Action::Exit,
        }
    }

    /// Shutdown from group `from` on: the first child of the next group that has
    /// any is signalled; with no such group the shutdown is complete.
    pub open spec fn stop_from(self, from: int) -> ManagerState {
        let g = self.next_to_stop(from);
        if g < self.tables.len() {
            self.with_phase(Phase::Stopping { group: g as usize, next: 0 })
        } else {
            self.with_phase(Phase::Done)
        }
    }

    /// The head of the supervision loop: while `running`, wait for a child;
    /// otherwise begin the shutdown with the first group.
    pub open spec fn supervise(self, running: bool) -> ManagerState {
        if running {
            self.with_phase(Phase::Supervising)
        } else {
            self.stop_from(0)
        }
    }

    /// Start from group `from` on: the next group that wants children begins its
    /// first pass; with no such group the supervision begins.
    pub open spec fn start_from(self, from: int, running: bool) -> ManagerState {
        let g = self.next_to_start(from);
        if g < self.counts.len() {
            self.with_phase(
                Phase::Starting { group: g as usize, progress: StartProgress::begin(self.counts[g]) },
            )
        } else {
            self.supervise(running)
        }
    }

    /// A child is gone: the first group that lists `pid` loses that record and
    /// gets one replacement; a pid that no group lists changes nothing.
    pub open spec fn reap(self, pid: i32, running: bool) -> ManagerState {
        let g = self.owner(pid);
        if g < self.tables.len() {
            self.without_child(g, pid).with_phase(Phase::Respawning { group: g as usize })
        } else {
            self.supervise(running)
        }
    }

    /// The state after `event`, where `running` tells whether the interrupt
    /// signal was not yet seen. An event that does not answer the pending action
    /// changes nothing.
    pub open spec fn next(self, event: Event, running: bool) -> ManagerState {
        match (self.phase, event) {
            (Phase::Starting { group, progress }, Event::Forked(res)) => {
                let s = match res {
                    Ok(pid) => self.with_child(group as int, pid),
                    Err(_) => self,
                };
                match progress.after(res is Ok) {
                    StartVerdict::Retry(p) => s.with_phase(Phase::Starting { group, progress: p }),
                    _ => s.start_from(group + 1, running),
                }
            },
            (Phase::Supervising, Event::Waited(raw)) => match WaitOutcome::of(raw).ended() {
                Some(pid) => self.reap(pid, running),
                None => self.supervise(running),
            },
            (Phase::Respawning { group }, Event::Forked(res)) => match res {
                Ok(pid) => self.with_child(group as int, pid).supervise(running),
                Err(_) => self.supervise(running),
            },
            (Phase::Stopping { group, next }, Event::Killed(_)) => {
                if next + 1 < self.tables[group as int].len() {
                    self.with_phase(Phase::Stopping { group, next: (next + 1) as usize })
                } else {
                    self.with_phase(
                        Phase::Reaping { group, left: self.tables[group as int].len() as usize },
                    )
                }
            },
            (Phase::Reaping { group, left }, Event::Waited(_)) => {
                if left > 1 {
                    self.with_phase(Phase::Reaping { group, left: (left - 1) as usize })
                } else {
                    self.stop_from(group + 1)
                }
            },
            _ => self,
        }
    }

    /// What to log about `event` in this state.
    pub open spec fn report(self, event: Event) -> Option<Report> {
        match (self.phase, event) {
            (Phase::Starting { group, progress }, Event::Forked(res)) => {
                if progress.after(res is Ok) is Failed {
                    Some(Report::StartFailed { group })
                } else {
                    None
                }
            },
            (Phase::Supervising, Event::Waited(raw)) => {
                match WaitOutcome::of(raw) {
                    WaitOutcome::NormalExit(pid) => if self.owner(pid) < self.tables.len() {
                        None
                    } else {
                        Some(Report::NotInGroup { pid })
                    },
                    WaitOutcome::NonZeroExit(pid, code) => Some(
                        Report::ChildFailed { pid, code, owned: self.owner(pid) < self.tables.len() },
                    ),
                    WaitOutcome::NotExited(status) => Some(Report::NotExited(status)),
                    WaitOutcome::WaitFailed(WaitErrno::NoChild) => None,
                    WaitOutcome::WaitFailed(WaitErrno::Interrupted) => Some(Report::Interrupted),
                    WaitOutcome::WaitFailed(WaitErrno::Other(errno)) => Some(
                        Report::WaitFailed { errno },
                    ),
                }
            },
            (Phase::Respawning { group }, Event::Forked(res)) => match res {
                Ok(_) => None,
                Err(errno) => Some(Report::ForkFailed { group, errno }),
            },
            (Phase::Stopping { group, next }, Event::Killed(sent)) => {
                if sent {
                    None
                } else {
                    Some(Report::KillFailed { pid: self.tables[group as int][next as int] })
                }
            },
            (Phase::Reaping { group, left }, Event::Waited(raw)) => {
                if WaitOutcome::of(raw) is NormalExit {
                    None
                } else {
                    Some(Report::ReapFailed(WaitOutcome::of(raw)))
                }
            },
            _ => None,
        }
    }

    /// The answer to `event`: the action that the next state owes, and the report.
    pub open spec fn answer(self, event: Event, running: bool) -> Step {
        Step { action: self.next(event, running).pending(), report: self.report(event) }
    }

    /// The state after the call that begins the start phase.
    pub open spec fn started(self, running: bool) -> ManagerState {
        if self.phase is Idle {
            self.start_from(0, running)
        } else {
            self
        }
    }
}


/// Supervises the children of a list of groups. It decides and records; the
/// caller forks, waits and signals as it is asked to, and reports back.
pub struct WorkerManager<W: Worker> {
    groups: Vec<WorkerGroup<W>>,
    cleaner: WorkerCleaner,
    generator: WorkerGenerator,
    tables: Vec<Vec<i32>>,
    phase: Phase,
}

impl<W: Worker> View for WorkerManager<W> {
    type V = ManagerState;

    closed spec fn view(&self) -> ManagerState {
        ManagerState {
            counts: Seq::new(self.groups.len() as nat, |g: int| self.groups[g].count),
            tables: Seq::new(self.tables.len() as nat, |g: int| self.tables[g]@),
            phase: self.phase,
        }
    }
}

impl<W: Worker> WorkerManager<W> {
    pub open spec fn wf(&self) -> bool {
        self@.wf()
    }

    /// The groups, in the order in which they were given.
    pub closed spec fn spec_groups(&self) -> Seq<WorkerGroup<W>> {
        self.groups@
    }

    /// A supervisor for `groups` that has started nothing yet.
    pub fn new(groups: Vec<WorkerGroup<W>>) -> (r: Self)
        ensures
            r.wf(),
            r.spec_groups() == groups@,
            r@.phase is Idle,
            r@.counts == Seq::new(groups.len() as nat, |g: int| groups[g].count),
            r@.tables == Seq::new(groups.len() as nat, |g: int| Seq::<i32>::empty()),
    {
        let mut tables: Vec<Vec<i32>> = Vec::new();
        let mut i: usize = 0;
        while i < groups.len()
            invariant
                i <= groups.len(),
                tables.len() == i,
                forall|j: int| 0 <= j < i ==> (#[trigger] tables[j])@ == Seq::<i32>::empty(),
            decreases groups.len() - i,
        {
            tables.push(Vec::new());
            i = i + 1;
        }
        let r = Self {
            groups: groups,
            cleaner: WorkerCleaner,
            generator: WorkerGenerator,
            tables: tables,
            phase: Phase::Idle,
        };
        assert(r@.tables =~= Seq::new(groups.len() as nat, |g: int| Seq::<i32>::empty()));
        r
    }

    /// The number of groups.
    pub fn group_count(&self) -> (r: usize)
        ensures
            r == self@.counts.len(),
    {
        self.groups.len()
    }

    /// The group with index `group`, for the caller that forks its children.
    pub fn group(&self, group: usize) -> (r: Option<&WorkerGroup<W>>)
        ensures
            r is Some <==> group < self@.counts.len(),
            r matches Some(g) ==> *g == self.spec_groups()[group as int] && g.count
                == self@.counts[group as int],
    {
        if group < self.groups.len() {
            Some(&self.groups[group])
        } else {
            None
        }
    }

    /// The pids on record for the group with index `group`, oldest first.
    pub fn children(&self, group: usize) -> (r: Option<&Vec<i32>>)
        ensures
            r is Some <==> group < self@.tables.len(),
            r matches Some(t) ==> t@ == self@.tables[group as int],
    {
        if group < self.tables.len() {
            Some(&self.tables[group])
        } else {
            None
        }
    }

    pub fn phase(&self) -> (r: Phase)
        ensures
            r == self@.phase,
    {
        self.phase
    }

    /// The action that the caller owes.
    pub fn pending(&self) -> (r: Action)
        requires
            self.wf(),
        ensures
            r == self@.pending(),
    {
        match self.phase {
            Phase::Idle => Action::Exit,
            Phase::Starting { group, progress: _ } => Action::Fork(group),
            Phase::Supervising => Action::Wait,
            Phase::Respawning { group } => Action::Fork(group),
            Phase::Stopping { group, next } => Action::Kill(self.tables[group][next]),
            Phase::Reaping { group: _, left: _ } => Action::Wait,
            Phase::Done => Action::Exit,
        }
    }

    fn stop_from(&mut self, from: usize)
        requires
            old(self)@.tables_wf(),
            from <= old(self)@.tables.len(),
        ensures
            final(self)@ == old(self)@.stop_from(from as int),
            final(self).wf(),
            final(self).spec_groups() == old(self).spec_groups(),
    {
        let mut g: usize = from;
        while g < self.tables.len() && self.tables[g].len() == 0
            invariant
                from <= g <= self.tables.len(),
                *self == *old(self),
                self@.next_to_stop(from as int) == self@.next_to_stop(g as int),
            decreases self.tables.len() - g,
        {
            g = g + 1;
        }
        if g < self.tables.len() {
            self.phase = Phase::Stopping { group: g, next: 0 };
        } else {
            self.phase = Phase::Done;
        }
    }

    fn supervise(&mut self, running: bool)
        requires
            old(self)@.tables_wf(),
        ensures
            final(self)@ == old(self)@.supervise(running),
            final(self).wf(),
            final(self).spec_groups() == old(self).spec_groups(),
    {
        if running {
            self.phase = Phase::Supervising;
        } else {
            self.stop_from(0);
        }
    }

    fn start_from(&mut self, from: usize, running: bool)
        requires
            old(self)@.tables_wf(),
            from <= old(self)@.counts.len(),
            forall|g: int| from <= g < old(self)@.tables.len() ==> (#[trigger] old(self)@.tables[g]).len() == 0,
        ensures
            final(self)@ == old(self)@.start_from(from as int, running),
            final(self).wf(),
            final(self).spec_groups() == old(self).spec_groups(),
    {
        let mut g: usize = from;
        let mut progress: Option<StartProgress> = None;
        while g < self.groups.len()
            invariant_except_break
                from <= g <= self.groups.len(),
                progress is None,
                self@.next_to_start(from as int) == self@.next_to_start(g as int),
            invariant
                *self == *old(self),
            ensures
                from <= g <= self.groups.len(),
                self@.next_to_start(from as int) == g,
                g < self.groups.len() ==> progress == Some(StartProgress::begin(self@.counts[g as int])) && progress->0.wf(),
                g == self.groups.len() ==> progress is None,
            decreases self.groups.len() - g,
        {
            progress = self.generator.begin(self.groups[g].count);
            if progress.is_some() {
                break;
            }
            g = g + 1;
        }
        match progress {
            Some(p) => {
                assert(old(self)@.tables[g as int].len() == 0);
                self.phase = Phase::Starting { group: g, progress: p };
            },
            None => {
                self.supervise(running);
            },
        }
    }

    fn record_child(&mut self, group: usize, pid: i32)
        requires
            group < old(self)@.tables.len(),
        ensures
            final(self)@ == old(self)@.with_child(group as int, pid),
            final(self).spec_groups() == old(self).spec_groups(),
    {
        self.tables[group].push(pid);
        assert(self@.tables =~= old(self)@.tables.update(
            group as int,
            old(self)@.tables[group as int].push(pid),
        ));
    }

    /// The first group that lists `pid`, with the place of its first record there.
    fn find_owner(&self, pid: i32) -> (r: Option<(usize, usize)>)
        requires
            self@.tables_wf(),
        ensures
            match r {
                Some((g, i)) => {
                    &&& g == self@.owner(pid)
                    &&& g < self@.tables.len()
                    &&& self@.tables[g as int].index_of_first(pid) == Some(i as int)
                },
                None => self@.owner(pid) == self@.tables.len(),
            },
    {
        let mut g: usize = 0;
        while g < self.tables.len()
            invariant
                g <= self.tables.len(),
                self@.owner(pid) == first_from(self@.tables.len() as int, g as int, self@.lists(pid)),
            decreases self.tables.len() - g,
        {
            let table = &self.tables[g];
            let mut i: usize = 0;
            while i < table.len()
                invariant
                    i <= table.len(),
                    g < self.tables.len(),
                    table@ == self@.tables[g as int],
                    self@.owner(pid) == first_from(
                        self@.tables.len() as int,
                        g as int,
                        self@.lists(pid),
                    ),
                    forall|j: int| 0 <= j < i ==> table@[j] != pid,
                decreases table.len() - i,
            {
                if table[i] == pid {
                    proof {
                        table@.index_of_first_ensures(pid);
                        assert(table@.contains(pid));
                    }
                    return Some((g, i));
                }
                i = i + 1;
            }
            assert(!table@.contains(pid));
            g = g + 1;
        }
        None
    }

    fn remove_child(&mut self, group: usize, at: usize, pid: i32)
        requires
            group < old(self)@.tables.len(),
            old(self)@.tables[group as int].index_of_first(pid) == Some(at as int),
        ensures
            final(self)@ == old(self)@.without_child(group as int, pid),
            final(self).spec_groups() == old(self).spec_groups(),
    {
        proof {
            self@.tables[group as int].index_of_first_ensures(pid);
        }
        self.tables[group].remove(at);
        assert(self@.tables =~= old(self)@.tables.update(
            group as int,
            without_first(old(self)@.tables[group as int], pid),
        ));
    }

    /// Begins the start phase and says what to do first. Called again later, it
    /// changes nothing and repeats the pending action.
    pub fn start(&mut self, running: bool) -> (r: Step)
        requires
            old(self).wf(),
        ensures
            final(self).wf(),
            final(self)@ == old(self)@.started(running),
            final(self).spec_groups() == old(self).spec_groups(),
            r == (Step { action: final(self)@.pending(), report: None }),
    {
        match self.phase {
            Phase::Idle => {
                self.start_from(0, running);
            },
            _ => {},
        }
        Step { action: self.pending(), report: None }
    }

    /// What to log about `event` in the present state.
    fn report(&self, event: Event) -> (r: Option<Report>)
        requires
            self.wf(),
        ensures
            r == self@.report(event),
    {
        match (self.phase, event) {
            (Phase::Starting { group, progress }, Event::Forked(res)) => {
                match self.generator.start_group_workers(progress, res.is_ok()) {
                    StartVerdict::Failed => Some(Report::StartFailed { group }),
                    _ => None,
                }
            },
            (Phase::Supervising, Event::Waited(raw)) => {
                match self.cleaner.outcome(raw) {
                    WaitOutcome::NormalExit(pid) => {
                        match self.find_owner(pid) {
                            Some(_) => None,
                            None => Some(Report::NotInGroup { pid }),
                        }
                    },
                    WaitOutcome::NonZeroExit(pid, code) => {
                        let owned = self.find_owner(pid).is_some();
                        Some(Report::ChildFailed { pid, code, owned })
                    },
                    WaitOutcome::NotExited(status) => Some(Report::NotExited(status)),
                    WaitOutcome::WaitFailed(WaitErrno::NoChild) => None,
                    WaitOutcome::WaitFailed(WaitErrno::Interrupted) => Some(Report::Interrupted),
                    WaitOutcome::WaitFailed(WaitErrno::Other(errno)) => Some(
                        Report::WaitFailed { errno },
                    ),
                }
            },
            (Phase::Respawning { group }, Event::Forked(res)) => {
                match res {
                    Ok(_) => None,
                    Err(errno) => Some(Report::ForkFailed { group, errno }),
                }
            },
            (Phase::Stopping { group, next }, Event::Killed(sent)) => {
                if sent {
                    None
                } else {
                    Some(Report::KillFailed { pid: self.tables[group][next] })
                }
            },
            (Phase::Reaping { group: _, left: _ }, Event::Waited(raw)) => {
                let outcome = self.cleaner.outcome(raw);
                match outcome {
                    WaitOutcome::NormalExit(_) => None,
                    _ => Some(Report::ReapFailed(outcome)),
                }
            },
            _ => None,
        }
    }

    /// A child is gone: its record leaves the table of the group that owns it,
    /// and that group gets a replacement.
    fn collect_and_fork(&mut self, pid: i32, running: bool)
        requires
            old(self).wf(),
            old(self)@.phase is Supervising,
        ensures
            final(self).wf(),
            final(self)@ == old(self)@.reap(pid, running),
            final(self).spec_groups() == old(self).spec_groups(),
    {
        match self.find_owner(pid) {
            Some((group, at)) => {
                proof {
                    self@.tables[group as int].index_of_first_ensures(pid);
                }
                self.remove_child(group, at, pid);
                self.phase = Phase::Respawning { group };
            },
            None => {
                self.supervise(running);
            },
        }
    }

    /// Takes what came of the action that was asked for, with `running` false
    /// once the interrupt signal was seen, and says what to do next. An event
    /// that does not answer the pending action changes nothing.
    pub fn step(&mut self, event: Event, running: bool) -> (r: Step)
        requires
            old(self).wf(),
        ensures
            final(self).wf(),
            final(self)@ == old(self)@.next(event, running),
            final(self).spec_groups() == old(self).spec_groups(),
            r == old(self)@.answer(event, running),
    {
        let report = self.report(event);
        match (self.phase, event) {
            (Phase::Starting { group, progress }, Event::Forked(res)) => {
                proof {
                    lemma_start_progress(progress, res is Ok);
                }
                match res {
                    Ok(pid) => {
                        self.record_child(group, pid);
                    },
                    Err(_) => {},
                }
                match self.generator.start_group_workers(progress, res.is_ok()) {
                    StartVerdict::Retry(p) => {
                        self.phase = Phase::Starting { group, progress: p };
                    },
                    _ => {
                        self.start_from(group + 1, running);
                    },
                }
            },
            (Phase::Supervising, Event::Waited(raw)) => {
                match self.cleaner.outcome(raw) {
                    WaitOutcome::NormalExit(pid) => {
                        self.collect_and_fork(pid, running);
                    },
                    WaitOutcome::NonZeroExit(pid, _) => {
                        self.collect_and_fork(pid, running);
                    },
                    _ => {
                        self.supervise(running);
                    },
                }
            },
            (Phase::Respawning { group }, Event::Forked(res)) => {
                match res {
                    Ok(pid) => {
                        self.record_child(group, pid);
                    },
                    Err(_) => {},
                }
                self.supervise(running);
            },
            (Phase::Stopping { group, next }, Event::Killed(_)) => {
                if next + 1 < self.tables[group].len() {
                    self.phase = Phase::Stopping { group, next: next + 1 };
                } else {
                    self.phase = Phase::Reaping { group, left: self.tables[group].len() };
                }
            },
            (Phase::Reaping { group, left }, Event::Waited(_)) => {
                if left > 1 {
                    self.phase = Phase::Reaping { group, left: left - 1 };
                } else {
                    self.stop_from(group + 1);
                }
            },
            _ => {},
        }
        Step { action: self.pending(), report }
    }

    /// Supervises over turns that are all there: takes each turn as `step`
    /// does, an event with whether the interrupt was not yet seen when it
    /// came, and gives the answers in their order.
    pub fn run(&mut self, turns: &Vec<(Event, bool)>) -> (r: Vec<Step>)
        requires
            old(self).wf(),
        ensures
            final(self).wf(),
            final(self).spec_groups() == old(self).spec_groups(),
            final(self)@ == old(self)@.replay(turns@),
            r@ == old(self)@.answers(turns@),
    {
        let mut out: Vec<Step> = Vec::new();
        let mut i: usize = 0;
        assert(turns@.skip(0) =~= turns@);
        assert(out@ + old(self)@.answers(turns@) =~= old(self)@.answers(turns@));
        while i < turns.len()
            invariant
                i <= turns.len(),
                self.wf(),
                self.spec_groups() == old(self).spec_groups(),
                old(self)@.replay(turns@) == self@.replay(turns@.skip(i as int)),
                old(self)@.answers(turns@) == out@ + self@.answers(turns@.skip(i as int)),
            decreases turns.len() - i,
        {
            let ghost before = self@;
            let ghost taken = out@;
            let ghost rest = turns@.skip(i as int);
            let (event, running) = turns[i];
            proof {
                assert(rest[0] == turns@[i as int]);
                assert(rest.drop_first() =~= turns@.skip(i + 1));
            }
            let step = self.step(event, running);
            out.push(step);
            proof {
                assert(taken + (seq![step] + self@.answers(turns@.skip(i + 1))) =~= taken.push(step)
                    + self@.answers(turns@.skip(i + 1)));
            }
            i = i + 1;
        }
        proof {
            assert(turns@.skip(i as int).len() == 0);
            assert(out@ + Seq::<Step>::empty() =~= out@);
        }
        out
    }
}

/// The number of children on record in the groups from `from` on.
pub open spec fn recorded_from(tables: Seq<Seq<i32>>, from: int) -> nat
    decreases tables.len() - from,
{
    if from < 0 || from >= tables.len() {
        0
    } else {
        tables[from].len() + recorded_from(tables, from + 1)
    }
}

impl ManagerState {
    /// Whether the shutdown is under way or complete.
    pub open spec fn stopping(self) -> bool {
        self.phase is Stopping || self.phase is Reaping || self.phase is Done
    }

    /// The number of events that the shutdown still takes: one per signal to
    /// send and one per wait to make.
    pub open spec fn shutdown_left(self) -> nat {
        match self.phase {
            Phase::Stopping { group, next } => (2 * self.tables[group as int].len() - next
                + 2 * recorded_from(self.tables, group + 1)) as nat,
            Phase::Reaping { group, left } => left as nat + 2 * recorded_from(
                self.tables,
                group + 1,
            ),
            _ => 0,
        }
    }
}

proof fn lemma_recorded_skip(s: ManagerState, from: int)
    requires
        0 <= from <= s.tables.len(),
    ensures
        recorded_from(s.tables, from) == recorded_from(s.tables, s.next_to_stop(from)),
        from <= s.next_to_stop(from) <= s.tables.len(),
        s.next_to_stop(from) < s.tables.len() ==> s.tables[s.next_to_stop(from)].len() > 0,
    decreases s.tables.len() - from,
{
    if from < s.tables.len() && s.tables[from].len() == 0 {
        lemma_recorded_skip(s, from + 1);
    }
}

proof fn lemma_recorded_monotonic(tables: Seq<Seq<i32>>, from: int, to: int)
    requires
        0 <= from <= to,
    ensures
        recorded_from(tables, to) <= recorded_from(tables, from),
    decreases to - from,
{
    if from < to {
        lemma_recorded_monotonic(tables, from + 1, to);
    }
}

/// A child that ends is replaced. In a well-formed supervising state, the exit
/// of a child that a group lists makes the supervisor ask for exactly one fork,
/// for that group; once that fork gives a child, the group has as many children
/// as before the exit, the new one last, and no other group has changed.
pub proof fn lemma_respawn_restores_population(
    s: ManagerState,
    raw: Result<WaitStatus, WaitErrno>,
    child: i32,
    running: bool,
)
    requires
        s.wf(),
        s.phase is Supervising,
        WaitOutcome::of(raw).ended() is Some,
        s.owner(WaitOutcome::of(raw).ended()->0) < s.tables.len(),
    ensures
        ({
            let pid = WaitOutcome::of(raw).ended()->0;
            let g = s.owner(pid);
            let t = s.next(Event::Waited(raw), running);
            let u = t.next(Event::Forked(Ok(child)), running);
            &&& 0 <= g < s.tables.len()
            &&& s.tables[g].contains(pid)
            &&& s.answer(Event::Waited(raw), running).action == Action::Fork(g as usize)
            &&& t.tables[g].len() == s.tables[g].len() - 1
            &&& u.tables[g] == without_first(s.tables[g], pid).push(child)
            &&& u.tables[g].len() == s.tables[g].len()
            &&& forall|h: int| 0 <= h < s.tables.len() && h != g ==> u.tables[h] == s.tables[h]
            &&& t.answer(Event::Forked(Ok(child)), running).action != Action::Fork(g as usize)
            &&& s.tables[g].no_duplicates() && !s.tables[g].contains(child) ==> {
                &&& u.tables[g].no_duplicates()
                &&& !u.tables[g].contains(pid)
                &&& u.tables[g].contains(child)
                &&& forall|p: i32| p != pid && s.tables[g].contains(p) ==> u.tables[g].contains(p)
            }
        }),
{
    let pid = WaitOutcome::of(raw).ended()->0;
    let g = s.owner(pid);
    lemma_first_from(s.tables.len() as int, 0, s.lists(pid));
    let table = s.tables[g];
    table.index_of_first_ensures(pid);
    let at = table.index_of_first(pid)->0;
    let left = without_first(table, pid);
    let after = left.push(child);
    assert(left == table.remove(at));
    assert forall|j: int| 0 <= j < left.len() implies #[trigger] left[j] == table[if j < at {
        j
    } else {
        j + 1
    }] by {}
    if table.no_duplicates() && !table.contains(child) {
        assert forall|i: int, j: int| 0 <= i < after.len() && 0 <= j < after.len() && i != j implies after[i]
            != after[j] by {
            let a = if i < at {
                i
            } else {
                i + 1
            };
            let b = if j < at {
                j
            } else {
                j + 1
            };
            if i < left.len() && j < left.len() {
                assert(after[i] == table[a] && after[j] == table[b]);
            } else if i < left.len() {
                assert(after[i] == table[a]);
                assert(table.contains(table[a]));
            } else {
                assert(after[j] == table[b]);
                assert(table.contains(table[b]));
            }
        }
        assert(!after.contains(pid)) by {
            if after.contains(pid) {
                let j = choose|j: int| 0 <= j < after.len() && after[j] == pid;
                if j < left.len() {
                    let b = if j < at {
                        j
                    } else {
                        j + 1
                    };
                    assert(table[b] == table[at]);
                } else {
                    assert(table.contains(child));
                }
            }
        }
        assert(after[left.len() as int] == child);
        assert forall|p: i32| p != pid && table.contains(p) implies after.contains(p) by {
            let j = choose|j: int| 0 <= j < table.len() && table[j] == p;
            let k = if j < at {
                j
            } else {
                j - 1
            };
            assert(after[k] == p);
        }
    }
}

/// Once the interrupt is seen, supervision ends: the event that follows leads
/// into the shutdown, after at most one replacement fork that was already due.
pub proof fn lemma_interrupt_begins_shutdown(s: ManagerState, event: Event)
    requires
        s.wf(),
    ensures
        s.phase is Supervising && event is Waited ==> s.next(event, false).stopping() || s.next(
            event,
            false,
        ).phase is Respawning,
        s.phase is Respawning && event is Forked ==> s.next(event, false).stopping(),
{
    lemma_recorded_skip(s, 0);
    if s.phase is Respawning && event is Forked {
        if let Event::Forked(Ok(pid)) = event {
            let group = s.phase->Respawning_group;
            lemma_recorded_skip(s.with_child(group as int, pid), 0);
        }
    }
}

/// The shutdown runs to its end whatever the signals and waits give. In a
/// well-formed state of the shutdown, the pending action is a signal to the next
/// recorded child or a wait; each event that answers it leaves the tables as
/// they are, stays in the shutdown and brings its end one event nearer; and when
/// no event is left, the supervisor is done and asks the caller to leave. A
/// group is waited for as many times as it has children on record, after all of
/// them were signalled.
pub proof fn lemma_shutdown_progress(s: ManagerState, event: Event, running: bool)
    requires
        s.wf(),
        s.stopping(),
        event.answers(s.pending()),
    ensures
        s.shutdown_left() == 0 <==> s.phase is Done,
        s.phase is Done <==> s.pending() == Action::Exit,
        s.phase matches Phase::Stopping { group, next } ==> s.pending() == Action::Kill(
            s.tables[group as int][next as int],
        ),
        s.phase is Reaping ==> s.pending() == Action::Wait,
        s.shutdown_left() <= 2 * recorded_from(s.tables, 0),
        ({
            let t = s.next(event, running);
            &&& t.wf()
            &&& t.stopping()
            &&& t.tables == s.tables
            &&& t.counts == s.counts
            &&& !(s.phase is Done) ==> t.shutdown_left() == s.shutdown_left() - 1
        }),
{
    match s.phase {
        Phase::Stopping { group, next } => {
            lemma_recorded_monotonic(s.tables, 0, group as int);
        },
        Phase::Reaping { group, left } => {
            lemma_recorded_skip(s, group + 1);
            lemma_recorded_monotonic(s.tables, 0, group as int);
        },
        _ => {},
    }
}

/// No group ever has more children on record than it should have: whatever
/// the event, a well-formed state is followed by a well-formed state.
pub proof fn lemma_population_stays_within_target(s: ManagerState, event: Event, running: bool)
    requires
        s.wf(),
    ensures
        s.next(event, running).wf(),
        s.started(running).wf(),
        forall|g: int|
            0 <= g < s.counts.len() ==> (#[trigger] s.next(event, running).tables[g]).len()
                <= s.counts[g],
{
    let n = s.tables.len() as int;
    lemma_first_from(n, 0, s.populated());
    lemma_first_from(n, 0, s.wants());
    match (s.phase, event) {
        (Phase::Starting { group, progress }, Event::Forked(res)) => {
            lemma_start_progress(progress, res is Ok);
            let t = match res {
                Ok(pid) => s.with_child(group as int, pid),
                Err(_) => s,
            };
            assert(t.tables_wf());
            lemma_first_from(n, group + 1, t.wants());
            lemma_first_from(n, 0, t.populated());
            assert(t.wants() == s.wants());
            let h = t.next_to_start(group + 1);
            if h < n {
                assert(t.tables[h].len() == 0);
            }
            assert(s.next(event, running).wf());
        },
        (Phase::Supervising, Event::Waited(raw)) => {
            if let Some(pid) = WaitOutcome::of(raw).ended() {
                lemma_first_from(n, 0, s.lists(pid));
                let g = s.owner(pid);
                if g < n {
                    s.tables[g].index_of_first_ensures(pid);
                }
            }
        },
        (Phase::Respawning { group }, Event::Forked(res)) => {
            if let Ok(pid) = res {
                let t = s.with_child(group as int, pid);
                assert(t.tables_wf());
                lemma_first_from(n, 0, t.populated());
            }
        },
        (Phase::Reaping { group, left }, Event::Waited(_)) => {
            lemma_first_from(n, group + 1, s.populated());
        },
        _ => {},
    }
    if s.phase is Idle {
        let h = s.next_to_start(0);
        if h < n {
            assert(s.tables[h].len() == 0);
        }
    }
}

/// The start of a group comes to an end. While a group is started, each
/// answer to a fork either leaves the group behind or stays with it and
/// lowers the bound on the forks that it can still ask for; a group of `n`
/// children is never asked for more than five times `n` forks.
pub proof fn lemma_start_comes_to_an_end(s: ManagerState, forked: Result<i32, i32>, running: bool)
    requires
        s.wf(),
        s.phase is Starting,
    ensures
        ({
            let group = s.phase->Starting_group;
            let progress = s.phase->Starting_progress;
            let t = s.next(Event::Forked(forked), running);
            &&& s.pending() == Action::Fork(group)
            &&& progress.attempts_bound() <= START_PASSES * s.counts[group as int]
            &&& match t.phase {
                Phase::Starting { group: then, progress: left } => then > group || (then == group
                    && 0 <= left.attempts_bound() < progress.attempts_bound()),
                _ => true,
            }
            &&& forked is Err ==> t.tables == s.tables
            &&& forked matches Ok(pid) ==> t.tables == s.tables.update(
                group as int,
                s.tables[group as int].push(pid),
            )
        }),
{
    let group = s.phase->Starting_group;
    let progress = s.phase->Starting_progress;
    let n = s.tables.len() as int;
    lemma_start_progress(progress, forked is Ok);
    let t = match forked {
        Ok(pid) => s.with_child(group as int, pid),
        Err(_) => s,
    };
    lemma_first_from(n, group + 1, t.wants());
    lemma_first_from(n, 0, t.populated());
    assert(progress.attempts_bound() <= START_PASSES * s.counts[group as int]) by (nonlinear_arith)
        requires
            progress.attempts_bound() == progress.attempts + (START_PASSES - 1 - progress.pass)
                * progress.remains,
            0 < progress.attempts <= progress.remains,
            progress.remains <= s.counts[group as int],
            0 <= progress.pass < START_PASSES,
    {
        assert((START_PASSES - 1 - progress.pass) * progress.remains <= (START_PASSES - 1)
            * progress.remains);
        assert((START_PASSES - 1) * progress.remains + progress.remains == START_PASSES
            * progress.remains);
        assert(START_PASSES * progress.remains <= START_PASSES * s.counts[group as int]);
    }
}

/// The signals to the children of `table` from place `from` on, in their order.
pub open spec fn kills(table: Seq<i32>, from: int) -> Seq<Action> {
    Seq::new((table.len() - from) as nat, |i: int| Action::Kill(table[from + i]))
}

/// `n` waits.
pub open spec fn waits(n: nat) -> Seq<Action> {
    Seq::new(n, |i: int| Action::Wait)
}

/// What a shutdown asks for from group `from` on: for each group in order a
/// signal to every child on record, then one wait for each of them; at the end
/// to leave.
pub open spec fn shutdown_actions(tables: Seq<Seq<i32>>, from: int) -> Seq<Action>
    decreases tables.len() - from,
{
    if from < 0 || from >= tables.len() {
        seq![Action::Exit]
    } else {
        kills(tables[from], 0) + waits(tables[from].len()) + shutdown_actions(tables, from + 1)
    }
}

impl ManagerState {
    /// The state after the turns `turns`, taken one after the other. A turn is
    /// an event, and whether the interrupt was not yet seen when it came.
    pub open spec fn replay(self, turns: Seq<(Event, bool)>) -> ManagerState
        decreases turns.len(),
    {
        if turns.len() == 0 {
            self
        } else {
            self.next(turns[0].0, turns[0].1).replay(turns.drop_first())
        }
    }

    /// The answers to the turns `turns`, in their order.
    pub open spec fn answers(self, turns: Seq<(Event, bool)>) -> Seq<Step>
        decreases turns.len(),
    {
        if turns.len() == 0 {
            Seq::empty()
        } else {
            seq![self.answer(turns[0].0, turns[0].1)] + self.next(turns[0].0, turns[0].1).answers(
                turns.drop_first(),
            )
        }
    }

    /// The actions that are pending before each of the turns `turns` and after
    /// the last: what the caller is asked to do, from first to last.
    pub open spec fn pendings(self, turns: Seq<(Event, bool)>) -> Seq<Action>
        decreases turns.len(),
    {
        if turns.len() == 0 {
            seq![self.pending()]
        } else {
            seq![self.pending()] + self.next(turns[0].0, turns[0].1).pendings(turns.drop_first())
        }
    }

    /// Whether each event of `turns` answers the action that is pending when
    /// it comes.
    pub open spec fn answered_by(self, turns: Seq<(Event, bool)>) -> bool
        decreases turns.len(),
    {
        if turns.len() == 0 {
            true
        } else {
            turns[0].0.answers(self.pending()) && self.next(turns[0].0, turns[0].1).answered_by(
                turns.drop_first(),
            )
        }
    }

    /// What the shutdown still asks for in this state: for the group at hand
    /// the signals not yet sent and its waits, then the same for each later
    /// group, then to leave.
    pub open spec fn shutdown_script(self) -> Seq<Action> {
        match self.phase {
            Phase::Stopping { group, next } => kills(self.tables[group as int], next as int)
                + waits(self.tables[group as int].len()) + shutdown_actions(self.tables, group + 1),
            Phase::Reaping { group, left } => waits(left as nat) + shutdown_actions(
                self.tables,
                group + 1,
            ),
            _ => seq![Action::Exit],
        }
    }

    /// Whether no table lists `pid`.
    pub open spec fn unlisted(self, pid: i32) -> bool {
        forall|g: int| 0 <= g < self.tables.len() ==> !(#[trigger] self.tables[g]).contains(pid)
    }

    /// Whether no table lists a pid twice.
    pub open spec fn distinct(self) -> bool {
        forall|g: int| 0 <= g < self.tables.len() ==> (#[trigger] self.tables[g]).no_duplicates()
    }

    /// Whether each replacement of `exits` has a pid that no table lists when
    /// it is forked.
    pub open spec fn all_new(self, exits: Seq<(Result<WaitStatus, WaitErrno>, i32)>) -> bool
        decreases exits.len(),
    {
        if exits.len() == 0 {
            true
        } else {
            &&& self.unlisted(exits[0].1)
            &&& self.respawned(exits.take(1)).all_new(exits.drop_first())
        }
    }

    /// Whether `exits` is a run of children that end and are replaced: each
    /// entry names a child that some group lists when it ends.
    pub open spec fn all_owned(self, exits: Seq<(Result<WaitStatus, WaitErrno>, i32)>) -> bool
        decreases exits.len(),
    {
        if exits.len() == 0 {
            true
        } else {
            &&& WaitOutcome::of(exits[0].0).ended() matches Some(pid)
            &&& self.owner(pid) < self.tables.len()
            &&& self.respawned(exits.take(1)).all_owned(exits.drop_first())
        }
    }

    /// The state after each child of `exits` has ended and the fork of its
    /// replacement has given the pid that stands beside it.
    pub open spec fn respawned(self, exits: Seq<(Result<WaitStatus, WaitErrno>, i32)>) -> ManagerState
        decreases exits.len(),
    {
        if exits.len() == 0 {
            self
        } else {
            self.next(Event::Waited(exits[0].0), true).next(
                Event::Forked(Ok(exits[0].1)),
                true,
            ).respawned(exits.drop_first())
        }
    }
}

/// However many children end, the groups are brought back to their size. From
/// a well-formed supervising state, after any run of children that end, each
/// followed by the fork of its replacement, the supervisor is supervising
/// again and every group has as many children on record as before.
pub proof fn lemma_population_is_restored(
    s: ManagerState,
    exits: Seq<(Result<WaitStatus, WaitErrno>, i32)>,
)
    requires
        s.wf(),
        s.phase is Supervising,
        s.all_owned(exits),
    ensures
        s.respawned(exits).wf(),
        s.respawned(exits).phase is Supervising,
        s.respawned(exits).counts == s.counts,
        s.respawned(exits).tables.len() == s.tables.len(),
        forall|g: int|
            0 <= g < s.tables.len() ==> (#[trigger] s.respawned(exits).tables[g]).len()
                == s.tables[g].len(),
    decreases exits.len(),
{
    if exits.len() > 0 {
        let outcome = exits[0].0;
        let child = exits[0].1;
        let t = s.next(Event::Waited(outcome), true);
        let u = t.next(Event::Forked(Ok(child)), true);
        lemma_respawn_restores_population(s, outcome, child, true);
        lemma_population_stays_within_target(s, Event::Waited(outcome), true);
        lemma_population_stays_within_target(t, Event::Forked(Ok(child)), true);
        assert(exits.take(1).drop_first() =~= Seq::<(Result<WaitStatus, WaitErrno>, i32)>::empty());
        assert(exits.take(1)[0] == exits[0]);
        assert(s.respawned(exits.take(1)) == u) by {
            assert(u.respawned(exits.take(1).drop_first()) == u);
        }
        lemma_population_is_restored(u, exits.drop_first());
        assert forall|g: int| 0 <= g < s.tables.len() implies (#[trigger] s.respawned(
            exits,
        ).tables[g]).len() == s.tables[g].len() by {
            assert(u.respawned(exits.drop_first()).tables[g].len() == u.tables[g].len());
            if g != s.owner(WaitOutcome::of(outcome).ended()->0) {
                assert(u.tables[g] == s.tables[g]);
            }
        }
    }
}

/// The tables stay free of doubles and of the dead. Where no table lists a
/// pid twice and every replacement comes with a pid that no table lists, then
/// after any run of children that end, each followed by the fork of its
/// replacement, still no table lists a pid twice; and a child that has ended
/// is off the table of its group as soon as its replacement is on it.
pub proof fn lemma_population_stays_distinct(
    s: ManagerState,
    exits: Seq<(Result<WaitStatus, WaitErrno>, i32)>,
)
    requires
        s.wf(),
        s.phase is Supervising,
        s.distinct(),
        s.all_owned(exits),
        s.all_new(exits),
    ensures
        s.respawned(exits).distinct(),
    decreases exits.len(),
{
    if exits.len() > 0 {
        let raw = exits[0].0;
        let child = exits[0].1;
        let pid = WaitOutcome::of(raw).ended()->0;
        let g = s.owner(pid);
        let t = s.next(Event::Waited(raw), true);
        let u = t.next(Event::Forked(Ok(child)), true);
        lemma_respawn_restores_population(s, raw, child, true);
        lemma_population_stays_within_target(s, Event::Waited(raw), true);
        lemma_population_stays_within_target(t, Event::Forked(Ok(child)), true);
        assert(exits.take(1).drop_first() =~= Seq::<(Result<WaitStatus, WaitErrno>, i32)>::empty());
        assert(exits.take(1)[0] == exits[0]);
        assert(s.respawned(exits.take(1)) == u) by {
            assert(u.respawned(exits.take(1).drop_first()) == u);
        }
        assert(s.tables[g].no_duplicates());
        assert(!s.tables[g].contains(child));
        assert(u.tables.len() == s.tables.len());
        assert forall|h: int| 0 <= h < u.tables.len() implies (#[trigger] u.tables[h]).no_duplicates() by {
            if h != g {
                assert(u.tables[h] == s.tables[h]);
                assert(s.tables[h].no_duplicates());
            }
        }
        lemma_population_stays_distinct(u, exits.drop_first());
    }
}

/// The shutdown ends, and all children are waited for. From a well-formed
/// state of the shutdown, once as many events have answered the pending
/// actions as the shutdown has left, the supervisor is done and asks the
/// caller to leave; that is two events for each child on record at the most.
/// Whether the signals and waits succeed makes no difference.
pub proof fn lemma_shutdown_completes(s: ManagerState, turns: Seq<(Event, bool)>)
    requires
        s.wf(),
        s.stopping(),
        s.answered_by(turns),
        turns.len() == s.shutdown_left(),
    ensures
        s.replay(turns).phase is Done,
        s.replay(turns).pending() == Action::Exit,
        s.replay(turns).tables == s.tables,
        turns.len() <= 2 * recorded_from(s.tables, 0),
    decreases turns.len(),
{
    if turns.len() == 0 {
        lemma_shutdown_progress_at_rest(s);
    } else {
        lemma_shutdown_progress(s, turns[0].0, turns[0].1);
        lemma_shutdown_completes(s.next(turns[0].0, turns[0].1), turns.drop_first());
    }
}

proof fn lemma_shutdown_actions_skip(s: ManagerState, from: int)
    requires
        0 <= from <= s.tables.len(),
    ensures
        shutdown_actions(s.tables, from) == shutdown_actions(s.tables, s.next_to_stop(from)),
    decreases s.tables.len() - from,
{
    if from < s.tables.len() && s.tables[from].len() == 0 {
        lemma_shutdown_actions_skip(s, from + 1);
        assert(kills(s.tables[from], 0) =~= Seq::<Action>::empty());
        assert(waits(s.tables[from].len()) =~= Seq::<Action>::empty());
        assert(kills(s.tables[from], 0) + waits(s.tables[from].len()) + shutdown_actions(
            s.tables,
            from + 1,
        ) =~= shutdown_actions(s.tables, from + 1));
    }
}

proof fn lemma_shutdown_script_step(s: ManagerState, event: Event, running: bool)
    requires
        s.wf(),
        s.stopping(),
        !(s.phase is Done),
        event.answers(s.pending()),
    ensures
        s.shutdown_script() == seq![s.pending()] + s.next(event, running).shutdown_script(),
{
    match s.phase {
        Phase::Stopping { group, next } => {
            let table = s.tables[group as int];
            if next + 1 < table.len() {
                assert(kills(table, next as int) =~= seq![s.pending()] + kills(table, next + 1));
                assert(kills(table, next as int) + waits(table.len()) + shutdown_actions(
                    s.tables,
                    group + 1,
                ) =~= seq![s.pending()] + (kills(table, next + 1) + waits(table.len())
                    + shutdown_actions(s.tables, group + 1)));
            } else {
                assert(kills(table, next as int) =~= seq![s.pending()]);
                assert(kills(table, next as int) + waits(table.len()) + shutdown_actions(
                    s.tables,
                    group + 1,
                ) =~= seq![s.pending()] + (waits(table.len()) + shutdown_actions(
                    s.tables,
                    group + 1,
                )));
            }
        },
        Phase::Reaping { group, left } => {
            if left > 1 {
                assert(waits(left as nat) =~= seq![Action::Wait] + waits((left - 1) as nat));
                assert(waits(left as nat) + shutdown_actions(s.tables, group + 1) =~= seq![
                    Action::Wait,
                ] + (waits((left - 1) as nat) + shutdown_actions(s.tables, group + 1)));
            } else {
                lemma_recorded_skip(s, group + 1);
                lemma_shutdown_actions_skip(s, group + 1);
                let h = s.next_to_stop(group + 1);
                let t = s.next(event, running);
                assert(waits(1) =~= seq![Action::Wait]);
                if h < s.tables.len() {
                    assert(kills(s.tables[h], 0) + waits(s.tables[h].len()) + shutdown_actions(
                        s.tables,
                        h + 1,
                    ) == shutdown_actions(s.tables, h));
                }
                assert(t.shutdown_script() == shutdown_actions(s.tables, group + 1));
            }
        },
        _ => {},
    }
}

/// The shutdown does what it should, in the order in which it should. From
/// the state in which the shutdown begins with a group, the actions asked for
/// up to its end are, for each group in order, one signal to every child on
/// record and then one wait for each of them, and at the end to leave,
/// whatever the signals and the waits give.
pub proof fn lemma_shutdown_script(s: ManagerState, turns: Seq<(Event, bool)>)
    requires
        s.wf(),
        s.stopping(),
        s.answered_by(turns),
        turns.len() == s.shutdown_left(),
    ensures
        s.pendings(turns) == s.shutdown_script(),
        s.phase == (Phase::Stopping { group: s.phase->Stopping_group, next: 0 })
            ==> s.pendings(turns) == shutdown_actions(s.tables, s.phase->Stopping_group as int),
    decreases turns.len(),
{
    if turns.len() == 0 {
        lemma_shutdown_progress_at_rest(s);
    } else {
        lemma_shutdown_progress(s, turns[0].0, turns[0].1);
        lemma_shutdown_script_step(s, turns[0].0, turns[0].1);
        lemma_shutdown_script(s.next(turns[0].0, turns[0].1), turns.drop_first());
    }
}

proof fn lemma_shutdown_progress_at_rest(s: ManagerState)
    requires
        s.wf(),
        s.stopping(),
        s.shutdown_left() == 0,
    ensures
        s.phase is Done,
{
    match s.phase {
        Phase::Stopping { group, next } => {
            assert(2 * s.tables[group as int].len() - next > 0);
        },
        _ => {},
    }
}

} // verus!
