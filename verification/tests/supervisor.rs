use server_rs::worker::group::WorkerGroup;
use server_rs::worker::helper::{
    StartProgress, StartVerdict, WorkerCleaner, WorkerGenerator, START_PASSES,
};
use server_rs::worker::manager::{Action, Event, Phase, Report, Step, WorkerManager};
use server_rs::worker::worker::{WaitErrno, WaitOutcome, WaitStatus};
use server_rs::worker::Worker;
use std::cell::RefCell;
use std::rc::Rc;

struct SleepWorker {
    calls: RefCell<Vec<&'static str>>,
}

impl SleepWorker {
    fn new() -> Self {
        SleepWorker { calls: RefCell::new(Vec::new()) }
    }
}

impl Worker for SleepWorker {
    fn init(&self) {
        self.calls.borrow_mut().push("init");
    }

    fn run(&self) {
        let i: u32 = (0..10000).sum();
        println!("{}", i);
        self.calls.borrow_mut().push("run");
    }

    fn cleanup(&self) {
        self.calls.borrow_mut().push("cleanup");
    }
}

fn manager(counts: &[u32]) -> WorkerManager<SleepWorker> {
    let worker = Rc::new(SleepWorker::new());
    WorkerManager::new(
        counts
            .iter()
            .map(|count| WorkerGroup::new(*count, worker.clone()))
            .collect(),
    )
}

fn step(action: Action) -> Step {
    Step { action, report: None }
}

fn exited(pid: i32, code: i32) -> Event {
    Event::Waited(Ok(WaitStatus::Exited { pid, code }))
}

fn interrupted() -> Event {
    Event::Waited(Err(WaitErrno::Interrupted))
}

fn started(counts: &[u32], first_pid: i32) -> WorkerManager<SleepWorker> {
    let mut m = manager(counts);
    let mut next = m.start(true);
    let mut pid = first_pid;
    while let Action::Fork(_) = next.action {
        next = m.step(Event::Forked(Ok(pid)), true);
        pid += 1;
    }
    assert_eq!(next, step(Action::Wait));
    m
}

fn shut_down(m: &mut WorkerManager<SleepWorker>, mut next: Step) -> (Vec<i32>, usize) {
    let mut killed = Vec::new();
    let mut waits = 0;
    loop {
        match next.action {
            Action::Kill(pid) => {
                killed.push(pid);
                next = m.step(Event::Killed(true), false);
            }
            Action::Wait => {
                waits += 1;
                next = m.step(exited(0, 0), false);
            }
            Action::Exit => return (killed, waits),
            Action::Fork(_) => panic!("fork during shutdown"),
        }
    }
}

#[test]
fn manager_test_manager() {
    let mut m = manager(&[1]);
    assert_eq!(m.start(true), step(Action::Fork(0)));
    assert_eq!(m.step(Event::Forked(Ok(100)), true), step(Action::Wait));
    assert_eq!(
        m.step(exited(100, 0), true),
        step(Action::Fork(0))
    );
    assert_eq!(m.step(Event::Forked(Ok(101)), true), step(Action::Wait));
    let stopping = m.step(interrupted(), false);
    assert_eq!(
        stopping,
        Step { action: Action::Kill(101), report: Some(Report::Interrupted) }
    );
    assert_eq!(shut_down(&mut m, stopping), (vec![101], 1));
    assert_eq!(m.phase(), Phase::Done);
}

#[test]
fn worker_test_manager() {
    let mut m = started(&[5], 200);
    assert_eq!(m.children(0), Some(&vec![200, 201, 202, 203, 204]));
    for pid in 200..205 {
        assert_eq!(
            m.step(exited(pid, 0), true),
            step(Action::Fork(0))
        );
        assert_eq!(m.step(Event::Forked(Ok(pid + 100)), true), step(Action::Wait));
    }
    assert_eq!(m.children(0), Some(&vec![300, 301, 302, 303, 304]));
    let next = m.step(
        interrupted(),
        false,
    );
    assert_eq!(shut_down(&mut m, next), (vec![300, 301, 302, 303, 304], 5));
}

#[test]
fn killed_child_is_replaced_once() {
    let mut m = started(&[3], 10);
    assert_eq!(m.children(0), Some(&vec![10, 11, 12]));
    let gone = Ok(WaitStatus::Signaled { pid: 11, signal: 9, core_dumped: false });
    assert_eq!(WorkerCleaner.outcome(gone), WaitOutcome::NonZeroExit(11, 137));
    assert_eq!(
        m.step(Event::Waited(gone), true),
        Step {
            action: Action::Fork(0),
            report: Some(Report::ChildFailed { pid: 11, code: 137, owned: true }),
        }
    );
    assert_eq!(m.phase(), Phase::Respawning { group: 0 });
    assert_eq!(m.children(0), Some(&vec![10, 12]));
    assert_eq!(m.step(Event::Forked(Ok(13)), true), step(Action::Wait));
    assert_eq!(m.children(0), Some(&vec![10, 12, 13]));
    assert_eq!(m.phase(), Phase::Supervising);
}

#[test]
fn every_killed_child_is_replaced() {
    let mut m = started(&[4], 1);
    for (gone, new) in [(3, 5), (1, 6), (5, 7), (2, 8)] {
        assert_eq!(
            m.step(exited(gone, 137), true).action,
            Action::Fork(0)
        );
        assert_eq!(m.step(Event::Forked(Ok(new)), true), step(Action::Wait));
        assert_eq!(m.children(0).unwrap().len(), 4);
    }
    assert_eq!(m.children(0), Some(&vec![4, 6, 7, 8]));
}

#[test]
fn replacement_goes_to_the_group_of_the_child() {
    let mut m = started(&[2, 0, 2], 1);
    assert_eq!(m.group_count(), 3);
    assert_eq!(m.children(0), Some(&vec![1, 2]));
    assert_eq!(m.children(1), Some(&vec![]));
    assert_eq!(m.children(2), Some(&vec![3, 4]));
    assert_eq!(m.children(3), None);
    assert_eq!(
        m.step(exited(3, 0), true),
        step(Action::Fork(2))
    );
    assert_eq!(m.step(Event::Forked(Ok(5)), true), step(Action::Wait));
    assert_eq!(m.children(0), Some(&vec![1, 2]));
    assert_eq!(m.children(2), Some(&vec![4, 5]));
    assert_eq!(m.group(2).unwrap().count, 2);
    assert!(m.group(3).is_none());
}

#[test]
fn failed_replacement_is_logged_and_skipped() {
    let mut m = started(&[2], 1);
    assert_eq!(
        m.step(exited(1, 0), true),
        step(Action::Fork(0))
    );
    assert_eq!(
        m.step(Event::Forked(Err(11)), true),
        Step { action: Action::Wait, report: Some(Report::ForkFailed { group: 0, errno: 11 }) }
    );
    assert_eq!(m.children(0), Some(&vec![2]));
}

#[test]
fn waits_that_report_no_exit_change_nothing() {
    let mut m = started(&[2], 1);
    let stopped = WaitStatus::Stopped { pid: 1, signal: 19 };
    let cases = [
        (Ok(stopped), Some(Report::NotExited(stopped))),
        (Ok(WaitStatus::Continued { pid: 1 }), Some(Report::NotExited(WaitStatus::Continued { pid: 1 }))),
        (Err(WaitErrno::NoChild), None),
        (Err(WaitErrno::Interrupted), Some(Report::Interrupted)),
        (Err(WaitErrno::Other(22)), Some(Report::WaitFailed { errno: 22 })),
        (Ok(WaitStatus::Exited { pid: 77, code: 0 }), Some(Report::NotInGroup { pid: 77 })),
        (
            Ok(WaitStatus::Exited { pid: 78, code: 1 }),
            Some(Report::ChildFailed { pid: 78, code: 1, owned: false }),
        ),
    ];
    for (outcome, report) in cases {
        assert_eq!(
            m.step(Event::Waited(outcome), true),
            Step { action: Action::Wait, report }
        );
        assert_eq!(m.children(0), Some(&vec![1, 2]));
        assert_eq!(m.phase(), Phase::Supervising);
    }
}

#[test]
fn start_retries_up_to_five_passes() {
    let mut m = manager(&[2]);
    assert_eq!(m.start(true), step(Action::Fork(0)));
    let mut forks = 1;
    let mut next = m.step(Event::Forked(Err(12)), true);
    while next.action == Action::Fork(0) {
        forks += 1;
        next = m.step(Event::Forked(Err(12)), true);
    }
    assert_eq!(forks, 10);
    assert_eq!(
        next,
        Step { action: Action::Wait, report: Some(Report::StartFailed { group: 0 }) }
    );
    assert_eq!(m.children(0), Some(&vec![]));
}

#[test]
fn start_keeps_the_children_that_it_got() {
    let mut m = manager(&[3, 1]);
    let mut next = m.start(true);
    let mut n = 0;
    let mut forks_of_first = 0;
    while next.action == Action::Fork(0) {
        forks_of_first += 1;
        let event = if n == 1 { Event::Forked(Ok(50)) } else { Event::Forked(Err(12)) };
        n += 1;
        next = m.step(event, true);
    }
    assert_eq!(forks_of_first, 3 + 4 * 2);
    assert_eq!(
        next,
        Step { action: Action::Fork(1), report: Some(Report::StartFailed { group: 0 }) }
    );
    assert_eq!(m.children(0), Some(&vec![50]));
    assert_eq!(m.step(Event::Forked(Ok(51)), true), step(Action::Wait));
    assert_eq!(m.children(1), Some(&vec![51]));
}

#[test]
fn start_fills_the_slots_that_failed_before() {
    let mut m = manager(&[3]);
    assert_eq!(m.start(true), step(Action::Fork(0)));
    assert_eq!(m.step(Event::Forked(Ok(1)), true), step(Action::Fork(0)));
    assert_eq!(m.step(Event::Forked(Err(11)), true), step(Action::Fork(0)));
    assert_eq!(m.step(Event::Forked(Ok(2)), true), step(Action::Fork(0)));
    assert_eq!(
        m.phase(),
        Phase::Starting { group: 0, progress: StartProgress { pass: 1, attempts: 1, remains: 1 } }
    );
    assert_eq!(m.step(Event::Forked(Ok(3)), true), step(Action::Wait));
    assert_eq!(m.children(0), Some(&vec![1, 2, 3]));
}

#[test]
fn nothing_to_start_means_waiting_or_leaving() {
    let mut m = manager(&[]);
    assert_eq!(m.pending(), Action::Exit);
    assert_eq!(m.phase(), Phase::Idle);
    assert_eq!(m.start(true), step(Action::Wait));
    let mut m = manager(&[0, 0]);
    assert_eq!(m.start(false), step(Action::Exit));
    assert_eq!(m.phase(), Phase::Done);
    assert_eq!(m.step(Event::Killed(true), true), step(Action::Exit));
}

#[test]
fn start_is_not_repeated() {
    let mut m = started(&[1], 1);
    assert_eq!(m.start(true), step(Action::Wait));
    assert_eq!(m.children(0), Some(&vec![1]));
}

#[test]
fn unexpected_event_changes_nothing() {
    let mut m = started(&[2], 1);
    assert_eq!(m.step(Event::Forked(Ok(9)), true), step(Action::Wait));
    assert_eq!(m.step(Event::Killed(false), false), step(Action::Wait));
    assert_eq!(m.children(0), Some(&vec![1, 2]));
    assert_eq!(m.phase(), Phase::Supervising);
    let mut m = manager(&[1]);
    assert_eq!(m.step(Event::Forked(Ok(9)), true), step(Action::Exit));
    assert_eq!(m.phase(), Phase::Idle);
}

#[test]
fn shutdown_signals_every_child_then_waits_for_each() {
    let mut m = started(&[2, 0, 3], 1);
    let mut trace = Vec::new();
    let mut next = m.step(interrupted(), false);
    loop {
        trace.push(next.action);
        next = match next.action {
            Action::Kill(_) => m.step(Event::Killed(true), true),
            Action::Wait => m.step(exited(0, 0), true),
            Action::Exit => break,
            Action::Fork(_) => panic!("fork during shutdown"),
        };
    }
    assert_eq!(
        trace,
        vec![
            Action::Kill(1),
            Action::Kill(2),
            Action::Wait,
            Action::Wait,
            Action::Kill(3),
            Action::Kill(4),
            Action::Kill(5),
            Action::Wait,
            Action::Wait,
            Action::Wait,
            Action::Exit,
        ]
    );
}

#[test]
fn shutdown_goes_on_over_failures() {
    let mut m = started(&[2], 1);
    let next = m.step(Event::Waited(Ok(WaitStatus::StillAlive)), false);
    assert_eq!(next.action, Action::Kill(1));
    assert_eq!(
        m.step(Event::Killed(false), false),
        Step { action: Action::Kill(2), report: Some(Report::KillFailed { pid: 1 }) }
    );
    assert_eq!(m.step(Event::Killed(true), false), step(Action::Wait));
    let failed = WaitOutcome::WaitFailed(WaitErrno::NoChild);
    assert_eq!(
        m.step(Event::Waited(Err(WaitErrno::NoChild)), false),
        Step { action: Action::Wait, report: Some(Report::ReapFailed(failed)) }
    );
    let failed = WaitOutcome::NonZeroExit(2, 1);
    assert_eq!(
        m.step(exited(2, 1), false),
        Step { action: Action::Exit, report: Some(Report::ReapFailed(failed)) }
    );
}

#[test]
fn interrupt_during_start_and_respawn() {
    let mut m = manager(&[1]);
    assert_eq!(m.start(false), step(Action::Fork(0)));
    assert_eq!(m.step(Event::Forked(Ok(5)), false), step(Action::Kill(5)));
    let mut m = started(&[1], 1);
    assert_eq!(
        m.step(exited(1, 0), false),
        step(Action::Fork(0))
    );
    assert_eq!(m.step(Event::Forked(Ok(2)), false), step(Action::Kill(2)));
    assert_eq!(shut_down(&mut m, step(Action::Kill(2))), (vec![2], 1));
}

#[test]
fn wait_results_are_classified() {
    let cleaner = WorkerCleaner;
    assert_eq!(
        cleaner.outcome(Ok(WaitStatus::Exited { pid: 4, code: 0 })),
        WaitOutcome::NormalExit(4)
    );
    assert_eq!(
        cleaner.outcome(Ok(WaitStatus::Exited { pid: 4, code: 3 })),
        WaitOutcome::NonZeroExit(4, 3)
    );
    assert_eq!(
        cleaner.outcome(Ok(WaitStatus::Exited { pid: 4, code: -1 })),
        WaitOutcome::NonZeroExit(4, -1)
    );
    assert_eq!(
        cleaner.outcome(Ok(WaitStatus::Signaled { pid: 4, signal: 15, core_dumped: true })),
        WaitOutcome::NonZeroExit(4, 143)
    );
    assert_eq!(
        cleaner.outcome(Ok(WaitStatus::Signaled { pid: 4, signal: i32::MAX, core_dumped: false })),
        WaitOutcome::NonZeroExit(4, i32::MAX)
    );
    for status in [
        WaitStatus::Stopped { pid: 4, signal: 19 },
        WaitStatus::Continued { pid: 4 },
        WaitStatus::StillAlive,
        WaitStatus::Traced { pid: 4 },
    ] {
        assert_eq!(cleaner.outcome(Ok(status)), WaitOutcome::NotExited(status));
    }
    for errno in [WaitErrno::NoChild, WaitErrno::Interrupted, WaitErrno::Other(5)] {
        assert_eq!(cleaner.outcome(Err(errno)), WaitOutcome::WaitFailed(errno));
    }
}

#[test]
fn start_progress_by_steps() {
    let generator = WorkerGenerator;
    assert_eq!(START_PASSES, 5);
    assert_eq!(generator.begin(0), None);
    let begun = generator.begin(2).unwrap();
    assert_eq!(begun, StartProgress { pass: 0, attempts: 2, remains: 2 });
    assert_eq!(
        generator.start_group_workers(begun, true),
        StartVerdict::Retry(StartProgress { pass: 0, attempts: 1, remains: 1 })
    );
    assert_eq!(
        generator.start_group_workers(StartProgress { pass: 0, attempts: 1, remains: 1 }, true),
        StartVerdict::Complete
    );
    assert_eq!(
        generator.start_group_workers(StartProgress { pass: 0, attempts: 1, remains: 2 }, false),
        StartVerdict::Retry(StartProgress { pass: 1, attempts: 2, remains: 2 })
    );
    assert_eq!(
        generator.start_group_workers(StartProgress { pass: 4, attempts: 1, remains: 2 }, true),
        StartVerdict::Failed
    );
    assert_eq!(
        generator.start_group_workers(StartProgress { pass: 4, attempts: 1, remains: 1 }, true),
        StartVerdict::Complete
    );
}

#[test]
fn child_runs_the_three_operations_in_order() {
    let worker = Rc::new(SleepWorker::new());
    let mut group = WorkerGroup::new(2, worker.clone());
    group.run_child();
    assert_eq!(*worker.calls.borrow(), vec!["init", "run", "cleanup"]);
    let other = Rc::new(SleepWorker::new());
    group.set_worker(other.clone());
    assert_eq!(group.count, 2);
    group.run_child();
    assert_eq!(other.calls.borrow().len(), 3);
    assert_eq!(worker.calls.borrow().len(), 3);
}

#[test]
fn run_takes_turns_that_are_all_there() {
    let mut m = started(&[3], 1);
    let killed = Event::Waited(Ok(WaitStatus::Signaled { pid: 2, signal: 9, core_dumped: false }));
    let answers = m.run(&vec![(killed, true), (Event::Forked(Ok(4)), false)]);
    assert_eq!(
        answers,
        vec![
            Step {
                action: Action::Fork(0),
                report: Some(Report::ChildFailed { pid: 2, code: 137, owned: true }),
            },
            step(Action::Kill(1)),
        ]
    );
    assert_eq!(m.children(0), Some(&vec![1, 3, 4]));
    assert_eq!(m.phase(), Phase::Stopping { group: 0, next: 0 });
    let answers = m.run(&vec![
        (Event::Killed(true), false),
        (Event::Killed(false), true),
        (Event::Killed(true), false),
        (exited(1, 0), false),
        (Event::Waited(Err(WaitErrno::NoChild)), false),
        (exited(4, 0), false),
    ]);
    let actions: Vec<Action> = answers.iter().map(|answer| answer.action).collect();
    assert_eq!(
        actions,
        vec![
            Action::Kill(3),
            Action::Kill(4),
            Action::Wait,
            Action::Wait,
            Action::Wait,
            Action::Exit,
        ]
    );
    assert_eq!(answers[1].report, Some(Report::KillFailed { pid: 3 }));
    assert_eq!(m.run(&Vec::new()), Vec::new());
    assert_eq!(m.run(&vec![(exited(1, 0), true)]), vec![step(Action::Exit)]);
    assert_eq!(m.phase(), Phase::Done);
}
