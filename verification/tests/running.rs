use prereq_scheduler::{DeadlockError, FactSet, Scheduler, Task, TaskResult};
use std::cell::RefCell;
use std::rc::Rc;

const LOADED_A: u64 = 1;
const LOADED_B: u64 = 2;
const LOADED_C: u64 = 3;
const NEVER: u64 = 4;

type Body = Box<dyn FnMut() -> TaskResult>;
type Log = Rc<RefCell<Vec<&'static str>>>;

fn logging_task(log: &Log, name: &'static str, prerequisites: &[u64], produces: &'static [u64]) -> Task<Body> {
    let log = Rc::clone(log);
    Task {
        prerequisites: FactSet::from_slice(prerequisites),
        task: Box::new(move || {
            log.borrow_mut().push(name);
            TaskResult::Finished(FactSet::from_slice(produces))
        }),
    }
}

fn one_after_another(batch: Vec<Task<Body>>) -> Vec<TaskResult> {
    batch.into_iter().map(|mut t| (t.task)()).collect()
}

#[test]
fn start_without_tasks_returns_at_once() {
    let scheduler: Scheduler<Body> = Scheduler::new();
    let summary = scheduler.start(one_after_another).unwrap();
    assert_eq!(summary.rounds, 0);
    assert_eq!(summary.executed, 0);
    assert!(summary.facts.is_empty());
}

#[test]
fn start_runs_two_loaders_then_the_task_that_needs_both() {
    let log: Log = Rc::new(RefCell::new(Vec::new()));
    let sizes = RefCell::new(Vec::new());
    let mut scheduler = Scheduler::new();
    scheduler.add_task(logging_task(&log, "task1", &[], &[LOADED_A]));
    scheduler.add_task(logging_task(&log, "task2", &[], &[LOADED_B]));
    scheduler.add_task(logging_task(&log, "task3", &[LOADED_A, LOADED_B], &[]));
    let summary = scheduler
        .start(|batch: Vec<Task<Body>>| {
            sizes.borrow_mut().push(batch.len());
            one_after_another(batch)
        })
        .unwrap();
    assert_eq!(summary.rounds, 2);
    assert_eq!(summary.executed, 3);
    assert_eq!(summary.facts, FactSet::from_slice(&[LOADED_A, LOADED_B]));
    assert_eq!(*sizes.borrow(), vec![2, 1]);
    assert_eq!(*log.borrow(), vec!["task1", "task2", "task3"]);
}

#[test]
fn start_reports_a_deadlock_and_never_runs_the_task() {
    let log: Log = Rc::new(RefCell::new(Vec::new()));
    let mut scheduler = Scheduler::new();
    scheduler.add_task(logging_task(&log, "task a", &[NEVER], &[]));
    let outcome = scheduler.start(one_after_another);
    assert_eq!(outcome.err(), Some(DeadlockError { blocked: 1 }));
    assert!(log.borrow().is_empty());
}

#[test]
fn start_runs_what_it_can_before_a_deadlock() {
    let log: Log = Rc::new(RefCell::new(Vec::new()));
    let mut scheduler = Scheduler::new();
    scheduler.add_task(logging_task(&log, "stuck", &[LOADED_A, NEVER], &[]));
    scheduler.add_task(logging_task(&log, "loader", &[], &[LOADED_A]));
    scheduler.add_task(logging_task(&log, "reader", &[LOADED_A], &[]));
    let outcome = scheduler.start(one_after_another);
    assert_eq!(outcome.err(), Some(DeadlockError { blocked: 1 }));
    assert_eq!(*log.borrow(), vec!["loader", "reader"]);
}

#[test]
fn start_reports_a_cycle_as_a_deadlock() {
    let log: Log = Rc::new(RefCell::new(Vec::new()));
    let mut scheduler = Scheduler::new();
    scheduler.add_task(logging_task(&log, "needs b", &[LOADED_B], &[LOADED_A]));
    scheduler.add_task(logging_task(&log, "needs a", &[LOADED_A], &[LOADED_B]));
    let outcome = scheduler.start(one_after_another);
    assert_eq!(outcome.err(), Some(DeadlockError { blocked: 2 }));
    assert!(log.borrow().is_empty());
}

#[test]
fn start_hands_five_free_tasks_to_one_round() {
    let log: Log = Rc::new(RefCell::new(Vec::new()));
    let sizes = RefCell::new(Vec::new());
    let mut scheduler = Scheduler::new();
    for name in ["one", "two", "three", "four", "five"] {
        scheduler.add_task(logging_task(&log, name, &[], &[]));
    }
    let summary = scheduler
        .start(|batch: Vec<Task<Body>>| {
            sizes.borrow_mut().push(batch.len());
            one_after_another(batch)
        })
        .unwrap();
    assert_eq!(summary.rounds, 1);
    assert_eq!(summary.executed, 5);
    assert_eq!(*sizes.borrow(), vec![5]);
    let mut ran = log.borrow().clone();
    ran.sort();
    assert_eq!(ran, vec!["five", "four", "one", "three", "two"]);
}

#[test]
fn start_follows_a_chain_one_round_per_link() {
    let log: Log = Rc::new(RefCell::new(Vec::new()));
    let mut scheduler = Scheduler::new();
    scheduler.add_task(logging_task(&log, "third", &[LOADED_B], &[LOADED_C]));
    scheduler.add_task(logging_task(&log, "second", &[LOADED_A], &[LOADED_B]));
    scheduler.add_task(logging_task(&log, "first", &[], &[LOADED_A]));
    scheduler.add_task(logging_task(&log, "fourth", &[LOADED_A, LOADED_B, LOADED_C], &[]));
    let summary = scheduler.start(one_after_another).unwrap();
    assert_eq!(summary.rounds, 4);
    assert_eq!(summary.executed, 4);
    assert_eq!(summary.facts, FactSet::from_slice(&[LOADED_A, LOADED_B, LOADED_C]));
    assert_eq!(*log.borrow(), vec!["first", "second", "third", "fourth"]);
}

#[test]
fn start_runs_every_task_exactly_once() {
    let log: Log = Rc::new(RefCell::new(Vec::new()));
    let mut scheduler = Scheduler::new();
    scheduler.add_task(logging_task(&log, "d", &[LOADED_B, LOADED_C], &[]));
    scheduler.add_task(logging_task(&log, "a", &[], &[LOADED_A]));
    scheduler.add_task(logging_task(&log, "b", &[LOADED_A], &[LOADED_B]));
    scheduler.add_task(logging_task(&log, "c", &[LOADED_A], &[LOADED_C]));
    scheduler.add_task(logging_task(&log, "e", &[], &[]));
    let summary = scheduler.start(one_after_another).unwrap();
    assert_eq!(summary.rounds, 3);
    assert_eq!(summary.executed, 5);
    assert_eq!(*log.borrow(), vec!["a", "e", "b", "c", "d"]);
}

#[test]
fn start_does_not_run_a_task_before_its_fact_is_merged() {
    let log: Log = Rc::new(RefCell::new(Vec::new()));
    let batches: RefCell<Vec<Vec<bool>>> = RefCell::new(Vec::new());
    let mut scheduler = Scheduler::new();
    scheduler.add_task(logging_task(&log, "reader", &[LOADED_A], &[]));
    scheduler.add_task(logging_task(&log, "loader", &[], &[LOADED_A]));
    let summary = scheduler
        .start(|batch: Vec<Task<Body>>| {
            batches.borrow_mut().push(batch.iter().map(|t| t.prerequisites.is_empty()).collect());
            one_after_another(batch)
        })
        .unwrap();
    assert_eq!(summary.rounds, 2);
    assert_eq!(*batches.borrow(), vec![vec![true], vec![false]]);
    assert_eq!(*log.borrow(), vec!["loader", "reader"]);
}

#[test]
fn start_treats_run_me_again_as_no_fact() {
    let log: Log = Rc::new(RefCell::new(Vec::new()));
    let mut scheduler = Scheduler::new();
    let again: Body = Box::new(|| TaskResult::RunMeAgain);
    scheduler.add_task(Task { prerequisites: FactSet::new(), task: again });
    scheduler.add_task(logging_task(&log, "reader", &[LOADED_A], &[]));
    let outcome = scheduler.start(one_after_another);
    assert_eq!(outcome.err(), Some(DeadlockError { blocked: 1 }));
    assert!(log.borrow().is_empty());
}

#[test]
fn start_merges_a_fact_that_two_tasks_report() {
    let log: Log = Rc::new(RefCell::new(Vec::new()));
    let mut scheduler = Scheduler::new();
    scheduler.add_task(logging_task(&log, "x", &[], &[LOADED_A]));
    scheduler.add_task(logging_task(&log, "y", &[], &[LOADED_A, LOADED_B]));
    let summary = scheduler.start(one_after_another).unwrap();
    assert_eq!(summary.rounds, 1);
    assert_eq!(summary.facts, FactSet::from_slice(&[LOADED_A, LOADED_B]));
    assert_eq!(summary.facts.len(), 2);
}
