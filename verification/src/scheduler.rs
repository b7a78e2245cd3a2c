//! The scheduler: registration, and the run that it starts.

use crate::facts::FactSet;
use crate::rounds::{
    blocked_tasks, facts_after, lemma_nothing_ready_keeps_pending, lemma_round_splits_pending,
    lemma_union_of_push, next_batch, pending_after, ready_tasks,
};
use crate::task::{lemma_merged_push, merged, Task, TaskResult};
use vstd::prelude::*;

verus! {

/// What a scheduler or a run holds, as the contracts see it.
pub struct RunState<B> {
    /// The tasks that have not been handed out, oldest first.
    pub pending: Seq<Task<B>>,
    /// The facts that hold.
    pub facts: Set<u64>,
}

/// Whether a run in this state can go no further though work is left: tasks
/// are pending and none of them is ready.
pub open spec fn deadlocked<B>(pending: Seq<Task<B>>, facts: Set<u64>) -> bool {
    pending.len() > 0 && ready_tasks(pending, facts).len() == 0
}

/// All the tasks, and the facts that have already been asserted. Tasks are
/// registered up front; starting the run consumes the scheduler.
pub struct Scheduler<B> {
    tasks: Vec<Task<B>>,
    prerequisites: FactSet,
}

impl<B> View for Scheduler<B> {
    type V = RunState<B>;

    closed spec fn view(&self) -> RunState<B> {
        RunState { pending: self.tasks@, facts: self.prerequisites@ }
    }
}

/// What the caller of [`Execution::advance`] is to do next.
pub enum Step<B> {
    /// Run these tasks, all of them, each on a worker of its own; when every
    /// one has returned, report their results with the next call.
    Dispatch(Vec<Task<B>>),
    /// Nothing is pending: the run is over.
    Done,
}

/// Tasks are pending and none can ever run: their prerequisites are not
/// among the facts, and no task is left running that could assert them.
#[derive(Debug, PartialEq, Eq)]
pub struct DeadlockError {
    /// How many tasks are left pending.
    pub blocked: usize,
}

/// How a run ended that left nothing pending.
#[derive(Debug)]
pub struct RunSummary {
    /// How many rounds were dispatched.
    pub rounds: usize,
    /// How many tasks were handed out; each of them once.
    pub executed: usize,
    /// The facts that hold at the end.
    pub facts: FactSet,
}

/// What each round of a run reported: for each call of the round runner, the
/// facts that the results it returned assert.
pub open spec fn reported<B>(calls: Seq<(Vec<Task<B>>, Vec<TaskResult>)>) -> Seq<Set<u64>> {
    Seq::new(calls.len(), |k: int| merged(calls[k].1@))
}

/// Whether `calls` are the rounds of a run from `state`, in order: each round
/// was handed the tasks that were ready after the rounds before it, at least
/// one, and its results are what `run_round` returned for them.
pub open spec fn run_follows<B, R: Fn(Vec<Task<B>>) -> Vec<TaskResult>>(
    state: RunState<B>,
    run_round: R,
    calls: Seq<(Vec<Task<B>>, Vec<TaskResult>)>,
) -> bool {
    forall|k: int|
        0 <= k < calls.len() ==> {
            &&& (#[trigger] calls[k]).0@ == next_batch(
                state.pending,
                state.facts,
                reported(calls).take(k),
            )
            &&& calls[k].0@.len() > 0
            &&& call_ensures(run_round, (calls[k].0,), calls[k].1)
        }
}

/// Whether a run from `state` whose rounds were `calls` ends there with
/// `outcome`: no task is ready any more; with nothing pending the run
/// succeeds, with the summary of its rounds, and otherwise it is deadlocked.
pub open spec fn run_ends<B>(
    state: RunState<B>,
    calls: Seq<(Vec<Task<B>>, Vec<TaskResult>)>,
    outcome: Result<RunSummary, DeadlockError>,
) -> bool {
    let gains = reported(calls);
    let left = pending_after(state.pending, state.facts, gains);
    &&& next_batch(state.pending, state.facts, gains).len() == 0
    &&& match outcome {
        Ok(summary) => {
            &&& left.len() == 0
            &&& summary.rounds == calls.len()
            &&& summary.executed == state.pending.len()
            &&& summary.facts@ == facts_after(state.facts, gains)
        },
        Err(e) => left.len() > 0 && e.blocked == left.len(),
    }
}

/// A run in progress. It has the tasks of the scheduler that began it, and no
/// way to register more.
pub struct Execution<B> {
    pending: Vec<Task<B>>,
    facts: FactSet,
}

impl<B> View for Execution<B> {
    type V = RunState<B>;

    closed spec fn view(&self) -> RunState<B> {
        RunState { pending: self.pending@, facts: self.facts@ }
    }
}

impl<B> Scheduler<B> {
    /// A scheduler with no task and no fact.
    pub fn new() -> (scheduler: Self)
        ensures
            scheduler@.pending == Seq::<Task<B>>::empty(),
            scheduler@.facts == Set::<u64>::empty(),
    {
        Scheduler { tasks: Vec::new(), prerequisites: FactSet::new() }
    }

    /// Registers `task` behind those registered before it.
    pub fn add_task(&mut self, task: Task<B>)
        ensures
            final(self)@.pending == old(self)@.pending.push(task),
            final(self)@.facts == old(self)@.facts,
    {
        self.tasks.push(task);
    }

    /// Runs every task and returns when none is pending. Each round hands
    /// `run_round` the tasks that are ready; it is to run them concurrently
    /// and return their results once all of them have returned. The facts of
    /// a round are merged before the next round is chosen. The scheduler is
    /// consumed. Where tasks are pending and none is ready, the run stops
    /// with a [`DeadlockError`].
    pub fn start<R: Fn(Vec<Task<B>>) -> Vec<TaskResult>>(self, run_round: R) -> (outcome: Result<
        RunSummary,
        DeadlockError,
    >)
        requires
            forall|batch: Vec<Task<B>>| call_requires(run_round, (batch,)),
        ensures
            exists|calls: Seq<(Vec<Task<B>>, Vec<TaskResult>)>|
                #[trigger] run_follows(self@, run_round, calls) && run_ends(self@, calls, outcome),
    {
        let ghost start = self@;
        let mut run = self.begin();
        let total: usize = run.pending_count();
        let mut results: Vec<TaskResult> = Vec::new();
        let mut rounds: usize = 0;
        let mut executed: usize = 0;
        let ghost mut calls: Seq<(Vec<Task<B>>, Vec<TaskResult>)> = Seq::empty();
        proof {
            assert(reported(calls) == Seq::<Set<u64>>::empty());
            assert(merged(results@) == Set::<u64>::empty());
            assert(facts_after(start.facts, reported(calls)) == start.facts);
        }
        loop
            invariant
                forall|batch: Vec<Task<B>>| call_requires(run_round, (batch,)),
                run_follows(start, run_round, calls),
                run@.pending == pending_after(start.pending, start.facts, reported(calls)),
                run@.facts.union(merged(results@)) == facts_after(start.facts, reported(calls)),
                rounds == calls.len(),
                rounds <= executed,
                executed + run@.pending.len() == total,
                total == start.pending.len(),
                start == self@,
            decreases run@.pending.len(),
        {
            let ghost gains = reported(calls);
            let ghost waiting = run@.pending;
            match run.advance(results) {
                Err(e) => {
                    assert(run_ends(start, calls, Err::<RunSummary, DeadlockError>(e)));
                    return Err(e);
                },
                Ok(Step::Done) => {
                    proof {
                        waiting.lemma_filter_len(|t: Task<B>| t.ready(run@.facts));
                    }
                    let Execution { pending, facts } = run;
                    let summary = RunSummary { rounds, executed, facts };
                    assert(run_ends(start, calls, Ok::<RunSummary, DeadlockError>(summary)));
                    return Ok(summary);
                },
                Ok(Step::Dispatch(batch)) => {
                    proof {
                        lemma_round_splits_pending(waiting, run@.facts);
                    }
                    rounds = rounds + 1;
                    executed = executed + batch.len();
                    let ghost handed = batch;
                    results = run_round(batch);
                    proof {
                        let longer = calls.push((handed, results));
                        let gain = merged(results@);
                        assert(reported(longer) == gains.push(gain));
                        assert(gains.push(gain).drop_last() == gains);
                        lemma_union_of_push(gains, gain);
                        assert forall|k: int| 0 <= k < longer.len() implies {
                            &&& (#[trigger] longer[k]).0@ == next_batch(
                                start.pending,
                                start.facts,
                                reported(longer).take(k),
                            )
                            &&& longer[k].0@.len() > 0
                            &&& call_ensures(run_round, (longer[k].0,), longer[k].1)
                        } by {
                            if k < calls.len() {
                                assert(longer[k] == calls[k]);
                                assert(reported(longer).take(k) == reported(calls).take(k));
                            } else {
                                assert(reported(longer).take(k) == gains);
                            }
                        }
                        calls = longer;
                    }
                },
            }
        }
    }

    /// Begins the run. The scheduler is consumed: no task can be registered
    /// once the run has begun.
    pub fn begin(self) -> (run: Execution<B>)
        ensures
            run@ == self@,
    {
        Execution { pending: self.tasks, facts: self.prerequisites }
    }
}

impl<B> Execution<B> {
    /// The facts that hold.
    pub fn facts(&self) -> (facts: &FactSet)
        ensures
            facts@ == self@.facts,
    {
        &self.facts
    }

    /// How many tasks are pending.
    pub fn pending_count(&self) -> (count: usize)
        ensures
            count == self@.pending.len(),
    {
        self.pending.len()
    }

    /// One step of the run. `results` are what the tasks of the round before
    /// reported, none before the first round. Their facts are merged first.
    /// Then every pending task whose prerequisites all hold is handed out, in
    /// the order of registration, and the others stay pending. With nothing
    /// pending the run is done; with tasks pending and none ready it is
    /// deadlocked, and stays as it is.
    pub fn advance(&mut self, results: Vec<TaskResult>) -> (step: Result<Step<B>, DeadlockError>)
        ensures
            final(self)@.facts == old(self)@.facts.union(merged(results@)),
            step is Err <==> deadlocked(old(self)@.pending, final(self)@.facts),
            (step matches Ok(Step::Done)) <==> old(self)@.pending.len() == 0,
            match step {
                Ok(Step::Done) => final(self)@.pending == old(self)@.pending,
                Ok(Step::Dispatch(batch)) => {
                    &&& batch@ == ready_tasks(old(self)@.pending, final(self)@.facts)
                    &&& final(self)@.pending == blocked_tasks(
                        old(self)@.pending,
                        final(self)@.facts,
                    )
                },
                Err(e) => {
                    &&& final(self)@.pending == old(self)@.pending
                    &&& e.blocked == old(self)@.pending.len()
                },
            },
    {
        let ghost before = self@;
        let mut i: usize = 0;
        while i < results.len()
            invariant
                i <= results.len(),
                self@.pending == before.pending,
                self@.facts == before.facts.union(merged(results@.take(i as int))),
            decreases results.len() - i,
        {
            proof {
                assert(results@.take(i + 1) == results@.take(i as int).push(results@[i as int]));
                lemma_merged_push(results@.take(i as int), results@[i as int]);
            }
            match &results[i] {
                TaskResult::Finished(new_facts) => {
                    self.facts.merge(new_facts);
                },
                TaskResult::RunMeAgain => {},
            }
            i += 1;
        }
        assert(results@.take(results@.len() as int) == results@);
        if self.pending.len() == 0 {
            return Ok(Step::Done);
        }
        let mut waiting: Vec<Task<B>> = Vec::new();
        core::mem::swap(&mut self.pending, &mut waiting);
        let ghost all = waiting@;
        let ghost now = self@.facts;
        let mut batch: Vec<Task<B>> = Vec::new();
        for task in it: waiting
            invariant
                it.seq() == all,
                self@.facts == now,
                batch@ == ready_tasks(all.take(it.index()), now),
                self@.pending == blocked_tasks(all.take(it.index()), now),
        {
            proof {
                let k = it.index();
                assert(all.take(k + 1) == all.take(k).push(all[k]));
                all.take(k).lemma_filter_push(all[k], |t: Task<B>| t.ready(now));
                all.take(k).lemma_filter_push(all[k], |t: Task<B>| !t.ready(now));
            }
            if task.is_ready(&self.facts) {
                batch.push(task);
            } else {
                self.pending.push(task);
            }
        }
        assert(all.take(all.len() as int) == all);
        if batch.len() == 0 {
            proof {
                lemma_nothing_ready_keeps_pending(all, now);
            }
            Err(DeadlockError { blocked: self.pending.len() })
        } else {
            Ok(Step::Dispatch(batch))
        }
    }
}

} // verus!
