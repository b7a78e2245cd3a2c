//! Tasks and what they report when they have run.

use crate::facts::FactSet;
use vstd::prelude::*;

verus! {

/// What a task reports when its body returns.
#[derive(Debug)]
pub enum TaskResult {
    /// The task is done and asserts these facts, which may be none.
    Finished(FactSet),
    /// The task asks to be run again. The scheduler does not act on this: the
    /// task asserts nothing and is not kept.
    RunMeAgain,
}

impl TaskResult {
    /// The facts that this result asserts.
    pub open spec fn new_facts(self) -> Set<u64> {
        match self {
            TaskResult::Finished(facts) => facts@,
            TaskResult::RunMeAgain => Set::empty(),
        }
    }
}

/// The facts that at least one of `results` asserts.
pub open spec fn merged(results: Seq<TaskResult>) -> Set<u64> {
    Set::new(
        |f: u64| exists|i: int| 0 <= i < results.len() && (#[trigger] results[i]).new_facts().contains(f),
    )
}

/// Merging one more result adds the facts that it asserts.
pub proof fn lemma_merged_push(results: Seq<TaskResult>, last: TaskResult)
    ensures
        merged(results.push(last)) == merged(results).union(last.new_facts()),
{
    let longer = results.push(last);
    assert forall|f: u64| merged(longer).contains(f) <==> merged(results).union(
        last.new_facts(),
    ).contains(f) by {
        if merged(longer).contains(f) {
            let i = choose|i: int| 0 <= i < longer.len() && (#[trigger] longer[i]).new_facts().contains(f);
            if i < results.len() {
                assert(results[i].new_facts().contains(f));
            }
        }
        if merged(results).contains(f) {
            let i = choose|i: int| 0 <= i < results.len() && (#[trigger] results[i]).new_facts().contains(f);
            assert(longer[i].new_facts().contains(f));
        }
        if last.new_facts().contains(f) {
            assert(longer[results.len() as int].new_facts().contains(f));
        }
    }
}

/// A unit of work, bound to the facts that must hold before it may run.
pub struct Task<B> {
    /// The facts that the task waits for. With none, it may run at once.
    pub prerequisites: FactSet,
    /// The work itself. The scheduler hands it out and never looks inside.
    pub task: B,
}

impl<B> Task<B> {
    /// Whether the task may run when `facts` hold: every prerequisite is among
    /// them.
    pub open spec fn ready(self, facts: Set<u64>) -> bool {
        self.prerequisites@.subset_of(facts)
    }

    /// Whether the task may run when `facts` hold.
    pub fn is_ready(&self, facts: &FactSet) -> (ready: bool)
        ensures
            ready == self.ready(facts@),
    {
        facts.contains_all(&self.prerequisites)
    }
}

} // verus!
