//! The rounds of a run, as mathematics.
//!
//! A run starts from the pending tasks and the facts that hold. Each round
//! dispatches every pending task that is ready and leaves the others pending;
//! when the round's tasks have returned, the facts they report are merged. The
//! functions here say what is pending, what holds and what is dispatched after
//! any number of rounds, given what each round reported.

use crate::task::Task;
use vstd::prelude::*;

verus! {

/// The tasks among `pending` that may run when `facts` hold, in their order.
pub open spec fn ready_tasks<B>(pending: Seq<Task<B>>, facts: Set<u64>) -> Seq<Task<B>> {
    pending.filter(|t: Task<B>| t.ready(facts))
}

/// The tasks among `pending` that must wait when `facts` hold, in their order.
pub open spec fn blocked_tasks<B>(pending: Seq<Task<B>>, facts: Set<u64>) -> Seq<Task<B>> {
    pending.filter(|t: Task<B>| !t.ready(facts))
}

/// The facts that are in at least one of `sets`.
pub open spec fn union_of(sets: Seq<Set<u64>>) -> Set<u64> {
    Set::new(|f: u64| exists|i: int| 0 <= i < sets.len() && (#[trigger] sets[i]).contains(f))
}

/// The facts that hold once the rounds that reported `gains` are merged:
/// `gains[k]` is what the tasks of round `k` reported together.
pub open spec fn facts_after(facts: Set<u64>, gains: Seq<Set<u64>>) -> Set<u64> {
    facts.union(union_of(gains))
}

/// The tasks still pending once one round for each entry of `gains` has been
/// dispatched.
pub open spec fn pending_after<B>(
    pending: Seq<Task<B>>,
    facts: Set<u64>,
    gains: Seq<Set<u64>>,
) -> Seq<Task<B>>
    decreases gains.len(),
{
    if gains.len() == 0 {
        pending
    } else {
        let earlier = gains.drop_last();
        blocked_tasks(pending_after(pending, facts, earlier), facts_after(facts, earlier))
    }
}

/// The tasks that the round after those that reported `gains` dispatches.
pub open spec fn next_batch<B>(
    pending: Seq<Task<B>>,
    facts: Set<u64>,
    gains: Seq<Set<u64>>,
) -> Seq<Task<B>> {
    ready_tasks(pending_after(pending, facts, gains), facts_after(facts, gains))
}

/// Every task dispatched by the rounds that reported `gains`, round by round.
pub open spec fn dispatched<B>(
    pending: Seq<Task<B>>,
    facts: Set<u64>,
    gains: Seq<Set<u64>>,
) -> Seq<Task<B>>
    decreases gains.len(),
{
    if gains.len() == 0 {
        Seq::empty()
    } else {
        let earlier = gains.drop_last();
        dispatched(pending, facts, earlier) + next_batch(pending, facts, earlier)
    }
}

/// The facts of one more round are added to those of the rounds before it.
pub proof fn lemma_union_of_push(sets: Seq<Set<u64>>, last: Set<u64>)
    ensures
        union_of(sets.push(last)) == union_of(sets).union(last),
{
    let longer = sets.push(last);
    assert forall|f: u64| union_of(longer).contains(f) <==> union_of(sets).union(last).contains(
        f,
    ) by {
        if union_of(longer).contains(f) {
            let i = choose|i: int| 0 <= i < longer.len() && (#[trigger] longer[i]).contains(f);
            if i < sets.len() {
                assert(sets[i].contains(f));
            }
        }
        if union_of(sets).contains(f) {
            let i = choose|i: int| 0 <= i < sets.len() && (#[trigger] sets[i]).contains(f);
            assert(longer[i].contains(f));
        }
        if last.contains(f) {
            assert(longer[sets.len() as int].contains(f));
        }
    }
}

/// A task is dispatched exactly when it is pending and ready.
pub proof fn lemma_ready_tasks_contains<B>(pending: Seq<Task<B>>, facts: Set<u64>, t: Task<B>)
    ensures
        ready_tasks(pending, facts).contains(t) <==> pending.contains(t) && t.ready(facts),
{
    let p = |t: Task<B>| t.ready(facts);
    if ready_tasks(pending, facts).contains(t) {
        pending.lemma_filter_contains_rev(p, t);
        let i = choose|i: int| 0 <= i < pending.filter(p).len() && pending.filter(p)[i] == t;
        pending.lemma_filter_pred(p, i);
    }
    if pending.contains(t) && t.ready(facts) {
        let i = choose|i: int| 0 <= i < pending.len() && pending[i] == t;
        pending.lemma_filter_contains(p, i);
    }
}

/// A task stays pending exactly when it is pending and not ready.
pub proof fn lemma_blocked_tasks_contains<B>(pending: Seq<Task<B>>, facts: Set<u64>, t: Task<B>)
    ensures
        blocked_tasks(pending, facts).contains(t) <==> pending.contains(t) && !t.ready(facts),
{
    let p = |t: Task<B>| !t.ready(facts);
    if blocked_tasks(pending, facts).contains(t) {
        pending.lemma_filter_contains_rev(p, t);
        let i = choose|i: int| 0 <= i < pending.filter(p).len() && pending.filter(p)[i] == t;
        pending.lemma_filter_pred(p, i);
    }
    if pending.contains(t) && !t.ready(facts) {
        let i = choose|i: int| 0 <= i < pending.len() && pending[i] == t;
        pending.lemma_filter_contains(p, i);
    }
}

/// A round splits the pending tasks: each is dispatched or stays pending, and
/// none is both, counted with its multiplicity.
pub proof fn lemma_round_splits_pending<B>(pending: Seq<Task<B>>, facts: Set<u64>)
    ensures
        ready_tasks(pending, facts).to_multiset().add(blocked_tasks(pending, facts).to_multiset())
            == pending.to_multiset(),
        ready_tasks(pending, facts).len() + blocked_tasks(pending, facts).len() == pending.len(),
    decreases pending.len(),
{
    broadcast use vstd::seq_lib::group_to_multiset_ensures;
    broadcast use vstd::multiset::group_multiset_axioms;
    let yes = |t: Task<B>| t.ready(facts);
    let no = |t: Task<B>| !t.ready(facts);
    if pending.len() == 0 {
        pending.lemma_filter_len(yes);
        pending.lemma_filter_len(no);
        assert(pending.filter(yes) == Seq::<Task<B>>::empty());
        assert(pending.filter(no) == Seq::<Task<B>>::empty());
        vstd::multiset::lemma_multiset_empty_len(pending.to_multiset());
    } else {
        let front = pending.drop_last();
        let last = pending.last();
        assert(pending == front.push(last));
        lemma_round_splits_pending(front, facts);
        front.lemma_filter_push(last, yes);
        front.lemma_filter_push(last, no);
        if last.ready(facts) {
            assert(front.filter(yes).push(last).to_multiset().add(front.filter(no).to_multiset())
                == front.to_multiset().insert(last));
        } else {
            assert(front.filter(yes).to_multiset().add(front.filter(no).push(last).to_multiset())
                == front.to_multiset().insert(last));
        }
    }
}

/// Where no pending task is ready, the round leaves the pending tasks as they
/// are.
pub proof fn lemma_nothing_ready_keeps_pending<B>(pending: Seq<Task<B>>, facts: Set<u64>)
    requires
        ready_tasks(pending, facts).len() == 0,
    ensures
        blocked_tasks(pending, facts) == pending,
    decreases pending.len(),
{
    let yes = |t: Task<B>| t.ready(facts);
    let no = |t: Task<B>| !t.ready(facts);
    if pending.len() == 0 {
        pending.lemma_filter_len(no);
    } else {
        let front = pending.drop_last();
        let last = pending.last();
        assert(pending == front.push(last));
        front.lemma_filter_push(last, yes);
        front.lemma_filter_push(last, no);
        lemma_nothing_ready_keeps_pending(front, facts);
    }
}

/// Nothing is lost and nothing runs twice: after any number of rounds, the
/// tasks dispatched so far and the tasks still pending are together the tasks
/// that the run began with, each as often as it was registered. So once
/// nothing is pending, every task has been dispatched exactly once.
pub proof fn lemma_each_task_dispatched_once<B>(
    pending: Seq<Task<B>>,
    facts: Set<u64>,
    gains: Seq<Set<u64>>,
)
    ensures
        dispatched(pending, facts, gains).to_multiset().add(
            pending_after(pending, facts, gains).to_multiset(),
        ) == pending.to_multiset(),
        dispatched(pending, facts, gains).len() + pending_after(pending, facts, gains).len()
            == pending.len(),
    decreases gains.len(),
{
    broadcast use vstd::multiset::group_multiset_axioms;
    if gains.len() == 0 {
        vstd::multiset::lemma_multiset_empty_len(Seq::<Task<B>>::empty().to_multiset());
        Seq::<Task<B>>::empty().to_multiset_ensures();
        assert(Seq::<Task<B>>::empty().to_multiset().add(pending.to_multiset())
            =~= pending.to_multiset());
    } else {
        let earlier = gains.drop_last();
        let done = dispatched(pending, facts, earlier);
        let waiting = pending_after(pending, facts, earlier);
        let known = facts_after(facts, earlier);
        lemma_each_task_dispatched_once(pending, facts, earlier);
        lemma_round_splits_pending(waiting, known);
        vstd::seq_lib::lemma_multiset_commutative(done, ready_tasks(waiting, known));
        assert((done + ready_tasks(waiting, known)).to_multiset().add(
            blocked_tasks(waiting, known).to_multiset(),
        ) =~= done.to_multiset().add(waiting.to_multiset()));
    }
}

/// A run ends: where each of the rounds dispatched at least one task, there
/// are at most as many rounds as there were tasks.
pub proof fn lemma_rounds_are_bounded<B>(
    pending: Seq<Task<B>>,
    facts: Set<u64>,
    gains: Seq<Set<u64>>,
)
    requires
        forall|k: int|
            0 <= k < gains.len() ==> (#[trigger] next_batch(pending, facts, gains.take(k))).len()
                > 0,
    ensures
        gains.len() + pending_after(pending, facts, gains).len() <= pending.len(),
    decreases gains.len(),
{
    if gains.len() > 0 {
        let earlier = gains.drop_last();
        assert forall|k: int| 0 <= k < earlier.len() implies (#[trigger] next_batch(
            pending,
            facts,
            earlier.take(k),
        )).len() > 0 by {
            assert(earlier.take(k) == gains.take(k));
        }
        lemma_rounds_are_bounded(pending, facts, earlier);
        assert(gains.take(earlier.len() as int) == earlier);
        assert(next_batch(pending, facts, gains.take(earlier.len() as int)).len() > 0);
        lemma_round_splits_pending(
            pending_after(pending, facts, earlier),
            facts_after(facts, earlier),
        );
    }
}

/// A fact, once it holds, holds in every later round.
pub proof fn lemma_facts_only_grow(facts: Set<u64>, gains: Seq<Set<u64>>, j: int, k: int)
    requires
        0 <= j <= k <= gains.len(),
    ensures
        facts.subset_of(facts_after(facts, gains.take(j))),
        facts_after(facts, gains.take(j)).subset_of(facts_after(facts, gains.take(k))),
{
    assert forall|f: u64| facts_after(facts, gains.take(j)).contains(f) implies facts_after(
        facts,
        gains.take(k),
    ).contains(f) by {
        if !facts.contains(f) {
            let i = choose|i: int| 0 <= i < gains.take(j).len() && (#[trigger] gains.take(j)[i]).contains(f);
            assert(gains.take(k)[i].contains(f));
        }
    }
}

/// No round dispatches a task before its prerequisites hold: each of them was
/// a fact at the start or was reported by an earlier round. Round `k` is the
/// one after the `k` rounds that reported `gains.take(k)`.
pub proof fn lemma_dispatched_only_when_ready<B>(
    pending: Seq<Task<B>>,
    facts: Set<u64>,
    gains: Seq<Set<u64>>,
    k: int,
    t: Task<B>,
)
    requires
        0 <= k <= gains.len(),
        next_batch(pending, facts, gains.take(k)).contains(t),
    ensures
        t.prerequisites@.subset_of(facts_after(facts, gains.take(k))),
        forall|f: u64| #[trigger]
            t.prerequisites@.contains(f) ==> facts.contains(f) || exists|j: int|
                0 <= j < k && (#[trigger] gains[j]).contains(f),
{
    let earlier = gains.take(k);
    lemma_ready_tasks_contains(pending_after(pending, facts, earlier), facts_after(facts, earlier), t);
    assert forall|f: u64| #[trigger] t.prerequisites@.contains(f) implies facts.contains(f)
        || exists|j: int| 0 <= j < k && (#[trigger] gains[j]).contains(f) by {
        assert(facts_after(facts, earlier).contains(f));
        if !facts.contains(f) {
            let j = choose|j: int| 0 <= j < earlier.len() && (#[trigger] earlier[j]).contains(f);
            assert(gains[j].contains(f));
        }
    }
}

/// A task whose prerequisites all hold at the start, and so a task without
/// prerequisites, is dispatched in the first round.
pub proof fn lemma_ready_at_start_runs_first<B>(pending: Seq<Task<B>>, facts: Set<u64>, i: int)
    requires
        0 <= i < pending.len(),
        pending[i].prerequisites@.subset_of(facts),
    ensures
        next_batch(pending, facts, Seq::empty()).contains(pending[i]),
        pending[i].prerequisites@ == Set::<u64>::empty() ==> pending[i].ready(facts),
{
    assert(facts_after(facts, Seq::empty()) == facts);
    lemma_ready_tasks_contains(pending, facts, pending[i]);
}

/// Whether the tasks can be laid out in levels: every prerequisite of a task
/// holds at the start or is among what a task of a lower level yields. Then
/// no task waits for itself, directly or through others, and none waits for a
/// fact that nothing yields.
pub open spec fn layered<B>(
    pending: Seq<Task<B>>,
    facts: Set<u64>,
    yields: spec_fn(Task<B>) -> Set<u64>,
    level: spec_fn(Task<B>) -> nat,
) -> bool {
    forall|t: Task<B>, f: u64|
        pending.contains(t) && #[trigger] t.prerequisites@.contains(f) ==> facts.contains(f)
            || exists|u: Task<B>|
            pending.contains(u) && level(u) < level(t) && #[trigger] yields(u).contains(f)
}

/// Whether each round reported at least what its tasks yield.
pub open spec fn reports_yields<B>(
    pending: Seq<Task<B>>,
    facts: Set<u64>,
    gains: Seq<Set<u64>>,
    yields: spec_fn(Task<B>) -> Set<u64>,
) -> bool {
    forall|k: int, t: Task<B>|
        0 <= k < gains.len() && #[trigger] next_batch(pending, facts, gains.take(k)).contains(t)
            ==> yields(t).subset_of(gains[k])
}

/// Among tasks, at least one, there is one of the lowest level.
proof fn lemma_lowest_level<B>(tasks: Seq<Task<B>>, level: spec_fn(Task<B>) -> nat) -> (lowest:
    Task<B>)
    requires
        tasks.len() > 0,
    ensures
        tasks.contains(lowest),
        forall|u: Task<B>| tasks.contains(u) ==> level(lowest) <= level(u),
    decreases tasks.len(),
{
    let last = tasks.last();
    if tasks.len() == 1 {
        assert forall|u: Task<B>| tasks.contains(u) implies level(last) <= level(u) by {
            let i = choose|i: int| 0 <= i < tasks.len() && tasks[i] == u;
        }
        last
    } else {
        let front = tasks.drop_last();
        let best = lemma_lowest_level(front, level);
        let i = choose|i: int| 0 <= i < front.len() && front[i] == best;
        assert(tasks[i] == best);
        let lowest = if level(last) < level(best) {
            last
        } else {
            best
        };
        assert forall|u: Task<B>| tasks.contains(u) implies level(lowest) <= level(u) by {
            let j = choose|j: int| 0 <= j < tasks.len() && tasks[j] == u;
            if j < front.len() {
                assert(front[j] == u);
                assert(front.contains(u));
            }
        }
        lowest
    }
}

/// Tasks that are laid out in levels stay so from round to round, over what
/// is still pending and the facts that hold by then.
proof fn lemma_layers_persist<B>(
    pending: Seq<Task<B>>,
    facts: Set<u64>,
    gains: Seq<Set<u64>>,
    yields: spec_fn(Task<B>) -> Set<u64>,
    level: spec_fn(Task<B>) -> nat,
)
    requires
        layered(pending, facts, yields, level),
        reports_yields(pending, facts, gains, yields),
    ensures
        layered(pending_after(pending, facts, gains), facts_after(facts, gains), yields, level),
    decreases gains.len(),
{
    if gains.len() == 0 {
        assert(facts_after(facts, gains) == facts);
    } else {
        let earlier = gains.drop_last();
        let waiting = pending_after(pending, facts, earlier);
        let known = facts_after(facts, earlier);
        let left = pending_after(pending, facts, gains);
        let now = facts_after(facts, gains);
        assert forall|k: int, t: Task<B>|
            0 <= k < earlier.len() && #[trigger] next_batch(
                pending,
                facts,
                earlier.take(k),
            ).contains(t) implies yields(t).subset_of(earlier[k]) by {
            assert(earlier.take(k) == gains.take(k));
        }
        lemma_layers_persist(pending, facts, earlier, yields, level);
        assert(gains == earlier.push(gains.last()));
        lemma_union_of_push(earlier, gains.last());
        assert(gains.take(earlier.len() as int) == earlier);
        assert forall|t: Task<B>, f: u64|
            left.contains(t) && #[trigger] t.prerequisites@.contains(f) implies now.contains(f)
            || exists|u: Task<B>|
            left.contains(u) && level(u) < level(t) && #[trigger] yields(u).contains(f) by {
            lemma_blocked_tasks_contains(waiting, known, t);
            if !known.contains(f) {
                let u = choose|u: Task<B>|
                    waiting.contains(u) && level(u) < level(t) && #[trigger] yields(u).contains(f);
                lemma_blocked_tasks_contains(waiting, known, u);
                lemma_ready_tasks_contains(waiting, known, u);
                if u.ready(known) {
                    assert(next_batch(pending, facts, gains.take(earlier.len() as int)).contains(u));
                    assert(yields(u).subset_of(gains[earlier.len() as int]));
                    assert(now.contains(f));
                } else {
                    assert(left.contains(u));
                }
            }
        }
    }
}

/// A run over tasks that are laid out in levels cannot deadlock: where each
/// round reports what its tasks yield, and the run has come to a stop because
/// no task is ready, nothing is pending. With
/// [`lemma_each_task_dispatched_once`] every task has then run exactly once.
pub proof fn lemma_layered_run_completes<B>(
    pending: Seq<Task<B>>,
    facts: Set<u64>,
    gains: Seq<Set<u64>>,
    yields: spec_fn(Task<B>) -> Set<u64>,
    level: spec_fn(Task<B>) -> nat,
)
    requires
        layered(pending, facts, yields, level),
        reports_yields(pending, facts, gains, yields),
        next_batch(pending, facts, gains).len() == 0,
    ensures
        pending_after(pending, facts, gains).len() == 0,
{
    let left = pending_after(pending, facts, gains);
    let now = facts_after(facts, gains);
    lemma_layers_persist(pending, facts, gains, yields, level);
    if left.len() > 0 {
        let lowest = lemma_lowest_level(left, level);
        assert forall|f: u64| lowest.prerequisites@.contains(f) implies now.contains(f) by {
            if !now.contains(f) {
                let u = choose|u: Task<B>|
                    left.contains(u) && level(u) < level(lowest) && #[trigger] yields(u).contains(f);
                assert(false);
            }
        }
        lemma_ready_tasks_contains(left, now, lowest);
        assert(false);
    }
}

} // verus!
