//! The fact set: the prerequisites that have been asserted so far.

use std::collections::HashSet;
use vstd::prelude::*;
use vstd::std_specs::iter::IteratorSpec;

verus! {

/// A prerequisite: an opaque token, equal to another exactly when the numbers
/// are equal.
pub type Prerequisite = u64;

/// A set of prerequisites, unique by value and unordered. Nothing is ever
/// removed from it.
#[derive(Debug)]
pub struct FactSet {
    items: HashSet<u64>,
}

impl View for FactSet {
    type V = Set<u64>;

    closed spec fn view(&self) -> Set<u64> {
        self.items@
    }
}

impl FactSet {
    /// The empty set.
    pub fn new() -> (set: FactSet)
        ensures
            set@ == Set::<u64>::empty(),
    {
        FactSet { items: HashSet::new() }
    }

    /// Whether `fact` is a member.
    pub fn contains(&self, fact: Prerequisite) -> (found: bool)
        ensures
            found == self@.contains(fact),
    {
        broadcast use vstd::std_specs::hash::group_hash_axioms;
        self.items.contains(&fact)
    }

    /// Adds `fact`; returns whether it was new.
    pub fn insert(&mut self, fact: Prerequisite) -> (added: bool)
        ensures
            final(self)@ == old(self)@.insert(fact),
            added == !old(self)@.contains(fact),
    {
        broadcast use vstd::std_specs::hash::group_hash_axioms;
        self.items.insert(fact)
    }

    /// Whether every member of `required` is a member of this set.
    pub fn contains_all(&self, required: &FactSet) -> (all: bool)
        ensures
            all == required@.subset_of(self@),
    {
        broadcast use vstd::std_specs::hash::group_hash_axioms;
        let ghost wanted: Seq<u64> = required.items.iter().remaining().unref();
        for fact in it: required.items.iter()
            invariant
                it.seq().unref() == wanted,
                wanted.to_set() == required@,
                forall|i: int| 0 <= i < it.index() ==> self@.contains(#[trigger] wanted[i]),
        {
            if !self.items.contains(fact) {
                assert(wanted[it.index()] == *fact);
                assert(wanted.to_set().contains(*fact));
                return false;
            }
        }
        assert forall|f: u64| required@.contains(f) implies self@.contains(f) by {
            let i = choose|i: int| 0 <= i < wanted.len() && wanted[i] == f;
            assert(self@.contains(wanted[i]));
        }
        true
    }

    /// The number of members.
    pub fn len(&self) -> (count: usize)
        ensures
            count == self@.len(),
    {
        broadcast use vstd::std_specs::hash::group_hash_axioms;
        self.items.len()
    }

    /// Whether the set has no member.
    pub fn is_empty(&self) -> (empty: bool)
        ensures
            empty == (self@ == Set::<u64>::empty()),
    {
        self.items.is_empty()
    }

    /// Adds every member of `new_facts`. A fact that is already present stays
    /// as it is, so merging the same facts again changes nothing.
    pub fn merge(&mut self, new_facts: &FactSet)
        ensures
            final(self)@ == old(self)@.union(new_facts@),
    {
        broadcast use vstd::std_specs::hash::group_hash_axioms;
        let ghost before: Set<u64> = self@;
        let ghost incoming: Seq<u64> = new_facts.items.iter().remaining().unref();
        for fact in it: new_facts.items.iter()
            invariant
                it.seq().unref() == incoming,
                incoming.to_set() == new_facts@,
                self@ == before.union(incoming.take(it.index()).to_set()),
        {
            proof {
                let i = it.index();
                assert(incoming[i] == *fact);
                assert(incoming.take(i + 1) == incoming.take(i).push(incoming[i]));
                incoming.take(i).lemma_push_to_set_commute(incoming[i]);
            }
            self.items.insert(*fact);
        }
        assert(incoming.take(incoming.len() as int) == incoming);
    }

    /// The set of the facts listed in `facts`; a fact listed twice is one member.
    pub fn from_slice(facts: &[Prerequisite]) -> (set: FactSet)
        ensures
            set@ == facts@.to_set(),
    {
        let mut set = FactSet::new();
        let mut i: usize = 0;
        while i < facts.len()
            invariant
                i <= facts.len(),
                set@ == facts@.take(i as int).to_set(),
            decreases facts.len() - i,
        {
            proof {
                assert(facts@.take(i + 1) == facts@.take(i as int).push(facts@[i as int]));
                facts@.take(i as int).lemma_push_to_set_commute(facts@[i as int]);
            }
            set.insert(facts[i]);
            i += 1;
        }
        assert(facts@.take(facts@.len() as int) == facts@);
        set
    }
}

impl PartialEq for FactSet {
    /// Two fact sets are equal when they have the same members.
    fn eq(&self, other: &FactSet) -> (same: bool) {
        assert((self@ == other@) == (self@.subset_of(other@) && other@.subset_of(self@))) by {
            if self@.subset_of(other@) && other@.subset_of(self@) {
                assert(self@ =~= other@);
            }
        }
        other.contains_all(self) && self.contains_all(other)
    }
}

impl vstd::std_specs::cmp::PartialEqSpecImpl for FactSet {
    open spec fn obeys_eq_spec() -> bool {
        true
    }

    open spec fn eq_spec(&self, other: &FactSet) -> bool {
        self@ == other@
    }
}

impl Eq for FactSet {

}

impl Clone for FactSet {
    fn clone(&self) -> (copy: FactSet)
        ensures
            copy@ == self@,
    {
        let mut copy = FactSet::new();
        copy.merge(self);
        copy
    }
}

/// Merging the same facts a second time leaves the set as the first merge made
/// it.
pub proof fn lemma_merge_idempotent(facts: Set<u64>, new_facts: Set<u64>)
    ensures
        facts.union(new_facts).union(new_facts) == facts.union(new_facts),
{
}

} // verus!
