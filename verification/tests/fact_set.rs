use prereq_scheduler::{FactSet, Task, TaskResult};

const LOADED_A: u64 = 1;
const LOADED_B: u64 = 2;
const LOADED_C: u64 = 3;

#[test]
fn new_fact_set_is_empty() {
    let facts = FactSet::new();
    assert!(facts.is_empty());
    assert_eq!(facts.len(), 0);
    assert!(!facts.contains(LOADED_A));
}

#[test]
fn insert_reports_whether_the_fact_was_new() {
    let mut facts = FactSet::new();
    assert!(facts.insert(LOADED_A));
    assert!(!facts.insert(LOADED_A));
    assert!(facts.insert(LOADED_B));
    assert_eq!(facts.len(), 2);
    assert!(facts.contains(LOADED_A));
    assert!(facts.contains(LOADED_B));
    assert!(!facts.contains(LOADED_C));
    assert!(!facts.is_empty());
}

#[test]
fn from_slice_counts_a_repeated_fact_once() {
    let facts = FactSet::from_slice(&[LOADED_B, LOADED_A, LOADED_B, LOADED_B]);
    assert_eq!(facts.len(), 2);
    assert!(facts.contains(LOADED_A));
    assert!(facts.contains(LOADED_B));
    assert!(!facts.contains(LOADED_C));
}

#[test]
fn from_empty_slice_is_the_empty_set() {
    let facts = FactSet::from_slice(&[]);
    assert!(facts.is_empty());
    assert_eq!(facts, FactSet::new());
}

#[test]
fn contains_all_of_nothing_is_true() {
    let none = FactSet::new();
    assert!(FactSet::new().contains_all(&none));
    assert!(FactSet::from_slice(&[LOADED_A]).contains_all(&none));
}

#[test]
fn contains_all_needs_every_required_fact() {
    let facts = FactSet::from_slice(&[LOADED_A, LOADED_B]);
    assert!(facts.contains_all(&FactSet::from_slice(&[LOADED_A])));
    assert!(facts.contains_all(&FactSet::from_slice(&[LOADED_B, LOADED_A])));
    assert!(!facts.contains_all(&FactSet::from_slice(&[LOADED_A, LOADED_C])));
    assert!(!facts.contains_all(&FactSet::from_slice(&[LOADED_C])));
    assert!(!FactSet::new().contains_all(&FactSet::from_slice(&[LOADED_A])));
}

#[test]
fn merge_adds_every_new_fact() {
    let mut facts = FactSet::from_slice(&[LOADED_A]);
    facts.merge(&FactSet::from_slice(&[LOADED_B, LOADED_C]));
    assert_eq!(facts.len(), 3);
    assert_eq!(facts, FactSet::from_slice(&[LOADED_A, LOADED_B, LOADED_C]));
}

#[test]
fn merge_of_the_same_fact_twice_changes_nothing() {
    let mut facts = FactSet::from_slice(&[LOADED_A]);
    let new_facts = FactSet::from_slice(&[LOADED_B]);
    facts.merge(&new_facts);
    let once = facts.clone();
    facts.merge(&new_facts);
    assert_eq!(facts, once);
    assert_eq!(facts.len(), 2);
}

#[test]
fn merge_of_a_present_fact_is_a_no_op() {
    let mut facts = FactSet::from_slice(&[LOADED_A, LOADED_B]);
    facts.merge(&FactSet::from_slice(&[LOADED_A]));
    assert_eq!(facts, FactSet::from_slice(&[LOADED_A, LOADED_B]));
}

#[test]
fn merge_of_nothing_is_a_no_op() {
    let mut facts = FactSet::from_slice(&[LOADED_A]);
    facts.merge(&FactSet::new());
    assert_eq!(facts, FactSet::from_slice(&[LOADED_A]));
}

#[test]
fn merge_leaves_the_merged_set_alone() {
    let mut facts = FactSet::new();
    let new_facts = FactSet::from_slice(&[LOADED_C]);
    facts.merge(&new_facts);
    assert_eq!(new_facts.len(), 1);
    assert!(new_facts.contains(LOADED_C));
}

#[test]
fn equality_is_by_members() {
    let left = FactSet::from_slice(&[LOADED_A, LOADED_B]);
    let right = FactSet::from_slice(&[LOADED_B, LOADED_A]);
    assert_eq!(left, right);
    assert_ne!(left, FactSet::from_slice(&[LOADED_A]));
    assert_ne!(FactSet::from_slice(&[LOADED_A]), left);
    assert_ne!(left, FactSet::from_slice(&[LOADED_A, LOADED_C]));
}

#[test]
fn clone_has_the_same_members_and_a_life_of_its_own() {
    let original = FactSet::from_slice(&[LOADED_A]);
    let mut copy = original.clone();
    assert_eq!(copy, original);
    copy.insert(LOADED_B);
    assert_eq!(original.len(), 1);
    assert_eq!(copy.len(), 2);
}

#[test]
fn task_without_prerequisites_is_ready_at_once() {
    let task = Task { prerequisites: FactSet::new(), task: () };
    assert!(task.is_ready(&FactSet::new()));
    assert!(task.is_ready(&FactSet::from_slice(&[LOADED_A])));
}

#[test]
fn task_is_ready_only_when_every_prerequisite_holds() {
    let task = Task { prerequisites: FactSet::from_slice(&[LOADED_A, LOADED_B]), task: () };
    assert!(!task.is_ready(&FactSet::new()));
    assert!(!task.is_ready(&FactSet::from_slice(&[LOADED_A])));
    assert!(!task.is_ready(&FactSet::from_slice(&[LOADED_B, LOADED_C])));
    assert!(task.is_ready(&FactSet::from_slice(&[LOADED_A, LOADED_B])));
    assert!(task.is_ready(&FactSet::from_slice(&[LOADED_C, LOADED_B, LOADED_A])));
}

#[test]
fn task_result_carries_its_facts() {
    let result = TaskResult::Finished(FactSet::from_slice(&[LOADED_A]));
    assert!(matches!(&result, TaskResult::Finished(facts) if facts.contains(LOADED_A) && facts.len() == 1));
    assert!(matches!(TaskResult::RunMeAgain, TaskResult::RunMeAgain));
}
