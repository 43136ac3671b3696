use collator_assignment::assignment::{assigned_collators, is_degraded, Assignment};
use collator_assignment::scheduler::assign_collators;
use std::collections::BTreeMap;
use std::collections::BTreeSet;

fn assigned_map(a: &Assignment) -> BTreeMap<u64, u32> {
    BTreeMap::from_iter(assigned_collators(a, 999))
}

#[test]
fn capacity_every_container_exactly_full() {
    // Exact fit: 12 workers, orchestrator [2,5], 5 containers of 2.
    let state = Assignment::new();
    let state = assign_collators(
        &vec![1, 2, 3, 4, 5, 6, 7, 8, 9, 10, 11, 12],
        &vec![1001, 1002, 1003, 1004, 1005],
        2,
        5,
        2,
        &state,
    );
    assert_eq!(state.container_chains.len(), 5);
    for (_, members) in state.container_chains.iter() {
        assert_eq!(members.len(), 2);
    }
    assert!(state.orchestrator_chain.len() >= 2);
    assert!(state.orchestrator_chain.len() <= 5);
}

#[test]
fn no_double_assignment() {
    // A busy reshuffle: every worker appears in at most one partition.
    let state = Assignment::new();
    let state = assign_collators(
        &vec![1, 2, 3, 4, 5, 6, 7, 8, 9, 10, 11, 12],
        &vec![1001, 1002, 1003, 1004, 1005],
        2,
        5,
        2,
        &state,
    );
    let state = assign_collators(
        &vec![1, 2, 3, 5, 7, 9, 11],
        &vec![1001, 1002, 1003, 1004, 1005],
        2,
        5,
        2,
        &state,
    );
    let pairs = assigned_collators(&state, 999);
    let workers: BTreeSet<u64> = pairs.iter().map(|p| p.0).collect();
    assert_eq!(workers.len(), pairs.len());
}

#[test]
fn idempotence_rerun_unchanged() {
    // Re-running with identical inputs and the previous output keeps the
    // assignment unchanged.
    let collators = vec![1, 2, 3, 4, 5, 6, 7, 8, 9, 10];
    let ids = vec![1001, 1002];
    let state = Assignment::new();
    let state = assign_collators(&collators, &ids, 5, 5, 2, &state);
    let again = assign_collators(&collators, &ids, 5, 5, 2, &state);
    assert_eq!(assigned_map(&again), assigned_map(&state));
    let third = assign_collators(&collators, &ids, 5, 5, 2, &again);
    assert_eq!(assigned_map(&third), assigned_map(&state));
}

#[test]
fn monotonic_admission_drops_highest_ids() {
    // From a fresh start with too few workers, the partitions that survive
    // are the lowest ids: 7 workers cover the minimum of 2 plus two
    // containers of 2.
    let state = Assignment::new();
    let state = assign_collators(
        &vec![1, 2, 3, 4, 5, 6, 7],
        &vec![1001, 1002, 1003, 1004, 1005],
        2,
        5,
        2,
        &state,
    );
    let ids: Vec<u32> = state.container_chains.iter().map(|c| c.0).collect();
    assert_eq!(ids, vec![1001, 1002]);
    assert_eq!(
        assigned_map(&state),
        BTreeMap::from_iter(vec![
            (1, 999),
            (2, 999),
            (3, 1001),
            (4, 1001),
            (5, 1002),
            (6, 1002),
            (7, 999),
        ]),
    );
}

#[test]
fn replacement_locality_single_swap() {
    // One worker leaves, one becomes eligible: only the vacated slot
    // changes hands.
    let ids = vec![1001, 1002];
    let state = Assignment::new();
    let state = assign_collators(&vec![1, 2, 3, 4, 5, 6, 7, 8, 9], &ids, 5, 5, 2, &state);
    let before = assigned_map(&state);
    // Worker 6 leaves, worker 20 arrives.
    let state = assign_collators(&vec![1, 2, 3, 4, 5, 7, 8, 9, 20], &ids, 5, 5, 2, &state);
    let after = assigned_map(&state);
    assert_eq!(after.get(&20), before.get(&6));
    let mut expected = before.clone();
    let slot = expected.remove(&6).unwrap();
    expected.insert(20, slot);
    assert_eq!(after, expected);
}

#[test]
fn degraded_mode_below_minimum() {
    // Too few workers even for the orchestrator minimum: everyone serves
    // it, no container partition is admitted, and the state is observable.
    let state = Assignment::new();
    let state = assign_collators(&vec![1, 2, 3], &vec![1001, 1002], 5, 9, 2, &state);
    assert_eq!(
        assigned_map(&state),
        BTreeMap::from_iter(vec![(1, 999), (2, 999), (3, 999)]),
    );
    assert_eq!(state.container_chains.len(), 0);
    assert!(is_degraded(&state, 5));
    assert!(!is_degraded(&state, 3));
}

#[test]
fn zero_target_size_admits_empty_containers() {
    // A zero per-container target admits every partition with no members.
    let state = Assignment::new();
    let state = assign_collators(&vec![1, 2, 3], &vec![1001, 1002], 1, 2, 0, &state);
    assert_eq!(state.container_chains.len(), 2);
    for (_, members) in state.container_chains.iter() {
        assert_eq!(members.len(), 0);
    }
    assert_eq!(
        assigned_map(&state),
        BTreeMap::from_iter(vec![(1, 999), (2, 999)]),
    );
}

#[test]
fn surplus_workers_stay_unassigned() {
    // Supply beyond the orchestrator maximum and all container demand is
    // left unassigned.
    let state = Assignment::new();
    let state = assign_collators(
        &vec![1, 2, 3, 4, 5, 6, 7, 8, 9, 10, 11, 12, 13, 14, 15, 16],
        &vec![],
        2,
        5,
        2,
        &state,
    );
    assert_eq!(assigned_map(&state).len(), 5);
    assert!(!is_degraded(&state, 2));
}

#[test]
fn assigned_collators_uses_given_label() {
    let state = Assignment::new();
    let state = assign_collators(&vec![7, 8], &vec![], 1, 2, 0, &state);
    let pairs = assigned_collators(&state, 42);
    assert_eq!(pairs, vec![(7, 42), (8, 42)]);
}

#[test]
fn empty_inputs_give_empty_assignment() {
    let state = Assignment::new();
    let state = assign_collators(&vec![], &vec![], 0, 0, 0, &state);
    assert_eq!(assigned_map(&state), BTreeMap::new());
    let pairs = assigned_collators(&state, 999);
    assert!(pairs.is_empty());
}

#[test]
fn extreme_bounds_are_handled() {
    // A huge orchestrator maximum absorbs every worker; a huge container
    // target admits no container partition at all.
    let state = Assignment::new();
    let state = assign_collators(&vec![1, 2, 3], &vec![], 0, 4294967295, 0, &state);
    assert_eq!(
        assigned_map(&state),
        BTreeMap::from_iter(vec![(1, 999), (2, 999), (3, 999)]),
    );
    let state = assign_collators(&vec![1, 2, 3, 4, 5], &vec![1001], 0, 2, 4294967295, &state);
    assert_eq!(state.container_chains.len(), 0);
    assert_eq!(assigned_map(&state).len(), 2);
}
