use collator_assignment::assignment::{assigned_collators, Assignment};
use collator_assignment::scheduler::assign_collators;
use std::collections::BTreeMap;

/// The per-epoch inputs, mirroring the configuration a runtime would hold.
struct MockData {
    collators_per_container: u32,
    min_orchestrator_chain_collators: u32,
    max_orchestrator_chain_collators: u32,
    collators: Vec<u64>,
    container_chains: Vec<u32>,
}

impl MockData {
    fn new() -> MockData {
        MockData {
            collators_per_container: 0,
            min_orchestrator_chain_collators: 0,
            max_orchestrator_chain_collators: 0,
            collators: vec![],
            container_chains: vec![],
        }
    }
}

/// Runs one epoch boundary: the scheduler recomputes the assignment.
fn run_epoch(m: &MockData, prev: &Assignment) -> Assignment {
    assign_collators(
        &m.collators,
        &m.container_chains,
        m.min_orchestrator_chain_collators,
        m.max_orchestrator_chain_collators,
        m.collators_per_container,
        prev,
    )
}

/// Flattens the assignment into a worker-to-partition map, with the
/// orchestrator partition reported as 999.
fn assigned_map(a: &Assignment) -> BTreeMap<u64, u32> {
    BTreeMap::from_iter(assigned_collators(a, 999))
}

#[test]
fn assign_initial_collators() {
    let mut m = MockData::new();
    m.collators_per_container = 2;
    m.min_orchestrator_chain_collators = 5;
    m.max_orchestrator_chain_collators = 5;
    m.collators = vec![1, 2, 3, 4, 5, 6, 7, 8, 9, 10];
    m.container_chains = vec![1001, 1002];

    let state = Assignment::new();
    assert_eq!(assigned_map(&state), BTreeMap::new());
    assert_eq!(assigned_map(&state), BTreeMap::new());
    let state = run_epoch(&m, &state);

    assert_eq!(
        assigned_map(&state),
        BTreeMap::from_iter(vec![
            (1, 999),
            (2, 999),
            (3, 999),
            (4, 999),
            (5, 999),
            (6, 1001),
            (7, 1001),
            (8, 1002),
            (9, 1002),
        ]),
    );
}

#[test]
fn assign_collators_after_one_leaves_container() {
    let mut m = MockData::new();
    m.collators_per_container = 2;
    m.min_orchestrator_chain_collators = 5;
    m.max_orchestrator_chain_collators = 5;
    m.collators = vec![1, 2, 3, 4, 5, 6, 7, 8, 9, 10];
    m.container_chains = vec![1001, 1002];

    let state = Assignment::new();
    assert_eq!(assigned_map(&state), BTreeMap::new());
    assert_eq!(assigned_map(&state), BTreeMap::new());
    let state = run_epoch(&m, &state);

    assert_eq!(
        assigned_map(&state),
        BTreeMap::from_iter(vec![
            (1, 999),
            (2, 999),
            (3, 999),
            (4, 999),
            (5, 999),
            (6, 1001),
            (7, 1001),
            (8, 1002),
            (9, 1002),
        ]),
    );

    // Remove 6
    m.collators = vec![1, 2, 3, 4, 5, /*6,*/ 7, 8, 9, 10];

    let state = run_epoch(&m, &state);
    let state = run_epoch(&m, &state);

    assert_eq!(
        assigned_map(&state),
        BTreeMap::from_iter(vec![
            (1, 999),
            (2, 999),
            (3, 999),
            (4, 999),
            (5, 999),
            //(6, 1001),
            (7, 1001),
            (8, 1002),
            (9, 1002),
            // 10 is assigned in place of 6
            (10, 1001),
        ]),
    );
}

#[test]
fn assign_collators_after_one_leaves_orchestrator_chain() {
    let mut m = MockData::new();
    m.collators_per_container = 2;
    m.min_orchestrator_chain_collators = 5;
    m.max_orchestrator_chain_collators = 5;
    m.collators = vec![1, 2, 3, 4, 5, 6, 7, 8, 9, 10];
    m.container_chains = vec![1001, 1002];

    let state = Assignment::new();
    assert_eq!(assigned_map(&state), BTreeMap::new());
    let state = run_epoch(&m, &state);

    assert_eq!(
        assigned_map(&state),
        BTreeMap::from_iter(vec![
            (1, 999),
            (2, 999),
            (3, 999),
            (4, 999),
            (5, 999),
            (6, 1001),
            (7, 1001),
            (8, 1002),
            (9, 1002),
        ]),
    );

    // Remove 4
    m.collators = vec![1, 2, 3, /*4,*/ 5, 6, 7, 8, 9, 10];
    let state = run_epoch(&m, &state);
    let state = run_epoch(&m, &state);

    assert_eq!(
        assigned_map(&state),
        BTreeMap::from_iter(vec![
            (1, 999),
            (2, 999),
            (3, 999),
            //(4, 999),
            (5, 999),
            (6, 1001),
            (7, 1001),
            (8, 1002),
            (9, 1002),
            // 10 is assigned in place of 4
            (10, 999),
        ]),
    );
}

#[test]
fn assign_collators_if_config_orchestrator_chain_collators_increases() {
    let mut m = MockData::new();
    m.collators_per_container = 2;
    m.min_orchestrator_chain_collators = 5;
    m.max_orchestrator_chain_collators = 5;
    m.collators = vec![1, 2, 3, 4, 5, 6, 7, 8, 9, 10, 11, 12, 13, 14, 15, 16];
    m.container_chains = vec![1001, 1002];

    let state = Assignment::new();
    assert_eq!(assigned_map(&state), BTreeMap::new());
    let state = run_epoch(&m, &state);

    assert_eq!(
        assigned_map(&state),
        BTreeMap::from_iter(vec![
            (1, 999),
            (2, 999),
            (3, 999),
            (4, 999),
            (5, 999),
            (6, 1001),
            (7, 1001),
            (8, 1002),
            (9, 1002),
        ]),
    );

    // Add 3 new collators to the orchestrator partition
    m.min_orchestrator_chain_collators = 8;
    m.max_orchestrator_chain_collators = 8;

    let state = run_epoch(&m, &state);
    let state = run_epoch(&m, &state);

    assert_eq!(
        assigned_map(&state),
        BTreeMap::from_iter(vec![
            (1, 999),
            (2, 999),
            (3, 999),
            (4, 999),
            (5, 999),
            (6, 1001),
            (7, 1001),
            (8, 1002),
            (9, 1002),
            (10, 999),
            (11, 999),
            (12, 999),
        ]),
    );
}

#[test]
fn assign_collators_if_config_orchestrator_chain_collators_decreases() {
    let mut m = MockData::new();
    m.collators_per_container = 2;
    m.min_orchestrator_chain_collators = 5;
    m.max_orchestrator_chain_collators = 5;
    m.collators = vec![1, 2, 3, 4, 5, 6, 7, 8, 9, 10, 11, 12, 13, 14, 15, 16];
    m.container_chains = vec![1001, 1002];

    let state = Assignment::new();
    assert_eq!(assigned_map(&state), BTreeMap::new());
    let state = run_epoch(&m, &state);

    assert_eq!(
        assigned_map(&state),
        BTreeMap::from_iter(vec![
            (1, 999),
            (2, 999),
            (3, 999),
            (4, 999),
            (5, 999),
            (6, 1001),
            (7, 1001),
            (8, 1002),
            (9, 1002),
        ]),
    );

    // Remove 3 collators from the orchestrator partition
    m.min_orchestrator_chain_collators = 2;
    m.max_orchestrator_chain_collators = 2;

    let state = run_epoch(&m, &state);
    let state = run_epoch(&m, &state);

    assert_eq!(assigned_map(&state).len(), 6);
}

#[test]
fn assign_collators_if_config_collators_per_container_increases() {
    let mut m = MockData::new();
    m.collators_per_container = 2;
    m.min_orchestrator_chain_collators = 5;
    m.max_orchestrator_chain_collators = 5;
    m.collators = vec![1, 2, 3, 4, 5, 6, 7, 8, 9, 10, 11, 12, 13, 14, 15, 16];
    m.container_chains = vec![1001, 1002];

    let state = Assignment::new();
    assert_eq!(assigned_map(&state), BTreeMap::new());
    let state = run_epoch(&m, &state);

    assert_eq!(
        assigned_map(&state),
        BTreeMap::from_iter(vec![
            (1, 999),
            (2, 999),
            (3, 999),
            (4, 999),
            (5, 999),
            (6, 1001),
            (7, 1001),
            (8, 1002),
            (9, 1002),
        ]),
    );

    // Add 2 new collators to each container partition
    m.collators_per_container = 4;

    let state = run_epoch(&m, &state);
    let state = run_epoch(&m, &state);

    assert_eq!(
        assigned_map(&state),
        BTreeMap::from_iter(vec![
            (1, 999),
            (2, 999),
            (3, 999),
            (4, 999),
            (5, 999),
            (6, 1001),
            (7, 1001),
            (8, 1002),
            (9, 1002),
            (10, 1001),
            (11, 1001),
            (12, 1002),
            (13, 1002),
        ]),
    );
}

#[test]
fn assign_collators_if_container_chain_is_removed() {
    let mut m = MockData::new();
    m.collators_per_container = 2;
    m.min_orchestrator_chain_collators = 5;
    m.max_orchestrator_chain_collators = 5;
    m.collators = vec![1, 2, 3, 4, 5, 6, 7, 8, 9, 10, 11, 12, 13, 14, 15, 16];
    m.container_chains = vec![1001, 1002];

    let state = Assignment::new();
    assert_eq!(assigned_map(&state), BTreeMap::new());
    let state = run_epoch(&m, &state);

    assert_eq!(
        assigned_map(&state),
        BTreeMap::from_iter(vec![
            (1, 999),
            (2, 999),
            (3, 999),
            (4, 999),
            (5, 999),
            (6, 1001),
            (7, 1001),
            (8, 1002),
            (9, 1002),
        ]),
    );

    // Remove 1 container partition
    m.container_chains = vec![1001 /*1002*/];

    let state = run_epoch(&m, &state);
    let state = run_epoch(&m, &state);

    assert_eq!(
        assigned_map(&state),
        BTreeMap::from_iter(vec![
            (1, 999),
            (2, 999),
            (3, 999),
            (4, 999),
            (5, 999),
            (6, 1001),
            (7, 1001),
        ]),
    );
}

#[test]
fn assign_collators_if_container_chain_is_added() {
    let mut m = MockData::new();
    m.collators_per_container = 2;
    m.min_orchestrator_chain_collators = 5;
    m.max_orchestrator_chain_collators = 5;
    m.collators = vec![1, 2, 3, 4, 5, 6, 7, 8, 9, 10, 11, 12, 13, 14, 15, 16];
    m.container_chains = vec![1001, 1002];

    let state = Assignment::new();
    assert_eq!(assigned_map(&state), BTreeMap::new());
    let state = run_epoch(&m, &state);

    assert_eq!(
        assigned_map(&state),
        BTreeMap::from_iter(vec![
            (1, 999),
            (2, 999),
            (3, 999),
            (4, 999),
            (5, 999),
            (6, 1001),
            (7, 1001),
            (8, 1002),
            (9, 1002),
        ]),
    );

    // Add 1 new container partition
    m.container_chains = vec![1001, 1002, 1003];

    let state = run_epoch(&m, &state);
    let state = run_epoch(&m, &state);

    assert_eq!(
        assigned_map(&state),
        BTreeMap::from_iter(vec![
            (1, 999),
            (2, 999),
            (3, 999),
            (4, 999),
            (5, 999),
            (6, 1001),
            (7, 1001),
            (8, 1002),
            (9, 1002),
            (10, 1003),
            (11, 1003),
        ]),
    );
}

#[test]
fn assign_collators_after_decrease_num_collators() {
    let mut m = MockData::new();
    m.collators_per_container = 2;
    m.min_orchestrator_chain_collators = 5;
    m.max_orchestrator_chain_collators = 5;
    m.collators = vec![1, 2, 3, 4, 5, 6, 7, 8, 9, 10, 11, 12, 13, 14, 15, 16];
    m.container_chains = vec![1001, 1002];

    let state = Assignment::new();
    assert_eq!(assigned_map(&state), BTreeMap::new());
    let state = run_epoch(&m, &state);

    assert_eq!(
        assigned_map(&state),
        BTreeMap::from_iter(vec![
            (1, 999),
            (2, 999),
            (3, 999),
            (4, 999),
            (5, 999),
            (6, 1001),
            (7, 1001),
            (8, 1002),
            (9, 1002),
        ]),
    );

    m.collators = vec![];

    let state = run_epoch(&m, &state);
    let state = run_epoch(&m, &state);
    assert_eq!(assigned_map(&state), BTreeMap::from_iter(vec![]));
}

#[test]
fn assign_collators_stay_constant_if_new_collators_can_take_new_chains() {
    let mut m = MockData::new();
    m.collators_per_container = 2;
    m.min_orchestrator_chain_collators = 2;
    m.max_orchestrator_chain_collators = 5;
    m.collators = vec![1, 2, 3, 4, 5, 6, 7, 8, 9, 10, 11, 12, 13, 14, 15, 16];
    m.container_chains = vec![];

    let state = Assignment::new();
    assert_eq!(assigned_map(&state), BTreeMap::new());
    let state = run_epoch(&m, &state);

    assert_eq!(
        assigned_map(&state),
        BTreeMap::from_iter(vec![(1, 999), (2, 999), (3, 999), (4, 999), (5, 999)]),
    );

    m.container_chains = vec![1001, 1002];
    let state = run_epoch(&m, &state);
    let state = run_epoch(&m, &state);

    assert_eq!(
        assigned_map(&state),
        BTreeMap::from_iter(vec![
            (1, 999),
            (2, 999),
            (3, 999),
            (4, 999),
            (5, 999),
            (6, 1001),
            (7, 1001),
            (8, 1002),
            (9, 1002),
        ]),
    );
}

#[test]
fn assign_collators_move_extra_container_chain_to_orchestrator_chain_if_not_enough_collators() {
    let mut m = MockData::new();
    m.collators_per_container = 2;
    m.min_orchestrator_chain_collators = 2;
    m.max_orchestrator_chain_collators = 5;
    m.collators = vec![1, 2, 3, 4];
    m.container_chains = vec![];

    let state = Assignment::new();
    assert_eq!(assigned_map(&state), BTreeMap::new());
    let state = run_epoch(&m, &state);

    assert_eq!(
        assigned_map(&state),
        BTreeMap::from_iter(vec![(1, 999), (2, 999), (3, 999), (4, 999)]),
    );

    m.collators = vec![1, 2, 3, 4, 5];
    m.container_chains = vec![1001, 1002];
    let state = run_epoch(&m, &state);
    let state = run_epoch(&m, &state);

    assert_eq!(
        assigned_map(&state),
        BTreeMap::from_iter(vec![(1, 999), (2, 999), (5, 1001), (3, 1001), (4, 999)]),
    );
}

#[test]
fn assign_collators_reorganize_container_chains_if_not_enough_collators() {
    let mut m = MockData::new();
    m.collators_per_container = 2;
    m.min_orchestrator_chain_collators = 2;
    m.max_orchestrator_chain_collators = 5;
    m.collators = vec![1, 2, 3, 4, 5, 6, 7, 8, 9, 10, 11, 12];
    m.container_chains = vec![1001, 1002, 1003, 1004, 1005];

    let state = Assignment::new();
    assert_eq!(assigned_map(&state), BTreeMap::new());
    let state = run_epoch(&m, &state);

    assert_eq!(
        assigned_map(&state),
        BTreeMap::from_iter(vec![
            (1, 999),
            (2, 999),
            (3, 1001),
            (4, 1001),
            (5, 1002),
            (6, 1002),
            (7, 1003),
            (8, 1003),
            (9, 1004),
            (10, 1004),
            (11, 1005),
            (12, 1005),
        ]),
    );

    // Remove collators to leave only 1 per container partition
    m.collators = vec![1, 2, 3, 5, 7, 9, 11];
    let state = run_epoch(&m, &state);
    let state = run_epoch(&m, &state);

    // There are 7 collators in total: 2x2 container partitions, plus 3 in
    // the orchestrator partition
    assert_eq!(
        assigned_map(&state),
        BTreeMap::from_iter(vec![
            (1, 999),
            (2, 999),
            (3, 1005),
            (5, 1004),
            (7, 999),
            (9, 1004),
            (11, 1005),
        ]),
    );
}
