use reactive_core::reconcile::{reconcile, EditOp, ReconcileError};

#[test]
fn swap_reports_exactly_one_move() {
    // Previous keys [1,2,3], next [1,3,2]: one longest increasing chain of
    // previous indices keeps two nodes in place, so exactly one node moves,
    // nothing is inserted or removed.
    let prev = vec![1u64, 2, 3];
    let next = vec![1u64, 3, 2];
    let ops = reconcile(&prev, &next).unwrap();
    assert_eq!(
        ops,
        vec![
            EditOp::Update { key: 1 },
            EditOp::Update { key: 3 },
            EditOp::Move { key: 2 },
        ]
    );
    let moves = ops.iter().filter(|o| matches!(o, EditOp::Move { .. })).count();
    let inserts = ops.iter().filter(|o| matches!(o, EditOp::Insert { .. })).count();
    let removes = ops.iter().filter(|o| matches!(o, EditOp::Remove { .. })).count();
    assert_eq!(moves, 1);
    assert_eq!(inserts, 0);
    assert_eq!(removes, 0);
}

#[test]
fn insert_and_remove_in_key_order() {
    // Previous [1,2], next [2,3]: key 1 is removed, key 2 updated in place,
    // key 3 inserted, in that key order in the output.
    let prev = vec![1u64, 2];
    let next = vec![2u64, 3];
    let ops = reconcile(&prev, &next).unwrap();
    assert_eq!(
        ops,
        vec![
            EditOp::Remove { key: 1 },
            EditOp::Update { key: 2 },
            EditOp::Insert { key: 3 },
        ]
    );
}

#[test]
fn duplicate_next_key_fails_fast() {
    let prev = vec![1u64, 2];
    let next = vec![3u64, 3];
    assert_eq!(reconcile(&prev, &next), Err(ReconcileError::DuplicateKey));
}

#[test]
fn empty_sequences_reconcile_to_nothing() {
    let prev: Vec<u64> = vec![];
    let next: Vec<u64> = vec![];
    assert_eq!(reconcile(&prev, &next), Ok(vec![]));
}

#[test]
fn all_new_keys_are_inserted_in_order() {
    let prev: Vec<u64> = vec![];
    let next = vec![4u64, 5];
    let ops = reconcile(&prev, &next).unwrap();
    assert_eq!(ops, vec![EditOp::Insert { key: 4 }, EditOp::Insert { key: 5 }]);
}

#[test]
fn all_gone_keys_are_removed_in_previous_order() {
    let prev = vec![4u64, 5];
    let next: Vec<u64> = vec![];
    let ops = reconcile(&prev, &next).unwrap();
    assert_eq!(ops, vec![EditOp::Remove { key: 4 }, EditOp::Remove { key: 5 }]);
}

#[test]
fn identical_sequences_update_in_place() {
    let prev = vec![7u64, 8, 9];
    let next = vec![7u64, 8, 9];
    let ops = reconcile(&prev, &next).unwrap();
    assert_eq!(
        ops,
        vec![
            EditOp::Update { key: 7 },
            EditOp::Update { key: 8 },
            EditOp::Update { key: 9 },
        ]
    );
}

#[test]
fn full_reversal_keeps_one_and_moves_the_rest() {
    let prev = vec![1u64, 2, 3];
    let next = vec![3u64, 2, 1];
    let ops = reconcile(&prev, &next).unwrap();
    let moves = ops.iter().filter(|o| matches!(o, EditOp::Move { .. })).count();
    let updates = ops.iter().filter(|o| matches!(o, EditOp::Update { .. })).count();
    assert_eq!(updates, 1);
    assert_eq!(moves, 2);
}

#[test]
fn remove_only_diff_moves_nothing() {
    // Removing one key leaves the survivors' relative order intact: one
    // removal, zero moves, zero inserts.
    let prev = vec![1u64, 2, 3];
    let next = vec![1u64, 3];
    let ops = reconcile(&prev, &next).unwrap();
    assert_eq!(
        ops,
        vec![
            EditOp::Remove { key: 2 },
            EditOp::Update { key: 1 },
            EditOp::Update { key: 3 },
        ]
    );
}
