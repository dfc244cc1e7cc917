use internet_map::ledger::{commit_plan, CommitStep, StoreModel};

fn single_row(reachable: bool) -> Vec<(u64, bool)> {
    vec![(0, reachable)]
}

#[test]
fn gap_detection_near_head() {
    // Completed blocks {0, 1, 3, 4} with block size 1: the head check
    // reports exactly {2}.
    let mut store = StoreModel::new();
    for b in [0u64, 1, 3, 4] {
        store.commit(b, &single_row(true));
    }
    assert_eq!(store.find_gaps_near_head(4), vec![2]);
    // A deeper inspection reports the same.
    assert_eq!(store.find_gaps_near_head(100), vec![2]);
    // A head of the two highest ids (4 and 3) sees no discontinuity.
    assert_eq!(store.find_gaps_near_head(2), Vec::<u64>::new());
    // A head of one id can show no pair, so no gap.
    assert_eq!(store.find_gaps_near_head(1), Vec::<u64>::new());
    assert_eq!(store.find_gaps_near_head(0), Vec::<u64>::new());
}

#[test]
fn gap_detection_on_empty_store() {
    let store = StoreModel::new();
    assert_eq!(store.find_gaps_near_head(8), Vec::<u64>::new());
    assert_eq!(store.highest_completed(), None);
}

#[test]
fn commit_is_idempotent() {
    // Committing the same block twice, with different result sets, leaves
    // exactly one result set — the latest — and exactly one marker.
    let mut store = StoreModel::new();
    store.commit(7, &vec![(0, true), (1, false)]);
    store.commit(7, &vec![(0, false), (1, true)]);
    assert_eq!(store.markers, vec![7]);
    assert_eq!(store.sets.len(), 1);
    assert_eq!(store.sets[0].0, 7);
    assert_eq!(store.sets[0].1, vec![(0, false), (1, true)]);
    assert!(store.is_complete(7));
}

#[test]
fn commit_plan_writes_marker_last() {
    let plan = commit_plan(9, &vec![(0, true), (1, false)]);
    assert_eq!(plan.len(), 5);
    assert!(matches!(plan[0], CommitStep::ClearMarker(9)));
    assert!(matches!(plan[1], CommitStep::ClearResults(9)));
    assert!(matches!(plan[2], CommitStep::PutRow(9, 0, true)));
    assert!(matches!(plan[3], CommitStep::PutRow(9, 1, false)));
    assert!(matches!(plan[4], CommitStep::PutMarker(9)));
}

#[test]
fn interrupted_commit_leaves_block_pending() {
    // A crash after every row is written but before the marker: the block
    // is observably pending, and a later full commit completes it.
    let mut store = StoreModel::new();
    store.commit(0, &single_row(true));
    store.commit(1, &single_row(false));

    let rows = vec![(0u64, true)];
    let plan = commit_plan(2, &rows);
    store.apply_prefix(&plan, plan.len() - 1);
    assert!(!store.is_complete(2));
    assert_eq!(store.highest_completed(), Some(1));

    // The next run re-scans the pending block and commits it whole.
    store.commit(2, &rows);
    assert!(store.is_complete(2));
    assert_eq!(store.highest_completed(), Some(2));
}

#[test]
fn interrupted_recommit_leaves_block_pending() {
    // A block already complete is re-committed and the re-commit crashes
    // mid-way: the stale marker is already gone, so the block is pending
    // rather than half-visible.
    let mut store = StoreModel::new();
    store.commit(3, &single_row(false));
    assert!(store.is_complete(3));

    let plan = commit_plan(3, &single_row(true));
    store.apply_prefix(&plan, 2);
    assert!(!store.is_complete(3));
}

#[test]
fn populate_progress_test() {
    let mut store = StoreModel::new();
    for b in 0..=100u64 {
        store.commit(b, &single_row(true));
    }
    assert_eq!(store.highest_completed(), Some(100));
    assert_eq!(store.markers.len(), 101);
    assert_eq!(store.find_gaps_near_head(101), Vec::<u64>::new());
}

#[test]
fn head_only_check_misses_deep_gaps() {
    // The head-only inspection is deliberately cheap: with {0, 2, 3, 4} and
    // a head of three, only {4, 3, 2} are inspected, so the gap at 1 —
    // below the inspected head — is not reported.
    let mut store = StoreModel::new();
    for b in [0u64, 2, 3, 4] {
        store.commit(b, &single_row(true));
    }
    assert_eq!(store.find_gaps_near_head(3), Vec::<u64>::new());
    // A deeper head sees it.
    assert_eq!(store.find_gaps_near_head(4), vec![1]);
}

#[test]
fn widest_gap_is_enumerated_whole() {
    let mut store = StoreModel::new();
    store.commit(10, &single_row(false));
    store.commit(15, &single_row(true));
    assert_eq!(store.find_gaps_near_head(2), vec![11, 12, 13, 14]);
}
