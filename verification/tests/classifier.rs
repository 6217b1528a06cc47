use crab_antiagiota_performance::classifier::{score_from_neighbor_indices, NeighborSearch};
use crab_antiagiota_performance::dataset::{LABEL_FRAUD, LABEL_LEGIT};

#[test]
fn rejects_score_at_threshold() {
    let analysis = score_from_neighbor_indices(
        &[LABEL_FRAUD, LABEL_FRAUD, LABEL_FRAUD, LABEL_LEGIT, LABEL_LEGIT],
        [0, 1, 2, 3, 4],
    );

    assert_eq!(analysis.fraud_votes as f32 / 5.0, 0.6);
    assert!(!analysis.approved);
}

#[test]
fn approves_below_threshold() {
    let analysis = score_from_neighbor_indices(
        &[LABEL_FRAUD, LABEL_FRAUD, LABEL_LEGIT, LABEL_LEGIT, LABEL_LEGIT],
        [0, 1, 2, 3, 4],
    );

    assert_eq!(analysis.fraud_votes as f32 / 5.0, 0.4);
    assert!(analysis.approved);
}

#[test]
fn neighbor_search_keeps_the_five_nearest() {
    let mut search = NeighborSearch::new();
    let keys = [Some(50u64), Some(10), None, Some(30), Some(10), Some(70), Some(20), Some(5)];
    for (i, k) in keys.iter().enumerate() {
        search.offer(*k, i);
    }
    assert_eq!(search.neighbor_indices(), [7, 1, 4, 6, 3]);
}

#[test]
fn neighbor_search_pads_when_short() {
    let mut search = NeighborSearch::new();
    search.offer(Some(3), 0);
    search.offer(None, 1);
    search.offer(Some(1), 2);
    assert_eq!(search.neighbor_indices(), [2, 0, usize::MAX, usize::MAX, usize::MAX]);
}

#[test]
fn score_reports_neighbors_and_votes() {
    let labels = [LABEL_LEGIT, LABEL_FRAUD, LABEL_LEGIT, LABEL_FRAUD, LABEL_FRAUD, LABEL_FRAUD];
    let analysis = score_from_neighbor_indices(&labels, [5, 4, 3, 1, 0]);
    assert_eq!(analysis.fraud_votes, 4);
    assert!(!analysis.approved);
    assert_eq!(analysis.neighbor_indices, [5, 4, 3, 1, 0]);
}
