use crab_antiagiota_performance::knn::{fraud_score_top5, is_approved, ReferenceEntry};

fn entry(value: i16, is_fraud: bool) -> ReferenceEntry {
    ReferenceEntry {
        vector: [value; 14],
        is_fraud,
    }
}

fn score(votes: usize) -> f32 {
    votes as f32 / 5.0
}

#[test]
fn returns_zero_when_no_nearest_neighbors_are_fraud() {
    let entries = [
        entry(0, false),
        entry(1, false),
        entry(2, false),
        entry(3, false),
        entry(4, false),
        entry(100, true),
    ];

    assert_eq!(score(fraud_score_top5(&[0; 14], &entries)), 0.0);
}

#[test]
fn returns_two_fifths_when_two_nearest_neighbors_are_fraud() {
    let entries = [
        entry(0, false),
        entry(1, true),
        entry(2, false),
        entry(3, true),
        entry(4, false),
        entry(100, true),
    ];

    assert_eq!(score(fraud_score_top5(&[0; 14], &entries)), 0.4);
}

#[test]
fn returns_three_fifths_at_rejection_threshold() {
    let votes = fraud_score_top5(
        &[0; 14],
        &[
            entry(0, true),
            entry(1, true),
            entry(2, false),
            entry(3, true),
            entry(4, false),
            entry(100, false),
        ],
    );
    let score = score(votes);

    assert_eq!(score, 0.6);
    assert!(!(score < 0.6));
    assert!(!is_approved(votes));
}

#[test]
fn returns_one_when_all_nearest_neighbors_are_fraud() {
    let entries = [
        entry(0, true),
        entry(1, true),
        entry(2, true),
        entry(3, true),
        entry(4, true),
        entry(100, false),
    ];

    assert_eq!(score(fraud_score_top5(&[0; 14], &entries)), 1.0);
}

#[test]
fn fewer_than_five_entries_all_vote() {
    let entries = [entry(7, true), entry(9, true)];
    assert_eq!(fraud_score_top5(&[0; 14], &entries), 2);
    assert_eq!(fraud_score_top5(&[0; 14], &[]), 0);
}

#[test]
fn equal_distances_go_to_the_earlier_entry() {
    // six entries at the same distance: the first five vote
    let entries = [
        entry(3, false),
        entry(3, false),
        entry(3, false),
        entry(3, false),
        entry(3, false),
        entry(3, true),
    ];
    assert_eq!(fraud_score_top5(&[0; 14], &entries), 0);
    let mut reversed = entries;
    reversed.reverse();
    assert_eq!(fraud_score_top5(&[0; 14], &reversed), 1);
}

#[test]
fn extreme_coordinates_do_not_overflow() {
    let entries = [entry(-32768, true), entry(32767, false)];
    assert_eq!(fraud_score_top5(&[32767; 14], &entries[..1]), 1);
    assert_eq!(fraud_score_top5(&[-32768; 14], &entries), 1);
}

#[test]
fn approval_threshold_is_three_votes() {
    assert!(is_approved(0));
    assert!(is_approved(2));
    assert!(!is_approved(3));
    assert!(!is_approved(5));
}
