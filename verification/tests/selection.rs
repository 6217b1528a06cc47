use crab_antiagiota_performance::selection::{candidate_precedes, NearestK};

#[test]
fn nearest_k_keeps_smallest_in_order() {
    let mut best = NearestK::new(3);
    for (i, key) in [9u64, 4, 7, 4, 1, 8].iter().enumerate() {
        best.offer(*key, i);
    }
    assert_eq!(best.selected(), vec![(1, 4), (4, 1), (4, 3)]);
}

#[test]
fn nearest_k_with_room_keeps_everything() {
    let mut best = NearestK::new(10);
    best.offer(5, 20);
    best.offer(2, 30);
    best.offer(5, 10);
    assert_eq!(best.selected(), vec![(2, 30), (5, 10), (5, 20)]);
    let empty = NearestK::new(0);
    assert!(empty.selected().is_empty());
}

#[test]
fn precedence_is_key_then_identifier() {
    assert!(candidate_precedes((1, 9), (2, 0)));
    assert!(candidate_precedes((2, 0), (2, 1)));
    assert!(!candidate_precedes((2, 1), (2, 1)));
    assert!(!candidate_precedes((3, 0), (2, 5)));
}

#[test]
fn selection_does_not_depend_on_offer_order() {
    let candidates = [(9u64, 0usize), (4, 1), (7, 2), (4, 3), (1, 4), (8, 5)];
    let mut forward = NearestK::new(4);
    for &(key, id) in candidates.iter() {
        forward.offer(key, id);
    }
    let mut backward = NearestK::new(4);
    for &(key, id) in candidates.iter().rev() {
        backward.offer(key, id);
    }
    assert_eq!(forward.selected(), backward.selected());
    assert_eq!(forward.selected(), vec![(1, 4), (4, 1), (4, 3), (7, 2)]);
}
