use crab_antiagiota_performance::distance::squared_distance_i16;

#[test]
fn squared_distance_of_known_vectors() {
    let a = [1i16; 14];
    let b = [4i16; 14];
    assert_eq!(squared_distance_i16(&a, &b), 14 * 9);
    assert_eq!(squared_distance_i16(&a, &a), 0);
}

#[test]
fn squared_distance_at_the_extremes_needs_u64() {
    let a = [i16::MIN; 14];
    let b = [i16::MAX; 14];
    assert_eq!(squared_distance_i16(&a, &b), 14 * 65535u64 * 65535u64);
}
