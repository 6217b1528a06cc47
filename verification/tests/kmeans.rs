use crab_antiagiota_performance::float_order::f32_order_key;
use crab_antiagiota_performance::kmeans::nearest_centroid;

const DIM: usize = 14;

fn pt(v: i16) -> [i16; DIM] {
    [v; DIM]
}
fn ct(v: f32) -> [f32; DIM] {
    [v; DIM]
}

fn keys(point: &[i16; DIM], centroids: &[[f32; DIM]]) -> Vec<Option<u64>> {
    centroids
        .iter()
        .map(|c| {
            let mut sum = 0.0f32;
            for i in 0..DIM {
                let diff = point[i] as f32 - c[i];
                sum += diff * diff;
            }
            f32_order_key(sum.to_bits())
        })
        .collect()
}

#[test]
fn nearest_picks_closest() {
    let centroids = [ct(0.0), ct(10.0), ct(-5.0)];
    // point of 9s: closest to the centroid of 10s (index 1).
    assert_eq!(nearest_centroid(&keys(&pt(9), &centroids)), 1);
}

#[test]
fn nearest_breaks_ties_low() {
    // point 0 is equidistant from centroid +1 and centroid -1.
    let centroids = [ct(1.0), ct(-1.0)];
    assert_eq!(nearest_centroid(&keys(&pt(0), &centroids)), 0);
}

#[test]
fn nan_distances_never_win() {
    assert_eq!(nearest_centroid(&[Some(5), None, Some(3)]), 2);
    assert_eq!(nearest_centroid(&[None, Some(1), Some(0)]), 0);
    assert_eq!(nearest_centroid(&[Some(4)]), 0);
}
