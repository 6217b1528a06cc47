use crab_antiagiota_performance::eval::{brute_top5, evaluate_counts, ivf_top5};
use crab_antiagiota_performance::float_order::f32_order_key;
use crab_antiagiota_performance::ivf::IvfIndex;
use crab_antiagiota_performance::knn::ReferenceEntry;

fn entry(v: i16, is_fraud: bool) -> ReferenceEntry {
    ReferenceEntry { vector: [v; 14], is_fraud }
}

// distinct vector values -> distinct distances; three cells of four entries.
fn index() -> IvfIndex {
    let entries: Vec<ReferenceEntry> = (0..12).map(|i| entry((i * 3) as i16, i % 2 == 0)).collect();
    let assignments: Vec<u16> = (0..12).map(|i| (i / 4) as u16).collect();
    let centroids = vec![[4.5f32.to_bits(); 14], [16.5f32.to_bits(); 14], [28.5f32.to_bits(); 14]];
    IvfIndex::from_assignments(centroids, &entries, &assignments)
}

fn keys(index: &IvfIndex, query: &[i16; 14]) -> Vec<u64> {
    index
        .centroids
        .iter()
        .map(|c| {
            let mut sum = 0.0f32;
            for i in 0..14 {
                let diff = query[i] as f32 - f32::from_bits(c[i]);
                sum += diff * diff;
            }
            f32_order_key(sum.to_bits()).unwrap()
        })
        .collect()
}

#[test]
fn full_probe_is_perfect_recall() {
    let idx = index();
    let queries = [[0; 14], [15; 14], [33; 14]];
    let all_keys: Vec<Vec<u64>> = queries.iter().map(|q| keys(&idx, q)).collect();
    let counts = evaluate_counts(&idx, &queries, &all_keys, idx.nlist());
    assert_eq!(counts.overlaps, vec![5, 5, 5]);
    assert_eq!(counts.decisions_agreeing, 3);
    assert_eq!(counts.candidates, 36);
}

#[test]
fn fewer_probes_scan_fewer_candidates() {
    let idx = index();
    let queries = [[0; 14], [15; 14], [33; 14]];
    let all_keys: Vec<Vec<u64>> = queries.iter().map(|q| keys(&idx, q)).collect();
    let one = evaluate_counts(&idx, &queries, &all_keys, 1);
    let all = evaluate_counts(&idx, &queries, &all_keys, idx.nlist());
    assert!(one.candidates <= all.candidates);
    assert_eq!(one.candidates, 12);
    let one_recall: usize = one.overlaps.iter().sum();
    let all_recall: usize = all.overlaps.iter().sum();
    assert!(one_recall <= all_recall);
}

#[test]
fn brute_and_probe_top5_positions() {
    let idx = index();
    let q = [15; 14];
    assert_eq!(brute_top5(&idx, &q), vec![5, 4, 6, 3, 7]);
    let k = keys(&idx, &q);
    assert_eq!(ivf_top5(&idx, &q, &k, 1), vec![5, 4, 6, 7]);
    assert_eq!(ivf_top5(&idx, &q, &k, 3), vec![5, 4, 6, 3, 7]);
}

#[test]
fn totals_grow_with_nprobe() {
    let idx = index();
    let queries = [[0; 14], [15; 14], [33; 14], [20; 14]];
    let all_keys: Vec<Vec<u64>> = queries.iter().map(|q| keys(&idx, q)).collect();
    let mut last_candidates = 0;
    let mut last_found = 0;
    for nprobe in 0..5 {
        let counts = evaluate_counts(&idx, &queries, &all_keys, nprobe);
        let found: usize = counts.overlaps.iter().sum();
        assert!(counts.candidates >= last_candidates);
        assert!(found >= last_found);
        last_candidates = counts.candidates;
        last_found = found;
    }
    assert_eq!(last_candidates, 48);
    assert_eq!(last_found, 20);
}

#[test]
fn brute_and_full_probe_agree_whatever_the_scan_order() {
    let idx = index();
    let q = [20; 14];
    let k = keys(&idx, &q);
    // the full probe visits the cells nearest first, not in position order
    assert_eq!(idx.nearest_cells(&k, 3), vec![1, 2, 0]);
    assert_eq!(ivf_top5(&idx, &q, &k, 3), brute_top5(&idx, &q));
}
