use crab_antiagiota_performance::float_order::f32_order_key;
use crab_antiagiota_performance::ivf::{group_by_cluster, training_sample, IvfIndex};
use crab_antiagiota_performance::ivf_format::IndexFormatError;
use crab_antiagiota_performance::knn::{fraud_score_top5, ReferenceEntry};

const DIM: usize = 14;

fn entry(vector_val: i16, is_fraud: bool) -> ReferenceEntry {
    ReferenceEntry {
        vector: [vector_val; DIM],
        is_fraud,
    }
}

// assignments [1,0,1,2,0] over 3 cells: counts = [2,2,1], offsets = [0,2,4,5].
fn fixture() -> (Vec<ReferenceEntry>, Vec<u16>) {
    let entries = vec![
        entry(10, false), // -> cell 1
        entry(20, true),  // -> cell 0
        entry(30, false), // -> cell 1
        entry(40, true),  // -> cell 2
        entry(50, false), // -> cell 0
    ];
    let assignments = vec![1u16, 0, 1, 2, 0];
    (entries, assignments)
}

#[test]
fn counts_and_offsets_correct() {
    let (entries, assignments) = fixture();
    let (offsets, grouped) = group_by_cluster(&entries, &assignments, 3);

    assert_eq!(offsets, vec![0, 2, 4, 5]);
    assert_eq!(grouped.len(), entries.len());
    assert_eq!(*offsets.last().unwrap(), entries.len());
}

#[test]
fn every_entry_lands_once() {
    let (entries, assignments) = fixture();
    let (_, grouped) = group_by_cluster(&entries, &assignments, 3);

    // the scatter is a permutation: same multiset of entries, nothing lost/dup'd.
    let mut got = grouped.clone();
    let mut want = entries.clone();
    got.sort_by_key(|e| e.vector[0]);
    want.sort_by_key(|e| e.vector[0]);
    assert_eq!(got, want);
}

#[test]
fn list_slices_hold_their_cluster() {
    let (entries, assignments) = fixture();
    let (offsets, grouped) = group_by_cluster(&entries, &assignments, 3);

    // cell 0 got entries[1] (val 20) and entries[4] (val 50).
    let cell0: Vec<i16> = grouped[offsets[0]..offsets[1]]
        .iter()
        .map(|e| e.vector[0])
        .collect();
    assert!(cell0.contains(&20) && cell0.contains(&50) && cell0.len() == 2);

    // cell 1 got entries[0] (10) and entries[2] (30).
    let cell1: Vec<i16> = grouped[offsets[1]..offsets[2]]
        .iter()
        .map(|e| e.vector[0])
        .collect();
    assert!(cell1.contains(&10) && cell1.contains(&30) && cell1.len() == 2);

    // cell 2 got entries[3] (40).
    let cell2: Vec<i16> = grouped[offsets[2]..offsets[3]]
        .iter()
        .map(|e| e.vector[0])
        .collect();
    assert_eq!(cell2, vec![40]);
}

#[test]
fn grouping_keeps_order_within_a_cell_and_empty_cells() {
    let (entries, assignments) = fixture();
    let (offsets, grouped) = group_by_cluster(&entries, &assignments, 5);
    assert_eq!(offsets, vec![0, 2, 4, 5, 5, 5]);
    let values: Vec<i16> = grouped.iter().map(|e| e.vector[0]).collect();
    assert_eq!(values, vec![20, 50, 10, 30, 40]);
}

#[test]
fn grouping_leaves_unassigned_tail_in_place() {
    let (entries, _) = fixture();
    let (offsets, grouped) = group_by_cluster(&entries, &[1u16, 0], 2);
    assert_eq!(offsets, vec![0, 1, 2]);
    let values: Vec<i16> = grouped.iter().map(|e| e.vector[0]).collect();
    assert_eq!(values, vec![20, 10, 30, 40, 50]);
}

fn centroid_bits(value: f32) -> [u32; 14] {
    [value.to_bits(); 14]
}

fn cell_keys(index: &IvfIndex, query: &[i16; 14]) -> Vec<u64> {
    index
        .centroids
        .iter()
        .map(|c| {
            let mut sum = 0.0f32;
            for i in 0..14 {
                let diff = query[i] as f32 - f32::from_bits(c[i]);
                sum += diff * diff;
            }
            f32_order_key(sum.to_bits()).unwrap()
        })
        .collect()
}

// Two blobs, near 0 (cell 0) and near 100 (cell 1), some fraud.
fn query_index() -> IvfIndex {
    let entries = vec![
        entry(0, true),
        entry(1, true),
        entry(2, false),
        entry(3, true),
        entry(100, false),
        entry(101, false),
        entry(102, true),
        entry(103, false),
    ];
    let assignments = vec![0u16, 0, 0, 0, 1, 1, 1, 1];
    IvfIndex::from_assignments(vec![centroid_bits(1.5), centroid_bits(101.5)], &entries, &assignments)
}

#[test]
fn from_assignments_builds_a_partition() {
    let index = query_index();
    assert_eq!(index.nlist(), 2);
    assert_eq!(index.list_offsets, vec![0, 4, 8]);
    assert!(index.has_valid_lists());
    assert!(index.list(0).iter().all(|e| e.vector[0] < 50));
    assert!(index.list(1).iter().all(|e| e.vector[0] >= 50));
}

#[test]
fn nearest_cells_picks_closest() {
    let index = query_index();
    // A query of 0s belongs in whichever cell holds the low blob.
    let cell = index.nearest_cells(&cell_keys(&index, &[0; 14]), 1)[0];
    assert!(index.list(cell).iter().all(|e| e.vector[0] < 50));
}

#[test]
fn nearest_cells_count_is_nprobe() {
    let index = query_index();
    let keys = cell_keys(&index, &[0; 14]);
    assert_eq!(index.nearest_cells(&keys, 1).len(), 1);
    assert_eq!(index.nearest_cells(&keys, 2).len(), 2);
    // clamp: nprobe beyond nlist returns all cells, not more.
    assert_eq!(index.nearest_cells(&keys, 99).len(), index.nlist());
}

#[test]
fn nearest_cells_orders_and_clamps() {
    let index = query_index();
    let keys = cell_keys(&index, &[0; 14]);
    assert_eq!(index.nearest_cells(&keys, 1), vec![0]);
    assert_eq!(index.nearest_cells(&keys, 2), vec![0, 1]);
    assert_eq!(index.nearest_cells(&keys, 99).len(), index.nlist());
    assert_eq!(index.nearest_cells(&keys, 0), Vec::<usize>::new());
    let far = cell_keys(&index, &[200; 14]);
    assert_eq!(index.nearest_cells(&far, 2), vec![1, 0]);
    // equal keys: the lower cell first
    assert_eq!(index.nearest_cells(&[7, 7], 2), vec![0, 1]);
}

#[test]
fn query_matches_bruteforce_when_fully_probed() {
    let index = query_index();
    let query = [1; 14];
    let keys = cell_keys(&index, &query);
    let ivf = index.fraud_score(&query, &keys, index.nlist());
    let brute = fraud_score_top5(&query, &index.entries);
    assert_eq!(ivf, brute);
}

#[test]
fn query_finds_fraud_cluster() {
    let entries = vec![
        entry(0, true),
        entry(1, true),
        entry(2, true),
        entry(3, true),
        entry(4, true),
        entry(100, false),
        entry(101, false),
        entry(102, false),
    ];
    let assignments = vec![0u16, 0, 0, 0, 0, 1, 1, 1];
    let index = IvfIndex::from_assignments(vec![centroid_bits(2.0), centroid_bits(101.0)], &entries, &assignments);
    let keys = cell_keys(&index, &[0; 14]);
    assert_eq!(index.fraud_score(&[0; 14], &keys, 1) as f32 / 5.0, 1.0);
    // probing only the far cell finds three legit entries
    let far = cell_keys(&index, &[200; 14]);
    assert_eq!(index.fraud_score(&[0; 14], &far, 1), 0);
}

#[test]
fn training_sample_takes_everything_or_a_stride() {
    let entries: Vec<ReferenceEntry> = (0..10).map(|i| entry(i, false)).collect();
    let all = training_sample(&entries, 10);
    assert_eq!(all.len(), 10);
    let sample = training_sample(&entries, 3);
    let firsts: Vec<i16> = sample.iter().map(|v| v[0]).collect();
    assert_eq!(firsts, vec![0, 3, 6]);
    let sample = training_sample(&entries, 4);
    let firsts: Vec<i16> = sample.iter().map(|v| v[0]).collect();
    assert_eq!(firsts, vec![0, 2, 4, 6]);
}

#[test]
fn index_bytes_roundtrip() {
    let index = query_index();
    let mut bytes = index.to_bytes();
    assert_eq!(&bytes[..4], b"IVF1");
    assert_eq!(bytes.len(), 24 + 2 * 56 + 3 * 8 + 8 * 29);
    bytes.extend_from_slice(&[9, 9, 9]);
    let (loaded, used) = IvfIndex::from_bytes(&bytes).unwrap();
    assert_eq!(used, bytes.len() - 3);
    assert_eq!(loaded.centroids, index.centroids);
    assert_eq!(loaded.list_offsets, index.list_offsets);
    assert_eq!(loaded.entries, index.entries);
}

#[test]
fn index_bytes_errors() {
    let index = query_index();
    let bytes = index.to_bytes();
    assert_eq!(IvfIndex::from_bytes(&bytes[..3]).unwrap_err(), IndexFormatError::Truncated);
    let mut bad = bytes.clone();
    bad[0] = b'X';
    assert_eq!(IvfIndex::from_bytes(&bad).unwrap_err(), IndexFormatError::BadMagic);
    let mut old = bytes.clone();
    old[4] = 1;
    assert_eq!(IvfIndex::from_bytes(&old).unwrap_err(), IndexFormatError::UnsupportedVersion(1));
    assert_eq!(IvfIndex::from_bytes(&bytes[..bytes.len() - 1]).unwrap_err(), IndexFormatError::Truncated);
}

#[test]
fn invalid_lists_are_detected() {
    let mut index = query_index();
    assert!(index.has_valid_lists());
    index.list_offsets = vec![0, 9, 8];
    assert!(!index.has_valid_lists());
    index.list_offsets = vec![0, 4];
    assert!(!index.has_valid_lists());
}

#[test]
fn a_bad_list_only_matters_when_probed() {
    let mut index = query_index();
    // cell 1's end runs past the entries; cell 0 is still fine.
    index.list_offsets = vec![0, 4, 9];
    assert!(index.has_valid_list(0));
    assert!(!index.has_valid_list(1));
    assert!(!index.has_valid_list(2));
    assert!(!index.has_valid_list(usize::MAX));
    let query = [0; 14];
    let keys = cell_keys(&index, &query);
    assert_eq!(index.nearest_cells(&keys, 1), vec![0]);
    // probing only cell 0 sees its four entries, three of them fraud
    assert_eq!(index.fraud_score(&query, &keys, 1), 3);
}

#[test]
fn full_probe_breaks_a_mixed_label_tie_in_probe_order() {
    // cell 0 holds a fraud entry at distance 14 from the query; cell 1 holds
    // four exact matches and a legit entry also at distance 14.
    let entries = vec![entry(-1, true), entry(0, false), entry(0, false), entry(0, false), entry(0, false), entry(1, false)];
    let index = IvfIndex::from_assignments(vec![centroid_bits(-1.0), centroid_bits(0.2)], &entries, &[0, 1, 1, 1, 1, 1]);
    let query = [0; 14];
    // brute force keeps the earlier of the two tied entries: the fraud one
    assert_eq!(fraud_score_top5(&query, &index.entries), 1);
    // probing cell 1 first meets the legit one first
    let keys = cell_keys(&index, &query);
    assert_eq!(index.nearest_cells(&keys, 2), vec![1, 0]);
    assert_eq!(index.fraud_score(&query, &keys, 2), 0);
}

#[test]
fn stored_len_reads_the_announced_length() {
    let index = query_index();
    let bytes = index.to_bytes();
    assert_eq!(IvfIndex::stored_len(&bytes[..24]).unwrap(), bytes.len());
    assert_eq!(IvfIndex::stored_len(&bytes).unwrap(), bytes.len());
    assert_eq!(IvfIndex::stored_len(&bytes[..23]).unwrap_err(), IndexFormatError::Truncated);
    assert_eq!(IvfIndex::stored_len(&bytes[..2]).unwrap_err(), IndexFormatError::Truncated);
    let mut bad = bytes.clone();
    bad[1] = b'X';
    assert_eq!(IvfIndex::stored_len(&bad[..5]).unwrap_err(), IndexFormatError::BadMagic);
    let mut old = bytes.clone();
    old[4] = 7;
    assert_eq!(IvfIndex::stored_len(&old[..24]).unwrap_err(), IndexFormatError::UnsupportedVersion(7));
    let mut huge = bytes.clone();
    for b in huge[8..16].iter_mut() {
        *b = 0xff;
    }
    assert_eq!(IvfIndex::stored_len(&huge[..24]).unwrap_err(), IndexFormatError::Truncated);
}
