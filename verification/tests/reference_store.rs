use std::io::Write;

use crab_antiagiota_performance::float_order::f32_order_key;
use crab_antiagiota_performance::ivf::IvfIndex;
use crab_antiagiota_performance::ivf_format::IndexFormatError;
use crab_antiagiota_performance::knn::ReferenceEntry;
use crab_antiagiota_performance::reference_store::{
    check_entry_count, decompress_references, default_nlist, ReferenceLoadError, ReferenceStore,
};

fn entry(value: i16, is_fraud: bool) -> ReferenceEntry {
    ReferenceEntry { vector: [value; 14], is_fraud }
}

const FIVE_ROWS_JSON: &[u8] = br#"[
    {"vector":[0,0,0,0,0,0,0,0,0,0,0,0,0,0],"label":"legit"},
    {"vector":[1,1,1,1,1,1,1,1,1,1,1,1,1,1],"label":"fraud"},
    {"vector":[0.5,0.5,0.5,0.5,0.5,0.5,0.5,0.5,0.5,0.5,0.5,0.5,0.5,0.5],"label":"legit"},
    {"vector":[-1,-1,-1,-1,-1,-1,-1,-1,-1,-1,-1,-1,-1,-1],"label":"fraud"},
    {"vector":[0.25,0.25,0.25,0.25,0.25,0.25,0.25,0.25,0.25,0.25,0.25,0.25,0.25,0.25],"label":"legit"}
]"#;

/// The keys the coarse search orders cells by: each centroid's f32 squared
/// distance to the query.
fn cell_keys(index: &IvfIndex, query: &[i16; 14]) -> Vec<u64> {
    index
        .centroids
        .iter()
        .map(|c| {
            let mut sum = 0.0f32;
            for i in 0..14 {
                let diff = query[i] as f32 - f32::from_bits(c[i]);
                sum += diff * diff;
            }
            f32_order_key(sum.to_bits()).unwrap()
        })
        .collect()
}

/// The five rows above, quantized, in two cells (the low and the high values).
fn small_store() -> ReferenceStore {
    let entries = vec![entry(0, false), entry(32767, true), entry(16384, false), entry(-32767, true), entry(8192, false)];
    let assignments = vec![0u16, 1, 1, 0, 0];
    let centroids = vec![[(-8191.67f32).to_bits(); 14], [24575.5f32.to_bits(); 14]];
    ReferenceStore::from_index(IvfIndex::from_assignments(centroids, &entries, &assignments))
}

#[test]
fn default_nlist_is_integer_square_root() {
    assert_eq!(default_nlist(1), 1);
    assert_eq!(default_nlist(5), 2);
    assert_eq!(default_nlist(8), 2);
    assert_eq!(default_nlist(9), 3);
    assert_eq!(default_nlist(100_000), 316);
    assert_eq!(default_nlist(3_000_000), 1732);
}

#[test]
fn too_few_entries_are_rejected() {
    let entries = vec![entry(0, false); 4];
    match check_entry_count(entries) {
        Err(ReferenceLoadError::NotEnoughEntries { len }) => assert_eq!(len, 4),
        other => panic!("unexpected {other:?}"),
    }
    let entries = vec![entry(1, true); 5];
    assert_eq!(check_entry_count(entries.clone()).unwrap(), entries);
}

#[test]
fn store_probe_count_defaults_and_clamps() {
    let mut store = small_store();
    assert_eq!(store.nprobe(), 2);
    assert_eq!(store.len(), 5);
    store.set_nprobe(0);
    assert_eq!(store.nprobe(), 1);
    store.set_nprobe(50);
    assert_eq!(store.nprobe(), 2);
    store.set_nprobe(1);
    assert_eq!(store.nprobe(), 1);
}

#[test]
fn bin_roundtrip_preserves_scores() {
    let store = small_store();
    let bytes = store.to_bin_bytes();
    let loaded = ReferenceStore::from_bin_bytes(&bytes).unwrap();
    assert_eq!(loaded.len(), store.len());
    assert_eq!(loaded.nprobe(), store.nprobe());
    let query = [0i16; 14];
    assert_eq!(
        loaded.fraud_score_for(&query, &cell_keys(loaded.index(), &query)),
        store.fraud_score_for(&query, &cell_keys(store.index(), &query))
    );
}

#[test]
fn bin_bytes_keep_the_index_and_reject_a_short_tail() {
    let store = small_store();
    let bytes = store.to_bin_bytes();
    let loaded = ReferenceStore::from_bin_bytes(&bytes).unwrap();
    assert_eq!(loaded.index().centroids, store.index().centroids);
    assert_eq!(loaded.index().list_offsets, store.index().list_offsets);
    assert_eq!(loaded.index().entries, store.index().entries);
    let query = [0i16; 14];
    assert_eq!(loaded.fraud_score_bruteforce(&query), store.fraud_score_bruteforce(&query));
    assert_eq!(
        ReferenceStore::from_bin_bytes(&bytes[..bytes.len() - 1]).unwrap_err(),
        IndexFormatError::Truncated
    );
}

#[test]
fn decompresses_gzip_json() {
    let mut encoder = flate2::write::GzEncoder::new(Vec::new(), flate2::Compression::fast());
    encoder.write_all(FIVE_ROWS_JSON).unwrap();
    let compressed = encoder.finish().unwrap();

    let json = decompress_references(&compressed).unwrap();
    assert_eq!(json, FIVE_ROWS_JSON.to_vec());

    // The decompressed rows, parsed and quantized, make a store of five entries.
    let rows: Vec<serde_json::Value> = serde_json::from_slice(&json).unwrap();
    let entries: Vec<ReferenceEntry> = rows
        .iter()
        .map(|row| {
            let mut vector = [0i16; 14];
            for (i, x) in row["vector"].as_array().unwrap().iter().enumerate() {
                vector[i] = (x.as_f64().unwrap() as f32 * 32767.0).round() as i16;
            }
            ReferenceEntry { vector, is_fraud: row["label"] == "fraud" }
        })
        .collect();
    let entries = check_entry_count(entries).unwrap();
    let nlist = default_nlist(entries.len());
    let assignments: Vec<u16> = entries.iter().map(|e| if e.vector[0] > 12000 { 1 } else { 0 }).collect();
    let centroids = vec![[(-8191.67f32).to_bits(); 14], [24575.5f32.to_bits(); 14]];
    assert_eq!(nlist, centroids.len());
    let store = ReferenceStore::from_index(IvfIndex::from_assignments(centroids, &entries, &assignments));
    assert_eq!(store.len(), 5);
}

#[test]
fn gzip_stream_decompresses() {
    let text = br#"[{"vector":[0,0,0,0,0,0,0,0,0,0,0,0,0,0],"label":"legit"}]"#;
    let mut encoder = flate2::write::GzEncoder::new(Vec::new(), flate2::Compression::fast());
    encoder.write_all(text).unwrap();
    let compressed = encoder.finish().unwrap();
    assert_ne!(&compressed[..], &text[..]);
    assert_eq!(decompress_references(&compressed).unwrap(), text.to_vec());
    assert!(decompress_references(&compressed[..compressed.len() / 2]).is_err());
    assert!(decompress_references(b"not gzip").is_err());
}
