use crab_antiagiota_performance::dataset::{
    parse_header, validate_header, DatasetError, DatasetHeader, FeatureVector, ReferenceDataset,
    EXPECTED_RECORDS, FEATURE_DIM, MAGIC,
};

fn header_bytes(version: u32, count: u32, dimension: u32) -> Vec<u8> {
    let mut bytes = b"CRAB".to_vec();
    bytes.extend_from_slice(&version.to_le_bytes());
    bytes.extend_from_slice(&count.to_le_bytes());
    bytes.extend_from_slice(&dimension.to_le_bytes());
    bytes
}

fn blob(label_of: impl Fn(usize) -> u8) -> Vec<u8> {
    let mut bytes = header_bytes(1, EXPECTED_RECORDS as u32, FEATURE_DIM as u32);
    for i in 0..EXPECTED_RECORDS {
        for d in 0..FEATURE_DIM {
            let value = (i % 7) as f32 * 0.5 + d as f32;
            bytes.extend_from_slice(&value.to_le_bytes());
        }
    }
    for i in 0..EXPECTED_RECORDS {
        bytes.push(label_of(i));
    }
    bytes
}

#[test]
fn header_is_parsed_little_endian() {
    let header = parse_header(&header_bytes(1, 100_000, 14)).unwrap();
    assert_eq!(header, DatasetHeader { version: 1, count: 100_000, dimension: 14 });
    assert_eq!(validate_header(header), Ok(()));
}

#[test]
fn header_errors() {
    assert_eq!(parse_header(b"CRAB"), Err(DatasetError::Truncated));
    let mut wrong = header_bytes(1, 100_000, 14);
    wrong[0] = b'X';
    assert_eq!(
        parse_header(&wrong),
        Err(DatasetError::InvalidMagic { expected: MAGIC, found: *b"XRAB" })
    );
    assert_eq!(
        validate_header(DatasetHeader { version: 2, count: 100_000, dimension: 14 }),
        Err(DatasetError::InvalidVersion { expected: 1, found: 2 })
    );
    assert_eq!(
        validate_header(DatasetHeader { version: 1, count: 5, dimension: 14 }),
        Err(DatasetError::InvalidRecordCount { expected: 100_000, found: 5 })
    );
    assert_eq!(
        validate_header(DatasetHeader { version: 1, count: 100_000, dimension: 16 }),
        Err(DatasetError::InvalidDimension { expected: 14, found: 16 })
    );
}

#[test]
fn blob_loads_vectors_and_labels() {
    let bytes = blob(|i| (i % 3 == 0) as u8);
    let dataset = ReferenceDataset::from_blob(&bytes).unwrap();
    assert_eq!(dataset.len(), EXPECTED_RECORDS);
    assert_eq!(dataset.labels()[0], 1);
    assert_eq!(dataset.labels()[1], 0);
    let v = dataset.vectors()[9].features();
    let want: Vec<u32> = (0..FEATURE_DIM).map(|d| ((9 % 7) as f32 * 0.5 + d as f32).to_bits()).collect();
    assert_eq!(v, &want[..]);
    assert_eq!(dataset.vectors()[0].padded()[FEATURE_DIM], 0);
    assert_eq!(dataset.vectors()[0].padded()[FEATURE_DIM + 1], 0);
}

#[test]
fn blob_rejects_bad_label_and_length() {
    let bytes = blob(|i| if i == 17 { 7 } else if i == 40 { 9 } else { 0 });
    assert_eq!(ReferenceDataset::from_blob(&bytes).unwrap_err(), DatasetError::InvalidLabel(7));
    let bytes = blob(|_| 0);
    assert_eq!(
        ReferenceDataset::from_blob(&bytes[..bytes.len() - 1]).unwrap_err(),
        DatasetError::Truncated
    );
}

#[test]
fn feature_vector_pads_with_zero() {
    let features = [1.5f32.to_bits(); 14];
    let v = FeatureVector::from_features(features);
    assert_eq!(v.features(), &features[..]);
    assert_eq!(v.padded()[14], 0);
    assert_eq!(v.padded()[15], 0);
}
