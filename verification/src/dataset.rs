//! The reference dataset blob: a 16-byte header ("CRAB", version, record count,
//! dimension, all little-endian `u32`), then every record's 14 features as
//! little-endian `f32`, then one label byte per record.
use vstd::prelude::*;
use vstd::bytes::{spec_u32_from_le_bytes, u32_from_le_bytes};

verus! {

pub const DATASET_VERSION: u32 = 1;
pub const EXPECTED_RECORDS: usize = 100_000;
pub const LABEL_LEGIT: u8 = 0;
pub const LABEL_FRAUD: u8 = 1;
pub const HEADER_LEN: usize = 16;
/// The bytes "CRAB".
pub const MAGIC: [u8; 4] = [67u8, 82u8, 65u8, 66u8];
pub const FEATURE_DIM: usize = 14;
pub const PADDED_FEATURE_DIM: usize = 16;

/// A feature vector padded to 16 lanes; each lane holds the IEEE-754 bit
/// pattern of an `f32`, and the two padding lanes are `+0.0`.
#[derive(Debug, Clone, Copy)]
pub struct FeatureVector {
    lanes: [u32; 16],
}

impl View for FeatureVector {
    type V = Seq<u32>;

    closed spec fn view(&self) -> Seq<u32> {
        self.lanes@
    }
}

impl FeatureVector {
    pub fn from_features(features: [u32; 14]) -> (v: FeatureVector)
        ensures
            v@ == features@ + seq![0u32, 0u32],
    {
        let mut lanes = [0u32; 16];
        let mut i: usize = 0;
        while i < 14
            invariant
                i <= 14,
                lanes@.len() == 16,
                forall|j: int| 0 <= j < i ==> lanes@[j] == features@[j],
                forall|j: int| i <= j < 16 ==> lanes@[j] == 0,
            decreases 14 - i,
        {
            lanes[i] = features[i];
            i = i + 1;
        }
        let v = FeatureVector { lanes };
        assert(v@ =~= features@ + seq![0u32, 0u32]);
        v
    }

    /// The 14 feature lanes.
    pub fn features(&self) -> (f: &[u32])
        ensures
            f@ == self@.subrange(0, 14),
    {
        vstd::slice::slice_subrange(self.lanes.as_slice(), 0, 14)
    }

    /// All 16 lanes, padding included.
    pub fn padded(&self) -> (p: &[u32; 16])
        ensures
            p@ == self@,
    {
        &self.lanes
    }
}

#[derive(Debug, Clone, Copy, PartialEq, Eq, Structural)]
pub struct DatasetHeader {
    pub version: u32,
    pub count: u32,
    pub dimension: u32,
}

#[derive(Debug, Clone, Copy, PartialEq, Eq)]
pub enum DatasetError {
    Truncated,
    InvalidMagic { expected: [u8; 4], found: [u8; 4] },
    InvalidVersion { expected: u32, found: u32 },
    InvalidRecordCount { expected: usize, found: usize },
    InvalidDimension { expected: usize, found: usize },
    InvalidLabel(u8),
}

/// The little-endian `u32` stored at byte `p`.
pub open spec fn u32_le_at(bytes: Seq<u8>, p: int) -> u32 {
    spec_u32_from_le_bytes(bytes.subrange(p, p + 4))
}

/// The header that the first 16 bytes spell out.
pub open spec fn header_of(bytes: Seq<u8>) -> DatasetHeader {
    DatasetHeader { version: u32_le_at(bytes, 4), count: u32_le_at(bytes, 8), dimension: u32_le_at(bytes, 12) }
}

pub open spec fn has_magic(bytes: Seq<u8>) -> bool {
    bytes.subrange(0, 4) == MAGIC@
}

/// Reads the header of a dataset blob. Fails with `Truncated` below 16 bytes and
/// with `InvalidMagic` when the blob does not start with "CRAB".
pub fn parse_header(bytes: &[u8]) -> (r: Result<DatasetHeader, DatasetError>)
    ensures
        bytes@.len() < HEADER_LEN ==> r == Err::<DatasetHeader, DatasetError>(DatasetError::Truncated),
        bytes@.len() >= HEADER_LEN && !has_magic(bytes@) ==> (r matches Err(DatasetError::InvalidMagic { expected, found })
            && expected == MAGIC && found@ == bytes@.subrange(0, 4)),
        bytes@.len() >= HEADER_LEN && has_magic(bytes@) ==> r == Ok::<DatasetHeader, DatasetError>(header_of(bytes@)),
{
    if bytes.len() < HEADER_LEN {
        return Err(DatasetError::Truncated);
    }
    let found: [u8; 4] = [bytes[0], bytes[1], bytes[2], bytes[3]];
    assert(MAGIC@ == seq![67u8, 82u8, 65u8, 66u8]);
    if !(found[0] == MAGIC[0] && found[1] == MAGIC[1] && found[2] == MAGIC[2] && found[3] == MAGIC[3]) {
        assert(found@ =~= bytes@.subrange(0, 4));
        assert(!has_magic(bytes@)) by {
            if has_magic(bytes@) {
                assert(bytes@.subrange(0, 4)[0] == MAGIC@[0]);
                assert(bytes@.subrange(0, 4)[1] == MAGIC@[1]);
                assert(bytes@.subrange(0, 4)[2] == MAGIC@[2]);
                assert(bytes@.subrange(0, 4)[3] == MAGIC@[3]);
            }
        }
        return Err(DatasetError::InvalidMagic { expected: MAGIC, found });
    }
    assert(bytes@.subrange(0, 4) =~= MAGIC@);
    let version = u32_from_le_bytes(vstd::slice::slice_subrange(bytes, 4, 8));
    let count = u32_from_le_bytes(vstd::slice::slice_subrange(bytes, 8, 12));
    let dimension = u32_from_le_bytes(vstd::slice::slice_subrange(bytes, 12, 16));
    Ok(DatasetHeader { version, count, dimension })
}

/// What `validate_header` reports about a header: the first of version, record
/// count and dimension that is not the expected one.
pub open spec fn header_check(header: DatasetHeader) -> Result<(), DatasetError> {
    if header.version != DATASET_VERSION {
        Err(DatasetError::InvalidVersion { expected: DATASET_VERSION, found: header.version })
    } else if header.count as usize != EXPECTED_RECORDS {
        Err(DatasetError::InvalidRecordCount { expected: EXPECTED_RECORDS, found: header.count as usize })
    } else if header.dimension as usize != FEATURE_DIM {
        Err(DatasetError::InvalidDimension { expected: FEATURE_DIM, found: header.dimension as usize })
    } else {
        Ok(())
    }
}

/// Checks the version, record count and dimension of a header, in that order.
pub fn validate_header(header: DatasetHeader) -> (r: Result<(), DatasetError>)
    ensures
        r == header_check(header),
{
    if header.version != DATASET_VERSION {
        return Err(DatasetError::InvalidVersion { expected: DATASET_VERSION, found: header.version });
    }
    if header.count as usize != EXPECTED_RECORDS {
        return Err(DatasetError::InvalidRecordCount { expected: EXPECTED_RECORDS, found: header.count as usize });
    }
    if header.dimension as usize != FEATURE_DIM {
        return Err(DatasetError::InvalidDimension { expected: FEATURE_DIM, found: header.dimension as usize });
    }
    Ok(())
}

/// Byte position of feature `d` of record `i`.
pub open spec fn feature_pos(i: int, d: int) -> int {
    HEADER_LEN + 56 * i + 4 * d
}

/// Where the label bytes start.
pub open spec fn labels_start() -> int {
    HEADER_LEN + 56 * EXPECTED_RECORDS
}

/// Total size of a well-formed blob.
pub open spec fn blob_len() -> int {
    labels_start() + EXPECTED_RECORDS
}

/// The reference dataset: feature vectors (as `f32` bit patterns) and labels.
#[derive(Debug)]
pub struct ReferenceDataset {
    vectors: Vec<FeatureVector>,
    labels: Vec<u8>,
}

impl ReferenceDataset {
    pub closed spec fn vectors_view(&self) -> Seq<FeatureVector> {
        self.vectors@
    }

    pub closed spec fn labels_view(&self) -> Seq<u8> {
        self.labels@
    }

    /// Loads a dataset blob: header, then exactly 100 000 records of 14 features
    /// and 100 000 label bytes, each 0 (legit) or 1 (fraud).
    ///
    /// Errors, checked in this order: those of `parse_header`, those of
    /// `validate_header`, `Truncated` when the blob is not exactly as long as the
    /// header says, and `InvalidLabel` with the first label byte above 1.
    pub fn from_blob(bytes: &[u8]) -> (r: Result<ReferenceDataset, DatasetError>)
        ensures
            bytes@.len() < HEADER_LEN ==> r == Err::<ReferenceDataset, DatasetError>(DatasetError::Truncated),
            bytes@.len() >= HEADER_LEN && !has_magic(bytes@) ==> (r matches Err(DatasetError::InvalidMagic { expected, found })
                && expected == MAGIC && found@ == bytes@.subrange(0, 4)),
            !parse_header_fails(bytes@) && header_check(header_of(bytes@)) is Err ==> (r matches Err(e) && header_check(header_of(bytes@)) == Err::<(), DatasetError>(e)),
            !parse_header_fails(bytes@) && header_check(header_of(bytes@)) is Ok && bytes@.len() != blob_len() ==> r == Err::<ReferenceDataset, DatasetError>(DatasetError::Truncated),
            !parse_header_fails(bytes@) && header_check(header_of(bytes@)) is Ok && bytes@.len() == blob_len() ==> {
                let labels = bytes@.subrange(labels_start(), blob_len());
                &&& (forall|j: int| 0 <= j < labels.len() ==> labels[j] <= LABEL_FRAUD) ==> (r matches Ok(ds) && {
                    &&& ds.labels_view() == labels
                    &&& ds.vectors_view().len() == EXPECTED_RECORDS
                    &&& forall|i: int, d: int| #![trigger ds.vectors_view()[i]@[d]] 0 <= i < EXPECTED_RECORDS && 0 <= d < FEATURE_DIM ==> ds.vectors_view()[i]@[d] == u32_le_at(bytes@, feature_pos(i, d))
                    &&& forall|i: int| 0 <= i < EXPECTED_RECORDS ==> (#[trigger] ds.vectors_view()[i]@).len() == PADDED_FEATURE_DIM
                    &&& forall|i: int, d: int| #![trigger ds.vectors_view()[i]@[d]] 0 <= i < EXPECTED_RECORDS && FEATURE_DIM <= d < PADDED_FEATURE_DIM ==> ds.vectors_view()[i]@[d] == 0
                })
                &&& (exists|j: int| 0 <= j < labels.len() && labels[j] > LABEL_FRAUD) ==> (r matches Err(DatasetError::InvalidLabel(l)) && exists|j: int| 0 <= j < labels.len() && labels[j] == l && l > LABEL_FRAUD && forall|i: int| 0 <= i < j ==> labels[i] <= LABEL_FRAUD)
            },
    {
        let header = match parse_header(bytes) {
            Ok(h) => h,
            Err(e) => return Err(e),
        };
        match validate_header(header) {
            Ok(()) => {},
            Err(e) => return Err(e),
        }
        let count = header.count as usize;
        let expected_total = HEADER_LEN + count * FEATURE_DIM * 4 + count;
        if bytes.len() != expected_total {
            return Err(DatasetError::Truncated);
        }
        let mut vectors: Vec<FeatureVector> = Vec::new();
        let mut offset: usize = HEADER_LEN;
        let mut i: usize = 0;
        while i < count
            invariant
                !parse_header_fails(bytes@),
                header_check(header_of(bytes@)) is Ok,
                count == EXPECTED_RECORDS,
                bytes@.len() == blob_len(),
                i <= count,
                offset == feature_pos(i as int, 0),
                vectors@.len() == i,
                forall|j: int, d: int| #![trigger vectors@[j]@[d]] 0 <= j < i && 0 <= d < FEATURE_DIM ==> vectors@[j]@[d] == u32_le_at(bytes@, feature_pos(j, d)),
                forall|j: int| 0 <= j < i ==> (#[trigger] vectors@[j]@).len() == PADDED_FEATURE_DIM,
                forall|j: int, d: int| #![trigger vectors@[j]@[d]] 0 <= j < i && FEATURE_DIM <= d < PADDED_FEATURE_DIM ==> vectors@[j]@[d] == 0,
            decreases count - i,
        {
            let mut features = [0u32; 14];
            let mut d: usize = 0;
            while d < FEATURE_DIM
                invariant
                    bytes@.len() == blob_len(),
                    i < count,
                    count == EXPECTED_RECORDS,
                    d <= FEATURE_DIM,
                    offset == feature_pos(i as int, d as int),
                    features@.len() == 14,
                    forall|e: int| 0 <= e < d ==> features@[e] == u32_le_at(bytes@, feature_pos(i as int, e)),
                decreases FEATURE_DIM - d,
            {
                let value = read_f32_bits(bytes, &mut offset);
                match value {
                    Ok(v) => {
                        features[d] = v;
                    },
                    Err(_) => {
                        assert(false);
                    },
                }
                d = d + 1;
            }
            let v = FeatureVector::from_features(features);
            vectors.push(v);
            i = i + 1;
        }
        let mut labels: Vec<u8> = Vec::new();
        let ghost start = labels_start();
        while offset < bytes.len()
            invariant
                !parse_header_fails(bytes@),
                header_check(header_of(bytes@)) is Ok,
                bytes@.len() == blob_len(),
                start == labels_start(),
                start <= offset <= bytes@.len(),
                labels@ == bytes@.subrange(start, offset as int),
                forall|j: int| 0 <= j < labels@.len() ==> labels@[j] <= LABEL_FRAUD,
            decreases bytes@.len() - offset,
        {
            let label = bytes[offset];
            if label > LABEL_FRAUD {
                assert(bytes@.subrange(start, blob_len())[offset - start] == label);
                return Err(DatasetError::InvalidLabel(label));
            }
            labels.push(label);
            offset = offset + 1;
        }
        Ok(ReferenceDataset { vectors, labels })
    }

    pub fn vectors(&self) -> (v: &[FeatureVector])
        ensures
            v@ == self.vectors_view(),
    {
        self.vectors.as_slice()
    }

    pub fn labels(&self) -> (l: &[u8])
        ensures
            l@ == self.labels_view(),
    {
        self.labels.as_slice()
    }

    pub fn len(&self) -> (n: usize)
        ensures
            n == self.labels_view().len(),
    {
        self.labels.len()
    }
}

/// `parse_header` fails on these bytes.
pub open spec fn parse_header_fails(bytes: Seq<u8>) -> bool {
    bytes.len() < HEADER_LEN || !has_magic(bytes)
}

/// Reads the little-endian `f32` bit pattern at `offset` and moves past it.
fn read_f32_bits(bytes: &[u8], offset: &mut usize) -> (r: Result<u32, DatasetError>)
    ensures
        *old(offset) + 4 <= bytes@.len() ==> r == Ok::<u32, DatasetError>(u32_le_at(bytes@, *old(offset) as int)) && *final(offset) == *old(offset) + 4,
        *old(offset) + 4 > bytes@.len() ==> r == Err::<u32, DatasetError>(DatasetError::Truncated) && *final(offset) == *old(offset),
{
    let start = *offset;
    if start > bytes.len() || bytes.len() - start < 4 {
        return Err(DatasetError::Truncated);
    }
    let end = start + 4;
    let value = u32_from_le_bytes(vstd::slice::slice_subrange(bytes, start, end));
    *offset = end;
    Ok(value)
}

} // verus!
