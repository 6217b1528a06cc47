//! The reference store: an IVF index over the reference entries plus the
//! number of cells a query probes.
use vstd::prelude::*;
use vstd::bytes::{lemma_auto_spec_u64_to_from_le_bytes, spec_u64_to_le_bytes, u64_from_le_bytes, u64_to_le_bytes};

use crate::encoding::{lemma_subrange_right, push_all, u64_at};
use crate::ivf::{nearest_cells_of, IvfIndex};
use crate::ivf_format::{
    decodes_to, encode_index, index_len, index_parse_error, lemma_encode_index_fields, lemma_index_roundtrip,
    stored_entries, stored_nlist, IndexFormatError,
};
use crate::knn::{fraud_score_top5, fraud_votes, ReferenceEntry, K_NEIGHBORS};

verus! {

#[verifier::external_type_specification]
#[verifier::external_body]
pub struct ExIoError(std::io::Error);

#[verifier::external_type_specification]
#[verifier::external_body]
pub struct ExJsonError(serde_json::Error);

/// A reference set needs at least this many entries: the score looks at five
/// neighbours.
pub const MIN_REFERENCE_ENTRIES: usize = 5;
/// Cells probed per query, at most.
pub const DEFAULT_NPROBE: usize = 16;
/// Iterations of k-means when training the coarse quantizer.
pub const DEFAULT_MAX_ITERS: usize = 10;
/// Entries the coarse quantizer is trained on.
pub const DEFAULT_TRAIN_SAMPLE: usize = 100_000;

#[derive(Debug)]
pub enum ReferenceLoadError {
    Io(std::io::Error),
    Json(serde_json::Error),
    NotEnoughEntries { len: usize },
}

/// The bytes that the gzip stream `data` decompresses to (its first member, as
/// flate2's `read::GzDecoder` reads it), or `None` when the stream is corrupt or
/// ends early.
pub uninterp spec fn gzip_decoded(data: Seq<u8>) -> Option<Seq<u8>>;

/// Decompresses a gzip stream with flate2's `read::GzDecoder`, reading it to
/// the end. Trusted: the result is the function `gzip_decoded` of the input,
/// and the call fails exactly when that is `None`; what the error holds is not
/// stated.
#[verifier::external_body]
fn gunzip(data: &[u8]) -> (r: Result<Vec<u8>, std::io::Error>)
    ensures
        r is Ok <==> gzip_decoded(data@) is Some,
        r matches Ok(v) ==> gzip_decoded(data@) == Some(v@),
{
    let mut out = Vec::new();
    let mut decoder = flate2::read::GzDecoder::new(data);
    std::io::Read::read_to_end(&mut decoder, &mut out).map(|_| out)
}

/// Decompresses a gzip-compressed reference dataset.
pub fn decompress_references(compressed: &[u8]) -> (r: Result<Vec<u8>, std::io::Error>)
    ensures
        r is Ok <==> gzip_decoded(compressed@) is Some,
        r matches Ok(v) ==> gzip_decoded(compressed@) == Some(v@),
{
    gunzip(compressed)
}

/// Checks that a parsed reference set is large enough: fewer than five entries
/// is `NotEnoughEntries`. The entries come back unchanged, in order.
pub fn check_entry_count(entries: Vec<ReferenceEntry>) -> (r: Result<Vec<ReferenceEntry>, ReferenceLoadError>)
    ensures
        entries@.len() < MIN_REFERENCE_ENTRIES ==> (r matches Err(ReferenceLoadError::NotEnoughEntries { len }) && len == entries@.len()),
        entries@.len() >= MIN_REFERENCE_ENTRIES ==> (r matches Ok(v) && v@ == entries@),
{
    if entries.len() < MIN_REFERENCE_ENTRIES {
        return Err(ReferenceLoadError::NotEnoughEntries { len: entries.len() });
    }
    Ok(entries)
}

/// The rule of thumb for the number of cells: the integer square root of the
/// number of entries, clamped to `[1, n]`.
pub fn default_nlist(n: usize) -> (nlist: usize)
    requires
        n >= 1,
    ensures
        nlist * nlist <= n < (nlist + 1) * (nlist + 1),
        1 <= nlist <= n,
{
    let mut r: usize = 1;
    loop
        invariant
            1 <= r <= n,
            r * r <= n,
        ensures
            1 <= r <= n,
            r * r <= n < (r + 1) * (r + 1),
        decreases n - r,
    {
        assert(r < 0x1_0000_0000) by (nonlinear_arith)
            requires
                r * r <= n,
                n <= usize::MAX,
                usize::MAX <= u64::MAX,
                r >= 1,
        ;
        let next: u128 = r as u128 + 1;
        assert(next * next <= 0x1_0000_0001 * 0x1_0000_0001) by (nonlinear_arith)
            requires
                next <= 0x1_0000_0001,
                next >= 0,
        ;
        if next * next > n as u128 {
            break;
        }
        assert(r + 1 <= n) by (nonlinear_arith)
            requires
                (r + 1) * (r + 1) <= n,
                r >= 1,
        ;
        r = r + 1;
    }
    r
}

/// The serialized form of a store: its index, then `nprobe` as a `u64`.
pub open spec fn encode_store(index: IvfIndex, nprobe: usize) -> Seq<u8> {
    encode_index(index) + spec_u64_to_le_bytes(nprobe as u64)
}

#[derive(Debug)]
pub struct ReferenceStore {
    index: IvfIndex,
    nprobe: usize,
}

impl ReferenceStore {
    pub closed spec fn stored_index(&self) -> IvfIndex {
        self.index
    }

    pub closed spec fn probe_count(&self) -> usize {
        self.nprobe
    }

    /// A store over a freshly built index: queries probe `min(16, nlist)` cells.
    pub fn from_index(index: IvfIndex) -> (store: ReferenceStore)
        ensures
            store.stored_index() == index,
            store.probe_count() == if DEFAULT_NPROBE < index.cell_count() { DEFAULT_NPROBE as int } else { index.cell_count() },
    {
        let nlist = index.nlist();
        let nprobe = if DEFAULT_NPROBE < nlist { DEFAULT_NPROBE } else { nlist };
        ReferenceStore { index, nprobe }
    }

    /// A store over a loaded index with a given probe count.
    pub fn from_parts(index: IvfIndex, nprobe: usize) -> (store: ReferenceStore)
        ensures
            store.stored_index() == index,
            store.probe_count() == nprobe,
    {
        ReferenceStore { index, nprobe }
    }

    /// Approximate fraud votes through the IVF index: probe `nprobe` cells,
    /// take the five nearest entries found there, count the fraud ones. The
    /// fraud score is the result divided by five.
    pub fn fraud_score_for(&self, query: &[i16; 14], cell_keys: &[u64]) -> (votes: usize)
        requires
            cell_keys@.len() == self.stored_index().cell_count(),
            self.stored_index().lists_ok_for(nearest_cells_of(cell_keys@, self.probe_count() as int)),
        ensures
            votes == fraud_votes(
                query@,
                self.stored_index().probed_entries(nearest_cells_of(cell_keys@, self.probe_count() as int)),
            ),
            votes <= K_NEIGHBORS,
    {
        self.index.fraud_score(query, cell_keys, self.nprobe)
    }

    /// Exact fraud votes over every entry: the ground truth for recall.
    pub fn fraud_score_bruteforce(&self, query: &[i16; 14]) -> (votes: usize)
        ensures
            votes == fraud_votes(query@, self.stored_index().entries@),
            votes <= K_NEIGHBORS,
    {
        fraud_score_top5(query, self.index.entries.as_slice())
    }

    pub fn nprobe(&self) -> (nprobe: usize)
        ensures
            nprobe == self.probe_count(),
    {
        self.nprobe
    }

    /// Adjust the speed/recall dial: the probe count is clamped to `[1, nlist]`.
    pub fn set_nprobe(&mut self, nprobe: usize)
        requires
            old(self).stored_index().cell_count() >= 1,
        ensures
            final(self).stored_index() == old(self).stored_index(),
            final(self).probe_count() == if nprobe < 1 { 1 } else if nprobe > old(self).stored_index().cell_count() {
                old(self).stored_index().cell_count()
            } else {
                nprobe as int
            },
    {
        let nlist = self.index.nlist();
        self.nprobe = if nprobe < 1 { 1 } else if nprobe > nlist { nlist } else { nprobe };
    }

    pub fn index(&self) -> (index: &IvfIndex)
        ensures
            *index == self.stored_index(),
    {
        &self.index
    }

    /// Number of reference entries.
    pub fn len(&self) -> (n: usize)
        ensures
            n == self.stored_index().entries@.len(),
    {
        self.index.entries.len()
    }

    /// The bytes of a saved store: the index, then `nprobe` as a `u64`.
    pub fn to_bin_bytes(&self) -> (out: Vec<u8>)
        ensures
            out@ == encode_store(self.stored_index(), self.probe_count()),
    {
        let mut out = self.index.to_bytes();
        push_all(&mut out, &u64_to_le_bytes(self.nprobe as u64));
        out
    }

    /// Load a saved store from the start of `bytes`: the index, then `nprobe`.
    /// Errors are those of `IvfIndex::from_bytes`, and `Truncated` when the
    /// eight bytes of `nprobe` are missing.
    pub fn from_bin_bytes(bytes: &[u8]) -> (r: Result<ReferenceStore, IndexFormatError>)
        ensures
            index_parse_error(bytes@) matches Some(err) ==> r == Err::<ReferenceStore, IndexFormatError>(err),
            index_parse_error(bytes@) is None ==> {
                let used = index_len(stored_nlist(bytes@), stored_entries(bytes@));
                &&& used + 8 > bytes@.len() ==> r == Err::<ReferenceStore, IndexFormatError>(IndexFormatError::Truncated)
                &&& used + 8 <= bytes@.len() ==> (r matches Ok(store)
                    && decodes_to(bytes@, store.stored_index())
                    && store.probe_count() == u64_at(bytes@, used) as usize)
            },
    {
        let (index, used) = match IvfIndex::from_bytes(bytes) {
            Ok(parsed) => parsed,
            Err(e) => return Err(e),
        };
        if bytes.len() < 8 || used > bytes.len() - 8 {
            return Err(IndexFormatError::Truncated);
        }
        let nprobe = u64_from_le_bytes(vstd::slice::slice_subrange(bytes, used, used + 8));
        Ok(ReferenceStore { index, nprobe: nprobe as usize })
    }
}

/// Saving a store and loading it back gives the same index and probe count:
/// whatever decodes from the saved bytes (followed by anything) has the saved
/// index's centroids, offsets and entries, and the stored `nprobe` reads back
/// unchanged.
pub proof fn lemma_store_roundtrip(index: IvfIndex, nprobe: usize, rest: Seq<u8>, loaded: IvfIndex)
    requires
        index.list_offsets@.len() == index.centroids@.len() + 1,
        index.centroids@.len() < usize::MAX,
        index.entries@.len() <= usize::MAX,
        decodes_to(encode_store(index, nprobe) + rest, loaded),
    ensures
        index_parse_error(encode_store(index, nprobe) + rest) is None,
        loaded.centroids@ == index.centroids@,
        loaded.list_offsets@ == index.list_offsets@,
        loaded.entries@ == index.entries@,
        index_len(stored_nlist(encode_store(index, nprobe) + rest), stored_entries(encode_store(index, nprobe) + rest)) + 8
            <= (encode_store(index, nprobe) + rest).len(),
        u64_at(
            encode_store(index, nprobe) + rest,
            index_len(stored_nlist(encode_store(index, nprobe) + rest), stored_entries(encode_store(index, nprobe) + rest)),
        ) as usize == nprobe,
{
    lemma_auto_spec_u64_to_from_le_bytes();
    let tail = spec_u64_to_le_bytes(nprobe as u64) + rest;
    let enc = encode_index(index);
    assert(encode_store(index, nprobe) + rest =~= enc + tail);
    lemma_encode_index_fields(index, tail);
    lemma_index_roundtrip(index, tail, loaded);
    let b = enc + tail;
    let used = enc.len() as int;
    lemma_subrange_right(enc, tail, used, 8);
    assert(tail.subrange(0, 8) =~= spec_u64_to_le_bytes(nprobe as u64));
}

} // verus!
