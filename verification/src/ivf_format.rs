//! The on-disk layout of an IVF index, little-endian throughout:
//!
//! ```text
//! magic "IVF1" | version u32 | nlist u64 | n_entries u64
//! centroids:    nlist × (14 × f32 bit pattern)
//! list_offsets: one u64 per offset
//! entries:      n_entries × (14 × i16 + 1 fraud byte)
//! ```
use vstd::prelude::*;
use vstd::bytes::{
    lemma_auto_spec_u16_to_from_le_bytes, lemma_auto_spec_u32_to_from_le_bytes,
    lemma_auto_spec_u64_to_from_le_bytes, spec_u16_to_le_bytes, spec_u32_to_le_bytes,
    spec_u64_to_le_bytes, u16_from_le_bytes, u16_to_le_bytes, u32_from_le_bytes, u32_to_le_bytes,
    u64_from_le_bytes, u64_to_le_bytes,
};

use crate::encoding::{
    concat_all, lemma_concat_all_take_full, lemma_concat_all_take_step, lemma_concat_all_uniform,
    lemma_subrange_left, lemma_subrange_of_subrange, lemma_subrange_right, push_all, u16_at, u32_at,
    u64_at,
};
use crate::ivf::IvfIndex;
use crate::knn::ReferenceEntry;

verus! {

/// The bytes "IVF1".
pub const INDEX_MAGIC: [u8; 4] = [73u8, 86u8, 70u8, 49u8];
/// Version 2: entry vectors are int16 (2 bytes per coordinate).
pub const INDEX_VERSION: u32 = 2;

/// Why a byte stream is not an index.
#[derive(Debug, Clone, Copy, PartialEq, Eq, Structural)]
pub enum IndexFormatError {
    /// The stream ends before the index does.
    Truncated,
    /// The stream does not start with "IVF1".
    BadMagic,
    /// The stream holds another format version.
    UnsupportedVersion(u32),
}

pub open spec fn centroid_bytes(c: [u32; 14]) -> Seq<u8> {
    concat_all(c@.map_values(|v: u32| spec_u32_to_le_bytes(v)))
}

pub open spec fn offset_bytes(o: usize) -> Seq<u8> {
    spec_u64_to_le_bytes(o as u64)
}

pub open spec fn entry_bytes(e: ReferenceEntry) -> Seq<u8> {
    concat_all(e.vector@.map_values(|v: i16| spec_u16_to_le_bytes(v as u16))) + seq![if e.is_fraud { 1u8 } else { 0u8 }]
}

pub open spec fn index_header_bytes(nlist: int, n_entries: int) -> Seq<u8> {
    INDEX_MAGIC@ + spec_u32_to_le_bytes(INDEX_VERSION) + spec_u64_to_le_bytes(nlist as u64) + spec_u64_to_le_bytes(n_entries as u64)
}

/// The serialized form of an index.
pub open spec fn encode_index(x: IvfIndex) -> Seq<u8> {
    index_header_bytes(x.centroids@.len() as int, x.entries@.len() as int)
        + concat_all(x.centroids@.map_values(|c: [u32; 14]| centroid_bytes(c)))
        + concat_all(x.list_offsets@.map_values(|o: usize| offset_bytes(o)))
        + concat_all(x.entries@.map_values(|e: ReferenceEntry| entry_bytes(e)))
}

pub open spec fn offsets_start(nlist: int) -> int {
    24 + 56 * nlist
}

pub open spec fn entries_start(nlist: int) -> int {
    offsets_start(nlist) + 8 * (nlist + 1)
}

/// Length of an index with `nlist` cells and `n` entries.
pub open spec fn index_len(nlist: int, n: int) -> int {
    entries_start(nlist) + 29 * n
}

pub open spec fn stored_nlist(b: Seq<u8>) -> int {
    u64_at(b, 8) as int
}

pub open spec fn stored_entries(b: Seq<u8>) -> int {
    u64_at(b, 16) as int
}

/// Why `b` does not start with an index, checked in the order the fields are
/// read; `None` when it does.
pub open spec fn index_parse_error(b: Seq<u8>) -> Option<IndexFormatError> {
    if b.len() < 4 {
        Some(IndexFormatError::Truncated)
    } else if b.subrange(0, 4) != INDEX_MAGIC@ {
        Some(IndexFormatError::BadMagic)
    } else if b.len() < 8 {
        Some(IndexFormatError::Truncated)
    } else if u32_at(b, 4) != INDEX_VERSION {
        Some(IndexFormatError::UnsupportedVersion(u32_at(b, 4)))
    } else if b.len() < 24 {
        Some(IndexFormatError::Truncated)
    } else if stored_nlist(b) > usize::MAX || stored_entries(b) > usize::MAX || index_len(stored_nlist(b), stored_entries(b)) > b.len() {
        Some(IndexFormatError::Truncated)
    } else {
        None
    }
}

/// Why the header at the start of `b` does not announce an index that fits in
/// memory, checked in the order the fields are read; `None` when it does. Only
/// the first 24 bytes matter.
pub open spec fn header_error(b: Seq<u8>) -> Option<IndexFormatError> {
    if b.len() < 4 {
        Some(IndexFormatError::Truncated)
    } else if b.subrange(0, 4) != INDEX_MAGIC@ {
        Some(IndexFormatError::BadMagic)
    } else if b.len() < 8 {
        Some(IndexFormatError::Truncated)
    } else if u32_at(b, 4) != INDEX_VERSION {
        Some(IndexFormatError::UnsupportedVersion(u32_at(b, 4)))
    } else if b.len() < 24 {
        Some(IndexFormatError::Truncated)
    } else if stored_nlist(b) > usize::MAX || stored_entries(b) > usize::MAX || index_len(stored_nlist(b), stored_entries(b)) > usize::MAX {
        Some(IndexFormatError::Truncated)
    } else {
        None
    }
}

/// `x` is the index whose fields `b` spells out.
pub open spec fn decodes_to(b: Seq<u8>, x: IvfIndex) -> bool {
    let nlist = stored_nlist(b);
    let n = stored_entries(b);
    &&& x.centroids@.len() == nlist
    &&& forall|c: int, d: int|
        #![trigger x.centroids@[c]@[d]]
        0 <= c < nlist && 0 <= d < 14 ==> x.centroids@[c]@[d] == u32_at(b, 24 + 56 * c + 4 * d)
    &&& x.list_offsets@.len() == nlist + 1
    &&& forall|c: int| 0 <= c <= nlist ==> #[trigger] x.list_offsets@[c] == u64_at(b, offsets_start(nlist) + 8 * c) as usize
    &&& x.entries@.len() == n
    &&& forall|e: int, d: int|
        #![trigger x.entries@[e].vector@[d]]
        0 <= e < n && 0 <= d < 14 ==> x.entries@[e].vector@[d] == u16_at(b, entries_start(nlist) + 29 * e + 2 * d) as i16
    &&& forall|e: int| 0 <= e < n ==> (#[trigger] x.entries@[e]).is_fraud == (b[entries_start(nlist) + 29 * e + 28] != 0)
}

proof fn lemma_i16_u16_roundtrip(v: i16)
    ensures
        (v as u16) as i16 == v,
{
    assert((v as u16) as i16 == v) by (bit_vector);
}

pub proof fn lemma_centroid_bytes(c: [u32; 14])
    ensures
        centroid_bytes(c).len() == 56,
        forall|d: int| 0 <= d < 14 ==> centroid_bytes(c).subrange(4 * d, 4 * d + 4) == spec_u32_to_le_bytes(#[trigger] c@[d]),
{
    lemma_auto_spec_u32_to_from_le_bytes();
    let chunks = c@.map_values(|v: u32| spec_u32_to_le_bytes(v));
    assert forall|i: int| 0 <= i < chunks.len() implies (#[trigger] chunks[i]).len() == 4 by {
        assert(chunks[i] == spec_u32_to_le_bytes(c@[i]));
    }
    lemma_concat_all_uniform(chunks, 4);
    assert forall|d: int| 0 <= d < 14 implies centroid_bytes(c).subrange(4 * d, 4 * d + 4) == spec_u32_to_le_bytes(#[trigger] c@[d]) by {
        assert(chunks[d] == spec_u32_to_le_bytes(c@[d]));
    }
}

pub proof fn lemma_entry_bytes(e: ReferenceEntry)
    ensures
        entry_bytes(e).len() == 29,
        forall|d: int| 0 <= d < 14 ==> entry_bytes(e).subrange(2 * d, 2 * d + 2) == spec_u16_to_le_bytes(#[trigger] e.vector@[d] as u16),
        entry_bytes(e)[28] == if e.is_fraud { 1u8 } else { 0u8 },
{
    lemma_auto_spec_u16_to_from_le_bytes();
    let chunks = e.vector@.map_values(|v: i16| spec_u16_to_le_bytes(v as u16));
    assert forall|i: int| 0 <= i < chunks.len() implies (#[trigger] chunks[i]).len() == 2 by {
        assert(chunks[i] == spec_u16_to_le_bytes(e.vector@[i] as u16));
    }
    lemma_concat_all_uniform(chunks, 2);
    let body = concat_all(chunks);
    let flag = seq![if e.is_fraud { 1u8 } else { 0u8 }];
    assert forall|d: int| 0 <= d < 14 implies entry_bytes(e).subrange(2 * d, 2 * d + 2) == spec_u16_to_le_bytes(#[trigger] e.vector@[d] as u16) by {
        assert(chunks[d] == spec_u16_to_le_bytes(e.vector@[d] as u16));
        lemma_subrange_left(body, flag, 2 * d, 2);
    }
}

/// The fields of an encoded index read back as that index's fields.
pub proof fn lemma_encode_index_fields(x: IvfIndex, rest: Seq<u8>)
    requires
        x.list_offsets@.len() == x.centroids@.len() + 1,
        x.centroids@.len() < usize::MAX,
        x.entries@.len() <= usize::MAX,
    ensures
        encode_index(x).len() == index_len(x.centroids@.len() as int, x.entries@.len() as int),
        index_parse_error(encode_index(x) + rest) is None,
        stored_nlist(encode_index(x) + rest) == x.centroids@.len(),
        stored_entries(encode_index(x) + rest) == x.entries@.len(),
        decodes_to(encode_index(x) + rest, x),
{
    lemma_auto_spec_u16_to_from_le_bytes();
    lemma_auto_spec_u32_to_from_le_bytes();
    lemma_auto_spec_u64_to_from_le_bytes();
    let nlist = x.centroids@.len() as int;
    let n = x.entries@.len() as int;
    let h = index_header_bytes(nlist, n);
    let cs = x.centroids@.map_values(|c: [u32; 14]| centroid_bytes(c));
    let os = x.list_offsets@.map_values(|o: usize| offset_bytes(o));
    let es = x.entries@.map_values(|e: ReferenceEntry| entry_bytes(e));
    let cb = concat_all(cs);
    let ob = concat_all(os);
    let eb = concat_all(es);
    let b = encode_index(x) + rest;
    assert(encode_index(x) == h + cb + ob + eb);
    assert(b == h + cb + ob + eb + rest);
    // lengths
    assert(h.len() == 24);
    assert forall|i: int| 0 <= i < cs.len() implies (#[trigger] cs[i]).len() == 56 by {
        lemma_centroid_bytes(x.centroids@[i]);
    }
    lemma_concat_all_uniform(cs, 56);
    assert forall|i: int| 0 <= i < os.len() implies (#[trigger] os[i]).len() == 8 by {
        assert(os[i] == spec_u64_to_le_bytes(x.list_offsets@[i] as u64));
    }
    lemma_concat_all_uniform(os, 8);
    assert forall|i: int| 0 <= i < es.len() implies (#[trigger] es[i]).len() == 29 by {
        lemma_entry_bytes(x.entries@[i]);
    }
    lemma_concat_all_uniform(es, 29);
    assert(encode_index(x).len() == index_len(nlist, n));
    let hc = h + cb;
    let hco = h + cb + ob;
    let hcoe = h + cb + ob + eb;
    // header fields
    let h1 = INDEX_MAGIC@ + spec_u32_to_le_bytes(INDEX_VERSION);
    let h2 = h1 + spec_u64_to_le_bytes(nlist as u64);
    assert(b.subrange(0, 4) =~= INDEX_MAGIC@);
    assert(b.subrange(4, 8) =~= spec_u32_to_le_bytes(INDEX_VERSION));
    assert(b.subrange(8, 16) =~= spec_u64_to_le_bytes(nlist as u64));
    assert(b.subrange(16, 24) =~= spec_u64_to_le_bytes(n as u64));
    assert(u32_at(b, 4) == INDEX_VERSION);
    assert(stored_nlist(b) == nlist);
    assert(stored_entries(b) == n);
    assert(index_parse_error(b) is None);
    // centroids
    assert forall|c: int, d: int| 0 <= c < nlist && 0 <= d < 14 implies #[trigger] x.centroids@[c]@[d] == u32_at(b, 24 + 56 * c + 4 * d) by {
        let p = 24 + 56 * c + 4 * d;
        lemma_subrange_left(hcoe, rest, p, 4);
        lemma_subrange_left(hco, eb, p, 4);
        lemma_subrange_left(hc, ob, p, 4);
        lemma_subrange_right(h, cb, p, 4);
        assert(b.subrange(p, p + 4) == cb.subrange(56 * c + 4 * d, 56 * c + 4 * d + 4));
        lemma_subrange_of_subrange(cb, 56 * c, 56, 4 * d, 4);
        assert(cb.subrange(56 * c, 56 * c + 56) == cs[c]);
        assert(cs[c] == centroid_bytes(x.centroids@[c]));
        lemma_centroid_bytes(x.centroids@[c]);
        assert(b.subrange(p, p + 4) == spec_u32_to_le_bytes(x.centroids@[c]@[d]));
    }
    // offsets
    assert forall|c: int| 0 <= c <= nlist implies #[trigger] x.list_offsets@[c] == u64_at(b, offsets_start(nlist) + 8 * c) as usize by {
        let p = offsets_start(nlist) + 8 * c;
        lemma_subrange_left(hcoe, rest, p, 8);
        lemma_subrange_left(hco, eb, p, 8);
        lemma_subrange_right(hc, ob, p, 8);
        assert(os[c] == spec_u64_to_le_bytes(x.list_offsets@[c] as u64));
    }
    // entries
    assert forall|e: int, d: int| 0 <= e < n && 0 <= d < 14 implies #[trigger] x.entries@[e].vector@[d] == u16_at(b, entries_start(nlist) + 29 * e + 2 * d) as i16 by {
        let p = entries_start(nlist) + 29 * e + 2 * d;
        lemma_subrange_left(hcoe, rest, p, 2);
        lemma_subrange_right(hco, eb, p, 2);
        lemma_subrange_of_subrange(eb, 29 * e, 29, 2 * d, 2);
        assert(eb.subrange(29 * e, 29 * e + 29) == es[e]);
        assert(es[e] == entry_bytes(x.entries@[e]));
        lemma_entry_bytes(x.entries@[e]);
        let v = x.entries@[e].vector@[d];
        assert(b.subrange(p, p + 2) == spec_u16_to_le_bytes(v as u16));
        assert(u16_at(b, p) == v as u16);
        lemma_i16_u16_roundtrip(v);
    }
    assert forall|e: int| 0 <= e < n implies (#[trigger] x.entries@[e]).is_fraud == (b[entries_start(nlist) + 29 * e + 28] != 0) by {
        let p = entries_start(nlist) + 29 * e + 28;
        lemma_subrange_left(hcoe, rest, p, 1);
        lemma_subrange_right(hco, eb, p, 1);
        lemma_subrange_of_subrange(eb, 29 * e, 29, 28, 1);
        assert(es[e] == entry_bytes(x.entries@[e]));
        lemma_entry_bytes(x.entries@[e]);
        assert(b.subrange(p, p + 1)[0] == b[p]);
        assert(entry_bytes(x.entries@[e]).subrange(28, 29)[0] == entry_bytes(x.entries@[e])[28]);
    }
}

/// Reading back a written index gives the same index: the bytes `to_bytes`
/// wrote (followed by anything) parse without error, `from_bytes` takes exactly
/// the written bytes, and whatever it decodes has the original's centroids,
/// offsets and entries.
pub proof fn lemma_index_roundtrip(x: IvfIndex, rest: Seq<u8>, y: IvfIndex)
    requires
        x.list_offsets@.len() == x.centroids@.len() + 1,
        x.centroids@.len() < usize::MAX,
        x.entries@.len() <= usize::MAX,
        decodes_to(encode_index(x) + rest, y),
    ensures
        index_parse_error(encode_index(x) + rest) is None,
        index_len(stored_nlist(encode_index(x) + rest), stored_entries(encode_index(x) + rest)) == encode_index(x).len(),
        y.centroids@ == x.centroids@,
        y.list_offsets@ == x.list_offsets@,
        y.entries@ == x.entries@,
{
    lemma_encode_index_fields(x, rest);
    let b = encode_index(x) + rest;
    let nlist = x.centroids@.len() as int;
    let n = x.entries@.len() as int;
    assert forall|c: int| 0 <= c < nlist implies #[trigger] y.centroids@[c] == x.centroids@[c] by {
        assert forall|d: int| 0 <= d < 14 implies y.centroids@[c]@[d] == x.centroids@[c]@[d] by {
            assert(y.centroids@[c]@[d] == u32_at(b, 24 + 56 * c + 4 * d));
            assert(x.centroids@[c]@[d] == u32_at(b, 24 + 56 * c + 4 * d));
        }
        assert(y.centroids@[c] =~= x.centroids@[c]);
    }
    assert(y.centroids@ =~= x.centroids@);
    assert forall|c: int| 0 <= c <= nlist implies #[trigger] y.list_offsets@[c] == x.list_offsets@[c] by {
        assert(y.list_offsets@[c] == u64_at(b, offsets_start(nlist) + 8 * c) as usize);
        assert(x.list_offsets@[c] == u64_at(b, offsets_start(nlist) + 8 * c) as usize);
    }
    assert(y.list_offsets@ =~= x.list_offsets@);
    assert forall|e: int| 0 <= e < n implies #[trigger] y.entries@[e] == x.entries@[e] by {
        assert forall|d: int| 0 <= d < 14 implies y.entries@[e].vector@[d] == x.entries@[e].vector@[d] by {
            assert(y.entries@[e].vector@[d] == u16_at(b, entries_start(nlist) + 29 * e + 2 * d) as i16);
            assert(x.entries@[e].vector@[d] == u16_at(b, entries_start(nlist) + 29 * e + 2 * d) as i16);
        }
        assert(y.entries@[e].vector =~= x.entries@[e].vector);
        assert(y.entries@[e].is_fraud == x.entries@[e].is_fraud);
    }
    assert(y.entries@ =~= x.entries@);
}


impl IvfIndex {
    /// Serialize the index (see the module documentation for the layout). Every
    /// entry of `list_offsets` is written.
    pub fn to_bytes(&self) -> (out: Vec<u8>)
        ensures
            out@ == encode_index(*self),
    {
        let mut out: Vec<u8> = Vec::new();
        out.push(INDEX_MAGIC[0]);
        out.push(INDEX_MAGIC[1]);
        out.push(INDEX_MAGIC[2]);
        out.push(INDEX_MAGIC[3]);
        assert(out@ =~= INDEX_MAGIC@);
        push_all(&mut out, &u32_to_le_bytes(INDEX_VERSION));
        push_all(&mut out, &u64_to_le_bytes(self.centroids.len() as u64));
        push_all(&mut out, &u64_to_le_bytes(self.entries.len() as u64));
        let ghost h = out@;
        assert(h == index_header_bytes(self.centroids@.len() as int, self.entries@.len() as int));
        let ghost cs = self.centroids@.map_values(|c: [u32; 14]| centroid_bytes(c));
        let mut c: usize = 0;
        while c < self.centroids.len()
            invariant
                c <= self.centroids@.len(),
                cs == self.centroids@.map_values(|c: [u32; 14]| centroid_bytes(c)),
                out@ == h + concat_all(cs.take(c as int)),
            decreases self.centroids@.len() - c,
        {
            let centroid = self.centroids[c];
            let ghost before = out@;
            let ghost inner = centroid@.map_values(|v: u32| spec_u32_to_le_bytes(v));
            let mut d: usize = 0;
            while d < 14
                invariant
                    d <= 14,
                    centroid@.len() == 14,
                    inner == centroid@.map_values(|v: u32| spec_u32_to_le_bytes(v)),
                    out@ == before + concat_all(inner.take(d as int)),
                decreases 14 - d,
            {
                push_all(&mut out, &u32_to_le_bytes(centroid[d]));
                proof {
                    lemma_concat_all_take_step(inner, d as int);
                    assert(out@ =~= before + concat_all(inner.take(d + 1)));
                }
                d = d + 1;
            }
            proof {
                lemma_concat_all_take_full(inner);
                lemma_concat_all_take_step(cs, c as int);
                assert(cs[c as int] == centroid_bytes(centroid));
                assert(out@ =~= h + concat_all(cs.take(c + 1)));
            }
            c = c + 1;
        }
        proof {
            lemma_concat_all_take_full(cs);
        }
        let ghost hc = out@;
        let ghost os = self.list_offsets@.map_values(|o: usize| offset_bytes(o));
        let mut c: usize = 0;
        while c < self.list_offsets.len()
            invariant
                c <= self.list_offsets@.len(),
                os == self.list_offsets@.map_values(|o: usize| offset_bytes(o)),
                out@ == hc + concat_all(os.take(c as int)),
            decreases self.list_offsets@.len() - c,
        {
            push_all(&mut out, &u64_to_le_bytes(self.list_offsets[c] as u64));
            proof {
                lemma_concat_all_take_step(os, c as int);
                assert(out@ =~= hc + concat_all(os.take(c + 1)));
            }
            c = c + 1;
        }
        proof {
            lemma_concat_all_take_full(os);
        }
        let ghost hco = out@;
        let ghost es = self.entries@.map_values(|e: ReferenceEntry| entry_bytes(e));
        let mut k: usize = 0;
        while k < self.entries.len()
            invariant
                k <= self.entries@.len(),
                es == self.entries@.map_values(|e: ReferenceEntry| entry_bytes(e)),
                out@ == hco + concat_all(es.take(k as int)),
            decreases self.entries@.len() - k,
        {
            let entry = self.entries[k];
            let ghost before = out@;
            let ghost inner = entry.vector@.map_values(|v: i16| spec_u16_to_le_bytes(v as u16));
            let mut d: usize = 0;
            while d < 14
                invariant
                    d <= 14,
                    entry.vector@.len() == 14,
                    inner == entry.vector@.map_values(|v: i16| spec_u16_to_le_bytes(v as u16)),
                    out@ == before + concat_all(inner.take(d as int)),
                decreases 14 - d,
            {
                push_all(&mut out, &u16_to_le_bytes(entry.vector[d] as u16));
                proof {
                    lemma_concat_all_take_step(inner, d as int);
                    assert(out@ =~= before + concat_all(inner.take(d + 1)));
                }
                d = d + 1;
            }
            let flag: u8 = if entry.is_fraud { 1 } else { 0 };
            out.push(flag);
            proof {
                lemma_concat_all_take_full(inner);
                lemma_concat_all_take_step(es, k as int);
                assert(es[k as int] == entry_bytes(entry));
                assert(out@ =~= hco + concat_all(es.take(k + 1)));
            }
            k = k + 1;
        }
        proof {
            lemma_concat_all_take_full(es);
        }
        out
    }

    /// The length of the whole index whose header starts `head`, so that a
    /// reader can take exactly that many bytes from a stream. Errors as
    /// `from_bytes` reports them for the header; an announced length that does
    /// not fit in memory is `Truncated`.
    pub fn stored_len(head: &[u8]) -> (r: Result<usize, IndexFormatError>)
        ensures
            header_error(head@) matches Some(err) ==> r == Err::<usize, IndexFormatError>(err),
            header_error(head@) is None ==> r == Ok::<usize, IndexFormatError>(
                index_len(stored_nlist(head@), stored_entries(head@)) as usize,
            ),
    {
        let len = head.len();
        if len < 4 {
            return Err(IndexFormatError::Truncated);
        }
        if !(head[0] == INDEX_MAGIC[0] && head[1] == INDEX_MAGIC[1] && head[2] == INDEX_MAGIC[2] && head[3] == INDEX_MAGIC[3]) {
            assert(head@.subrange(0, 4) != INDEX_MAGIC@) by {
                if head@.subrange(0, 4) == INDEX_MAGIC@ {
                    assert(head@.subrange(0, 4)[0] == head@[0]);
                    assert(head@.subrange(0, 4)[1] == head@[1]);
                    assert(head@.subrange(0, 4)[2] == head@[2]);
                    assert(head@.subrange(0, 4)[3] == head@[3]);
                }
            }
            return Err(IndexFormatError::BadMagic);
        }
        assert(head@.subrange(0, 4) =~= INDEX_MAGIC@);
        if len < 8 {
            return Err(IndexFormatError::Truncated);
        }
        let version = u32_from_le_bytes(vstd::slice::slice_subrange(head, 4, 8));
        if version != INDEX_VERSION {
            return Err(IndexFormatError::UnsupportedVersion(version));
        }
        if len < 24 {
            return Err(IndexFormatError::Truncated);
        }
        let nl = u64_from_le_bytes(vstd::slice::slice_subrange(head, 8, 16));
        let ne = u64_from_le_bytes(vstd::slice::slice_subrange(head, 16, 24));
        if nl as u128 > usize::MAX as u128 || ne as u128 > usize::MAX as u128 {
            return Err(IndexFormatError::Truncated);
        }
        let total: u128 = 24u128 + 56u128 * (nl as u128) + 8u128 * (nl as u128 + 1) + 29u128 * (ne as u128);
        assert(total == index_len(stored_nlist(head@), stored_entries(head@)));
        if total > usize::MAX as u128 {
            return Err(IndexFormatError::Truncated);
        }
        Ok(total as usize)
    }

    /// Read back an index written by `to_bytes` from the start of `bytes`,
    /// returning it with the number of bytes it took. Errors, in the order the
    /// fields are read: `Truncated` when the bytes end early, `BadMagic`, and
    /// `UnsupportedVersion`. The offsets are taken as stored, unchecked.
    pub fn from_bytes(bytes: &[u8]) -> (r: Result<(IvfIndex, usize), IndexFormatError>)
        ensures
            index_parse_error(bytes@) matches Some(err) ==> r == Err::<(IvfIndex, usize), IndexFormatError>(err),
            index_parse_error(bytes@) is None ==> (r matches Ok((x, used))
                && used == index_len(stored_nlist(bytes@), stored_entries(bytes@))
                && decodes_to(bytes@, x)),
    {
        let len = bytes.len();
        if len < 4 {
            return Err(IndexFormatError::Truncated);
        }
        if !(bytes[0] == INDEX_MAGIC[0] && bytes[1] == INDEX_MAGIC[1] && bytes[2] == INDEX_MAGIC[2] && bytes[3] == INDEX_MAGIC[3]) {
            assert(bytes@.subrange(0, 4) != INDEX_MAGIC@) by {
                if bytes@.subrange(0, 4) == INDEX_MAGIC@ {
                    assert(bytes@.subrange(0, 4)[0] == bytes@[0]);
                    assert(bytes@.subrange(0, 4)[1] == bytes@[1]);
                    assert(bytes@.subrange(0, 4)[2] == bytes@[2]);
                    assert(bytes@.subrange(0, 4)[3] == bytes@[3]);
                }
            }
            return Err(IndexFormatError::BadMagic);
        }
        assert(bytes@.subrange(0, 4) =~= INDEX_MAGIC@);
        if len < 8 {
            return Err(IndexFormatError::Truncated);
        }
        let version = u32_from_le_bytes(vstd::slice::slice_subrange(bytes, 4, 8));
        if version != INDEX_VERSION {
            return Err(IndexFormatError::UnsupportedVersion(version));
        }
        if len < 24 {
            return Err(IndexFormatError::Truncated);
        }
        let nl = u64_from_le_bytes(vstd::slice::slice_subrange(bytes, 8, 16));
        let ne = u64_from_le_bytes(vstd::slice::slice_subrange(bytes, 16, 24));
        if nl as u128 > usize::MAX as u128 || ne as u128 > usize::MAX as u128 {
            return Err(IndexFormatError::Truncated);
        }
        let total: u128 = 24u128 + 56u128 * (nl as u128) + 8u128 * (nl as u128 + 1) + 29u128 * (ne as u128);
        if total > len as u128 {
            return Err(IndexFormatError::Truncated);
        }
        let nlist = nl as usize;
        let n = ne as usize;
        let ghost b = bytes@;
        assert(nlist == stored_nlist(b));
        assert(n == stored_entries(b));
        assert(total == index_len(nlist as int, n as int));
        let mut pos: usize = 24;
        let mut centroids: Vec<[u32; 14]> = Vec::new();
        let mut c: usize = 0;
        while c < nlist
            invariant
                b == bytes@,
                len == b.len(),
                c <= nlist,
                nlist == stored_nlist(b),
                index_len(nlist as int, n as int) <= b.len(),
                pos == 24 + 56 * c,
                centroids@.len() == c,
                forall|c2: int, d: int|
                    #![trigger centroids@[c2]@[d]]
                    0 <= c2 < c && 0 <= d < 14 ==> centroids@[c2]@[d] == u32_at(b, 24 + 56 * c2 + 4 * d),
            decreases nlist - c,
        {
            let mut centroid = [0u32; 14];
            let mut d: usize = 0;
            while d < 14
                invariant
                    b == bytes@,
                len == b.len(),
                    c < nlist,
                    d <= 14,
                    index_len(nlist as int, n as int) <= b.len(),
                    pos == 24 + 56 * c + 4 * d,
                    centroid@.len() == 14,
                    forall|e: int| 0 <= e < d ==> centroid@[e] == u32_at(b, 24 + 56 * c + 4 * e),
                decreases 14 - d,
            {
                let v = u32_from_le_bytes(vstd::slice::slice_subrange(bytes, pos, pos + 4));
                centroid[d] = v;
                pos = pos + 4;
                d = d + 1;
            }
            centroids.push(centroid);
            c = c + 1;
        }
        let mut list_offsets: Vec<usize> = Vec::new();
        let mut c: usize = 0;
        while c <= nlist
            invariant
                b == bytes@,
                len == b.len(),
                c <= nlist + 1,
                nlist == stored_nlist(b),
                index_len(nlist as int, n as int) <= b.len(),
                pos == offsets_start(nlist as int) + 8 * c,
                list_offsets@.len() == c,
                forall|c2: int| 0 <= c2 < c ==> #[trigger] list_offsets@[c2] == u64_at(b, offsets_start(nlist as int) + 8 * c2) as usize,
            decreases nlist + 1 - c,
        {
            let v = u64_from_le_bytes(vstd::slice::slice_subrange(bytes, pos, pos + 8));
            list_offsets.push(v as usize);
            pos = pos + 8;
            c = c + 1;
        }
        let mut entries: Vec<ReferenceEntry> = Vec::new();
        let mut k: usize = 0;
        while k < n
            invariant
                b == bytes@,
                len == b.len(),
                k <= n,
                nlist == stored_nlist(b),
                n == stored_entries(b),
                index_len(nlist as int, n as int) <= b.len(),
                pos == entries_start(nlist as int) + 29 * k,
                entries@.len() == k,
                forall|e: int, d: int|
                    #![trigger entries@[e].vector@[d]]
                    0 <= e < k && 0 <= d < 14 ==> entries@[e].vector@[d] == u16_at(b, entries_start(nlist as int) + 29 * e + 2 * d) as i16,
                forall|e: int| 0 <= e < k ==> (#[trigger] entries@[e]).is_fraud == (b[entries_start(nlist as int) + 29 * e + 28] != 0),
            decreases n - k,
        {
            let mut vector = [0i16; 14];
            let mut d: usize = 0;
            while d < 14
                invariant
                    b == bytes@,
                len == b.len(),
                    k < n,
                    d <= 14,
                    index_len(nlist as int, n as int) <= b.len(),
                    pos == entries_start(nlist as int) + 29 * k + 2 * d,
                    vector@.len() == 14,
                    forall|e: int| 0 <= e < d ==> vector@[e] == u16_at(b, entries_start(nlist as int) + 29 * k + 2 * e) as i16,
                decreases 14 - d,
            {
                let v = u16_from_le_bytes(vstd::slice::slice_subrange(bytes, pos, pos + 2));
                vector[d] = v as i16;
                pos = pos + 2;
                d = d + 1;
            }
            let is_fraud = bytes[pos] != 0;
            entries.push(ReferenceEntry { vector, is_fraud });
            pos = pos + 1;
            k = k + 1;
        }
        let index = IvfIndex { centroids, list_offsets, entries };
        Ok((index, total as usize))
    }
}

} // verus!
