//! Little-endian byte layouts: fixed-width fields laid one after another.
use vstd::prelude::*;
use vstd::bytes::{spec_u16_from_le_bytes, spec_u32_from_le_bytes, spec_u64_from_le_bytes};

verus! {

/// The chunks laid one after another.
pub open spec fn concat_all(chunks: Seq<Seq<u8>>) -> Seq<u8>
    decreases chunks.len(),
{
    if chunks.len() == 0 {
        Seq::empty()
    } else {
        concat_all(chunks.drop_last()) + chunks.last()
    }
}

pub proof fn lemma_concat_all_take_step(chunks: Seq<Seq<u8>>, i: int)
    requires
        0 <= i < chunks.len(),
    ensures
        concat_all(chunks.take(i + 1)) == concat_all(chunks.take(i)) + chunks[i],
{
    assert(chunks.take(i + 1).drop_last() =~= chunks.take(i));
}

pub proof fn lemma_concat_all_take_full(chunks: Seq<Seq<u8>>)
    ensures
        concat_all(chunks.take(chunks.len() as int)) == concat_all(chunks),
{
    assert(chunks.take(chunks.len() as int) =~= chunks);
}

/// When every chunk is `w` bytes long, chunk `i` sits at bytes `w*i .. w*i + w`.
pub proof fn lemma_concat_all_uniform(chunks: Seq<Seq<u8>>, w: int)
    requires
        w >= 0,
        forall|i: int| 0 <= i < chunks.len() ==> (#[trigger] chunks[i]).len() == w,
    ensures
        concat_all(chunks).len() == w * chunks.len(),
        forall|i: int| 0 <= i < chunks.len() ==> concat_all(chunks).subrange(w * i, w * i + w) == #[trigger] chunks[i],
    decreases chunks.len(),
{
    if chunks.len() > 0 {
        let n = chunks.len() as int;
        let prev = chunks.drop_last();
        lemma_concat_all_uniform(prev, w);
        assert(w * (n - 1) + w == w * n) by (nonlinear_arith);
        let all = concat_all(chunks);
        assert(all == concat_all(prev) + chunks.last());
        assert forall|i: int| 0 <= i < n implies all.subrange(w * i, w * i + w) == #[trigger] chunks[i] by {
            if i < n - 1 {
                assert(w * i + w <= w * (n - 1)) by (nonlinear_arith)
                    requires
                        i <= n - 2,
                        w >= 0,
                ;
                assert(0 <= w * i) by (nonlinear_arith)
                    requires
                        i >= 0,
                        w >= 0,
                ;
                assert(prev[i] == chunks[i]);
                assert(all.subrange(w * i, w * i + w) =~= concat_all(prev).subrange(w * i, w * i + w));
            } else {
                assert(all.subrange(w * i, w * i + w) =~= chunks.last());
            }
        }
    }
}

/// Bytes `p .. p + len` of `a + b`, when they lie inside `b`.
pub proof fn lemma_subrange_right(a: Seq<u8>, b: Seq<u8>, p: int, len: int)
    requires
        a.len() <= p,
        0 <= len,
        p + len <= a.len() + b.len(),
    ensures
        (a + b).subrange(p, p + len) == b.subrange(p - a.len(), p - a.len() + len),
{
    assert((a + b).subrange(p, p + len) =~= b.subrange(p - a.len(), p - a.len() + len));
}

/// Bytes `p .. p + len` of `a + b`, when they lie inside `a`.
pub proof fn lemma_subrange_left(a: Seq<u8>, b: Seq<u8>, p: int, len: int)
    requires
        0 <= p,
        0 <= len,
        p + len <= a.len(),
    ensures
        (a + b).subrange(p, p + len) == a.subrange(p, p + len),
{
    assert((a + b).subrange(p, p + len) =~= a.subrange(p, p + len));
}

/// Bytes `q .. q + len` of a subrange starting at `p`.
pub proof fn lemma_subrange_of_subrange(s: Seq<u8>, p: int, n: int, q: int, len: int)
    requires
        0 <= p,
        p + n <= s.len(),
        0 <= q,
        0 <= len,
        q + len <= n,
    ensures
        s.subrange(p, p + n).subrange(q, q + len) == s.subrange(p + q, p + q + len),
{
    assert(s.subrange(p, p + n).subrange(q, q + len) =~= s.subrange(p + q, p + q + len));
}

/// The little-endian `u16` at byte `p`.
pub open spec fn u16_at(bytes: Seq<u8>, p: int) -> u16 {
    spec_u16_from_le_bytes(bytes.subrange(p, p + 2))
}

/// The little-endian `u32` at byte `p`.
pub open spec fn u32_at(bytes: Seq<u8>, p: int) -> u32 {
    spec_u32_from_le_bytes(bytes.subrange(p, p + 4))
}

/// The little-endian `u64` at byte `p`.
pub open spec fn u64_at(bytes: Seq<u8>, p: int) -> u64 {
    spec_u64_from_le_bytes(bytes.subrange(p, p + 8))
}

/// Appends `bytes` to `out`.
pub fn push_all(out: &mut Vec<u8>, bytes: &Vec<u8>)
    ensures
        final(out)@ == old(out)@ + bytes@,
{
    let mut i: usize = 0;
    while i < bytes.len()
        invariant
            i <= bytes@.len(),
            out@ == old(out)@ + bytes@.take(i as int),
        decreases bytes@.len() - i,
    {
        out.push(bytes[i]);
        i = i + 1;
        assert(out@ =~= old(out)@ + bytes@.take(i as int));
    }
    assert(bytes@.take(bytes@.len() as int) =~= bytes@);
}

} // verus!
