//! Measurement of the IVF index against brute force: how many of the true five
//! nearest neighbours a probe finds, whether the approve/reject decision agrees,
//! and how many entries a probe scans.
use vstd::prelude::*;

use crate::distance::sq_dist;
use crate::ivf::{
    lemma_all_cells_cover, lemma_nearest_cells_all, lemma_nearest_cells_valid, lemma_probed_positions, nearest_cells_of,
    IvfIndex,
};
use crate::knn::{approved_by, fraud_votes, is_approved, ReferenceEntry, K_NEIGHBORS};
use crate::selection::{
    distinct_ids, ids_of, k_nearest, lemma_k_nearest_kept_in_larger_pool, lemma_k_nearest_len, lemma_k_nearest_prefix,
    lemma_k_nearest_same_members, Candidate, NearestK,
};

verus! {

/// The candidates of the given positions of `entries`: squared distance to the
/// query, identified by position.
pub open spec fn position_pool(query: Seq<i16>, entries: Seq<ReferenceEntry>, positions: Seq<usize>) -> Seq<Candidate> {
    Seq::new(positions.len(), |j: int| (sq_dist(query, entries[positions[j] as int].vector@) as u64, positions[j]))
}

/// The five nearest of the given positions, nearest first; a tie in distance
/// goes to the lower position.
pub open spec fn nearest_positions(query: Seq<i16>, entries: Seq<ReferenceEntry>, positions: Seq<usize>) -> Seq<usize> {
    ids_of(k_nearest(position_pool(query, entries, positions), K_NEIGHBORS as int))
}

/// Every position of a sequence of length `n`.
pub open spec fn all_positions(n: int) -> Seq<usize> {
    Seq::new(n as nat, |i: int| i as usize)
}

/// The true five nearest entries of the index (positions in `entries`).
pub open spec fn brute_truth(index: IvfIndex, query: Seq<i16>) -> Seq<usize> {
    nearest_positions(query, index.entries@, all_positions(index.entries@.len() as int))
}

/// The five nearest entries a probe of `nprobe` cells finds.
pub open spec fn ivf_found(index: IvfIndex, query: Seq<i16>, cell_keys: Seq<u64>, nprobe: int) -> Seq<usize> {
    nearest_positions(query, index.entries@, index.probed_positions(nearest_cells_of(cell_keys, nprobe)))
}

/// How many of `truth` are in `got`.
pub open spec fn overlap_count(truth: Seq<usize>, got: Seq<usize>) -> nat
    decreases truth.len(),
{
    if truth.len() == 0 {
        0
    } else {
        overlap_count(truth.drop_last(), got) + if got.contains(truth.last()) { 1nat } else { 0nat }
    }
}

/// Entries scanned by a probe of `nprobe` cells.
pub open spec fn candidates_scanned(index: IvfIndex, cell_keys: Seq<u64>, nprobe: int) -> int {
    index.probed_positions(nearest_cells_of(cell_keys, nprobe)).len() as int
}

/// The approve/reject decision of a probe of `nprobe` cells matches the exact one.
pub open spec fn decision_agrees(index: IvfIndex, query: Seq<i16>, cell_keys: Seq<u64>, nprobe: int) -> bool {
    approved_by(fraud_votes(query, index.probed_entries(nearest_cells_of(cell_keys, index.cell_count()))) as int)
        == approved_by(fraud_votes(query, index.probed_entries(nearest_cells_of(cell_keys, nprobe))) as int)
}

/// Over the first `n` queries: how many decisions agree.
pub open spec fn agreements(index: IvfIndex, queries: Seq<[i16; 14]>, keys: Seq<Vec<u64>>, nprobe: int, n: int) -> nat
    decreases n,
{
    if n <= 0 {
        0
    } else {
        agreements(index, queries, keys, nprobe, n - 1) + if decision_agrees(index, queries[n - 1]@, keys[n - 1]@, nprobe) { 1nat } else { 0nat }
    }
}

/// Over the first `n` queries: entries scanned in all.
pub open spec fn total_candidates(index: IvfIndex, keys: Seq<Vec<u64>>, nprobe: int, n: int) -> int
    decreases n,
{
    if n <= 0 {
        0
    } else {
        total_candidates(index, keys, nprobe, n - 1) + candidates_scanned(index, keys[n - 1]@, nprobe)
    }
}

/// Over the first `n` queries: how many of the true five nearest the probes found, in all.
pub open spec fn total_overlap(index: IvfIndex, queries: Seq<[i16; 14]>, keys: Seq<Vec<u64>>, nprobe: int, n: int) -> int
    decreases n,
{
    if n <= 0 {
        0
    } else {
        total_overlap(index, queries, keys, nprobe, n - 1) + overlap_count(
            brute_truth(index, queries[n - 1]@),
            ivf_found(index, queries[n - 1]@, keys[n - 1]@, nprobe),
        )
    }
}

/// The sum of a sequence of counts.
pub open spec fn sum_of(s: Seq<usize>) -> int
    decreases s.len(),
{
    if s.len() == 0 {
        0
    } else {
        sum_of(s.drop_last()) + s.last()
    }
}

/// The integer counts of an evaluation run; the report divides them.
#[derive(Debug)]
pub struct EvalCounts {
    pub queries: usize,
    pub nprobe: usize,
    /// Per query, how many of the true five nearest the probe found.
    pub overlaps: Vec<usize>,
    /// Queries whose approve/reject decision matched brute force.
    pub decisions_agreeing: usize,
    /// Entries scanned over all queries.
    pub candidates: usize,
}

/// Keep the five smallest `(distance, position)` pairs of the given positions.
/// The positions must be distinct: both callers scan each entry at most once
/// (every position of the index, or the positions of distinct cells of a
/// valid index, whose lists do not overlap), so a pair can never be offered
/// twice.
fn top5_positions(query: &[i16; 14], entries: &[ReferenceEntry], positions: &Vec<usize>) -> (top: Vec<usize>)
    requires
        positions@.no_duplicates(),
        forall|j: int| 0 <= j < positions@.len() ==> (#[trigger] positions@[j] as int) < entries@.len(),
    ensures
        top@ == nearest_positions(query@, entries@, positions@),
{
    let ghost pool = position_pool(query@, entries@, positions@);
    let mut best = NearestK::new(K_NEIGHBORS);
    let mut j: usize = 0;
    while j < positions.len()
        invariant
            j <= positions@.len(),
            positions@.no_duplicates(),
            forall|i: int| 0 <= i < positions@.len() ==> (#[trigger] positions@[i] as int) < entries@.len(),
            pool == position_pool(query@, entries@, positions@),
            best.wf(),
            best.capacity() == K_NEIGHBORS,
            best.offered() =~= pool.take(j as int),
        decreases positions@.len() - j,
    {
        let p = positions[j];
        let d = crate::distance::squared_distance_i16(query, &entries[p].vector);
        proof {
            crate::distance::lemma_sq_dist_bounds(query@, entries@[p as int].vector@);
            assert forall|i: int| 0 <= i < best.offered().len() implies (#[trigger] best.offered()[i]).1 != p by {
                assert(best.offered()[i] == pool[i]);
                assert(positions@[i] != positions@[j as int]);
            }
        }
        best.offer(d, p);
        j = j + 1;
    }
    assert(pool.take(positions@.len() as int) =~= pool);
    let sel = best.selected();
    let mut top: Vec<usize> = Vec::new();
    let mut i: usize = 0;
    while i < sel.len()
        invariant
            i <= sel@.len(),
            top@ == ids_of(sel@).take(i as int),
        decreases sel@.len() - i,
    {
        top.push(sel[i].1);
        i = i + 1;
    }
    assert(ids_of(sel@).take(sel@.len() as int) =~= ids_of(sel@));
    top
}

/// The five true nearest entries (positions in `entries`), scanning everything.
pub fn brute_top5(index: &IvfIndex, query: &[i16; 14]) -> (top: Vec<usize>)
    ensures
        top@ == brute_truth(*index, query@),
{
    let n = index.entries.len();
    let mut positions: Vec<usize> = Vec::new();
    let mut i: usize = 0;
    while i < n
        invariant
            i <= n,
            n == index.entries@.len(),
            positions@ == all_positions(i as int),
        decreases n - i,
    {
        positions.push(i);
        i = i + 1;
        assert(positions@ =~= all_positions(i as int));
    }
    top5_positions(query, index.entries.as_slice(), &positions)
}

/// The positions of the entries of the given cells, cell after cell.
fn gather_positions(index: &IvfIndex, cells: &Vec<usize>) -> (positions: Vec<usize>)
    requires
        index.lists_ok(),
        cells@.no_duplicates(),
        forall|t: int| 0 <= t < cells@.len() ==> (#[trigger] cells@[t] as int) < index.cell_count(),
    ensures
        positions@ == index.probed_positions(cells@),
{
    let mut positions: Vec<usize> = Vec::new();
    let mut t: usize = 0;
    while t < cells.len()
        invariant
            t <= cells@.len(),
            index.lists_ok(),
            forall|u: int| 0 <= u < cells@.len() ==> (#[trigger] cells@[u] as int) < index.cell_count(),
            positions@ == index.probed_positions(cells@.take(t as int)),
        decreases cells@.len() - t,
    {
        let c = cells[t];
        assert(index.list_ok(c as int));
        let noffsets = index.list_offsets.len();
        assert(c + 1 < noffsets);
        let start = index.list_offsets[c];
        let end = index.list_offsets[c + 1];
        let ghost before = positions@;
        let mut p = start;
        while p < end
            invariant
                start <= p <= end,
                positions@ == before + Seq::new((p - start) as nat, |j: int| (start + j) as usize),
            decreases end - p,
        {
            positions.push(p);
            p = p + 1;
            assert(positions@ =~= before + Seq::new((p - start) as nat, |j: int| (start + j) as usize));
        }
        assert(cells@.take(t + 1).drop_last() =~= cells@.take(t as int));
        assert(cells@.take(t + 1).last() == c);
        t = t + 1;
    }
    assert(cells@.take(cells@.len() as int) =~= cells@);
    positions
}

/// The five nearest entries an IVF probe finds (positions in `entries`),
/// scanning only the `nprobe` cells nearest by `cell_keys`.
pub fn ivf_top5(index: &IvfIndex, query: &[i16; 14], cell_keys: &[u64], nprobe: usize) -> (top: Vec<usize>)
    requires
        index.lists_ok(),
        cell_keys@.len() == index.cell_count(),
    ensures
        top@ == ivf_found(*index, query@, cell_keys@, nprobe as int),
{
    let nkeys = cell_keys.len();
    let cells = index.nearest_cells(cell_keys, nprobe);
    proof {
        lemma_nearest_cells_valid(cell_keys@, nprobe as int);
        lemma_probed_positions(*index, cells@);
    }
    let positions = gather_positions(index, &cells);
    top5_positions(query, index.entries.as_slice(), &positions)
}

/// How many of `truth` are in `got`.
fn count_overlap(truth: &Vec<usize>, got: &Vec<usize>) -> (n: usize)
    ensures
        n == overlap_count(truth@, got@),
        n <= truth@.len(),
{
    let mut n: usize = 0;
    let mut i: usize = 0;
    while i < truth.len()
        invariant
            i <= truth@.len(),
            n == overlap_count(truth@.take(i as int), got@),
            n <= i,
        decreases truth@.len() - i,
    {
        let t = truth[i];
        let mut found = false;
        let mut j: usize = 0;
        while j < got.len()
            invariant
                j <= got@.len(),
                found == exists|k: int| 0 <= k < j && got@[k] == t,
            decreases got@.len() - j,
        {
            if got[j] == t {
                found = true;
            }
            j = j + 1;
        }
        assert(truth@.take(i + 1).drop_last() =~= truth@.take(i as int));
        if found {
            n = n + 1;
        }
        i = i + 1;
    }
    assert(truth@.take(truth@.len() as int) =~= truth@);
    n
}

/// Run a batch of queries through both paths. `cell_keys[q]` orders query `q`'s
/// distances to the centroids. For each query: the overlap of the probe's five
/// nearest with the true five nearest, whether the approve/reject decision of
/// the probe matches the exact one (a probe of every cell), and the entries the
/// probe scans.
pub fn evaluate_counts(index: &IvfIndex, queries: &[[i16; 14]], cell_keys: &[Vec<u64>], nprobe: usize) -> (counts: EvalCounts)
    requires
        index.lists_ok(),
        cell_keys@.len() == queries@.len(),
        forall|q: int| 0 <= q < cell_keys@.len() ==> (#[trigger] cell_keys@[q])@.len() == index.cell_count(),
        total_candidates(*index, cell_keys@, nprobe as int, queries@.len() as int) <= usize::MAX,
    ensures
        counts.queries == queries@.len(),
        counts.nprobe == nprobe,
        counts.overlaps@.len() == queries@.len(),
        forall|q: int| 0 <= q < queries@.len() ==> #[trigger] counts.overlaps@[q] == overlap_count(
            brute_truth(*index, queries@[q]@),
            ivf_found(*index, queries@[q]@, cell_keys@[q]@, nprobe as int),
        ),
        counts.decisions_agreeing == agreements(*index, queries@, cell_keys@, nprobe as int, queries@.len() as int),
        counts.candidates == total_candidates(*index, cell_keys@, nprobe as int, queries@.len() as int),
        sum_of(counts.overlaps@) == total_overlap(*index, queries@, cell_keys@, nprobe as int, queries@.len() as int),
{
    let nlist = index.nlist();
    let mut overlaps: Vec<usize> = Vec::new();
    let mut agree: usize = 0;
    let mut candidates: usize = 0;
    let mut q: usize = 0;
    while q < queries.len()
        invariant
            q <= queries@.len(),
            nlist == index.cell_count(),
            index.lists_ok(),
            cell_keys@.len() == queries@.len(),
            forall|r: int| 0 <= r < cell_keys@.len() ==> (#[trigger] cell_keys@[r])@.len() == index.cell_count(),
            total_candidates(*index, cell_keys@, nprobe as int, queries@.len() as int) <= usize::MAX,
            overlaps@.len() == q,
            sum_of(overlaps@) == total_overlap(*index, queries@, cell_keys@, nprobe as int, q as int),
            forall|r: int| 0 <= r < q ==> #[trigger] overlaps@[r] == overlap_count(
                brute_truth(*index, queries@[r]@),
                ivf_found(*index, queries@[r]@, cell_keys@[r]@, nprobe as int),
            ),
            agree == agreements(*index, queries@, cell_keys@, nprobe as int, q as int),
            agree <= q,
            candidates == total_candidates(*index, cell_keys@, nprobe as int, q as int),
        decreases queries@.len() - q,
    {
        let query = &queries[q];
        let keys = cell_keys[q].as_slice();
        let truth = brute_top5(index, query);
        let got = ivf_top5(index, query, keys, nprobe);
        let overlap = count_overlap(&truth, &got);
        let ghost before = overlaps@;
        overlaps.push(overlap);
        assert(overlaps@.drop_last() =~= before);
        proof {
            lemma_nearest_cells_valid(keys@, nlist as int);
            lemma_nearest_cells_valid(keys@, nprobe as int);
        }
        let exact = index.fraud_score(query, keys, nlist);
        let approx = index.fraud_score(query, keys, nprobe);
        if is_approved(exact) == is_approved(approx) {
            agree = agree + 1;
        }
        let nkeys = keys.len();
        let cells = index.nearest_cells(keys, nprobe);
        proof {
            lemma_nearest_cells_valid(keys@, nprobe as int);
            lemma_probed_positions(*index, cells@);
            lemma_total_candidates_mono(*index, cell_keys@, nprobe as int, q + 1, queries@.len() as int);
        }
        let positions = gather_positions(index, &cells);
        candidates = candidates + positions.len();
        q = q + 1;
    }
    EvalCounts { queries: queries.len(), nprobe, overlaps, decisions_agreeing: agree, candidates }
}

/// The running total of scanned entries only grows with the number of queries.
proof fn lemma_total_candidates_mono(index: IvfIndex, keys: Seq<Vec<u64>>, nprobe: int, m: int, n: int)
    requires
        m <= n,
    ensures
        total_candidates(index, keys, nprobe, m) <= total_candidates(index, keys, nprobe, n),
    decreases n - m,
{
    if m < n {
        lemma_total_candidates_mono(index, keys, nprobe, m, n - 1);
    }
}

/// The candidate of position `p`.
pub open spec fn position_candidate(query: Seq<i16>, entries: Seq<ReferenceEntry>, p: usize) -> Candidate {
    (sq_dist(query, entries[p as int].vector@) as u64, p)
}

proof fn lemma_position_pool_members(query: Seq<i16>, entries: Seq<ReferenceEntry>, positions: Seq<usize>)
    ensures
        forall|c: Candidate| #[trigger] position_pool(query, entries, positions).contains(c) ==> positions.contains(c.1) && c == position_candidate(query, entries, c.1),
        forall|p: usize| #[trigger] positions.contains(p) ==> position_pool(query, entries, positions).contains(position_candidate(query, entries, p)),
{
    let pool = position_pool(query, entries, positions);
    assert forall|c: Candidate| #[trigger] pool.contains(c) implies positions.contains(c.1) && c == position_candidate(query, entries, c.1) by {
        let j = choose|j: int| 0 <= j < pool.len() && pool[j] == c;
        assert(positions[j] == c.1);
    }
    assert forall|p: usize| #[trigger] positions.contains(p) implies pool.contains(position_candidate(query, entries, p)) by {
        let j = choose|j: int| 0 <= j < positions.len() && positions[j] == p;
        assert(pool[j] == position_candidate(query, entries, p));
    }
}

proof fn lemma_overlap_self(s: Seq<usize>, got: Seq<usize>)
    requires
        forall|i: int| 0 <= i < s.len() ==> got.contains(#[trigger] s[i]),
    ensures
        overlap_count(s, got) == s.len(),
    decreases s.len(),
{
    if s.len() > 0 {
        assert(got.contains(s[s.len() - 1]));
        lemma_overlap_self(s.drop_last(), got);
    }
}

proof fn lemma_overlap_mono(truth: Seq<usize>, got1: Seq<usize>, got2: Seq<usize>)
    requires
        forall|i: int| 0 <= i < truth.len() && got1.contains(#[trigger] truth[i]) ==> got2.contains(truth[i]),
    ensures
        overlap_count(truth, got1) <= overlap_count(truth, got2),
    decreases truth.len(),
{
    if truth.len() > 0 {
        let prefix = truth.drop_last();
        assert forall|i: int| 0 <= i < prefix.len() && got1.contains(#[trigger] prefix[i]) implies got2.contains(prefix[i]) by {
            assert(prefix[i] == truth[i]);
        }
        lemma_overlap_mono(prefix, got1, got2);
        if got1.contains(truth.last()) {
            assert(got1.contains(truth[truth.len() - 1]));
        }
    }
}

proof fn lemma_all_positions(n: int)
    requires
        0 <= n <= usize::MAX,
    ensures
        all_positions(n).no_duplicates(),
        forall|p: usize| #[trigger] all_positions(n).contains(p) <==> (p as int) < n,
{
    let s = all_positions(n);
    assert forall|p: usize| #[trigger] s.contains(p) <==> (p as int) < n by {
        if (p as int) < n {
            assert(s[p as int] == p);
        }
    }
}

/// Probing every cell of a partitioned index finds exactly the true five
/// nearest entries: full recall, and the same approve/reject decision as the
/// exact search.
pub proof fn lemma_full_probe_is_exact(index: IvfIndex, query: Seq<i16>, cell_keys: Seq<u64>, nprobe: int)
    requires
        index.is_partition(),
        index.cell_count() <= usize::MAX,
        index.entries@.len() <= usize::MAX,
        cell_keys.len() == index.cell_count(),
        nprobe >= index.cell_count(),
    ensures
        ivf_found(index, query, cell_keys, nprobe) == brute_truth(index, query),
        overlap_count(brute_truth(index, query), ivf_found(index, query, cell_keys, nprobe)) == brute_truth(index, query).len(),
        decision_agrees(index, query, cell_keys, nprobe),
{
    let entries = index.entries@;
    let n = entries.len() as int;
    let cells = nearest_cells_of(cell_keys, nprobe);
    lemma_nearest_cells_all(cell_keys, nprobe);
    lemma_probed_positions(index, cells);
    let probed = index.probed_positions(cells);
    let all = all_positions(n);
    lemma_all_positions(n);
    lemma_position_pool_members(query, entries, probed);
    lemma_position_pool_members(query, entries, all);
    let p1 = position_pool(query, entries, probed);
    let p2 = position_pool(query, entries, all);
    assert forall|c: Candidate| p1.contains(c) <==> p2.contains(c) by {
        if p1.contains(c) {
            assert(probed.contains(c.1));
            let i = choose|i: int| 0 <= i < probed.len() && probed[i] == c.1;
            assert(all.contains(c.1));
        }
        if p2.contains(c) {
            assert(all.contains(c.1));
            lemma_all_cells_cover(index, cells, c.1 as int);
            assert(probed.contains(c.1));
        }
    }
    lemma_k_nearest_same_members(p1, p2, K_NEIGHBORS as int);
    let truth = brute_truth(index, query);
    lemma_overlap_self(truth, truth);
    // the exact search probes every cell in the same order
    crate::ivf::lemma_cell_pool_distinct(cell_keys);
    lemma_k_nearest_prefix(crate::ivf::cell_pool(cell_keys), index.cell_count(), nprobe);
    lemma_k_nearest_len(crate::ivf::cell_pool(cell_keys), index.cell_count());
    lemma_k_nearest_len(crate::ivf::cell_pool(cell_keys), nprobe);
    let s1 = k_nearest(crate::ivf::cell_pool(cell_keys), index.cell_count());
    let s2 = k_nearest(crate::ivf::cell_pool(cell_keys), nprobe);
    assert(s2.take(s1.len() as int) =~= s2);
    assert(nearest_cells_of(cell_keys, index.cell_count()) == nearest_cells_of(cell_keys, nprobe));
}

proof fn lemma_ids_of_take(sel: Seq<Candidate>, m: int)
    requires
        0 <= m <= sel.len(),
    ensures
        ids_of(sel.take(m)) == ids_of(sel).take(m),
{
    assert(ids_of(sel.take(m)) =~= ids_of(sel).take(m));
}

proof fn lemma_probed_prefix(index: IvfIndex, cells: Seq<usize>, m: int)
    requires
        index.lists_ok(),
        0 <= m <= cells.len(),
        forall|t: int| 0 <= t < cells.len() ==> (#[trigger] cells[t] as int) < index.cell_count(),
    ensures
        index.probed_positions(cells.take(m)).len() <= index.probed_positions(cells).len(),
        forall|i: int| 0 <= i < index.probed_positions(cells.take(m)).len() ==> #[trigger] index.probed_positions(cells.take(m))[i] == index.probed_positions(cells)[i],
    decreases cells.len() - m,
{
    if m < cells.len() {
        let prefix = cells.drop_last();
        assert(prefix.take(m) =~= cells.take(m));
        assert forall|t: int| 0 <= t < prefix.len() implies (#[trigger] prefix[t] as int) < index.cell_count() by {
            assert(prefix[t] == cells[t]);
        }
        lemma_probed_prefix(index, prefix, m);
        assert(index.list_ok(cells.last() as int));
    } else {
        assert(cells.take(m) =~= cells);
    }
}

/// Probing fewer cells never scans more entries.
pub proof fn lemma_fewer_probes_scan_fewer(index: IvfIndex, cell_keys: Seq<u64>, nprobe1: int, nprobe2: int)
    requires
        index.lists_ok(),
        cell_keys.len() == index.cell_count(),
        cell_keys.len() <= usize::MAX,
        0 <= nprobe1 <= nprobe2,
    ensures
        candidates_scanned(index, cell_keys, nprobe1) <= candidates_scanned(index, cell_keys, nprobe2),
{
    let pool = crate::ivf::cell_pool(cell_keys);
    crate::ivf::lemma_cell_pool_distinct(cell_keys);
    lemma_k_nearest_prefix(pool, nprobe1, nprobe2);
    let s1 = k_nearest(pool, nprobe1);
    let s2 = k_nearest(pool, nprobe2);
    lemma_ids_of_take(s2, s1.len() as int);
    lemma_nearest_cells_valid(cell_keys, nprobe2);
    lemma_probed_prefix(index, ids_of(s2), s1.len() as int);
}

/// Probing more cells never loses a true nearest entry that fewer probes found,
/// so recall never drops as `nprobe` grows.
pub proof fn lemma_more_probes_keep_recall(index: IvfIndex, query: Seq<i16>, cell_keys: Seq<u64>, nprobe1: int, nprobe2: int)
    requires
        index.lists_ok(),
        index.entries@.len() <= usize::MAX,
        cell_keys.len() == index.cell_count(),
        cell_keys.len() <= usize::MAX,
        0 <= nprobe1 <= nprobe2,
    ensures
        overlap_count(brute_truth(index, query), ivf_found(index, query, cell_keys, nprobe1))
            <= overlap_count(brute_truth(index, query), ivf_found(index, query, cell_keys, nprobe2)),
{
    let entries = index.entries@;
    let n = entries.len() as int;
    let pool = crate::ivf::cell_pool(cell_keys);
    crate::ivf::lemma_cell_pool_distinct(cell_keys);
    lemma_k_nearest_prefix(pool, nprobe1, nprobe2);
    let s1 = k_nearest(pool, nprobe1);
    let s2 = k_nearest(pool, nprobe2);
    lemma_ids_of_take(s2, s1.len() as int);
    let cells1 = nearest_cells_of(cell_keys, nprobe1);
    let cells2 = nearest_cells_of(cell_keys, nprobe2);
    assert(cells1 == cells2.take(s1.len() as int));
    lemma_nearest_cells_valid(cell_keys, nprobe1);
    lemma_nearest_cells_valid(cell_keys, nprobe2);
    lemma_probed_positions(index, cells1);
    lemma_probed_positions(index, cells2);
    lemma_probed_prefix(index, cells2, s1.len() as int);
    let pos1 = index.probed_positions(cells1);
    let pos2 = index.probed_positions(cells2);
    let all = all_positions(n);
    lemma_all_positions(n);
    lemma_position_pool_members(query, entries, pos1);
    lemma_position_pool_members(query, entries, pos2);
    lemma_position_pool_members(query, entries, all);
    let small = position_pool(query, entries, pos1);
    let large = position_pool(query, entries, pos2);
    let full = position_pool(query, entries, all);
    assert forall|c: Candidate| small.contains(c) implies large.contains(c) by {
        let i = choose|i: int| 0 <= i < pos1.len() && pos1[i] == c.1;
        assert(pos2[i] == c.1);
        assert(pos2.contains(c.1));
    }
    assert forall|c: Candidate| large.contains(c) implies full.contains(c) by {
        let i = choose|i: int| 0 <= i < pos2.len() && pos2[i] == c.1;
        assert(all.contains(c.1));
    }
    let truth = brute_truth(index, query);
    let got1 = ivf_found(index, query, cell_keys, nprobe1);
    let got2 = ivf_found(index, query, cell_keys, nprobe2);
    assert forall|i: int| 0 <= i < truth.len() && got1.contains(#[trigger] truth[i]) implies got2.contains(truth[i]) by {
        let t = truth[i];
        let sel_full = k_nearest(full, K_NEIGHBORS as int);
        let sel_small = k_nearest(small, K_NEIGHBORS as int);
        let sel_large = k_nearest(large, K_NEIGHBORS as int);
        lemma_k_nearest_len(full, K_NEIGHBORS as int);
        lemma_k_nearest_len(small, K_NEIGHBORS as int);
        lemma_k_nearest_len(large, K_NEIGHBORS as int);
        let j = choose|j: int| 0 <= j < got1.len() && got1[j] == t;
        assert(full.contains(sel_full[i]));
        assert(small.contains(sel_small[j]));
        let ct = position_candidate(query, entries, t);
        assert(sel_full[i] == ct);
        assert(sel_small[j] == ct);
        assert(sel_full.contains(ct));
        assert(sel_small.contains(ct));
        lemma_k_nearest_kept_in_larger_pool(full, small, large, K_NEIGHBORS as int, ct);
        let m = choose|m: int| 0 <= m < sel_large.len() && sel_large[m] == ct;
        assert(got2[m] == t);
    }
    lemma_overlap_mono(truth, got1, got2);
}

/// Over a whole batch of queries, probing more cells never scans fewer entries
/// in all and never finds fewer of the true five nearest in all: the total
/// candidates and the total overlap that `evaluate_counts` reports only grow
/// with `nprobe`.
pub proof fn lemma_more_probes_in_total(
    index: IvfIndex,
    queries: Seq<[i16; 14]>,
    keys: Seq<Vec<u64>>,
    nprobe1: int,
    nprobe2: int,
    n: int,
)
    requires
        index.lists_ok(),
        index.entries@.len() <= usize::MAX,
        index.cell_count() <= usize::MAX,
        0 <= n <= queries.len(),
        n <= keys.len(),
        forall|q: int| 0 <= q < keys.len() ==> (#[trigger] keys[q])@.len() == index.cell_count(),
        0 <= nprobe1 <= nprobe2,
    ensures
        total_candidates(index, keys, nprobe1, n) <= total_candidates(index, keys, nprobe2, n),
        total_overlap(index, queries, keys, nprobe1, n) <= total_overlap(index, queries, keys, nprobe2, n),
    decreases n,
{
    if n > 0 {
        lemma_more_probes_in_total(index, queries, keys, nprobe1, nprobe2, n - 1);
        lemma_fewer_probes_scan_fewer(index, keys[n - 1]@, nprobe1, nprobe2);
        lemma_more_probes_keep_recall(index, queries[n - 1]@, keys[n - 1]@, nprobe1, nprobe2);
    }
}

/// The five nearest of a set of positions do not depend on the order in which
/// the positions are scanned: the (distance, position) order decides every
/// tie, so a brute-force scan and an IVF scan over the same positions agree.
pub proof fn lemma_nearest_positions_order_free(
    query: Seq<i16>,
    entries: Seq<ReferenceEntry>,
    p1: Seq<usize>,
    p2: Seq<usize>,
)
    requires
        p1.no_duplicates(),
        p2.no_duplicates(),
        forall|p: usize| p1.contains(p) <==> p2.contains(p),
    ensures
        nearest_positions(query, entries, p1) == nearest_positions(query, entries, p2),
{
    let pool1 = position_pool(query, entries, p1);
    let pool2 = position_pool(query, entries, p2);
    lemma_position_pool_members(query, entries, p1);
    lemma_position_pool_members(query, entries, p2);
    assert(distinct_ids(pool1)) by {
        assert forall|i: int, j: int| 0 <= i < j < pool1.len() implies #[trigger] pool1[i].1 != #[trigger] pool1[j].1 by {
            assert(p1[i] != p1[j]);
        }
    }
    assert(distinct_ids(pool2)) by {
        assert forall|i: int, j: int| 0 <= i < j < pool2.len() implies #[trigger] pool2[i].1 != #[trigger] pool2[j].1 by {
            assert(p2[i] != p2[j]);
        }
    }
    assert forall|c: Candidate| pool1.contains(c) <==> pool2.contains(c) by {
        if pool1.contains(c) {
            assert(p2.contains(c.1));
        }
        if pool2.contains(c) {
            assert(p1.contains(c.1));
        }
    }
    lemma_k_nearest_same_members(pool1, pool2, K_NEIGHBORS as int);
}

} // verus!
