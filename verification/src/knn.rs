use vstd::prelude::*;

use crate::distance::{lemma_sq_dist_bounds, max_term, sq_dist, sq_dist_prefix, sq_diff, lemma_sq_diff_bounds, lemma_sq_dist_prefix_bounds, DIM};
use crate::selection::{distinct_ids, ids_of, k_nearest, lemma_k_nearest_exists, Candidate, NearestK};

verus! {

/// How many nearest neighbours vote on a fraud score.
pub const K_NEIGHBORS: usize = 5;

/// A quantized reference transaction and whether it was labelled fraud.
#[derive(Clone, Copy, Debug, PartialEq, Eq)]
pub struct ReferenceEntry {
    pub vector: [i16; 14],
    pub is_fraud: bool,
}

/// The candidates a query sees when it scans `entries` in order: each entry's
/// squared distance to the query, identified by its position.
pub open spec fn scan_pool(query: Seq<i16>, entries: Seq<ReferenceEntry>) -> Seq<Candidate> {
    Seq::new(entries.len(), |i: int| (sq_dist(query, entries[i].vector@) as u64, i as usize))
}

/// The positions of the five entries nearest to the query; a tie in distance goes
/// to the entry that comes first.
pub open spec fn nearest_five(query: Seq<i16>, entries: Seq<ReferenceEntry>) -> Seq<usize> {
    ids_of(k_nearest(scan_pool(query, entries), K_NEIGHBORS as int))
}

/// How many of the listed entries are labelled fraud.
pub open spec fn count_fraud(ids: Seq<usize>, entries: Seq<ReferenceEntry>) -> nat
    decreases ids.len(),
{
    if ids.len() == 0 {
        0
    } else {
        count_fraud(ids.drop_last(), entries) + if entries[ids.last() as int].is_fraud { 1nat } else { 0nat }
    }
}

/// The fraud votes of a query: how many of its five nearest entries are fraud.
/// The fraud score is this number divided by five.
pub open spec fn fraud_votes(query: Seq<i16>, entries: Seq<ReferenceEntry>) -> nat {
    count_fraud(nearest_five(query, entries), entries)
}

/// A transaction is approved when fewer than three of its five nearest
/// neighbours are fraud, i.e. when its fraud score is below 0.6.
pub open spec fn approved_by(votes: int) -> bool {
    votes < 3
}

/// Approval is the score threshold: `votes / 5` is below 0.6 exactly when the
/// transaction is approved.
pub proof fn lemma_approval_is_score_below_threshold(votes: int)
    ensures
        approved_by(votes) <==> votes * 10 < 6 * K_NEIGHBORS,
{
}

/// Approval is monotone: a transaction with no more fraud votes than an
/// approved one is approved too, and with at least as many as a rejected one is
/// rejected. In particular 0, 1 and 2 votes are approved and 3 is not.
pub proof fn lemma_approval_monotone(fewer: int, more: int)
    requires
        fewer <= more,
    ensures
        approved_by(more) ==> approved_by(fewer),
        !approved_by(fewer) ==> !approved_by(more),
        approved_by(0) && approved_by(1) && approved_by(2) && !approved_by(3),
{
}

/// Whether a transaction with `fraud_votes` fraud votes out of five is approved
/// (its fraud score `fraud_votes / 5` is below 0.6).
pub fn is_approved(fraud_votes: usize) -> (r: bool)
    ensures
        r == approved_by(fraud_votes as int),
        r == (fraud_votes * 10 < 6 * K_NEIGHBORS),
{
    fraud_votes < 3
}

/// Squared distance between two int16 vectors, in `u64`.
fn squared_distance(a: &[i16; 14], b: &[i16; 14]) -> (sum: u64)
    ensures
        sum as int == sq_dist(a@, b@),
{
    let mut sum: u64 = 0;
    let mut i: usize = 0;
    while i < a.len()
        invariant
            i <= 14,
            a@.len() == DIM,
            b@.len() == DIM,
            sum as int == sq_dist_prefix(a@, b@, i as int),
        decreases 14 - i,
    {
        proof {
            lemma_sq_dist_prefix_bounds(a@, b@, i as int);
            lemma_sq_diff_bounds(a@[i as int], b@[i as int]);
            assert(i * max_term() <= 13 * max_term()) by (nonlinear_arith)
                requires
                    i < 14,
            ;
        }
        let left = a[i] as i64;
        let right = b[i] as i64;
        let diff: i64 = left - right;
        assert(diff * diff == sq_diff(a@[i as int], b@[i as int]));
        sum = sum + (diff * diff) as u64;
        i = i + 1;
    }
    sum
}

/// Counts the fraud-labelled entries among the given positions.
fn count_fraud_at(sel: &Vec<Candidate>, entries: &[ReferenceEntry]) -> (n: usize)
    requires
        forall|i: int| 0 <= i < sel@.len() ==> (#[trigger] sel@[i]).1 < entries@.len(),
        sel@.len() <= K_NEIGHBORS,
    ensures
        n == count_fraud(ids_of(sel@), entries@),
        n <= sel@.len(),
{
    let mut n: usize = 0;
    let mut i: usize = 0;
    while i < sel.len()
        invariant
            i <= sel@.len(),
            sel@.len() <= K_NEIGHBORS,
            forall|j: int| 0 <= j < sel@.len() ==> (#[trigger] sel@[j]).1 < entries@.len(),
            n == count_fraud(ids_of(sel@).take(i as int), entries@),
            n <= i,
        decreases sel@.len() - i,
    {
        let id = sel[i].1;
        proof {
            assert(ids_of(sel@).take(i + 1).drop_last() =~= ids_of(sel@).take(i as int));
            assert(ids_of(sel@).take(i + 1).last() == id);
        }
        if entries[id].is_fraud {
            n = n + 1;
        }
        i = i + 1;
    }
    assert(ids_of(sel@).take(sel@.len() as int) =~= ids_of(sel@));
    n
}

/// The fraud votes among the five entries nearest to `query`: the number of
/// them labelled fraud, so the fraud score is `votes / 5`. Distances are exact
/// squared Euclidean distances; when two entries are equally near, the one that
/// comes first in `entries` is nearer. With fewer than five entries, all of them
/// vote.
pub fn fraud_score_top5(query: &[i16; 14], entries: &[ReferenceEntry]) -> (votes: usize)
    ensures
        votes == fraud_votes(query@, entries@),
        votes <= K_NEIGHBORS,
{
    let mut best = NearestK::new(K_NEIGHBORS);
    let mut i: usize = 0;
    while i < entries.len()
        invariant
            i <= entries@.len(),
            best.wf(),
            best.capacity() == K_NEIGHBORS,
            best.offered() =~= scan_pool(query@, entries@).take(i as int),
        decreases entries@.len() - i,
    {
        let distance = squared_distance(query, &entries[i].vector);
        proof {
            lemma_sq_dist_bounds(query@, entries@[i as int].vector@);
            assert forall|j: int| 0 <= j < best.offered().len() implies (#[trigger] best.offered()[j]).1 != i by {
                assert(best.offered()[j] == scan_pool(query@, entries@)[j]);
            }
        }
        best.offer(distance, i);
        i = i + 1;
    }
    assert(scan_pool(query@, entries@).take(entries@.len() as int) =~= scan_pool(query@, entries@));
    let sel = best.selected();
    proof {
        let pool = scan_pool(query@, entries@);
        assert(distinct_ids(pool));
        lemma_k_nearest_exists(pool, K_NEIGHBORS as int);
        assert forall|j: int| 0 <= j < sel@.len() implies (#[trigger] sel@[j]).1 < entries@.len() by {
            assert(scan_pool(query@, entries@).contains(sel@[j]));
        }
    }
    count_fraud_at(&sel, entries)
}

} // verus!
