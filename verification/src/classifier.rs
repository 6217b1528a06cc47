//! Exact k-nearest-neighbour fraud classification over the reference dataset:
//! the neighbour search keeps the five nearest references, and their labels
//! decide the score.
use vstd::prelude::*;

use crate::dataset::LABEL_FRAUD;
use crate::knn::{approved_by, K_NEIGHBORS};
use crate::selection::{distinct_ids, ids_of, k_nearest, lemma_k_nearest_exists, Candidate, NearestK};

verus! {

/// The outcome of classifying one transaction.
#[derive(Debug, Clone, Copy, PartialEq)]
pub struct FraudAnalysis {
    pub approved: bool,
    /// How many of the five nearest references are fraud; the fraud score is
    /// this number divided by five.
    pub fraud_votes: usize,
    pub neighbor_indices: [usize; 5],
}

/// The candidates among `offered` that have an ordering key: a NaN distance is
/// never nearer than anything, so it never enters the selection.
pub open spec fn ordered_candidates(offered: Seq<(Option<u64>, usize)>) -> Seq<Candidate>
    decreases offered.len(),
{
    if offered.len() == 0 {
        Seq::empty()
    } else {
        let prev = ordered_candidates(offered.drop_last());
        match offered.last().0 {
            Some(k) => prev.push((k, offered.last().1)),
            None => prev,
        }
    }
}

/// The neighbour list reported for a search: the positions of the five nearest
/// references, nearest first (a tie goes to the lower position), padded with
/// `usize::MAX` when fewer than five had a distance.
pub open spec fn padded_neighbors(offered: Seq<(Option<u64>, usize)>) -> Seq<usize> {
    let ids = ids_of(k_nearest(ordered_candidates(offered), K_NEIGHBORS as int));
    Seq::new(K_NEIGHBORS as nat, |i: int| if i < ids.len() { ids[i] } else { usize::MAX })
}

proof fn lemma_ordered_candidates_ids(offered: Seq<(Option<u64>, usize)>)
    ensures
        forall|i: int| 0 <= i < ordered_candidates(offered).len() ==> exists|j: int| 0 <= j < offered.len() && (#[trigger] ordered_candidates(offered)[i]).1 == offered[j].1,
        ordered_candidates(offered).len() <= offered.len(),
    decreases offered.len(),
{
    if offered.len() > 0 {
        lemma_ordered_candidates_ids(offered.drop_last());
        let prev = ordered_candidates(offered.drop_last());
        assert forall|i: int| 0 <= i < ordered_candidates(offered).len() implies exists|j: int| 0 <= j < offered.len() && (#[trigger] ordered_candidates(offered)[i]).1 == offered[j].1 by {
            if i < prev.len() {
                let j = choose|j: int| 0 <= j < offered.drop_last().len() && prev[i].1 == offered.drop_last()[j].1;
                assert(offered[j] == offered.drop_last()[j]);
            } else {
                assert(ordered_candidates(offered)[i].1 == offered[offered.len() - 1].1);
            }
        }
    }
}

/// Streaming search for the five references nearest to a query. Each reference
/// is offered with the ordering key of its distance (`None` for NaN) and its
/// position; positions must be offered in increasing order.
pub struct NeighborSearch {
    best: NearestK,
    offered: Ghost<Seq<(Option<u64>, usize)>>,
}

impl NeighborSearch {
    pub closed spec fn offered(&self) -> Seq<(Option<u64>, usize)> {
        self.offered@
    }

    pub closed spec fn wf(&self) -> bool {
        &&& self.best.wf()
        &&& self.best.capacity() == K_NEIGHBORS
        &&& self.best.offered() == ordered_candidates(self.offered@)
        &&& forall|i: int, j: int| 0 <= i < j < self.offered@.len() ==> self.offered@[i].1 < self.offered@[j].1
    }

    pub fn new() -> (r: NeighborSearch)
        ensures
            r.wf(),
            r.offered() == Seq::<(Option<u64>, usize)>::empty(),
    {
        NeighborSearch { best: NearestK::new(K_NEIGHBORS), offered: Ghost(Seq::empty()) }
    }

    /// Offer the reference at `index` whose distance has ordering key `key`.
    pub fn offer(&mut self, key: Option<u64>, index: usize)
        requires
            old(self).wf(),
            forall|i: int| 0 <= i < old(self).offered().len() ==> (#[trigger] old(self).offered()[i]).1 < index,
        ensures
            final(self).wf(),
            final(self).offered() == old(self).offered().push((key, index)),
    {
        let ghost old_offered = self.offered@;
        let ghost new_offered = old_offered.push((key, index));
        assert(old_offered == old(self).offered());
        assert(forall|i: int| 0 <= i < old_offered.len() ==> (#[trigger] old_offered[i]).1 < index);
        proof {
            lemma_ordered_candidates_ids(old_offered);
            assert(new_offered.drop_last() == old_offered);
        }
        match key {
            Some(k) => {
                proof {
                    assert forall|i: int| 0 <= i < self.best.offered().len() implies (#[trigger] self.best.offered()[i]).1 != index by {
                        let j = choose|j: int| 0 <= j < old_offered.len() && ordered_candidates(old_offered)[i].1 == old_offered[j].1;
                        assert(old_offered[j].1 < index);
                    }
                }
                self.best.offer(k, index);
            },
            None => {},
        }
        self.offered = Ghost(new_offered);
    }

    /// The positions of the (up to) five nearest references, nearest first,
    /// padded with `usize::MAX`.
    pub fn neighbor_indices(&self) -> (r: [usize; 5])
        requires
            self.wf(),
        ensures
            r@ == padded_neighbors(self.offered()),
    {
        let sel = self.best.selected();
        let mut r = [usize::MAX; 5];
        let mut i: usize = 0;
        while i < sel.len()
            invariant
                i <= sel@.len(),
                sel@.len() <= K_NEIGHBORS,
                sel@ == k_nearest(ordered_candidates(self.offered()), K_NEIGHBORS as int),
                forall|j: int| 0 <= j < i ==> r@[j] == #[trigger] ids_of(sel@)[j],
                forall|j: int| i <= j < 5 ==> #[trigger] r@[j] == usize::MAX,
                r@.len() == 5,
            decreases sel@.len() - i,
        {
            r[i] = sel[i].1;
            i = i + 1;
        }
        assert(r@ =~= padded_neighbors(self.offered()));
        r
    }
}

/// How many of the listed references are labelled fraud.
pub open spec fn count_fraud_labels(labels: Seq<u8>, indices: Seq<usize>) -> nat
    decreases indices.len(),
{
    if indices.len() == 0 {
        0
    } else {
        count_fraud_labels(labels, indices.drop_last()) + if labels[indices.last() as int] == LABEL_FRAUD { 1nat } else { 0nat }
    }
}

proof fn lemma_count_fraud_labels_bound(labels: Seq<u8>, indices: Seq<usize>)
    ensures
        count_fraud_labels(labels, indices) <= indices.len(),
    decreases indices.len(),
{
    if indices.len() > 0 {
        lemma_count_fraud_labels_bound(labels, indices.drop_last());
    }
}

/// 1 when the reference at `index` is labelled fraud, else 0.
pub open spec fn fraud_vote(labels: Seq<u8>, index: usize) -> int {
    if labels[index as int] == LABEL_FRAUD { 1 } else { 0 }
}

/// Every one of five neighbours casts its vote: the fraud count of five
/// indices is the sum of each neighbour's own vote, the fifth included.
pub proof fn lemma_votes_count_every_neighbor(labels: Seq<u8>, indices: Seq<usize>)
    requires
        indices.len() == 5,
    ensures
        count_fraud_labels(labels, indices) == fraud_vote(labels, indices[0]) + fraud_vote(labels, indices[1])
            + fraud_vote(labels, indices[2]) + fraud_vote(labels, indices[3]) + fraud_vote(labels, indices[4]),
{
    let s4 = indices.drop_last();
    let s3 = s4.drop_last();
    let s2 = s3.drop_last();
    let s1 = s2.drop_last();
    let s0 = s1.drop_last();
    assert(s0.len() == 0);
    assert(count_fraud_labels(labels, s0) == 0);
    assert(count_fraud_labels(labels, s1) == fraud_vote(labels, indices[0]));
    assert(count_fraud_labels(labels, s2) == count_fraud_labels(labels, s1) + fraud_vote(labels, indices[1]));
    assert(count_fraud_labels(labels, s3) == count_fraud_labels(labels, s2) + fraud_vote(labels, indices[2]));
    assert(count_fraud_labels(labels, s4) == count_fraud_labels(labels, s3) + fraud_vote(labels, indices[3]));
    assert(count_fraud_labels(labels, indices) == count_fraud_labels(labels, s4) + fraud_vote(labels, indices[4]));
}

/// Score a transaction from the positions of its five nearest references: the
/// fraud votes are how many of them are labelled fraud, and the transaction is
/// approved when that is below three (a fraud score below 0.6).
pub fn score_from_neighbor_indices(labels: &[u8], neighbor_indices: [usize; 5]) -> (analysis: FraudAnalysis)
    requires
        forall|i: int| 0 <= i < 5 ==> (#[trigger] neighbor_indices@[i] as int) < labels@.len(),
    ensures
        analysis.fraud_votes == count_fraud_labels(labels@, neighbor_indices@),
        analysis.fraud_votes == fraud_vote(labels@, neighbor_indices[0]) + fraud_vote(labels@, neighbor_indices[1])
            + fraud_vote(labels@, neighbor_indices[2]) + fraud_vote(labels@, neighbor_indices[3])
            + fraud_vote(labels@, neighbor_indices[4]),
        analysis.approved == (analysis.fraud_votes * 10 < 6 * K_NEIGHBORS),
        analysis.fraud_votes <= K_NEIGHBORS,
        analysis.approved == approved_by(analysis.fraud_votes as int),
        analysis.neighbor_indices == neighbor_indices,
{
    let mut fraud_count: usize = 0;
    let mut i: usize = 0;
    while i < 5
        invariant
            i <= 5,
            neighbor_indices@.len() == 5,
            forall|j: int| 0 <= j < 5 ==> (#[trigger] neighbor_indices@[j] as int) < labels@.len(),
            fraud_count == count_fraud_labels(labels@, neighbor_indices@.take(i as int)),
            fraud_count <= i,
        decreases 5 - i,
    {
        let index = neighbor_indices[i];
        proof {
            assert(neighbor_indices@.take(i + 1).drop_last() =~= neighbor_indices@.take(i as int));
        }
        if labels[index] == LABEL_FRAUD {
            fraud_count = fraud_count + 1;
        }
        i = i + 1;
    }
    assert(neighbor_indices@.take(5) =~= neighbor_indices@);
    proof {
        lemma_votes_count_every_neighbor(labels@, neighbor_indices@);
    }
    FraudAnalysis { approved: fraud_count < 3, fraud_votes: fraud_count, neighbor_indices }
}

} // verus!
