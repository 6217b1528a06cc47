//! The assign step of Lloyd's k-means: which centroid is nearest to a point.
use vstd::prelude::*;

verus! {

/// The assign step of k-means: the index of the centroid nearest to a point,
/// given `keys[c]`, the ordering key of the point's squared distance to centroid
/// `c` (`None` when that distance is NaN).
///
/// The scan starts at centroid 0 and moves on only for a strictly smaller
/// distance, so a tie goes to the lowest index; a NaN distance never wins, and
/// a NaN distance to centroid 0 keeps centroid 0.
pub fn nearest_centroid(keys: &[Option<u64>]) -> (nearest: usize)
    requires
        keys@.len() > 0,
    ensures
        nearest < keys@.len(),
        keys@[0] is None ==> nearest == 0,
        keys@[0] is Some ==> {
            &&& keys@[nearest as int] is Some
            &&& forall|j: int| 0 <= j < keys@.len() && (#[trigger] keys@[j]) is Some ==> keys@[nearest as int]->0 <= keys@[j]->0
            &&& forall|j: int| 0 <= j < nearest && (#[trigger] keys@[j]) is Some ==> keys@[nearest as int]->0 < keys@[j]->0
        },
{
    let mut min_idx: usize = 0;
    let mut min_key: Option<u64> = keys[0];
    let mut idx: usize = 1;
    while idx < keys.len()
        invariant
            1 <= idx <= keys@.len(),
            min_idx < idx,
            min_key == keys@[min_idx as int],
            keys@[0] is None ==> min_idx == 0,
            keys@[0] is Some ==> {
                &&& min_key is Some
                &&& forall|j: int| 0 <= j < idx && (#[trigger] keys@[j]) is Some ==> min_key->0 <= keys@[j]->0
                &&& forall|j: int| 0 <= j < min_idx && (#[trigger] keys@[j]) is Some ==> min_key->0 < keys@[j]->0
            },
        decreases keys@.len() - idx,
    {
        match (keys[idx], min_key) {
            (Some(k), Some(m)) => {
                if k < m {
                    min_key = keys[idx];
                    min_idx = idx;
                }
            },
            _ => {},
        }
        idx = idx + 1;
    }
    min_idx
}

} // verus!
