use vstd::prelude::*;

verus! {

/// Number of features in a transaction vector.
pub const DIM: usize = 14;

/// Largest value a single squared coordinate difference of two `i16` can take.
pub open spec fn max_term() -> int {
    65535int * 65535int
}

/// Squared difference of two coordinates, as a mathematical integer.
pub open spec fn sq_diff(a: i16, b: i16) -> int {
    (a - b) * (a - b)
}

/// Sum of the squared coordinate differences over the first `n` coordinates.
pub open spec fn sq_dist_prefix(a: Seq<i16>, b: Seq<i16>, n: int) -> int
    decreases n,
{
    if n <= 0 {
        0
    } else {
        sq_dist_prefix(a, b, n - 1) + sq_diff(a[n - 1], b[n - 1])
    }
}

/// Squared Euclidean distance between two 14-dimensional int16 vectors.
pub open spec fn sq_dist(a: Seq<i16>, b: Seq<i16>) -> int {
    sq_dist_prefix(a, b, DIM as int)
}

pub proof fn lemma_sq_diff_bounds(a: i16, b: i16)
    ensures
        0 <= sq_diff(a, b) <= max_term(),
{
    let d: int = a - b;
    assert(-65535 <= d <= 65535);
    assert(0 <= d * d <= 65535 * 65535) by (nonlinear_arith)
        requires
            -65535 <= d <= 65535,
    ;
}

pub proof fn lemma_sq_dist_prefix_bounds(a: Seq<i16>, b: Seq<i16>, n: int)
    requires
        0 <= n <= a.len(),
        n <= b.len(),
    ensures
        0 <= sq_dist_prefix(a, b, n) <= n * max_term(),
    decreases n,
{
    if n > 0 {
        lemma_sq_dist_prefix_bounds(a, b, n - 1);
        lemma_sq_diff_bounds(a[n - 1], b[n - 1]);
        assert((n - 1) * max_term() + max_term() == n * max_term()) by (nonlinear_arith);
    }
}

/// The squared distance of two vectors fits comfortably in a `u64`.
pub proof fn lemma_sq_dist_bounds(a: Seq<i16>, b: Seq<i16>)
    requires
        a.len() == DIM,
        b.len() == DIM,
    ensures
        0 <= sq_dist(a, b) <= 14 * max_term(),
{
    lemma_sq_dist_prefix_bounds(a, b, DIM as int);
}

/// Squared Euclidean distance between two int16 vectors.
/// Each difference is taken in `i64` and the squares are accumulated in `u64`:
/// a single squared `i16` difference reaches about 4.3e9, so fourteen of them
/// overflow `u32`.
pub fn squared_distance_i16(a: &[i16; 14], b: &[i16; 14]) -> (sum: u64)
    ensures
        sum as int == sq_dist(a@, b@),
{
    let mut sum: u64 = 0;
    let mut i: usize = 0;
    while i < 14
        invariant
            i <= 14,
            sum as int == sq_dist_prefix(a@, b@, i as int),
            a@.len() == DIM,
            b@.len() == DIM,
        decreases 14 - i,
    {
        proof {
            lemma_sq_dist_prefix_bounds(a@, b@, i as int);
            lemma_sq_diff_bounds(a@[i as int], b@[i as int]);
            assert(i * max_term() <= 13 * max_term()) by (nonlinear_arith)
                requires
                    i < 14,
            ;
        }
        let diff: i64 = a[i] as i64 - b[i] as i64;
        assert(diff * diff == sq_diff(a@[i as int], b@[i as int]));
        let sq: i64 = diff * diff;
        sum = sum + sq as u64;
        i = i + 1;
    }
    sum
}

proof fn lemma_prefix_zero_iff_equal(a: Seq<i16>, b: Seq<i16>, n: int)
    requires
        0 <= n <= a.len(),
        n <= b.len(),
    ensures
        sq_dist_prefix(a, b, n) == 0 <==> forall|i: int| 0 <= i < n ==> a[i] == b[i],
    decreases n,
{
    if n > 0 {
        lemma_prefix_zero_iff_equal(a, b, n - 1);
        lemma_sq_dist_prefix_bounds(a, b, n - 1);
        let x: int = a[n - 1] - b[n - 1];
        assert(x * x >= 0) by (nonlinear_arith);
        assert(x * x == 0 <==> x == 0) by (nonlinear_arith);
        if sq_dist_prefix(a, b, n) == 0 {
            assert forall|i: int| 0 <= i < n implies a[i] == b[i] by {
                if i < n - 1 {
                } else {
                    assert(x == 0);
                }
            }
        }
    }
}

/// The distance is zero exactly between equal vectors: every coordinate is
/// compared with the same coordinate of the other vector, so a vector is at
/// distance 0 from itself and from nothing else.
pub proof fn lemma_sq_dist_zero_iff_equal(a: Seq<i16>, b: Seq<i16>)
    requires
        a.len() == DIM,
        b.len() == DIM,
    ensures
        sq_dist(a, b) == 0 <==> a == b,
{
    lemma_prefix_zero_iff_equal(a, b, DIM as int);
    if sq_dist(a, b) == 0 {
        assert(a =~= b);
    }
}

proof fn lemma_prefix_single_coordinate(a: Seq<i16>, b: Seq<i16>, d: int, n: int)
    requires
        0 <= n <= a.len(),
        n <= b.len(),
        0 <= d < a.len(),
        d < b.len(),
        forall|i: int| 0 <= i < a.len() && i != d ==> a[i] == b[i],
    ensures
        sq_dist_prefix(a, b, n) == if d < n { (a[d] - b[d]) * (a[d] - b[d]) } else { 0 },
    decreases n,
{
    if n > 0 {
        lemma_prefix_single_coordinate(a, b, d, n - 1);
        if n - 1 != d {
            assert(a[n - 1] == b[n - 1]);
            assert(sq_diff(a[n - 1], b[n - 1]) == 0);
        }
    }
}

/// Two vectors that differ in one coordinate only are at the square of that
/// coordinate's difference: the distance sums `(a[d] - b[d])^2` over the
/// coordinates `d`, pairing each coordinate with itself.
pub proof fn lemma_sq_dist_single_coordinate(a: Seq<i16>, b: Seq<i16>, d: int)
    requires
        a.len() == DIM,
        b.len() == DIM,
        0 <= d < DIM,
        forall|i: int| 0 <= i < DIM && i != d ==> a[i] == b[i],
    ensures
        sq_dist(a, b) == (a[d] - b[d]) * (a[d] - b[d]),
{
    lemma_prefix_single_coordinate(a, b, d, DIM as int);
}

} // verus!
