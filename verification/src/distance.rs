//! Pairwise distance functions on fixed-point coordinate vectors.
//!
//! A point is a vector of `i64` coordinates.  Coordinates are bounded by
//! `COORD_LIMIT` and dimensions by `MAX_DIMENSION`, which keeps every
//! distance below `u64::MAX` with room to spare, so the executable
//! functions never overflow.

use vstd::prelude::*;

verus! {

/// Largest coordinate magnitude the library accepts.
pub const COORD_LIMIT: i64 = 1_048_576;

/// Largest number of coordinates per point the library accepts.
pub const MAX_DIMENSION: usize = 1_048_576;

/// Fixed-point resolution of random coordinates: a unit axis is
/// subdivided into this many steps, so random coordinates lie in
/// `[0, COORD_SCALE)`.
pub const COORD_SCALE: i64 = 1_000_000;

/// Upper bound on a single per-dimension term of either metric:
/// a difference is at most `2 * COORD_LIMIT` and a squared difference
/// at most `(2 * COORD_LIMIT)^2`.
pub const TERM_BOUND: i64 = 4_398_046_511_104;

/// The pairwise distance function used to build a distance matrix.
#[derive(Clone, Copy, PartialEq, Eq, Structural, Debug)]
pub enum DistanceMetric {
    /// Sum of absolute per-dimension differences (the default).
    Manhattan,
    /// Sum of squared per-dimension differences.
    SquaredEuclidean,
}

pub open spec fn abs_diff(a: int, b: int) -> int {
    if a >= b {
        a - b
    } else {
        b - a
    }
}

/// Contribution of one dimension to the distance.
pub open spec fn metric_term(metric: DistanceMetric, a: int, b: int) -> int {
    match metric {
        DistanceMetric::Manhattan => abs_diff(a, b),
        DistanceMetric::SquaredEuclidean => (a - b) * (a - b),
    }
}

/// Distance restricted to the first `k` dimensions.
pub open spec fn dist_prefix(metric: DistanceMetric, p: Seq<i64>, q: Seq<i64>, k: int) -> int
    decreases k,
{
    if k <= 0 {
        0
    } else {
        dist_prefix(metric, p, q, k - 1) + metric_term(metric, p[k - 1] as int, q[k - 1] as int)
    }
}

/// The distance between two equal-length coordinate vectors.
pub open spec fn dist_spec(metric: DistanceMetric, p: Seq<i64>, q: Seq<i64>) -> int {
    dist_prefix(metric, p, q, p.len() as int)
}

/// A coordinate vector the library accepts: bounded dimension and
/// bounded coordinates.
pub open spec fn bounded_point(p: Seq<i64>) -> bool {
    &&& p.len() <= MAX_DIMENSION as int
    &&& forall|k: int| 0 <= k < p.len() ==> -COORD_LIMIT <= #[trigger] p[k] <= COORD_LIMIT
}

pub proof fn lemma_term_nonneg(metric: DistanceMetric, a: int, b: int)
    ensures
        metric_term(metric, a, b) >= 0,
{
    match metric {
        DistanceMetric::Manhattan => {},
        DistanceMetric::SquaredEuclidean => {
            assert((a - b) * (a - b) >= 0) by (nonlinear_arith);
        },
    }
}

pub proof fn lemma_term_sym(metric: DistanceMetric, a: int, b: int)
    ensures
        metric_term(metric, a, b) == metric_term(metric, b, a),
{
    match metric {
        DistanceMetric::Manhattan => {},
        DistanceMetric::SquaredEuclidean => {
            assert((a - b) * (a - b) == (b - a) * (b - a)) by (nonlinear_arith);
        },
    }
}

pub proof fn lemma_term_zero_iff(metric: DistanceMetric, a: int, b: int)
    ensures
        metric_term(metric, a, b) == 0 <==> a == b,
{
    match metric {
        DistanceMetric::Manhattan => {},
        DistanceMetric::SquaredEuclidean => {
            assert((a - b) * (a - b) == 0 <==> a == b) by (nonlinear_arith);
        },
    }
}

/// A bounded difference has a bounded term under either metric.
pub proof fn lemma_term_bound(metric: DistanceMetric, a: int, b: int)
    requires
        -COORD_LIMIT <= a <= COORD_LIMIT,
        -COORD_LIMIT <= b <= COORD_LIMIT,
    ensures
        metric_term(metric, a, b) <= TERM_BOUND as int,
{
    match metric {
        DistanceMetric::Manhattan => {},
        DistanceMetric::SquaredEuclidean => {
            assert((a - b) * (a - b) <= TERM_BOUND as int) by (nonlinear_arith)
                requires
                    -COORD_LIMIT <= a <= COORD_LIMIT,
                    -COORD_LIMIT <= b <= COORD_LIMIT;
        },
    }
}

/// Prefix distances are non-negative and grow with the prefix length.
pub proof fn lemma_prefix_nonneg_mono(
    metric: DistanceMetric,
    p: Seq<i64>,
    q: Seq<i64>,
    k1: int,
    k2: int,
)
    requires
        0 <= k1 <= k2,
    ensures
        0 <= dist_prefix(metric, p, q, k1),
        dist_prefix(metric, p, q, k1) <= dist_prefix(metric, p, q, k2),
    decreases k2,
{
    if k2 <= 0 {
    } else {
        if k1 == k2 {
            lemma_prefix_nonneg_mono(metric, p, q, 0, k2 - 1);
        } else {
            lemma_prefix_nonneg_mono(metric, p, q, k1, k2 - 1);
        }
        lemma_term_nonneg(metric, p[k2 - 1] as int, q[k2 - 1] as int);
    }
}

/// The distance is symmetric in its two points.
pub proof fn lemma_prefix_sym(metric: DistanceMetric, p: Seq<i64>, q: Seq<i64>, k: int)
    ensures
        dist_prefix(metric, p, q, k) == dist_prefix(metric, q, p, k),
    decreases k,
{
    if k > 0 {
        lemma_prefix_sym(metric, p, q, k - 1);
        lemma_term_sym(metric, p[k - 1] as int, q[k - 1] as int);
    }
}

pub proof fn lemma_dist_sym(metric: DistanceMetric, p: Seq<i64>, q: Seq<i64>)
    requires
        p.len() == q.len(),
    ensures
        dist_spec(metric, p, q) == dist_spec(metric, q, p),
{
    lemma_prefix_sym(metric, p, q, p.len() as int);
}

/// On bounded points a `k`-dimension prefix distance is at most
/// `k * TERM_BOUND`.
pub proof fn lemma_prefix_bound(metric: DistanceMetric, p: Seq<i64>, q: Seq<i64>, k: int)
    requires
        bounded_point(p),
        bounded_point(q),
        0 <= k <= p.len(),
        k <= q.len(),
    ensures
        dist_prefix(metric, p, q, k) <= k * TERM_BOUND as int,
    decreases k,
{
    if k > 0 {
        lemma_prefix_bound(metric, p, q, k - 1);
        lemma_term_bound(metric, p[k - 1] as int, q[k - 1] as int);
        assert((k - 1) * TERM_BOUND as int + TERM_BOUND as int == k * TERM_BOUND as int)
            by (nonlinear_arith);
    }
}

/// Two equal-length points are at distance zero exactly when they are
/// coordinate-wise equal.
pub proof fn lemma_prefix_zero_iff(metric: DistanceMetric, p: Seq<i64>, q: Seq<i64>, k: int)
    requires
        0 <= k,
    ensures
        dist_prefix(metric, p, q, k) == 0 <==> (forall|j: int|
            0 <= j < k ==> p[j] == q[j]),
    decreases k,
{
    if k > 0 {
        lemma_prefix_zero_iff(metric, p, q, k - 1);
        lemma_term_zero_iff(metric, p[k - 1] as int, q[k - 1] as int);
        lemma_term_nonneg(metric, p[k - 1] as int, q[k - 1] as int);
        lemma_prefix_nonneg_mono(metric, p, q, 0, k - 1);
    }
}

/// The distance under the chosen metric; the workhorse behind the two
/// public distance functions.
pub fn distance_between(metric: DistanceMetric, p1: &Vec<i64>, p2: &Vec<i64>) -> (d: u64)
    requires
        p1@.len() == p2@.len(),
        bounded_point(p1@),
        bounded_point(p2@),
    ensures
        d as int == dist_spec(metric, p1@, p2@),
{
    let n = p1.len();
    let mut acc: u64 = 0;
    let mut k: usize = 0;
    while k < n
        invariant
            p1@.len() == p2@.len(),
            n == p1@.len(),
            bounded_point(p1@),
            bounded_point(p2@),
            0 <= k <= n,
            acc as int == dist_prefix(metric, p1@, p2@, k as int),
        decreases n - k,
    {
        let a = p1[k];
        let b = p2[k];
        let diff: i64 = if a >= b {
            a - b
        } else {
            b - a
        };
        proof {
            assert(0 <= diff as int <= 2 * COORD_LIMIT as int);
            assert(diff as int * diff as int <= TERM_BOUND as int) by (nonlinear_arith)
                requires
                    0 <= diff as int <= 2 * COORD_LIMIT as int;
        }
        let term: i64 = match metric {
            DistanceMetric::Manhattan => diff,
            DistanceMetric::SquaredEuclidean => diff * diff,
        };
        proof {
            lemma_term_bound(metric, a as int, b as int);
            lemma_term_nonneg(metric, a as int, b as int);
            lemma_prefix_bound(metric, p1@, p2@, k as int + 1);
            lemma_prefix_nonneg_mono(metric, p1@, p2@, 0, k as int);
            assert((k as int + 1) * TERM_BOUND as int <= MAX_DIMENSION as int * TERM_BOUND
                as int) by (nonlinear_arith)
                requires
                    0 <= k as int + 1 <= MAX_DIMENSION as int;
            assert(term as int == metric_term(metric, a as int, b as int)) by {
                match metric {
                    DistanceMetric::Manhattan => {},
                    DistanceMetric::SquaredEuclidean => {
                        assert(diff as int * diff as int == (a as int - b as int) * (a as int
                            - b as int)) by (nonlinear_arith)
                            requires
                                diff as int == abs_diff(a as int, b as int);
                    },
                }
            }
        }
        acc = acc + (term as u64);
        k = k + 1;
    }
    acc
}

/// Sum of squared per-dimension differences of two points.
pub fn distance_sq(p1: &Vec<i64>, p2: &Vec<i64>) -> (d: u64)
    requires
        p1@.len() == p2@.len(),
        bounded_point(p1@),
        bounded_point(p2@),
    ensures
        d as int == dist_spec(DistanceMetric::SquaredEuclidean, p1@, p2@),
{
    distance_between(DistanceMetric::SquaredEuclidean, p1, p2)
}

/// Sum of absolute per-dimension differences of two points.
pub fn manhattan_distance(p1: &Vec<i64>, p2: &Vec<i64>) -> (d: u64)
    requires
        p1@.len() == p2@.len(),
        bounded_point(p1@),
        bounded_point(p2@),
    ensures
        d as int == dist_spec(DistanceMetric::Manhattan, p1@, p2@),
{
    distance_between(DistanceMetric::Manhattan, p1, p2)
}

} // verus!
