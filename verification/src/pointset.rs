//! The WSP point set: points, their distance matrix and neighbour
//! orderings (immutable geometry), and the mutable elimination state.

use vstd::prelude::*;
use crate::distance::{
    bounded_point, dist_spec, distance_between, lemma_dist_sym, lemma_prefix_nonneg_mono,
    lemma_prefix_zero_iff, COORD_LIMIT, COORD_SCALE, MAX_DIMENSION, DistanceMetric,
};
use crate::order::{is_neighbor_order, sort_indices};
use crate::state::{
    count_true, fresh_state, lemma_count_true_const, lemma_distinct_implies_self_leading, Geometry,
    WalkState,
};

verus! {

/// Why a point list was rejected at construction.
#[derive(Clone, Copy, PartialEq, Eq, Structural, Debug)]
pub enum WspError {
    /// The input point list was empty.
    EmptyInput,
    /// The points have more coordinates than `MAX_DIMENSION`.
    DimensionTooLarge,
    /// Not all points have the same number of coordinates.
    DimensionMismatch,
    /// Some coordinate lies outside `[-COORD_LIMIT, COORD_LIMIT]`.
    CoordinateOutOfRange,
}

/// View of a point list as a sequence of coordinate sequences.
pub open spec fn pts_view(points: Seq<Vec<i64>>) -> Seq<Seq<i64>> {
    points.map_values(|p: Vec<i64>| p@)
}

/// View of a nested matrix of distances.
pub open spec fn mat_view(m: Seq<Vec<u64>>) -> Seq<Seq<u64>> {
    m.map_values(|r: Vec<u64>| r@)
}

/// View of the per-point neighbour orderings.
pub open spec fn ord_view(o: Seq<Vec<usize>>) -> Seq<Seq<usize>> {
    o.map_values(|r: Vec<usize>| r@)
}

pub open spec fn consistent_dims(pts: Seq<Seq<i64>>) -> bool {
    forall|i: int| 0 <= i < pts.len() ==> (#[trigger] pts[i]).len() == pts[0].len()
}

pub open spec fn coords_in_range(pts: Seq<Seq<i64>>) -> bool {
    forall|i: int, k: int|
        0 <= i < pts.len() && 0 <= k < pts[i].len() ==> -COORD_LIMIT <= #[trigger] pts[i][k]
            <= COORD_LIMIT
}

/// The error a point list is rejected with, if any; checks are made in
/// this order.
pub open spec fn points_error(pts: Seq<Seq<i64>>) -> Option<WspError> {
    if pts.len() == 0 {
        Some(WspError::EmptyInput)
    } else if pts[0].len() > MAX_DIMENSION as int {
        Some(WspError::DimensionTooLarge)
    } else if !consistent_dims(pts) {
        Some(WspError::DimensionMismatch)
    } else if !coords_in_range(pts) {
        Some(WspError::CoordinateOutOfRange)
    } else {
        None
    }
}

/// A point list the library accepts: non-empty, consistent bounded
/// dimension, bounded coordinates.
pub open spec fn valid_points(pts: Seq<Seq<i64>>) -> bool {
    points_error(pts) is None
}

pub proof fn lemma_valid_points_bounded(pts: Seq<Seq<i64>>, i: int)
    requires
        valid_points(pts),
        0 <= i < pts.len(),
    ensures
        bounded_point(pts[i]),
        pts[i].len() == pts[0].len(),
{
}

/// The matrix holds exactly the pairwise distances, with a zero
/// diagonal.
pub open spec fn matrix_entries(pts: Seq<Seq<i64>>, metric: DistanceMetric, m: Seq<Seq<u64>>) -> bool {
    &&& m.len() == pts.len()
    &&& forall|i: int| 0 <= i < pts.len() ==> (#[trigger] m[i]).len() == pts.len()
    &&& forall|i: int, j: int|
        0 <= i < pts.len() && 0 <= j < pts.len() ==> #[trigger] m[i][j] as int == if i == j {
            0int
        } else {
            dist_spec(metric, pts[i], pts[j])
        }
}

/// `dmin` and `dmax` are the least and greatest off-diagonal entries
/// (for a single point there are none: the bounds degenerate to the
/// empty min and max).
pub open spec fn off_diag_extremes(m: Seq<Seq<u64>>, dmin: u64, dmax: u64) -> bool {
    &&& forall|i: int, j: int|
        0 <= i < m.len() && 0 <= j < m.len() && i != j ==> dmin <= #[trigger] m[i][j] && m[i][j]
            <= dmax
    &&& m.len() >= 2 ==> exists|i: int, j: int|
        0 <= i < m.len() && 0 <= j < m.len() && i != j && #[trigger] m[i][j] == dmin
    &&& m.len() >= 2 ==> exists|i: int, j: int|
        0 <= i < m.len() && 0 <= j < m.len() && i != j && #[trigger] m[i][j] == dmax
    &&& m.len() < 2 ==> dmin == u64::MAX && dmax == 0
}

/// Internal representation of the WSP algorithm values: the geometry
/// computed once at construction and the elimination state the
/// algorithms mutate.
pub struct PointSet {
    /// Points of the initial set.
    pub points: Vec<Vec<i64>>,
    /// The pairwise distance function the matrix was built with.
    pub metric: DistanceMetric,
    /// All distances between all points.
    pub distance_matrix: Vec<Vec<u64>>,
    /// If true, the point is still in the set; the user must only
    /// consider points with `true` values as the resulting set.
    pub active: Vec<bool>,
    /// Number of active points in the set.
    pub nb_active: usize,
    /// For each point, all indices sorted by increasing distance.
    pub idx_sort: Vec<Vec<usize>>,
    /// For each point, the rank in `idx_sort` of the next unexamined
    /// neighbour candidate.
    pub idx_active: Vec<usize>,
    /// Points already used as walk origins in the current pass.
    pub visited: Vec<bool>,
    /// Minimal off-diagonal entry of the distance matrix.
    pub d_min: u64,
    /// Maximal off-diagonal entry of the distance matrix.
    pub d_max: u64,
}

impl PointSet {
    /// Number of points.
    pub open spec fn n(self) -> int {
        self.points@.len() as int
    }

    pub open spec fn pts(self) -> Seq<Seq<i64>> {
        pts_view(self.points@)
    }

    /// The immutable geometry: distance matrix and neighbour orderings.
    pub open spec fn geom(self) -> Geometry {
        Geometry { matrix: mat_view(self.distance_matrix@), order: ord_view(self.idx_sort@) }
    }

    /// The mutable elimination state.
    pub open spec fn elim(self) -> WalkState {
        WalkState {
            active: self.active@,
            visited: self.visited@,
            cursor: self.idx_active@,
            nb_active: self.nb_active as int,
        }
    }

    pub open spec fn wf(self) -> bool {
        &&& valid_points(self.pts())
        &&& matrix_entries(self.pts(), self.metric, mat_view(self.distance_matrix@))
        &&& self.geom().wf()
        &&& self.elim().consistent(self.n())
        &&& off_diag_extremes(mat_view(self.distance_matrix@), self.d_min, self.d_max)
    }

    /// The elimination state every pass starts from: all points
    /// active, none visited, all cursors at rank 1.
    pub open spec fn fresh(self) -> bool {
        self.elim() == fresh_state(self.n())
    }
}

/// Pairwise distinct points lie at positive distances from one
/// another under either metric, so the geometry is `distinct` and
/// every neighbour ordering starts with the point itself; the walk's
/// completeness and separation guarantees then hold unconditionally.
pub proof fn lemma_distinct_points(ps: PointSet)
    requires
        ps.wf(),
        forall|i: int, j: int|
            0 <= i < ps.n() && 0 <= j < ps.n() && i != j ==> #[trigger] ps.pts()[i]
                != #[trigger] ps.pts()[j],
    ensures
        ps.geom().distinct(),
        ps.geom().self_leading(),
{
    let pts = ps.pts();
    let m = mat_view(ps.distance_matrix@);
    assert forall|i: int, j: int|
        0 <= i < ps.geom().n() && 0 <= j < ps.geom().n() && i != j
        implies #[trigger] ps.geom().matrix[i][j] > 0 by {
        assert(m[i][j] as int == dist_spec(ps.metric, pts[i], pts[j]));
        lemma_prefix_nonneg_mono(ps.metric, pts[i], pts[j], 0, pts[i].len() as int);
        lemma_prefix_zero_iff(ps.metric, pts[i], pts[j], pts[i].len() as int);
        if m[i][j] == 0 {
            assert(pts[i] =~= pts[j]);
        }
    }
    lemma_distinct_implies_self_leading(ps.geom());
}

/// A fresh copy of one coordinate vector.
fn copy_point(p: &Vec<i64>) -> (r: Vec<i64>)
    ensures
        r@ == p@,
{
    let mut r: Vec<i64> = Vec::new();
    let mut k: usize = 0;
    while k < p.len()
        invariant
            0 <= k <= p@.len(),
            r@ == p@.subrange(0, k as int),
        decreases p@.len() - k,
    {
        r.push(p[k]);
        proof {
            assert(r@ =~= p@.subrange(0, k as int + 1));
        }
        k = k + 1;
    }
    proof {
        assert(r@ =~= p@);
    }
    r
}

/// Checks a point list against the construction rules, in the order of
/// `points_error`.
pub fn check_points(points: &Vec<Vec<i64>>) -> (r: Result<(), WspError>)
    ensures
        r == match points_error(pts_view(points@)) {
            Some(e) => Err::<(), WspError>(e),
            None => Ok::<(), WspError>(()),
        },
{
    let ghost pts = pts_view(points@);
    let n = points.len();
    if n == 0 {
        return Err(WspError::EmptyInput);
    }
    let m = points[0].len();
    if m > MAX_DIMENSION {
        return Err(WspError::DimensionTooLarge);
    }
    let mut i: usize = 1;
    while i < n
        invariant
            pts == pts_view(points@),
            n == pts.len(),
            1 <= i <= n,
            m == pts[0].len(),
            m <= MAX_DIMENSION,
            forall|a: int| 0 <= a < i ==> (#[trigger] pts[a]).len() == m,
        decreases n - i,
    {
        if points[i].len() != m {
            proof {
                assert(pts[i as int] == points@[i as int]@);
                assert(pts[0] == points@[0]@);
                assert(!consistent_dims(pts)) by {
                    assert(pts[i as int].len() != pts[0].len());
                }
            }
            return Err(WspError::DimensionMismatch);
        }
        i = i + 1;
    }
    i = 0;
    while i < n
        invariant
            pts == pts_view(points@),
            n == pts.len(),
            0 <= i <= n,
            consistent_dims(pts),
            m == pts[0].len(),
            m <= MAX_DIMENSION,
            forall|a: int, k: int|
                0 <= a < i && 0 <= k < pts[a].len() ==> -COORD_LIMIT <= #[trigger] pts[a][k]
                    <= COORD_LIMIT,
        decreases n - i,
    {
        let mut k: usize = 0;
        while k < points[i].len()
            invariant
                pts == pts_view(points@),
                n == pts.len(),
                0 <= i < n,
                0 <= k <= pts[i as int].len(),
                consistent_dims(pts),
                m == pts[0].len(),
                m <= MAX_DIMENSION,
                forall|a: int, kk: int|
                    0 <= a < i && 0 <= kk < pts[a].len() ==> -COORD_LIMIT <= #[trigger] pts[a][kk]
                        <= COORD_LIMIT,
                forall|kk: int|
                    0 <= kk < k ==> -COORD_LIMIT <= #[trigger] pts[i as int][kk] <= COORD_LIMIT,
            decreases pts[i as int].len() - k,
        {
            let c = points[i][k];
            if c < -COORD_LIMIT || c > COORD_LIMIT {
                proof {
                    assert(pts[i as int] == points@[i as int]@);
                    assert(!coords_in_range(pts)) by {
                        assert(!(-COORD_LIMIT <= pts[i as int][k as int] <= COORD_LIMIT));
                    }
                }
                return Err(WspError::CoordinateOutOfRange);
            }
            k = k + 1;
        }
        i = i + 1;
    }
    Ok(())
}

/// A symmetric matrix of exact pairwise distances has a zero diagonal
/// and equal mirrored entries.
pub proof fn lemma_matrix_symmetric(pts: Seq<Seq<i64>>, metric: DistanceMetric, m: Seq<Seq<u64>>)
    requires
        matrix_entries(pts, metric, m),
        consistent_dims(pts),
    ensures
        forall|i: int| 0 <= i < m.len() ==> (#[trigger] m[i])[i] == 0,
        forall|i: int, j: int|
            0 <= i < m.len() && 0 <= j < m.len() ==> #[trigger] m[i][j] == m[j][i],
{
    assert forall|i: int, j: int|
        0 <= i < m.len() && 0 <= j < m.len() implies #[trigger] m[i][j] == m[j][i] by {
        if i != j {
            lemma_dist_sym(metric, pts[i], pts[j]);
        }
    }
}

/// Computes the full pairwise distance matrix of the points under the
/// chosen metric, and the least and greatest off-diagonal distance.
pub fn compute_distance_matrix(points: &Vec<Vec<i64>>, metric: DistanceMetric) -> (r: (
    Vec<Vec<u64>>,
    u64,
    u64,
))
    requires
        valid_points(pts_view(points@)),
    ensures
        matrix_entries(pts_view(points@), metric, mat_view(r.0@)),
        off_diag_extremes(mat_view(r.0@), r.1, r.2),
        forall|i: int| 0 <= i < points@.len() ==> (#[trigger] mat_view(r.0@)[i])[i] == 0,
        forall|i: int, j: int|
            0 <= i < points@.len() && 0 <= j < points@.len() ==> #[trigger] mat_view(r.0@)[i][j]
                == mat_view(r.0@)[j][i],
{
    let ghost pts = pts_view(points@);
    let n = points.len();
    let mut matrix: Vec<Vec<u64>> = Vec::new();
    let mut i: usize = 0;
    while i < n
        invariant
            pts == pts_view(points@),
            valid_points(pts),
            n == pts.len(),
            0 <= i <= n,
            mat_view(matrix@).len() == i,
            forall|a: int| 0 <= a < i ==> (#[trigger] mat_view(matrix@)[a]).len() == n,
            forall|a: int, b: int|
                0 <= a < i && 0 <= b < n ==> #[trigger] mat_view(matrix@)[a][b] as int == if a == b {
                    0int
                } else {
                    dist_spec(metric, pts[a], pts[b])
                },
        decreases n - i,
    {
        let mut row: Vec<u64> = Vec::new();
        let mut j: usize = 0;
        while j < n
            invariant
                pts == pts_view(points@),
                valid_points(pts),
                n == pts.len(),
                0 <= i < n,
                0 <= j <= n,
                row@.len() == j,
                forall|b: int|
                    0 <= b < j ==> #[trigger] row@[b] as int == if i as int == b {
                        0int
                    } else {
                        dist_spec(metric, pts[i as int], pts[b])
                    },
            decreases n - j,
        {
            let d: u64 = if i == j {
                0
            } else {
                proof {
                    lemma_valid_points_bounded(pts, i as int);
                    lemma_valid_points_bounded(pts, j as int);
                }
                distance_between(metric, &points[i], &points[j])
            };
            row.push(d);
            j = j + 1;
        }
        let ghost pre = matrix@;
        let ghost row_view = row@;
        matrix.push(row);
        proof {
            assert forall|a: int| 0 <= a < i + 1 implies (#[trigger] mat_view(matrix@)[a]).len()
                == n by {
                assert(mat_view(matrix@)[a] == matrix@[a]@);
                if a < i {
                    assert(matrix@[a] == pre[a]);
                    assert(mat_view(pre)[a] == pre[a]@);
                    assert((mat_view(pre)[a]).len() == n);
                } else {
                    assert(matrix@[a]@ == row_view);
                }
            }
            assert forall|a: int, b: int|
                0 <= a < i + 1 && 0 <= b < n implies #[trigger] mat_view(matrix@)[a][b] as int
                == if a == b {
                0int
            } else {
                dist_spec(metric, pts[a], pts[b])
            } by {
                assert(mat_view(matrix@)[a] == matrix@[a]@);
                if a < i {
                    assert(matrix@[a] == pre[a]);
                    assert(mat_view(pre)[a] == pre[a]@);
                    assert(mat_view(pre)[a][b] as int == if a == b {
                        0int
                    } else {
                        dist_spec(metric, pts[a], pts[b])
                    });
                } else {
                    assert(matrix@[a]@ == row_view);
                }
            }
        }
        i = i + 1;
    }
    // scan for the least and greatest off-diagonal entries
    let mut dmin: u64 = u64::MAX;
    let mut dmax: u64 = 0;
    if n >= 2 {
        proof {
            assert(mat_view(matrix@)[0] == matrix@[0]@);
        }
        dmin = matrix[0][1];
        dmax = matrix[0][1];
        let ghost mut min_wi: int = 0;
        let ghost mut min_wj: int = 1;
        let ghost mut max_wi: int = 0;
        let ghost mut max_wj: int = 1;
        let mut a: usize = 0;
        while a < n
            invariant
                n == mat_view(matrix@).len(),
                n >= 2,
                0 <= a <= n,
                forall|x: int| 0 <= x < n ==> (#[trigger] mat_view(matrix@)[x]).len() == n,
                0 <= min_wi < n && 0 <= min_wj < n && min_wi != min_wj,
                0 <= max_wi < n && 0 <= max_wj < n && max_wi != max_wj,
                mat_view(matrix@)[min_wi][min_wj] == dmin,
                mat_view(matrix@)[max_wi][max_wj] == dmax,
                forall|x: int, y: int|
                    0 <= x < a && 0 <= y < n && x != y ==> dmin <= #[trigger] mat_view(matrix@)[x][y]
                        && mat_view(matrix@)[x][y] <= dmax,
            decreases n - a,
        {
            let mut b: usize = 0;
            while b < n
                invariant
                    n == mat_view(matrix@).len(),
                    n >= 2,
                    0 <= a < n,
                    0 <= b <= n,
                    forall|x: int| 0 <= x < n ==> (#[trigger] mat_view(matrix@)[x]).len() == n,
                    0 <= min_wi < n && 0 <= min_wj < n && min_wi != min_wj,
                    0 <= max_wi < n && 0 <= max_wj < n && max_wi != max_wj,
                    mat_view(matrix@)[min_wi][min_wj] == dmin,
                    mat_view(matrix@)[max_wi][max_wj] == dmax,
                    forall|x: int, y: int|
                        0 <= x < a && 0 <= y < n && x != y ==> dmin <= #[trigger] mat_view(
                            matrix@,
                        )[x][y] && mat_view(matrix@)[x][y] <= dmax,
                    forall|y: int|
                        0 <= y < b && a as int != y ==> dmin <= #[trigger] mat_view(
                            matrix@,
                        )[a as int][y] && mat_view(matrix@)[a as int][y] <= dmax,
                decreases n - b,
            {
                if b != a {
                    proof {
                        assert(mat_view(matrix@)[a as int] == matrix@[a as int]@);
                    }
                    let v = matrix[a][b];
                    if v < dmin {
                        dmin = v;
                        proof {
                            min_wi = a as int;
                            min_wj = b as int;
                        }
                    }
                    if v > dmax {
                        dmax = v;
                        proof {
                            max_wi = a as int;
                            max_wj = b as int;
                        }
                    }
                }
                b = b + 1;
            }
            a = a + 1;
        }
    }
    proof {
        lemma_matrix_symmetric(pts, metric, mat_view(matrix@));
    }
    (matrix, dmin, dmax)
}

/// A vector of `n` copies of one flag.
fn filled_bool(n: usize, v: bool) -> (r: Vec<bool>)
    ensures
        r@.len() == n,
        forall|i: int| 0 <= i < n ==> r@[i] == v,
{
    let mut r: Vec<bool> = Vec::new();
    let mut k: usize = 0;
    while k < n
        invariant
            0 <= k <= n,
            r@.len() == k,
            forall|i: int| 0 <= i < k ==> r@[i] == v,
        decreases n - k,
    {
        r.push(v);
        k = k + 1;
    }
    r
}

/// A vector of `n` copies of one index.
fn filled_usize(n: usize, v: usize) -> (r: Vec<usize>)
    ensures
        r@.len() == n,
        forall|i: int| 0 <= i < n ==> r@[i] == v,
{
    let mut r: Vec<usize> = Vec::new();
    let mut k: usize = 0;
    while k < n
        invariant
            0 <= k <= n,
            r@.len() == k,
            forall|i: int| 0 <= i < k ==> r@[i] == v,
        decreases n - k,
    {
        r.push(v);
        k = k + 1;
    }
    r
}

/// The active points, in original index order, restricted to the first
/// `k` indices.
pub open spec fn remaining_prefix(pts: Seq<Seq<i64>>, act: Seq<bool>, k: int) -> Seq<Seq<i64>>
    decreases k,
{
    if k <= 0 {
        Seq::empty()
    } else {
        remaining_prefix(pts, act, k - 1) + if act[k - 1] {
            seq![pts[k - 1]]
        } else {
            Seq::empty()
        }
    }
}

/// For every point, ranks all point indices by increasing distance
/// (ties by index) from that point's row of the distance matrix.
fn compute_closest_idx(matrix: &Vec<Vec<u64>>) -> (idx_sort: Vec<Vec<usize>>)
    ensures
        ord_view(idx_sort@).len() == matrix@.len(),
        forall|a: int|
            0 <= a < matrix@.len() ==> is_neighbor_order(
                mat_view(matrix@)[a],
                #[trigger] ord_view(idx_sort@)[a],
            ),
{
    let n = matrix.len();
    let mut idx_sort: Vec<Vec<usize>> = Vec::new();
    let mut i: usize = 0;
    while i < n
        invariant
            n == matrix@.len(),
            0 <= i <= n,
            ord_view(idx_sort@).len() == i,
            forall|a: int|
                0 <= a < i ==> is_neighbor_order(
                    mat_view(matrix@)[a],
                    #[trigger] ord_view(idx_sort@)[a],
                ),
        decreases n - i,
    {
        proof {
            assert(mat_view(matrix@)[i as int] == matrix@[i as int]@);
        }
        let row = sort_indices(&matrix[i]);
        let ghost pre = idx_sort@;
        let ghost row_view = row@;
        idx_sort.push(row);
        proof {
            assert forall|a: int|
                0 <= a < i + 1 implies is_neighbor_order(
                mat_view(matrix@)[a],
                #[trigger] ord_view(idx_sort@)[a],
            ) by {
                assert(ord_view(idx_sort@)[a] == idx_sort@[a]@);
                if a < i {
                    assert(idx_sort@[a] == pre[a]);
                    assert(ord_view(pre)[a] == pre[a]@);
                } else {
                    assert(idx_sort@[a]@ == row_view);
                }
            }
        }
        i = i + 1;
    }
    idx_sort
}

/// The remaining-point view holds one entry per active flag among the
/// first `k`.
pub proof fn lemma_remaining_prefix_len(pts: Seq<Seq<i64>>, act: Seq<bool>, k: int)
    requires
        0 <= k <= act.len(),
    ensures
        remaining_prefix(pts, act, k).len() == count_true(act.subrange(0, k)),
    decreases k,
{
    if k == 0 {
        assert(act.subrange(0, 0) =~= Seq::<bool>::empty());
    } else {
        lemma_remaining_prefix_len(pts, act, k - 1);
        assert(act.subrange(0, k).drop_last() =~= act.subrange(0, k - 1));
        assert(act.subrange(0, k).last() == act[k - 1]);
    }
}

impl PointSet {
    /// Builds a point set from a preset point list under the chosen
    /// metric: the distance matrix, its off-diagonal extremes and the
    /// neighbour orderings are computed once, and the elimination
    /// state starts fresh.  Rejects empty, oversized, inconsistent or
    /// out-of-range input.
    pub fn init_with_metric(points: Vec<Vec<i64>>, metric: DistanceMetric) -> (r: Result<
        PointSet,
        WspError,
    >)
        ensures
            match r {
                Ok(ps) => {
                    &&& valid_points(pts_view(points@))
                    &&& ps.wf()
                    &&& ps.fresh()
                    &&& ps.points@ == points@
                    &&& ps.metric == metric
                },
                Err(e) => points_error(pts_view(points@)) == Some(e),
            },
    {
        let ghost pts = pts_view(points@);
        match check_points(&points) {
            Err(e) => {
                return Err(e);
            },
            Ok(_) => {},
        }
        let (matrix, dmin, dmax) = compute_distance_matrix(&points, metric);
        let n = points.len();
        let idx_sort = compute_closest_idx(&matrix);
        let active = filled_bool(n, true);
        let visited = filled_bool(n, false);
        let idx_active = filled_usize(n, 1);
        let ps = PointSet {
            points,
            metric,
            distance_matrix: matrix,
            active,
            nb_active: n,
            idx_sort,
            idx_active,
            visited,
            d_min: dmin,
            d_max: dmax,
        };
        proof {
            lemma_matrix_symmetric(pts, metric, mat_view(ps.distance_matrix@));
            lemma_count_true_const(ps.active@, true);
            assert(ps.elim() =~= fresh_state(ps.n())) by {
                assert(ps.active@ =~= fresh_state(ps.n()).active);
                assert(ps.visited@ =~= fresh_state(ps.n()).visited);
                assert(ps.idx_active@ =~= fresh_state(ps.n()).cursor);
            }
            assert(ps.wf());
        }
        Ok(ps)
    }

    /// Builds a point set of `nb_points` random points of `nb_dim`
    /// coordinates each, drawn uniformly from `[0, COORD_SCALE)` by a
    /// generator seeded with `seed`: the same seed, count and
    /// dimension always yield the same point set.  Uses the default
    /// metric.
    pub fn init_from_random(nb_points: usize, nb_dim: usize, seed: u64) -> (r: Result<
        PointSet,
        WspError,
    >)
        ensures
            match r {
                Ok(ps) => {
                    &&& nb_points >= 1
                    &&& nb_dim <= MAX_DIMENSION
                    &&& ps.wf()
                    &&& ps.fresh()
                    &&& ps.n() == nb_points
                    &&& forall|i: int| 0 <= i < nb_points ==> (#[trigger] ps.pts()[i]).len() == nb_dim
                    &&& forall|i: int, k: int|
                        0 <= i < nb_points && 0 <= k < nb_dim ==> 0 <= #[trigger] ps.pts()[i][k]
                            < COORD_SCALE
                    &&& ps.metric == DistanceMetric::Manhattan
                },
                Err(e) => {
                    &&& (nb_points == 0 || nb_dim > MAX_DIMENSION)
                    &&& e == if nb_points == 0 {
                        WspError::EmptyInput
                    } else {
                        WspError::DimensionTooLarge
                    }
                },
            },
    {
        let mut generator = crate::rng::rng_from_seed(seed);
        let mut points: Vec<Vec<i64>> = Vec::new();
        let mut i: usize = 0;
        while i < nb_points
            invariant
                0 <= i <= nb_points,
                points@.len() == i,
                forall|a: int| 0 <= a < i ==> (#[trigger] points@[a])@.len() == nb_dim,
                forall|a: int, k: int|
                    0 <= a < i && 0 <= k < nb_dim ==> 0 <= #[trigger] points@[a]@[k] < COORD_SCALE,
            decreases nb_points - i,
        {
            let mut point: Vec<i64> = Vec::new();
            let mut k: usize = 0;
            while k < nb_dim
                invariant
                    0 <= k <= nb_dim,
                    point@.len() == k,
                    forall|q: int| 0 <= q < k ==> 0 <= #[trigger] point@[q] < COORD_SCALE,
                decreases nb_dim - k,
            {
                let draw = crate::rng::rng_next_u64(&mut generator);
                let coord: i64 = (draw % (COORD_SCALE as u64)) as i64;
                point.push(coord);
                k = k + 1;
            }
            points.push(point);
            i = i + 1;
        }
        let ghost pts = pts_view(points@);
        proof {
            assert(pts.len() == nb_points);
            assert forall|a: int| 0 <= a < nb_points implies (#[trigger] pts[a]).len()
                == nb_dim by {
                assert(pts[a] == points@[a]@);
            }
            assert forall|a: int, k: int|
                0 <= a < nb_points && 0 <= k < nb_dim implies 0 <= #[trigger] pts[a][k]
                < COORD_SCALE by {
                assert(pts[a] == points@[a]@);
            }
            if nb_points >= 1 && nb_dim <= MAX_DIMENSION {
                assert(points_error(pts) is None);
            }
        }
        PointSet::init_with_metric(points, DistanceMetric::Manhattan)
    }

    /// Builds a point set from a preset point list under the default
    /// metric, the sum of absolute per-dimension differences.
    pub fn init_from_preset(points: Vec<Vec<i64>>) -> (r: Result<PointSet, WspError>)
        ensures
            match r {
                Ok(ps) => {
                    &&& valid_points(pts_view(points@))
                    &&& ps.wf()
                    &&& ps.fresh()
                    &&& ps.points@ == points@
                    &&& ps.metric == DistanceMetric::Manhattan
                },
                Err(e) => points_error(pts_view(points@)) == Some(e),
            },
    {
        PointSet::init_with_metric(points, DistanceMetric::Manhattan)
    }

    /// Resets the elimination state for an independent pass: all
    /// points active, none visited, cursors back to rank 1.  The
    /// geometry is left untouched.
    pub fn reset_search_params(&mut self)
        requires
            old(self).wf(),
        ensures
            final(self).wf(),
            final(self).fresh(),
            final(self).points@ == old(self).points@,
            final(self).metric == old(self).metric,
            final(self).distance_matrix@ == old(self).distance_matrix@,
            final(self).idx_sort@ == old(self).idx_sort@,
            final(self).d_min == old(self).d_min,
            final(self).d_max == old(self).d_max,
    {
        let n = self.points.len();
        self.nb_active = n;
        self.active = filled_bool(n, true);
        self.idx_active = filled_usize(n, 1);
        self.visited = filled_bool(n, false);
        proof {
            lemma_count_true_const(self.active@, true);
            assert(self.elim() =~= fresh_state(self.n())) by {
                assert(self.active@ =~= fresh_state(self.n()).active);
                assert(self.visited@ =~= fresh_state(self.n()).visited);
                assert(self.idx_active@ =~= fresh_state(self.n()).cursor);
            }
        }
    }

    /// The coordinate vectors of all points still active, in original
    /// index order.
    pub fn get_remaining(&self) -> (r: Vec<Vec<i64>>)
        requires
            self.wf(),
        ensures
            pts_view(r@) == remaining_prefix(self.pts(), self.active@, self.n()),
            r@.len() == self.nb_active,
    {
        proof {
            lemma_remaining_prefix_len(self.pts(), self.active@, self.n());
            assert(self.active@.subrange(0, self.n()) =~= self.active@);
        }
        let ghost pts = self.pts();
        let n = self.points.len();
        let mut r: Vec<Vec<i64>> = Vec::new();
        let mut i: usize = 0;
        while i < n
            invariant
                pts == self.pts(),
                self.wf(),
                n == self.n(),
                0 <= i <= n,
                pts_view(r@) == remaining_prefix(pts, self.active@, i as int),
            decreases n - i,
        {
            let ghost pre = r@;
            if self.active[i] {
                let p = copy_point(&self.points[i]);
                let ghost p_view = p@;
                r.push(p);
                proof {
                    assert(pts[i as int] == self.points@[i as int]@);
                    assert(pts_view(r@) =~= pts_view(pre).push(p_view));
                    assert(remaining_prefix(pts, self.active@, i as int + 1) =~= pts_view(
                        pre,
                    ).push(p_view));
                }
            }
            i = i + 1;
        }
        r
    }
}

} // verus!
