//! The WSP elimination walk.
//!
//! Starting from one origin, the walk repeatedly kills too-close active
//! points and advances the origin to the nearest remaining unvisited
//! active point, until no further point is reachable.  The whole walk
//! is a function of the geometry, the threshold and the start origin;
//! `walk_loop` states that function and the executable walk is proved
//! to compute exactly it.

use vstd::prelude::*;
use vstd::pervasive::VecAdditionalExecFns;
use crate::order::{appears, is_neighbor_order, lex_lt};
use crate::pointset::PointSet;
use crate::state::{
    count_true, fresh_state, lemma_count_true_at_least_one, lemma_count_true_bounds,
    lemma_count_true_update, Geometry, WalkState,
};

verus! {

/// Deactivates point `j` (a permanent kill within a pass).
pub open spec fn kill(s: WalkState, j: int) -> WalkState {
    WalkState {
        active: s.active.update(j, false),
        visited: s.visited,
        cursor: s.cursor,
        nb_active: s.nb_active - 1,
    }
}

/// Marks point `o` as a used origin.
pub open spec fn mark(s: WalkState, o: int) -> WalkState {
    WalkState {
        active: s.active,
        visited: s.visited.update(o, true),
        cursor: s.cursor,
        nb_active: s.nb_active,
    }
}

/// Persists the scan position of point `i` so a later pass resumes
/// past already-dismissed neighbours.
pub open spec fn store_cursor(s: WalkState, i: int, c: int) -> WalkState {
    WalkState {
        active: s.active,
        visited: s.visited,
        cursor: s.cursor.update(i, c as usize),
        nb_active: s.nb_active,
    }
}

/// Number of points that have not yet served as an origin; the walk's
/// primary termination measure.
pub open spec fn unvisited(s: WalkState) -> int {
    s.visited.len() - count_true(s.visited)
}

/// The rest of an elimination walk, scanning the neighbour list of the
/// current (already marked) `origin` from rank `c`:
/// - an inactive candidate is skipped;
/// - an active candidate closer than `d_min` is killed;
/// - an active, far-enough, already-visited candidate is skipped as a
///   walk target;
/// - an active, far-enough, unvisited candidate becomes the next
///   origin (the old origin's cursor is persisted first);
/// - the walk halts when the scan reaches the end of the list.
pub open spec fn walk_loop(g: Geometry, d_min: u64, s: WalkState, origin: int, c: int) -> WalkState
    decreases unvisited(s), g.n() - c,
        when g.wf() && s.shaped(g.n()) && 0 <= origin < g.n() && 1 <= c
{
    if c >= g.n() {
        s
    } else {
        let cand = g.order[origin][c] as int;
        if !s.active[cand] {
            walk_loop(g, d_min, s, origin, c + 1)
        } else if g.matrix[origin][cand] < d_min {
            walk_loop(g, d_min, kill(s, cand), origin, c + 1)
        } else if s.visited[cand] {
            walk_loop(g, d_min, s, origin, c + 1)
        } else {
            proof {
                assert(is_neighbor_order(g.matrix[origin], g.order[origin]));
                assert(g.matrix[origin].len() == g.n());
                assert((g.order[origin][c] as int) < g.matrix[origin].len());
                lemma_count_true_update(s.visited, cand, true);
                lemma_count_true_bounds(s.visited.update(cand, true));
                lemma_count_true_bounds(s.visited);
            }
            walk_loop(g, d_min, mark(store_cursor(s, origin, c), cand), cand, 1)
        }
    }
}

/// A full elimination pass: the state after walking from a fresh
/// elimination state with start origin `origin`.
pub open spec fn walk_of(g: Geometry, d_min: u64, origin: int) -> WalkState {
    walk_loop(g, d_min, mark(fresh_state(g.n()), origin), origin, 1)
}

/// Runs one elimination walk in place, starting at `origin`, on a
/// freshly reset point set.  The resulting elimination state is
/// exactly `walk_of(geometry, d_min, origin)`.
pub fn wsp_loop_fast(set: &mut PointSet, d_min: u64, origin: usize)
    requires
        old(set).wf(),
        old(set).fresh(),
        origin < old(set).n(),
    ensures
        final(set).wf(),
        final(set).points@ == old(set).points@,
        final(set).metric == old(set).metric,
        final(set).distance_matrix@ == old(set).distance_matrix@,
        final(set).idx_sort@ == old(set).idx_sort@,
        final(set).d_min == old(set).d_min,
        final(set).d_max == old(set).d_max,
        final(set).elim() == walk_of(old(set).geom(), d_min, origin as int),
        old(set).geom().self_leading() ==> walk_complete(old(set).geom(), final(set).elim())
            && min_separated(old(set).geom(), d_min, final(set).elim().active),
{
    let ghost g = old(set).geom();
    let ghost s0 = mark(fresh_state(g.n()), origin as int);
    let n = set.points.len();
    set.visited.set(origin, true);
    proof {
        assert(set.elim() =~= s0);
    }
    let mut org: usize = origin;
    let mut c: usize = set.idx_active[org];
    while c < n
        invariant
            set.wf(),
            g == set.geom(),
            n == set.n(),
            set.points@ == old(set).points@,
            set.metric == old(set).metric,
            set.distance_matrix@ == old(set).distance_matrix@,
            set.idx_sort@ == old(set).idx_sort@,
            set.d_min == old(set).d_min,
            set.d_max == old(set).d_max,
            org < n,
            1 <= c <= n,
            set.visited@[org as int],
            forall|p: int|
                0 <= p < n && !(#[trigger] set.visited@[p]) ==> set.idx_active@[p] == 1,
            walk_loop(g, d_min, set.elim(), org as int, c as int) == walk_loop(
                g,
                d_min,
                s0,
                origin as int,
                1,
            ),
        decreases unvisited(set.elim()), n - c,
    {
        let ghost s_pre = set.elim();
        let ghost c_pre = c as int;
        let ghost org_pre = org as int;
        proof {
            assert(g.order[org as int] == set.idx_sort@[org as int]@);
            assert(is_neighbor_order(g.matrix[org as int], g.order[org as int]));
            assert(g.matrix[org as int].len() == n);
        }
        let cand = set.idx_sort[org][c];
        proof {
            assert(cand == g.order[org_pre][c_pre]);
            assert((cand as int) < n);
            assert(g.matrix[org as int] == set.distance_matrix@[org as int]@);
        }
        if !set.active[cand] {
            c = c + 1;
            proof {
                assert(walk_loop(g, d_min, s_pre, org_pre, c_pre) == walk_loop(
                    g,
                    d_min,
                    set.elim(),
                    org as int,
                    c as int,
                ));
            }
        } else if set.distance_matrix[org][cand] < d_min {
            proof {
                lemma_count_true_at_least_one(set.active@, cand as int);
                lemma_count_true_update(set.active@, cand as int, false);
            }
            set.active.set(cand, false);
            set.nb_active = set.nb_active - 1;
            c = c + 1;
            proof {
                assert(set.elim() =~= kill(s_pre, cand as int));
                assert(walk_loop(g, d_min, s_pre, org_pre, c_pre) == walk_loop(
                    g,
                    d_min,
                    set.elim(),
                    org as int,
                    c as int,
                ));
            }
        } else if set.visited[cand] {
            c = c + 1;
            proof {
                assert(walk_loop(g, d_min, s_pre, org_pre, c_pre) == walk_loop(
                    g,
                    d_min,
                    set.elim(),
                    org as int,
                    c as int,
                ));
            }
        } else {
            set.idx_active.set(org, c);
            org = cand;
            set.visited.set(org, true);
            proof {
                lemma_count_true_update(s_pre.visited, cand as int, true);
                lemma_count_true_bounds(set.visited@);
            }
            c = set.idx_active[org];
            proof {
                assert(c == 1);
                assert(set.elim() =~= mark(store_cursor(s_pre, org_pre, c_pre), cand as int));
                assert(walk_loop(g, d_min, s_pre, org_pre, c_pre) == walk_loop(
                    g,
                    d_min,
                    set.elim(),
                    org as int,
                    c as int,
                ));
            }
        }
    }
    proof {
        assert(walk_loop(g, d_min, set.elim(), org as int, c as int) == set.elim());
        if g.self_leading() {
            lemma_walk_of_props(g, d_min, origin as int);
        }
    }
}

/// Executes the WSP space filling algorithm according to the paper:
/// (pseudo-)randomly chooses an origin with the fixed `ORIGIN_SEED`
/// for reproducibility, then removes all points too close to it and
/// walks to the closest valid point, until all points have been
/// visited or removed.  The result is `walk_of` the geometry at some
/// origin, so every guarantee that holds for all origins holds here.
pub fn wsp(set: &mut PointSet, d_min: u64)
    requires
        old(set).wf(),
        old(set).fresh(),
    ensures
        final(set).wf(),
        final(set).points@ == old(set).points@,
        final(set).metric == old(set).metric,
        final(set).distance_matrix@ == old(set).distance_matrix@,
        final(set).idx_sort@ == old(set).idx_sort@,
        final(set).d_min == old(set).d_min,
        final(set).d_max == old(set).d_max,
        exists|o: int|
            0 <= o < old(set).n() && final(set).elim() == walk_of(old(set).geom(), d_min, o),
        old(set).geom().self_leading() ==> walk_complete(old(set).geom(), final(set).elim())
            && min_separated(old(set).geom(), d_min, final(set).elim().active),
{
    let mut generator = crate::rng::rng_from_seed(crate::rng::ORIGIN_SEED);
    let draw = crate::rng::rng_next_u64(&mut generator);
    let n = set.points.len();
    let origin = (draw % (n as u64)) as usize;
    wsp_loop_fast(set, d_min, origin);
}

/// Every active point other than `v` lies at least `d_min` away from
/// `v`.
pub open spec fn separated_from(g: Geometry, d_min: u64, active: Seq<bool>, v: int) -> bool {
    forall|j: int|
        0 <= j < g.n() && j != v && active[j] ==> #[trigger] g.matrix[v][j] >= d_min
}

/// Every visited point except `except` is separated from all active
/// points (pass `g.n()` to except no point).
pub open spec fn all_visited_separated(g: Geometry, d_min: u64, s: WalkState, except: int) -> bool {
    forall|v: int|
        0 <= v < g.n() && #[trigger] s.visited[v] && v != except ==> separated_from(
            g,
            d_min,
            s.active,
            v,
        )
}

/// Every candidate the current origin has already scanned is dead or
/// far: the scan never leaves a close active point behind.
pub open spec fn scanned_dead_or_far(
    g: Geometry,
    d_min: u64,
    s: WalkState,
    origin: int,
    c: int,
) -> bool {
    forall|p: int|
        1 <= p < c ==> !s.active[#[trigger] g.order[origin][p] as int] || g.matrix[origin][g.order[origin][p] as int]
            >= d_min
}

/// Every candidate the current origin has already scanned is dead or
/// visited: nothing explorable was left behind.
pub open spec fn scanned_dead_or_visited(g: Geometry, s: WalkState, origin: int, c: int) -> bool {
    forall|p: int|
        1 <= p < c ==> !s.active[#[trigger] g.order[origin][p] as int] || s.visited[g.order[origin][p] as int]
}

/// All mutually active pairs are at least `d_min` apart.
pub open spec fn min_separated(g: Geometry, d_min: u64, active: Seq<bool>) -> bool {
    forall|i: int, j: int|
        0 <= i < g.n() && 0 <= j < g.n() && i != j && active[i] && active[j]
            ==> #[trigger] g.matrix[i][j] >= d_min
}

/// Every point is visited or inactive after the walk ends.
pub open spec fn walk_complete(g: Geometry, s: WalkState) -> bool {
    forall|j: int| 0 <= j < g.n() ==> #[trigger] s.visited[j] || !s.active[j]
}

/// The inductive heart of the walk's correctness: from any state whose
/// visited points are already separated and whose current scan left
/// nothing close or explorable behind, the walk ends complete, with
/// all visited points separated, having only killed points and only
/// added visited marks.  Requires a self-leading neighbour ordering
/// (no two points coincide).
/// Everything one walk step preserves or establishes, stated of the
/// start state `s` and the final state `r`: shapes kept, points only
/// killed, visited marks only added, and on exit the pass is complete
/// with all visited points separated.
pub open spec fn walk_post(g: Geometry, d_min: u64, s: WalkState, r: WalkState) -> bool {
    &&& r.shaped(g.n())
    &&& forall|j: int| 0 <= j < g.n() && #[trigger] r.active[j] ==> s.active[j]
    &&& forall|j: int| 0 <= j < g.n() && #[trigger] s.visited[j] ==> r.visited[j]
    &&& walk_complete(g, r)
    &&& all_visited_separated(g, d_min, r, g.n())
}

#[verifier::spinoff_prover]
#[verifier::rlimit(60)]
pub proof fn lemma_walk_loop_props(g: Geometry, d_min: u64, s: WalkState, origin: int, c: int)
    requires
        g.wf(),
        g.self_leading(),
        s.shaped(g.n()),
        0 <= origin < g.n(),
        1 <= c <= g.n(),
        s.visited[origin],
        all_visited_separated(g, d_min, s, origin),
        scanned_dead_or_far(g, d_min, s, origin, c),
        scanned_dead_or_visited(g, s, origin, c),
    ensures
        walk_post(g, d_min, s, walk_loop(g, d_min, s, origin, c)),
    decreases unvisited(s), g.n() - c,
{
    let n = g.n();
    let r = walk_loop(g, d_min, s, origin, c);
    assert(is_neighbor_order(g.matrix[origin], g.order[origin]));
    assert(g.matrix[origin].len() == n);
    if c >= n {
        assert(r == s);
        assert forall|j: int| 0 <= j < n implies #[trigger] s.visited[j] || !s.active[j] by {
            if j != origin && s.active[j] {
                assert(appears(g.order[origin], j));
                let p = choose|p: int|
                    0 <= p < g.order[origin].len() && #[trigger] g.order[origin][p] as int == j;
                assert(g.order[origin][0] as int == origin);
                assert(p != 0);
                assert(!s.active[g.order[origin][p] as int] || s.visited[g.order[origin][p] as int]);
            }
        }
        assert(separated_from(g, d_min, s.active, origin)) by {
            assert forall|j: int|
                0 <= j < n && j != origin && s.active[j] implies #[trigger] g.matrix[origin][j]
                >= d_min by {
                assert(appears(g.order[origin], j));
                let p = choose|p: int|
                    0 <= p < g.order[origin].len() && #[trigger] g.order[origin][p] as int == j;
                assert(g.order[origin][0] as int == origin);
                assert(p != 0);
                assert(!s.active[g.order[origin][p] as int] || g.matrix[origin][g.order[origin][p] as int]
                    >= d_min);
            }
        }
        assert(walk_complete(g, r));
        assert(all_visited_separated(g, d_min, r, g.n()));
        assert(walk_post(g, d_min, s, r));
    } else {
        let cand = g.order[origin][c] as int;
        assert(0 <= cand < n);
        if !s.active[cand] {
            assert(scanned_dead_or_far(g, d_min, s, origin, c + 1));
            assert(scanned_dead_or_visited(g, s, origin, c + 1));
            lemma_walk_loop_props(g, d_min, s, origin, c + 1);
            assert(r == walk_loop(g, d_min, s, origin, c + 1));
            assert(walk_post(g, d_min, s, r));
        } else if g.matrix[origin][cand] < d_min {
            let s2 = kill(s, cand);
            assert(all_visited_separated(g, d_min, s2, origin)) by {
                assert forall|v: int|
                    0 <= v < n && #[trigger] s2.visited[v] && v != origin implies separated_from(
                    g,
                    d_min,
                    s2.active,
                    v,
                ) by {
                    assert(separated_from(g, d_min, s.active, v));
                    assert forall|j: int|
                        0 <= j < n && j != v && s2.active[j] implies #[trigger] g.matrix[v][j]
                        >= d_min by {
                        assert(s.active[j]);
                    }
                }
            }
            assert(scanned_dead_or_far(g, d_min, s2, origin, c + 1)) by {
                assert forall|p: int| 1 <= p < c + 1 implies !s2.active[#[trigger] g.order[origin][p] as int]
                    || g.matrix[origin][g.order[origin][p] as int] >= d_min by {
                    let jp = g.order[origin][p] as int;
                    if p < c {
                        assert(!s.active[jp] || g.matrix[origin][jp] >= d_min);
                        assert(!s.active[jp] ==> !s2.active[jp]);
                    } else {
                        assert(jp == cand);
                        assert(!s2.active[jp]);
                    }
                }
            }
            assert(scanned_dead_or_visited(g, s2, origin, c + 1)) by {
                assert forall|p: int| 1 <= p < c + 1 implies !s2.active[#[trigger] g.order[origin][p] as int]
                    || s2.visited[g.order[origin][p] as int] by {
                    let jp = g.order[origin][p] as int;
                    if p < c {
                        assert(!s.active[jp] || s.visited[jp]);
                        assert(!s.active[jp] ==> !s2.active[jp]);
                    } else {
                        assert(!s2.active[jp]);
                    }
                }
            }
            lemma_walk_loop_props(g, d_min, s2, origin, c + 1);
            assert(r == walk_loop(g, d_min, s2, origin, c + 1));
            assert(walk_post(g, d_min, s2, r));
            assert forall|j: int| 0 <= j < n && #[trigger] r.active[j] implies s.active[j] by {
                assert(s2.active[j]);
            }
            assert forall|j: int| 0 <= j < n && #[trigger] s.visited[j] implies r.visited[j] by {
                assert(s2.visited[j]);
            }
            assert(walk_post(g, d_min, s, r));
        } else if s.visited[cand] {
            assert(scanned_dead_or_far(g, d_min, s, origin, c + 1));
            assert(scanned_dead_or_visited(g, s, origin, c + 1));
            lemma_walk_loop_props(g, d_min, s, origin, c + 1);
            assert(r == walk_loop(g, d_min, s, origin, c + 1));
            assert(walk_post(g, d_min, s, r));
        } else {
            let s2 = mark(store_cursor(s, origin, c), cand);
            // the old origin is now fully separated: scanned candidates
            // are dead or far, the switch candidate is far, and
            // everything beyond it in the ordering is at least as far
            assert(separated_from(g, d_min, s2.active, origin)) by {
                assert forall|j: int|
                    0 <= j < n && j != origin && s2.active[j] implies #[trigger] g.matrix[origin][j]
                    >= d_min by {
                    assert(appears(g.order[origin], j));
                    let p = choose|p: int|
                        0 <= p < g.order[origin].len() && #[trigger] g.order[origin][p] as int == j;
                    assert(g.order[origin][0] as int == origin);
                    assert(p != 0);
                    if p < c {
                        assert(!s.active[g.order[origin][p] as int] || g.matrix[origin][g.order[origin][p] as int]
                            >= d_min);
                    } else if p == c {
                        assert(j == cand);
                    } else {
                        assert(lex_lt(g.matrix[origin], g.order[origin][c] as int, g.order[origin][p] as int));
                        assert(g.matrix[origin][j] >= g.matrix[origin][cand]);
                    }
                }
            }
            assert(all_visited_separated(g, d_min, s2, cand)) by {
                assert forall|v: int|
                    0 <= v < n && #[trigger] s2.visited[v] && v != cand implies separated_from(
                    g,
                    d_min,
                    s2.active,
                    v,
                ) by {
                    if v == origin {
                    } else {
                        assert(s.visited[v]);
                        assert(separated_from(g, d_min, s.active, v));
                    }
                }
            }
            lemma_count_true_update(s.visited, cand, true);
            lemma_count_true_bounds(s.visited.update(cand, true));
            lemma_count_true_bounds(s.visited);
            lemma_walk_loop_props(g, d_min, s2, cand, 1);
            assert(r == walk_loop(g, d_min, s2, cand, 1));
            assert(walk_post(g, d_min, s2, r));
            assert forall|j: int| 0 <= j < n && #[trigger] s.visited[j] implies r.visited[j] by {
                assert(s2.visited[j]);
            }
            assert(walk_post(g, d_min, s, r));
        }
    }
}

/// Post-walk guarantees of one full pass from a fresh state, provided
/// no two points of the set coincide (self-leading orderings): every
/// point ends visited or inactive, and all surviving points are
/// mutually at least `d_min` apart.
pub proof fn lemma_walk_of_props(g: Geometry, d_min: u64, origin: int)
    requires
        g.wf(),
        g.self_leading(),
        0 <= origin < g.n(),
    ensures
        ({
            let r = walk_of(g, d_min, origin);
            &&& r.shaped(g.n())
            &&& walk_complete(g, r)
            &&& min_separated(g, d_min, r.active)
        }),
{
    let n = g.n();
    let s0 = mark(fresh_state(n), origin);
    lemma_walk_loop_props(g, d_min, s0, origin, 1);
    let r = walk_of(g, d_min, origin);
    assert(walk_post(g, d_min, s0, r));
    assert forall|i: int, j: int|
        0 <= i < n && 0 <= j < n && i != j && r.active[i] && r.active[j]
        implies #[trigger] g.matrix[i][j] >= d_min by {
        assert(r.visited[i] || !r.active[i]);
        assert(separated_from(g, d_min, r.active, i));
    }
}

/// A walk with threshold zero kills nothing: no distance is below
/// zero, so the surviving set and its count are unchanged.
pub proof fn lemma_walk_loop_zero(g: Geometry, s: WalkState, origin: int, c: int)
    requires
        g.wf(),
        s.shaped(g.n()),
        0 <= origin < g.n(),
        1 <= c,
    ensures
        walk_loop(g, 0, s, origin, c).active == s.active,
        walk_loop(g, 0, s, origin, c).nb_active == s.nb_active,
    decreases unvisited(s), g.n() - c,
{
    if c >= g.n() {
    } else {
        assert(is_neighbor_order(g.matrix[origin], g.order[origin]));
        assert(g.matrix[origin].len() == g.n());
        let cand = g.order[origin][c] as int;
        if !s.active[cand] {
            lemma_walk_loop_zero(g, s, origin, c + 1);
        } else if s.visited[cand] {
            lemma_walk_loop_zero(g, s, origin, c + 1);
        } else {
            let s2 = mark(store_cursor(s, origin, c), cand);
            lemma_count_true_update(s.visited, cand, true);
            lemma_count_true_bounds(s.visited.update(cand, true));
            lemma_count_true_bounds(s.visited);
            lemma_walk_loop_zero(g, s2, cand, 1);
        }
    }
}

/// Idempotent reset: a reset always lands in exactly `fresh_state`,
/// so two point sets reset once or twice over the same geometry hold
/// identical elimination states, and the walk that follows, with the
/// same threshold and origin, yields identical surviving and visited
/// flags from either.
pub proof fn lemma_reset_walk_reproducible(a: PointSet, b: PointSet, d_min: u64, origin: int)
    requires
        a.wf(),
        b.wf(),
        a.fresh(),
        b.fresh(),
        a.geom() == b.geom(),
    ensures
        a.elim() == b.elim(),
        walk_of(a.geom(), d_min, origin) == walk_of(b.geom(), d_min, origin),
{
    assert(a.n() == a.geom().n());
    assert(b.n() == b.geom().n());
}

} // verus!
