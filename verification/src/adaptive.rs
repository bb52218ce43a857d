//! Adaptive WSP: binary search over the distance threshold.
//!
//! The classical algorithm needs a threshold and yields some number of
//! surviving points; here the threshold is searched so that the count
//! of surviving points reaches (or best approximates) a target.  The
//! whole search is a function of the geometry, the target and the
//! origin; `adaptive_loop` states that function and the executable
//! search is proved to compute exactly it.

use vstd::prelude::*;
use vstd::arithmetic::div_mod::lemma_fundamental_div_mod;
use crate::distance::abs_diff;
use crate::pointset::PointSet;
use crate::state::{count_true, fresh_state, lemma_count_true_const, Geometry, WalkState};
use crate::walk::{lemma_walk_loop_zero, mark, walk_of, wsp_loop_fast};

verus! {

/// Number of surviving points after one full pass at threshold `d`.
pub open spec fn count_at(g: Geometry, d: u64, origin: int) -> int {
    count_true(walk_of(g, d, origin).active)
}

/// Midpoint of the current search interval.
pub open spec fn mid_of(lo: u64, hi: u64) -> u64 {
    ((lo + hi) / 2) as u64
}

/// What one adaptive search produces: the final elimination state,
/// the distance that state was computed at, and the trial distances
/// with their surviving counts, in order.
#[verifier::ext_equal]
pub struct SearchOutcome {
    pub state: WalkState,
    pub dist: u64,
    pub trials: Seq<(u64, int)>,
}

/// The midpoint lies between the interval ends, whichever way round
/// they are.
pub proof fn lemma_mid_between(lo: u64, hi: u64)
    ensures
        lo <= hi ==> lo <= mid_of(lo, hi) <= hi,
        hi <= lo ==> hi <= mid_of(lo, hi) <= lo,
{
    let s = lo as int + hi as int;
    lemma_fundamental_div_mod(s, 2);
    assert(0 <= s % 2 < 2);
    assert(0 <= s / 2 <= u64::MAX as int);
}

/// The rest of the binary search, with `mid` the midpoint of
/// `[lo, hi]` and `best_d` the best threshold seen so far (initially
/// zero, at which nothing is eliminated), whose distance from the
/// target is `best_diff`.  One iteration runs a full pass at `mid`;
/// an exact hit returns at once, otherwise the matching half-interval
/// is kept and the best seen threshold updated.  When the midpoint
/// stops moving the interval is exhausted: the state is re-computed
/// at the best threshold if the last pass was not already there.
pub open spec fn adaptive_loop(
    g: Geometry,
    obj: int,
    origin: int,
    lo: u64,
    hi: u64,
    mid: u64,
    best_d: u64,
    best_diff: int,
) -> SearchOutcome
    decreases abs_diff(lo as int, hi as int),
        when g.wf() && 0 <= origin < g.n() && mid == mid_of(lo, hi)
{
    let st = walk_of(g, mid, origin);
    let cnt = count_true(st.active);
    let trial = seq![(mid, cnt)];
    if cnt == obj {
        SearchOutcome { state: st, dist: mid, trials: trial }
    } else {
        let lo2 = if cnt > obj {
            mid
        } else {
            lo
        };
        let hi2 = if cnt > obj {
            hi
        } else {
            mid
        };
        let better = abs_diff(cnt, obj) < best_diff;
        let bd2 = if better {
            mid
        } else {
            best_d
        };
        let bdiff2 = if better {
            abs_diff(cnt, obj)
        } else {
            best_diff
        };
        let mid2 = mid_of(lo2, hi2);
        if mid2 == mid {
            if bd2 != mid {
                SearchOutcome { state: walk_of(g, bd2, origin), dist: bd2, trials: trial }
            } else {
                SearchOutcome { state: st, dist: mid, trials: trial }
            }
        } else {
            proof {
                lemma_mid_between(lo, hi);
                lemma_mid_between(lo2, hi2);
            }
            let rec = adaptive_loop(g, obj, origin, lo2, hi2, mid2, bd2, bdiff2);
            SearchOutcome { state: rec.state, dist: rec.dist, trials: trial + rec.trials }
        }
    }
}

/// One whole adaptive search over the matrix's off-diagonal extremes
/// `[lo, hi]`, starting from the degenerate best "threshold zero"
/// (every point survives there).
pub open spec fn adaptive_search(g: Geometry, obj: int, origin: int, lo: u64, hi: u64) -> SearchOutcome {
    adaptive_loop(g, obj, origin, lo, hi, mid_of(lo, hi), 0, abs_diff(g.n(), obj))
}

/// Adaptive convergence, by induction over the search: the final
/// state is a genuine pass at the reported distance; its surviving
/// count is at least as close to the target as the best seen so far
/// and as every explored trial; and a trial that hits the target
/// exactly ends the search with exactly that count.
pub proof fn lemma_adaptive_loop_minimal(
    g: Geometry,
    obj: int,
    origin: int,
    lo: u64,
    hi: u64,
    mid: u64,
    best_d: u64,
    best_diff: int,
)
    requires
        g.wf(),
        0 <= origin < g.n(),
        mid == mid_of(lo, hi),
        best_diff == abs_diff(count_at(g, best_d, origin), obj),
    ensures
        ({
            let o = adaptive_loop(g, obj, origin, lo, hi, mid, best_d, best_diff);
            &&& o.state == walk_of(g, o.dist, origin)
            &&& o.trials.len() >= 1
            &&& abs_diff(count_true(o.state.active), obj) <= best_diff
            &&& forall|k: int|
                0 <= k < o.trials.len() ==> abs_diff(count_true(o.state.active), obj) <= abs_diff(
                    (#[trigger] o.trials[k]).1,
                    obj,
                )
            &&& (exists|k: int| 0 <= k < o.trials.len() && (#[trigger] o.trials[k]).1 == obj)
                ==> count_true(o.state.active) == obj
        }),
    decreases abs_diff(lo as int, hi as int),
{
    let o = adaptive_loop(g, obj, origin, lo, hi, mid, best_d, best_diff);
    let st = walk_of(g, mid, origin);
    let cnt = count_true(st.active);
    if cnt == obj {
    } else {
        let lo2 = if cnt > obj {
            mid
        } else {
            lo
        };
        let hi2 = if cnt > obj {
            hi
        } else {
            mid
        };
        let better = abs_diff(cnt, obj) < best_diff;
        let bd2 = if better {
            mid
        } else {
            best_d
        };
        let bdiff2 = if better {
            abs_diff(cnt, obj)
        } else {
            best_diff
        };
        assert(bdiff2 == abs_diff(count_at(g, bd2, origin), obj));
        assert(bdiff2 <= best_diff);
        assert(bdiff2 <= abs_diff(cnt, obj));
        let mid2 = mid_of(lo2, hi2);
        if mid2 == mid {
            if bd2 != mid {
                assert(o.state == walk_of(g, bd2, origin));
                assert(abs_diff(count_true(o.state.active), obj) == bdiff2);
            } else {
                assert(o.state == st);
                assert(abs_diff(count_true(o.state.active), obj) == bdiff2);
            }
        } else {
            lemma_mid_between(lo, hi);
            lemma_mid_between(lo2, hi2);
            lemma_adaptive_loop_minimal(g, obj, origin, lo2, hi2, mid2, bd2, bdiff2);
            let rec = adaptive_loop(g, obj, origin, lo2, hi2, mid2, bd2, bdiff2);
            assert(o.trials == seq![(mid, cnt)] + rec.trials);
            assert forall|k: int|
                0 <= k < o.trials.len() implies abs_diff(count_true(o.state.active), obj)
                <= abs_diff((#[trigger] o.trials[k]).1, obj) by {
                if k == 0 {
                    assert(o.trials[0] == (mid, cnt));
                } else {
                    assert(o.trials[k] == rec.trials[k - 1]);
                }
            }
            if exists|k: int| 0 <= k < o.trials.len() && (#[trigger] o.trials[k]).1 == obj {
                let k = choose|k: int| 0 <= k < o.trials.len() && (#[trigger] o.trials[k]).1 == obj;
                assert(k != 0);
                assert(rec.trials[k - 1] == o.trials[k]);
                assert(exists|k2: int|
                    0 <= k2 < rec.trials.len() && (#[trigger] rec.trials[k2]).1 == obj);
            }
        }
    }
}

/// Adaptive convergence of the whole search: a reachable target (one
/// some explored threshold attains) is attained exactly, and in any
/// case the surviving count minimizes the distance to the target over
/// the explored thresholds together with the degenerate zero
/// threshold, at which all `n` points survive.
pub proof fn lemma_adaptive_search_minimal(g: Geometry, obj: int, origin: int, lo: u64, hi: u64)
    requires
        g.wf(),
        0 <= origin < g.n(),
    ensures
        ({
            let o = adaptive_search(g, obj, origin, lo, hi);
            &&& o.state == walk_of(g, o.dist, origin)
            &&& o.trials.len() >= 1
            &&& abs_diff(count_true(o.state.active), obj) <= abs_diff(g.n(), obj)
            &&& forall|k: int|
                0 <= k < o.trials.len() ==> abs_diff(count_true(o.state.active), obj) <= abs_diff(
                    (#[trigger] o.trials[k]).1,
                    obj,
                )
            &&& (exists|k: int| 0 <= k < o.trials.len() && (#[trigger] o.trials[k]).1 == obj)
                ==> count_true(o.state.active) == obj
        }),
{
    let n = g.n();
    let s0 = mark(fresh_state(n), origin);
    lemma_walk_loop_zero(g, s0, origin, 1);
    lemma_count_true_const(fresh_state(n).active, true);
    assert(count_at(g, 0, origin) == n);
    lemma_adaptive_loop_minimal(g, obj, origin, lo, hi, mid_of(lo, hi), 0, abs_diff(n, obj));
}

/// The trial log as the spec sees it.
pub open spec fn log_view(l: Seq<(u64, usize)>) -> Seq<(u64, int)> {
    l.map_values(|p: (u64, usize)| (p.0, p.1 as int))
}

/// Midpoint of the search interval, exactly `mid_of`.
fn mid_exec(lo: u64, hi: u64) -> (m: u64)
    ensures
        m == mid_of(lo, hi),
{
    let s: u128 = lo as u128 + hi as u128;
    let m: u128 = s / 2;
    proof {
        lemma_fundamental_div_mod(s as int, 2);
        assert(0 <= (s as int) % 2 < 2);
        assert(m as int == (lo as int + hi as int) / 2);
        assert(m <= u64::MAX as u128);
    }
    m as u64
}

/// `|a - b|` on counts.
fn count_gap(a: usize, b: usize) -> (r: usize)
    ensures
        r as int == abs_diff(a as int, b as int),
{
    if a >= b {
        a - b
    } else {
        b - a
    }
}

/// Adaptively searches the threshold whose pass leaves `obj_nb`
/// points, starting the walk of every pass at `origin`: binary search
/// over `[d_min, d_max]` of the matrix, resetting the elimination
/// state between passes.  The final state, the distance it was
/// computed at and the per-iteration log are exactly those of
/// `adaptive_search`, so two runs with equal geometry, target and
/// origin end in the same state.
pub fn adaptive_wsp_from(set: &mut PointSet, obj_nb: usize, origin: usize) -> (log: Vec<(u64, usize)>)
    requires
        old(set).wf(),
        old(set).fresh(),
        origin < old(set).n(),
    ensures
        final(set).wf(),
        final(set).points@ == old(set).points@,
        final(set).metric == old(set).metric,
        final(set).distance_matrix@ == old(set).distance_matrix@,
        final(set).idx_sort@ == old(set).idx_sort@,
        final(set).d_min == old(set).d_min,
        final(set).d_max == old(set).d_max,
        ({
            let outcome = adaptive_search(
                old(set).geom(),
                obj_nb as int,
                origin as int,
                old(set).d_min,
                old(set).d_max,
            );
            &&& final(set).elim() == outcome.state
            &&& log_view(log@) == outcome.trials
        }),
        abs_diff(final(set).nb_active as int, obj_nb as int) <= abs_diff(
            old(set).n(),
            obj_nb as int,
        ),
{
    let ghost g = old(set).geom();
    let ghost outcome = adaptive_search(
        g,
        obj_nb as int,
        origin as int,
        old(set).d_min,
        old(set).d_max,
    );
    let n = set.points.len();
    let mut d_lo = set.d_min;
    let mut d_hi = set.d_max;
    let mut d_search = mid_exec(d_lo, d_hi);
    let mut best_distance: u64 = 0;
    let mut best_diff: usize = count_gap(set.nb_active, obj_nb);
    let mut log: Vec<(u64, usize)> = Vec::new();
    proof {
        assert(count_true(set.elim().active) == g.n()) by {
            lemma_count_true_const(set.elim().active, true);
        }
        assert(outcome == adaptive_loop(
            g,
            obj_nb as int,
            origin as int,
            d_lo,
            d_hi,
            d_search,
            best_distance,
            best_diff as int,
        ));
        assert(log_view(log@) =~= Seq::<(u64, int)>::empty());
    }
    loop
        invariant_except_break
            set.wf(),
            set.fresh(),
            g == set.geom(),
            n == set.n(),
            set.points@ == old(set).points@,
            set.metric == old(set).metric,
            set.distance_matrix@ == old(set).distance_matrix@,
            set.idx_sort@ == old(set).idx_sort@,
            set.d_min == old(set).d_min,
            set.d_max == old(set).d_max,
            origin < n,
            d_search == mid_of(d_lo, d_hi),
            ({
                let rem = adaptive_loop(
                    g,
                    obj_nb as int,
                    origin as int,
                    d_lo,
                    d_hi,
                    d_search,
                    best_distance,
                    best_diff as int,
                );
                &&& outcome.state == rem.state
                &&& outcome.dist == rem.dist
                &&& outcome.trials == log_view(log@) + rem.trials
            }),
        ensures
            set.wf(),
            g == set.geom(),
            n == set.n(),
            set.points@ == old(set).points@,
            set.metric == old(set).metric,
            set.distance_matrix@ == old(set).distance_matrix@,
            set.idx_sort@ == old(set).idx_sort@,
            set.d_min == old(set).d_min,
            set.d_max == old(set).d_max,
            set.elim() == outcome.state,
            log_view(log@) == outcome.trials,
        decreases abs_diff(d_lo as int, d_hi as int),
    {
        let ghost lo_pre = d_lo;
        let ghost hi_pre = d_hi;
        let ghost mid_pre = d_search;
        let ghost bd_pre = best_distance;
        let ghost bdiff_pre = best_diff as int;
        let ghost rem_pre = adaptive_loop(
            g,
            obj_nb as int,
            origin as int,
            d_lo,
            d_hi,
            d_search,
            best_distance,
            best_diff as int,
        );
        let ghost log_pre = log@;
        wsp_loop_fast(set, d_search, origin);
        log.push((d_search, set.nb_active));
        proof {
            assert(set.elim() == walk_of(g, mid_pre, origin as int));
            assert(set.nb_active as int == count_true(set.elim().active));
            assert(log_view(log@) =~= log_view(log_pre).push((mid_pre, set.nb_active as int)));
        }
        if set.nb_active == obj_nb {
            proof {
                assert(rem_pre.state == set.elim());
                assert(rem_pre.trials =~= seq![(mid_pre, set.nb_active as int)]);
                assert(outcome.trials =~= log_view(log@));
            }
            break;
        }
        let gap = count_gap(set.nb_active, obj_nb);
        let better = gap < best_diff;
        if better {
            best_diff = gap;
            best_distance = d_search;
        }
        if set.nb_active > obj_nb {
            d_lo = d_search;
        } else {
            d_hi = d_search;
        }
        let last_d_search = d_search;
        d_search = mid_exec(d_lo, d_hi);
        if last_d_search == d_search {
            if best_distance != d_search {
                set.reset_search_params();
                wsp_loop_fast(set, best_distance, origin);
            }
            proof {
                assert(rem_pre.trials =~= seq![(mid_pre, count_true(walk_of(
                    g,
                    mid_pre,
                    origin as int,
                ).active))]);
                assert(set.elim() == rem_pre.state);
                assert(outcome.trials =~= log_view(log@));
            }
            break;
        }
        set.reset_search_params();
        proof {
            let rem_new = adaptive_loop(
                g,
                obj_nb as int,
                origin as int,
                d_lo,
                d_hi,
                d_search,
                best_distance,
                best_diff as int,
            );
            assert(rem_pre.state == rem_new.state && rem_pre.dist == rem_new.dist
                && rem_pre.trials == seq![(mid_pre, count_true(walk_of(g, mid_pre, origin as int).active))]
                + rem_new.trials);
            assert(outcome.trials =~= log_view(log@) + rem_new.trials);
            lemma_mid_between(lo_pre, hi_pre);
            lemma_mid_between(d_lo, d_hi);
        }
    }
    proof {
        lemma_adaptive_search_minimal(
            g,
            obj_nb as int,
            origin as int,
            old(set).d_min,
            old(set).d_max,
        );
    }
    log
}

/// This is an adaptive version of the WSP algorithm.  The traditional
/// algorithm requires a threshold and based on that we obtain a set
/// of a given number of points; here the threshold is adaptively
/// changed to get (an approximation of) the desired number of active
/// points.  The walk origin is drawn once with the fixed
/// `ORIGIN_SEED` and reused by every pass, so every guarantee of
/// `adaptive_search` that holds for all origins holds here.  When
/// `verbose` is set the per-iteration (distance, surviving count) log
/// is returned for the caller to report; the searched state does not
/// depend on it.
pub fn adaptive_wsp(set: &mut PointSet, obj_nb: usize, verbose: bool) -> (log: Vec<(u64, usize)>)
    requires
        old(set).wf(),
        old(set).fresh(),
    ensures
        final(set).wf(),
        final(set).points@ == old(set).points@,
        final(set).metric == old(set).metric,
        final(set).distance_matrix@ == old(set).distance_matrix@,
        final(set).idx_sort@ == old(set).idx_sort@,
        final(set).d_min == old(set).d_min,
        final(set).d_max == old(set).d_max,
        exists|o: int|
            {
                &&& 0 <= o < old(set).n()
                &&& final(set).elim() == adaptive_search(
                    old(set).geom(),
                    obj_nb as int,
                    o,
                    old(set).d_min,
                    old(set).d_max,
                ).state
                &&& verbose ==> log_view(log@) == adaptive_search(
                    old(set).geom(),
                    obj_nb as int,
                    o,
                    old(set).d_min,
                    old(set).d_max,
                ).trials
            },
        abs_diff(final(set).nb_active as int, obj_nb as int) <= abs_diff(
            old(set).n(),
            obj_nb as int,
        ),
        !verbose ==> log@.len() == 0,
{
    let mut generator = crate::rng::rng_from_seed(crate::rng::ORIGIN_SEED);
    let draw = crate::rng::rng_next_u64(&mut generator);
    let n = set.points.len();
    let origin = (draw % (n as u64)) as usize;
    let full = adaptive_wsp_from(set, obj_nb, origin);
    if verbose {
        full
    } else {
        Vec::new()
    }
}

/// Deterministic reproduction: two adaptive searches from freshly
/// reset point sets with the same geometry, bounds, target and origin
/// end in the same final state, distance and trial log.
pub proof fn lemma_adaptive_reproducible(a: PointSet, b: PointSet, obj: int, origin: int)
    requires
        a.wf(),
        b.wf(),
        a.geom() == b.geom(),
        a.d_min == b.d_min,
        a.d_max == b.d_max,
    ensures
        adaptive_search(a.geom(), obj, origin, a.d_min, a.d_max) == adaptive_search(
            b.geom(),
            obj,
            origin,
            b.d_min,
            b.d_max,
        ),
{
}

} // verus!
