//! Mathematical model of a point set's geometry and elimination state.
//!
//! The immutable geometry (distance matrix and neighbour orderings) and
//! the mutable elimination state (active flags, visited flags, resume
//! cursors, active count) are modelled separately, mirroring the split
//! between what a reset clears and what it must never touch.

use vstd::prelude::*;
use crate::order::{appears, is_neighbor_order, lex_lt};

verus! {

/// Number of `true` entries in a sequence of flags.
pub open spec fn count_true(s: Seq<bool>) -> int
    decreases s.len(),
{
    if s.len() == 0 {
        0
    } else {
        count_true(s.drop_last()) + if s.last() {
            1int
        } else {
            0int
        }
    }
}

pub proof fn lemma_count_true_bounds(s: Seq<bool>)
    ensures
        0 <= count_true(s) <= s.len(),
    decreases s.len(),
{
    if s.len() > 0 {
        lemma_count_true_bounds(s.drop_last());
    }
}

/// Flipping one flag moves the count by exactly one in the matching
/// direction.
pub proof fn lemma_count_true_update(s: Seq<bool>, i: int, v: bool)
    requires
        0 <= i < s.len(),
    ensures
        count_true(s.update(i, v)) == count_true(s) + (if v && !s[i] {
            1int
        } else if !v && s[i] {
            -1int
        } else {
            0int
        }),
    decreases s.len(),
{
    let t = s.update(i, v);
    if i == s.len() - 1 {
        assert(t.drop_last() =~= s.drop_last());
    } else {
        assert(t.drop_last() =~= s.drop_last().update(i, v));
        lemma_count_true_update(s.drop_last(), i, v);
    }
}

/// A pointwise-constant flag sequence has the obvious count.
pub proof fn lemma_count_true_const(s: Seq<bool>, v: bool)
    requires
        forall|i: int| 0 <= i < s.len() ==> s[i] == v,
    ensures
        count_true(s) == if v {
            s.len() as int
        } else {
            0int
        },
    decreases s.len(),
{
    if s.len() > 0 {
        lemma_count_true_const(s.drop_last(), v);
    }
}

/// A set flag witnesses a positive count.
pub proof fn lemma_count_true_at_least_one(s: Seq<bool>, i: int)
    requires
        0 <= i < s.len(),
        s[i],
    ensures
        count_true(s) >= 1,
    decreases s.len(),
{
    if i == s.len() - 1 {
        lemma_count_true_bounds(s.drop_last());
    } else {
        lemma_count_true_at_least_one(s.drop_last(), i);
    }
}

/// The immutable geometry of a point set: the symmetric distance matrix
/// and, for each point, the neighbour ordering of all indices by
/// increasing distance (ties by index).
#[verifier::ext_equal]
pub struct Geometry {
    pub matrix: Seq<Seq<u64>>,
    pub order: Seq<Seq<usize>>,
}

impl Geometry {
    /// Number of points.
    pub open spec fn n(self) -> int {
        self.matrix.len() as int
    }

    pub open spec fn wf(self) -> bool {
        &&& self.n() >= 1
        &&& forall|i: int| 0 <= i < self.n() ==> (#[trigger] self.matrix[i]).len() == self.n()
        &&& forall|i: int| 0 <= i < self.n() ==> (#[trigger] self.matrix[i])[i] == 0
        &&& forall|i: int, j: int|
            0 <= i < self.n() && 0 <= j < self.n() ==> #[trigger] self.matrix[i][j]
                == self.matrix[j][i]
        &&& self.order.len() == self.n()
        &&& forall|i: int|
            0 <= i < self.n() ==> is_neighbor_order(self.matrix[i], #[trigger] self.order[i])
    }

    /// Every neighbour ordering starts with the point itself.  This
    /// holds whenever no two points coincide (all off-diagonal
    /// distances are positive); with coincident points a point may be
    /// preceded by an equal point of smaller index.
    pub open spec fn self_leading(self) -> bool {
        forall|i: int| 0 <= i < self.n() ==> (#[trigger] self.order[i])[0] as int == i
    }

    /// All off-diagonal distances are positive, i.e. no two points of
    /// the set coincide.
    pub open spec fn distinct(self) -> bool {
        forall|i: int, j: int|
            0 <= i < self.n() && 0 <= j < self.n() && i != j ==> #[trigger] self.matrix[i][j] > 0
    }
}

/// Positive off-diagonal distances force every neighbour ordering to
/// start with the point itself: the pair (distance 0, own index) is
/// strictly below every other pair.
pub proof fn lemma_distinct_implies_self_leading(g: Geometry)
    requires
        g.wf(),
        g.distinct(),
    ensures
        g.self_leading(),
{
    assert forall|i: int| 0 <= i < g.n() implies (#[trigger] g.order[i])[0] as int == i by {
        assert(is_neighbor_order(g.matrix[i], g.order[i]));
        let first = g.order[i][0] as int;
        if first != i {
            // the point's own index occurs at some later position, yet
            // its pair (0, i) is below the pair of the first entry
            assert(appears(g.order[i], i));
            let p = choose|p: int| 0 <= p < g.order[i].len() && #[trigger] g.order[i][p] as int == i;
            assert(p != 0);
            assert(lex_lt(g.matrix[i], first, g.order[i][p] as int));
            assert(g.matrix[i][first] > 0);
            assert(g.matrix[i][i] == 0);
        }
    }
}

/// The mutable elimination state of a point set.
#[verifier::ext_equal]
pub struct WalkState {
    /// Still part of the surviving subset.
    pub active: Seq<bool>,
    /// Has already served as a walk origin in this pass.
    pub visited: Seq<bool>,
    /// Per point, the next unexamined rank in its neighbour ordering.
    pub cursor: Seq<usize>,
    /// Cached number of active points.
    pub nb_active: int,
}

impl WalkState {
    pub open spec fn shaped(self, n: int) -> bool {
        &&& self.active.len() == n
        &&& self.visited.len() == n
        &&& self.cursor.len() == n
    }

    pub open spec fn consistent(self, n: int) -> bool {
        &&& self.shaped(n)
        &&& self.nb_active == count_true(self.active)
        &&& forall|i: int| 0 <= i < n ==> 1 <= (#[trigger] self.cursor[i] as int) <= n
    }
}

/// The state every elimination pass starts from: all points active,
/// none visited, every cursor at rank 1 (rank 0 is the point itself).
pub open spec fn fresh_state(n: int) -> WalkState {
    WalkState {
        active: Seq::new(n as nat, |i: int| true),
        visited: Seq::new(n as nat, |i: int| false),
        cursor: Seq::new(n as nat, |i: int| 1usize),
        nb_active: n,
    }
}

} // verus!
