//! Deterministic neighbour ordering.
//!
//! For one point the neighbour index is the permutation of all point
//! indices sorted by increasing distance, ties broken by the original
//! index.  That order is a strict total order, so the permutation is
//! unique and rebuilding it is reproducible.

use vstd::prelude::*;
use vstd::pervasive::VecAdditionalExecFns;

verus! {

/// Strict "closer, or equally close with a smaller index" order used to
/// rank neighbour candidates `x` and `y` under the distance row `keys`.
pub open spec fn lex_lt(keys: Seq<u64>, x: int, y: int) -> bool {
    keys[x] < keys[y] || (keys[x] == keys[y] && x < y)
}

/// `v` occurs somewhere in `row`.
pub open spec fn appears(row: Seq<usize>, v: int) -> bool {
    exists|p: int| 0 <= p < row.len() && #[trigger] row[p] as int == v
}

/// `row` is the neighbour ordering of a point whose distance row is
/// `keys`: a permutation of all indices, strictly sorted by
/// distance-then-index.
pub open spec fn is_neighbor_order(keys: Seq<u64>, row: Seq<usize>) -> bool {
    &&& row.len() == keys.len()
    &&& forall|p: int| 0 <= p < row.len() ==> (#[trigger] row[p] as int) < keys.len()
    &&& forall|a: int, b: int|
        0 <= a < b < row.len() ==> lex_lt(keys, #[trigger] row[a] as int, #[trigger] row[b] as int)
    &&& forall|v: int| 0 <= v < keys.len() ==> #[trigger] appears(row, v)
}

/// Compares two candidate indices under the distance row.
fn lex_lt_exec(keys: &Vec<u64>, x: usize, y: usize) -> (r: bool)
    requires
        x < keys@.len(),
        y < keys@.len(),
    ensures
        r == lex_lt(keys@, x as int, y as int),
{
    keys[x] < keys[y] || (keys[x] == keys[y] && x < y)
}

/// Sorts all indices `0..keys.len()` by increasing key, ties broken by
/// index (insertion sort; the order is strict and total, so the result
/// is the unique such permutation).
pub fn sort_indices(keys: &Vec<u64>) -> (row: Vec<usize>)
    ensures
        is_neighbor_order(keys@, row@),
{
    let n = keys.len();
    let mut row: Vec<usize> = Vec::new();
    let mut v: usize = 0;
    while v < n
        invariant
            n == keys@.len(),
            0 <= v <= n,
            row@.len() == v,
            forall|p: int| 0 <= p < row@.len() ==> (#[trigger] row@[p] as int) < v,
            forall|a: int, b: int|
                0 <= a < b < row@.len() ==> lex_lt(
                    keys@,
                    #[trigger] row@[a] as int,
                    #[trigger] row@[b] as int,
                ),
            forall|u: int| 0 <= u < v ==> #[trigger] appears(row@, u),
        decreases n - v,
    {
        let ghost before_push = row@;
        row.push(v);
        proof {
            assert forall|u: int| 0 <= u <= v implies #[trigger] appears(row@, u) by {
                if u == v as int {
                    assert(row@[v as int] as int == u);
                } else {
                    assert(appears(before_push, u));
                    let q0 = choose|q0: int|
                        0 <= q0 < before_push.len() && #[trigger] before_push[q0] as int == u;
                    assert(row@[q0] as int == u);
                }
            }
        }
        let mut p: usize = row.len() - 1;
        while p > 0 && lex_lt_exec(keys, row[p], row[p - 1])
            invariant
                n == keys@.len(),
                v < n,
                row@.len() == v + 1,
                0 <= p < row@.len(),
                forall|q: int| 0 <= q < row@.len() ==> (#[trigger] row@[q] as int) <= v as int,
                // pairwise distinct
                forall|a: int, b: int| 0 <= a < b < row@.len() ==> row@[a] != row@[b],
                // sorted once the entry at `p` is ignored
                forall|a: int, b: int|
                    0 <= a < b < row@.len() && a != p && b != p ==> lex_lt(
                        keys@,
                        #[trigger] row@[a] as int,
                        #[trigger] row@[b] as int,
                    ),
                // the entry at `p` is below everything after it
                forall|b: int|
                    p < b < row@.len() ==> lex_lt(keys@, row@[p as int] as int, #[trigger] row@[b] as int),
                forall|u: int| 0 <= u <= v ==> #[trigger] appears(row@, u),
            decreases p,
        {
            let ghost old_row = row@;
            let moved = row[p];
            let other = row[p - 1];
            row.set(p - 1, moved);
            row.set(p, other);
            proof {
                assert forall|u: int| 0 <= u <= v implies #[trigger] appears(row@, u) by {
                    assert(appears(old_row, u));
                    let q0 = choose|q0: int|
                        0 <= q0 < old_row.len() && #[trigger] old_row[q0] as int == u;
                    if q0 == p - 1 {
                        assert(row@[p as int] as int == u);
                    } else if q0 == p {
                        assert(row@[p as int - 1] as int == u);
                    } else {
                        assert(row@[q0] as int == u);
                    }
                }
            }
            p = p - 1;
        }
        proof {
            if p > 0 {
                assert(forall|a: int, b: int|
                    0 <= a < b < row@.len() ==> lex_lt(
                        keys@,
                        #[trigger] row@[a] as int,
                        #[trigger] row@[b] as int,
                    )) by {
                    assert forall|a: int, b: int| 0 <= a < b < row@.len() implies lex_lt(
                        keys@,
                        #[trigger] row@[a] as int,
                        #[trigger] row@[b] as int,
                    ) by {
                        if b == p {
                            // row[p - 1] is not below row[p], and both are
                            // distinct, so row[p - 1] is above it; entries
                            // before p - 1 are below row[p - 1].
                            assert(!lex_lt(keys@, row@[p as int] as int, row@[p as int - 1] as int));
                            assert(row@[p as int - 1] != row@[p as int]);
                            assert(lex_lt(keys@, row@[p as int - 1] as int, row@[p as int] as int));
                            if a < p - 1 {
                                assert(lex_lt(keys@, row@[a] as int, row@[p as int - 1] as int));
                            }
                        }
                    }
                }
            }
        }
        v = v + 1;
    }
    row
}

} // verus!
