//! Walks through the grid: path validity, reachability, and the facts
//! about the Manhattan heuristic along a walk.

use vstd::prelude::*;
use crate::grid::{Grid, Position, step_open, manhattan, lemma_step_adjacent};

verus! {

/// Every consecutive pair of cells in `p` is joined by an open passage.
pub open spec fn is_path(g: Grid, p: Seq<Position>) -> bool {
    forall|i: int| 0 <= i < p.len() - 1 ==> #[trigger] step_open(g, p[i], p[i + 1])
}

/// `p` is a walk through open passages that starts at `s` and ends at `t`.
pub open spec fn connects(g: Grid, s: Position, t: Position, p: Seq<Position>) -> bool {
    &&& p.len() >= 1
    &&& p[0] == s
    &&& p[p.len() - 1] == t
    &&& g.in_bounds(s)
    &&& g.in_bounds(t)
    &&& is_path(g, p)
}

/// Some walk through open passages leads from `s` to `t`.
pub open spec fn reachable(g: Grid, s: Position, t: Position) -> bool {
    exists|p: Seq<Position>| connects(g, s, t, p)
}

/// Every walk from `s` to `t` takes at least `c` steps.
pub open spec fn shortest_at_least(g: Grid, s: Position, t: Position, c: int) -> bool {
    forall|q: Seq<Position>| #[trigger] connects(g, s, t, q) ==> q.len() - 1 >= c
}

/// The one-cell walk connects a cell to itself.
pub proof fn lemma_connects_self(g: Grid, s: Position)
    requires
        g.in_bounds(s),
    ensures
        connects(g, s, s, seq![s]),
        reachable(g, s, s),
{
    let p = seq![s];
    assert(connects(g, s, s, p));
}

/// A walk to `u` followed by one open step to `v` is a walk to `v`.
pub proof fn lemma_connects_extend(g: Grid, s: Position, u: Position, v: Position, p: Seq<Position>)
    requires
        connects(g, s, u, p),
        step_open(g, u, v),
    ensures
        connects(g, s, v, p.push(v)),
{
    let q = p.push(v);
    lemma_step_adjacent(g, u, v, v);
    assert forall|i: int| 0 <= i < q.len() - 1 implies #[trigger] step_open(g, q[i], q[i + 1]) by {
        if i < p.len() - 1 {
            assert(q[i] == p[i]);
            assert(q[i + 1] == p[i + 1]);
            assert(step_open(g, p[i], p[i + 1]));
        } else {
            assert(q[i] == p[p.len() - 1]);
            assert(q[i + 1] == v);
        }
    }
}

/// Along a walk, the Manhattan distance to a fixed target cell grows by at
/// most one per step, counted backwards from the walk's end: the heuristic
/// never overestimates the remaining cost.
pub proof fn lemma_manhattan_along_path(g: Grid, p: Seq<Position>, j: int, t: Position)
    requires
        is_path(g, p),
        0 <= j < p.len(),
    ensures
        manhattan(p[j], t) <= (p.len() - 1 - j) + manhattan(p[p.len() - 1], t),
        manhattan(p[j], t) >= 0,
    decreases p.len() - j,
{
    if j == p.len() - 1 {
        assert(manhattan(p[j], t) >= 0);
    } else {
        assert(step_open(g, p[j], p[j + 1]));
        lemma_step_adjacent(g, p[j], p[j + 1], t);
        lemma_manhattan_along_path(g, p, j + 1, t);
    }
}

} // verus!
