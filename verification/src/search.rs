//! The search engine: best-first shortest-path search with uniform step
//! cost, a consistent heuristic, and a per-cell trace of scoring state.

use vstd::prelude::*;
use crate::grid::{Grid, Position, Direction, step_open, step_target, manhattan, filled, lemma_step_adjacent};
use crate::paths::{
    is_path, connects, reachable, shortest_at_least, lemma_connects_self, lemma_connects_extend,
    lemma_manhattan_along_path,
};
use crate::trace::{CellDebugInfo, Trace, untouched};

verus! {

/// A frontier candidate: a cell together with the f-score it carried when
/// it was pushed.  The same cell may sit in the frontier several times with
/// different scores; the score tables stay authoritative.
#[derive(Copy, Clone, PartialEq, Eq, Structural, Debug)]
pub struct Node {
    pub pos: Position,
    pub f_score: usize,
}

/// The g-score table entry of cell `p`.
spec fn g_at(g: Grid, gs: Seq<Option<usize>>, p: Position) -> Option<usize> {
    gs[g.spec_index(p)]
}

/// The predecessor table entry of cell `p`.
spec fn came_at(g: Grid, came: Seq<Option<Position>>, p: Position) -> Option<Position> {
    came[g.spec_index(p)]
}

/// The trace entry of cell `p`.
spec fn info_at(g: Grid, cells: Seq<CellDebugInfo>, p: Position) -> CellDebugInfo {
    cells[g.spec_index(p)]
}

/// Whether cell `p` has been finalized.
spec fn closed_at(g: Grid, cells: Seq<CellDebugInfo>, p: Position) -> bool {
    info_at(g, cells, p).in_closed_set
}

/// How many cells of the g-score table are discovered.
spec fn count_defined(s: Seq<Option<usize>>) -> int
    decreases s.len(),
{
    if s.len() == 0 {
        0
    } else {
        count_defined(s.drop_last()) + (if s.last() is Some {
            1int
        } else {
            0int
        })
    }
}

/// The remaining relaxation potential of the g-score table: an undiscovered
/// cell counts as the ceiling `b`, a discovered one as its current score.
spec fn slack(o: Option<usize>, b: int) -> int {
    if o is Some {
        o.unwrap() as int
    } else {
        b
    }
}

/// Total relaxation potential of the table.
spec fn phi(s: Seq<Option<usize>>, b: int) -> int
    decreases s.len(),
{
    if s.len() == 0 {
        0
    } else {
        phi(s.drop_last(), b) + slack(s.last(), b)
    }
}

proof fn lemma_count_defined_le_len(s: Seq<Option<usize>>)
    ensures
        0 <= count_defined(s) <= s.len(),
    decreases s.len(),
{
    if s.len() > 0 {
        lemma_count_defined_le_len(s.drop_last());
    }
}

proof fn lemma_count_defined_none(s: Seq<Option<usize>>)
    requires
        forall|i: int| 0 <= i < s.len() ==> s[i] is None,
    ensures
        count_defined(s) == 0,
    decreases s.len(),
{
    if s.len() > 0 {
        assert forall|i: int| 0 <= i < s.drop_last().len() implies s.drop_last()[i] is None by {
            assert(s.drop_last()[i] == s[i]);
        }
        lemma_count_defined_none(s.drop_last());
    }
}

proof fn lemma_count_defined_update(s: Seq<Option<usize>>, i: int, v: Option<usize>)
    requires
        0 <= i < s.len(),
    ensures
        count_defined(s.update(i, v)) == count_defined(s) - (if s[i] is Some {
            1int
        } else {
            0int
        }) + (if v is Some {
            1int
        } else {
            0int
        }),
    decreases s.len(),
{
    let t = s.update(i, v);
    if i == s.len() - 1 {
        assert(t.drop_last() =~= s.drop_last());
        assert(t.last() == v);
    } else {
        assert(t.drop_last() =~= s.drop_last().update(i, v));
        assert(t.last() == s.last());
        lemma_count_defined_update(s.drop_last(), i, v);
    }
}

proof fn lemma_phi_nonneg(s: Seq<Option<usize>>, b: int)
    requires
        b >= 0,
    ensures
        phi(s, b) >= 0,
    decreases s.len(),
{
    if s.len() > 0 {
        lemma_phi_nonneg(s.drop_last(), b);
    }
}

proof fn lemma_phi_update(s: Seq<Option<usize>>, i: int, v: Option<usize>, b: int)
    requires
        0 <= i < s.len(),
    ensures
        phi(s.update(i, v), b) == phi(s, b) - slack(s[i], b) + slack(v, b),
    decreases s.len(),
{
    let t = s.update(i, v);
    if i == s.len() - 1 {
        assert(t.drop_last() =~= s.drop_last());
        assert(t.last() == v);
    } else {
        assert(t.drop_last() =~= s.drop_last().update(i, v));
        assert(t.last() == s.last());
        lemma_phi_update(s.drop_last(), i, v, b);
    }
}

/// The working-state invariant of the search loop.  `pending` names the
/// cell whose expansion is under way: its frontier entry has been taken
/// out, and its neighbours may not all have been relaxed yet.
spec fn search_inv(
    g: Grid,
    start: Position,
    goal: Position,
    gs: Seq<Option<usize>>,
    came: Seq<Option<Position>>,
    open: Seq<Node>,
    cells: Seq<CellDebugInfo>,
    pending: Option<Position>,
) -> bool {
    &&& g.wf()
    &&& g.in_bounds(start)
    &&& g.in_bounds(goal)
    &&& gs.len() == g.spec_cell_count()
    &&& came.len() == g.spec_cell_count()
    &&& cells.len() == g.spec_cell_count()
    // every recorded g-score is the step count of a real walk from the start
    &&& forall|p: Position|
        g.in_bounds(p) && #[trigger] g_at(g, gs, p) is Some ==> exists|q: Seq<Position>|
            connects(g, start, p, q) && q.len() == g_at(g, gs, p).unwrap() + 1
    // predecessor entries are open steps that strictly decrease the g-score
    &&& forall|p: Position|
        g.in_bounds(p) && #[trigger] came_at(g, came, p) is Some ==> {
            let u = came_at(g, came, p).unwrap();
            &&& g.in_bounds(u)
            &&& step_open(g, u, p)
            &&& g_at(g, gs, u) is Some
            &&& g_at(g, gs, p) is Some
            &&& g_at(g, gs, u).unwrap() < g_at(g, gs, p).unwrap()
        }
    // the start cell: cost zero, no predecessor
    &&& g_at(g, gs, start) == Some(0usize)
    &&& came_at(g, came, start) is None
    // every other discovered cell has a predecessor
    &&& forall|p: Position|
        g.in_bounds(p) && #[trigger] g_at(g, gs, p) is Some && p != start ==> came_at(
            g,
            came,
            p,
        ) is Some
    // every recorded g-score is below the number of discovered cells
    &&& forall|p: Position|
        g.in_bounds(p) && #[trigger] g_at(g, gs, p) is Some ==> g_at(g, gs, p).unwrap()
            < count_defined(gs)
    // a finalized cell's open neighbours are discovered and at most one
    // step more expensive
    &&& forall|a: Position, b: Position|
        g.in_bounds(a) && #[trigger] closed_at(g, cells, a) && (pending is Some ==> a
            != pending.unwrap()) && #[trigger] step_open(g, a, b) ==> g_at(g, gs, b) is Some && g_at(
            g,
            gs,
            b,
        ).unwrap() <= g_at(g, gs, a).unwrap() + 1
    // every discovered, unfinalized cell keeps a fresh frontier entry
    &&& forall|p: Position|
        g.in_bounds(p) && #[trigger] g_at(g, gs, p) is Some && !closed_at(g, cells, p) && (
        pending is Some ==> p != pending.unwrap()) ==> exists|k: int|
            0 <= k < open.len() && (#[trigger] open[k]).pos == p && open[k].f_score == g_at(
                g,
                gs,
                p,
            ).unwrap() + manhattan(p, goal)
    // frontier entries carry discovered cells; a pushed f-score never
    // undercuts the cell's current g-score plus its heuristic
    &&& forall|k: int|
        0 <= k < open.len() ==> {
            let e = #[trigger] open[k];
            &&& g.in_bounds(e.pos)
            &&& g_at(g, gs, e.pos) is Some
            &&& e.f_score >= g_at(g, gs, e.pos).unwrap() + manhattan(e.pos, goal)
        }
    // trace flags track discovery and finalization
    &&& forall|p: Position|
        #![trigger info_at(g, cells, p)]
        #![trigger g_at(g, gs, p)]
        g.in_bounds(p) ==> ((info_at(g, cells, p).in_open_set || info_at(
            g,
            cells,
            p,
        ).in_closed_set) <==> g_at(g, gs, p) is Some)
    // the goal is never finalized inside the loop
    &&& !closed_at(g, cells, goal)
    // recorded scores mirror the authoritative tables
    &&& forall|p: Position|
        #![trigger info_at(g, cells, p)]
        g.in_bounds(p) ==> {
            let c = info_at(g, cells, p);
            &&& c.g_score == g_at(g, gs, p)
            &&& (g_at(g, gs, p) is Some ==> c.h_score is Some && c.h_score.unwrap() == manhattan(
                p,
                goal,
            ) && c.f_score is Some && c.f_score.unwrap() == g_at(g, gs, p).unwrap() + manhattan(
                p,
                goal,
            ))
            &&& (g_at(g, gs, p) is None ==> c.h_score is None && c.f_score is None)
        }
    // no cell is marked as part of a final path during the search
    &&& forall|p: Position|
        g.in_bounds(p) ==> !(#[trigger] info_at(g, cells, p)).in_final_path
    // a finalized cell's g-score is settled: no walk from the start beats it
    &&& forall|p: Position|
        g.in_bounds(p) && #[trigger] closed_at(g, cells, p) ==> g_at(g, gs, p) is Some
            && shortest_at_least(g, start, p, g_at(g, gs, p).unwrap() as int)
}

/// What `find_path` promises of the returned path.
pub open spec fn search_post(g: Grid, s: Position, t: Position, p: Seq<Position>) -> bool {
    &&& (p.len() == 0 <==> !reachable(g, s, t))
    &&& (p.len() > 0 ==> connects(g, s, t, p))
    &&& (p.len() > 0 ==> shortest_at_least(g, s, t, p.len() - 1))
    &&& (s == t ==> p =~= seq![s])
}

/// What `find_path` promises of the returned trace.
pub open spec fn trace_post(g: Grid, s: Position, t: Position, p: Seq<Position>, tr: Trace) -> bool {
    &&& tr.wf()
    &&& tr.width == g.spec_width()
    &&& tr.height == g.spec_height()
    // a cell is marked as part of the final path exactly when it lies on it
    &&& forall|q: Position|
        g.in_bounds(q) ==> ((#[trigger] tr.at(q)).in_final_path <==> p.contains(q))
    // a cell on the final path went through the frontier: its flags were
    // set when it entered, and finalization only trades one for the other
    &&& forall|q: Position|
        g.in_bounds(q) && (#[trigger] tr.at(q)).in_final_path ==> (tr.at(q).in_open_set || tr.at(
            q,
        ).in_closed_set)
    // a cell carries scores exactly when it entered the frontier
    &&& forall|q: Position|
        g.in_bounds(q) ==> ((#[trigger] tr.at(q)).g_score is Some <==> (tr.at(q).in_open_set
            || tr.at(q).in_closed_set))
    // recorded scores are consistent: h is the heuristic, f = g + h, and
    // g counts the steps of a real walk from the start to the cell
    &&& forall|q: Position|
        g.in_bounds(q) && (#[trigger] tr.at(q)).g_score is Some ==> {
            &&& tr.at(q).h_score is Some
            &&& tr.at(q).h_score.unwrap() == manhattan(q, t)
            &&& tr.at(q).f_score is Some
            &&& tr.at(q).f_score.unwrap() == tr.at(q).g_score.unwrap() + manhattan(q, t)
            &&& exists|w: Seq<Position>|
                connects(g, s, q, w) && w.len() == tr.at(q).g_score.unwrap() + 1
        }
    // the start cell's recorded scores: g = 0, h = f = its heuristic
    &&& tr.at(s).g_score == Some(0usize)
    &&& tr.at(s).h_score is Some
    &&& tr.at(s).h_score.unwrap() == manhattan(s, t)
    &&& tr.at(s).f_score is Some
    &&& tr.at(s).f_score.unwrap() == manhattan(s, t)
}

/// Manhattan distance between two cells, the search's heuristic: it never
/// overestimates the true remaining cost on a four-directional unit grid.
pub fn heuristic(pos: Position, goal: Position) -> (h: usize)
    requires
        manhattan(pos, goal) <= usize::MAX,
    ensures
        h == manhattan(pos, goal),
{
    let dx: usize = if pos.x >= goal.x {
        pos.x - goal.x
    } else {
        goal.x - pos.x
    };
    let dy: usize = if pos.y >= goal.y {
        pos.y - goal.y
    } else {
        goal.y - pos.y
    };
    dx + dy
}

/// Index of a frontier entry with the least f-score.  Ties go to the entry
/// that entered the frontier first: the scan keeps the earliest minimum.
fn min_index(open: &Vec<Node>) -> (i: usize)
    requires
        open@.len() > 0,
    ensures
        0 <= i < open@.len(),
        forall|k: int|
            0 <= k < open@.len() ==> open@[i as int].f_score <= (#[trigger] open@[k]).f_score,
{
    let mut best: usize = 0;
    let mut k: usize = 1;
    while k < open.len()
        invariant
            1 <= k <= open@.len(),
            best < k,
            forall|j: int| 0 <= j < k ==> open@[best as int].f_score <= (#[trigger] open@[j]).f_score,
        decreases open@.len() - k,
    {
        if open[k].f_score < open[best].f_score {
            best = k;
        }
        k = k + 1;
    }
    best
}

/// Reversing a chain of predecessor steps yields a forward walk.
proof fn lemma_reverse_connects(
    g: Grid,
    start: Position,
    target: Position,
    revseq: Seq<Position>,
    pathseq: Seq<Position>,
    gs: Seq<Option<usize>>,
)
    requires
        revseq.len() >= 1,
        revseq[0] == target,
        revseq[revseq.len() - 1] == start,
        g.in_bounds(start),
        g.in_bounds(target),
        forall|i: int|
            0 <= i < revseq.len() ==> g.in_bounds(#[trigger] revseq[i]) && g_at(
                g,
                gs,
                revseq[i],
            ) is Some,
        forall|i: int| 0 <= i < revseq.len() - 1 ==> #[trigger] step_open(g, revseq[i + 1], revseq[i]),
        pathseq.len() == revseq.len(),
        forall|k: int|
            0 <= k < pathseq.len() ==> #[trigger] pathseq[k] == revseq[revseq.len() - 1 - k],
    ensures
        connects(g, start, target, pathseq),
        forall|k: int|
            0 <= k < pathseq.len() ==> g.in_bounds(#[trigger] pathseq[k]) && g_at(
                g,
                gs,
                pathseq[k],
            ) is Some,
{
    let l = revseq.len() as int;
    assert(pathseq[0] == revseq[l - 1]);
    assert(pathseq[l - 1] == revseq[0]);
    assert forall|i: int| 0 <= i < l - 1 implies #[trigger] step_open(
        g,
        pathseq[i],
        pathseq[i + 1],
    ) by {
        let j = l - 2 - i;
        assert(pathseq[i] == revseq[j + 1]);
        assert(pathseq[i + 1] == revseq[j]);
        assert(step_open(g, revseq[j + 1], revseq[j]));
    }
    assert forall|k: int| 0 <= k < pathseq.len() implies g.in_bounds(#[trigger] pathseq[k]) && g_at(
        g,
        gs,
        pathseq[k],
    ) is Some by {
        assert(pathseq[k] == revseq[l - 1 - k]);
    }
    assert(connects(g, start, target, pathseq));
}

/// Walk the predecessor table backwards from `target` and return the walk
/// from the start cell to `target` in forward order.
#[verifier::rlimit(100)]
fn reconstruct_path(
    g: &Grid,
    came: &Vec<Option<Position>>,
    target: Position,
    Ghost(start): Ghost<Position>,
    Ghost(gs): Ghost<Seq<Option<usize>>>,
) -> (path: Vec<Position>)
    requires
        g.wf(),
        g.in_bounds(target),
        g.in_bounds(start),
        came@.len() == g.spec_cell_count(),
        gs.len() == g.spec_cell_count(),
        g_at(*g, gs, target) is Some,
        g_at(*g, gs, start) == Some(0usize),
        came_at(*g, came@, start) is None,
        forall|p: Position|
            g.in_bounds(p) && #[trigger] came_at(*g, came@, p) is Some ==> {
                let u = came_at(*g, came@, p).unwrap();
                &&& g.in_bounds(u)
                &&& step_open(*g, u, p)
                &&& g_at(*g, gs, u) is Some
                &&& g_at(*g, gs, p) is Some
                &&& g_at(*g, gs, u).unwrap() < g_at(*g, gs, p).unwrap()
            },
        forall|p: Position|
            g.in_bounds(p) && #[trigger] g_at(*g, gs, p) is Some && p != start ==> came_at(
                *g,
                came@,
                p,
            ) is Some,
    ensures
        connects(*g, start, target, path@),
        path@.len() <= g_at(*g, gs, target).unwrap() + 1,
        forall|k: int|
            0 <= k < path@.len() ==> g.in_bounds(#[trigger] path@[k]) && g_at(
                *g,
                gs,
                path@[k],
            ) is Some,
{
    let mut rev: Vec<Position> = Vec::new();
    let mut cur: Position = target;
    rev.push(cur);
    loop
        invariant
            g.wf(),
            g.in_bounds(start),
            g.in_bounds(target),
            came@.len() == g.spec_cell_count(),
            gs.len() == g.spec_cell_count(),
            g_at(*g, gs, target) is Some,
            g_at(*g, gs, start) == Some(0usize),
            came_at(*g, came@, start) is None,
            forall|p: Position|
                g.in_bounds(p) && #[trigger] came_at(*g, came@, p) is Some ==> {
                    let u = came_at(*g, came@, p).unwrap();
                    &&& g.in_bounds(u)
                    &&& step_open(*g, u, p)
                    &&& g_at(*g, gs, u) is Some
                    &&& g_at(*g, gs, p) is Some
                    &&& g_at(*g, gs, u).unwrap() < g_at(*g, gs, p).unwrap()
                },
            forall|p: Position|
                g.in_bounds(p) && #[trigger] g_at(*g, gs, p) is Some && p != start ==> came_at(
                    *g,
                    came@,
                    p,
                ) is Some,
            rev@.len() >= 1,
            rev@[0] == target,
            rev@[rev@.len() - 1] == cur,
            g.in_bounds(cur),
            g_at(*g, gs, cur) is Some,
            forall|i: int|
                0 <= i < rev@.len() ==> g.in_bounds(#[trigger] rev@[i]) && g_at(
                    *g,
                    gs,
                    rev@[i],
                ) is Some,
            forall|i: int| 0 <= i < rev@.len() - 1 ==> #[trigger] step_open(*g, rev@[i + 1], rev@[i]),
            rev@.len() + g_at(*g, gs, cur).unwrap() <= g_at(*g, gs, target).unwrap() + 1,
        ensures
            came_at(*g, came@, cur) is None,
        decreases g_at(*g, gs, cur).unwrap(),
    {
        let ci = g.cell_index(cur);
        match came[ci] {
            Option::Some(prev) => {
                rev.push(prev);
                cur = prev;
            },
            Option::None => { break ; },
        }
    }
    assert(cur == start);
    let ghost revseq = rev@;
    let mut path: Vec<Position> = Vec::new();
    while rev.len() > 0
        invariant
            path@.len() + rev@.len() == revseq.len(),
            rev@ == revseq.subrange(0, rev@.len() as int),
            forall|k: int|
                0 <= k < path@.len() ==> #[trigger] path@[k] == revseq[revseq.len() - 1 - k],
        decreases rev@.len(),
    {
        let ghost oldrev = rev@;
        let x = rev.pop().unwrap();
        path.push(x);
        proof {
            assert(rev@ =~= revseq.subrange(0, rev@.len() as int));
        }
    }
    proof {
        lemma_reverse_connects(*g, start, target, revseq, path@, gs);
    }
    path
}

/// Relax the edge from `cur` to its neighbour `nb`: when one step beyond
/// `cur` improves on `nb`'s recorded cost (or `nb` is undiscovered),
/// re-score `nb`, record `cur` as its predecessor, and push a fresh
/// frontier entry for it.  Stale entries already in the frontier stay where
/// they are; the score tables remain authoritative.
#[verifier::rlimit(100)]
#[verifier::spinoff_prover]
fn try_relax(
    g: &Grid,
    cur: Position,
    nb: Position,
    goal: Position,
    gs: &mut Vec<Option<usize>>,
    came: &mut Vec<Option<Position>>,
    open: &mut Vec<Node>,
    cells: &mut Vec<CellDebugInfo>,
    Ghost(start): Ghost<Position>,
)
    requires
        g.wf(),
        g.in_bounds(cur),
        g.in_bounds(nb),
        step_open(*g, cur, nb),
        g_at(*g, old(gs)@, cur) is Some,
        search_inv(*g, start, goal, old(gs)@, old(came)@, old(open)@, old(cells)@, Some(cur)),
    ensures
        search_inv(*g, start, goal, final(gs)@, final(came)@, final(open)@, final(cells)@, Some(cur)),
        g_at(*g, final(gs)@, cur) == g_at(*g, old(gs)@, cur),
        g_at(*g, final(gs)@, nb) is Some,
        g_at(*g, final(gs)@, nb).unwrap() <= g_at(*g, old(gs)@, cur).unwrap() + 1,
        forall|p: Position|
            g.in_bounds(p) && #[trigger] g_at(*g, old(gs)@, p) is Some ==> g_at(
                *g,
                final(gs)@,
                p,
            ) is Some && g_at(*g, final(gs)@, p).unwrap() <= g_at(*g, old(gs)@, p).unwrap(),
        forall|p: Position|
            g.in_bounds(p) ==> (#[trigger] info_at(*g, final(cells)@, p)).in_closed_set == info_at(
                *g,
                old(cells)@,
                p,
            ).in_closed_set,
        phi(final(gs)@, g.spec_cell_count()) + final(open)@.len() <= phi(
            old(gs)@,
            g.spec_cell_count(),
        ) + old(open)@.len(),
{
    let ghost n = g.spec_cell_count();
    let ghost gs0 = gs@;
    let ghost came0 = came@;
    let ghost open0 = open@;
    let ghost cells0 = cells@;
    let ci = g.cell_index(cur);
    let ni = g.cell_index(nb);
    let gc = gs[ci].unwrap();
    proof {
        lemma_count_defined_le_len(gs0);
        g.lemma_wf_bounds();
        lemma_step_adjacent(*g, cur, nb, goal);
    }
    let tentative: usize = gc + 1;
    let better: bool = match gs[ni] {
        Option::None => true,
        Option::Some(v) => tentative < v,
    };
    if better {
        proof {
            // `nb` cannot be finalized: a finalized score is settled, and the
            // walk through `cur` would beat it
            if closed_at(*g, cells0, nb) {
                let q = choose|q: Seq<Position>|
                    connects(*g, start, cur, q) && q.len() == g_at(*g, gs0, cur).unwrap() + 1;
                lemma_connects_extend(*g, start, cur, nb, q);
                assert(connects(*g, start, nb, q.push(nb)));
                assert(false);
            }
            // the start cell's score, zero, is never improved on
            if nb == start {
                assert(g_at(*g, gs0, start) == Some(0usize));
                assert(false);
            }
        }
        gs[ni] = Some(tentative);
        came[ni] = Some(cur);
        let hn = heuristic(nb, goal);
        let fnew: usize = tentative + hn;
        open.push(Node { pos: nb, f_score: fnew });
        let mut info = cells[ni];
        info.g_score = Some(tentative);
        info.h_score = Some(hn);
        info.f_score = Some(fnew);
        info.in_open_set = true;
        cells[ni] = info;
        proof {
            let gs1 = gs@;
            let came1 = came@;
            let open1 = open@;
            let cells1 = cells@;
            g.lemma_index_in_range(nb);
            // frame: every other cell keeps its table entries
            assert forall|p: Position| g.in_bounds(p) && p != nb implies g_at(*g, gs1, p) == g_at(
                *g,
                gs0,
                p,
            ) && came_at(*g, came1, p) == came_at(*g, came0, p) && info_at(*g, cells1, p)
                == info_at(*g, cells0, p) by {
                g.lemma_index_distinct(p, nb);
            }
            assert(g_at(*g, gs1, nb) == Some(tentative));
            assert(came_at(*g, came1, nb) == Some(cur));
            assert(info_at(*g, cells1, nb) == info);
            assert(g_at(*g, gs1, cur) == g_at(*g, gs0, cur));
            // counting: the number of discovered cells grows only when a
            // fresh cell is discovered, and every score stays below it
            lemma_count_defined_update(gs0, g.spec_index(nb), Some(tentative));
            lemma_count_defined_le_len(gs1);
            let c0 = count_defined(gs0);
            let c1 = count_defined(gs1);
            assert(g_at(*g, gs0, nb) is Some ==> c1 == c0);
            assert(g_at(*g, gs0, nb) is None ==> c1 == c0 + 1);
            assert forall|p: Position|
                g.in_bounds(p) && #[trigger] g_at(*g, gs1, p) is Some implies g_at(
                *g,
                gs1,
                p,
            ).unwrap() < c1 by {
                if p != nb {
                    g.lemma_index_distinct(p, nb);
                }
            }
            // the potential drops by at least as much as the frontier grows
            lemma_phi_update(gs0, g.spec_index(nb), Some(tentative), n);
            assert(phi(gs1, n) + open1.len() <= phi(gs0, n) + open0.len());
            // soundness: a walk to `cur` extended by one open step reaches `nb`
            assert forall|p: Position|
                g.in_bounds(p) && #[trigger] g_at(*g, gs1, p) is Some implies exists|
                q: Seq<Position>,
            |
                connects(*g, start, p, q) && q.len() == g_at(*g, gs1, p).unwrap() + 1 by {
                if p == nb {
                    let q = choose|q: Seq<Position>|
                        connects(*g, start, cur, q) && q.len() == g_at(*g, gs0, cur).unwrap() + 1;
                    lemma_connects_extend(*g, start, cur, nb, q);
                    assert(connects(*g, start, nb, q.push(nb)) && q.push(nb).len() == g_at(
                        *g,
                        gs1,
                        nb,
                    ).unwrap() + 1);
                } else {
                    let q = choose|q: Seq<Position>|
                        connects(*g, start, p, q) && q.len() == g_at(*g, gs0, p).unwrap() + 1;
                    assert(connects(*g, start, p, q) && q.len() == g_at(*g, gs1, p).unwrap() + 1);
                }
            }
            // predecessor entries still step down in cost
            assert forall|p: Position|
                g.in_bounds(p) && #[trigger] came_at(*g, came1, p) is Some implies {
                let u = came_at(*g, came1, p).unwrap();
                &&& g.in_bounds(u)
                &&& step_open(*g, u, p)
                &&& g_at(*g, gs1, u) is Some
                &&& g_at(*g, gs1, p) is Some
                &&& g_at(*g, gs1, u).unwrap() < g_at(*g, gs1, p).unwrap()
            } by {
                if p == nb {
                } else {
                    let u = came_at(*g, came0, p).unwrap();
                    if u != nb {
                        g.lemma_index_distinct(u, nb);
                    }
                }
            }
            // fresh frontier entries survive: old ones keep their index, the
            // relaxed neighbour just got a new one
            assert forall|p: Position|
                g.in_bounds(p) && #[trigger] g_at(*g, gs1, p) is Some && !closed_at(*g, cells1, p)
                    && p != cur implies exists|k: int|
                0 <= k < open1.len() && (#[trigger] open1[k]).pos == p && open1[k].f_score == g_at(
                    *g,
                    gs1,
                    p,
                ).unwrap() + manhattan(p, goal) by {
                if p == nb {
                    let k = open1.len() - 1;
                    assert(open1[k].pos == nb && open1[k].f_score == g_at(*g, gs1, nb).unwrap()
                        + manhattan(nb, goal));
                } else {
                    assert(!closed_at(*g, cells0, p));
                    let k = choose|k: int|
                        0 <= k < open0.len() && (#[trigger] open0[k]).pos == p && open0[k].f_score
                            == g_at(*g, gs0, p).unwrap() + manhattan(p, goal);
                    assert(open1[k].pos == p && open1[k].f_score == g_at(*g, gs1, p).unwrap()
                        + manhattan(p, goal));
                }
            }
            // every frontier entry still rides above its cell's g + h
            assert forall|k: int| 0 <= k < open1.len() implies {
                let e = #[trigger] open1[k];
                &&& g.in_bounds(e.pos)
                &&& g_at(*g, gs1, e.pos) is Some
                &&& e.f_score >= g_at(*g, gs1, e.pos).unwrap() + manhattan(e.pos, goal)
            } by {
                if k < open0.len() {
                    let e = open0[k];
                    if e.pos != nb {
                        g.lemma_index_distinct(e.pos, nb);
                    }
                }
            }
            assert(search_inv(*g, start, goal, gs1, came1, open1, cells1, Some(cur)));
        }
    } else {
        proof {
            assert(gs@ =~= gs0);
            assert(search_inv(*g, start, goal, gs@, came@, open@, cells@, Some(cur)));
        }
    }
}

/// Expand the current cell towards one direction: bound-check the step,
/// ask the grid whether the passage is open, and relax the neighbour if so.
#[verifier::rlimit(60)]
fn expand_dir(
    g: &Grid,
    cur: Position,
    d: Direction,
    goal: Position,
    gs: &mut Vec<Option<usize>>,
    came: &mut Vec<Option<Position>>,
    open: &mut Vec<Node>,
    cells: &mut Vec<CellDebugInfo>,
    Ghost(start): Ghost<Position>,
)
    requires
        g.wf(),
        g.in_bounds(cur),
        g_at(*g, old(gs)@, cur) is Some,
        search_inv(*g, start, goal, old(gs)@, old(came)@, old(open)@, old(cells)@, Some(cur)),
    ensures
        search_inv(*g, start, goal, final(gs)@, final(came)@, final(open)@, final(cells)@, Some(cur)),
        g_at(*g, final(gs)@, cur) == g_at(*g, old(gs)@, cur),
        forall|p: Position|
            g.in_bounds(p) && #[trigger] g_at(*g, old(gs)@, p) is Some ==> g_at(
                *g,
                final(gs)@,
                p,
            ) is Some && g_at(*g, final(gs)@, p).unwrap() <= g_at(*g, old(gs)@, p).unwrap(),
        forall|p: Position|
            g.in_bounds(p) ==> (#[trigger] info_at(*g, final(cells)@, p)).in_closed_set == info_at(
                *g,
                old(cells)@,
                p,
            ).in_closed_set,
        phi(final(gs)@, g.spec_cell_count()) + final(open)@.len() <= phi(
            old(gs)@,
            g.spec_cell_count(),
        ) + old(open)@.len(),
        g.spec_is_open(cur, d) ==> g_at(*g, final(gs)@, step_target(cur, d)) is Some && g_at(
            *g,
            final(gs)@,
            step_target(cur, d),
        ).unwrap() <= g_at(*g, old(gs)@, cur).unwrap() + 1,
{
    proof {
        g.lemma_wf_bounds();
    }
    match d {
        Direction::North => {
            if g.is_open(cur, Direction::North) && cur.y > 0 {
                let nb = Position { x: cur.x, y: cur.y - 1 };
                proof {
                    g.lemma_open_in_bounds(cur, Direction::North);
                    assert(nb == step_target(cur, Direction::North));
                    assert(step_open(*g, cur, nb));
                }
                try_relax(g, cur, nb, goal, gs, came, open, cells, Ghost(start));
            } else {
                proof {
                    if g.spec_is_open(cur, Direction::North) {
                        g.lemma_open_in_bounds(cur, Direction::North);
                    }
                }
            }
        },
        Direction::South => {
            if g.is_open(cur, Direction::South) && cur.y + 1 < g.height() {
                let nb = Position { x: cur.x, y: cur.y + 1 };
                proof {
                    g.lemma_open_in_bounds(cur, Direction::South);
                    assert(nb == step_target(cur, Direction::South));
                    assert(step_open(*g, cur, nb));
                }
                try_relax(g, cur, nb, goal, gs, came, open, cells, Ghost(start));
            } else {
                proof {
                    if g.spec_is_open(cur, Direction::South) {
                        g.lemma_open_in_bounds(cur, Direction::South);
                    }
                }
            }
        },
        Direction::East => {
            if g.is_open(cur, Direction::East) && cur.x + 1 < g.width() {
                let nb = Position { x: cur.x + 1, y: cur.y };
                proof {
                    g.lemma_open_in_bounds(cur, Direction::East);
                    assert(nb == step_target(cur, Direction::East));
                    assert(step_open(*g, cur, nb));
                }
                try_relax(g, cur, nb, goal, gs, came, open, cells, Ghost(start));
            } else {
                proof {
                    if g.spec_is_open(cur, Direction::East) {
                        g.lemma_open_in_bounds(cur, Direction::East);
                    }
                }
            }
        },
        Direction::West => {
            if g.is_open(cur, Direction::West) && cur.x > 0 {
                let nb = Position { x: cur.x - 1, y: cur.y };
                proof {
                    g.lemma_open_in_bounds(cur, Direction::West);
                    assert(nb == step_target(cur, Direction::West));
                    assert(step_open(*g, cur, nb));
                }
                try_relax(g, cur, nb, goal, gs, came, open, cells, Ghost(start));
            } else {
                proof {
                    if g.spec_is_open(cur, Direction::West) {
                        g.lemma_open_in_bounds(cur, Direction::West);
                    }
                }
            }
        },
    }
}

/// Along any walk from the start whose last cell is not finalized, some
/// cell is not finalized yet has a recorded g-score no larger than its
/// index on the walk (the frontier always covers the cheapest way forward).
proof fn lemma_first_unsettled(
    g: Grid,
    start: Position,
    goal: Position,
    gs: Seq<Option<usize>>,
    came: Seq<Option<Position>>,
    open: Seq<Node>,
    cells: Seq<CellDebugInfo>,
    q: Seq<Position>,
    i: int,
)
    requires
        search_inv(g, start, goal, gs, came, open, cells, Option::<Position>::None),
        q.len() >= 1,
        q[0] == start,
        is_path(g, q),
        !closed_at(g, cells, q[q.len() - 1]),
        0 <= i < q.len(),
        g.in_bounds(q[i]),
        g_at(g, gs, q[i]) is Some,
        g_at(g, gs, q[i]).unwrap() <= i,
    ensures
        exists|j: int|
            0 <= j < q.len() && g.in_bounds(#[trigger] q[j]) && !closed_at(g, cells, q[j]) && g_at(
                g,
                gs,
                q[j],
            ) is Some && g_at(g, gs, q[j]).unwrap() <= j,
    decreases q.len() - i,
{
    if !closed_at(g, cells, q[i]) {
        assert(0 <= i < q.len() && g.in_bounds(q[i]) && !closed_at(g, cells, q[i]) && g_at(
            g,
            gs,
            q[i],
        ) is Some && g_at(g, gs, q[i]).unwrap() <= i);
    } else {
        assert(i != q.len() - 1);
        assert(step_open(g, q[i], q[i + 1]));
        lemma_step_adjacent(g, q[i], q[i + 1], goal);
        assert(g_at(g, gs, q[i + 1]) is Some && g_at(g, gs, q[i + 1]).unwrap() <= g_at(
            g,
            gs,
            q[i],
        ).unwrap() + 1);
        lemma_first_unsettled(g, start, goal, gs, came, open, cells, q, i + 1);
    }
}

/// When the frontier entry with the least f-score carries a cell that is
/// not finalized, that cell's recorded g-score is settled: no walk from
/// the start reaches it in fewer steps.  This is where the admissible,
/// consistent heuristic earns its keep.
proof fn lemma_pop_optimal(
    g: Grid,
    start: Position,
    goal: Position,
    gs: Seq<Option<usize>>,
    came: Seq<Option<Position>>,
    open: Seq<Node>,
    cells: Seq<CellDebugInfo>,
    ci: int,
)
    requires
        search_inv(g, start, goal, gs, came, open, cells, Option::<Position>::None),
        0 <= ci < open.len(),
        forall|k: int| 0 <= k < open.len() ==> open[ci].f_score <= (#[trigger] open[k]).f_score,
        !closed_at(g, cells, open[ci].pos),
    ensures
        shortest_at_least(g, start, open[ci].pos, g_at(g, gs, open[ci].pos).unwrap() as int),
{
    let p = open[ci].pos;
    let gp = g_at(g, gs, p).unwrap() as int;
    assert forall|q: Seq<Position>| #[trigger] connects(g, start, p, q) implies q.len() - 1
        >= gp by {
        let l = q.len() - 1;
        assert(q[l] == p);
        lemma_first_unsettled(g, start, goal, gs, came, open, cells, q, 0);
        let j = choose|j: int|
            0 <= j < q.len() && g.in_bounds(#[trigger] q[j]) && !closed_at(g, cells, q[j]) && g_at(
                g,
                gs,
                q[j],
            ) is Some && g_at(g, gs, q[j]).unwrap() <= j;
        let w = q[j];
        let k = choose|k: int|
            0 <= k < open.len() && (#[trigger] open[k]).pos == w && open[k].f_score == g_at(
                g,
                gs,
                w,
            ).unwrap() + manhattan(w, goal);
        assert(open[ci].f_score <= open[k].f_score);
        assert(open[ci].f_score >= g_at(g, gs, p).unwrap() + manhattan(p, goal));
        lemma_manhattan_along_path(g, q, j, goal);
        assert(manhattan(w, goal) <= (l - j) + manhattan(p, goal));
        assert(gp + manhattan(p, goal) <= g_at(g, gs, w).unwrap() + manhattan(w, goal));
        assert(gp <= l);
    }
}

/// When the frontier runs dry, every cell along any walk from the start is
/// finalized; since the goal is never finalized, no walk reaches it.
proof fn lemma_walk_settled(
    g: Grid,
    start: Position,
    goal: Position,
    gs: Seq<Option<usize>>,
    came: Seq<Option<Position>>,
    open: Seq<Node>,
    cells: Seq<CellDebugInfo>,
    q: Seq<Position>,
    i: int,
)
    requires
        search_inv(g, start, goal, gs, came, open, cells, Option::<Position>::None),
        open.len() == 0,
        q.len() >= 1,
        q[0] == start,
        is_path(g, q),
        0 <= i < q.len(),
        g.in_bounds(q[i]),
    ensures
        g_at(g, gs, q[i]) is Some,
        closed_at(g, cells, q[i]),
    decreases i,
{
    if i == 0 {
        assert(g_at(g, gs, start) is Some);
        assert(closed_at(g, cells, start));
    } else {
        let j = i - 1;
        assert(step_open(g, q[j], q[j + 1]));
        lemma_step_adjacent(g, q[j], q[j + 1], goal);
        lemma_walk_settled(g, start, goal, gs, came, open, cells, q, j);
        assert(g_at(g, gs, q[j + 1]) is Some);
        assert(closed_at(g, cells, q[j + 1]));
        assert(q[j + 1] == q[i]);
    }
}

/// An exhausted frontier means the goal is unreachable.
proof fn lemma_exhausted_unreachable(
    g: Grid,
    start: Position,
    goal: Position,
    gs: Seq<Option<usize>>,
    came: Seq<Option<Position>>,
    open: Seq<Node>,
    cells: Seq<CellDebugInfo>,
)
    requires
        search_inv(g, start, goal, gs, came, open, cells, Option::<Position>::None),
        open.len() == 0,
    ensures
        !reachable(g, start, goal),
{
    if reachable(g, start, goal) {
        let q = choose|q: Seq<Position>| connects(g, start, goal, q);
        lemma_walk_settled(g, start, goal, gs, came, open, cells, q, q.len() - 1);
        assert(closed_at(g, cells, goal));
        assert(false);
    }
}

/// Mark every cell of the returned path in the trace; no other field of
/// any trace entry changes.
#[verifier::rlimit(60)]
fn mark_final_path(g: &Grid, path: &Vec<Position>, cells: &mut Vec<CellDebugInfo>)
    requires
        g.wf(),
        old(cells)@.len() == g.spec_cell_count(),
        forall|k: int| 0 <= k < path@.len() ==> g.in_bounds(#[trigger] path@[k]),
        forall|p: Position|
            g.in_bounds(p) ==> !(#[trigger] info_at(*g, old(cells)@, p)).in_final_path,
    ensures
        final(cells)@.len() == g.spec_cell_count(),
        forall|p: Position|
            g.in_bounds(p) ==> ((#[trigger] info_at(*g, final(cells)@, p)).in_final_path
                <==> path@.contains(p)),
        forall|p: Position|
            g.in_bounds(p) ==> {
                let c0 = info_at(*g, old(cells)@, p);
                let c1 = #[trigger] info_at(*g, final(cells)@, p);
                &&& c1.g_score == c0.g_score
                &&& c1.h_score == c0.h_score
                &&& c1.f_score == c0.f_score
                &&& c1.in_open_set == c0.in_open_set
                &&& c1.in_closed_set == c0.in_closed_set
            },
{
    let mut i: usize = 0;
    while i < path.len()
        invariant
            g.wf(),
            cells@.len() == g.spec_cell_count(),
            i <= path@.len(),
            forall|k: int| 0 <= k < path@.len() ==> g.in_bounds(#[trigger] path@[k]),
            forall|p: Position|
                g.in_bounds(p) ==> ((#[trigger] info_at(*g, cells@, p)).in_final_path
                    <==> path@.take(i as int).contains(p)),
            forall|p: Position|
                g.in_bounds(p) ==> {
                    let c0 = info_at(*g, old(cells)@, p);
                    let c1 = #[trigger] info_at(*g, cells@, p);
                    &&& c1.g_score == c0.g_score
                    &&& c1.h_score == c0.h_score
                    &&& c1.f_score == c0.f_score
                    &&& c1.in_open_set == c0.in_open_set
                    &&& c1.in_closed_set == c0.in_closed_set
                },
        decreases path@.len() - i,
    {
        let ghost cells_prev = cells@;
        let pos = path[i];
        let pi = g.cell_index(pos);
        let mut info = cells[pi];
        info.in_final_path = true;
        cells[pi] = info;
        i = i + 1;
        proof {
            let take0 = path@.take(i - 1);
            let take1 = path@.take(i as int);
            assert(take1 =~= take0.push(path@[i - 1]));
            assert forall|p: Position| g.in_bounds(p) implies ((#[trigger] info_at(
                *g,
                cells@,
                p,
            )).in_final_path <==> take1.contains(p)) by {
                if p == pos {
                    assert(take1[take1.len() - 1] == pos);
                    assert(take1.contains(p));
                } else {
                    g.lemma_index_distinct(p, pos);
                    assert(info_at(*g, cells@, p) == info_at(*g, cells_prev, p));
                    if take1.contains(p) {
                        let idx = choose|idx: int| 0 <= idx < take1.len() && take1[idx] == p;
                        assert(take0[idx] == p);
                        assert(take0.contains(p));
                    }
                    if take0.contains(p) {
                        let idx = choose|idx: int| 0 <= idx < take0.len() && take0[idx] == p;
                        assert(take1[idx] == p);
                        assert(take1.contains(p));
                    }
                }
            }
            assert forall|p: Position| g.in_bounds(p) && p != pos implies info_at(*g, cells@, p)
                == info_at(*g, cells_prev, p) by {
                g.lemma_index_distinct(p, pos);
            }
        }
    }
    proof {
        assert(path@.take(path@.len() as int) =~= path@);
    }
}

/// Searching twice over an unchanged grid with the same endpoints yields
/// paths of the same length: any two results that meet the search's
/// contract agree on it, since each one is as short as any walk can be.
/// (The exact cell sequence is also stable here, because the tie-break
/// rule is deterministic, but only the length is forced by the contract.)
pub proof fn lemma_search_length_deterministic(
    g: Grid,
    start: Position,
    goal: Position,
    p1: Seq<Position>,
    p2: Seq<Position>,
)
    requires
        search_post(g, start, goal, p1),
        search_post(g, start, goal, p2),
    ensures
        p1.len() == p2.len(),
{
    if p1.len() > 0 {
        assert(connects(g, start, goal, p1));
        assert(reachable(g, start, goal));
        assert(p2.len() > 0);
        assert(connects(g, start, goal, p2));
        assert(p1.len() >= p2.len());
        assert(p2.len() >= p1.len());
    } else {
        assert(!reachable(g, start, goal));
        assert(p2.len() == 0);
    }
}

/// Take the frontier entry with the least f-score out of the frontier.
/// The cell it carries is discovered, and its recorded g-score is settled:
/// no walk from the start reaches it in fewer steps.
#[verifier::rlimit(100)]
fn pop_min(
    g: &Grid,
    goal: Position,
    open: &mut Vec<Node>,
    Ghost(start): Ghost<Position>,
    Ghost(gs): Ghost<Seq<Option<usize>>>,
    Ghost(came): Ghost<Seq<Option<Position>>>,
    Ghost(cells): Ghost<Seq<CellDebugInfo>>,
) -> (current: Node)
    requires
        search_inv(*g, start, goal, gs, came, old(open)@, cells, Option::<Position>::None),
        old(open)@.len() > 0,
    ensures
        g.in_bounds(current.pos),
        g_at(*g, gs, current.pos) is Some,
        shortest_at_least(*g, start, current.pos, g_at(*g, gs, current.pos).unwrap() as int),
        search_inv(*g, start, goal, gs, came, final(open)@, cells, Some(current.pos)),
        final(open)@.len() == old(open)@.len() - 1,
{
    let ghost open_h = open@;
    let ci = min_index(open);
    let current = open[ci];
    let ghost cp = current.pos;
    proof {
        assert(open_h[ci as int].pos == cp);
        if !closed_at(*g, cells, cp) {
            lemma_pop_optimal(*g, start, goal, gs, came, open@, cells, ci as int);
        }
        assert(shortest_at_least(*g, start, cp, g_at(*g, gs, cp).unwrap() as int));
    }
    let _ = open.remove(ci);
    proof {
        open_h.remove_ensures(ci as int);
        assert(open@ =~= open_h.remove(ci as int));
        assert forall|p: Position|
            g.in_bounds(p) && #[trigger] g_at(*g, gs, p) is Some && !closed_at(*g, cells, p) && p
                != cp implies exists|k: int|
            0 <= k < open@.len() && (#[trigger] open@[k]).pos == p && open@[k].f_score == g_at(
                *g,
                gs,
                p,
            ).unwrap() + manhattan(p, goal) by {
            let k0 = choose|k0: int|
                0 <= k0 < open_h.len() && (#[trigger] open_h[k0]).pos == p && open_h[k0].f_score
                    == g_at(*g, gs, p).unwrap() + manhattan(p, goal);
            if k0 < ci as int {
                assert(open@[k0] == open_h[k0]);
            } else {
                assert(k0 != ci as int);
                assert(open@[k0 - 1] == open_h[k0]);
            }
        }
        assert forall|k: int| 0 <= k < open@.len() implies {
            let e = #[trigger] open@[k];
            &&& g.in_bounds(e.pos)
            &&& g_at(*g, gs, e.pos) is Some
            &&& e.f_score >= g_at(*g, gs, e.pos).unwrap() + manhattan(e.pos, goal)
        } by {
            if k < ci as int {
                assert(open@[k] == open_h[k]);
            } else {
                assert(open@[k] == open_h[k + 1]);
            }
        }
        assert(search_inv(*g, start, goal, gs, came, open@, cells, Some(cp)));
    }
    current
}

/// Expand the current cell: try to relax each of its four neighbours.
/// Afterwards every open neighbour of the cell is discovered at a cost of
/// at most one step beyond the cell's own.
#[verifier::rlimit(100)]
fn expand_all(
    g: &Grid,
    cur: Position,
    goal: Position,
    gs: &mut Vec<Option<usize>>,
    came: &mut Vec<Option<Position>>,
    open: &mut Vec<Node>,
    cells: &mut Vec<CellDebugInfo>,
    Ghost(start): Ghost<Position>,
)
    requires
        g.wf(),
        g.in_bounds(cur),
        g_at(*g, old(gs)@, cur) is Some,
        search_inv(*g, start, goal, old(gs)@, old(came)@, old(open)@, old(cells)@, Some(cur)),
    ensures
        search_inv(*g, start, goal, final(gs)@, final(came)@, final(open)@, final(cells)@, Some(cur)),
        g_at(*g, final(gs)@, cur) == g_at(*g, old(gs)@, cur),
        forall|p: Position|
            g.in_bounds(p) ==> (#[trigger] info_at(*g, final(cells)@, p)).in_closed_set == info_at(
                *g,
                old(cells)@,
                p,
            ).in_closed_set,
        phi(final(gs)@, g.spec_cell_count()) + final(open)@.len() <= phi(
            old(gs)@,
            g.spec_cell_count(),
        ) + old(open)@.len(),
        forall|b: Position| #[trigger]
            step_open(*g, cur, b) ==> g_at(*g, final(gs)@, b) is Some && g_at(
                *g,
                final(gs)@,
                b,
            ).unwrap() <= g_at(*g, final(gs)@, cur).unwrap() + 1,
{
    let ghost gs_r = gs@;
    expand_dir(g, cur, Direction::North, goal, gs, came, open, cells, Ghost(start));
    let ghost gs1 = gs@;
    expand_dir(g, cur, Direction::South, goal, gs, came, open, cells, Ghost(start));
    let ghost gs2 = gs@;
    expand_dir(g, cur, Direction::East, goal, gs, came, open, cells, Ghost(start));
    let ghost gs3 = gs@;
    expand_dir(g, cur, Direction::West, goal, gs, came, open, cells, Ghost(start));
    let ghost gs4 = gs@;
    proof {
        assert(g_at(*g, gs1, cur) == g_at(*g, gs_r, cur));
        assert(g_at(*g, gs2, cur) == g_at(*g, gs1, cur));
        assert(g_at(*g, gs3, cur) == g_at(*g, gs2, cur));
        assert(g_at(*g, gs4, cur) == g_at(*g, gs3, cur));
        assert forall|b: Position| #[trigger] step_open(*g, cur, b) implies g_at(
            *g,
            gs4,
            b,
        ) is Some && g_at(*g, gs4, b).unwrap() <= g_at(*g, gs4, cur).unwrap() + 1 by {
            if g.spec_is_open(cur, Direction::North) && b.x == cur.x && 1 <= cur.y && b.y == cur.y
                - 1 {
                assert(b == step_target(cur, Direction::North));
                assert(g_at(*g, gs1, b) is Some && g_at(*g, gs1, b).unwrap() <= g_at(
                    *g,
                    gs_r,
                    cur,
                ).unwrap() + 1);
                assert(g_at(*g, gs2, b) is Some && g_at(*g, gs2, b).unwrap() <= g_at(
                    *g,
                    gs1,
                    b,
                ).unwrap());
                assert(g_at(*g, gs3, b) is Some && g_at(*g, gs3, b).unwrap() <= g_at(
                    *g,
                    gs2,
                    b,
                ).unwrap());
                assert(g_at(*g, gs4, b) is Some && g_at(*g, gs4, b).unwrap() <= g_at(
                    *g,
                    gs3,
                    b,
                ).unwrap());
            } else if g.spec_is_open(cur, Direction::South) && b.x == cur.x && b.y == cur.y + 1 {
                assert(b == step_target(cur, Direction::South));
                assert(g_at(*g, gs2, b) is Some && g_at(*g, gs2, b).unwrap() <= g_at(
                    *g,
                    gs1,
                    cur,
                ).unwrap() + 1);
                assert(g_at(*g, gs3, b) is Some && g_at(*g, gs3, b).unwrap() <= g_at(
                    *g,
                    gs2,
                    b,
                ).unwrap());
                assert(g_at(*g, gs4, b) is Some && g_at(*g, gs4, b).unwrap() <= g_at(
                    *g,
                    gs3,
                    b,
                ).unwrap());
            } else if g.spec_is_open(cur, Direction::East) && b.y == cur.y && b.x == cur.x + 1 {
                assert(b == step_target(cur, Direction::East));
                assert(g_at(*g, gs3, b) is Some && g_at(*g, gs3, b).unwrap() <= g_at(
                    *g,
                    gs2,
                    cur,
                ).unwrap() + 1);
                assert(g_at(*g, gs4, b) is Some && g_at(*g, gs4, b).unwrap() <= g_at(
                    *g,
                    gs3,
                    b,
                ).unwrap());
            } else {
                assert(g.spec_is_open(cur, Direction::West) && b.y == cur.y && 1 <= cur.x && b.x
                    == cur.x - 1);
                assert(b == step_target(cur, Direction::West));
                assert(g_at(*g, gs4, b) is Some && g_at(*g, gs4, b).unwrap() <= g_at(
                    *g,
                    gs3,
                    cur,
                ).unwrap() + 1);
            }
        }
    }
}

/// Finalize the expanded cell: move it from the frontier flags to the
/// closed flags in the trace.
#[verifier::rlimit(100)]
fn finalize_cell(
    g: &Grid,
    cp: Position,
    goal: Position,
    cells: &mut Vec<CellDebugInfo>,
    Ghost(start): Ghost<Position>,
    Ghost(gs): Ghost<Seq<Option<usize>>>,
    Ghost(came): Ghost<Seq<Option<Position>>>,
    Ghost(open): Ghost<Seq<Node>>,
)
    requires
        g.wf(),
        g.in_bounds(cp),
        cp != goal,
        g_at(*g, gs, cp) is Some,
        search_inv(*g, start, goal, gs, came, open, old(cells)@, Some(cp)),
        shortest_at_least(*g, start, cp, g_at(*g, gs, cp).unwrap() as int),
        forall|b: Position| #[trigger]
            step_open(*g, cp, b) ==> g_at(*g, gs, b) is Some && g_at(*g, gs, b).unwrap() <= g_at(
                *g,
                gs,
                cp,
            ).unwrap() + 1,
    ensures
        search_inv(*g, start, goal, gs, came, open, final(cells)@, Option::<Position>::None),
{
    let ghost cells0 = cells@;
    let cidx = g.cell_index(cp);
    let mut info = cells[cidx];
    info.in_open_set = false;
    info.in_closed_set = true;
    cells[cidx] = info;
    proof {
        let cells1 = cells@;
        assert forall|p: Position| g.in_bounds(p) && p != cp implies info_at(*g, cells1, p)
            == info_at(*g, cells0, p) by {
            g.lemma_index_distinct(p, cp);
        }
        assert(info_at(*g, cells1, cp) == info);
        assert(search_inv(*g, start, goal, gs, came, open, cells1, Option::<Position>::None));
    }
}

/// Reconstruct the path that ends at the goal, mark it in the trace, and
/// wrap everything up for the caller.
#[verifier::rlimit(100)]
fn finish(
    g: &Grid,
    w: usize,
    h: usize,
    target: Position,
    came: &Vec<Option<Position>>,
    cells: Vec<CellDebugInfo>,
    Ghost(start): Ghost<Position>,
    Ghost(goal): Ghost<Position>,
    Ghost(gs): Ghost<Seq<Option<usize>>>,
    Ghost(open): Ghost<Seq<Node>>,
) -> (r: (Vec<Position>, Trace))
    requires
        w == g.spec_width(),
        h == g.spec_height(),
        target == goal,
        g_at(*g, gs, goal) is Some,
        search_inv(*g, start, goal, gs, came@, open, cells@, Some(goal)),
        shortest_at_least(*g, start, goal, g_at(*g, gs, goal).unwrap() as int),
    ensures
        search_post(*g, start, goal, r.0@),
        trace_post(*g, start, goal, r.0@, r.1),
{
    let ghost gval = g_at(*g, gs, goal).unwrap();
    let path = reconstruct_path(g, came, target, Ghost(start), Ghost(gs));
    proof {
        assert(connects(*g, start, goal, path@));
        assert(reachable(*g, start, goal));
        assert forall|q: Seq<Position>| #[trigger] connects(*g, start, goal, q) implies q.len()
            >= path@.len() by {
            assert(q.len() - 1 >= gval);
            assert(path@.len() <= gval + 1);
        }
        if start == goal {
            assert(gval == 0);
            assert(path@.len() == 1);
            assert(path@ =~= seq![start]);
        }
        assert(search_post(*g, start, goal, path@));
    }
    let ghost cells_pre = cells@;
    let mut cells = cells;
    mark_final_path(g, &path, &mut cells);
    let tr = Trace { width: w, height: h, cells };
    proof {
        assert forall|q: Position| g.in_bounds(q) implies #[trigger] tr.at(q) == info_at(
            *g,
            tr.cells@,
            q,
        ) by {
            assert(q.y * (w as int) + q.x == g.spec_index(q));
        }
        assert forall|q: Position|
            g.in_bounds(q) && (#[trigger] tr.at(q)).g_score is Some implies exists|
            m: Seq<Position>,
        |
            connects(*g, start, q, m) && m.len() == tr.at(q).g_score.unwrap() + 1 by {
            assert(info_at(*g, cells_pre, q).g_score == g_at(*g, gs, q));
            let m = choose|m: Seq<Position>|
                connects(*g, start, q, m) && m.len() == g_at(*g, gs, q).unwrap() + 1;
            assert(connects(*g, start, q, m) && m.len() == tr.at(q).g_score.unwrap() + 1);
        }
        g.lemma_wf_bounds();
        assert(tr.wf());
        // every cell of the final path went through the frontier
        assert forall|q: Position|
            g.in_bounds(q) && (#[trigger] tr.at(q)).in_final_path implies (tr.at(q).in_open_set
                || tr.at(q).in_closed_set) by {
            assert(path@.contains(q));
            let k = choose|k: int| 0 <= k < path@.len() && path@[k] == q;
            assert(g_at(*g, gs, path@[k]) is Some);
            assert(info_at(*g, cells_pre, q).in_open_set || info_at(*g, cells_pre, q).in_closed_set);
        }
        assert(info_at(*g, cells_pre, start).g_score == g_at(*g, gs, start));
        assert(tr.at(start).g_score == Some(0usize));
        assert(trace_post(*g, start, goal, path@, tr));
    }
    (path, tr)
}

/// Best-first shortest-path search from `start` to `goal` over the grid,
/// with uniform step cost and the Manhattan-distance heuristic.
///
/// Returns the path from `start` to `goal`, both inclusive — `[start]`
/// alone when the two coincide, and empty exactly when the goal cannot be
/// reached — together with the per-cell trace of the search.  The returned
/// path is as short as any walk through open passages can be.
///
/// The frontier is ordered by ascending f-score; among entries of equal
/// f-score the one pushed earliest is expanded first, so the search is
/// deterministic.  Stale frontier entries are tolerated: the score tables
/// are checked before any overwrite, so a re-expansion is harmless.
#[verifier::rlimit(100)]
pub fn find_path(g: &Grid, start: Position, goal: Position) -> (r: (Vec<Position>, Trace))
    requires
        g.wf(),
        g.in_bounds(start),
        g.in_bounds(goal),
    ensures
        search_post(*g, start, goal, r.0@),
        trace_post(*g, start, goal, r.0@, r.1),
{
    proof {
        g.lemma_wf_bounds();
        g.lemma_index_in_range(start);
    }
    let w = g.width();
    let h = g.height();
    let n: usize = w * h;
    let mut gs: Vec<Option<usize>> = filled(n, Option::None);
    let mut came: Vec<Option<Position>> = filled(n, Option::None);
    let mut cells: Vec<CellDebugInfo> = filled(n, CellDebugInfo::new());
    let mut open: Vec<Node> = Vec::new();
    let ghost gs_init = gs@;
    let si = g.cell_index(start);
    let hs = heuristic(start, goal);
    gs[si] = Some(0);
    open.push(Node { pos: start, f_score: hs });
    let mut sinfo = cells[si];
    sinfo.g_score = Some(0);
    sinfo.h_score = Some(hs);
    sinfo.f_score = Some(hs);
    sinfo.in_open_set = true;
    cells[si] = sinfo;
    proof {
        lemma_count_defined_none(gs_init);
        lemma_count_defined_update(gs_init, g.spec_index(start), Some(0usize));
        lemma_connects_self(*g, start);
        assert(connects(*g, start, start, seq![start]) && seq![start].len() == 1);
        assert forall|p: Position| g.in_bounds(p) && p != start implies g_at(*g, gs@, p) is None
            && came_at(*g, came@, p) is None && info_at(*g, cells@, p) == untouched() by {
            g.lemma_index_distinct(p, start);
        }
        assert(g_at(*g, gs@, start) == Some(0usize));
        assert(open@[0].pos == start && open@[0].f_score == g_at(*g, gs@, start).unwrap()
            + manhattan(start, goal));
        assert(search_inv(*g, start, goal, gs@, came@, open@, cells@, Option::<Position>::None));
    }
    while open.len() > 0
        invariant
            g.wf(),
            g.in_bounds(start),
            g.in_bounds(goal),
            w == g.spec_width(),
            h == g.spec_height(),
            n == g.spec_cell_count(),
            search_inv(*g, start, goal, gs@, came@, open@, cells@, Option::<Position>::None),
        decreases phi(gs@, n as int) + open@.len(),
    {
        let ghost gs_h = gs@;
        let ghost open_h = open@;
        let current = pop_min(g, goal, &mut open, Ghost(start), Ghost(gs@), Ghost(came@), Ghost(cells@));
        let cp = current.pos;
        let ghost gval = g_at(*g, gs@, cp).unwrap();
        if cp == goal {
            let r = finish(
                g,
                w,
                h,
                cp,
                &came,
                cells,
                Ghost(start),
                Ghost(goal),
                Ghost(gs@),
                Ghost(open@),
            );
            return r;
        }
        let ghost open_r = open@;
        expand_all(g, cp, goal, &mut gs, &mut came, &mut open, &mut cells, Ghost(start));
        proof {
            assert(g_at(*g, gs@, cp).unwrap() == gval);
        }
        finalize_cell(g, cp, goal, &mut cells, Ghost(start), Ghost(gs@), Ghost(came@), Ghost(open@));
        proof {
            lemma_phi_nonneg(gs@, n as int);
            assert(phi(gs@, n as int) + open@.len() <= phi(gs_h, n as int) + open_r.len());
            assert(open_r.len() == open_h.len() - 1);
        }
    }
    proof {
        lemma_exhausted_unreachable(*g, start, goal, gs@, came@, open@, cells@);
        if start == goal {
            lemma_connects_self(*g, start);
            assert(false);
        }
    }
    let tr = Trace { width: w, height: h, cells };
    proof {
        let empty = Seq::<Position>::empty();
        assert forall|q: Position| g.in_bounds(q) implies #[trigger] tr.at(q) == info_at(
            *g,
            tr.cells@,
            q,
        ) by {
            assert(q.y * (w as int) + q.x == g.spec_index(q));
        }
        assert forall|q: Position|
            g.in_bounds(q) && (#[trigger] tr.at(q)).g_score is Some implies exists|
            m: Seq<Position>,
        |
            connects(*g, start, q, m) && m.len() == tr.at(q).g_score.unwrap() + 1 by {
            let m = choose|m: Seq<Position>|
                connects(*g, start, q, m) && m.len() == g_at(*g, gs@, q).unwrap() + 1;
            assert(connects(*g, start, q, m) && m.len() == tr.at(q).g_score.unwrap() + 1);
        }
        assert(search_post(*g, start, goal, empty));
        assert(trace_post(*g, start, goal, empty, tr));
    }
    (Vec::new(), tr)
}

} // verus!
