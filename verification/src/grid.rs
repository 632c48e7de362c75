//! The grid model: a rectangular maze as an adjacency structure over
//! cells, with carved passages and bound-checked openness queries.

use vstd::prelude::*;

verus! {

/// A cell of the grid: column `x`, row `y`, both zero-based.
#[derive(Copy, Clone, PartialEq, Eq, Structural, Debug)]
pub struct Position {
    pub x: usize,
    pub y: usize,
}

/// The four directions in which a passage can leave a cell.
#[derive(Copy, Clone, PartialEq, Eq, Structural, Debug)]
pub enum Direction {
    North,
    South,
    East,
    West,
}

/// The direction that leads back across the same wall.
pub open spec fn opposite(d: Direction) -> Direction {
    match d {
        Direction::North => Direction::South,
        Direction::South => Direction::North,
        Direction::East => Direction::West,
        Direction::West => Direction::East,
    }
}

/// The cell reached from `p` by one step in direction `d`.
/// Meaningful only when that step stays inside the grid.
pub open spec fn step_target(p: Position, d: Direction) -> Position {
    match d {
        Direction::North => (Position { x: p.x, y: (p.y - 1) as usize }),
        Direction::South => (Position { x: p.x, y: (p.y + 1) as usize }),
        Direction::East => (Position { x: (p.x + 1) as usize, y: p.y }),
        Direction::West => (Position { x: (p.x - 1) as usize, y: p.y }),
    }
}

/// Manhattan distance between two cells: the search's heuristic measure.
pub open spec fn manhattan(a: Position, b: Position) -> int {
    (if a.x >= b.x {
        a.x - b.x
    } else {
        b.x - a.x
    }) + (if a.y >= b.y {
        a.y - b.y
    } else {
        b.y - a.y
    })
}

/// Row-major index arithmetic: a cell inside a `w` by `h` grid has an
/// index inside `[0, w * h)`.
pub(crate) proof fn lemma_row_major_bounds(x: int, y: int, w: int, h: int)
    requires
        0 <= x < w,
        0 <= y < h,
    ensures
        0 <= y * w + x < w * h,
{
    assert(0 <= y * w + x < w * h) by (nonlinear_arith)
        requires
            0 <= x < w,
            0 <= y < h,
    ;
}

/// Row-major indices of two cells agree only when the cells agree.
proof fn lemma_row_major_injective(x1: int, y1: int, x2: int, y2: int, w: int)
    requires
        0 <= x1 < w,
        0 <= x2 < w,
        0 <= y1,
        0 <= y2,
        y1 * w + x1 == y2 * w + x2,
    ensures
        x1 == x2,
        y1 == y2,
{
    assert(x1 == x2 && y1 == y2) by (nonlinear_arith)
        requires
            0 <= x1 < w,
            0 <= x2 < w,
            0 <= y1,
            0 <= y2,
            y1 * w + x1 == y2 * w + x2,
    ;
}

/// A vector of `n` copies of `v`.
pub(crate) fn filled<T: Copy>(n: usize, v: T) -> (r: Vec<T>)
    ensures
        r@.len() == n,
        forall|i: int| 0 <= i < n ==> r@[i] == v,
{
    let mut r: Vec<T> = Vec::new();
    let mut k: usize = 0;
    while k < n
        invariant
            k <= n,
            r@.len() == k,
            forall|i: int| 0 <= i < k ==> r@[i] == v,
        decreases n - k,
    {
        r.push(v);
        k = k + 1;
    }
    r
}

/// A rectangular maze seen as an adjacency structure: for every pair of
/// neighbouring cells it records whether the wall between them has been
/// carved into a passage.  Each wall is stored once, so openness is
/// symmetric by construction.
pub struct Grid {
    width: usize,
    height: usize,
    /// entry `y * width + x`: passage between `(x, y)` and `(x + 1, y)`
    east: Vec<bool>,
    /// entry `y * width + x`: passage between `(x, y)` and `(x, y + 1)`
    south: Vec<bool>,
}

impl Grid {
    /// Number of columns.
    pub closed spec fn spec_width(self) -> int {
        self.width as int
    }

    /// Number of rows.
    pub closed spec fn spec_height(self) -> int {
        self.height as int
    }

    /// Number of cells.
    pub open spec fn spec_cell_count(self) -> int {
        self.spec_width() * self.spec_height()
    }

    /// Whether a cell lies inside the grid.
    pub open spec fn in_bounds(self, p: Position) -> bool {
        p.x < self.spec_width() && p.y < self.spec_height()
    }

    /// Row-major index of a cell.
    pub open spec fn spec_index(self, p: Position) -> int {
        p.y * self.spec_width() + p.x
    }

    /// Well-formedness: at least one column and one row, storage for every
    /// cell, and enough headroom below `usize::MAX` that no score computed
    /// by the search (a path cost plus a heuristic value) can overflow.
    pub closed spec fn wf(self) -> bool {
        &&& 1 <= self.width
        &&& 1 <= self.height
        &&& self.east@.len() == self.width * self.height
        &&& self.south@.len() == self.width * self.height
        &&& self.width * self.height + self.width + self.height <= usize::MAX
    }

    /// Whether a passage exists from `p` in direction `d`.  False whenever
    /// `p` lies outside the grid or the step would leave it.
    pub closed spec fn spec_is_open(self, p: Position, d: Direction) -> bool {
        match d {
            Direction::North => self.in_bounds(p) && 1 <= p.y && self.south@[self.spec_index(
                step_target(p, Direction::North),
            )],
            Direction::South => self.in_bounds(p) && p.y + 1 < self.spec_height()
                && self.south@[self.spec_index(p)],
            Direction::East => self.in_bounds(p) && p.x + 1 < self.spec_width()
                && self.east@[self.spec_index(p)],
            Direction::West => self.in_bounds(p) && 1 <= p.x && self.east@[self.spec_index(
                step_target(p, Direction::West),
            )],
        }
    }

    /// Whether the wall at `p` towards `d` lies between two grid cells,
    /// so that carving it makes sense.
    pub open spec fn can_link(self, p: Position, d: Direction) -> bool {
        &&& self.in_bounds(p)
        &&& match d {
            Direction::North => 1 <= p.y,
            Direction::South => p.y + 1 < self.spec_height(),
            Direction::East => p.x + 1 < self.spec_width(),
            Direction::West => 1 <= p.x,
        }
    }

    /// The basic bounds that well-formedness grants.
    pub proof fn lemma_wf_bounds(self)
        requires
            self.wf(),
        ensures
            1 <= self.spec_width(),
            1 <= self.spec_height(),
            self.spec_cell_count() + self.spec_width() + self.spec_height() <= usize::MAX,
    {
    }

    /// Distinct in-bounds cells have distinct row-major indices.
    pub proof fn lemma_index_distinct(self, p: Position, q: Position)
        requires
            self.wf(),
            self.in_bounds(p),
            self.in_bounds(q),
            p != q,
        ensures
            self.spec_index(p) != self.spec_index(q),
            0 <= self.spec_index(p) < self.spec_cell_count(),
            0 <= self.spec_index(q) < self.spec_cell_count(),
    {
        lemma_row_major_bounds(p.x as int, p.y as int, self.spec_width(), self.spec_height());
        lemma_row_major_bounds(q.x as int, q.y as int, self.spec_width(), self.spec_height());
        if self.spec_index(p) == self.spec_index(q) {
            lemma_row_major_injective(
                p.x as int,
                p.y as int,
                q.x as int,
                q.y as int,
                self.spec_width(),
            );
        }
    }

    /// An in-bounds cell's row-major index lies inside the cell range.
    pub proof fn lemma_index_in_range(self, p: Position)
        requires
            self.wf(),
            self.in_bounds(p),
        ensures
            0 <= self.spec_index(p) < self.spec_cell_count(),
    {
        lemma_row_major_bounds(p.x as int, p.y as int, self.spec_width(), self.spec_height());
    }

    /// An open passage implies that both of its endpoints are grid cells.
    pub proof fn lemma_open_in_bounds(self, p: Position, d: Direction)
        requires
            self.spec_is_open(p, d),
        ensures
            self.in_bounds(p),
            self.can_link(p, d),
            self.in_bounds(step_target(p, d)),
    {
    }

    pub fn width(&self) -> (w: usize)
        ensures
            w == self.spec_width(),
    {
        self.width
    }

    pub fn height(&self) -> (h: usize)
        ensures
            h == self.spec_height(),
    {
        self.height
    }

    /// Row-major index of an in-bounds cell.
    pub fn cell_index(&self, p: Position) -> (i: usize)
        requires
            self.wf(),
            self.in_bounds(p),
        ensures
            i == self.spec_index(p),
            0 <= self.spec_index(p) < self.spec_cell_count(),
    {
        proof {
            lemma_row_major_bounds(p.x as int, p.y as int, self.spec_width(), self.spec_height());
        }
        p.y * self.width + p.x
    }

    /// Whether a cell lies inside the grid.
    pub fn contains(&self, p: Position) -> (r: bool)
        ensures
            r == self.in_bounds(p),
    {
        p.x < self.width && p.y < self.height
    }

    /// A grid of the given extent with every wall still standing.
    pub fn new(width: usize, height: usize) -> (g: Grid)
        requires
            1 <= width,
            1 <= height,
            width * height + width + height <= usize::MAX,
        ensures
            g.wf(),
            g.spec_width() == width,
            g.spec_height() == height,
            forall|p: Position, d: Direction| !(#[trigger] g.spec_is_open(p, d)),
    {
        let n: usize = width * height;
        let east: Vec<bool> = filled(n, false);
        let south: Vec<bool> = filled(n, false);
        let g = Grid { width, height, east, south };
        proof {
            assert forall|p: Position, d: Direction| !(#[trigger] g.spec_is_open(p, d)) by {
                if g.in_bounds(p) {
                    lemma_row_major_bounds(p.x as int, p.y as int, width as int, height as int);
                    if 1 <= p.y {
                        lemma_row_major_bounds(
                            p.x as int,
                            p.y - 1,
                            width as int,
                            height as int,
                        );
                    }
                    if 1 <= p.x {
                        lemma_row_major_bounds(
                            p.x - 1,
                            p.y as int,
                            width as int,
                            height as int,
                        );
                    }
                }
            }
        }
        g
    }

    /// Whether a passage exists from `p` in direction `d`.  Answers `false`
    /// for any cell outside the grid and for any step over the boundary.
    pub fn is_open(&self, p: Position, d: Direction) -> (r: bool)
        requires
            self.wf(),
        ensures
            r == self.spec_is_open(p, d),
    {
        if p.x >= self.width || p.y >= self.height {
            return false;
        }
        match d {
            Direction::North => {
                if p.y >= 1 {
                    let q = Position { x: p.x, y: p.y - 1 };
                    let i = self.cell_index(q);
                    self.south[i]
                } else {
                    false
                }
            },
            Direction::South => {
                if p.y + 1 < self.height {
                    let i = self.cell_index(p);
                    self.south[i]
                } else {
                    false
                }
            },
            Direction::East => {
                if p.x + 1 < self.width {
                    let i = self.cell_index(p);
                    self.east[i]
                } else {
                    false
                }
            },
            Direction::West => {
                if p.x >= 1 {
                    let q = Position { x: p.x - 1, y: p.y };
                    let i = self.cell_index(q);
                    self.east[i]
                } else {
                    false
                }
            },
        }
    }

    /// Carve the wall south of `a`: afterwards `(a.x, a.y)` and
    /// `(a.x, a.y + 1)` are connected; nothing else changes.
    fn carve_south(&mut self, a: Position)
        requires
            old(self).wf(),
            old(self).in_bounds(a),
            a.y + 1 < old(self).spec_height(),
        ensures
            final(self).wf(),
            final(self).spec_width() == old(self).spec_width(),
            final(self).spec_height() == old(self).spec_height(),
            forall|q: Position, e: Direction| #[trigger]
                final(self).spec_is_open(q, e) == (old(self).spec_is_open(q, e) || (q == a && e
                    == Direction::South) || (q == step_target(a, Direction::South) && e
                    == Direction::North)),
    {
        let i = self.cell_index(a);
        self.south[i] = true;
        proof {
            let oldg = *old(self);
            let w = self.spec_width();
            let h = self.spec_height();
            assert forall|q: Position, e: Direction| #[trigger]
                self.spec_is_open(q, e) == (oldg.spec_is_open(q, e) || (q == a && e
                    == Direction::South) || (q == step_target(a, Direction::South) && e
                    == Direction::North)) by {
                let tgt = step_target(a, Direction::South);
                if self.in_bounds(q) {
                    lemma_row_major_bounds(q.x as int, q.y as int, w, h);
                    match e {
                        Direction::North => {
                            if 1 <= q.y {
                                lemma_row_major_bounds(q.x as int, q.y - 1, w, h);
                                if q.x == a.x && q.y - 1 == a.y {
                                    assert(q == tgt);
                                } else if (q.y - 1) * w + q.x == a.y * w + a.x {
                                    lemma_row_major_injective(
                                        q.x as int,
                                        q.y - 1,
                                        a.x as int,
                                        a.y as int,
                                        w,
                                    );
                                }
                            }
                        },
                        Direction::South => {
                            if q.y + 1 < h {
                                if q != a && q.y * w + q.x == a.y * w + a.x {
                                    lemma_row_major_injective(
                                        q.x as int,
                                        q.y as int,
                                        a.x as int,
                                        a.y as int,
                                        w,
                                    );
                                    assert(q == a);
                                }
                            }
                        },
                        Direction::East => {},
                        Direction::West => {},
                    }
                } else {
                    assert(!self.spec_is_open(q, e));
                    assert(!oldg.spec_is_open(q, e));
                    assert(q != a && q != tgt);
                }
            }
        }
    }

    /// Carve the wall east of `a`: afterwards `(a.x, a.y)` and
    /// `(a.x + 1, a.y)` are connected; nothing else changes.
    fn carve_east(&mut self, a: Position)
        requires
            old(self).wf(),
            old(self).in_bounds(a),
            a.x + 1 < old(self).spec_width(),
        ensures
            final(self).wf(),
            final(self).spec_width() == old(self).spec_width(),
            final(self).spec_height() == old(self).spec_height(),
            forall|q: Position, e: Direction| #[trigger]
                final(self).spec_is_open(q, e) == (old(self).spec_is_open(q, e) || (q == a && e
                    == Direction::East) || (q == step_target(a, Direction::East) && e
                    == Direction::West)),
    {
        let i = self.cell_index(a);
        self.east[i] = true;
        proof {
            let oldg = *old(self);
            let w = self.spec_width();
            let h = self.spec_height();
            assert forall|q: Position, e: Direction| #[trigger]
                self.spec_is_open(q, e) == (oldg.spec_is_open(q, e) || (q == a && e
                    == Direction::East) || (q == step_target(a, Direction::East) && e
                    == Direction::West)) by {
                let tgt = step_target(a, Direction::East);
                if self.in_bounds(q) {
                    lemma_row_major_bounds(q.x as int, q.y as int, w, h);
                    match e {
                        Direction::West => {
                            if 1 <= q.x {
                                lemma_row_major_bounds(q.x - 1, q.y as int, w, h);
                                if q.x - 1 == a.x && q.y == a.y {
                                    assert(q == tgt);
                                } else if q.y * w + (q.x - 1) == a.y * w + a.x {
                                    lemma_row_major_injective(
                                        q.x - 1,
                                        q.y as int,
                                        a.x as int,
                                        a.y as int,
                                        w,
                                    );
                                }
                            }
                        },
                        Direction::East => {
                            if q.x + 1 < w {
                                if q != a && q.y * w + q.x == a.y * w + a.x {
                                    lemma_row_major_injective(
                                        q.x as int,
                                        q.y as int,
                                        a.x as int,
                                        a.y as int,
                                        w,
                                    );
                                    assert(q == a);
                                }
                            }
                        },
                        Direction::North => {},
                        Direction::South => {},
                    }
                } else {
                    assert(!self.spec_is_open(q, e));
                    assert(!oldg.spec_is_open(q, e));
                    assert(q != a && q != tgt);
                }
            }
        }
    }

    /// Carve the wall from `p` towards `d`.  When that wall lies between
    /// two grid cells, the passage becomes open in both directions; any
    /// other request leaves the grid unchanged.
    pub fn carve(&mut self, p: Position, d: Direction)
        requires
            old(self).wf(),
        ensures
            final(self).wf(),
            final(self).spec_width() == old(self).spec_width(),
            final(self).spec_height() == old(self).spec_height(),
            old(self).can_link(p, d) ==> forall|q: Position, e: Direction| #[trigger]
                final(self).spec_is_open(q, e) == (old(self).spec_is_open(q, e) || (q == p && e == d) || (
                q == step_target(p, d) && e == opposite(d))),
            !old(self).can_link(p, d) ==> forall|q: Position, e: Direction| #[trigger]
                final(self).spec_is_open(q, e) == old(self).spec_is_open(q, e),
    {
        if p.x >= self.width || p.y >= self.height {
            return ;
        }
        match d {
            Direction::North => {
                if p.y >= 1 {
                    let a = Position { x: p.x, y: p.y - 1 };
                    self.carve_south(a);
                    proof {
                        assert(step_target(a, Direction::South) == p);
                        assert(step_target(p, Direction::North) == a);
                    }
                }
            },
            Direction::South => {
                if p.y + 1 < self.height {
                    self.carve_south(p);
                }
            },
            Direction::East => {
                if p.x + 1 < self.width {
                    self.carve_east(p);
                }
            },
            Direction::West => {
                if p.x >= 1 {
                    let a = Position { x: p.x - 1, y: p.y };
                    self.carve_east(a);
                    proof {
                        assert(step_target(a, Direction::East) == p);
                        assert(step_target(p, Direction::West) == a);
                    }
                }
            },
        }
    }
}

/// One step between neighbouring cells `a` and `b` through an open passage.
pub open spec fn step_open(g: Grid, a: Position, b: Position) -> bool {
    ||| (g.spec_is_open(a, Direction::North) && g.in_bounds(a) && g.in_bounds(b) && b.x == a.x
        && 1 <= a.y && b.y == a.y - 1)
    ||| (g.spec_is_open(a, Direction::South) && g.in_bounds(a) && g.in_bounds(b) && b.x == a.x
        && b.y == a.y + 1)
    ||| (g.spec_is_open(a, Direction::East) && g.in_bounds(a) && g.in_bounds(b) && b.y == a.y
        && b.x == a.x + 1)
    ||| (g.spec_is_open(a, Direction::West) && g.in_bounds(a) && g.in_bounds(b) && b.y == a.y
        && 1 <= a.x && b.x == a.x - 1)
}

/// Openness is symmetric: a passage from `a` to `b` is a passage from
/// `b` to `a` (the maze is undirected).
pub proof fn lemma_step_open_symmetric(g: Grid, a: Position, b: Position)
    requires
        g.wf(),
        step_open(g, a, b),
    ensures
        step_open(g, b, a),
{
    if g.spec_is_open(a, Direction::North) && b.x == a.x && 1 <= a.y && b.y == a.y - 1 {
        assert(step_target(a, Direction::North) == b);
        assert(g.spec_is_open(b, Direction::South));
    } else if g.spec_is_open(a, Direction::South) && b.x == a.x && b.y == a.y + 1 {
        assert(step_target(b, Direction::North) == a);
        assert(g.spec_is_open(b, Direction::North));
    } else if g.spec_is_open(a, Direction::East) && b.y == a.y && b.x == a.x + 1 {
        assert(step_target(b, Direction::West) == a);
        assert(g.spec_is_open(b, Direction::West));
    } else {
        assert(step_target(a, Direction::West) == b);
        assert(g.spec_is_open(b, Direction::East));
    }
}

/// Cells joined by one step are distinct neighbours, so the Manhattan
/// distance to any cell changes by at most one along the step: the
/// heuristic is consistent.
pub proof fn lemma_step_adjacent(g: Grid, a: Position, b: Position, t: Position)
    requires
        step_open(g, a, b),
    ensures
        a != b,
        manhattan(a, t) <= manhattan(b, t) + 1,
        manhattan(b, t) <= manhattan(a, t) + 1,
        manhattan(a, t) >= 0,
        manhattan(b, t) >= 0,
{
}

} // verus!
