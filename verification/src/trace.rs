//! The trace: a read-only, per-cell snapshot of the scoring state the
//! search went through, for a visualizer to consume.

use vstd::prelude::*;
use crate::grid::{Position, lemma_row_major_bounds};

verus! {

/// The scoring state that the search last recorded for one cell: its
/// scores (`f = g + h`), whether it sits in the open frontier, whether it
/// has been finalized (closed), and whether it lies on the final path.
#[derive(Copy, Clone, Debug)]
pub struct CellDebugInfo {
    pub f_score: Option<usize>,
    pub g_score: Option<usize>,
    pub h_score: Option<usize>,
    pub in_closed_set: bool,
    pub in_open_set: bool,
    pub in_final_path: bool,
}

/// The state of a cell that the search has not touched.
pub open spec fn untouched() -> CellDebugInfo {
    CellDebugInfo {
        f_score: None,
        g_score: None,
        h_score: None,
        in_closed_set: false,
        in_open_set: false,
        in_final_path: false,
    }
}

impl CellDebugInfo {
    /// A fresh entry: no scores recorded, no set membership.
    pub fn new() -> (c: CellDebugInfo)
        ensures
            c == untouched(),
    {
        CellDebugInfo {
            f_score: None,
            g_score: None,
            h_score: None,
            in_closed_set: false,
            in_open_set: false,
            in_final_path: false,
        }
    }
}

/// A read-only snapshot of the search's per-cell state, one entry for every
/// cell of the grid that was searched, in row-major order.
pub struct Trace {
    pub width: usize,
    pub height: usize,
    pub cells: Vec<CellDebugInfo>,
}

impl Trace {
    pub open spec fn wf(self) -> bool {
        &&& 1 <= self.width
        &&& 1 <= self.height
        &&& self.width * self.height <= usize::MAX
        &&& self.cells@.len() == self.width * self.height
    }

    /// The entry recorded for cell `p` (row-major order).
    pub open spec fn at(self, p: Position) -> CellDebugInfo {
        self.cells@[p.y * self.width + p.x]
    }

    pub fn width(&self) -> (w: usize)
        ensures
            w == self.width,
    {
        self.width
    }

    pub fn height(&self) -> (h: usize)
        ensures
            h == self.height,
    {
        self.height
    }

    /// The entry recorded for an in-bounds cell `p`.
    pub fn get(&self, p: Position) -> (c: CellDebugInfo)
        requires
            self.wf(),
            p.x < self.width,
            p.y < self.height,
        ensures
            c == self.at(p),
    {
        proof {
            lemma_row_major_bounds(p.x as int, p.y as int, self.width as int, self.height as int);
        }
        self.cells[p.y * self.width + p.x]
    }
}

} // verus!
