use vstd::prelude::*;
use crate::mark::Mark;

verus! {

/// What a single cell operation reports.
#[derive(Debug, Clone, Copy, PartialEq, Eq, Structural)]
pub enum CellStatus {
    Mine,
    Safe,
    Marked,
}

/// Count stored in a fresh cell until the field computes its neighbours.
pub const UNCOMPUTED: i8 = -1;

/// One grid position.
#[derive(Debug, Clone, Copy, PartialEq, Eq, Structural)]
pub struct Cell {
    pub is_mine: bool,
    pub opened: bool,
    pub mines_neighbors_count: i8,
    pub marked_as: Mark,
}

/// A closed, unmarked cell whose neighbours are not counted yet.
pub open spec fn fresh_cell(is_mine: bool) -> Cell {
    Cell { is_mine, opened: false, mines_neighbors_count: UNCOMPUTED, marked_as: Mark::Empty }
}

impl Cell {
    pub fn new(is_mine: bool) -> (r: Cell)
        ensures
            r == fresh_cell(is_mine),
    {
        Cell { is_mine, opened: false, mines_neighbors_count: UNCOMPUTED, marked_as: Mark::Empty }
    }

    /// Opens the cell; opening an open cell again changes nothing.
    pub fn open(&mut self) -> (r: CellStatus)
        ensures
            *final(self) == (Cell { opened: true, ..*old(self) }),
            r == (if old(self).is_mine { CellStatus::Mine } else { CellStatus::Safe }),
    {
        self.opened = true;
        if self.is_mine {
            CellStatus::Mine
        } else {
            CellStatus::Safe
        }
    }

    /// Sets the mark of a closed cell; on an open cell it has no effect.
    pub fn mark(&mut self, state: Mark) -> (r: CellStatus)
        ensures
            *final(self) == (if old(self).opened { *old(self) } else { Cell { marked_as: state, ..*old(self) } }),
            r == CellStatus::Marked,
    {
        if !self.opened {
            self.marked_as = state;
        }
        CellStatus::Marked
    }
}

} // verus!
