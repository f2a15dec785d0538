//! Cells of a game board: free cells that hold markings and light flags,
//! and wall cells that block light and may constrain their neighbours.

mod free;
mod side;
mod wall;

pub use self::free::{Marking, State as FreeState};
pub use self::side::{all_sides, lemma_opposite_involutive, lemma_opposite_pairs_partition, Side};
pub use self::wall::{Constraint, State as WallState};

use vstd::prelude::*;

verus! {

/// A single hexagonal cell of the board.
#[derive(Clone, Copy, Debug, PartialEq, Eq, Structural)]
pub enum Cell {
    /// A playable cell that can hold a marking and be lit.
    Free(FreeState),
    /// A blocking cell that stops light.
    Wall(WallState),
}

impl Cell {
    /// Turns this cell into an empty, unlit free cell.
    pub fn make_free(&mut self)
        ensures
            *final(self) == Cell::Free(FreeState::empty()),
    {
        *self = Cell::Free(FreeState::default());
    }

    /// Turns this cell into an unconstrained wall.
    pub fn make_wall(&mut self)
        ensures
            *final(self) == Cell::Wall(WallState::Unconstrained),
    {
        *self = Cell::Wall(WallState::default());
    }

    /// Whether this is a free cell carrying a lamp.
    pub open spec fn holds_lamp(self) -> bool {
        match self {
            Cell::Free(st) => st.has_lamp_spec(),
            Cell::Wall(_) => false,
        }
    }

    /// Whether this cell is well formed: a wall constraint lies in `0..=3`.
    pub open spec fn valid(self) -> bool {
        match self {
            Cell::Free(_) => true,
            Cell::Wall(w) => w.valid(),
        }
    }
}

impl Default for Cell {
    /// An empty, unlit free cell.
    fn default() -> (r: Self)
        ensures
            r == Cell::Free(FreeState::empty()),
    {
        Cell::Free(FreeState::default())
    }
}

} // verus!
