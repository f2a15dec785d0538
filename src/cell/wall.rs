//! The state of a wall cell.

use vstd::prelude::*;

verus! {

/// The largest number of lamps a wall can ask for among its neighbours:
/// lamps may not light each other, so at most every other neighbour holds one.
pub const MAX_CONSTRAINT: u8 = 3;

/// What a wall asks of its direct neighbours.
#[derive(Clone, Copy, Debug, PartialEq, Eq, Structural)]
pub enum Constraint {
    /// The neighbours must hold exactly this many lamps.
    Equal(u8),
}

/// The state of a wall cell.
#[derive(Clone, Copy, Debug, PartialEq, Eq, Structural)]
pub enum State {
    /// The wall asks nothing of its neighbours.
    Unconstrained,
    /// The wall constrains the lamps among its neighbours.
    Constrained(Constraint),
}

impl State {
    /// A constraint, if any, lies in `0..=3`.
    pub open spec fn valid(self) -> bool {
        match self {
            State::Unconstrained => true,
            State::Constrained(Constraint::Equal(n)) => n <= MAX_CONSTRAINT,
        }
    }

    /// Whether the constraint lies in `0..=3`.
    pub fn is_valid(&self) -> (r: bool)
        ensures
            r == self.valid(),
    {
        match self {
            State::Unconstrained => true,
            State::Constrained(Constraint::Equal(n)) => *n <= MAX_CONSTRAINT,
        }
    }
}

impl From<Option<u8>> for State {
    /// A wall asking for exactly `n` lamps, or an unconstrained wall.
    fn from(constraint: Option<u8>) -> (r: Self) {
        match constraint {
            Some(n) => State::Constrained(Constraint::Equal(n)),
            None => State::Unconstrained,
        }
    }
}

impl vstd::std_specs::convert::FromSpecImpl<Option<u8>> for State {
    open spec fn obeys_from_spec() -> bool {
        true
    }

    open spec fn from_spec(constraint: Option<u8>) -> State {
        match constraint {
            Some(n) => State::Constrained(Constraint::Equal(n)),
            None => State::Unconstrained,
        }
    }
}

impl Default for State {
    /// An unconstrained wall.
    fn default() -> (r: Self)
        ensures
            r == State::Unconstrained,
    {
        State::Unconstrained
    }
}

} // verus!
