//! The six sides of a hexagonal cell.

use vstd::prelude::*;

verus! {

/// The sides of a cell, named clockwise and independent of how the board is
/// rotated on screen.
///
/// ```text
///       F    A
///    E   self   B
///       D    C
/// ```
#[derive(Clone, Copy, Debug, PartialEq, Eq, Structural)]
pub enum Side {
    A,
    B,
    C,
    D,
    E,
    F,
}

/// The set of all six sides.
pub open spec fn all_sides() -> Set<Side> {
    set![Side::A, Side::B, Side::C, Side::D, Side::E, Side::F]
}

impl Side {
    /// The side facing this one.
    pub open spec fn opp(self) -> Side {
        match self {
            Side::A => Side::D,
            Side::B => Side::E,
            Side::C => Side::F,
            Side::D => Side::A,
            Side::E => Side::B,
            Side::F => Side::C,
        }
    }

    /// Returns the opposite of a side.
    pub fn opposite(&self) -> (r: Side)
        ensures
            r == self.opp(),
    {
        match self {
            Side::A => Side::D,
            Side::B => Side::E,
            Side::C => Side::F,
            Side::D => Side::A,
            Side::E => Side::B,
            Side::F => Side::C,
        }
    }

    /// All six sides, clockwise from `A`.
    pub fn all() -> (r: Vec<Side>)
        ensures
            r@ == seq![Side::A, Side::B, Side::C, Side::D, Side::E, Side::F],
    {
        vec![Side::A, Side::B, Side::C, Side::D, Side::E, Side::F]
    }
}

/// Taking the opposite twice gives the side back, and no side is its own
/// opposite.
pub proof fn lemma_opposite_involutive(s: Side)
    ensures
        s.opp().opp() == s,
        s.opp() != s,
{
}

/// The three pairs of opposite sides, `{A, D}`, `{B, E}` and `{C, F}`,
/// partition the set of sides: they are disjoint, together they hold every
/// side, and each pair is a side together with its opposite.
pub proof fn lemma_opposite_pairs_partition()
    ensures
        set![Side::A, Side::D] + set![Side::B, Side::E] + set![Side::C, Side::F] == all_sides(),
        set![Side::A, Side::D].disjoint(set![Side::B, Side::E]),
        set![Side::A, Side::D].disjoint(set![Side::C, Side::F]),
        set![Side::B, Side::E].disjoint(set![Side::C, Side::F]),
        forall|s: Side|
            (#[trigger] all_sides().contains(s)) ==> (set![Side::A, Side::D].contains(s) ==> set![Side::A, Side::D] == set![s, s.opp()])
                && (set![Side::B, Side::E].contains(s) ==> set![Side::B, Side::E] == set![s, s.opp()])
                && (set![Side::C, Side::F].contains(s) ==> set![Side::C, Side::F] == set![s, s.opp()]),
{
    assert(set![Side::A, Side::D] + set![Side::B, Side::E] + set![Side::C, Side::F] =~= all_sides());
    assert(set![Side::A, Side::D] =~= set![Side::D, Side::A]);
    assert(set![Side::B, Side::E] =~= set![Side::E, Side::B]);
    assert(set![Side::C, Side::F] =~= set![Side::F, Side::C]);
}

} // verus!
