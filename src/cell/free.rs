//! The state of a free cell.

use super::side::Side;
use vstd::prelude::*;

verus! {

/// A marking that the player puts into a free cell.
#[derive(Clone, Copy, Debug, PartialEq, Eq, Structural)]
pub enum Marking {
    /// A lamp lights up other free cells in every direction.
    Lamp,
    /// A cross records that the cell cannot hold a lamp.
    Cross,
}

/// The state of a free cell: an optional marking and, for each side, whether
/// a lamp lights the cell from that side.
#[derive(Clone, Copy, Debug, PartialEq, Eq, Structural)]
pub struct State {
    pub marking: Option<Marking>,
    pub lit_from_a: bool,
    pub lit_from_b: bool,
    pub lit_from_c: bool,
    pub lit_from_d: bool,
    pub lit_from_e: bool,
    pub lit_from_f: bool,
}

impl State {
    /// No marking and no light.
    pub open spec fn empty() -> State {
        State {
            marking: None,
            lit_from_a: false,
            lit_from_b: false,
            lit_from_c: false,
            lit_from_d: false,
            lit_from_e: false,
            lit_from_f: false,
        }
    }

    /// Whether the cell is lit from side `s`.
    pub open spec fn lit_from(self, s: Side) -> bool {
        match s {
            Side::A => self.lit_from_a,
            Side::B => self.lit_from_b,
            Side::C => self.lit_from_c,
            Side::D => self.lit_from_d,
            Side::E => self.lit_from_e,
            Side::F => self.lit_from_f,
        }
    }

    /// This state with the flag of side `s` set to `v`.
    pub open spec fn with_lit(self, s: Side, v: bool) -> State {
        match s {
            Side::A => State { lit_from_a: v, ..self },
            Side::B => State { lit_from_b: v, ..self },
            Side::C => State { lit_from_c: v, ..self },
            Side::D => State { lit_from_d: v, ..self },
            Side::E => State { lit_from_e: v, ..self },
            Side::F => State { lit_from_f: v, ..self },
        }
    }

    /// Whether any of the six flags is set.
    pub open spec fn lit_spec(self) -> bool {
        self.lit_from_a || self.lit_from_b || self.lit_from_c || self.lit_from_d
            || self.lit_from_e || self.lit_from_f
    }

    pub open spec fn has_lamp_spec(self) -> bool {
        self.marking == Some(Marking::Lamp)
    }

    /// Whether the cell is lit from any side.
    pub fn is_lit(&self) -> (r: bool)
        ensures
            r == self.lit_spec(),
    {
        self.lit_from_a || self.lit_from_b || self.lit_from_c || self.lit_from_d
            || self.lit_from_e || self.lit_from_f
    }

    /// Whether the cell holds a lamp.
    pub fn has_lamp(&self) -> (r: bool)
        ensures
            r == self.has_lamp_spec(),
    {
        match self.marking {
            Some(Marking::Lamp) => true,
            _ => false,
        }
    }

    /// Whether the cell is lit from side `side`.
    pub fn is_lit_from(&self, side: Side) -> (r: bool)
        ensures
            r == self.lit_from(side),
    {
        match side {
            Side::A => self.lit_from_a,
            Side::B => self.lit_from_b,
            Side::C => self.lit_from_c,
            Side::D => self.lit_from_d,
            Side::E => self.lit_from_e,
            Side::F => self.lit_from_f,
        }
    }

    /// Replaces the marking, whatever it was.
    pub fn set_marking(&mut self, marking: Option<Marking>)
        ensures
            *final(self) == (State { marking, ..*old(self) }),
    {
        self.marking = marking;
    }

    /// Sets the flag of side `side`, or clears it when `on` is false.
    fn set_illuminated_side(&mut self, side: Side, on: bool)
        ensures
            *final(self) == old(self).with_lit(side, on),
    {
        match side {
            Side::A => self.lit_from_a = on,
            Side::B => self.lit_from_b = on,
            Side::C => self.lit_from_c = on,
            Side::D => self.lit_from_d = on,
            Side::E => self.lit_from_e = on,
            Side::F => self.lit_from_f = on,
        }
    }

    /// Records that the cell is lit from side `side`.
    pub(crate) fn add_illuminated_side(&mut self, side: Side)
        ensures
            *final(self) == old(self).with_lit(side, true),
    {
        self.set_illuminated_side(side, true);
    }

    /// Records that the cell is no longer lit from side `side`.
    pub(crate) fn remove_illuminated_side(&mut self, side: Side)
        ensures
            *final(self) == old(self).with_lit(side, false),
    {
        self.set_illuminated_side(side, false);
    }
}

impl Default for State {
    /// No marking and no light.
    fn default() -> (r: Self)
        ensures
            r == State::empty(),
    {
        State {
            marking: None,
            lit_from_a: false,
            lit_from_b: false,
            lit_from_c: false,
            lit_from_d: false,
            lit_from_e: false,
            lit_from_f: false,
        }
    }
}

} // verus!
