use rokkakari::board::InputMode;
use rokkakari::cell::{Cell, Constraint, FreeState, Marking, Side, WallState};

const SIDES: [Side; 6] = [Side::A, Side::B, Side::C, Side::D, Side::E, Side::F];

#[test]
fn opposite_sides() {
    assert_eq!(Side::A.opposite(), Side::D);
    assert_eq!(Side::B.opposite(), Side::E);
    assert_eq!(Side::C.opposite(), Side::F);
    assert_eq!(Side::D.opposite(), Side::A);
    assert_eq!(Side::E.opposite(), Side::B);
    assert_eq!(Side::F.opposite(), Side::C);
}

#[test]
fn opposite_is_involutive_and_pairs_partition() {
    let mut seen = Vec::new();
    for s in SIDES {
        assert_eq!(s.opposite().opposite(), s);
        assert_ne!(s.opposite(), s);
        if !seen.contains(&s) {
            seen.push(s);
            seen.push(s.opposite());
        }
    }
    assert_eq!(seen.len(), 6);
    for s in SIDES {
        assert!(seen.contains(&s));
    }
}

#[test]
fn all_lists_sides_clockwise() {
    assert_eq!(Side::all(), SIDES.to_vec());
}

#[test]
fn make_free_and_make_wall() {
    let mut cell = Cell::default();
    assert_eq!(cell, Cell::Free(FreeState::default()));
    cell.make_wall();
    assert_eq!(cell, Cell::Wall(WallState::Unconstrained));
    cell.make_free();
    assert_eq!(cell, Cell::Free(FreeState::default()));
}

#[test]
fn wall_state_defaults_and_validity() {
    assert_eq!(WallState::default(), WallState::Unconstrained);
    assert!(WallState::Unconstrained.is_valid());
    assert!(WallState::Constrained(Constraint::Equal(0)).is_valid());
    assert!(WallState::Constrained(Constraint::Equal(3)).is_valid());
    assert!(!WallState::Constrained(Constraint::Equal(4)).is_valid());
}

#[test]
fn free_state_flags() {
    let mut st = FreeState::default();
    assert!(!st.is_lit());
    assert!(!st.has_lamp());
    st.set_marking(Some(Marking::Lamp));
    assert!(st.has_lamp());
    st.set_marking(Some(Marking::Cross));
    assert!(!st.has_lamp());
    assert_eq!(st.marking, Some(Marking::Cross));
    let lit = FreeState { lit_from_c: true, ..FreeState::default() };
    assert!(lit.is_lit());
    for s in SIDES {
        assert_eq!(lit.is_lit_from(s), s == Side::C);
    }
}

#[test]
fn next_marking_per_mode() {
    let lamp = Some(Marking::Lamp);
    let cross = Some(Marking::Cross);
    assert_eq!(InputMode::Light.next_marking(None, false), lamp);
    assert_eq!(InputMode::Light.next_marking(cross, false), lamp);
    assert_eq!(InputMode::Light.next_marking(lamp, false), None);
    assert_eq!(InputMode::Light.next_marking(None, true), None);
    assert_eq!(InputMode::Light.next_marking(cross, true), cross);
    assert_eq!(InputMode::Cross.next_marking(None, false), cross);
    assert_eq!(InputMode::Cross.next_marking(lamp, false), cross);
    assert_eq!(InputMode::Cross.next_marking(cross, true), None);
    assert_eq!(InputMode::Clear.next_marking(lamp, false), None);
    assert_eq!(InputMode::Clear.next_marking(cross, true), None);
}

#[test]
fn wall_state_from_optional_count() {
    assert_eq!(WallState::from(Some(2u8)), WallState::Constrained(Constraint::Equal(2)));
    assert_eq!(WallState::from(None), WallState::Unconstrained);
}
