use rokkakari::board::{Board, InputMode, LayoutError};
use rokkakari::cell::{Cell, Constraint, FreeState, Marking, Side, WallState};

const SIDES: [Side; 6] = [Side::A, Side::B, Side::C, Side::D, Side::E, Side::F];

fn free() -> Option<Cell> {
    Some(Cell::Free(FreeState::default()))
}

fn wall() -> Option<Cell> {
    Some(Cell::Wall(WallState::Unconstrained))
}

fn wall_of(n: u8) -> Option<Cell> {
    Some(Cell::Wall(WallState::Constrained(Constraint::Equal(n))))
}

fn open_board(width: usize, height: usize) -> Board {
    Board::load(vec![vec![free(); width]; height]).unwrap()
}

fn state(board: &Board, x: usize, y: usize) -> FreeState {
    match board.get_cell((x, y)) {
        Some(Cell::Free(st)) => st,
        other => panic!("no free cell at ({}, {}): {:?}", x, y, other),
    }
}

/// The sides from which the free cell at `(x, y)` is lit.
fn lit_sides(board: &Board, x: usize, y: usize) -> Vec<Side> {
    let st = state(board, x, y);
    SIDES.iter().copied().filter(|s| st.is_lit_from(*s)).collect()
}

#[test]
fn load_rejects_ragged_rows() {
    let r = Board::load(vec![vec![free(), free()], vec![free()]]);
    assert!(matches!(r, Err(LayoutError::RaggedRows)));
}

#[test]
fn load_rejects_constraint_above_three() {
    let r = Board::load(vec![vec![free(), wall_of(4)]]);
    assert!(matches!(r, Err(LayoutError::InvalidConstraint)));
    assert!(Board::load(vec![vec![free(), wall_of(3)]]).is_ok());
}

#[test]
fn load_reports_ragged_rows_first() {
    let r = Board::load(vec![vec![wall_of(9), free()], vec![free()]]);
    assert!(matches!(r, Err(LayoutError::RaggedRows)));
}

#[test]
fn load_accepts_empty_layout() {
    let board = Board::load(Vec::new()).unwrap();
    assert_eq!(board.get_cell((0, 0)), None);
    assert!(board.is_solved());
}

#[test]
fn get_cell_outside_and_absent() {
    let board = Board::load(vec![vec![free(), None], vec![wall(), free()]]).unwrap();
    assert_eq!(board.get_cell((0, 0)), free());
    assert_eq!(board.get_cell((1, 0)), None);
    assert_eq!(board.get_cell((0, 1)), wall());
    assert_eq!(board.get_cell((2, 0)), None);
    assert_eq!(board.get_cell((0, 2)), None);
    assert_eq!(board.get_cell((usize::MAX, usize::MAX)), None);
}

#[test]
fn lamp_lights_an_even_row() {
    let mut board = open_board(3, 1);
    board.apply_input((0, 0), InputMode::Light);
    assert!(state(&board, 0, 0).has_lamp());
    assert!(!state(&board, 0, 0).is_lit());
    assert_eq!(lit_sides(&board, 1, 0), vec![Side::E]);
    assert_eq!(lit_sides(&board, 2, 0), vec![Side::E]);
    board.apply_input((0, 0), InputMode::Light);
    assert_eq!(state(&board, 0, 0).marking, None);
    assert_eq!(lit_sides(&board, 1, 0), Vec::<Side>::new());
    assert_eq!(lit_sides(&board, 2, 0), Vec::<Side>::new());
}

#[test]
fn lamp_lights_all_six_rays_on_an_open_board() {
    let mut board = open_board(5, 5);
    board.apply_input((2, 2), InputMode::Light);
    // Each ray from (2, 2), and the flag its cells get.
    let rays: [(Side, [(usize, usize); 2]); 6] = [
        (Side::D, [(2, 1), (3, 0)]),
        (Side::E, [(3, 2), (4, 2)]),
        (Side::F, [(2, 3), (3, 4)]),
        (Side::A, [(1, 3), (1, 4)]),
        (Side::B, [(1, 2), (0, 2)]),
        (Side::C, [(1, 1), (1, 0)]),
    ];
    let mut on_ray = Vec::new();
    for (flag, cells) in rays {
        for (x, y) in cells {
            assert_eq!(lit_sides(&board, x, y), vec![flag]);
            on_ray.push((x, y));
        }
    }
    for y in 0..5 {
        for x in 0..5 {
            if (x, y) != (2, 2) && !on_ray.contains(&(x, y)) {
                assert_eq!(lit_sides(&board, x, y), Vec::<Side>::new(), "({}, {})", x, y);
            }
        }
    }
}

#[test]
fn lamp_in_odd_row_uses_shifted_neighbours() {
    let mut board = open_board(2, 3);
    board.apply_input((0, 1), InputMode::Light);
    assert_eq!(lit_sides(&board, 1, 0), vec![Side::D]);
    assert_eq!(lit_sides(&board, 0, 0), vec![Side::C]);
    assert_eq!(lit_sides(&board, 1, 2), vec![Side::F]);
    assert_eq!(lit_sides(&board, 0, 2), vec![Side::A]);
    assert_eq!(lit_sides(&board, 1, 1), vec![Side::E]);
}

#[test]
fn wall_stops_light() {
    let mut board = Board::load(vec![vec![free(), free(), wall(), free(), free()]]).unwrap();
    board.apply_input((0, 0), InputMode::Light);
    assert_eq!(lit_sides(&board, 1, 0), vec![Side::E]);
    assert!(!state(&board, 3, 0).is_lit());
    assert!(!state(&board, 4, 0).is_lit());
}

#[test]
fn absent_cell_stops_light() {
    let mut board = Board::load(vec![vec![free(), None, free()]]).unwrap();
    board.apply_input((0, 0), InputMode::Light);
    assert!(!state(&board, 2, 0).is_lit());
}

#[test]
fn place_then_remove_restores_flags() {
    let mut board = open_board(4, 4);
    board.apply_input((0, 0), InputMode::Light);
    let before: Vec<Option<Cell>> = (0..16).map(|i| board.get_cell((i % 4, i / 4))).collect();
    board.apply_input((2, 2), InputMode::Light);
    assert!(state(&board, 2, 2).has_lamp());
    board.apply_input((2, 2), InputMode::Light);
    let after: Vec<Option<Cell>> = (0..16).map(|i| board.get_cell((i % 4, i / 4))).collect();
    assert_eq!(before, after);
}

#[test]
fn lamp_is_not_placed_on_a_lit_cell() {
    let mut board = open_board(3, 1);
    board.apply_input((0, 0), InputMode::Light);
    board.apply_input((2, 0), InputMode::Light);
    assert_eq!(state(&board, 2, 0).marking, None);
    assert!(!state(&board, 0, 0).is_lit());
    assert_eq!(lit_sides(&board, 2, 0), vec![Side::E]);
}

#[test]
fn cross_over_lamp_withdraws_light() {
    let mut board = open_board(3, 1);
    board.apply_input((1, 0), InputMode::Light);
    assert_eq!(lit_sides(&board, 0, 0), vec![Side::B]);
    board.apply_input((1, 0), InputMode::Cross);
    assert_eq!(state(&board, 1, 0).marking, Some(Marking::Cross));
    assert!(!state(&board, 0, 0).is_lit());
    assert!(!state(&board, 2, 0).is_lit());
    board.apply_input((1, 0), InputMode::Cross);
    assert_eq!(state(&board, 1, 0).marking, None);
}

#[test]
fn cross_on_lit_cell_keeps_light() {
    let mut board = open_board(3, 1);
    board.apply_input((1, 0), InputMode::Light);
    board.apply_input((2, 0), InputMode::Cross);
    assert_eq!(state(&board, 2, 0).marking, Some(Marking::Cross));
    assert_eq!(lit_sides(&board, 0, 0), vec![Side::B]);
    assert_eq!(lit_sides(&board, 2, 0), vec![Side::E]);
    board.apply_input((2, 0), InputMode::Clear);
    assert_eq!(state(&board, 2, 0).marking, None);
    assert_eq!(lit_sides(&board, 0, 0), vec![Side::B]);
}

#[test]
fn clear_removes_lamp() {
    let mut board = open_board(2, 1);
    board.apply_input((0, 0), InputMode::Light);
    board.apply_input((0, 0), InputMode::Clear);
    assert_eq!(state(&board, 0, 0).marking, None);
    assert!(!state(&board, 1, 0).is_lit());
}

#[test]
fn input_on_wall_or_absent_does_nothing() {
    let mut board = Board::load(vec![vec![wall_of(1), None, free()]]).unwrap();
    board.apply_input((0, 0), InputMode::Light);
    board.apply_input((1, 0), InputMode::Light);
    board.apply_input((7, 7), InputMode::Cross);
    assert_eq!(board.get_cell((0, 0)), wall_of(1));
    assert_eq!(board.get_cell((1, 0)), None);
    assert_eq!(board.get_cell((2, 0)), free());
}

#[test]
fn fresh_board_is_not_solved() {
    let board = open_board(3, 2);
    assert!(!board.is_solved());
}

#[test]
fn lit_board_with_matching_walls_is_solved() {
    let mut board = Board::load(vec![vec![wall_of(1), free(), free()]]).unwrap();
    assert!(!board.is_solved());
    board.apply_input((1, 0), InputMode::Light);
    assert!(board.is_solved());
}

#[test]
fn wall_count_must_match_exactly() {
    let mut board = Board::load(vec![vec![wall_of(2), free(), free()]]).unwrap();
    board.apply_input((1, 0), InputMode::Light);
    assert!(!board.is_solved());
    let mut zero = Board::load(vec![vec![wall_of(0), free(), free()]]).unwrap();
    zero.apply_input((2, 0), InputMode::Light);
    assert!(zero.is_solved());
    zero.apply_input((2, 0), InputMode::Light);
    zero.apply_input((1, 0), InputMode::Light);
    assert!(!zero.is_solved());
}

#[test]
fn wall_counts_lamps_in_shifted_rows() {
    // The wall at (0, 1) in an odd row touches (0, 0), (1, 0), (1, 1),
    // (1, 2) and (0, 2).
    let mut board = Board::load(vec![
        vec![free(), free()],
        vec![wall_of(2), free()],
        vec![free(), free()],
    ])
    .unwrap();
    board.apply_input((0, 0), InputMode::Light);
    board.apply_input((1, 2), InputMode::Light);
    assert!(!state(&board, 0, 0).is_lit());
    assert!(!state(&board, 1, 2).is_lit());
    assert!(state(&board, 1, 0).is_lit());
    assert!(state(&board, 0, 2).is_lit());
    assert!(state(&board, 1, 1).is_lit());
    assert!(board.is_solved());
}

#[test]
fn load_rejects_lit_lamps() {
    let lamp_lit = FreeState {
        marking: Some(Marking::Lamp),
        lit_from_b: true,
        ..FreeState::default()
    };
    let lamp = FreeState { marking: Some(Marking::Lamp), lit_from_e: true, ..FreeState::default() };
    let r = Board::load(vec![vec![Some(Cell::Free(lamp_lit)), Some(Cell::Free(lamp))]]);
    assert!(matches!(r, Err(LayoutError::InconsistentLight)));
}

#[test]
fn load_rejects_flags_without_a_lamp() {
    let lit = FreeState { lit_from_e: true, ..FreeState::default() };
    let r = Board::load(vec![vec![free(), Some(Cell::Free(lit))]]);
    assert!(matches!(r, Err(LayoutError::InconsistentLight)));
}

#[test]
fn load_rejects_missing_flags() {
    let lamp = FreeState { marking: Some(Marking::Lamp), ..FreeState::default() };
    let r = Board::load(vec![vec![Some(Cell::Free(lamp)), free()]]);
    assert!(matches!(r, Err(LayoutError::InconsistentLight)));
}

#[test]
fn load_accepts_a_lit_layout_and_it_plays_on() {
    let lamp = FreeState { marking: Some(Marking::Lamp), ..FreeState::default() };
    let lit = FreeState { lit_from_e: true, ..FreeState::default() };
    let mut board = Board::load(vec![vec![Some(Cell::Free(lamp)), Some(Cell::Free(lit)), wall_of(0)]]).unwrap();
    assert!(board.is_solved());
    board.apply_input((0, 0), InputMode::Light);
    assert_eq!(board.get_cell((1, 0)), free());
}

#[test]
fn light_passes_a_lamp_on_its_ray() {
    // The lamp at x = 2 is placed first; x = 0 is then lit, so no second
    // lamp goes there, and the light of x = 2 crosses x = 1 to reach x = 0.
    let mut board = open_board(3, 1);
    board.apply_input((2, 0), InputMode::Light);
    assert_eq!(lit_sides(&board, 1, 0), vec![Side::B]);
    assert_eq!(lit_sides(&board, 0, 0), vec![Side::B]);
}
