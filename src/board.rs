//! The game board and its operations.

use crate::cell::{Cell, Constraint, Marking, Side, WallState};
use crate::grid::{
    after_input, agrees_at, cell_at, clear_between, consistent, cell_solved, constraints_valid, grid_of, in_ray, is_free, is_lamp,
    lamps_around, lemma_cast_off_board, lit_at, sees_lamp, lemma_cast_relit, lemma_relit_none, lemma_step_injective,
    lemma_input_keeps_consistent, lemma_input_keeps_well_formed, lemma_walk_from_neighbour, neighbour, next_marking, ray_clear, rectangular, relight, relit_grid,
    solved, step, walk_lit, well_formed, with_marking, Grid, Pos,
};
use vstd::prelude::*;

verus! {

/// What an input on a free cell does.
#[derive(Clone, Copy, Debug, PartialEq, Eq, Structural)]
pub enum InputMode {
    /// Places a lamp, or removes one that is there.
    Light,
    /// Places a cross, or removes one that is there.
    Cross,
    /// Removes any marking.
    Clear,
}

impl InputMode {
    /// The marking that an input in this mode leaves on a free cell that
    /// holds `marking` and is lit (or not) as `lit` says.
    pub fn next_marking(&self, marking: Option<Marking>, lit: bool) -> (r: Option<Marking>)
        ensures
            r == next_marking(marking, lit, *self),
    {
        match self {
            InputMode::Light => match marking {
                Some(Marking::Lamp) => None,
                _ => if lit {
                    marking
                } else {
                    Some(Marking::Lamp)
                },
            },
            InputMode::Cross => match marking {
                Some(Marking::Cross) => None,
                _ => Some(Marking::Cross),
            },
            InputMode::Clear => None,
        }
    }
}

/// Why a layout cannot become a board.
#[derive(Clone, Copy, Debug, PartialEq, Eq, Structural)]
pub enum LayoutError {
    /// The rows do not all have the same length.
    RaggedRows,
    /// A wall asks for more lamps than can stand around it.
    InvalidConstraint,
    /// The light flags disagree with the lamps, or a lamp is lit.
    InconsistentLight,
}

/// A game board: rows of optional cells, `None` where a position lies
/// outside the puzzle.
pub struct Board {
    cells: Vec<Vec<Option<Cell>>>,
}

impl View for Board {
    type V = Grid;

    closed spec fn view(&self) -> Grid {
        grid_of(self.cells@)
    }
}

/// How far a walk from `cur` across `s` can still go before it leaves `g`.
spec fn walk_measure(g: Grid, cur: Option<(usize, usize)>, s: Side) -> int {
    match cur {
        Some(c) => if (c.1 as int) < g.len() && (c.0 as int) < g[c.1 as int].len() {
            match s {
                Side::A | Side::F => c.1 + 1,
                Side::C | Side::D => g.len() - c.1,
                Side::B => g[c.1 as int].len() - c.0,
                Side::E => c.0 + 1,
            }
        } else {
            0
        },
        None => 0,
    }
}

/// The position `c` as a pair of integers.
pub open spec fn pos(c: (usize, usize)) -> Pos {
    (c.0 as int, c.1 as int)
}

/// The place of `s` in the order `A` to `F`.
spec fn side_index(s: Side) -> int {
    match s {
        Side::A => 0,
        Side::B => 1,
        Side::C => 2,
        Side::D => 3,
        Side::E => 4,
        Side::F => 5,
    }
}

/// Whether `q` is one of the first `k` positions of the ray from `p`
/// across `s`, `p` itself included.
spec fn walked(p: Pos, s: Side, k: nat, q: Pos) -> bool {
    exists|j: nat| j < k && #[trigger] step(p, s, j) == q
}

impl Board {
    /// The position next to `position` across `side`, or `None` where a
    /// coordinate would be negative.
    fn get_neighbour_position(position: (usize, usize), side: Side) -> (r: Option<(usize, usize)>)
        requires
            position.0 < usize::MAX,
            position.1 < usize::MAX,
        ensures
            r matches Some(q) ==> pos(q) == neighbour(pos(position), side),
            r is None <==> neighbour(pos(position), side).0 < 0 || neighbour(pos(position), side).1 < 0,
    {
        let (x, y) = position;
        let even = y % 2 == 0;
        match side {
            Side::A => if y == 0 {
                None
            } else {
                Some((if even { x } else { x + 1 }, y - 1))
            },
            Side::B => Some((x + 1, y)),
            Side::C => Some((if even { x } else { x + 1 }, y + 1)),
            Side::D => if even && x == 0 {
                None
            } else {
                Some((if even { x - 1 } else { x }, y + 1))
            },
            Side::E => if x == 0 {
                None
            } else {
                Some((x - 1, y))
            },
            Side::F => if y == 0 || (even && x == 0) {
                None
            } else {
                Some((if even { x - 1 } else { x }, y - 1))
            },
        }
    }

    /// The cell at `position`, or `None` where the position is outside the
    /// board or outside the puzzle.
    pub fn get_cell(&self, position: (usize, usize)) -> (r: Option<Cell>)
        ensures
            r == cell_at(self@, pos(position)),
    {
        let (x, y) = position;
        if y < self.cells.len() && x < self.cells[y].len() {
            self.cells[y][x]
        } else {
            None
        }
    }

    /// The cell next to `position` across `side`, if there is one.
    fn get_neighbour(&self, position: (usize, usize), side: Side) -> (r: Option<Cell>)
        requires
            position.0 < usize::MAX,
            position.1 < usize::MAX,
        ensures
            r == cell_at(self@, neighbour(pos(position), side)),
    {
        match Self::get_neighbour_position(position, side) {
            Some(q) => self.get_cell(q),
            None => None,
        }
    }

    /// Replaces the cell at `(x, y)`.
    fn set_cell(&mut self, x: usize, y: usize, c: Option<Cell>)
        requires
            y < old(self)@.len(),
            x < old(self)@[y as int].len(),
        ensures
            final(self)@ == old(self)@.update(y as int, old(self)@[y as int].update(x as int, c)),
    {
        self.cells[y][x] = c;
        assert(self@ =~~= old(self)@.update(y as int, old(self)@[y as int].update(x as int, c)));
    }

    /// Walks from `position` across `side`, the cell at `position`
    /// included, and sets (`on`) or clears the flag of `side.opp()` on every
    /// free cell until the first wall, absent cell or edge of the board.
    fn walk(&mut self, position: (usize, usize), side: Side, on: bool)
        ensures
            final(self)@ == walk_lit(old(self)@, pos(position), side, on),
    {
        let ghost g = self@;
        let ghost p = pos(position);
        let ghost mut k: nat = 0;
        let flag = side.opposite();
        let mut cur = Some(position);
        assert(step(p, side, 0) == p);
        loop
            invariant
                self@.len() == g.len(),
                forall|y: int| 0 <= y < g.len() ==> #[trigger] self@[y].len() == g[y].len(),
                flag == side.opp(),
                p == pos(position),
                cur matches Some(c) ==> pos(c) == step(p, side, k),
                cur is None ==> step(p, side, k).0 < 0 || step(p, side, k).1 < 0,
                ray_clear(g, p, side, k),
                forall|y: int, x: int|
                    0 <= y < g.len() && 0 <= x < g[y].len() ==> #[trigger] self@[y][x] == if walked(p, side, k, (x, y)) {
                        match g[y][x] {
                            Some(Cell::Free(st)) => Some(Cell::Free(st.with_lit(flag, on))),
                            c => c,
                        }
                    } else {
                        g[y][x]
                    },
            ensures
                !is_free(g, step(p, side, k)),
                ray_clear(g, p, side, k),
                self@.len() == g.len(),
                forall|y: int| 0 <= y < g.len() ==> #[trigger] self@[y].len() == g[y].len(),
                forall|y: int, x: int|
                    0 <= y < g.len() && 0 <= x < g[y].len() ==> #[trigger] self@[y][x] == if walked(p, side, k, (x, y)) {
                        match g[y][x] {
                            Some(Cell::Free(st)) => Some(Cell::Free(st.with_lit(flag, on))),
                            c => c,
                        }
                    } else {
                        g[y][x]
                    },
            decreases walk_measure(g, cur, side),
        {
            let c = match cur {
                Some(c) => c,
                None => break,
            };
            let (x, y) = c;
            if y >= self.cells.len() {
                break;
            }
            assert(self.cells[y as int]@ == self@[y as int]);
            if x >= self.cells[y].len() {
                break;
            }
            let here = self.cells[y][x];
            assert(here == self@[y as int][x as int]);
            let mut st = match here {
                Some(Cell::Free(st)) => st,
                _ => {
                    proof {
                        if walked(p, side, k, (x as int, y as int)) {
                            let j = choose|j: nat| j < k && #[trigger] step(p, side, j) == (x as int, y as int);
                            lemma_step_injective(p, side, j, k);
                        }
                    }
                    break;
                },
            };
            proof {
                if walked(p, side, k, (x as int, y as int)) {
                    let j = choose|j: nat| j < k && #[trigger] step(p, side, j) == (x as int, y as int);
                    lemma_step_injective(p, side, j, k);
                }
            }
            if on {
                st.add_illuminated_side(flag);
            } else {
                st.remove_illuminated_side(flag);
            }
            self.set_cell(x, y, Some(Cell::Free(st)));
            cur = Self::get_neighbour_position(c, side);
            proof {
                let q = step(p, side, k);
                assert(is_free(g, q));
                k = k + 1;
                assert(ray_clear(g, p, side, k)) by {
                    assert forall|i: nat| i < k implies is_free(g, #[trigger] step(p, side, i)) by {
                        if i < k - 1 {
                        }
                    }
                }
                assert forall|yy: int, xx: int|
                    0 <= yy < g.len() && 0 <= xx < g[yy].len() implies #[trigger] self@[yy][xx] == if walked(p, side, k, (xx, yy)) {
                        match g[yy][xx] {
                            Some(Cell::Free(st)) => Some(Cell::Free(st.with_lit(flag, on))),
                            c => c,
                        }
                    } else {
                        g[yy][xx]
                    } by {
                    if (xx, yy) == q {
                        assert(step(p, side, (k - 1) as nat) == q);
                        assert(walked(p, side, k, (xx, yy)));
                    } else {
                        if walked(p, side, k, (xx, yy)) {
                            let j = choose|j: nat| j < k && #[trigger] step(p, side, j) == (xx, yy);
                            assert(j != k - 1);
                            assert(walked(p, side, (k - 1) as nat, (xx, yy)));
                        }
                        if walked(p, side, (k - 1) as nat, (xx, yy)) {
                            let j = choose|j: nat| j < k - 1 && #[trigger] step(p, side, j) == (xx, yy);
                            assert(walked(p, side, k, (xx, yy)));
                        }
                    }
                }
            }
        }
        proof {
            let h = walk_lit(g, p, side, on);
            assert forall|yy: int, xx: int| 0 <= yy < g.len() && 0 <= xx < g[yy].len() implies
                self@[yy][xx] == h[yy][xx] by {
                let q = (xx, yy);
                if walked(p, side, k, q) {
                    let j = choose|j: nat| j < k && #[trigger] step(p, side, j) == q;
                    assert(ray_clear(g, p, side, j + 1));
                    assert(in_ray(g, p, side, q));
                } else if in_ray(g, p, side, q) {
                    let j = choose|j: nat| #[trigger] step(p, side, j) == q && ray_clear(g, p, side, j + 1);
                    if j < k {
                        assert(walked(p, side, k, q));
                    } else {
                        assert(is_free(g, step(p, side, k)));
                    }
                }
            }
            assert(self@ =~~= h);
        }
    }

    /// Lengths of the rows fit in `usize`.
    proof fn lemma_sizes(&self)
        ensures
            self@.len() <= usize::MAX,
            forall|y: int| 0 <= y < self@.len() ==> #[trigger] self@[y].len() <= usize::MAX,
    {
        assert(self.cells@.len() == self.cells.len());
        assert forall|y: int| 0 <= y < self@.len() implies #[trigger] self@[y].len() <= usize::MAX by {
            assert(self@[y] == self.cells@[y]@);
            assert(self.cells@[y]@.len() == self.cells@[y].len());
        }
    }

    /// Lights the cells of the ray from `position` across `side`: starting
    /// at `position` itself, every free cell gets the flag of `side.opp()`,
    /// up to the first wall, absent cell or edge of the board. Lamps on the
    /// way do not stop the light.
    fn illuminate(&mut self, position: (usize, usize), side: Side)
        ensures
            final(self)@ == walk_lit(old(self)@, pos(position), side, true),
    {
        self.walk(position, side, true);
    }

    /// Shadows the cells of the ray from `position` across `side`: starting
    /// at `position` itself, every free cell loses the flag of `side.opp()`,
    /// up to the first wall, absent cell or edge of the board.
    fn shadow(&mut self, position: (usize, usize), side: Side)
        ensures
            final(self)@ == walk_lit(old(self)@, pos(position), side, false),
    {
        self.walk(position, side, false);
    }

    /// Brings the light flags up to date with the cell at `position`: if it
    /// holds a lamp its light is cast across all six sides, otherwise the
    /// light it would cast is withdrawn. Does nothing unless the cell is free.
    fn update(&mut self, position: (usize, usize))
        ensures
            match cell_at(old(self)@, pos(position)) {
                Some(Cell::Free(st)) => final(self)@ == relight(old(self)@, pos(position), st.has_lamp_spec()),
                _ => final(self)@ == old(self)@,
            },
    {
        let st = match self.get_cell(position) {
            Some(Cell::Free(st)) => st,
            _ => return,
        };
        proof {
            self.lemma_sizes();
        }
        let lamp = st.has_lamp();
        let ghost g = self@;
        let ghost p = pos(position);
        let ghost mut done = Set::<Side>::empty();
        proof {
            lemma_relit_none(g, p, lamp);
        }
        let sides = Side::all();
        let mut i: usize = 0;
        while i < sides.len()
            invariant
                sides@ == seq![Side::A, Side::B, Side::C, Side::D, Side::E, Side::F],
                i <= 6,
                position.0 < usize::MAX,
                position.1 < usize::MAX,
                p == pos(position),
                self@ == relit_grid(g, p, lamp, done),
                forall|s: Side| #[trigger] done.contains(s) <==> side_index(s) < i,
            decreases 6 - i,
        {
            let side = sides[i];
            proof {
                lemma_cast_relit(g, p, lamp, done, side);
                lemma_walk_from_neighbour(self@, p, side, lamp);
                done = done.insert(side);
            }
            match Self::get_neighbour_position(position, side) {
                Some(next) => if lamp {
                    self.illuminate(next, side);
                } else {
                    self.shadow(next, side);
                },
                None => {
                    proof {
                        lemma_cast_off_board(self@, p, side, lamp);
                    }
                },
            }
            i = i + 1;
        }
        assert(done =~= crate::cell::all_sides());
    }

    /// Applies an input in `mode` to the cell at `position`.
    ///
    /// On a free cell the marking changes: `Light` places a lamp or removes
    /// the one there, `Cross` places a cross or removes the one there, and
    /// `Clear` removes any marking. A lamp is not placed on a lit cell, as it
    /// would light another lamp. When a lamp appears or disappears, the
    /// light flags of the board are brought up to date before returning. On
    /// a wall, or where there is no cell, nothing changes.
    pub fn apply_input(&mut self, position: (usize, usize), mode: InputMode)
        ensures
            final(self)@ == after_input(old(self)@, pos(position), mode),
            well_formed(old(self)@) ==> well_formed(final(self)@),
            consistent(old(self)@) ==> consistent(final(self)@),
    {
        proof {
            if well_formed(self@) {
                lemma_input_keeps_well_formed(self@, pos(position), mode);
            }
            if consistent(self@) {
                lemma_input_keeps_consistent(self@, pos(position), mode);
            }
        }
        let (x, y) = position;
        let st = match self.get_cell(position) {
            Some(Cell::Free(st)) => st,
            _ => return,
        };
        let marking = mode.next_marking(st.marking, st.is_lit());
        let had_lamp = st.has_lamp();
        let mut next = st;
        next.set_marking(marking);
        self.set_cell(x, y, Some(Cell::Free(next)));
        assert(self@ == with_marking(old(self)@, pos(position), marking));
        if next.has_lamp() != had_lamp {
            self.update(position);
        }
    }

    /// Builds a board from its rows, each a sequence of optional cells.
    ///
    /// Fails with `RaggedRows` when the rows differ in length; otherwise with
    /// `InvalidConstraint` when a wall asks for more than three lamps;
    /// otherwise with `InconsistentLight` when a free cell's light flags
    /// disagree with the lamps it sees, or a lamp is lit.
    pub fn load(rows: Vec<Vec<Option<Cell>>>) -> (r: Result<Board, LayoutError>)
        ensures
            match r {
                Ok(b) => well_formed(grid_of(rows@)) && consistent(grid_of(rows@)) && b@ == grid_of(rows@),
                Err(LayoutError::RaggedRows) => !rectangular(grid_of(rows@)),
                Err(LayoutError::InvalidConstraint) => rectangular(grid_of(rows@)) && !constraints_valid(grid_of(rows@)),
                Err(LayoutError::InconsistentLight) => well_formed(grid_of(rows@)) && !consistent(grid_of(rows@)),
            },
    {
        let ghost g = grid_of(rows@);
        let mut y: usize = 0;
        while y < rows.len()
            invariant
                g == grid_of(rows@),
                y <= rows.len(),
                forall|yy: int| 0 <= yy < y ==> #[trigger] g[yy].len() == g[0].len(),
            decreases rows.len() - y,
        {
            assert(rows@[y as int]@ == g[y as int]);
            assert(rows@[0]@ == g[0]);
            if rows[y].len() != rows[0].len() {
                return Err(LayoutError::RaggedRows);
            }
            y = y + 1;
        }
        let mut y: usize = 0;
        while y < rows.len()
            invariant
                g == grid_of(rows@),
                rectangular(g),
                y <= rows.len(),
                forall|yy: int, xx: int|
                    0 <= yy < y && 0 <= xx < g[yy].len() ==> match #[trigger] g[yy][xx] {
                        Some(c) => c.valid(),
                        None => true,
                    },
            decreases rows.len() - y,
        {
            assert(rows@[y as int]@ == g[y as int]);
            let mut x: usize = 0;
            while x < rows[y].len()
                invariant
                    g == grid_of(rows@),
                    rectangular(g),
                    y < rows.len(),
                    x <= g[y as int].len(),
                    rows@[y as int]@ == g[y as int],
                    forall|yy: int, xx: int|
                        0 <= yy < y && 0 <= xx < g[yy].len() ==> match #[trigger] g[yy][xx] {
                            Some(c) => c.valid(),
                            None => true,
                        },
                    forall|xx: int| 0 <= xx < x ==> match #[trigger] g[y as int][xx] {
                        Some(c) => c.valid(),
                        None => true,
                    },
                decreases g[y as int].len() - x,
            {
                let valid = match rows[y][x] {
                    Some(Cell::Wall(w)) => w.is_valid(),
                    _ => true,
                };
                if !valid {
                    assert(!constraints_valid(g)) by {
                        assert(g[y as int][x as int] == rows@[y as int]@[x as int]);
                    }
                    return Err(LayoutError::InvalidConstraint);
                }
                x = x + 1;
            }
            y = y + 1;
        }
        let board = Board { cells: rows };
        if !board.light_agrees() {
            return Err(LayoutError::InconsistentLight);
        }
        Ok(board)
    }

    /// Whether a lamp is seen from `position` across `side`, past free
    /// cells only.
    fn sees_lamp(&self, position: (usize, usize), side: Side) -> (r: bool)
        requires
            position.0 < usize::MAX,
            position.1 < usize::MAX,
        ensures
            r == sees_lamp(self@, pos(position), side),
    {
        proof {
            self.lemma_sizes();
        }
        let ghost g = self@;
        let ghost p = pos(position);
        let ghost mut k: nat = 1;
        let mut cur = Self::get_neighbour_position(position, side);
        assert(step(p, side, 0) == p);
        assert(step(p, side, 1) == neighbour(p, side));
        loop
            invariant
                g == self@,
                p == pos(position),
                g.len() <= usize::MAX,
                forall|yy: int| 0 <= yy < g.len() ==> #[trigger] g[yy].len() <= usize::MAX,
                k >= 1,
                cur matches Some(c) ==> pos(c) == step(p, side, k),
                cur is None ==> step(p, side, k).0 < 0 || step(p, side, k).1 < 0,
                clear_between(g, p, side, k),
                forall|j: nat| 1 <= j < k ==> !is_lamp(g, #[trigger] step(p, side, j)),
            ensures
                k >= 1,
                clear_between(g, p, side, k),
                forall|j: nat| 1 <= j < k ==> !is_lamp(g, #[trigger] step(p, side, j)),
                !is_free(g, step(p, side, k)),
            decreases walk_measure(g, cur, side),
        {
            let c = match cur {
                Some(c) => c,
                None => break,
            };
            let st = match self.get_cell(c) {
                Some(Cell::Free(st)) => st,
                _ => break,
            };
            if st.has_lamp() {
                assert(is_lamp(g, step(p, side, k)));
                return true;
            }
            cur = Self::get_neighbour_position(c, side);
            proof {
                k = k + 1;
                assert forall|i: nat| 1 <= i < k implies is_free(g, #[trigger] step(p, side, i)) by {
                    if i < k - 1 {
                    }
                }
            }
        }
        proof {
            if sees_lamp(g, p, side) {
                let j = choose|j: nat| 1 <= j && clear_between(g, p, side, j) && is_lamp(g, #[trigger] step(p, side, j));
                if j > k {
                    assert(is_free(g, step(p, side, k)));
                }
            }
        }
        false
    }

    /// Whether the light flags of the cell at `position` agree with the
    /// lamps.
    fn agrees_at(&self, position: (usize, usize)) -> (r: bool)
        requires
            position.0 < usize::MAX,
            position.1 < usize::MAX,
        ensures
            r == agrees_at(self@, pos(position)),
    {
        let st = match self.get_cell(position) {
            Some(Cell::Free(st)) => st,
            _ => return true,
        };
        let lamp = st.has_lamp();
        let sides = Side::all();
        let mut i: usize = 0;
        while i < 6
            invariant
                sides@ == seq![Side::A, Side::B, Side::C, Side::D, Side::E, Side::F],
                i <= 6,
                cell_at(self@, pos(position)) == Some(Cell::Free(st)),
                lamp == st.has_lamp_spec(),
                position.0 < usize::MAX,
                position.1 < usize::MAX,
                forall|t: Side| side_index(t) < i ==> (#[trigger] st.lit_from(t) == sees_lamp(self@, pos(position), t) && !(lamp && st.lit_from(t))),
            decreases 6 - i,
        {
            let side = sides[i];
            let lit = st.is_lit_from(side);
            if lit != self.sees_lamp(position, side) || (lamp && lit) {
                assert(!agrees_at(self@, pos(position))) by {
                    assert(lit_at(self@, pos(position), side) == lit);
                }
                return false;
            }
            i = i + 1;
        }
        assert forall|t: Side| (is_free(self@, pos(position)) ==> #[trigger] lit_at(self@, pos(position), t) == sees_lamp(self@, pos(position), t))
            && (is_lamp(self@, pos(position)) ==> !lit_at(self@, pos(position), t)) by {
            assert(side_index(t) < 6);
        }
        true
    }

    /// Whether the light flags of every cell agree with the lamps.
    fn light_agrees(&self) -> (r: bool)
        ensures
            r == consistent(self@),
    {
        proof {
            self.lemma_sizes();
        }
        let mut y: usize = 0;
        while y < self.cells.len()
            invariant
                y <= self@.len(),
                self@.len() <= usize::MAX,
                forall|yy: int| 0 <= yy < self@.len() ==> #[trigger] self@[yy].len() <= usize::MAX,
                forall|yy: int, xx: int| 0 <= yy < y && 0 <= xx < self@[yy].len() ==> #[trigger] agrees_at(self@, (xx, yy)),
            decreases self@.len() - y,
        {
            assert(self.cells[y as int]@ == self@[y as int]);
            let mut x: usize = 0;
            while x < self.cells[y].len()
                invariant
                    y < self@.len(),
                    x <= self@[y as int].len(),
                    self.cells[y as int]@ == self@[y as int],
                    self@.len() <= usize::MAX,
                    forall|yy: int| 0 <= yy < self@.len() ==> #[trigger] self@[yy].len() <= usize::MAX,
                    forall|yy: int, xx: int| 0 <= yy < y && 0 <= xx < self@[yy].len() ==> #[trigger] agrees_at(self@, (xx, yy)),
                    forall|xx: int| 0 <= xx < x ==> #[trigger] agrees_at(self@, (xx, y as int)),
                decreases self@[y as int].len() - x,
            {
                if !self.agrees_at((x, y)) {
                    assert(!consistent(self@)) by {
                        let q = (x as int, y as int);
                        let t = choose|t: Side| !((is_free(self@, q) ==> #[trigger] lit_at(self@, q, t) == sees_lamp(self@, q, t)) && (is_lamp(self@, q) ==> !lit_at(self@, q, t)));
                        assert(!((is_free(self@, q) ==> lit_at(self@, q, t) == sees_lamp(self@, q, t)) && (is_lamp(self@, q) ==> !lit_at(self@, q, t))));
                    }
                    return false;
                }
                x = x + 1;
            }
            y = y + 1;
        }
        assert(consistent(self@)) by {
            assert forall|q: Pos, t: Side| is_free(self@, q) implies #[trigger] lit_at(self@, q, t) == sees_lamp(self@, q, t) by {
                assert(agrees_at(self@, (q.0, q.1)));
            }
            assert forall|q: Pos, t: Side| is_lamp(self@, q) implies !#[trigger] lit_at(self@, q, t) by {
                assert(agrees_at(self@, (q.0, q.1)));
            }
        }
        true
    }

    /// One if the cell next to `position` across `side` holds a lamp, else
    /// zero.
    fn lamp_beside(&self, position: (usize, usize), side: Side) -> (r: u8)
        requires
            position.0 < usize::MAX,
            position.1 < usize::MAX,
        ensures
            r == (if is_lamp(self@, neighbour(pos(position), side)) { 1u8 } else { 0u8 }),
    {
        match self.get_neighbour(position, side) {
            Some(Cell::Free(st)) => if st.has_lamp() {
                1
            } else {
                0
            },
            _ => 0,
        }
    }

    /// Whether the cell at `position` meets the rules.
    fn cell_solved(&self, position: (usize, usize)) -> (r: bool)
        requires
            position.0 < usize::MAX,
            position.1 < usize::MAX,
        ensures
            r == cell_solved(self@, pos(position)),
    {
        match self.get_cell(position) {
            Some(Cell::Free(st)) => if st.has_lamp() {
                !st.is_lit()
            } else {
                st.is_lit()
            },
            Some(Cell::Wall(WallState::Constrained(Constraint::Equal(n)))) => {
                let count = self.lamp_beside(position, Side::A) + self.lamp_beside(position, Side::B)
                    + self.lamp_beside(position, Side::C) + self.lamp_beside(position, Side::D)
                    + self.lamp_beside(position, Side::E) + self.lamp_beside(position, Side::F);
                count == n
            },
            _ => true,
        }
    }

    /// Whether the board is a solved puzzle: every lamp is unlit, every
    /// other free cell is lit, and every constrained wall has exactly its
    /// number of lamps among its direct neighbours.
    pub fn is_solved(&self) -> (r: bool)
        ensures
            r == solved(self@),
    {
        proof {
            self.lemma_sizes();
        }
        let mut y: usize = 0;
        while y < self.cells.len()
            invariant
                y <= self@.len(),
                self@.len() <= usize::MAX,
                forall|yy: int| 0 <= yy < self@.len() ==> #[trigger] self@[yy].len() <= usize::MAX,
                forall|yy: int, xx: int| 0 <= yy < y && 0 <= xx < self@[yy].len() ==> #[trigger] cell_solved(self@, (xx, yy)),
            decreases self@.len() - y,
        {
            assert(self.cells[y as int]@ == self@[y as int]);
            let mut x: usize = 0;
            while x < self.cells[y].len()
                invariant
                    y < self@.len(),
                    x <= self@[y as int].len(),
                    self.cells[y as int]@ == self@[y as int],
                    self@.len() <= usize::MAX,
                    forall|yy: int| 0 <= yy < self@.len() ==> #[trigger] self@[yy].len() <= usize::MAX,
                    forall|yy: int, xx: int| 0 <= yy < y && 0 <= xx < self@[yy].len() ==> #[trigger] cell_solved(self@, (xx, yy)),
                    forall|xx: int| 0 <= xx < x ==> #[trigger] cell_solved(self@, (xx, y as int)),
                decreases self@[y as int].len() - x,
            {
                if !self.cell_solved((x, y)) {
                    return false;
                }
                x = x + 1;
            }
            y = y + 1;
        }
        true
    }
}

} // verus!
