//! The mathematical model of a board.
//!
//! A board is modelled as a sequence of rows of optional cells. A position
//! is a pair `(x, y)` of integers: positions outside the rows, including
//! those with a negative coordinate, hold no cell. Rows are laid out as an
//! offset ("brick wall") grid in which odd rows are shifted half a cell to
//! the right, so the neighbours above and below a cell depend on the parity
//! of its row.

use crate::board::InputMode;
use crate::cell::{Cell, Constraint, FreeState, Marking, Side, WallState};
use vstd::prelude::*;

verus! {

/// Rows of optional cells; `None` marks a position outside the puzzle.
pub type Grid = Seq<Seq<Option<Cell>>>;

/// A position `(x, y)`: column `x` of row `y`.
pub type Pos = (int, int);

/// The position next to `p` across side `s`.
pub open spec fn neighbour(p: Pos, s: Side) -> Pos {
    let (x, y) = p;
    let even = y % 2 == 0;
    match s {
        Side::A => (if even { x } else { x + 1 }, y - 1),
        Side::B => (x + 1, y),
        Side::C => (if even { x } else { x + 1 }, y + 1),
        Side::D => (if even { x - 1 } else { x }, y + 1),
        Side::E => (x - 1, y),
        Side::F => (if even { x - 1 } else { x }, y - 1),
    }
}

/// The position reached from `p` after `k` steps across side `s`.
pub open spec fn step(p: Pos, s: Side, k: nat) -> Pos
    decreases k,
{
    if k == 0 {
        p
    } else {
        neighbour(step(p, s, (k - 1) as nat), s)
    }
}

/// Crossing side `s` and then its opposite leads back.
pub proof fn lemma_neighbour_inverse(p: Pos, s: Side)
    ensures
        neighbour(neighbour(p, s), s.opp()) == p,
{
}

/// Each step across a side moves one coordinate by exactly one, always the
/// same way.
pub proof fn lemma_step_coordinates(p: Pos, s: Side, k: nat)
    ensures
        s == Side::A || s == Side::F ==> step(p, s, k).1 == p.1 - k,
        s == Side::C || s == Side::D ==> step(p, s, k).1 == p.1 + k,
        s == Side::B ==> step(p, s, k) == (p.0 + k, p.1),
        s == Side::E ==> step(p, s, k) == (p.0 - k, p.1),
    decreases k,
{
    if k > 0 {
        lemma_step_coordinates(p, s, (k - 1) as nat);
    }
}

/// A ray never comes back to a position it has passed.
pub proof fn lemma_step_injective(p: Pos, s: Side, a: nat, b: nat)
    ensures
        step(p, s, a) == step(p, s, b) <==> a == b,
{
    lemma_step_coordinates(p, s, a);
    lemma_step_coordinates(p, s, b);
}

/// Walking `a` steps and then `b` steps is walking `a + b` steps.
pub proof fn lemma_step_add(p: Pos, s: Side, a: nat, b: nat)
    ensures
        step(step(p, s, a), s, b) == step(p, s, a + b),
    decreases b,
{
    if b > 0 {
        lemma_step_add(p, s, a, (b - 1) as nat);
    }
}

/// Walking back across the opposite side undoes the walk.
pub proof fn lemma_step_back(p: Pos, s: Side, k: nat, i: nat)
    requires
        i <= k,
    ensures
        step(step(p, s, k), s.opp(), i) == step(p, s, (k - i) as nat),
    decreases i,
{
    if i > 0 {
        lemma_step_back(p, s, k, (i - 1) as nat);
        lemma_step_add(p, s, (k - i) as nat, 1);
        lemma_neighbour_inverse(step(p, s, (k - i) as nat), s);
    }
}


/// The rows of `rows`, as sequences.
pub open spec fn grid_of(rows: Seq<Vec<Option<Cell>>>) -> Grid {
    rows.map_values(|row: Vec<Option<Cell>>| row@)
}

/// The cell at `p`, or `None` where there is none.
pub open spec fn cell_at(g: Grid, p: Pos) -> Option<Cell> {
    if 0 <= p.1 < g.len() && 0 <= p.0 < g[p.1].len() {
        g[p.1][p.0]
    } else {
        None
    }
}

/// Whether `p` holds a free cell.
pub open spec fn is_free(g: Grid, p: Pos) -> bool {
    cell_at(g, p) matches Some(Cell::Free(_))
}

/// Whether `p` holds a free cell with a lamp.
pub open spec fn is_lamp(g: Grid, p: Pos) -> bool {
    match cell_at(g, p) {
        Some(c) => c.holds_lamp(),
        None => false,
    }
}

/// Whether `p` holds a free cell lit from side `t`.
pub open spec fn lit_at(g: Grid, p: Pos, t: Side) -> bool {
    match cell_at(g, p) {
        Some(Cell::Free(st)) => st.lit_from(t),
        _ => false,
    }
}

/// Whether the first `j - 1` positions after `p` across side `s` are free.
pub open spec fn clear_between(g: Grid, p: Pos, s: Side, j: nat) -> bool {
    forall|i: nat| 1 <= i < j ==> is_free(g, #[trigger] step(p, s, i))
}

/// Whether light sent from `p` across side `s` reaches `q`: `q` lies on the
/// ray, and every position up to and including `q` is free.
pub open spec fn in_beam(g: Grid, p: Pos, s: Side, q: Pos) -> bool {
    exists|j: nat| 1 <= j && #[trigger] step(p, s, j) == q && clear_between(g, p, s, j) && is_free(g, q)
}

/// Whether looking from `p` across side `t`, past free cells only, one sees
/// a lamp before any wall or the edge of the board.
pub open spec fn sees_lamp(g: Grid, p: Pos, t: Side) -> bool {
    exists|j: nat| 1 <= j && clear_between(g, p, t, j) && is_lamp(g, #[trigger] step(p, t, j))
}

/// The light flags agree with the lamps: a free cell is lit from a side
/// exactly when it sees a lamp across that side, and no lamp is lit.
pub open spec fn consistent(g: Grid) -> bool {
    &&& forall|p: Pos, t: Side| is_free(g, p) ==> #[trigger] lit_at(g, p, t) == sees_lamp(g, p, t)
    &&& forall|p: Pos, t: Side| is_lamp(g, p) ==> !#[trigger] lit_at(g, p, t)
}

/// The light flags of the cell at `p` agree with the lamps: a free cell is
/// lit from each side exactly when it sees a lamp there, and a lamp is unlit.
pub open spec fn agrees_at(g: Grid, p: Pos) -> bool {
    forall|t: Side|
        (is_free(g, p) ==> #[trigger] lit_at(g, p, t) == sees_lamp(g, p, t)) && (is_lamp(g, p) ==> !lit_at(g, p, t))
}

/// Every row has the same length.
pub open spec fn rectangular(g: Grid) -> bool {
    forall|y: int| 0 <= y < g.len() ==> #[trigger] g[y].len() == g[0].len()
}

/// Every wall constraint lies in `0..=3`.
pub open spec fn constraints_valid(g: Grid) -> bool {
    forall|y: int, x: int|
        0 <= y < g.len() && 0 <= x < g[y].len() ==> match #[trigger] g[y][x] {
            Some(c) => c.valid(),
            None => true,
        }
}

/// A board that can be played: rectangular, with valid constraints.
pub open spec fn well_formed(g: Grid) -> bool {
    rectangular(g) && constraints_valid(g)
}

/// The free state `st` at `q` once light (`v`) or shadow (`!v`) from `p`
/// has been cast across each side in `done`: a cast across `s` sets the flag
/// of side `s.opp()` on every cell in its beam.
pub open spec fn relit(g: Grid, p: Pos, v: bool, done: Set<Side>, q: Pos, st: FreeState) -> FreeState {
    FreeState {
        marking: st.marking,
        lit_from_a: if done.contains(Side::D) && in_beam(g, p, Side::D, q) { v } else { st.lit_from_a },
        lit_from_b: if done.contains(Side::E) && in_beam(g, p, Side::E, q) { v } else { st.lit_from_b },
        lit_from_c: if done.contains(Side::F) && in_beam(g, p, Side::F, q) { v } else { st.lit_from_c },
        lit_from_d: if done.contains(Side::A) && in_beam(g, p, Side::A, q) { v } else { st.lit_from_d },
        lit_from_e: if done.contains(Side::B) && in_beam(g, p, Side::B, q) { v } else { st.lit_from_e },
        lit_from_f: if done.contains(Side::C) && in_beam(g, p, Side::C, q) { v } else { st.lit_from_f },
    }
}

/// Whether the first `k` positions of the ray from `start` across `s`,
/// `start` itself included, are free.
pub open spec fn ray_clear(g: Grid, start: Pos, s: Side, k: nat) -> bool {
    forall|i: nat| i < k ==> is_free(g, #[trigger] step(start, s, i))
}

/// Whether a walk from `start` across `s` reaches `q`: `q` lies on the
/// ray, and every position from `start` up to and including `q` is free.
pub open spec fn in_ray(g: Grid, start: Pos, s: Side, q: Pos) -> bool {
    exists|j: nat| #[trigger] step(start, s, j) == q && ray_clear(g, start, s, j + 1)
}

/// `g` after a walk from `start` across `s` set (`v`) or cleared (`!v`)
/// the flag of side `s.opp()` on every free cell it reached.
pub open spec fn walk_lit(g: Grid, start: Pos, s: Side, v: bool) -> Grid {
    Seq::new(
        g.len(),
        |y: int|
            Seq::new(
                g[y].len(),
                |x: int|
                    match g[y][x] {
                        Some(Cell::Free(st)) => if in_ray(g, start, s, (x, y)) {
                            Some(Cell::Free(st.with_lit(s.opp(), v)))
                        } else {
                            g[y][x]
                        },
                        c => c,
                    },
            ),
    )
}

/// `g` after light (`v`) or shadow (`!v`) was cast from `p` across side `s`.
pub open spec fn cast(g: Grid, p: Pos, s: Side, v: bool) -> Grid {
    Seq::new(
        g.len(),
        |y: int|
            Seq::new(
                g[y].len(),
                |x: int|
                    match g[y][x] {
                        Some(Cell::Free(st)) => if in_beam(g, p, s, (x, y)) {
                            Some(Cell::Free(st.with_lit(s.opp(), v)))
                        } else {
                            g[y][x]
                        },
                        c => c,
                    },
            ),
    )
}

/// `g` with `relit` applied to every free cell.
pub open spec fn relit_grid(g: Grid, p: Pos, v: bool, done: Set<Side>) -> Grid {
    Seq::new(
        g.len(),
        |y: int|
            Seq::new(
                g[y].len(),
                |x: int|
                    match g[y][x] {
                        Some(Cell::Free(st)) => Some(Cell::Free(relit(g, p, v, done, (x, y), st))),
                        c => c,
                    },
            ),
    )
}

/// The board after the lamp state at `p` became `v`: every free cell that
/// light from `p` reaches across a side `s` has its flag of side `s.opp()`
/// set to `v`, and nothing else changes.
pub open spec fn relight(g: Grid, p: Pos, v: bool) -> Grid {
    relit_grid(g, p, v, crate::cell::all_sides())
}

/// `g` with the marking of the free cell at `p` replaced by `m`.
pub open spec fn with_marking(g: Grid, p: Pos, m: Option<Marking>) -> Grid {
    match cell_at(g, p) {
        Some(Cell::Free(st)) => g.update(p.1, g[p.1].update(p.0, Some(Cell::Free(FreeState { marking: m, ..st })))),
        _ => g,
    }
}

/// The marking that an input in `mode` leaves on a free cell with marking
/// `m`. A lamp is never placed on a lit cell: it would light another lamp.
pub open spec fn next_marking(m: Option<Marking>, lit: bool, mode: InputMode) -> Option<Marking> {
    match mode {
        InputMode::Light => if m == Some(Marking::Lamp) {
            None
        } else if lit {
            m
        } else {
            Some(Marking::Lamp)
        },
        InputMode::Cross => if m == Some(Marking::Cross) {
            None
        } else {
            Some(Marking::Cross)
        },
        InputMode::Clear => None,
    }
}

/// The board after an input in `mode` at `p`. On a free cell the marking
/// changes as `next_marking` says, and where a lamp appears or disappears
/// the light is updated; anywhere else nothing changes.
pub open spec fn after_input(g: Grid, p: Pos, mode: InputMode) -> Grid {
    match cell_at(g, p) {
        Some(Cell::Free(st)) => {
            let m = next_marking(st.marking, st.lit_spec(), mode);
            let lamp = m == Some(Marking::Lamp);
            if lamp != st.has_lamp_spec() {
                relight(with_marking(g, p, m), p, lamp)
            } else {
                with_marking(g, p, m)
            }
        },
        _ => g,
    }
}

/// The number of lamps among the direct neighbours of `p`.
pub open spec fn lamps_around(g: Grid, p: Pos) -> int {
    (if is_lamp(g, neighbour(p, Side::A)) { 1int } else { 0 })
        + (if is_lamp(g, neighbour(p, Side::B)) { 1int } else { 0 })
        + (if is_lamp(g, neighbour(p, Side::C)) { 1int } else { 0 })
        + (if is_lamp(g, neighbour(p, Side::D)) { 1int } else { 0 })
        + (if is_lamp(g, neighbour(p, Side::E)) { 1int } else { 0 })
        + (if is_lamp(g, neighbour(p, Side::F)) { 1int } else { 0 })
}

/// Whether the cell at `p` meets the rules: a lamp is unlit, any other free
/// cell is lit, and a constrained wall has exactly its number of lamps
/// around it.
pub open spec fn cell_solved(g: Grid, p: Pos) -> bool {
    match cell_at(g, p) {
        Some(Cell::Free(st)) => if st.has_lamp_spec() {
            !st.lit_spec()
        } else {
            st.lit_spec()
        },
        Some(Cell::Wall(WallState::Constrained(Constraint::Equal(n)))) => lamps_around(g, p) == n,
        _ => true,
    }
}

/// Whether the board is a solved puzzle.
pub open spec fn solved(g: Grid) -> bool {
    forall|y: int, x: int| 0 <= y < g.len() && 0 <= x < g[y].len() ==> #[trigger] cell_solved(g, (x, y))
}

/// Which positions are free is all that decides where light goes.
pub proof fn lemma_beam_depends_on_free(g: Grid, h: Grid, p: Pos, s: Side, q: Pos)
    requires
        forall|r: Pos| #[trigger] is_free(g, r) == is_free(h, r),
    ensures
        in_beam(g, p, s, q) == in_beam(h, p, s, q),
        forall|j: nat| #[trigger] clear_between(g, p, s, j) == clear_between(h, p, s, j),
{
    assert forall|j: nat| #[trigger] clear_between(g, p, s, j) == clear_between(h, p, s, j) by {
        if clear_between(g, p, s, j) {
            assert forall|i: nat| 1 <= i < j implies is_free(h, #[trigger] step(p, s, i)) by {
                assert(is_free(g, step(p, s, i)));
            }
        }
        if clear_between(h, p, s, j) {
            assert forall|i: nat| 1 <= i < j implies is_free(g, #[trigger] step(p, s, i)) by {
                assert(is_free(h, step(p, s, i)));
            }
        }
    }
    if in_beam(g, p, s, q) {
        let j = choose|j: nat| 1 <= j && #[trigger] step(p, s, j) == q && clear_between(g, p, s, j) && is_free(g, q);
        assert(clear_between(h, p, s, j));
    }
    if in_beam(h, p, s, q) {
        let j = choose|j: nat| 1 <= j && #[trigger] step(p, s, j) == q && clear_between(h, p, s, j) && is_free(h, q);
        assert(clear_between(g, p, s, j));
    }
}

/// Relighting changes flags only: the same positions are free and the same
/// hold lamps.
pub proof fn lemma_relit_keeps_cells(g: Grid, p: Pos, v: bool, done: Set<Side>)
    ensures
        forall|r: Pos| #[trigger] is_free(relit_grid(g, p, v, done), r) == is_free(g, r),
        forall|r: Pos| #[trigger] is_lamp(relit_grid(g, p, v, done), r) == is_lamp(g, r),
        forall|r: Pos, t: Side| #[trigger] lit_at(relit_grid(g, p, v, done), r, t) == (is_free(g, r) && if done.contains(t.opp()) && in_beam(g, p, t.opp(), r) { v } else { lit_at(g, r, t) }),
{
    let h = relit_grid(g, p, v, done);
    assert forall|r: Pos, t: Side| #[trigger] lit_at(h, r, t) == (is_free(g, r) && if done.contains(t.opp()) && in_beam(g, p, t.opp(), r) { v } else { lit_at(g, r, t) }) by {
        if is_free(g, r) {
            assert(cell_at(h, r) == Some(Cell::Free(relit(g, p, v, done, r, cell_at(g, r)->Some_0->Free_0))));
        }
    }
}

/// Casting across one more side extends the set of sides cast.
pub proof fn lemma_cast_relit(g: Grid, p: Pos, v: bool, done: Set<Side>, s: Side)
    ensures
        cast(relit_grid(g, p, v, done), p, s, v) == relit_grid(g, p, v, done.insert(s)),
{
    let h = relit_grid(g, p, v, done);
    lemma_relit_keeps_cells(g, p, v, done);
    let a = cast(h, p, s, v);
    let b = relit_grid(g, p, v, done.insert(s));
    assert forall|y: int, x: int| 0 <= y < g.len() && 0 <= x < g[y].len() implies a[y][x] == b[y][x] by {
        lemma_beam_depends_on_free(h, g, p, s, (x, y));
        assert forall|t: Side| #[trigger] in_beam(h, p, t, (x, y)) == in_beam(g, p, t, (x, y)) by {
            lemma_beam_depends_on_free(h, g, p, t, (x, y));
        }
    }
    assert(a =~~= b);
}

/// Relighting with no side cast changes nothing.
pub proof fn lemma_relit_none(g: Grid, p: Pos, v: bool)
    ensures
        relit_grid(g, p, v, Set::empty()) == g,
{
    assert(relit_grid(g, p, v, Set::empty()) =~~= g);
}

/// Whether `p` is seen from `q` across side `t` past free cells only.
pub open spec fn reaches(g: Grid, q: Pos, t: Side, p: Pos) -> bool {
    exists|k: nat| 1 <= k && clear_between(g, q, t, k) && #[trigger] step(q, t, k) == p
}

/// Light from `p` across `s` reaches a free cell `q` exactly when `p` is
/// seen from `q` looking back across the opposite side.
pub proof fn lemma_beam_sight(g: Grid, p: Pos, s: Side, q: Pos)
    requires
        is_free(g, q),
    ensures
        in_beam(g, p, s, q) <==> reaches(g, q, s.opp(), p),
{
    if in_beam(g, p, s, q) {
        let j = choose|j: nat| 1 <= j && #[trigger] step(p, s, j) == q && clear_between(g, p, s, j) && is_free(g, q);
        lemma_step_back(p, s, j, j);
        assert forall|i: nat| 1 <= i < j implies is_free(g, #[trigger] step(q, s.opp(), i)) by {
            lemma_step_back(p, s, j, i);
            assert(is_free(g, step(p, s, (j - i) as nat)));
        }
        assert(clear_between(g, q, s.opp(), j) && step(q, s.opp(), j) == p);
    }
    if reaches(g, q, s.opp(), p) {
        let t = s.opp();
        let k = choose|k: nat| 1 <= k && clear_between(g, q, t, k) && #[trigger] step(q, t, k) == p;
        lemma_step_back(q, t, k, k);
        assert forall|i: nat| 1 <= i < k implies is_free(g, #[trigger] step(p, s, i)) by {
            lemma_step_back(q, t, k, i);
            assert(is_free(g, step(q, t, (k - i) as nat)));
        }
        assert(step(p, s, k) == q);
        assert(clear_between(g, p, s, k));
    }
}

/// If two cells `p` and `r` both lie on a clear ray from `q`, one of them
/// is seen from the other.
proof fn lemma_two_on_ray(g: Grid, q: Pos, t: Side, j: nat, k: nat)
    requires
        1 <= j,
        1 <= k,
        j != k,
        clear_between(g, q, t, j),
        clear_between(g, q, t, k),
        is_free(g, step(q, t, j)),
        is_free(g, step(q, t, k)),
    ensures
        k < j ==> reaches(g, step(q, t, k), t, step(q, t, j)),
        j < k ==> reaches(g, step(q, t, k), t.opp(), step(q, t, j)),
{
    let p = step(q, t, k);
    if k < j {
        let d = (j - k) as nat;
        lemma_step_add(q, t, k, d);
        assert forall|i: nat| 1 <= i < d implies is_free(g, #[trigger] step(p, t, i)) by {
            lemma_step_add(q, t, k, i);
            assert(is_free(g, step(q, t, k + i)));
        }
        assert(clear_between(g, p, t, d) && step(p, t, d) == step(q, t, j));
    }
    if j < k {
        let d = (k - j) as nat;
        lemma_step_back(q, t, k, d);
        assert forall|i: nat| 1 <= i < d implies is_free(g, #[trigger] step(p, t.opp(), i)) by {
            lemma_step_back(q, t, k, i);
            assert(is_free(g, step(q, t, (k - i) as nat)));
        }
        assert(clear_between(g, p, t.opp(), d) && step(p, t.opp(), d) == step(q, t, j));
    }
}

/// An unlit free cell `p` on a clear ray from `q` hides no lamp: if `q`
/// sees `p` across `t`, any lamp that `q` sees across `t` is `p`.
proof fn lemma_unlit_hides_no_lamp(g: Grid, p: Pos, q: Pos, t: Side)
    requires
        consistent(g),
        is_free(g, p),
        forall|u: Side| !#[trigger] lit_at(g, p, u),
        reaches(g, q, t, p),
        sees_lamp(g, q, t),
    ensures
        is_lamp(g, p),
{
    let k = choose|k: nat| 1 <= k && clear_between(g, q, t, k) && #[trigger] step(q, t, k) == p;
    let j = choose|j: nat| 1 <= j && clear_between(g, q, t, j) && is_lamp(g, #[trigger] step(q, t, j));
    let r = step(q, t, j);
    if j != k {
        lemma_two_on_ray(g, q, t, j, k);
        if k < j {
            let d = choose|d: nat| 1 <= d && clear_between(g, p, t, d) && #[trigger] step(p, t, d) == r;
            assert(sees_lamp(g, p, t));
            assert(lit_at(g, p, t));
        } else {
            let d = choose|d: nat| 1 <= d && clear_between(g, p, t.opp(), d) && #[trigger] step(p, t.opp(), d) == r;
            assert(sees_lamp(g, p, t.opp()));
            assert(lit_at(g, p, t.opp()));
        }
    }
}

/// Sight depends only on which positions are free and which hold lamps.
proof fn lemma_sight_depends(g: Grid, h: Grid, q: Pos, t: Side)
    requires
        forall|r: Pos| #[trigger] is_free(g, r) == is_free(h, r),
        forall|r: Pos| #[trigger] is_lamp(g, r) == is_lamp(h, r),
    ensures
        sees_lamp(g, q, t) == sees_lamp(h, q, t),
{
    lemma_beam_depends_on_free(g, h, q, t, q);
    if sees_lamp(g, q, t) {
        let j = choose|j: nat| 1 <= j && clear_between(g, q, t, j) && is_lamp(g, #[trigger] step(q, t, j));
        assert(clear_between(h, q, t, j) && is_lamp(h, step(q, t, j)));
    }
    if sees_lamp(h, q, t) {
        let j = choose|j: nat| 1 <= j && clear_between(h, q, t, j) && is_lamp(h, #[trigger] step(q, t, j));
        assert(clear_between(g, q, t, j) && is_lamp(g, step(q, t, j)));
    }
}

/// Replacing a marking changes neither the cells nor the flags, only
/// whether `p` holds a lamp.
pub proof fn lemma_with_marking(g: Grid, p: Pos, m: Option<Marking>)
    requires
        is_free(g, p),
    ensures
        forall|r: Pos| #[trigger] is_free(with_marking(g, p, m), r) == is_free(g, r),
        forall|r: Pos| #[trigger] is_lamp(with_marking(g, p, m), r) == if r == p { m == Some(Marking::Lamp) } else { is_lamp(g, r) },
        forall|r: Pos, t: Side| #[trigger] lit_at(with_marking(g, p, m), r, t) == lit_at(g, r, t),
{
}

/// What an input at a free cell `p` does to the board: the same cells are
/// free, only `p` may change whether it holds a lamp, and flags change only
/// where a lamp appeared or disappeared at `p`, on the cells its light
/// reaches.
pub proof fn lemma_after_input(g: Grid, p: Pos, mode: InputMode)
    requires
        is_free(g, p),
    ensures
        ({
            let st = cell_at(g, p)->Some_0->Free_0;
            let m = next_marking(st.marking, st.lit_spec(), mode);
            let lamp = m == Some(Marking::Lamp);
            let h = after_input(g, p, mode);
            &&& forall|r: Pos| #[trigger] is_free(h, r) == is_free(g, r)
            &&& forall|r: Pos| #[trigger] is_lamp(h, r) == if r == p { lamp } else { is_lamp(g, r) }
            &&& forall|r: Pos, t: Side| #[trigger] lit_at(h, r, t) == if lamp != st.has_lamp_spec() {
                is_free(g, r) && if in_beam(g, p, t.opp(), r) { lamp } else { lit_at(g, r, t) }
            } else {
                lit_at(g, r, t)
            }
        }),
{
    let st = cell_at(g, p)->Some_0->Free_0;
    let m = next_marking(st.marking, st.lit_spec(), mode);
    let gm = with_marking(g, p, m);
    lemma_with_marking(g, p, m);
    lemma_relit_keeps_cells(gm, p, m == Some(Marking::Lamp), crate::cell::all_sides());
    assert forall|r: Pos, t: Side| #[trigger] in_beam(gm, p, t, r) == in_beam(g, p, t, r) by {
        lemma_beam_depends_on_free(gm, g, p, t, r);
    }
}

/// Every input keeps the light flags in agreement with the lamps, and so
/// keeps every lamp unlit.
pub proof fn lemma_input_keeps_consistent(g: Grid, p: Pos, mode: InputMode)
    requires
        consistent(g),
    ensures
        consistent(after_input(g, p, mode)),
{
    if !is_free(g, p) {
        return;
    }
    let st = cell_at(g, p)->Some_0->Free_0;
    let m = next_marking(st.marking, st.lit_spec(), mode);
    let lamp = m == Some(Marking::Lamp);
    let had = st.has_lamp_spec();
    let h = after_input(g, p, mode);
    lemma_after_input(g, p, mode);
    assert forall|u: Side| lamp != had implies !#[trigger] lit_at(g, p, u) by {
        if had {
            assert(is_lamp(g, p));
        } else {
            assert(!st.lit_spec());
        }
    }
    assert forall|q: Pos, t: Side| is_free(h, q) implies #[trigger] lit_at(h, q, t) == sees_lamp(h, q, t) by {
        lemma_beam_sight(g, p, t.opp(), q);
        assert(t.opp().opp() == t);
        if lamp == had {
            lemma_sight_depends(h, g, q, t);
        } else if lamp {
            if sees_lamp(h, q, t) {
                let j = choose|j: nat| 1 <= j && clear_between(h, q, t, j) && is_lamp(h, #[trigger] step(q, t, j));
                lemma_beam_depends_on_free(h, g, q, t, q);
                if step(q, t, j) == p {
                    assert(reaches(g, q, t, p));
                } else {
                    assert(sees_lamp(g, q, t));
                }
            }
            if lit_at(h, q, t) {
                if lit_at(g, q, t) {
                    assert(sees_lamp(g, q, t));
                    let j = choose|j: nat| 1 <= j && clear_between(g, q, t, j) && is_lamp(g, #[trigger] step(q, t, j));
                    lemma_beam_depends_on_free(h, g, q, t, q);
                    assert(is_lamp(h, step(q, t, j)));
                } else {
                    let k = choose|k: nat| 1 <= k && clear_between(g, q, t, k) && #[trigger] step(q, t, k) == p;
                    lemma_beam_depends_on_free(h, g, q, t, q);
                    assert(is_lamp(h, step(q, t, k)));
                }
            }
        } else {
            if sees_lamp(h, q, t) {
                let j = choose|j: nat| 1 <= j && clear_between(h, q, t, j) && is_lamp(h, #[trigger] step(q, t, j));
                lemma_beam_depends_on_free(h, g, q, t, q);
                assert(sees_lamp(g, q, t));
                if reaches(g, q, t, p) {
                    let k = choose|k: nat| 1 <= k && clear_between(g, q, t, k) && #[trigger] step(q, t, k) == p;
                    lemma_two_on_ray(g, q, t, j, k);
                    if k < j {
                        let d = choose|d: nat| 1 <= d && clear_between(g, p, t, d) && #[trigger] step(p, t, d) == step(q, t, j);
                        assert(sees_lamp(g, p, t));
                        assert(lit_at(g, p, t));
                    } else {
                        let d = choose|d: nat| 1 <= d && clear_between(g, p, t.opp(), d) && #[trigger] step(p, t.opp(), d) == step(q, t, j);
                        assert(sees_lamp(g, p, t.opp()));
                        assert(lit_at(g, p, t.opp()));
                    }
                }
            }
            if lit_at(h, q, t) {
                assert(sees_lamp(g, q, t));
                let j = choose|j: nat| 1 <= j && clear_between(g, q, t, j) && is_lamp(g, #[trigger] step(q, t, j));
                lemma_beam_depends_on_free(h, g, q, t, q);
                if step(q, t, j) == p {
                    assert(reaches(g, q, t, p));
                }
                assert(is_lamp(h, step(q, t, j)));
            }
        }
    }
    assert forall|q: Pos, t: Side| is_lamp(h, q) implies !#[trigger] lit_at(h, q, t) by {
        if lamp != had && q == p {
            if in_beam(g, p, t.opp(), p) {
                let j = choose|j: nat| 1 <= j && #[trigger] step(p, t.opp(), j) == p && clear_between(g, p, t.opp(), j) && is_free(g, p);
                assert(step(p, t.opp(), 0) == p);
                lemma_step_injective(p, t.opp(), j, 0);
            }
        } else if lamp && !had && in_beam(g, p, t.opp(), q) {
            let j = choose|j: nat| 1 <= j && #[trigger] step(p, t.opp(), j) == q && clear_between(g, p, t.opp(), j) && is_free(g, q);
            assert(sees_lamp(g, p, t.opp()));
            assert(lit_at(g, p, t.opp()));
        }
    }
}

/// Placing a lamp on an unlit free cell `p` sets, on every free cell `q`,
/// the flag of side `t` exactly when `q` already had it or light from `p`
/// across `t.opp()` reaches `q`; on a board with no light yet, the flags
/// are exactly the beams of the new lamp.
pub proof fn lemma_lamp_lights_beams(g: Grid, p: Pos)
    requires
        is_free(g, p),
        !is_lamp(g, p),
        forall|u: Side| !#[trigger] lit_at(g, p, u),
    ensures
        is_lamp(after_input(g, p, InputMode::Light), p),
        forall|q: Pos, t: Side| #[trigger] lit_at(after_input(g, p, InputMode::Light), q, t) == (lit_at(g, q, t) || in_beam(g, p, t.opp(), q)),
{
    let st = cell_at(g, p)->Some_0->Free_0;
    assert(!st.lit_spec()) by {
        assert(!lit_at(g, p, Side::A) && !lit_at(g, p, Side::B) && !lit_at(g, p, Side::C));
        assert(!lit_at(g, p, Side::D) && !lit_at(g, p, Side::E) && !lit_at(g, p, Side::F));
    }
    lemma_after_input(g, p, InputMode::Light);
}

/// A wall strictly between a lamp's cell `p` and a cell `q` on one of its
/// rays keeps `q` out of that beam, at any distance, and no input at `p`
/// changes the flag of `q` facing `p`.
pub proof fn lemma_wall_blocks_light(g: Grid, p: Pos, s: Side, i: nat, j: nat, mode: InputMode)
    requires
        1 <= i < j,
        cell_at(g, step(p, s, i)) matches Some(Cell::Wall(_)),
    ensures
        !in_beam(g, p, s, step(p, s, j)),
        lit_at(after_input(g, p, mode), step(p, s, j), s.opp()) == lit_at(g, step(p, s, j), s.opp()),
{
    let q = step(p, s, j);
    if in_beam(g, p, s, q) {
        let k = choose|k: nat| 1 <= k && #[trigger] step(p, s, k) == q && clear_between(g, p, s, k) && is_free(g, q);
        lemma_step_injective(p, s, k, j);
        assert(is_free(g, step(p, s, i)));
    }
    if is_free(g, p) {
        lemma_after_input(g, p, mode);
        assert(s.opp().opp() == s);
    }
}

/// Placing a lamp on a free cell and then removing it restores every light
/// flag of a consistent board.
pub proof fn lemma_light_round_trip(g: Grid, p: Pos)
    requires
        consistent(g),
        is_free(g, p),
        !is_lamp(g, p),
    ensures
        forall|q: Pos, t: Side| #[trigger] lit_at(after_input(after_input(g, p, InputMode::Light), p, InputMode::Light), q, t) == lit_at(g, q, t),
{
    let st = cell_at(g, p)->Some_0->Free_0;
    let g1 = after_input(g, p, InputMode::Light);
    let g2 = after_input(g1, p, InputMode::Light);
    lemma_after_input(g, p, InputMode::Light);
    assert(is_free(g1, p));
    lemma_after_input(g1, p, InputMode::Light);
    let st1 = cell_at(g1, p)->Some_0->Free_0;
    if st.lit_spec() {
        assert forall|q: Pos, t: Side| #[trigger] lit_at(g2, q, t) == lit_at(g, q, t) by {
            assert(lit_at(g1, p, t) == lit_at(g, p, t));
            assert(lit_at(g1, p, Side::A) == lit_at(g, p, Side::A) && lit_at(g1, p, Side::B) == lit_at(g, p, Side::B));
            assert(lit_at(g1, p, Side::C) == lit_at(g, p, Side::C) && lit_at(g1, p, Side::D) == lit_at(g, p, Side::D));
            assert(lit_at(g1, p, Side::E) == lit_at(g, p, Side::E) && lit_at(g1, p, Side::F) == lit_at(g, p, Side::F));
            assert(st1.lit_spec());
        }
    } else {
        assert(is_lamp(g1, p));
        assert forall|q: Pos, t: Side| #[trigger] lit_at(g2, q, t) == lit_at(g, q, t) by {
            assert forall|r: Pos, u: Side| #[trigger] in_beam(g1, p, u, r) == in_beam(g, p, u, r) by {
                lemma_beam_depends_on_free(g1, g, p, u, r);
            }
            if lit_at(g, q, t) && in_beam(g, p, t.opp(), q) {
                lemma_beam_sight(g, p, t.opp(), q);
                assert(t.opp().opp() == t);
                assert(sees_lamp(g, q, t));
                assert forall|u: Side| !#[trigger] lit_at(g, p, u) by {
                    assert(!lit_at(g, p, Side::A) && !lit_at(g, p, Side::B) && !lit_at(g, p, Side::C));
                    assert(!lit_at(g, p, Side::D) && !lit_at(g, p, Side::E) && !lit_at(g, p, Side::F));
                }
                lemma_unlit_hides_no_lamp(g, p, q, t);
            }
        }
    }
}

/// A board without lamps or light, such as a freshly laid out puzzle, has
/// its flags in agreement with its lamps.
pub proof fn lemma_unlit_board_consistent(g: Grid)
    requires
        forall|q: Pos| #[trigger] is_free(g, q) ==> cell_at(g, q) == Some(Cell::Free(FreeState::empty())),
    ensures
        consistent(g),
{
    assert forall|q: Pos, t: Side| is_free(g, q) implies #[trigger] lit_at(g, q, t) == sees_lamp(g, q, t) by {
        if sees_lamp(g, q, t) {
            let j = choose|j: nat| 1 <= j && clear_between(g, q, t, j) && is_lamp(g, #[trigger] step(q, t, j));
            assert(is_free(g, step(q, t, j)));
        }
    }
}

/// A board whose free cells hold no marking and no light is not solved as
/// soon as it has a free cell.
pub proof fn lemma_fresh_board_unsolved(g: Grid, x: int, y: int)
    requires
        forall|q: Pos| #[trigger] is_free(g, q) ==> cell_at(g, q) == Some(Cell::Free(FreeState::empty())),
        is_free(g, (x, y)),
    ensures
        !solved(g),
{
    assert(!cell_solved(g, (x, y)));
}

/// Inputs change markings and flags only, so a well formed board stays
/// well formed.
pub proof fn lemma_input_keeps_well_formed(g: Grid, p: Pos, mode: InputMode)
    requires
        well_formed(g),
    ensures
        well_formed(after_input(g, p, mode)),
{
    if !is_free(g, p) {
        return;
    }
    let st = cell_at(g, p)->Some_0->Free_0;
    let m = next_marking(st.marking, st.lit_spec(), mode);
    let gm = with_marking(g, p, m);
    let h = after_input(g, p, mode);
    assert(gm.len() == g.len());
    assert forall|y: int| 0 <= y < g.len() implies #[trigger] gm[y].len() == g[y].len() by {}
    assert forall|y: int, x: int| 0 <= y < g.len() && 0 <= x < g[y].len() implies
        (match #[trigger] gm[y][x] { Some(c) => c.valid(), None => true }) by {
        assert(cell_at(g, (x, y)) == g[y][x]);
    }
    assert(h.len() == g.len());
    assert forall|y: int| 0 <= y < h.len() implies #[trigger] h[y].len() == g[y].len() by {}
    assert forall|y: int, x: int| 0 <= y < h.len() && 0 <= x < h[y].len() implies
        (match #[trigger] h[y][x] { Some(c) => c.valid(), None => true }) by {
        assert(gm[y][x] matches Some(_) ==> gm[y][x]->Some_0.valid());
    }
}

/// A walk that starts next to `p` across `s` reaches exactly the beam of
/// light cast from `p` across `s`.
pub proof fn lemma_walk_from_neighbour(g: Grid, p: Pos, s: Side, v: bool)
    ensures
        walk_lit(g, neighbour(p, s), s, v) == cast(g, p, s, v),
{
    let n = neighbour(p, s);
    assert(step(p, s, 0) == p);
    assert(step(p, s, 1) == n);
    assert forall|q: Pos| #[trigger] in_ray(g, n, s, q) == in_beam(g, p, s, q) by {
        if in_ray(g, n, s, q) {
            let j = choose|j: nat| #[trigger] step(n, s, j) == q && ray_clear(g, n, s, j + 1);
            lemma_step_add(p, s, 1, j);
            assert forall|i: nat| 1 <= i < j + 1 implies is_free(g, #[trigger] step(p, s, i)) by {
                lemma_step_add(p, s, 1, (i - 1) as nat);
                assert(is_free(g, step(n, s, (i - 1) as nat)));
            }
            assert(step(p, s, j + 1) == q && clear_between(g, p, s, j + 1));
        }
        if in_beam(g, p, s, q) {
            let jj = choose|jj: nat| 1 <= jj && #[trigger] step(p, s, jj) == q && clear_between(g, p, s, jj) && is_free(g, q);
            let j = (jj - 1) as nat;
            lemma_step_add(p, s, 1, j);
            assert forall|i: nat| i < j + 1 implies is_free(g, #[trigger] step(n, s, i)) by {
                lemma_step_add(p, s, 1, i);
                assert(step(n, s, i) == step(p, s, i + 1));
            }
            assert(step(n, s, j) == q && ray_clear(g, n, s, j + 1));
        }
    }
    assert(walk_lit(g, n, s, v) =~~= cast(g, p, s, v));
}

/// Where the position next to `p` across `s` lies off the board, light
/// cast from `p` across `s` changes nothing.
pub proof fn lemma_cast_off_board(g: Grid, p: Pos, s: Side, v: bool)
    requires
        neighbour(p, s).0 < 0 || neighbour(p, s).1 < 0,
    ensures
        cast(g, p, s, v) == g,
{
    assert(step(p, s, 0) == p);
    assert(step(p, s, 1) == neighbour(p, s));
    assert forall|q: Pos| !#[trigger] in_beam(g, p, s, q) by {
        if in_beam(g, p, s, q) {
            let j = choose|j: nat| 1 <= j && #[trigger] step(p, s, j) == q && clear_between(g, p, s, j) && is_free(g, q);
            if j > 1 {
                assert(is_free(g, step(p, s, 1)));
            }
        }
    }
    assert(cast(g, p, s, v) =~~= g);
}

/// What updating the light at `p` to `v` does (the contract of the board's
/// `update`): walls and absent cells stay as they were, no marking changes,
/// and the flag of side `t` of a free cell `q` becomes `v` exactly when
/// light from `p` across `t.opp()` reaches `q`, and stays as it was
/// otherwise.
pub proof fn lemma_relight_effect(g: Grid, p: Pos, v: bool)
    ensures
        forall|q: Pos| !is_free(g, q) ==> #[trigger] cell_at(relight(g, p, v), q) == cell_at(g, q),
        forall|q: Pos| #[trigger] is_free(relight(g, p, v), q) == is_free(g, q),
        forall|q: Pos| is_free(g, q) ==> (#[trigger] cell_at(relight(g, p, v), q))->Some_0->Free_0.marking == cell_at(g, q)->Some_0->Free_0.marking,
        forall|q: Pos, t: Side| #[trigger] lit_at(relight(g, p, v), q, t) == (is_free(g, q) && if in_beam(g, p, t.opp(), q) { v } else { lit_at(g, q, t) }),
{
    lemma_relit_keeps_cells(g, p, v, crate::cell::all_sides());
    assert forall|t: Side| #[trigger] crate::cell::all_sides().contains(t) by {
        match t {
            Side::A => {},
            Side::B => {},
            Side::C => {},
            Side::D => {},
            Side::E => {},
            Side::F => {},
        }
    }
}

/// A wall strictly between `p` and a cell `q` on the ray from `p` across
/// `s` keeps updating the light at `p` from changing the flag of `q` that
/// faces `p`, however far `q` lies.
pub proof fn lemma_relight_wall_blocks(g: Grid, p: Pos, s: Side, i: nat, j: nat, v: bool)
    requires
        1 <= i < j,
        cell_at(g, step(p, s, i)) matches Some(Cell::Wall(_)),
    ensures
        lit_at(relight(g, p, v), step(p, s, j), s.opp()) == lit_at(g, step(p, s, j), s.opp()),
{
    lemma_wall_blocks_light(g, p, s, i, j, InputMode::Clear);
    lemma_relight_effect(g, p, v);
    assert(s.opp().opp() == s);
}

} // verus!
