//! The universe: a square grid of cells, and the automaton that evolves it.

use vstd::prelude::*;
use crate::grid::{
    alive_at, dead_grid, distance, history_of, is_square, is_universe, lemma_rows_alive_bound,
    lemma_rows_distance_bound, lemma_rows_fit, lemma_rows_symmetry_bound, live_neighbors, n_alive,
    next_state, one_if, row_alive, row_distance, row_symmetry, rows_alive, rows_distance,
    rows_symmetry, seed_offset, seeded, simulated, symmetry, tick_grid,
};
use crate::cells::{copy_cells, dead_cells, rows_of, same_cells};
use crate::lcell::LCell;

verus! {

/// The grids of a sequence of universes, in order.
pub open spec fn frames_of(history: Vec<Universe>) -> Seq<Seq<Seq<LCell>>> {
    Seq::new(history.len() as nat, |i: int| history[i]@)
}

/// A square grid of cells.
#[derive(Debug, Hash)]
pub struct Universe {
    cells: Vec<Vec<LCell>>,
}

impl View for Universe {
    type V = Seq<Seq<LCell>>;

    closed spec fn view(&self) -> Seq<Seq<LCell>> {
        rows_of(self.cells)
    }
}

impl Clone for Universe {
    fn clone(&self) -> (copy: Self)
        ensures
            copy@ == self@,
    {
        Universe { cells: copy_cells(&self.cells) }
    }
}

impl PartialEq for Universe {
    fn eq(&self, other: &Self) -> (same: bool) {
        same_cells(&self.cells, &other.cells)
    }
}

impl Eq for Universe {

}

impl vstd::std_specs::cmp::PartialEqSpecImpl for Universe {
    open spec fn obeys_eq_spec() -> bool {
        true
    }

    open spec fn eq_spec(&self, other: &Self) -> bool {
        self@ == other@
    }
}

impl Universe {
    /// The invariant of every universe: its grid is square and not empty.
    pub open spec fn wf(&self) -> bool {
        is_universe(self@)
    }

    /// The all-dead universe of the given side.
    pub fn new(size: usize) -> (u: Universe)
        requires
            size > 0,
            size * size <= usize::MAX,
        ensures
            u.wf(),
            u@ == dead_grid(size as nat),
    {
        let cells = dead_cells(size);
        let u = Universe { cells };
        assert(u@ =~= dead_grid(size as nat));
        u
    }

    /// What the invariant says of the rows as they are stored.
    proof fn lemma_rows(&self)
        requires
            self.wf(),
        ensures
            self.cells.len() == self@.len(),
            forall|r: int|
                0 <= r < self.cells.len() ==> self@[r] == (#[trigger] self.cells[r])@
                    && self.cells[r]@.len() == self.cells.len(),
    {
        assert forall|r: int| 0 <= r < self.cells.len() implies self@[r] == (
        #[trigger] self.cells[r])@ && self.cells[r]@.len() == self.cells.len() by {
            assert(self@[r].len() == self@.len());
        }
    }

    /// The universe that holds a copy of the given cells.
    pub fn from_cells(cells: &Vec<Vec<LCell>>) -> (u: Universe)
        requires
            is_universe(rows_of(*cells)),
        ensures
            u.wf(),
            u@ == rows_of(*cells),
    {
        Universe { cells: copy_cells(cells) }
    }

    /// The universe that holds the given cells.
    pub(crate) fn from_rows(cells: Vec<Vec<LCell>>) -> (u: Universe)
        requires
            is_universe(rows_of(cells)),
        ensures
            u.wf(),
            u@ == rows_of(cells),
    {
        Universe { cells }
    }

    /// A copy of the cells, row by row.
    pub fn to_cells(&self) -> (cells: Vec<Vec<LCell>>)
        ensures
            rows_of(cells) == self@,
    {
        copy_cells(&self.cells)
    }

    /// The side of the grid.
    pub fn size(&self) -> (n: usize)
        requires
            self.wf(),
        ensures
            n == self@.len(),
            n > 0,
    {
        self.cells.len()
    }

    /// The cell at a position inside the grid.
    pub fn get(&self, row: usize, col: usize) -> (c: LCell)
        requires
            self.wf(),
            row < self@.len(),
            col < self@.len(),
        ensures
            c == self@[row as int][col as int],
    {
        proof {
            self.lemma_rows();
        }
        self.cells[row][col]
    }
}

/// One if the position, which lies inside the grid, holds a live cell.
fn live_at(u: &Universe, r: usize, c: usize) -> (n: u8)
    requires
        u.wf(),
        r < u@.len(),
        c < u@.len(),
    ensures
        n == one_if(alive_at(u@, r as int, c as int)),
{
    proof {
        u.lemma_rows();
    }
    if u.cells[r][c].is_alive() {
        1
    } else {
        0
    }
}

/// The number of live cells of row `r` in the columns next to `c`, and in
/// column `c` itself where `with_middle` is set.
fn live_in_row(u: &Universe, r: usize, c: usize, with_middle: bool) -> (n: u8)
    requires
        u.wf(),
        r < u@.len(),
        c < u@.len(),
    ensures
        n == one_if(alive_at(u@, r as int, c - 1)) + one_if(
            with_middle && alive_at(u@, r as int, c as int),
        ) + one_if(alive_at(u@, r as int, c + 1)),
{
    proof {
        u.lemma_rows();
    }
    let left: u8 = if c > 0 {
        live_at(u, r, c - 1)
    } else {
        0
    };
    let middle: u8 = if with_middle {
        live_at(u, r, c)
    } else {
        0
    };
    let right: u8 = if c + 1 < u.cells.len() {
        live_at(u, r, c + 1)
    } else {
        0
    };
    left + middle + right
}

/// The number of live cells around a position inside the grid.
fn count_live_neighbors(u: &Universe, r: usize, c: usize) -> (n: u8)
    requires
        u.wf(),
        r < u@.len(),
        c < u@.len(),
    ensures
        n == live_neighbors(u@, r as int, c as int),
{
    proof {
        u.lemma_rows();
    }
    let above: u8 = if r > 0 {
        live_in_row(u, r - 1, c, true)
    } else {
        0
    };
    let beside: u8 = live_in_row(u, r, c, false);
    let below: u8 = if r + 1 < u.cells.len() {
        live_in_row(u, r + 1, c, true)
    } else {
        0
    };
    above + beside + below
}

/// The state of a cell after a tick, from its state and the number of its
/// live neighbours.
fn apply_rule(current: LCell, neighbors: u8) -> (next: LCell)
    ensures
        next == next_state(current, neighbors as nat),
{
    if neighbors < 2 {
        LCell::Dead
    } else if neighbors == 2 {
        current
    } else if neighbors == 3 {
        LCell::Alive
    } else {
        LCell::Dead
    }
}

/// Applies the transition rule once to every cell. The result is a new
/// universe; every cell is computed from the universe as it was.
pub fn tick(u: &Universe) -> (next: Universe)
    requires
        u.wf(),
    ensures
        next.wf(),
        next@ == tick_grid(u@),
{
    proof {
        u.lemma_rows();
    }
    let size = u.cells.len();
    let mut cells: Vec<Vec<LCell>> = Vec::new();
    let mut r: usize = 0;
    while r < size
        invariant
            u.wf(),
            size == u@.len(),
            r <= size,
            cells.len() == r,
            forall|i: int| 0 <= i < r ==> (#[trigger] cells[i])@ == tick_grid(u@)[i],
        decreases size - r,
    {
        let mut row: Vec<LCell> = Vec::new();
        let mut c: usize = 0;
        while c < size
            invariant
                u.wf(),
                size == u@.len(),
                r < size,
                c <= size,
                row.len() == c,
                forall|j: int|
                    0 <= j < c ==> #[trigger] row[j] == next_state(
                        u@[r as int][j],
                        live_neighbors(u@, r as int, j),
                    ),
            decreases size - c,
        {
            proof {
                u.lemma_rows();
            }
            let n = count_live_neighbors(u, r, c);
            row.push(apply_rule(u.cells[r][c], n));
            c += 1;
        }
        assert(row@ =~= tick_grid(u@)[r as int]);
        cells.push(row);
        r += 1;
    }
    let next = Universe { cells };
    assert(next@ =~= tick_grid(u@));
    next
}

/// The number of live cells among the first `upto` of a row.
fn count_row_alive(row: &Vec<LCell>, upto: usize) -> (n: usize)
    requires
        upto <= row.len(),
    ensures
        n == row_alive(row@, upto as nat),
{
    let mut n: usize = 0;
    let mut c: usize = 0;
    while c < upto
        invariant
            c <= upto <= row.len(),
            n == row_alive(row@, c as nat),
            n <= c,
        decreases upto - c,
    {
        if row[c].is_alive() {
            n += 1;
        }
        c += 1;
    }
    n
}

/// The number of live cells of the universe.
pub fn count_alive_cells(u: &Universe) -> (n: usize)
    requires
        u.wf(),
    ensures
        n == n_alive(u@),
{
    proof {
        u.lemma_rows();
    }
    let size = u.cells.len();
    let mut n: usize = 0;
    let mut r: usize = 0;
    while r < size
        invariant
            u.wf(),
            size == u@.len(),
            r <= size,
            n == rows_alive(u@, r as nat),
        decreases size - r,
    {
        proof {
            u.lemma_rows();
            lemma_rows_alive_bound(u@, (r + 1) as nat);
            lemma_rows_fit((r + 1) as nat, size as nat);
        }
        let in_row = count_row_alive(&u.cells[r], size);
        n += in_row;
        r += 1;
    }
    n
}

/// The number of positions among the first `upto` at which two rows differ.
fn count_row_distance(a: &Vec<LCell>, b: &Vec<LCell>, upto: usize) -> (n: usize)
    requires
        upto <= a.len(),
        upto <= b.len(),
    ensures
        n == row_distance(a@, b@, upto as nat),
{
    let mut n: usize = 0;
    let mut c: usize = 0;
    while c < upto
        invariant
            c <= upto,
            upto <= a.len(),
            upto <= b.len(),
            n == row_distance(a@, b@, c as nat),
            n <= c,
        decreases upto - c,
    {
        if a[c] != b[c] {
            n += 1;
        }
        c += 1;
    }
    n
}

/// The Hamming distance of two universes of one side: the number of
/// positions at which their cells differ.
pub fn compute_distance(u0: &Universe, u1: &Universe) -> (d: usize)
    requires
        u0.wf(),
        u1.wf(),
        u0@.len() == u1@.len(),
    ensures
        d == distance(u0@, u1@),
{
    proof {
        u0.lemma_rows();
        u1.lemma_rows();
    }
    let size = u0.cells.len();
    let mut d: usize = 0;
    let mut r: usize = 0;
    while r < size
        invariant
            u0.wf(),
            u1.wf(),
            size == u0@.len(),
            size == u1@.len(),
            r <= size,
            d == rows_distance(u0@, u1@, r as nat),
        decreases size - r,
    {
        proof {
            u0.lemma_rows();
            u1.lemma_rows();
            lemma_rows_distance_bound(u0@, u1@, (r + 1) as nat);
            lemma_rows_fit((r + 1) as nat, size as nat);
        }
        let in_row = count_row_distance(&u0.cells[r], &u1.cells[r], size);
        d += in_row;
        r += 1;
    }
    d
}

/// The number of mirrored live pairs of a row whose left cell is among the
/// first `upto` columns.
fn count_row_symmetry(row: &Vec<LCell>, upto: usize) -> (n: usize)
    requires
        upto <= row.len(),
    ensures
        n == row_symmetry(row@, upto as nat),
{
    let len = row.len();
    let mut n: usize = 0;
    let mut c: usize = 0;
    while c < upto
        invariant
            len == row.len(),
            c <= upto <= len,
            n == row_symmetry(row@, c as nat),
            n <= c,
        decreases upto - c,
    {
        if row[c].is_alive() && row[len - 1 - c].is_alive() {
            n += 1;
        }
        c += 1;
    }
    n
}

/// The number of live cells in the left half whose mirror image in the right
/// half is alive too. The side of the universe must be even.
pub fn measure_symmetry(u: &Universe) -> (n: usize)
    requires
        u.wf(),
        u@.len() % 2 == 0,
    ensures
        n == symmetry(u@),
{
    proof {
        u.lemma_rows();
    }
    let size = u.cells.len();
    if size % 2 != 0 {
        // Not supported on an odd side, and no count is made up for it: a
        // caller that the verifier has not seen is stopped here.
        return vstd::pervasive::unreached();
    }
    let half = size / 2;
    let mut n: usize = 0;
    let mut r: usize = 0;
    while r < size
        invariant
            u.wf(),
            size == u@.len(),
            half == size / 2,
            r <= size,
            n == rows_symmetry(u@, r as nat),
        decreases size - r,
    {
        proof {
            u.lemma_rows();
            lemma_rows_symmetry_bound(u@, (r + 1) as nat);
            lemma_rows_fit((r + 1) as nat, size as nat);
        }
        let in_row = count_row_symmetry(&u.cells[r], half);
        n += in_row;
        r += 1;
    }
    n
}

/// Writes the pattern over the centre of the universe: its first cell goes to
/// row and column `size / 2 - pattern.len() / 2`. The result is a new
/// universe.
pub fn seed(u: &Universe, pattern: &Vec<Vec<LCell>>) -> (seeded_u: Universe)
    requires
        u.wf(),
        is_square(rows_of(*pattern)),
        pattern.len() <= u@.len(),
    ensures
        seeded_u.wf(),
        seeded_u@ == seeded(u@, rows_of(*pattern)),
{
    proof {
        u.lemma_rows();
    }
    let size = u.cells.len();
    let side = pattern.len();
    let offset = size / 2 - side / 2;
    let mut cells: Vec<Vec<LCell>> = Vec::new();
    let mut r: usize = 0;
    while r < size
        invariant
            u.wf(),
            is_square(rows_of(*pattern)),
            size == u@.len(),
            side == pattern.len(),
            side <= size,
            offset == seed_offset(size as nat, side as nat),
            r <= size,
            cells.len() == r,
            forall|i: int| 0 <= i < r ==> (#[trigger] cells[i])@ == seeded(u@, rows_of(*pattern))[i],
        decreases size - r,
    {
        let mut row: Vec<LCell> = Vec::new();
        let mut c: usize = 0;
        while c < size
            invariant
                u.wf(),
                is_square(rows_of(*pattern)),
                size == u@.len(),
                side == pattern.len(),
                side <= size,
                offset == seed_offset(size as nat, side as nat),
                r < size,
                c <= size,
                row.len() == c,
                forall|j: int|
                    0 <= j < c ==> #[trigger] row[j] == seeded(u@, rows_of(*pattern))[r as int][j],
            decreases size - c,
        {
            proof {
                u.lemma_rows();
            }
            let inside = offset <= r && r - offset < side && offset <= c && c - offset < side;
            if inside {
                assert(rows_of(*pattern)[r - offset].len() == side);
                row.push(pattern[r - offset][c - offset]);
            } else {
                row.push(u.cells[r][c]);
            }
            c += 1;
        }
        assert(row@ =~= seeded(u@, rows_of(*pattern))[r as int]);
        cells.push(row);
        r += 1;
    }
    let seeded_u = Universe { cells };
    assert(seeded_u@ =~= seeded(u@, rows_of(*pattern)));
    seeded_u
}

/// Applies up to `k` ticks and returns the last universe. A tick that changes
/// no cell ends the run early: only a fixed point is detected, so a pattern
/// that oscillates uses all `k` ticks.
pub fn simulate(u: &Universe, k: usize) -> (last: Universe)
    requires
        u.wf(),
    ensures
        last.wf(),
        last@ == simulated(u@, k as nat),
{
    let mut current = u.clone();
    let mut i: usize = 0;
    while i < k
        invariant
            current.wf(),
            i <= k,
            simulated(u@, k as nat) == simulated(current@, (k - i) as nat),
        decreases k - i,
    {
        let next = tick(&current);
        if next == current {
            return next;
        }
        current = next;
        i += 1;
    }
    current
}

/// Applies up to `k` ticks as `simulate` does and returns every universe on
/// the way, the given one first. A tick that changes no cell ends the run and
/// adds no frame.
pub fn simulate_with_history(u: &Universe, k: usize) -> (history: Vec<Universe>)
    requires
        u.wf(),
    ensures
        frames_of(history) == history_of(u@, k as nat),
        forall|i: int| 0 <= i < history.len() ==> (#[trigger] history[i]).wf(),
{
    let mut current = u.clone();
    let mut history: Vec<Universe> = Vec::new();
    history.push(current.clone());
    assert(frames_of(history) =~= seq![u@]);
    let mut i: usize = 0;
    while i < k
        invariant
            current.wf(),
            i <= k,
            history.len() >= 1,
            frames_of(history).last() == current@,
            history_of(u@, k as nat) == frames_of(history).drop_last() + history_of(
                current@,
                (k - i) as nat,
            ),
            forall|j: int| 0 <= j < history.len() ==> (#[trigger] history[j]).wf(),
        decreases k - i,
    {
        let next = tick(&current);
        if next == current {
            assert(frames_of(history) =~= frames_of(history).drop_last() + seq![current@]);
            return history;
        }
        let ghost before = frames_of(history);
        current = next;
        history.push(current.clone());
        i += 1;
        proof {
            let after = frames_of(history);
            assert(after.drop_last() =~= before);
            assert(before =~= before.drop_last() + seq![before.last()]);
            assert(history_of(u@, k as nat) =~= after.drop_last() + history_of(
                current@,
                (k - i) as nat,
            ));
        }
    }
    assert(frames_of(history) =~= frames_of(history).drop_last() + seq![current@]);
    history
}

} // verus!
