//! The mathematical model of a grid: a sequence of rows of cells, and the
//! functions of the automaton stated over it.

use vstd::prelude::*;
use crate::lcell::LCell;

verus! {

/// Every row is as long as the grid has rows.
pub open spec fn is_square(g: Seq<Seq<LCell>>) -> bool {
    forall|r: int| 0 <= r < g.len() ==> (#[trigger] g[r]).len() == g.len()
}

/// Two grids have as many rows, and each row of the one as many cells as the
/// row of the other.
pub open spec fn same_shape(a: Seq<Seq<LCell>>, b: Seq<Seq<LCell>>) -> bool {
    &&& a.len() == b.len()
    &&& forall|r: int| 0 <= r < a.len() ==> (#[trigger] a[r]).len() == b[r].len()
}

/// A grid that a universe can hold: square, not empty, and with a number of
/// cells that a machine word can count.
pub open spec fn is_universe(g: Seq<Seq<LCell>>) -> bool {
    &&& g.len() > 0
    &&& is_square(g)
    &&& g.len() * g.len() <= usize::MAX
}

/// The square grid of side `n` whose cells are all dead.
pub open spec fn dead_grid(n: nat) -> Seq<Seq<LCell>> {
    Seq::new(n, |r: int| Seq::new(n, |c: int| LCell::Dead))
}

/// Whether the position lies inside the grid and holds a live cell. A
/// position outside the grid holds none: the grid does not wrap around.
pub open spec fn alive_at(g: Seq<Seq<LCell>>, r: int, c: int) -> bool {
    0 <= r < g.len() && 0 <= c < g[r].len() && g[r][c] == LCell::Alive
}

pub open spec fn one_if(b: bool) -> nat {
    if b {
        1
    } else {
        0
    }
}

/// The number of live cells among the up to eight positions around `(r, c)`.
pub open spec fn live_neighbors(g: Seq<Seq<LCell>>, r: int, c: int) -> nat {
    one_if(alive_at(g, r - 1, c - 1)) + one_if(alive_at(g, r - 1, c)) + one_if(
        alive_at(g, r - 1, c + 1),
    ) + one_if(alive_at(g, r, c - 1)) + one_if(alive_at(g, r, c + 1)) + one_if(
        alive_at(g, r + 1, c - 1),
    ) + one_if(alive_at(g, r + 1, c)) + one_if(alive_at(g, r + 1, c + 1))
}

/// The transition rule: fewer than two live neighbours kill, two keep the
/// cell as it is, three give life, more than three kill.
pub open spec fn next_state(current: LCell, neighbors: nat) -> LCell {
    if neighbors < 2 {
        LCell::Dead
    } else if neighbors == 2 {
        current
    } else if neighbors == 3 {
        LCell::Alive
    } else {
        LCell::Dead
    }
}

/// One tick: the rule applied to every cell, each reading the grid as it was
/// before the tick.
pub open spec fn tick_grid(g: Seq<Seq<LCell>>) -> Seq<Seq<LCell>> {
    Seq::new(
        g.len(),
        |r: int| Seq::new(g[r].len(), |c: int| next_state(g[r][c], live_neighbors(g, r, c))),
    )
}

/// Up to `k` ticks, stopping after the first tick that changes nothing.
pub open spec fn simulated(g: Seq<Seq<LCell>>, k: nat) -> Seq<Seq<LCell>>
    decreases k,
{
    if k == 0 {
        g
    } else {
        let next = tick_grid(g);
        if next == g {
            next
        } else {
            simulated(next, (k - 1) as nat)
        }
    }
}

/// The grids that `simulated` passes through, the starting grid first. A
/// tick that changes nothing ends the sequence and adds no frame.
pub open spec fn history_of(g: Seq<Seq<LCell>>, k: nat) -> Seq<Seq<Seq<LCell>>>
    decreases k,
{
    if k == 0 {
        seq![g]
    } else {
        let next = tick_grid(g);
        if next == g {
            seq![g]
        } else {
            seq![g] + history_of(next, (k - 1) as nat)
        }
    }
}

/// Where a pattern of side `p` starts, along both axes, when it is centred in
/// a grid of side `n`.
pub open spec fn seed_offset(n: nat, p: nat) -> int {
    n as int / 2 - p as int / 2
}

/// The grid with the pattern written over its centre.
pub open spec fn seeded(g: Seq<Seq<LCell>>, pattern: Seq<Seq<LCell>>) -> Seq<Seq<LCell>> {
    let off = seed_offset(g.len(), pattern.len());
    let p = pattern.len() as int;
    Seq::new(
        g.len(),
        |r: int|
            Seq::new(
                g[r].len(),
                |c: int|
                    if off <= r < off + p && off <= c < off + p {
                        pattern[r - off][c - off]
                    } else {
                        g[r][c]
                    },
            ),
    )
}

/// The number of live cells among the first `j` of a row.
pub open spec fn row_alive(row: Seq<LCell>, j: nat) -> nat
    decreases j,
{
    if j == 0 {
        0
    } else {
        row_alive(row, (j - 1) as nat) + one_if(row[j - 1] == LCell::Alive)
    }
}

/// The number of live cells in the first `i` rows.
pub open spec fn rows_alive(g: Seq<Seq<LCell>>, i: nat) -> nat
    decreases i,
{
    if i == 0 {
        0
    } else {
        rows_alive(g, (i - 1) as nat) + row_alive(g[i - 1], g[i - 1].len())
    }
}

/// The number of live cells of the grid.
pub open spec fn n_alive(g: Seq<Seq<LCell>>) -> nat {
    rows_alive(g, g.len())
}

/// The number of positions among the first `j` at which two rows differ.
pub open spec fn row_distance(a: Seq<LCell>, b: Seq<LCell>, j: nat) -> nat
    decreases j,
{
    if j == 0 {
        0
    } else {
        row_distance(a, b, (j - 1) as nat) + one_if(a[j - 1] != b[j - 1])
    }
}

/// The number of positions in the first `i` rows at which two grids differ.
pub open spec fn rows_distance(a: Seq<Seq<LCell>>, b: Seq<Seq<LCell>>, i: nat) -> nat
    decreases i,
{
    if i == 0 {
        0
    } else {
        rows_distance(a, b, (i - 1) as nat) + row_distance(a[i - 1], b[i - 1], a[i - 1].len())
    }
}

/// The Hamming distance of two grids of one shape: the number of positions
/// at which they differ.
pub open spec fn distance(a: Seq<Seq<LCell>>, b: Seq<Seq<LCell>>) -> nat {
    rows_distance(a, b, a.len())
}

/// Whether the cell at column `c` of the row and the cell at the mirrored
/// column are both alive.
pub open spec fn mirrored_pair(row: Seq<LCell>, c: int) -> bool {
    row[c] == LCell::Alive && row[row.len() - 1 - c] == LCell::Alive
}

/// The number of mirrored live pairs of a row whose left cell is among the
/// first `j` columns.
pub open spec fn row_symmetry(row: Seq<LCell>, j: nat) -> nat
    decreases j,
{
    if j == 0 {
        0
    } else {
        row_symmetry(row, (j - 1) as nat) + one_if(mirrored_pair(row, j - 1))
    }
}

/// The number of mirrored live pairs in the first `i` rows, each pair found
/// from its cell in the left half.
pub open spec fn rows_symmetry(g: Seq<Seq<LCell>>, i: nat) -> nat
    decreases i,
{
    if i == 0 {
        0
    } else {
        rows_symmetry(g, (i - 1) as nat) + row_symmetry(g[i - 1], g[i - 1].len() / 2)
    }
}

/// The number of mirrored live pairs of a grid of even side.
pub open spec fn symmetry(g: Seq<Seq<LCell>>) -> nat {
    rows_symmetry(g, g.len())
}

/// A row holds no more live cells among its first `j` than `j`.
pub proof fn lemma_row_alive_bound(row: Seq<LCell>, j: nat)
    ensures
        row_alive(row, j) <= j,
    decreases j,
{
    if j > 0 {
        lemma_row_alive_bound(row, (j - 1) as nat);
    }
}

/// The first `i` rows of a square grid hold no more live cells than cells.
pub proof fn lemma_rows_alive_bound(g: Seq<Seq<LCell>>, i: nat)
    requires
        is_square(g),
        i <= g.len(),
    ensures
        rows_alive(g, i) <= i * g.len(),
    decreases i,
{
    if i > 0 {
        lemma_rows_alive_bound(g, (i - 1) as nat);
        lemma_row_alive_bound(g[i - 1], g[i - 1].len());
        assert((i - 1) * g.len() + g.len() == i * g.len()) by (nonlinear_arith);
    }
}

/// Two rows differ at no more of their first `j` positions than `j`.
pub proof fn lemma_row_distance_bound(a: Seq<LCell>, b: Seq<LCell>, j: nat)
    ensures
        row_distance(a, b, j) <= j,
    decreases j,
{
    if j > 0 {
        lemma_row_distance_bound(a, b, (j - 1) as nat);
    }
}

/// Two square grids differ in their first `i` rows at no more positions than
/// these rows have.
pub proof fn lemma_rows_distance_bound(a: Seq<Seq<LCell>>, b: Seq<Seq<LCell>>, i: nat)
    requires
        is_square(a),
        i <= a.len(),
    ensures
        rows_distance(a, b, i) <= i * a.len(),
    decreases i,
{
    if i > 0 {
        lemma_rows_distance_bound(a, b, (i - 1) as nat);
        lemma_row_distance_bound(a[i - 1], b[i - 1], a[i - 1].len());
        assert((i - 1) * a.len() + a.len() == i * a.len()) by (nonlinear_arith);
    }
}

/// A row has no more mirrored pairs found from its first `j` columns than `j`.
pub proof fn lemma_row_symmetry_bound(row: Seq<LCell>, j: nat)
    ensures
        row_symmetry(row, j) <= j,
    decreases j,
{
    if j > 0 {
        lemma_row_symmetry_bound(row, (j - 1) as nat);
    }
}

/// The first `i` rows of a square grid have no more mirrored pairs than cells.
pub proof fn lemma_rows_symmetry_bound(g: Seq<Seq<LCell>>, i: nat)
    requires
        is_square(g),
        i <= g.len(),
    ensures
        rows_symmetry(g, i) <= i * g.len(),
    decreases i,
{
    if i > 0 {
        lemma_rows_symmetry_bound(g, (i - 1) as nat);
        lemma_row_symmetry_bound(g[i - 1], g[i - 1].len() / 2);
        assert((i - 1) * g.len() + g.len() == i * g.len()) by (nonlinear_arith);
    }
}

/// A row is at distance zero from itself.
pub proof fn lemma_row_distance_self(a: Seq<LCell>, j: nat)
    ensures
        row_distance(a, a, j) == 0,
    decreases j,
{
    if j > 0 {
        lemma_row_distance_self(a, (j - 1) as nat);
    }
}

/// The distance of two rows does not depend on their order.
pub proof fn lemma_row_distance_symmetric(a: Seq<LCell>, b: Seq<LCell>, j: nat)
    ensures
        row_distance(a, b, j) == row_distance(b, a, j),
    decreases j,
{
    if j > 0 {
        lemma_row_distance_symmetric(a, b, (j - 1) as nat);
    }
}

/// Two rows at distance zero agree at every position counted.
pub proof fn lemma_row_distance_zero(a: Seq<LCell>, b: Seq<LCell>, j: nat)
    requires
        row_distance(a, b, j) == 0,
    ensures
        forall|c: int| 0 <= c < j ==> a[c] == b[c],
    decreases j,
{
    if j > 0 {
        lemma_row_distance_zero(a, b, (j - 1) as nat);
    }
}

/// The way from one row to another is no longer than the way over a third.
pub proof fn lemma_row_distance_triangle(a: Seq<LCell>, b: Seq<LCell>, c: Seq<LCell>, j: nat)
    ensures
        row_distance(a, c, j) <= row_distance(a, b, j) + row_distance(b, c, j),
    decreases j,
{
    if j > 0 {
        lemma_row_distance_triangle(a, b, c, (j - 1) as nat);
    }
}

/// The first `i` rows of a grid are at distance zero from themselves.
pub proof fn lemma_rows_distance_self(a: Seq<Seq<LCell>>, i: nat)
    ensures
        rows_distance(a, a, i) == 0,
    decreases i,
{
    if i > 0 {
        lemma_rows_distance_self(a, (i - 1) as nat);
        lemma_row_distance_self(a[i - 1], a[i - 1].len());
    }
}

/// The distance over the first `i` rows of two grids of one shape does not
/// depend on their order.
pub proof fn lemma_rows_distance_symmetric(a: Seq<Seq<LCell>>, b: Seq<Seq<LCell>>, i: nat)
    requires
        same_shape(a, b),
        i <= a.len(),
    ensures
        rows_distance(a, b, i) == rows_distance(b, a, i),
    decreases i,
{
    if i > 0 {
        lemma_rows_distance_symmetric(a, b, (i - 1) as nat);
        lemma_row_distance_symmetric(a[i - 1], b[i - 1], a[i - 1].len());
    }
}

/// Two grids of one shape at distance zero over their first `i` rows agree
/// in these rows.
pub proof fn lemma_rows_distance_zero(a: Seq<Seq<LCell>>, b: Seq<Seq<LCell>>, i: nat)
    requires
        same_shape(a, b),
        i <= a.len(),
        rows_distance(a, b, i) == 0,
    ensures
        forall|r: int| 0 <= r < i ==> #[trigger] a[r] == b[r],
    decreases i,
{
    if i > 0 {
        lemma_rows_distance_zero(a, b, (i - 1) as nat);
        lemma_row_distance_zero(a[i - 1], b[i - 1], a[i - 1].len());
        assert(a[i - 1] =~= b[i - 1]);
    }
}

/// The triangle inequality over the first `i` rows of three grids of one
/// shape.
pub proof fn lemma_rows_distance_triangle(
    a: Seq<Seq<LCell>>,
    b: Seq<Seq<LCell>>,
    c: Seq<Seq<LCell>>,
    i: nat,
)
    requires
        same_shape(a, b),
        i <= a.len(),
    ensures
        rows_distance(a, c, i) <= rows_distance(a, b, i) + rows_distance(b, c, i),
    decreases i,
{
    if i > 0 {
        lemma_rows_distance_triangle(a, b, c, (i - 1) as nat);
        lemma_row_distance_triangle(a[i - 1], b[i - 1], c[i - 1], a[i - 1].len());
    }
}

/// Every grid is at distance zero from itself.
pub proof fn lemma_distance_self(a: Seq<Seq<LCell>>)
    ensures
        distance(a, a) == 0,
{
    lemma_rows_distance_self(a, a.len());
}

/// The distance of two grids of one shape is the same in both directions.
pub proof fn lemma_distance_symmetric(a: Seq<Seq<LCell>>, b: Seq<Seq<LCell>>)
    requires
        same_shape(a, b),
    ensures
        distance(a, b) == distance(b, a),
{
    lemma_rows_distance_symmetric(a, b, a.len());
}

/// Two grids of one shape are at distance zero only if they are one grid.
pub proof fn lemma_distance_zero_iff_equal(a: Seq<Seq<LCell>>, b: Seq<Seq<LCell>>)
    requires
        same_shape(a, b),
    ensures
        distance(a, b) == 0 <==> a == b,
{
    if distance(a, b) == 0 {
        lemma_rows_distance_zero(a, b, a.len());
        assert(a =~= b);
    }
    if a == b {
        lemma_distance_self(a);
    }
}

/// The distance of two grids of one shape is no larger than the sum of their
/// distances from a third of that shape.
pub proof fn lemma_distance_triangle(a: Seq<Seq<LCell>>, b: Seq<Seq<LCell>>, c: Seq<Seq<LCell>>)
    requires
        same_shape(a, b),
        same_shape(b, c),
    ensures
        distance(a, c) <= distance(a, b) + distance(b, c),
{
    lemma_rows_distance_triangle(a, b, c, a.len());
}

/// Two square grids differ at no more positions than they have.
pub proof fn lemma_distance_bound(a: Seq<Seq<LCell>>, b: Seq<Seq<LCell>>)
    requires
        is_square(a),
    ensures
        distance(a, b) <= a.len() * a.len(),
{
    lemma_rows_distance_bound(a, b, a.len());
}

/// A tick of a universe gives a universe of the same side.
pub proof fn lemma_tick_universe(g: Seq<Seq<LCell>>)
    requires
        is_universe(g),
    ensures
        is_universe(tick_grid(g)),
        tick_grid(g).len() == g.len(),
{
}

/// A simulation of a universe gives a universe of the same side.
pub proof fn lemma_simulated_universe(g: Seq<Seq<LCell>>, k: nat)
    requires
        is_universe(g),
    ensures
        is_universe(simulated(g, k)),
        simulated(g, k).len() == g.len(),
    decreases k,
{
    if k > 0 {
        let next = tick_grid(g);
        lemma_tick_universe(g);
        if next != g {
            lemma_simulated_universe(next, (k - 1) as nat);
        }
    }
}

/// A grid that a tick does not change is what every simulation of it gives.
pub proof fn lemma_simulated_fixed_point(g: Seq<Seq<LCell>>, k: nat)
    requires
        tick_grid(g) == g,
    ensures
        simulated(g, k) == g,
{
}

/// The grid after `j` ticks, none of them left out.
pub open spec fn ticked(g: Seq<Seq<LCell>>, j: nat) -> Seq<Seq<LCell>>
    decreases j,
{
    if j == 0 {
        g
    } else {
        tick_grid(ticked(g, (j - 1) as nat))
    }
}

/// A tick before `j` ticks is a tick after them.
pub proof fn lemma_ticked_first(g: Seq<Seq<LCell>>, j: nat)
    ensures
        ticked(tick_grid(g), j) == tick_grid(ticked(g, j)),
    decreases j,
{
    if j > 0 {
        lemma_ticked_first(g, (j - 1) as nat);
    }
}

/// A simulation with a budget of `k` ticks gives the grid after exactly `k`
/// ticks: the tick that it leaves out after a fixed point would change
/// nothing.
pub proof fn lemma_simulated_is_ticked(g: Seq<Seq<LCell>>, k: nat)
    ensures
        simulated(g, k) == ticked(g, k),
    decreases k,
{
    if k > 0 {
        let next = tick_grid(g);
        lemma_ticked_first(g, (k - 1) as nat);
        if next == g {
            lemma_ticked_fixed(g, k);
        } else {
            lemma_simulated_is_ticked(next, (k - 1) as nat);
        }
    }
}

/// Ticks change nothing in a grid that one tick does not change.
pub proof fn lemma_ticked_fixed(g: Seq<Seq<LCell>>, j: nat)
    requires
        tick_grid(g) == g,
    ensures
        ticked(g, j) == g,
    decreases j,
{
    if j > 0 {
        lemma_ticked_fixed(g, (j - 1) as nat);
    }
}

/// The history of a simulation starts with the given grid, has at most one
/// frame for each tick besides it, goes from each frame to the next by one
/// tick that changes the grid, and ends with what the simulation gives.
pub proof fn lemma_history(g: Seq<Seq<LCell>>, k: nat)
    ensures
        1 <= history_of(g, k).len() <= k + 1,
        history_of(g, k)[0] == g,
        history_of(g, k).last() == simulated(g, k),
        forall|i: int|
            0 <= i < history_of(g, k).len() - 1 ==> #[trigger] history_of(g, k)[i + 1]
                == tick_grid(history_of(g, k)[i]) && history_of(g, k)[i + 1] != history_of(g, k)[i],
        history_of(g, k).len() <= k ==> tick_grid(simulated(g, k)) == simulated(g, k),
    decreases k,
{
    if k > 0 {
        let next = tick_grid(g);
        if next != g {
            lemma_history(next, (k - 1) as nat);
            let rest = history_of(next, (k - 1) as nat);
            let all = history_of(g, k);
            assert(all == seq![g] + rest);
            assert(all.last() == rest.last());
            assert forall|i: int| 0 <= i < all.len() - 1 implies #[trigger] all[i + 1]
                == tick_grid(all[i]) && all[i + 1] != all[i] by {
                if i > 0 {
                    assert(all[i] == rest[i - 1]);
                    assert(all[i + 1] == rest[(i - 1) + 1]);
                } else {
                    assert(all[1] == rest[0]);
                }
            }
        }
    }
}

/// The cells of `i` rows of a grid of side `n` are no more than all its cells.
pub proof fn lemma_rows_fit(i: nat, n: nat)
    requires
        i <= n,
    ensures
        i * n <= n * n,
{
    assert(i * n <= n * n) by (nonlinear_arith)
        requires
            i <= n,
    ;
}

} // verus!
