//! The individual: a seed pattern with its novelty score, and mutation.

use rand::rngs::StdRng;
use vstd::prelude::*;
use crate::cells::{copy_cells, copy_row, dead_cells, rows_of};
use crate::grid::{dead_grid, is_square, same_shape};
use crate::lcell::{flipped, LCell};
use crate::random::sample_below;

verus! {

/// The score of an individual that has not been compared with enough others.
pub const NOVELTY_MIN: usize = 0;

/// The grid with the cell at one position flipped.
pub open spec fn toggled_at(g: Seq<Seq<LCell>>, row: int, col: int) -> Seq<Seq<LCell>> {
    g.update(row, g[row].update(col, flipped(g[row][col])))
}

/// The grid after the cells at the given positions were flipped, one after
/// the other. A position that occurs twice is flipped twice.
pub open spec fn toggled_all(g: Seq<Seq<LCell>>, sites: Seq<(usize, usize)>) -> Seq<Seq<LCell>>
    decreases sites.len(),
{
    if sites.len() == 0 {
        g
    } else {
        toggled_at(toggled_all(g, sites.drop_last()), sites.last().0 as int, sites.last().1 as int)
    }
}

/// Whether every position lies inside a square grid of the given side.
pub open spec fn sites_within(sites: Seq<(usize, usize)>, side: nat) -> bool {
    forall|i: int| 0 <= i < sites.len() ==> (#[trigger] sites[i]).0 < side && sites[i].1 < side
}

/// Whether `child` comes from `parent` by flipping cells at `n` positions
/// inside the grid.
pub open spec fn is_mutation_of(child: Seq<Seq<LCell>>, parent: Seq<Seq<LCell>>, n: nat) -> bool {
    exists|sites: Seq<(usize, usize)>|
        sites.len() == n && sites_within(sites, parent.len()) && child == #[trigger] toggled_all(
            parent,
            sites,
        )
}

/// Flipping the cell at a position twice restores the grid: a position drawn
/// twice cancels itself.
pub proof fn lemma_toggled_twice(g: Seq<Seq<LCell>>, row: int, col: int)
    requires
        0 <= row < g.len(),
        0 <= col < g[row].len(),
    ensures
        toggled_at(toggled_at(g, row, col), row, col) == g,
{
    let once = toggled_at(g, row, col);
    let twice = toggled_at(once, row, col);
    assert(twice[row] =~= g[row]);
    assert(twice =~= g);
}

/// Flipping the cell at a position changes that cell and no other.
pub proof fn lemma_toggled_at(g: Seq<Seq<LCell>>, row: int, col: int)
    requires
        0 <= row < g.len(),
        0 <= col < g[row].len(),
    ensures
        same_shape(toggled_at(g, row, col), g),
        toggled_at(g, row, col)[row][col] == flipped(g[row][col]),
        forall|r: int, c: int|
            0 <= r < g.len() && 0 <= c < g[r].len() && (r != row || c != col) ==> toggled_at(
                g,
                row,
                col,
            )[r][c] == g[r][c],
{
}

/// Flips at positions inside a square grid leave it a square of its side.
pub proof fn lemma_toggled_all_square(g: Seq<Seq<LCell>>, sites: Seq<(usize, usize)>)
    requires
        is_square(g),
        sites_within(sites, g.len()),
    ensures
        is_square(toggled_all(g, sites)),
        toggled_all(g, sites).len() == g.len(),
    decreases sites.len(),
{
    if sites.len() > 0 {
        lemma_toggled_all_square(g, sites.drop_last());
        let before = toggled_all(g, sites.drop_last());
        let after = toggled_all(g, sites);
        assert(sites.last() == sites[sites.len() - 1]);
        assert forall|r: int| 0 <= r < after.len() implies (#[trigger] after[r]).len()
            == after.len() by {
            assert(before[r].len() == before.len());
        }
    }
}

/// What an individual is: its pattern and its score.
pub struct Genotype {
    pub cells: Seq<Seq<LCell>>,
    pub novelty: nat,
}

/// A seed pattern and the novelty that its outcome was given.
#[derive(Debug)]
pub struct Individual {
    pub cells: Vec<Vec<LCell>>,
    pub novelty: usize,
}

impl View for Individual {
    type V = Genotype;

    open spec fn view(&self) -> Genotype {
        Genotype { cells: rows_of(self.cells), novelty: self.novelty as nat }
    }
}

impl Clone for Individual {
    fn clone(&self) -> (copy: Self)
        ensures
            copy@ == self@,
    {
        Individual { cells: copy_cells(&self.cells), novelty: self.novelty }
    }
}

/// A copy of the cells with those at the given positions flipped in turn.
pub fn toggle_cells(
    cells: &Vec<Vec<LCell>>,
    sites: &Vec<(usize, usize)>,
) -> (toggled: Vec<Vec<LCell>>)
    requires
        is_square(rows_of(*cells)),
        sites_within(sites@, cells.len() as nat),
    ensures
        rows_of(toggled) == toggled_all(rows_of(*cells), sites@),
        is_square(rows_of(toggled)),
        toggled.len() == cells.len(),
{
    let mut toggled = copy_cells(cells);
    let side = cells.len();
    let mut i: usize = 0;
    assert(sites@.take(0) =~= Seq::<(usize, usize)>::empty());
    while i < sites.len()
        invariant
            i <= sites.len(),
            side == cells.len(),
            sites_within(sites@, side as nat),
            toggled.len() == side,
            is_square(rows_of(toggled)),
            rows_of(toggled) == toggled_all(rows_of(*cells), sites@.take(i as int)),
        decreases sites.len() - i,
    {
        let (row, col) = sites[i];
        let ghost before = rows_of(toggled);
        assert(before[row as int].len() == side);
        let mut changed = copy_row(&toggled[row]);
        let cell = changed[col].toggled();
        changed.set(col, cell);
        toggled.set(row, changed);
        proof {
            assert(rows_of(toggled) =~= toggled_at(before, row as int, col as int));
            assert(sites@.take(i + 1).drop_last() =~= sites@.take(i as int));
            assert forall|r: int| 0 <= r < rows_of(toggled).len() implies (#[trigger] rows_of(
                toggled,
            )[r]).len() == rows_of(toggled).len() by {
                assert(before[r].len() == side);
            }
        }
        i += 1;
    }
    assert(sites@.take(sites.len() as int) =~= sites@);
    toggled
}

/// Draws `n` positions of a square grid of the given side, the row of each
/// before its column.
pub(crate) fn draw_sites(rng: &mut StdRng, side: usize, n: usize) -> (sites: Vec<(usize, usize)>)
    requires
        side > 0,
    ensures
        sites.len() == n,
        sites_within(sites@, side as nat),
{
    let mut sites: Vec<(usize, usize)> = Vec::new();
    let mut i: usize = 0;
    while i < n
        invariant
            side > 0,
            i <= n,
            sites.len() == i,
            sites_within(sites@, side as nat),
        decreases n - i,
    {
        let row = sample_below(rng, side);
        let col = sample_below(rng, side);
        sites.push((row, col));
        i += 1;
    }
    sites
}

impl Individual {
    /// The invariant of every individual: its pattern is square.
    pub open spec fn wf(&self) -> bool {
        is_square(rows_of(self.cells))
    }

    /// The all-dead pattern of the given side, not yet scored.
    pub fn new(size: usize) -> (ind: Individual)
        ensures
            ind.wf(),
            ind@.cells == dead_grid(size as nat),
            ind@.novelty == NOVELTY_MIN,
    {
        Individual { cells: dead_cells(size), novelty: NOVELTY_MIN }
    }

    /// The child that differs from this individual by flips at the given
    /// positions, applied in turn. It keeps the parent's score.
    pub fn mutate_at(&self, sites: &Vec<(usize, usize)>) -> (child: Individual)
        requires
            self.wf(),
            sites_within(sites@, self.cells.len() as nat),
        ensures
            child.wf(),
            child@.cells == toggled_all(self@.cells, sites@),
            child@.novelty == self@.novelty,
    {
        Individual { cells: toggle_cells(&self.cells, sites), novelty: self.novelty }
    }

    /// The child that differs from this individual by `n_mutations` flips at
    /// positions drawn from the generator, each uniformly and independently
    /// of the others. A position drawn twice is flipped twice.
    pub fn mutate(&self, n_mutations: usize, rng: &mut StdRng) -> (child: Individual)
        requires
            self.wf(),
            self.cells.len() > 0,
        ensures
            child.wf(),
            is_mutation_of(child@.cells, self@.cells, n_mutations as nat),
            child@.novelty == self@.novelty,
    {
        let sites = draw_sites(rng, self.cells.len(), n_mutations);
        self.mutate_at(&sites)
    }
}

} // verus!
