//! Matrices of cells as they are stored: a vector of rows.

use vstd::prelude::*;
use crate::lcell::LCell;

verus! {

/// The rows of a matrix of cells as a sequence of sequences.
pub open spec fn rows_of(cells: Vec<Vec<LCell>>) -> Seq<Seq<LCell>> {
    Seq::new(cells.len() as nat, |r: int| cells[r]@)
}

/// A row of `n` dead cells.
pub(crate) fn dead_row(n: usize) -> (row: Vec<LCell>)
    ensures
        row@ == Seq::new(n as nat, |c: int| LCell::Dead),
{
    let mut row: Vec<LCell> = Vec::new();
    let mut c: usize = 0;
    while c < n
        invariant
            c <= n,
            row.len() == c,
            forall|i: int| 0 <= i < c ==> row[i] == LCell::Dead,
        decreases n - c,
    {
        row.push(LCell::Dead);
        c += 1;
    }
    assert(row@ =~= Seq::new(n as nat, |c: int| LCell::Dead));
    row
}

/// The square matrix of side `n` whose cells are all dead.
pub(crate) fn dead_cells(n: usize) -> (cells: Vec<Vec<LCell>>)
    ensures
        rows_of(cells) == crate::grid::dead_grid(n as nat),
{
    let mut cells: Vec<Vec<LCell>> = Vec::new();
    let mut r: usize = 0;
    while r < n
        invariant
            r <= n,
            cells.len() == r,
            forall|i: int|
                0 <= i < r ==> (#[trigger] cells[i])@ == Seq::new(n as nat, |c: int| LCell::Dead),
        decreases n - r,
    {
        cells.push(dead_row(n));
        r += 1;
    }
    assert(rows_of(cells) =~= crate::grid::dead_grid(n as nat));
    cells
}

/// A copy of a row.
pub(crate) fn copy_row(row: &Vec<LCell>) -> (copy: Vec<LCell>)
    ensures
        copy@ == row@,
{
    let mut copy: Vec<LCell> = Vec::new();
    let mut c: usize = 0;
    while c < row.len()
        invariant
            c <= row.len(),
            copy.len() == c,
            forall|i: int| 0 <= i < c ==> copy[i] == row[i],
        decreases row.len() - c,
    {
        copy.push(row[c]);
        c += 1;
    }
    assert(copy@ =~= row@);
    copy
}

/// A copy of a matrix, row by row.
pub(crate) fn copy_cells(cells: &Vec<Vec<LCell>>) -> (copy: Vec<Vec<LCell>>)
    ensures
        rows_of(copy) == rows_of(*cells),
        copy.len() == cells.len(),
{
    let mut copy: Vec<Vec<LCell>> = Vec::new();
    let mut r: usize = 0;
    while r < cells.len()
        invariant
            r <= cells.len(),
            copy.len() == r,
            forall|i: int| 0 <= i < r ==> (#[trigger] copy[i])@ == cells[i]@,
        decreases cells.len() - r,
    {
        copy.push(copy_row(&cells[r]));
        r += 1;
    }
    assert(rows_of(copy) =~= rows_of(*cells));
    copy
}

/// Whether two rows hold the same cells.
pub(crate) fn same_row(a: &Vec<LCell>, b: &Vec<LCell>) -> (same: bool)
    ensures
        same == (a@ == b@),
{
    if a.len() != b.len() {
        return false;
    }
    let mut c: usize = 0;
    while c < a.len()
        invariant
            a.len() == b.len(),
            c <= a.len(),
            forall|i: int| 0 <= i < c ==> a[i] == b[i],
        decreases a.len() - c,
    {
        if a[c] != b[c] {
            return false;
        }
        c += 1;
    }
    assert(a@ =~= b@);
    true
}

/// Whether two matrices hold the same cells.
pub(crate) fn same_cells(a: &Vec<Vec<LCell>>, b: &Vec<Vec<LCell>>) -> (same: bool)
    ensures
        same == (rows_of(*a) == rows_of(*b)),
{
    if a.len() != b.len() {
        assert(rows_of(*a).len() != rows_of(*b).len());
        return false;
    }
    let mut r: usize = 0;
    while r < a.len()
        invariant
            a.len() == b.len(),
            r <= a.len(),
            forall|i: int| 0 <= i < r ==> (#[trigger] a[i])@ == b[i]@,
        decreases a.len() - r,
    {
        if !same_row(&a[r], &b[r]) {
            assert(rows_of(*a)[r as int] != rows_of(*b)[r as int]);
            return false;
        }
        r += 1;
    }
    assert(rows_of(*a) =~= rows_of(*b));
    true
}

} // verus!
