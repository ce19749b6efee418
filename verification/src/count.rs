//! Counting the marked positions of a grid: the sums that the metrics are
//! defined by, held against the sizes of the sets of positions that they
//! count.

use vstd::prelude::*;
use crate::grid::{
    distance, mirrored_pair, n_alive, one_if, row_alive, row_distance, row_symmetry, rows_alive,
    rows_distance, rows_symmetry, symmetry,
};
use crate::lcell::LCell;

verus! {

/// The number of marks among the first `j` of a row.
pub open spec fn marks_in_row(row: Seq<bool>, j: nat) -> nat
    decreases j,
{
    if j == 0 {
        0
    } else {
        marks_in_row(row, (j - 1) as nat) + one_if(row[j - 1])
    }
}

/// The number of marks in the first `i` rows.
pub open spec fn marks_in_rows(m: Seq<Seq<bool>>, i: nat) -> nat
    decreases i,
{
    if i == 0 {
        0
    } else {
        marks_in_rows(m, (i - 1) as nat) + marks_in_row(m[i - 1], m[i - 1].len())
    }
}

/// The marked positions in the first `i` rows and among the first `j`
/// positions of the row after them.
pub open spec fn marked_upto(m: Seq<Seq<bool>>, i: int, j: int) -> Set<(int, int)> {
    Set::new(
        |p: (int, int)|
            (0 <= p.0 < i && 0 <= p.1 < m[p.0].len() && m[p.0][p.1]) || (p.0 == i && 0 <= p.1 < j
                && m[i][p.1]),
    )
}

/// The marked positions of a grid of marks.
pub open spec fn marked(m: Seq<Seq<bool>>) -> Set<(int, int)> {
    Set::new(|p: (int, int)| 0 <= p.0 < m.len() && 0 <= p.1 < m[p.0].len() && m[p.0][p.1])
}

/// The marked positions up to a place are finitely many, as many as the sums
/// of the marks say.
pub proof fn lemma_marked_upto(m: Seq<Seq<bool>>, i: nat, j: nat)
    requires
        i < m.len(),
        j <= m[i as int].len(),
    ensures
        marked_upto(m, i as int, j as int).finite(),
        marked_upto(m, i as int, j as int).len() == marks_in_rows(m, i) + marks_in_row(
            m[i as int],
            j,
        ),
    decreases i, j,
{
    let here = marked_upto(m, i as int, j as int);
    if j > 0 {
        lemma_marked_upto(m, i, (j - 1) as nat);
        let before = marked_upto(m, i as int, j - 1);
        if m[i as int][j - 1] {
            assert(here =~= before.insert((i as int, j - 1)));
            assert(!before.contains((i as int, j - 1)));
        } else {
            assert(here =~= before);
        }
    } else if i > 0 {
        lemma_marked_upto(m, (i - 1) as nat, m[i - 1].len());
        assert(here =~= marked_upto(m, i - 1, m[i - 1].len() as int));
    } else {
        assert(here =~= Set::<(int, int)>::empty());
    }
}

/// The marked positions of a grid are finitely many, as many as the sum of
/// the marks of its rows says.
pub proof fn lemma_marked(m: Seq<Seq<bool>>)
    ensures
        marked(m).finite(),
        marked(m).len() == marks_in_rows(m, m.len()),
{
    if m.len() == 0 {
        assert(marked(m) =~= Set::<(int, int)>::empty());
    } else {
        let last = (m.len() - 1) as nat;
        lemma_marked_upto(m, last, m[last as int].len());
        assert(marked(m) =~= marked_upto(m, last as int, m[last as int].len() as int));
    }
}

/// The positions at which two grids differ.
pub open spec fn differing_cells(a: Seq<Seq<LCell>>, b: Seq<Seq<LCell>>) -> Set<(int, int)> {
    Set::new(
        |p: (int, int)| 0 <= p.0 < a.len() && 0 <= p.1 < a[p.0].len() && a[p.0][p.1] != b[p.0][p.1],
    )
}

/// The positions of the live cells of a grid.
pub open spec fn live_cells(g: Seq<Seq<LCell>>) -> Set<(int, int)> {
    Set::new(
        |p: (int, int)| 0 <= p.0 < g.len() && 0 <= p.1 < g[p.0].len() && g[p.0][p.1] == LCell::Alive,
    )
}

/// The positions in the left half of a grid that hold a live cell whose
/// mirror image in the right half is alive too.
pub open spec fn mirrored_cells(g: Seq<Seq<LCell>>) -> Set<(int, int)> {
    Set::new(
        |p: (int, int)| 0 <= p.0 < g.len() && 0 <= p.1 < g[p.0].len() / 2 && mirrored_pair(
            g[p.0],
            p.1,
        ),
    )
}

/// A mark wherever two grids differ.
pub open spec fn difference_marks(a: Seq<Seq<LCell>>, b: Seq<Seq<LCell>>) -> Seq<Seq<bool>> {
    Seq::new(a.len(), |r: int| Seq::new(a[r].len(), |c: int| a[r][c] != b[r][c]))
}

/// A mark wherever a grid holds a live cell.
pub open spec fn alive_marks(g: Seq<Seq<LCell>>) -> Seq<Seq<bool>> {
    Seq::new(g.len(), |r: int| Seq::new(g[r].len(), |c: int| g[r][c] == LCell::Alive))
}

/// A mark wherever the left half of a grid holds the left cell of a mirrored
/// live pair.
pub open spec fn mirror_marks(g: Seq<Seq<LCell>>) -> Seq<Seq<bool>> {
    Seq::new(g.len(), |r: int| Seq::new(g[r].len() / 2, |c: int| mirrored_pair(g[r], c)))
}

/// The distance of two rows is the number of marks where they differ.
proof fn lemma_row_distance_marks(a: Seq<LCell>, b: Seq<LCell>, marks: Seq<bool>, j: nat)
    requires
        j <= marks.len(),
        forall|c: int| 0 <= c < marks.len() ==> marks[c] == (a[c] != b[c]),
    ensures
        row_distance(a, b, j) == marks_in_row(marks, j),
    decreases j,
{
    if j > 0 {
        lemma_row_distance_marks(a, b, marks, (j - 1) as nat);
    }
}

/// The distance over rows is the number of marks where the grids differ.
proof fn lemma_rows_distance_marks(a: Seq<Seq<LCell>>, b: Seq<Seq<LCell>>, i: nat)
    requires
        i <= a.len(),
    ensures
        rows_distance(a, b, i) == marks_in_rows(difference_marks(a, b), i),
    decreases i,
{
    if i > 0 {
        lemma_rows_distance_marks(a, b, (i - 1) as nat);
        lemma_row_distance_marks(
            a[i - 1],
            b[i - 1],
            difference_marks(a, b)[i - 1],
            a[i - 1].len(),
        );
    }
}

/// The live cells of a row are as many as the marks on them.
proof fn lemma_row_alive_marks(row: Seq<LCell>, marks: Seq<bool>, j: nat)
    requires
        j <= marks.len(),
        forall|c: int| 0 <= c < marks.len() ==> marks[c] == (row[c] == LCell::Alive),
    ensures
        row_alive(row, j) == marks_in_row(marks, j),
    decreases j,
{
    if j > 0 {
        lemma_row_alive_marks(row, marks, (j - 1) as nat);
    }
}

/// The live cells of rows are as many as the marks on them.
proof fn lemma_rows_alive_marks(g: Seq<Seq<LCell>>, i: nat)
    requires
        i <= g.len(),
    ensures
        rows_alive(g, i) == marks_in_rows(alive_marks(g), i),
    decreases i,
{
    if i > 0 {
        lemma_rows_alive_marks(g, (i - 1) as nat);
        lemma_row_alive_marks(g[i - 1], alive_marks(g)[i - 1], g[i - 1].len());
    }
}

/// The mirrored pairs of a row are as many as the marks on them.
proof fn lemma_row_symmetry_marks(row: Seq<LCell>, marks: Seq<bool>, j: nat)
    requires
        j <= marks.len(),
        forall|c: int| 0 <= c < marks.len() ==> marks[c] == mirrored_pair(row, c),
    ensures
        row_symmetry(row, j) == marks_in_row(marks, j),
    decreases j,
{
    if j > 0 {
        lemma_row_symmetry_marks(row, marks, (j - 1) as nat);
    }
}

/// The mirrored pairs of rows are as many as the marks on them.
proof fn lemma_rows_symmetry_marks(g: Seq<Seq<LCell>>, i: nat)
    requires
        i <= g.len(),
    ensures
        rows_symmetry(g, i) == marks_in_rows(mirror_marks(g), i),
    decreases i,
{
    if i > 0 {
        lemma_rows_symmetry_marks(g, (i - 1) as nat);
        lemma_row_symmetry_marks(g[i - 1], mirror_marks(g)[i - 1], g[i - 1].len() / 2);
    }
}

/// The distance of two grids is the number of the positions at which they
/// differ.
pub proof fn lemma_distance_counts(a: Seq<Seq<LCell>>, b: Seq<Seq<LCell>>)
    ensures
        differing_cells(a, b).finite(),
        distance(a, b) == differing_cells(a, b).len(),
{
    let marks = difference_marks(a, b);
    lemma_rows_distance_marks(a, b, a.len());
    lemma_marked(marks);
    assert(differing_cells(a, b) =~= marked(marks));
}

/// The number of live cells of a grid is the number of the positions that
/// hold one.
pub proof fn lemma_n_alive_counts(g: Seq<Seq<LCell>>)
    ensures
        live_cells(g).finite(),
        n_alive(g) == live_cells(g).len(),
{
    let marks = alive_marks(g);
    lemma_rows_alive_marks(g, g.len());
    lemma_marked(marks);
    assert(live_cells(g) =~= marked(marks));
}

/// The symmetry of a grid is the number of its mirrored live pairs, each
/// counted once, at its cell in the left half.
pub proof fn lemma_symmetry_counts(g: Seq<Seq<LCell>>)
    ensures
        mirrored_cells(g).finite(),
        symmetry(g) == mirrored_cells(g).len(),
{
    let marks = mirror_marks(g);
    lemma_rows_symmetry_marks(g, g.len());
    lemma_marked(marks);
    assert(mirrored_cells(g) =~= marked(marks));
}

} // verus!
