//! Universes as text: the plain pattern notation, one line for each row.

use vstd::prelude::*;
use vstd::std_specs::iter::IteratorSpec;
use vstd::string::*;
use crate::cells::rows_of;
use crate::lcell::{cell_of_char, LCell};
use crate::universe::Universe;

verus! {

/// Why a text is not a universe.
#[derive(Clone, Copy, Debug, PartialEq, Eq, Structural)]
pub enum ParseError {
    /// A character in a row is not a cell.
    UnknownCell,
    /// The text has no row.
    Empty,
    /// Some row is not as long as the text has rows.
    NotSquare,
    /// The text is not a rendered frame.
    BadFrame,
}

/// The text cut at every newline. The pieces hold no newline themselves, and
/// there is one more of them than the text has newlines.
pub open spec fn split_rows(s: Seq<char>) -> Seq<Seq<char>>
    decreases s.len(),
{
    if s.len() == 0 {
        seq![Seq::<char>::empty()]
    } else {
        let before = split_rows(s.drop_last());
        if s.last() == '\n' {
            before.push(Seq::<char>::empty())
        } else {
            before.drop_last().push(before.last().push(s.last()))
        }
    }
}

/// The lines of a text: its pieces between newlines, where a newline at the
/// very end of the text starts no further line.
pub open spec fn text_lines(s: Seq<char>) -> Seq<Seq<char>> {
    let rows = split_rows(s);
    if rows.last().len() == 0 {
        rows.drop_last()
    } else {
        rows
    }
}

/// Whether some character of the text, newlines aside, is not a cell of the
/// plain notation.
pub open spec fn has_unknown_cell(s: Seq<char>) -> bool {
    exists|k: int| 0 <= k < s.len() && s[k] != '\n' && cell_of_char(#[trigger] s[k]) is None
}

/// The cells that a line of the plain notation stands for.
pub open spec fn cells_of_line(line: Seq<char>) -> Seq<LCell> {
    Seq::new(line.len(), |c: int| cell_of_char(line[c]).unwrap())
}

/// The grid that lines of the plain notation stand for.
pub open spec fn cells_of_lines(lines: Seq<Seq<char>>) -> Seq<Seq<LCell>> {
    Seq::new(lines.len(), |r: int| cells_of_line(lines[r]))
}

/// Whether every line is as long as there are lines.
pub open spec fn lines_square(lines: Seq<Seq<char>>) -> bool {
    forall|r: int| 0 <= r < lines.len() ==> (#[trigger] lines[r]).len() == lines.len()
}

/// What a text in the plain notation stands for: one line per row, `#` for a
/// live cell and `.` for a dead one. A character that is no cell is reported
/// first, then a text without lines, then rows that make no square.
pub open spec fn parsed(s: Seq<char>) -> Result<Seq<Seq<LCell>>, ParseError> {
    let lines = text_lines(s);
    if has_unknown_cell(s) {
        Err(ParseError::UnknownCell)
    } else if lines.len() == 0 {
        Err(ParseError::Empty)
    } else if !lines_square(lines) {
        Err(ParseError::NotSquare)
    } else {
        Ok(cells_of_lines(lines))
    }
}

/// The pieces put together again, with a newline between each two.
pub open spec fn joined(rows: Seq<Seq<char>>) -> Seq<char>
    decreases rows.len(),
{
    if rows.len() == 0 {
        Seq::<char>::empty()
    } else if rows.len() == 1 {
        rows[0]
    } else {
        joined(rows.drop_last()) + seq!['\n'] + rows.last()
    }
}

/// Cutting a text at its newlines gives pieces without a newline that, put
/// together again, are the text.
pub proof fn lemma_split_rows_joined(s: Seq<char>)
    ensures
        split_rows(s).len() >= 1,
        joined(split_rows(s)) == s,
        forall|r: int, c: int|
            0 <= r < split_rows(s).len() && 0 <= c < split_rows(s)[r].len()
                ==> #[trigger] split_rows(s)[r][c] != '\n',
    decreases s.len(),
{
    if s.len() > 0 {
        lemma_split_rows_joined(s.drop_last());
        let before = split_rows(s.drop_last());
        let after = split_rows(s);
        let c = s.last();
        assert(s =~= s.drop_last().push(c));
        if c == '\n' {
            assert(after.drop_last() =~= before);
            assert(joined(after) =~= s);
            assert forall|r: int, j: int|
                0 <= r < after.len() && 0 <= j < after[r].len() implies #[trigger] after[r][j]
                != '\n' by {
                assert(after[r] == before[r]);
            }
        } else {
            let piece = before.last().push(c);
            assert(after.drop_last() =~= before.drop_last());
            if before.len() == 1 {
                assert(joined(after) =~= s);
            } else {
                assert(joined(after) =~= (joined(before.drop_last()) + seq!['\n']
                    + before.last()).push(c));
            }
            assert forall|r: int, j: int|
                0 <= r < after.len() && 0 <= j < after[r].len() implies #[trigger] after[r][j]
                != '\n' by {
                if r < after.len() - 1 {
                    assert(after[r] == before[r]);
                } else if j < before.last().len() {
                    assert(after[r][j] == before[r][j]);
                }
            }
        }
    }
}

/// The number of characters in all the rows together.
pub open spec fn flat_len(rows: Seq<Seq<char>>) -> nat
    decreases rows.len(),
{
    if rows.len() == 0 {
        0
    } else {
        flat_len(rows.drop_last()) + rows.last().len()
    }
}

/// Cutting a text at its newlines loses nothing but the newlines.
pub proof fn lemma_split_rows_len(s: Seq<char>)
    ensures
        split_rows(s).len() >= 1,
        flat_len(split_rows(s)) + split_rows(s).len() == s.len() + 1,
    decreases s.len(),
{
    if s.len() == 0 {
        let rows = seq![Seq::<char>::empty()];
        assert(rows.drop_last() =~= Seq::<Seq<char>>::empty());
        assert(flat_len(rows.drop_last()) == 0);
    } else {
        lemma_split_rows_len(s.drop_last());
        let before = split_rows(s.drop_last());
        if s.last() == '\n' {
            assert(before.push(Seq::<char>::empty()).drop_last() =~= before);
        } else {
            let after = before.drop_last().push(before.last().push(s.last()));
            assert(after.drop_last() =~= before.drop_last());
        }
    }
}

/// Rows of one length hold that length times their number of characters.
pub proof fn lemma_flat_len_uniform(rows: Seq<Seq<char>>, width: nat)
    requires
        forall|r: int| 0 <= r < rows.len() ==> (#[trigger] rows[r]).len() == width,
    ensures
        flat_len(rows) == rows.len() * width,
    decreases rows.len(),
{
    if rows.len() > 0 {
        lemma_flat_len_uniform(rows.drop_last(), width);
        assert((rows.len() - 1) * width + width == rows.len() * width) by (nonlinear_arith);
    } else {
        assert(rows.len() * width == 0) by (nonlinear_arith)
            requires
                rows.len() == 0,
        ;
    }
}

/// The characters of a string, in order.
pub(crate) fn chars_of(text: &str) -> (chars: Vec<char>)
    ensures
        chars@ == text@,
{
    let mut chars: Vec<char> = Vec::new();
    let mut it = text.chars();
    loop
        invariant
            chars@ + it.remaining() == text@,
            it.obeys_prophetic_iter_laws(),
            it.decrease() is Some,
        decreases it.decrease()->0,
    {
        let ghost before = it.remaining();
        match it.next() {
            Some(c) => {
                assert(before =~= seq![c] + it.remaining());
                chars.push(c);
                assert(chars@ + it.remaining() =~= text@);
            },
            None => {
                assert(chars@ =~= text@);
                return chars;
            },
        }
    }
}

/// The index of the first character that is neither a newline nor a cell of
/// the plain notation, if there is one.
fn find_unknown_cell(chars: &Vec<char>) -> (found: Option<usize>)
    ensures
        found is Some <==> has_unknown_cell(chars@),
        found matches Some(k) ==> k < chars.len() && chars[k as int] != '\n' && cell_of_char(
            chars[k as int],
        ) is None,
{
    let mut k: usize = 0;
    while k < chars.len()
        invariant
            k <= chars.len(),
            forall|j: int|
                0 <= j < k ==> chars[j] == '\n' || cell_of_char(#[trigger] chars[j]) is Some,
        decreases chars.len() - k,
    {
        let c = chars[k];
        if c != '\n' && LCell::try_from_char(c).is_none() {
            return Some(k);
        }
        k += 1;
    }
    None
}

/// The cells of every piece of a text between newlines. Every character of
/// the text is a newline or a cell.
fn split_cells(chars: &Vec<char>) -> (rows: Vec<Vec<LCell>>)
    requires
        !has_unknown_cell(chars@),
    ensures
        rows_of(rows) == cells_of_lines(split_rows(chars@)),
{
    let mut rows: Vec<Vec<LCell>> = Vec::new();
    let mut row: Vec<LCell> = Vec::new();
    let mut k: usize = 0;
    assert(chars@.take(0) =~= Seq::<char>::empty());
    while k < chars.len()
        invariant
            !has_unknown_cell(chars@),
            k <= chars.len(),
            split_rows(chars@.take(k as int)).len() == rows.len() + 1,
            forall|r: int|
                0 <= r < rows.len() ==> (#[trigger] rows[r])@ == cells_of_line(
                    split_rows(chars@.take(k as int))[r],
                ),
            row@ == cells_of_line(split_rows(chars@.take(k as int)).last()),
        decreases chars.len() - k,
    {
        let c = chars[k];
        proof {
            let prefix = chars@.take(k as int);
            let next = chars@.take(k + 1);
            assert(next.drop_last() =~= prefix);
            assert(next.last() == c);
            assert(cell_of_char(chars@[k as int]) is Some || c == '\n');
        }
        if c == '\n' {
            rows.push(row);
            row = Vec::new();
            proof {
                let before = split_rows(chars@.take(k as int));
                let after = split_rows(chars@.take(k + 1));
                assert(after == before.push(Seq::<char>::empty()));
                assert(row@ =~= cells_of_line(after.last()));
                assert forall|r: int| 0 <= r < rows.len() implies (#[trigger] rows[r])@
                    == cells_of_line(after[r]) by {
                    assert(after[r] == before[r]);
                }
            }
        } else {
            let cell = LCell::from(c);
            row.push(cell);
            proof {
                let before = split_rows(chars@.take(k as int));
                let after = split_rows(chars@.take(k + 1));
                assert(after == before.drop_last().push(before.last().push(c)));
                assert(row@ =~= cells_of_line(after.last()));
                assert forall|r: int| 0 <= r < rows.len() implies (#[trigger] rows[r])@
                    == cells_of_line(after[r]) by {
                    assert(after[r] == before[r]);
                }
            }
        }
        k += 1;
    }
    assert(chars@.take(chars.len() as int) =~= chars@);
    rows.push(row);
    assert(rows_of(rows) =~= cells_of_lines(split_rows(chars@)));
    rows
}

/// Whether every row is as long as there are rows.
fn rows_square(rows: &Vec<Vec<LCell>>) -> (square: bool)
    ensures
        square == crate::grid::is_square(rows_of(*rows)),
{
    let n = rows.len();
    let mut r: usize = 0;
    while r < n
        invariant
            n == rows.len(),
            r <= n,
            forall|i: int| 0 <= i < r ==> (#[trigger] rows_of(*rows)[i]).len() == n,
        decreases n - r,
    {
        if rows[r].len() != n {
            assert(rows_of(*rows)[r as int].len() != n);
            return false;
        }
        r += 1;
    }
    true
}

impl Universe {
    /// Reads a universe from the plain notation: one line per row, `#` for a
    /// live cell and `.` for a dead one; a newline after the last row may be
    /// there or not. The rows must make a square that is not empty. Nothing
    /// is passed over and nothing is taken for a cell that is none: any other
    /// character, a carriage return too, is refused.
    pub fn parse(text: &str) -> (r: Result<Universe, ParseError>)
        ensures
            match r {
                Ok(u) => u.wf() && parsed(text@) == Ok::<Seq<Seq<LCell>>, ParseError>(u@),
                Err(e) => parsed(text@) == Err::<Seq<Seq<LCell>>, ParseError>(e),
            },
    {
        let chars = chars_of(text);
        if find_unknown_cell(&chars).is_some() {
            return Err(ParseError::UnknownCell);
        }
        let mut rows = split_cells(&chars);
        proof {
            lemma_split_rows_len(chars@);
        }
        let ghost pieces = split_rows(chars@);
        let ghost all_rows = rows_of(rows);
        assert(all_rows.len() == rows.len() && all_rows.len() == pieces.len());
        assert(all_rows[rows.len() - 1].len() == pieces.last().len());
        if rows[rows.len() - 1].len() == 0 {
            rows.pop();
            assert forall|r: int| 0 <= r < rows.len() implies (#[trigger] rows_of(rows)[r])
                == cells_of_lines(pieces.drop_last())[r] by {
                assert(rows_of(rows)[r] == all_rows[r]);
            }
            assert(rows_of(rows) =~= cells_of_lines(pieces.drop_last()));
        }
        let ghost lines = text_lines(chars@);
        assert(rows_of(rows) == cells_of_lines(lines));
        if rows.len() == 0 {
            return Err(ParseError::Empty);
        }
        let square = rows_square(&rows);
        proof {
            let grid = rows_of(rows);
            if square {
                assert forall|r: int| 0 <= r < lines.len() implies (#[trigger] lines[r]).len()
                    == lines.len() by {
                    assert(grid[r].len() == grid.len());
                }
            } else {
                if lines_square(lines) {
                    assert forall|r: int| 0 <= r < grid.len() implies (#[trigger] grid[r]).len()
                        == grid.len() by {
                        assert(lines[r].len() == lines.len());
                    }
                }
            }
        }
        if !square {
            return Err(ParseError::NotSquare);
        }
        proof {
            let n = lines.len();
            lemma_flat_len_uniform(lines, n);
            if pieces.last().len() == 0 {
                assert(flat_len(pieces) == flat_len(lines));
            }
            assert(n * n <= chars@.len());
            assert(chars@.len() == chars.len());
        }
        Ok(Universe::from_rows(rows))
    }

    /// Reads a universe from a text that is known to be one in the plain
    /// notation.
    pub fn from(text: &str) -> (u: Universe)
        requires
            parsed(text@) is Ok,
        ensures
            u.wf(),
            parsed(text@) == Ok::<Seq<Seq<LCell>>, ParseError>(u@),
    {
        match Universe::parse(text) {
            Ok(u) => u,
            Err(_) => vstd::pervasive::unreached(),
        }
    }
}

} // verus!
