//! The rendered frame: a universe as a bordered block of text, and back.

use vstd::arithmetic::div_mod::{lemma_fundamental_div_mod, lemma_fundamental_div_mod_converse};
use vstd::prelude::*;
use vstd::string::*;
use crate::cells::rows_of;
use crate::grid::{is_square, is_universe};
use crate::lcell::{glyph_of, LCell};
use crate::text::{chars_of, ParseError};
use crate::universe::Universe;

verus! {

/// The number of characters of a frame around a grid of side `n`: `n + 2`
/// lines of `n + 2` characters and a newline each.
pub open spec fn frame_len(n: nat) -> nat {
    (n + 2) * (n + 3)
}

/// The character at a column of a line of a frame of side `n`, where `row`
/// holds the cells that the line shows. The first and the last line are the
/// borders; every other line shows a row between two bars; every line ends
/// with a newline.
pub open spec fn line_char(n: nat, line: int, col: int, row: Seq<LCell>) -> char {
    if col == n + 2 {
        '\n'
    } else if line == 0 {
        if col == 0 {
            '┌'
        } else if col == n + 1 {
            '┐'
        } else {
            '─'
        }
    } else if line == n + 1 {
        if col == 0 {
            '└'
        } else if col == n + 1 {
            '┘'
        } else {
            '─'
        }
    } else if col == 0 || col == n + 1 {
        '│'
    } else {
        glyph_of(row[col - 1])
    }
}

/// The character at a column of a line of the frame of a grid.
pub open spec fn frame_char(g: Seq<Seq<LCell>>, line: int, col: int) -> char {
    line_char(g.len(), line, col, g[line - 1])
}

/// The frame of a grid: one character for each cell, a visible glyph for a
/// live cell and a blank for a dead one, one row in each line, with a border
/// around them.
pub open spec fn rendered(g: Seq<Seq<LCell>>) -> Seq<char> {
    let n = g.len();
    Seq::new(frame_len(n), |k: int| frame_char(g, k / (n + 3) as int, k % (n + 3) as int))
}

/// Whether a line of a text is the line of a frame of side `n` that shows
/// the given row.
pub open spec fn line_matches(t: Seq<char>, n: nat, line: int, row: Seq<LCell>) -> bool {
    forall|col: int| 0 <= col < n + 3 ==> t[line * (n + 3) + col] == #[trigger] line_char(
        n,
        line,
        col,
        row,
    )
}

/// Where the character at a column of a line stands in a frame.
pub proof fn lemma_position(n: nat, line: int, col: int)
    requires
        0 <= line < n + 2,
        0 <= col < n + 3,
    ensures
        0 <= line * (n + 3) + col < frame_len(n),
        (line * (n + 3) + col) / (n + 3) as int == line,
        (line * (n + 3) + col) % (n + 3) as int == col,
{
    let w = (n + 3) as int;
    assert(0 <= line * w && line * w + w <= (n + 2) * w) by (nonlinear_arith)
        requires
            0 <= line < n + 2,
            w > 0,
    ;
    lemma_fundamental_div_mod_converse(line * w + col, w, line, col);
}

/// Every line of the frame of a grid shows its row.
pub proof fn lemma_rendered_lines(g: Seq<Seq<LCell>>)
    ensures
        rendered(g).len() == frame_len(g.len()),
        forall|line: int|
            0 <= line < g.len() + 2 ==> #[trigger] line_matches(
                rendered(g),
                g.len(),
                line,
                g[line - 1],
            ),
{
    let n = g.len();
    assert forall|line: int| 0 <= line < n + 2 implies #[trigger] line_matches(
        rendered(g),
        n,
        line,
        g[line - 1],
    ) by {
        assert forall|col: int| 0 <= col < n + 3 implies rendered(g)[line * (n + 3) + col]
            == #[trigger] line_char(n, line, col, g[line - 1]) by {
            lemma_position(n, line, col);
        }
    }
}

/// A text of the length of a frame whose every line shows the row of a grid
/// is the frame of that grid.
pub proof fn lemma_frame_from_lines(t: Seq<char>, g: Seq<Seq<LCell>>)
    requires
        t.len() == frame_len(g.len()),
        forall|line: int|
            0 <= line < g.len() + 2 ==> #[trigger] line_matches(t, g.len(), line, g[line - 1]),
    ensures
        t == rendered(g),
{
    let n = g.len();
    let w = (n + 3) as int;
    assert forall|k: int| 0 <= k < t.len() implies t[k] == rendered(g)[k] by {
        let line = k / w;
        let col = k % w;
        lemma_fundamental_div_mod(k, w);
        assert(k == w * line + col);
        assert(w * line == line * w) by (nonlinear_arith);
        assert(0 <= col < w);
        assert(0 <= line < n + 2) by (nonlinear_arith)
            requires
                0 <= k < (n + 2) * w,
                k == line * w + col,
                0 <= col < w,
                w > 0,
        ;
        assert(line_matches(t, n, line, g[line - 1]));
        assert(t[line * (n + 3) + col] == line_char(n, line, col, g[line - 1]));
    }
    assert(t =~= rendered(g));
}

/// The first newline of a frame ends its first line.
pub proof fn lemma_first_newline(g: Seq<Seq<LCell>>)
    ensures
        rendered(g).len() > g.len() + 2,
        rendered(g)[g.len() as int + 2] == '\n',
        forall|k: int| 0 <= k < g.len() + 2 ==> rendered(g)[k] != '\n',
{
    let n = g.len();
    let last = n as int + 2;
    lemma_rendered_lines(g);
    assert(line_matches(rendered(g), n, 0, g[-1]));
    lemma_position(n, 0, last);
    assert(rendered(g)[0 * (n + 3) + last] == line_char(n, 0, last, g[-1]));
    assert forall|k: int| 0 <= k < n + 2 implies rendered(g)[k] != '\n' by {
        assert(rendered(g)[0 * (n + 3) + k] == line_char(n, 0, k, g[-1]));
    }
}

/// Two grids with one frame are one grid: the frame shows every cell.
pub proof fn lemma_rendered_injective(a: Seq<Seq<LCell>>, b: Seq<Seq<LCell>>)
    requires
        is_square(a),
        is_square(b),
        rendered(a) == rendered(b),
    ensures
        a == b,
{
    lemma_first_newline(a);
    lemma_first_newline(b);
    let n = a.len();
    assert(a.len() == b.len()) by {
        if a.len() < b.len() {
            assert(rendered(b)[a.len() as int + 2] != '\n');
        } else if b.len() < a.len() {
            assert(rendered(a)[b.len() as int + 2] != '\n');
        }
    }
    lemma_rendered_lines(a);
    lemma_rendered_lines(b);
    assert forall|r: int| 0 <= r < n implies a[r] =~= b[r] by {
        assert(a[r].len() == n && b[r].len() == n);
        assert(line_matches(rendered(a), n, r + 1, a[r + 1 - 1]));
        assert(line_matches(rendered(b), n, r + 1, b[r + 1 - 1]));
        assert forall|c: int| 0 <= c < n implies a[r][c] == b[r][c] by {
            assert(rendered(a)[(r + 1) * (n + 3) + (c + 1)] == line_char(n, r + 1, c + 1, a[r]));
            assert(rendered(b)[(r + 1) * (n + 3) + (c + 1)] == line_char(n, r + 1, c + 1, b[r]));
            assert(glyph_of(a[r][c]) == glyph_of(b[r][c]));
        }
    }
    assert(a =~= b);
}

/// What a text stands for as a frame: the universe whose frame it is, if it
/// is the frame of one.
pub open spec fn parsed_frame(t: Seq<char>) -> Option<Seq<Seq<LCell>>> {
    if exists|g: Seq<Seq<LCell>>| is_universe(g) && #[trigger] rendered(g) == t {
        Some(choose|g: Seq<Seq<LCell>>| is_universe(g) && #[trigger] rendered(g) == t)
    } else {
        None
    }
}

/// A frame reads back as the universe that it was rendered from.
pub proof fn lemma_render_then_parse(g: Seq<Seq<LCell>>)
    requires
        is_universe(g),
    ensures
        parsed_frame(rendered(g)) == Some(g),
{
    let t = rendered(g);
    assert(is_universe(g) && rendered(g) == t);
    let found = choose|h: Seq<Seq<LCell>>| is_universe(h) && #[trigger] rendered(h) == t;
    lemma_rendered_injective(found, g);
}

/// A text that reads as a frame renders back to itself, character by
/// character.
pub proof fn lemma_parse_then_render(t: Seq<char>)
    requires
        parsed_frame(t) is Some,
    ensures
        is_universe(parsed_frame(t).unwrap()),
        rendered(parsed_frame(t).unwrap()) == t,
{
}

/// Whether a position of a frame of side `n` shows a cell.
pub open spec fn shows_cell(n: nat, line: int, col: int) -> bool {
    1 <= line <= n && 1 <= col <= n
}

/// The side of a universe and three more fit into a machine word.
proof fn lemma_side_small(n: nat)
    requires
        n * n <= usize::MAX,
    ensures
        n + 3 <= usize::MAX,
{
    if n >= 3 {
        assert(n * n >= n + 3) by (nonlinear_arith)
            requires
                n >= 3,
        ;
    }
}

/// The character of a frame of side `n` at a position that shows no cell.
fn border_at(n: usize, line: usize, col: usize) -> (ch: char)
    requires
        n + 3 <= usize::MAX,
        line < n + 2,
        col < n + 3,
        !shows_cell(n as nat, line as int, col as int),
    ensures
        forall|row: Seq<LCell>| #[trigger] line_char(n as nat, line as int, col as int, row) == ch,
        ch != '■',
        ch != ' ',
        is_frame_char(ch),
{
    if col == n + 2 {
        '\n'
    } else if line == 0 {
        if col == 0 {
            '┌'
        } else if col == n + 1 {
            '┐'
        } else {
            '─'
        }
    } else if line == n + 1 {
        if col == 0 {
            '└'
        } else if col == n + 1 {
            '┘'
        } else {
            '─'
        }
    } else {
        '│'
    }
}

/// Whether a character is one of those that a frame is made of.
pub open spec fn is_frame_char(ch: char) -> bool {
    ch == '┌' || ch == '─' || ch == '┐' || ch == '│' || ch == '└' || ch == '┘' || ch == '■' || ch
        == ' ' || ch == '\n'
}

/// Adds one character of a frame to the end of a string.
fn put_char(text: &mut String, ch: char)
    requires
        is_frame_char(ch),
    ensures
        final(text)@ == old(text)@.push(ch),
{
    proof {
        reveal_strlit("┌");
        reveal_strlit("─");
        reveal_strlit("┐");
        reveal_strlit("│");
        reveal_strlit("└");
        reveal_strlit("┘");
        reveal_strlit("■");
        reveal_strlit(" ");
        reveal_strlit("\n");
    }
    let piece = if ch == '┌' {
        "┌"
    } else if ch == '─' {
        "─"
    } else if ch == '┐' {
        "┐"
    } else if ch == '│' {
        "│"
    } else if ch == '└' {
        "└"
    } else if ch == '┘' {
        "┘"
    } else if ch == '■' {
        "■"
    } else if ch == ' ' {
        " "
    } else {
        "\n"
    };
    assert(piece@ =~= seq![ch]);
    let ghost before = text@;
    text.append(piece);
    assert(text@ =~= before.push(ch));
}

/// Reads one line of a text that is as long as a frame of side `n`: the cells
/// that the line shows, or nothing where it is no line of such a frame.
fn read_line(chars: &Vec<char>, n: usize, line: usize) -> (r: Option<Vec<LCell>>)
    requires
        n >= 1,
        n + 3 <= usize::MAX,
        line < n + 2,
        chars.len() == frame_len(n as nat),
    ensures
        match r {
            Some(row) => {
                &&& line_matches(chars@, n as nat, line as int, row@)
                &&& 1 <= line <= n ==> row.len() == n
            },
            None => forall|row: Seq<LCell>|
                !#[trigger] line_matches(chars@, n as nat, line as int, row),
        },
{
    let width = n + 3;
    proof {
        lemma_position(n as nat, line as int, 0);
    }
    let start = line * width;
    let mut row: Vec<LCell> = Vec::new();
    let mut col: usize = 0;
    while col < width
        invariant
            n >= 1,
            width == n + 3,
            line < n + 2,
            chars.len() == frame_len(n as nat),
            start == line * width,
            col <= width,
            1 <= line <= n && 1 <= col ==> row.len() == if col <= n {
                col - 1
            } else {
                n as int
            },
            !(1 <= line <= n && 1 <= col) ==> row.len() == 0,
            forall|j: int|
                0 <= j < col ==> chars[start + j] == #[trigger] line_char(
                    n as nat,
                    line as int,
                    j,
                    row@,
                ),
        decreases width - col,
    {
        proof {
            lemma_position(n as nat, line as int, col as int);
        }
        let ch = chars[start + col];
        if 1 <= line && line <= n && 1 <= col && col <= n {
            match LCell::try_from_glyph(ch) {
                Some(cell) => {
                    let ghost before = row@;
                    row.push(cell);
                    assert forall|j: int| 0 <= j < col + 1 implies chars[start + j]
                        == #[trigger] line_char(n as nat, line as int, j, row@) by {
                        if j < col {
                            assert(chars[start + j] == line_char(
                                n as nat,
                                line as int,
                                j,
                                before,
                            ));
                            if 1 <= j {
                                assert(row@[j - 1] == before[j - 1]);
                            }
                        }
                    }
                },
                None => {
                    assert forall|other: Seq<LCell>| !#[trigger] line_matches(
                        chars@,
                        n as nat,
                        line as int,
                        other,
                    ) by {
                        assert(line_char(n as nat, line as int, col as int, other) != ch);
                    }
                    return None;
                },
            }
        } else {
            let expected = border_at(n, line, col);
            if ch != expected {
                assert forall|other: Seq<LCell>| !#[trigger] line_matches(
                    chars@,
                    n as nat,
                    line as int,
                    other,
                ) by {
                    assert(line_char(n as nat, line as int, col as int, other) == expected);
                }
                return None;
            }
            assert(line_char(n as nat, line as int, col as int, row@) == expected);
        }
        col += 1;
    }
    Some(row)
}

/// No universe has this text as its frame: the text's line `line` is no line
/// of a frame of its side.
proof fn lemma_bad_line(t: Seq<char>, n: nat, line: int)
    requires
        n >= 1,
        0 <= line < n + 2,
        t.len() > n + 2,
        t[n as int + 2] == '\n',
        forall|k: int| 0 <= k < n + 2 ==> t[k] != '\n',
        forall|row: Seq<LCell>| !#[trigger] line_matches(t, n, line, row),
    ensures
        parsed_frame(t) is None,
{
    assert forall|g: Seq<Seq<LCell>>| is_universe(g) implies #[trigger] rendered(g) != t by {
        if rendered(g) == t {
            lemma_frame_side(g, t, n as int + 2);
            lemma_rendered_lines(g);
            assert(line_matches(rendered(g), g.len(), line, g[line - 1]));
        }
    }
}

/// The first newline of the frame of a grid stands two places after as many
/// characters as the grid has rows.
proof fn lemma_frame_side(g: Seq<Seq<LCell>>, t: Seq<char>, p: int)
    requires
        rendered(g) == t,
        0 <= p < t.len(),
        t[p] == '\n',
        forall|k: int| 0 <= k < p ==> t[k] != '\n',
    ensures
        g.len() + 2 == p,
{
    lemma_first_newline(g);
    if p < g.len() + 2 {
        assert(rendered(g)[p] != '\n');
    } else if p > g.len() + 2 {
        assert(t[g.len() as int + 2] != '\n');
    }
}

impl Universe {
    /// Reads a universe back from its rendered frame. The text must be the
    /// frame of a universe, character by character: nothing else is read as
    /// one.
    pub fn parse_frame(text: &str) -> (r: Result<Universe, ParseError>)
        ensures
            match r {
                Ok(u) => u.wf() && rendered(u@) == text@ && parsed_frame(text@) == Some(u@),
                Err(e) => e == ParseError::BadFrame && parsed_frame(text@) is None,
            },
    {
        let chars = chars_of(text);
        let ghost t = chars@;
        let len = chars.len();
        let mut p: usize = 0;
        while p < len && chars[p] != '\n'
            invariant
                len == chars.len(),
                p <= len,
                forall|k: int| 0 <= k < p ==> chars[k] != '\n',
            decreases len - p,
        {
            p += 1;
        }
        if p >= len || p < 3 {
            assert forall|g: Seq<Seq<LCell>>| is_universe(g) implies #[trigger] rendered(g)
                != t by {
                if rendered(g) == t {
                    lemma_first_newline(g);
                    if p < len {
                        lemma_frame_side(g, t, p as int);
                    }
                }
            }
            return Err(ParseError::BadFrame);
        }
        let n = p - 2;
        let fits = match (n + 2).checked_mul(n + 3) {
            Some(total) => total == len,
            None => false,
        };
        if !fits {
            assert forall|g: Seq<Seq<LCell>>| is_universe(g) implies #[trigger] rendered(g)
                != t by {
                if rendered(g) == t {
                    lemma_frame_side(g, t, p as int);
                }
            }
            return Err(ParseError::BadFrame);
        }
        let ghost side = n as nat;
        let top = read_line(&chars, n, 0);
        if top.is_none() {
            proof {
                lemma_bad_line(t, side, 0);
            }
            return Err(ParseError::BadFrame);
        }
        let mut cells: Vec<Vec<LCell>> = Vec::new();
        let mut r: usize = 0;
        while r < n
            invariant
                n >= 1,
                n + 3 <= usize::MAX,
                t == chars@,
                t == text@,
                side == n,
                chars.len() == frame_len(side),
                chars.len() > n + 2,
                t[n as int + 2] == '\n',
                forall|k: int| 0 <= k < n + 2 ==> t[k] != '\n',
                r <= n,
                cells.len() == r,
                forall|i: int|
                    0 <= i < r ==> (#[trigger] cells[i]).len() == n && line_matches(
                        t,
                        side,
                        i + 1,
                        cells[i]@,
                    ),
            decreases n - r,
        {
            match read_line(&chars, n, r + 1) {
                Some(row) => {
                    cells.push(row);
                },
                None => {
                    proof {
                        lemma_bad_line(t, side, r + 1);
                    }
                    return Err(ParseError::BadFrame);
                },
            }
            r += 1;
        }
        let bottom = read_line(&chars, n, n + 1);
        if bottom.is_none() {
            proof {
                lemma_bad_line(t, side, n + 1);
            }
            return Err(ParseError::BadFrame);
        }
        let ghost g = rows_of(cells);
        proof {
            assert(side * side <= frame_len(side)) by (nonlinear_arith);
            assert(is_square(g));
            assert forall|line: int| 0 <= line < side + 2 implies #[trigger] line_matches(
                t,
                side,
                line,
                g[line - 1],
            ) by {
                if line == 0 {
                    let shown = top.unwrap()@;
                    assert forall|col: int| 0 <= col < side + 3 implies t[line * (side + 3) + col]
                        == #[trigger] line_char(side, line, col, g[line - 1]) by {
                        assert(t[line * (side + 3) + col] == line_char(side, line, col, shown));
                    }
                } else if line == side + 1 {
                    let shown = bottom.unwrap()@;
                    assert forall|col: int| 0 <= col < side + 3 implies t[line * (side + 3) + col]
                        == #[trigger] line_char(side, line, col, g[line - 1]) by {
                        assert(t[line * (side + 3) + col] == line_char(side, line, col, shown));
                    }
                } else {
                    assert(line_matches(t, side, (line - 1) + 1, cells[line - 1]@));
                }
            }
            lemma_frame_from_lines(t, g);
            lemma_render_then_parse(g);
        }
        Ok(Universe::from_rows(cells))
    }

    /// The character at a column of a line of the frame of this universe.
    pub fn frame_char_at(&self, line: usize, col: usize) -> (ch: char)
        requires
            self.wf(),
            line < self@.len() + 2,
            col < self@.len() + 3,
        ensures
            ch == frame_char(self@, line as int, col as int),
            is_frame_char(ch),
    {
        let n = self.size();
        proof {
            lemma_side_small(n as nat);
        }
        if 1 <= line && line <= n && 1 <= col && col <= n {
            assert(self@[line - 1].len() == n);
            self.get(line - 1, col - 1).glyph()
        } else {
            border_at(n, line, col)
        }
    }

    /// Renders the universe as a bordered block of text: a line for the top
    /// border, a line for each row between two bars, with a visible glyph
    /// for a live cell and a blank for a dead one, and a line for the bottom
    /// border.
    pub fn render(&self) -> (text: String)
        requires
            self.wf(),
        ensures
            text@ == rendered(self@),
    {
        let n = self.size();
        proof {
            lemma_side_small(n as nat);
        }
        let ghost want = rendered(self@);
        let mut text = String::new();
        let mut line: usize = 0;
        while line < n + 2
            invariant
                self.wf(),
                n == self@.len(),
                n + 3 <= usize::MAX,
                want == rendered(self@),
                line <= n + 2,
                text@.len() == line * (n + 3),
                forall|k: int| 0 <= k < text@.len() ==> text@[k] == want[k],
            decreases n + 2 - line,
        {
            let mut col: usize = 0;
            while col < n + 3
                invariant
                    self.wf(),
                    n == self@.len(),
                    n + 3 <= usize::MAX,
                    want == rendered(self@),
                    line < n + 2,
                    col <= n + 3,
                    text@.len() == line * (n + 3) + col,
                    forall|k: int| 0 <= k < text@.len() ==> text@[k] == want[k],
                decreases n + 3 - col,
            {
                let ch = self.frame_char_at(line, col);
                proof {
                    lemma_position(n as nat, line as int, col as int);
                }
                put_char(&mut text, ch);
                col += 1;
            }
            assert((line + 1) * (n + 3) == line * (n + 3) + (n + 3)) by (nonlinear_arith);
            line += 1;
        }
        assert(text@ =~= want);
        text
    }

    /// The rendered frame of the universe.
    pub fn to_string(&self) -> (text: String)
        requires
            self.wf(),
        ensures
            text@ == rendered(self@),
    {
        self.render()
    }
}

} // verus!
