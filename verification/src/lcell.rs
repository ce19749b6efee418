//! The state of a single cell.

use vstd::prelude::*;
use vstd::string::*;

verus! {

/// A cell of the automaton: alive or dead.
#[derive(Clone, Copy, Debug, PartialEq, Eq, Hash, Structural)]
pub enum LCell {
    Alive,
    Dead,
}

/// The cell that a character of the plain pattern notation stands for:
/// `#` is alive, `.` is dead, and no other character is a cell.
pub open spec fn cell_of_char(c: char) -> Option<LCell> {
    if c == '#' {
        Some(LCell::Alive)
    } else if c == '.' {
        Some(LCell::Dead)
    } else {
        None
    }
}

/// The glyph that shows a cell inside a rendered frame.
pub open spec fn glyph_of(c: LCell) -> char {
    match c {
        LCell::Alive => '■',
        LCell::Dead => ' ',
    }
}

/// The cell that a glyph of a rendered frame shows.
pub open spec fn cell_of_glyph(c: char) -> Option<LCell> {
    if c == '■' {
        Some(LCell::Alive)
    } else if c == ' ' {
        Some(LCell::Dead)
    } else {
        None
    }
}

/// The other state.
pub open spec fn flipped(c: LCell) -> LCell {
    match c {
        LCell::Alive => LCell::Dead,
        LCell::Dead => LCell::Alive,
    }
}

impl LCell {
    /// Reads a character of the plain pattern notation, `None` for a
    /// character that is not a cell.
    pub fn try_from_char(c: char) -> (r: Option<LCell>)
        ensures
            r == cell_of_char(c),
    {
        if c == '#' {
            Some(LCell::Alive)
        } else if c == '.' {
            Some(LCell::Dead)
        } else {
            None
        }
    }

    /// Reads a character that is known to be a cell of the plain notation.
    pub fn from(c: char) -> (r: LCell)
        requires
            cell_of_char(c) is Some,
        ensures
            Some(r) == cell_of_char(c),
    {
        if c == '#' {
            LCell::Alive
        } else {
            LCell::Dead
        }
    }

    /// Reads a glyph of a rendered frame, `None` for any other character.
    pub fn try_from_glyph(c: char) -> (r: Option<LCell>)
        ensures
            r == cell_of_glyph(c),
    {
        if c == '■' {
            Some(LCell::Alive)
        } else if c == ' ' {
            Some(LCell::Dead)
        } else {
            None
        }
    }

    /// The glyph of this cell in a rendered frame.
    pub fn glyph(&self) -> (r: char)
        ensures
            r == glyph_of(*self),
    {
        match self {
            LCell::Alive => '■',
            LCell::Dead => ' ',
        }
    }

    /// The glyph of this cell as a string of one character.
    pub fn to_string(&self) -> (r: String)
        ensures
            r@ == seq![glyph_of(*self)],
    {
        proof {
            reveal_strlit("■");
            reveal_strlit(" ");
        }
        match self {
            LCell::Alive => {
                let r = String::from_str("■");
                assert(r@ =~= seq!['■']);
                r
            },
            LCell::Dead => {
                let r = String::from_str(" ");
                assert(r@ =~= seq![' ']);
                r
            },
        }
    }

    /// The other state.
    pub fn toggled(&self) -> (r: LCell)
        ensures
            r == flipped(*self),
    {
        match self {
            LCell::Alive => LCell::Dead,
            LCell::Dead => LCell::Alive,
        }
    }

    pub fn is_alive(&self) -> (r: bool)
        ensures
            r == (*self == LCell::Alive),
    {
        match self {
            LCell::Alive => true,
            LCell::Dead => false,
        }
    }
}

/// Every glyph reads back as the cell it shows.
pub proof fn lemma_glyph_round_trip(c: LCell)
    ensures
        cell_of_glyph(glyph_of(c)) == Some(c),
{
}

/// Flipping a cell twice restores it.
pub proof fn lemma_flipped_twice(c: LCell)
    ensures
        flipped(flipped(c)) == c,
{
}

} // verus!
