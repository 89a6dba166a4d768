use vstd::prelude::*;

use crate::error::Error;

verus! {

/// Relies on `String::push`, which appends one character to the string.
pub assume_specification[ String::push ](s: &mut String, ch: char)
    ensures
        final(s)@ == old(s)@.push(ch),
;

/// A letter tile, or a blank that may have been given a letter.
#[derive(Clone, Copy, Debug, PartialEq, Eq, Hash, Structural)]
pub enum Tile {
    Char(char),
    Blank(Option<char>),
}

/// A cell of the board: empty, holding a tile, or carrying a bonus.
#[derive(Clone, Copy, Debug, PartialEq, Eq, Structural)]
pub enum Square {
    Blank,
    Tile(Tile),
    LetterBonus(isize),
    WordBonus(isize),
}

/// The letter a tile shows, if any.
pub open spec fn tile_char(t: Tile) -> Option<char> {
    match t {
        Tile::Char(c) => Some(c),
        Tile::Blank(a) => a,
    }
}

/// The text shown for a tile: its letter, or `BLANK` for an unassigned blank.
pub open spec fn tile_label(t: Tile) -> Seq<char> {
    match tile_char(t) {
        Some(c) => seq![c],
        None => seq!['B', 'L', 'A', 'N', 'K'],
    }
}

/// Points of a letter in the standard English table; other characters score 0.
pub open spec fn char_value(c: char) -> int {
    if c == 'A' || c == 'E' || c == 'I' || c == 'L' || c == 'N' || c == 'O' || c == 'R'
        || c == 'S' || c == 'T' || c == 'U' {
        1
    } else if c == 'D' || c == 'G' {
        2
    } else if c == 'B' || c == 'C' || c == 'M' || c == 'P' {
        3
    } else if c == 'F' || c == 'H' || c == 'V' || c == 'W' || c == 'Y' {
        4
    } else if c == 'K' {
        5
    } else if c == 'J' || c == 'X' {
        8
    } else if c == 'Q' || c == 'Z' {
        10
    } else {
        0
    }
}

/// Points of a tile: a blank scores nothing, whatever letter it was given.
pub open spec fn tile_value(t: Tile) -> int {
    match t {
        Tile::Char(c) => char_value(c),
        Tile::Blank(_) => 0,
    }
}

/// The character a square shows: that of the tile on it, if any.
pub open spec fn square_char(s: Square) -> Option<char> {
    match s {
        Square::Tile(t) => tile_char(t),
        _ => None,
    }
}

/// The tile on a square, if any.
pub open spec fn square_tile(s: Square) -> Option<Tile> {
    match s {
        Square::Tile(t) => Some(t),
        _ => None,
    }
}

pub fn score_char(c: &char) -> (r: isize)
    ensures
        r == char_value(*c),
        0 <= r <= 10,
{
    match *c {
        'A' | 'E' | 'I' | 'L' | 'N' | 'O' | 'R' | 'S' | 'T' | 'U' => 1,
        'D' | 'G' => 2,
        'B' | 'C' | 'M' | 'P' => 3,
        'F' | 'H' | 'V' | 'W' | 'Y' => 4,
        'K' => 5,
        'J' | 'X' => 8,
        'Q' | 'Z' => 10,
        _ => 0,
    }
}

pub fn score_tile(tile: &Tile) -> (r: isize)
    ensures
        r == tile_value(*tile),
        0 <= r <= 10,
{
    match tile {
        Tile::Char(c) => score_char(c),
        Tile::Blank(_) => 0,
    }
}

impl Tile {
    pub fn as_char(&self) -> (r: Option<char>)
        ensures
            r == tile_char(*self),
    {
        match *self {
            Tile::Char(c) => Some(c),
            Tile::Blank(Some(c)) => Some(c),
            Tile::Blank(None) => None,
        }
    }

    pub fn to_string(&self) -> (r: String)
        ensures
            r@ == tile_label(*self),
    {
        match *self {
            Tile::Char(c) | Tile::Blank(Some(c)) => {
                let mut s = String::new();
                s.push(c);
                s
            },
            Tile::Blank(None) => {
                let s = String::from_str("BLANK");
                proof {
                    reveal_strlit("BLANK");
                }
                s
            },
        }
    }

    /// Reads a tile code: exactly one character, which becomes a letter tile.
    pub fn parse_code(s: &str) -> (r: Result<Tile, Error>)
        ensures
            s@.len() == 1 ==> r == Ok::<Tile, Error>(Tile::Char(s@[0])),
            s@.len() != 1 ==> r matches Err(Error::TileParse),
    {
        if s.unicode_len() != 1 {
            Err(Error::TileParse)
        } else {
            Ok(Tile::Char(s.get_char(0)))
        }
    }
}

impl std::str::FromStr for Tile {
    type Err = Error;

    fn from_str(s: &str) -> Result<Tile, Error> {
        Tile::parse_code(s)
    }
}

impl Square {
    pub fn blank() -> (r: Square)
        ensures
            r == Square::Blank,
    {
        Square::Blank
    }

    pub fn word_bonus(multiplier: isize) -> (r: Square)
        ensures
            r == Square::WordBonus(multiplier),
    {
        Square::WordBonus(multiplier)
    }

    pub fn letter_bonus(multiplier: isize) -> (r: Square)
        ensures
            r == Square::LetterBonus(multiplier),
    {
        Square::LetterBonus(multiplier)
    }

    pub fn tile(&self) -> (r: Option<&Tile>)
        ensures
            r matches Some(t) ==> square_tile(*self) == Some(*t),
            r is None ==> square_tile(*self) is None,
    {
        if let Square::Tile(tile) = self {
            return Some(tile);
        }
        None
    }

    pub fn get_char(&self) -> (r: Option<char>)
        ensures
            r == square_char(*self),
    {
        match self.tile() {
            Some(tile) => tile.as_char(),
            None => None,
        }
    }
}

} // verus!
