//! The three kinds of cell a maze is laid out from.

use vstd::prelude::*;

verus! {

#[derive(Copy, Clone, Debug, PartialEq, Eq, Structural)]
pub enum Tile {
    Floor,
    Wall,
    Exit,
}

impl Tile {
    /// The character that stands for this tile in a text layout.
    pub open spec fn symbol(self) -> char {
        match self {
            Tile::Floor => ' ',
            Tile::Wall => '#',
            Tile::Exit => 'X',
        }
    }

    /// The tile a character of a text layout stands for, if any.
    pub open spec fn of_symbol(c: char) -> Option<Tile> {
        if c == ' ' {
            Some(Tile::Floor)
        } else if c == '#' {
            Some(Tile::Wall)
        } else if c == 'X' {
            Some(Tile::Exit)
        } else {
            None
        }
    }

    pub fn glyph(&self) -> (c: char)
        ensures
            c == self.symbol(),
    {
        match *self {
            Tile::Floor => ' ',
            Tile::Wall => '#',
            Tile::Exit => 'X',
        }
    }

    pub fn from_glyph(c: char) -> (tile: Option<Tile>)
        ensures
            tile == Tile::of_symbol(c),
    {
        if c == ' ' {
            Some(Tile::Floor)
        } else if c == '#' {
            Some(Tile::Wall)
        } else if c == 'X' {
            Some(Tile::Exit)
        } else {
            None
        }
    }
}

/// Reading back the character a tile is written as gives the tile again.
pub proof fn lemma_symbol_round_trip(tile: Tile)
    ensures
        Tile::of_symbol(tile.symbol()) == Some(tile),
{
}

} // verus!
