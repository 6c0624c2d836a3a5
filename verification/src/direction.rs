//! The four compass directions.

use vstd::prelude::*;
use crate::dice::pick;

verus! {

#[derive(Copy, Clone, Debug, PartialEq, Eq, Structural)]
pub enum Direction {
    North,
    East,
    South,
    West,
}

impl Direction {
    /// The unit step of this direction as `(row delta, column delta)`.
    pub open spec fn delta(self) -> (int, int) {
        match self {
            Direction::North => (-1, 0),
            Direction::South => (1, 0),
            Direction::East => (0, 1),
            Direction::West => (0, -1),
        }
    }

    /// The direction pointing the other way.
    pub open spec fn opposite(self) -> Direction {
        match self {
            Direction::North => Direction::South,
            Direction::South => Direction::North,
            Direction::East => Direction::West,
            Direction::West => Direction::East,
        }
    }

    //                        row, col
    pub fn numeric(&self) -> (step: (i32, i32))
        ensures
            step.0 == self.delta().0,
            step.1 == self.delta().1,
    {
        match *self {
            Direction::North => (-1, 0),
            Direction::South => (1, 0),
            Direction::East => (0, 1),
            Direction::West => (0, -1),
        }
    }

    pub fn flip(&self) -> (flipped: Direction)
        ensures
            flipped == self.opposite(),
    {
        match *self {
            Direction::North => Direction::South,
            Direction::South => Direction::North,
            Direction::East => Direction::West,
            Direction::West => Direction::East,
        }
    }

    /// The arrow glyph a mover facing this way is drawn with.
    pub open spec fn arrow(self) -> &'static str {
        match self {
            Direction::North => "▲",
            Direction::South => "▼",
            Direction::East => "▶",
            Direction::West => "◀",
        }
    }

    pub fn unicode(&self) -> (glyph: &'static str)
        ensures
            glyph == self.arrow(),
    {
        match *self {
            Direction::North => "▲",
            Direction::South => "▼",
            Direction::East => "▶",
            Direction::West => "◀",
        }
    }

    /// Draws one of the four directions from `rng`.
    ///
    /// Which one comes out is up to the random source; every direction is a
    /// possible outcome, so nothing more than the type is promised.
    pub fn random(rng: &mut rand::StdRng) -> Direction {
        let mut all: Vec<Direction> = Vec::new();
        all.push(Direction::North);
        all.push(Direction::South);
        all.push(Direction::East);
        all.push(Direction::West);
        pick(rng, &all).unwrap()
    }
}

/// Flipping twice gives back the direction one started with, and a flip
/// negates the unit step.
pub proof fn lemma_flip(d: Direction)
    ensures
        d.opposite().opposite() == d,
        d.opposite() != d,
        d.opposite().delta().0 == -d.delta().0,
        d.opposite().delta().1 == -d.delta().1,
{
}

} // verus!
