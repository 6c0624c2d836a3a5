//! The player.

use vstd::prelude::*;
use crate::direction::Direction;
use crate::posn::Posn;

verus! {

#[derive(Clone, Debug, PartialEq, Eq)]
pub struct Player {
    pub pos: Posn,
    pub dir: Direction,
}

impl Player {
    /// The player after the command to go in direction `dir`: one who
    /// faces that way already steps ahead, any other turns to face it.
    pub open spec fn commanded(&self, dir: Direction) -> Player {
        if dir == self.dir {
            Player { pos: self.pos.step(dir), dir: self.dir }
        } else {
            Player { pos: self.pos, dir }
        }
    }

    pub fn update(&mut self, dir: Direction)
        requires
            dir == old(self).dir ==> old(self).pos.can_step(dir),
        ensures
            *final(self) == old(self).commanded(dir),
    {
        if dir == self.dir {
            self.pos = self.pos + dir.numeric();
        } else {
            self.dir = dir
        }
    }

    /// The arrow glyph the player is drawn with.
    pub fn glyph(&self) -> (glyph: &'static str)
        ensures
            glyph == self.dir.arrow(),
    {
        self.dir.unicode()
    }
}

} // verus!
