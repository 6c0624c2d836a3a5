//! The text layout of a maze: one line per row, one character per tile.

use vstd::prelude::*;
use crate::maze::Maze;
use crate::posn::Posn;
use crate::tile::Tile;
use crate::troll::Troll;

verus! {

broadcast use vstd::string::group_string_axioms;

/// Why a text layout makes no maze.
#[derive(Copy, Clone, Debug, PartialEq, Eq, Structural)]
pub enum FormatError {
    /// There is no line, or the first line is empty.
    Empty,
    /// There are more lines, or more characters in the first line, than a
    /// position can address.
    TooLarge,
    /// The character at `column` of line `line` stands for no tile.
    BadCharacter { line: usize, column: usize },
    /// Line `line` is not as long as the first line.
    Ragged { line: usize },
}

/// The index of the first character of `line` at or after `from` that
/// stands for no tile, or the length of `line` if there is none.
pub open spec fn first_bad(line: Seq<char>, from: int) -> int
    decreases line.len() - from,
{
    if from < 0 || from >= line.len() {
        line.len() as int
    } else if Tile::of_symbol(line[from]) is None {
        from
    } else {
        first_bad(line, from + 1)
    }
}

/// What is wrong with line `i` of `lines`, if anything: a character that
/// stands for no tile comes first, then the line's length.
pub open spec fn line_fault(lines: Seq<String>, i: int) -> Option<FormatError> {
    let line = lines[i]@;
    if first_bad(line, 0) < line.len() {
        Some(FormatError::BadCharacter { line: i as usize, column: first_bad(line, 0) as usize })
    } else if i == 0 && line.len() == 0 {
        Some(FormatError::Empty)
    } else if i == 0 && line.len() > i32::MAX {
        Some(FormatError::TooLarge)
    } else if line.len() != lines[0]@.len() {
        Some(FormatError::Ragged { line: i as usize })
    } else {
        None
    }
}

/// The fault of the first line at or after `from` that has one.
pub open spec fn first_fault(lines: Seq<String>, from: int) -> Option<FormatError>
    decreases lines.len() - from,
{
    if from < 0 || from >= lines.len() {
        None
    } else if line_fault(lines, from) is Some {
        line_fault(lines, from)
    } else {
        first_fault(lines, from + 1)
    }
}

/// What is wrong with the layout `lines`, if anything.
pub open spec fn layout_fault(lines: Seq<String>) -> Option<FormatError> {
    if lines.len() == 0 {
        Some(FormatError::Empty)
    } else if lines.len() > i32::MAX {
        Some(FormatError::TooLarge)
    } else {
        first_fault(lines, 0)
    }
}

/// Whether `lines` lays out a maze: there is at least one line, the lines
/// are of one length and not empty, and every character stands for a tile.
pub open spec fn is_text_layout(lines: Seq<String>) -> bool {
    &&& 1 <= lines.len() <= i32::MAX
    &&& 1 <= lines[0]@.len() <= i32::MAX
    &&& forall|i: int| 0 <= i < lines.len() ==> (#[trigger] lines[i])@.len() == lines[0]@.len()
    &&& forall|i: int, j: int|
        0 <= i < lines.len() && 0 <= j < lines[i]@.len() ==> Tile::of_symbol(
            #[trigger] lines[i]@[j],
        ) is Some
}

/// The tiles that the characters of `line` stand for.
fn parse_line(line: &str) -> (parsed: Result<Vec<Tile>, usize>)
    ensures
        match parsed {
            Ok(tiles) => {
                &&& first_bad(line@, 0) == line@.len()
                &&& tiles@.len() == line@.len()
                &&& forall|j: int|
                    0 <= j < line@.len() ==> Some(#[trigger] tiles@[j]) == Tile::of_symbol(line@[j])
            },
            Err(column) => column == first_bad(line@, 0) && column < line@.len(),
        },
{
    let mut tiles: Vec<Tile> = Vec::new();
    for c in it: line.chars()
        invariant
            it.seq() == line@,
            tiles@.len() == it.index(),
            first_bad(line@, 0) == first_bad(line@, it.index() as int),
            forall|j: int|
                0 <= j < tiles@.len() ==> Some(#[trigger] tiles@[j]) == Tile::of_symbol(line@[j]),
    {
        match Tile::from_glyph(c) {
            Some(tile) => {
                tiles.push(tile);
            },
            None => {
                return Err(tiles.len());
            },
        }
    }
    Ok(tiles)
}

/// What `first_bad` finds: every character before it stands for a tile,
/// and the one it points at, if any, does not.
pub proof fn lemma_first_bad(line: Seq<char>, from: int)
    requires
        0 <= from <= line.len(),
    ensures
        from <= first_bad(line, from) <= line.len(),
        forall|j: int| from <= j < first_bad(line, from) ==> Tile::of_symbol(line[j]) is Some,
        first_bad(line, from) < line.len() ==> Tile::of_symbol(line[first_bad(line, from)]) is None,
    decreases line.len() - from,
{
    if from < line.len() && Tile::of_symbol(line[from]) is Some {
        lemma_first_bad(line, from + 1);
    }
}

/// What `first_fault` finds: no line before the one it reports has a
/// fault.
pub proof fn lemma_first_fault(lines: Seq<String>, from: int)
    requires
        0 <= from <= lines.len(),
    ensures
        first_fault(lines, from) is None <==> forall|i: int|
            from <= i < lines.len() ==> (#[trigger] line_fault(lines, i)) is None,
    decreases lines.len() - from,
{
    if from < lines.len() {
        lemma_first_fault(lines, from + 1);
        if line_fault(lines, from) is None {
            assert forall|i: int| from <= i < lines.len() && (forall|k: int|
                from + 1 <= k < lines.len() ==> (#[trigger] line_fault(lines, k)) is None) implies (
            #[trigger] line_fault(lines, i)) is None by {}
        }
    }
}

/// A layout has no fault exactly if it lays out a maze.
pub proof fn lemma_fault_free(lines: Seq<String>)
    ensures
        layout_fault(lines) is None <==> is_text_layout(lines),
{
    if 1 <= lines.len() <= i32::MAX {
        lemma_first_fault(lines, 0);
        assert forall|i: int| 0 <= i < lines.len() implies first_bad(lines[i]@, 0) <= lines[i]@.len()
            && (first_bad(lines[i]@, 0) == lines[i]@.len() <==> forall|j: int|
            0 <= j < lines[i]@.len() ==> Tile::of_symbol(#[trigger] lines[i]@[j]) is Some) by {
            lemma_first_bad(lines[i]@, 0);
        }
        if is_text_layout(lines) {
            assert forall|i: int| 0 <= i < lines.len() implies (#[trigger] line_fault(
                lines,
                i,
            )) is None by {
                assert(lines[i]@.len() == lines[0]@.len());
            }
        }
        if layout_fault(lines) is None {
            assert(line_fault(lines, 0) is None);
            assert forall|i: int| 0 <= i < lines.len() implies (#[trigger] lines[i])@.len()
                == lines[0]@.len() by {
                assert(line_fault(lines, i) is None);
            }
            assert forall|i: int, j: int|
                0 <= i < lines.len() && 0 <= j < lines[i]@.len() implies Tile::of_symbol(
                #[trigger] lines[i]@[j],
            ) is Some by {
                assert(line_fault(lines, i) is None);
            }
        }
    }
}

/// What is drawn on a position: the ground, or a troll standing there.
#[derive(Copy, Clone, Debug, PartialEq, Eq, Structural)]
pub enum Sprite {
    Ground(Tile),
    Troll(Troll),
}

impl Maze {
    /// Whether this maze is the one that `lines` lays out: a row for each
    /// line, a tile for each character, and no trolls.
    pub open spec fn lays_out(&self, lines: Seq<String>) -> bool {
        &&& self.wf()
        &&& self.rows() == lines.len()
        &&& self.cols() == lines[0]@.len()
        &&& self.trolls() == Map::<Posn, Troll>::empty()
        &&& forall|p: Posn|
            self.contains(p) ==> Some(#[trigger] self.tile(p)) == Tile::of_symbol(
                lines[p.row as int]@[p.col as int],
            )
    }

    /// What a full drawing of the maze shows on `pos`: a troll that stands
    /// there hides the ground.
    pub open spec fn sprite(&self, pos: Posn) -> Sprite {
        if self.trolls().contains_key(pos) {
            Sprite::Troll(self.trolls()[pos])
        } else {
            Sprite::Ground(self.tile(pos))
        }
    }

    /// What redrawing the single position `pos` shows: a troll only where
    /// it stands on floor.
    pub open spec fn floor_sprite(&self, pos: Posn) -> Sprite {
        if self.tile(pos) == Tile::Floor && self.trolls().contains_key(pos) {
            Sprite::Troll(self.trolls()[pos])
        } else {
            Sprite::Ground(self.tile(pos))
        }
    }

    /// Reads a maze from its text layout, one line per row: a blank for
    /// floor, `#` for wall, `X` for an exit.
    ///
    /// Fails with the first fault of the layout: see `layout_fault`. By
    /// `lemma_fault_free` it succeeds exactly on the layouts that
    /// `is_text_layout` describes.
    pub fn load_from_lines(lines: &Vec<String>) -> (loaded: Result<Maze, FormatError>)
        ensures
            match loaded {
                Ok(maze) => layout_fault(lines@) is None && maze.lays_out(lines@),
                Err(fault) => layout_fault(lines@) == Some(fault),
            },
            loaded is Ok <==> is_text_layout(lines@),
    {
        proof {
            lemma_fault_free(lines@);
        }
        if lines.len() == 0 {
            return Err(FormatError::Empty);
        }
        if lines.len() > 0x7fff_ffff {
            return Err(FormatError::TooLarge);
        }
        let mut map: Vec<Vec<Tile>> = Vec::new();
        let mut i: usize = 0;
        while i < lines.len()
            invariant
                1 <= lines@.len() <= i32::MAX,
                layout_fault(lines@) is None <==> is_text_layout(lines@),
                i <= lines@.len(),
                map@.len() == i,
                first_fault(lines@, 0) == first_fault(lines@, i as int),
                i > 0 ==> 1 <= lines@[0]@.len() <= i32::MAX,
                forall|r: int| 0 <= r < i ==> (#[trigger] map@[r])@.len() == lines@[0]@.len(),
                forall|r: int| 0 <= r < i ==> (#[trigger] lines@[r])@.len() == lines@[0]@.len(),
                forall|r: int, c: int|
                    0 <= r < i && 0 <= c < lines@[0]@.len() ==> Some(#[trigger] map@[r]@[c])
                        == Tile::of_symbol(lines@[r]@[c]),
            decreases lines@.len() - i,
        {
            let tiles = match parse_line(lines[i].as_str()) {
                Ok(tiles) => tiles,
                Err(column) => {
                    return Err(FormatError::BadCharacter { line: i, column: column });
                },
            };
            if i == 0 {
                if tiles.len() == 0 {
                    return Err(FormatError::Empty);
                }
                if tiles.len() > 0x7fff_ffff {
                    return Err(FormatError::TooLarge);
                }
            } else if tiles.len() != map[0].len() {
                return Err(FormatError::Ragged { line: i });
            }
            map.push(tiles);
            i += 1;
        }
        Ok(Maze::new(map))
    }

    /// What a full drawing of the maze shows on `pos`.
    pub fn sprite_at(&self, pos: &Posn) -> (shown: Sprite)
        requires
            self.wf(),
            self.contains(*pos),
        ensures
            shown == self.sprite(*pos),
    {
        match self.troll_at(*pos) {
            Some(troll) => Sprite::Troll(troll),
            None => Sprite::Ground(self.tile_at(pos)),
        }
    }

    /// What redrawing the single position `pos` shows.
    pub fn redrawn_sprite(&self, pos: &Posn) -> (shown: Sprite)
        requires
            self.wf(),
            self.contains(*pos),
        ensures
            shown == self.floor_sprite(*pos),
    {
        if self.tile_at(pos) == Tile::Floor {
            if let Some(troll) = self.troll_at(*pos) {
                return Sprite::Troll(troll);
            }
        }
        Sprite::Ground(self.tile_at(pos))
    }
}

} // verus!
