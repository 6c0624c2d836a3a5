//! What hunt and kill makes of the picks it is given.
//!
//! The generator has a choice in two places: onto which open neighbour to
//! graft the cell that a hunt has found, and into which closed neighbour to
//! walk on. All else is fixed. This module writes the process down as a
//! function of the picks, each pick being the index of the neighbour
//! chosen among those on offer, so that the maze that comes out is seen to
//! depend on nothing but the dimensions and the picks.

use vstd::prelude::*;
use crate::generate::{centre_of, comes_before, exit_posn, in_cells, root_posn};
use crate::maze::Maze;
use crate::posn::Posn;
use crate::tile::Tile;

verus! {

/// The tile at `p` of `tiles`.
pub open spec fn tile_in(tiles: Seq<Seq<Tile>>, p: Posn) -> Tile {
    tiles[p.row as int][p.col as int]
}

/// `tiles` with the tile at `p` replaced by `tile`.
pub open spec fn put(tiles: Seq<Seq<Tile>>, p: Posn, tile: Tile) -> Seq<Seq<Tile>> {
    tiles.update(p.row as int, tiles[p.row as int].update(p.col as int, tile))
}

/// The tile map of a maze of `h` by `w` cells before anything is opened.
pub open spec fn all_wall(h: int, w: int) -> Seq<Seq<Tile>> {
    Seq::new((2 * h + 1) as nat, |r: int| Seq::new((2 * w + 1) as nat, |c: int| Tile::Wall))
}

/// Whether a cell, given by its cell coordinates, belongs to a maze of `h`
/// by `w` cells and holds `want`.
pub open spec fn is_holding(tiles: Seq<Seq<Tile>>, h: int, w: int, want: Tile) -> spec_fn(
    Posn,
) -> bool {
    |cell: Posn| in_cells(cell, h, w) && tile_in(tiles, centre_of(cell)) == want
}

/// The cells beside `cell` that hold `want`, in the order north, east,
/// south, west: what a pick chooses among.
pub open spec fn candidates(tiles: Seq<Seq<Tile>>, h: int, w: int, cell: Posn, want: Tile) -> Seq<
    Posn,
> {
    cell.neighbours().filter(is_holding(tiles, h, w, want))
}

/// Whether `cell` is the first closed cell when the map is read row by row.
pub open spec fn is_first_closed(tiles: Seq<Seq<Tile>>, h: int, w: int, cell: Posn) -> bool {
    &&& in_cells(cell, h, w)
    &&& tile_in(tiles, centre_of(cell)) == Tile::Wall
    &&& forall|other: Posn|
        in_cells(other, h, w) && comes_before(other, cell) ==> tile_in(
            tiles,
            #[trigger] centre_of(other),
        ) != Tile::Wall
}

/// The first closed cell when the map is read row by row, if there is one.
pub open spec fn first_closed(tiles: Seq<Seq<Tile>>, h: int, w: int) -> Option<Posn> {
    if exists|cell: Posn| is_first_closed(tiles, h, w, cell) {
        Some(choose|cell: Posn| is_first_closed(tiles, h, w, cell))
    } else {
        None
    }
}

/// Where the generator stands between two picks.
pub enum Phase {
    /// A hunt has found this closed cell; the next pick chooses the open
    /// neighbour it is grafted onto.
    Graft(Posn),
    /// The walk has come to this cell; the next pick chooses the closed
    /// neighbour it goes on to.
    Walk(Posn),
    /// No closed cell is left.
    Done,
}

/// The state of the generator between two picks.
pub struct Carving {
    pub tiles: Seq<Seq<Tile>>,
    pub phase: Phase,
}

/// Where the generator stands after a hunt.
pub open spec fn hunt_phase(tiles: Seq<Seq<Tile>>, h: int, w: int) -> Phase {
    match first_closed(tiles, h, w) {
        Some(cell) => Phase::Graft(cell),
        None => Phase::Done,
    }
}

/// Where the generator stands once the walk has come to `cell`: it walks
/// on if a closed cell lies beside it, and hunts if not.
pub open spec fn settle(tiles: Seq<Seq<Tile>>, h: int, w: int, cell: Posn) -> Phase {
    if candidates(tiles, h, w, cell, Tile::Wall).len() > 0 {
        Phase::Walk(cell)
    } else {
        hunt_phase(tiles, h, w)
    }
}

/// The position of the gap between two cells that lie side by side or one
/// above the other, given by their cell coordinates.
pub open spec fn gap_between(a: Posn, b: Posn) -> Posn {
    Posn { row: (a.row + b.row + 1) as i32, col: (a.col + b.col + 1) as i32 }
}

/// `tiles` after the passage from cell `from` to cell `to` and the cell
/// `to` itself have been opened.
pub open spec fn enter(tiles: Seq<Seq<Tile>>, from: Posn, to: Posn) -> Seq<Seq<Tile>> {
    put(put(tiles, gap_between(from, to), Tile::Floor), centre_of(to), Tile::Floor)
}

/// The state of the generator before the first pick: all is wall but for
/// the exit and the first cell, and a hunt is under way.
pub open spec fn begin(h: int, w: int) -> Carving {
    let tiles = put(put(all_wall(h, w), exit_posn(), Tile::Exit), root_posn(), Tile::Floor);
    Carving { tiles, phase: hunt_phase(tiles, h, w) }
}

/// The state that the pick `pick` leads to from `from`.
pub open spec fn step(from: Carving, h: int, w: int, pick: int) -> Carving {
    match from.phase {
        Phase::Graft(cell) => {
            let onto = candidates(from.tiles, h, w, cell, Tile::Floor)[pick];
            let tiles = enter(from.tiles, onto, cell);
            Carving { tiles, phase: settle(tiles, h, w, cell) }
        },
        Phase::Walk(cell) => {
            let to = candidates(from.tiles, h, w, cell, Tile::Wall)[pick];
            let tiles = enter(from.tiles, cell, to);
            Carving { tiles, phase: settle(tiles, h, w, to) }
        },
        Phase::Done => from,
    }
}

/// The state that the picks `picks`, taken in order, lead to.
pub open spec fn carve(h: int, w: int, picks: Seq<int>) -> Carving
    decreases picks.len(),
{
    if picks.len() == 0 {
        begin(h, w)
    } else {
        step(carve(h, w, picks.drop_last()), h, w, picks.last())
    }
}

/// Whether `maze` is the maze of `h` by `w` cells that the picks `picks`
/// make, with no closed cell left.
pub open spec fn is_carved_by(maze: &Maze, h: int, w: int, picks: Seq<int>) -> bool {
    carve(h, w, picks).phase is Done && maze.tiles() == carve(h, w, picks).tiles
}

/// Whether `maze` is a maze of `h` by `w` cells that hunt and kill makes,
/// for some picks.
pub open spec fn is_carved(maze: &Maze, h: int, w: int) -> bool {
    exists|picks: Seq<int>| is_carved_by(maze, h, w, picks)
}

/// The same picks make the same maze: two mazes of one size carved by the
/// same picks agree tile by tile.
pub proof fn lemma_same_picks_same_maze(one: &Maze, other: &Maze, h: int, w: int, picks: Seq<int>)
    requires
        is_carved_by(one, h, w, picks),
        is_carved_by(other, h, w, picks),
    ensures
        one.tiles() == other.tiles(),
        one.map@.len() == other.map@.len(),
        forall|r: int| 0 <= r < one.map@.len() ==> (#[trigger] one.map@[r])@ == other.map@[r]@,
{
    assert(one.tiles().len() == one.map@.len());
    assert(other.tiles().len() == other.map@.len());
    assert forall|r: int| 0 <= r < one.map@.len() implies (#[trigger] one.map@[r])@
        == other.map@[r]@ by {
        assert(one.tiles()[r] == one.map@[r]@);
        assert(other.tiles()[r] == other.map@[r]@);
    }
}

/// The tile view of a maze agrees with its tiles.
pub proof fn lemma_tiles_agree(maze: &Maze, p: Posn)
    requires
        maze.wf(),
        maze.contains(p),
    ensures
        tile_in(maze.tiles(), p) == maze.tile(p),
{
}

/// Replacing a tile of a maze replaces it in the tile view.
pub proof fn lemma_put_agrees(before: &Maze, after: &Maze, pos: Posn, tile: Tile)
    requires
        before.wf(),
        after.is_update_of(before, pos, tile),
    ensures
        after.tiles() == put(before.tiles(), pos, tile),
{
    let changed = put(before.tiles(), pos, tile);
    assert(after.tiles().len() == changed.len());
    assert forall|r: int| 0 <= r < changed.len() implies #[trigger] after.tiles()[r]
        == changed[r] by {
        assert(after.map@[r]@.len() == before.map@[r]@.len()) by {
            assert(after.map@[r]@.len() == after.map@[0]@.len());
            assert(before.map@[r]@.len() == before.map@[0]@.len());
        }
        assert forall|c: int| 0 <= c < changed[r].len() implies #[trigger] after.tiles()[r][c]
            == changed[r][c] by {
            let p = Posn { row: r as i32, col: c as i32 };
            assert(before.contains(p));
            if p != pos {
                assert(after.tile(p) == before.tile(p));
            }
        }
        assert(after.tiles()[r] =~= changed[r]);
    }
    assert(after.tiles() =~= changed);
}

} // verus!
