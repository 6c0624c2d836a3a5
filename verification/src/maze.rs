//! The maze: a rectangular tile map and the trolls standing on it.

use vstd::prelude::*;
use std::collections::HashMap;
use vstd::std_specs::iter::IteratorSpec;
use crate::dice::below;
use crate::direction::Direction;
use crate::posn::Posn;
use crate::tile::Tile;
use crate::troll::Troll;

verus! {

broadcast use vstd::std_specs::hash::group_hash_axioms;

/// Half the span of the `i32` range: the shift that makes a coordinate
/// non-negative.
pub const COORD_SHIFT: i64 = 0x8000_0000;

/// The number of distinct `i32` values.
pub const COORD_SPAN: u64 = 0x1_0000_0000;

/// The number of draws after which `random_floor_tile` gives up.
pub const MAX_DRAWS: u32 = 10_000;

/// The error of `random_floor_tile`: no draw hit a floor tile.
#[derive(Copy, Clone, Debug, PartialEq, Eq, Structural)]
pub struct ExhaustedRetries;

/// What becomes of a position drawn in search of floor.
#[derive(Copy, Clone, Debug, PartialEq, Eq, Structural)]
pub enum Drawn {
    /// The position holds floor: the search ends with it.
    Found(Posn),
    /// The position holds no floor: another is drawn.
    Again,
    /// The position holds no floor, and it was the last draw allowed.
    GiveUp,
}

/// The key under which the occupant of `pos` is filed. Distinct positions
/// have distinct keys.
pub open spec fn troll_key(pos: Posn) -> u64 {
    ((pos.row + COORD_SHIFT) * COORD_SPAN + (pos.col + COORD_SHIFT)) as u64
}

/// The position that is filed under `key`.
pub open spec fn key_posn(key: u64) -> Posn {
    Posn {
        row: (key / COORD_SPAN - COORD_SHIFT) as i32,
        col: (key % COORD_SPAN - COORD_SHIFT) as i32,
    }
}

/// Keys and positions correspond one to one.
pub proof fn lemma_troll_key_bijective(pos: Posn, key: u64)
    ensures
        key_posn(troll_key(pos)) == pos,
        troll_key(key_posn(key)) == key,
{
}

/// What a tile map has to satisfy to make a maze: at least one row and one
/// column, all rows of one length, and both dimensions within `i32`.
pub open spec fn is_layout(map: Seq<Vec<Tile>>) -> bool {
    &&& 1 <= map.len() <= i32::MAX
    &&& 1 <= map[0]@.len() <= i32::MAX
    &&& forall|r: int| 0 <= r < map.len() ==> (#[trigger] map[r])@.len() == map[0]@.len()
}

/// The positions of a map of `rows` by `cols` tiles.
pub open spec fn board(rows: int, cols: int) -> Set<Posn> {
    Set::new(|p: Posn| 0 <= p.row < rows && 0 <= p.col < cols)
}

/// The positions of row `r` of a map `cols` tiles wide.
spec fn board_row(r: int, cols: int) -> Set<Posn> {
    Set::new(|p: Posn| p.row == r && 0 <= p.col < cols)
}

proof fn lemma_board_row(r: int, cols: int)
    requires
        0 <= r <= i32::MAX,
        0 <= cols <= i32::MAX,
    ensures
        board_row(r, cols).finite(),
        board_row(r, cols).len() == cols,
    decreases cols,
{
    if cols == 0 {
        assert(board_row(r, cols) =~= Set::<Posn>::empty());
    } else {
        lemma_board_row(r, cols - 1);
        let last = Posn { row: r as i32, col: (cols - 1) as i32 };
        assert(board_row(r, cols) =~= board_row(r, cols - 1).insert(last));
    }
}

/// A map of `rows` by `cols` tiles has `rows * cols` positions.
pub proof fn lemma_board(rows: int, cols: int)
    requires
        0 <= rows <= i32::MAX,
        0 <= cols <= i32::MAX,
    ensures
        board(rows, cols).finite(),
        board(rows, cols).len() == rows * cols,
    decreases rows,
{
    if rows == 0 {
        assert(board(rows, cols) =~= Set::<Posn>::empty());
        assert(rows * cols == 0) by (nonlinear_arith)
            requires
                rows == 0,
        ;
    } else {
        lemma_board(rows - 1, cols);
        lemma_board_row(rows - 1, cols);
        let above = board(rows - 1, cols);
        let row = board_row(rows - 1, cols);
        assert(board(rows, cols) =~= above.union(row));
        assert(above.disjoint(row));
        vstd::set_lib::lemma_set_disjoint_lens(above, row);
        assert(rows * cols == (rows - 1) * cols + cols) by (nonlinear_arith);
    }
}

#[derive(Clone, Debug, PartialEq, Eq)]
pub struct Maze {
    pub map: Vec<Vec<Tile>>,
    /// The trolls, each filed under the key of the position it stands on.
    pub trolls: HashMap<u64, Troll>,
}

impl Maze {
    /// The maze's invariant: its tile map is a proper layout.
    pub open spec fn wf(&self) -> bool {
        is_layout(self.map@)
    }

    /// The number of rows.
    pub open spec fn rows(&self) -> int {
        self.map@.len() as int
    }

    /// The number of columns.
    pub open spec fn cols(&self) -> int {
        self.map@[0]@.len() as int
    }

    /// Whether `pos` lies on the map.
    pub open spec fn contains(&self, pos: Posn) -> bool {
        0 <= pos.row < self.rows() && 0 <= pos.col < self.cols()
    }

    /// The tile at `pos`, meaningful where `pos` lies on the map.
    pub open spec fn tile(&self, pos: Posn) -> Tile {
        self.map@[pos.row as int]@[pos.col as int]
    }

    /// The tiles of the map, row by row.
    pub open spec fn tiles(&self) -> Seq<Seq<Tile>> {
        Seq::new(self.map@.len(), |r: int| self.map@[r]@)
    }

    /// Whether `pos` lies on the map and holds `tile`.
    pub open spec fn holds(&self, pos: Posn, tile: Tile) -> bool {
        self.contains(pos) && self.tile(pos) == tile
    }

    /// The trolls of the maze, by the position each one stands on.
    pub open spec fn trolls(&self) -> Map<Posn, Troll> {
        Map::new(
            |pos: Posn| self.trolls@.contains_key(troll_key(pos)),
            |pos: Posn| self.trolls@[troll_key(pos)],
        )
    }

    pub fn new(map: Vec<Vec<Tile>>) -> (maze: Maze)
        requires
            is_layout(map@),
        ensures
            maze.wf(),
            maze.map == map,
            maze.trolls() == Map::<Posn, Troll>::empty(),
    {
        let maze = Maze { map: map, trolls: HashMap::new() };
        assert(maze.trolls() =~= Map::<Posn, Troll>::empty());
        maze
    }

    //                       row    col
    pub fn bounds(&self) -> (dims: (usize, usize))
        requires
            self.wf(),
        ensures
            dims.0 == self.rows(),
            dims.1 == self.cols(),
    {
        (self.map.len(), self.map[0].len())
    }

    pub fn in_bounds(&self, pos: &Posn) -> (r: bool)
        requires
            self.wf(),
        ensures
            r == self.contains(*pos),
    {
        pos.row >= 0 && pos.row < self.map.len() as i32 && pos.col >= 0 && pos.col
            < self.map[0].len() as i32
    }

    pub fn tile_at(&self, pos: &Posn) -> (tile: Tile)
        requires
            self.wf(),
            self.contains(*pos),
        ensures
            tile == self.tile(*pos),
    {
        self.map[pos.row as usize][pos.col as usize]
    }

    /// Whether this maze is `before` with the tile at `pos` replaced by
    /// `tile` and nothing else changed.
    pub open spec fn is_update_of(&self, before: &Maze, pos: Posn, tile: Tile) -> bool {
        &&& self.wf()
        &&& before.contains(pos)
        &&& self.rows() == before.rows()
        &&& self.cols() == before.cols()
        &&& self.trolls == before.trolls
        &&& self.tile(pos) == tile
        &&& forall|p: Posn|
            #![trigger self.tile(p)]
            #![trigger before.tile(p)]
            before.contains(p) && p != pos ==> self.tile(p) == before.tile(p)
    }

    /// Puts `tile` at `pos`.
    pub fn set_tile(&mut self, pos: Posn, tile: Tile)
        requires
            old(self).wf(),
            old(self).contains(pos),
        ensures
            final(self).is_update_of(old(self), pos, tile),
    {
        self.map[pos.row as usize][pos.col as usize] = tile;
    }

    /// The trolls after the one standing on `pos`, if there is one, has
    /// been struck down.
    pub open spec fn trolls_struck_at(&self, pos: Posn) -> Map<Posn, Troll> {
        if self.trolls().contains_key(pos) {
            self.trolls().insert(
                pos,
                Troll { dir: self.trolls()[pos].dir, alive: false, state: self.trolls()[pos].state },
            )
        } else {
            self.trolls()
        }
    }

    /// The tile at `p` after a push at `pos` toward `dir`: if the cell
    /// beyond `pos` holds floor, it becomes wall and `pos` becomes floor;
    /// no other tile changes.
    pub open spec fn pushed_tile(&self, pos: Posn, dir: Direction, p: Posn) -> Tile {
        let far = pos.step(dir);
        if self.holds(far, Tile::Floor) && p == far {
            Tile::Wall
        } else if self.holds(far, Tile::Floor) && p == pos {
            Tile::Floor
        } else {
            self.tile(p)
        }
    }

    /// The trolls after a push at `pos` toward `dir`: unless the cell
    /// beyond `pos` is off the map, whoever stands on `pos` is struck down.
    pub open spec fn pushed_trolls(&self, pos: Posn, dir: Direction) -> Map<Posn, Troll> {
        if self.contains(pos.step(dir)) {
            self.trolls_struck_at(pos)
        } else {
            self.trolls()
        }
    }

    /// Whether this maze is what a push at `pos` toward `dir` makes of
    /// `before`.
    pub open spec fn is_push_of(&self, before: &Maze, pos: Posn, dir: Direction) -> bool {
        &&& self.wf()
        &&& self.rows() == before.rows()
        &&& self.cols() == before.cols()
        &&& self.trolls() == before.pushed_trolls(pos, dir)
        &&& forall|p: Posn|
            #![trigger self.tile(p)]
            #![trigger before.tile(p)]
            before.contains(p) ==> self.tile(p) == before.pushed_tile(pos, dir, p)
    }

    /// The key under which the occupant of `pos` is filed.
    pub fn key_of(pos: Posn) -> (key: u64)
        ensures
            key == troll_key(pos),
    {
        let row: u64 = (pos.row as i64 + COORD_SHIFT) as u64;
        let col: u64 = (pos.col as i64 + COORD_SHIFT) as u64;
        row * COORD_SPAN + col
    }

    /// The position that is filed under `key`.
    pub fn posn_of(key: u64) -> (pos: Posn)
        ensures
            pos == key_posn(key),
    {
        Posn {
            row: ((key / COORD_SPAN) as i64 - COORD_SHIFT) as i32,
            col: ((key % COORD_SPAN) as i64 - COORD_SHIFT) as i32,
        }
    }

    /// Puts `troll` on `pos`. A troll that stood there before is replaced.
    pub fn add_troll(&mut self, pos: Posn, troll: Troll)
        ensures
            final(self).map == old(self).map,
            final(self).trolls() == old(self).trolls().insert(pos, troll),
    {
        self.trolls.insert(Maze::key_of(pos), troll);
        proof {
            assert forall|p: Posn| p != pos implies troll_key(p) != troll_key(pos) by {
                lemma_troll_key_bijective(p, 0);
                lemma_troll_key_bijective(pos, 0);
            }
            assert(self.trolls() =~= old(self).trolls().insert(pos, troll));
        }
    }

    /// The troll standing on `pos`, if there is one.
    pub fn troll_at(&self, pos: Posn) -> (found: Option<Troll>)
        ensures
            found is Some <==> self.trolls().contains_key(pos),
            found matches Some(troll) ==> troll == self.trolls()[pos],
    {
        match self.trolls.get(&Maze::key_of(pos)) {
            Some(troll) => Some(*troll),
            None => None,
        }
    }

    /// The positions on which trolls stand, each once, in the order in
    /// which the map hands them out.
    pub fn troll_positions(&self) -> (positions: Vec<Posn>)
        ensures
            positions@.no_duplicates(),
            forall|pos: Posn| positions@.contains(pos) <==> self.trolls().contains_key(pos),
    {
        let mut positions: Vec<Posn> = Vec::new();
        for key in it: self.trolls.keys()
            invariant
                it.seq() == self.trolls.keys().remaining(),
                positions@.len() == it.index(),
                forall|i: int|
                    0 <= i < it.index() ==> #[trigger] positions@[i] == key_posn(
                        *it.seq()[i],
                    ),
        {
            positions.push(Maze::posn_of(*key));
        }
        proof {
            let keys = self.trolls.keys().remaining().unref();
            assert(keys.len() == positions@.len());
            assert forall|i: int| 0 <= i < keys.len() implies positions@[i] == key_posn(
                #[trigger] keys[i],
            ) by {}
            assert forall|i: int, j: int|
                0 <= i < positions@.len() && 0 <= j < positions@.len() && i != j implies positions@[i]
                != positions@[j] by {
                lemma_troll_key_bijective(positions@[i], keys[i]);
                lemma_troll_key_bijective(positions@[j], keys[j]);
                assert(keys[i] != keys[j]);
            }
            assert forall|pos: Posn| positions@.contains(pos) <==> self.trolls().contains_key(
                pos,
            ) by {
                if positions@.contains(pos) {
                    let i = choose|i: int| 0 <= i < positions@.len() && positions@[i] == pos;
                    lemma_troll_key_bijective(pos, keys[i]);
                    assert(keys.to_set().contains(keys[i]));
                }
                if self.trolls().contains_key(pos) {
                    lemma_troll_key_bijective(pos, 0);
                    assert(keys.to_set().contains(troll_key(pos)));
                    let i = choose|i: int| 0 <= i < keys.len() && keys[i] == troll_key(pos);
                    assert(positions@[i] == pos);
                }
            }
        }
        positions
    }

    /// Pushes at the tile on `pos` in direction `dir`: a wall there slides
    /// one cell on if there is floor to slide onto, and whoever stands on
    /// `pos` is struck down.
    pub fn push(&mut self, pos: Posn, dir: Direction)
        requires
            old(self).wf(),
            pos.can_step(dir),
            old(self).holds(pos.step(dir), Tile::Floor) ==> old(self).contains(pos),
        ensures
            final(self).is_push_of(old(self), pos, dir),
    {
        let next_tile_posn = pos + dir.numeric();
        if self.in_bounds(&next_tile_posn) {
            let next_tile = self.tile_at(&next_tile_posn);
            match self.troll_at(pos) {
                Some(troll) => {
                    self.add_troll(pos, Troll { dir: troll.dir, alive: false, state: troll.state });
                },
                None => {},
            }
            if let Tile::Floor = next_tile {
                self.set_tile(next_tile_posn, Tile::Wall);
                self.set_tile(pos, Tile::Floor);
            }
        }
    }

    /// Whether `pos` lies on the map and holds floor.
    pub fn is_floor(&self, pos: &Posn) -> (r: bool)
        requires
            self.wf(),
        ensures
            r == self.holds(*pos, Tile::Floor),
    {
        self.in_bounds(pos) && self.tile_at(pos) == Tile::Floor
    }

    /// What becomes of the position `pos`, drawn after `missed` draws have
    /// missed: it is found if it holds floor; if not, another is drawn,
    /// unless this was draw number `MAX_DRAWS`.
    pub open spec fn judged(&self, missed: int, pos: Posn) -> Drawn {
        if self.holds(pos, Tile::Floor) {
            Drawn::Found(pos)
        } else if missed + 1 < MAX_DRAWS {
            Drawn::Again
        } else {
            Drawn::GiveUp
        }
    }

    /// Whether `outcome` is what the search comes to when the positions
    /// `draws` are drawn in turn: every draw but the last misses and is
    /// followed by another, and the last one decides.
    pub open spec fn is_search(
        &self,
        draws: Seq<Posn>,
        outcome: Result<Posn, ExhaustedRetries>,
    ) -> bool {
        &&& 1 <= draws.len() <= MAX_DRAWS
        &&& forall|i: int| 0 <= i < draws.len() ==> self.contains(#[trigger] draws[i])
        &&& forall|i: int|
            0 <= i < draws.len() - 1 ==> #[trigger] self.judged(i, draws[i]) == Drawn::Again
        &&& match self.judged(draws.len() - 1, draws.last()) {
            Drawn::Found(pos) => outcome == Ok::<Posn, ExhaustedRetries>(pos),
            Drawn::Again => false,
            Drawn::GiveUp => outcome == Err::<Posn, ExhaustedRetries>(ExhaustedRetries),
        }
    }

    /// Whether `outcome` is what the search comes to for some positions
    /// drawn on the map.
    pub open spec fn is_search_outcome(&self, outcome: Result<Posn, ExhaustedRetries>) -> bool {
        exists|draws: Seq<Posn>| self.is_search(draws, outcome)
    }

    /// Decides what becomes of the position `pos`, drawn after `missed`
    /// draws have missed.
    pub fn judge(&self, missed: u32, pos: Posn) -> (verdict: Drawn)
        requires
            self.wf(),
        ensures
            verdict == self.judged(missed as int, pos),
    {
        if self.is_floor(&pos) {
            Drawn::Found(pos)
        } else if missed < MAX_DRAWS - 1 {
            Drawn::Again
        } else {
            Drawn::GiveUp
        }
    }

    /// Draws positions on the map from `rng` until one holds floor, and
    /// gives up after `MAX_DRAWS` draws.
    ///
    /// Which positions are drawn is up to the random source; what becomes
    /// of each is `judge`'s to say. So a map that is all floor never fails,
    /// and a map without floor always does.
    pub fn random_floor_tile(&self, rng: &mut rand::StdRng) -> (drawn: Result<
        Posn,
        ExhaustedRetries,
    >)
        requires
            self.wf(),
        ensures
            self.is_search_outcome(drawn),
            drawn matches Ok(pos) ==> self.holds(pos, Tile::Floor),
            (forall|p: Posn| self.contains(p) ==> self.tile(p) == Tile::Floor) ==> drawn is Ok,
            (forall|p: Posn| self.contains(p) ==> self.tile(p) != Tile::Floor) ==> drawn is Err,
    {
        let (max_row, max_col) = self.bounds();
        let mut counter: u32 = 0;
        let ghost mut draws: Seq<Posn> = Seq::empty();
        loop
            invariant
                self.wf(),
                max_row == self.rows(),
                max_col == self.cols(),
                counter < MAX_DRAWS,
                draws.len() == counter,
                forall|i: int| 0 <= i < draws.len() ==> self.contains(#[trigger] draws[i]),
                forall|i: int|
                    0 <= i < draws.len() ==> #[trigger] self.judged(i, draws[i]) == Drawn::Again,
            decreases MAX_DRAWS - counter,
        {
            let row = below(rng, max_row as i32);
            let col = below(rng, max_col as i32);
            let pos = Posn { row: row, col: col };
            let ghost missed = draws;
            proof {
                draws = draws.push(pos);
                assert forall|i: int| 0 <= i < missed.len() implies draws[i] == missed[i] by {}
                assert forall|i: int| 0 <= i < draws.len() - 1 implies #[trigger] self.judged(
                    i,
                    draws[i],
                ) == Drawn::Again by {
                    assert(self.judged(i, missed[i]) == Drawn::Again);
                }
                assert(draws.last() == pos);
            }
            match self.judge(counter, pos) {
                Drawn::Found(found) => {
                    assert(self.is_search(draws, Ok::<Posn, ExhaustedRetries>(found)));
                    return Ok(found);
                },
                Drawn::Again => {
                    counter += 1;
                },
                Drawn::GiveUp => {
                    assert(self.is_search(draws, Err::<Posn, ExhaustedRetries>(ExhaustedRetries)));
                    return Err(ExhaustedRetries);
                },
            }
        }
    }
}

/// A push at a tile with nothing beyond it but the end of the map changes
/// nothing.
pub proof fn lemma_push_off_map(before: &Maze, after: &Maze, pos: Posn, dir: Direction)
    requires
        before.wf(),
        after.is_push_of(before, pos, dir),
        !before.contains(pos.step(dir)),
    ensures
        forall|p: Posn| before.contains(p) ==> #[trigger] after.tile(p) == before.tile(p),
        after.trolls() == before.trolls(),
{
}

/// A push at a tile with a wall or an exit beyond it leaves every tile as
/// it was. Of the trolls only the one on the tile pushed at changes: it is
/// struck down, and keeps its direction and state.
pub proof fn lemma_push_blocked(before: &Maze, after: &Maze, pos: Posn, dir: Direction)
    requires
        before.wf(),
        after.is_push_of(before, pos, dir),
        before.contains(pos.step(dir)),
        before.tile(pos.step(dir)) != Tile::Floor,
    ensures
        forall|p: Posn| before.contains(p) ==> #[trigger] after.tile(p) == before.tile(p),
        after.trolls().dom() == before.trolls().dom(),
        forall|p: Posn|
            before.trolls().contains_key(p) && p != pos ==> #[trigger] after.trolls()[p]
                == before.trolls()[p],
        before.trolls().contains_key(pos) ==> after.trolls()[pos] == (Troll {
            dir: before.trolls()[pos].dir,
            alive: false,
            state: before.trolls()[pos].state,
        }),
{
    assert(after.trolls().dom() =~= before.trolls().dom());
}

/// A push at a tile with floor beyond it changes exactly two tiles: the
/// tile pushed at becomes floor, if it was not, and the floor beyond it
/// becomes wall.
pub proof fn lemma_push_slides(before: &Maze, after: &Maze, pos: Posn, dir: Direction)
    requires
        before.wf(),
        before.contains(pos),
        pos.can_step(dir),
        after.is_push_of(before, pos, dir),
        before.holds(pos.step(dir), Tile::Floor),
    ensures
        after.tile(pos) == Tile::Floor,
        after.tile(pos.step(dir)) == Tile::Wall,
        forall|p: Posn|
            before.contains(p) && p != pos && p != pos.step(dir) ==> #[trigger] after.tile(p)
                == before.tile(p),
{
}

impl<'c> std::ops::Index<&'c Posn> for Maze {
    type Output = Tile;

    fn index<'a, 'b>(&'a self, p: &'b Posn) -> (tile: &'a Tile)
        ensures
            *tile == self.tile(*p),
    {
        &self.map[p.row as usize][p.col as usize]
    }
}

impl<'c> vstd::std_specs::core::IndexSpecImpl<&'c Posn> for Maze {
    open spec fn index_req(&self, p: &&'c Posn) -> bool {
        self.wf() && self.contains(**p)
    }
}

impl std::ops::Index<(usize, usize)> for Maze {
    type Output = Tile;

    fn index(&self, at: (usize, usize)) -> (tile: &Tile)
        ensures
            *tile == self.map@[at.0 as int]@[at.1 as int],
    {
        &self.map[at.0][at.1]
    }
}

impl vstd::std_specs::core::IndexSpecImpl<(usize, usize)> for Maze {
    open spec fn index_req(&self, at: &(usize, usize)) -> bool {
        self.wf() && at.0 < self.rows() && at.1 < self.cols()
    }
}

} // verus!
