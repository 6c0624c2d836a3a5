//! The trolls that roam the maze.
//!
//! A troll wanders until the player comes into its line of sight, then
//! charges in a straight line. A charge that ends at a wall shoves the wall
//! one cell on and leaves the troll stunned for a few ticks.

use vstd::prelude::*;
use crate::direction::Direction;
use crate::maze::Maze;
use crate::posn::Posn;
use crate::tile::Tile;

verus! {

/// The number of ticks a troll stays stunned after running into a wall.
pub const STUN_TICKS: i32 = 3;

#[derive(Copy, Clone, Debug, PartialEq, Eq, Structural)]
pub enum State {
    Wandering,
    Charging,
    Stunned(i32),
}

#[derive(Copy, Clone, Debug, PartialEq, Eq, Structural)]
pub struct Troll {
    pub dir: Direction,
    pub alive: bool,
    pub state: State,
}

/// What one tick makes of a troll.
pub struct Tick {
    /// The troll after the tick.
    pub troll: Troll,
    /// Where the troll stands after the tick.
    pub pos: Posn,
    /// Whether the troll caught the player.
    pub captured: bool,
    /// Whether the troll pushed at the wall in front of it.
    pub pushed: bool,
}

/// Whether `target` lies in the line of sight from `from` in direction
/// `dir`: it is on the map, some steps ahead, with nothing but floor on the
/// way to it.
pub open spec fn sees(maze: &Maze, from: Posn, dir: Direction, target: Posn) -> bool {
    exists|k: int|
        {
            &&& 1 <= k
            &&& from.can_go(dir, k)
            &&& #[trigger] from.along(dir, k) == target
            &&& maze.contains(target)
            &&& forall|j: int| 1 <= j < k ==> maze.holds(#[trigger] from.along(dir, j), Tile::Floor)
        }
}

impl Troll {
    /// A stunned troll always has at least one tick of stun left.
    pub open spec fn wf(self) -> bool {
        self.state matches State::Stunned(n) ==> n > 0
    }

    /// This troll in another state.
    pub open spec fn in_state(self, state: State) -> Troll {
        Troll { dir: self.dir, alive: self.alive, state }
    }

    /// What a wandering troll on `pos` does when it draws direction
    /// `drawn`.
    ///
    /// Drawing the direction it faces, it steps ahead: onto the player,
    /// catching them, or onto floor; anything else blocks the step. Drawing
    /// any other direction, it turns that way instead. If it has not caught
    /// the player, it then looks ahead, and charges from the next tick on
    /// if it sees them.
    pub open spec fn wander(self, pos: Posn, maze: &Maze, player_pos: Posn, drawn: Direction) -> Tick {
        let ahead = pos.step(drawn);
        if drawn == self.dir && ahead == player_pos {
            Tick { troll: self, pos: ahead, captured: true, pushed: false }
        } else {
            let here = if drawn == self.dir && maze.tile(ahead) == Tile::Floor {
                ahead
            } else {
                pos
            };
            let state = if sees(maze, here, drawn, player_pos) {
                State::Charging
            } else {
                State::Wandering
            };
            Tick {
                troll: Troll { dir: drawn, alive: self.alive, state },
                pos: here,
                captured: false,
                pushed: false,
            }
        }
    }

    /// What a charging troll on `pos` does.
    ///
    /// It steps ahead: onto the player, catching them, or onto floor. A
    /// wall ahead it pushes at, and is stunned. At the exit it gives up the
    /// charge.
    pub open spec fn charge(self, pos: Posn, maze: &Maze, player_pos: Posn) -> Tick {
        let ahead = pos.step(self.dir);
        if ahead == player_pos {
            Tick { troll: self, pos: ahead, captured: true, pushed: false }
        } else {
            match maze.tile(ahead) {
                Tile::Floor => Tick { troll: self, pos: ahead, captured: false, pushed: false },
                Tile::Wall => Tick {
                    troll: self.in_state(State::Stunned(STUN_TICKS)),
                    pos,
                    captured: false,
                    pushed: true,
                },
                Tile::Exit => Tick {
                    troll: self.in_state(State::Wandering),
                    pos,
                    captured: false,
                    pushed: false,
                },
            }
        }
    }

    /// What a troll stunned for another `ticks` ticks does: it waits, and
    /// wanders again once the stun has run out.
    pub open spec fn recover(self, pos: Posn, ticks: i32) -> Tick {
        let state = if ticks - 1 == 0 {
            State::Wandering
        } else {
            State::Stunned((ticks - 1) as i32)
        };
        Tick { troll: self.in_state(state), pos, captured: false, pushed: false }
    }

    /// What one tick makes of this troll, standing on `pos`, when a
    /// wandering troll draws direction `drawn`. A dead troll does nothing.
    pub open spec fn tick(self, pos: Posn, maze: &Maze, player_pos: Posn, drawn: Direction) -> Tick {
        if !self.alive {
            Tick { troll: self, pos, captured: false, pushed: false }
        } else {
            match self.state {
                State::Wandering => self.wander(pos, maze, player_pos, drawn),
                State::Charging => self.charge(pos, maze, player_pos),
                State::Stunned(ticks) => self.recover(pos, ticks),
            }
        }
    }

    /// Whether a tick of this troll on `pos` stays on the map when a
    /// wandering troll draws direction `drawn`: a troll must never be made
    /// to step off the map.
    pub open spec fn can_tick(self, pos: Posn, maze: &Maze, drawn: Direction) -> bool {
        &&& self.wf()
        &&& maze.wf()
        &&& self.alive && self.state == State::Wandering ==> pos.can_step(drawn) && (drawn
            == self.dir ==> maze.contains(pos.step(drawn)))
        &&& self.alive && self.state == State::Charging ==> pos.can_step(self.dir)
            && maze.contains(pos.step(self.dir))
    }

    pub fn new(dir: Direction) -> (troll: Troll)
        ensures
            troll == (Troll { dir, alive: true, state: State::Wandering }),
            troll.wf(),
    {
        Troll { dir: dir, alive: true, state: State::Wandering }
    }

    /// A fresh troll facing a direction drawn from `rng`.
    pub fn random(rng: &mut rand::StdRng) -> (troll: Troll)
        ensures
            troll.alive,
            troll.state == State::Wandering,
            troll.wf(),
    {
        Troll::new(Direction::random(rng))
    }

    /// The arrow glyph this troll is drawn with.
    pub fn glyph(&self) -> (glyph: &'static str)
        ensures
            glyph == self.dir.arrow(),
    {
        self.dir.unicode()
    }

    /// Whether the player on `player_pos` is in the line of sight from
    /// `pos` in direction `dir`.
    pub fn looks(maze: &Maze, pos: Posn, dir: Direction, player_pos: Posn) -> (seen: bool)
        requires
            maze.wf(),
            pos.can_step(dir),
        ensures
            seen == sees(maze, pos, dir, player_pos),
    {
        let mut probe_pos = pos;
        let mut seen = false;
        let ghost mut k: int = 0;
        loop
            invariant_except_break
                maze.wf(),
                !seen,
                0 <= k,
                pos.can_go(dir, k),
                probe_pos == pos.along(dir, k),
                probe_pos.can_step(dir),
                k > 0 ==> maze.contains(probe_pos),
                forall|j: int|
                    1 <= j <= k ==> maze.holds(#[trigger] pos.along(dir, j), Tile::Floor)
                        && pos.along(dir, j) != player_pos,
            ensures
                seen == sees(maze, pos, dir, player_pos),
            decreases
                    (if k == 0 {
                        maze.rows() + maze.cols() + 1
                    } else {
                        match dir {
                            Direction::North => probe_pos.row as int,
                            Direction::South => maze.rows() - probe_pos.row,
                            Direction::West => probe_pos.col as int,
                            Direction::East => maze.cols() - probe_pos.col,
                        }
                    }),
        {
            probe_pos = probe_pos + dir.numeric();
            proof {
                k = k + 1;
                assert(probe_pos == pos.along(dir, k));
            }
            if !maze.in_bounds(&probe_pos) {
                proof {
                    lemma_sight_blocked(maze, pos, dir, player_pos, k);
                }
                break ;
            }
            if probe_pos == player_pos {
                seen = true;
                break ;
            }
            if !(maze.tile_at(&probe_pos) == Tile::Floor) {
                proof {
                    lemma_sight_blocked(maze, pos, dir, player_pos, k);
                }
                break ;
            }
        }
        seen
    }

    /// Runs one tick of this troll, standing on `pos`, with `drawn` as the
    /// direction a wandering troll draws. Returns where the troll stands
    /// afterwards and whether it caught the player.
    pub fn update_with(
        &mut self,
        pos: Posn,
        maze: &mut Maze,
        player_pos: Posn,
        drawn: Direction,
    ) -> (moved: (Posn, bool))
        requires
            old(self).can_tick(pos, old(maze), drawn),
        ensures
            *final(self) == old(self).tick(pos, old(maze), player_pos, drawn).troll,
            moved.0 == old(self).tick(pos, old(maze), player_pos, drawn).pos,
            moved.1 == old(self).tick(pos, old(maze), player_pos, drawn).captured,
            final(self).wf(),
            final(maze).wf(),
            old(self).tick(pos, old(maze), player_pos, drawn).pushed ==> final(maze).is_push_of(
                old(maze),
                pos.step(old(self).dir),
                old(self).dir,
            ),
            !old(self).tick(pos, old(maze), player_pos, drawn).pushed ==> *final(maze) == *old(maze),
    {
        let mut pos = pos;
        if !self.alive {
            return (pos, false);
        }
        self.state = match self.state {
            State::Wandering => {
                let dir: Direction = drawn;
                if self.dir == dir {
                    let new_pos = pos + dir.numeric();
                    if new_pos == player_pos {
                        return (new_pos, true);
                    }
                    if maze.tile_at(&new_pos) == Tile::Floor {
                        pos = new_pos
                    }
                } else {
                    self.dir = dir;
                }
                if Troll::looks(maze, pos, dir, player_pos) {
                    State::Charging
                } else {
                    State::Wandering
                }
            },
            State::Charging => {
                let new_pos = pos + self.dir.numeric();
                if new_pos == player_pos {
                    return (new_pos, true);
                }
                match maze.tile_at(&new_pos) {
                    Tile::Floor => {
                        pos = new_pos;
                        State::Charging
                    },
                    Tile::Wall => {
                        maze.push(new_pos, self.dir);
                        State::Stunned(STUN_TICKS)
                    },
                    Tile::Exit => State::Wandering,
                }
            },
            State::Stunned(counter) => {
                let counter = counter - 1;
                if counter == 0 {
                    State::Wandering
                } else {
                    State::Stunned(counter)
                }
            },
        };
        (pos, false)
    }

    /// Runs one tick of this troll, standing on `pos`. A wandering troll
    /// draws its direction from `rng`; no other troll draws. Returns where
    /// the troll stands afterwards and whether it caught the player.
    ///
    /// The outcome is that of `tick` for the direction that was drawn.
    pub fn update(
        &mut self,
        pos: Posn,
        maze: &mut Maze,
        player_pos: Posn,
        rng: &mut rand::StdRng,
    ) -> (moved: (Posn, bool))
        requires
            old(self).wf(),
            old(maze).wf(),
            old(self).alive && old(self).state == State::Wandering ==> pos.has_neighbours()
                && old(maze).contains(pos.step(old(self).dir)),
            old(self).alive && old(self).state == State::Charging ==> pos.can_step(old(self).dir)
                && old(maze).contains(pos.step(old(self).dir)),
        ensures
            exists|drawn: Direction|
                {
                    let tick = #[trigger] old(self).tick(pos, old(maze), player_pos, drawn);
                    &&& *final(self) == tick.troll
                    &&& moved.0 == tick.pos
                    &&& moved.1 == tick.captured
                    &&& tick.pushed ==> final(maze).is_push_of(
                        old(maze),
                        pos.step(old(self).dir),
                        old(self).dir,
                    )
                    &&& !tick.pushed ==> *final(maze) == *old(maze)
                },
            final(self).wf(),
            final(maze).wf(),
    {
        let drawn = if self.alive && self.state == State::Wandering {
            Direction::random(rng)
        } else {
            self.dir
        };
        self.update_with(pos, maze, player_pos, drawn)
    }
}

/// The direction drawn matters to a wandering troll only: for any other
/// troll the tick is the same whatever is drawn.
pub proof fn lemma_only_wanderers_draw(
    troll: Troll,
    pos: Posn,
    maze: &Maze,
    player_pos: Posn,
    first: Direction,
    second: Direction,
)
    requires
        !(troll.alive && troll.state == State::Wandering),
    ensures
        troll.tick(pos, maze, player_pos, first) == troll.tick(pos, maze, player_pos, second),
{
}

/// A stunned troll wanders again after as many ticks as it had left, and
/// does not move meanwhile.
pub proof fn lemma_stun_wears_off(troll: Troll, pos: Posn, ticks: i32)
    requires
        troll.state == State::Stunned(ticks),
        ticks > 0,
    ensures
        troll.recover(pos, ticks).pos == pos,
        !troll.recover(pos, ticks).captured,
        ticks == 1 ==> troll.recover(pos, ticks).troll.state == State::Wandering,
        ticks > 1 ==> troll.recover(pos, ticks).troll.state == State::Stunned((ticks - 1) as i32),
        troll.recover(pos, ticks).troll.wf(),
{
}

/// Nothing is seen past a tile that is off the map or is not floor.
proof fn lemma_sight_blocked(maze: &Maze, from: Posn, dir: Direction, target: Posn, k: int)
    requires
        1 <= k,
        from.can_go(dir, k),
        forall|j: int|
            1 <= j < k ==> maze.holds(#[trigger] from.along(dir, j), Tile::Floor) && from.along(
                dir,
                j,
            ) != target,
        from.along(dir, k) != target || !maze.contains(target),
        !maze.holds(from.along(dir, k), Tile::Floor),
    ensures
        !sees(maze, from, dir, target),
{
    if sees(maze, from, dir, target) {
        let n = choose|n: int|
            {
                &&& 1 <= n
                &&& from.can_go(dir, n)
                &&& #[trigger] from.along(dir, n) == target
                &&& maze.contains(target)
                &&& forall|j: int|
                    1 <= j < n ==> maze.holds(#[trigger] from.along(dir, j), Tile::Floor)
            };
        if n < k {
            assert(from.along(dir, n) != target);
        } else if n > k {
            assert(maze.holds(from.along(dir, k), Tile::Floor));
        }
    }
}

/// A tick reads nothing of the maze but its tiles: on two mazes with the
/// same tile map it comes out the same.
pub proof fn lemma_tick_reads_tiles(
    troll: Troll,
    pos: Posn,
    one: &Maze,
    other: &Maze,
    player_pos: Posn,
    drawn: Direction,
)
    requires
        one.map == other.map,
    ensures
        troll.tick(pos, one, player_pos, drawn) == troll.tick(pos, other, player_pos, drawn),
{
    assert forall|from: Posn, dir: Direction| sees(one, from, dir, player_pos) == sees(
        other,
        from,
        dir,
        player_pos,
    ) by {
        if sees(one, from, dir, player_pos) {
            lemma_sight_reads_tiles(one, other, from, dir, player_pos);
        }
        if sees(other, from, dir, player_pos) {
            lemma_sight_reads_tiles(other, one, from, dir, player_pos);
        }
    }
}

/// What is seen on one maze is seen on any other with the same tile map.
proof fn lemma_sight_reads_tiles(one: &Maze, other: &Maze, from: Posn, dir: Direction, target: Posn)
    requires
        one.map == other.map,
        sees(one, from, dir, target),
    ensures
        sees(other, from, dir, target),
{
    let k = choose|k: int|
        {
            &&& 1 <= k
            &&& from.can_go(dir, k)
            &&& #[trigger] from.along(dir, k) == target
            &&& one.contains(target)
            &&& forall|j: int| 1 <= j < k ==> one.holds(#[trigger] from.along(dir, j), Tile::Floor)
        };
    assert forall|j: int| 1 <= j < k implies other.holds(
        #[trigger] from.along(dir, j),
        Tile::Floor,
    ) by {
        assert(one.holds(from.along(dir, j), Tile::Floor));
    }
    assert(from.along(dir, k) == target);
}

} // verus!
