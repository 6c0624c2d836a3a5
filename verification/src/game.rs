//! The rules of a tick: one command of the player, then one turn of each
//! troll.

use vstd::prelude::*;
use std::collections::HashMap;
use crate::direction::Direction;
use crate::generate::{is_cell, is_gap};
use crate::maze::Maze;
use crate::player::Player;
use crate::posn::Posn;
use crate::tile::Tile;
use crate::troll::{lemma_tick_reads_tiles, Troll};

verus! {

broadcast use vstd::std_specs::hash::group_hash_axioms;

#[derive(Copy, Clone, Debug, PartialEq, Eq, Structural)]
pub enum Command {
    Move(Direction),
    Pathfind,
    Quit,
}

#[derive(Copy, Clone, Debug, PartialEq, Eq, Structural)]
pub enum QuitReason {
    Eaten,
    Escaped,
    Quit,
    Error,
}

/// The escape byte and the bracket that start the key sequence of an arrow
/// key.
pub const ESCAPE: u8 = 0x1B;

pub const BRACKET: u8 = 0x5B;

/// The bytes that end the key sequences of the arrow keys: `A` to `D`.
pub const ARROW_UP: u8 = 0x41;

pub const ARROW_DOWN: u8 = 0x42;

pub const ARROW_RIGHT: u8 = 0x43;

pub const ARROW_LEFT: u8 = 0x44;

/// The letter keys: `w`, `s`, `a`, `d`, `q` and `p`.
pub const KEY_UP: u8 = 0x77;

pub const KEY_DOWN: u8 = 0x73;

pub const KEY_LEFT: u8 = 0x61;

pub const KEY_RIGHT: u8 = 0x64;

pub const KEY_QUIT: u8 = 0x71;

pub const KEY_PATH: u8 = 0x70;

/// The command that the key sequence `input` stands for, if any: an arrow
/// key or one of `w`, `a`, `s`, `d` to move, `p` to ask the way, `q` to
/// quit.
pub open spec fn command_of(input: Seq<u8>) -> Option<Command> {
    if input.len() == 3 && input[0] == ESCAPE && input[1] == BRACKET {
        if input[2] == ARROW_UP {
            Some(Command::Move(Direction::North))
        } else if input[2] == ARROW_DOWN {
            Some(Command::Move(Direction::South))
        } else if input[2] == ARROW_RIGHT {
            Some(Command::Move(Direction::East))
        } else if input[2] == ARROW_LEFT {
            Some(Command::Move(Direction::West))
        } else {
            None
        }
    } else if input.len() == 1 {
        if input[0] == KEY_UP {
            Some(Command::Move(Direction::North))
        } else if input[0] == KEY_DOWN {
            Some(Command::Move(Direction::South))
        } else if input[0] == KEY_LEFT {
            Some(Command::Move(Direction::West))
        } else if input[0] == KEY_RIGHT {
            Some(Command::Move(Direction::East))
        } else if input[0] == KEY_QUIT {
            Some(Command::Quit)
        } else if input[0] == KEY_PATH {
            Some(Command::Pathfind)
        } else {
            None
        }
    } else {
        None
    }
}

pub fn parse_keystroke(input: &[u8]) -> (command: Option<Command>)
    ensures
        command == command_of(input@),
{
    if input.len() == 3 && input[0] == ESCAPE && input[1] == BRACKET {
        let last = input[2];
        if last == ARROW_UP {
            Some(Command::Move(Direction::North))
        } else if last == ARROW_DOWN {
            Some(Command::Move(Direction::South))
        } else if last == ARROW_RIGHT {
            Some(Command::Move(Direction::East))
        } else if last == ARROW_LEFT {
            Some(Command::Move(Direction::West))
        } else {
            None
        }
    } else if input.len() == 1 {
        let key = input[0];
        if key == KEY_UP {
            Some(Command::Move(Direction::North))
        } else if key == KEY_DOWN {
            Some(Command::Move(Direction::South))
        } else if key == KEY_LEFT {
            Some(Command::Move(Direction::West))
        } else if key == KEY_RIGHT {
            Some(Command::Move(Direction::East))
        } else if key == KEY_QUIT {
            Some(Command::Quit)
        } else if key == KEY_PATH {
            Some(Command::Pathfind)
        } else {
            None
        }
    } else {
        None
    }
}

/// What came of the player's command to move.
#[derive(Copy, Clone, Debug, PartialEq, Eq, Structural)]
pub enum Moved {
    /// The way leads off the map: nothing happened.
    Blocked,
    /// The player stepped ahead or turned.
    Walked,
    /// The player stepped onto an exit and is out.
    Escaped,
    /// The player pushed at a wall.
    Pushed,
}

impl Maze {
    /// Whether `pos` lies on the map and not on its outer edge.
    pub open spec fn inland(&self, pos: Posn) -> bool {
        0 < pos.row < self.rows() - 1 && 0 < pos.col < self.cols() - 1
    }

    /// Whether the outer edge of the map holds no floor, so that nobody
    /// can walk off the map.
    pub open spec fn is_walled(&self) -> bool {
        forall|p: Posn| self.contains(p) && !self.inland(p) ==> #[trigger] self.tile(p) != Tile::Floor
    }

    /// What every tick keeps: the map is walled, and no troll stands on
    /// its outer edge.
    pub open spec fn is_arena(&self) -> bool {
        &&& self.wf()
        &&& self.is_walled()
        &&& forall|pos: Posn| #[trigger]
            self.trolls().contains_key(pos) ==> self.inland(pos) && self.trolls()[pos].wf()
    }
}

/// Carries out the player's command to go in direction `dir`.
///
/// The player turns or steps as `Player::commanded` says, if that leaves
/// them on floor. Stepping onto an exit, they are out. A wall in their
/// place or in their way they push at, and stay as they were.
pub fn player_turn(maze: &mut Maze, player: &mut Player, dir: Direction) -> (moved: Moved)
    requires
        old(maze).wf(),
        dir == old(player).dir ==> old(player).pos.can_step(dir),
    ensures
        ({
            let target = old(player).commanded(dir);
            if !old(maze).contains(target.pos) {
                moved == Moved::Blocked && *final(player) == *old(player) && *final(maze) == *old(
                    maze,
                )
            } else {
                match old(maze).tile(target.pos) {
                    Tile::Floor => moved == Moved::Walked && *final(player) == target && *final(maze)
                        == *old(maze),
                    Tile::Exit => moved == Moved::Escaped && *final(player) == *old(player)
                        && *final(maze) == *old(maze),
                    Tile::Wall => moved == Moved::Pushed && *final(player) == *old(player)
                        && final(maze).is_push_of(old(maze), target.pos, target.dir),
                }
            }
        }),
        old(maze).is_arena() && old(maze).inland(old(player).pos) ==> final(maze).is_arena()
            && final(maze).inland(final(player).pos),
{
    let mut new_player = Player { pos: player.pos, dir: player.dir };
    new_player.update(dir);
    if !maze.in_bounds(&new_player.pos) {
        return Moved::Blocked;
    }
    match maze.tile_at(&new_player.pos) {
        Tile::Floor => {
            // We've moved the player.
            *player = new_player;
            Moved::Walked
        },
        Tile::Exit => Moved::Escaped,
        Tile::Wall => {
            maze.push(new_player.pos, new_player.dir);
            proof {
                if old(maze).is_arena() && old(maze).inland(old(player).pos) {
                    lemma_push_keeps_arena(old(maze), &*maze, new_player.pos, new_player.dir);
                }
            }
            Moved::Pushed
        },
    }
}

/// A push keeps the arena as long as the tile pushed at is inland wherever
/// the push turns it to floor.
proof fn lemma_push_keeps_arena(before: &Maze, after: &Maze, pos: Posn, dir: Direction)
    requires
        before.is_arena(),
        after.is_push_of(before, pos, dir),
        before.holds(pos.step(dir), Tile::Floor) ==> before.inland(pos),
    ensures
        after.is_arena(),
{
    assert forall|p: Posn| after.contains(p) && !after.inland(p) implies #[trigger] after.tile(p)
        != Tile::Floor by {
        assert(before.tile(p) != Tile::Floor);
    }
    assert forall|p: Posn| #[trigger] after.trolls().contains_key(p) implies after.inland(p)
        && after.trolls()[p].wf() by {
        assert(before.trolls().contains_key(p));
    }
}

/// The troll `troll` on `pos` as it enters its turn: dead, if it stands in
/// a wall.
pub open spec fn unless_walled_in(troll: Troll, maze: &Maze, pos: Posn) -> Troll {
    Troll {
        dir: troll.dir,
        alive: troll.alive && maze.tile(pos) != Tile::Wall,
        state: troll.state,
    }
}

/// Whether `after` and `eaten` are what the turn of `troll`, taken off
/// `pos`, makes of `before` for some direction drawn: the troll does what
/// `Troll::tick` says and is put where it ends up, and a wall it pushes at
/// slides as `Maze::push` says.
pub open spec fn is_turn_of(
    before: &Maze,
    after: &Maze,
    pos: Posn,
    troll: Troll,
    player_pos: Posn,
    eaten: bool,
) -> bool {
    exists|drawn: Direction|
        {
            let tick = #[trigger] unless_walled_in(troll, before, pos).tick(
                pos,
                before,
                player_pos,
                drawn,
            );
            let ahead = pos.step(troll.dir);
            &&& eaten == tick.captured
            &&& after.wf()
            &&& after.rows() == before.rows()
            &&& after.cols() == before.cols()
            &&& after.trolls() == (if tick.pushed {
                before.pushed_trolls(ahead, troll.dir)
            } else {
                before.trolls()
            }).insert(tick.pos, tick.troll)
            &&& forall|p: Posn|
                before.contains(p) ==> #[trigger] after.tile(p) == if tick.pushed {
                    before.pushed_tile(ahead, troll.dir, p)
                } else {
                    before.tile(p)
                }
        }
}

/// Whether `after` and `eaten` are what the turn of `troll`, taken off
/// `pos`, makes of `before`: a troll on the player's position has caught
/// them, and nothing changes; any other troll has its turn as `is_turn_of`
/// says.
pub open spec fn is_troll_turn(
    before: &Maze,
    after: &Maze,
    pos: Posn,
    troll: Troll,
    player_pos: Posn,
    eaten: bool,
) -> bool {
    if pos == player_pos {
        eaten && *after == *before
    } else {
        is_turn_of(before, after, pos, troll, player_pos, eaten)
    }
}

/// Lets the troll `troll`, taken off `pos`, have its turn, and puts it
/// back on the map where it ends up. Returns whether it caught the player.
///
/// A troll on the player's position has caught them and is not put back.
/// A troll that stands in a wall is dead. Any other troll does what
/// `Troll::tick` says for the direction it draws.
pub fn troll_turn(
    maze: &mut Maze,
    pos: Posn,
    troll: Troll,
    player_pos: Posn,
    rng: &mut rand::StdRng,
) -> (eaten: bool)
    requires
        old(maze).is_arena(),
        old(maze).inland(pos),
        old(maze).inland(player_pos),
        troll.wf(),
    ensures
        final(maze).is_arena(),
        final(maze).rows() == old(maze).rows(),
        final(maze).cols() == old(maze).cols(),
        is_troll_turn(old(maze), final(maze), pos, troll, player_pos, eaten),
{
    if pos == player_pos {
        return true;
    }
    let mut troll = troll;
    if maze.tile_at(&pos) == Tile::Wall {
        troll.alive = false;
    }
    let ghost turned = troll;
    let ghost before = *maze;
    let (new_pos, ate_player) = troll.update(pos, maze, player_pos, rng);
    let ghost shoved = *maze;
    proof {
        let drawn = choose|drawn: Direction|
            {
                let tick = #[trigger] turned.tick(pos, &before, player_pos, drawn);
                &&& troll == tick.troll
                &&& new_pos == tick.pos
                &&& ate_player == tick.captured
                &&& tick.pushed ==> shoved.is_push_of(&before, pos.step(turned.dir), turned.dir)
                &&& !tick.pushed ==> shoved == before
            };
        let tick = turned.tick(pos, &before, player_pos, drawn);
        if tick.pushed {
            lemma_push_keeps_arena(&before, &shoved, pos.step(turned.dir), turned.dir);
        }
        assert(shoved.inland(new_pos)) by {
            if new_pos != pos && new_pos != player_pos {
                assert(before.tile(new_pos) == Tile::Floor);
            }
        }
    }
    maze.add_troll(new_pos, troll);
    proof {
        lemma_troll_joins_arena(&shoved, &*maze, new_pos, troll);
    }
    ate_player
}

/// Whether `after` and `eaten` are what the turn of `troll`, the only troll
/// of `before`, standing on `pos`, makes of it for some direction drawn.
pub open spec fn is_lone_turn(
    before: &Maze,
    after: &Maze,
    pos: Posn,
    troll: Troll,
    player_pos: Posn,
    eaten: bool,
) -> bool {
    exists|drawn: Direction|
        {
            let tick = #[trigger] unless_walled_in(troll, before, pos).tick(
                pos,
                before,
                player_pos,
                drawn,
            );
            &&& eaten == tick.captured
            &&& after.trolls() == Map::<Posn, Troll>::empty().insert(tick.pos, tick.troll)
            &&& forall|p: Posn|
                before.contains(p) ==> #[trigger] after.tile(p) == if tick.pushed {
                    before.pushed_tile(pos.step(troll.dir), troll.dir, p)
                } else {
                    before.tile(p)
                }
        }
}

/// The turn of a troll on a maze whose trolls are off the map is the turn
/// of the only troll of a maze with the same tiles.
proof fn lemma_lone_turn(
    before: &Maze,
    cleared: &Maze,
    after: &Maze,
    pos: Posn,
    troll: Troll,
    player_pos: Posn,
    eaten: bool,
)
    requires
        cleared.map == before.map,
        cleared.trolls() == Map::<Posn, Troll>::empty(),
        is_turn_of(cleared, after, pos, troll, player_pos, eaten),
    ensures
        is_lone_turn(before, after, pos, troll, player_pos, eaten),
{
    let drawn = choose|drawn: Direction|
        {
            let tick = #[trigger] unless_walled_in(troll, cleared, pos).tick(
                pos,
                cleared,
                player_pos,
                drawn,
            );
            let ahead = pos.step(troll.dir);
            &&& eaten == tick.captured
            &&& after.trolls() == (if tick.pushed {
                cleared.pushed_trolls(ahead, troll.dir)
            } else {
                cleared.trolls()
            }).insert(tick.pos, tick.troll)
            &&& forall|p: Posn|
                cleared.contains(p) ==> #[trigger] after.tile(p) == if tick.pushed {
                    cleared.pushed_tile(ahead, troll.dir, p)
                } else {
                    cleared.tile(p)
                }
        };
    let turned = unless_walled_in(troll, cleared, pos);
    assert(turned == unless_walled_in(troll, before, pos));
    lemma_tick_reads_tiles(turned, pos, cleared, before, player_pos, drawn);
    let tick = turned.tick(pos, before, player_pos, drawn);
    assert forall|p: Posn| before.contains(p) implies #[trigger] after.tile(p) == if tick.pushed {
        before.pushed_tile(pos.step(troll.dir), troll.dir, p)
    } else {
        before.tile(p)
    } by {
        assert(cleared.contains(p));
    }
}

/// Whether turn number `at` of a sweep leads from stage `at` to the next:
/// the troll that stood on `order[at]` has its turn, and catches the player
/// only if the sweep ends with this turn and with the player caught.
pub open spec fn is_stage(
    stages: Seq<Maze>,
    order: Seq<Posn>,
    trolls: Map<Posn, Troll>,
    player_pos: Posn,
    eaten: bool,
    at: int,
) -> bool {
    is_troll_turn(
        &stages[at],
        &stages[at + 1],
        order[at],
        trolls[order[at]],
        player_pos,
        eaten && at == stages.len() - 2,
    )
}

/// Whether `after` and `eaten` are what a sweep makes of `before` when the
/// trolls move in the order `order` and leave the maze in the states
/// `stages` one after the other.
///
/// The sweep starts from the maze with all trolls taken off. The trolls of
/// `before` have their turns in order, each once, every turn starting from
/// what the turn before has left. The sweep ends with the turn that catches
/// the player, or else when every troll has had its turn.
pub open spec fn is_sweep_by(
    before: &Maze,
    after: &Maze,
    player_pos: Posn,
    eaten: bool,
    order: Seq<Posn>,
    stages: Seq<Maze>,
) -> bool {
    &&& order.no_duplicates()
    &&& forall|p: Posn| order.contains(p) <==> before.trolls().contains_key(p)
    &&& 1 <= stages.len() <= order.len() + 1
    &&& stages[0].map == before.map
    &&& stages[0].trolls() == Map::<Posn, Troll>::empty()
    &&& stages.last() == *after
    &&& forall|at: int|
        0 <= at < stages.len() - 1 ==> #[trigger] is_stage(
            stages,
            order,
            before.trolls(),
            player_pos,
            eaten,
            at,
        )
    &&& eaten ==> stages.len() >= 2
    &&& !eaten ==> stages.len() == order.len() + 1
}

/// Whether `after` and `eaten` are what a sweep of the trolls makes of
/// `before`, for some order in which they move and some directions drawn.
pub open spec fn is_sweep_of(before: &Maze, after: &Maze, player_pos: Posn, eaten: bool) -> bool {
    exists|order: Seq<Posn>, stages: Seq<Maze>|
        is_sweep_by(before, after, player_pos, eaten, order, stages)
}

/// Gives every troll of the maze its turn, in the order in which the map
/// hands them out, and stops as soon as one has caught the player. Returns
/// whether one has.
///
/// The trolls are taken off the map and put back one by one as they have
/// had their turn, so a troll that ends up where another was put before
/// takes its place. In which order the trolls move is not fixed, nor what
/// the wandering ones draw; for some order and some draws the outcome is
/// that of the turns taken one after the other.
pub fn sweep_trolls(maze: &mut Maze, player_pos: Posn, rng: &mut rand::StdRng) -> (eaten: bool)
    requires
        old(maze).is_arena(),
        old(maze).inland(player_pos),
    ensures
        is_sweep_of(old(maze), final(maze), player_pos, eaten),
        final(maze).is_arena(),
        final(maze).rows() == old(maze).rows(),
        final(maze).cols() == old(maze).cols(),
{
    let positions = maze.troll_positions();
    let mut trolls: HashMap<u64, Troll> = HashMap::new();
    std::mem::swap(&mut trolls, &mut maze.trolls);
    proof {
        assert(maze.trolls() =~= Map::<Posn, Troll>::empty());
        assert(maze.map == old(maze).map);
        assert forall|p: Posn| maze.contains(p) && !maze.inland(p) implies #[trigger] maze.tile(p)
            != Tile::Floor by {
            assert(old(maze).tile(p) != Tile::Floor);
        }
    }
    let ghost mut stages: Seq<Maze> = seq![*maze];
    let mut i: usize = 0;
    while i < positions.len()
        invariant
            i <= positions@.len(),
            maze.is_arena(),
            maze.inland(player_pos),
            maze.rows() == old(maze).rows(),
            maze.cols() == old(maze).cols(),
            trolls@ == old(maze).trolls@,
            old(maze).is_arena(),
            positions@.no_duplicates(),
            forall|pos: Posn|
                positions@.contains(pos) <==> #[trigger] old(maze).trolls().contains_key(pos),
            stages.len() == i + 1,
            stages[0].map == old(maze).map,
            stages[0].trolls() == Map::<Posn, Troll>::empty(),
            stages.last() == *maze,
            forall|at: int|
                0 <= at < i ==> #[trigger] is_stage(
                    stages,
                    positions@,
                    old(maze).trolls(),
                    player_pos,
                    false,
                    at,
                ),
        decreases positions@.len() - i,
    {
        let pos = positions[i];
        proof {
            assert(positions@.contains(pos));
            assert(old(maze).trolls().contains_key(pos));
        }
        let troll = *trolls.get(&Maze::key_of(pos)).unwrap();
        let eaten = troll_turn(maze, pos, troll, player_pos, rng);
        proof {
            let reached = stages;
            stages = stages.push(*maze);
            assert(troll == old(maze).trolls()[pos]);
            assert forall|at: int| 0 <= at <= i implies #[trigger] is_stage(
                stages,
                positions@,
                old(maze).trolls(),
                player_pos,
                eaten,
                at,
            ) by {
                assert(stages[at] == reached[at]);
                if at < i {
                    assert(stages[at + 1] == reached[at + 1]);
                    assert(is_stage(reached, positions@, old(maze).trolls(), player_pos, false, at));
                }
            }
            if eaten {
                assert(is_sweep_by(old(maze), &*maze, player_pos, true, positions@, stages));
            }
        }
        if eaten {
            return true;
        }
        i += 1;
    }
    proof {
        assert(is_sweep_by(old(maze), &*maze, player_pos, false, positions@, stages));
    }
    false
}

/// Whatever the order of the sweep, a troll that stands on the player's
/// position catches them.
pub proof fn lemma_sweep_catches(before: &Maze, after: &Maze, player_pos: Posn, eaten: bool)
    requires
        is_sweep_of(before, after, player_pos, eaten),
        before.trolls().contains_key(player_pos),
    ensures
        eaten,
{
    let (order, stages) = choose|order: Seq<Posn>, stages: Seq<Maze>|
        is_sweep_by(before, after, player_pos, eaten, order, stages);
    if !eaten {
        assert(order.contains(player_pos));
        let at = choose|at: int| 0 <= at < order.len() && order[at] == player_pos;
        assert(is_stage(stages, order, before.trolls(), player_pos, eaten, at));
    }
}

/// A sweep of a maze without trolls changes nothing and catches nobody.
pub proof fn lemma_sweep_of_none(before: &Maze, after: &Maze, player_pos: Posn, eaten: bool)
    requires
        is_sweep_of(before, after, player_pos, eaten),
        before.trolls() == Map::<Posn, Troll>::empty(),
    ensures
        !eaten,
        after.map == before.map,
        after.trolls() == before.trolls(),
{
    let (order, stages) = choose|order: Seq<Posn>, stages: Seq<Maze>|
        is_sweep_by(before, after, player_pos, eaten, order, stages);
    if order.len() > 0 {
        assert(order.contains(order[0]));
    }
}

/// A sweep of a maze with one troll, which does not stand on the player's
/// position, is the turn of that troll.
pub proof fn lemma_sweep_of_one(
    before: &Maze,
    after: &Maze,
    pos: Posn,
    troll: Troll,
    player_pos: Posn,
    eaten: bool,
)
    requires
        is_sweep_of(before, after, player_pos, eaten),
        before.trolls() == Map::<Posn, Troll>::empty().insert(pos, troll),
        pos != player_pos,
    ensures
        is_lone_turn(before, after, pos, troll, player_pos, eaten),
{
    let (order, stages) = choose|order: Seq<Posn>, stages: Seq<Maze>|
        is_sweep_by(before, after, player_pos, eaten, order, stages);
    assert(order.contains(pos));
    assert forall|at: int| 0 <= at < order.len() implies order[at] == pos by {
        assert(order.contains(order[at]));
    }
    if order.len() > 1 {
        assert(order[0] == order[1]);
    }
    assert(order.len() == 1);
    assert(stages.len() == 2);
    assert(is_stage(stages, order, before.trolls(), player_pos, eaten, 0));
    lemma_lone_turn(before, &stages[0], after, pos, troll, player_pos, eaten);
}

/// A sweep in which nobody is caught gives every troll its turn: it goes
/// through as many turns as there were trolls, and none of the trolls stood
/// on the player's position.
pub proof fn lemma_sweep_runs_through(
    before: &Maze,
    after: &Maze,
    player_pos: Posn,
    order: Seq<Posn>,
    stages: Seq<Maze>,
)
    requires
        is_sweep_by(before, after, player_pos, false, order, stages),
    ensures
        stages.len() == order.len() + 1,
        order.len() == before.trolls().dom().len(),
        !before.trolls().contains_key(player_pos),
{
    if before.trolls().contains_key(player_pos) {
        lemma_sweep_catches(before, after, player_pos, false);
    }
    assert(order.to_set() =~= before.trolls().dom()) by {
        assert forall|p: Posn| order.to_set().contains(p) <==> before.trolls().dom().contains(
            p,
        ) by {
            assert(order.to_set().contains(p) <==> order.contains(p));
        }
    }
    order.unique_seq_to_set();
}

/// A perfect maze is an arena: its floor lies on cells and gaps, none of
/// which is on the outer edge, and it has no trolls.
pub proof fn lemma_perfect_maze_is_arena(maze: &Maze, h: int, w: int)
    requires
        maze.is_perfect(h, w),
    ensures
        maze.is_arena(),
{
    assert forall|p: Posn| maze.contains(p) && !maze.inland(p) implies #[trigger] maze.tile(p)
        != Tile::Floor by {
        if maze.tile(p) == Tile::Floor {
            assert(is_cell(p, h, w) || is_gap(p, h, w));
        }
    }
}

/// In a walled maze all floor is inland, so whoever is put on floor is off
/// the outer edge.
pub proof fn lemma_floor_is_inland(maze: &Maze, pos: Posn)
    requires
        maze.wf(),
        maze.is_walled(),
        maze.holds(pos, Tile::Floor),
    ensures
        maze.inland(pos),
{
}

/// Putting a troll on an inland position keeps the arena.
pub proof fn lemma_troll_joins_arena(before: &Maze, after: &Maze, pos: Posn, troll: Troll)
    requires
        before.is_arena(),
        before.inland(pos),
        troll.wf(),
        after.map == before.map,
        after.trolls() == before.trolls().insert(pos, troll),
    ensures
        after.is_arena(),
{
    assert forall|p: Posn| after.contains(p) && !after.inland(p) implies #[trigger] after.tile(p)
        != Tile::Floor by {
        assert(before.tile(p) != Tile::Floor);
    }
    assert forall|p: Posn| #[trigger] after.trolls().contains_key(p) implies after.inland(p)
        && after.trolls()[p].wf() by {
        if p != pos {
            assert(before.trolls().contains_key(p));
        }
    }
}

} // verus!
