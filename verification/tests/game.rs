use rand::{SeedableRng, StdRng};
use troll_maze::direction::Direction::{East, North, South, West};
use troll_maze::game::{parse_keystroke, player_turn, sweep_trolls, troll_turn, Command, Moved};
use troll_maze::maze::Maze;
use troll_maze::player::Player;
use troll_maze::posn::Posn;
use troll_maze::tile::Tile;
use troll_maze::troll::{State, Troll};

fn text(lines: &[&str]) -> Maze {
    let lines: Vec<String> = lines.iter().map(|line| line.to_string()).collect();
    Maze::load_from_lines(&lines).unwrap()
}

fn at(row: i32, col: i32) -> Posn {
    Posn { row: row, col: col }
}

fn seeded(seed: usize) -> StdRng {
    let seed: &[usize] = &[seed, 6, 6];
    SeedableRng::from_seed(seed)
}

fn yard() -> Maze {
    text(&[
        "#######",
        "#     #",
        "# # # #",
        "#     X",
        "#######",
    ])
}

#[test]
fn keystrokes() {
    assert_eq!(parse_keystroke(b"\x1B[A"), Some(Command::Move(North)));
    assert_eq!(parse_keystroke(b"\x1B[B"), Some(Command::Move(South)));
    assert_eq!(parse_keystroke(b"\x1B[C"), Some(Command::Move(East)));
    assert_eq!(parse_keystroke(b"\x1B[D"), Some(Command::Move(West)));
    assert_eq!(parse_keystroke(b"w"), Some(Command::Move(North)));
    assert_eq!(parse_keystroke(b"s"), Some(Command::Move(South)));
    assert_eq!(parse_keystroke(b"a"), Some(Command::Move(West)));
    assert_eq!(parse_keystroke(b"d"), Some(Command::Move(East)));
    assert_eq!(parse_keystroke(b"q"), Some(Command::Quit));
    assert_eq!(parse_keystroke(b"p"), Some(Command::Pathfind));
}

#[test]
fn keystrokes_that_mean_nothing() {
    assert_eq!(parse_keystroke(b""), None);
    assert_eq!(parse_keystroke(b"x"), None);
    assert_eq!(parse_keystroke(b"W"), None);
    assert_eq!(parse_keystroke(b"ww"), None);
    assert_eq!(parse_keystroke(b"\x1B"), None);
    assert_eq!(parse_keystroke(b"\x1B["), None);
    assert_eq!(parse_keystroke(b"\x1B[E"), None);
    assert_eq!(parse_keystroke(b"\x1BOA"), None);
    assert_eq!(parse_keystroke(b"\x1B[AA"), None);
    assert_eq!(parse_keystroke(b"[A"), None);
}

#[test]
fn player_update_turns_then_steps() {
    let mut player = Player { pos: at(3, 3), dir: North };
    player.update(East);
    assert_eq!(player, Player { pos: at(3, 3), dir: East });
    player.update(East);
    assert_eq!(player, Player { pos: at(3, 4), dir: East });
    player.update(South);
    player.update(South);
    assert_eq!(player, Player { pos: at(4, 4), dir: South });
    assert_eq!(player.glyph(), "▼");
}

#[test]
fn player_walks_onto_floor() {
    let mut maze = yard();
    let before = maze.clone();
    let mut player = Player { pos: at(1, 1), dir: East };
    assert_eq!(player_turn(&mut maze, &mut player, East), Moved::Walked);
    assert_eq!(player, Player { pos: at(1, 2), dir: East });
    assert_eq!(player_turn(&mut maze, &mut player, South), Moved::Walked);
    assert_eq!(player, Player { pos: at(1, 2), dir: South });
    assert_eq!(maze, before);
}

#[test]
fn player_pushes_a_wall() {
    let mut maze = yard();
    let mut player = Player { pos: at(1, 2), dir: South };
    assert_eq!(player_turn(&mut maze, &mut player, South), Moved::Pushed);
    assert_eq!(player, Player { pos: at(1, 2), dir: South });
    assert_eq!(maze.tile_at(&at(2, 2)), Tile::Floor);
    assert_eq!(maze.tile_at(&at(3, 2)), Tile::Wall);
    assert_eq!(player_turn(&mut maze, &mut player, South), Moved::Walked);
    assert_eq!(player.pos, at(2, 2));
    // The wall now at (3,2) has the outer wall behind it and stays.
    let before = maze.clone();
    assert_eq!(player_turn(&mut maze, &mut player, South), Moved::Pushed);
    assert_eq!(player.pos, at(2, 2));
    assert_eq!(maze, before);
}

#[test]
fn player_pushes_at_the_outer_wall_in_vain() {
    let mut maze = yard();
    let before = maze.clone();
    let mut player = Player { pos: at(1, 1), dir: North };
    assert_eq!(player_turn(&mut maze, &mut player, North), Moved::Pushed);
    assert_eq!(player, Player { pos: at(1, 1), dir: North });
    assert_eq!(maze, before);
}

#[test]
fn player_escapes_through_the_exit() {
    let mut maze = yard();
    let before = maze.clone();
    let mut player = Player { pos: at(3, 5), dir: East };
    assert_eq!(player_turn(&mut maze, &mut player, East), Moved::Escaped);
    assert_eq!(player, Player { pos: at(3, 5), dir: East });
    assert_eq!(maze, before);
}

#[test]
fn player_cannot_leave_the_map() {
    let mut maze = text(&["   ", "   "]);
    let before = maze.clone();
    let mut player = Player { pos: at(0, 0), dir: North };
    assert_eq!(player_turn(&mut maze, &mut player, North), Moved::Blocked);
    assert_eq!(player, Player { pos: at(0, 0), dir: North });
    assert_eq!(maze, before);
}

#[test]
fn player_push_strikes_the_troll_in_the_wall() {
    let mut maze = yard();
    maze.add_troll(at(2, 2), Troll::new(West));
    let mut player = Player { pos: at(1, 2), dir: South };
    assert_eq!(player_turn(&mut maze, &mut player, South), Moved::Pushed);
    assert_eq!(maze.troll_at(at(2, 2)), Some(Troll { dir: West, alive: false, state: State::Wandering }));
}

#[test]
fn troll_on_the_player_has_caught_them() {
    let mut maze = yard();
    let before = maze.clone();
    let mut rng = seeded(1);
    assert!(troll_turn(&mut maze, at(1, 1), Troll::new(North), at(1, 1), &mut rng));
    assert_eq!(maze, before);
}

#[test]
fn troll_in_a_wall_is_dead() {
    let mut maze = yard();
    let mut rng = seeded(2);
    let troll = Troll { dir: East, alive: true, state: State::Charging };
    assert!(!troll_turn(&mut maze, at(2, 2), troll, at(1, 1), &mut rng));
    assert_eq!(
        maze.troll_at(at(2, 2)),
        Some(Troll { dir: East, alive: false, state: State::Charging })
    );
}

#[test]
fn troll_turn_puts_the_troll_where_it_went() {
    let mut maze = yard();
    let mut rng = seeded(3);
    let troll = Troll { dir: East, alive: true, state: State::Charging };
    assert!(!troll_turn(&mut maze, at(1, 1), troll, at(3, 3), &mut rng));
    assert_eq!(maze.troll_at(at(1, 1)), None);
    assert_eq!(maze.troll_at(at(1, 2)), Some(troll));
    assert!(troll_turn(&mut maze, at(3, 2), troll, at(3, 3), &mut rng));
    assert_eq!(maze.troll_at(at(3, 3)), Some(troll));
}

#[test]
fn sweep_without_trolls_changes_nothing() {
    let mut maze = yard();
    let before = maze.clone();
    let mut rng = seeded(4);
    assert!(!sweep_trolls(&mut maze, at(1, 1), &mut rng));
    assert_eq!(maze, before);
}

#[test]
fn sweep_moves_every_troll_once() {
    let mut maze = yard();
    let mut rng = seeded(5);
    let charging = Troll { dir: East, alive: true, state: State::Charging };
    let stunned = Troll { dir: North, alive: true, state: State::Stunned(2) };
    let dead = Troll { dir: West, alive: false, state: State::Wandering };
    maze.add_troll(at(1, 1), charging);
    maze.add_troll(at(1, 5), stunned);
    maze.add_troll(at(3, 1), dead);
    assert!(!sweep_trolls(&mut maze, at(3, 5), &mut rng));
    assert_eq!(maze.trolls.len(), 3);
    assert_eq!(maze.troll_at(at(1, 2)), Some(charging));
    assert_eq!(
        maze.troll_at(at(1, 5)),
        Some(Troll { dir: North, alive: true, state: State::Stunned(1) })
    );
    assert_eq!(maze.troll_at(at(3, 1)), Some(dead));
}

#[test]
fn sweep_ends_when_the_player_is_caught() {
    for seed in 0..20 {
        let mut maze = yard();
        let mut rng = seeded(seed);
        maze.add_troll(at(1, 1), Troll { dir: East, alive: true, state: State::Stunned(3) });
        maze.add_troll(at(3, 3), Troll::new(South));
        maze.add_troll(at(1, 5), Troll { dir: West, alive: false, state: State::Charging });
        assert!(sweep_trolls(&mut maze, at(3, 3), &mut rng));
    }
}

#[test]
fn sweep_keeps_trolls_off_the_edge() {
    for seed in 0..10 {
        let mut rng = seeded(seed);
        let mut maze = Maze::generate(4, 6, &mut rng).unwrap();
        for _ in 0..6 {
            let pos = maze.random_floor_tile(&mut rng).unwrap();
            maze.add_troll(pos, Troll::random(&mut rng));
        }
        let player = at(7, 11);
        for _ in 0..300 {
            if sweep_trolls(&mut maze, player, &mut rng) {
                break;
            }
            let (rows, cols) = maze.bounds();
            assert_eq!((rows, cols), (9, 13));
            for key in maze.trolls.keys() {
                let pos = Maze::posn_of(*key);
                assert!(0 < pos.row && pos.row < 8 && 0 < pos.col && pos.col < 12);
            }
            for row in 0..9 {
                for col in 0..13 {
                    if row == 0 || col == 0 || row == 8 || col == 12 {
                        assert_ne!(maze.tile_at(&at(row, col)), Tile::Floor);
                    }
                }
            }
        }
    }
}

#[test]
fn sweep_gives_each_of_many_trolls_one_turn() {
    for seed in 0..10 {
        let mut maze = yard();
        let mut rng = seeded(seed);
        let spots = [at(1, 1), at(1, 3), at(1, 5), at(3, 1), at(3, 3)];
        for (n, pos) in spots.iter().enumerate() {
            maze.add_troll(*pos, Troll { dir: North, alive: true, state: State::Stunned(2 + n as i32) });
        }
        let tiles = maze.map.clone();
        assert!(!sweep_trolls(&mut maze, at(3, 5), &mut rng));
        assert_eq!(maze.map, tiles);
        assert_eq!(maze.trolls.len(), 5);
        for (n, pos) in spots.iter().enumerate() {
            assert_eq!(
                maze.troll_at(*pos),
                Some(Troll { dir: North, alive: true, state: State::Stunned(1 + n as i32) })
            );
        }
    }
}

#[test]
fn sweep_lets_a_later_troll_take_the_place_of_an_earlier_one() {
    // Two trolls charge at each other across one free cell: whichever moves
    // second ends up where the first was put, and only one is left.
    for seed in 0..10 {
        let mut maze = yard();
        let mut rng = seeded(seed);
        maze.add_troll(at(1, 1), Troll { dir: East, alive: true, state: State::Charging });
        maze.add_troll(at(1, 3), Troll { dir: West, alive: true, state: State::Charging });
        assert!(!sweep_trolls(&mut maze, at(3, 5), &mut rng));
        assert_eq!(maze.trolls.len(), 1);
        let left = maze.troll_at(at(1, 2)).unwrap();
        assert_eq!(left.state, State::Charging);
        assert!(left.alive);
    }
}
