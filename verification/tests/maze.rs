use rand::{SeedableRng, StdRng};
use troll_maze::direction::Direction;
use troll_maze::layout::{FormatError, Sprite};
use troll_maze::maze::{Drawn, ExhaustedRetries, Maze, MAX_DRAWS};
use troll_maze::posn::Posn;
use troll_maze::tile::Tile;
use troll_maze::tile::Tile::{Exit, Floor, Wall};
use troll_maze::troll::{State, Troll};

fn seeded(seed: usize) -> StdRng {
    let seed: &[usize] = &[seed, 2, 3, 4];
    SeedableRng::from_seed(seed)
}

fn lines(text: &[&str]) -> Vec<String> {
    text.iter().map(|line| line.to_string()).collect()
}

fn room() -> Maze {
    Maze::load_from_lines(&lines(&[
        "#####",
        "#   #",
        "# # #",
        "#   X",
        "#####",
    ]))
    .unwrap()
}

#[test]
fn test_maze_bounds() {
    let row = vec![Floor, Floor, Floor, Floor];
    let maze = Maze::new(vec![row.clone(), row.clone()]);
    assert_eq!(maze.in_bounds(&Posn { row: 0, col: 0 }), true);
    assert_eq!(maze.in_bounds(&Posn { row: 10, col: 10 }), false);
    assert_eq!(maze.in_bounds(&Posn { row: 1, col: 0 }), true);
    assert_eq!(maze.in_bounds(&Posn { row: 2, col: 0 }), false);
    assert_eq!(maze.in_bounds(&Posn { row: 1, col: 10 }), false);
    assert_eq!(maze.in_bounds(&Posn { row: 1, col: 3 }), true);
}

#[test]
fn bounds_are_rows_then_columns() {
    let row = vec![Floor, Wall, Floor, Floor];
    let maze = Maze::new(vec![row.clone(), row.clone()]);
    assert_eq!(maze.bounds(), (2, 4));
    assert!(!maze.in_bounds(&Posn { row: -1, col: 0 }));
    assert!(!maze.in_bounds(&Posn { row: 0, col: -1 }));
    assert!(!maze.in_bounds(&Posn { row: 0, col: 4 }));
    assert_eq!(maze.tile_at(&Posn { row: 1, col: 1 }), Wall);
    assert_eq!(maze.tile_at(&Posn { row: 1, col: 2 }), Floor);
}

#[test]
fn load_reads_each_character() {
    let maze = room();
    assert_eq!(maze.bounds(), (5, 5));
    assert_eq!(maze.tile_at(&Posn { row: 0, col: 0 }), Wall);
    assert_eq!(maze.tile_at(&Posn { row: 1, col: 1 }), Floor);
    assert_eq!(maze.tile_at(&Posn { row: 2, col: 2 }), Wall);
    assert_eq!(maze.tile_at(&Posn { row: 3, col: 4 }), Exit);
    assert_eq!(maze.tile_at(&Posn { row: 2, col: 3 }), Floor);
    assert_eq!(maze.troll_at(Posn { row: 1, col: 1 }), None);
}

#[test]
fn load_rejects_no_lines() {
    assert_eq!(Maze::load_from_lines(&lines(&[])).err(), Some(FormatError::Empty));
}

#[test]
fn load_rejects_an_empty_first_line() {
    assert_eq!(Maze::load_from_lines(&lines(&["", ""])).err(), Some(FormatError::Empty));
}

#[test]
fn load_rejects_a_bad_character() {
    assert_eq!(
        Maze::load_from_lines(&lines(&["###", "#.#", "###"])).err(),
        Some(FormatError::BadCharacter { line: 1, column: 1 })
    );
    assert_eq!(
        Maze::load_from_lines(&lines(&["##x", "#"])).err(),
        Some(FormatError::BadCharacter { line: 0, column: 2 })
    );
}

#[test]
fn load_counts_columns_in_characters() {
    assert_eq!(
        Maze::load_from_lines(&lines(&["#▲?"])).err(),
        Some(FormatError::BadCharacter { line: 0, column: 1 })
    );
}

#[test]
fn load_rejects_ragged_lines() {
    assert_eq!(
        Maze::load_from_lines(&lines(&["###", "##", "###"])).err(),
        Some(FormatError::Ragged { line: 1 })
    );
    assert_eq!(
        Maze::load_from_lines(&lines(&["###", "###", "####"])).err(),
        Some(FormatError::Ragged { line: 2 })
    );
}

#[test]
fn load_reports_the_first_fault() {
    assert_eq!(
        Maze::load_from_lines(&lines(&["###", "##", "#?#"])).err(),
        Some(FormatError::Ragged { line: 1 })
    );
    assert_eq!(
        Maze::load_from_lines(&lines(&["###", "#?", "###"])).err(),
        Some(FormatError::BadCharacter { line: 1, column: 1 })
    );
}

#[test]
fn tile_glyphs_round_trip() {
    for tile in &[Floor, Wall, Exit] {
        assert_eq!(Tile::from_glyph(tile.glyph()), Some(*tile));
    }
    assert_eq!(Floor.glyph(), ' ');
    assert_eq!(Wall.glyph(), '#');
    assert_eq!(Exit.glyph(), 'X');
    assert_eq!(Tile::from_glyph('x'), None);
    assert_eq!(Tile::from_glyph('.'), None);
}

#[test]
fn set_tile_changes_one_tile() {
    let mut maze = room();
    let before = maze.clone();
    maze.set_tile(Posn { row: 2, col: 2 }, Floor);
    assert_eq!(maze.tile_at(&Posn { row: 2, col: 2 }), Floor);
    for row in 0..5 {
        for col in 0..5 {
            let p = Posn { row: row, col: col };
            if p != (Posn { row: 2, col: 2 }) {
                assert_eq!(maze.tile_at(&p), before.tile_at(&p));
            }
        }
    }
}

#[test]
fn add_troll_replaces_the_occupant() {
    let mut maze = room();
    let pos = Posn { row: 1, col: 1 };
    maze.add_troll(pos, Troll::new(Direction::North));
    maze.add_troll(Posn { row: 1, col: 2 }, Troll::new(Direction::West));
    assert_eq!(maze.troll_at(pos), Some(Troll::new(Direction::North)));
    maze.add_troll(pos, Troll::new(Direction::South));
    assert_eq!(maze.troll_at(pos), Some(Troll::new(Direction::South)));
    assert_eq!(maze.troll_at(Posn { row: 1, col: 2 }), Some(Troll::new(Direction::West)));
    assert_eq!(maze.troll_at(Posn { row: 1, col: 3 }), None);
    assert_eq!(maze.trolls.len(), 2);
}

#[test]
fn troll_keys_tell_positions_apart() {
    let corners = [
        Posn { row: 0, col: 0 },
        Posn { row: -1, col: 0 },
        Posn { row: 0, col: -1 },
        Posn { row: 1, col: 0 },
        Posn { row: 0, col: 1 },
        Posn { row: i32::MAX, col: i32::MIN },
        Posn { row: i32::MIN, col: i32::MAX },
        Posn { row: i32::MIN, col: i32::MIN },
        Posn { row: i32::MAX, col: i32::MAX },
    ];
    for a in &corners {
        assert_eq!(Maze::posn_of(Maze::key_of(*a)), *a);
        for b in &corners {
            assert_eq!(Maze::key_of(*a) == Maze::key_of(*b), a == b);
        }
    }
    assert_eq!(Maze::key_of(Posn { row: i32::MIN, col: i32::MIN }), 0);
    assert_eq!(Maze::key_of(Posn { row: 0, col: 0 }), 0x8000_0000_8000_0000);
    assert_eq!(Maze::key_of(Posn { row: i32::MAX, col: i32::MAX }), u64::MAX);
}

#[test]
fn push_slides_a_wall_onto_floor() {
    let mut maze = room();
    let before = maze.clone();
    // The wall at (2,2) pushed south slides onto the floor at (3,2).
    maze.push(Posn { row: 2, col: 2 }, Direction::South);
    assert_eq!(maze.tile_at(&Posn { row: 2, col: 2 }), Floor);
    assert_eq!(maze.tile_at(&Posn { row: 3, col: 2 }), Wall);
    let mut changed = 0;
    for row in 0..5 {
        for col in 0..5 {
            let p = Posn { row: row, col: col };
            if maze.tile_at(&p) != before.tile_at(&p) {
                changed += 1;
            }
        }
    }
    assert_eq!(changed, 2);
}

#[test]
fn push_against_a_wall_leaves_the_tiles() {
    let mut maze = room();
    let before = maze.clone();
    // Beyond the wall at (0,1) to the east lies the wall at (0,2).
    maze.push(Posn { row: 0, col: 1 }, Direction::East);
    assert_eq!(maze.map, before.map);
    assert_eq!(maze, before);
}

#[test]
fn push_against_the_exit_leaves_the_tiles() {
    let mut maze = room();
    let before = maze.clone();
    maze.push(Posn { row: 3, col: 3 }, Direction::East);
    assert_eq!(maze, before);
}

#[test]
fn push_off_the_map_does_nothing() {
    let mut maze = room();
    let pos = Posn { row: 0, col: 2 };
    maze.add_troll(pos, Troll::new(Direction::North));
    let before = maze.clone();
    maze.push(pos, Direction::North);
    assert_eq!(maze, before);
    assert_eq!(maze.troll_at(pos), Some(Troll::new(Direction::North)));
}

#[test]
fn push_strikes_down_whoever_stands_there() {
    let mut maze = room();
    let pos = Posn { row: 1, col: 1 };
    let other = Posn { row: 3, col: 1 };
    maze.add_troll(pos, Troll { dir: Direction::West, alive: true, state: State::Charging });
    maze.add_troll(other, Troll::new(Direction::East));
    let before = maze.clone();
    // Beyond (1,1) to the north lies the wall at (0,1): no tile changes.
    maze.push(pos, Direction::North);
    assert_eq!(maze.map, before.map);
    assert_eq!(
        maze.troll_at(pos),
        Some(Troll { dir: Direction::West, alive: false, state: State::Charging })
    );
    assert_eq!(maze.troll_at(other), Some(Troll::new(Direction::East)));
    assert_eq!(maze.trolls.len(), 2);
}

#[test]
fn push_onto_floor_strikes_and_slides() {
    let mut maze = room();
    let pos = Posn { row: 2, col: 2 };
    maze.add_troll(pos, Troll::new(Direction::South));
    maze.push(pos, Direction::North);
    assert_eq!(maze.tile_at(&pos), Floor);
    assert_eq!(maze.tile_at(&Posn { row: 1, col: 2 }), Wall);
    assert_eq!(maze.troll_at(pos).map(|t| t.alive), Some(false));
}

#[test]
fn random_floor_tile_hits_floor() {
    let maze = room();
    let mut rng = seeded(7);
    for _ in 0..200 {
        let pos = maze.random_floor_tile(&mut rng).unwrap();
        assert!(maze.in_bounds(&pos));
        assert_eq!(maze.tile_at(&pos), Floor);
    }
}

#[test]
fn random_floor_tile_reaches_every_floor_tile() {
    let maze = room();
    let mut rng = seeded(11);
    let mut seen = vec![];
    for _ in 0..2000 {
        let pos = maze.random_floor_tile(&mut rng).unwrap();
        if !seen.contains(&pos) {
            seen.push(pos);
        }
    }
    assert_eq!(seen.len(), 8);
}

#[test]
fn random_floor_tile_gives_up_without_floor() {
    let maze = Maze::load_from_lines(&lines(&["###", "#X#", "###"])).unwrap();
    let mut rng = seeded(3);
    assert_eq!(maze.random_floor_tile(&mut rng), Err(ExhaustedRetries));
}

#[test]
fn is_floor_off_the_map_is_false() {
    let maze = room();
    assert!(maze.is_floor(&Posn { row: 1, col: 1 }));
    assert!(!maze.is_floor(&Posn { row: 0, col: 0 }));
    assert!(!maze.is_floor(&Posn { row: 3, col: 4 }));
    assert!(!maze.is_floor(&Posn { row: -1, col: 1 }));
    assert!(!maze.is_floor(&Posn { row: 1, col: 5 }));
}

#[test]
fn sprites_show_trolls_over_the_ground() {
    let mut maze = room();
    let on_floor = Posn { row: 1, col: 1 };
    let in_wall = Posn { row: 2, col: 2 };
    let troll = Troll::new(Direction::East);
    maze.add_troll(on_floor, troll);
    maze.add_troll(in_wall, troll);
    assert_eq!(maze.sprite_at(&on_floor), Sprite::Troll(troll));
    assert_eq!(maze.sprite_at(&in_wall), Sprite::Troll(troll));
    assert_eq!(maze.sprite_at(&Posn { row: 1, col: 2 }), Sprite::Ground(Floor));
    assert_eq!(maze.redrawn_sprite(&on_floor), Sprite::Troll(troll));
    assert_eq!(maze.redrawn_sprite(&in_wall), Sprite::Ground(Wall));
    assert_eq!(maze.redrawn_sprite(&Posn { row: 3, col: 4 }), Sprite::Ground(Exit));
}

#[test]
fn maze_is_indexed_by_position() {
    let maze = room();
    assert_eq!(maze[&Posn { row: 3, col: 4 }], Exit);
    assert_eq!(maze[&Posn { row: 1, col: 3 }], Floor);
    assert_eq!(maze[(2, 2)], Wall);
    assert_eq!(maze[(3, 4)], Exit);
}

#[test]
fn troll_positions_lists_each_troll_once() {
    let mut maze = room();
    assert_eq!(maze.troll_positions(), vec![]);
    let spots = [
        Posn { row: 1, col: 1 },
        Posn { row: 3, col: 3 },
        Posn { row: 1, col: 3 },
        Posn { row: -2, col: 7 },
    ];
    for pos in &spots {
        maze.add_troll(*pos, Troll::new(Direction::East));
    }
    maze.add_troll(spots[0], Troll::new(Direction::West));
    let mut positions = maze.troll_positions();
    assert_eq!(positions.len(), 4);
    positions.sort_by_key(|p| (p.row, p.col));
    assert_eq!(positions, vec![spots[3], spots[0], spots[2], spots[1]]);
}

#[test]
fn push_from_own_cell_strikes_the_pusher() {
    // A charging troll that pushes at the very tile it stands on is itself
    // the one struck down.
    let mut maze = room();
    let pos = Posn { row: 1, col: 2 };
    let pusher = Troll { dir: Direction::South, alive: true, state: State::Charging };
    maze.add_troll(pos, pusher);
    maze.push(pos, pusher.dir);
    assert_eq!(
        maze.troll_at(pos),
        Some(Troll { dir: Direction::South, alive: false, state: State::Charging })
    );
    // Beyond (1,2) to the south lies the wall at (2,2): no tile changed.
    assert_eq!(maze.map, room().map);
}

#[test]
fn judge_finds_floor_whatever_was_missed() {
    let maze = room();
    let floor = Posn { row: 1, col: 1 };
    assert_eq!(maze.judge(0, floor), Drawn::Found(floor));
    assert_eq!(maze.judge(9_999, floor), Drawn::Found(floor));
    assert_eq!(maze.judge(u32::MAX, floor), Drawn::Found(floor));
}

#[test]
fn judge_draws_again_until_the_last_draw() {
    let maze = room();
    let wall = Posn { row: 0, col: 0 };
    let exit = Posn { row: 3, col: 4 };
    assert_eq!(MAX_DRAWS, 10_000);
    assert_eq!(maze.judge(0, wall), Drawn::Again);
    assert_eq!(maze.judge(0, exit), Drawn::Again);
    assert_eq!(maze.judge(9_998, wall), Drawn::Again);
    assert_eq!(maze.judge(9_999, wall), Drawn::GiveUp);
    assert_eq!(maze.judge(9_999, exit), Drawn::GiveUp);
    assert_eq!(maze.judge(u32::MAX, wall), Drawn::GiveUp);
}

#[test]
fn judge_counts_a_draw_off_the_map_as_a_miss() {
    let maze = room();
    assert_eq!(maze.judge(3, Posn { row: -1, col: 1 }), Drawn::Again);
    assert_eq!(maze.judge(9_999, Posn { row: 1, col: 5 }), Drawn::GiveUp);
}

#[test]
fn random_floor_tile_gives_up_after_the_last_draw_allowed() {
    // One floor tile among very many: whether it is hit or not, the answer
    // is that tile or the error, and the same seed gives the same answer.
    let mut text = vec!["#".repeat(200); 200];
    text[77] = format!("{} {}", "#".repeat(100), "#".repeat(99));
    let maze = Maze::load_from_lines(&text).unwrap();
    let floor = Posn { row: 77, col: 100 };
    let mut hits = 0;
    for seed in 0..20 {
        let first = maze.random_floor_tile(&mut seeded(seed));
        assert_eq!(first, maze.random_floor_tile(&mut seeded(seed)));
        match first {
            Ok(pos) => {
                assert_eq!(pos, floor);
                hits += 1;
            }
            Err(e) => assert_eq!(e, ExhaustedRetries),
        }
    }
    // A draw hits with chance 1 in 40,000, so 10,000 draws hit about once
    // in five tries: neither never nor always.
    assert!(hits < 20);
}
