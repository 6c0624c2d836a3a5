use rand::{SeedableRng, StdRng};
use troll_maze::direction::Direction;
use troll_maze::direction::Direction::{East, North, South, West};
use troll_maze::maze::Maze;
use troll_maze::posn::Posn;
use troll_maze::tile::Tile;
use troll_maze::troll::{State, Troll};

fn text(lines: &[&str]) -> Maze {
    let lines: Vec<String> = lines.iter().map(|line| line.to_string()).collect();
    Maze::load_from_lines(&lines).unwrap()
}

fn at(row: i32, col: i32) -> Posn {
    Posn { row: row, col: col }
}

fn corridor() -> Maze {
    text(&[
        "#########",
        "#########",
        "#      ##",
        "#########",
        "#########",
    ])
}

fn seeded(seed: usize) -> StdRng {
    let seed: &[usize] = &[seed, 1, 2];
    SeedableRng::from_seed(seed)
}

#[test]
fn new_troll_wanders() {
    assert_eq!(Troll::new(West), Troll { dir: West, alive: true, state: State::Wandering });
}

#[test]
fn troll_charges_is_stunned_and_recovers() {
    let mut maze = corridor();
    let before = maze.clone();
    let mut troll = Troll::new(East);
    let player = at(2, 6);
    // The draw is the direction the troll faces: it steps ahead and sees
    // the player down the corridor.
    let (pos, captured) = troll.update_with(at(2, 2), &mut maze, player, East);
    assert_eq!((pos, captured), (at(2, 3), false));
    assert_eq!(troll.state, State::Charging);
    assert_eq!(troll.dir, East);
    // The player steps out of the way; the charge runs on to the wall.
    let player = at(0, 0);
    let mut pos = pos;
    for col in 4..7 {
        let (moved, captured) = troll.update_with(pos, &mut maze, player, North);
        assert_eq!((moved, captured), (at(2, col), false));
        assert_eq!(troll.state, State::Charging);
        pos = moved;
    }
    let (moved, captured) = troll.update_with(pos, &mut maze, player, North);
    assert_eq!((moved, captured), (at(2, 6), false));
    assert_eq!(troll.state, State::Stunned(3));
    // Beyond the wall at (2,7) lies the wall at (2,8): nothing slides.
    assert_eq!(maze, before);
    for left in &[State::Stunned(2), State::Stunned(1), State::Wandering] {
        let (moved, captured) = troll.update_with(pos, &mut maze, player, East);
        assert_eq!((moved, captured), (at(2, 6), false));
        assert_eq!(troll.state, *left);
        assert_eq!(troll.dir, East);
    }
    assert!(troll.alive);
    assert_eq!(maze, before);
}

#[test]
fn wandering_troll_turns_without_moving() {
    let mut maze = corridor();
    let mut troll = Troll::new(East);
    let (pos, captured) = troll.update_with(at(2, 3), &mut maze, at(0, 0), West);
    assert_eq!((pos, captured), (at(2, 3), false));
    assert_eq!(troll, Troll { dir: West, alive: true, state: State::Wandering });
}

#[test]
fn wandering_troll_sees_the_player_after_turning() {
    let mut maze = corridor();
    let mut troll = Troll::new(North);
    let (pos, captured) = troll.update_with(at(2, 5), &mut maze, at(2, 1), West);
    assert_eq!((pos, captured), (at(2, 5), false));
    assert_eq!(troll, Troll { dir: West, alive: true, state: State::Charging });
}

#[test]
fn wandering_troll_does_not_see_behind_or_through_walls() {
    let mut maze = text(&[
        "#########",
        "#   #   #",
        "#########",
    ]);
    let mut troll = Troll::new(North);
    // The player is behind the troll.
    troll.update_with(at(1, 2), &mut maze, at(1, 1), East);
    assert_eq!(troll.state, State::Wandering);
    // The player is ahead, but behind a wall.
    let mut troll = Troll::new(North);
    troll.update_with(at(1, 2), &mut maze, at(1, 6), East);
    assert_eq!(troll.state, State::Wandering);
    // The player stands in the wall that ends the line of sight.
    let mut troll = Troll::new(North);
    troll.update_with(at(1, 2), &mut maze, at(1, 4), East);
    assert_eq!(troll.state, State::Charging);
}

#[test]
fn wandering_troll_is_blocked_by_wall_and_exit() {
    let mut maze = text(&["####", "X  #", "####"]);
    let before = maze.clone();
    let mut troll = Troll::new(North);
    assert_eq!(troll.update_with(at(1, 1), &mut maze, at(1, 2), North), (at(1, 1), false));
    assert_eq!(troll.state, State::Wandering);
    let mut troll = Troll::new(West);
    assert_eq!(troll.update_with(at(1, 1), &mut maze, at(1, 2), West), (at(1, 1), false));
    assert_eq!(troll.state, State::Wandering);
    assert_eq!(maze, before);
}

#[test]
fn wandering_troll_steps_onto_the_player() {
    let mut maze = corridor();
    let mut troll = Troll::new(East);
    let (pos, captured) = troll.update_with(at(2, 2), &mut maze, at(2, 3), East);
    assert_eq!((pos, captured), (at(2, 3), true));
    assert_eq!(troll, Troll::new(East));
}

#[test]
fn wandering_troll_beside_the_player_charges_after_turning() {
    let mut maze = corridor();
    let mut troll = Troll::new(West);
    let (pos, captured) = troll.update_with(at(2, 2), &mut maze, at(2, 3), East);
    assert_eq!((pos, captured), (at(2, 2), false));
    assert_eq!(troll, Troll { dir: East, alive: true, state: State::Charging });
}

#[test]
fn charging_troll_catches_the_player() {
    let mut maze = corridor();
    let mut troll = Troll { dir: East, alive: true, state: State::Charging };
    let (pos, captured) = troll.update_with(at(2, 2), &mut maze, at(2, 3), South);
    assert_eq!((pos, captured), (at(2, 3), true));
    assert_eq!(troll.state, State::Charging);
}

#[test]
fn charging_troll_stops_at_the_exit() {
    let mut maze = text(&["####", "X  #", "####"]);
    let mut troll = Troll { dir: West, alive: true, state: State::Charging };
    let (pos, captured) = troll.update_with(at(1, 1), &mut maze, at(1, 2), South);
    assert_eq!((pos, captured), (at(1, 1), false));
    assert_eq!(troll, Troll { dir: West, alive: true, state: State::Wandering });
}

#[test]
fn charging_troll_shoves_the_wall_on() {
    let mut maze = text(&[
        "#######",
        "#  #  #",
        "#######",
    ]);
    let mut troll = Troll { dir: East, alive: true, state: State::Charging };
    let (pos, captured) = troll.update_with(at(1, 2), &mut maze, at(1, 5), North);
    assert_eq!((pos, captured), (at(1, 2), false));
    assert_eq!(troll.state, State::Stunned(3));
    assert_eq!(maze.tile_at(&at(1, 3)), Tile::Floor);
    assert_eq!(maze.tile_at(&at(1, 4)), Tile::Wall);
    assert_eq!(maze.tile_at(&at(1, 5)), Tile::Floor);
}

#[test]
fn charging_troll_strikes_the_troll_in_the_wall() {
    let mut maze = corridor();
    let buried = Troll { dir: North, alive: true, state: State::Stunned(2) };
    maze.add_troll(at(2, 7), buried);
    let mut troll = Troll { dir: East, alive: true, state: State::Charging };
    troll.update_with(at(2, 6), &mut maze, at(0, 0), North);
    assert_eq!(troll.state, State::Stunned(3));
    assert!(troll.alive);
    assert_eq!(
        maze.troll_at(at(2, 7)),
        Some(Troll { dir: North, alive: false, state: State::Stunned(2) })
    );
}

#[test]
fn dead_troll_does_nothing() {
    let mut maze = corridor();
    let before = maze.clone();
    let mut rng = seeded(5);
    for state in &[State::Wandering, State::Charging, State::Stunned(1)] {
        let dead = Troll { dir: East, alive: false, state: *state };
        let mut troll = dead;
        assert_eq!(troll.update_with(at(2, 2), &mut maze, at(2, 3), East), (at(2, 2), false));
        assert_eq!(troll, dead);
        assert_eq!(troll.update(at(2, 2), &mut maze, at(2, 3), &mut rng), (at(2, 2), false));
        assert_eq!(troll, dead);
    }
    assert_eq!(maze, before);
}

#[test]
fn update_draws_only_for_a_wandering_troll() {
    let mut maze = corridor();
    let mut rng = seeded(9);
    let mut fresh = seeded(9);
    let mut troll = Troll { dir: East, alive: true, state: State::Stunned(2) };
    troll.update(at(2, 2), &mut maze, at(0, 0), &mut rng);
    assert_eq!(troll.state, State::Stunned(1));
    let mut troll = Troll { dir: East, alive: true, state: State::Charging };
    assert_eq!(troll.update(at(2, 2), &mut maze, at(0, 0), &mut rng), (at(2, 3), false));
    // Nothing was drawn so far: both sources are still in step.
    assert_eq!(Direction::random(&mut rng), Direction::random(&mut fresh));
    let mut troll = Troll::new(East);
    troll.update(at(2, 2), &mut maze, at(0, 0), &mut rng);
    let mut drawn = 0;
    for _ in 0..64 {
        if Direction::random(&mut rng) != Direction::random(&mut fresh) {
            drawn += 1;
        }
    }
    assert!(drawn > 0);
}

#[test]
fn update_follows_the_draw() {
    let mut rng = seeded(21);
    let mut twin = seeded(21);
    for _ in 0..200 {
        let mut maze = text(&["#####", "#   #", "#   #", "#   #", "#####"]);
        let drawn = Direction::random(&mut twin);
        let mut troll = Troll::new(North);
        let mut expected = Troll::new(North);
        let mut same_maze = maze.clone();
        let moved = troll.update(at(2, 2), &mut maze, at(2, 3), &mut rng);
        let wanted = expected.update_with(at(2, 2), &mut same_maze, at(2, 3), drawn);
        assert_eq!(moved, wanted);
        assert_eq!(troll, expected);
        assert_eq!(maze, same_maze);
    }
}

#[test]
fn random_directions_cover_all_four() {
    let mut rng = seeded(33);
    let mut seen = vec![];
    for _ in 0..400 {
        let dir = Direction::random(&mut rng);
        if !seen.contains(&dir) {
            seen.push(dir);
        }
    }
    assert_eq!(seen.len(), 4);
}

#[test]
fn random_troll_is_fresh() {
    let mut rng = seeded(34);
    let mut twin = seeded(34);
    for _ in 0..50 {
        let troll = Troll::random(&mut rng);
        assert_eq!(troll, Troll::new(Direction::random(&mut twin)));
    }
}

#[test]
fn looks_along_the_line_of_sight() {
    let maze = corridor();
    assert!(Troll::looks(&maze, at(2, 1), East, at(2, 6)));
    assert!(Troll::looks(&maze, at(2, 1), East, at(2, 7)));
    assert!(!Troll::looks(&maze, at(2, 1), East, at(2, 8)));
    assert!(!Troll::looks(&maze, at(2, 1), East, at(2, 1)));
    assert!(!Troll::looks(&maze, at(2, 3), East, at(2, 2)));
    assert!(Troll::looks(&maze, at(2, 3), West, at(2, 0)));
    assert!(Troll::looks(&maze, at(2, 3), North, at(1, 3)));
    assert!(!Troll::looks(&maze, at(2, 3), North, at(0, 3)));
    assert!(!Troll::looks(&maze, at(2, 3), South, at(1, 3)));
}

#[test]
fn troll_glyph_is_the_arrow_of_its_facing() {
    assert_eq!(Troll::new(South).glyph(), "▼");
    assert_eq!(Troll::new(West).glyph(), "◀");
    assert_eq!(Troll { dir: North, alive: false, state: State::Charging }.glyph(), "▲");
}
