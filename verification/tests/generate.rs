use rand::{SeedableRng, StdRng};
use troll_maze::generate::{InvalidArgument, MAX_CELLS};
use troll_maze::maze::Maze;
use troll_maze::posn::Posn;
use troll_maze::tile::Tile;

fn rng_from(seed: usize) -> StdRng {
    let seed: &[usize] = &[seed, 17, 4, 99];
    SeedableRng::from_seed(seed)
}

fn count(maze: &Maze, want: Tile) -> usize {
    maze.map.iter().map(|row| row.iter().filter(|t| **t == want).count()).sum()
}

/// The number of cells that can be walked to from the first cell over
/// floor.
fn cells_reached(maze: &Maze, height: usize, width: usize) -> usize {
    let rows = maze.map.len();
    let cols = maze.map[0].len();
    let mut seen = vec![vec![false; cols]; rows];
    let mut stack = vec![(1usize, 1usize)];
    seen[1][1] = true;
    while let Some((r, c)) = stack.pop() {
        let around = [(r - 1, c), (r + 1, c), (r, c - 1), (r, c + 1)];
        for &(nr, nc) in &around {
            if nr < rows && nc < cols && !seen[nr][nc] && maze.map[nr][nc] == Tile::Floor {
                seen[nr][nc] = true;
                stack.push((nr, nc));
            }
        }
    }
    let mut reached = 0;
    for r in 0..height {
        for c in 0..width {
            if seen[2 * r + 1][2 * c + 1] {
                reached += 1;
            }
        }
    }
    reached
}

fn assert_perfect(maze: &Maze, height: usize, width: usize) {
    assert_eq!(maze.bounds(), (2 * height + 1, 2 * width + 1));
    assert_eq!(maze.trolls.len(), 0);
    // One exit, on the left edge beside the first cell.
    assert_eq!(count(maze, Tile::Exit), 1);
    assert_eq!(maze.tile_at(&Posn { row: 1, col: 0 }), Tile::Exit);
    // Every cell is open, and the rest of the floor is the passages.
    let mut passages = 0;
    for r in 0..2 * height + 1 {
        for c in 0..2 * width + 1 {
            let tile = maze.map[r][c];
            let edge = r == 0 || c == 0 || r == 2 * height || c == 2 * width;
            if r % 2 == 1 && c % 2 == 1 {
                assert_eq!(tile, Tile::Floor);
            } else if edge || (r % 2 == 0 && c % 2 == 0) {
                assert_ne!(tile, Tile::Floor);
            } else if tile == Tile::Floor {
                passages += 1;
            }
        }
    }
    assert_eq!(passages, height * width - 1);
    assert_eq!(count(maze, Tile::Floor), 2 * height * width - 1);
    assert_eq!(cells_reached(maze, height, width), height * width);
}

#[test]
fn generate_rejects_zero_height() {
    let mut rng = rng_from(1);
    assert_eq!(Maze::generate(0, 5, &mut rng).err(), Some(InvalidArgument));
}

#[test]
fn generate_rejects_zero_width() {
    let mut rng = rng_from(1);
    assert_eq!(Maze::generate(5, 0, &mut rng).err(), Some(InvalidArgument));
    assert_eq!(Maze::generate(0, 0, &mut rng).err(), Some(InvalidArgument));
}

#[test]
fn generate_single_cell() {
    let mut rng = rng_from(2);
    let maze = Maze::generate(1, 1, &mut rng).unwrap();
    assert_eq!(
        maze.map,
        vec![
            vec![Tile::Wall, Tile::Wall, Tile::Wall],
            vec![Tile::Exit, Tile::Floor, Tile::Wall],
            vec![Tile::Wall, Tile::Wall, Tile::Wall],
        ]
    );
}

#[test]
fn generate_single_row_is_a_corridor() {
    let mut rng = rng_from(3);
    let maze = Maze::generate(1, 4, &mut rng).unwrap();
    let mut corridor = vec![Tile::Exit];
    corridor.extend(vec![Tile::Floor; 7]);
    corridor.push(Tile::Wall);
    assert_eq!(maze.map[1], corridor);
    assert_perfect(&maze, 1, 4);
}

#[test]
fn generated_mazes_are_perfect() {
    for seed in 0..20 {
        let mut rng = rng_from(seed);
        for &(height, width) in &[(1, 1), (1, 7), (7, 1), (2, 2), (5, 5), (3, 9), (12, 8)] {
            let maze = Maze::generate(height, width, &mut rng).unwrap();
            assert_perfect(&maze, height, width);
        }
    }
}

#[test]
fn generate_is_repeatable_from_a_seed() {
    for seed in 0..10 {
        let first = Maze::generate(9, 11, &mut rng_from(seed)).unwrap();
        let second = Maze::generate(9, 11, &mut rng_from(seed)).unwrap();
        assert_eq!(first.map, second.map);
        assert_eq!(first, second);
    }
}

#[test]
fn generate_draws_from_the_random_source() {
    let mut seen = vec![];
    for seed in 0..30 {
        let maze = Maze::generate(4, 4, &mut rng_from(seed)).unwrap();
        if !seen.contains(&maze.map) {
            seen.push(maze.map);
        }
    }
    assert!(seen.len() > 1);
}

#[test]
fn generate_rejects_sizes_beyond_addressing() {
    let mut rng = rng_from(1);
    assert_eq!(Maze::generate(MAX_CELLS + 1, 1, &mut rng).err(), Some(InvalidArgument));
    assert_eq!(Maze::generate(1, MAX_CELLS + 1, &mut rng).err(), Some(InvalidArgument));
    assert_eq!(Maze::generate(0, usize::MAX, &mut rng).err(), Some(InvalidArgument));
    assert_eq!(Maze::generate(usize::MAX, usize::MAX, &mut rng).err(), Some(InvalidArgument));
    assert_eq!(MAX_CELLS, 536870912);
}

#[test]
fn generate_touches_no_draw_when_it_fails() {
    let mut rng = rng_from(4);
    let mut twin = rng_from(4);
    assert!(Maze::generate(0, 3, &mut rng).is_err());
    assert!(Maze::generate(3, MAX_CELLS + 1, &mut rng).is_err());
    assert_eq!(Maze::generate(3, 3, &mut rng), Maze::generate(3, 3, &mut twin));
}
