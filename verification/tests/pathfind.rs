use rand::{SeedableRng, StdRng};
use troll_maze::direction::Direction;
use troll_maze::frontier::{Frontier, HeapEntry};
use troll_maze::grid::Grid;
use troll_maze::maze::Maze;
use troll_maze::pathfind::{pathfind, Node};
use troll_maze::posn::Posn;
use troll_maze::tile::Tile;

fn text(lines: &[&str]) -> Maze {
    let lines: Vec<String> = lines.iter().map(|line| line.to_string()).collect();
    Maze::load_from_lines(&lines).unwrap()
}

fn at(row: i32, col: i32) -> Posn {
    Posn { row: row, col: col }
}

/// The least number of steps from `start` to an exit, by a breadth-first
/// search that knows nothing of the library's own.
fn steps_to_exit(maze: &Maze, start: Posn) -> Option<usize> {
    let rows = maze.map.len() as i32;
    let cols = maze.map[0].len() as i32;
    let mut seen = vec![vec![false; cols as usize]; rows as usize];
    let mut layer = vec![start];
    seen[start.row as usize][start.col as usize] = true;
    let mut steps = 0;
    while !layer.is_empty() {
        let mut next = vec![];
        for p in &layer {
            if maze.map[p.row as usize][p.col as usize] == Tile::Exit {
                return Some(steps);
            }
        }
        for p in &layer {
            for &(dr, dc) in &[(-1, 0), (0, 1), (1, 0), (0, -1)] {
                let (r, c) = (p.row + dr, p.col + dc);
                if r < 0 || c < 0 || r >= rows || c >= cols {
                    continue;
                }
                if seen[r as usize][c as usize] || maze.map[r as usize][c as usize] == Tile::Wall {
                    continue;
                }
                seen[r as usize][c as usize] = true;
                next.push(at(r, c));
            }
        }
        layer = next;
        steps += 1;
    }
    None
}

fn assert_way_out(maze: &Maze, start: Posn, path: &[Posn]) {
    let mut before = start;
    for (i, p) in path.iter().enumerate() {
        assert!(maze.in_bounds(p));
        assert_eq!((p.row - before.row).abs() + (p.col - before.col).abs(), 1);
        if i + 1 < path.len() {
            assert_eq!(maze.tile_at(p), Tile::Floor);
        } else {
            assert_eq!(maze.tile_at(p), Tile::Exit);
        }
        before = *p;
    }
}

#[test]
fn pathfind_end_to_end() {
    let maze = text(&[
        "#####",
        "#   X",
        "# ###",
        "#   #",
        "#####",
    ]);
    let path = pathfind(&maze, at(3, 3));
    assert_eq!(
        path,
        vec![at(3, 2), at(3, 1), at(2, 1), at(1, 1), at(1, 2), at(1, 3), at(1, 4)]
    );
}

#[test]
fn pathfind_leaves_out_the_start() {
    let maze = text(&["###", "X #", "###"]);
    assert_eq!(pathfind(&maze, at(1, 1)), vec![at(1, 0)]);
}

#[test]
fn pathfind_from_the_exit_is_empty() {
    let maze = text(&["###", "X #", "###"]);
    assert_eq!(pathfind(&maze, at(1, 0)), vec![]);
}

#[test]
fn pathfind_walled_off_is_empty() {
    let maze = text(&[
        "#######",
        "X  #  #",
        "####  #",
        "#     #",
        "#######",
    ]);
    assert_eq!(pathfind(&maze, at(3, 1)), vec![]);
    assert_eq!(pathfind(&maze, at(1, 5)), vec![]);
    assert_eq!(pathfind(&maze, at(1, 2)), vec![at(1, 1), at(1, 0)]);
}

#[test]
fn pathfind_without_an_exit_is_empty() {
    let maze = text(&["####", "#  #", "####"]);
    assert_eq!(pathfind(&maze, at(1, 1)), vec![]);
}

#[test]
fn pathfind_goes_to_the_nearest_exit() {
    let maze = text(&[
        "#########",
        "X       X",
        "#########",
    ]);
    assert_eq!(pathfind(&maze, at(1, 2)), vec![at(1, 1), at(1, 0)]);
    assert_eq!(pathfind(&maze, at(1, 6)), vec![at(1, 7), at(1, 8)]);
    assert_eq!(pathfind(&maze, at(1, 4)).len(), 4);
}

#[test]
fn pathfind_does_not_leave_the_map() {
    // Floor on the edge: the search must not step over it.
    let maze = text(&["   ", " # ", "  X"]);
    let path = pathfind(&maze, at(0, 0));
    assert_eq!(path.len(), 4);
    assert_way_out(&maze, at(0, 0), &path);
}

#[test]
fn pathfind_starts_from_inside_a_wall() {
    let maze = text(&["#####", "X # #", "#####"]);
    assert_eq!(pathfind(&maze, at(1, 2)), vec![at(1, 1), at(1, 0)]);
    assert_eq!(pathfind(&maze, at(1, 4)), vec![]);
}

#[test]
fn pathfind_does_not_change_the_maze() {
    let maze = text(&["#####", "#   X", "# ###", "#   #", "#####"]);
    let before = maze.clone();
    pathfind(&maze, at(3, 3));
    assert_eq!(maze, before);
}

#[test]
fn pathfind_matches_breadth_first_search() {
    for seed in 0..12 {
        let seed: &[usize] = &[seed, 5, 8];
        let mut rng: StdRng = SeedableRng::from_seed(seed);
        let mut maze = Maze::generate(5, 5, &mut rng).unwrap();
        // Knock a few walls out so that there is more than one way.
        for &(r, c) in &[(2, 3), (4, 5), (6, 7), (5, 2), (8, 3)] {
            maze.set_tile(at(r, c), Tile::Floor);
        }
        for row in 0..11 {
            for col in 0..11 {
                let start = at(row, col);
                let path = pathfind(&maze, start);
                assert_way_out(&maze, start, &path);
                match steps_to_exit(&maze, start) {
                    Some(steps) => assert_eq!(path.len(), steps),
                    None => assert_eq!(path.len(), 0),
                }
                if maze.tile_at(&start) == Tile::Floor {
                    assert!(path.len() > 0);
                }
            }
        }
    }
}

#[test]
fn frontier_hands_out_the_cheapest_first() {
    let mut queue = Frontier::new();
    assert_eq!(queue.pop(), None);
    for &cost in &[5u64, 1, 4, 1, 9, 0, 3] {
        queue.push(HeapEntry { cost: cost, pos: at(cost as i32, 0), from: Direction::North });
    }
    let mut costs = vec![];
    while let Some(entry) = queue.pop() {
        assert_eq!(entry.pos, at(entry.cost as i32, 0));
        costs.push(entry.cost);
    }
    assert_eq!(costs, vec![0, 1, 1, 3, 4, 5, 9]);
    assert_eq!(queue.pop(), None);
}

#[test]
fn node_starts_unsettled() {
    assert_eq!(Node::new(), Node { cost: None, from: Direction::North });
}

#[test]
fn grid_is_addressed_by_position() {
    let mut grid = Grid::new(vec![vec![1, 2, 3], vec![4, 5, 6]]);
    assert_eq!(grid[at(0, 0)], 1);
    assert_eq!(grid[at(1, 2)], 6);
    assert!(grid.has(at(1, 2)));
    assert!(!grid.has(at(2, 0)));
    assert!(!grid.has(at(0, 3)));
    assert!(!grid.has(at(-1, 0)));
    assert!(!grid.has(at(0, -1)));
    grid.set(at(1, 1), 50);
    assert_eq!(grid.0, vec![vec![1, 2, 3], vec![4, 50, 6]]);
}

#[test]
fn frontier_sorts_many_entries() {
    let mut queue = Frontier::new();
    let mut costs = vec![];
    let mut x: u64 = 12345;
    for round in 0..500 {
        x = x.wrapping_mul(6364136223846793005).wrapping_add(1442695040888963407);
        let cost = (x >> 33) % 97;
        queue.push(HeapEntry { cost: cost, pos: at(round, cost as i32), from: Direction::West });
        costs.push(cost);
        if round % 3 == 2 {
            let least = *costs.iter().min().unwrap();
            let entry = queue.pop().unwrap();
            assert_eq!(entry.cost, least);
            assert_eq!(entry.pos.col as u64, least);
            let index = costs.iter().position(|c| *c == least).unwrap();
            costs.remove(index);
        }
    }
    costs.sort();
    let mut rest = vec![];
    while let Some(entry) = queue.pop() {
        rest.push(entry.cost);
    }
    assert_eq!(rest, costs);
}
