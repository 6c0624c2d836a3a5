//! Hunt-and-kill maze generation.
//!
//! A maze of `height` by `width` cells is laid out on a tile map of
//! `2 * height + 1` rows and `2 * width + 1` columns. Cells sit at the
//! positions whose row and column are both odd; a gap sits between each two
//! cells that are side by side or one above the other. The generator opens
//! cells and gaps until the open cells form a tree that reaches every cell.

use vstd::prelude::*;
use vstd::set_lib::lemma_len_subset;
use crate::carve::{
    all_wall, candidates, carve, first_closed, gap_between, hunt_phase, is_carved, is_carved_by,
    is_first_closed, is_holding, lemma_put_agrees, lemma_tiles_agree, put, settle, tile_in, Phase,
};
use crate::dice::pick;
use crate::maze::Maze;
use crate::posn::{half_toward_zero, Adjacencies, Posn};
use crate::tile::Tile;
use crate::troll::Troll;

verus! {

/// The largest number of cells per side for which the sum of the
/// coordinates of two cells still fits the coordinates of a `Posn`.
pub const MAX_CELLS: usize = 0x2000_0000;

/// The error of `generate`: a maze needs at least one cell each way, and no
/// more than `MAX_CELLS`.
#[derive(Copy, Clone, Debug, PartialEq, Eq, Structural)]
pub struct InvalidArgument;

/// Whether a maze of `height` by `width` cells can be laid out.
pub open spec fn is_valid_size(height: int, width: int) -> bool {
    1 <= height <= MAX_CELLS && 1 <= width <= MAX_CELLS
}

/// Where the exit of a generated maze is: on the left edge, beside the
/// first cell.
pub open spec fn exit_posn() -> Posn {
    Posn { row: 1, col: 0 }
}

/// The first cell of a generated maze, from which every other is reached.
pub open spec fn root_posn() -> Posn {
    Posn { row: 1, col: 1 }
}

/// Whether `p` is the position of a cell in a maze of `h` by `w` cells.
pub open spec fn is_cell(p: Posn, h: int, w: int) -> bool {
    &&& 0 < p.row < 2 * h
    &&& 0 < p.col < 2 * w
    &&& (p.row as int) % 2 == 1
    &&& (p.col as int) % 2 == 1
}

/// Whether `p` is the position of a gap between two neighbouring cells in a
/// maze of `h` by `w` cells.
pub open spec fn is_gap(p: Posn, h: int, w: int) -> bool {
    &&& 0 < p.row < 2 * h
    &&& 0 < p.col < 2 * w
    &&& (p.row + p.col) % 2 == 1
}

/// The two cells that the gap at `g` lies between.
pub open spec fn gap_ends(g: Posn) -> (Posn, Posn) {
    if (g.row as int) % 2 == 1 {
        (g.offset(0, -1), g.offset(0, 1))
    } else {
        (g.offset(-1, 0), g.offset(1, 0))
    }
}

/// The position on the tile map of the cell with cell coordinates `cell`.
pub open spec fn centre_of(cell: Posn) -> Posn {
    Posn { row: (2 * cell.row + 1) as i32, col: (2 * cell.col + 1) as i32 }
}

/// Whether `cell` holds the cell coordinates of a cell in a maze of `h` by
/// `w` cells.
pub open spec fn in_cells(cell: Posn, h: int, w: int) -> bool {
    0 <= cell.row < h && 0 <= cell.col < w
}

/// Whether `p` comes before `q` when the map is read row by row.
pub open spec fn comes_before(p: Posn, q: Posn) -> bool {
    p.row < q.row || (p.row == q.row && p.col < q.col)
}

/// The positions of all cells of a maze of `h` by `w` cells.
pub open spec fn all_cells(h: int, w: int) -> Set<Posn> {
    Set::new(|p: Posn| is_cell(p, h, w))
}

/// The positions of the cells of row `r` in a maze `w` cells wide.
spec fn row_cells(r: int, w: int) -> Set<Posn> {
    Set::new(|p: Posn| p.row == 2 * r + 1 && 0 < p.col < 2 * w && (p.col as int) % 2 == 1)
}

proof fn lemma_row_cells(r: int, w: int)
    requires
        0 <= r,
        0 <= w,
        2 * r + 1 <= i32::MAX,
        2 * w + 1 <= i32::MAX,
    ensures
        row_cells(r, w).finite(),
        row_cells(r, w).len() == w,
    decreases w,
{
    if w == 0 {
        assert(row_cells(r, w) =~= Set::<Posn>::empty());
    } else {
        lemma_row_cells(r, w - 1);
        let last = Posn { row: (2 * r + 1) as i32, col: (2 * w - 1) as i32 };
        assert(row_cells(r, w) =~= row_cells(r, w - 1).insert(last));
    }
}

/// A maze of `h` by `w` cells has `h * w` cells.
pub proof fn lemma_all_cells(h: int, w: int)
    requires
        0 <= h,
        0 <= w,
        2 * h + 1 <= i32::MAX,
        2 * w + 1 <= i32::MAX,
    ensures
        all_cells(h, w).finite(),
        all_cells(h, w).len() == h * w,
    decreases h,
{
    if h == 0 {
        assert(all_cells(h, w) =~= Set::<Posn>::empty());
        assert(h * w == 0) by (nonlinear_arith)
            requires
                h == 0,
        ;
    } else {
        lemma_all_cells(h - 1, w);
        lemma_row_cells(h - 1, w);
        let above = all_cells(h - 1, w);
        let row = row_cells(h - 1, w);
        assert(all_cells(h, w) =~= above.union(row));
        assert(above.disjoint(row));
        vstd::set_lib::lemma_set_disjoint_lens(above, row);
        assert(h * w == (h - 1) * w + w) by (nonlinear_arith);
    }
}

impl Maze {
    /// Whether `path` is a walk over floor tiles: it is not empty, each of
    /// its positions holds floor, and each is next to the one before.
    pub open spec fn is_floor_path(&self, path: Seq<Posn>) -> bool {
        &&& path.len() >= 1
        &&& forall|i: int| 0 <= i < path.len() ==> self.holds(#[trigger] path[i], Tile::Floor)
        &&& forall|i: int|
            0 <= i < path.len() - 1 ==> (#[trigger] path[i]).adjacent(path[i + 1])
    }

    /// Whether one can walk from `a` to `b` over floor tiles.
    pub open spec fn connected(&self, a: Posn, b: Posn) -> bool {
        exists|path: Seq<Posn>|
            #[trigger] self.is_floor_path(path) && path.first() == a && path.last() == b
    }

    /// The cells that have been opened.
    pub open spec fn open_cells(&self, h: int, w: int) -> Set<Posn> {
        Set::new(|p: Posn| is_cell(p, h, w) && self.tile(p) == Tile::Floor)
    }

    /// The passages: the gaps that have been opened.
    pub open spec fn passages(&self, h: int, w: int) -> Set<Posn> {
        Set::new(|p: Posn| is_gap(p, h, w) && self.tile(p) == Tile::Floor)
    }

    /// Whether both cells beside the gap at `g` are open.
    pub open spec fn joins_open_cells(&self, g: Posn) -> bool {
        self.tile(gap_ends(g).0) == Tile::Floor && self.tile(gap_ends(g).1) == Tile::Floor
    }

    /// Whether this maze is laid out for `h` by `w` cells, with the exit in
    /// place, no other exit, and floor on cells and gaps only.
    pub open spec fn is_cell_layout(&self, h: int, w: int) -> bool {
        &&& self.wf()
        &&& 1 <= h
        &&& 1 <= w
        &&& self.rows() == 2 * h + 1
        &&& self.cols() == 2 * w + 1
        &&& self.trolls() == Map::<Posn, Troll>::empty()
        &&& forall|p: Posn|
            self.contains(p) ==> (#[trigger] self.tile(p) == Tile::Exit <==> p == exit_posn())
        &&& forall|p: Posn|
            self.contains(p) && #[trigger] self.tile(p) == Tile::Floor ==> is_cell(p, h, w)
                || is_gap(p, h, w)
    }

    /// Whether every open cell can be walked to from the first cell.
    pub open spec fn open_cells_connected(&self, h: int, w: int) -> bool {
        forall|p: Posn|
            is_cell(p, h, w) && self.tile(p) == Tile::Floor ==> #[trigger] self.connected(
                p,
                root_posn(),
            )
    }

    /// A perfect maze of `h` by `w` cells: every cell is open, the open
    /// tiles are the cells and `h * w - 1` passages between them, every
    /// cell can be walked to from the first, and the one exit lies on the
    /// left edge beside the first cell.
    ///
    /// A connected graph on `h * w` cells with `h * w - 1` passages is a
    /// tree, so there is exactly one way between any two cells.
    pub open spec fn is_perfect(&self, h: int, w: int) -> bool {
        &&& self.is_cell_layout(h, w)
        &&& forall|p: Posn| is_cell(p, h, w) ==> #[trigger] self.tile(p) == Tile::Floor
        &&& self.passages(h, w).finite()
        &&& self.passages(h, w).len() == h * w - 1
        &&& self.open_cells_connected(h, w)
    }

    /// What holds between two grafts: the open cells form a tree.
    #[verifier::opaque]
    spec fn is_tree(&self, h: int, w: int) -> bool {
        &&& self.is_cell_layout(h, w)
        &&& self.tile(root_posn()) == Tile::Floor
        &&& self.open_cells_connected(h, w)
        &&& forall|g: Posn|
            is_gap(g, h, w) && #[trigger] self.tile(g) == Tile::Floor ==> self.joins_open_cells(g)
        &&& self.passages(h, w).finite()
        &&& self.passages(h, w).len() + 1 == self.open_cells(h, w).len()
    }

    /// What holds while the cell at `curr` waits to be opened: the gap that
    /// leads to it from the open cell `anchor` is already open.
    #[verifier::opaque]
    spec fn is_grafting(&self, h: int, w: int, curr: Posn, gap: Posn, anchor: Posn) -> bool {
        &&& self.is_cell_layout(h, w)
        &&& self.tile(root_posn()) == Tile::Floor
        &&& self.open_cells_connected(h, w)
        &&& is_cell(curr, h, w)
        &&& self.tile(curr) == Tile::Wall
        &&& is_cell(anchor, h, w)
        &&& self.tile(anchor) == Tile::Floor
        &&& is_gap(gap, h, w)
        &&& self.tile(gap) == Tile::Floor
        &&& gap_ends(gap) == (curr, anchor) || gap_ends(gap) == (anchor, curr)
        &&& forall|g: Posn|
            is_gap(g, h, w) && #[trigger] self.tile(g) == Tile::Floor && g != gap
                ==> self.joins_open_cells(g)
        &&& self.passages(h, w).finite()
        &&& self.passages(h, w).len() == self.open_cells(h, w).len()
    }

    /// Whether all cells above cell row `row` are open.
    #[verifier::opaque]
    spec fn rows_open_above(&self, h: int, w: int, row: int) -> bool {
        forall|p: Posn| is_cell(p, h, w) && p.row < 2 * row ==> #[trigger] self.tile(p) == Tile::Floor
    }
}

/// A walk over floor tiles stays one when another tile is opened.
proof fn lemma_path_survives(before: &Maze, after: &Maze, pos: Posn, path: Seq<Posn>)
    requires
        before.wf(),
        after.is_update_of(before, pos, Tile::Floor),
        before.is_floor_path(path),
    ensures
        after.is_floor_path(path),
{
    assert forall|i: int| 0 <= i < path.len() implies after.holds(#[trigger] path[i], Tile::Floor) by {
        assert(before.holds(path[i], Tile::Floor));
    }
}

/// Cells that could be walked to still can be once another tile is opened.
proof fn lemma_connections_survive(before: &Maze, after: &Maze, pos: Posn, h: int, w: int)
    requires
        before.wf(),
        after.is_update_of(before, pos, Tile::Floor),
    ensures
        forall|p: Posn|
            before.connected(p, root_posn()) ==> #[trigger] after.connected(p, root_posn()),
{
    assert forall|p: Posn| before.connected(p, root_posn()) implies #[trigger] after.connected(
        p,
        root_posn(),
    ) by {
        let path = choose|path: Seq<Posn>|
            #[trigger] before.is_floor_path(path) && path.first() == p && path.last()
                == root_posn();
        lemma_path_survives(before, after, pos, path);
    }
}

/// Opening the gap between a closed cell and an open neighbour of it.
proof fn lemma_open_gap(
    before: &Maze,
    after: &Maze,
    h: int,
    w: int,
    curr: Posn,
    gap: Posn,
    anchor: Posn,
)
    requires
        before.is_tree(h, w),
        is_cell(curr, h, w),
        before.tile(curr) == Tile::Wall,
        is_cell(anchor, h, w),
        before.tile(anchor) == Tile::Floor,
        is_gap(gap, h, w),
        gap_ends(gap) == (curr, anchor) || gap_ends(gap) == (anchor, curr),
        after.is_update_of(before, gap, Tile::Floor),
    ensures
        after.is_grafting(h, w, curr, gap, anchor),
        after.open_cells(h, w) == before.open_cells(h, w),
        !before.open_cells(h, w).contains(curr),
        before.open_cells(h, w).finite(),
        before.open_cells(h, w).len() < h * w,
{
    reveal(Maze::is_tree);
    reveal(Maze::is_grafting);
    lemma_cells_left(before, h, w, curr);
    lemma_connections_survive(before, after, gap, h, w);
    assert(!before.joins_open_cells(gap));
    assert(before.tile(gap) != Tile::Floor);
    assert(after.open_cells(h, w) =~= before.open_cells(h, w));
    assert(after.passages(h, w) =~= before.passages(h, w).insert(gap));
    assert forall|g: Posn|
        is_gap(g, h, w) && #[trigger] after.tile(g) == Tile::Floor && g != gap
        implies after.joins_open_cells(g) by {
        assert(before.tile(g) == Tile::Floor);
        assert(before.joins_open_cells(g));
    }
    assert forall|p: Posn|
        is_cell(p, h, w) && after.tile(p) == Tile::Floor implies #[trigger] after.connected(
        p,
        root_posn(),
    ) by {
        assert(before.tile(p) == Tile::Floor);
        assert(before.connected(p, root_posn()));
    }
}

/// A cell next to an open gap that leads on to a connected cell is connected
/// once it is opened.
proof fn lemma_graft_connects(before: &Maze, after: &Maze, curr: Posn, gap: Posn, anchor: Posn)
    requires
        before.wf(),
        after.is_update_of(before, curr, Tile::Floor),
        before.connected(anchor, root_posn()),
        before.holds(gap, Tile::Floor),
        gap != curr,
        curr.adjacent(gap),
        gap.adjacent(anchor),
    ensures
        after.connected(curr, root_posn()),
{
    let tail = choose|path: Seq<Posn>|
        #[trigger] before.is_floor_path(path) && path.first() == anchor && path.last()
            == root_posn();
    lemma_path_survives(before, after, curr, tail);
    let path = seq![curr, gap] + tail;
    assert(path[0] == curr);
    assert(path[1] == gap);
    assert(after.holds(gap, Tile::Floor));
    assert forall|i: int| 0 <= i < path.len() implies after.holds(
        #[trigger] path[i],
        Tile::Floor,
    ) by {
        if i >= 2 {
            assert(path[i] == tail[i - 2]);
        }
    }
    assert forall|i: int| 0 <= i < path.len() - 1 implies (#[trigger] path[i]).adjacent(
        path[i + 1],
    ) by {
        if i >= 2 {
            assert(path[i] == tail[i - 2]);
            assert(path[i + 1] == tail[i - 1]);
        } else if i == 1 {
            assert(path[2] == tail[0]);
        }
    }
    assert(after.is_floor_path(path));
    assert(path.first() == curr);
    assert(path.last() == tail.last());
}

/// Opening the cell that a graft leads to.
proof fn lemma_open_cell(
    before: &Maze,
    after: &Maze,
    h: int,
    w: int,
    curr: Posn,
    gap: Posn,
    anchor: Posn,
)
    requires
        before.is_grafting(h, w, curr, gap, anchor),
        after.is_update_of(before, curr, Tile::Floor),
    ensures
        after.is_tree(h, w),
        after.open_cells(h, w) == before.open_cells(h, w).insert(curr),
        !before.open_cells(h, w).contains(curr),
        before.open_cells(h, w).finite(),
        after.open_cells(h, w).len() == before.open_cells(h, w).len() + 1,
        after.open_cells(h, w).len() <= h * w,
{
    reveal(Maze::is_tree);
    reveal(Maze::is_grafting);
    lemma_cells_left(before, h, w, curr);
    assert(after.open_cells(h, w) =~= before.open_cells(h, w).insert(curr));
    assert(after.passages(h, w) =~= before.passages(h, w));
    assert(before.open_cells(h, w).finite()) by {
        lemma_all_cells(h, w);
        assert(before.open_cells(h, w).subset_of(all_cells(h, w)));
        lemma_len_subset(before.open_cells(h, w), all_cells(h, w));
    }
    assert forall|g: Posn|
        is_gap(g, h, w) && #[trigger] after.tile(g) == Tile::Floor implies after.joins_open_cells(
        g,
    ) by {
        assert(before.tile(g) == Tile::Floor);
        if g != gap {
            assert(before.joins_open_cells(g));
        }
    }
    assert(after.open_cells_connected(h, w)) by {
        lemma_connections_survive(before, after, curr, h, w);
        assert(before.connected(anchor, root_posn()));
        lemma_graft_connects(before, after, curr, gap, anchor);
        assert forall|p: Posn|
            is_cell(p, h, w) && after.tile(p) == Tile::Floor implies #[trigger] after.connected(
            p,
            root_posn(),
        ) by {
            if p != curr {
                assert(before.tile(p) == Tile::Floor);
                assert(before.connected(p, root_posn()));
            }
        }
    }
}

/// A row of `len` wall tiles.
fn wall_row(len: usize) -> (row: Vec<Tile>)
    ensures
        row@.len() == len,
        forall|i: int| 0 <= i < len ==> row@[i] == Tile::Wall,
{
    let mut row: Vec<Tile> = Vec::new();
    while row.len() < len
        invariant
            row@.len() <= len,
            forall|i: int| 0 <= i < row@.len() ==> row@[i] == Tile::Wall,
        decreases len - row@.len(),
    {
        row.push(Tile::Wall);
    }
    row
}

/// A map of `rows` by `cols` wall tiles.
fn wall_map(rows: usize, cols: usize) -> (map: Vec<Vec<Tile>>)
    ensures
        map@.len() == rows,
        forall|r: int| 0 <= r < rows ==> (#[trigger] map@[r])@.len() == cols,
        forall|r: int, c: int| 0 <= r < rows && 0 <= c < cols ==> map@[r]@[c] == Tile::Wall,
{
    let mut map: Vec<Vec<Tile>> = Vec::new();
    while map.len() < rows
        invariant
            map@.len() <= rows,
            forall|r: int| 0 <= r < map@.len() ==> (#[trigger] map@[r])@.len() == cols,
            forall|r: int, c: int| 0 <= r < map@.len() && 0 <= c < cols ==> map@[r]@[c] == Tile::Wall,
        decreases rows - map@.len(),
    {
        map.push(wall_row(cols));
    }
    map
}

/// The position on the tile map of the cell with cell coordinates `cell`.
fn centre(cell: Posn) -> (c: Posn)
    requires
        0 <= cell.row < MAX_CELLS,
        0 <= cell.col < MAX_CELLS,
    ensures
        c == centre_of(cell),
{
    Posn { row: 2 * cell.row + 1, col: 2 * cell.col + 1 }
}

/// The first closed cell at or below cell row `finished_row`, reading row
/// by row, in cell coordinates.
fn hunt(maze: &Maze, height: usize, width: usize, finished_row: usize) -> (found: Option<Posn>)
    requires
        maze.wf(),
        1 <= height <= MAX_CELLS,
        1 <= width <= MAX_CELLS,
        maze.rows() == 2 * height + 1,
        maze.cols() == 2 * width + 1,
        finished_row <= height,
    ensures
        match found {
            Some(cell) => {
                &&& in_cells(cell, height as int, width as int)
                &&& finished_row <= cell.row
                &&& maze.tile(centre_of(cell)) == Tile::Wall
                &&& forall|p: Posn|
                    is_cell(p, height as int, width as int) && 2 * finished_row < p.row
                        && comes_before(p, centre_of(cell)) ==> #[trigger] maze.tile(p)
                        != Tile::Wall
            },
            None => forall|p: Posn|
                is_cell(p, height as int, width as int) && 2 * finished_row < p.row
                    ==> #[trigger] maze.tile(p) != Tile::Wall,
        },
{
    let mut row: usize = finished_row;
    while row < height
        invariant
            maze.wf(),
            1 <= height <= MAX_CELLS,
            1 <= width <= MAX_CELLS,
            maze.rows() == 2 * height + 1,
            maze.cols() == 2 * width + 1,
            finished_row <= row <= height,
            forall|p: Posn|
                is_cell(p, height as int, width as int) && 2 * finished_row < p.row < 2 * row
                    ==> #[trigger] maze.tile(p) != Tile::Wall,
        decreases height - row,
    {
        let mut col: usize = 0;
        while col < width
            invariant
                maze.wf(),
                1 <= height <= MAX_CELLS,
                1 <= width <= MAX_CELLS,
                maze.rows() == 2 * height + 1,
                maze.cols() == 2 * width + 1,
                finished_row <= row < height,
                col <= width,
                forall|p: Posn|
                    is_cell(p, height as int, width as int) && 2 * finished_row < p.row < 2 * row
                        ==> #[trigger] maze.tile(p) != Tile::Wall,
                forall|p: Posn|
                    is_cell(p, height as int, width as int) && p.row == 2 * row + 1 && p.col < 2
                        * col ==> #[trigger] maze.tile(p) != Tile::Wall,
            decreases width - col,
        {
            let cell = Posn { row: row as i32, col: col as i32 };
            if maze.tile_at(&centre(cell)) == Tile::Wall {
                return Some(cell);
            }
            col += 1;
        }
        row += 1;
    }
    None
}

/// The cells beside `cell` whose tile is `want`, in cell coordinates and in
/// the order north, east, south, west.
fn neighbours(maze: &Maze, height: usize, width: usize, cell: Posn, want: Tile) -> (found: Vec<Posn>)
    requires
        maze.wf(),
        1 <= height <= MAX_CELLS,
        1 <= width <= MAX_CELLS,
        maze.rows() == 2 * height + 1,
        maze.cols() == 2 * width + 1,
        in_cells(cell, height as int, width as int),
    ensures
        found@ == candidates(maze.tiles(), height as int, width as int, cell, want),
        forall|i: int|
            0 <= i < found@.len() ==> {
                &&& in_cells(#[trigger] found@[i], height as int, width as int)
                &&& cell.adjacent(found@[i])
                &&& maze.tile(centre_of(found@[i])) == want
            },
        forall|n: Posn|
            in_cells(n, height as int, width as int) && cell.adjacent(n) && maze.tile(
                centre_of(n),
            ) == want ==> #[trigger] found@.contains(n),
{
    let mut it = Adjacencies::new(cell);
    let mut found: Vec<Posn> = Vec::new();
    let upper_left = Posn { row: 0, col: 0 };
    let lower_right = Posn { row: height as i32, col: width as i32 };
    loop
        invariant
            maze.wf(),
            1 <= height <= MAX_CELLS,
            1 <= width <= MAX_CELLS,
            maze.rows() == 2 * height + 1,
            maze.cols() == 2 * width + 1,
            in_cells(cell, height as int, width as int),
            upper_left == (Posn { row: 0, col: 0 }),
            lower_right == (Posn { row: height as i32, col: width as i32 }),
            it.origin() == cell,
            it.remaining().len() <= 4,
            found@ == cell.neighbours().take(4 - it.remaining().len()).filter(
                is_holding(maze.tiles(), height as int, width as int, want),
            ),
            forall|j: int|
                0 <= j < it.remaining().len() ==> it.remaining()[j] == cell.neighbours()[j + 4
                    - it.remaining().len()],
            forall|i: int|
                0 <= i < found@.len() ==> {
                    &&& in_cells(#[trigger] found@[i], height as int, width as int)
                    &&& cell.adjacent(found@[i])
                    &&& maze.tile(centre_of(found@[i])) == want
                },
            forall|j: int|
                #![trigger cell.neighbours()[j]]
                0 <= j < 4 - it.remaining().len() && in_cells(
                    cell.neighbours()[j],
                    height as int,
                    width as int,
                ) && maze.tile(centre_of(cell.neighbours()[j])) == want ==> found@.contains(
                    cell.neighbours()[j],
                ),
        ensures
            it.remaining().len() == 0,
            found@ == cell.neighbours().take(4).filter(
                is_holding(maze.tiles(), height as int, width as int, want),
            ),
            forall|i: int|
                0 <= i < found@.len() ==> {
                    &&& in_cells(#[trigger] found@[i], height as int, width as int)
                    &&& cell.adjacent(found@[i])
                    &&& maze.tile(centre_of(found@[i])) == want
                },
            forall|j: int|
                #![trigger cell.neighbours()[j]]
                0 <= j < 4 && in_cells(cell.neighbours()[j], height as int, width as int)
                    && maze.tile(centre_of(cell.neighbours()[j])) == want ==> found@.contains(
                    cell.neighbours()[j],
                ),
        decreases it.remaining().len(),
    {
        let ghost before = it.remaining();
        let ghost had = found@;
        match it.next() {
            None => {
                break ;
            },
            Some(p) => {
                let ghost j = 4 - before.len();
                assert(p == cell.neighbours()[j]);
                assert(cell.adjacent(p));
                proof {
                    let pred = is_holding(maze.tiles(), height as int, width as int, want);
                    if in_cells(p, height as int, width as int) {
                        lemma_tiles_agree(maze, centre_of(p));
                    }
                    let upto = cell.neighbours().take(j + 1);
                    assert(upto.len() == j + 1);
                    assert(upto.drop_last() == cell.neighbours().take(j));
                    assert(upto.last() == p);
                    reveal_with_fuel(Seq::filter, 2);
                    assert(upto.filter(pred) == if pred(p) {
                        had.push(p)
                    } else {
                        had
                    });
                    assert(pred(p) == (in_cells(p, height as int, width as int) && maze.tile(
                        centre_of(p),
                    ) == want));
                }
                if p.inside(upper_left, lower_right) && maze.tile_at(&centre(p)) == want {
                    found.push(p);
                    assert(found@.last() == p);
                    assert forall|k: int| 0 <= k < had.len() implies found@[k] == had[k] by {}
                    assert forall|n: Posn| had.contains(n) implies found@.contains(n) by {
                        let k = choose|k: int| 0 <= k < had.len() && had[k] == n;
                        assert(found@[k] == n);
                    }
                    assert(found@.contains(p)) by {
                        assert(found@[found@.len() - 1] == p);
                    }
                }
            },
        }
    }
    assert(cell.neighbours().take(4) == cell.neighbours());
    assert forall|n: Posn|
        in_cells(n, height as int, width as int) && cell.adjacent(n) && maze.tile(centre_of(n))
            == want implies #[trigger] found@.contains(n) by {
        let ns = cell.neighbours();
        assert(n == ns[0] || n == ns[1] || n == ns[2] || n == ns[3]);
    }
    found
}

/// The gap between two cells that lie side by side or one above the other.
proof fn lemma_gap_between(h: int, w: int, a: Posn, b: Posn)
    requires
        in_cells(a, h, w),
        in_cells(b, h, w),
        a.adjacent(b),
        2 * h + 1 <= i32::MAX,
        2 * w + 1 <= i32::MAX,
    ensures
        ({
            let gap = Posn {
                row: half_toward_zero(centre_of(a).row + centre_of(b).row) as i32,
                col: half_toward_zero(centre_of(a).col + centre_of(b).col) as i32,
            };
            &&& is_gap(gap, h, w)
            &&& is_cell(centre_of(a), h, w)
            &&& is_cell(centre_of(b), h, w)
            &&& gap_ends(gap) == (centre_of(a), centre_of(b)) || gap_ends(gap) == (
                centre_of(b),
                centre_of(a),
            )
        }),
{
}

/// While some cell is closed, fewer than all cells are open.
proof fn lemma_cells_left(maze: &Maze, h: int, w: int, closed: Posn)
    requires
        0 <= h,
        0 <= w,
        2 * h + 1 <= i32::MAX,
        2 * w + 1 <= i32::MAX,
        is_cell(closed, h, w),
        maze.tile(closed) != Tile::Floor,
    ensures
        maze.open_cells(h, w).finite(),
        maze.open_cells(h, w).len() < h * w,
{
    lemma_all_cells(h, w);
    let open = maze.open_cells(h, w);
    assert(open.subset_of(all_cells(h, w)));
    lemma_len_subset(open, all_cells(h, w));
    assert(all_cells(h, w).contains(closed));
    assert(!open.contains(closed));
    if open.len() == h * w {
        vstd::set_lib::lemma_subset_equality(open, all_cells(h, w));
    }
}

/// The maze as the generator starts from it: all wall but for the exit and
/// the first cell.
proof fn lemma_first_cell(maze: &Maze, h: int, w: int)
    requires
        maze.wf(),
        1 <= h,
        1 <= w,
        2 * h + 1 <= i32::MAX,
        2 * w + 1 <= i32::MAX,
        maze.rows() == 2 * h + 1,
        maze.cols() == 2 * w + 1,
        maze.trolls() == Map::<Posn, Troll>::empty(),
        forall|p: Posn|
            maze.contains(p) ==> #[trigger] maze.tile(p) == (if p == exit_posn() {
                Tile::Exit
            } else if p == root_posn() {
                Tile::Floor
            } else {
                Tile::Wall
            }),
    ensures
        maze.is_tree(h, w),
        maze.rows_open_above(h, w, 0),
{
    reveal(Maze::is_tree);
    reveal(Maze::rows_open_above);
    assert(maze.contains(root_posn()));
    assert(maze.contains(exit_posn()));
    assert(maze.open_cells(h, w) =~= Set::<Posn>::empty().insert(root_posn()));
    assert(maze.passages(h, w) =~= Set::<Posn>::empty());
    assert(maze.connected(root_posn(), root_posn())) by {
        let path = seq![root_posn()];
        assert(maze.is_floor_path(path));
        assert(path.first() == root_posn() && path.last() == root_posn());
    }
    assert forall|p: Posn|
        is_cell(p, h, w) && maze.tile(p) == Tile::Floor implies #[trigger] maze.connected(
        p,
        root_posn(),
    ) by {
        assert(p == root_posn());
    }
}

/// When the hunt finds no closed cell, the maze is complete.
proof fn lemma_hunt_over(maze: &Maze, h: int, w: int, finished_row: int)
    requires
        2 * h + 1 <= i32::MAX,
        2 * w + 1 <= i32::MAX,
        maze.is_tree(h, w),
        maze.rows_open_above(h, w, finished_row),
        forall|p: Posn|
            is_cell(p, h, w) && 2 * finished_row < p.row ==> #[trigger] maze.tile(p) != Tile::Wall,
    ensures
        maze.is_perfect(h, w),
{
    reveal(Maze::is_tree);
    reveal(Maze::rows_open_above);
    assert forall|p: Posn| is_cell(p, h, w) implies #[trigger] maze.tile(p) == Tile::Floor by {
        if p.row < 2 * finished_row {
        } else {
            assert(maze.tile(p) != Tile::Wall);
            assert(p != exit_posn());
        }
    }
    assert(maze.open_cells(h, w) =~= all_cells(h, w));
    lemma_all_cells(h, w);
}

/// The closed cell that the hunt finds has an open cell beside it: the one
/// to its left or, at the start of a row, the one above. All rows above it
/// are open.
proof fn lemma_hunt_found(maze: &Maze, h: int, w: int, finished_row: int, curr: Posn) -> (beside:
    Posn)
    requires
        2 * h + 1 <= i32::MAX,
        2 * w + 1 <= i32::MAX,
        maze.is_tree(h, w),
        maze.rows_open_above(h, w, finished_row),
        in_cells(curr, h, w),
        finished_row <= curr.row,
        maze.tile(centre_of(curr)) == Tile::Wall,
        forall|p: Posn|
            is_cell(p, h, w) && 2 * finished_row < p.row && comes_before(p, centre_of(curr))
                ==> #[trigger] maze.tile(p) != Tile::Wall,
    ensures
        maze.rows_open_above(h, w, curr.row as int),
        in_cells(beside, h, w),
        curr.adjacent(beside),
        maze.tile(centre_of(beside)) == Tile::Floor,
{
    reveal(Maze::is_tree);
    reveal(Maze::rows_open_above);
    assert forall|p: Posn|
        is_cell(p, h, w) && p.row < 2 * curr.row implies #[trigger] maze.tile(p)
        == Tile::Floor by {
        if p.row < 2 * finished_row {
        } else {
            assert(maze.tile(p) != Tile::Wall);
            assert(p != exit_posn());
        }
    }
    let beside = if curr.col > 0 {
        Posn { row: curr.row, col: (curr.col - 1) as i32 }
    } else {
        Posn { row: (curr.row - 1) as i32, col: curr.col }
    };
    assert(centre_of(curr) != root_posn());
    assert(is_cell(centre_of(beside), h, w));
    if centre_of(beside).row < 2 * finished_row {
    } else {
        assert(comes_before(centre_of(beside), centre_of(curr)));
        assert(maze.tile(centre_of(beside)) != Tile::Wall);
        assert(centre_of(beside) != exit_posn());
    }
    beside
}

/// Rows that are open stay open when another tile is opened.
proof fn lemma_rows_stay_open(before: &Maze, after: &Maze, pos: Posn, h: int, w: int, row: int)
    requires
        before.wf(),
        before.rows() == 2 * h + 1,
        before.cols() == 2 * w + 1,
        after.is_update_of(before, pos, Tile::Floor),
        before.rows_open_above(h, w, row),
    ensures
        after.rows_open_above(h, w, row),
{
    reveal(Maze::rows_open_above);
    assert forall|p: Posn| is_cell(p, h, w) && p.row < 2 * row implies #[trigger] after.tile(p)
        == Tile::Floor by {
        if p != pos {
            assert(before.tile(p) == Tile::Floor);
        }
    }
}

/// What the generator's invariants say of the map's shape.
proof fn lemma_shape(maze: &Maze, h: int, w: int)
    ensures
        maze.is_tree(h, w) ==> maze.is_cell_layout(h, w),
        forall|curr: Posn, gap: Posn, anchor: Posn| #[trigger]
            maze.is_grafting(h, w, curr, gap, anchor) ==> maze.is_cell_layout(h, w) && maze.tile(
                curr,
            ) == Tile::Wall,
{
    reveal(Maze::is_tree);
    reveal(Maze::is_grafting);
}

/// What holds between two grafts: the maze is what the picks so far make,
/// and a hunt is under way.
#[verifier::opaque]
spec fn is_hunting(maze: &Maze, h: int, w: int, picks: Seq<int>) -> bool {
    &&& carve(h, w, picks).tiles == maze.tiles()
    &&& carve(h, w, picks).phase == hunt_phase(maze.tiles(), h, w)
}

/// What holds while the cell `curr` waits to be opened: once it is open,
/// the maze is what the picks so far make, and the walk has come to
/// `curr`.
#[verifier::opaque]
spec fn is_entering(maze: &Maze, h: int, w: int, picks: Seq<int>, curr: Posn) -> bool {
    &&& put(maze.tiles(), centre_of(curr), Tile::Floor) == carve(h, w, picks).tiles
    &&& carve(h, w, picks).phase == settle(carve(h, w, picks).tiles, h, w, curr)
}

/// What holds once the cell `curr` is open: the maze is what the picks so
/// far make, and the walk has come to `curr`.
#[verifier::opaque]
spec fn is_standing(maze: &Maze, h: int, w: int, picks: Seq<int>, curr: Posn) -> bool {
    &&& carve(h, w, picks).tiles == maze.tiles()
    &&& carve(h, w, picks).phase == settle(maze.tiles(), h, w, curr)
}

/// The maze as the generator starts from it is what no picks make.
proof fn lemma_carve_begins(maze: &Maze, h: int, w: int)
    requires
        maze.wf(),
        1 <= h,
        1 <= w,
        maze.rows() == 2 * h + 1,
        maze.cols() == 2 * w + 1,
        forall|p: Posn|
            maze.contains(p) ==> #[trigger] maze.tile(p) == (if p == exit_posn() {
                Tile::Exit
            } else if p == root_posn() {
                Tile::Floor
            } else {
                Tile::Wall
            }),
    ensures
        is_hunting(maze, h, w, Seq::empty()),
{
    reveal(is_hunting);
    let tiles = put(put(all_wall(h, w), exit_posn(), Tile::Exit), root_posn(), Tile::Floor);
    assert(maze.tiles().len() == tiles.len());
    assert forall|r: int| 0 <= r < tiles.len() implies #[trigger] maze.tiles()[r] == tiles[r] by {
        assert(maze.map@[r]@.len() == maze.map@[0]@.len());
        assert forall|c: int| 0 <= c < tiles[r].len() implies #[trigger] maze.tiles()[r][c]
            == tiles[r][c] by {
            let p = Posn { row: r as i32, col: c as i32 };
            assert(maze.contains(p));
            assert(maze.tile(p) == maze.tiles()[r][c]);
        }
        assert(maze.tiles()[r] =~= tiles[r]);
    }
    assert(maze.tiles() =~= tiles);
}

/// The closed cell that the hunt finds is the first closed cell of the
/// maze.
proof fn lemma_hunt_is_first(maze: &Maze, h: int, w: int, finished_row: int, curr: Posn)
    requires
        2 * h + 1 <= i32::MAX,
        2 * w + 1 <= i32::MAX,
        maze.is_tree(h, w),
        maze.rows_open_above(h, w, finished_row),
        in_cells(curr, h, w),
        finished_row <= curr.row,
        maze.tile(centre_of(curr)) == Tile::Wall,
        forall|p: Posn|
            is_cell(p, h, w) && 2 * finished_row < p.row && comes_before(p, centre_of(curr))
                ==> #[trigger] maze.tile(p) != Tile::Wall,
    ensures
        first_closed(maze.tiles(), h, w) == Some(curr),
{
    reveal(Maze::is_tree);
    reveal(Maze::rows_open_above);
    let tiles = maze.tiles();
    lemma_tiles_agree(maze, centre_of(curr));
    assert forall|other: Posn| in_cells(other, h, w) && comes_before(other, curr) implies tile_in(
        tiles,
        #[trigger] centre_of(other),
    ) != Tile::Wall by {
        let p = centre_of(other);
        assert(is_cell(p, h, w));
        lemma_tiles_agree(maze, p);
        if p.row < 2 * finished_row {
            assert(maze.tile(p) == Tile::Floor);
        } else {
            assert(comes_before(p, centre_of(curr)));
            assert(maze.tile(p) != Tile::Wall);
        }
    }
    assert(is_first_closed(tiles, h, w, curr));
    let first = choose|cell: Posn| is_first_closed(tiles, h, w, cell);
    assert(is_first_closed(tiles, h, w, first));
    if first != curr {
        if comes_before(first, curr) {
            assert(tile_in(tiles, centre_of(first)) != Tile::Wall);
        } else {
            assert(comes_before(curr, first));
            assert(tile_in(tiles, centre_of(curr)) != Tile::Wall);
        }
    }
}

/// When the hunt finds no closed cell, the maze has none.
proof fn lemma_hunt_finds_none(maze: &Maze, h: int, w: int, finished_row: int)
    requires
        2 * h + 1 <= i32::MAX,
        2 * w + 1 <= i32::MAX,
        maze.is_tree(h, w),
        maze.rows_open_above(h, w, finished_row),
        forall|p: Posn|
            is_cell(p, h, w) && 2 * finished_row < p.row ==> #[trigger] maze.tile(p) != Tile::Wall,
    ensures
        first_closed(maze.tiles(), h, w) is None,
{
    reveal(Maze::is_tree);
    reveal(Maze::rows_open_above);
    let tiles = maze.tiles();
    assert forall|cell: Posn| !is_first_closed(tiles, h, w, cell) by {
        if in_cells(cell, h, w) {
            let p = centre_of(cell);
            assert(is_cell(p, h, w));
            lemma_tiles_agree(maze, p);
            if p.row < 2 * finished_row {
                assert(maze.tile(p) == Tile::Floor);
            } else {
                assert(maze.tile(p) != Tile::Wall);
            }
        }
    }
}

/// Opening the gap that grafts the hunted cell `cell` onto the neighbour
/// picked.
proof fn lemma_carve_grafts(
    before: &Maze,
    after: &Maze,
    h: int,
    w: int,
    picks: Seq<int>,
    cell: Posn,
    pick: int,
    gap: Posn,
)
    requires
        before.wf(),
        is_hunting(before, h, w, picks),
        first_closed(before.tiles(), h, w) == Some(cell),
        0 <= pick < candidates(before.tiles(), h, w, cell, Tile::Floor).len(),
        gap == gap_between(candidates(before.tiles(), h, w, cell, Tile::Floor)[pick], cell),
        after.is_update_of(before, gap, Tile::Floor),
    ensures
        is_entering(after, h, w, picks.push(pick), cell),
{
    reveal(is_hunting);
    reveal(is_entering);
    lemma_put_agrees(before, after, gap, Tile::Floor);
    assert(picks.push(pick).drop_last() =~= picks);
    assert(picks.push(pick).last() == pick);
}

/// Opening the cell that the walk has come to.
proof fn lemma_carve_opens(
    before: &Maze,
    after: &Maze,
    h: int,
    w: int,
    picks: Seq<int>,
    curr: Posn,
)
    requires
        before.wf(),
        is_entering(before, h, w, picks, curr),
        after.is_update_of(before, centre_of(curr), Tile::Floor),
    ensures
        is_standing(after, h, w, picks, curr),
{
    reveal(is_entering);
    reveal(is_standing);
    lemma_put_agrees(before, after, centre_of(curr), Tile::Floor);
}

/// Opening the gap to the closed neighbour picked for the walk to go on to.
proof fn lemma_carve_walks(
    before: &Maze,
    after: &Maze,
    h: int,
    w: int,
    picks: Seq<int>,
    curr: Posn,
    pick: int,
    gap: Posn,
)
    requires
        before.wf(),
        is_standing(before, h, w, picks, curr),
        0 <= pick < candidates(before.tiles(), h, w, curr, Tile::Wall).len(),
        gap == gap_between(curr, candidates(before.tiles(), h, w, curr, Tile::Wall)[pick]),
        after.is_update_of(before, gap, Tile::Floor),
    ensures
        is_entering(
            after,
            h,
            w,
            picks.push(pick),
            candidates(before.tiles(), h, w, curr, Tile::Wall)[pick],
        ),
{
    reveal(is_standing);
    reveal(is_entering);
    lemma_put_agrees(before, after, gap, Tile::Floor);
    assert(picks.push(pick).drop_last() =~= picks);
    assert(picks.push(pick).last() == pick);
}

/// With no closed cell beside it, the walk ends and the hunt goes on.
proof fn lemma_carve_hunts(maze: &Maze, h: int, w: int, picks: Seq<int>, curr: Posn)
    requires
        is_standing(maze, h, w, picks, curr),
        candidates(maze.tiles(), h, w, curr, Tile::Wall).len() == 0,
    ensures
        is_hunting(maze, h, w, picks),
{
    reveal(is_standing);
    reveal(is_hunting);
}

/// With no closed cell left, the maze is what the picks make.
proof fn lemma_carve_ends(maze: &Maze, h: int, w: int, picks: Seq<int>)
    requires
        is_hunting(maze, h, w, picks),
        first_closed(maze.tiles(), h, w) is None,
    ensures
        is_carved_by(maze, h, w, picks),
{
    reveal(is_hunting);
}

impl Maze {
    /// Generates a perfect maze of `height` by `width` cells by hunt and
    /// kill, drawing from `rng` wherever there is a choice.
    ///
    /// Fails if either dimension is zero, or so large that positions could
    /// not address the tile map. Which of the perfect mazes comes out is up
    /// to the random source, and to nothing else: the maze is what `carve`
    /// makes of the picks that were drawn.
    pub fn generate(height: usize, width: usize, rng: &mut rand::StdRng) -> (made: Result<
        Maze,
        InvalidArgument,
    >)
        ensures
            made is Ok <==> is_valid_size(height as int, width as int),
            height < 1 || width < 1 ==> made is Err,
            made matches Ok(maze) ==> maze.is_perfect(height as int, width as int),
            made matches Ok(maze) ==> is_carved(&maze, height as int, width as int),
    {
        if height < 1 || width < 1 {
            return Err(InvalidArgument);
        }
        if height > MAX_CELLS || width > MAX_CELLS {
            return Err(InvalidArgument);
        }
        let ghost h = height as int;
        let ghost w = width as int;
        let ghost mut picks: Seq<int> = Seq::empty();
        let mut maze = Maze::new(wall_map(2 * height + 1, 2 * width + 1));
        // Initialize the exit.
        maze.set_tile(Posn { row: 1, col: 0 }, Tile::Exit);
        maze.set_tile(Posn { row: 1, col: 1 }, Tile::Floor);
        proof {
            lemma_first_cell(&maze, h, w);
            lemma_carve_begins(&maze, h, w);
        }
        let mut finished_row: usize = 0;
        loop
            invariant_except_break
                1 <= height <= MAX_CELLS,
                1 <= width <= MAX_CELLS,
                h == height as int,
                w == width as int,
                finished_row <= height,
                maze.is_tree(h, w),
                maze.rows_open_above(h, w, finished_row as int),
                is_hunting(&maze, h, w, picks),
            ensures
                maze.is_perfect(h, w),
                is_carved_by(&maze, h, w, picks),
            decreases h * w - maze.open_cells(h, w).len(),
        {
            let ghost at_hunt = maze;
            proof {
                lemma_shape(&maze, h, w);
            }
            let curr = hunt(&maze, height, width, finished_row);
            let mut curr = match curr {
                None => {
                    proof {
                        lemma_hunt_over(&maze, h, w, finished_row as int);
                        lemma_hunt_finds_none(&maze, h, w, finished_row as int);
                        lemma_carve_ends(&maze, h, w, picks);
                    }
                    break ;
                },
                Some(cell) => cell,
            };
            let ads = neighbours(&maze, height, width, curr, Tile::Floor);
            proof {
                let beside = lemma_hunt_found(&maze, h, w, finished_row as int, curr);
                assert(ads@.contains(beside));
                lemma_hunt_is_first(&maze, h, w, finished_row as int, curr);
            }
            finished_row = curr.row as usize;
            let starting_from = pick(rng, &ads).unwrap();
            let ghost picked = choose|i: int| 0 <= i < ads@.len() && ads@[i] == starting_from;
            proof {
                lemma_gap_between(h, w, curr, starting_from);
            }
            let wall = centre(curr).average(centre(starting_from));
            let ghost mut gap = wall;
            let ghost mut anchor = centre_of(starting_from);
            maze.set_tile(wall, Tile::Floor);
            proof {
                lemma_open_gap(&at_hunt, &maze, h, w, centre_of(curr), gap, anchor);
                lemma_rows_stay_open(&at_hunt, &maze, wall, h, w, finished_row as int);
                lemma_carve_grafts(&at_hunt, &maze, h, w, picks, curr, picked, wall);
                picks = picks.push(picked);
            }
            loop
                invariant_except_break
                    1 <= height <= MAX_CELLS,
                    1 <= width <= MAX_CELLS,
                    h == height as int,
                    w == width as int,
                    finished_row <= height,
                    in_cells(curr, h, w),
                    maze.is_grafting(h, w, centre_of(curr), gap, anchor),
                    maze.rows_open_above(h, w, finished_row as int),
                    maze.open_cells(h, w).len() >= at_hunt.open_cells(h, w).len(),
                    maze.open_cells(h, w).len() < h * w,
                    is_entering(&maze, h, w, picks, curr),
                ensures
                    maze.is_tree(h, w),
                    maze.rows_open_above(h, w, finished_row as int),
                    maze.open_cells(h, w).len() > at_hunt.open_cells(h, w).len(),
                    maze.open_cells(h, w).len() <= h * w,
                    is_hunting(&maze, h, w, picks),
                decreases h * w - maze.open_cells(h, w).len(),
            {
                let ghost closed = maze;
                proof {
                    lemma_shape(&maze, h, w);
                }
                maze.set_tile(centre(curr), Tile::Floor);
                proof {
                    lemma_open_cell(&closed, &maze, h, w, centre_of(curr), gap, anchor);
                    lemma_rows_stay_open(&closed, &maze, centre_of(curr), h, w, finished_row as int);
                    lemma_shape(&maze, h, w);
                    lemma_carve_opens(&closed, &maze, h, w, picks, curr);
                }
                let ads = neighbours(&maze, height, width, curr, Tile::Wall);
                match pick(rng, &ads) {
                    Some(next) => {
                        let ghost picked = choose|i: int| 0 <= i < ads@.len() && ads@[i] == next;
                        proof {
                            assert(in_cells(ads@[picked], h, w));
                            lemma_gap_between(h, w, next, curr);
                        }
                        let wall = centre(curr).average(centre(next));
                        let ghost opened = maze;
                        maze.set_tile(wall, Tile::Floor);
                        proof {
                            gap = wall;
                            anchor = centre_of(curr);
                            lemma_open_gap(&opened, &maze, h, w, centre_of(next), gap, anchor);
                            lemma_rows_stay_open(&opened, &maze, wall, h, w, finished_row as int);
                            lemma_carve_walks(&opened, &maze, h, w, picks, curr, picked, wall);
                            picks = picks.push(picked);
                        }
                        curr = next;
                    },
                    None => {
                        proof {
                            lemma_carve_hunts(&maze, h, w, picks, curr);
                        }
                        break ;
                    },
                }
            }
        }
        assert(is_carved(&maze, h, w)) by {
            assert(is_carved_by(&maze, h, w, picks));
        }
        Ok(maze)
    }
}

} // verus!
