//! The shortest way out of a maze.
//!
//! The search settles cells in order of their distance from the start,
//! taking the cheapest entry of the frontier each time, and stops at the
//! first exit it takes out. Walls and whatever lies off the map are never
//! entered.

use vstd::prelude::*;
use vstd::multiset::Multiset;
use vstd::set_lib::lemma_len_subset;
use crate::direction::{lemma_flip, Direction};
use crate::frontier::{Frontier, HeapEntry};
use crate::generate::{exit_posn, is_cell, root_posn};
use crate::grid::Grid;
use crate::maze::{board, lemma_board, Maze};
use crate::posn::Posn;
use crate::tile::Tile;

verus! {

broadcast use vstd::multiset::group_multiset_axioms;

/// What the search knows of a cell: what it costs to get there, once that
/// is settled, and the direction that leads back toward the start.
#[derive(Copy, Clone, Debug, PartialEq, Eq, Structural)]
pub struct Node {
    pub cost: Option<u64>,
    pub from: Direction,
}

impl Node {
    pub fn new() -> (node: Node)
        ensures
            node == (Node { cost: None, from: Direction::North }),
    {
        Node { cost: None, from: Direction::North }
    }
}

/// The end of the walk `route` from `start`: its last position, or `start`
/// itself where the walk is empty.
pub open spec fn route_end(start: Posn, route: Seq<Posn>) -> Posn {
    if route.len() == 0 {
        start
    } else {
        route.last()
    }
}

/// The direction in which `to` lies from a position `from` next to it.
pub open spec fn heading(from: Posn, to: Posn) -> Direction {
    if to.row < from.row {
        Direction::North
    } else if to.row > from.row {
        Direction::South
    } else if to.col > from.col {
        Direction::East
    } else {
        Direction::West
    }
}

impl Maze {
    /// Whether a mover may stand on `pos`: it lies on the map and is no
    /// wall.
    pub open spec fn passable(&self, pos: Posn) -> bool {
        self.contains(pos) && self.tile(pos) != Tile::Wall
    }

    /// Whether `route` is a walk from `start`: each of its positions is
    /// passable and lies next to the one before it, the first next to
    /// `start`. The walk does not include `start`.
    pub open spec fn is_route(&self, start: Posn, route: Seq<Posn>) -> bool {
        forall|i: int|
            0 <= i < route.len() ==> {
                &&& self.passable(#[trigger] route[i])
                &&& route[i].adjacent(
                    if i == 0 {
                        start
                    } else {
                        route[i - 1]
                    },
                )
            }
    }

    /// Whether `route` is a walk from `start` that ends on an exit.
    pub open spec fn is_escape(&self, start: Posn, route: Seq<Posn>) -> bool {
        self.is_route(start, route) && self.tile(route_end(start, route)) == Tile::Exit
    }

    /// Whether there is a way from `start` to an exit.
    pub open spec fn can_escape(&self, start: Posn) -> bool {
        exists|route: Seq<Posn>| #[trigger] self.is_escape(start, route)
    }

    /// Whether `route` is a shortest way out from `start`: it ends on an
    /// exit, no walk from `start` to an exit has fewer steps, and all it
    /// crosses before the exit is floor.
    pub open spec fn is_shortest_escape(&self, start: Posn, route: Seq<Posn>) -> bool {
        &&& self.is_escape(start, route)
        &&& forall|other: Seq<Posn>| #[trigger]
            self.is_escape(start, other) ==> route.len() <= other.len()
        &&& forall|i: int| 0 <= i < route.len() - 1 ==> self.tile(#[trigger] route[i]) == Tile::Floor
    }
}

/// Whether the cost of reaching `p` is settled.
spec fn settled(nodes: &Grid<Node>, p: Posn) -> bool {
    nodes.contains(p) && nodes.at(p).cost is Some
}

/// The settled cost of reaching `p`.
spec fn cost_at(nodes: &Grid<Node>, p: Posn) -> int {
    nodes.at(p).cost->0 as int
}

/// The cells whose cost is settled.
spec fn settled_cells(nodes: &Grid<Node>, rows: int, cols: int) -> Set<Posn> {
    Set::new(|p: Posn| 0 <= p.row < rows && 0 <= p.col < cols && nodes.at(p).cost is Some)
}

/// Whether `nodes` has a node for each tile of `maze`.
spec fn same_shape(maze: &Maze, nodes: &Grid<Node>) -> bool {
    &&& maze.wf()
    &&& nodes.rows() == maze.rows()
    &&& forall|r: int| 0 <= r < nodes.rows() ==> #[trigger] nodes.cols_of(r) == maze.cols()
}

/// What holds of a settled cell: the start costs nothing; any other is
/// floor, and one step back from it lies a settled cell that costs one
/// less. No settled cell costs more than `level`.
spec fn node_ok(maze: &Maze, start: Posn, nodes: &Grid<Node>, level: int, p: Posn) -> bool {
    settled(nodes, p) ==> {
        &&& maze.contains(p)
        &&& maze.tile(p) != Tile::Exit
        &&& 0 <= cost_at(nodes, p) <= level
        &&& if p == start {
            cost_at(nodes, p) == 0
        } else {
            let back = p.step(nodes.at(p).from);
            &&& maze.tile(p) == Tile::Floor
            &&& cost_at(nodes, p) >= 1
            &&& settled(nodes, back)
            &&& cost_at(nodes, back) == cost_at(nodes, p) - 1
        }
    }
}

/// What holds of an entry of the frontier: its cell is passable and costs
/// `level` or one more; one that costs nothing is the start, and one step
/// back from any other lies a settled cell that costs one less.
spec fn entry_ok(maze: &Maze, start: Posn, nodes: &Grid<Node>, level: int, e: HeapEntry) -> bool {
    &&& maze.passable(e.pos)
    &&& level <= e.cost <= level + 1
    &&& if e.cost == 0 {
        e.pos == start
    } else {
        let back = e.pos.step(e.from);
        settled(nodes, back) && cost_at(nodes, back) == e.cost - 1
    }
}

/// Whether `q` is settled at no more than `bound`, or waits in the
/// frontier at no more than `bound`.
spec fn covered(nodes: &Grid<Node>, queue: Multiset<HeapEntry>, q: Posn, bound: int) -> bool {
    ||| settled(nodes, q) && cost_at(nodes, q) <= bound
    ||| exists|e: HeapEntry| #[trigger] queue.contains(e) && e.pos == q && e.cost <= bound
}

/// Whether the step from the settled cell `p` in direction `d` has been
/// followed up, if it leads to a passable cell.
spec fn edge_ok(
    maze: &Maze,
    nodes: &Grid<Node>,
    queue: Multiset<HeapEntry>,
    p: Posn,
    d: Direction,
) -> bool {
    settled(nodes, p) && maze.passable(p.step(d)) ==> covered(
        nodes,
        queue,
        p.step(d),
        cost_at(nodes, p) + 1,
    )
}

/// Whether no walk from `start` reaches a settled cell in fewer steps than
/// the cell's cost.
spec fn costs_least(maze: &Maze, start: Posn, nodes: &Grid<Node>) -> bool {
    forall|route: Seq<Posn>| #[trigger]
        maze.is_route(start, route) && route.len() >= 1 && settled(nodes, route.last())
            ==> cost_at(nodes, route.last()) <= route.len()
}

/// What holds of the search while it runs, once the start is settled, but
/// for the steps that lead on from `open`, of which only `dirs` have been
/// followed up.
#[verifier::opaque]
spec fn expanding(
    maze: &Maze,
    start: Posn,
    nodes: &Grid<Node>,
    queue: Multiset<HeapEntry>,
    level: int,
    open: Posn,
    dirs: Set<Direction>,
) -> bool {
    &&& same_shape(maze, nodes)
    &&& settled(nodes, start)
    &&& forall|p: Posn| #[trigger] node_ok(maze, start, nodes, level, p)
    &&& forall|e: HeapEntry| queue.contains(e) ==> #[trigger] entry_ok(maze, start, nodes, level, e)
    &&& forall|p: Posn, d: Direction|
        p != open || dirs.contains(d) ==> #[trigger] edge_ok(maze, nodes, queue, p, d)
    &&& costs_least(maze, start, nodes)
}

/// What holds of the search between two entries, once the start is
/// settled.
spec fn searching(
    maze: &Maze,
    start: Posn,
    nodes: &Grid<Node>,
    queue: Multiset<HeapEntry>,
    level: int,
) -> bool {
    expanding(maze, start, nodes, queue, level, start, Set::<Direction>::full())
}

/// A position next to another lies one step from it in some direction.
proof fn lemma_heading(from: Posn, to: Posn)
    requires
        from.adjacent(to),
    ensures
        from.can_step(heading(from, to)),
        from.step(heading(from, to)) == to,
{
}

/// A walk from the start that ends on a cell that is not settled crosses
/// the frontier: some entry waits there at no more than the walk's length.
proof fn lemma_frontier(
    maze: &Maze,
    start: Posn,
    nodes: &Grid<Node>,
    queue: Multiset<HeapEntry>,
    level: int,
    route: Seq<Posn>,
)
    requires
        searching(maze, start, nodes, queue, level),
        maze.is_route(start, route),
        route.len() >= 1,
        !settled(nodes, route.last()),
    ensures
        exists|e: HeapEntry| #[trigger] queue.contains(e) && e.cost <= route.len(),
    decreases route.len(),
{
    reveal(expanding);
    let n = route.len() as int;
    let last = route.last();
    let before = if n == 1 {
        start
    } else {
        route[n - 2]
    };
    assert(maze.passable(route[n - 1]));
    assert(last.adjacent(before));
    let prefix = route.drop_last();
    assert(maze.is_route(start, prefix)) by {
        assert forall|i: int| 0 <= i < prefix.len() implies {
            &&& maze.passable(#[trigger] prefix[i])
            &&& prefix[i].adjacent(
                if i == 0 {
                    start
                } else {
                    prefix[i - 1]
                },
            )
        } by {
            assert(prefix[i] == route[i]);
            assert(maze.passable(route[i]));
        }
    }
    if settled(nodes, before) {
        assert(cost_at(nodes, before) <= n - 1) by {
            if n == 1 {
                assert(node_ok(maze, start, nodes, level, start));
            } else {
                assert(prefix.last() == before);
            }
        }
        lemma_heading(before, last);
        assert(edge_ok(maze, nodes, queue, before, heading(before, last)));
    } else {
        assert(n >= 2);
        assert(prefix.last() == before);
        lemma_frontier(maze, start, nodes, queue, level, prefix);
    }
}

/// The entry the search starts from.
spec fn seed(start: Posn) -> HeapEntry {
    HeapEntry { cost: 0, pos: start, from: Direction::North }
}

/// What holds of the search before it has taken its first entry: nothing is
/// settled, and the start alone waits in the frontier.
spec fn seeded(maze: &Maze, start: Posn, nodes: &Grid<Node>, queue: Multiset<HeapEntry>) -> bool {
    &&& same_shape(maze, nodes)
    &&& maze.contains(start)
    &&& forall|p: Posn| !#[trigger] settled(nodes, p)
    &&& queue == Multiset::<HeapEntry>::empty().insert(seed(start))
}

/// Settling the start.
proof fn lemma_settle_start(
    maze: &Maze,
    start: Posn,
    before: &Grid<Node>,
    after: &Grid<Node>,
    queue: Multiset<HeapEntry>,
)
    requires
        seeded(maze, start, before, queue),
        maze.tile(start) != Tile::Exit,
        after.is_update_of(before, start, Node { cost: Some(0), from: Direction::North }),
    ensures
        expanding(maze, start, after, queue.remove(seed(start)), 0, start, Set::empty()),
{
    reveal(expanding);
    let rest = queue.remove(seed(start));
    assert(rest =~= Multiset::<HeapEntry>::empty());
    assert forall|p: Posn| settled(after, p) implies p == start by {
        if p != start {
            assert(!settled(before, p));
        }
    }
    assert forall|p: Posn| #[trigger] node_ok(maze, start, after, 0, p) by {}
}

/// Dropping an entry whose cell is settled already.
proof fn lemma_stale(
    maze: &Maze,
    start: Posn,
    nodes: &Grid<Node>,
    queue: Multiset<HeapEntry>,
    level: int,
    e: HeapEntry,
)
    requires
        searching(maze, start, nodes, queue, level),
        queue.contains(e),
        settled(nodes, e.pos),
    ensures
        searching(maze, start, nodes, queue.remove(e), level),
        cost_at(nodes, e.pos) <= e.cost,
{
    reveal(expanding);
    let rest = queue.remove(e);
    assert(entry_ok(maze, start, nodes, level, e));
    assert(node_ok(maze, start, nodes, level, e.pos));
    assert forall|p: Posn, d: Direction| #[trigger] edge_ok(maze, nodes, rest, p, d) by {
        assert(edge_ok(maze, nodes, queue, p, d));
        let t = p.step(d);
        let bound = cost_at(nodes, p) + 1;
        if settled(nodes, p) && maze.passable(t) && !(settled(nodes, t) && cost_at(nodes, t)
            <= bound) {
            let x = choose|x: HeapEntry| #[trigger] queue.contains(x) && x.pos == t && x.cost <= bound;
            assert(x != e);
            assert(rest.contains(x));
        }
    }
}

/// Settling the cell of a cheapest entry.
proof fn lemma_settle(
    maze: &Maze,
    start: Posn,
    before: &Grid<Node>,
    after: &Grid<Node>,
    queue: Multiset<HeapEntry>,
    level: int,
    e: HeapEntry,
)
    requires
        searching(maze, start, before, queue, level),
        queue.contains(e),
        forall|other: HeapEntry| queue.contains(other) ==> e.cost <= #[trigger] other.cost,
        !settled(before, e.pos),
        maze.tile(e.pos) != Tile::Exit,
        after.is_update_of(before, e.pos, Node { cost: Some(e.cost), from: e.from }),
    ensures
        expanding(maze, start, after, queue.remove(e), e.cost as int, e.pos, Set::empty()),
        level <= e.cost <= level + 1,
{
    reveal(expanding);
    let rest = queue.remove(e);
    let q = e.pos;
    let c = e.cost as int;
    assert(entry_ok(maze, start, before, level, e));
    assert forall|p: Posn| p != q implies settled(after, p) == settled(before, p) && (
    before.contains(p) ==> after.at(p) == before.at(p)) by {
        if 0 <= p.row < before.rows() {
            assert(after.cols_of(p.row as int) == before.cols_of(p.row as int));
        }
        if before.contains(p) {
            assert(after.at(p) == before.at(p));
        }
    }
    assert(settled(after, q)) by {
        assert(after.cols_of(q.row as int) == before.cols_of(q.row as int));
    }
    assert forall|p: Posn| #[trigger] node_ok(maze, start, after, c, p) by {
        assert(node_ok(maze, start, before, level, p));
    }
    assert forall|x: HeapEntry| rest.contains(x) implies #[trigger] entry_ok(
        maze,
        start,
        after,
        c,
        x,
    ) by {
        assert(queue.contains(x));
        assert(entry_ok(maze, start, before, level, x));
    }
    assert forall|p: Posn, d: Direction| p != q implies #[trigger] edge_ok(
        maze,
        after,
        rest,
        p,
        d,
    ) by {
        assert(edge_ok(maze, before, queue, p, d));
        let t = p.step(d);
        let bound = cost_at(before, p) + 1;
        if settled(before, p) && maze.passable(t) && !(settled(before, t) && cost_at(before, t)
            <= bound) {
            let x = choose|x: HeapEntry| #[trigger] queue.contains(x) && x.pos == t && x.cost <= bound;
            if x != e {
                assert(rest.contains(x));
            }
        }
    }
    assert forall|route: Seq<Posn>| #[trigger]
        maze.is_route(start, route) && route.len() >= 1 && settled(
            after,
            route.last(),
        ) implies cost_at(after, route.last()) <= route.len() by {
        if route.last() == q {
            lemma_frontier(maze, start, before, queue, level, route);
        }
    }
}

/// Following up the step from the cell that was settled last in direction
/// `d`.
proof fn lemma_expand(
    maze: &Maze,
    start: Posn,
    nodes: &Grid<Node>,
    queue: Multiset<HeapEntry>,
    level: int,
    open: Posn,
    dirs: Set<Direction>,
    d: Direction,
)
    requires
        expanding(maze, start, nodes, queue, level, open, dirs),
        settled(nodes, open),
        cost_at(nodes, open) == level,
        level < u64::MAX,
    ensures
        ({
            let next = HeapEntry { cost: (level + 1) as u64, pos: open.step(d), from: d.opposite() };
            if maze.passable(open.step(d)) {
                expanding(maze, start, nodes, queue.insert(next), level, open, dirs.insert(d))
            } else {
                expanding(maze, start, nodes, queue, level, open, dirs.insert(d))
            }
        }),
{
    reveal(expanding);
    let t = open.step(d);
    let next = HeapEntry { cost: (level + 1) as u64, pos: t, from: d.opposite() };
    assert(node_ok(maze, start, nodes, level, open));
    if maze.passable(t) {
        let more = queue.insert(next);
        lemma_flip(d);
        assert(t.step(d.opposite()) == open);
        assert forall|e: HeapEntry| more.contains(e) implies #[trigger] entry_ok(
            maze,
            start,
            nodes,
            level,
            e,
        ) by {
            if e != next {
                assert(queue.contains(e));
            }
        }
        assert forall|p: Posn, dd: Direction| p != open || dirs.insert(d).contains(
            dd,
        ) implies #[trigger] edge_ok(maze, nodes, more, p, dd) by {
            let tt = p.step(dd);
            let bound = cost_at(nodes, p) + 1;
            if p == open && dd == d {
                assert(more.contains(next));
            } else {
                assert(edge_ok(maze, nodes, queue, p, dd));
                if settled(nodes, p) && maze.passable(tt) && !(settled(nodes, tt) && cost_at(
                    nodes,
                    tt,
                ) <= bound) {
                    let x = choose|x: HeapEntry| #[trigger]
                        queue.contains(x) && x.pos == tt && x.cost <= bound;
                    assert(more.contains(x));
                }
            }
        }
    } else {
        assert forall|p: Posn, dd: Direction| p != open || dirs.insert(d).contains(
            dd,
        ) implies #[trigger] edge_ok(maze, nodes, queue, p, dd) by {
            if p == open && dd == d {
            } else {
                assert(edge_ok(maze, nodes, queue, p, dd));
            }
        }
    }
}

/// Once all four steps from the cell that was settled last are followed up,
/// the search is ready for its next entry.
proof fn lemma_expanded(
    maze: &Maze,
    start: Posn,
    nodes: &Grid<Node>,
    queue: Multiset<HeapEntry>,
    level: int,
    open: Posn,
    dirs: Set<Direction>,
)
    requires
        expanding(maze, start, nodes, queue, level, open, dirs),
        dirs.contains(Direction::North),
        dirs.contains(Direction::East),
        dirs.contains(Direction::South),
        dirs.contains(Direction::West),
    ensures
        searching(maze, start, nodes, queue, level),
{
    reveal(expanding);
    assert forall|p: Posn, d: Direction| #[trigger] edge_ok(maze, nodes, queue, p, d) by {
        assert(dirs.contains(d));
    }
}

/// When the cheapest entry is an exit, no way out is shorter than its cost.
proof fn lemma_exit_reached(
    maze: &Maze,
    start: Posn,
    nodes: &Grid<Node>,
    queue: Multiset<HeapEntry>,
    level: int,
    e: HeapEntry,
)
    requires
        searching(maze, start, nodes, queue, level),
        queue.contains(e),
        forall|other: HeapEntry| queue.contains(other) ==> e.cost <= #[trigger] other.cost,
    ensures
        forall|route: Seq<Posn>| #[trigger] maze.is_escape(start, route) ==> e.cost <= route.len(),
{
    assert forall|route: Seq<Posn>| #[trigger] maze.is_escape(start, route) implies e.cost
        <= route.len() by {
        lemma_escape_crosses(maze, start, nodes, queue, level, route);
        let x = choose|x: HeapEntry| #[trigger] queue.contains(x) && x.cost <= route.len();
    }
}

/// A way out crosses the frontier: exits are never settled.
proof fn lemma_escape_crosses(
    maze: &Maze,
    start: Posn,
    nodes: &Grid<Node>,
    queue: Multiset<HeapEntry>,
    level: int,
    route: Seq<Posn>,
)
    requires
        searching(maze, start, nodes, queue, level),
        maze.is_escape(start, route),
    ensures
        exists|e: HeapEntry| #[trigger] queue.contains(e) && e.cost <= route.len(),
{
    assert(route.len() >= 1 && !settled(nodes, route.last())) by {
        reveal(expanding);
        assert(node_ok(maze, start, nodes, level, start));
        if route.len() >= 1 {
            assert(node_ok(maze, start, nodes, level, route.last()));
        }
    }
    lemma_frontier(maze, start, nodes, queue, level, route);
}

/// When the frontier runs empty, there is no way out.
proof fn lemma_no_escape(maze: &Maze, start: Posn, nodes: &Grid<Node>, queue: Multiset<HeapEntry>, level: int)
    requires
        searching(maze, start, nodes, queue, level),
        queue.len() == 0,
    ensures
        !maze.can_escape(start),
{
    if maze.can_escape(start) {
        let route = choose|route: Seq<Posn>| #[trigger] maze.is_escape(start, route);
        lemma_escape_crosses(maze, start, nodes, queue, level, route);
        let x = choose|x: HeapEntry| #[trigger] queue.contains(x) && x.cost <= route.len();
        assert(queue.count(x) > 0);
        assert(queue =~= Multiset::<HeapEntry>::empty());
    }
}

/// What the way back from the exit is read from: each settled cell but the
/// start leads one step back to a settled cell that costs one less.
#[verifier::opaque]
spec fn traced(maze: &Maze, start: Posn, nodes: &Grid<Node>, level: int) -> bool {
    &&& same_shape(maze, nodes)
    &&& forall|p: Posn| #[trigger] node_ok(maze, start, nodes, level, p)
}

/// Whether the exit at `exit` was reached at cost `cost`, by the step that
/// its node records.
spec fn reached(maze: &Maze, start: Posn, nodes: &Grid<Node>, exit: Posn, cost: int) -> bool {
    &&& maze.contains(exit)
    &&& maze.tile(exit) == Tile::Exit
    &&& 0 <= cost
    &&& cost == 0 <==> exit == start
    &&& cost >= 1 ==> {
        let back = exit.step(nodes.at(exit).from);
        settled(nodes, back) && cost_at(nodes, back) == cost - 1
    }
}

/// Recording the step that led to the exit.
proof fn lemma_mark_exit(
    maze: &Maze,
    start: Posn,
    before: &Grid<Node>,
    after: &Grid<Node>,
    queue: Multiset<HeapEntry>,
    level: int,
    e: HeapEntry,
    started: bool,
)
    requires
        if started {
            searching(maze, start, before, queue, level)
        } else {
            seeded(maze, start, before, queue)
        },
        queue.contains(e),
        maze.holds(e.pos, Tile::Exit),
        after.is_update_of(before, e.pos, Node { cost: None, from: e.from }),
    ensures
        traced(maze, start, after, level),
        reached(maze, start, after, e.pos, e.cost as int),
{
    reveal(expanding);
    reveal(traced);
    let x = e.pos;
    assert forall|p: Posn| settled(after, p) == settled(before, p) && (before.contains(p) && p != x
        ==> after.at(p) == before.at(p)) by {
        if 0 <= p.row < before.rows() {
            assert(after.cols_of(p.row as int) == before.cols_of(p.row as int));
        }
        if before.contains(p) && p != x {
            assert(after.at(p) == before.at(p));
        }
        if p == x {
            assert(node_ok(maze, start, before, level, x));
        }
    }
    if started {
        assert(entry_ok(maze, start, before, level, e));
        assert(node_ok(maze, start, before, level, start));
        assert forall|p: Posn| #[trigger] node_ok(maze, start, after, level, p) by {
            assert(node_ok(maze, start, before, level, p));
        }
    } else {
        assert(e == seed(start));
        assert forall|p: Posn| #[trigger] node_ok(maze, start, after, level, p) by {
            assert(!settled(before, p));
        }
    }
}

/// A grid with a fresh node for each tile of `maze`.
fn blank_nodes(maze: &Maze) -> (nodes: Grid<Node>)
    requires
        maze.wf(),
    ensures
        same_shape(maze, &nodes),
        forall|p: Posn| !#[trigger] settled(&nodes, p),
{
    let (rows, cols) = maze.bounds();
    let mut grid: Vec<Vec<Node>> = Vec::new();
    while grid.len() < rows
        invariant
            grid@.len() <= rows,
            forall|r: int| 0 <= r < grid@.len() ==> (#[trigger] grid@[r])@.len() == cols,
            forall|r: int, c: int|
                0 <= r < grid@.len() && 0 <= c < cols ==> (#[trigger] grid@[r]@[c]).cost is None,
        decreases rows - grid@.len(),
    {
        let mut row: Vec<Node> = Vec::new();
        while row.len() < cols
            invariant
                row@.len() <= cols,
                forall|c: int| 0 <= c < row@.len() ==> (#[trigger] row@[c]).cost is None,
            decreases cols - row@.len(),
        {
            row.push(Node::new());
        }
        grid.push(row);
    }
    let nodes = Grid::new(grid);
    assert forall|p: Posn| !#[trigger] settled(&nodes, p) by {
        if nodes.contains(p) {
            assert(nodes.0@[p.row as int]@[p.col as int].cost is None);
        }
    }
    nodes
}

/// Follows up the step from `pos` in direction `dir`: the cell it leads to
/// joins the frontier unless it is a wall or off the map.
fn visit(maze: &Maze, heap: &mut Frontier, pos: Posn, cost: u64, dir: Direction)
    requires
        maze.wf(),
        maze.contains(pos),
        cost < u64::MAX,
    ensures
        final(heap)@ == if maze.passable(pos.step(dir)) {
            old(heap)@.insert(
                HeapEntry { cost: (cost + 1) as u64, pos: pos.step(dir), from: dir.opposite() },
            )
        } else {
            old(heap)@
        },
{
    let next_pos = pos + dir.numeric();
    if !maze.in_bounds(&next_pos) {
        return ;
    }
    if maze.tile_at(&next_pos) == Tile::Wall {
        return ;
    }
    heap.push(HeapEntry { pos: next_pos, cost: cost + 1, from: dir.flip() });
}

/// The positions of `path` in reverse order.
fn reversed(path: Vec<Posn>) -> (turned: Vec<Posn>)
    ensures
        turned@.len() == path@.len(),
        forall|i: int| 0 <= i < path@.len() ==> turned@[i] == path@[path@.len() - 1 - i],
{
    let mut turned: Vec<Posn> = Vec::new();
    let mut left: usize = path.len();
    while left > 0
        invariant
            left <= path@.len(),
            turned@.len() == path@.len() - left,
            forall|i: int| 0 <= i < turned@.len() ==> turned@[i] == path@[path@.len() - 1 - i],
        decreases left,
    {
        left -= 1;
        turned.push(path[left]);
    }
    turned
}

/// Walks back from the exit to the start along the recorded steps and
/// returns the cells gone through, the exit first.
fn retrace(
    maze: &Maze,
    nodes: &Grid<Node>,
    start: Posn,
    exit: Posn,
    Ghost(level): Ghost<int>,
    Ghost(cost): Ghost<int>,
) -> (path: Vec<Posn>)
    requires
        traced(maze, start, nodes, level),
        reached(maze, start, nodes, exit, cost),
    ensures
        path@.len() == cost,
        forall|i: int| 0 <= i < path@.len() ==> maze.passable(#[trigger] path@[i]),
        forall|i: int| 1 <= i < path@.len() ==> maze.tile(#[trigger] path@[i]) == Tile::Floor,
        forall|i: int| 1 <= i < path@.len() ==> (#[trigger] path@[i]).adjacent(path@[i - 1]),
        path@.len() > 0 ==> path@[0] == exit && start.adjacent(path@.last()),
{
    let mut path: Vec<Posn> = Vec::new();
    let mut curr_pos = exit;
    let ghost mut left: int = cost;
    proof {
        reveal(traced);
    }
    while curr_pos != start
        invariant
            traced(maze, start, nodes, level),
            reached(maze, start, nodes, exit, cost),
            same_shape(maze, nodes),
            maze.contains(curr_pos),
            0 <= left <= cost,
            path@.len() == cost - left,
            path@.len() == 0 ==> curr_pos == exit,
            path@.len() > 0 ==> {
                &&& settled(nodes, curr_pos)
                &&& cost_at(nodes, curr_pos) == left
                &&& path@[0] == exit
                &&& curr_pos.adjacent(path@.last())
            },
            forall|i: int| 0 <= i < path@.len() ==> maze.passable(#[trigger] path@[i]),
            forall|i: int| 1 <= i < path@.len() ==> maze.tile(#[trigger] path@[i]) == Tile::Floor,
            forall|i: int| 1 <= i < path@.len() ==> (#[trigger] path@[i]).adjacent(path@[i - 1]),
        decreases left,
    {
        proof {
            reveal(traced);
            assert(node_ok(maze, start, nodes, level, curr_pos));
            assert(nodes.cols_of(curr_pos.row as int) == maze.cols());
        }
        let ghost walked = path@;
        path.push(curr_pos);
        let next_dir = nodes[curr_pos].from;
        let ghost here = curr_pos;
        curr_pos = curr_pos + next_dir.numeric();
        proof {
            left = left - 1;
            assert(node_ok(maze, start, nodes, level, curr_pos));
            assert(curr_pos.adjacent(here));
            assert forall|i: int| 0 <= i < walked.len() implies path@[i] == walked[i] by {}
        }
    }
    proof {
        reveal(traced);
        assert(node_ok(maze, start, nodes, level, start));
    }
    path
}

/// Finds a shortest way from `player` to an exit.
///
/// The way is returned as the cells to step on in order, the exit last;
/// the cell the player stands on is not part of it. Where the player
/// stands on an exit already, or no exit can be reached, the way is empty.
pub fn pathfind(maze: &Maze, player: Posn) -> (path: Vec<Posn>)
    requires
        maze.wf(),
        maze.contains(player),
    ensures
        maze.can_escape(player) ==> maze.is_shortest_escape(player, path@),
        !maze.can_escape(player) ==> path@.len() == 0,
{
    let mut search_nodes = blank_nodes(maze);
    let mut heap = Frontier::new();
    heap.push(HeapEntry { cost: 0, pos: player, from: Direction::North });
    let mut exit_pos: Option<Posn> = None;
    let ghost rows = maze.rows();
    let ghost cols = maze.cols();
    let ghost mut started = false;
    let ghost mut level: int = 0;
    let ghost mut exit_cost: int = 0;
    proof {
        lemma_board(rows, cols);
        assert(settled_cells(&search_nodes, rows, cols) =~= Set::<Posn>::empty()) by {
            assert forall|p: Posn| !settled_cells(&search_nodes, rows, cols).contains(p) by {
                assert(!settled(&search_nodes, p));
            }
        }
        assert(rows * cols >= 0) by (nonlinear_arith)
            requires
                rows >= 0,
                cols >= 0,
        ;
    }
    loop
        invariant_except_break
            maze.wf(),
            maze.contains(player),
            rows == maze.rows(),
            cols == maze.cols(),
            exit_pos is None,
            if started {
                searching(maze, player, &search_nodes, heap@, level)
            } else {
                seeded(maze, player, &search_nodes, heap@) && level == 0
            },
            settled_cells(&search_nodes, rows, cols).finite(),
            0 <= level <= settled_cells(&search_nodes, rows, cols).len() <= rows * cols,
        ensures
            maze.wf(),
            maze.contains(player),
            match exit_pos {
                Some(exit) => {
                    &&& traced(maze, player, &search_nodes, level)
                    &&& reached(maze, player, &search_nodes, exit, exit_cost)
                    &&& forall|route: Seq<Posn>| #[trigger]
                        maze.is_escape(player, route) ==> exit_cost <= route.len()
                },
                None => !maze.can_escape(player),
            },
        decreases
                4 * (rows * cols - settled_cells(&search_nodes, rows, cols).len()) + heap@.len(),
    {
        let ghost waiting = heap@;
        let ghost known = search_nodes;
        let entry = match heap.pop() {
            Some(entry) => entry,
            None => {
                proof {
                    if started {
                        lemma_no_escape(maze, player, &search_nodes, waiting, level);
                    } else {
                        assert(waiting.contains(seed(player)));
                    }
                }
                break ;
            },
        };
        let HeapEntry { cost, pos, from } = entry;
        proof {
            if started {
                reveal(expanding);
                assert(entry_ok(maze, player, &search_nodes, level, entry));
                assert(node_ok(maze, player, &search_nodes, level, pos));
            } else {
                assert(entry == seed(player));
                assert(!settled(&search_nodes, pos));
            }
            assert(search_nodes.cols_of(pos.row as int) == maze.cols());
        }
        if maze.tile_at(&pos) == Tile::Exit {
            search_nodes.set(pos, Node { cost: None, from: from });
            exit_pos = Some(pos);
            proof {
                exit_cost = cost as int;
                lemma_mark_exit(maze, player, &known, &search_nodes, waiting, level, entry, started);
                if started {
                    lemma_exit_reached(maze, player, &known, waiting, level, entry);
                }
            }
            break ;
        }
        let node = search_nodes[pos];
        if let Some(old_cost) = node.cost {
            if old_cost <= cost {
                proof {
                    lemma_stale(maze, player, &search_nodes, waiting, level, entry);
                }
                continue ;
            }
            proof {
                lemma_stale(maze, player, &search_nodes, waiting, level, entry);
            }
        }
        search_nodes.set(pos, Node { cost: Some(cost), from: from });
        proof {
            if started {
                lemma_settle(maze, player, &known, &search_nodes, waiting, level, entry);
            } else {
                lemma_settle_start(maze, player, &known, &search_nodes, waiting);
            }
            let was = settled_cells(&known, rows, cols);
            let now = settled_cells(&search_nodes, rows, cols);
            assert(now =~= was.insert(pos)) by {
                assert forall|p: Posn| now.contains(p) <==> was.insert(pos).contains(p) by {
                    if p != pos && 0 <= p.row < rows && 0 <= p.col < cols {
                        assert(known.cols_of(p.row as int) == maze.cols());
                        assert(known.contains(p));
                        assert(search_nodes.at(p) == known.at(p));
                    }
                }
            }
            assert(!was.contains(pos));
            assert(now.subset_of(board(rows, cols)));
            lemma_board(rows, cols);
            lemma_len_subset(now, board(rows, cols));
            level = cost as int;
            started = true;
            assert(rows * cols <= 0x7fff_ffff * 0x7fff_ffff) by (nonlinear_arith)
                requires
                    0 <= rows <= 0x7fff_ffff,
                    0 <= cols <= 0x7fff_ffff,
            ;
            assert(settled(&search_nodes, pos) && cost_at(&search_nodes, pos) == level) by {
                assert(search_nodes.cols_of(pos.row as int) == known.cols_of(pos.row as int));
            }
        }
        let ghost mut dirs = Set::<Direction>::empty();
        let ghost mut queued = heap@;
        visit(maze, &mut heap, pos, cost, Direction::North);
        proof {
            lemma_expand(maze, player, &search_nodes, queued, level, pos, dirs, Direction::North);
            dirs = dirs.insert(Direction::North);
            queued = heap@;
        }
        visit(maze, &mut heap, pos, cost, Direction::East);
        proof {
            lemma_expand(maze, player, &search_nodes, queued, level, pos, dirs, Direction::East);
            dirs = dirs.insert(Direction::East);
            queued = heap@;
        }
        visit(maze, &mut heap, pos, cost, Direction::South);
        proof {
            lemma_expand(maze, player, &search_nodes, queued, level, pos, dirs, Direction::South);
            dirs = dirs.insert(Direction::South);
            queued = heap@;
        }
        visit(maze, &mut heap, pos, cost, Direction::West);
        proof {
            lemma_expand(maze, player, &search_nodes, queued, level, pos, dirs, Direction::West);
            dirs = dirs.insert(Direction::West);
            lemma_expanded(maze, player, &search_nodes, heap@, level, pos, dirs);
        }
    }
    let exit = match exit_pos {
        None => {
            return Vec::new();
        },
        Some(exit) => exit,
    };
    let path = retrace(maze, &search_nodes, player, exit, Ghost(level), Ghost(exit_cost));
    let turned = reversed(path);
    proof {
        let n = turned@.len() as int;
        assert forall|i: int| 0 <= i < n implies {
            &&& maze.passable(#[trigger] turned@[i])
            &&& turned@[i].adjacent(
                if i == 0 {
                    player
                } else {
                    turned@[i - 1]
                },
            )
        } by {
            assert(turned@[i] == path@[n - 1 - i]);
            assert(maze.passable(path@[n - 1 - i]));
            if i > 0 {
                assert(turned@[i - 1] == path@[n - i]);
                assert(path@[n - i].adjacent(path@[n - i - 1]));
            }
        }
        assert(maze.is_route(player, turned@));
        assert(maze.is_escape(player, turned@)) by {
            if n > 0 {
                assert(turned@[n - 1] == path@[0]);
            }
        }
        assert forall|i: int| 0 <= i < n - 1 implies maze.tile(#[trigger] turned@[i])
            == Tile::Floor by {
            assert(turned@[i] == path@[n - 1 - i]);
            assert(maze.tile(path@[n - 1 - i]) == Tile::Floor);
        }
    }
    turned
}

/// From every cell of a perfect maze there is a way out: over floor to the
/// first cell, and from there onto the exit beside it.
pub proof fn lemma_perfect_maze_lets_out(maze: &Maze, h: int, w: int, cell: Posn)
    requires
        maze.is_perfect(h, w),
        is_cell(cell, h, w),
    ensures
        maze.can_escape(cell),
{
    assert(maze.tile(cell) == Tile::Floor);
    assert(maze.connected(cell, root_posn()));
    let path = choose|path: Seq<Posn>|
        #[trigger] maze.is_floor_path(path) && path.first() == cell && path.last() == root_posn();
    let route = path.drop_first().push(exit_posn());
    assert(maze.contains(exit_posn()));
    assert forall|i: int| 0 <= i < route.len() implies {
        &&& maze.passable(#[trigger] route[i])
        &&& route[i].adjacent(
            if i == 0 {
                cell
            } else {
                route[i - 1]
            },
        )
    } by {
        if i < path.len() - 1 {
            assert(route[i] == path[i + 1]);
            assert(maze.holds(path[i + 1], Tile::Floor));
            assert(path[i].adjacent(path[i + 1]));
            if i > 0 {
                assert(route[i - 1] == path[i]);
            }
        } else {
            assert(route[i] == exit_posn());
            if i > 0 {
                assert(route[i - 1] == path[i]);
            }
        }
    }
    assert(maze.is_escape(cell, route));
}

} // verus!
