//! Grid positions and the algebra on them.

use vstd::prelude::*;
use vstd::std_specs::ops::AddSpecImpl;
use crate::direction::Direction;

verus! {

#[derive(Copy, Clone, Debug, Hash, PartialEq, Eq, Structural)]
pub struct Posn {
    pub row: i32,
    pub col: i32,
}

/// Whether `v` is representable as an `i32`.
pub open spec fn fits_i32(v: int) -> bool {
    i32::MIN <= v <= i32::MAX
}

/// Division by two that rounds toward zero.
pub open spec fn half_toward_zero(v: int) -> int {
    if v >= 0 {
        v / 2
    } else {
        -((-v) / 2)
    }
}

/// The absolute value of `v`.
pub open spec fn magnitude(v: int) -> int {
    if v >= 0 {
        v
    } else {
        -v
    }
}

/// The direction to go in from a position that lies `(dy, dx)` away from
/// its goal, measured from the goal: along the axis on which the two are
/// farther apart, the vertical one where they are equally far apart. From a
/// position to itself the direction is north.
pub open spec fn direction_of_offset(dy: int, dx: int) -> Direction {
    if magnitude(dx) > magnitude(dy) {
        if dx >= 0 {
            Direction::West
        } else {
            Direction::East
        }
    } else {
        if dy >= 0 {
            Direction::North
        } else {
            Direction::South
        }
    }
}

impl Posn {
    /// The position `(dr, dc)` away from this one.
    pub open spec fn offset(self, dr: int, dc: int) -> Posn {
        Posn { row: (self.row + dr) as i32, col: (self.col + dc) as i32 }
    }

    /// Whether the position `(dr, dc)` away from this one is representable.
    pub open spec fn can_offset(self, dr: int, dc: int) -> bool {
        fits_i32(self.row + dr) && fits_i32(self.col + dc)
    }

    /// The neighbour one step away in direction `d`.
    pub open spec fn step(self, d: Direction) -> Posn {
        self.offset(d.delta().0, d.delta().1)
    }

    /// Whether the neighbour in direction `d` is representable.
    pub open spec fn can_step(self, d: Direction) -> bool {
        self.can_offset(d.delta().0, d.delta().1)
    }

    /// The position `k` steps away in direction `d`.
    pub open spec fn along(self, d: Direction, k: int) -> Posn {
        match d {
            Direction::North => self.offset(-k, 0),
            Direction::South => self.offset(k, 0),
            Direction::East => self.offset(0, k),
            Direction::West => self.offset(0, -k),
        }
    }

    /// Whether the position `k` steps away in direction `d` is representable.
    pub open spec fn can_go(self, d: Direction, k: int) -> bool {
        match d {
            Direction::North => self.can_offset(-k, 0),
            Direction::South => self.can_offset(k, 0),
            Direction::East => self.can_offset(0, k),
            Direction::West => self.can_offset(0, -k),
        }
    }

    /// Whether `other` is one of the four neighbours of this position.
    pub open spec fn adjacent(self, other: Posn) -> bool {
        magnitude(self.row - other.row) + magnitude(self.col - other.col) == 1
    }

    /// Whether this position lies in the box that `inside` tests. The rows
    /// run from `upper_left.row` up to but excluding `lower_right.row`; the
    /// columns run from `upper_left.row` up to but excluding
    /// `lower_right.col`, so the box is anchored on the diagonal.
    pub open spec fn within(self, upper_left: Posn, lower_right: Posn) -> bool {
        &&& upper_left.row <= self.row < lower_right.row
        &&& upper_left.row <= self.col < lower_right.col
    }

    pub fn inside(&self, upper_left: Posn, lower_right: Posn) -> (r: bool)
        ensures
            r == self.within(upper_left, lower_right),
    {
        self.row >= upper_left.row && self.row < lower_right.row && self.col >= upper_left.row
            && self.col < lower_right.col
    }

    /// The midpoint of two positions, each coordinate rounded toward zero.
    pub fn average(self, other: Posn) -> (mid: Posn)
        requires
            self.can_offset(other.row as int, other.col as int),
        ensures
            mid.row == half_toward_zero(self.row + other.row),
            mid.col == half_toward_zero(self.col + other.col),
    {
        let sum = self + other;
        Posn { row: sum.row / 2, col: sum.col / 2 }
    }

    /// The direction in which `other` lies from this position, along the
    /// axis on which the two are farther apart. Ties go to the vertical
    /// axis.
    pub fn direction_to(self, other: Posn) -> (d: Direction)
        requires
            i32::MIN < self.col - other.col <= i32::MAX,
            i32::MIN < self.row - other.row <= i32::MAX,
        ensures
            d == direction_of_offset(self.row - other.row, self.col - other.col),
    {
        let dx: i32 = self.col - other.col;
        let dy: i32 = self.row - other.row;
        let adx: i32 = if dx >= 0 { dx } else { -dx };
        let ady: i32 = if dy >= 0 { dy } else { -dy };
        if adx > ady {
            if dx >= 0 {
                Direction::West
            } else {
                Direction::East
            }
        } else {
            if dy >= 0 {
                Direction::North
            } else {
                Direction::South
            }
        }
    }
}

impl core::ops::Add<Posn> for Posn {
    type Output = Posn;

    fn add(self, rhs: Posn) -> (sum: Posn) {
        Posn { row: self.row + rhs.row, col: self.col + rhs.col }
    }
}

impl AddSpecImpl<Posn> for Posn {
    open spec fn obeys_add_spec() -> bool {
        true
    }

    open spec fn add_req(self, rhs: Posn) -> bool {
        self.can_offset(rhs.row as int, rhs.col as int)
    }

    open spec fn add_spec(self, rhs: Posn) -> Posn {
        self.offset(rhs.row as int, rhs.col as int)
    }
}

impl core::ops::Add<(i32, i32)> for Posn {
    type Output = Posn;

    fn add(self, rhs: (i32, i32)) -> (sum: Posn) {
        Posn { row: self.row + rhs.0, col: self.col + rhs.1 }
    }
}

impl AddSpecImpl<(i32, i32)> for Posn {
    open spec fn obeys_add_spec() -> bool {
        true
    }

    open spec fn add_req(self, rhs: (i32, i32)) -> bool {
        self.can_offset(rhs.0 as int, rhs.1 as int)
    }

    open spec fn add_spec(self, rhs: (i32, i32)) -> Posn {
        self.offset(rhs.0 as int, rhs.1 as int)
    }
}

/// The four neighbours of a position, handed out one at a time in the order
/// north, east, south, west.
pub struct Adjacencies {
    pos: Posn,
    dir: Direction,
    done: bool,
}

/// The neighbours of `pos` from direction `from` onward, in handing-out
/// order.
pub open spec fn neighbours_from(pos: Posn, from: Direction) -> Seq<Posn> {
    match from {
        Direction::North => seq![
            pos.step(Direction::North),
            pos.step(Direction::East),
            pos.step(Direction::South),
            pos.step(Direction::West),
        ],
        Direction::East => seq![
            pos.step(Direction::East),
            pos.step(Direction::South),
            pos.step(Direction::West),
        ],
        Direction::South => seq![pos.step(Direction::South), pos.step(Direction::West)],
        Direction::West => seq![pos.step(Direction::West)],
    }
}

impl Posn {
    /// Whether all four neighbours of this position are representable.
    pub open spec fn has_neighbours(self) -> bool {
        &&& i32::MIN < self.row < i32::MAX
        &&& i32::MIN < self.col < i32::MAX
    }

    /// The four neighbours of this position: north, east, south, west.
    pub open spec fn neighbours(self) -> Seq<Posn> {
        neighbours_from(self, Direction::North)
    }
}

/// The direction that is handed out after `d`, if any.
pub open spec fn following(d: Direction) -> Option<Direction> {
    match d {
        Direction::North => Some(Direction::East),
        Direction::East => Some(Direction::South),
        Direction::South => Some(Direction::West),
        Direction::West => None,
    }
}

impl Adjacencies {
    /// The position whose neighbours are handed out.
    pub closed spec fn origin(&self) -> Posn {
        self.pos
    }

    /// The direction of the neighbour that is handed out next, if any is
    /// left.
    pub closed spec fn heading(&self) -> Option<Direction> {
        if self.done {
            None
        } else {
            Some(self.dir)
        }
    }

    /// The neighbours that are still to come, in order.
    pub open spec fn remaining(&self) -> Seq<Posn> {
        match self.heading() {
            Some(d) => neighbours_from(self.origin(), d),
            None => Seq::empty(),
        }
    }

    pub fn new(pos: Posn) -> (it: Adjacencies)
        ensures
            it.origin() == pos,
            it.heading() == Some(Direction::North),
    {
        Adjacencies { pos: pos, dir: Direction::North, done: false }
    }

    /// Hands out the next neighbour, or `None` once all four are out.
    pub fn next(&mut self) -> (r: Option<Posn>)
        requires
            old(self).heading() matches Some(d) ==> old(self).origin().can_step(d),
        ensures
            final(self).origin() == old(self).origin(),
            match old(self).heading() {
                Some(d) => r == Some(old(self).origin().step(d)) && final(self).heading()
                    == following(d),
                None => r is None && final(self).heading() is None,
            },
    {
        if self.done {
            return None;
        }
        let next_pos = self.pos + self.dir.numeric();
        let dir = {
            match self.dir {
                Direction::North => Direction::East,
                Direction::East => Direction::South,
                Direction::South => Direction::West,
                Direction::West => {
                    self.done = true;
                    Direction::North
                },
            }
        };
        self.dir = dir;
        Some(next_pos)
    }

    /// All the neighbours that are still to come, in order.
    pub fn collect(self) -> (rest: Vec<Posn>)
        requires
            self.heading() is Some ==> self.origin().has_neighbours(),
        ensures
            rest@ == self.remaining(),
    {
        let mut it = self;
        let mut rest: Vec<Posn> = Vec::new();
        loop
            invariant
                it.origin() == self.origin(),
                it.heading() is Some ==> it.origin().has_neighbours(),
                rest@ + it.remaining() == self.remaining(),
            ensures
                rest@ == self.remaining(),
            decreases it.remaining().len(),
        {
            let ghost before = it.remaining();
            match it.next() {
                Some(p) => {
                    rest.push(p);
                    assert(rest@ + it.remaining() =~= self.remaining()) by {
                        assert(before =~= seq![p] + it.remaining());
                    }
                },
                None => {
                    assert(rest@ =~= rest@ + it.remaining());
                    break ;
                },
            }
        }
        rest
    }
}

} // verus!
