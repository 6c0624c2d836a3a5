//! A container of rows of items, addressed by position.

use vstd::prelude::*;
use crate::posn::Posn;

verus! {

pub struct Grid<T>(pub Vec<Vec<T>>);

impl<T> Grid<T> {
    /// The number of rows.
    pub open spec fn rows(&self) -> int {
        self.0@.len() as int
    }

    /// The number of columns of row `r`.
    pub open spec fn cols_of(&self, r: int) -> int {
        self.0@[r]@.len() as int
    }

    /// Whether `p` addresses an item of the grid.
    pub open spec fn contains(&self, p: Posn) -> bool {
        0 <= p.row < self.rows() && 0 <= p.col < self.cols_of(p.row as int)
    }

    /// The item at `p`, meaningful where `p` addresses one.
    pub open spec fn at(&self, p: Posn) -> T {
        self.0@[p.row as int]@[p.col as int]
    }

    /// Whether this grid is `before` with the item at `p` replaced by
    /// `item` and nothing else changed.
    pub open spec fn is_update_of(&self, before: &Grid<T>, p: Posn, item: T) -> bool {
        &&& self.rows() == before.rows()
        &&& forall|r: int| 0 <= r < self.rows() ==> self.cols_of(r) == before.cols_of(r)
        &&& self.at(p) == item
        &&& forall|q: Posn|
            #![trigger self.at(q)]
            #![trigger before.at(q)]
            before.contains(q) && q != p ==> self.at(q) == before.at(q)
    }

    pub fn new(v: Vec<Vec<T>>) -> (grid: Grid<T>)
        ensures
            grid.0 == v,
    {
        Grid(v)
    }

    /// Whether `p` addresses an item of the grid.
    pub fn has(&self, p: Posn) -> (r: bool)
        ensures
            r == self.contains(p),
    {
        p.row >= 0 && (p.row as usize) < self.0.len() && p.col >= 0 && (p.col as usize)
            < self.0[p.row as usize].len()
    }

    /// Puts `item` at `p`.
    pub fn set(&mut self, p: Posn, item: T)
        requires
            old(self).contains(p),
        ensures
            final(self).is_update_of(old(self), p, item),
    {
        self.0[p.row as usize][p.col as usize] = item;
    }
}

impl<T> std::ops::Index<Posn> for Grid<T> {
    type Output = T;

    fn index(&self, p: Posn) -> (item: &T)
        ensures
            *item == self.at(p),
    {
        &self.0[p.row as usize][p.col as usize]
    }
}

impl<T> vstd::std_specs::core::IndexSpecImpl<Posn> for Grid<T> {
    open spec fn index_req(&self, p: &Posn) -> bool {
        self.contains(*p)
    }
}

} // verus!
