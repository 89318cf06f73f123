//! Grid coordinates and their row-major order.
use std::cmp::Ordering;
use vstd::prelude::*;
use vstd::std_specs::cmp::PartialOrdSpecImpl;

verus! {

/// A cell coordinate: column `x` and row `y`, counted from the top-left
/// corner, with `y` growing downwards.
#[derive(Clone, Copy, Debug, PartialEq, Eq, Hash, Structural)]
pub struct Point {
    pub x: usize,
    pub y: usize,
}

impl Point {
    /// Row-major strict order: by row first, by column within a row.
    pub open spec fn before(self, other: Point) -> bool {
        self.y < other.y || (self.y == other.y && self.x < other.x)
    }

    pub fn new(x: usize, y: usize) -> (p: Point)
        ensures
            p == (Point { x, y }),
    {
        Point { x, y }
    }

    pub fn x(&self) -> (x: usize)
        ensures
            x == self.x,
    {
        self.x
    }

    pub fn y(&self) -> (y: usize)
        ensures
            y == self.y,
    {
        self.y
    }

    /// The coordinate as the pair `(x, y)`.
    pub fn inner(&self) -> (pair: (usize, usize))
        ensures
            pair == (self.x, self.y),
    {
        (self.x, self.y)
    }

    /// Compares two points in row-major order.
    pub fn cmp(&self, other: &Point) -> (o: Ordering)
        ensures
            o is Less <==> self.before(*other),
            o is Greater <==> other.before(*self),
            o is Equal <==> *self == *other,
    {
        if self.y < other.y {
            Ordering::Less
        } else if self.y > other.y {
            Ordering::Greater
        } else if self.x < other.x {
            Ordering::Less
        } else if self.x > other.x {
            Ordering::Greater
        } else {
            Ordering::Equal
        }
    }
}

impl PartialOrd for Point {
    fn partial_cmp(&self, other: &Point) -> (o: Option<Ordering>) {
        Some(self.cmp(other))
    }
}

impl PartialOrdSpecImpl for Point {
    open spec fn obeys_partial_cmp_spec() -> bool {
        true
    }

    open spec fn partial_cmp_spec(&self, other: &Point) -> Option<Ordering> {
        if self.before(*other) {
            Some(Ordering::Less)
        } else if other.before(*self) {
            Some(Ordering::Greater)
        } else {
            Some(Ordering::Equal)
        }
    }
}

/// The row-major order is a strict total order.
pub proof fn lemma_row_major_total_order(a: Point, b: Point, c: Point)
    ensures
        !a.before(a),
        a.before(b) && b.before(c) ==> a.before(c),
        a.before(b) || b.before(a) || a == b,
        !(a.before(b) && b.before(a)),
{
}

} // verus!
