//! 2-D integer coordinates with cardinal-direction offsets.

use vstd::prelude::*;

verus! {

/// One of the four cardinal directions of the lattice.
#[derive(Debug, Clone, Copy, PartialEq, Eq, Structural)]
pub enum Direction {
    North,
    East,
    South,
    West,
}

/// An integer pair `(x, y)`; an immutable value type, copied freely.
/// `y` grows southward: north of `(x, y)` is `(x, y - 1)`.
#[derive(Debug, Clone, Copy, PartialEq, Eq, Hash, Structural)]
pub struct Point {
    pub x: i32,
    pub y: i32,
}

impl Point {
    pub fn new(x: i32, y: i32) -> (r: Self)
        ensures
            r.x == x,
            r.y == y,
    {
        Self { x, y }
    }

    pub fn zero() -> (r: Self)
        ensures
            r.x == 0,
            r.y == 0,
    {
        Self::new(0, 0)
    }

    pub fn north(&self) -> (r: Self)
        requires
            self.y > i32::MIN,
        ensures
            r.x == self.x,
            r.y == self.y - 1,
    {
        Self::new(self.x, self.y - 1)
    }

    pub fn south(&self) -> (r: Self)
        requires
            self.y < i32::MAX,
        ensures
            r.x == self.x,
            r.y == self.y + 1,
    {
        Self::new(self.x, self.y + 1)
    }

    pub fn east(&self) -> (r: Self)
        requires
            self.x < i32::MAX,
        ensures
            r.x == self.x + 1,
            r.y == self.y,
    {
        Self::new(self.x + 1, self.y)
    }

    pub fn west(&self) -> (r: Self)
        requires
            self.x > i32::MIN,
        ensures
            r.x == self.x - 1,
            r.y == self.y,
    {
        Self::new(self.x - 1, self.y)
    }

    /// The unit offset conventionally paired with each direction.
    pub fn in_direction(direction: Direction) -> (r: Self)
        ensures
            direction == Direction::North ==> r.x == 0 && r.y == 1,
            direction == Direction::South ==> r.x == 0 && r.y == -1,
            direction == Direction::East ==> r.x == 1 && r.y == 0,
            direction == Direction::West ==> r.x == -1 && r.y == 0,
    {
        match direction {
            Direction::North => Point::new(0, 1),
            Direction::South => Point::new(0, -1),
            Direction::East => Point::new(1, 0),
            Direction::West => Point::new(-1, 0),
        }
    }
}

} // verus!
