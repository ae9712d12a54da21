//! Lattice nodes: each cell records its own coordinate and four directed
//! neighbor slots (north/east/south/west), each holding the adjacent
//! coordinate and a "linked" flag marking a carved passage.

use vstd::prelude::*;

use crate::point::Point;

verus! {

/// A neighbor slot: the adjacent coordinate, and whether a passage has been
/// carved toward it.  Adjacency alone is not a passage; only `linked` is.
#[derive(Debug, Clone, Copy, PartialEq, Eq, Structural)]
pub struct NeighborPoint {
    pub point: Point,
    pub linked: bool,
}

/// A node of the maze graph, keyed by its `point`.
#[derive(Debug, Clone, Copy, PartialEq, Eq, Structural)]
pub struct Cell {
    pub point: Point,
    pub north: NeighborPoint,
    pub east: NeighborPoint,
    pub south: NeighborPoint,
    pub west: NeighborPoint,
}

/// `b` lies exactly one cardinal step from `a`.
pub open spec fn is_adjacent(a: Point, b: Point) -> bool {
    ||| (b.x == a.x && b.y == a.y - 1)
    ||| (b.x == a.x && b.y == a.y + 1)
    ||| (b.x == a.x + 1 && b.y == a.y)
    ||| (b.x == a.x - 1 && b.y == a.y)
}

/// Each neighbor slot of `c` holds the coordinate one step in its direction.
pub open spec fn wf_cell(c: Cell) -> bool {
    &&& c.north.point.x == c.point.x && c.north.point.y == c.point.y - 1
    &&& c.south.point.x == c.point.x && c.south.point.y == c.point.y + 1
    &&& c.east.point.x == c.point.x + 1 && c.east.point.y == c.point.y
    &&& c.west.point.x == c.point.x - 1 && c.west.point.y == c.point.y
}

/// No passage has been carved out of `c` yet.
pub open spec fn cell_unlinked(c: Cell) -> bool {
    !c.north.linked && !c.south.linked && !c.east.linked && !c.west.linked
}

/// The cell `c` after carving a passage toward the adjacent point `other`;
/// `c` itself when `other` is not adjacent.
pub open spec fn spec_cell_link(c: Cell, other: Point) -> Cell {
    if other.x == c.point.x && other.y == c.point.y - 1 {
        Cell { north: NeighborPoint { point: c.north.point, linked: true }, ..c }
    } else if other.x == c.point.x && other.y == c.point.y + 1 {
        Cell { south: NeighborPoint { point: c.south.point, linked: true }, ..c }
    } else if other.x == c.point.x + 1 && other.y == c.point.y {
        Cell { east: NeighborPoint { point: c.east.point, linked: true }, ..c }
    } else if other.x == c.point.x - 1 && other.y == c.point.y {
        Cell { west: NeighborPoint { point: c.west.point, linked: true }, ..c }
    } else {
        c
    }
}

/// The coordinates `c` has carved passages toward, in the fixed order
/// north, south, east, west.
pub open spec fn spec_links(c: Cell) -> Seq<Point> {
    let s = Seq::<Point>::empty();
    let s = if c.north.linked { s.push(c.north.point) } else { s };
    let s = if c.south.linked { s.push(c.south.point) } else { s };
    let s = if c.east.linked { s.push(c.east.point) } else { s };
    if c.west.linked { s.push(c.west.point) } else { s }
}

impl Cell {
    /// A fresh, unlinked cell at `point`, its four slots aimed at the four
    /// adjacent coordinates.
    pub fn new(point: Point) -> (r: Self)
        requires
            i32::MIN < point.x < i32::MAX,
            i32::MIN < point.y < i32::MAX,
        ensures
            r.point == point,
            wf_cell(r),
            cell_unlinked(r),
    {
        Self {
            point,
            north: NeighborPoint { point: Point::new(point.x, point.y - 1), linked: false },
            east: NeighborPoint { point: Point::new(point.x + 1, point.y), linked: false },
            south: NeighborPoint { point: Point::new(point.x, point.y + 1), linked: false },
            west: NeighborPoint { point: Point::new(point.x - 1, point.y), linked: false },
        }
    }

    /// Carve a passage out of this cell toward the adjacent coordinate
    /// `other_position`.  Linking a non-adjacent coordinate would corrupt the
    /// maze invariant, so it is ruled out by contract.
    pub fn link(&mut self, other_position: Point)
        requires
            is_adjacent(old(self).point, other_position),
        ensures
            *final(self) == spec_cell_link(*old(self), other_position),
    {
        let dx = other_position.x - self.point.x;
        let dy = other_position.y - self.point.y;

        if dx == 0 && dy == -1 {
            self.north.linked = true;
        } else if dx == 0 && dy == 1 {
            self.south.linked = true;
        } else if dx == 1 && dy == 0 {
            self.east.linked = true;
        } else {
            self.west.linked = true;
        }
    }

    /// The coordinates this cell has carved passages toward, in the order
    /// north, south, east, west.
    pub fn links(&self) -> (r: Vec<Point>)
        ensures
            r@ == spec_links(*self),
    {
        let mut links = Vec::new();

        if self.north.linked {
            links.push(self.north.point);
        }
        if self.south.linked {
            links.push(self.south.point);
        }
        if self.east.linked {
            links.push(self.east.point);
        }
        if self.west.linked {
            links.push(self.west.point);
        }

        links
    }

    /// Whether a passage has been carved from this cell toward `other`'s
    /// coordinate; `false` when there is no cell there at all.
    pub fn linked(&self, other: Option<Cell>) -> (r: bool)
        ensures
            r == (other matches Some(o) && spec_links(*self).contains(o.point)),
    {
        match other {
            None => false,
            Some(o) => {
                let r = (self.north.linked && self.north.point == o.point)
                    || (self.south.linked && self.south.point == o.point)
                    || (self.east.linked && self.east.point == o.point)
                    || (self.west.linked && self.west.point == o.point);
                proof {
                    lemma_spec_links_contains(*self, o.point);
                }
                r
            },
        }
    }
}

/// Membership in `spec_links(c)` means exactly that one of the linked slots
/// holds the point.
pub proof fn lemma_spec_links_contains(c: Cell, p: Point)
    ensures
        spec_links(c).contains(p) == ((c.north.linked && c.north.point == p)
            || (c.south.linked && c.south.point == p)
            || (c.east.linked && c.east.point == p)
            || (c.west.linked && c.west.point == p)),
{
    let s0 = Seq::<Point>::empty();
    let s1 = if c.north.linked { s0.push(c.north.point) } else { s0 };
    let s2 = if c.south.linked { s1.push(c.south.point) } else { s1 };
    let s3 = if c.east.linked { s2.push(c.east.point) } else { s2 };
    let s4 = if c.west.linked { s3.push(c.west.point) } else { s3 };
    assert(spec_links(c) == s4);
    if s4.contains(p) {
        let i = choose|i: int| 0 <= i < s4.len() && s4[i] == p;
        assert((c.north.linked && c.north.point == p) || (c.south.linked && c.south.point == p)
            || (c.east.linked && c.east.point == p) || (c.west.linked && c.west.point == p));
    }
    if c.north.linked && c.north.point == p {
        assert(s1[0] == p && s4.contains(p)) by {
            assert(s4[0] == s1[0]);
        }
    }
    if c.south.linked && c.south.point == p {
        assert(s4.contains(p)) by {
            assert(s2[s2.len() - 1] == p);
            assert(s4[s2.len() - 1] == p);
        }
    }
    if c.east.linked && c.east.point == p {
        assert(s4.contains(p)) by {
            assert(s3[s3.len() - 1] == p);
            assert(s4[s3.len() - 1] == p);
        }
    }
    if c.west.linked && c.west.point == p {
        assert(s4.contains(p)) by {
            assert(s4[s4.len() - 1] == p);
        }
    }
}

} // verus!
