//! The topology abstraction: a grid owns a flat row-major array of optional
//! cells and exposes linking, O(1) lookup, neighbor resolution and uniform
//! random selection.  The rectangular and the polar lattice share this
//! contract; generation treats both as the same plain 2-D lattice, and only
//! rendering interprets the polar rows as rings.

use vstd::arithmetic::div_mod::lemma_fundamental_div_mod;
use vstd::arithmetic::div_mod::lemma_fundamental_div_mod_converse_div;
use vstd::arithmetic::div_mod::lemma_fundamental_div_mod_converse_mod;
use vstd::prelude::*;

use crate::cell::Cell;
use crate::cell::cell_unlinked;
use crate::cell::is_adjacent;
use crate::cell::lemma_spec_links_contains;
use crate::cell::spec_cell_link;
use crate::cell::spec_links;
use crate::cell::wf_cell;
use crate::rng::RandomSource;
use crate::distances::Distances;
use crate::mask::Mask;
use crate::point::Point;

verus! {

/// `p` lies on the `w x h` lattice.
pub open spec fn in_bounds(w: int, h: int, p: Point) -> bool {
    0 <= p.x < w && 0 <= p.y < h
}

/// The row-major index of `p`.
pub open spec fn index_of(w: int, p: Point) -> int {
    p.y * w + p.x
}

/// The cell stored at `p`: absent for out-of-bounds as well as masked
/// coordinates.
pub open spec fn spec_get(w: int, h: int, cells: Seq<Option<Cell>>, p: Point) -> Option<Cell> {
    if in_bounds(w, h, p) && 0 <= index_of(w, p) < cells.len() {
        cells[index_of(w, p)]
    } else {
        None
    }
}

/// Slot `i` is either empty or holds a well-formed cell whose coordinate is
/// exactly the one the row-major layout assigns to `i`.
pub open spec fn slot_wf(w: int, cells: Seq<Option<Cell>>, i: int) -> bool {
    cells[i] matches Some(c) ==> wf_cell(c) && c.point.x == i % w && c.point.y == i / w
}

/// The grid invariant: the flat array covers the whole `w x h` lattice, the
/// lattice is small enough for `i32` index arithmetic, and every stored cell
/// sits at its own coordinate's slot.
pub open spec fn grid_wf(w: int, h: int, cells: Seq<Option<Cell>>) -> bool {
    &&& cells.len() == w * h
    &&& 0 <= w <= i32::MAX
    &&& 0 <= h <= i32::MAX
    &&& w * h <= i32::MAX
    &&& forall|i: int| 0 <= i < cells.len() ==> #[trigger] slot_wf(w, cells, i)
}

/// Every passage carved out of `c` reaches an existing cell that has carved
/// the matching passage back: links are bidirectional.
pub open spec fn slot_links_ok(w: int, h: int, cells: Seq<Option<Cell>>, c: Cell) -> bool {
    &&& c.north.linked ==> (spec_get(w, h, cells, c.north.point) matches Some(n) && n.south.linked)
    &&& c.south.linked ==> (spec_get(w, h, cells, c.south.point) matches Some(n) && n.north.linked)
    &&& c.east.linked ==> (spec_get(w, h, cells, c.east.point) matches Some(n) && n.west.linked)
    &&& c.west.linked ==> (spec_get(w, h, cells, c.west.point) matches Some(n) && n.east.linked)
}

/// `slot_links_ok` for the cell in slot `i`, if any.
pub open spec fn slot_links_wf(w: int, h: int, cells: Seq<Option<Cell>>, i: int) -> bool {
    cells[i] matches Some(c) ==> slot_links_ok(w, h, cells, c)
}

/// The link invariant of a whole grid: every carved passage is symmetric and
/// reaches an existing cell.  Masked-out cells are never linked.
pub open spec fn grid_links_wf(w: int, h: int, cells: Seq<Option<Cell>>) -> bool {
    forall|i: int| 0 <= i < cells.len() ==> #[trigger] slot_links_wf(w, h, cells, i)
}

/// Slot `i` holds a cell in both arrays or in neither, and the cells agree on
/// every coordinate; only link flags may differ.
pub open spec fn slot_same(c1: Seq<Option<Cell>>, c2: Seq<Option<Cell>>, i: int) -> bool {
    &&& (c1[i] is Some <==> c2[i] is Some)
    &&& (c1[i] matches Some(a) ==> (c2[i] matches Some(b) && a.point == b.point))
}

/// Generation only carves passages: the lattice shape — which slots hold
/// cells, and where — never changes.
pub open spec fn same_structure(c1: Seq<Option<Cell>>, c2: Seq<Option<Cell>>) -> bool {
    &&& c1.len() == c2.len()
    &&& forall|i: int| 0 <= i < c1.len() ==> #[trigger] slot_same(c1, c2, i)
}

/// The cell array after carving a passage between `a` and `b`: both slots
/// updated when `bidi` (the two updates are one atomic step of this spec),
/// only `a`'s otherwise, and no change at all unless `a` and `b` are adjacent
/// and both present — a masked or out-of-bounds endpoint is never linked.
pub open spec fn spec_grid_link(
    w: int,
    h: int,
    cells: Seq<Option<Cell>>,
    a: Point,
    b: Point,
    bidi: bool,
) -> Seq<Option<Cell>> {
    if is_adjacent(a, b) && spec_get(w, h, cells, a) is Some && spec_get(w, h, cells, b) is Some {
        let ca = spec_get(w, h, cells, a)->Some_0;
        let cb = spec_get(w, h, cells, b)->Some_0;
        let cells1 = cells.update(index_of(w, a), Some(spec_cell_link(ca, b)));
        if bidi {
            cells1.update(index_of(w, b), Some(spec_cell_link(cb, a)))
        } else {
            cells1
        }
    } else {
        cells
    }
}

/// An in-bounds point's row-major index is in range, and splitting it back
/// with `/` and `%` recovers the coordinates.
pub proof fn lemma_index_of_in_bounds(w: int, h: int, p: Point)
    requires
        in_bounds(w, h, p),
    ensures
        0 <= index_of(w, p) < w * h,
        index_of(w, p) % w == p.x,
        index_of(w, p) / w == p.y,
{
    assert(0 <= p.y * w + p.x < w * h) by (nonlinear_arith)
        requires
            0 <= p.x < w,
            0 <= p.y < h,
    ;
    lemma_fundamental_div_mod_converse_mod(p.y * w + p.x, w, p.y as int, p.x as int);
    lemma_fundamental_div_mod_converse_div(p.y * w + p.x, w, p.y as int, p.x as int);
}

/// Conversely, a slot index names exactly one in-bounds point.
pub proof fn lemma_slot_coords(w: int, h: int, i: int, p: Point)
    requires
        w >= 1,
        0 <= i < w * h,
        p.x == i % w,
        p.y == i / w,
    ensures
        in_bounds(w, h, p),
        index_of(w, p) == i,
{
    lemma_fundamental_div_mod(i, w);
    assert((i / w) * w == w * (i / w)) by (nonlinear_arith);
    assert(0 <= i % w < w) by (nonlinear_arith)
        requires
            w >= 1,
    ;
    assert(0 <= i / w < h) by (nonlinear_arith)
        requires
            w >= 1,
            0 <= i < w * h,
            i == w * (i / w) + i % w,
            0 <= i % w < w,
    ;
}

/// Distinct in-bounds points occupy distinct slots.
pub proof fn lemma_index_of_injective(w: int, h: int, p: Point, q: Point)
    requires
        in_bounds(w, h, p),
        in_bounds(w, h, q),
        index_of(w, p) == index_of(w, q),
    ensures
        p == q,
{
    lemma_index_of_in_bounds(w, h, p);
    lemma_index_of_in_bounds(w, h, q);
}

/// A present cell sits at its own coordinate's slot, so lookup returns a
/// well-formed cell carrying the queried point.
pub proof fn lemma_get_point(w: int, h: int, cells: Seq<Option<Cell>>, p: Point)
    requires
        grid_wf(w, h, cells),
        spec_get(w, h, cells, p) is Some,
    ensures
        spec_get(w, h, cells, p) matches Some(c) ==> c.point == p && wf_cell(c),
{
    lemma_index_of_in_bounds(w, h, p);
    assert(slot_wf(w, cells, index_of(w, p)));
}

/// How one carve step reads afterward: the two endpoints carry their updated
/// cells, every other coordinate is untouched.
pub proof fn lemma_spec_get_after_link(
    w: int,
    h: int,
    cells: Seq<Option<Cell>>,
    a: Point,
    b: Point,
    bidi: bool,
)
    requires
        grid_wf(w, h, cells),
        is_adjacent(a, b),
        spec_get(w, h, cells, a) is Some,
        spec_get(w, h, cells, b) is Some,
        bidi,
    ensures
        forall|p: Point|
            #[trigger] spec_get(w, h, spec_grid_link(w, h, cells, a, b, bidi), p) == (if p == a {
                Some(spec_cell_link(spec_get(w, h, cells, a)->Some_0, b))
            } else if p == b {
                Some(spec_cell_link(spec_get(w, h, cells, b)->Some_0, a))
            } else {
                spec_get(w, h, cells, p)
            }),
{
    let cells2 = spec_grid_link(w, h, cells, a, b, bidi);
    let ia = index_of(w, a);
    let ib = index_of(w, b);
    lemma_index_of_in_bounds(w, h, a);
    lemma_index_of_in_bounds(w, h, b);
    assert(ia != ib) by {
        if ia == ib {
            lemma_index_of_injective(w, h, a, b);
        }
    }
    assert forall|p: Point|
        #[trigger] spec_get(w, h, cells2, p) == (if p == a {
            Some(spec_cell_link(spec_get(w, h, cells, a)->Some_0, b))
        } else if p == b {
            Some(spec_cell_link(spec_get(w, h, cells, b)->Some_0, a))
        } else {
            spec_get(w, h, cells, p)
        }) by {
        if in_bounds(w, h, p) {
            lemma_index_of_in_bounds(w, h, p);
            if p != a && index_of(w, p) == ia {
                lemma_index_of_injective(w, h, p, a);
            }
            if p != b && index_of(w, p) == ib {
                lemma_index_of_injective(w, h, p, b);
            }
        }
    }
}

/// Carving preserves the grid invariant and the lattice shape, and — for the
/// bidirectional form the algorithms use — the link invariant.
#[verifier::rlimit(80)]
#[verifier::spinoff_prover]
pub proof fn lemma_grid_link_preserves(
    w: int,
    h: int,
    cells: Seq<Option<Cell>>,
    a: Point,
    b: Point,
    bidi: bool,
)
    requires
        grid_wf(w, h, cells),
    ensures
        grid_wf(w, h, spec_grid_link(w, h, cells, a, b, bidi)),
        same_structure(cells, spec_grid_link(w, h, cells, a, b, bidi)),
        bidi && grid_links_wf(w, h, cells) ==> grid_links_wf(
            w,
            h,
            spec_grid_link(w, h, cells, a, b, bidi),
        ),
{
    let cells2 = spec_grid_link(w, h, cells, a, b, bidi);
    if is_adjacent(a, b) && spec_get(w, h, cells, a) is Some && spec_get(w, h, cells, b) is Some {
        let ca = spec_get(w, h, cells, a)->Some_0;
        let cb = spec_get(w, h, cells, b)->Some_0;
        let ia = index_of(w, a);
        let ib = index_of(w, b);
        lemma_index_of_in_bounds(w, h, a);
        lemma_index_of_in_bounds(w, h, b);
        assert(ia != ib) by {
            if ia == ib {
                lemma_index_of_injective(w, h, a, b);
            }
        }
        assert(slot_wf(w, cells, ia));
        assert(slot_wf(w, cells, ib));
        assert forall|i: int| 0 <= i < cells2.len() implies #[trigger] slot_wf(w, cells2, i) by {
            assert(slot_wf(w, cells, i));
        }
        assert forall|i: int| 0 <= i < cells.len() implies #[trigger] slot_same(cells, cells2, i) by {
            assert(slot_wf(w, cells, i));
        }
        if bidi && grid_links_wf(w, h, cells) {
            lemma_spec_get_after_link(w, h, cells, a, b, bidi);
            let ca2 = spec_cell_link(ca, b);
            let cb2 = spec_cell_link(cb, a);
            assert(cells2[ia] == Some(ca2) && cells2[ib] == Some(cb2));
            assert forall|i: int| 0 <= i < cells2.len() implies #[trigger] slot_links_wf(
                w,
                h,
                cells2,
                i,
            ) by {
                assert(slot_links_wf(w, h, cells, i));
                assert(slot_wf(w, cells, i));
                if cells2[i] is Some {
                    let c2 = cells2[i]->Some_0;
                    assert(spec_get(w, h, cells2, a) == Some(ca2));
                    assert(spec_get(w, h, cells2, b) == Some(cb2));
                    if i == ia {
                        assert(slot_links_ok(w, h, cells2, c2));
                    } else if i == ib {
                        assert(slot_links_ok(w, h, cells2, c2));
                    } else {
                        assert(cells2[i] == cells[i]);
                        assert(slot_links_ok(w, h, cells, c2));
                        assert(slot_links_ok(w, h, cells2, c2));
                    }
                }
            }
        }
    } else {
        assert(cells2 == cells);
        assert forall|i: int| 0 <= i < cells.len() implies #[trigger] slot_same(cells, cells2, i) by {
        }
        assert forall|i: int| 0 <= i < cells2.len() implies #[trigger] slot_wf(w, cells2, i) by {
            assert(slot_wf(w, cells, i));
        }
        if bidi && grid_links_wf(w, h, cells) {
            assert forall|i: int| 0 <= i < cells2.len() implies #[trigger] slot_links_wf(
                w,
                h,
                cells2,
                i,
            ) by {
                assert(slot_links_wf(w, h, cells, i));
            }
        }
    }
}

/// Links are symmetric in a well-formed grid: a passage recorded at `p`
/// toward `q` is recorded at `q` toward `p` as well.
pub proof fn lemma_links_sym(w: int, h: int, cells: Seq<Option<Cell>>, p: Point, q: Point)
    requires
        grid_wf(w, h, cells),
        grid_links_wf(w, h, cells),
        spec_get(w, h, cells, p) is Some,
        spec_links(spec_get(w, h, cells, p)->Some_0).contains(q),
    ensures
        spec_get(w, h, cells, q) is Some,
        spec_links(spec_get(w, h, cells, q)->Some_0).contains(p),
{
    let c = spec_get(w, h, cells, p)->Some_0;
    lemma_get_point(w, h, cells, p);
    lemma_index_of_in_bounds(w, h, p);
    assert(slot_links_wf(w, h, cells, index_of(w, p)));
    lemma_spec_links_contains(c, q);
    let n = spec_get(w, h, cells, q)->Some_0;
    lemma_get_point(w, h, cells, q);
    lemma_spec_links_contains(n, p);
}

/// The existing lattice-adjacent coordinates around `p`, in the fixed order
/// north, south, east, west.
pub open spec fn spec_neighbor_points(
    w: int,
    h: int,
    cells: Seq<Option<Cell>>,
    p: Point,
) -> Seq<Point> {
    let s = Seq::<Point>::empty();
    let s = if spec_get(w, h, cells, spec_north(p)) is Some {
        s.push((spec_get(w, h, cells, spec_north(p))->Some_0).point)
    } else {
        s
    };
    let s = if spec_get(w, h, cells, spec_south(p)) is Some {
        s.push((spec_get(w, h, cells, spec_south(p))->Some_0).point)
    } else {
        s
    };
    let s = if spec_get(w, h, cells, spec_east(p)) is Some {
        s.push((spec_get(w, h, cells, spec_east(p))->Some_0).point)
    } else {
        s
    };
    if spec_get(w, h, cells, spec_west(p)) is Some {
        s.push((spec_get(w, h, cells, spec_west(p))->Some_0).point)
    } else {
        s
    }
}

/// The coordinate one step north of `p` (wrapping at the numeric limit,
/// which no in-bounds coordinate reaches).
pub open spec fn spec_north(p: Point) -> Point {
    Point { x: p.x, y: (p.y - 1) as i32 }
}

/// One step south of `p`.
pub open spec fn spec_south(p: Point) -> Point {
    Point { x: p.x, y: (p.y + 1) as i32 }
}

/// One step east of `p`.
pub open spec fn spec_east(p: Point) -> Point {
    Point { x: (p.x + 1) as i32, y: p.y }
}

/// One step west of `p`.
pub open spec fn spec_west(p: Point) -> Point {
    Point { x: (p.x - 1) as i32, y: p.y }
}

/// A grid trivially shares its own lattice shape.
pub proof fn lemma_same_structure_refl(c: Seq<Option<Cell>>)
    ensures
        same_structure(c, c),
{
    assert forall|i: int| 0 <= i < c.len() implies #[trigger] slot_same(c, c, i) by {}
}

/// Keeping the lattice shape is transitive across carve steps.
pub proof fn lemma_same_structure_trans(
    c1: Seq<Option<Cell>>,
    c2: Seq<Option<Cell>>,
    c3: Seq<Option<Cell>>,
)
    requires
        same_structure(c1, c2),
        same_structure(c2, c3),
    ensures
        same_structure(c1, c3),
{
    assert forall|i: int| 0 <= i < c1.len() implies #[trigger] slot_same(c1, c3, i) by {
        assert(slot_same(c1, c2, i));
        assert(slot_same(c2, c3, i));
    }
}

/// Two grids of one shape agree on which coordinates hold a cell.
pub proof fn lemma_same_structure_get(
    w: int,
    h: int,
    c1: Seq<Option<Cell>>,
    c2: Seq<Option<Cell>>,
    p: Point,
)
    requires
        same_structure(c1, c2),
    ensures
        spec_get(w, h, c1, p) is Some <==> spec_get(w, h, c2, p) is Some,
{
    if in_bounds(w, h, p) && 0 <= index_of(w, p) < c1.len() {
        assert(slot_same(c1, c2, index_of(w, p)));
    }
}

/// Every coordinate the neighbor query returns is in bounds and holds a cell.
pub proof fn lemma_neighbor_points_present(w: int, h: int, cells: Seq<Option<Cell>>, p: Point)
    requires
        grid_wf(w, h, cells),
    ensures
        forall|k: int|
            0 <= k < spec_neighbor_points(w, h, cells, p).len() ==> in_bounds(
                w,
                h,
                #[trigger] spec_neighbor_points(w, h, cells, p)[k],
            ) && spec_get(w, h, cells, spec_neighbor_points(w, h, cells, p)[k]) is Some,
{
    if spec_get(w, h, cells, spec_north(p)) is Some {
        lemma_get_point(w, h, cells, spec_north(p));
    }
    if spec_get(w, h, cells, spec_south(p)) is Some {
        lemma_get_point(w, h, cells, spec_south(p));
    }
    if spec_get(w, h, cells, spec_east(p)) is Some {
        lemma_get_point(w, h, cells, spec_east(p));
    }
    if spec_get(w, h, cells, spec_west(p)) is Some {
        lemma_get_point(w, h, cells, spec_west(p));
    }
}

/// A cell stored anywhere in a well-formed grid sits at an in-bounds
/// coordinate, and looking that coordinate up finds it again.
pub proof fn lemma_present_cell_in_bounds(w: int, h: int, cells: Seq<Option<Cell>>, c: Cell)
    requires
        grid_wf(w, h, cells),
        exists|i: int| 0 <= i < cells.len() && cells[i] == Some(c),
    ensures
        in_bounds(w, h, c.point),
        spec_get(w, h, cells, c.point) == Some(c),
{
    let i = choose|i: int| 0 <= i < cells.len() && cells[i] == Some(c);
    assert(slot_wf(w, cells, i));
    assert(w >= 1) by (nonlinear_arith)
        requires
            0 <= i < w * h,
            0 <= w,
    ;
    lemma_slot_coords(w, h, i, c.point);
}


/// Consecutive points of `path` are cells joined by carved passages.
pub open spec fn linked_path(w: int, h: int, cells: Seq<Option<Cell>>, path: Seq<Point>) -> bool {
    &&& path.len() >= 1
    &&& forall|k: int| 0 <= k < path.len() ==> spec_get(w, h, cells, #[trigger] path[k]) is Some
    &&& forall|k: int|
        0 <= k < path.len() - 1 ==> spec_links(
            spec_get(w, h, cells, #[trigger] path[k])->Some_0,
        ).contains(path[k + 1])
}

/// Some carved route joins `a` to `b`.
pub open spec fn link_connected(
    w: int,
    h: int,
    cells: Seq<Option<Cell>>,
    a: Point,
    b: Point,
) -> bool {
    exists|path: Seq<Point>|
        #[trigger] linked_path(w, h, cells, path) && path[0] == a && path.last() == b
}

/// How many carved passages leave the cell in this slot.
pub open spec fn cell_flag_count(slot: Option<Cell>) -> int {
    match slot {
        None => 0,
        Some(c) => spec_links(c).len() as int,
    }
}

/// Passage-ends over the whole array: every bidirectional passage
/// contributes two, one per endpoint.
pub open spec fn links_flag_count(cells: Seq<Option<Cell>>) -> int
    decreases cells.len(),
{
    if cells.len() == 0 {
        0
    } else {
        links_flag_count(cells.drop_last()) + cell_flag_count(cells.last())
    }
}

/// How many slots hold a cell.
pub open spec fn present_count(cells: Seq<Option<Cell>>) -> int
    decreases cells.len(),
{
    if cells.len() == 0 {
        0
    } else {
        present_count(cells.drop_last()) + (if cells.last() is Some {
            1int
        } else {
            0
        })
    }
}

/// A perfect maze over the present cells: a spanning tree.  The passage
/// count is one less than the cell count and every present cell is joined
/// to every other; together those two also exclude cycles.
pub open spec fn spanning(w: int, h: int, cells: Seq<Option<Cell>>) -> bool {
    &&& present_count(cells) >= 1
    &&& links_flag_count(cells) == 2 * (present_count(cells) - 1)
    &&& forall|p: Point, q: Point|
        #![trigger spec_get(w, h, cells, p), spec_get(w, h, cells, q)]
        spec_get(w, h, cells, p) is Some && spec_get(w, h, cells, q) is Some ==> link_connected(
            w,
            h,
            cells,
            p,
            q,
        )
}

/// A carved route read backward is again a carved route: links are
/// symmetric.
pub proof fn lemma_link_connected_sym(
    w: int,
    h: int,
    cells: Seq<Option<Cell>>,
    a: Point,
    b: Point,
)
    requires
        grid_wf(w, h, cells),
        grid_links_wf(w, h, cells),
        link_connected(w, h, cells, a, b),
    ensures
        link_connected(w, h, cells, b, a),
{
    let path = choose|path: Seq<Point>|
        #[trigger] linked_path(w, h, cells, path) && path[0] == a && path.last() == b;
    let n = path.len() as int;
    let rev = Seq::new(path.len(), |i: int| path[n - 1 - i]);
    assert forall|k: int| 0 <= k < rev.len() - 1 implies spec_links(
        spec_get(w, h, cells, #[trigger] rev[k])->Some_0,
    ).contains(rev[k + 1]) by {
        let j = n - 2 - k;
        assert(rev[k] == path[j + 1] && rev[k + 1] == path[j]);
        assert(spec_links(spec_get(w, h, cells, path[j])->Some_0).contains(path[j + 1]));
        lemma_links_sym(w, h, cells, path[j], path[j + 1]);
    }
    assert(linked_path(w, h, cells, rev) && rev[0] == b && rev.last() == a);
}

/// Carved routes concatenate.
pub proof fn lemma_link_connected_trans(
    w: int,
    h: int,
    cells: Seq<Option<Cell>>,
    a: Point,
    b: Point,
    c: Point,
)
    requires
        link_connected(w, h, cells, a, b),
        link_connected(w, h, cells, b, c),
    ensures
        link_connected(w, h, cells, a, c),
{
    let p1 = choose|path: Seq<Point>|
        #[trigger] linked_path(w, h, cells, path) && path[0] == a && path.last() == b;
    let p2 = choose|path: Seq<Point>|
        #[trigger] linked_path(w, h, cells, path) && path[0] == b && path.last() == c;
    let joined = p1 + p2.drop_first();
    let n1 = p1.len() as int;
    assert(joined.len() == n1 + p2.len() - 1);
    assert forall|k: int| 0 <= k < joined.len() implies spec_get(
        w,
        h,
        cells,
        #[trigger] joined[k],
    ) is Some by {
        if k < n1 {
            assert(joined[k] == p1[k]);
        } else {
            assert(joined[k] == p2[k - n1 + 1]);
        }
    }
    assert forall|k: int| 0 <= k < joined.len() - 1 implies spec_links(
        spec_get(w, h, cells, #[trigger] joined[k])->Some_0,
    ).contains(joined[k + 1]) by {
        if k + 1 < n1 {
            assert(joined[k] == p1[k] && joined[k + 1] == p1[k + 1]);
        } else if k + 1 == n1 {
            assert(joined[k] == p1[k] && p1[k] == p1[n1 - 1]);
            assert(joined[k + 1] == p2[1] && p1[n1 - 1] == p2[0]);
            assert(spec_links(spec_get(w, h, cells, p2[0])->Some_0).contains(p2[1]));
        } else {
            assert(joined[k] == p2[k - n1 + 1] && joined[k + 1] == p2[k + 1 - n1 + 1]);
        }
    }
    assert(joined[0] == a);
    assert(joined.last() == c) by {
        if p2.len() == 1 {
            assert(joined =~= p1);
        } else {
            assert(joined.last() == p2.last());
        }
    }
    assert(linked_path(w, h, cells, joined));
}


/// Whatever was carved in this slot survives into the second array's slot.
pub open spec fn flags_le(s1: Option<Cell>, s2: Option<Cell>) -> bool {
    s1 matches Some(c1) ==> (s2 matches Some(c2) && (c1.north.linked ==> c2.north.linked) && (
    c1.south.linked ==> c2.south.linked) && (c1.east.linked ==> c2.east.linked) && (c1.west.linked
        ==> c2.west.linked))
}

/// Carving only adds passages: no step of generation removes one.
pub open spec fn links_monotone(c1: Seq<Option<Cell>>, c2: Seq<Option<Cell>>) -> bool {
    &&& c1.len() == c2.len()
    &&& forall|i: int| 0 <= i < c1.len() ==> #[trigger] flags_le(c1[i], c2[i])
}

/// An array keeps its own passages.
pub proof fn lemma_links_monotone_refl(c: Seq<Option<Cell>>)
    ensures
        links_monotone(c, c),
{
    assert forall|i: int| 0 <= i < c.len() implies #[trigger] flags_le(c[i], c[i]) by {}
}

/// Keeping passages is transitive across carve steps.
pub proof fn lemma_links_monotone_trans(
    c1: Seq<Option<Cell>>,
    c2: Seq<Option<Cell>>,
    c3: Seq<Option<Cell>>,
)
    requires
        links_monotone(c1, c2),
        links_monotone(c2, c3),
    ensures
        links_monotone(c1, c3),
{
    assert forall|i: int| 0 <= i < c1.len() implies #[trigger] flags_le(c1[i], c3[i]) by {
        assert(flags_le(c1[i], c2[i]));
        assert(flags_le(c2[i], c3[i]));
    }
}

/// One carve step never clears a flag.
pub proof fn lemma_grid_link_monotone(
    w: int,
    h: int,
    cells: Seq<Option<Cell>>,
    a: Point,
    b: Point,
    bidi: bool,
)
    ensures
        links_monotone(cells, spec_grid_link(w, h, cells, a, b, bidi)),
{
    let cells2 = spec_grid_link(w, h, cells, a, b, bidi);
    assert forall|i: int| 0 <= i < cells.len() implies #[trigger] flags_le(cells[i], cells2[i]) by {}
}

/// The full unlinked cell array of a fresh `width x height` grid: one
/// well-formed cell at every slot, no passage carved.
pub fn make_cells(width: usize, height: usize) -> (r: Vec<Option<Cell>>)
    requires
        width <= i32::MAX,
        height <= i32::MAX,
        width * height <= i32::MAX,
    ensures
        grid_wf(width as int, height as int, r@),
        grid_links_wf(width as int, height as int, r@),
        forall|i: int| 0 <= i < r@.len() ==> r@[i] is Some,
        forall|i: int|
            0 <= i < r@.len() ==> (#[trigger] r@[i] matches Some(c) ==> cell_unlinked(c)),
{
    proof {
        assert(width * height <= usize::MAX) by (nonlinear_arith)
            requires
                width * height <= i32::MAX,
        ;
    }
    let n = width * height;
    let mut cells: Vec<Option<Cell>> = Vec::new();
    let mut i: usize = 0;
    while i < n
        invariant
            i <= n,
            n == width * height,
            width <= i32::MAX,
            height <= i32::MAX,
            cells@.len() == i,
            forall|j: int| 0 <= j < i ==> #[trigger] slot_wf(width as int, cells@, j),
            forall|j: int| 0 <= j < i ==> cells@[j] is Some,
            forall|j: int|
                0 <= j < i ==> (#[trigger] cells@[j] matches Some(c) ==> cell_unlinked(c)),
        decreases n - i,
    {
        proof {
            assert(width > 0) by (nonlinear_arith)
                requires
                    i < n,
                    n == width * height,
            ;
        }
        let x = i % width;
        let y = i / width;
        proof {
            lemma_fundamental_div_mod(i as int, width as int);
            assert(x < width) by (nonlinear_arith)
                requires
                    width > 0,
                    x == i as int % width as int,
            ;
            assert(y < height) by (nonlinear_arith)
                requires
                    width > 0,
                    i < width * height,
                    y == i as int / width as int,
                    i as int == width as int * (i as int / width as int) + i as int % width as int,
                    0 <= i as int % width as int,
            ;
        }
        let cell = Cell::new(Point::new(x as i32, y as i32));
        let ghost old_cells = cells@;
        cells.push(Some(cell));
        proof {
            assert forall|j: int| 0 <= j < i + 1 implies #[trigger] slot_wf(
                width as int,
                cells@,
                j,
            ) by {
                if j < i {
                    assert(slot_wf(width as int, old_cells, j));
                    assert(cells@[j] == old_cells[j]);
                } else {
                    assert(cells@[j] == Some(cell));
                }
            }
        }
        i = i + 1;
    }
    proof {
        assert forall|j: int| 0 <= j < cells@.len() implies #[trigger] slot_links_wf(
            width as int,
            height as int,
            cells@,
            j,
        ) by {
            assert(cells@[j] matches Some(c) ==> cell_unlinked(c));
        }
    }
    cells
}

/// The shared grid contract.  A conforming topology stores its cells in one
/// flat row-major array; everything else — lookup, linking, neighbor
/// resolution, random selection — is defined once, here, on top of that.
pub trait Grid: Sized {
    /// Number of columns.
    spec fn gwidth(&self) -> int;

    /// Number of rows (rings, for the polar lattice).
    spec fn gheight(&self) -> int;

    /// The flat cell array.
    spec fn gcells(&self) -> Seq<Option<Cell>>;

    /// The distance record the grid carries for rendering.
    spec fn gdistances(&self) -> Distances;

    fn width(&self) -> (w: usize)
        ensures
            w as int == self.gwidth(),
    ;

    fn height(&self) -> (h: usize)
        ensures
            h as int == self.gheight(),
    ;

    fn cells(&self) -> (r: &Vec<Option<Cell>>)
        ensures
            r@ == self.gcells(),
    ;

    /// Replace slot `i`; the Verus-checkable stand-in for handing out a
    /// mutable borrow of the cell array.
    fn set_cell(&mut self, i: usize, c: Option<Cell>)
        requires
            i < old(self).gcells().len(),
        ensures
            final(self).gcells() == old(self).gcells().update(i as int, c),
            final(self).gwidth() == old(self).gwidth(),
            final(self).gheight() == old(self).gheight(),
            final(self).gdistances() == old(self).gdistances(),
    ;

    /// A fresh `width x height` grid with a cell at every position and no
    /// passage carved yet, its distance record rooted at the origin.
    fn new(width: usize, height: usize) -> (r: Self)
        requires
            width <= i32::MAX,
            height <= i32::MAX,
            width * height <= i32::MAX,
        ensures
            r.gwidth() == width,
            r.gheight() == height,
            grid_wf(r.gwidth(), r.gheight(), r.gcells()),
            grid_links_wf(r.gwidth(), r.gheight(), r.gcells()),
            forall|i: int| 0 <= i < r.gcells().len() ==> r.gcells()[i] is Some,
            forall|i: int|
                0 <= i < r.gcells().len() ==> (#[trigger] r.gcells()[i] matches Some(c)
                    ==> cell_unlinked(c)),
            r.gdistances().wf(),
            r.gdistances()@ == Map::<Point, usize>::empty(),
            r.gdistances().spec_root().x == 0 && r.gdistances().spec_root().y == 0,
    ;

    /// Replace the distance record the grid carries.
    fn set_distances(&mut self, distances: Distances)
        ensures
            final(self).gdistances() == distances,
            final(self).gwidth() == old(self).gwidth(),
            final(self).gheight() == old(self).gheight(),
            final(self).gcells() == old(self).gcells(),
    ;

    /// The row-major slot of `point`, absent for out-of-bounds coordinates.
    fn point_to_index(&self, point: Point) -> (r: Option<usize>)
        requires
            grid_wf(self.gwidth(), self.gheight(), self.gcells()),
        ensures
            in_bounds(self.gwidth(), self.gheight(), point) ==> r == Some(
                index_of(self.gwidth(), point) as usize,
            ) && index_of(self.gwidth(), point) < self.gcells().len(),
            !in_bounds(self.gwidth(), self.gheight(), point) ==> r is None,
    {
        let w = self.width();
        let h = self.height();
        if point.x < 0 || point.y < 0 {
            return None;
        }
        let x = point.x as usize;
        let y = point.y as usize;
        if x >= w || y >= h {
            return None;
        }
        proof {
            lemma_index_of_in_bounds(w as int, h as int, point);
        }
        Some(y * w + x)
    }

    /// O(1) lookup by index: absent for out-of-bounds as well as masked
    /// coordinates.
    fn get(&self, point: Point) -> (r: Option<Cell>)
        requires
            grid_wf(self.gwidth(), self.gheight(), self.gcells()),
        ensures
            r == spec_get(self.gwidth(), self.gheight(), self.gcells(), point),
    {
        match self.point_to_index(point) {
            None => None,
            Some(i) => self.cells()[i],
        }
    }

    /// Carve a passage between the lattice-adjacent points `a` and `b`,
    /// updating both endpoints when `bidi` — the algorithms always do.  A
    /// non-adjacent pair, or an endpoint with no cell (out of bounds or
    /// masked), leaves the grid untouched: masked cells are never linked.
    fn link(&mut self, a: Point, b: Point, bidi: bool)
        requires
            grid_wf(old(self).gwidth(), old(self).gheight(), old(self).gcells()),
        ensures
            final(self).gwidth() == old(self).gwidth(),
            final(self).gheight() == old(self).gheight(),
            final(self).gdistances() == old(self).gdistances(),
            final(self).gcells() == spec_grid_link(
                old(self).gwidth(),
                old(self).gheight(),
                old(self).gcells(),
                a,
                b,
                bidi,
            ),
            grid_wf(final(self).gwidth(), final(self).gheight(), final(self).gcells()),
            same_structure(old(self).gcells(), final(self).gcells()),
            bidi && grid_links_wf(old(self).gwidth(), old(self).gheight(), old(self).gcells())
                ==> grid_links_wf(final(self).gwidth(), final(self).gheight(), final(self).gcells()),
    {
        proof {
            lemma_grid_link_preserves(
                self.gwidth(),
                self.gheight(),
                self.gcells(),
                a,
                b,
                bidi,
            );
        }
        let adjacent = {
            let dx = (b.x as i64) - (a.x as i64);
            let dy = (b.y as i64) - (a.y as i64);
            (dx == 0 && dy == -1) || (dx == 0 && dy == 1) || (dx == 1 && dy == 0) || (dx == -1
                && dy == 0)
        };
        if !adjacent {
            return ;
        }
        let ia = match self.point_to_index(a) {
            Some(i) => i,
            None => {
                return ;
            },
        };
        let ib = match self.point_to_index(b) {
            Some(i) => i,
            None => {
                return ;
            },
        };
        let cell_a = match self.cells()[ia] {
            Some(c) => c,
            None => {
                return ;
            },
        };
        let cell_b = match self.cells()[ib] {
            Some(c) => c,
            None => {
                return ;
            },
        };
        proof {
            assert(spec_get(self.gwidth(), self.gheight(), self.gcells(), a) == Some(cell_a));
            assert(spec_get(self.gwidth(), self.gheight(), self.gcells(), b) == Some(cell_b));
            lemma_get_point(self.gwidth(), self.gheight(), self.gcells(), a);
            lemma_get_point(self.gwidth(), self.gheight(), self.gcells(), b);
            assert(ia != ib) by {
                if index_of(self.gwidth(), a) == index_of(self.gwidth(), b) {
                    lemma_index_of_injective(self.gwidth(), self.gheight(), a, b);
                }
            }
        }
        let mut linked_a = cell_a;
        linked_a.link(b);
        self.set_cell(ia, Some(linked_a));
        if !bidi {
            return ;
        }
        let mut linked_b = cell_b;
        linked_b.link(a);
        self.set_cell(ib, Some(linked_b));
    }

    /// The coordinates of the existing cells one step from `point`, in the
    /// fixed order north, south, east, west.
    fn neighbors(&self, point: Point) -> (r: Vec<Point>)
        requires
            grid_wf(self.gwidth(), self.gheight(), self.gcells()),
            i32::MIN < point.x < i32::MAX,
            i32::MIN < point.y < i32::MAX,
        ensures
            r@ == spec_neighbor_points(self.gwidth(), self.gheight(), self.gcells(), point),
    {
        let mut neighbors: Vec<Point> = Vec::new();
        if let Some(north) = self.get(point.north()) {
            neighbors.push(north.point);
        }
        if let Some(south) = self.get(point.south()) {
            neighbors.push(south.point);
        }
        if let Some(east) = self.get(point.east()) {
            neighbors.push(east.point);
        }
        if let Some(west) = self.get(point.west()) {
            neighbors.push(west.point);
        }
        neighbors
    }

    /// Draw uniformly among the existing (non-masked) cells.  On a grid with
    /// no cells at all there is no valid outcome: that degenerate case is
    /// reported as `None`, never retried.
    fn random_cell(&self, rng: &mut RandomSource) -> (r: Option<Cell>)
        requires
            grid_wf(self.gwidth(), self.gheight(), self.gcells()),
        ensures
            r is Some <==> exists|i: int|
                0 <= i < self.gcells().len() && self.gcells()[i] is Some,
            r matches Some(c) ==> exists|i: int|
                0 <= i < self.gcells().len() && self.gcells()[i] == Some(c),
    {
        let n = self.cells().len();
        let mut present: Vec<usize> = Vec::new();
        let mut i: usize = 0;
        while i < n
            invariant
                i <= n,
                n == self.gcells().len(),
                grid_wf(self.gwidth(), self.gheight(), self.gcells()),
                forall|k: int|
                    0 <= k < present@.len() ==> #[trigger] present@[k] < n && self.gcells()[present@[k] as int] is Some,
                present@.len() == 0 ==> forall|k: int| 0 <= k < i ==> self.gcells()[k] is None,
            decreases n - i,
        {
            if self.cells()[i].is_some() {
                present.push(i);
            }
            i = i + 1;
        }
        if present.len() == 0 {
            return None;
        }
        let pick = rng.below(present.len());
        let idx = present[pick];
        let cell = self.cells()[idx];
        proof {
            assert(self.gcells()[idx as int] is Some);
        }
        Some(cell.unwrap())
    }
}

/// The rectangular lattice: cardinal offsets map directly to Cartesian
/// neighbors.
#[derive(Debug, Clone, PartialEq, Eq)]
pub struct RectangularGrid {
    pub width: usize,
    pub height: usize,
    pub cells: Vec<Option<Cell>>,
    pub distances: Distances,
}

/// The polar lattice: a row is a ring, a column an angular sector.  The
/// angular interpretation matters only to a renderer; generation works on
/// the same flat lattice contract as the rectangular grid.
#[derive(Debug, Clone, PartialEq, Eq)]
pub struct PolarGrid {
    pub width: usize,
    pub height: usize,
    pub cells: Vec<Option<Cell>>,
    pub distances: Distances,
}

impl Grid for RectangularGrid {
    open spec fn gwidth(&self) -> int {
        self.width as int
    }

    open spec fn gheight(&self) -> int {
        self.height as int
    }

    open spec fn gcells(&self) -> Seq<Option<Cell>> {
        self.cells@
    }

    open spec fn gdistances(&self) -> Distances {
        self.distances
    }

    fn new(width: usize, height: usize) -> Self {
        Self {
            width,
            height,
            cells: make_cells(width, height),
            distances: Distances::new(Point::new(0, 0)),
        }
    }

    fn set_distances(&mut self, distances: Distances) {
        self.distances = distances;
    }

    fn width(&self) -> usize {
        self.width
    }

    fn height(&self) -> usize {
        self.height
    }

    fn cells(&self) -> &Vec<Option<Cell>> {
        &self.cells
    }

    fn set_cell(&mut self, i: usize, c: Option<Cell>) {
        self.cells.set(i, c);
    }
}

impl crate::mask::Maskable for RectangularGrid {

}

impl crate::mask::Maskable for PolarGrid {

}

impl Grid for PolarGrid {
    open spec fn gwidth(&self) -> int {
        self.width as int
    }

    open spec fn gheight(&self) -> int {
        self.height as int
    }

    open spec fn gcells(&self) -> Seq<Option<Cell>> {
        self.cells@
    }

    open spec fn gdistances(&self) -> Distances {
        self.distances
    }

    fn new(width: usize, height: usize) -> Self {
        Self {
            width,
            height,
            cells: make_cells(width, height),
            distances: Distances::new(Point::new(0, 0)),
        }
    }

    fn set_distances(&mut self, distances: Distances) {
        self.distances = distances;
    }

    fn width(&self) -> usize {
        self.width
    }

    fn height(&self) -> usize {
        self.height
    }

    fn cells(&self) -> &Vec<Option<Cell>> {
        &self.cells
    }

    fn set_cell(&mut self, i: usize, c: Option<Cell>) {
        self.cells.set(i, c);
    }
}

} // verus!
