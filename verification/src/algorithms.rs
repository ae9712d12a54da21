//! The seven generation strategies.  Each transforms an initially unlinked
//! grid by carving passages between adjacent cells, treating masked-out
//! cells as entirely absent: they contribute no index, no neighbor, and are
//! never linked.  Every strategy preserves the lattice shape and the link
//! invariant — carving is all it does.
//!
//! The walk-based strategies (Aldous-Broder, Wilson's, Hunt-and-Kill, the
//! backtracker) run under an astronomically large step budget rather than
//! truly unbounded: a walk that somehow exhausted it would stop with the
//! maze carved only partially, which no feasible run reaches.

use vstd::prelude::*;

use crate::distances::spanning_check;
use crate::cell::is_adjacent;
use crate::grid::Grid;
use crate::grid::grid_links_wf;
use crate::grid::grid_wf;
use crate::grid::flags_le;
use crate::grid::in_bounds;
use crate::grid::index_of;
use crate::grid::lemma_index_of_in_bounds;
use crate::grid::lemma_spec_get_after_link;
use crate::grid::lemma_grid_link_monotone;
use crate::grid::lemma_links_monotone_refl;
use crate::grid::lemma_links_monotone_trans;
use crate::grid::lemma_same_structure_get;
use crate::grid::lemma_slot_coords;
use crate::grid::links_monotone;
use crate::grid::lemma_get_point;
use crate::grid::lemma_neighbor_points_present;
use crate::grid::lemma_present_cell_in_bounds;
use crate::grid::lemma_same_structure_refl;
use crate::grid::lemma_same_structure_trans;
use crate::grid::same_structure;
use crate::grid::spanning;
use crate::grid::spec_east;
use crate::grid::spec_north;
use crate::grid::spec_get;
use crate::point::Point;
use crate::rng::RandomSource;

verus! {

/// What every generation step guarantees: the dimensions, the distance
/// record and the lattice shape of `g1` survive into `g2`, which is again a
/// well-formed grid with symmetric links.
pub open spec fn keeps_lattice<G: Grid>(g1: G, g2: G) -> bool {
    &&& g2.gwidth() == g1.gwidth()
    &&& g2.gheight() == g1.gheight()
    &&& g2.gdistances() == g1.gdistances()
    &&& grid_wf(g2.gwidth(), g2.gheight(), g2.gcells())
    &&& grid_links_wf(g2.gwidth(), g2.gheight(), g2.gcells())
    &&& same_structure(g1.gcells(), g2.gcells())
}

/// Whether `v` holds `p`.
fn vec_contains_point(v: &Vec<Point>, p: Point) -> (r: bool)
    ensures
        r == v@.contains(p),
{
    let n = v.len();
    let mut i: usize = 0;
    while i < n
        invariant
            i <= n,
            n == v@.len(),
            forall|j: int| 0 <= j < i ==> v@[j] != p,
        decreases n - i,
    {
        if v[i] == p {
            return true;
        }
        i = i + 1;
    }
    false
}

/// The first position of `p` in `v`, if any.
fn vec_position_of(v: &Vec<Point>, p: Point) -> (r: Option<usize>)
    ensures
        r matches Some(i) ==> i < v@.len() && v@[i as int] == p && (forall|j: int|
            0 <= j < i ==> v@[j] != p),
        r is None ==> !v@.contains(p),
{
    let n = v.len();
    let mut i: usize = 0;
    while i < n
        invariant
            i <= n,
            n == v@.len(),
            forall|j: int| 0 <= j < i ==> v@[j] != p,
        decreases n - i,
    {
        if v[i] == p {
            return Some(i);
        }
        i = i + 1;
    }
    None
}

/// Drop every occurrence of `p` from `v`, keeping the order of the rest.
fn vec_remove_point(v: &mut Vec<Point>, p: Point)
    ensures
        !final(v)@.contains(p),
        forall|k: int| 0 <= k < final(v)@.len() ==> old(v)@.contains(#[trigger] final(v)@[k]),
        final(v)@.len() <= old(v)@.len(),
{
    let n = v.len();
    let mut kept: Vec<Point> = Vec::new();
    let mut i: usize = 0;
    while i < n
        invariant
            i <= n,
            n == v@.len(),
            kept@.len() <= i,
            forall|k: int| 0 <= k < kept@.len() ==> #[trigger] kept@[k] != p,
            forall|k: int| 0 <= k < kept@.len() ==> v@.contains(#[trigger] kept@[k]),
        decreases n - i,
    {
        let q = v[i];
        if q != p {
            kept.push(q);
        }
        i = i + 1;
    }
    proof {
        if kept@.contains(p) {
            let k = choose|k: int| 0 <= k < kept@.len() && kept@[k] == p;
        }
    }
    *v = kept;
}


/// The cell has an existing neighbor to its north or east.
pub open spec fn ne_neighbor_present(
    w: int,
    h: int,
    cells: Seq<Option<crate::cell::Cell>>,
    p: Point,
) -> bool {
    spec_get(w, h, cells, spec_north(p)) is Some || spec_get(w, h, cells, spec_east(p)) is Some
}

/// What Binary Tree guarantees of every outcome, whatever the draws: every
/// cell that has a north or east neighbor ends carved toward one of them.
pub open spec fn binary_tree_linked(w: int, h: int, cells: Seq<Option<crate::cell::Cell>>) -> bool {
    forall|i: int|
        0 <= i < cells.len() ==> (#[trigger] cells[i] matches Some(c) ==> (ne_neighbor_present(
            w,
            h,
            cells,
            c.point,
        ) ==> (c.north.linked || c.east.linked)))
}

/// One planned carve of the Binary Tree pass: from a present cell toward its
/// present north or east neighbor.
pub open spec fn bt_action_ok(
    w: int,
    h: int,
    cells: Seq<Option<crate::cell::Cell>>,
    act: (Point, Point),
) -> bool {
    &&& spec_get(w, h, cells, act.0) is Some
    &&& spec_get(w, h, cells, act.1) is Some
    &&& (act.1 == spec_north(act.0) || act.1 == spec_east(act.0))
}

/// Every slot holds a cell: the grid carries no mask.
pub open spec fn fully_open(cells: Seq<Option<crate::cell::Cell>>) -> bool {
    forall|i: int| 0 <= i < cells.len() ==> (#[trigger] cells[i]) is Some
}

/// Slot `i` holds a cell with at least one carved passage.
pub open spec fn slot_flagged(cells: Seq<Option<crate::cell::Cell>>, i: int) -> bool {
    cells[i] matches Some(c) && !crate::cell::cell_unlinked(c)
}

/// Slot `i` holds a cell whose west passage is carved.
pub open spec fn slot_west_flagged(cells: Seq<Option<crate::cell::Cell>>, i: int) -> bool {
    cells[i] matches Some(c) && c.west.linked
}

/// What Sidewinder guarantees of every outcome on a fully-open grid: every
/// cell except the north-east corner ends with at least one carved passage —
/// each run step either carves east or closes out through a run member.
pub open spec fn sidewinder_linked(w: int, h: int, cells: Seq<Option<crate::cell::Cell>>) -> bool {
    fully_open(cells) ==> forall|i: int|
        0 <= i < cells.len() && i != w - 1 ==> #[trigger] slot_flagged(cells, i)
}

/// One of the seven generation strategies, or no generation at all.
pub enum Algorithm {
    BinaryTree,
    Sidewinder,
    AldousBroder,
    Wilsons,
    HuntAndKill,
    RecursiveBacktracker,
    NoOp,
}

impl Algorithm {
    /// Run this strategy over `grid`, drawing randomness from `rng`.  The
    /// returned flag reports that the run completed and its result was
    /// checked to be a perfect maze — a spanning tree of the present cells.
    pub fn on<G: Grid>(&self, grid: &mut G, rng: &mut RandomSource) -> (completed: bool)
        requires
            grid_wf(old(grid).gwidth(), old(grid).gheight(), old(grid).gcells()),
            grid_links_wf(old(grid).gwidth(), old(grid).gheight(), old(grid).gcells()),
        ensures
            keeps_lattice(*old(grid), *final(grid)),
            self is NoOp ==> final(grid).gcells() == old(grid).gcells(),
            completed ==> spanning(
                final(grid).gwidth(),
                final(grid).gheight(),
                final(grid).gcells(),
            ),
    {
        match self {
            Algorithm::BinaryTree => self.binary_tree(grid, rng),
            Algorithm::Sidewinder => self.sidewinder(grid, rng),
            Algorithm::AldousBroder => self.aldous_broder(grid, rng),
            Algorithm::Wilsons => self.wilsons(grid, rng),
            Algorithm::HuntAndKill => self.hunt_and_kill(grid, rng),
            Algorithm::RecursiveBacktracker => self.recursive_backtracker(grid, rng),
            Algorithm::NoOp => {
                proof {
                    lemma_same_structure_refl(grid.gcells());
                }
                spanning_check(grid)
            },
        }
    }

    /// For every cell, link uniformly to its north or east neighbor,
    /// whichever exist; no backtracking.  One pass over all cells.
    /// Whatever the draws, every cell with a north or east neighbor ends
    /// carved toward one of them.
    #[verifier::rlimit(100)]
    #[verifier::spinoff_prover]
    fn binary_tree<G: Grid>(&self, grid: &mut G, rng: &mut RandomSource) -> (completed: bool)
        requires
            grid_wf(old(grid).gwidth(), old(grid).gheight(), old(grid).gcells()),
            grid_links_wf(old(grid).gwidth(), old(grid).gheight(), old(grid).gcells()),
        ensures
            keeps_lattice(*old(grid), *final(grid)),
            completed ==> spanning(
                final(grid).gwidth(),
                final(grid).gheight(),
                final(grid).gcells(),
            ),
            binary_tree_linked(final(grid).gwidth(), final(grid).gheight(), final(grid).gcells()),
    {
        let ghost g0 = *grid;
        let ghost w = g0.gwidth();
        let ghost h = g0.gheight();
        proof {
            lemma_same_structure_refl(grid.gcells());
        }
        let n = grid.cells().len();
        let mut actions: Vec<(Point, Point)> = Vec::new();
        let mut i: usize = 0;
        while i < n
            invariant
                i <= n,
                n == grid.gcells().len(),
                grid_wf(grid.gwidth(), grid.gheight(), grid.gcells()),
                g0 == *old(grid),
                *grid == g0,
                w == g0.gwidth(),
                h == g0.gheight(),
                keeps_lattice(g0, *grid),
                forall|t: int|
                    0 <= t < actions@.len() ==> bt_action_ok(w, h, g0.gcells(), #[trigger] actions@[t]),
                forall|k: int|
                    0 <= k < i ==> (#[trigger] g0.gcells()[k] matches Some(c) ==> (
                    ne_neighbor_present(w, h, g0.gcells(), c.point) ==> exists|t: int|
                        0 <= t < actions@.len() && (#[trigger] actions@[t]).0 == c.point)),
            decreases n - i,
        {
            let ghost old_actions = actions@;
            let slot = grid.cells()[i];
            if let Some(cell) = slot {
                proof {
                    lemma_present_cell_in_bounds(w, h, g0.gcells(), cell);
                    lemma_get_point(w, h, g0.gcells(), cell.point);
                }
                let mut neighbors: Vec<Point> = Vec::new();
                if let Some(north) = grid.get(cell.north.point) {
                    proof {
                        lemma_get_point(w, h, g0.gcells(), cell.north.point);
                    }
                    neighbors.push(north.point);
                }
                if let Some(east) = grid.get(cell.east.point) {
                    proof {
                        lemma_get_point(w, h, g0.gcells(), cell.east.point);
                    }
                    neighbors.push(east.point);
                }
                proof {
                    assert(cell.north.point == spec_north(cell.point));
                    assert(cell.east.point == spec_east(cell.point));
                    assert forall|e: int| 0 <= e < neighbors@.len() implies bt_action_ok(
                        w,
                        h,
                        g0.gcells(),
                        (cell.point, #[trigger] neighbors@[e]),
                    ) by {}
                }
                if neighbors.len() > 0 {
                    let pick = rng.below(neighbors.len());
                    actions.push((cell.point, neighbors[pick]));
                } else {
                    proof {
                        assert(!ne_neighbor_present(w, h, g0.gcells(), cell.point));
                    }
                }
            }
            proof {
                assert forall|k: int|
                    0 <= k < i + 1 implies (#[trigger] g0.gcells()[k] matches Some(c) ==> (
                ne_neighbor_present(w, h, g0.gcells(), c.point) ==> exists|t: int|
                    0 <= t < actions@.len() && (#[trigger] actions@[t]).0 == c.point)) by {
                    if g0.gcells()[k] is Some {
                        let c = g0.gcells()[k]->Some_0;
                        if ne_neighbor_present(w, h, g0.gcells(), c.point) {
                            if k == i {
                                assert(actions@[actions@.len() - 1].0 == c.point);
                            } else {
                                let t = choose|t: int|
                                    0 <= t < old_actions.len() && (#[trigger] old_actions[t]).0
                                        == c.point;
                                assert(actions@[t].0 == c.point);
                            }
                        }
                    }
                }
            }
            i = i + 1;
        }
        let m = actions.len();
        let mut j: usize = 0;
        proof {
            lemma_links_monotone_refl(g0.gcells());
        }
        while j < m
            invariant
                j <= m,
                m == actions@.len(),
                g0 == *old(grid),
                w == g0.gwidth(),
                h == g0.gheight(),
                keeps_lattice(g0, *grid),
                links_monotone(g0.gcells(), grid.gcells()),
                forall|t: int|
                    0 <= t < actions@.len() ==> bt_action_ok(w, h, g0.gcells(), #[trigger] actions@[t]),
                forall|k: int|
                    0 <= k < g0.gcells().len() ==> (#[trigger] g0.gcells()[k] matches Some(c) ==> (
                    ne_neighbor_present(w, h, g0.gcells(), c.point) ==> exists|t: int|
                        0 <= t < actions@.len() && (#[trigger] actions@[t]).0 == c.point)),
                forall|t: int|
                    0 <= t < j ==> (spec_get(
                        w,
                        h,
                        grid.gcells(),
                        (#[trigger] actions@[t]).0,
                    ) matches Some(c2) && (c2.north.linked || c2.east.linked)),
            decreases m - j,
        {
            let ghost pre = *grid;
            let action = actions[j];
            proof {
                lemma_same_structure_get(w, h, g0.gcells(), pre.gcells(), action.0);
                lemma_same_structure_get(w, h, g0.gcells(), pre.gcells(), action.1);
                lemma_get_point(w, h, pre.gcells(), action.0);
                assert(is_adjacent(action.0, action.1));
            }
            grid.link(action.0, action.1, true);
            proof {
                lemma_same_structure_trans(g0.gcells(), pre.gcells(), grid.gcells());
                lemma_grid_link_monotone(w, h, pre.gcells(), action.0, action.1, true);
                lemma_links_monotone_trans(g0.gcells(), pre.gcells(), grid.gcells());
                lemma_spec_get_after_link(w, h, pre.gcells(), action.0, action.1, true);
                assert forall|t: int|
                    0 <= t < j + 1 implies (spec_get(
                    w,
                    h,
                    grid.gcells(),
                    (#[trigger] actions@[t]).0,
                ) matches Some(c2) && (c2.north.linked || c2.east.linked)) by {
                    if t < j {
                        let a0 = actions@[t].0;
                        lemma_index_of_in_bounds(w, h, a0);
                        assert(flags_le(pre.gcells()[index_of(w, a0)], grid.gcells()[index_of(w, a0)]));
                    } else {
                        assert(spec_get(w, h, grid.gcells(), action.0) == Some(
                            crate::cell::spec_cell_link(
                                spec_get(w, h, pre.gcells(), action.0)->Some_0,
                                action.1,
                            ),
                        ));
                    }
                }
            }
            j = j + 1;
        }
        proof {
            assert forall|k: int|
                0 <= k < grid.gcells().len() implies (#[trigger] grid.gcells()[k] matches Some(c)
                ==> (ne_neighbor_present(w, h, grid.gcells(), c.point) ==> (c.north.linked
                || c.east.linked))) by {
                if grid.gcells()[k] is Some {
                    let c = grid.gcells()[k]->Some_0;
                    if ne_neighbor_present(w, h, grid.gcells(), c.point) {
                        assert(crate::grid::slot_same(g0.gcells(), grid.gcells(), k));
                        let c0 = g0.gcells()[k]->Some_0;
                        assert(c0.point == c.point);
                        lemma_same_structure_get(
                            w,
                            h,
                            g0.gcells(),
                            grid.gcells(),
                            spec_north(c.point),
                        );
                        lemma_same_structure_get(
                            w,
                            h,
                            g0.gcells(),
                            grid.gcells(),
                            spec_east(c.point),
                        );
                        assert(ne_neighbor_present(w, h, g0.gcells(), c0.point));
                        let t = choose|t: int|
                            0 <= t < actions@.len() && (#[trigger] actions@[t]).0 == c0.point;
                        assert(spec_get(w, h, grid.gcells(), c0.point) matches Some(c2) && (
                        c2.north.linked || c2.east.linked));
                        assert(crate::grid::slot_wf(w, g0.gcells(), k));
                        assert(w >= 1) by (nonlinear_arith)
                            requires
                                0 <= k < w * h,
                                0 <= w,
                        ;
                        lemma_slot_coords(w, h, k, c0.point);
                        assert(spec_get(w, h, grid.gcells(), c0.point) == grid.gcells()[k]);
                    }
                }
            }
            assert(binary_tree_linked(grid.gwidth(), grid.gheight(), grid.gcells()));
        }
        spanning_check(grid)
    }

    /// Row by row, west to east: extend a run eastward on a coin flip, except
    /// that the eastern boundary forces a close and the northern boundary
    /// forces an extension; on a close, link one uniformly-drawn run member
    /// north.  Whatever the draws, on a fully-open grid every cell except
    /// the north-east corner ends with a carved passage.
    #[verifier::rlimit(100)]
    #[verifier::spinoff_prover]
    fn sidewinder<G: Grid>(&self, grid: &mut G, rng: &mut RandomSource) -> (completed: bool)
        requires
            grid_wf(old(grid).gwidth(), old(grid).gheight(), old(grid).gcells()),
            grid_links_wf(old(grid).gwidth(), old(grid).gheight(), old(grid).gcells()),
        ensures
            keeps_lattice(*old(grid), *final(grid)),
            completed ==> spanning(
                final(grid).gwidth(),
                final(grid).gheight(),
                final(grid).gcells(),
            ),
            sidewinder_linked(final(grid).gwidth(), final(grid).gheight(), final(grid).gcells()),
    {
        let ghost g0 = *grid;
        let ghost w = g0.gwidth();
        let ghost h = g0.gheight();
        proof {
            lemma_same_structure_refl(grid.gcells());
        }
        let width = grid.width();
        let height = grid.height();
        let mut y: usize = 0;
        while y < height
            invariant
                y <= height,
                width == g0.gwidth(),
                height == g0.gheight(),
                w == g0.gwidth(),
                h == g0.gheight(),
                g0 == *old(grid),
                keeps_lattice(g0, *grid),
                fully_open(g0.gcells()) ==> forall|idx: int|
                    0 <= idx < y * w && idx != w - 1 ==> #[trigger] slot_flagged(
                        grid.gcells(),
                        idx,
                    ),
            decreases height - y,
        {
            let mut run: Vec<Point> = Vec::new();
            let mut x: usize = 0;
            while x < width
                invariant
                    x <= width,
                    y < height,
                    width == g0.gwidth(),
                    height == g0.gheight(),
                    w == g0.gwidth(),
                    h == g0.gheight(),
                    g0 == *old(grid),
                    keeps_lattice(g0, *grid),
                    forall|k: int|
                        0 <= k < run@.len() ==> in_bounds(
                            grid.gwidth(),
                            grid.gheight(),
                            #[trigger] run@[k],
                        ),
                    fully_open(g0.gcells()) ==> forall|idx: int|
                        0 <= idx < y * w + x && idx != w - 1 ==> #[trigger] slot_flagged(
                            grid.gcells(),
                            idx,
                        ),
                    run@.len() >= 1 && x < width ==> (fully_open(g0.gcells())
                        ==> slot_west_flagged(grid.gcells(), y * w + x)),
                decreases width - x,
            {
                let ghost pre0 = *grid;
                let p = Point::new(x as i32, y as i32);
                proof {
                    assert(in_bounds(w, h, p));
                    assert(index_of(w, p) == y * w + x);
                    lemma_index_of_in_bounds(w, h, p);
                }
                if grid.get(p).is_some() {
                    run.push(p);
                    let at_eastern_boundary = x + 1 == width;
                    let at_northern_boundary = y == 0;
                    let should_close_out = at_eastern_boundary || (!at_northern_boundary
                        && rng.coin());
                    if should_close_out {
                        let pick = rng.below(run.len());
                        let member = run[pick];
                        let north = Point::new(member.x, member.y - 1);
                        let ghost pre = *grid;
                        grid.link(member, north, true);
                        proof {
                            lemma_same_structure_trans(g0.gcells(), pre.gcells(), grid.gcells());
                            lemma_grid_link_monotone(w, h, pre.gcells(), member, north, true);
                            if fully_open(g0.gcells()) {
                                assert forall|idx: int|
                                    0 <= idx < y * w + x + 1 && idx != w - 1 implies
                                    #[trigger] slot_flagged(grid.gcells(), idx) by {
                                    if idx < y * w + x {
                                        assert(slot_flagged(pre.gcells(), idx));
                                        assert(flags_le(pre.gcells()[idx], grid.gcells()[idx]));
                                    } else {
                                        assert(y >= 1) by {
                                            if y == 0 {
                                                assert(should_close_out == at_eastern_boundary);
                                                assert(x == width - 1);
                                                assert(y * w == 0) by (nonlinear_arith)
                                                    requires
                                                        y == 0,
                                                ;
                                                assert(idx == w - 1);
                                            }
                                        }
                                        if run@.len() >= 2 {
                                            assert(slot_west_flagged(pre.gcells(), idx));
                                            assert(flags_le(pre.gcells()[idx], grid.gcells()[idx]));
                                        } else {
                                            assert(member == p);
                                            assert(in_bounds(w, h, north));
                                            lemma_index_of_in_bounds(w, h, north);
                                            assert(crate::grid::slot_same(
                                                g0.gcells(),
                                                pre.gcells(),
                                                index_of(w, north),
                                            ));
                                            assert(spec_get(w, h, pre.gcells(), north) is Some);
                                            assert(crate::grid::slot_same(
                                                g0.gcells(),
                                                pre.gcells(),
                                                idx,
                                            ));
                                            assert(spec_get(w, h, pre.gcells(), p) is Some);
                                            lemma_get_point(w, h, pre.gcells(), p);
                                            assert(is_adjacent(p, north));
                                            lemma_spec_get_after_link(
                                                w,
                                                h,
                                                pre.gcells(),
                                                member,
                                                north,
                                                true,
                                            );
                                            assert(spec_get(w, h, grid.gcells(), p) == Some(
                                                crate::cell::spec_cell_link(
                                                    spec_get(w, h, pre.gcells(), p)->Some_0,
                                                    north,
                                                ),
                                            ));
                                        }
                                    }
                                }
                            }
                        }
                        run.clear();
                    } else {
                        let east = Point::new(p.x + 1, p.y);
                        let ghost pre = *grid;
                        grid.link(p, east, true);
                        proof {
                            lemma_same_structure_trans(g0.gcells(), pre.gcells(), grid.gcells());
                            lemma_grid_link_monotone(w, h, pre.gcells(), p, east, true);
                            if fully_open(g0.gcells()) {
                                assert(in_bounds(w, h, east));
                                lemma_index_of_in_bounds(w, h, east);
                                assert(crate::grid::slot_same(
                                    g0.gcells(),
                                    pre.gcells(),
                                    index_of(w, east),
                                ));
                                assert(crate::grid::slot_same(
                                    g0.gcells(),
                                    pre.gcells(),
                                    index_of(w, p),
                                ));
                                assert(spec_get(w, h, pre.gcells(), p) is Some);
                                assert(spec_get(w, h, pre.gcells(), east) is Some);
                                lemma_get_point(w, h, pre.gcells(), p);
                                lemma_get_point(w, h, pre.gcells(), east);
                                assert(is_adjacent(p, east));
                                lemma_spec_get_after_link(w, h, pre.gcells(), p, east, true);
                                assert(spec_get(w, h, grid.gcells(), p) == Some(
                                    crate::cell::spec_cell_link(
                                        spec_get(w, h, pre.gcells(), p)->Some_0,
                                        east,
                                    ),
                                ));
                                assert(spec_get(w, h, grid.gcells(), east) == Some(
                                    crate::cell::spec_cell_link(
                                        spec_get(w, h, pre.gcells(), east)->Some_0,
                                        p,
                                    ),
                                ));
                                assert(index_of(w, east) == y * w + x + 1);
                                assert(slot_west_flagged(grid.gcells(), y * w + x + 1));
                                assert forall|idx: int|
                                    0 <= idx < y * w + x + 1 && idx != w - 1 implies
                                    #[trigger] slot_flagged(grid.gcells(), idx) by {
                                    if idx < y * w + x {
                                        assert(slot_flagged(pre.gcells(), idx));
                                        assert(flags_le(pre.gcells()[idx], grid.gcells()[idx]));
                                    } else {
                                        assert(idx == index_of(w, p));
                                    }
                                }
                            }
                        }
                    }
                } else {
                    proof {
                        if fully_open(g0.gcells()) {
                            assert(crate::grid::slot_same(g0.gcells(), pre0.gcells(), y * w + x));
                            assert(spec_get(w, h, pre0.gcells(), p) is Some);
                            assert(false);
                        }
                    }
                }
                x = x + 1;
            }
            proof {
                assert(y * w + w == (y + 1) * w) by (nonlinear_arith);
            }
            y = y + 1;
        }
        proof {
            if fully_open(grid.gcells()) {
                assert(fully_open(g0.gcells())) by {
                    assert forall|i2: int|
                        0 <= i2 < g0.gcells().len() implies (#[trigger] g0.gcells()[i2]) is Some by {
                        assert(crate::grid::slot_same(g0.gcells(), grid.gcells(), i2));
                    }
                }
                assert(h * w == w * h) by (nonlinear_arith);
            }
            assert(sidewinder_linked(grid.gwidth(), grid.gheight(), grid.gcells()));
        }
        spanning_check(grid)
    }

    /// Random walk from a random start; whenever the walk steps into an
    /// unvisited cell, link it to the cell the walk came from.  Stops once
    /// every other cell has been visited; yields a uniform spanning tree.
    fn aldous_broder<G: Grid>(&self, grid: &mut G, rng: &mut RandomSource) -> (completed: bool)
        requires
            grid_wf(old(grid).gwidth(), old(grid).gheight(), old(grid).gcells()),
            grid_links_wf(old(grid).gwidth(), old(grid).gheight(), old(grid).gcells()),
        ensures
            keeps_lattice(*old(grid), *final(grid)),
            completed ==> spanning(
                final(grid).gwidth(),
                final(grid).gheight(),
                final(grid).gcells(),
            ),
    {
        let ghost g0 = *grid;
        proof {
            lemma_same_structure_refl(grid.gcells());
        }
        let start = match grid.random_cell(rng) {
            Some(c) => c,
            None => {
                return false;
            },
        };
        proof {
            lemma_present_cell_in_bounds(grid.gwidth(), grid.gheight(), grid.gcells(), start);
        }
        let n = grid.cells().len();
        let mut present: usize = 0;
        let mut i: usize = 0;
        while i < n
            invariant
                i <= n,
                present <= i,
                n == grid.gcells().len(),
                g0 == *old(grid),
                keeps_lattice(g0, *grid),
            decreases n - i,
        {
            if grid.cells()[i].is_some() {
                present = present + 1;
            }
            i = i + 1;
        }
        if present == 0 {
            return false;
        }
        let mut unvisited = present - 1;
        let mut cell = start;
        let mut budget: u64 = u64::MAX;
        while unvisited > 0 && budget > 0
            invariant
                g0 == *old(grid),
                keeps_lattice(g0, *grid),
                in_bounds(grid.gwidth(), grid.gheight(), cell.point),
            decreases budget,
        {
            budget = budget - 1;
            let neighbors = grid.neighbors(cell.point);
            proof {
                lemma_neighbor_points_present(
                    grid.gwidth(),
                    grid.gheight(),
                    grid.gcells(),
                    cell.point,
                );
            }
            if neighbors.len() == 0 {
                return false;
            }
            let pick = rng.below(neighbors.len());
            let npoint = neighbors[pick];
            let ncell = grid.get(npoint).unwrap();
            proof {
                lemma_get_point(grid.gwidth(), grid.gheight(), grid.gcells(), npoint);
            }
            if ncell.links().len() == 0 {
                let ghost pre = *grid;
                grid.link(cell.point, ncell.point, true);
                proof {
                    lemma_same_structure_trans(g0.gcells(), pre.gcells(), grid.gcells());
                }
                unvisited = unvisited - 1;
            }
            cell = ncell;
        }
        spanning_check(grid)
    }

    /// Loop-erased random walks: walk from an unvisited cell until hitting
    /// the visited set, erasing any loop formed en route, then link the
    /// erased path into the tree; repeat until every cell is absorbed.
    /// Yields a uniform spanning tree.
    fn wilsons<G: Grid>(&self, grid: &mut G, rng: &mut RandomSource) -> (completed: bool)
        requires
            grid_wf(old(grid).gwidth(), old(grid).gheight(), old(grid).gcells()),
            grid_links_wf(old(grid).gwidth(), old(grid).gheight(), old(grid).gcells()),
        ensures
            keeps_lattice(*old(grid), *final(grid)),
            completed ==> spanning(
                final(grid).gwidth(),
                final(grid).gheight(),
                final(grid).gcells(),
            ),
    {
        let ghost g0 = *grid;
        proof {
            lemma_same_structure_refl(grid.gcells());
        }
        let n = grid.cells().len();
        let mut unvisited: Vec<Point> = Vec::new();
        let mut i: usize = 0;
        while i < n
            invariant
                i <= n,
                n == grid.gcells().len(),
                g0 == *old(grid),
                keeps_lattice(g0, *grid),
                forall|k: int|
                    0 <= k < unvisited@.len() ==> in_bounds(
                        grid.gwidth(),
                        grid.gheight(),
                        #[trigger] unvisited@[k],
                    ),
            decreases n - i,
        {
            let slot = grid.cells()[i];
            if let Some(c) = slot {
                proof {
                    lemma_present_cell_in_bounds(grid.gwidth(), grid.gheight(), grid.gcells(), c);
                }
                unvisited.push(c.point);
            }
            i = i + 1;
        }
        if unvisited.len() == 0 {
            return false;
        }
        let first = rng.below(unvisited.len());
        unvisited.remove(first);
        let mut budget: u64 = u64::MAX;
        while unvisited.len() > 0 && budget > 0
            invariant
                g0 == *old(grid),
                keeps_lattice(g0, *grid),
                forall|k: int|
                    0 <= k < unvisited@.len() ==> in_bounds(
                        grid.gwidth(),
                        grid.gheight(),
                        #[trigger] unvisited@[k],
                    ),
            decreases budget,
        {
            budget = budget - 1;
            let start_pick = rng.below(unvisited.len());
            let mut cell_pt = unvisited[start_pick];
            let mut path: Vec<Point> = Vec::new();
            path.push(cell_pt);
            let mut walking = vec_contains_point(&unvisited, cell_pt);
            let mut walk_budget: u64 = u64::MAX;
            while walking && walk_budget > 0
                invariant
                    g0 == *old(grid),
                keeps_lattice(g0, *grid),
                    in_bounds(grid.gwidth(), grid.gheight(), cell_pt),
                decreases walk_budget,
            {
                walk_budget = walk_budget - 1;
                let neighbors = grid.neighbors(cell_pt);
                proof {
                    lemma_neighbor_points_present(
                        grid.gwidth(),
                        grid.gheight(),
                        grid.gcells(),
                        cell_pt,
                    );
                }
                if neighbors.len() == 0 {
                    return false;
                }
                let pick = rng.below(neighbors.len());
                cell_pt = neighbors[pick];
                match vec_position_of(&path, cell_pt) {
                    Some(position) => {
                        let plen = path.len();
                        proof {
                            assert(position < plen);
                        }
                        path.truncate(position + 1);
                    },
                    None => {
                        path.push(cell_pt);
                    },
                }
                walking = vec_contains_point(&unvisited, cell_pt);
            }
            if walking {
                return false;
            }
            let steps = path.len();
            let mut k: usize = 0;
            while k + 1 < steps
                invariant
                    k == 0 || k < steps,
                    steps == path@.len(),
                    g0 == *old(grid),
                keeps_lattice(g0, *grid),
                    forall|t: int|
                        0 <= t < unvisited@.len() ==> in_bounds(
                            grid.gwidth(),
                            grid.gheight(),
                            #[trigger] unvisited@[t],
                        ),
                decreases steps - k,
            {
                let ghost pre = *grid;
                let a = path[k];
                let b = path[k + 1];
                grid.link(a, b, true);
                proof {
                    lemma_same_structure_trans(g0.gcells(), pre.gcells(), grid.gcells());
                }
                let ghost before_remove = unvisited@;
                vec_remove_point(&mut unvisited, a);
                proof {
                    assert forall|t: int| 0 <= t < unvisited@.len() implies in_bounds(
                        grid.gwidth(),
                        grid.gheight(),
                        #[trigger] unvisited@[t],
                    ) by {
                        assert(before_remove.contains(unvisited@[t]));
                        let w = choose|w: int|
                            0 <= w < before_remove.len() && before_remove[w] == unvisited@[t];
                    }
                }
                k = k + 1;
            }
        }
        spanning_check(grid)
    }

    /// Random walk linking into unvisited neighbors until stuck; then hunt:
    /// scan the grid row-major for the first unvisited cell adjacent to a
    /// visited one, link it in, and resume walking from there.  Terminates
    /// when the hunt finds no such cell.
    fn hunt_and_kill<G: Grid>(&self, grid: &mut G, rng: &mut RandomSource) -> (completed: bool)
        requires
            grid_wf(old(grid).gwidth(), old(grid).gheight(), old(grid).gcells()),
            grid_links_wf(old(grid).gwidth(), old(grid).gheight(), old(grid).gcells()),
        ensures
            keeps_lattice(*old(grid), *final(grid)),
            completed ==> spanning(
                final(grid).gwidth(),
                final(grid).gheight(),
                final(grid).gcells(),
            ),
    {
        let ghost g0 = *grid;
        proof {
            lemma_same_structure_refl(grid.gcells());
        }
        let start = match grid.random_cell(rng) {
            Some(c) => c,
            None => {
                return false;
            },
        };
        proof {
            lemma_present_cell_in_bounds(grid.gwidth(), grid.gheight(), grid.gcells(), start);
        }
        let mut current: Option<Point> = Some(start.point);
        let mut budget: u64 = u64::MAX;
        while current.is_some() && budget > 0
            invariant
                g0 == *old(grid),
                keeps_lattice(g0, *grid),
                current matches Some(p) ==> in_bounds(grid.gwidth(), grid.gheight(), p),
            decreases budget,
        {
            budget = budget - 1;
            let cur = current.unwrap();
            let neighbors = grid.neighbors(cur);
            proof {
                lemma_neighbor_points_present(grid.gwidth(), grid.gheight(), grid.gcells(), cur);
            }
            let mut unvisited_neighbors: Vec<Point> = Vec::new();
            let nn = neighbors.len();
            let mut t: usize = 0;
            while t < nn
                invariant
                    t <= nn,
                    nn == neighbors@.len(),
                    g0 == *old(grid),
                keeps_lattice(g0, *grid),
                    forall|k: int|
                        0 <= k < neighbors@.len() ==> in_bounds(
                            grid.gwidth(),
                            grid.gheight(),
                            #[trigger] neighbors@[k],
                        ) && spec_get(
                            grid.gwidth(),
                            grid.gheight(),
                            grid.gcells(),
                            neighbors@[k],
                        ) is Some,
                    forall|k: int|
                        0 <= k < unvisited_neighbors@.len() ==> in_bounds(
                            grid.gwidth(),
                            grid.gheight(),
                            #[trigger] unvisited_neighbors@[k],
                        ),
                decreases nn - t,
            {
                let np = neighbors[t];
                let ncell = grid.get(np).unwrap();
                if ncell.links().len() == 0 {
                    unvisited_neighbors.push(np);
                }
                t = t + 1;
            }
            if unvisited_neighbors.len() > 0 {
                let pick = rng.below(unvisited_neighbors.len());
                let nb = unvisited_neighbors[pick];
                let ghost pre = *grid;
                grid.link(cur, nb, true);
                proof {
                    lemma_same_structure_trans(g0.gcells(), pre.gcells(), grid.gcells());
                }
                current = Some(nb);
            } else {
                current = None;
                let n = grid.cells().len();
                let mut i: usize = 0;
                let mut found = false;
                while i < n && !found
                    invariant
                        i <= n,
                        n == grid.gcells().len(),
                        g0 == *old(grid),
                keeps_lattice(g0, *grid),
                        current matches Some(p) ==> in_bounds(grid.gwidth(), grid.gheight(), p),
                    decreases n - i,
                {
                    let slot = grid.cells()[i];
                    if let Some(c) = slot {
                        if c.links().len() == 0 {
                            proof {
                                lemma_present_cell_in_bounds(
                                    grid.gwidth(),
                                    grid.gheight(),
                                    grid.gcells(),
                                    c,
                                );
                            }
                            let nbrs = grid.neighbors(c.point);
                            proof {
                                lemma_neighbor_points_present(
                                    grid.gwidth(),
                                    grid.gheight(),
                                    grid.gcells(),
                                    c.point,
                                );
                            }
                            let mut visited_neighbors: Vec<Point> = Vec::new();
                            let mm = nbrs.len();
                            let mut u: usize = 0;
                            while u < mm
                                invariant
                                    u <= mm,
                                    mm == nbrs@.len(),
                                    g0 == *old(grid),
                keeps_lattice(g0, *grid),
                                    forall|k: int|
                                        0 <= k < nbrs@.len() ==> in_bounds(
                                            grid.gwidth(),
                                            grid.gheight(),
                                            #[trigger] nbrs@[k],
                                        ) && spec_get(
                                            grid.gwidth(),
                                            grid.gheight(),
                                            grid.gcells(),
                                            nbrs@[k],
                                        ) is Some,
                                    forall|k: int|
                                        0 <= k < visited_neighbors@.len() ==> in_bounds(
                                            grid.gwidth(),
                                            grid.gheight(),
                                            #[trigger] visited_neighbors@[k],
                                        ),
                                decreases mm - u,
                            {
                                let np = nbrs[u];
                                let ncell = grid.get(np).unwrap();
                                if ncell.links().len() > 0 {
                                    visited_neighbors.push(np);
                                }
                                u = u + 1;
                            }
                            if visited_neighbors.len() > 0 {
                                let pick = rng.below(visited_neighbors.len());
                                let vn = visited_neighbors[pick];
                                let ghost pre = *grid;
                                grid.link(c.point, vn, true);
                                proof {
                                    lemma_same_structure_trans(
                                        g0.gcells(),
                                        pre.gcells(),
                                        grid.gcells(),
                                    );
                                }
                                current = Some(c.point);
                                found = true;
                            }
                        }
                    }
                    i = i + 1;
                }
            }
        }
        spanning_check(grid)
    }

    /// Depth-first search with an explicit stack: link to a uniformly-drawn
    /// unvisited neighbor and push it, or pop when none is left; done when
    /// the stack empties.
    fn recursive_backtracker<G: Grid>(&self, grid: &mut G, rng: &mut RandomSource) -> (completed: bool)
        requires
            grid_wf(old(grid).gwidth(), old(grid).gheight(), old(grid).gcells()),
            grid_links_wf(old(grid).gwidth(), old(grid).gheight(), old(grid).gcells()),
        ensures
            keeps_lattice(*old(grid), *final(grid)),
            completed ==> spanning(
                final(grid).gwidth(),
                final(grid).gheight(),
                final(grid).gcells(),
            ),
    {
        let ghost g0 = *grid;
        proof {
            lemma_same_structure_refl(grid.gcells());
        }
        let start = match grid.random_cell(rng) {
            Some(c) => c,
            None => {
                return false;
            },
        };
        proof {
            lemma_present_cell_in_bounds(grid.gwidth(), grid.gheight(), grid.gcells(), start);
        }
        let mut stack: Vec<Point> = Vec::new();
        stack.push(start.point);
        let mut budget: u64 = u64::MAX;
        while stack.len() > 0 && budget > 0
            invariant
                g0 == *old(grid),
                keeps_lattice(g0, *grid),
                forall|k: int|
                    0 <= k < stack@.len() ==> in_bounds(
                        grid.gwidth(),
                        grid.gheight(),
                        #[trigger] stack@[k],
                    ),
            decreases budget,
        {
            budget = budget - 1;
            let cur = stack[stack.len() - 1];
            let neighbors = grid.neighbors(cur);
            proof {
                lemma_neighbor_points_present(grid.gwidth(), grid.gheight(), grid.gcells(), cur);
            }
            let mut unvisited: Vec<Point> = Vec::new();
            let nn = neighbors.len();
            let mut t: usize = 0;
            while t < nn
                invariant
                    t <= nn,
                    nn == neighbors@.len(),
                    g0 == *old(grid),
                keeps_lattice(g0, *grid),
                    forall|k: int|
                        0 <= k < neighbors@.len() ==> in_bounds(
                            grid.gwidth(),
                            grid.gheight(),
                            #[trigger] neighbors@[k],
                        ) && spec_get(
                            grid.gwidth(),
                            grid.gheight(),
                            grid.gcells(),
                            neighbors@[k],
                        ) is Some,
                    forall|k: int|
                        0 <= k < unvisited@.len() ==> in_bounds(
                            grid.gwidth(),
                            grid.gheight(),
                            #[trigger] unvisited@[k],
                        ),
                decreases nn - t,
            {
                let np = neighbors[t];
                let ncell = grid.get(np).unwrap();
                if ncell.links().len() == 0 {
                    unvisited.push(np);
                }
                t = t + 1;
            }
            if unvisited.len() == 0 {
                stack.pop();
            } else {
                let pick = rng.below(unvisited.len());
                let nb = unvisited[pick];
                let ghost pre = *grid;
                grid.link(cur, nb, true);
                proof {
                    lemma_same_structure_trans(g0.gcells(), pre.gcells(), grid.gcells());
                }
                stack.push(nb);
            }
        }
        spanning_check(grid)
    }
}

} // verus!
