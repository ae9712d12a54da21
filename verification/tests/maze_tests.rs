use mazes::algorithms::Algorithm;
use mazes::cell::Cell;
use mazes::distances::Distances;
use mazes::grid::Grid;
use mazes::grid::PolarGrid;
use mazes::grid::RectangularGrid;
use mazes::mask::Mask;
use mazes::mask::Maskable;
use mazes::point::Direction;
use mazes::point::Point;
use mazes::rng::RandomSource;

fn open_grid(width: usize, height: usize) -> RectangularGrid {
    RectangularGrid::from_mask(&Mask::new(width, height))
}

fn count_links<G: Grid>(grid: &G) -> usize {
    let mut flags = 0;
    for slot in grid.cells().iter() {
        if let Some(cell) = slot {
            flags += cell.links().len();
        }
    }
    assert!(flags % 2 == 0, "links must be symmetric");
    flags / 2
}

fn reachable_from<G: Grid>(grid: &G, root: Point) -> usize {
    let mut distances = Distances::new(root);
    distances.compute(grid);
    let mut reached = 0;
    for slot in grid.cells().iter() {
        if let Some(cell) = slot {
            if distances.distance(cell.point).is_some() {
                reached += 1;
            }
        }
    }
    reached
}

fn present_count<G: Grid>(grid: &G) -> usize {
    grid.cells().iter().filter(|slot| slot.is_some()).count()
}

fn spanning_tree_check(algorithm: Algorithm, width: usize, height: usize, seed: u64) {
    let mut grid = open_grid(width, height);
    let mut rng = RandomSource::from_seed(seed);
    let completed = algorithm.on(&mut grid, &mut rng);
    assert!(completed, "generation must report a checked perfect maze");
    let n = width * height;
    assert_eq!(count_links(&grid), n - 1, "a perfect maze has N-1 links");
    assert_eq!(reachable_from(&grid, Point::new(0, 0)), n, "every cell is reachable");
}

#[test]
fn binary_tree_spans_open_grids() {
    spanning_tree_check(Algorithm::BinaryTree, 6, 5, 11);
    spanning_tree_check(Algorithm::BinaryTree, 1, 1, 12);
    spanning_tree_check(Algorithm::BinaryTree, 8, 1, 13);
    spanning_tree_check(Algorithm::BinaryTree, 1, 8, 14);
}

#[test]
fn sidewinder_spans_open_grids() {
    spanning_tree_check(Algorithm::Sidewinder, 6, 5, 21);
    spanning_tree_check(Algorithm::Sidewinder, 1, 1, 22);
    spanning_tree_check(Algorithm::Sidewinder, 8, 1, 23);
    spanning_tree_check(Algorithm::Sidewinder, 1, 8, 24);
}

#[test]
fn aldous_broder_spans_open_grids() {
    spanning_tree_check(Algorithm::AldousBroder, 5, 4, 31);
    spanning_tree_check(Algorithm::AldousBroder, 1, 1, 32);
}

#[test]
fn wilsons_spans_open_grids() {
    spanning_tree_check(Algorithm::Wilsons, 5, 4, 41);
    spanning_tree_check(Algorithm::Wilsons, 1, 1, 42);
}

#[test]
fn hunt_and_kill_spans_open_grids() {
    spanning_tree_check(Algorithm::HuntAndKill, 5, 4, 51);
    spanning_tree_check(Algorithm::HuntAndKill, 1, 1, 52);
}

#[test]
fn recursive_backtracker_spans_open_grids() {
    spanning_tree_check(Algorithm::RecursiveBacktracker, 5, 4, 61);
    spanning_tree_check(Algorithm::RecursiveBacktracker, 1, 1, 62);
}

#[test]
fn no_op_algorithm_carves_nothing() {
    let mut grid = open_grid(4, 4);
    let mut rng = RandomSource::from_seed(7);
    let completed = Algorithm::NoOp.on(&mut grid, &mut rng);
    assert!(!completed, "an unlinked 4x4 grid is no spanning tree");
    assert_eq!(count_links(&grid), 0);
}

/// Encode the link structure of a grid as the set of carved passages.
fn tree_signature<G: Grid>(grid: &G) -> Vec<(i32, i32, i32, i32)> {
    let mut edges = Vec::new();
    for slot in grid.cells().iter() {
        if let Some(cell) = slot {
            for target in cell.links() {
                let a = (cell.point.x, cell.point.y);
                let b = (target.x, target.y);
                if a < b {
                    edges.push((a.0, a.1, b.0, b.1));
                }
            }
        }
    }
    edges.sort();
    edges
}

fn uniformity_check(algorithm: Algorithm, runs: usize, seed: u64) {
    let mut rng = RandomSource::from_seed(seed);
    let mut counts: std::collections::HashMap<Vec<(i32, i32, i32, i32)>, usize> =
        std::collections::HashMap::new();
    for _ in 0..runs {
        let mut grid = open_grid(3, 3);
        assert!(algorithm.on(&mut grid, &mut rng));
        *counts.entry(tree_signature(&grid)).or_insert(0) += 1;
    }
    // A 3x3 lattice has exactly 192 spanning trees; a uniform sampler must
    // show all of them, none wildly over- or under-represented.
    assert_eq!(counts.len(), 192, "every spanning tree of the 3x3 grid appears");
    let min = counts.values().min().copied().unwrap();
    let max = counts.values().max().copied().unwrap();
    assert!(min > 0);
    assert!(
        max < min * 3,
        "spread beyond sampling noise: min {} max {}",
        min,
        max
    );
}

#[test]
fn aldous_broder_samples_trees_uniformly() {
    uniformity_check(Algorithm::AldousBroder, 40_000, 101);
}

#[test]
fn wilsons_samples_trees_uniformly() {
    uniformity_check(Algorithm::Wilsons, 40_000, 102);
}

/// A hand-carved 2x2 maze: root (0,0), passages east and south from the
/// root, and one from (0,1) to (1,1).
fn hand_carved() -> RectangularGrid {
    let mut grid = open_grid(2, 2);
    grid.link(Point::new(0, 0), Point::new(1, 0), true);
    grid.link(Point::new(0, 0), Point::new(0, 1), true);
    grid.link(Point::new(0, 1), Point::new(1, 1), true);
    grid
}

#[test]
fn bfs_distances_grow_one_hop_at_a_time() {
    let grid = hand_carved();
    let mut distances = Distances::new(Point::new(0, 0));
    distances.compute(&grid);
    assert_eq!(distances.distance(Point::new(0, 0)), Some(0));
    assert_eq!(distances.distance(Point::new(1, 0)), Some(1));
    assert_eq!(distances.distance(Point::new(0, 1)), Some(1));
    assert_eq!(distances.distance(Point::new(1, 1)), Some(2));
    assert_eq!(distances.distance(Point::new(5, 5)), None);
}

#[test]
fn bfs_leaves_unreached_cells_absent() {
    // No passages at all: only the root is recorded.
    let grid = open_grid(3, 1);
    let mut distances = Distances::new(Point::new(0, 0));
    distances.compute(&grid);
    assert_eq!(distances.distance(Point::new(0, 0)), Some(0));
    assert_eq!(distances.distance(Point::new(1, 0)), None);
    assert_eq!(distances.distance(Point::new(2, 0)), None);
}

#[test]
fn shortest_path_records_one_point_per_level() {
    let grid = hand_carved();
    let mut distances = Distances::new(Point::new(0, 0));
    distances.compute(&grid);
    let goal = Point::new(1, 1);
    let path = distances.shortest_path_to(&grid, goal);
    // The path runs (1,1) -> (0,1) -> (0,0): distance(goal) + 1 points.
    assert_eq!(path.distance(Point::new(1, 1)), Some(2));
    assert_eq!(path.distance(Point::new(0, 1)), Some(1));
    assert_eq!(path.distance(Point::new(0, 0)), Some(0));
    assert_eq!(path.distance(Point::new(1, 0)), None);
    assert_eq!(path.root, Point::new(0, 0));
}

#[test]
fn max_finds_the_farthest_cell() {
    let grid = hand_carved();
    let mut distances = Distances::new(Point::new(0, 0));
    distances.compute(&grid);
    let (distance, point) = distances.max(&grid);
    assert_eq!(distance, 2);
    assert_eq!(point, Point::new(1, 1));
}

#[test]
fn max_on_unlinked_grid_is_the_root() {
    let grid = open_grid(2, 2);
    let mut distances = Distances::new(Point::new(1, 1));
    distances.compute(&grid);
    let (distance, point) = distances.max(&grid);
    assert_eq!(distance, 0);
    assert_eq!(point, Point::new(1, 1));
}

#[test]
fn masking_round_trip() {
    let mut mask = Mask::new(3, 2);
    mask.set(Point::new(1, 0), false);
    mask.set(Point::new(2, 1), false);
    let grid = RectangularGrid::from_mask(&mask);
    for y in 0..2 {
        for x in 0..3 {
            let p = Point::new(x, y);
            let expected = !((x, y) == (1, 0) || (x, y) == (2, 1));
            match grid.get(p) {
                Some(cell) => {
                    assert!(expected, "masked-out point {:?} must be absent", p);
                    assert_eq!(cell.point, p);
                },
                None => assert!(!expected, "present point {:?} must hold a cell", p),
            }
        }
    }
    // Out-of-bounds lookups are absent too.
    assert!(grid.get(Point::new(-1, 0)).is_none());
    assert!(grid.get(Point::new(0, 2)).is_none());
    assert!(grid.get(Point::new(3, 0)).is_none());
}

#[test]
fn from_mask_roots_distances_at_first_open_cell() {
    let mut mask = Mask::new(2, 2);
    mask.set(Point::new(0, 0), false);
    let grid = RectangularGrid::from_mask(&mask);
    assert_eq!(grid.distances.root, Point::new(1, 0));
}

#[test]
fn eight_by_eight_backtracker_is_deterministic_under_a_seed() {
    let mut first = open_grid(8, 8);
    let mut rng = RandomSource::from_seed(2024);
    assert!(Algorithm::RecursiveBacktracker.on(&mut first, &mut rng));
    assert_eq!(count_links(&first), 63);
    assert_eq!(reachable_from(&first, Point::new(0, 0)), 64);

    let mut distances = Distances::new(Point::new(0, 0));
    distances.compute(&first);
    let (max_distance, max_point) = distances.max(&first);

    // The same seed sequence reproduces the identical maze and farthest cell.
    let mut second = open_grid(8, 8);
    let mut rng2 = RandomSource::from_seed(2024);
    assert!(Algorithm::RecursiveBacktracker.on(&mut second, &mut rng2));
    assert_eq!(tree_signature(&first), tree_signature(&second));
    let mut distances2 = Distances::new(Point::new(0, 0));
    distances2.compute(&second);
    assert_eq!(distances2.max(&second), (max_distance, max_point));
}

/// The mask the text "3 3" / ".x." / "..." / ".x." describes.
fn crossless_mask() -> Mask {
    Mask::from_txt(b"3 3\n.x.\n...\n.x.").unwrap()
}

#[test]
fn masked_grid_stays_connected_under_walk_based_algorithms() {
    for (algorithm, seed) in [
        (Algorithm::AldousBroder, 71u64),
        (Algorithm::Wilsons, 72),
        (Algorithm::HuntAndKill, 73),
        (Algorithm::RecursiveBacktracker, 74),
    ] {
        let mut grid = RectangularGrid::from_mask(&crossless_mask());
        assert!(grid.get(Point::new(1, 0)).is_none());
        assert!(grid.get(Point::new(1, 2)).is_none());
        assert_eq!(present_count(&grid), 7);
        let mut rng = RandomSource::from_seed(seed);
        assert!(algorithm.on(&mut grid, &mut rng));
        assert_eq!(count_links(&grid), 6, "7 cells take 6 links");
        assert_eq!(reachable_from(&grid, Point::new(0, 0)), 7);
        // The masked-out cells are never linked.
        assert!(grid.get(Point::new(1, 0)).is_none());
        assert!(grid.get(Point::new(1, 2)).is_none());
    }
}

#[test]
fn fully_masked_grid_is_a_reported_degenerate_case() {
    let mut mask = Mask::new(2, 2);
    for y in 0..2 {
        for x in 0..2 {
            mask.set(Point::new(x, y), false);
        }
    }
    let mut grid = RectangularGrid::from_mask(&mask);
    let mut rng = RandomSource::from_seed(5);
    assert!(grid.random_cell(&mut rng).is_none());
    // Every algorithm terminates at once on an empty grid.
    for algorithm in [
        Algorithm::BinaryTree,
        Algorithm::Sidewinder,
        Algorithm::AldousBroder,
        Algorithm::Wilsons,
        Algorithm::HuntAndKill,
        Algorithm::RecursiveBacktracker,
    ] {
        let completed = algorithm.on(&mut grid, &mut rng);
        assert!(!completed, "an all-masked grid has no spanning tree");
        assert_eq!(count_links(&grid), 0);
    }
}

#[test]
fn random_cell_only_selects_present_cells() {
    let mut rng = RandomSource::from_seed(9);
    let grid = RectangularGrid::from_mask(&crossless_mask());
    for _ in 0..50 {
        let cell = grid.random_cell(&mut rng).unwrap();
        assert!(grid.get(cell.point).is_some());
        assert_ne!(cell.point, Point::new(1, 0));
        assert_ne!(cell.point, Point::new(1, 2));
    }
}

#[test]
fn polar_grid_shares_the_generation_contract() {
    let mut grid = PolarGrid::from_mask(&Mask::new(6, 4));
    let mut rng = RandomSource::from_seed(77);
    assert!(Algorithm::RecursiveBacktracker.on(&mut grid, &mut rng));
    assert_eq!(count_links(&grid), 23);
    assert_eq!(reachable_from(&grid, Point::new(0, 0)), 24);
}

#[test]
fn from_pixels_blacks_out_only_pure_black() {
    let pixels = vec![
        (0u8, 0u8, 0u8),
        (255, 255, 255),
        (0, 0, 1),
        (10, 0, 0),
        (0, 0, 0),
        (1, 2, 3),
    ];
    let mask = Mask::from_pixels(3, 2, &pixels);
    assert_eq!(mask.mask, vec![false, true, true, true, false, true]);
    let grid = RectangularGrid::from_mask(&mask);
    assert!(grid.get(Point::new(0, 0)).is_none());
    assert!(grid.get(Point::new(1, 0)).is_some());
    assert!(grid.get(Point::new(1, 1)).is_none());
}

#[test]
fn point_offsets_move_one_step() {
    let p = Point::new(3, 4);
    assert_eq!(p.north(), Point::new(3, 3));
    assert_eq!(p.south(), Point::new(3, 5));
    assert_eq!(p.east(), Point::new(4, 4));
    assert_eq!(p.west(), Point::new(2, 4));
    assert_eq!(Point::zero(), Point::new(0, 0));
    assert_eq!(Point::in_direction(Direction::North), Point::new(0, 1));
    assert_eq!(Point::in_direction(Direction::South), Point::new(0, -1));
    assert_eq!(Point::in_direction(Direction::East), Point::new(1, 0));
    assert_eq!(Point::in_direction(Direction::West), Point::new(-1, 0));
}

#[test]
fn cell_links_are_recorded_per_direction() {
    let mut cell = Cell::new(Point::new(2, 2));
    assert!(cell.links().is_empty());
    cell.link(Point::new(2, 1));
    cell.link(Point::new(3, 2));
    assert_eq!(cell.links(), vec![Point::new(2, 1), Point::new(3, 2)]);
    let north_cell = Cell::new(Point::new(2, 1));
    let south_cell = Cell::new(Point::new(2, 3));
    assert!(cell.linked(Some(north_cell)));
    assert!(!cell.linked(Some(south_cell)));
    assert!(!cell.linked(None));
}

#[test]
fn linking_requires_adjacency_and_presence() {
    let mut grid = open_grid(3, 3);
    // Non-adjacent points: no effect.
    grid.link(Point::new(0, 0), Point::new(2, 0), true);
    assert_eq!(count_links(&grid), 0);
    // Out-of-bounds endpoint: no effect.
    grid.link(Point::new(0, 0), Point::new(0, -1), true);
    assert_eq!(count_links(&grid), 0);
    // An adjacent present pair is linked on both endpoints.
    grid.link(Point::new(0, 0), Point::new(1, 0), true);
    let a = grid.get(Point::new(0, 0)).unwrap();
    let b = grid.get(Point::new(1, 0)).unwrap();
    assert!(a.east.linked);
    assert!(b.west.linked);
    assert_eq!(count_links(&grid), 1);
}

#[test]
fn neighbors_follow_the_fixed_order() {
    let grid = open_grid(3, 3);
    let mid = grid.neighbors(Point::new(1, 1));
    assert_eq!(
        mid,
        vec![Point::new(1, 0), Point::new(1, 2), Point::new(2, 1), Point::new(0, 1)]
    );
    let corner = grid.neighbors(Point::new(0, 0));
    assert_eq!(corner, vec![Point::new(0, 1), Point::new(1, 0)]);
}

#[test]
fn text_masks_parse_exactly() {
    let mask = Mask::from_txt(b"3 2\n.x.\nx..").unwrap();
    assert_eq!(mask.width, 3);
    assert_eq!(mask.height, 2);
    assert_eq!(mask.mask, vec![true, false, true, false, true, true]);

    // A single trailing newline is accepted; dimensions may use several digits.
    let tall = Mask::from_txt(b"2 3\n..\n.x\n..\n").unwrap();
    assert_eq!(tall.width, 2);
    assert_eq!(tall.height, 3);
    assert_eq!(tall.mask, vec![true, true, true, false, true, true]);

    let wide = Mask::from_txt(b"10 1\n....xx....").unwrap();
    assert_eq!(wide.width, 10);
    assert_eq!(wide.mask[4], false);
}

#[test]
fn malformed_text_masks_are_rejected() {
    // No height, missing separator, or no digits at all.
    assert!(Mask::from_txt(b"3").is_err());
    assert!(Mask::from_txt(b"3 \n...").is_err());
    assert!(Mask::from_txt(b"a 3\n...").is_err());
    assert!(Mask::from_txt(b"").is_err());
    // A character other than '.' or 'x' is fatal.
    assert!(Mask::from_txt(b"3 3\n.y.\n...\n.x.").is_err());
    // Wrong row length or row count.
    assert!(Mask::from_txt(b"3 3\n..\n...\n.x.").is_err());
    assert!(Mask::from_txt(b"3 3\n...\n...").is_err());
    assert!(Mask::from_txt(b"3 3\n...\n...\n...\n...").is_err());
    // A lattice beyond the coordinate type.
    assert!(Mask::from_txt(b"2147483647 2147483647\n").is_err());
}
