use floodfill::colour::TestGen;
use floodfill::dirs::{
    Neighbours, EAST, NORTH, NORTHEAST, NORTHWEST, SOUTH, SOUTHEAST, SOUTHWEST, WEST,
};
use floodfill::grid::prune_edges;
use floodfill::rng::seed_rng;
use floodfill::trees::{PrimTree, SpiralTree};
use floodfill::Error;

/// The row and column deltas of a single direction bit.
fn delta(d: u8) -> (i64, i64) {
    let dr = if d == NORTH || d == NORTHEAST || d == NORTHWEST {
        -1
    } else if d == SOUTH || d == SOUTHEAST || d == SOUTHWEST {
        1
    } else {
        0
    };
    let dc = if d == WEST || d == NORTHWEST || d == SOUTHWEST {
        -1
    } else if d == EAST || d == NORTHEAST || d == SOUTHEAST {
        1
    } else {
        0
    };
    (dr, dc)
}

const SINGLES: [u8; 8] = [
    NORTH, NORTHEAST, EAST, SOUTHEAST, SOUTH, SOUTHWEST, WEST, NORTHWEST,
];

fn reverse_bits(d: u8) -> u8 {
    match d {
        x if x == NORTH => SOUTH,
        x if x == NORTHEAST => SOUTHWEST,
        x if x == EAST => WEST,
        x if x == SOUTHEAST => NORTHWEST,
        x if x == SOUTH => NORTH,
        x if x == SOUTHWEST => NORTHEAST,
        x if x == WEST => EAST,
        _ => SOUTHEAST,
    }
}

/// Check that no direction bit points outside the grid and that every
/// edge is recorded at both endpoints.
fn check_bounds_and_symmetry(grid: &[Neighbours], width: usize, height: usize) {
    assert_eq!(grid.len(), width * height);
    for r in 0..height {
        for c in 0..width {
            for d in SINGLES {
                if grid[r * width + c].bits & d != 0 {
                    let (dr, dc) = delta(d);
                    let nr = r as i64 + dr;
                    let nc = c as i64 + dc;
                    assert!(nr >= 0 && nr < height as i64, "bit leaves the grid");
                    assert!(nc >= 0 && nc < width as i64, "bit leaves the grid");
                    let back = reverse_bits(d);
                    let partner = grid[nr as usize * width + nc as usize];
                    assert!(partner.bits & back != 0, "edge not symmetric");
                }
            }
        }
    }
}

/// The number of undirected edges: each is recorded twice.
fn edge_count(grid: &[Neighbours]) -> usize {
    let bits: u32 = grid.iter().map(|n| n.bits.count_ones()).sum();
    assert_eq!(bits % 2, 0);
    (bits / 2) as usize
}

#[test]
fn test_tree_three_by_three_exact_masks() {
    let mut gen = TestGen;
    let grid = gen.tree(3, 3).unwrap();
    // every cell vertical, middle row also horizontal
    let plain = NORTH | SOUTH;
    let backbone = NORTH | SOUTH | EAST | WEST;
    let expected = [plain, plain, plain, backbone, backbone, backbone, plain, plain, plain];
    let got: Vec<u8> = grid.iter().map(|n| n.bits).collect();
    assert_eq!(got, expected);
}

#[test]
fn test_tree_three_by_three_pruned_exact_masks() {
    let mut gen = TestGen;
    let mut grid = gen.tree(3, 3).unwrap();
    prune_edges(3, 3, &mut grid).unwrap();
    let expected = [
        SOUTH,
        SOUTH,
        SOUTH,
        NORTH | SOUTH | EAST,
        NORTH | SOUTH | EAST | WEST,
        NORTH | SOUTH | WEST,
        NORTH,
        NORTH,
        NORTH,
    ];
    let got: Vec<u8> = grid.iter().map(|n| n.bits).collect();
    assert_eq!(got, expected);
    check_bounds_and_symmetry(&grid, 3, 3);
}

#[test]
fn pruning_an_already_pruned_grid_changes_nothing() {
    let mut gen = TestGen;
    let mut grid = gen.tree(5, 4).unwrap();
    prune_edges(5, 4, &mut grid).unwrap();
    let once: Vec<u8> = grid.iter().map(|n| n.bits).collect();
    prune_edges(5, 4, &mut grid).unwrap();
    let twice: Vec<u8> = grid.iter().map(|n| n.bits).collect();
    assert_eq!(once, twice);
}

#[test]
fn pruning_a_full_grid_leaves_only_inward_bits() {
    let mut grid = vec![Neighbours { bits: 0xFF }; 4];
    prune_edges(2, 2, &mut grid).unwrap();
    // each corner of a 2x2 grid keeps the three bits pointing at the
    // other cells
    assert_eq!(grid[0].bits, EAST | SOUTHEAST | SOUTH);
    assert_eq!(grid[1].bits, SOUTH | SOUTHWEST | WEST);
    assert_eq!(grid[2].bits, NORTH | NORTHEAST | EAST);
    assert_eq!(grid[3].bits, NORTH | WEST | NORTHWEST);
    check_bounds_and_symmetry(&grid, 2, 2);
}

#[test]
fn prune_rejects_an_empty_grid() {
    let mut grid: Vec<Neighbours> = Vec::new();
    assert_eq!(prune_edges(0, 5, &mut grid), Err(Error::OutOfBounds));
    assert_eq!(prune_edges(5, 0, &mut grid), Err(Error::OutOfBounds));
}

#[test]
fn prune_on_single_cell_strips_everything() {
    let mut grid = vec![Neighbours { bits: 0xFF }];
    prune_edges(1, 1, &mut grid).unwrap();
    assert_eq!(grid[0].bits, 0);
}

#[test]
fn spiral_three_by_three_is_a_hamiltonian_path() {
    let mut gen = SpiralTree;
    let grid = gen.tree(3, 3).unwrap();
    check_bounds_and_symmetry(&grid, 3, 3);
    // a simple path over all 9 cells: 8 edges, two endpoints of degree
    // one, no cell of degree over two
    assert_eq!(edge_count(&grid), 8);
    let degrees: Vec<u32> = grid.iter().map(|n| n.bits.count_ones()).collect();
    assert!(degrees.iter().all(|&d| d >= 1 && d <= 2));
    assert_eq!(degrees.iter().filter(|&&d| d == 1).count(), 2);
    // the walk starts at the top-left corner heading south
    assert_eq!(grid[0].bits, SOUTH);
}

#[test]
fn spiral_square_sizes_stay_simple_paths() {
    for n in 1..7usize {
        let mut gen = SpiralTree;
        let grid = gen.tree(n, n).unwrap();
        check_bounds_and_symmetry(&grid, n, n);
        if n > 1 {
            assert_eq!(edge_count(&grid), n * n - 1);
            let degrees: Vec<u32> = grid.iter().map(|x| x.bits.count_ones()).collect();
            assert!(degrees.iter().all(|&d| d >= 1 && d <= 2));
            assert_eq!(degrees.iter().filter(|&&d| d == 1).count(), 2);
        } else {
            assert_eq!(edge_count(&grid), 0);
        }
    }
}

#[test]
fn spiral_rectangles_stay_simple_paths() {
    // off-square grids make some legs retrace already-laid edges; the
    // retraced edges are already recorded, so the output is still a
    // single simple path over every cell
    for (w, h) in [(2, 3), (3, 2), (2, 1), (1, 2), (5, 3), (3, 5), (7, 4), (4, 7)] {
        let mut gen = SpiralTree;
        let grid = gen.tree(w, h).unwrap();
        check_bounds_and_symmetry(&grid, w, h);
        assert_eq!(edge_count(&grid), w * h - 1, "dims {}x{}", w, h);
        let degrees: Vec<u32> = grid.iter().map(|x| x.bits.count_ones()).collect();
        assert!(degrees.iter().all(|&d| d >= 1 && d <= 2));
        assert_eq!(degrees.iter().filter(|&&d| d == 1).count(), 2);
    }
}

#[test]
fn prim_output_is_a_spanning_tree() {
    let (width, height) = (5, 4);
    for seed in [0u64, 1, 42, 0xDEAD_BEEF] {
        let mut gen = PrimTree { rng: seed_rng(seed), initial_points: vec![0] };
        let grid = gen.tree(width, height).unwrap();
        check_bounds_and_symmetry(&grid, width, height);
        // connected and acyclic: one fewer edge than cells, and a search
        // from the seed reaches every cell
        assert_eq!(edge_count(&grid), width * height - 1);
        let mut seen = vec![false; width * height];
        let mut stack = vec![0usize];
        seen[0] = true;
        while let Some(i) = stack.pop() {
            let (r, c) = (i / width, i % width);
            for d in SINGLES {
                if grid[i].bits & d != 0 {
                    let (dr, dc) = delta(d);
                    let j = (r as i64 + dr) as usize * width + (c as i64 + dc) as usize;
                    if !seen[j] {
                        seen[j] = true;
                        stack.push(j);
                    }
                }
            }
        }
        assert!(seen.iter().all(|&s| s), "a cell is out of the tree");
    }
}

#[test]
fn prim_rejects_a_seed_outside_the_grid() {
    let mut gen = PrimTree { rng: seed_rng(7), initial_points: vec![20] };
    assert_eq!(gen.tree(4, 5).unwrap_err(), Error::OutOfBounds);
}

#[test]
fn prim_with_no_seeds_builds_no_edges() {
    let mut gen = PrimTree { rng: seed_rng(7), initial_points: vec![] };
    let grid = gen.tree(3, 3).unwrap();
    assert!(grid.iter().all(|n| n.bits == 0));
}

#[test]
fn random_direction_picks_a_member_and_rejects_the_empty_set() {
    let mut rng = seed_rng(11);
    let set = Neighbours { bits: NORTH | SOUTHEAST | WEST };
    for _ in 0..50 {
        let d = set.random_direction(&mut rng, 3, 4).unwrap();
        assert_eq!(d.bits.count_ones(), 1);
        assert!(set.bits & d.bits != 0);
    }
    let empty = Neighbours { bits: 0 };
    assert_eq!(empty.random_direction(&mut rng, 3, 4).unwrap_err(), Error::Randomness);
}
