use floodfill::colour::{Colourer, Pixel, RandColour, TestGen};
use floodfill::dirs::Neighbours;
use floodfill::gen::{new_image, ColourGen, TreeGen};
use floodfill::grid::prune_edges;
use floodfill::rng::seed_rng;
use floodfill::trees::{PrimTree, SpiralTree};
use floodfill::walk::{apply_writes, lay_colours, lay_colours_in_subtree};
use floodfill::Error;

const BLACK: Pixel = Pixel { r: 0, g: 0, b: 0 };

/// A pruned 3x3 tree from each generator.
fn pruned_tree(which: TreeGen) -> Vec<Neighbours> {
    let mut tree = match which {
        TreeGen::Test => TestGen.tree(3, 3).unwrap(),
        TreeGen::Spiral => SpiralTree.tree(3, 3).unwrap(),
        TreeGen::Prim => {
            PrimTree { rng: seed_rng(21), initial_points: vec![4] }.tree(3, 3).unwrap()
        },
    };
    prune_edges(3, 3, &mut tree).unwrap();
    tree
}

#[test]
fn colourer_writes_every_cell_of_a_three_by_three_exactly_once() {
    for which in [TreeGen::Test, TreeGen::Spiral, TreeGen::Prim] {
        let tree = pruned_tree(which);
        let writes = lay_colours_in_subtree(
            &tree,
            (1, 1),
            Neighbours::empty(),
            BLACK,
            Colourer::Test(TestGen),
            3,
            3,
        )
        .unwrap();
        assert_eq!(writes.len(), 9, "one write per cell");
        let mut seen = [[false; 3]; 3];
        for ((r, c), _) in &writes {
            assert!(*r < 3 && *c < 3);
            assert!(!seen[*r as usize][*c as usize], "cell written twice");
            seen[*r as usize][*c as usize] = true;
        }
        assert!(seen.iter().flatten().all(|&s| s), "a cell was never written");
    }
}

#[test]
fn colourer_emits_the_root_first_with_its_own_colour() {
    let tree = pruned_tree(TreeGen::Test);
    let first = Pixel { r: 9, g: 8, b: 7 };
    let writes = lay_colours_in_subtree(
        &tree,
        (2, 0),
        Neighbours::empty(),
        first,
        Colourer::Test(TestGen),
        3,
        3,
    )
    .unwrap();
    assert_eq!(writes[0], ((2, 0), first));
}

#[test]
fn colourer_rejects_a_root_outside_the_grid() {
    let tree = pruned_tree(TreeGen::Test);
    let r = lay_colours_in_subtree(
        &tree,
        (3, 0),
        Neighbours::empty(),
        BLACK,
        Colourer::Test(TestGen),
        3,
        3,
    );
    assert_eq!(r.unwrap_err(), Error::OutOfBounds);
    let r2 = lay_colours(&tree, (0, 3), BLACK, Colourer::Test(TestGen), 3, 3);
    assert_eq!(r2.unwrap_err(), Error::OutOfBounds);
}

#[test]
fn masked_root_directions_cut_off_their_subtrees() {
    // the 1x3 test tree after pruning is the path 0 - 1 - 2; masking the
    // eastward edge at cell 0 leaves only cell 0 itself
    let mut tree = TestGen.tree(3, 1).unwrap();
    prune_edges(3, 1, &mut tree).unwrap();
    let writes = lay_colours_in_subtree(
        &tree,
        (0, 0),
        Neighbours { bits: floodfill::dirs::EAST },
        BLACK,
        Colourer::Test(TestGen),
        1,
        3,
    )
    .unwrap();
    assert_eq!(writes.len(), 1);
    assert_eq!(writes[0], ((0, 0), BLACK));
}

#[test]
fn apply_writes_fills_unwritten_cells_black_and_keeps_the_last_write() {
    let writes = vec![
        ((0u32, 1u32), Pixel { r: 1, g: 2, b: 3 }),
        ((1u32, 0u32), Pixel { r: 4, g: 5, b: 6 }),
        ((0u32, 1u32), Pixel { r: 7, g: 8, b: 9 }),
    ];
    let buf = apply_writes(2, 2, &writes);
    assert_eq!(buf.len(), 4);
    assert_eq!(buf[0], BLACK);
    assert_eq!(buf[1], Pixel { r: 7, g: 8, b: 9 });
    assert_eq!(buf[2], Pixel { r: 4, g: 5, b: 6 });
    assert_eq!(buf[3], BLACK);
}

#[test]
fn lay_colours_on_a_two_cell_strip_is_exact() {
    // the 2x1 test pattern prunes to a single east-west edge, so the test
    // colourer paints the root black and its one child the next colour
    let mut tree = TestGen.tree(2, 1).unwrap();
    prune_edges(2, 1, &mut tree).unwrap();
    assert_eq!(tree[0].bits, floodfill::dirs::EAST);
    assert_eq!(tree[1].bits, floodfill::dirs::WEST);
    let buf = lay_colours(&tree, (0, 0), BLACK, Colourer::Test(TestGen), 1, 2).unwrap();
    assert_eq!(buf, vec![BLACK, Pixel { r: 1, g: 0, b: 0 }]);
}

#[test]
fn lay_colours_on_a_single_cell_writes_only_the_root() {
    let mut tree = TestGen.tree(1, 1).unwrap();
    prune_edges(1, 1, &mut tree).unwrap();
    let buf = lay_colours(&tree, (0, 0), BLACK, Colourer::Test(TestGen), 1, 1).unwrap();
    assert_eq!(buf, vec![BLACK]);
}

#[test]
fn identical_parameters_give_byte_identical_images() {
    // determinism: the whole pipeline, random tree and random colours
    // included, is a function of its parameters
    for (tree_gen, colour_gen) in [
        (TreeGen::Test, ColourGen::Test),
        (TreeGen::Spiral, ColourGen::Rand),
        (TreeGen::Prim, ColourGen::Rand),
        (TreeGen::Prim, ColourGen::Test),
    ] {
        let a = new_image(8, 6, colour_gen, tree_gen, 12345, 10, 2, 3).unwrap();
        let b = new_image(8, 6, colour_gen, tree_gen, 12345, 10, 2, 3).unwrap();
        assert_eq!(a, b);
    }
}

#[test]
fn different_seeds_give_different_images() {
    let a = new_image(8, 8, ColourGen::Rand, TreeGen::Prim, 1, 40, 0, 0).unwrap();
    let b = new_image(8, 8, ColourGen::Rand, TreeGen::Prim, 2, 40, 0, 0).unwrap();
    assert_ne!(a, b);
}

#[test]
fn new_image_paints_the_start_cell_black_and_fills_the_grid() {
    let width = 6u32;
    let height = 5u32;
    let buf = new_image(width, height, ColourGen::Rand, TreeGen::Prim, 7, 12, 1, 2).unwrap();
    assert_eq!(buf.len(), 30);
    // start cell (row 1, column 2) gets the initial black
    assert_eq!(buf[1 * 6 + 2], BLACK);
}

#[test]
fn new_image_rejects_a_start_cell_outside_the_grid() {
    assert_eq!(
        new_image(4, 4, ColourGen::Test, TreeGen::Test, 0, 0, 4, 0).unwrap_err(),
        Error::OutOfBounds
    );
    assert_eq!(
        new_image(4, 4, ColourGen::Test, TreeGen::Prim, 0, 0, 0, 7).unwrap_err(),
        Error::OutOfBounds
    );
}

#[test]
fn new_image_test_generators_cover_every_cell() {
    // with the test tree every cell hangs off the backbone, so no cell
    // stays black except where the cycle happens to produce it; at 3x3
    // from a corner each cell is one of the first few cycle colours
    let buf = new_image(3, 3, ColourGen::Test, TreeGen::Test, 0, 0, 0, 0).unwrap();
    assert_eq!(buf.len(), 9);
    assert_eq!(buf[0], BLACK);
    // the cycle only increments the red channel this close to black, and
    // a cell's red value is its distance from the start corner
    let reds: Vec<u8> = buf.iter().map(|p| p.r).collect();
    assert_eq!(reds, vec![0, 3, 4, 1, 2, 3, 2, 3, 4]);
    assert!(buf.iter().all(|p| p.g == 0 && p.b == 0));
}
