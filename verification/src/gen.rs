//! The image generation pipeline: build a spanning structure with the
//! chosen tree generator, prune it at the grid's boundary, and flood
//! colour along it from the start cell.

use vstd::prelude::*;

use crate::colour::{config_of, Colourer, Pixel, RandColour, TestGen};
use crate::dirs::Neighbours;
use crate::grid::{
    bits_in_bounds, bits_total, cell_bits, cell_ok, edge_symmetric, lemma_pruned_in_bounds,
    lemma_pruned_symmetric, prune_edges, pruned_from, reachable,
};
use crate::rng::{clone_rng, seed_rng};
use crate::trees::{lemma_test_tree_symmetric, test_cell, PrimTree, SpiralTree};
use crate::walk::{buffer_from_writes, lay_colours, walk_writes_ok};
use crate::Error;

verus! {

/// Which generator lays out the adjacencies of the pixels.
#[derive(Clone, Copy, PartialEq, Eq, Structural, Debug)]
pub enum TreeGen {
    /// A horizontal connection through the middle of the image, with
    /// vertical connections down every column.
    Test,
    /// Every pixel connected to two others in a square spiral.
    Spiral,
    /// All pixels connected randomly into a spanning tree.
    Prim,
}

/// Which generator computes the pixel colours.
#[derive(Clone, Copy, PartialEq, Eq, Structural, Debug)]
pub enum ColourGen {
    /// Colours that cycle deterministically through the palette.
    Test,
    /// Each colour a bounded random step from its parent's.
    Rand,
}

/// The test pattern before pruning, as a grid value: every cell's
/// vertical connection, with the backbone across the middle row.
pub open spec fn test_pattern(w: int, h: int) -> Seq<Neighbours> {
    Seq::new((w * h) as nat, |j: int| Neighbours { bits: test_cell(j / w, h) })
}

/// What the chosen generator guarantees of the pruned tree the pipeline
/// floods: always an in-bounds, edge-symmetric grid; for the test
/// generator exactly the pruned test pattern; for the Prim generator a
/// spanning tree hung from the cell at flat index `seed`.
pub open spec fn tree_facts(
    tg: TreeGen,
    w: int,
    h: int,
    seed: int,
    g: Seq<Neighbours>,
) -> bool {
    &&& g.len() == w * h
    &&& bits_in_bounds(g, w, h)
    &&& edge_symmetric(g, w, h)
    &&& (tg == TreeGen::Test ==> pruned_from(test_pattern(w, h), g, w, h))
    &&& (tg == TreeGen::Prim ==> bits_total(g) == 2 * (w * h - 1) && (forall|r: int, c: int|
        cell_ok(r, c, w, h) ==> reachable(g, w, h, (seed / w, seed % w), (r, c))))
    &&& (tg == TreeGen::Spiral && w == h && w > 1 ==> crate::dirs::has(
        cell_bits(g, w, 0, 0),
        crate::dirs::SOUTH,
    ) && crate::dirs::has(cell_bits(g, w, 1, 0), crate::dirs::NORTH))
    &&& (tg == TreeGen::Spiral && w == h ==> bits_total(g) == 2 * (w * w - 1) && (forall|
        r: int,
        c: int,
    |
        cell_ok(r, c, w, w) ==> reachable(g, w, w, (0, 0), (r, c))) && (forall|r: int, c: int|
        cell_ok(r, c, w, w) ==> crate::dirs::count_bits(#[trigger] cell_bits(g, w, r, c)) <= 2))
}

/// The colour configuration a run's choice of generator stands for.
pub open spec fn chosen_config(cg: ColourGen, step_size: u8) -> Option<u8> {
    match cg {
        ColourGen::Test => None,
        ColourGen::Rand => Some(step_size),
    }
}

/// Generate the image: a `width x height` buffer of colours, flooded
/// from the start cell along the generated tree.  The start cell is
/// `(start_row, start_col)` for the flood; the Prim generator's first
/// tree cell is the one at flat index `width * start_col + start_row`.
///
/// The whole attempt fails, with no partial output, when the pixel
/// count or the start index overflows the index arithmetic, or when the
/// start cell lies outside the grid.
pub fn new_image(
    width: u32,
    height: u32,
    colour_gen: ColourGen,
    tree_gen: TreeGen,
    seed: u64,
    step_size: u8,
    start_row: usize,
    start_col: usize,
) -> (res: Result<Vec<Pixel>, Error>)
    requires
        width >= 1,
        height >= 1,
    ensures
        res matches Ok(buf) ==> buf@.len() == width as int * height as int && start_row < height
            && start_col < width && buf@[start_row * width as int + start_col] == (Pixel {
            r: 0,
            g: 0,
            b: 0,
        }),
        tree_gen == TreeGen::Test || tree_gen == TreeGen::Prim ==> (res is Ok <==> width as int
            * height as int <= usize::MAX && (tree_gen == TreeGen::Prim ==> width as int
            * start_col + start_row < width as int * height as int) && start_row < height
            && start_col < width),
        tree_gen == TreeGen::Spiral ==> (res is Ok <==> width as int * height as int
            <= usize::MAX && start_row < height && start_col < width),
        res matches Ok(buf) ==> exists|g: Seq<Neighbours>, ws: Seq<((u32, u32), Pixel)>|
            #[trigger] walk_writes_ok(
                g,
                width as int,
                height as int,
                (start_row as int, start_col as int),
                Pixel { r: 0, g: 0, b: 0 },
                chosen_config(colour_gen, step_size),
                ws,
            ) && tree_facts(
                tree_gen,
                width as int,
                height as int,
                width as int * start_col + start_row,
                g,
            ) && buffer_from_writes(width as int, height as int, ws, buf@),
{
    let usize_width = width as usize;
    let usize_height = height as usize;
    let ghost wi = width as int;
    let ghost hi = height as int;
    let num = match usize_width.checked_mul(usize_height) {
        Some(n) => n,
        None => {
            return Err(Error::Dimension);
        },
    };
    // the start coordinates must fit the colourer's coordinate type;
    // they are checked against the grid's sides below
    if start_row > u32::MAX as usize || start_col > u32::MAX as usize {
        return Err(Error::OutOfBounds);
    }
    // random number seeding
    let rng = seed_rng(seed);
    // choose and run the tree generator
    let mut tree: Vec<Neighbours> = match tree_gen {
        TreeGen::Test => {
            let mut g = TestGen;
            match g.tree(usize_width, usize_height) {
                Ok(t) => t,
                Err(e) => {
                    return Err(e);
                },
            }
        },
        TreeGen::Spiral => {
            let mut g = SpiralTree;
            match g.tree(usize_width, usize_height) {
                Ok(t) => t,
                Err(e) => {
                    return Err(e);
                },
            }
        },
        TreeGen::Prim => {
            let prod = match usize_width.checked_mul(start_col) {
                Some(p) => p,
                None => {
                    return Err(Error::Dimension);
                },
            };
            let seed_index = match prod.checked_add(start_row) {
                Some(s) => s,
                None => {
                    return Err(Error::Dimension);
                },
            };
            let mut initial_points: Vec<usize> = Vec::new();
            initial_points.push(seed_index);
            let ghost ipseq = initial_points@;
            let mut g = PrimTree { rng: clone_rng(&rng), initial_points };
            match g.tree(usize_width, usize_height) {
                Ok(t) => {
                    proof {
                        assert(ipseq[0] == seed_index);
                        assert(seed_index < num);
                    }
                    t
                },
                Err(e) => {
                    proof {
                        assert(ipseq[0] == seed_index);
                        let i = choose|i: int| 0 <= i < ipseq.len() && ipseq[i] >= num;
                        assert(i == 0);
                        assert(seed_index >= num);
                    }
                    return Err(e);
                },
            }
        },
    };
    let ghost raw_tree = tree@;
    match prune_edges(usize_width, usize_height, &mut tree) {
        Ok(()) => {},
        Err(e) => {
            return Err(e);
        },
    }
    proof {
        lemma_pruned_in_bounds(raw_tree, tree@, wi, hi);
        // the pruned tree carries its generator's guarantees
        match tree_gen {
            TreeGen::Test => {
                lemma_test_tree_symmetric(raw_tree, tree@, wi, hi);
                assert forall|r: int, c: int|
                    cell_ok(r, c, wi, hi) implies #[trigger] cell_bits(
                    test_pattern(wi, hi),
                    wi,
                    r,
                    c,
                ) == cell_bits(raw_tree, wi, r, c) by {
                    crate::grid::lemma_index_bound(r, c, wi, hi);
                    vstd::arithmetic::div_mod::lemma_fundamental_div_mod_converse(
                        r * wi + c,
                        wi,
                        r,
                        c,
                    );
                }
                assert(pruned_from(test_pattern(wi, hi), tree@, wi, hi)) by {
                    assert forall|r: int, c: int, d: u8|
                        cell_ok(r, c, wi, hi) && crate::dirs::is_single(d) implies (
                    #[trigger] crate::dirs::has(cell_bits(tree@, wi, r, c), d)
                        <==> crate::dirs::has(cell_bits(test_pattern(wi, hi), wi, r, c), d)
                        && crate::grid::dir_ok(d, r, c, wi, hi)) by {
                        assert(crate::dirs::has(cell_bits(tree@, wi, r, c), d)
                            <==> crate::dirs::has(cell_bits(raw_tree, wi, r, c), d)
                            && crate::grid::dir_ok(d, r, c, wi, hi));
                    }
                }
            },
            TreeGen::Spiral => {
                lemma_pruned_symmetric(raw_tree, tree@, wi, hi);
                // the spiral's record was already in bounds, so pruning
                // left it as it was
                assert(tree@ == raw_tree);
            },
            TreeGen::Prim => {
                lemma_pruned_symmetric(raw_tree, tree@, wi, hi);
                // the spanning tree was already in bounds, so pruning
                // left it as it was
                assert(tree@ == raw_tree);
            },
        }
    }
    // check the start cell before walking from it
    if start_row >= usize_height || start_col >= usize_width {
        return Err(Error::OutOfBounds);
    }
    let start = (start_row as u32, start_col as u32);
    // choose the colour generator and flood the colours
    let colourer = match colour_gen {
        ColourGen::Test => Colourer::Test(TestGen),
        ColourGen::Rand => Colourer::Rand(RandColour { step_size, rng }),
    };
    let ghost cfg = config_of(colourer);
    proof {
        assert(start.0 as int == start_row as int && start.1 as int == start_col as int);
        assert(cell_ok(start.0 as int, start.1 as int, wi, hi));
        assert(cfg == chosen_config(colour_gen, step_size));
        assert(tree_facts(tree_gen, wi, hi, wi * start_col + start_row, tree@));
    }
    let black = Pixel { r: 0, g: 0, b: 0 };
    let ghost final_tree = tree@;
    match lay_colours(&tree, start, black, colourer, height, width) {
        Ok(buf) => {
            proof {
                let ws = choose|ws: Seq<((u32, u32), Pixel)>|
                    #[trigger] walk_writes_ok(
                        final_tree,
                        wi,
                        hi,
                        (start.0 as int, start.1 as int),
                        Pixel { r: 0, g: 0, b: 0 },
                        cfg,
                        ws,
                    ) && buffer_from_writes(wi, hi, ws, buf@);
                assert(walk_writes_ok(
                    final_tree,
                    wi,
                    hi,
                    (start_row as int, start_col as int),
                    Pixel { r: 0, g: 0, b: 0 },
                    chosen_config(colour_gen, step_size),
                    ws,
                ));
            }
            Ok(buf)
        },
        Err(e) => {
            proof {
                assert(false);
            }
            Err(e)
        },
    }
}

} // verus!
