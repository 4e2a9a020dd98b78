//! The colourer: walks a generated tree from a root cell, assigns every
//! cell it reaches a colour, and serializes the writes into the output
//! buffer.
//!
//! The walk emits one write per cell reached; the write list plays the
//! part of the queue between the walking producers and the single
//! consumer that owns the buffer.

use vstd::prelude::*;

use crate::colour::{colour_step_ok, config_of, Colourer, Pixel};
use crate::dirs::{dcol, drow, has, is_single, rev_bits, Neighbours};
use crate::grid::{
    bits_in_bounds, cell_bits, cell_ok, count_true, dir_ok, edge_between,
    lemma_count_true_bounds, lemma_count_true_update, lemma_index_bound, lemma_index_injective,
    lemma_reachable_in_closed, lemma_reachable_refl, lemma_reachable_step, marked, reachable,
};
use crate::Error;

verus! {

/// Does the write list hold a write for the cell `(r, c)`?
pub open spec fn in_writes(ws: Seq<((u32, u32), Pixel)>, r: int, c: int) -> bool {
    exists|i: int| #![trigger ws[i]] 0 <= i < ws.len() && ws[i].0.0 == r && ws[i].0.1 == c
}

/// No two writes name the same cell.
pub open spec fn writes_distinct(ws: Seq<((u32, u32), Pixel)>) -> bool {
    forall|i: int, j: int|
        #![trigger ws[i], ws[j]]
        0 <= i < j < ws.len() ==> !(ws[i].0.0 == ws[j].0.0 && ws[i].0.1 == ws[j].0.1)
}

/// Every write after the first is coloured from an earlier write one
/// tree edge away: the walk hands each child a colour its generator
/// derived from the parent cell's colour.
pub open spec fn writes_chained(
    g: Seq<Neighbours>,
    w: int,
    h: int,
    config: Option<u8>,
    ws: Seq<((u32, u32), Pixel)>,
) -> bool {
    forall|i: int|
        #![trigger ws[i]]
        1 <= i < ws.len() ==> exists|j: int|
            #![trigger ws[j]]
            0 <= j < i && edge_between(
                g,
                w,
                h,
                (ws[j].0.0 as int, ws[j].0.1 as int),
                (ws[i].0.0 as int, ws[i].0.1 as int),
            ) && crate::colour::colour_step_ok(config, ws[j].1, ws[i].1)
}

/// Everything the walk promises of its write list: it opens with the
/// root's own colour, names each in-grid cell at most once, covers
/// exactly the cells reachable from the root, and colours each later
/// write one generator step from a tree-parent's write.
pub open spec fn walk_writes_ok(
    g: Seq<Neighbours>,
    w: int,
    h: int,
    root: (int, int),
    colour: Pixel,
    config: Option<u8>,
    ws: Seq<((u32, u32), Pixel)>,
) -> bool {
    &&& ws.len() >= 1
    &&& ws[0].0.0 == root.0 && ws[0].0.1 == root.1 && ws[0].1 == colour
    &&& (forall|i: int|
        #![trigger ws[i]]
        0 <= i < ws.len() ==> cell_ok(ws[i].0.0 as int, ws[i].0.1 as int, w, h))
    &&& writes_distinct(ws)
    &&& (forall|r: int, c: int|
        cell_ok(r, c, w, h) ==> (#[trigger] in_writes(ws, r, c) <==> reachable(
            g,
            w,
            h,
            root,
            (r, c),
        )))
    &&& writes_chained(g, w, h, config, ws)
}

/// The buffer a write list leaves behind once the single consumer has
/// drained it into black storage: unwritten cells stay black, and each
/// cell's last write wins.
pub open spec fn buffer_from_writes(
    w: int,
    h: int,
    ws: Seq<((u32, u32), Pixel)>,
    buf: Seq<Pixel>,
) -> bool {
    &&& buf.len() == w * h
    &&& (forall|r: int, c: int|
        cell_ok(r, c, w, h) && (forall|i: int|
            0 <= i < ws.len() ==> !(#[trigger] ws[i].0.0 == r && ws[i].0.1 == c)) ==> #[trigger] buf[r
            * w + c] == (Pixel { r: 0, g: 0, b: 0 }))
    &&& (forall|i: int|
        0 <= i < ws.len() && (forall|j: int|
            i < j < ws.len() ==> !(#[trigger] ws[j].0.0 == ws[i].0.0 && ws[j].0.1 == ws[i].0.1))
            ==> #[trigger] buf[ws[i].0.0 as int * w + ws[i].0.1 as int] == ws[i].1)
}

/// Every in-grid edge out of `(r, c)` leads to a marked cell.
pub open spec fn cell_closed(
    g: Seq<Neighbours>,
    vis: Seq<bool>,
    w: int,
    h: int,
    r: int,
    c: int,
) -> bool {
    forall|d: u8|
        is_single(d) && #[trigger] has(cell_bits(g, w, r, c), d) && dir_ok(d, r, c, w, h)
            ==> marked(vis, w, r + drow(d), c + dcol(d))
}

/// The grid as a walk with an initial visited-direction mask sees it:
/// the root cell's masked directions are stripped, the rest stands.
pub open spec fn mask_root(g: Seq<Neighbours>, w: int, root: (int, int), m: u8) -> Seq<Neighbours> {
    g.update(root.0 * w + root.1, Neighbours { bits: g[root.0 * w + root.1].bits & !m })
}

/// One pending unit of the walk: a cell to colour, the directions
/// already covered (the way back to its parent), the colour the cell
/// was assigned, and the branch's own colour generator.
struct Frame {
    row: u32,
    col: u32,
    mask: Neighbours,
    colour: Pixel,
    gen: Colourer,
}

/// Does the stack hold a frame for the cell `(r, c)`?
spec fn in_stack(st: Seq<Frame>, r: int, c: int) -> bool {
    exists|i: int| #![trigger st[i]] 0 <= i < st.len() && st[i].row == r && st[i].col == c
}

/// No two frames name the same cell.
spec fn stack_distinct(st: Seq<Frame>) -> bool {
    forall|i: int, j: int|
        #![trigger st[i], st[j]]
        0 <= i < j < st.len() ==> !(st[i].row == st[j].row && st[i].col == st[j].col)
}

/// No write and frame name the same cell.
spec fn writes_stack_disjoint(ws: Seq<((u32, u32), Pixel)>, st: Seq<Frame>) -> bool {
    forall|i: int, j: int|
        #![trigger ws[i], st[j]]
        0 <= i < ws.len() && 0 <= j < st.len() ==> !(ws[i].0.0 == st[j].row && ws[i].0.1
            == st[j].col)
}

/// The frame's masked edges all lead to marked cells.
spec fn frame_masked_ok(g: Seq<Neighbours>, vis: Seq<bool>, w: int, h: int, f: Frame) -> bool {
    forall|d: u8|
        is_single(d) && #[trigger] has(cell_bits(g, w, f.row as int, f.col as int), d) && has(
            f.mask.bits,
            d,
        ) && dir_ok(d, f.row as int, f.col as int, w, h) ==> marked(
            vis,
            w,
            f.row + drow(d),
            f.col + dcol(d),
        )
}

/// The frame's view of the tree matches the masked grid: an unmasked
/// tree edge is a masked-grid edge and the other way round.
spec fn frame_sees(g: Seq<Neighbours>, gp: Seq<Neighbours>, w: int, f: Frame) -> bool {
    forall|d: u8|
        is_single(d) ==> (#[trigger] has(
            cell_bits(g, w, f.row as int, f.col as int) & !f.mask.bits,
            d,
        ) <==> has(cell_bits(gp, w, f.row as int, f.col as int), d) && (has(f.mask.bits, d)
            == false))
}

/// When the walk has emptied its stack, the writes are exactly the
/// marked cells, which are exactly the cells reachable from the root.
proof fn lemma_walk_complete(
    gp: Seq<Neighbours>,
    wi: int,
    hi: int,
    rooti: (int, int),
    vis: Seq<bool>,
    ws: Seq<((u32, u32), Pixel)>,
)
    requires
        vis.len() == wi * hi,
        cell_ok(rooti.0, rooti.1, wi, hi),
        marked(vis, wi, rooti.0, rooti.1),
        forall|i: int|
            #![trigger ws[i]]
            0 <= i < ws.len() ==> cell_ok(ws[i].0.0 as int, ws[i].0.1 as int, wi, hi),
        forall|r: int, c: int|
            cell_ok(r, c, wi, hi) ==> (#[trigger] marked(vis, wi, r, c) <==> in_writes(ws, r, c)),
        forall|r: int, c: int|
            cell_ok(r, c, wi, hi) && #[trigger] marked(vis, wi, r, c) ==> reachable(
                gp,
                wi,
                hi,
                rooti,
                (r, c),
            ),
        forall|i: int|
            #![trigger ws[i]]
            0 <= i < ws.len() ==> cell_closed(gp, vis, wi, hi, ws[i].0.0 as int, ws[i].0.1 as int),
    ensures
        forall|r: int, c: int|
            cell_ok(r, c, wi, hi) ==> (#[trigger] in_writes(ws, r, c) <==> reachable(
                gp,
                wi,
                hi,
                rooti,
                (r, c),
            )),
        ws.len() >= 1,
{
    assert forall|r: int, c: int| cell_ok(r, c, wi, hi) implies (#[trigger] in_writes(ws, r, c)
        <==> reachable(gp, wi, hi, rooti, (r, c))) by {
        if in_writes(ws, r, c) {
            assert(marked(vis, wi, r, c));
        }
        if reachable(gp, wi, hi, rooti, (r, c)) {
            assert forall|r2: int, c2: int, d: u8|
                cell_ok(r2, c2, wi, hi) && vis[r2 * wi + c2] && is_single(d) && #[trigger] has(
                    cell_bits(gp, wi, r2, c2),
                    d,
                ) && dir_ok(d, r2, c2, wi, hi) implies vis[(r2 + drow(d)) * wi + (c2 + dcol(d))] by {
                assert(marked(vis, wi, r2, c2));
                assert(in_writes(ws, r2, c2));
                let i = choose|i: int|
                    #![trigger ws[i]]
                    0 <= i < ws.len() && ws[i].0.0 == r2 && ws[i].0.1 == c2;
                assert(cell_closed(gp, vis, wi, hi, r2, c2));
                assert(marked(vis, wi, r2 + drow(d), c2 + dcol(d)));
            }
            lemma_reachable_in_closed(gp, wi, hi, rooti, vis, (r, c));
            assert(marked(vis, wi, r, c));
        }
    }
    assert(in_writes(ws, rooti.0, rooti.1));
}

/// Walk the subtree hanging off `root`, skipping the directions of
/// `visited_directions` (the way back to the parent), and emit one
/// write per cell reached: first the root's own colour, then each
/// child's, computed and derived from its parent's generator in
/// canonical direction order.
///
/// Each emitted unit of work is independent of its siblings — its
/// colour generator is derived before it runs — so the writes may be
/// produced in any schedule without changing them; this walk runs them
/// in depth-first order.
#[verifier::rlimit(100)]
pub fn lay_colours_in_subtree(
    tree: &Vec<Neighbours>,
    root: (u32, u32),
    visited_directions: Neighbours,
    initial_colour: Pixel,
    colour_gen: Colourer,
    height: u32,
    width: u32,
) -> (res: Result<Vec<((u32, u32), Pixel)>, Error>)
    requires
        tree@.len() == width as int * height as int,
        bits_in_bounds(tree@, width as int, height as int),
    ensures
        res is Ok <==> cell_ok(root.0 as int, root.1 as int, width as int, height as int),
        res is Err ==> res == Result::<Vec<((u32, u32), Pixel)>, Error>::Err(Error::OutOfBounds),
        res matches Ok(ws) ==> ws@.len() >= 1 && ws@[0] == ((root.0, root.1), initial_colour),
        res matches Ok(ws) ==> forall|i: int|
            #![trigger ws@[i]]
            0 <= i < ws@.len() ==> cell_ok(
                ws@[i].0.0 as int,
                ws@[i].0.1 as int,
                width as int,
                height as int,
            ),
        res matches Ok(ws) ==> writes_distinct(ws@),
        res matches Ok(ws) ==> forall|r: int, c: int|
            cell_ok(r, c, width as int, height as int) ==> (#[trigger] in_writes(ws@, r, c)
                <==> reachable(
                mask_root(tree@, width as int, (root.0 as int, root.1 as int), visited_directions.bits),
                width as int,
                height as int,
                (root.0 as int, root.1 as int),
                (r, c),
            )),
        res matches Ok(ws) ==> ((forall|r: int, c: int|
            cell_ok(r, c, width as int, height as int) ==> reachable(
                mask_root(tree@, width as int, (root.0 as int, root.1 as int), visited_directions.bits),
                width as int,
                height as int,
                (root.0 as int, root.1 as int),
                (r, c),
            )) ==> ws@.len() == width as int * height as int),
        res matches Ok(ws) ==> writes_chained(
            mask_root(tree@, width as int, (root.0 as int, root.1 as int), visited_directions.bits),
            width as int,
            height as int,
            config_of(colour_gen),
            ws@,
        ),
{
    let w = width;
    let h = height;
    let ghost wi = w as int;
    let ghost hi = h as int;
    if root.0 >= h || root.1 >= w {
        return Err(Error::OutOfBounds);
    }
    proof {
        crate::dirs::lemma_single_bits();
        crate::grid::lemma_mask_bits();
    }
    let num: usize = tree.len();
    let ghost rooti = (root.0 as int, root.1 as int);
    let ghost gp = mask_root(tree@, wi, rooti, visited_directions.bits);
    let ghost config = config_of(colour_gen);
    let mut visited: Vec<bool> = crate::grid::filled(num, false);
    let mut writes: Vec<((u32, u32), Pixel)> = Vec::new();
    let mut stack: Vec<Frame> = Vec::new();
    proof {
        lemma_index_bound(root.0 as int, root.1 as int, wi, hi);
    }
    let ridx: usize = (root.0 as usize) * (w as usize) + (root.1 as usize);
    let ghost vis_blank = visited@;
    visited[ridx] = true;
    stack.push(
        Frame {
            row: root.0,
            col: root.1,
            mask: visited_directions,
            colour: initial_colour,
            gen: colour_gen,
        },
    );
    proof {
        lemma_reachable_refl(gp, wi, hi, rooti);
        crate::grid::lemma_count_true_zero(vis_blank);
        lemma_count_true_update(vis_blank, ridx as int, true);
        assert(count_true(visited@) == 1);
        lemma_count_true_bounds(visited@);
        assert(gp.len() == num);
        assert(cell_bits(gp, wi, rooti.0, rooti.1) == cell_bits(tree@, wi, rooti.0, rooti.1)
            & !visited_directions.bits);
        assert forall|r: int, c: int|
            cell_ok(r, c, wi, hi) && !(r == rooti.0 && c == rooti.1) implies cell_bits(gp, wi, r, c)
            == cell_bits(tree@, wi, r, c) by {
            lemma_index_bound(r, c, wi, hi);
            if r * wi + c == rooti.0 * wi + rooti.1 {
                lemma_index_injective(r, c, rooti.0, rooti.1, wi, hi);
            }
        }
        assert forall|r: int, c: int| cell_ok(r, c, wi, hi) && marked(visited@, wi, r, c) implies r
            == rooti.0 && c == rooti.1 by {
            lemma_index_bound(r, c, wi, hi);
            if r * wi + c != ridx {
                assert(!visited@[r * wi + c]);
            } else {
                lemma_index_injective(r, c, rooti.0, rooti.1, wi, hi);
            }
        }
    }
    while stack.len() > 0
        invariant
            wi == w as int && hi == h as int && w == width && h == height,
            tree@.len() == num,
            num == wi * hi,
            bits_in_bounds(tree@, wi, hi),
            cell_ok(rooti.0, rooti.1, wi, hi),
            rooti == (root.0 as int, root.1 as int),
            gp == mask_root(tree@, wi, rooti, visited_directions.bits),
            gp.len() == num,
            visited@.len() == num,
            forall|i: int|
                #![trigger writes@[i]]
                0 <= i < writes@.len() ==> cell_ok(writes@[i].0.0 as int, writes@[i].0.1 as int, wi, hi),
            forall|i: int|
                #![trigger stack@[i]]
                0 <= i < stack@.len() ==> cell_ok(stack@[i].row as int, stack@[i].col as int, wi, hi),
            forall|r: int, c: int|
                cell_ok(r, c, wi, hi) ==> (#[trigger] marked(visited@, wi, r, c) <==> (in_writes(
                    writes@,
                    r,
                    c,
                ) || in_stack(stack@, r, c))),
            writes_distinct(writes@),
            stack_distinct(stack@),
            writes_stack_disjoint(writes@, stack@),
            forall|r: int, c: int|
                cell_ok(r, c, wi, hi) && #[trigger] marked(visited@, wi, r, c) ==> reachable(
                    gp,
                    wi,
                    hi,
                    rooti,
                    (r, c),
                ),
            forall|i: int|
                #![trigger writes@[i]]
                0 <= i < writes@.len() ==> cell_closed(
                    gp,
                    visited@,
                    wi,
                    hi,
                    writes@[i].0.0 as int,
                    writes@[i].0.1 as int,
                ),
            forall|i: int|
                #![trigger stack@[i]]
                0 <= i < stack@.len() ==> frame_masked_ok(gp, visited@, wi, hi, stack@[i]),
            forall|i: int|
                #![trigger stack@[i]]
                0 <= i < stack@.len() ==> frame_sees(tree@, gp, wi, stack@[i]),
            writes@.len() + stack@.len() == count_true(visited@),
            config == config_of(colour_gen),
            forall|i: int|
                #![trigger stack@[i]]
                0 <= i < stack@.len() ==> config_of(stack@[i].gen) == config,
            forall|i: int|
                #![trigger stack@[i]]
                0 <= i < stack@.len() ==> (writes@.len() == 0 || exists|j: int|
                    #![trigger writes@[j]]
                    0 <= j < writes@.len() && edge_between(
                        gp,
                        wi,
                        hi,
                        (writes@[j].0.0 as int, writes@[j].0.1 as int),
                        (stack@[i].row as int, stack@[i].col as int),
                    ) && colour_step_ok(config, writes@[j].1, stack@[i].colour)),
            writes_chained(gp, wi, hi, config, writes@),
            writes@.len() == 0 ==> stack@.len() == 1 && stack@[0].row == root.0 && stack@[0].col
                == root.1 && stack@[0].colour == initial_colour,
            writes@.len() > 0 ==> writes@[0] == ((root.0, root.1), initial_colour),
        decreases stack@.len() + num - count_true(visited@),
    {
        proof {
            crate::dirs::lemma_single_bits();
            crate::grid::lemma_mask_bits();
            lemma_count_true_bounds(visited@);
        }
        let ghost stpre = stack@;
        let ghost ws0 = writes@;
        let f = match stack.pop() {
            Some(f) => f,
            None => {
                return Err(Error::OutOfBounds);
            },
        };
        let row = f.row;
        let col = f.col;
        let mask = f.mask;
        let cur_colour = f.colour;
        let mut gen = f.gen;
        proof {
            lemma_index_bound(row as int, col as int, wi, hi);
        }
        let idx: usize = (row as usize) * (w as usize) + (col as usize);
        writes.push(((row, col), cur_colour));
        let ghost measure0 = stack@.len() + num - count_true(visited@);
        proof {
            // the popped cell moves from the stack to the write list
            assert forall|r: int, c: int| cell_ok(r, c, wi, hi) implies (#[trigger] marked(
                visited@,
                wi,
                r,
                c,
            ) <==> (in_writes(writes@, r, c) || in_stack(stack@, r, c))) by {
                if marked(visited@, wi, r, c) {
                    if in_writes(ws0, r, c) {
                        let i = choose|i: int|
                            #![trigger ws0[i]]
                            0 <= i < ws0.len() && ws0[i].0.0 == r && ws0[i].0.1 == c;
                        assert(writes@[i].0.0 == r && writes@[i].0.1 == c);
                    } else if in_stack(stpre, r, c) {
                        let i = choose|i: int|
                            #![trigger stpre[i]]
                            0 <= i < stpre.len() && stpre[i].row == r && stpre[i].col == c;
                        if i == stpre.len() - 1 {
                            assert(writes@[ws0.len() as int].0.0 == r && writes@[ws0.len() as int].0.1
                                == c);
                        } else {
                            assert(stack@[i].row == r && stack@[i].col == c);
                        }
                    }
                }
                if in_writes(writes@, r, c) {
                    let i = choose|i: int|
                        #![trigger writes@[i]]
                        0 <= i < writes@.len() && writes@[i].0.0 == r && writes@[i].0.1 == c;
                    if i < ws0.len() {
                        assert(in_writes(ws0, r, c));
                    } else {
                        assert(stpre[stpre.len() - 1].row == r && stpre[stpre.len() - 1].col == c);
                        assert(in_stack(stpre, r, c));
                    }
                }
                if in_stack(stack@, r, c) {
                    let i = choose|i: int|
                        #![trigger stack@[i]]
                        0 <= i < stack@.len() && stack@[i].row == r && stack@[i].col == c;
                    assert(stpre[i].row == r && stpre[i].col == c);
                    assert(in_stack(stpre, r, c));
                }
            }
            // the popped cell is in no remaining frame and no old write
            assert forall|j: int| 0 <= j < stack@.len() implies !(#[trigger] stack@[j].row == row
                && stack@[j].col == col) by {
                assert(stpre[j] == stack@[j]);
                assert(stpre[stpre.len() - 1].row == row && stpre[stpre.len() - 1].col == col);
            }
            assert forall|i: int, j: int|
                0 <= i < writes@.len() && 0 <= j < stack@.len() implies !(#[trigger] writes@[i].0.0
                == #[trigger] stack@[j].row && writes@[i].0.1 == stack@[j].col) by {
                if i < ws0.len() {
                    assert(writes@[i] == ws0[i]);
                }
            }
            assert(writes_distinct(writes@)) by {
                assert forall|i: int, j: int|
                    #![trigger writes@[i], writes@[j]]
                    0 <= i < j < writes@.len() implies !(writes@[i].0.0 == writes@[j].0.0
                    && writes@[i].0.1 == writes@[j].0.1) by {
                    if j < ws0.len() {
                        assert(writes@[i] == ws0[i] && writes@[j] == ws0[j]);
                    } else {
                        assert(writes@[j].0.0 == row && writes@[j].0.1 == col);
                        assert(writes@[i] == ws0[i]);
                        assert(stpre[stpre.len() - 1].row == row);
                    }
                }
            }
            // the emitted write carries the popped frame's colour, which
            // its parent's write accounts for
            assert(writes_chained(gp, wi, hi, config, writes@)) by {
                assert forall|i: int|
                    #![trigger writes@[i]]
                    1 <= i < writes@.len() implies exists|j: int|
                    #![trigger writes@[j]]
                    0 <= j < i && edge_between(
                        gp,
                        wi,
                        hi,
                        (writes@[j].0.0 as int, writes@[j].0.1 as int),
                        (writes@[i].0.0 as int, writes@[i].0.1 as int),
                    ) && colour_step_ok(config, writes@[j].1, writes@[i].1) by {
                    if i < ws0.len() {
                        assert(ws0[i] == writes@[i]);
                        let j = choose|j: int|
                            #![trigger ws0[j]]
                            0 <= j < i && edge_between(
                                gp,
                                wi,
                                hi,
                                (ws0[j].0.0 as int, ws0[j].0.1 as int),
                                (ws0[i].0.0 as int, ws0[i].0.1 as int),
                            ) && colour_step_ok(config, ws0[j].1, ws0[i].1);
                        assert(writes@[j] == ws0[j]);
                    } else {
                        let f = stpre[stpre.len() - 1];
                        assert(writes@[i] == ((f.row, f.col), f.colour));
                        assert(ws0.len() > 0);
                        let j = choose|j: int|
                            #![trigger ws0[j]]
                            0 <= j < ws0.len() && edge_between(
                                gp,
                                wi,
                                hi,
                                (ws0[j].0.0 as int, ws0[j].0.1 as int),
                                (f.row as int, f.col as int),
                            ) && colour_step_ok(config, ws0[j].1, f.colour);
                        assert(writes@[j] == ws0[j]);
                    }
                }
            }
            // the remaining frames keep their parent accounts and their
            // generators' configuration
            assert forall|i: int|
                #![trigger stack@[i]]
                0 <= i < stack@.len() implies config_of(stack@[i].gen) == config && (writes@.len()
                == 0 || exists|j: int|
                #![trigger writes@[j]]
                0 <= j < writes@.len() && edge_between(
                    gp,
                    wi,
                    hi,
                    (writes@[j].0.0 as int, writes@[j].0.1 as int),
                    (stack@[i].row as int, stack@[i].col as int),
                ) && colour_step_ok(config, writes@[j].1, stack@[i].colour)) by {
                assert(stack@[i] == stpre[i]);
                if ws0.len() > 0 {
                    let j = choose|j: int|
                        #![trigger ws0[j]]
                        0 <= j < ws0.len() && edge_between(
                            gp,
                            wi,
                            hi,
                            (ws0[j].0.0 as int, ws0[j].0.1 as int),
                            (stpre[i].row as int, stpre[i].col as int),
                        ) && colour_step_ok(config, ws0[j].1, stpre[i].colour);
                    assert(writes@[j] == ws0[j]);
                } else {
                    assert(stpre.len() == 1);
                    assert(false);
                }
            }
        }
        let unvisited = tree[idx].difference(mask);
        let dirs = unvisited.directions();
        let ghost vis_at_pop = visited@;
        let mut di: usize = 0;
        while di < dirs.len()
            invariant
                wi == w as int && hi == h as int && w == width && h == height,
                tree@.len() == num,
                num == wi * hi,
                bits_in_bounds(tree@, wi, hi),
                cell_ok(rooti.0, rooti.1, wi, hi),
                rooti == (root.0 as int, root.1 as int),
                gp == mask_root(tree@, wi, rooti, visited_directions.bits),
                gp.len() == num,
                visited@.len() == num,
                di <= dirs@.len(),
                cell_ok(row as int, col as int, wi, hi),
                idx == row as int * wi + col as int,
                unvisited.bits == cell_bits(tree@, wi, row as int, col as int) & !mask.bits,
                forall|d: u8|
                    is_single(d) ==> (#[trigger] has(unvisited.bits, d) <==> has(
                        cell_bits(gp, wi, row as int, col as int),
                        d,
                    ) && (has(mask.bits, d) == false)),
                forall|i: int|
                    #![trigger dirs@[i]]
                    0 <= i < dirs@.len() ==> is_single(dirs@[i].bits) && has(
                        unvisited.bits,
                        dirs@[i].bits,
                    ),
                forall|d: u8|
                    is_single(d) && has(unvisited.bits, d) ==> exists|i: int|
                        0 <= i < dirs@.len() && #[trigger] dirs@[i].bits == d,
                marked(visited@, wi, row as int, col as int),
                writes@.len() >= 1,
                writes@[writes@.len() - 1].0.0 == row && writes@[writes@.len() - 1].0.1 == col,
                forall|i: int|
                    #![trigger writes@[i]]
                    0 <= i < writes@.len() ==> cell_ok(writes@[i].0.0 as int, writes@[i].0.1 as int, wi, hi),
                forall|i: int|
                    #![trigger stack@[i]]
                    0 <= i < stack@.len() ==> cell_ok(stack@[i].row as int, stack@[i].col as int, wi, hi),
                forall|r: int, c: int|
                    cell_ok(r, c, wi, hi) ==> (#[trigger] marked(visited@, wi, r, c) <==> (
                    in_writes(writes@, r, c) || in_stack(stack@, r, c))),
                writes_distinct(writes@),
                stack_distinct(stack@),
                writes_stack_disjoint(writes@, stack@),
                forall|r: int, c: int|
                    cell_ok(r, c, wi, hi) && #[trigger] marked(visited@, wi, r, c) ==> reachable(
                        gp,
                        wi,
                        hi,
                        rooti,
                        (r, c),
                    ),
                forall|i: int|
                    #![trigger writes@[i]]
                    0 <= i < writes@.len() - 1 ==> cell_closed(
                        gp,
                        visited@,
                        wi,
                        hi,
                        writes@[i].0.0 as int,
                        writes@[i].0.1 as int,
                    ),
                forall|d: u8|
                    is_single(d) && #[trigger] has(cell_bits(gp, wi, row as int, col as int), d)
                        && dir_ok(d, row as int, col as int, wi, hi) && (has(mask.bits, d)
                        || exists|k: int| 0 <= k < di && #[trigger] dirs@[k].bits == d) ==> marked(
                        visited@,
                        wi,
                        row + drow(d),
                        col + dcol(d),
                    ),
                forall|i: int|
                    #![trigger stack@[i]]
                    0 <= i < stack@.len() ==> frame_masked_ok(gp, visited@, wi, hi, stack@[i]),
                forall|i: int|
                    #![trigger stack@[i]]
                    0 <= i < stack@.len() ==> frame_sees(tree@, gp, wi, stack@[i]),
                forall|d: u8|
                    is_single(d) && has(mask.bits, d) && #[trigger] has(
                        cell_bits(gp, wi, row as int, col as int),
                        d,
                    ) && dir_ok(d, row as int, col as int, wi, hi) ==> marked(
                        visited@,
                        wi,
                        row + drow(d),
                        col + dcol(d),
                    ),
                stack@.len() + num - count_true(visited@) == measure0,
                writes@.len() + stack@.len() == count_true(visited@),
                config == config_of(colour_gen),
                config_of(gen) == config,
                writes@[writes@.len() - 1].1 == cur_colour,
                forall|i: int|
                    #![trigger stack@[i]]
                    0 <= i < stack@.len() ==> config_of(stack@[i].gen) == config,
                forall|i: int|
                    #![trigger stack@[i]]
                    0 <= i < stack@.len() ==> (writes@.len() == 0 || exists|j: int|
                        #![trigger writes@[j]]
                        0 <= j < writes@.len() && edge_between(
                            gp,
                            wi,
                            hi,
                            (writes@[j].0.0 as int, writes@[j].0.1 as int),
                            (stack@[i].row as int, stack@[i].col as int),
                        ) && colour_step_ok(config, writes@[j].1, stack@[i].colour)),
                writes_chained(gp, wi, hi, config, writes@),
                writes@[0] == ((root.0, root.1), initial_colour),
            decreases dirs@.len() - di,
        {
            proof {
                crate::dirs::lemma_single_bits();
                crate::grid::lemma_mask_bits();
                lemma_count_true_bounds(visited@);
            }
            let d = dirs[di];
            proof {
                assert(has(cell_bits(tree@, wi, row as int, col as int), d.bits));
                assert(dir_ok(d.bits, row as int, col as int, wi, hi));
            }
            let child = d.step((row, col));
            proof {
                assert(child.0 == row + drow(d.bits) && child.1 == col + dcol(d.bits));
                assert(cell_ok(child.0 as int, child.1 as int, wi, hi));
                lemma_index_bound(child.0 as int, child.1 as int, wi, hi);
            }
            let cidx: usize = (child.0 as usize) * (w as usize) + (child.1 as usize);
            let child_colour = gen.colour(cur_colour, d);
            let child_gen = gen.new();
            proof {
                // the child's colour is one generator step from this
                // cell's, whose write stands last in the list
                assert(config_of(child_gen) == config);
                assert(colour_step_ok(config, cur_colour, child_colour));
                assert(has(cell_bits(gp, wi, row as int, col as int), d.bits));
                assert(edge_between(
                    gp,
                    wi,
                    hi,
                    (row as int, col as int),
                    (child.0 as int, child.1 as int),
                ));
            }
            let back = match d.reverse() {
                Some(b) => b,
                None => Neighbours { bits: 0 },
            };
            let child_seen = visited[cidx];
            if !child_seen {
                let ghost vis0 = visited@;
                let ghost st0 = stack@;
                visited[cidx] = true;
                stack.push(
                    Frame {
                        row: child.0,
                        col: child.1,
                        mask: back,
                        colour: child_colour,
                        gen: child_gen,
                    },
                );
                proof {
                    lemma_count_true_update(vis0, cidx as int, true);
                    // the new frame's parent write is this cell's, the
                    // last in the list; older frames keep their accounts
                    assert forall|i: int|
                        #![trigger stack@[i]]
                        0 <= i < stack@.len() implies config_of(stack@[i].gen) == config && (
                    writes@.len() == 0 || exists|j: int|
                        #![trigger writes@[j]]
                        0 <= j < writes@.len() && edge_between(
                            gp,
                            wi,
                            hi,
                            (writes@[j].0.0 as int, writes@[j].0.1 as int),
                            (stack@[i].row as int, stack@[i].col as int),
                        ) && colour_step_ok(config, writes@[j].1, stack@[i].colour)) by {
                        if i < st0.len() {
                            assert(stack@[i] == st0[i]);
                        } else {
                            assert(stack@[i].row == child.0 && stack@[i].col == child.1
                                && stack@[i].colour == child_colour && stack@[i].gen == child_gen);
                            let j = writes@.len() - 1;
                            assert(writes@[j].0.0 == row && writes@[j].0.1 == col && writes@[j].1
                                == cur_colour);
                        }
                    }
                    // the child was nowhere before; now it is the top frame
                    assert forall|r: int, c: int|
                        cell_ok(r, c, wi, hi) && !(r == child.0 && c == child.1) implies #[trigger] marked(
                        visited@,
                        wi,
                        r,
                        c,
                    ) == marked(vis0, wi, r, c) by {
                        lemma_index_bound(r, c, wi, hi);
                        if r * wi + c == cidx as int {
                            lemma_index_injective(r, c, child.0 as int, child.1 as int, wi, hi);
                        }
                    }
                    assert(marked(visited@, wi, child.0 as int, child.1 as int));
                    assert(!marked(vis0, wi, child.0 as int, child.1 as int));
                    assert(!in_writes(writes@, child.0 as int, child.1 as int));
                    assert(!in_stack(st0, child.0 as int, child.1 as int));
                    // membership
                    assert forall|r: int, c: int| cell_ok(r, c, wi, hi) implies (#[trigger] marked(
                        visited@,
                        wi,
                        r,
                        c,
                    ) <==> (in_writes(writes@, r, c) || in_stack(stack@, r, c))) by {
                        if r == child.0 && c == child.1 {
                            assert(stack@[stack@.len() - 1].row == r && stack@[stack@.len() - 1].col
                                == c);
                        } else {
                            if in_stack(stack@, r, c) {
                                let i = choose|i: int|
                                    #![trigger stack@[i]]
                                    0 <= i < stack@.len() && stack@[i].row == r && stack@[i].col
                                        == c;
                                assert(i < st0.len());
                                assert(in_stack(st0, r, c));
                            }
                            if in_stack(st0, r, c) {
                                let i = choose|i: int|
                                    #![trigger st0[i]]
                                    0 <= i < st0.len() && st0[i].row == r && st0[i].col == c;
                                assert(stack@[i].row == r && stack@[i].col == c);
                            }
                        }
                    }
                    // distinctness: the child is fresh
                    assert(stack_distinct(stack@)) by {
                        assert forall|i: int, j: int|
                            #![trigger stack@[i], stack@[j]]
                            0 <= i < j < stack@.len() implies !(stack@[i].row == stack@[j].row
                            && stack@[i].col == stack@[j].col) by {
                            if j < st0.len() {
                                assert(stack@[i] == st0[i] && stack@[j] == st0[j]);
                            } else {
                                assert(stack@[i] == st0[i]);
                                assert(stack@[j].row == child.0 && stack@[j].col == child.1);
                                assert(in_stack(st0, stack@[i].row as int, stack@[i].col as int));
                                assert(marked(vis0, wi, stack@[i].row as int, stack@[i].col as int));
                            }
                        }
                    }
                    assert(writes_stack_disjoint(writes@, stack@)) by {
                        assert forall|i: int, j: int|
                            #![trigger writes@[i], stack@[j]]
                            0 <= i < writes@.len() && 0 <= j < stack@.len() implies !(writes@[i].0.0
                            == stack@[j].row && writes@[i].0.1 == stack@[j].col) by {
                            if j < st0.len() {
                                assert(stack@[j] == st0[j]);
                            } else {
                                assert(stack@[j].row == child.0 && stack@[j].col == child.1);
                                assert(in_writes(
                                    writes@,
                                    writes@[i].0.0 as int,
                                    writes@[i].0.1 as int,
                                ));
                                assert(marked(
                                    vis0,
                                    wi,
                                    writes@[i].0.0 as int,
                                    writes@[i].0.1 as int,
                                ));
                            }
                        }
                    }
                    // the child is reachable through the edge just taken
                    assert(reachable(gp, wi, hi, rooti, (row as int, col as int)));
                    assert(has(cell_bits(gp, wi, row as int, col as int), d.bits));
                    assert(edge_between(
                        gp,
                        wi,
                        hi,
                        (row as int, col as int),
                        (child.0 as int, child.1 as int),
                    ));
                    lemma_reachable_step(
                        gp,
                        wi,
                        hi,
                        rooti,
                        (row as int, col as int),
                        (child.0 as int, child.1 as int),
                    );
                    assert forall|r: int, c: int|
                        cell_ok(r, c, wi, hi) && #[trigger] marked(visited@, wi, r, c) implies reachable(
                        gp,
                        wi,
                        hi,
                        rooti,
                        (r, c),
                    ) by {
                        if !(r == child.0 && c == child.1) {
                            assert(marked(vis0, wi, r, c));
                        }
                    }
                    // the new frame's mask points back at this cell
                    assert(frame_masked_ok(gp, visited@, wi, hi, stack@[stack@.len() - 1])) by {
                        assert forall|e: u8|
                            is_single(e) && #[trigger] has(
                                cell_bits(gp, wi, child.0 as int, child.1 as int),
                                e,
                            ) && has(back.bits, e) && dir_ok(e, child.0 as int, child.1 as int, wi, hi)
                            implies marked(
                            visited@,
                            wi,
                            child.0 + drow(e),
                            child.1 + dcol(e),
                        ) by {
                            assert(e == rev_bits(d.bits));
                            assert(child.0 + drow(e) == row as int && child.1 + dcol(e)
                                == col as int);
                        }
                    }
                    // the child is not the root, so the masked grid and
                    // the tree agree on its cell
                    assert(frame_sees(tree@, gp, wi, stack@[stack@.len() - 1])) by {
                        assert(!(child.0 == rooti.0 && child.1 == rooti.1)) by {
                            assert(writes@[0].0.0 == root.0 && writes@[0].0.1 == root.1);
                            assert(in_writes(writes@, rooti.0, rooti.1));
                            assert(marked(vis0, wi, rooti.0, rooti.1));
                            assert(!marked(vis0, wi, child.0 as int, child.1 as int));
                        }
                        lemma_index_bound(child.0 as int, child.1 as int, wi, hi);
                        lemma_index_bound(rooti.0, rooti.1, wi, hi);
                        if child.0 as int * wi + child.1 as int == rooti.0 * wi + rooti.1 {
                            lemma_index_injective(
                                child.0 as int,
                                child.1 as int,
                                rooti.0,
                                rooti.1,
                                wi,
                                hi,
                            );
                        }
                        assert(child.0 as int * wi + child.1 as int != rooti.0 * wi + rooti.1);
                        assert(gp == tree@.update(
                            rooti.0 * wi + rooti.1,
                            Neighbours {
                                bits: tree@[rooti.0 * wi + rooti.1].bits
                                    & !visited_directions.bits,
                            },
                        ));
                        assert(gp[child.0 as int * wi + child.1 as int] == tree@[child.0 as int
                            * wi + child.1 as int]);
                        assert(cell_bits(gp, wi, child.0 as int, child.1 as int) == cell_bits(
                            tree@,
                            wi,
                            child.0 as int,
                            child.1 as int,
                        ));
                    }
                    // frames and writes keep their closure facts: marking
                    // only grows
                    assert forall|i: int|
                        #![trigger stack@[i]]
                        0 <= i < stack@.len() - 1 implies frame_masked_ok(
                        gp,
                        visited@,
                        wi,
                        hi,
                        stack@[i],
                    ) by {
                        assert(stack@[i] == st0[i]);
                        assert(frame_masked_ok(gp, vis0, wi, hi, st0[i]));
                        assert forall|e: u8|
                            is_single(e) && #[trigger] has(
                                cell_bits(gp, wi, stack@[i].row as int, stack@[i].col as int),
                                e,
                            ) && has(stack@[i].mask.bits, e) && dir_ok(
                                e,
                                stack@[i].row as int,
                                stack@[i].col as int,
                                wi,
                                hi,
                            ) implies marked(
                            visited@,
                            wi,
                            stack@[i].row + drow(e),
                            stack@[i].col + dcol(e),
                        ) by {
                            assert(marked(vis0, wi, stack@[i].row + drow(e), stack@[i].col + dcol(e)));
                            assert(cell_ok(
                                stack@[i].row + drow(e),
                                stack@[i].col + dcol(e),
                                wi,
                                hi,
                            ));
                        }
                    }
                }
            } else {
                proof {
                    assert(marked(visited@, wi, child.0 as int, child.1 as int));
                }
            }
            di = di + 1;
        }
        proof {
            // the emitted cell is now closed: every masked-grid edge out
            // of it leads to a marked cell
            assert forall|i: int|
                #![trigger writes@[i]]
                0 <= i < writes@.len() implies cell_closed(
                gp,
                visited@,
                wi,
                hi,
                writes@[i].0.0 as int,
                writes@[i].0.1 as int,
            ) by {
                if i < writes@.len() - 1 {
                } else {
                    assert(writes@[i].0.0 == row && writes@[i].0.1 == col);
                    assert forall|d: u8|
                        is_single(d) && #[trigger] has(cell_bits(gp, wi, row as int, col as int), d)
                            && dir_ok(d, row as int, col as int, wi, hi) implies marked(
                        visited@,
                        wi,
                        row + drow(d),
                        col + dcol(d),
                    ) by {
                        if has(mask.bits, d) {
                        } else {
                            assert(has(unvisited.bits, d));
                            let k = choose|k: int|
                                0 <= k < dirs@.len() && #[trigger] dirs@[k].bits == d;
                            assert(exists|k2: int|
                                0 <= k2 < dirs@.len() && #[trigger] dirs@[k2].bits == d);
                        }
                    }
                }
            }
        }
    }
    proof {
        // the stack is empty: membership collapses to the write list
        assert forall|r: int, c: int| cell_ok(r, c, wi, hi) implies (#[trigger] marked(
            visited@,
            wi,
            r,
            c,
        ) <==> in_writes(writes@, r, c)) by {
            if in_stack(stack@, r, c) {
                let i = choose|i: int|
                    #![trigger stack@[i]]
                    0 <= i < stack@.len() && stack@[i].row == r && stack@[i].col == c;
                assert(false);
            }
        }
        assert(writes@.len() > 0) by {
            if writes@.len() == 0 {
                assert(stack@.len() == 1);
            }
        }
        assert(writes@[0].0.0 == root.0 && writes@[0].0.1 == root.1);
        assert(in_writes(writes@, rooti.0, rooti.1));
        assert(marked(visited@, wi, rooti.0, rooti.1));
        lemma_walk_complete(gp, wi, hi, rooti, visited@, writes@);
        // a walk over a spanning tree touches every cell, so it emits
        // exactly one write per cell of the grid
        if forall|r: int, c: int| cell_ok(r, c, wi, hi) ==> reachable(gp, wi, hi, rooti, (r, c)) {
            assert forall|j: int| 0 <= j < num implies visited@[j] by {
                crate::grid::lemma_flat_to_cell(j, wi, hi);
                let r = j / wi;
                let c = j % wi;
                assert(reachable(gp, wi, hi, rooti, (r, c)));
                assert(in_writes(writes@, r, c));
                assert(marked(visited@, wi, r, c));
            }
            crate::grid::lemma_count_true_full(visited@);
        }
    }
    Ok(writes)
}

/// Drain a list of pixel writes into a fresh black buffer, the last
/// write to a cell winning.  This is the single consumer's whole job:
/// nothing else ever touches the buffer.
pub fn apply_writes(width: u32, height: u32, writes: &Vec<((u32, u32), Pixel)>) -> (buf: Vec<Pixel>)
    requires
        width as int * height as int <= usize::MAX,
        forall|i: int|
            0 <= i < writes@.len() ==> cell_ok(
                #[trigger] writes@[i].0.0 as int,
                writes@[i].0.1 as int,
                width as int,
                height as int,
            ),
    ensures
        buf@.len() == width as int * height as int,
        forall|r: int, c: int|
            cell_ok(r, c, width as int, height as int) && (forall|i: int|
                0 <= i < writes@.len() ==> !(#[trigger] writes@[i].0.0 == r && writes@[i].0.1 == c))
                ==> #[trigger] buf@[r * width + c] == (Pixel { r: 0, g: 0, b: 0 }),
        forall|i: int|
            0 <= i < writes@.len() && (forall|j: int|
                i < j < writes@.len() ==> !(#[trigger] writes@[j].0.0 == writes@[i].0.0
                    && writes@[j].0.1 == writes@[i].0.1)) ==> #[trigger] buf@[writes@[i].0.0 as int
                * width + writes@[i].0.1 as int] == writes@[i].1,
{
    let num: usize = (width as usize) * (height as usize);
    let mut buf: Vec<Pixel> = Vec::new();
    let mut i: usize = 0;
    while i < num
        invariant
            i == buf@.len() <= num,
            forall|j: int| 0 <= j < i ==> buf@[j] == (Pixel { r: 0, g: 0, b: 0 }),
        decreases num - i,
    {
        buf.push(Pixel { r: 0, g: 0, b: 0 });
        i = i + 1;
    }
    proof {
        assert forall|r: int, c: int| cell_ok(r, c, width as int, height as int) implies 0 <= r
            * width + c < num && buf@[r * width + c] == (Pixel { r: 0, g: 0, b: 0 }) by {
            lemma_index_bound(r, c, width as int, height as int);
        }
    }
    let n = writes.len();
    let mut k: usize = 0;
    while k < n
        invariant
            n == writes@.len(),
            num == width as int * height as int,
            buf@.len() == num,
            forall|i2: int|
                0 <= i2 < n ==> cell_ok(
                    #[trigger] writes@[i2].0.0 as int,
                    writes@[i2].0.1 as int,
                    width as int,
                    height as int,
                ),
            k <= n,
            forall|r: int, c: int|
                cell_ok(r, c, width as int, height as int) && (forall|i2: int|
                    0 <= i2 < k ==> !(#[trigger] writes@[i2].0.0 == r && writes@[i2].0.1 == c))
                    ==> #[trigger] buf@[r * width + c] == (Pixel { r: 0, g: 0, b: 0 }),
            forall|i2: int|
                0 <= i2 < k && (forall|j: int|
                    i2 < j < k ==> !(#[trigger] writes@[j].0.0 == writes@[i2].0.0 && writes@[j].0.1
                        == writes@[i2].0.1)) ==> #[trigger] buf@[writes@[i2].0.0 as int * width
                    + writes@[i2].0.1 as int] == writes@[i2].1,
        decreases n - k,
    {
        let ((row, col), px) = writes[k];
        proof {
            lemma_index_bound(row as int, col as int, width as int, height as int);
        }
        let idx: usize = (row as usize) * (width as usize) + (col as usize);
        let ghost pre = buf@;
        buf[idx] = px;
        proof {
            assert forall|r: int, c: int|
                cell_ok(r, c, width as int, height as int) && !(r == row && c == col) implies buf@[r
                * width + c] == pre[r * width + c] by {
                lemma_index_bound(r, c, width as int, height as int);
                if r * width + c == row as int * width + col as int {
                    lemma_index_injective(r, c, row as int, col as int, width as int, height as int);
                }
            }
        }
        k = k + 1;
    }
    buf
}

/// Masking a cell with no directions changes nothing.
pub proof fn lemma_mask_root_empty(g: Seq<Neighbours>, w: int, h: int, root: (int, int))
    requires
        cell_ok(root.0, root.1, w, h),
        g.len() == w * h,
    ensures
        mask_root(g, w, root, 0) == g,
{
    lemma_index_bound(root.0, root.1, w, h);
    let i = root.0 * w + root.1;
    let b = g[i].bits;
    assert(b & !0u8 == b) by (bit_vector);
    assert(mask_root(g, w, root, 0) =~= g);
}

/// Walk the whole tree from `root`, colouring every cell the walk
/// reaches, and drain the writes into a fresh buffer: black where the
/// walk never came, the root in its given colour.
pub fn lay_colours(
    tree: &Vec<Neighbours>,
    root: (u32, u32),
    colour: Pixel,
    colour_gen: Colourer,
    height: u32,
    width: u32,
) -> (res: Result<Vec<Pixel>, Error>)
    requires
        tree@.len() == width as int * height as int,
        bits_in_bounds(tree@, width as int, height as int),
    ensures
        res is Ok <==> cell_ok(root.0 as int, root.1 as int, width as int, height as int),
        res is Err ==> res == Result::<Vec<Pixel>, Error>::Err(Error::OutOfBounds),
        res matches Ok(buf) ==> buf@.len() == width as int * height as int,
        res matches Ok(buf) ==> buf@[root.0 as int * width + root.1 as int] == colour,
        res matches Ok(buf) ==> forall|r: int, c: int|
            cell_ok(r, c, width as int, height as int) && !reachable(
                tree@,
                width as int,
                height as int,
                (root.0 as int, root.1 as int),
                (r, c),
            ) ==> #[trigger] buf@[r * width + c] == (Pixel { r: 0, g: 0, b: 0 }),
        res matches Ok(buf) ==> exists|ws: Seq<((u32, u32), Pixel)>|
            #[trigger] walk_writes_ok(
                tree@,
                width as int,
                height as int,
                (root.0 as int, root.1 as int),
                colour,
                config_of(colour_gen),
                ws,
            ) && buffer_from_writes(width as int, height as int, ws, buf@),
{
    let ghost wi = width as int;
    let ghost hi = height as int;
    let ghost rooti = (root.0 as int, root.1 as int);
    let n = tree.len();
    let writes = match lay_colours_in_subtree(
        tree,
        root,
        Neighbours::empty(),
        colour,
        colour_gen,
        height,
        width,
    ) {
        Ok(ws) => ws,
        Err(e) => {
            return Err(e);
        },
    };
    proof {
        lemma_mask_root_empty(tree@, wi, hi, rooti);
    }
    let buf = apply_writes(width, height, &writes);
    proof {
        // the root's write is the first and only one for its cell
        assert(writes@[0].0.0 == root.0 && writes@[0].0.1 == root.1 && writes@[0].1 == colour);
        assert forall|j: int| 0 < j < writes@.len() implies !(#[trigger] writes@[j].0.0
            == writes@[0].0.0 && writes@[j].0.1 == writes@[0].0.1) by {}
        assert(buf@[writes@[0].0.0 as int * wi + writes@[0].0.1 as int] == writes@[0].1);
        // a cell the walk never reached has no write, so it stays black
        assert forall|r: int, c: int|
            cell_ok(r, c, wi, hi) && !reachable(tree@, wi, hi, rooti, (r, c)) implies #[trigger] buf@[r
            * wi + c] == (Pixel { r: 0, g: 0, b: 0 }) by {
            assert(!in_writes(writes@, r, c));
            assert forall|i: int| 0 <= i < writes@.len() implies !(#[trigger] writes@[i].0.0 == r
                && writes@[i].0.1 == c) by {
                if writes@[i].0.0 == r && writes@[i].0.1 == c {
                    assert(in_writes(writes@, r, c));
                }
            }
        }
        // the walk's own write list witnesses the buffer's provenance
        assert(walk_writes_ok(tree@, wi, hi, rooti, colour, config_of(colour_gen), writes@));
        assert(buffer_from_writes(wi, hi, writes@, buf@));
    }
    Ok(buf)
}

} // verus!
