//! The adjacency grid: one direction set per cell of a `width x height`
//! grid, and the boundary pruner that strips direction bits pointing
//! outside the grid.

use vstd::prelude::*;

use crate::dirs::{
    drow, dcol, has, is_single, rev_bits, Neighbours, EAST, EASTWARD, NORTH, NORTHEAST, NORTHWARD,
    NORTHWEST, SOUTH, SOUTHEAST, SOUTHWARD, SOUTHWEST, WEST, WESTWARD,
};
use crate::Error;

verus! {

/// The direction bits of the cell at `(r, c)` of a grid stored row by row.
pub open spec fn cell_bits(g: Seq<Neighbours>, w: int, r: int, c: int) -> u8 {
    g[r * w + c].bits
}

/// Is `(r, c)` a cell of a `w x h` grid?
pub open spec fn cell_ok(r: int, c: int, w: int, h: int) -> bool {
    0 <= r < h && 0 <= c < w
}

/// Does the single direction `d`, taken from cell `(r, c)`, stay inside
/// the grid?
pub open spec fn dir_ok(d: u8, r: int, c: int, w: int, h: int) -> bool {
    cell_ok(r + drow(d), c + dcol(d), w, h)
}

/// No cell holds a direction bit that points outside the grid.
pub open spec fn bits_in_bounds(g: Seq<Neighbours>, w: int, h: int) -> bool {
    forall|r: int, c: int, d: u8|
        cell_ok(r, c, w, h) && is_single(d) && #[trigger] has(cell_bits(g, w, r, c), d) ==> dir_ok(
            d,
            r,
            c,
            w,
            h,
        )
}

/// Every in-grid edge is recorded at both of its endpoints: if a cell
/// holds a direction towards a neighbour, the neighbour holds the
/// reverse direction back.
pub open spec fn edge_symmetric(g: Seq<Neighbours>, w: int, h: int) -> bool {
    forall|r: int, c: int, d: u8|
        cell_ok(r, c, w, h) && is_single(d) && #[trigger] has(cell_bits(g, w, r, c), d) && dir_ok(
            d,
            r,
            c,
            w,
            h,
        ) ==> has(cell_bits(g, w, r + drow(d), c + dcol(d)), rev_bits(d))
}

/// A cell's flat index lies inside the grid's backing array.
pub proof fn lemma_index_bound(r: int, c: int, w: int, h: int)
    by (nonlinear_arith)
    requires
        cell_ok(r, c, w, h),
    ensures
        0 <= r * w + c < w * h,
        c == 0 ==> r * w + c == r * w,
{
}

/// Distinct cells have distinct flat indices.
pub proof fn lemma_index_injective(r1: int, c1: int, r2: int, c2: int, w: int, h: int)
    by (nonlinear_arith)
    requires
        cell_ok(r1, c1, w, h),
        cell_ok(r2, c2, w, h),
        r1 * w + c1 == r2 * w + c2,
    ensures
        r1 == r2 && c1 == c2,
{
}

/// `g1` is `g0` with exactly the direction bits that point outside the
/// grid stripped: the relation `prune_edges` establishes between its
/// input and its output.
pub open spec fn pruned_from(g0: Seq<Neighbours>, g1: Seq<Neighbours>, w: int, h: int) -> bool {
    forall|r: int, c: int, d: u8|
        cell_ok(r, c, w, h) && is_single(d) ==> (#[trigger] has(cell_bits(g1, w, r, c), d) <==> has(
            cell_bits(g0, w, r, c),
            d,
        ) && dir_ok(d, r, c, w, h))
}

/// A flat index of the backing array names a cell of the grid.
pub proof fn lemma_flat_to_cell(i: int, w: int, h: int)
    by (nonlinear_arith)
    requires
        0 <= i < w * h,
        0 < w,
    ensures
        cell_ok(i / w, i % w, w, h),
        i == (i / w) * w + (i % w),
{
}

/// Pruning leaves no direction bit pointing outside the grid.
pub proof fn lemma_pruned_in_bounds(g0: Seq<Neighbours>, g1: Seq<Neighbours>, w: int, h: int)
    requires
        pruned_from(g0, g1, w, h),
    ensures
        bits_in_bounds(g1, w, h),
{
}

/// Pruning keeps edge symmetry: the bits it strips point outside the
/// grid, so no surviving in-grid edge loses either of its two records.
pub proof fn lemma_pruned_symmetric(g0: Seq<Neighbours>, g1: Seq<Neighbours>, w: int, h: int)
    requires
        edge_symmetric(g0, w, h),
        pruned_from(g0, g1, w, h),
    ensures
        edge_symmetric(g1, w, h),
{
    crate::dirs::lemma_single_bits();
    assert forall|r: int, c: int, d: u8|
        cell_ok(r, c, w, h) && is_single(d) && #[trigger] has(cell_bits(g1, w, r, c), d) && dir_ok(
            d,
            r,
            c,
            w,
            h,
        ) implies has(cell_bits(g1, w, r + drow(d), c + dcol(d)), rev_bits(d)) by {
        assert(has(cell_bits(g0, w, r, c), d));
        let r2 = r + drow(d);
        let c2 = c + dcol(d);
        let e = rev_bits(d);
        assert(has(cell_bits(g0, w, r2, c2), e));
        assert(r2 + drow(e) == r && c2 + dcol(e) == c);
        assert(dir_ok(e, r2, c2, w, h));
    }
}

/// The boundary mask of cell `(r, c)`: the directions that would leave
/// the grid from there.
pub open spec fn border_mask(r: int, c: int, w: int, h: int) -> u8 {
    (if r == 0 {
        NORTHWARD
    } else {
        0u8
    }) | (if r == h - 1 {
        SOUTHWARD
    } else {
        0u8
    }) | (if c == 0 {
        WESTWARD
    } else {
        0u8
    }) | (if c == w - 1 {
        EASTWARD
    } else {
        0u8
    })
}

/// Bit-level facts about masks and the single directions.
pub proof fn lemma_mask_bits()
    by (bit_vector)
    ensures
        forall|s: u8, m: u8, d: u8|
            is_single(d) ==> (#[trigger] has(s & !m, d) <==> has(s, d) && (has(m, d) == false)),
        forall|a: u8, b: u8, d: u8|
            is_single(d) ==> (#[trigger] has(a | b, d) <==> has(a, d) || has(b, d)),
        forall|d: u8|
            is_single(d) ==> (#[trigger] has(NORTHWARD, d) <==> d == NORTH || d == NORTHEAST || d
                == NORTHWEST),
        forall|d: u8|
            is_single(d) ==> (#[trigger] has(SOUTHWARD, d) <==> d == SOUTH || d == SOUTHEAST || d
                == SOUTHWEST),
        forall|d: u8|
            is_single(d) ==> (#[trigger] has(WESTWARD, d) <==> d == WEST || d == NORTHWEST || d
                == SOUTHWEST),
        forall|d: u8|
            is_single(d) ==> (#[trigger] has(EASTWARD, d) <==> d == EAST || d == NORTHEAST || d
                == SOUTHEAST),
        forall|d: u8| #[trigger] has(0u8, d) == false,
        forall|d: u8| is_single(d) ==> #[trigger] has(0xFFu8, d),
        forall|d: u8, e: u8| is_single(d) && is_single(e) ==> (#[trigger] has(d, e) <==> d == e),
{
}

/// A single direction survives the boundary mask exactly when it keeps
/// the cell inside the grid.
proof fn lemma_border_mask(r: int, c: int, w: int, h: int)
    requires
        cell_ok(r, c, w, h),
    ensures
        forall|s: u8, d: u8|
            is_single(d) ==> (#[trigger] has(s & !border_mask(r, c, w, h), d) <==> has(s, d)
                && dir_ok(d, r, c, w, h)),
{
    lemma_mask_bits();
    let n: u8 = if r == 0 {
        NORTHWARD
    } else {
        0u8
    };
    let s_: u8 = if r == h - 1 {
        SOUTHWARD
    } else {
        0u8
    };
    let w_: u8 = if c == 0 {
        WESTWARD
    } else {
        0u8
    };
    let e_: u8 = if c == w - 1 {
        EASTWARD
    } else {
        0u8
    };
    assert forall|s: u8, d: u8| is_single(d) implies (#[trigger] has(
        s & !border_mask(r, c, w, h),
        d,
    ) <==> has(s, d) && dir_ok(d, r, c, w, h)) by {
        assert(border_mask(r, c, w, h) == n | s_ | w_ | e_);
        assert(has(n | s_ | w_ | e_, d) <==> has(n, d) || has(s_, d) || has(w_, d) || has(e_, d));
        assert(has(n, d) <==> r == 0 && drow(d) == -1);
        assert(has(s_, d) <==> r == h - 1 && drow(d) == 1);
        assert(has(w_, d) <==> c == 0 && dcol(d) == -1);
        assert(has(e_, d) <==> c == w - 1 && dcol(d) == 1);
    }
}

/// The total number of direction bits held across all cells of a grid.
pub open spec fn bits_total(g: Seq<Neighbours>) -> int
    decreases g.len(),
{
    if g.len() == 0 {
        0
    } else {
        bits_total(g.drop_last()) + crate::dirs::count_bits(g.last().bits)
    }
}

/// A grid with no direction bits totals zero.
pub proof fn lemma_bits_total_zero(g: Seq<Neighbours>)
    requires
        forall|j: int| 0 <= j < g.len() ==> g[j].bits == 0,
    ensures
        bits_total(g) == 0,
    decreases g.len(),
{
    crate::dirs::lemma_count_bits();
    if g.len() > 0 {
        lemma_bits_total_zero(g.drop_last());
    }
}

/// The total is never negative.
pub proof fn lemma_bits_total_nonneg(g: Seq<Neighbours>)
    ensures
        bits_total(g) >= 0,
    decreases g.len(),
{
    crate::dirs::lemma_count_bits();
    if g.len() > 0 {
        lemma_bits_total_nonneg(g.drop_last());
    }
}

/// Replacing one cell moves the total by the difference of the two
/// cells' counts.
pub proof fn lemma_bits_total_update(g: Seq<Neighbours>, i: int, v: Neighbours)
    requires
        0 <= i < g.len(),
    ensures
        bits_total(g.update(i, v)) == bits_total(g) - crate::dirs::count_bits(g[i].bits)
            + crate::dirs::count_bits(v.bits),
    decreases g.len(),
{
    let g2 = g.update(i, v);
    if i == g.len() - 1 {
        assert(g2.drop_last() =~= g.drop_last());
    } else {
        assert(g2.drop_last() =~= g.drop_last().update(i, v));
        lemma_bits_total_update(g.drop_last(), i, v);
    }
}

/// A vector of `n` copies of `x`.
pub fn filled<T: Copy>(n: usize, x: T) -> (r: Vec<T>)
    ensures
        r@.len() == n,
        forall|j: int| 0 <= j < n ==> r@[j] == x,
{
    let mut v: Vec<T> = Vec::new();
    let mut i: usize = 0;
    while i < n
        invariant
            i == v@.len() <= n,
            forall|j: int| 0 <= j < i ==> v@[j] == x,
        decreases n - i,
    {
        v.push(x);
        i = i + 1;
    }
    v
}

/// Move from `(row, col)` one cell along the single direction `d`,
/// refusing a move that would leave the grid.
pub fn try_step(
    d: Neighbours,
    row: usize,
    col: usize,
    width: usize,
    height: usize,
) -> (res: Result<(usize, usize), Error>)
    requires
        is_single(d.bits),
        cell_ok(row as int, col as int, width as int, height as int),
    ensures
        res is Ok <==> dir_ok(d.bits, row as int, col as int, width as int, height as int),
        res matches Ok(p) ==> p.0 == row + drow(d.bits) && p.1 == col + dcol(d.bits) && cell_ok(
            p.0 as int,
            p.1 as int,
            width as int,
            height as int,
        ),
        res is Err ==> res == Result::<(usize, usize), Error>::Err(Error::OutOfBounds),
{
    proof {
        crate::dirs::lemma_single_bits();
    }
    let northward = NORTHWARD & d.bits == d.bits;
    let southward = SOUTHWARD & d.bits == d.bits;
    let westward = WESTWARD & d.bits == d.bits;
    let eastward = EASTWARD & d.bits == d.bits;
    if northward && row == 0 {
        return Err(Error::OutOfBounds);
    }
    if southward && row == height - 1 {
        return Err(Error::OutOfBounds);
    }
    if westward && col == 0 {
        return Err(Error::OutOfBounds);
    }
    if eastward && col == width - 1 {
        return Err(Error::OutOfBounds);
    }
    Ok(d.step_usize((row, col)))
}

/// Record the edge from `(row, col)` along the single in-grid direction
/// `d` at both of its endpoints, keeping the grid's symmetry and its
/// bounds invariant.
pub fn add_edge(
    grid: &mut Vec<Neighbours>,
    width: usize,
    height: usize,
    row: usize,
    col: usize,
    d: Neighbours,
)
    requires
        old(grid)@.len() == width * height,
        is_single(d.bits),
        cell_ok(row as int, col as int, width as int, height as int),
        dir_ok(d.bits, row as int, col as int, width as int, height as int),
    ensures
        final(grid)@.len() == old(grid)@.len(),
        cell_bits(final(grid)@, width as int, row as int, col as int) == cell_bits(
            old(grid)@,
            width as int,
            row as int,
            col as int,
        ) | d.bits,
        cell_bits(
            final(grid)@,
            width as int,
            row + drow(d.bits),
            col + dcol(d.bits),
        ) == cell_bits(old(grid)@, width as int, row + drow(d.bits), col + dcol(d.bits))
            | rev_bits(d.bits),
        forall|r2: int, c2: int|
            cell_ok(r2, c2, width as int, height as int) && !(r2 == row && c2 == col) && !(r2 == row
                + drow(d.bits) && c2 == col + dcol(d.bits)) ==> #[trigger] cell_bits(
                final(grid)@,
                width as int,
                r2,
                c2,
            ) == cell_bits(old(grid)@, width as int, r2, c2),
        bits_in_bounds(old(grid)@, width as int, height as int) ==> bits_in_bounds(
            final(grid)@,
            width as int,
            height as int,
        ),
        edge_symmetric(old(grid)@, width as int, height as int) && bits_in_bounds(
            old(grid)@,
            width as int,
            height as int,
        ) ==> edge_symmetric(final(grid)@, width as int, height as int),
{
    proof {
        crate::dirs::lemma_single_bits();
        lemma_mask_bits();
        lemma_index_bound(row as int, col as int, width as int, height as int);
    }
    let w = width;
    let h = height;
    let ghost g0 = grid@;
    let glen: usize = grid.len();
    let idx: usize = row * w + col;
    let cell = grid[idx];
    grid[idx] = Neighbours { bits: cell.bits | d.bits };
    let back = match d.reverse() {
        Some(b) => b,
        None => {
            proof {
                assert(false);
            }
            Neighbours { bits: 0 }
        },
    };
    let (row2, col2) = d.step_usize((row, col));
    proof {
        assert(cell_ok(row2 as int, col2 as int, w as int, h as int));
        lemma_index_bound(row2 as int, col2 as int, w as int, h as int);
        if (row2 as int) * (w as int) + (col2 as int) == (row as int) * (w as int) + (col as int) {
            lemma_index_injective(
                row as int,
                col as int,
                row2 as int,
                col2 as int,
                w as int,
                h as int,
            );
            assert(false);
        }
    }
    let idx2: usize = row2 * w + col2;
    let cell2 = grid[idx2];
    grid[idx2] = Neighbours { bits: cell2.bits | back.bits };
    proof {
        let wi = w as int;
        let hi = h as int;
        let ri = row as int;
        let ci = col as int;
        let r2i = row2 as int;
        let c2i = col2 as int;
        assert(cell_bits(grid@, wi, ri, ci) == cell.bits | d.bits);
        assert(cell_bits(grid@, wi, r2i, c2i) == cell2.bits | rev_bits(d.bits));
        assert forall|ra: int, ca: int|
            cell_ok(ra, ca, wi, hi) && !(ra == ri && ca == ci) && !(ra == r2i && ca == c2i)
                implies #[trigger] cell_bits(grid@, wi, ra, ca) == cell_bits(g0, wi, ra, ca) by {
            lemma_index_bound(ra, ca, wi, hi);
            if ra * wi + ca == ri * wi + ci {
                lemma_index_injective(ra, ca, ri, ci, wi, hi);
            }
            if ra * wi + ca == r2i * wi + c2i {
                lemma_index_injective(ra, ca, r2i, c2i, wi, hi);
            }
        }
        if bits_in_bounds(g0, wi, hi) {
            assert forall|ra: int, ca: int, da: u8|
                cell_ok(ra, ca, wi, hi) && is_single(da) && #[trigger] has(
                    cell_bits(grid@, wi, ra, ca),
                    da,
                ) implies dir_ok(da, ra, ca, wi, hi) by {
                if ra == ri && ca == ci {
                    assert(cell_bits(grid@, wi, ra, ca) == cell.bits | d.bits);
                    assert(has(cell.bits | d.bits, da) <==> has(cell.bits, da) || has(d.bits, da));
                    assert(has(cell.bits, da) || da == d.bits);
                    assert(has(cell_bits(g0, wi, ra, ca), da) || da == d.bits);
                } else if ra == r2i && ca == c2i {
                    assert(cell_bits(grid@, wi, ra, ca) == cell2.bits | rev_bits(d.bits));
                    assert(has(cell2.bits | rev_bits(d.bits), da) <==> has(cell2.bits, da) || has(
                        rev_bits(d.bits),
                        da,
                    ));
                    assert(has(cell2.bits, da) || da == rev_bits(d.bits));
                    assert(has(cell_bits(g0, wi, ra, ca), da) || da == rev_bits(d.bits));
                    assert(da == rev_bits(d.bits) ==> r2i + drow(da) == ri && c2i + dcol(da) == ci);
                } else {
                    assert(cell_bits(grid@, wi, ra, ca) == cell_bits(g0, wi, ra, ca));
                    assert(has(cell_bits(g0, wi, ra, ca), da));
                }
            }
            if edge_symmetric(g0, wi, hi) {
                assert forall|ra: int, ca: int, da: u8|
                    cell_ok(ra, ca, wi, hi) && is_single(da) && #[trigger] has(
                        cell_bits(grid@, wi, ra, ca),
                        da,
                    ) && dir_ok(da, ra, ca, wi, hi) implies has(
                    cell_bits(grid@, wi, ra + drow(da), ca + dcol(da)),
                    rev_bits(da),
                ) by {
                    let rb = ra + drow(da);
                    let cb = ca + dcol(da);
                    if (ra == ri && ca == ci && da == d.bits) || (ra == r2i && ca == c2i && da
                        == rev_bits(d.bits)) {
                        // the edge just added: its partner record was added with it
                    } else {
                        // an edge of the old grid: the old partner record is
                        // still present, since cells only gained bits
                        if ra == ri && ca == ci {
                            assert(has(cell.bits, da));
                        }
                        if ra == r2i && ca == c2i {
                            assert(has(cell2.bits, da));
                        }
                        assert(has(cell_bits(g0, wi, ra, ca), da));
                        assert(has(cell_bits(g0, wi, rb, cb), rev_bits(da)));
                        assert(cell_bits(grid@, wi, rb, cb) == cell_bits(g0, wi, rb, cb)
                            || cell_bits(grid@, wi, rb, cb) == cell_bits(g0, wi, rb, cb) | d.bits
                            || cell_bits(grid@, wi, rb, cb) == cell_bits(g0, wi, rb, cb) | rev_bits(
                            d.bits,
                        ));
                    }
                }
            }
        }
    }
}

/// Strip every direction bit that would point outside the grid: northward
/// bits on the top row, southward on the bottom row, westward in the first
/// column and eastward in the last.
///
/// Runs over any freshly allocated full-adjacency grid before use, and
/// again over every generated tree.  Fails when `width` or `height` is
/// zero, since then no boundary row or column exists to index.
pub fn prune_edges(width: usize, height: usize, grid: &mut Vec<Neighbours>) -> (res: Result<
    (),
    Error,
>)
    requires
        old(grid)@.len() == width * height,
    ensures
        final(grid)@.len() == old(grid)@.len(),
        res is Err <==> width == 0 || height == 0,
        res is Err ==> final(grid)@ == old(grid)@ && res == Result::<(), Error>::Err(
            Error::OutOfBounds,
        ),
        res is Ok ==> pruned_from(old(grid)@, final(grid)@, width as int, height as int),
        res is Ok && bits_in_bounds(old(grid)@, width as int, height as int) ==> final(grid)@
            == old(grid)@,
{
    if width == 0 || height == 0 {
        return Err(Error::OutOfBounds);
    }
    let w = width;
    let h = height;
    let ghost g0 = grid@;
    let glen: usize = grid.len();
    let mut r: usize = 0;
    while r < h
        invariant
            0 < w && 0 < h,
            r <= h,
            w * h <= usize::MAX,
            grid@.len() == g0.len() == w * h,
            forall|r2: int, c2: int, d: u8|
                cell_ok(r2, c2, w as int, h as int) && r2 < r && is_single(d) ==> (#[trigger] has(
                    cell_bits(grid@, w as int, r2, c2),
                    d,
                ) <==> has(cell_bits(g0, w as int, r2, c2), d) && dir_ok(
                    d,
                    r2,
                    c2,
                    w as int,
                    h as int,
                )),
            forall|r2: int, c2: int|
                cell_ok(r2, c2, w as int, h as int) && r2 >= r ==> #[trigger] cell_bits(
                    grid@,
                    w as int,
                    r2,
                    c2,
                ) == cell_bits(g0, w as int, r2, c2),
        decreases h - r,
    {
        let mut c: usize = 0;
        while c < w
            invariant
                0 < w && 0 < h,
                r < h,
                c <= w,
                w * h <= usize::MAX,
                grid@.len() == g0.len() == w * h,
                forall|r2: int, c2: int, d: u8|
                    cell_ok(r2, c2, w as int, h as int) && (r2 < r || (r2 == r && c2 < c))
                        && is_single(d) ==> (#[trigger] has(
                        cell_bits(grid@, w as int, r2, c2),
                        d,
                    ) <==> has(cell_bits(g0, w as int, r2, c2), d) && dir_ok(
                        d,
                        r2,
                        c2,
                        w as int,
                        h as int,
                    )),
                forall|r2: int, c2: int|
                    cell_ok(r2, c2, w as int, h as int) && (r2 > r || (r2 == r && c2 >= c))
                        ==> #[trigger] cell_bits(grid@, w as int, r2, c2) == cell_bits(
                        g0,
                        w as int,
                        r2,
                        c2,
                    ),
            decreases w - c,
        {
            proof {
                lemma_index_bound(r as int, c as int, w as int, h as int);
            }
            let mask: u8 = (if r == 0 {
                NORTHWARD
            } else {
                0u8
            }) | (if r == h - 1 {
                SOUTHWARD
            } else {
                0u8
            }) | (if c == 0 {
                WESTWARD
            } else {
                0u8
            }) | (if c == w - 1 {
                EASTWARD
            } else {
                0u8
            });
            assert(mask == border_mask(r as int, c as int, w as int, h as int));
            let idx: usize = r * w + c;
            let ghost pre = grid@;
            let old_cell = grid[idx];
            proof {
                assert(old_cell.bits == cell_bits(pre, w as int, r as int, c as int));
            }
            grid[idx] = Neighbours { bits: old_cell.bits & !mask };
            proof {
                lemma_border_mask(r as int, c as int, w as int, h as int);
                assert forall|r2: int, c2: int|
                    cell_ok(r2, c2, w as int, h as int) && !(r2 == r && c2 == c) implies #[trigger] cell_bits(
                    grid@,
                    w as int,
                    r2,
                    c2,
                ) == cell_bits(pre, w as int, r2, c2) by {
                    lemma_index_bound(r2, c2, w as int, h as int);
                    if r2 * (w as int) + c2 == (r as int) * (w as int) + (c as int) {
                        lemma_index_injective(r2, c2, r as int, c as int, w as int, h as int);
                    }
                }
                assert forall|d: u8| is_single(d) implies (#[trigger] has(
                    cell_bits(grid@, w as int, r as int, c as int),
                    d,
                ) <==> has(cell_bits(g0, w as int, r as int, c as int), d) && dir_ok(
                    d,
                    r as int,
                    c as int,
                    w as int,
                    h as int,
                )) by {
                    assert(cell_bits(grid@, w as int, r as int, c as int) == old_cell.bits & !mask);
                    assert(has(
                        old_cell.bits & !border_mask(r as int, c as int, w as int, h as int),
                        d,
                    ) <==> has(old_cell.bits, d) && dir_ok(d, r as int, c as int, w as int, h as int));
                }
            }
            c = c + 1;
        }
        r = r + 1;
    }
    proof {
        if bits_in_bounds(g0, w as int, h as int) {
            assert forall|i: int| 0 <= i < grid@.len() implies grid@[i] == g0[i] by {
                lemma_flat_to_cell(i, w as int, h as int);
                let r2 = i / (w as int);
                let c2 = i % (w as int);
                assert forall|d: u8| is_single(d) implies (#[trigger] has(grid@[i].bits, d) <==> has(
                    g0[i].bits,
                    d,
                )) by {
                    assert(grid@[i].bits == cell_bits(grid@, w as int, r2, c2));
                    assert(has(cell_bits(grid@, w as int, r2, c2), d) <==> has(
                        cell_bits(g0, w as int, r2, c2),
                        d,
                    ) && dir_ok(d, r2, c2, w as int, h as int));
                }
                crate::dirs::lemma_bits_ext(grid@[i].bits, g0[i].bits);
            }
            assert(grid@ =~= g0);
        }
    }
    Ok(())
}

/// The cell one step along the single direction `d` from `c`.
pub open spec fn step_cell(c: (int, int), d: u8) -> (int, int) {
    (c.0 + drow(d), c.1 + dcol(d))
}

/// Does the grid hold an edge from `a` one step to `b`?
pub open spec fn edge_between(
    g: Seq<Neighbours>,
    w: int,
    h: int,
    a: (int, int),
    b: (int, int),
) -> bool {
    exists|d: u8|
        is_single(d) && #[trigger] has(cell_bits(g, w, a.0, a.1), d) && dir_ok(d, a.0, a.1, w, h)
            && b == step_cell(a, d)
}

/// Is `p` a walk through the grid: non-empty, inside the grid, and each
/// hop an edge of `g`?
pub open spec fn is_path(g: Seq<Neighbours>, w: int, h: int, p: Seq<(int, int)>) -> bool {
    p.len() >= 1 && (forall|i: int| 0 <= i < p.len() ==> cell_ok(#[trigger] p[i].0, p[i].1, w, h))
        && (forall|i: int| 0 <= i < p.len() - 1 ==> edge_between(g, w, h, #[trigger] p[i], p[i + 1]))
}

/// Can the walk reach `c` from `root` along the grid's edges?
pub open spec fn reachable(
    g: Seq<Neighbours>,
    w: int,
    h: int,
    root: (int, int),
    c: (int, int),
) -> bool {
    exists|p: Seq<(int, int)>|
        #[trigger] is_path(g, w, h, p) && p.first() == root && p.last() == c
}

/// The root reaches itself.
pub proof fn lemma_reachable_refl(g: Seq<Neighbours>, w: int, h: int, root: (int, int))
    requires
        cell_ok(root.0, root.1, w, h),
    ensures
        reachable(g, w, h, root, root),
{
    let p = seq![root];
    assert(is_path(g, w, h, p));
    assert(p.first() == root && p.last() == root);
}

/// Reachability extends along an edge.
pub proof fn lemma_reachable_step(
    g: Seq<Neighbours>,
    w: int,
    h: int,
    root: (int, int),
    a: (int, int),
    b: (int, int),
)
    requires
        reachable(g, w, h, root, a),
        edge_between(g, w, h, a, b),
        cell_ok(b.0, b.1, w, h),
    ensures
        reachable(g, w, h, root, b),
{
    let p = choose|p: Seq<(int, int)>|
        #[trigger] is_path(g, w, h, p) && p.first() == root && p.last() == a;
    let q = p.push(b);
    assert forall|i: int| 0 <= i < q.len() - 1 implies edge_between(g, w, h, #[trigger] q[i], q[i + 1]) by {
        if i < p.len() - 1 {
            assert(q[i] == p[i] && q[i + 1] == p[i + 1]);
        } else {
            assert(q[i] == a && q[i + 1] == b);
        }
    }
    assert(is_path(g, w, h, q));
    assert(q.first() == root && q.last() == b);
}

/// A visited set that holds the root and is closed under the grid's
/// edges holds the last cell of any path out of the root.
proof fn lemma_path_in_closed(
    g: Seq<Neighbours>,
    w: int,
    h: int,
    root: (int, int),
    vis: Seq<bool>,
    p: Seq<(int, int)>,
)
    requires
        vis.len() == w * h,
        cell_ok(root.0, root.1, w, h),
        vis[root.0 * w + root.1],
        forall|r: int, c: int, d: u8|
            cell_ok(r, c, w, h) && vis[r * w + c] && is_single(d) && #[trigger] has(
                cell_bits(g, w, r, c),
                d,
            ) && dir_ok(d, r, c, w, h) ==> vis[(r + drow(d)) * w + (c + dcol(d))],
        is_path(g, w, h, p),
        p.first() == root,
    ensures
        vis[p.last().0 * w + p.last().1],
    decreases p.len(),
{
    if p.len() == 1 {
        assert(p.last() == root);
    } else {
        let q = p.drop_last();
        assert(is_path(g, w, h, q));
        lemma_path_in_closed(g, w, h, root, vis, q);
        let a = q.last();
        let b = p.last();
        assert(a == p[p.len() - 2] && edge_between(g, w, h, p[p.len() - 2], p.last()));
        let d = choose|d: u8|
            is_single(d) && #[trigger] has(cell_bits(g, w, a.0, a.1), d) && dir_ok(
                d,
                a.0,
                a.1,
                w,
                h,
            ) && b == step_cell(a, d);
        assert(vis[(a.0 + drow(d)) * w + (a.1 + dcol(d))]);
    }
}

/// Every cell reachable from the root lies in any visited set that
/// holds the root and is closed under the grid's edges.
pub proof fn lemma_reachable_in_closed(
    g: Seq<Neighbours>,
    w: int,
    h: int,
    root: (int, int),
    vis: Seq<bool>,
    c: (int, int),
)
    requires
        vis.len() == w * h,
        cell_ok(root.0, root.1, w, h),
        vis[root.0 * w + root.1],
        forall|r: int, c2: int, d: u8|
            cell_ok(r, c2, w, h) && vis[r * w + c2] && is_single(d) && #[trigger] has(
                cell_bits(g, w, r, c2),
                d,
            ) && dir_ok(d, r, c2, w, h) ==> vis[(r + drow(d)) * w + (c2 + dcol(d))],
        reachable(g, w, h, root, c),
    ensures
        vis[c.0 * w + c.1],
{
    let p = choose|p: Seq<(int, int)>|
        #[trigger] is_path(g, w, h, p) && p.first() == root && p.last() == c;
    lemma_path_in_closed(g, w, h, root, vis, p);
}

/// Reachability survives growing the grid: adding direction bits never
/// breaks a path.
pub proof fn lemma_reachable_grow(
    g1: Seq<Neighbours>,
    g2: Seq<Neighbours>,
    w: int,
    h: int,
    root: (int, int),
    c: (int, int),
)
    requires
        forall|r: int, c2: int, d: u8|
            cell_ok(r, c2, w, h) && is_single(d) && #[trigger] has(cell_bits(g1, w, r, c2), d)
                ==> has(cell_bits(g2, w, r, c2), d),
        reachable(g1, w, h, root, c),
    ensures
        reachable(g2, w, h, root, c),
{
    let p = choose|p: Seq<(int, int)>|
        #[trigger] is_path(g1, w, h, p) && p.first() == root && p.last() == c;
    assert forall|i: int| 0 <= i < p.len() - 1 implies edge_between(g2, w, h, #[trigger] p[i], p[i + 1]) by {
        let d = choose|d: u8|
            is_single(d) && #[trigger] has(cell_bits(g1, w, p[i].0, p[i].1), d) && dir_ok(
                d,
                p[i].0,
                p[i].1,
                w,
                h,
            ) && p[i + 1] == step_cell(p[i], d);
        assert(has(cell_bits(g2, w, p[i].0, p[i].1), d));
    }
    assert(is_path(g2, w, h, p));
}

/// Reachability from a root survives growing the grid, for every cell
/// at once.
pub proof fn lemma_reachable_grow_all(
    g1: Seq<Neighbours>,
    g2: Seq<Neighbours>,
    w: int,
    h: int,
    root: (int, int),
)
    requires
        forall|r: int, c2: int, d: u8|
            cell_ok(r, c2, w, h) && is_single(d) && #[trigger] has(cell_bits(g1, w, r, c2), d)
                ==> has(cell_bits(g2, w, r, c2), d),
    ensures
        forall|c: (int, int)|
            #[trigger] reachable(g1, w, h, root, c) ==> reachable(g2, w, h, root, c),
{
    assert forall|c: (int, int)| #[trigger] reachable(g1, w, h, root, c) implies reachable(
        g2,
        w,
        h,
        root,
        c,
    ) by {
        lemma_reachable_grow(g1, g2, w, h, root, c);
    }
}

/// A set of cells that holds one cell and every grid neighbour of each
/// of its cells holds the whole grid.
pub proof fn lemma_closed_set_covers_grid(
    w: int,
    h: int,
    vis: Seq<bool>,
    sr: int,
    sc: int,
    r: int,
    c: int,
)
    requires
        vis.len() == w * h,
        cell_ok(sr, sc, w, h),
        marked(vis, w, sr, sc),
        forall|r2: int, c2: int, d: u8|
            #![trigger marked(vis, w, r2, c2), dir_ok(d, r2, c2, w, h)]
            cell_ok(r2, c2, w, h) && marked(vis, w, r2, c2) && is_single(d) && dir_ok(
                d,
                r2,
                c2,
                w,
                h,
            ) ==> marked(vis, w, r2 + drow(d), c2 + dcol(d)),
        cell_ok(r, c, w, h),
    ensures
        marked(vis, w, r, c),
    decreases
            (if r >= sr {
                r - sr
            } else {
                sr - r
            }) + (if c >= sc {
                c - sc
            } else {
                sc - c
            }),
{
    if sr < r {
        assert(dir_ok(crate::dirs::SOUTH, sr, sc, w, h) && drow(crate::dirs::SOUTH) == 1 && dcol(
            crate::dirs::SOUTH,
        ) == 0);
        lemma_closed_set_covers_grid(w, h, vis, sr + 1, sc, r, c);
    } else if sr > r {
        assert(dir_ok(crate::dirs::NORTH, sr, sc, w, h) && drow(crate::dirs::NORTH) == -1 && dcol(
            crate::dirs::NORTH,
        ) == 0);
        lemma_closed_set_covers_grid(w, h, vis, sr - 1, sc, r, c);
    } else if sc < c {
        assert(dir_ok(crate::dirs::EAST, sr, sc, w, h) && drow(crate::dirs::EAST) == 0 && dcol(
            crate::dirs::EAST,
        ) == 1);
        lemma_closed_set_covers_grid(w, h, vis, sr, sc + 1, r, c);
    } else if sc > c {
        assert(dir_ok(crate::dirs::WEST, sr, sc, w, h) && drow(crate::dirs::WEST) == 0 && dcol(
            crate::dirs::WEST,
        ) == -1);
        lemma_closed_set_covers_grid(w, h, vis, sr, sc - 1, r, c);
    }
}

/// How many cells of the grid a visited record marks.
pub open spec fn count_true(s: Seq<bool>) -> int
    decreases s.len(),
{
    if s.len() == 0 {
        0
    } else {
        count_true(s.drop_last()) + (if s.last() {
            1int
        } else {
            0int
        })
    }
}

/// The count stays within the record's length.
pub proof fn lemma_count_true_bounds(s: Seq<bool>)
    ensures
        0 <= count_true(s) <= s.len(),
    decreases s.len(),
{
    if s.len() > 0 {
        lemma_count_true_bounds(s.drop_last());
    }
}

/// A record with no marks counts zero.
pub proof fn lemma_count_true_zero(s: Seq<bool>)
    requires
        forall|j: int| 0 <= j < s.len() ==> !s[j],
    ensures
        count_true(s) == 0,
    decreases s.len(),
{
    if s.len() > 0 {
        lemma_count_true_zero(s.drop_last());
    }
}

/// A record with every cell marked counts its whole length.
pub proof fn lemma_count_true_full(s: Seq<bool>)
    requires
        forall|j: int| 0 <= j < s.len() ==> s[j],
    ensures
        count_true(s) == s.len(),
    decreases s.len(),
{
    if s.len() > 0 {
        lemma_count_true_full(s.drop_last());
    }
}

/// Marking one cell moves the count by the difference of the old and
/// new marks.
pub proof fn lemma_count_true_update(s: Seq<bool>, i: int, v: bool)
    requires
        0 <= i < s.len(),
    ensures
        count_true(s.update(i, v)) == count_true(s) - (if s[i] {
            1int
        } else {
            0int
        }) + (if v {
            1int
        } else {
            0int
        }),
    decreases s.len(),
{
    let s2 = s.update(i, v);
    if i == s.len() - 1 {
        assert(s2.drop_last() =~= s.drop_last());
    } else {
        assert(s2.drop_last() =~= s.drop_last().update(i, v));
        lemma_count_true_update(s.drop_last(), i, v);
    }
}

/// Is the cell `(r, c)` marked in a flat visited record of a grid `w`
/// cells wide?
pub open spec fn marked(vis: Seq<bool>, w: int, r: int, c: int) -> bool {
    vis[r * w + c]
}

} // verus!
