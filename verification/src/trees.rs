//! Tree generators: the deterministic test pattern, the square spiral
//! path, and the randomized Prim-style spanning tree.

use vstd::prelude::*;

use crate::colour::TestGen;
use crate::dirs::{
    dcol, drow, has, is_single, rev_bits, rotr8, subset_of, Neighbours, EAST, NORTH, SOUTH, WEST,
};
use crate::grid::{
    add_edge, bits_in_bounds, bits_total, cell_bits, cell_ok, count_true, dir_ok, edge_symmetric,
    filled, lemma_index_bound, marked, reachable, try_step,
};
use crate::Error;
use rand::prelude::SliceRandom;
use rand_xoshiro::Xoshiro128PlusPlus;

verus! {

/// The bits every cell of the test pattern holds: a vertical connection.
pub open spec fn test_cell_plain() -> u8 {
    NORTH | SOUTH
}

/// The bits cells of the test pattern's backbone row hold: vertical and
/// horizontal connections.
pub open spec fn test_cell_backbone() -> u8 {
    (NORTH | SOUTH) | (EAST | WEST)
}

/// The direction bits the test pattern gives the cell in row `r` of a
/// grid `h` rows tall: every cell connects north and south, and the
/// middle row also connects east and west.
pub open spec fn test_cell(r: int, h: int) -> u8 {
    if r == h / 2 {
        test_cell_backbone()
    } else {
        test_cell_plain()
    }
}

/// Which single directions the test pattern's two cell values hold.
proof fn lemma_test_cell_bits()
    by (bit_vector)
    ensures
        forall|d: u8|
            is_single(d) ==> (#[trigger] has(test_cell_plain(), d) <==> d == NORTH || d == SOUTH),
        forall|d: u8|
            is_single(d) ==> (#[trigger] has(test_cell_backbone(), d) <==> d == NORTH || d == SOUTH
                || d == EAST || d == WEST),
{
}

/// After boundary pruning, the test pattern is edge-symmetric: every
/// vertical connection is mirrored one row over, and the backbone's
/// horizontal connections mirror within their row.
pub proof fn lemma_test_tree_symmetric(
    g0: Seq<Neighbours>,
    g1: Seq<Neighbours>,
    w: int,
    h: int,
)
    requires
        forall|r: int, c: int|
            cell_ok(r, c, w, h) ==> #[trigger] cell_bits(g0, w, r, c) == test_cell(r, h),
        crate::grid::pruned_from(g0, g1, w, h),
    ensures
        edge_symmetric(g1, w, h),
{
    crate::dirs::lemma_single_bits();
    lemma_test_cell_bits();
    assert forall|r: int, c: int, d: u8|
        cell_ok(r, c, w, h) && is_single(d) && #[trigger] has(cell_bits(g1, w, r, c), d) && dir_ok(
            d,
            r,
            c,
            w,
            h,
        ) implies has(cell_bits(g1, w, r + drow(d), c + dcol(d)), rev_bits(d)) by {
        assert(has(cell_bits(g0, w, r, c), d));
        let r2 = r + drow(d);
        let c2 = c + dcol(d);
        let e = rev_bits(d);
        assert(has(test_cell(r, h), d));
        assert(d == NORTH || d == SOUTH || d == EAST || d == WEST);
        assert(has(test_cell(r2, h), e)) by {
            if d == NORTH || d == SOUTH {
                assert(e == SOUTH || e == NORTH);
            } else {
                assert(r == h / 2 && r2 == r);
                assert(e == WEST || e == EAST);
            }
        }
        assert(has(cell_bits(g0, w, r2, c2), e));
        assert(r2 + drow(e) == r && c2 + dcol(e) == c);
        assert(dir_ok(e, r2, c2, w, h));
    }
}

/// A flat index lies in the backbone row's stretch of the backing array
/// exactly when its cell is in the backbone row.
proof fn lemma_row_stretch(r: int, c: int, mid: int, w: int)
    by (nonlinear_arith)
    requires
        0 <= c < w,
    ensures
        (mid * w <= r * w + c < mid * w + w) <==> r == mid,
{
}

impl TestGen {
    /// Build the test pattern: every cell gets a north and south
    /// connection, and the middle row a full east-west backbone.
    ///
    /// The pattern is laid down without regard for the grid's boundary;
    /// the caller prunes it afterwards.
    pub fn tree(&mut self, width: usize, height: usize) -> (res: Result<Vec<Neighbours>, Error>)
        requires
            width >= 1,
            height >= 1,
        ensures
            res is Err <==> width * height > usize::MAX,
            res is Err ==> res == Result::<Vec<Neighbours>, Error>::Err(Error::Dimension),
            res matches Ok(g) ==> g@.len() == width * height && (forall|r: int, c: int|
                cell_ok(r, c, width as int, height as int) ==> #[trigger] cell_bits(
                    g@,
                    width as int,
                    r,
                    c,
                ) == test_cell(r, height as int)),
    {
        let num = match width.checked_mul(height) {
            Some(n) => n,
            None => {
                return Err(Error::Dimension);
            },
        };
        let mut points: Vec<Neighbours> = Vec::new();
        let mut i: usize = 0;
        while i < num
            invariant
                i == points@.len() <= num,
                forall|j: int| 0 <= j < i ==> points@[j].bits == test_cell_plain(),
            decreases num - i,
        {
            points.push(Neighbours { bits: NORTH | SOUTH });
            i = i + 1;
        }
        let row = height / 2;
        assert(row < height);
        let mut c: usize = 0;
        while c < width
            invariant
                row == height as int / 2 < height,
                1 <= width,
                c <= width,
                num == width * height <= usize::MAX,
                points@.len() == num,
                forall|j: int|
                    row * width <= j < row * width + c ==> #[trigger] points@[j].bits
                        == test_cell_backbone(),
                forall|j: int|
                    0 <= j < num && !(row * width <= j < row * width + c) ==> #[trigger] points@[j].bits
                        == test_cell_plain(),
            decreases width - c,
        {
            proof {
                lemma_index_bound(row as int, c as int, width as int, height as int);
            }
            let idx: usize = row * width + c;
            let cell = points[idx];
            points[idx] = Neighbours { bits: cell.bits | (EAST | WEST) };
            c = c + 1;
        }
        proof {
            assert forall|r: int, c2: int|
                cell_ok(r, c2, width as int, height as int) implies #[trigger] cell_bits(
                points@,
                width as int,
                r,
                c2,
            ) == test_cell(r, height as int) by {
                lemma_index_bound(r, c2, width as int, height as int);
                lemma_row_stretch(r, c2, row as int, width as int);
            }
        }
        Ok(points)
    }
}

/// The square-spiral tree generator: a single path that starts at the
/// top-left corner heading south and turns left after each leg,
/// spiralling inward.
#[derive(Clone, Copy, PartialEq, Eq, Structural, Debug)]
pub struct SpiralTree;

/// The length of the spiral's leg number `k`: legs alternate between the
/// grid's two measures and shrink by one every other turn.
pub open spec fn spiral_dist(w: int, h: int, k: int) -> int {
    if k == 0 {
        h - 1
    } else if (k - 1) % 2 == 0 {
        w - ((k - 1) / 2) - 1
    } else {
        h - ((k - 1) / 2) - 1
    }
}

/// The length of the spiral's leg number `k`, as a machine integer.
fn leg_distance(width: usize, height: usize, k: u64) -> (r: i64)
    requires
        width <= 0xFFFF_FFFF,
        height <= 0xFFFF_FFFF,
        k <= 0x10_0000_0000,
    ensures
        r == spiral_dist(width as int, height as int, k as int),
{
    if k == 0 {
        return (height as i64) - 1;
    }
    let t: u64 = k - 1;
    let half: u64 = t / 2;
    if t % 2 == 0 {
        (width as i64) - (half as i64) - 1
    } else {
        (height as i64) - (half as i64) - 1
    }
}

/// The direction of the spiral's leg number `k`: south first, then
/// turning left each leg.
spec fn spiral_dir(k: int) -> u8 {
    if k % 4 == 0 {
        SOUTH
    } else if k % 4 == 1 {
        EAST
    } else if k % 4 == 2 {
        NORTH
    } else {
        WEST
    }
}

/// The row the spiral's leg number `k` starts on, in an `n x n` grid.
spec fn spiral_leg_row(n: int, k: int) -> int {
    let q = k / 4;
    if k == 0 {
        0
    } else if k % 4 == 0 {
        q - 1
    } else if k % 4 == 1 {
        n - 1 - q
    } else if k % 4 == 2 {
        n - 1 - q
    } else {
        q
    }
}

/// The column the spiral's leg number `k` starts on, in an `n x n` grid.
spec fn spiral_leg_col(n: int, k: int) -> int {
    let q = k / 4;
    if k == 0 {
        0
    } else if k % 4 == 0 {
        q
    } else if k % 4 == 1 {
        q
    } else if k % 4 == 2 {
        n - 1 - q
    } else {
        n - 1 - q
    }
}

/// On a square grid the spiral's legs behave: their lengths never grow
/// again once spent, each leg stays inside the grid, it ends where the
/// next begins, and the turn is a left turn.
proof fn lemma_square_leg(n: int, k: int)
    requires
        n >= 1,
        k >= 0,
    ensures
        is_single(spiral_dir(k)),
        spiral_dist(n, n, k) <= 0 ==> spiral_dist(n, n, k + 1) <= 0,
        spiral_dir(k + 1) == rotr8(spiral_dir(k), 2),
        spiral_dist(n, n, k) >= 0 ==> spiral_leg_row(n, k) + spiral_dist(n, n, k) * drow(
            spiral_dir(k),
        ) == spiral_leg_row(n, k + 1) && spiral_leg_col(n, k) + spiral_dist(n, n, k) * dcol(
            spiral_dir(k),
        ) == spiral_leg_col(n, k + 1),
{
    crate::dirs::lemma_single_bits();
    assert(rotr8(SOUTH, 2) == EAST && rotr8(EAST, 2) == NORTH && rotr8(NORTH, 2) == WEST && rotr8(
        WEST,
        2,
    ) == SOUTH) by (bit_vector);
    assert(drow(SOUTH) == 1 && dcol(SOUTH) == 0 && drow(EAST) == 0 && dcol(EAST) == 1 && drow(
        NORTH,
    ) == -1 && dcol(NORTH) == 0 && drow(WEST) == 0 && dcol(WEST) == -1);
    vstd::arithmetic::div_mod::lemma_fundamental_div_mod(k, 4);
    vstd::arithmetic::div_mod::lemma_mod_bound(k, 4);
    let q = k / 4;
    let rem = k % 4;
    let m = spiral_dist(n, n, k);
    let dr = drow(spiral_dir(k));
    let dc = dcol(spiral_dir(k));
    if rem == 0 {
        if k > 0 {
            vstd::arithmetic::div_mod::lemma_fundamental_div_mod_converse(k - 1, 2, 2 * q - 1, 1);
        }
        vstd::arithmetic::div_mod::lemma_fundamental_div_mod_converse(k + 1, 4, q, 1);
        vstd::arithmetic::div_mod::lemma_fundamental_div_mod_converse(k + 1 - 1, 2, 2 * q, 0);
        assert(spiral_dir(k) == SOUTH && dr == 1 && dc == 0);
        assert(m * dr == m && m * dc == 0);
    } else if rem == 1 {
        vstd::arithmetic::div_mod::lemma_fundamental_div_mod_converse(k - 1, 2, 2 * q, 0);
        vstd::arithmetic::div_mod::lemma_fundamental_div_mod_converse(k + 1, 4, q, 2);
        vstd::arithmetic::div_mod::lemma_fundamental_div_mod_converse(k + 1 - 1, 2, 2 * q, 1);
        assert(spiral_dir(k) == EAST && dr == 0 && dc == 1);
        assert(m * dr == 0 && m * dc == m);
    } else if rem == 2 {
        vstd::arithmetic::div_mod::lemma_fundamental_div_mod_converse(k - 1, 2, 2 * q, 1);
        vstd::arithmetic::div_mod::lemma_fundamental_div_mod_converse(k + 1, 4, q, 3);
        vstd::arithmetic::div_mod::lemma_fundamental_div_mod_converse(k + 1 - 1, 2, 2 * q + 1, 0);
        assert(spiral_dir(k) == NORTH && dr == -1 && dc == 0);
        assert(m * dr == -m && m * dc == 0);
    } else {
        vstd::arithmetic::div_mod::lemma_fundamental_div_mod_converse(k - 1, 2, 2 * q + 1, 0);
        vstd::arithmetic::div_mod::lemma_fundamental_div_mod_converse(k + 1, 4, q + 1, 0);
        vstd::arithmetic::div_mod::lemma_fundamental_div_mod_converse(k + 1 - 1, 2, 2 * q + 1, 1);
        assert(spiral_dir(k) == WEST && dr == 0 && dc == -1);
        assert(m * dr == 0 && m * dc == -m);
    }
}



/// Is `(r, c)` inside the square box that the spiral's wave number `q`
/// has not yet entered?
spec fn in_box(n: int, q: int, r: int, c: int) -> bool {
    q <= r <= n - 1 - q && q <= c <= n - 1 - q
}

/// The cells the square spiral has walked when its leg number `k` has
/// taken `s` steps: everything outside the current wave's box, the
/// wave's finished legs, and the first `s` cells of the running leg.
#[verifier::opaque]
spec fn spiral_seen(n: int, k: int, s: int, r: int, c: int) -> bool {
    let q = k / 4;
    let rem = k % 4;
    let lr = spiral_leg_row(n, k);
    let lc = spiral_leg_col(n, k);
    ||| (!in_box(n, q, r, c) && cell_ok(r, c, n, n))
    ||| (r == 0 && c == 0)
    ||| (rem >= 1 && c == q && q <= r <= n - 1 - q)
    ||| (rem >= 2 && r == n - 1 - q && q + 1 <= c <= n - 1 - q)
    ||| (rem >= 3 && c == n - 1 - q && q <= r <= n - 2 - q)
    ||| (rem == 0 && c == lc && lr + 1 <= r <= lr + s)
    ||| (rem == 1 && r == lr && lc + 1 <= c <= lc + s)
    ||| (rem == 2 && c == lc && lr - s <= r <= lr - 1)
    ||| (rem == 3 && r == lr && lc - s <= c <= lc - 1)
}

/// The number of tree connections a walked spiral cell holds: two, less
/// one each for the starting corner and the walk's current head.
spec fn spiral_deg(origin: bool, head: bool) -> int {
    2 - (if origin {
        1int
    } else {
        0int
    }) - (if head {
        1int
    } else {
        0int
    })
}

/// The square spiral's books at leg `k`, step `s`, with the walk's head
/// at `(hr, hc)`: the marked cells are the walked ones, unwalked cells
/// hold no connection, no cell holds more than two connections and the
/// head at most one, the connection total counts two per walked cell
/// beyond the first, and every walked cell reaches the corner.
spec fn spiral_books(
    n: int,
    k: int,
    s: int,
    g: Seq<Neighbours>,
    vis: Seq<bool>,
    hr: int,
    hc: int,
) -> bool {
    &&& vis.len() == n * n
    &&& (forall|r: int, c: int|
        cell_ok(r, c, n, n) ==> (#[trigger] marked(vis, n, r, c) <==> spiral_seen(n, k, s, r, c)))
    &&& (forall|r: int, c: int|
        cell_ok(r, c, n, n) && (marked(vis, n, r, c) == false) ==> #[trigger] cell_bits(g, n, r, c)
            == 0)
    &&& (forall|r: int, c: int|
        cell_ok(r, c, n, n) ==> crate::dirs::count_bits(#[trigger] cell_bits(g, n, r, c)) <= 2)
    &&& crate::dirs::count_bits(cell_bits(g, n, hr, hc)) <= 1
    &&& (forall|r: int, c: int|
        cell_ok(r, c, n, n) && #[trigger] marked(vis, n, r, c) ==> crate::dirs::count_bits(
            cell_bits(g, n, r, c),
        ) == spiral_deg(r == 0 && c == 0, r == hr && c == hc))
    &&& bits_total(g) == 2 * (count_true(vis) - 1)
    &&& (forall|c: (int, int)|
        cell_ok(c.0, c.1, n, n) && marked(vis, n, c.0, c.1) ==> #[trigger] reachable(
            g,
            n,
            n,
            (0, 0),
            c,
        ))
    &&& marked(vis, n, hr, hc)
    &&& marked(vis, n, 0, 0)
}

/// One step of a leg walks one fresh cell, off the starting corner: the
/// cell at offset `s + 1` was not seen before, and taking it adds
/// exactly that cell.
proof fn lemma_spiral_seen_step(n: int, k: int, s: int)
    requires
        n >= 1,
        k >= 0,
        0 <= s < spiral_dist(n, n, k),
    ensures
        !spiral_seen(
            n,
            k,
            s,
            spiral_leg_row(n, k) + (s + 1) * drow(spiral_dir(k)),
            spiral_leg_col(n, k) + (s + 1) * dcol(spiral_dir(k)),
        ),
        !(spiral_leg_row(n, k) + (s + 1) * drow(spiral_dir(k)) == 0 && spiral_leg_col(n, k) + (s
            + 1) * dcol(spiral_dir(k)) == 0),
        forall|r: int, c: int|
            #[trigger] spiral_seen(n, k, s + 1, r, c) <==> spiral_seen(n, k, s, r, c) || (r
                == spiral_leg_row(n, k) + (s + 1) * drow(spiral_dir(k)) && c == spiral_leg_col(
                n,
                k,
            ) + (s + 1) * dcol(spiral_dir(k))),
{
    reveal(spiral_seen);
    crate::dirs::lemma_single_bits();
    assert(drow(SOUTH) == 1 && dcol(SOUTH) == 0 && drow(EAST) == 0 && dcol(EAST) == 1 && drow(
        NORTH,
    ) == -1 && dcol(NORTH) == 0 && drow(WEST) == 0 && dcol(WEST) == -1);
    vstd::arithmetic::div_mod::lemma_fundamental_div_mod(k, 4);
    vstd::arithmetic::div_mod::lemma_mod_bound(k, 4);
    let q = k / 4;
    let rem = k % 4;
    if rem == 0 {
        if k > 0 {
            vstd::arithmetic::div_mod::lemma_fundamental_div_mod_converse(k - 1, 2, 2 * q - 1, 1);
        }
        assert((s + 1) * drow(spiral_dir(k)) == s + 1 && (s + 1) * dcol(spiral_dir(k)) == 0);
    } else if rem == 1 {
        vstd::arithmetic::div_mod::lemma_fundamental_div_mod_converse(k - 1, 2, 2 * q, 0);
        assert((s + 1) * drow(spiral_dir(k)) == 0 && (s + 1) * dcol(spiral_dir(k)) == s + 1);
    } else if rem == 2 {
        vstd::arithmetic::div_mod::lemma_fundamental_div_mod_converse(k - 1, 2, 2 * q, 1);
        assert((s + 1) * drow(spiral_dir(k)) == -(s + 1) && (s + 1) * dcol(spiral_dir(k)) == 0);
    } else {
        vstd::arithmetic::div_mod::lemma_fundamental_div_mod_converse(k - 1, 2, 2 * q + 1, 0);
        assert((s + 1) * drow(spiral_dir(k)) == 0 && (s + 1) * dcol(spiral_dir(k)) == -(s + 1));
    }
}

/// When a leg completes, the cells it walked are exactly the next leg's
/// record of a finished leg.
proof fn lemma_spiral_seen_close(n: int, k: int)
    requires
        n >= 1,
        k >= 0,
        spiral_dist(n, n, k) > 0,
    ensures
        forall|r: int, c: int|
            #[trigger] spiral_seen(n, k + 1, 0, r, c) <==> spiral_seen(
                n,
                k,
                spiral_dist(n, n, k),
                r,
                c,
            ),
{
    reveal(spiral_seen);
    vstd::arithmetic::div_mod::lemma_fundamental_div_mod(k, 4);
    vstd::arithmetic::div_mod::lemma_mod_bound(k, 4);
    let q = k / 4;
    let rem = k % 4;
    if rem == 0 {
        if k > 0 {
            vstd::arithmetic::div_mod::lemma_fundamental_div_mod_converse(k - 1, 2, 2 * q - 1, 1);
        }
        vstd::arithmetic::div_mod::lemma_fundamental_div_mod_converse(k + 1, 4, q, 1);
    } else if rem == 1 {
        vstd::arithmetic::div_mod::lemma_fundamental_div_mod_converse(k - 1, 2, 2 * q, 0);
        vstd::arithmetic::div_mod::lemma_fundamental_div_mod_converse(k + 1, 4, q, 2);
    } else if rem == 2 {
        vstd::arithmetic::div_mod::lemma_fundamental_div_mod_converse(k - 1, 2, 2 * q, 1);
        vstd::arithmetic::div_mod::lemma_fundamental_div_mod_converse(k + 1, 4, q, 3);
    } else {
        vstd::arithmetic::div_mod::lemma_fundamental_div_mod_converse(k - 1, 2, 2 * q + 1, 0);
        vstd::arithmetic::div_mod::lemma_fundamental_div_mod_converse(k + 1, 4, q + 1, 0);
    }
}

/// When two legs in a row have no length left, the spiral has walked
/// the whole grid.
proof fn lemma_spiral_exit(n: int, k: int)
    requires
        n >= 1,
        k >= 0,
        spiral_dist(n, n, k) <= 0,
        spiral_dist(n, n, k + 1) <= 0,
    ensures
        forall|r: int, c: int| cell_ok(r, c, n, n) ==> #[trigger] spiral_seen(n, k, 0, r, c),
{
    reveal(spiral_seen);
    vstd::arithmetic::div_mod::lemma_fundamental_div_mod(k, 4);
    vstd::arithmetic::div_mod::lemma_mod_bound(k, 4);
    let q = k / 4;
    let rem = k % 4;
    if rem == 0 {
        if k > 0 {
            vstd::arithmetic::div_mod::lemma_fundamental_div_mod_converse(k - 1, 2, 2 * q - 1, 1);
        }
        vstd::arithmetic::div_mod::lemma_fundamental_div_mod_converse(k + 1 - 1, 2, 2 * q, 0);
    } else if rem == 1 {
        vstd::arithmetic::div_mod::lemma_fundamental_div_mod_converse(k - 1, 2, 2 * q, 0);
    } else if rem == 2 {
        vstd::arithmetic::div_mod::lemma_fundamental_div_mod_converse(k - 1, 2, 2 * q, 1);
    } else {
        vstd::arithmetic::div_mod::lemma_fundamental_div_mod_converse(k - 1, 2, 2 * q + 1, 0);
    }
}

/// Recording one fresh edge raises the connection total by exactly two.
#[verifier::rlimit(100)]
proof fn lemma_spiral_bits_delta(
    n: int,
    g0: Seq<Neighbours>,
    g1: Seq<Neighbours>,
    ri: int,
    ci: int,
    nr: int,
    nc: int,
    d: u8,
)
    requires
        n >= 1,
        is_single(d),
        cell_ok(ri, ci, n, n),
        cell_ok(nr, nc, n, n),
        !(nr == ri && nc == ci),
        g0.len() == n * n,
        g1.len() == n * n,
        cell_bits(g1, n, ri, ci) == cell_bits(g0, n, ri, ci) | d,
        cell_bits(g1, n, nr, nc) == cell_bits(g0, n, nr, nc) | rev_bits(d),
        has(cell_bits(g0, n, ri, ci), d) == false,
        has(cell_bits(g0, n, nr, nc), rev_bits(d)) == false,
        forall|r2: int, c2: int|
            cell_ok(r2, c2, n, n) && !(r2 == ri && c2 == ci) && !(r2 == nr && c2 == nc)
                ==> #[trigger] cell_bits(g1, n, r2, c2) == cell_bits(g0, n, r2, c2),
    ensures
        bits_total(g1) == bits_total(g0) + 2,
{
    crate::dirs::lemma_single_bits();
    crate::dirs::lemma_count_bits();
    let pi = ri * n + ci;
    let ei = nr * n + nc;
    lemma_index_bound(ri, ci, n, n);
    lemma_index_bound(nr, nc, n, n);
    if pi == ei {
        crate::grid::lemma_index_injective(ri, ci, nr, nc, n, n);
    }
    let expected = g0.update(pi, Neighbours { bits: cell_bits(g0, n, ri, ci) | d }).update(
        ei,
        Neighbours { bits: cell_bits(g0, n, nr, nc) | rev_bits(d) },
    );
    assert(g1 =~= expected) by {
        assert forall|j: int| 0 <= j < n * n implies g1[j] == expected[j] by {
            crate::grid::lemma_flat_to_cell(j, n, n);
            let r = j / n;
            let c = j % n;
            if j != pi && j != ei {
                if r == ri && c == ci {
                    assert(j == pi);
                }
                if r == nr && c == nc {
                    assert(j == ei);
                }
                assert(cell_bits(g1, n, r, c) == cell_bits(g0, n, r, c));
            }
        }
    }
    crate::grid::lemma_bits_total_update(
        g0,
        pi,
        Neighbours { bits: cell_bits(g0, n, ri, ci) | d },
    );
    crate::grid::lemma_bits_total_update(
        g0.update(pi, Neighbours { bits: cell_bits(g0, n, ri, ci) | d }),
        ei,
        Neighbours { bits: cell_bits(g0, n, nr, nc) | rev_bits(d) },
    );
}

/// After one step's records are added, every previously reachable cell
/// stays reachable and the stepped-to cell becomes reachable.
#[verifier::rlimit(100)]
proof fn lemma_spiral_step_reach(
    n: int,
    g0: Seq<Neighbours>,
    g1: Seq<Neighbours>,
    ri: int,
    ci: int,
    nr: int,
    nc: int,
    d: u8,
)
    requires
        n >= 1,
        is_single(d),
        cell_ok(ri, ci, n, n),
        cell_ok(nr, nc, n, n),
        g0.len() == n * n,
        g1.len() == n * n,
        nr == ri + drow(d),
        nc == ci + dcol(d),
        forall|r: int, c: int, d2: u8|
            cell_ok(r, c, n, n) && is_single(d2) && #[trigger] has(cell_bits(g0, n, r, c), d2)
                ==> has(cell_bits(g1, n, r, c), d2),
        has(cell_bits(g1, n, ri, ci), d),
        reachable(g0, n, n, (0, 0), (ri, ci)),
    ensures
        forall|c: (int, int)|
            #[trigger] reachable(g0, n, n, (0, 0), c) ==> reachable(g1, n, n, (0, 0), c),
        reachable(g1, n, n, (0, 0), (nr, nc)),
{
    crate::grid::lemma_reachable_grow_all(g0, g1, n, n, (0, 0));
    crate::grid::lemma_reachable_grow(g0, g1, n, n, (0, 0), (ri, ci));
    assert(reachable(g1, n, n, (0, 0), (ri, ci)));
    assert(dir_ok(d, ri, ci, n, n));
    assert(crate::grid::step_cell((ri, ci), d) == (nr, nc));
    assert(crate::grid::edge_between(g1, n, n, (ri, ci), (nr, nc)));
    crate::grid::lemma_reachable_step(g1, n, n, (0, 0), (ri, ci), (nr, nc));
}

/// One walked step of the square spiral keeps the walk's books: the
/// stepped-to cell was fresh and is now marked, the two new edge
/// records are the only change to the grid, and every marked cell
/// still reaches the corner.
#[verifier::rlimit(100)]
proof fn lemma_spiral_step_update(
    n: int,
    k: int,
    s: int,
    g0: Seq<Neighbours>,
    g1: Seq<Neighbours>,
    vis0: Seq<bool>,
    ri: int,
    ci: int,
    nr: int,
    nc: int,
    d: u8,
)
    requires
        n >= 1,
        k >= 0,
        0 <= s < spiral_dist(n, n, k),
        d == spiral_dir(k),
        is_single(d),
        ri == spiral_leg_row(n, k) + s * drow(d),
        ci == spiral_leg_col(n, k) + s * dcol(d),
        nr == ri + drow(d),
        nc == ci + dcol(d),
        cell_ok(ri, ci, n, n),
        cell_ok(nr, nc, n, n),
        g0.len() == n * n,
        g1.len() == n * n,
        edge_symmetric(g0, n, n),
        cell_bits(g1, n, ri, ci) == cell_bits(g0, n, ri, ci) | d,
        cell_bits(g1, n, nr, nc) == cell_bits(g0, n, nr, nc) | rev_bits(d),
        forall|r2: int, c2: int|
            cell_ok(r2, c2, n, n) && !(r2 == ri && c2 == ci) && !(r2 == nr && c2 == nc)
                ==> #[trigger] cell_bits(g1, n, r2, c2) == cell_bits(g0, n, r2, c2),
        spiral_books(n, k, s, g0, vis0, ri, ci),
    ensures
        spiral_books(n, k, s + 1, g1, vis0.update(nr * n + nc, true), nr, nc),
{
    crate::dirs::lemma_single_bits();
    crate::dirs::lemma_count_bits();
    crate::grid::lemma_mask_bits();
    let pi = ri * n + ci;
    let ei = nr * n + nc;
    let vis1 = vis0.update(ei, true);
    lemma_index_bound(ri, ci, n, n);
    lemma_index_bound(nr, nc, n, n);
    assert((s + 1) * drow(d) == s * drow(d) + drow(d)) by (nonlinear_arith);
    assert((s + 1) * dcol(d) == s * dcol(d) + dcol(d)) by (nonlinear_arith);
    lemma_spiral_seen_step(n, k, s);
    // the stepped-to cell is fresh
    assert(nr == spiral_leg_row(n, k) + (s + 1) * drow(d) && nc == spiral_leg_col(n, k) + (s + 1)
        * dcol(d));
    assert(!spiral_seen(n, k, s, nr, nc));
    assert(marked(vis0, n, nr, nc) == false);
    assert(!(nr == ri && nc == ci));
    if pi == ei {
        crate::grid::lemma_index_injective(ri, ci, nr, nc, n, n);
    }
    // neither record of the stepped edge was present before
    assert(cell_bits(g0, n, nr, nc) == 0);
    assert(has(cell_bits(g0, n, nr, nc), rev_bits(d)) == false);
    if has(cell_bits(g0, n, ri, ci), d) {
        assert(has(cell_bits(g0, n, nr, nc), rev_bits(d)));
        assert(false);
    }
    crate::grid::lemma_count_true_update(vis0, ei, true);
    assert forall|r: int, c: int|
        cell_ok(r, c, n, n) && !(r == nr && c == nc) implies #[trigger] marked(vis1, n, r, c)
        == marked(vis0, n, r, c) by {
        lemma_index_bound(r, c, n, n);
        if r * n + c == ei {
            crate::grid::lemma_index_injective(r, c, nr, nc, n, n);
        }
    }
    assert(marked(vis1, n, nr, nc));
    lemma_spiral_bits_delta(n, g0, g1, ri, ci, nr, nc, d);
    // the walked-from cell gains one connection, the new head holds one
    assert(crate::dirs::count_bits(cell_bits(g1, n, ri, ci)) == crate::dirs::count_bits(
        cell_bits(g0, n, ri, ci),
    ) + 1);
    assert(cell_bits(g1, n, nr, nc) == 0u8 | rev_bits(d));
    assert(crate::dirs::count_bits(cell_bits(g1, n, nr, nc)) == 1);
    assert forall|r: int, c: int| cell_ok(r, c, n, n) implies crate::dirs::count_bits(
        #[trigger] cell_bits(g1, n, r, c),
    ) <= 2 by {
        if r == nr && c == nc {
        } else if r == ri && c == ci {
        } else {
            assert(cell_bits(g1, n, r, c) == cell_bits(g0, n, r, c));
        }
    }
    assert forall|r: int, c: int|
        cell_ok(r, c, n, n) && #[trigger] marked(vis1, n, r, c) implies crate::dirs::count_bits(
        cell_bits(g1, n, r, c),
    ) == spiral_deg(r == 0 && c == 0, r == nr && c == nc) by {
        if r == nr && c == nc {
            assert(crate::dirs::count_bits(cell_bits(g1, n, r, c)) == 1);
        } else if r == ri && c == ci {
            assert(crate::dirs::count_bits(cell_bits(g0, n, r, c)) == spiral_deg(
                r == 0 && c == 0,
                true,
            ));
        } else {
            assert(cell_bits(g1, n, r, c) == cell_bits(g0, n, r, c));
            assert(marked(vis0, n, r, c));
            assert(crate::dirs::count_bits(cell_bits(g0, n, r, c)) == spiral_deg(
                r == 0 && c == 0,
                false,
            ));
        }
    }
    // edges persist, so reachability persists and extends to the new head
    assert forall|r: int, c: int, d2: u8|
        cell_ok(r, c, n, n) && is_single(d2) && #[trigger] has(cell_bits(g0, n, r, c), d2) implies has(
        cell_bits(g1, n, r, c),
        d2,
    ) by {
        lemma_index_bound(r, c, n, n);
    }
    assert(has(cell_bits(g1, n, ri, ci), d));
    assert(reachable(g0, n, n, (0, 0), (ri, ci)));
    lemma_spiral_step_reach(n, g0, g1, ri, ci, nr, nc, d);
    assert forall|c: (int, int)|
        cell_ok(c.0, c.1, n, n) && marked(vis1, n, c.0, c.1) implies #[trigger] reachable(
        g1,
        n,
        n,
        (0, 0),
        c,
    ) by {
        if !(c.0 == nr && c.1 == nc) {
            lemma_index_bound(c.0, c.1, n, n);
            if c.0 * n + c.1 == nr * n + nc {
                crate::grid::lemma_index_injective(c.0, c.1, nr, nc, n, n);
            }
            assert(marked(vis0, n, c.0, c.1));
            assert(reachable(g0, n, n, (0, 0), c));
        }
    }
}

/// When the walk stops with two spent legs in a row, its books say the
/// grid holds one connection total short of two per cell, no cell with
/// more than two, and every cell reachable from the corner.
#[verifier::rlimit(100)]
proof fn lemma_spiral_final(n: int, k: int, g: Seq<Neighbours>, vis: Seq<bool>, hr: int, hc: int)
    requires
        n >= 1,
        k >= 0,
        spiral_dist(n, n, k) <= 0,
        spiral_dist(n, n, k + 1) <= 0,
        g.len() == n * n,
        cell_ok(hr, hc, n, n),
        spiral_books(n, k, 0, g, vis, hr, hc),
    ensures
        bits_total(g) == 2 * (n * n - 1),
        forall|r: int, c: int| cell_ok(r, c, n, n) ==> reachable(g, n, n, (0, 0), (r, c)),
        forall|r: int, c: int|
            cell_ok(r, c, n, n) ==> crate::dirs::count_bits(#[trigger] cell_bits(g, n, r, c)) <= 2,
        n > 1 ==> !(hr == 0 && hc == 0) && crate::dirs::count_bits(cell_bits(g, n, 0, 0)) == 1
            && crate::dirs::count_bits(cell_bits(g, n, hr, hc)) == 1 && (forall|r: int, c: int|
            cell_ok(r, c, n, n) && !(r == 0 && c == 0) && !(r == hr && c == hc)
                ==> crate::dirs::count_bits(#[trigger] cell_bits(g, n, r, c)) == 2),
{
    lemma_spiral_exit(n, k);
    assert forall|r: int, c: int| cell_ok(r, c, n, n) implies #[trigger] marked(vis, n, r, c) by {
        assert(spiral_seen(n, k, 0, r, c));
    }
    assert forall|j: int| 0 <= j < n * n implies vis[j] by {
        crate::grid::lemma_flat_to_cell(j, n, n);
        assert(marked(vis, n, j / n, j % n));
    }
    crate::grid::lemma_count_true_full(vis);
    assert(count_true(vis) == n * n);
    assert(bits_total(g) == 2 * (n * n - 1));
    assert forall|r: int, c: int| cell_ok(r, c, n, n) implies reachable(g, n, n, (0, 0), (r, c)) by {
        assert(marked(vis, n, r, c));
    }
    if n > 1 {
        // the walk's head cannot still be the corner: some other cell is
        // reachable, so the corner holds an edge, but a corner that were
        // also the head would hold none
        crate::dirs::lemma_count_bits();
        if hr == 0 && hc == 0 {
            assert(crate::dirs::count_bits(cell_bits(g, n, 0, 0)) == 0);
            assert(cell_ok(0, 1, n, n));
            assert(reachable(g, n, n, (0, 0), (0int, 1int)));
            let p = choose|p: Seq<(int, int)>|
                #[trigger] crate::grid::is_path(g, n, n, p) && p.first() == (0int, 0int)
                    && p.last() == (0int, 1int);
            assert(p.len() >= 2) by {
                if p.len() == 1 {
                    assert(p.first() == p.last());
                }
            }
            assert(crate::grid::edge_between(g, n, n, p[0], p[1]));
            let d = choose|d: u8|
                is_single(d) && #[trigger] has(cell_bits(g, n, p[0].0, p[0].1), d) && dir_ok(
                    d,
                    p[0].0,
                    p[0].1,
                    n,
                    n,
                ) && p[1] == crate::grid::step_cell(p[0], d);
            assert(has(cell_bits(g, n, 0, 0), d));
            assert(false);
        }
        assert(marked(vis, n, 0, 0) && marked(vis, n, hr, hc));
        assert(crate::dirs::count_bits(cell_bits(g, n, 0, 0)) == spiral_deg(true, false));
        assert(crate::dirs::count_bits(cell_bits(g, n, hr, hc)) == spiral_deg(false, true));
        assert forall|r: int, c: int|
            cell_ok(r, c, n, n) && !(r == 0 && c == 0) && !(r == hr && c == hc)
                implies crate::dirs::count_bits(#[trigger] cell_bits(g, n, r, c)) == 2 by {
            assert(marked(vis, n, r, c));
        }
    }
}


/// The walk's position obligations at the start of leg `k`, for any
/// grid: whenever the coming leg of a wave has positive length, the
/// position leaves it room, because the previous leg of the wave ran.
spec fn spiral_safe(w: int, h: int, k: int, row: int, col: int) -> bool {
    let q = k / 4;
    let rem = k % 4;
    &&& (k == 0 ==> row == 0 && col == 0)
    &&& (rem == 0 && k > 0 ==> (h - 2 * q >= 1 ==> row <= 2 * q - 1) && (w - 2 * q - 1 >= 1
        ==> col <= 2 * q))
    &&& (rem == 1 ==> (w - 2 * q - 1 >= 1 ==> col <= 2 * q) && (h - 2 * q - 1 >= 1 ==> row >= h - 2
        * q - 1))
    &&& (rem == 2 ==> (h - 2 * q - 1 >= 1 ==> row >= h - 2 * q - 1) && (w - 2 * q - 2 >= 1
        ==> col >= w - 2 * q - 1))
    &&& (rem == 3 ==> (w - 2 * q - 2 >= 1 ==> col >= w - 2 * q - 1) && (h - 2 * (q + 1) >= 1
        ==> row <= 2 * q + 1))
}

/// A leg that leaves room never steps outside the grid: each cell of the
/// leg, and the one after it, lies inside.
proof fn lemma_spiral_safe_pos(w: int, h: int, k: int, r0: int, c0: int, s: int)
    requires
        w >= 1,
        h >= 1,
        k >= 0,
        cell_ok(r0, c0, w, h),
        spiral_safe(w, h, k, r0, c0),
        0 <= s < spiral_dist(w, h, k),
    ensures
        cell_ok(r0 + s * drow(spiral_dir(k)), c0 + s * dcol(spiral_dir(k)), w, h),
        cell_ok(r0 + (s + 1) * drow(spiral_dir(k)), c0 + (s + 1) * dcol(spiral_dir(k)), w, h),
{
    crate::dirs::lemma_single_bits();
    assert(drow(SOUTH) == 1 && dcol(SOUTH) == 0 && drow(EAST) == 0 && dcol(EAST) == 1 && drow(
        NORTH,
    ) == -1 && dcol(NORTH) == 0 && drow(WEST) == 0 && dcol(WEST) == -1);
    vstd::arithmetic::div_mod::lemma_fundamental_div_mod(k, 4);
    vstd::arithmetic::div_mod::lemma_mod_bound(k, 4);
    let q = k / 4;
    let rem = k % 4;
    if rem == 0 {
        if k > 0 {
            vstd::arithmetic::div_mod::lemma_fundamental_div_mod_converse(k - 1, 2, 2 * q - 1, 1);
        }
        assert(s * drow(spiral_dir(k)) == s && s * dcol(spiral_dir(k)) == 0);
        assert((s + 1) * drow(spiral_dir(k)) == s + 1 && (s + 1) * dcol(spiral_dir(k)) == 0);
    } else if rem == 1 {
        vstd::arithmetic::div_mod::lemma_fundamental_div_mod_converse(k - 1, 2, 2 * q, 0);
        assert(s * drow(spiral_dir(k)) == 0 && s * dcol(spiral_dir(k)) == s);
        assert((s + 1) * drow(spiral_dir(k)) == 0 && (s + 1) * dcol(spiral_dir(k)) == s + 1);
    } else if rem == 2 {
        vstd::arithmetic::div_mod::lemma_fundamental_div_mod_converse(k - 1, 2, 2 * q, 1);
        assert(s * drow(spiral_dir(k)) == -s && s * dcol(spiral_dir(k)) == 0);
        assert((s + 1) * drow(spiral_dir(k)) == -(s + 1) && (s + 1) * dcol(spiral_dir(k)) == 0);
    } else {
        vstd::arithmetic::div_mod::lemma_fundamental_div_mod_converse(k - 1, 2, 2 * q + 1, 0);
        assert(s * drow(spiral_dir(k)) == 0 && s * dcol(spiral_dir(k)) == -s);
        assert((s + 1) * drow(spiral_dir(k)) == 0 && (s + 1) * dcol(spiral_dir(k)) == -(s + 1));
    }
}

/// A finished leg leaves the walk's obligations holding for the next
/// leg, wherever the leg stopped.
proof fn lemma_spiral_safe_close(w: int, h: int, k: int, r0: int, c0: int)
    requires
        w >= 1,
        h >= 1,
        k >= 0,
        cell_ok(r0, c0, w, h),
        spiral_safe(w, h, k, r0, c0),
    ensures
        ({
            let m = if spiral_dist(w, h, k) > 0 {
                spiral_dist(w, h, k)
            } else {
                0
            };
            let r1 = r0 + m * drow(spiral_dir(k));
            let c1 = c0 + m * dcol(spiral_dir(k));
            cell_ok(r1, c1, w, h) && spiral_safe(w, h, k + 1, r1, c1)
        }),
{
    crate::dirs::lemma_single_bits();
    assert(drow(SOUTH) == 1 && dcol(SOUTH) == 0 && drow(EAST) == 0 && dcol(EAST) == 1 && drow(
        NORTH,
    ) == -1 && dcol(NORTH) == 0 && drow(WEST) == 0 && dcol(WEST) == -1);
    vstd::arithmetic::div_mod::lemma_fundamental_div_mod(k, 4);
    vstd::arithmetic::div_mod::lemma_mod_bound(k, 4);
    let q = k / 4;
    let rem = k % 4;
    let m = if spiral_dist(w, h, k) > 0 {
        spiral_dist(w, h, k)
    } else {
        0
    };
    if rem == 0 {
        if k > 0 {
            vstd::arithmetic::div_mod::lemma_fundamental_div_mod_converse(k - 1, 2, 2 * q - 1, 1);
        }
        vstd::arithmetic::div_mod::lemma_fundamental_div_mod_converse(k + 1, 4, q, 1);
        assert(m * drow(spiral_dir(k)) == m && m * dcol(spiral_dir(k)) == 0);
    } else if rem == 1 {
        vstd::arithmetic::div_mod::lemma_fundamental_div_mod_converse(k - 1, 2, 2 * q, 0);
        vstd::arithmetic::div_mod::lemma_fundamental_div_mod_converse(k + 1, 4, q, 2);
        assert(m * drow(spiral_dir(k)) == 0 && m * dcol(spiral_dir(k)) == m);
    } else if rem == 2 {
        vstd::arithmetic::div_mod::lemma_fundamental_div_mod_converse(k - 1, 2, 2 * q, 1);
        vstd::arithmetic::div_mod::lemma_fundamental_div_mod_converse(k + 1, 4, q, 3);
        assert(m * drow(spiral_dir(k)) == -m && m * dcol(spiral_dir(k)) == 0);
    } else {
        vstd::arithmetic::div_mod::lemma_fundamental_div_mod_converse(k - 1, 2, 2 * q + 1, 0);
        vstd::arithmetic::div_mod::lemma_fundamental_div_mod_converse(k + 1, 4, q + 1, 0);
        assert(m * drow(spiral_dir(k)) == 0 && m * dcol(spiral_dir(k)) == -m);
    }
}


impl SpiralTree {
    /// Walk the square spiral, recording each step as a bidirectional
    /// edge between the previous and the new cell.
    ///
    /// Each leg leaves the next one room, so the walk never steps
    /// outside the grid and completes on every grid.  On a square grid
    /// the legs nest exactly and the record is a single simple path over
    /// all the cells; off square, the trailing legs retrace cells whose
    /// edges are already recorded, which changes nothing.
    pub fn tree(&mut self, width: usize, height: usize) -> (res: Result<Vec<Neighbours>, Error>)
        requires
            width >= 1,
            height >= 1,
            width <= 0xFFFF_FFFF,
            height <= 0xFFFF_FFFF,
        ensures
            width * height > usize::MAX ==> res == Result::<Vec<Neighbours>, Error>::Err(
                Error::Dimension,
            ),
            width * height <= usize::MAX ==> res is Ok,
            res matches Ok(g) ==> g@.len() == width * height && bits_in_bounds(
                g@,
                width as int,
                height as int,
            ) && edge_symmetric(g@, width as int, height as int),
            res matches Ok(g) ==> (width == height && width > 1 ==> has(
                cell_bits(g@, width as int, 0, 0),
                SOUTH,
            ) && has(cell_bits(g@, width as int, 1, 0), NORTH)),
            res matches Ok(g) ==> (width == height ==> bits_total(g@) == 2 * (width as int
                * width as int - 1) && (forall|r: int, c: int|
                cell_ok(r, c, width as int, width as int) ==> reachable(
                    g@,
                    width as int,
                    width as int,
                    (0, 0),
                    (r, c),
                )) && (forall|r: int, c: int|
                cell_ok(r, c, width as int, width as int) ==> crate::dirs::count_bits(
                    #[trigger] cell_bits(g@, width as int, r, c),
                ) <= 2)),
            res matches Ok(g) ==> (width == height && width > 1 ==> (exists|
                a: (int, int),
                b: (int, int),
            |
                #![trigger cell_bits(g@, width as int, a.0, a.1), cell_bits(g@, width as int, b.0, b.1)]
                !(a.0 == b.0 && a.1 == b.1) && cell_ok(a.0, a.1, width as int, width as int)
                    && cell_ok(b.0, b.1, width as int, width as int) && crate::dirs::count_bits(
                    cell_bits(g@, width as int, a.0, a.1),
                ) == 1 && crate::dirs::count_bits(cell_bits(g@, width as int, b.0, b.1)) == 1 && (
                forall|r: int, c: int|
                    cell_ok(r, c, width as int, width as int) && !(r == a.0 && c == a.1) && !(r
                        == b.0 && c == b.1) ==> crate::dirs::count_bits(
                        #[trigger] cell_bits(g@, width as int, r, c),
                    ) == 2))),
    {
        proof {
            crate::dirs::lemma_single_bits();
        }
        let num = match width.checked_mul(height) {
            Some(n) => n,
            None => {
                return Err(Error::Dimension);
            },
        };
        let mut points: Vec<Neighbours> = Vec::new();
        let mut i: usize = 0;
        while i < num
            invariant
                i == points@.len() <= num,
                forall|j: int| 0 <= j < i ==> points@[j].bits == 0,
            decreases num - i,
        {
            points.push(Neighbours { bits: 0 });
            i = i + 1;
        }
        proof {
            assert forall|r: int, c: int, d: u8|
                cell_ok(r, c, width as int, height as int) && is_single(d) && #[trigger] has(
                    cell_bits(points@, width as int, r, c),
                    d,
                ) implies false by {
                lemma_index_bound(r, c, width as int, height as int);
                crate::grid::lemma_mask_bits();
            }
        }
        let mut row: usize = 0;
        let mut col: usize = 0;
        let mut direction = Neighbours { bits: SOUTH };
        let mut k: u64 = 0;
        let ghost sq = width == height;
        let ghost n = width as int;
        let ghost blank: Seq<bool> = Seq::new(num as nat, |j: int| false);
        let ghost mut vis: Seq<bool> = blank.update(0, true);
        proof {
            assert(num >= 1) by (nonlinear_arith)
                requires
                    width >= 1,
                    height >= 1,
                    num == width * height,
            ;
            if sq {
                // the books open with the corner walked and nothing laid
                reveal(spiral_seen);
                crate::dirs::lemma_count_bits();
                lemma_index_bound(0, 0, n, n);
                crate::grid::lemma_count_true_zero(blank);
                crate::grid::lemma_count_true_update(blank, 0, true);
                crate::grid::lemma_bits_total_zero(points@);
                assert(count_true(vis) == 1);
                assert forall|r: int, c: int| cell_ok(r, c, n, n) implies #[trigger] cell_bits(
                    points@,
                    n,
                    r,
                    c,
                ) == 0 by {
                    lemma_index_bound(r, c, n, n);
                }
                assert forall|r: int, c: int| cell_ok(r, c, n, n) implies (#[trigger] marked(
                    vis,
                    n,
                    r,
                    c,
                ) <==> spiral_seen(n, 0, 0, r, c)) by {
                    lemma_index_bound(r, c, n, n);
                    if r * n + c == 0 {
                        crate::grid::lemma_index_injective(r, c, 0, 0, n, n);
                    }
                }
                assert forall|c: (int, int)|
                    cell_ok(c.0, c.1, n, n) && marked(vis, n, c.0, c.1) implies #[trigger] reachable(
                    points@,
                    n,
                    n,
                    (0, 0),
                    c,
                ) by {
                    lemma_index_bound(c.0, c.1, n, n);
                    if c.0 * n + c.1 == 0 {
                        crate::grid::lemma_index_injective(c.0, c.1, 0, 0, n, n);
                    }
                    crate::grid::lemma_reachable_refl(points@, n, n, (0, 0));
                    assert(c == (0int, 0int));
                }
                assert(spiral_books(n, 0, 0, points@, vis, 0, 0));
            }
        }
        while leg_distance(width, height, k) > 0 || leg_distance(width, height, k + 1) > 0
            invariant
                1 <= width <= 0xFFFF_FFFF,
                1 <= height <= 0xFFFF_FFFF,
                num == width * height <= usize::MAX,
                points@.len() == num,
                row < height,
                col < width,
                is_single(direction.bits),
                k <= 2 * (width + height) + 4,
                bits_in_bounds(points@, width as int, height as int),
                edge_symmetric(points@, width as int, height as int),
                sq == (width == height),
                n == width as int,
                direction.bits == spiral_dir(k as int),
                spiral_safe(width as int, height as int, k as int, row as int, col as int),
                sq ==> row as int == spiral_leg_row(n, k as int) && col as int == spiral_leg_col(
                    n,
                    k as int,
                ),
                sq && width > 1 && k > 0 ==> has(cell_bits(points@, n, 0, 0), SOUTH) && has(
                    cell_bits(points@, n, 1, 0),
                    NORTH,
                ),
                vis.len() == num,
                sq ==> spiral_books(n, k as int, 0, points@, vis, row as int, col as int),
            decreases 2 * (width as int + height as int) + 4 - k,
        {
            proof {
                crate::dirs::lemma_single_bits();
                if sq {
                    lemma_square_leg(n, k as int);
                    assert(spiral_dist(n, n, k as int) > 0);
                }
            }
            let steps: i64 = leg_distance(width, height, k);
            let ghost r0 = row as int;
            let ghost c0 = col as int;
            let mut s: i64 = 0;
            while s < steps
                invariant
                    1 <= width <= 0xFFFF_FFFF,
                    1 <= height <= 0xFFFF_FFFF,
                    num == width * height <= usize::MAX,
                    points@.len() == num,
                    row < height,
                    col < width,
                    is_single(direction.bits),
                    bits_in_bounds(points@, width as int, height as int),
                    edge_symmetric(points@, width as int, height as int),
                    sq == (width == height),
                    n == width as int,
                    steps == spiral_dist(width as int, height as int, k as int),
                    0 <= s,
                    s <= steps || steps < 0,
                    steps <= 0 ==> s == 0,
                    direction.bits == spiral_dir(k as int),
                    cell_ok(r0, c0, width as int, height as int),
                    spiral_safe(width as int, height as int, k as int, r0, c0),
                    row as int == r0 + s * drow(direction.bits),
                    col as int == c0 + s * dcol(direction.bits),
                    sq ==> r0 == spiral_leg_row(n, k as int) && c0 == spiral_leg_col(n, k as int),
                    sq && width > 1 && (k > 0 || s > 0) ==> has(cell_bits(points@, n, 0, 0), SOUTH)
                        && has(cell_bits(points@, n, 1, 0), NORTH),
                    vis.len() == num,
                    sq ==> spiral_books(n, k as int, s as int, points@, vis, row as int, col as int),
                decreases steps - s,
            {
                proof {
                    crate::dirs::lemma_single_bits();
                    assert((s as int + 1) * drow(direction.bits) == s as int * drow(
                        direction.bits,
                    ) + drow(direction.bits)) by (nonlinear_arith);
                    assert((s as int + 1) * dcol(direction.bits) == s as int * dcol(
                        direction.bits,
                    ) + dcol(direction.bits)) by (nonlinear_arith);
                    lemma_spiral_safe_pos(
                        width as int,
                        height as int,
                        k as int,
                        r0,
                        c0,
                        s as int,
                    );
                    assert(dir_ok(
                        direction.bits,
                        row as int,
                        col as int,
                        width as int,
                        height as int,
                    ));
                }
                let (nrow, ncol) = match try_step(direction, row, col, width, height) {
                    Ok(p) => p,
                    Err(e) => {
                        return Err(e);
                    },
                };
                let ghost pre_step = points@;
                let ghost vis0 = vis;
                add_edge(&mut points, width, height, row, col, direction);
                proof {
                    if sq {
                        lemma_spiral_step_update(
                            n,
                            k as int,
                            s as int,
                            pre_step,
                            points@,
                            vis0,
                            row as int,
                            col as int,
                            nrow as int,
                            ncol as int,
                            direction.bits,
                        );
                        vis = vis0.update((nrow as int) * n + (ncol as int), true);
                    }
                    if sq && width > 1 {
                        crate::grid::lemma_mask_bits();
                        // the very first step lays the edge from the
                        // corner south; every later step only adds bits
                        if k == 0 && s == 0 {
                            assert(direction.bits == SOUTH && row == 0 && col == 0);
                            assert(cell_bits(points@, n, 0, 0) == cell_bits(pre_step, n, 0, 0)
                                | SOUTH);
                            assert(rev_bits(SOUTH) == NORTH);
                            assert(cell_bits(points@, n, 1, 0) == cell_bits(pre_step, n, 1, 0)
                                | NORTH);
                        } else {
                            assert(has(cell_bits(points@, n, 0, 0), SOUTH)) by {
                                if 0 == row as int && 0 == col as int {
                                    assert(cell_bits(points@, n, 0, 0) == cell_bits(
                                        pre_step,
                                        n,
                                        0,
                                        0,
                                    ) | direction.bits);
                                } else if 0 == row + drow(direction.bits) && 0 == col + dcol(
                                    direction.bits,
                                ) {
                                    assert(cell_bits(points@, n, 0, 0) == cell_bits(
                                        pre_step,
                                        n,
                                        0,
                                        0,
                                    ) | rev_bits(direction.bits));
                                } else {
                                    assert(cell_bits(points@, n, 0, 0) == cell_bits(
                                        pre_step,
                                        n,
                                        0,
                                        0,
                                    ));
                                }
                            }
                            assert(has(cell_bits(points@, n, 1, 0), NORTH)) by {
                                if 1 == row as int && 0 == col as int {
                                    assert(cell_bits(points@, n, 1, 0) == cell_bits(
                                        pre_step,
                                        n,
                                        1,
                                        0,
                                    ) | direction.bits);
                                } else if 1 == row + drow(direction.bits) && 0 == col + dcol(
                                    direction.bits,
                                ) {
                                    assert(cell_bits(points@, n, 1, 0) == cell_bits(
                                        pre_step,
                                        n,
                                        1,
                                        0,
                                    ) | rev_bits(direction.bits));
                                } else {
                                    assert(cell_bits(points@, n, 1, 0) == cell_bits(
                                        pre_step,
                                        n,
                                        1,
                                        0,
                                    ));
                                }
                            }
                        }
                    }
                }
                row = nrow;
                col = ncol;
                s = s + 1;
            }
            let turned = match direction.rotate_left(2) {
                Some(t) => t,
                None => {
                    return Err(Error::Geometry);
                },
            };
            proof {
                assert(2u32 % 8 == 2);
                assert(is_single(rotr8(direction.bits, 2)));
                lemma_square_leg(n, k as int);
                assert(s as int == if spiral_dist(width as int, height as int, k as int) > 0 {
                    spiral_dist(width as int, height as int, k as int)
                } else {
                    0
                });
                lemma_spiral_safe_close(width as int, height as int, k as int, r0, c0);
                assert(spiral_safe(
                    width as int,
                    height as int,
                    k as int + 1,
                    row as int,
                    col as int,
                ));
                if sq {
                    assert(s == steps);
                    assert(row as int == spiral_leg_row(n, k as int + 1) && col as int
                        == spiral_leg_col(n, k as int + 1));
                    // the finished leg's cells become the next leg's record
                    lemma_spiral_seen_close(n, k as int);
                    assert forall|r: int, c: int| cell_ok(r, c, n, n) implies (#[trigger] marked(
                        vis,
                        n,
                        r,
                        c,
                    ) <==> spiral_seen(n, k as int + 1, 0, r, c)) by {
                        assert(marked(vis, n, r, c) <==> spiral_seen(n, k as int, s as int, r, c));
                    }
                    assert(spiral_books(n, k as int + 1, 0, points@, vis, row as int, col as int));
                }
            }
            direction = turned;
            k = k + 1;
        }
        proof {
            if sq {
                // both remaining legs are spent: the walk covered every
                // cell, one connection total short of two per cell, with
                // the corner and the final head as the two loose ends
                lemma_spiral_final(n, k as int, points@, vis, row as int, col as int);
                if width > 1 {
                    let a = (0int, 0int);
                    let b = (row as int, col as int);
                    assert(!(a.0 == b.0 && a.1 == b.1));
                    assert(cell_ok(a.0, a.1, n, n) && cell_ok(b.0, b.1, n, n));
                    assert(crate::dirs::count_bits(cell_bits(points@, n, a.0, a.1)) == 1);
                    assert(crate::dirs::count_bits(cell_bits(points@, n, b.0, b.1)) == 1);
                    assert(forall|r: int, c: int|
                        cell_ok(r, c, n, n) && !(r == a.0 && c == a.1) && !(r == b.0 && c == b.1)
                            ==> crate::dirs::count_bits(#[trigger] cell_bits(points@, n, r, c))
                            == 2);
                    assert(exists|a2: (int, int), b2: (int, int)|
                        #![trigger cell_bits(points@, n, a2.0, a2.1), cell_bits(points@, n, b2.0, b2.1)]
                        !(a2.0 == b2.0 && a2.1 == b2.1) && cell_ok(a2.0, a2.1, n, n) && cell_ok(
                            b2.0,
                            b2.1,
                            n,
                            n,
                        ) && crate::dirs::count_bits(cell_bits(points@, n, a2.0, a2.1)) == 1
                            && crate::dirs::count_bits(cell_bits(points@, n, b2.0, b2.1)) == 1 && (
                        forall|r: int, c: int|
                            cell_ok(r, c, n, n) && !(r == a2.0 && c == a2.1) && !(r == b2.0 && c
                                == b2.1) ==> crate::dirs::count_bits(
                                #[trigger] cell_bits(points@, n, r, c),
                            ) == 2));
                }
            }
        }
        Ok(points)
    }
}

/// A non-empty set holds some single direction.
proof fn lemma_nonzero_has(b: u8)
    requires
        b != 0,
    ensures
        exists|d: u8| is_single(d) && #[trigger] has(b, d),
{
    assert(has(b, NORTH) || has(b, crate::dirs::NORTHEAST) || has(b, EAST) || has(
        b,
        crate::dirs::SOUTHEAST,
    ) || has(b, SOUTH) || has(b, crate::dirs::SOUTHWEST) || has(b, WEST) || has(
        b,
        crate::dirs::NORTHWEST,
    )) by (bit_vector)
        requires
            b != 0,
    ;
}

/// How strongly the Prim generator favours an edge leaving the cell at
/// `(row, col)`: vertical edges weigh by the column, horizontal ones by
/// the row, diagonal ones by both, and every weight is at least one.
pub open spec fn weight_spec(row: int, col: int, d: u8) -> int {
    1 + if subset_of(d, NORTH | SOUTH) {
        2 * col
    } else if subset_of(d, EAST | WEST) {
        2 * row
    } else {
        row + col
    }
}

/// The positional edge weight the Prim generator draws with.
pub fn edge_weight(row: usize, col: usize, d: Neighbours) -> (r: u64)
    requires
        row < 0x800_0000_0000_0000,
        col < 0x800_0000_0000_0000,
    ensures
        r == weight_spec(row as int, col as int, d.bits),
        r >= 1,
{
    if (NORTH | SOUTH) & d.bits == d.bits {
        1 + 2 * (col as u64)
    } else if (EAST | WEST) & d.bits == d.bits {
        1 + 2 * (row as u64)
    } else {
        1 + (row as u64) + (col as u64)
    }
}

/// Relies on `SliceRandom::choose_weighted` over `WeightedIndex`: it
/// returns a borrowed element of the slice, chosen with probability
/// proportional to its weight, and errors only for an empty slice, an
/// invalid weight or a zero total.  The weights here are `edge_weight`,
/// each at least one, and with at most eight of them their sum stays far
/// below the `u64` limit, so only emptiness can fail.
#[verifier::external_body]
fn choose_weighted_dir(
    rng: &mut Xoshiro128PlusPlus,
    dirs: &Vec<Neighbours>,
    row: usize,
    col: usize,
) -> (r: Option<Neighbours>)
    requires
        dirs@.len() <= 8,
        row < 0x800_0000_0000_0000,
        col < 0x800_0000_0000_0000,
    ensures
        r is Some <==> dirs@.len() > 0,
        r matches Some(d) ==> exists|i: int| 0 <= i < dirs@.len() && dirs@[i] == d,
{
    match dirs.as_slice().choose_weighted(rng, |d| edge_weight(row, col, *d)) {
        Ok(d) => Some(*d),
        Err(_) => None,
    }
}

impl Neighbours {
    /// Choose one direction of the set at random, the chance of each
    /// proportional to its positional weight at `(row, col)`; fails on an
    /// empty set.
    pub fn random_direction(
        self,
        rng: &mut Xoshiro128PlusPlus,
        row: usize,
        col: usize,
    ) -> (res: Result<Neighbours, Error>)
        requires
            row < 0x800_0000_0000_0000,
            col < 0x800_0000_0000_0000,
        ensures
            res is Ok <==> self.bits != 0,
            res matches Ok(d) ==> is_single(d.bits) && has(self.bits, d.bits),
            res is Err ==> res == Result::<Neighbours, Error>::Err(Error::Randomness),
    {
        if self.is_empty() {
            return Err(Error::Randomness);
        }
        let directions = self.directions();
        proof {
            lemma_nonzero_has(self.bits);
        }
        match choose_weighted_dir(rng, &directions, row, col) {
            Some(d) => Ok(d),
            None => Err(Error::Randomness),
        }
    }
}

/// Is the flat index `idx` an entry of the frontier queue?
spec fn in_queue(q: Seq<usize>, idx: int) -> bool {
    exists|j: int| #![trigger q[j]] 0 <= j < q.len() && q[j] == idx
}

/// The working-state invariant of the Prim construction: the queue
/// names tree cells, every touched cell is a tree cell, tree edges join
/// tree cells, each cell beyond the first ones cost exactly one
/// committed edge, the tree hangs together from a single start cell,
/// and an edge leaves the available sets only once both its ends are
/// tree cells.
spec fn prim_state_ok(
    wi: int,
    hi: int,
    num: int,
    output: Seq<Neighbours>,
    possible: Seq<Neighbours>,
    seen: Seq<bool>,
    processed: Seq<bool>,
    queue: Seq<usize>,
    init_count: int,
    single: bool,
    sri: int,
    sci: int,
) -> bool {
    &&& output.len() == num
    &&& possible.len() == num
    &&& seen.len() == num
    &&& processed.len() == num
    &&& num == wi * hi
    &&& bits_in_bounds(possible, wi, hi)
    &&& bits_in_bounds(output, wi, hi)
    &&& edge_symmetric(output, wi, hi)
    &&& (forall|j: int| 0 <= j < queue.len() ==> #[trigger] queue[j] < num)
    &&& (forall|j: int| 0 <= j < queue.len() ==> processed[#[trigger] queue[j] as int])
    &&& (forall|j: int| 0 <= j < num ==> (#[trigger] seen[j] ==> processed[j]))
    &&& (forall|r: int, c: int, d: u8|
        cell_ok(r, c, wi, hi) && is_single(d) && #[trigger] has(cell_bits(output, wi, r, c), d)
            ==> marked(processed, wi, r, c) && marked(processed, wi, r + drow(d), c + dcol(d)))
    &&& bits_total(output) == 2 * (count_true(processed) - init_count)
    &&& (single ==> marked(processed, wi, sri, sci) && cell_ok(sri, sci, wi, hi))
    &&& (single ==> (forall|r: int, c: int|
        cell_ok(r, c, wi, hi) && #[trigger] marked(processed, wi, r, c) ==> reachable(
            output,
            wi,
            hi,
            (sri, sci),
            (r, c),
        )))
    &&& (forall|r: int, c: int, d: u8|
        #![trigger dir_ok(d, r, c, wi, hi), cell_bits(possible, wi, r, c)]
        cell_ok(r, c, wi, hi) && is_single(d) && dir_ok(d, r, c, wi, hi) && (has(
            cell_bits(possible, wi, r, c),
            d,
        ) == false) ==> marked(processed, wi, r, c) && marked(
            processed,
            wi,
            r + drow(d),
            c + dcol(d),
        ))
}

/// Every tree cell with edges still available sits in the queue; the
/// cell at the exempt index may be in the worker's hands instead.
spec fn prim_queue_ok(
    wi: int,
    hi: int,
    possible: Seq<Neighbours>,
    processed: Seq<bool>,
    queue: Seq<usize>,
    exempt: int,
) -> bool {
    forall|r: int, c: int|
        #![trigger marked(processed, wi, r, c), cell_bits(possible, wi, r, c)]
        cell_ok(r, c, wi, hi) && marked(processed, wi, r, c) && cell_bits(possible, wi, r, c) != 0
            && r * wi + c != exempt ==> in_queue(queue, r * wi + c)
}

/// The randomized Prim-style spanning-tree generator: grows a tree from
/// its initial cells by repeatedly committing a weighted-random available
/// edge that reaches a cell not yet in the tree.
pub struct PrimTree {
    pub rng: Xoshiro128PlusPlus,
    pub initial_points: Vec<usize>,
}

impl PrimTree {
    /// Grow the spanning tree.
    ///
    /// Every committed edge is recorded at both endpoints, so the output
    /// is edge-symmetric, and no recorded direction leaves the grid.
    /// Grown from one start cell, the output is a spanning tree: every
    /// cell can be reached from the start cell along its edges, and with
    /// `width * height` cells it holds exactly `width * height - 1`
    /// undirected edges, each recorded twice — connected and, by
    /// counting, cycle-free.
    #[verifier::rlimit(100)]
    pub fn tree(&mut self, width: usize, height: usize) -> (res: Result<Vec<Neighbours>, Error>)
        requires
            width >= 1,
            height >= 1,
            width < 0x800_0000_0000_0000,
            height < 0x800_0000_0000_0000,
        ensures
            res is Err <==> (width * height > usize::MAX || exists|i: int|
                0 <= i < old(self).initial_points@.len() && old(self).initial_points@[i] >= width
                    * height),
            width * height > usize::MAX ==> res == Result::<Vec<Neighbours>, Error>::Err(
                Error::Dimension,
            ),
            res matches Ok(g) ==> g@.len() == width * height && bits_in_bounds(
                g@,
                width as int,
                height as int,
            ) && edge_symmetric(g@, width as int, height as int),
            res matches Ok(g) ==> (old(self).initial_points@.len() == 1 ==> bits_total(g@) == 2 * (
            width as int * height as int - 1) && (forall|r: int, c: int|
                cell_ok(r, c, width as int, height as int) ==> reachable(
                    g@,
                    width as int,
                    height as int,
                    (
                        old(self).initial_points@[0] as int / width as int,
                        old(self).initial_points@[0] as int % width as int,
                    ),
                    (r, c),
                ))),
            final(self).initial_points@ == old(self).initial_points@,
            res matches Ok(g) ==> (old(self).initial_points@.len() == 0 ==> forall|j: int|
                0 <= j < g@.len() ==> g@[j].bits == 0),
    {
        proof {
            crate::dirs::lemma_single_bits();
            crate::dirs::lemma_count_bits();
            crate::grid::lemma_mask_bits();
        }
        let wi: Ghost<int> = Ghost(width as int);
        let hi: Ghost<int> = Ghost(height as int);
        let num = match width.checked_mul(height) {
            Some(n) => n,
            None => {
                return Err(Error::Dimension);
            },
        };
        // no connections yet in the output
        let mut output: Vec<Neighbours> = filled(num, Neighbours { bits: 0 });
        proof {
            assert forall|r: int, c: int, d: u8|
                cell_ok(r, c, wi@, hi@) && is_single(d) && #[trigger] has(
                    cell_bits(output@, wi@, r, c),
                    d,
                ) implies false by {
                lemma_index_bound(r, c, wi@, hi@);
            }
            crate::grid::lemma_bits_total_zero(output@);
        }
        // every in-grid edge is available at first
        let mut possible: Vec<Neighbours> = filled(num, Neighbours { bits: 0xFF });
        let ghost pre_prune = possible@;
        match crate::grid::prune_edges(width, height, &mut possible) {
            Ok(()) => {},
            Err(e) => {
                return Err(e);
            },
        }
        proof {
            crate::grid::lemma_pruned_in_bounds(pre_prune, possible@, wi@, hi@);
            // before any work, an available edge is missing only where it
            // would leave the grid
            assert forall|r: int, c: int, d: u8|
                #![trigger dir_ok(d, r, c, wi@, hi@), cell_bits(possible@, wi@, r, c)]
                cell_ok(r, c, wi@, hi@) && is_single(d) && dir_ok(d, r, c, wi@, hi@) implies has(
                cell_bits(possible@, wi@, r, c),
                d,
            ) by {
                lemma_index_bound(r, c, wi@, hi@);
                assert(has(cell_bits(pre_prune, wi@, r, c), d));
            }
        }
        let mut seen: Vec<bool> = filled(num, false);
        let mut processed: Vec<bool> = filled(num, false);
        let ghost proc_empty = processed@;
        let mut point_queue: Vec<usize> = Vec::new();
        let np = self.initial_points.len();
        let mut i: usize = 0;
        while i < np
            invariant
                i <= np,
                np == self.initial_points@.len(),
                self.initial_points@ == old(self).initial_points@,
                num == width * height,
                wi@ == width as int,
                hi@ == height as int,
                processed@.len() == num,
                forall|j: int| 0 <= j < i ==> self.initial_points@[j] < num,
                point_queue@.len() == i,
                forall|k: int| 0 <= k < i ==> #[trigger] point_queue@[k]
                    == self.initial_points@[k],
                forall|j: int|
                    0 <= j < num ==> (#[trigger] processed@[j] <==> exists|k: int|
                        #![trigger self.initial_points@[k]]
                        0 <= k < i && self.initial_points@[k] == j),
            decreases np - i,
        {
            let index = self.initial_points[i];
            if index >= num {
                return Err(Error::OutOfBounds);
            }
            let ghost proc0 = processed@;
            point_queue.push(index);
            processed[index] = true;
            proof {
                assert forall|j: int| 0 <= j < num implies (#[trigger] processed@[j]
                    <==> exists|k: int|
                    #![trigger self.initial_points@[k]]
                    0 <= k < i + 1 && self.initial_points@[k] == j) by {
                    if j == index {
                        assert(self.initial_points@[i as int] == j);
                    } else {
                        if processed@[j] {
                            assert(proc0[j]);
                        }
                        if exists|k: int|
                            #![trigger self.initial_points@[k]]
                            0 <= k < i + 1 && self.initial_points@[k] == j {
                            let k = choose|k: int|
                                #![trigger self.initial_points@[k]]
                                0 <= k < i + 1 && self.initial_points@[k] == j;
                            assert(k < i);
                            assert(proc0[j]);
                        }
                    }
                }
            }
            i = i + 1;
        }
        // the accounting baseline: cells in the tree before any edge
        let ghost init_count = count_true(processed@);
        let ghost single = np == 1;
        let ghost seed0: int = if np >= 1 {
            self.initial_points@[0] as int
        } else {
            0
        };
        let ghost sri: int = seed0 / wi@;
        let ghost sci: int = seed0 % wi@;
        proof {
            crate::grid::lemma_count_true_bounds(processed@);
            if single {
                crate::grid::lemma_flat_to_cell(seed0, wi@, hi@);
                assert(marked(processed@, wi@, sri, sci));
                assert(processed@ =~= proc_empty.update(seed0, true)) by {
                    assert forall|j: int| 0 <= j < num implies processed@[j] == proc_empty.update(
                        seed0,
                        true,
                    )[j] by {
                        if j != seed0 {
                            if processed@[j] {
                                let k = choose|k: int|
                                    #![trigger self.initial_points@[k]]
                                    0 <= k < np && self.initial_points@[k] == j;
                                assert(k == 0);
                                assert(false);
                            }
                        }
                    }
                }
                crate::grid::lemma_count_true_zero(proc_empty);
                crate::grid::lemma_count_true_update(proc_empty, seed0, true);
                assert(init_count == 1);
                // every tree cell is the start cell for now
                assert forall|r: int, c: int|
                    cell_ok(r, c, wi@, hi@) && #[trigger] marked(processed@, wi@, r, c) implies reachable(
                    output@,
                    wi@,
                    hi@,
                    (sri, sci),
                    (r, c),
                ) by {
                    lemma_index_bound(r, c, wi@, hi@);
                    let k = choose|k: int|
                        #![trigger self.initial_points@[k]]
                        0 <= k < np && self.initial_points@[k] == r * wi@ + c;
                    assert(k == 0);
                    crate::grid::lemma_index_injective(r, c, sri, sci, wi@, hi@);
                    crate::grid::lemma_reachable_refl(output@, wi@, hi@, (sri, sci));
                }
            }
            // every tree cell sits in the queue
            assert forall|r: int, c: int|
                cell_ok(r, c, wi@, hi@) && marked(processed@, wi@, r, c) && cell_bits(
                    possible@,
                    wi@,
                    r,
                    c,
                ) != 0 implies in_queue(point_queue@, r * wi@ + c) by {
                lemma_index_bound(r, c, wi@, hi@);
                let k = choose|k: int|
                    #![trigger self.initial_points@[k]]
                    0 <= k < np && self.initial_points@[k] == r * wi@ + c;
                assert(point_queue@[k] == r * wi@ + c);
            }
            // queue entries are tree cells
            assert forall|j: int| 0 <= j < point_queue@.len() implies processed@[#[trigger] point_queue@[j] as int] by {
                assert(self.initial_points@[j] == point_queue@[j]);
            }
            assert(prim_state_ok(
                wi@,
                hi@,
                num as int,
                output@,
                possible@,
                seen@,
                processed@,
                point_queue@,
                init_count,
                single,
                sri,
                sci,
            ));
        }
        while point_queue.len() > 0
            invariant
                1 <= width < 0x800_0000_0000_0000,
                1 <= height < 0x800_0000_0000_0000,
                num == width * height <= usize::MAX,
                wi@ == width as int,
                hi@ == height as int,
                self.initial_points@ == old(self).initial_points@,
                np == self.initial_points@.len(),
                np == 0 ==> point_queue@.len() == 0 && (forall|j: int|
                    0 <= j < output@.len() ==> output@[j].bits == 0),
                prim_state_ok(
                    wi@,
                    hi@,
                    num as int,
                    output@,
                    possible@,
                    seen@,
                    processed@,
                    point_queue@,
                    init_count,
                    single,
                    sri,
                    sci,
                ),
                prim_queue_ok(wi@, hi@, possible@, processed@, point_queue@, -1),
            decreases bits_total(possible@), point_queue@.len(),
        {
            proof {
                crate::dirs::lemma_single_bits();
                crate::dirs::lemma_count_bits();
                crate::grid::lemma_mask_bits();
                crate::grid::lemma_bits_total_nonneg(possible@);
            }
            let ghost bits0 = bits_total(possible@);
            let ghost qlen0 = point_queue@.len();
            let ghost queue_pre = point_queue@;
            let qlen = point_queue.len();
            // pop a uniformly random entry: swap it to the back first
            let from_index = crate::rng::rand_index(&mut self.rng, qlen);
            let last_index = qlen - 1;
            let a = point_queue[last_index];
            let b = point_queue[from_index];
            point_queue[last_index] = b;
            point_queue[from_index] = a;
            let point_index = match point_queue.pop() {
                Some(p) => p,
                None => {
                    return Err(Error::OutOfBounds);
                },
            };
            let prow = point_index / width;
            let pcol = point_index % width;
            proof {
                crate::grid::lemma_flat_to_cell(point_index as int, wi@, hi@);
                assert(marked(processed@, wi@, prow as int, pcol as int)) by {
                    assert(queue_pre[from_index as int] == point_index);
                }
                // the other tree cells with available edges are still
                // queued after the swap and the pop
                assert forall|r: int, c: int|
                    cell_ok(r, c, wi@, hi@) && marked(processed@, wi@, r, c) && cell_bits(
                        possible@,
                        wi@,
                        r,
                        c,
                    ) != 0 && r * wi@ + c != point_index as int implies in_queue(
                    point_queue@,
                    r * wi@ + c,
                ) by {
                    let idx = r * wi@ + c;
                    let j = choose|j: int| #![trigger queue_pre[j]] 0 <= j < queue_pre.len()
                        && queue_pre[j] == idx;
                    assert(queue_pre[from_index as int] == point_index);
                    if j == from_index as int {
                        assert(false);
                    } else if j == last_index as int {
                        assert(point_queue@[from_index as int] == idx);
                    } else {
                        assert(point_queue@[j] == idx);
                    }
                }
                // the remaining queue entries are still tree cells
                assert forall|j: int| 0 <= j < point_queue@.len() implies processed@[
                    #[trigger] point_queue@[j] as int
                ] by {
                    if j == from_index as int {
                        assert(point_queue@[j] == queue_pre[last_index as int]);
                    } else {
                        assert(point_queue@[j] == queue_pre[j]);
                    }
                }
            }
            // draw random available edges until one reaches a cell not
            // yet in the tree, or none are left
            loop
                invariant
                    1 <= width < 0x800_0000_0000_0000,
                    1 <= height < 0x800_0000_0000_0000,
                    num == width * height <= usize::MAX,
                    wi@ == width as int,
                    hi@ == height as int,
                    self.initial_points@ == old(self).initial_points@,
                    point_index < num,
                    prow == point_index as int / wi@,
                    pcol == point_index as int % wi@,
                    point_index as int == prow * wi@ + pcol,
                    cell_ok(prow as int, pcol as int, wi@, hi@),
                    marked(processed@, wi@, prow as int, pcol as int),
                    point_queue@.len() >= qlen0 - 1,
                    bits_total(possible@) <= bits0,
                    bits_total(possible@) == bits0 ==> point_queue@.len() == qlen0 - 1,
                    prim_state_ok(
                        wi@,
                        hi@,
                        num as int,
                        output@,
                        possible@,
                        seen@,
                        processed@,
                        point_queue@,
                        init_count,
                        single,
                        sri,
                        sci,
                    ),
                    prim_queue_ok(
                        wi@,
                        hi@,
                        possible@,
                        processed@,
                        point_queue@,
                        point_index as int,
                    ),
                ensures
                    self.initial_points@ == old(self).initial_points@,
                    point_queue@.len() >= qlen0 - 1,
                    bits_total(possible@) <= bits0,
                    bits_total(possible@) == bits0 ==> point_queue@.len() == qlen0 - 1,
                    possible@[point_index as int].bits != 0 ==> bits_total(possible@) < bits0,
                    prim_state_ok(
                        wi@,
                        hi@,
                        num as int,
                        output@,
                        possible@,
                        seen@,
                        processed@,
                        point_queue@,
                        init_count,
                        single,
                        sri,
                        sci,
                    ),
                    prim_queue_ok(
                        wi@,
                        hi@,
                        possible@,
                        processed@,
                        point_queue@,
                        point_index as int,
                    ),
                decreases crate::dirs::count_bits(possible@[point_index as int].bits),
            {
                proof {
                    crate::dirs::lemma_single_bits();
                    crate::dirs::lemma_count_bits();
                    crate::grid::lemma_mask_bits();
                }
                let ghost queue_iter0 = point_queue@;
                let avail = possible[point_index];
                if avail.is_empty() {
                    break;
                }
                let edge = match avail.random_direction(&mut self.rng, prow, pcol) {
                    Ok(e) => e,
                    Err(_) => {
                        break;
                    },
                };
                let ghost proc_pre = processed@;
                // this edge is no longer available from the point
                let ghost possible0 = possible@;
                possible[point_index] = avail.difference(edge);
                proof {
                    crate::grid::lemma_bits_total_update(
                        possible0,
                        point_index as int,
                        Neighbours { bits: avail.bits & !edge.bits },
                    );
                    assert(has(cell_bits(possible0, wi@, prow as int, pcol as int), edge.bits));
                    assert forall|r: int, c: int, d: u8|
                        cell_ok(r, c, wi@, hi@) && is_single(d) && #[trigger] has(
                            cell_bits(possible@, wi@, r, c),
                            d,
                        ) implies dir_ok(d, r, c, wi@, hi@) by {
                        lemma_index_bound(r, c, wi@, hi@);
                        if r * wi@ + c == point_index as int {
                            assert(has(avail.bits, d));
                            assert(has(cell_bits(possible0, wi@, r, c), d));
                        } else {
                            assert(has(cell_bits(possible0, wi@, r, c), d));
                        }
                    }
                }
                // follow the edge to its far endpoint
                let (erow, ecol) = edge.step_usize((prow, pcol));
                proof {
                    assert(dir_ok(edge.bits, prow as int, pcol as int, wi@, hi@));
                    lemma_index_bound(erow as int, ecol as int, wi@, hi@);
                    if (erow as int) * wi@ + (ecol as int) == point_index as int {
                        crate::grid::lemma_index_injective(
                            erow as int,
                            ecol as int,
                            prow as int,
                            pcol as int,
                            wi@,
                            hi@,
                        );
                        assert(false);
                    }
                }
                let endpoint = erow * width + ecol;
                // the way back to the point is no longer available either
                let backwards = match edge.reverse() {
                    Some(x) => x,
                    None => {
                        return Err(Error::Geometry);
                    },
                };
                let ghost possible1 = possible@;
                let epossible = possible[endpoint];
                possible[endpoint] = epossible.difference(backwards);
                proof {
                    crate::grid::lemma_bits_total_update(
                        possible1,
                        endpoint as int,
                        Neighbours { bits: epossible.bits & !backwards.bits },
                    );
                    assert(bits_total(possible@) < bits0);
                    assert forall|r: int, c: int, d: u8|
                        cell_ok(r, c, wi@, hi@) && is_single(d) && #[trigger] has(
                            cell_bits(possible@, wi@, r, c),
                            d,
                        ) implies dir_ok(d, r, c, wi@, hi@) by {
                        lemma_index_bound(r, c, wi@, hi@);
                        assert(has(cell_bits(possible1, wi@, r, c), d));
                    }
                }
                // queue the endpoint the first time it is reached
                let was_seen = seen[endpoint];
                let ghost seen_pre = seen@;
                seen[endpoint] = true;
                if !was_seen {
                    point_queue.push(endpoint);
                }
                // the endpoint joins the tree now if it was not in it
                let was_processed = processed[endpoint];
                processed[endpoint] = true;
                let ghost queue_mid = point_queue@;
                proof {
                    let pi = point_index as int;
                    let ei = endpoint as int;
                    // the far endpoint of the drawn edge, as a cell
                    assert(erow as int == prow + drow(edge.bits) && ecol as int == pcol + dcol(
                        edge.bits,
                    ));
                    assert(ei == erow as int * wi@ + ecol as int);
                    assert(processed@ =~= proc_pre.update(ei, true));
                    crate::grid::lemma_count_true_update(proc_pre, ei, true);
                    // tree cells stay tree cells
                    assert forall|j: int| 0 <= j < num && proc_pre[j] implies processed@[j] by {}
                    assert forall|r: int, c: int|
                        cell_ok(r, c, wi@, hi@) && marked(proc_pre, wi@, r, c) implies #[trigger] marked(
                        processed@,
                        wi@,
                        r,
                        c,
                    ) by {
                        lemma_index_bound(r, c, wi@, hi@);
                    }
                    if was_processed {
                        assert(proc_pre =~= processed@);
                    }
                    // every touched cell is still a tree cell
                    assert forall|j: int| 0 <= j < num && #[trigger] seen@[j] implies processed@[j] by {
                        if j != ei {
                            assert(seen_pre[j]);
                        }
                    }
                    // the queue still names tree cells
                    assert forall|j: int| 0 <= j < point_queue@.len() implies processed@[
                        #[trigger] point_queue@[j] as int
                    ] by {
                        if j < queue_iter0.len() {
                            assert(point_queue@[j] == queue_iter0[j]);
                            assert(proc_pre[point_queue@[j] as int]);
                        } else {
                            assert(point_queue@[j] == endpoint);
                        }
                    }
                    // an edge missing from the available sets joins tree
                    // cells: the pair removed now does, and every pair
                    // missing before did already
                    assert forall|r: int, c: int, d: u8|
                        #![trigger dir_ok(d, r, c, wi@, hi@), cell_bits(possible@, wi@, r, c)]
                        cell_ok(r, c, wi@, hi@) && is_single(d) && dir_ok(d, r, c, wi@, hi@) && (
                        has(cell_bits(possible@, wi@, r, c), d) == false) implies marked(
                        processed@,
                        wi@,
                        r,
                        c,
                    ) && marked(processed@, wi@, r + drow(d), c + dcol(d)) by {
                        lemma_index_bound(r, c, wi@, hi@);
                        lemma_index_bound(r + drow(d), c + dcol(d), wi@, hi@);
                        let idx = r * wi@ + c;
                        if idx == pi {
                            crate::grid::lemma_index_injective(
                                r,
                                c,
                                prow as int,
                                pcol as int,
                                wi@,
                                hi@,
                            );
                            assert(cell_bits(possible@, wi@, r, c) == avail.bits & !edge.bits);
                            if d == edge.bits {
                                assert(marked(processed@, wi@, erow as int, ecol as int));
                            } else {
                                assert(has(avail.bits, d) == false);
                                assert(cell_bits(possible0, wi@, r, c) == avail.bits);
                                assert(marked(proc_pre, wi@, r, c) && marked(
                                    proc_pre,
                                    wi@,
                                    r + drow(d),
                                    c + dcol(d),
                                ));
                            }
                        } else if idx == ei {
                            crate::grid::lemma_index_injective(
                                r,
                                c,
                                erow as int,
                                ecol as int,
                                wi@,
                                hi@,
                            );
                            assert(cell_bits(possible@, wi@, r, c) == epossible.bits
                                & !backwards.bits);
                            assert(cell_bits(possible0, wi@, r, c) == epossible.bits);
                            if d == backwards.bits {
                                assert(r + drow(d) == prow as int && c + dcol(d) == pcol as int);
                                assert(marked(processed@, wi@, prow as int, pcol as int));
                            } else {
                                assert(has(epossible.bits, d) == false);
                                assert(marked(proc_pre, wi@, r, c) && marked(
                                    proc_pre,
                                    wi@,
                                    r + drow(d),
                                    c + dcol(d),
                                ));
                            }
                        } else {
                            assert(cell_bits(possible@, wi@, r, c) == cell_bits(
                                possible0,
                                wi@,
                                r,
                                c,
                            ));
                            assert(marked(proc_pre, wi@, r, c) && marked(
                                proc_pre,
                                wi@,
                                r + drow(d),
                                c + dcol(d),
                            ));
                        }
                    }
                    // every tree cell with edges left, except the one in
                    // hand, sits in the queue
                    assert forall|r: int, c: int|
                        #![trigger marked(processed@, wi@, r, c), cell_bits(possible@, wi@, r, c)]
                        cell_ok(r, c, wi@, hi@) && marked(processed@, wi@, r, c) && cell_bits(
                            possible@,
                            wi@,
                            r,
                            c,
                        ) != 0 && r * wi@ + c != pi implies in_queue(point_queue@, r * wi@ + c) by {
                        lemma_index_bound(r, c, wi@, hi@);
                        let idx = r * wi@ + c;
                        if idx == ei {
                            if !was_seen {
                                assert(point_queue@[point_queue@.len() - 1] == endpoint);
                            } else {
                                assert(proc_pre[idx]);
                                assert(marked(proc_pre, wi@, r, c));
                                crate::grid::lemma_index_injective(
                                    r,
                                    c,
                                    erow as int,
                                    ecol as int,
                                    wi@,
                                    hi@,
                                );
                                let eb = epossible.bits;
                                let bb = backwards.bits;
                                assert(cell_bits(possible@, wi@, r, c) == eb & !bb);
                                assert(eb & !bb != 0 ==> eb != 0) by (bit_vector);
                                assert(cell_bits(possible0, wi@, r, c) == eb);
                                assert(in_queue(queue_iter0, idx));
                                let j = choose|j: int|
                                    #![trigger queue_iter0[j]]
                                    0 <= j < queue_iter0.len() && queue_iter0[j] == idx;
                                assert(point_queue@[j] == idx);
                            }
                        } else {
                            assert(cell_bits(possible@, wi@, r, c) == cell_bits(
                                possible0,
                                wi@,
                                r,
                                c,
                            ));
                            assert(marked(proc_pre, wi@, r, c));
                            assert(in_queue(queue_iter0, idx));
                            let j = choose|j: int|
                                #![trigger queue_iter0[j]]
                                0 <= j < queue_iter0.len() && queue_iter0[j] == idx;
                            assert(point_queue@[j] == idx);
                        }
                    }
                    // the tree's edges still join tree cells
                    assert forall|r: int, c: int, d: u8|
                        cell_ok(r, c, wi@, hi@) && is_single(d) && #[trigger] has(
                            cell_bits(output@, wi@, r, c),
                            d,
                        ) implies marked(processed@, wi@, r, c) && marked(
                        processed@,
                        wi@,
                        r + drow(d),
                        c + dcol(d),
                    ) by {
                        lemma_index_bound(r, c, wi@, hi@);
                        assert(marked(proc_pre, wi@, r, c) && marked(
                            proc_pre,
                            wi@,
                            r + drow(d),
                            c + dcol(d),
                        ));
                        assert(dir_ok(d, r, c, wi@, hi@));
                        lemma_index_bound(r + drow(d), c + dcol(d), wi@, hi@);
                    }
                    // with the endpoint in the tree, every tree cell still
                    // reaches the start cell
                    if single && was_processed {
                        assert forall|r: int, c: int|
                            cell_ok(r, c, wi@, hi@) && #[trigger] marked(
                                processed@,
                                wi@,
                                r,
                                c,
                            ) implies reachable(output@, wi@, hi@, (sri, sci), (r, c)) by {
                            assert(marked(proc_pre, wi@, r, c));
                        }
                    }
                }
                if !was_processed {
                    let ghost output0 = output@;
                    proof {
                        // the edge cannot be in the tree yet: its far end
                        // was not
                        if has(cell_bits(output0, wi@, prow as int, pcol as int), edge.bits) {
                            assert(marked(proc_pre, wi@, erow as int, ecol as int));
                            assert(false);
                        }
                        if has(
                            cell_bits(output0, wi@, erow as int, ecol as int),
                            rev_bits(edge.bits),
                        ) {
                            assert(marked(proc_pre, wi@, erow as int, ecol as int));
                            assert(false);
                        }
                    }
                    add_edge(&mut output, width, height, prow, pcol, edge);
                    proof {
                        let pi = point_index as int;
                        let ei = endpoint as int;
                        // the output changed by exactly the two records of
                        // the committed edge
                        let expected = output0.update(
                            pi,
                            Neighbours {
                                bits: cell_bits(output0, wi@, prow as int, pcol as int)
                                    | edge.bits,
                            },
                        ).update(
                            ei,
                            Neighbours {
                                bits: cell_bits(output0, wi@, erow as int, ecol as int)
                                    | rev_bits(edge.bits),
                            },
                        );
                        assert(output@ =~= expected) by {
                            assert forall|j: int| 0 <= j < num implies output@[j] == expected[j] by {
                                crate::grid::lemma_flat_to_cell(j, wi@, hi@);
                                let r = j / wi@;
                                let c = j % wi@;
                                if j != pi && j != ei {
                                    if r == prow as int && c == pcol as int {
                                        assert(j == pi);
                                    }
                                    if r == erow as int && c == ecol as int {
                                        assert(j == ei);
                                    }
                                    assert(cell_bits(output@, wi@, r, c) == cell_bits(
                                        output0,
                                        wi@,
                                        r,
                                        c,
                                    ));
                                }
                            }
                        }
                        crate::grid::lemma_bits_total_update(
                            output0,
                            pi,
                            Neighbours {
                                bits: cell_bits(output0, wi@, prow as int, pcol as int)
                                    | edge.bits,
                            },
                        );
                        crate::grid::lemma_bits_total_update(
                            output0.update(
                                pi,
                                Neighbours {
                                    bits: cell_bits(output0, wi@, prow as int, pcol as int)
                                        | edge.bits,
                                },
                            ),
                            ei,
                            Neighbours {
                                bits: cell_bits(output0, wi@, erow as int, ecol as int)
                                    | rev_bits(edge.bits),
                            },
                        );
                        assert(bits_total(output@) == bits_total(output0) + 2);
                        // old edges persist, so old reachability persists
                        assert forall|r: int, c: int, d: u8|
                            cell_ok(r, c, wi@, hi@) && is_single(d) && #[trigger] has(
                                cell_bits(output0, wi@, r, c),
                                d,
                            ) implies has(cell_bits(output@, wi@, r, c), d) by {
                            lemma_index_bound(r, c, wi@, hi@);
                        }
                        // the committed edge joins two tree cells, and
                        // every older edge did already
                        assert forall|r: int, c: int, d: u8|
                            cell_ok(r, c, wi@, hi@) && is_single(d) && #[trigger] has(
                                cell_bits(output@, wi@, r, c),
                                d,
                            ) implies marked(processed@, wi@, r, c) && marked(
                            processed@,
                            wi@,
                            r + drow(d),
                            c + dcol(d),
                        ) by {
                            lemma_index_bound(r, c, wi@, hi@);
                            assert(dir_ok(d, r, c, wi@, hi@));
                            lemma_index_bound(r + drow(d), c + dcol(d), wi@, hi@);
                            if r == prow as int && c == pcol as int && d == edge.bits {
                                assert(marked(processed@, wi@, erow as int, ecol as int));
                            } else if r == erow as int && c == ecol as int && d == rev_bits(
                                edge.bits,
                            ) {
                                assert(r + drow(d) == prow as int && c + dcol(d) == pcol as int);
                                assert(marked(processed@, wi@, prow as int, pcol as int));
                            } else {
                                if r == prow as int && c == pcol as int {
                                    assert(cell_bits(output@, wi@, r, c) == cell_bits(
                                        output0,
                                        wi@,
                                        r,
                                        c,
                                    ) | edge.bits);
                                    assert(has(cell_bits(output0, wi@, r, c), d));
                                } else if r == erow as int && c == ecol as int {
                                    assert(cell_bits(output@, wi@, r, c) == cell_bits(
                                        output0,
                                        wi@,
                                        r,
                                        c,
                                    ) | rev_bits(edge.bits));
                                    assert(has(cell_bits(output0, wi@, r, c), d));
                                } else {
                                    assert(cell_bits(output@, wi@, r, c) == cell_bits(
                                        output0,
                                        wi@,
                                        r,
                                        c,
                                    ));
                                }
                                assert(marked(processed@, wi@, r, c) && marked(
                                    processed@,
                                    wi@,
                                    r + drow(d),
                                    c + dcol(d),
                                ));
                            }
                        }
                        if single {
                            assert forall|r: int, c: int|
                                cell_ok(r, c, wi@, hi@) && #[trigger] marked(
                                    processed@,
                                    wi@,
                                    r,
                                    c,
                                ) implies reachable(output@, wi@, hi@, (sri, sci), (r, c)) by {
                                if r == erow as int && c == ecol as int {
                                    crate::grid::lemma_reachable_grow(
                                        output0,
                                        output@,
                                        wi@,
                                        hi@,
                                        (sri, sci),
                                        (prow as int, pcol as int),
                                    );
                                    assert(has(
                                        cell_bits(output@, wi@, prow as int, pcol as int),
                                        edge.bits,
                                    ));
                                    assert(crate::grid::edge_between(
                                        output@,
                                        wi@,
                                        hi@,
                                        (prow as int, pcol as int),
                                        (r, c),
                                    ));
                                    crate::grid::lemma_reachable_step(
                                        output@,
                                        wi@,
                                        hi@,
                                        (sri, sci),
                                        (prow as int, pcol as int),
                                        (r, c),
                                    );
                                } else {
                                    lemma_index_bound(r, c, wi@, hi@);
                                    if r * wi@ + c == endpoint as int {
                                        crate::grid::lemma_index_injective(
                                            r,
                                            c,
                                            erow as int,
                                            ecol as int,
                                            wi@,
                                            hi@,
                                        );
                                    }
                                    assert(marked(proc_pre, wi@, r, c));
                                    crate::grid::lemma_reachable_grow(
                                        output0,
                                        output@,
                                        wi@,
                                        hi@,
                                        (sri, sci),
                                        (r, c),
                                    );
                                }
                            }
                        }
                    }
                    break;
                }
            }
            // a point with no edges left is finished; one with more goes
            // back on the queue for later
            let ghost queue_after = point_queue@;
            let finished = possible[point_index].is_empty();
            if !finished {
                point_queue.push(point_index);
            }
            proof {
                crate::grid::lemma_bits_total_nonneg(possible@);
                assert forall|r: int, c: int|
                    #![trigger marked(processed@, wi@, r, c), cell_bits(possible@, wi@, r, c)]
                    cell_ok(r, c, wi@, hi@) && marked(processed@, wi@, r, c) && cell_bits(
                        possible@,
                        wi@,
                        r,
                        c,
                    ) != 0 implies in_queue(point_queue@, r * wi@ + c) by {
                    lemma_index_bound(r, c, wi@, hi@);
                    let idx = r * wi@ + c;
                    if idx == point_index as int {
                        assert(!finished);
                        assert(point_queue@[point_queue@.len() - 1] == point_index);
                    } else {
                        assert(in_queue(queue_after, idx));
                        let j = choose|j: int|
                            #![trigger queue_after[j]]
                            0 <= j < queue_after.len() && queue_after[j] == idx;
                        assert(point_queue@[j] == idx);
                    }
                }
                assert forall|j: int| 0 <= j < point_queue@.len() implies processed@[
                    #[trigger] point_queue@[j] as int
                ] by {
                    if j < queue_after.len() {
                        assert(point_queue@[j] == queue_after[j]);
                    } else {
                        assert(point_queue@[j] == point_index);
                    }
                }
            }
        }
        proof {
            // the queue is drained: every tree cell has used up its
            // available edges, so all of each tree cell's in-grid
            // neighbours are tree cells too
            assert forall|r: int, c: int, d: u8|
                #![trigger marked(processed@, wi@, r, c), dir_ok(d, r, c, wi@, hi@)]
                cell_ok(r, c, wi@, hi@) && marked(processed@, wi@, r, c) && is_single(d) && dir_ok(
                    d,
                    r,
                    c,
                    wi@,
                    hi@,
                ) implies marked(processed@, wi@, r + drow(d), c + dcol(d)) by {
                lemma_index_bound(r, c, wi@, hi@);
                if cell_bits(possible@, wi@, r, c) != 0 {
                    assert(in_queue(point_queue@, r * wi@ + c));
                    let j = choose|j: int|
                        #![trigger point_queue@[j]]
                        0 <= j < point_queue@.len() && point_queue@[j] == r * wi@ + c;
                    assert(false);
                }
                crate::grid::lemma_mask_bits();
                assert(has(cell_bits(possible@, wi@, r, c), d) == false);
            }
            if single {
                // the tree cells are closed under grid adjacency and hold
                // the start cell, so they are all the cells
                assert forall|r: int, c: int| cell_ok(r, c, wi@, hi@) implies marked(
                    processed@,
                    wi@,
                    r,
                    c,
                ) by {
                    crate::grid::lemma_closed_set_covers_grid(
                        wi@,
                        hi@,
                        processed@,
                        sri,
                        sci,
                        r,
                        c,
                    );
                }
                assert forall|j: int| 0 <= j < num implies processed@[j] by {
                    crate::grid::lemma_flat_to_cell(j, wi@, hi@);
                    assert(marked(processed@, wi@, j / wi@, j % wi@));
                }
                crate::grid::lemma_count_true_full(processed@);
                assert(bits_total(output@) == 2 * (num - 1));
            }
        }
        Ok(output)
    }
}


} // verus!
