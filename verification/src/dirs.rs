//! The eight compass directions a grid cell can connect to, kept as a bit
//! set in one byte, together with the geometry of moving along a direction.

use vstd::prelude::*;

verus! {

/// Bit for the pixel above, in the negative row direction.
pub const NORTH: u8 = 0x01;
/// Bit for the pixel above and to the right.
pub const NORTHEAST: u8 = 0x02;
/// Bit for the pixel to the right, in the positive column direction.
pub const EAST: u8 = 0x04;
/// Bit for the pixel below and to the right.
pub const SOUTHEAST: u8 = 0x08;
/// Bit for the pixel below, in the positive row direction.
pub const SOUTH: u8 = 0x10;
/// Bit for the pixel below and to the left.
pub const SOUTHWEST: u8 = 0x20;
/// Bit for the pixel to the left, in the negative column direction.
pub const WEST: u8 = 0x40;
/// Bit for the pixel above and to the left.
pub const NORTHWEST: u8 = 0x80;

/// North or northeast or northwest.
pub const NORTHWARD: u8 = 0x83;
/// South or southeast or southwest.
pub const SOUTHWARD: u8 = 0x38;
/// East or northeast or southeast.
pub const EASTWARD: u8 = 0x0E;
/// West or northwest or southwest.
pub const WESTWARD: u8 = 0xE0;

/// A set of directions towards neighbouring cells, including diagonals.
#[derive(Clone, Copy, PartialEq, Eq, Structural, Debug, Hash)]
pub struct Neighbours {
    pub bits: u8,
}

/// Does `d` hold exactly one direction?
pub open spec fn is_single(d: u8) -> bool {
    d == NORTH || d == NORTHEAST || d == EAST || d == SOUTHEAST || d == SOUTH
        || d == SOUTHWEST || d == WEST || d == NORTHWEST
}

/// Is the single direction `d` a member of the set `s`?
pub open spec fn has(s: u8, d: u8) -> bool {
    s & d != 0
}

/// Is every direction of `s` also in `m`?
pub open spec fn subset_of(s: u8, m: u8) -> bool {
    m & s == s
}

/// The geometric opposite of a single direction; `0` for anything else.
pub open spec fn rev_bits(d: u8) -> u8 {
    if d == NORTH {
        SOUTH
    } else if d == NORTHEAST {
        SOUTHWEST
    } else if d == EAST {
        WEST
    } else if d == SOUTHEAST {
        NORTHWEST
    } else if d == SOUTH {
        NORTH
    } else if d == SOUTHWEST {
        NORTHEAST
    } else if d == WEST {
        EAST
    } else if d == NORTHWEST {
        SOUTHEAST
    } else {
        0
    }
}

/// Row displacement of a single direction: negative is up.
pub open spec fn drow(d: u8) -> int {
    if d == NORTH || d == NORTHEAST || d == NORTHWEST {
        -1
    } else if d == SOUTH || d == SOUTHEAST || d == SOUTHWEST {
        1
    } else {
        0
    }
}

/// Column displacement of a single direction: negative is left.
pub open spec fn dcol(d: u8) -> int {
    if d == WEST || d == NORTHWEST || d == SOUTHWEST {
        -1
    } else if d == EAST || d == NORTHEAST || d == SOUTHEAST {
        1
    } else {
        0
    }
}

/// Position of a single direction in the canonical compass order.
pub open spec fn rank(d: u8) -> int {
    if d == NORTH {
        0
    } else if d == NORTHEAST {
        1
    } else if d == EAST {
        2
    } else if d == SOUTHEAST {
        3
    } else if d == SOUTH {
        4
    } else if d == SOUTHWEST {
        5
    } else if d == WEST {
        6
    } else {
        7
    }
}

/// The byte `b` rotated right by `n` bit positions, for `n < 8`.
pub open spec fn rotr8(b: u8, n: u32) -> u8 {
    if n == 0 {
        b
    } else {
        (b >> n) | (b << (8 - n) as u32)
    }
}

/// The byte `b` rotated left by `n` bit positions, for `n < 8`.
pub open spec fn rotl8(b: u8, n: u32) -> u8 {
    if n == 0 {
        b
    } else {
        (b << n) | (b >> (8 - n) as u32)
    }
}

/// How the single directions relate to the composite masks and to each
/// other as bits of one byte.
pub proof fn lemma_single_bits()
    by (bit_vector)
    ensures
        forall|d: u8| is_single(d) ==> (subset_of(d, NORTHWARD) <==> drow(d) == -1),
        forall|d: u8| is_single(d) ==> (subset_of(d, SOUTHWARD) <==> drow(d) == 1),
        forall|d: u8| is_single(d) ==> (subset_of(d, WESTWARD) <==> dcol(d) == -1),
        forall|d: u8| is_single(d) ==> (subset_of(d, EASTWARD) <==> dcol(d) == 1),
        forall|s: u8, d: u8| is_single(d) ==> (#[trigger] has(s | d, d)),
        forall|s: u8, d: u8, e: u8|
            is_single(d) && is_single(e) ==> (#[trigger] has(s | d, e) <==> has(s, e) || e == d),
        forall|s: u8, d: u8, e: u8|
            is_single(d) && is_single(e) ==> (#[trigger] has(s & !d, e) <==> has(s, e) && e != d),
        forall|d: u8| is_single(d) ==> is_single(rev_bits(d)) && rev_bits(rev_bits(d)) == d,
        forall|d: u8| is_single(d) ==> drow(rev_bits(d)) == -drow(d) && dcol(rev_bits(d)) == -dcol(d),
        forall|d: u8| is_single(d) ==> drow(d) != 0 || dcol(d) != 0,
        forall|d: u8| is_single(d) ==> is_single(#[trigger] rotr8(d, 2)),
{
}

/// How many directions a set holds.
pub open spec fn count_bits(b: u8) -> int {
    (b & 1) + ((b >> 1) & 1) + ((b >> 2) & 1) + ((b >> 3) & 1) + ((b >> 4) & 1) + ((b >> 5) & 1) + (
    (b >> 6) & 1) + ((b >> 7) & 1)
}

/// Removing a present direction shrinks the count by one; removing an
/// absent one changes nothing.
pub proof fn lemma_count_bits()
    by (bit_vector)
    ensures
        forall|b: u8| 0 <= #[trigger] count_bits(b) <= 8,
        forall|b: u8, d: u8|
            is_single(d) && has(b, d) ==> #[trigger] count_bits(b & !d) == count_bits(b) - 1,
        forall|b: u8, d: u8|
            is_single(d) && (has(b, d) == false) ==> #[trigger] count_bits(b & !d) == count_bits(b),
        forall|b: u8, d: u8|
            is_single(d) && (has(b, d) == false) ==> #[trigger] count_bits(b | d) == count_bits(b)
                + 1,
        forall|b: u8, d: u8| is_single(d) && #[trigger] has(b, d) ==> count_bits(b) >= 1,
        count_bits(0) == 0,
{
}

/// Two sets holding the same single directions are the same byte.
pub proof fn lemma_bits_ext(a: u8, b: u8)
    requires
        forall|d: u8| is_single(d) ==> (#[trigger] has(a, d) <==> has(b, d)),
    ensures
        a == b,
{
    assert(a == b) by (bit_vector)
        requires
            (has(a, NORTH) <==> has(b, NORTH)),
            (has(a, NORTHEAST) <==> has(b, NORTHEAST)),
            (has(a, EAST) <==> has(b, EAST)),
            (has(a, SOUTHEAST) <==> has(b, SOUTHEAST)),
            (has(a, SOUTH) <==> has(b, SOUTH)),
            (has(a, SOUTHWEST) <==> has(b, SOUTHWEST)),
            (has(a, WEST) <==> has(b, WEST)),
            (has(a, NORTHWEST) <==> has(b, NORTHWEST)),
    ;
}

impl Neighbours {
    /// The set with no directions.
    pub fn empty() -> (r: Neighbours)
        ensures
            r.bits == 0,
    {
        Neighbours { bits: 0 }
    }

    /// The set with all eight directions.
    pub fn all() -> (r: Neighbours)
        ensures
            r.bits == 0xFFu8,
    {
        Neighbours { bits: 0xFF }
    }

    /// Does the set hold no direction?
    pub fn is_empty(&self) -> (r: bool)
        ensures
            r <==> self.bits == 0,
    {
        self.bits == 0
    }

    /// Is every direction of `other` in `self`?
    pub fn contains(&self, other: Neighbours) -> (r: bool)
        ensures
            r <==> subset_of(other.bits, self.bits),
    {
        self.bits & other.bits == other.bits
    }

    /// Add every direction of `other` to the set.
    pub fn insert(&mut self, other: Neighbours)
        ensures
            final(self).bits == old(self).bits | other.bits,
    {
        self.bits = self.bits | other.bits;
    }

    /// Take every direction of `other` out of the set.
    pub fn remove(&mut self, other: Neighbours)
        ensures
            final(self).bits == old(self).bits & !other.bits,
    {
        self.bits = self.bits & !other.bits;
    }

    /// The directions of `self` that are not in `other`.
    pub fn difference(&self, other: Neighbours) -> (r: Neighbours)
        ensures
            r.bits == self.bits & !other.bits,
    {
        Neighbours { bits: self.bits & !other.bits }
    }

    /// Return the backwards version of a direction.
    ///
    /// Returns `None` if the set does not hold exactly one direction.
    pub fn reverse(self) -> (r: Option<Neighbours>)
        ensures
            is_single(self.bits) ==> r == Some(Neighbours { bits: rev_bits(self.bits) }),
            !is_single(self.bits) ==> r is None,
    {
        if self.bits == NORTH {
            Some(Neighbours { bits: SOUTH })
        } else if self.bits == NORTHEAST {
            Some(Neighbours { bits: SOUTHWEST })
        } else if self.bits == EAST {
            Some(Neighbours { bits: WEST })
        } else if self.bits == SOUTHEAST {
            Some(Neighbours { bits: NORTHWEST })
        } else if self.bits == SOUTH {
            Some(Neighbours { bits: NORTH })
        } else if self.bits == SOUTHWEST {
            Some(Neighbours { bits: NORTHEAST })
        } else if self.bits == WEST {
            Some(Neighbours { bits: EAST })
        } else if self.bits == NORTHWEST {
            Some(Neighbours { bits: SOUTHEAST })
        } else {
            None
        }
    }

    /// Move a point one cell in this direction.
    ///
    /// The composite northward/southward and westward/eastward masks decide
    /// the row and column deltas independently, so a diagonal direction
    /// moves both.
    pub fn step(self, pos: (u32, u32)) -> (r: (u32, u32))
        requires
            subset_of(self.bits, NORTHWARD) ==> pos.0 >= 1,
            !subset_of(self.bits, NORTHWARD) && subset_of(self.bits, SOUTHWARD) ==> pos.0
                < u32::MAX,
            subset_of(self.bits, WESTWARD) ==> pos.1 >= 1,
            !subset_of(self.bits, WESTWARD) && subset_of(self.bits, EASTWARD) ==> pos.1 < u32::MAX,
        ensures
            r.0 == if subset_of(self.bits, NORTHWARD) {
                pos.0 - 1
            } else if subset_of(self.bits, SOUTHWARD) {
                pos.0 + 1
            } else {
                pos.0 as int
            },
            r.1 == if subset_of(self.bits, WESTWARD) {
                pos.1 - 1
            } else if subset_of(self.bits, EASTWARD) {
                pos.1 + 1
            } else {
                pos.1 as int
            },
    {
        let (mut row, mut col) = pos;
        if NORTHWARD & self.bits == self.bits {
            row = row - 1;
        } else if SOUTHWARD & self.bits == self.bits {
            row = row + 1;
        }
        if WESTWARD & self.bits == self.bits {
            col = col - 1;
        } else if EASTWARD & self.bits == self.bits {
            col = col + 1;
        }
        (row, col)
    }

    /// Move a point one cell in this direction, with the point given as
    /// `usize` coordinates.
    pub fn step_usize(self, pos: (usize, usize)) -> (r: (usize, usize))
        requires
            subset_of(self.bits, NORTHWARD) ==> pos.0 >= 1,
            !subset_of(self.bits, NORTHWARD) && subset_of(self.bits, SOUTHWARD) ==> pos.0
                < usize::MAX,
            subset_of(self.bits, WESTWARD) ==> pos.1 >= 1,
            !subset_of(self.bits, WESTWARD) && subset_of(self.bits, EASTWARD) ==> pos.1
                < usize::MAX,
        ensures
            r.0 == if subset_of(self.bits, NORTHWARD) {
                pos.0 - 1
            } else if subset_of(self.bits, SOUTHWARD) {
                pos.0 + 1
            } else {
                pos.0 as int
            },
            r.1 == if subset_of(self.bits, WESTWARD) {
                pos.1 - 1
            } else if subset_of(self.bits, EASTWARD) {
                pos.1 + 1
            } else {
                pos.1 as int
            },
    {
        let (mut row, mut col) = pos;
        if NORTHWARD & self.bits == self.bits {
            row = row - 1;
        } else if SOUTHWARD & self.bits == self.bits {
            row = row + 1;
        }
        if WESTWARD & self.bits == self.bits {
            col = col - 1;
        } else if EASTWARD & self.bits == self.bits {
            col = col + 1;
        }
        (row, col)
    }

    /// Turn a direction anticlockwise by `places` steps of the compass
    /// order, which rotates the byte right.
    pub fn rotate_left(self, places: u32) -> (r: Option<Neighbours>)
        ensures
            r == Some(Neighbours { bits: rotr8(self.bits, places % 8) }),
    {
        let n: u32 = places % 8;
        let b: u8 = if n == 0 {
            self.bits
        } else {
            (self.bits >> n) | (self.bits << (8 - n))
        };
        Some(Neighbours { bits: b })
    }

    /// Turn a direction clockwise by `places` steps of the compass order,
    /// which rotates the byte left.
    pub fn rotate_right(self, places: u32) -> (r: Option<Neighbours>)
        ensures
            r == Some(Neighbours { bits: rotl8(self.bits, places % 8) }),
    {
        let n: u32 = places % 8;
        let b: u8 = if n == 0 {
            self.bits
        } else {
            (self.bits << n) | (self.bits >> (8 - n))
        };
        Some(Neighbours { bits: b })
    }

    /// The members of the set, one single direction each, in the canonical
    /// compass order.
    pub fn directions(self) -> (r: Vec<Neighbours>)
        ensures
            r@.len() <= 8,
            forall|i: int|
                0 <= i < r@.len() ==> is_single(#[trigger] r@[i].bits) && has(
                    self.bits,
                    r@[i].bits,
                ),
            forall|d: u8|
                is_single(d) && has(self.bits, d) ==> exists|i: int|
                    0 <= i < r@.len() && #[trigger] r@[i].bits == d,
            forall|i: int, j: int| 0 <= i < j < r@.len() ==> rank(r@[i].bits) < rank(r@[j].bits),
    {
        let mut v: Vec<Neighbours> = Vec::new();
        let ghost mut spots: Map<u8, int> = Map::empty();
        if self.bits & NORTH != 0 {
            v.push(Neighbours { bits: NORTH });
            proof {
                spots = spots.insert(NORTH, v@.len() - 1);
            }
        }
        if self.bits & NORTHEAST != 0 {
            v.push(Neighbours { bits: NORTHEAST });
            proof {
                spots = spots.insert(NORTHEAST, v@.len() - 1);
            }
        }
        if self.bits & EAST != 0 {
            v.push(Neighbours { bits: EAST });
            proof {
                spots = spots.insert(EAST, v@.len() - 1);
            }
        }
        if self.bits & SOUTHEAST != 0 {
            v.push(Neighbours { bits: SOUTHEAST });
            proof {
                spots = spots.insert(SOUTHEAST, v@.len() - 1);
            }
        }
        if self.bits & SOUTH != 0 {
            v.push(Neighbours { bits: SOUTH });
            proof {
                spots = spots.insert(SOUTH, v@.len() - 1);
            }
        }
        if self.bits & SOUTHWEST != 0 {
            v.push(Neighbours { bits: SOUTHWEST });
            proof {
                spots = spots.insert(SOUTHWEST, v@.len() - 1);
            }
        }
        if self.bits & WEST != 0 {
            v.push(Neighbours { bits: WEST });
            proof {
                spots = spots.insert(WEST, v@.len() - 1);
            }
        }
        if self.bits & NORTHWEST != 0 {
            v.push(Neighbours { bits: NORTHWEST });
            proof {
                spots = spots.insert(NORTHWEST, v@.len() - 1);
            }
        }
        proof {
            assert forall|d: u8| is_single(d) && has(self.bits, d) implies exists|i: int|
                0 <= i < v@.len() && #[trigger] v@[i].bits == d by {
                let i = spots[d];
                assert(0 <= i < v@.len() && v@[i].bits == d);
            }
        }
        v
    }

    /// Take the first direction of the canonical compass order out of the
    /// set and return it, or `None` if the set is empty.
    pub fn next(&mut self) -> (r: Option<Neighbours>)
        ensures
            r is None <==> old(self).bits == 0,
            old(self).bits == 0 ==> final(self).bits == 0,
            r matches Some(d) ==> is_single(d.bits) && has(old(self).bits, d.bits)
                && final(self).bits == old(self).bits & !d.bits && (forall|e: u8|
                is_single(e) && has(old(self).bits, e) ==> rank(d.bits) <= rank(e)),
    {
        let b: u8 = self.bits;
        let found: Option<u8> = if self.bits & NORTH != 0 {
            Some(NORTH)
        } else if self.bits & NORTHEAST != 0 {
            Some(NORTHEAST)
        } else if self.bits & EAST != 0 {
            Some(EAST)
        } else if self.bits & SOUTHEAST != 0 {
            Some(SOUTHEAST)
        } else if self.bits & SOUTH != 0 {
            Some(SOUTH)
        } else if self.bits & SOUTHWEST != 0 {
            Some(SOUTHWEST)
        } else if self.bits & WEST != 0 {
            Some(WEST)
        } else if self.bits & NORTHWEST != 0 {
            Some(NORTHWEST)
        } else {
            None
        };
        match found {
            Some(d) => {
                proof {
                    assert(b != 0) by (bit_vector)
                        requires
                            b & d != 0,
                    ;
                }
                self.bits = self.bits & !d;
                Some(Neighbours { bits: d })
            },
            None => {
                proof {
                    assert(b == 0) by (bit_vector)
                        requires
                            b & NORTH == 0,
                            b & NORTHEAST == 0,
                            b & EAST == 0,
                            b & SOUTHEAST == 0,
                            b & SOUTH == 0,
                            b & SOUTHWEST == 0,
                            b & WEST == 0,
                            b & NORTHWEST == 0,
                    ;
                }
                None
            },
        }
    }
}

} // verus!
