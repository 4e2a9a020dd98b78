//! Procedural image generation by flood fill along a spanning tree.
//!
//! A grid of pixels is connected into a spanning structure by one of several
//! tree generators, boundary edges are pruned, and colours are propagated
//! from a root pixel along the tree edges.

use vstd::prelude::*;

pub mod colour;
pub mod dirs;
pub mod gen;
pub mod grid;
pub mod rng;
pub mod trees;
pub mod walk;

verus! {

/// The reasons an image generation attempt can fail.  Any of these aborts
/// the whole generation; there is no partial output.
#[derive(Clone, Copy, PartialEq, Eq, Structural, Debug)]
pub enum Error {
    /// `width * height` or an index product does not fit the index type.
    Dimension,
    /// A grid or tree index lay outside the allocated size.
    OutOfBounds,
    /// A direction value was empty or held more than one direction where a
    /// single one was needed.
    Geometry,
    /// A weighted random choice was asked of an empty direction set.
    Randomness,
}

} // verus!
