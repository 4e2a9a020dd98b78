//! Colour generators: the deterministic test cycle and the bounded
//! random walk, each able to derive an independent child generator for a
//! new branch of the tree walk.

use vstd::prelude::*;

use crate::dirs::Neighbours;
use crate::rng::{clone_rng, jump_of, jump_rng, long_jump_of, long_jump_rng, rand_range_u8};
use rand_xoshiro::Xoshiro128PlusPlus;

verus! {

/// One pixel's colour: a red, green and blue byte.
#[derive(Clone, Copy, PartialEq, Eq, Structural, Debug)]
pub struct Pixel {
    pub r: u8,
    pub g: u8,
    pub b: u8,
}

/// The colour the test generator hands out after `p`: red counts up
/// first, then green with red saturated, then blue, and pure white wraps
/// back to black.
pub open spec fn test_colour_next(p: Pixel) -> Pixel {
    if p.r == 255 && p.g == 255 && p.b == 255 {
        Pixel { r: 0, g: 0, b: 0 }
    } else if p.r == 255 && p.g == 255 {
        Pixel { r: 255, g: 255, b: (p.b + 1) as u8 }
    } else if p.r == 255 {
        Pixel { r: 255, g: (p.g + 1) as u8, b: p.b }
    } else {
        Pixel { r: (p.r + 1) as u8, g: p.g, b: p.b }
    }
}

/// The lowest value the random walk can move a channel at `old` to.
pub open spec fn chan_lo(old: u8, step: u8) -> u8 {
    if old >= step {
        (old - step) as u8
    } else {
        0
    }
}

/// One past the highest value the random walk can move a channel at
/// `old` to, saturated at the byte limit.
pub open spec fn chan_hi(old: u8, step: u8) -> u8 {
    if old + step <= 255 {
        (old + step) as u8
    } else {
        255
    }
}

/// What one random-walk draw may do to a channel: stay put when the step
/// is zero, else land in the saturated band around the old value.
pub open spec fn chan_ok(old: u8, new: u8, step: u8) -> bool {
    if step == 0 {
        new == old
    } else {
        chan_lo(old, step) <= new < chan_hi(old, step)
    }
}

/// What one random-walk draw may do to a pixel: every channel moves
/// within its band.
pub open spec fn rand_pixel_ok(old: Pixel, new: Pixel, step: u8) -> bool {
    chan_ok(old.r, new.r, step) && chan_ok(old.g, new.g, step) && chan_ok(old.b, new.b, step)
}

/// The deterministic test colour generator; it also serves as the test
/// tree generator.
#[derive(Clone, Copy, PartialEq, Eq, Structural, Debug)]
pub struct TestGen;

impl TestGen {
    /// The next colour of the deterministic cycle; the direction plays no
    /// part.
    pub fn colour(&mut self, old_colour: Pixel, _direction: Neighbours) -> (r: Pixel)
        ensures
            r == test_colour_next(old_colour),
    {
        if old_colour.r == 255 && old_colour.g == 255 && old_colour.b == 255 {
            Pixel { r: 0, g: 0, b: 0 }
        } else if old_colour.r == 255 && old_colour.g == 255 {
            Pixel { r: 255, g: 255, b: old_colour.b + 1 }
        } else if old_colour.r == 255 {
            Pixel { r: 255, g: old_colour.g + 1, b: old_colour.b }
        } else {
            Pixel { r: old_colour.r + 1, g: old_colour.g, b: old_colour.b }
        }
    }

    /// Derive a child generator: the test generator is stateless, so the
    /// child is a plain copy.
    pub fn new(&mut self) -> (r: TestGen)
        ensures
            r == TestGen,
            *final(self) == *old(self),
    {
        *self
    }
}

/// The bounded random-walk colour generator: each channel moves at most
/// `step_size` from its old value, drawn from an exclusively owned
/// xoshiro128++ stream.
pub struct RandColour {
    pub step_size: u8,
    pub rng: Xoshiro128PlusPlus,
}

impl RandColour {
    /// One bounded random-walk draw for a single channel.
    pub fn rand_channel(&mut self, value: u8, step_size: u8) -> (r: u8)
        ensures
            chan_ok(value, r, step_size),
            final(self).step_size == old(self).step_size,
    {
        let max = value.saturating_add(step_size);
        let min = value.saturating_sub(step_size);
        if min < max {
            rand_range_u8(&mut self.rng, min, max)
        } else {
            value
        }
    }

    /// Move every channel of the pixel one bounded random step; the
    /// direction plays no part.
    pub fn colour(&mut self, old_colour: Pixel, _direction: Neighbours) -> (r: Pixel)
        ensures
            rand_pixel_ok(old_colour, r, old(self).step_size),
            final(self).step_size == old(self).step_size,
    {
        let step = self.step_size;
        let red = self.rand_channel(old_colour.r, step);
        let green = self.rand_channel(old_colour.g, step);
        let blue = self.rand_channel(old_colour.b, step);
        Pixel { r: red, g: green, b: blue }
    }

    /// Derive a child generator with the same step size and an
    /// independent random stream: the child continues from the parent's
    /// state jumped a short distance, the parent itself long-jumps past
    /// it, so the two never overlap, and both are functions of the
    /// parent's old state alone.
    pub fn new(&mut self) -> (r: RandColour)
        ensures
            r.step_size == old(self).step_size,
            r.rng == jump_of(old(self).rng),
            final(self).step_size == old(self).step_size,
            final(self).rng == long_jump_of(old(self).rng),
    {
        let mut rng = clone_rng(&self.rng);
        long_jump_rng(&mut self.rng);
        jump_rng(&mut rng);
        RandColour { step_size: self.step_size, rng }
    }
}

/// The colour generator chosen for a run, dispatched by variant.
pub enum Colourer {
    Test(TestGen),
    Rand(RandColour),
}

/// What configures a colourer's behaviour: nothing for the test cycle,
/// the step size for the random walk.
pub open spec fn config_of(c: Colourer) -> Option<u8> {
    match c {
        Colourer::Test(_) => None,
        Colourer::Rand(rc) => Some(rc.step_size),
    }
}

/// What a colourer may hand out as the colour after `old` for the step
/// into a child cell.
pub open spec fn colour_step_ok(config: Option<u8>, old: Pixel, new: Pixel) -> bool {
    match config {
        None => new == test_colour_next(old),
        Some(step) => rand_pixel_ok(old, new, step),
    }
}

impl Colourer {
    /// The colour of the child cell entered along `direction` from a cell
    /// coloured `old_colour`.
    pub fn colour(&mut self, old_colour: Pixel, direction: Neighbours) -> (r: Pixel)
        ensures
            colour_step_ok(config_of(*old(self)), old_colour, r),
            config_of(*final(self)) == config_of(*old(self)),
    {
        match self {
            Colourer::Test(g) => g.colour(old_colour, direction),
            Colourer::Rand(g) => g.colour(old_colour, direction),
        }
    }

    /// Derive an independent child colourer for a new branch: a plain
    /// copy of the stateless test cycle, or a short-jumped child of the
    /// long-jumping random walk.
    pub fn new(&mut self) -> (r: Colourer)
        ensures
            config_of(r) == config_of(*old(self)),
            config_of(*final(self)) == config_of(*old(self)),
            *old(self) matches Colourer::Test(_) ==> r == *old(self) && *final(self) == *old(
                self,
            ),
            *old(self) matches Colourer::Rand(rc) ==> (r matches Colourer::Rand(child)
                && child.rng == jump_of(rc.rng)) && (*final(self) matches Colourer::Rand(parent)
                && parent.rng == long_jump_of(rc.rng)),
    {
        match self {
            Colourer::Test(g) => Colourer::Test(g.new()),
            Colourer::Rand(g) => Colourer::Rand(g.new()),
        }
    }
}

} // verus!
