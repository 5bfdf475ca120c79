//! Colors with one byte per channel.
use vstd::prelude::*;

verus! {

/// An RGB color with one byte per channel.
#[derive(Clone, Copy, Debug, PartialEq, Eq, Structural)]
pub struct Color {
    pub r: u8,
    pub g: u8,
    pub b: u8,
}

/// A channel sum that stops at the largest byte.
pub open spec fn saturated(a: u8, b: u8) -> u8 {
    if a + b > 255 {
        255u8
    } else {
        (a + b) as u8
    }
}

impl Color {
    pub open spec fn channel(self, c: int) -> u8 {
        if c == 0 {
            self.r
        } else if c == 1 {
            self.g
        } else {
            self.b
        }
    }

    pub fn new(r: u8, g: u8, b: u8) -> (c: Color)
        ensures
            c.r == r,
            c.g == g,
            c.b == b,
    {
        Color { r, g, b }
    }

    /// The channels in the order red, green, blue.
    pub fn channels(self) -> (a: [u8; 3])
        ensures
            a@ == seq![self.r, self.g, self.b],
    {
        [self.r, self.g, self.b]
    }

    /// Channelwise sum, clamped to the largest channel value.
    pub fn add(self, rhs: Color) -> (c: Color)
        ensures
            c.r == saturated(self.r, rhs.r),
            c.g == saturated(self.g, rhs.g),
            c.b == saturated(self.b, rhs.b),
    {
        Color { r: self.r.saturating_add(rhs.r), g: self.g.saturating_add(rhs.g), b: self.b.saturating_add(rhs.b) }
    }

    /// Adds `rhs` in place, channelwise, clamped to the largest channel value.
    pub fn add_assign(&mut self, rhs: Color)
        ensures
            final(self).r == saturated(old(self).r, rhs.r),
            final(self).g == saturated(old(self).g, rhs.g),
            final(self).b == saturated(old(self).b, rhs.b),
    {
        self.r = self.r.saturating_add(rhs.r);
        self.g = self.g.saturating_add(rhs.g);
        self.b = self.b.saturating_add(rhs.b);
    }
}

} // verus!
