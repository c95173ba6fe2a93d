//! Colours with three 8-bit channels.

use vstd::prelude::*;
use crate::fixed::{clamp, floor_div, lemma_div_exact, wide_mul, ONE};

verus! {

/// A colour: red, green and blue, each from 0 to 255.
#[derive(Clone, Copy, Debug, PartialEq, Eq, Structural)]
pub struct Color {
    pub r: u8,
    pub g: u8,
    pub b: u8,
}

/// One channel multiplied by the scalar `t`, rounded down and limited to
/// the range of a channel.
pub open spec fn scale_channel(c: u8, t: int) -> u8 {
    clamp(c * t / (ONE as int), 0, 255) as u8
}

/// The sum of two channels, limited to the range of a channel.
pub open spec fn add_channel(a: u8, b: u8) -> u8 {
    if a + b > 255 {
        255u8
    } else {
        (a + b) as u8
    }
}

fn scale_one(c: u8, t: i64) -> (r: u8)
    ensures
        r == scale_channel(c, t as int),
{
    let product: i128 = wide_mul(c as i64, t);
    let q: i128 = floor_div(product, ONE as i128);
    if q < 0 {
        0
    } else if q > 255 {
        255
    } else {
        q as u8
    }
}

fn add_one(a: u8, b: u8) -> (r: u8)
    ensures
        r == add_channel(a, b),
{
    let sum: u16 = a as u16 + b as u16;
    if sum > 255 {
        255
    } else {
        sum as u8
    }
}

impl Color {
    /// This colour with each channel multiplied by the scalar `t`.
    pub open spec fn scaled(self, t: int) -> Color {
        Color {
            r: scale_channel(self.r, t),
            g: scale_channel(self.g, t),
            b: scale_channel(self.b, t),
        }
    }

    /// The channel-wise sum of two colours.
    pub open spec fn plus(self, other: Color) -> Color {
        Color {
            r: add_channel(self.r, other.r),
            g: add_channel(self.g, other.g),
            b: add_channel(self.b, other.b),
        }
    }

    /// Black.
    pub open spec fn black() -> Color {
        Color { r: 0, g: 0, b: 0 }
    }

    /// The colour with the given channels.
    pub fn new(r: u8, g: u8, b: u8) -> (c: Color)
        ensures
            c == (Color { r, g, b }),
    {
        Color { r, g, b }
    }

    /// Multiplies each channel by the scalar `t`; a channel that would leave
    /// the range from 0 to 255 stops at its end.
    pub fn scale(&self, t: i64) -> (c: Color)
        ensures
            c == self.scaled(t as int),
    {
        Color { r: scale_one(self.r, t), g: scale_one(self.g, t), b: scale_one(self.b, t) }
    }

    /// Adds two colours channel by channel; a channel stops at 255.
    pub fn add(&self, other: &Color) -> (c: Color)
        ensures
            c == self.plus(*other),
    {
        Color {
            r: add_one(self.r, other.r),
            g: add_one(self.g, other.g),
            b: add_one(self.b, other.b),
        }
    }
}

/// Scaling by one changes nothing, and scaling by zero gives black.
pub proof fn lemma_scale_unit(c: Color)
    ensures
        c.scaled(ONE as int) == c,
        c.scaled(0) == Color::black(),
{
    lemma_div_exact(c.r as int, ONE as int);
    lemma_div_exact(c.g as int, ONE as int);
    lemma_div_exact(c.b as int, ONE as int);
}

/// Black is neutral for the sum of colours.
pub proof fn lemma_plus_black(c: Color)
    ensures
        Color::black().plus(c) == c,
        c.plus(Color::black()) == c,
{
}

} // verus!
