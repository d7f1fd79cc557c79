//! Colours and the distance between them.

use vstd::prelude::*;

verus! {

/// Three independent 8-bit channels. There is no alpha channel.
#[derive(Clone, Copy, Hash, PartialEq, Eq, Structural, PartialOrd, Ord, Debug)]
pub struct Color {
    pub red: u8,
    pub green: u8,
    pub blue: u8,
}

/// The absolute difference of two channel values.
pub open spec fn channel_gap(a: u8, b: u8) -> int {
    if a <= b {
        b - a
    } else {
        a - b
    }
}

/// The Manhattan distance of two colours: the sum of the absolute differences
/// of their channels.
pub open spec fn distance(a: Color, b: Color) -> int {
    channel_gap(a.red, b.red) + channel_gap(a.green, b.green) + channel_gap(a.blue, b.blue)
}

/// The largest distance that two colours can have.
pub const MAX_DISTANCE: u32 = 765;

/// The absolute difference of two channel values.
fn gap(a: u8, b: u8) -> (d: u32)
    ensures
        d == channel_gap(a, b),
{
    if a <= b {
        (b - a) as u32
    } else {
        (a - b) as u32
    }
}

impl Color {
    /// The colour of these three channel values.
    pub fn new(red: u8, green: u8, blue: u8) -> (color: Self)
        ensures
            color == (Color { red, green, blue }),
    {
        Self { red, green, blue }
    }

    /// The Manhattan distance from `self` to `other`.
    pub fn difference_to(&self, other: &Self) -> (d: u32)
        ensures
            d == distance(*self, *other),
            d <= MAX_DISTANCE,
    {
        gap(self.red, other.red) + gap(self.green, other.green) + gap(self.blue, other.blue)
    }
}

/// The distance is symmetric.
pub proof fn lemma_distance_symmetric(a: Color, b: Color)
    ensures
        distance(a, b) == distance(b, a),
{
}

/// A colour has distance zero to itself, and to no other colour.
pub proof fn lemma_distance_zero(a: Color, b: Color)
    ensures
        distance(a, a) == 0,
        distance(a, b) == 0 <==> a == b,
{
}

/// The distance lies between 0 and `MAX_DISTANCE`.
pub proof fn lemma_distance_bounds(a: Color, b: Color)
    ensures
        0 <= distance(a, b) <= MAX_DISTANCE,
{
}

/// The distance obeys the triangle inequality.
pub proof fn lemma_distance_triangle(a: Color, b: Color, c: Color)
    ensures
        distance(a, c) <= distance(a, b) + distance(b, c),
{
}

} // verus!
