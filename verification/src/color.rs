//! Colors and the weighted distance between them.

use vstd::prelude::*;

verus! {

/// An 8-bit RGB color.
#[derive(Clone, Copy, Debug, PartialEq, Eq, Structural)]
pub struct Rgb {
    pub r: u8,
    pub g: u8,
    pub b: u8,
}

/// The square of `a - b`.
pub open spec fn square_diff(a: u8, b: u8) -> int {
    (a - b) * (a - b)
}

/// Luma-weighted squared distance between two colors, in units of 1/10000.
///
/// The channel differences are weighted by 0.3 (red), 0.59 (green) and
/// 0.11 (blue) before squaring, so the value here is
/// `10000 * ((0.3 dr)^2 + (0.59 dg)^2 + (0.11 db)^2)`, which is an integer.
pub open spec fn distance(a: Rgb, b: Rgb) -> int {
    900 * square_diff(a.r, b.r) + 3481 * square_diff(a.g, b.g) + 121 * square_diff(a.b, b.b)
}

fn channel_square_diff(a: u8, b: u8) -> (d: u64)
    ensures
        d == square_diff(a, b),
        d <= 65025,
{
    let lo: u64 = if a < b { a as u64 } else { b as u64 };
    let hi: u64 = if a < b { b as u64 } else { a as u64 };
    let delta: u64 = hi - lo;
    assert(delta * delta <= 65025) by (nonlinear_arith)
        requires delta <= 255;
    assert(delta * delta == (a - b) * (a - b)) by (nonlinear_arith)
        requires delta == a - b || delta == b - a;
    delta * delta
}

/// Computes [`distance`].
pub fn color_distance(a: Rgb, b: Rgb) -> (d: u64)
    ensures
        d == distance(a, b),
{
    900 * channel_square_diff(a.r, b.r) + 3481 * channel_square_diff(a.g, b.g) + 121
        * channel_square_diff(a.b, b.b)
}

} // verus!
