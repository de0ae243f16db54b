use vstd::prelude::*;

verus! {

use crate::raster::{ScreenPoint, FIXED_ONE};
use vstd::arithmetic::div_mod::{
    lemma_div_pos_is_pos, lemma_fundamental_div_mod, lemma_mod_bound, lemma_multiply_divide_le,
};

/// Division rounding toward zero.
pub open spec fn trunc_div(a: int, d: int) -> int {
    if a >= 0 { a / d } else { -((-a) / d) }
}

/// `a` clamped to the range of `i32`.
pub open spec fn saturate_i32(a: int) -> int {
    if a < i32::MIN { i32::MIN as int } else if a > i32::MAX { i32::MAX as int } else { a }
}

/// Pixel coordinate along an axis of length `own` for the normalised
/// coordinate `n` (fixed point, -1 to 1 spanning the square): the square of
/// side `min(own, other)` is centred along the longer axis, and the result
/// is truncated toward zero.
pub open spec fn pixel_spec(n: int, own: int, other: int) -> int {
    let m = if own < other { own } else { other };
    let off = if own > other { own - other } else { 0 };
    saturate_i32(trunc_div(m * (n + FIXED_ONE) + FIXED_ONE * off, 2 * FIXED_ONE))
}

fn to_pixel(n: i32, own: usize, other: usize) -> (r: i32)
    requires
        own <= 0x7fff_ffff,
        other <= 0x7fff_ffff,
    ensures
        r == pixel_spec(n as int, own as int, other as int),
{
    let m: i128 = if own < other { own as i128 } else { other as i128 };
    let off: i128 = if own > other { (own - other) as i128 } else { 0 };
    let one: i128 = FIXED_ONE as i128;
    assert(-0x8000_0000 * 0x7fff_ffff <= m * (n + one) <= 0x7fff_ffff * 0x1_0000_ffff) by (
    nonlinear_arith)
        requires
            0 <= m <= 0x7fff_ffff,
            -0x8000_0000 <= n <= 0x7fff_ffff,
            one == 65536,
    ;
    let num: i128 = m * (n as i128 + one) + one * off;
    let den: i128 = 2 * one;
    let q: i128 = if num >= 0 {
        ((num as u128) / (den as u128)) as i128
    } else {
        -((((-num) as u128) / (den as u128)) as i128)
    };
    if q < i32::MIN as i128 {
        i32::MIN
    } else if q > i32::MAX as i128 {
        i32::MAX
    } else {
        q as i32
    }
}

/// Maps a projected vertex from normalised fixed-point coordinates to the
/// pixels of a `size_x` by `size_y` grid, keeping its depth.
pub fn to_screen(nx: i32, ny: i32, depth: i32, size_x: usize, size_y: usize) -> (r: ScreenPoint)
    requires
        size_x <= 0x7fff_ffff,
        size_y <= 0x7fff_ffff,
    ensures
        r.x == pixel_spec(nx as int, size_x as int, size_y as int),
        r.y == pixel_spec(ny as int, size_y as int, size_x as int),
        r.depth == depth,
{
    ScreenPoint { x: to_pixel(nx, size_x, size_y), y: to_pixel(ny, size_y, size_x), depth }
}

/// Mirror-image points land symmetrically about the centre of the grid:
/// for normalised coordinates `n` and `-n` inside the square, the two pixel
/// coordinates add up to the axis length or one less.
pub proof fn lemma_mirror_pixels(n: int, own: int, other: int)
    requires
        -FIXED_ONE <= n <= FIXED_ONE,
        0 <= own <= 0x7fff_ffff,
        0 <= other <= 0x7fff_ffff,
    ensures
        own - 1 <= pixel_spec(n, own, other) + pixel_spec(-n, own, other) <= own,
{
    let m = if own < other { own } else { other };
    let off = if own > other { own - other } else { 0 };
    let f = FIXED_ONE as int;
    let a = m * (n + f) + f * off;
    let b = m * (-n + f) + f * off;
    assert(a >= 0 && b >= 0 && a + b == (m + off) * (2 * f)) by (nonlinear_arith)
        requires
            -f <= n <= f,
            m >= 0,
            off >= 0,
            f > 0,
            a == m * (n + f) + f * off,
            b == m * (-n + f) + f * off,
    ;
    lemma_fundamental_div_mod(a, 2 * f);
    lemma_fundamental_div_mod(b, 2 * f);
    lemma_mod_bound(a, 2 * f);
    lemma_mod_bound(b, 2 * f);
    assert((m + off) * (2 * f) == (2 * f) * (m + off)) by (nonlinear_arith);
    lemma_multiply_divide_le(a, 2 * f, m + off);
    lemma_multiply_divide_le(b, 2 * f, m + off);
    lemma_div_pos_is_pos(a, 2 * f);
    lemma_div_pos_is_pos(b, 2 * f);
    assert(m + off == own);
    assert((2 * f) * (a / (2 * f)) + (2 * f) * (b / (2 * f)) == (2 * f) * (a / (2 * f) + b / (2
        * f))) by (nonlinear_arith);
    assert((m + off) * (2 * f) == (2 * f) * (m + off)) by (nonlinear_arith);
    let s = a / (2 * f) + b / (2 * f);
    assert(own - 1 <= s <= own) by (nonlinear_arith)
        requires
            (2 * f) * s + a % (2 * f) + b % (2 * f) == (2 * f) * own,
            0 <= a % (2 * f) < 2 * f,
            0 <= b % (2 * f) < 2 * f,
            f > 0,
    ;
}

} // verus!
