//! The radial falloff of a stamped circle, in exact fixed-point arithmetic.
use vstd::prelude::*;

verus! {

/// Sub-pixel units per pixel: circle centres and radii are measured in
/// sixteenths of a pixel, so that pixel-centre sampling stays exact.
pub const SUBPIXEL: i64 = 16;

pub open spec fn sq(a: int) -> int {
    a * a
}

/// Offset, in sub-pixel units, from the centre of pixel column (or row) `x`
/// to the coordinate `c`.
pub open spec fn center_offset(c: int, x: int) -> int {
    c - (SUBPIXEL * x + SUBPIXEL / 2)
}

/// Squared distance, in sub-pixel units, from `(cx, cy)` to the centre of
/// pixel `(x, y)`.
pub open spec fn center_dist2(cx: int, cy: int, x: int, y: int) -> int {
    sq(center_offset(cx, x)) + sq(center_offset(cy, y))
}

/// The 8-bit contribution of a circle with squared radius `r2` at squared
/// distance `d2`: `255 * (1 - min((d2 / r2)^2, 1))`, rounded toward zero.
pub open spec fn contribution(d2: int, r2: int) -> int {
    if d2 >= r2 {
        0
    } else {
        255 * (r2 * r2 - d2 * d2) / (r2 * r2)
    }
}

/// What a circle centred at `(cx, cy)` with radius `r` adds to pixel `(x, y)`.
pub open spec fn stamp(cx: int, cy: int, r: int, x: int, y: int) -> int {
    contribution(center_dist2(cx, cy, x, y), r * r)
}

/// Addition of an intensity byte and a contribution, clamped at 255.
pub open spec fn saturating(a: int, b: int) -> u8 {
    if a + b >= 255 {
        255
    } else {
        (a + b) as u8
    }
}

proof fn lemma_contribution_bounds(d2: int, r2: int)
    requires
        0 <= d2 < r2,
    ensures
        0 <= contribution(d2, r2) <= 255,
{
    let n = r2 * r2 - d2 * d2;
    let b = r2 * r2;
    assert(d2 * d2 < r2 * r2 && 0 <= d2 * d2) by (nonlinear_arith)
        requires
            0 <= d2 < r2,
    ;
    assert(0 < n <= b);
    assert(0 <= 255 * n / b <= 255) by (nonlinear_arith)
        requires
            0 < n <= b,
    ;
}

/// A contribution never exceeds full intensity.
pub proof fn lemma_stamp_bounds(cx: int, cy: int, r: int, x: int, y: int)
    ensures
        0 <= stamp(cx, cy, r, x, y) <= 255,
{
    let d2 = center_dist2(cx, cy, x, y);
    assert(sq(center_offset(cx, x)) >= 0 && sq(center_offset(cy, y)) >= 0) by (nonlinear_arith);
    if d2 < r * r {
        lemma_contribution_bounds(d2, r * r);
    }
}

/// A pixel whose centre lies farther than `r` from the circle's centre along
/// either axis receives nothing.
pub proof fn lemma_stamp_outside(cx: int, cy: int, r: int, x: int, y: int)
    requires
        r >= 0,
        center_offset(cx, x) > r || -center_offset(cx, x) > r || center_offset(cy, y) > r
            || -center_offset(cy, y) > r,
    ensures
        stamp(cx, cy, r, x, y) == 0,
{
    let dx = center_offset(cx, x);
    let dy = center_offset(cy, y);
    assert(sq(dx) + sq(dy) > r * r) by (nonlinear_arith)
        requires
            r >= 0,
            dx > r || -dx > r || dy > r || -dy > r,
    ;
}

/// Computes `contribution(d2, r2)` for a squared radius that fits in 32 bits.
pub fn falloff(d2: u64, r2: u64) -> (v: u8)
    requires
        r2 < 0x1_0000_0000,
    ensures
        v == contribution(d2 as int, r2 as int),
{
    if d2 >= r2 {
        return 0;
    }
    proof {
        lemma_contribution_bounds(d2 as int, r2 as int);
        assert(d2 * d2 < r2 * r2 <= 0xffff_ffff * 0xffff_ffff) by (nonlinear_arith)
            requires
                d2 < r2,
                r2 < 0x1_0000_0000,
        ;
    }
    let b: u128 = (r2 as u128) * (r2 as u128);
    let a: u128 = (d2 as u128) * (d2 as u128);
    let v: u128 = 255 * (b - a) / b;
    v as u8
}

} // verus!
