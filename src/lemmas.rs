//! Laws that relate the operations on rasters and masks.
use crate::falloff::{center_offset, lemma_stamp_bounds, saturating, sq, stamp, SUBPIXEL};
use crate::raster::{circle_spec, fresh_mask, idx, lemma_index_distinct, MaskView, RasterView, set_spec};
use vstd::prelude::*;

verus! {

/// Writing a pixel and reading it back gives the written color, and every
/// other pixel reads as before.
pub proof fn lemma_set_then_get(r: RasterView, x: int, y: int, color: Seq<u8>, x2: int, y2: int)
    requires
        r.wf(),
        0 <= x < r.width,
        0 <= y < r.height,
        0 <= x2 < r.width,
        0 <= y2 < r.height,
        color.len() == 4,
    ensures
        set_spec(r, x, y, color).pixel(x, y) == color,
        (x2 != x || y2 != y) ==> set_spec(r, x, y, color).pixel(x2, y2) == r.pixel(x2, y2),
{
    let w = r.width as int;
    crate::raster::lemma_index_in_bounds(w, r.height as int, x, y);
    crate::raster::lemma_index_in_bounds(w, r.height as int, x2, y2);
    assert(set_spec(r, x, y, color).pixel(x, y) =~= color);
    if x2 != x || y2 != y {
        lemma_index_distinct(w, x2, y2, x, y);
        assert(set_spec(r, x, y, color).pixel(x2, y2) =~= r.pixel(x2, y2));
    }
}

/// Clearing a mask, whatever it held, gives the mask that a fresh wrap of its
/// raster gives; a circle stamped after it leaves exactly the circle's own
/// contribution at every pixel.
pub proof fn lemma_clear_is_fresh(m: MaskView, cx: int, cy: int, r: int)
    requires
        m.wf(),
    ensures
        fresh_mask(m.raster).wf(),
        fresh_mask(m.raster).raster == m.raster,
        forall|i: int|
            0 <= i < m.intensity.len() ==> #[trigger] circle_spec(
                fresh_mask(m.raster),
                cx,
                cy,
                r,
            ).intensity[i] == stamp(cx, cy, r, i % (m.raster.width as int), i / (m.raster.width as int)),
{
    let w = m.raster.width as int;
    assert forall|i: int| 0 <= i < m.intensity.len() implies #[trigger] circle_spec(
        fresh_mask(m.raster),
        cx,
        cy,
        r,
    ).intensity[i] == stamp(cx, cy, r, i % w, i / w) by {
        lemma_stamp_bounds(cx, cy, r, i % w, i / w);
    }
}

/// A circle centred at the centre of an `n` by `n` raster adds the same to
/// pixel `(x, y)` as to its quarter-turn image `(n - 1 - y, x)`.
pub proof fn lemma_circle_rotation_symmetric(n: int, r: int, x: int, y: int)
    requires
        0 <= x < n,
        0 <= y < n,
    ensures
        stamp(SUBPIXEL * n / 2, SUBPIXEL * n / 2, r, x, y) == stamp(
            SUBPIXEL * n / 2,
            SUBPIXEL * n / 2,
            r,
            n - 1 - y,
            x,
        ),
{
    let c = SUBPIXEL * n / 2;
    assert(center_offset(c, n - 1 - y) == -center_offset(c, y));
    let a = center_offset(c, y);
    assert(sq(-a) == sq(a)) by (nonlinear_arith);
}

/// On a square mask with nothing accumulated, a circle at the raster's
/// centre yields an intensity pattern unchanged by a quarter turn.
pub proof fn lemma_centered_circle_rotation(m: MaskView, r: int, x: int, y: int)
    requires
        m.wf(),
        m.raster.width == m.raster.height,
        m == fresh_mask(m.raster),
        0 <= x < m.raster.width,
        0 <= y < m.raster.width,
    ensures
        ({
            let n = m.raster.width as int;
            let c = SUBPIXEL * n / 2;
            let after = circle_spec(m, c, c, r).intensity;
            after[idx(n, x, y)] == after[idx(n, n - 1 - y, x)]
        }),
{
    let n = m.raster.width as int;
    lemma_circle_rotation_symmetric(n, r, x, y);
    crate::raster::lemma_index_in_bounds(n, n, x, y);
    crate::raster::lemma_index_in_bounds(n, n, n - 1 - y, x);
    crate::raster::lemma_index_pos(n, x, y);
    crate::raster::lemma_index_pos(n, n - 1 - y, x);
}

/// Stamping the same circle twice adds twice its contribution to every
/// pixel, saturating at 255.
pub proof fn lemma_circle_twice(m: MaskView, cx: int, cy: int, r: int)
    requires
        m.wf(),
    ensures
        ({
            let w = m.raster.width as int;
            let twice = circle_spec(circle_spec(m, cx, cy, r), cx, cy, r).intensity;
            &&& twice.len() == m.intensity.len()
            &&& forall|i: int|
                0 <= i < twice.len() ==> #[trigger] twice[i] == saturating(
                    m.intensity[i] as int,
                    2 * stamp(cx, cy, r, i % w, i / w),
                ) && twice[i] <= 255
        }),
{
    let w = m.raster.width as int;
    let twice = circle_spec(circle_spec(m, cx, cy, r), cx, cy, r).intensity;
    assert forall|i: int| 0 <= i < twice.len() implies #[trigger] twice[i] == saturating(
        m.intensity[i] as int,
        2 * stamp(cx, cy, r, i % w, i / w),
    ) && twice[i] <= 255 by {
        lemma_stamp_bounds(cx, cy, r, i % w, i / w);
    }
}

/// Taking the raster back out of a mask that was only wrapped around it
/// gives the raster unchanged.
pub proof fn lemma_unwrap_fresh(r: RasterView)
    requires
        r.wf(),
    ensures
        fresh_mask(r).raster == r,
        fresh_mask(r).wf(),
{
}

} // verus!
