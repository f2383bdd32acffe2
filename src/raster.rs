//! An RGBA pixel buffer and an intensity mask that is stamped with circles and
//! composited over it.
use crate::falloff::{
    center_dist2, center_offset, falloff, lemma_stamp_outside, saturating, stamp, SUBPIXEL,
};
use vstd::arithmetic::div_mod::lemma_fundamental_div_mod;
use vstd::prelude::*;

verus! {

/// The mathematical value of a [`Raster`].
pub struct RasterView {
    pub width: nat,
    pub height: nat,
    /// Row-major, four bytes (R, G, B, A) per pixel.
    pub pixels: Seq<u8>,
}

impl RasterView {
    pub open spec fn wf(self) -> bool {
        &&& self.width <= u32::MAX
        &&& self.height <= u32::MAX
        &&& self.pixels.len() == self.width * self.height * 4
    }

    /// Offset of the first byte of pixel `(x, y)`.
    pub open spec fn offset(self, x: int, y: int) -> int {
        (y * self.width + x) * 4
    }

    /// The four bytes of pixel `(x, y)`.
    pub open spec fn pixel(self, x: int, y: int) -> Seq<u8> {
        self.pixels.subrange(self.offset(x, y), self.offset(x, y) + 4)
    }
}

/// A raster image of `width * height` RGBA pixels.
pub struct Raster {
    width: u32,
    height: u32,
    pixels: Vec<u8>,
}

impl View for Raster {
    type V = RasterView;

    closed spec fn view(&self) -> RasterView {
        RasterView { width: self.width as nat, height: self.height as nat, pixels: self.pixels@ }
    }
}

/// `r` with pixel `(x, y)` set to `color`.
pub open spec fn set_spec(r: RasterView, x: int, y: int, color: Seq<u8>) -> RasterView {
    let o = r.offset(x, y);
    RasterView {
        width: r.width,
        height: r.height,
        pixels: Seq::new(
            r.pixels.len(),
            |k: int|
                if o <= k < o + 4 {
                    color[k - o]
                } else {
                    r.pixels[k]
                },
        ),
    }
}

/// A buffer of `n` pixels, each of them `color`.
pub open spec fn filled(n: nat, color: Seq<u8>) -> Seq<u8> {
    Seq::new(n * 4, |i: int| color[i % 4])
}

pub proof fn lemma_index_in_bounds(w: int, h: int, x: int, y: int)
    requires
        0 <= x < w,
        0 <= y < h,
    ensures
        0 <= y * w + x < w * h,
        (y * w + x) * 4 + 4 <= w * h * 4,
{
    assert(0 <= y * w + x < w * h) by (nonlinear_arith)
        requires
            0 <= x < w,
            0 <= y < h,
    ;
}

/// The pixel index of a grid cell identifies it: the cell is recovered as
/// remainder and quotient of the index by the width.
pub proof fn lemma_index_pos(w: int, x: int, y: int)
    requires
        0 <= x < w,
        0 <= y,
    ensures
        idx(w, x, y) % w == x,
        idx(w, x, y) / w == y,
{
    vstd::arithmetic::div_mod::lemma_fundamental_div_mod_converse(idx(w, x, y), w, y, x);
}

pub proof fn lemma_index_distinct(w: int, x: int, y: int, x2: int, y2: int)
    requires
        0 <= x < w,
        0 <= x2 < w,
        0 <= y,
        0 <= y2,
        x != x2 || y != y2,
    ensures
        y * w + x != y2 * w + x2,
{
    if y < y2 {
        assert(y * w + x < y2 * w + x2) by (nonlinear_arith)
            requires
                0 <= x < w,
                0 <= x2,
                y < y2,
        ;
    } else if y2 < y {
        assert(y2 * w + x2 < y * w + x) by (nonlinear_arith)
            requires
                0 <= x2 < w,
                0 <= x,
                y2 < y,
        ;
    }
}

impl Raster {
    /// Create a raster of `width * height` pixels, each set to `color`.
    pub fn new(width: u32, height: u32, color: [u8; 4]) -> (r: Raster)
        requires
            width as nat * height as nat * 4 <= usize::MAX,
        ensures
            r@.wf(),
            r@.width == width,
            r@.height == height,
            r@.pixels == filled((width * height) as nat, color@),
            forall|x: int, y: int|
                0 <= x < width && 0 <= y < height ==> #[trigger] r@.pixel(x, y) == color@,
    {
        let len: usize = width as usize * height as usize;
        let mut pixels: Vec<u8> = Vec::with_capacity(len * 4);
        let mut i: usize = 0;
        while i < len
            invariant
                len == width * height,
                len * 4 <= usize::MAX,
                i <= len,
                pixels@ == filled(i as nat, color@),
            decreases len - i,
        {
            pixels.push(color[0]);
            pixels.push(color[1]);
            pixels.push(color[2]);
            pixels.push(color[3]);
            i = i + 1;
            assert(pixels@ =~= filled(i as nat, color@));
        }
        let r = Raster { width, height, pixels };
        assert forall|x: int, y: int| 0 <= x < width && 0 <= y < height implies #[trigger] r@.pixel(
            x,
            y,
        ) == color@ by {
            lemma_index_in_bounds(width as int, height as int, x, y);
            assert(r@.pixel(x, y) =~= color@);
        }
        r
    }

    /// Raster width in pixels.
    pub fn width(&self) -> (w: u32)
        ensures
            w == self@.width,
    {
        self.width
    }

    /// Raster height in pixels.
    pub fn height(&self) -> (h: u32)
        ensures
            h == self@.height,
    {
        self.height
    }

    /// Offset of the first byte of pixel `(x, y)` in the pixel data.
    fn offset(&self, x: u32, y: u32) -> (i: usize)
        requires
            self@.wf(),
            x < self@.width,
            y < self@.height,
        ensures
            i == self@.offset(x as int, y as int),
            i + 4 <= self@.pixels.len(),
    {
        proof {
            lemma_index_in_bounds(self.width as int, self.height as int, x as int, y as int);
        }
        let len = self.pixels.len();
        assert(y * self.width <= y * self.width + x);
        let i: usize = (y as usize * self.width as usize + x as usize) * 4;
        i
    }

    /// Set the color of pixel `(x, y)`; no other byte changes.
    pub fn set(&mut self, x: u32, y: u32, color: [u8; 4])
        requires
            old(self)@.wf(),
            x < old(self)@.width,
            y < old(self)@.height,
        ensures
            final(self)@.wf(),
            final(self)@.width == old(self)@.width,
            final(self)@.height == old(self)@.height,
            final(self)@ == set_spec(old(self)@, x as int, y as int, color@),
    {
        let i = self.offset(x, y);
        self.pixels.set(i, color[0]);
        self.pixels.set(i + 1, color[1]);
        self.pixels.set(i + 2, color[2]);
        self.pixels.set(i + 3, color[3]);
        assert(self.pixels@ =~= set_spec(old(self)@, x as int, y as int, color@).pixels);
    }

    /// The color of pixel `(x, y)`.
    pub fn get(&self, x: u32, y: u32) -> (c: [u8; 4])
        requires
            self@.wf(),
            x < self@.width,
            y < self@.height,
        ensures
            c@ == self@.pixel(x as int, y as int),
    {
        let i = self.offset(x, y);
        let c = [self.pixels[i], self.pixels[i + 1], self.pixels[i + 2], self.pixels[i + 3]];
        assert(c@ =~= self@.pixel(x as int, y as int));
        c
    }

    /// The pixel data, row-major RGBA.
    pub fn pixels(&self) -> (p: &[u8])
        ensures
            p@ == self@.pixels,
    {
        self.pixels.as_slice()
    }
}

/// The mathematical value of a [`Mask`].
pub struct MaskView {
    pub raster: RasterView,
    /// One accumulated opacity byte per pixel, row-major.
    pub intensity: Seq<u8>,
}

impl MaskView {
    pub open spec fn wf(self) -> bool {
        &&& self.raster.wf()
        &&& self.intensity.len() == self.raster.width * self.raster.height
    }
}

/// A mask over `r` with no intensity accumulated.
pub open spec fn fresh_mask(r: RasterView) -> MaskView {
    MaskView { raster: r, intensity: Seq::new(r.width * r.height, |i: int| 0u8) }
}

/// The mask `m` after a circle centred at `(cx, cy)` with radius `r` (all in
/// sub-pixel units) is stamped into it.
pub open spec fn circle_spec(m: MaskView, cx: int, cy: int, r: int) -> MaskView {
    let w = m.raster.width as int;
    MaskView {
        raster: m.raster,
        intensity: Seq::new(
            m.intensity.len(),
            |i: int| saturating(m.intensity[i] as int, stamp(cx, cy, r, i % w, i / w)),
        ),
    }
}

/// Index of pixel `(x, y)` in row-major data of width `w`.
pub open spec fn idx(w: int, x: int, y: int) -> int {
    y * w + x
}

/// The four bytes of pixel `i` of row-major RGBA data.
pub open spec fn pixel_at(p: Seq<u8>, i: int) -> (u8, u8, u8, u8) {
    (p[4 * i], p[4 * i + 1], p[4 * i + 2], p[4 * i + 3])
}

/// Whether `out` is a correct result of compositing `color` at opacity `alpha`
/// over `dst`: unchanged at opacity 0, the opaque color at opacity 255, and
/// otherwise what `blend` gives for source and destination.
pub open spec fn composited<F: Fn((u8, u8, u8, u8), (u8, u8, u8, u8)) -> (u8, u8, u8, u8)>(
    color: Seq<u8>,
    alpha: u8,
    dst: (u8, u8, u8, u8),
    out: (u8, u8, u8, u8),
    blend: F,
) -> bool {
    if alpha == 0 {
        out == dst
    } else if alpha == 255 {
        out == (color[0], color[1], color[2], 255u8)
    } else {
        call_ensures(blend, ((color[0], color[1], color[2], alpha), dst), out)
    }
}

/// An intensity mask over an owned raster.
pub struct Mask {
    raster: Raster,
    pixels: Vec<u8>,
}

impl View for Mask {
    type V = MaskView;

    closed spec fn view(&self) -> MaskView {
        MaskView { raster: self.raster@, intensity: self.pixels@ }
    }
}

impl From<Mask> for Raster {
    /// Take the raster back out of a mask.
    fn from(mask: Mask) -> (r: Raster)
        ensures
            r@ == mask@.raster,
    {
        mask.raster
    }
}

impl vstd::std_specs::convert::FromSpecImpl<Mask> for Raster {
    open spec fn obeys_from_spec() -> bool {
        true
    }

    closed spec fn from_spec(m: Mask) -> Raster {
        m.raster
    }
}

/// The pixel span `[lo, hi)` along one axis that a circle at `c` with radius
/// `r` can reach, clipped to `[0, n)`.
fn span(c: i64, r: i64, n: i64) -> (res: (i64, i64))
    requires
        -0x8000_0000 <= c < 0x8000_0000,
        0 <= r < 0x1_0000,
        0 <= n <= u32::MAX,
    ensures
        0 <= res.0 <= res.1 <= n,
        forall|x: int| 0 <= x < res.0 ==> center_offset(c as int, x) > r,
        forall|x: int| res.1 <= x < n ==> -center_offset(c as int, x) > r,
        forall|x: int|
            res.0 <= x < res.1 ==> -(r + SUBPIXEL) <= #[trigger] center_offset(c as int, x)
                <= r + SUBPIXEL,
{
    let lo: i64 = if c - r < 0 {
        0
    } else {
        let q: i64 = ((c - r) as u64 / SUBPIXEL as u64) as i64;
        if q < n {
            q
        } else {
            n
        }
    };
    let hi: i64 = if c + r <= 0 {
        0
    } else {
        let q: i64 = ((c + r + SUBPIXEL - 1) as u64 / SUBPIXEL as u64) as i64;
        if q < n {
            q
        } else {
            n
        }
    };
    proof {
        if c - r >= 0 {
            assert(16 * ((c - r) / 16) <= c - r < 16 * ((c - r) / 16) + 16);
        }
        if c + r > 0 {
            assert(16 * ((c + r + 15) / 16) <= c + r + 15 < 16 * ((c + r + 15) / 16) + 16);
        }
    }
    (lo, if hi < lo { lo } else { hi })
}

impl Mask {
    /// Create a mask over `raster`, with no intensity accumulated.
    pub fn new(raster: Raster) -> (m: Self)
        requires
            raster@.wf(),
        ensures
            m@ == fresh_mask(raster@),
            m@.wf(),
    {
        let bytes: usize = raster.pixels.len();
        let len: usize = raster.width as usize * raster.height as usize;
        let pixels: Vec<u8> = vec![0u8; len];
        let m = Mask { raster, pixels };
        assert(m@.intensity =~= fresh_mask(raster@).intensity);
        m
    }

    /// Mask width in pixels.
    pub fn width(&self) -> (w: u32)
        ensures
            w == self@.raster.width,
    {
        self.raster.width()
    }

    /// Mask height in pixels.
    pub fn height(&self) -> (h: u32)
        ensures
            h == self@.raster.height,
    {
        self.raster.height()
    }

    /// Reset every intensity to zero; the raster is untouched.
    pub fn clear(&mut self)
        requires
            old(self)@.wf(),
        ensures
            final(self)@ == fresh_mask(old(self)@.raster),
            final(self)@.wf(),
    {
        let len: usize = self.pixels.len();
        let mut i: usize = 0;
        while i < len
            invariant
                len == self.pixels@.len(),
                self.raster == old(self).raster,
                self.pixels@.len() == old(self).pixels@.len(),
                i <= len,
                forall|j: int| 0 <= j < i ==> self.pixels@[j] == 0u8,
            decreases len - i,
        {
            self.pixels.set(i, 0);
            i = i + 1;
        }
        assert(self@.intensity =~= fresh_mask(old(self)@.raster).intensity);
    }

    /// Stamp a radially attenuated circle centred at `(cx, cy)` with radius
    /// `r`, all in sub-pixel units: each pixel gains, with saturation at 255,
    /// the falloff at its centre.
    pub fn circle(&mut self, cx: i32, cy: i32, r: u16)
        requires
            old(self)@.wf(),
        ensures
            final(self)@ == circle_spec(old(self)@, cx as int, cy as int, r as int),
            final(self)@.wf(),
    {
        let w: i64 = self.raster.width() as i64;
        let h: i64 = self.raster.height() as i64;
        let (x0, x1) = span(cx as i64, r as i64, w);
        let (y0, y1) = span(cy as i64, r as i64, h);
        proof {
            assert(r * r < 0x1_0000_0000) by (nonlinear_arith)
                requires
                    r < 0x1_0000,
            ;
        }
        let r2: u64 = r as u64 * r as u64;
        let ghost old_i = self.pixels@;
        let ghost (gcx, gcy, gr) = (cx as int, cy as int, r as int);
        let mut y: i64 = y0;
        while y < y1
            invariant
                self.raster == old(self).raster,
                self@.wf(),
                old_i.len() == self.pixels@.len(),
                w == self@.raster.width,
                h == self@.raster.height,
                r2 == gr * gr,
                gcx == cx,
                gcy == cy,
                gr == r,
                0 <= x0 <= x1 <= w,
                0 <= y0 <= y <= y1 <= h,
                forall|x: int|
                    x0 <= x < x1 ==> -(gr + SUBPIXEL) <= #[trigger] center_offset(gcx, x) <= gr
                        + SUBPIXEL,
                forall|y: int|
                    y0 <= y < y1 ==> -(gr + SUBPIXEL) <= #[trigger] center_offset(gcy, y) <= gr
                        + SUBPIXEL,
                forall|px: int, py: int|
                    0 <= px < w && 0 <= py < h ==> #[trigger] self.pixels@[idx(w as int, px, py)]
                        == if x0 <= px < x1 && y0 <= py < y {
                        saturating(old_i[idx(w as int, px, py)] as int, stamp(gcx, gcy, gr, px, py))
                    } else {
                        old_i[idx(w as int, px, py)]
                    },
            decreases y1 - y,
        {
            let dy: i64 = cy as i64 - (SUBPIXEL * y + SUBPIXEL / 2);
            assert(dy == center_offset(gcy, y as int));
            let mut x: i64 = x0;
            while x < x1
                invariant
                    self.raster == old(self).raster,
                    self@.wf(),
                    old_i.len() == self.pixels@.len(),
                    w == self@.raster.width,
                    h == self@.raster.height,
                    r2 == gr * gr,
                gcx == cx,
                gcy == cy,
                gr == r,
                    0 <= x0 <= x <= x1 <= w,
                    0 <= y0 <= y < y1 <= h,
                    dy == center_offset(gcy, y as int),
                    -(gr + SUBPIXEL) <= dy <= gr + SUBPIXEL,
                    forall|x: int|
                        x0 <= x < x1 ==> -(gr + SUBPIXEL) <= #[trigger] center_offset(gcx, x) <= gr
                            + SUBPIXEL,
                    forall|px: int, py: int|
                        0 <= px < w && 0 <= py < h ==> #[trigger] self.pixels@[idx(w as int, px, py)]
                            == if (x0 <= px < x1 && y0 <= py < y) || (py == y && x0 <= px < x) {
                            saturating(old_i[idx(w as int, px, py)] as int, stamp(gcx, gcy, gr, px, py))
                        } else {
                            old_i[idx(w as int, px, py)]
                        },
                decreases x1 - x,
            {
                let dx: i64 = cx as i64 - (SUBPIXEL * x + SUBPIXEL / 2);
                assert(dx == center_offset(gcx, x as int));
                proof {
                    assert(dx * dx + dy * dy <= 2 * (gr + 16) * (gr + 16)) by (nonlinear_arith)
                        requires
                            -(gr + 16) <= dx <= gr + 16,
                            -(gr + 16) <= dy <= gr + 16,
                    ;
                    assert(0 <= dx * dx && 0 <= dy * dy) by (nonlinear_arith);
                    assert(gr * gr < 0x1_0000_0000) by (nonlinear_arith)
                        requires
                            0 <= gr < 0x1_0000,
                    ;
                    assert(2 * (gr + 16) * (gr + 16) < 0x1_0000_0000_0000) by (nonlinear_arith)
                        requires
                            0 <= gr < 0x1_0000,
                    ;
                    lemma_index_in_bounds(w as int, h as int, x as int, y as int);
                }
                let d2: u64 = (dx * dx + dy * dy) as u64;
                assert(d2 == center_dist2(gcx, gcy, x as int, y as int));
                let v: u8 = falloff(d2, r2);
                let total: usize = self.pixels.len();
                let k: usize = y as usize * w as usize + x as usize;
                assert(k == idx(w as int, x as int, y as int));
                let cur: u8 = self.pixels[k];
                assert(cur == old_i[k as int]);
                let ghost prev = self.pixels@;
                self.pixels.set(k, cur.saturating_add(v));
                proof {
                    assert(v == stamp(gcx, gcy, gr, x as int, y as int));
                    assert forall|px: int, py: int| 0 <= px < w && 0 <= py < h
                        implies #[trigger] self.pixels@[idx(w as int, px, py)] == if (x0 <= px < x1
                        && y0 <= py < y) || (py == y && x0 <= px < x + 1) {
                        saturating(old_i[idx(w as int, px, py)] as int, stamp(gcx, gcy, gr, px, py))
                    } else {
                        old_i[idx(w as int, px, py)]
                    } by {
                        if px != x || py != y {
                            lemma_index_distinct(w as int, px, py, x as int, y as int);
                            lemma_index_in_bounds(w as int, h as int, px, py);
                            assert(self.pixels@[idx(w as int, px, py)] == prev[idx(w as int, px, py)]);
                        }
                    }
                }
                x = x + 1;
            }
            y = y + 1;
        }
        proof {
            assert forall|px: int, py: int| 0 <= px < w && 0 <= py < h
                implies #[trigger] self.pixels@[idx(w as int, px, py)] == saturating(
                old_i[idx(w as int, px, py)] as int, stamp(gcx, gcy, gr, px, py)) by {
                if !(x0 <= px < x1 && y0 <= py < y1) {
                    lemma_stamp_outside(gcx, gcy, gr, px, py);
                }
            }
            let target = circle_spec(old(self)@, gcx, gcy, gr).intensity;
            let gw = w as int;
            assert forall|i: int| 0 <= i < self.pixels@.len() implies self.pixels@[i] == target[i] by {
                assert(gw > 0) by (nonlinear_arith)
                    requires
                        0 <= i < gw * h,
                        0 <= gw,
                        0 <= h,
                ;
                lemma_fundamental_div_mod(i, gw);
                assert(0 <= i % gw < gw);
                assert(0 <= i / gw < h) by (nonlinear_arith)
                    requires
                        0 <= i < gw * h,
                        gw > 0,
                        i == gw * (i / gw) + i % gw,
                        0 <= i % gw < gw,
                ;
                assert(idx(gw, i % gw, i / gw) == i) by (nonlinear_arith)
                    requires
                        i == gw * (i / gw) + i % gw,
                ;
            }
            assert(self.pixels@ =~= target);
        }
    }

    /// Composite the mask over its raster, each intensity being the opacity
    /// of the flat color `clr` at that pixel. A pixel of opacity 0 is left as
    /// it is and one of opacity 255 becomes `clr`, opaque; any other is
    /// replaced by what `blend` gives for the source `(clr, opacity)` and the
    /// destination pixel. The intensities are left as they are.
    pub fn composite<F: Fn((u8, u8, u8, u8), (u8, u8, u8, u8)) -> (u8, u8, u8, u8)>(
        &mut self,
        clr: [u8; 3],
        blend: F,
    )
        requires
            old(self)@.wf(),
            forall|s: (u8, u8, u8, u8), d: (u8, u8, u8, u8)| call_requires(blend, (s, d)),
        ensures
            final(self)@.wf(),
            final(self)@.intensity == old(self)@.intensity,
            final(self)@.raster.width == old(self)@.raster.width,
            final(self)@.raster.height == old(self)@.raster.height,
            forall|i: int|
                0 <= i < old(self)@.intensity.len() ==> composited(
                    clr@,
                    old(self)@.intensity[i],
                    pixel_at(old(self)@.raster.pixels, i),
                    #[trigger] pixel_at(final(self)@.raster.pixels, i),
                    blend,
                ),
    {
        let n: usize = self.pixels.len();
        let bytes: usize = self.raster.pixels.len();
        let ghost old_p = self.raster.pixels@;
        let mut i: usize = 0;
        while i < n
            invariant
                n == self.pixels@.len(),
                bytes == self.raster.pixels@.len(),
                bytes == 4 * n,
                self.pixels == old(self).pixels,
                self.raster.width == old(self).raster.width,
                self.raster.height == old(self).raster.height,
                old_p == old(self)@.raster.pixels,
                self@.wf(),
                i <= n,
                forall|s: (u8, u8, u8, u8), d: (u8, u8, u8, u8)| call_requires(blend, (s, d)),
                forall|j: int|
                    0 <= j < i ==> composited(
                        clr@,
                        self.pixels@[j],
                        pixel_at(old_p, j),
                        #[trigger] pixel_at(self.raster.pixels@, j),
                        blend,
                    ),
                forall|j: int|
                    i <= j < n ==> #[trigger] pixel_at(self.raster.pixels@, j) == pixel_at(old_p, j),
            decreases n - i,
        {
            let m: u8 = self.pixels[i];
            let b: usize = 4 * i;
            assert(pixel_at(self.raster.pixels@, i as int) == pixel_at(old_p, i as int));
            if m != 0 {
                let dst = (
                    self.raster.pixels[b],
                    self.raster.pixels[b + 1],
                    self.raster.pixels[b + 2],
                    self.raster.pixels[b + 3],
                );
                let out = if m == 255 {
                    (clr[0], clr[1], clr[2], 255u8)
                } else {
                    blend((clr[0], clr[1], clr[2], m), dst)
                };
                let ghost prev = self.raster.pixels@;
                self.raster.pixels.set(b, out.0);
                self.raster.pixels.set(b + 1, out.1);
                self.raster.pixels.set(b + 2, out.2);
                self.raster.pixels.set(b + 3, out.3);
                assert forall|j: int| 0 <= j < n && j != i implies #[trigger] pixel_at(
                    self.raster.pixels@,
                    j,
                ) == pixel_at(prev, j) by {}
                assert(pixel_at(self.raster.pixels@, i as int) == out);
            }
            i = i + 1;
        }
    }

    /// The intensity data, one byte per pixel, row-major.
    pub fn pixels(&self) -> (p: &[u8])
        ensures
            p@ == self@.intensity,
    {
        self.pixels.as_slice()
    }
}
} // verus!
