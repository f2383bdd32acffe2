use honeybee::falloff::{falloff, SUBPIXEL};
use honeybee::raster::{Mask, Raster};

fn px(pixels: f64) -> i32 {
    (pixels * SUBPIXEL as f64) as i32
}

fn intensity(m: &Mask, x: usize, y: usize) -> u8 {
    m.pixels()[y * m.width() as usize + x]
}

fn halve(src: (u8, u8, u8, u8), dst: (u8, u8, u8, u8)) -> (u8, u8, u8, u8) {
    (
        ((src.0 as u16 + dst.0 as u16) / 2) as u8,
        ((src.1 as u16 + dst.1 as u16) / 2) as u8,
        ((src.2 as u16 + dst.2 as u16) / 2) as u8,
        src.3,
    )
}

#[test]
fn circle() {
    let r = Raster::new(6, 6, [0, 0, 0, 0]);
    let mut m = Mask::new(r);
    m.circle(px(3.0), px(3.0), px(3.0) as u16);
    assert!(m.pixels()[0..6] == [0, 27, 121, 121, 27, 0]);
    assert!(m.pixels()[6..12] == [27, 191, 235, 235, 191, 27]);
    assert!(m.pixels()[12..18] == [121, 235, 254, 254, 235, 121]);
    assert!(m.pixels()[18..24] == [121, 235, 254, 254, 235, 121]);
    assert!(m.pixels()[24..30] == [27, 191, 235, 235, 191, 27]);
    assert!(m.pixels()[30..36] == [0, 27, 121, 121, 27, 0]);
}

#[test]
fn new_fills_every_pixel() {
    let r = Raster::new(3, 2, [1, 2, 3, 4]);
    assert_eq!(r.width(), 3);
    assert_eq!(r.height(), 2);
    assert_eq!(r.pixels().len(), 3 * 2 * 4);
    for y in 0..2 {
        for x in 0..3 {
            assert_eq!(r.get(x, y), [1, 2, 3, 4]);
        }
    }
}

#[test]
fn new_empty_raster() {
    let r = Raster::new(0, 5, [9, 9, 9, 9]);
    assert_eq!(r.pixels().len(), 0);
    let m = Mask::new(r);
    assert_eq!(m.pixels().len(), 0);
    assert_eq!(m.height(), 5);
}

#[test]
fn set_then_get() {
    let mut r = Raster::new(4, 3, [0, 0, 0, 255]);
    r.set(2, 1, [10, 20, 30, 40]);
    assert_eq!(r.get(2, 1), [10, 20, 30, 40]);
    assert_eq!(&r.pixels()[(1 * 4 + 2) * 4..(1 * 4 + 2) * 4 + 4], &[10, 20, 30, 40]);
    for y in 0..3 {
        for x in 0..4 {
            if (x, y) != (2, 1) {
                assert_eq!(r.get(x, y), [0, 0, 0, 255]);
            }
        }
    }
    r.set(3, 2, [5, 6, 7, 8]);
    assert_eq!(r.get(3, 2), [5, 6, 7, 8]);
    assert_eq!(r.get(2, 1), [10, 20, 30, 40]);
}

#[test]
fn mask_dimensions() {
    let m = Mask::new(Raster::new(7, 3, [0, 0, 0, 0]));
    assert_eq!(m.width(), 7);
    assert_eq!(m.height(), 3);
    assert_eq!(m.pixels().len(), 21);
    assert!(m.pixels().iter().all(|&v| v == 0));
}

#[test]
fn clear_then_circle_matches_fresh_mask() {
    let mut used = Mask::new(Raster::new(6, 6, [0, 0, 0, 0]));
    used.circle(px(1.0), px(2.0), px(4.0) as u16);
    used.circle(px(5.0), px(5.0), px(2.5) as u16);
    used.clear();
    assert!(used.pixels().iter().all(|&v| v == 0));
    let mut fresh = Mask::new(Raster::new(6, 6, [0, 0, 0, 0]));
    used.circle(px(3.0), px(3.0), px(3.0) as u16);
    fresh.circle(px(3.0), px(3.0), px(3.0) as u16);
    assert_eq!(used.pixels(), fresh.pixels());
    used.composite([200, 100, 50], halve);
    fresh.composite([200, 100, 50], halve);
    assert_eq!(Raster::from(used).pixels(), Raster::from(fresh).pixels());
}

#[test]
fn clear_leaves_raster() {
    let mut m = Mask::new(Raster::new(2, 2, [0, 0, 0, 0]));
    m.circle(px(1.0), px(1.0), px(1.0) as u16);
    m.composite([255, 0, 0], halve);
    let before: Vec<u8> = Raster::from(m).pixels().to_vec();
    let mut m = Mask::new(Raster::new(2, 2, [0, 0, 0, 0]));
    m.circle(px(1.0), px(1.0), px(1.0) as u16);
    m.composite([255, 0, 0], halve);
    m.clear();
    assert_eq!(Raster::from(m).pixels(), &before[..]);
}

fn assert_rotation_symmetric(n: u32) {
    let mut m = Mask::new(Raster::new(n, n, [0, 0, 0, 0]));
    let c = px(n as f64 / 2.0);
    m.circle(c, c, px(n as f64 / 2.0 - 0.5) as u16);
    let n = n as usize;
    for y in 0..n {
        for x in 0..n {
            assert_eq!(intensity(&m, x, y), intensity(&m, n - 1 - y, x));
        }
    }
}

#[test]
fn circle_rotation_symmetric_even() {
    assert_rotation_symmetric(8);
}

#[test]
fn circle_rotation_symmetric_odd() {
    assert_rotation_symmetric(7);
}

#[test]
fn circle_twice_saturates() {
    let mut once = Mask::new(Raster::new(6, 6, [0, 0, 0, 0]));
    once.circle(px(3.0), px(3.0), px(3.0) as u16);
    let mut twice = Mask::new(Raster::new(6, 6, [0, 0, 0, 0]));
    twice.circle(px(3.0), px(3.0), px(3.0) as u16);
    twice.circle(px(3.0), px(3.0), px(3.0) as u16);
    for (a, b) in once.pixels().iter().zip(twice.pixels()) {
        assert_eq!(*b as u16, (2 * *a as u16).min(255));
    }
    assert_eq!(twice.pixels()[0..6], [0, 54, 242, 242, 54, 0]);
    assert_eq!(twice.pixels()[14], 255);
}

#[test]
fn circle_outside_is_noop() {
    let mut m = Mask::new(Raster::new(4, 4, [0, 0, 0, 0]));
    m.circle(px(-10.0), px(2.0), px(3.0) as u16);
    m.circle(px(20.0), px(20.0), px(3.0) as u16);
    m.circle(px(2.0), px(-9.0), px(3.0) as u16);
    assert!(m.pixels().iter().all(|&v| v == 0));
}

#[test]
fn circle_zero_radius_is_noop() {
    let mut m = Mask::new(Raster::new(4, 4, [0, 0, 0, 0]));
    m.circle(px(2.0), px(2.0), 0);
    m.circle(px(1.3), px(2.7), 0);
    assert!(m.pixels().iter().all(|&v| v == 0));
}

#[test]
fn circle_partly_outside_is_clipped() {
    let mut m = Mask::new(Raster::new(3, 3, [0, 0, 0, 0]));
    m.circle(0, 0, px(2.0) as u16);
    // pixel (0, 0): centre at distance^2 0.5 of radius^2 4: 255 * (1 - 1/64)
    assert_eq!(intensity(&m, 0, 0), 251);
    assert_eq!(intensity(&m, 2, 2), 0);
    assert_eq!(intensity(&m, 1, 0), intensity(&m, 0, 1));
}

#[test]
fn falloff_values() {
    assert_eq!(falloff(0, 2304), 255);
    assert_eq!(falloff(1152, 2304), 191);
    assert_eq!(falloff(2304, 2304), 0);
    assert_eq!(falloff(5000, 2304), 0);
    assert_eq!(falloff(0, 0), 0);
}

#[test]
fn composite_alpha_zero_keeps_destination() {
    let mut r = Raster::new(2, 1, [0, 0, 0, 0]);
    r.set(0, 0, [12, 34, 56, 0]);
    r.set(1, 0, [200, 100, 50, 128]);
    let mut m = Mask::new(r);
    m.composite([255, 255, 255], halve);
    let r = Raster::from(m);
    assert_eq!(r.get(0, 0), [12, 34, 56, 0]);
    assert_eq!(r.get(1, 0), [200, 100, 50, 128]);
}

#[test]
fn composite_full_alpha_gives_source() {
    let mut m = Mask::new(Raster::new(3, 3, [10, 20, 30, 40]));
    m.circle(px(1.5), px(1.5), px(3.0) as u16);
    m.circle(px(1.5), px(1.5), px(3.0) as u16);
    assert_eq!(intensity(&m, 1, 1), 255);
    m.composite([1, 2, 3], halve);
    let r = Raster::from(m);
    assert_eq!(r.get(1, 1), [1, 2, 3, 255]);
}

#[test]
fn composite_partial_alpha_uses_blend() {
    let mut m = Mask::new(Raster::new(6, 6, [100, 100, 100, 255]));
    m.circle(px(3.0), px(3.0), px(3.0) as u16);
    m.composite([200, 0, 50], halve);
    let pixels = m.pixels().to_vec();
    let r = Raster::from(m);
    // intensity 27 at (1, 0)
    assert_eq!(pixels[1], 27);
    assert_eq!(r.get(1, 0), [150, 50, 75, 27]);
    // intensity 0 at (0, 0)
    assert_eq!(r.get(0, 0), [100, 100, 100, 255]);
}

#[test]
fn composite_keeps_intensity() {
    let mut m = Mask::new(Raster::new(6, 6, [0, 0, 0, 0]));
    m.circle(px(3.0), px(3.0), px(3.0) as u16);
    let before = m.pixels().to_vec();
    m.composite([9, 9, 9], halve);
    assert_eq!(m.pixels(), &before[..]);
}

#[test]
fn unwrap_untouched_mask_round_trips() {
    let mut r = Raster::new(3, 2, [7, 8, 9, 10]);
    r.set(1, 1, [1, 2, 3, 4]);
    let expected = r.pixels().to_vec();
    let back = Raster::from(Mask::new(r));
    assert_eq!(back.width(), 3);
    assert_eq!(back.height(), 2);
    assert_eq!(back.pixels(), &expected[..]);
}
