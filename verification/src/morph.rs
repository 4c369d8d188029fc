//! Windowed morphological operators over a binary mask: dilation and
//! erosion, plus the channel inversion that links them.
//!
//! Window samples that fall outside the image are skipped entirely — they
//! count neither as white nor as black.

use vstd::prelude::*;
use crate::image::Image;
use crate::image::Rgba8;
use crate::image::black;
use crate::image::black_px;
use crate::image::spec_black;
use crate::image::spec_white;
use crate::image::white;

verus! {

/// A mask pixel is one of the two sentinels.
pub open spec fn mask_wf(m: Image) -> bool {
    forall|x: int, y: int|
        m.in_bounds(x, y) ==> m.pix(x, y) == spec_white() || m.pix(x, y) == spec_black()
}

/// Whether `(sx, sy)` lies in the `wx` x `wy` window centred on `(x, y)`.
pub open spec fn in_window(x: int, y: int, wx: int, wy: int, sx: int, sy: int) -> bool {
    &&& x - wx / 2 <= sx < x - wx / 2 + wx
    &&& y - wy / 2 <= sy < y - wy / 2 + wy
}

/// Some in-bounds sample of the `wx` x `wy` window centred on `(x, y)`
/// equals `target`; samples outside the image are skipped.
pub open spec fn window_hit(m: Image, x: int, y: int, wx: int, wy: int, target: Rgba8) -> bool {
    exists|sx: int, sy: int|
        in_window(x, y, wx, wy, sx, sy) && m.in_bounds(sx, sy) && #[trigger] m.pix(sx, sy) == target
}

/// The dilated value at `(x, y)`: white if any window sample is white.
pub open spec fn dilate_val(m: Image, x: int, y: int, wx: int, wy: int) -> Rgba8 {
    if window_hit(m, x, y, wx, wy, spec_white()) {
        spec_white()
    } else {
        spec_black()
    }
}

/// The eroded value at `(x, y)`: black if any window sample is black.
pub open spec fn erode_val(m: Image, x: int, y: int, wx: int, wy: int) -> Rgba8 {
    if window_hit(m, x, y, wx, wy, spec_black()) {
        spec_black()
    } else {
        spec_white()
    }
}

/// Channel inversion of a single pixel; alpha is kept.
pub open spec fn invert_px(c: Rgba8) -> Rgba8 {
    Rgba8 { r: (255 - c.r) as u8, g: (255 - c.g) as u8, b: (255 - c.b) as u8, a: c.a }
}

/// Inverts the red, green and blue channels of every pixel in place.
pub fn invert(img: &mut Image)
    requires
        old(img).wf(),
    ensures
        final(img).wf(),
        final(img).same_size(*old(img)),
        forall|x: int, y: int|
            old(img).in_bounds(x, y) ==> final(img).pix(x, y) == invert_px(old(img).pix(x, y)),
{
    let w = img.width;
    let h = img.height;
    for y in 0..h
        invariant
            img.wf(),
            img.width == w,
            img.height == h,
            img.same_size(*old(img)),
            forall|x2: int, y2: int|
                img.in_bounds(x2, y2) && y2 < y ==> img.pix(x2, y2) == invert_px(
                    old(img).pix(x2, y2),
                ),
            forall|x2: int, y2: int|
                img.in_bounds(x2, y2) && y2 >= y ==> img.pix(x2, y2) == old(img).pix(x2, y2),
    {
        for x in 0..w
            invariant
                img.wf(),
                img.width == w,
                img.height == h,
                y < h,
                forall|x2: int, y2: int|
                    img.in_bounds(x2, y2) && (y2 < y || (y2 == y && x2 < x)) ==> img.pix(x2, y2)
                        == invert_px(old(img).pix(x2, y2)),
                forall|x2: int, y2: int|
                    img.in_bounds(x2, y2) && (y2 > y || (y2 == y && x2 >= x)) ==> img.pix(x2, y2)
                        == old(img).pix(x2, y2),
        {
            let c = img.get(x, y);
            img.set(x, y, Rgba8 { r: 255 - c.r, g: 255 - c.g, b: 255 - c.b, a: c.a });
        }
    }
}

/// Scans the window centred on `(x, y)` for `target`.
fn scan_window(m: &Image, x: usize, y: usize, wx: usize, wy: usize, target: Rgba8) -> (hit: bool)
    requires
        m.wf(),
        1 <= wx,
        1 <= wy,
        x < m.width,
        y < m.height,
        m.width + wx <= usize::MAX,
        m.height + wy <= usize::MAX,
    ensures
        hit == window_hit(*m, x as int, y as int, wx as int, wy as int, target),
{
    let midx = wx / 2;
    let midy = wy / 2;
    let mut hit = false;
    for i in 0..wx
        invariant
            m.wf(),
            midx == wx as int / 2,
            midy == wy as int / 2,
            1 <= wx,
            1 <= wy,
            x < m.width,
            y < m.height,
            m.width + wx <= usize::MAX,
            m.height + wy <= usize::MAX,
            hit == exists|sx: int, sy: int|
                in_window(x as int, y as int, wx as int, wy as int, sx, sy) && m.in_bounds(sx, sy)
                    && #[trigger] m.pix(sx, sy) == target && sx < x - midx + i,
    {
        for j in 0..wy
            invariant
                m.wf(),
                midx == wx as int / 2,
                midy == wy as int / 2,
                1 <= wx,
                1 <= wy,
                i < wx,
                x < m.width,
                y < m.height,
                m.width + wx <= usize::MAX,
                m.height + wy <= usize::MAX,
                hit == exists|sx: int, sy: int|
                    in_window(x as int, y as int, wx as int, wy as int, sx, sy) && m.in_bounds(
                        sx, sy,
                    ) && #[trigger] m.pix(sx, sy) == target && (sx < x - midx + i || (sx == x
                        - midx + i && sy < y - midy + j)),
        {
            if x + i >= midx && x + i - midx < m.width && y + j >= midy && y + j - midy < m.height {
                let sx = x + i - midx;
                let sy = y + j - midy;
                if m.get(sx, sy) == target {
                    hit = true;
                    proof {
                        assert(in_window(
                            x as int, y as int, wx as int, wy as int, sx as int, sy as int,
                        ) && m.in_bounds(sx as int, sy as int) && m.pix(sx as int, sy as int)
                            == target);
                    }
                }
            }
        }
    }
    hit
}

/// Dilates a mask: each output pixel is white if any in-bounds sample of
/// the window centred there is white, black otherwise.
pub fn cdilate(img: &Image, wx: usize, wy: usize) -> (out: Image)
    requires
        img.wf(),
        1 <= wx,
        1 <= wy,
        img.width + wx <= usize::MAX,
        img.height + wy <= usize::MAX,
    ensures
        out.wf(),
        out.same_size(*img),
        forall|x: int, y: int|
            out.in_bounds(x, y) ==> out.pix(x, y) == dilate_val(*img, x, y, wx as int, wy as int),
{
    let mut out = black(img.width, img.height);
    let w = img.width;
    let h = img.height;
    for y in 0..h
        invariant
            img.wf(),
            img.width == w,
            img.height == h,
            out.wf(),
            out.width == w,
            out.height == h,
            1 <= wx,
            1 <= wy,
            w + wx <= usize::MAX,
            h + wy <= usize::MAX,
            forall|x2: int, y2: int|
                out.in_bounds(x2, y2) && y2 < y ==> out.pix(x2, y2) == dilate_val(
                    *img, x2, y2, wx as int, wy as int,
                ),
    {
        for x in 0..w
            invariant
                img.wf(),
                img.width == w,
                img.height == h,
                out.wf(),
                out.width == w,
                out.height == h,
                1 <= wx,
                1 <= wy,
                w + wx <= usize::MAX,
                h + wy <= usize::MAX,
                y < h,
                forall|x2: int, y2: int|
                    out.in_bounds(x2, y2) && (y2 < y || (y2 == y && x2 < x)) ==> out.pix(x2, y2)
                        == dilate_val(*img, x2, y2, wx as int, wy as int),
        {
            let v = if scan_window(img, x, y, wx, wy, white()) {
                white()
            } else {
                black_px()
            };
            out.set(x, y, v);
        }
    }
    out
}

/// Erodes a mask: each output pixel is black if any in-bounds sample of
/// the window centred there is black, white otherwise.
pub fn cerode(img: &Image, wx: usize, wy: usize) -> (out: Image)
    requires
        img.wf(),
        1 <= wx,
        1 <= wy,
        img.width + wx <= usize::MAX,
        img.height + wy <= usize::MAX,
    ensures
        out.wf(),
        out.same_size(*img),
        forall|x: int, y: int|
            out.in_bounds(x, y) ==> out.pix(x, y) == erode_val(*img, x, y, wx as int, wy as int),
{
    let mut out = black(img.width, img.height);
    let w = img.width;
    let h = img.height;
    for y in 0..h
        invariant
            img.wf(),
            img.width == w,
            img.height == h,
            out.wf(),
            out.width == w,
            out.height == h,
            1 <= wx,
            1 <= wy,
            w + wx <= usize::MAX,
            h + wy <= usize::MAX,
            forall|x2: int, y2: int|
                out.in_bounds(x2, y2) && y2 < y ==> out.pix(x2, y2) == erode_val(
                    *img, x2, y2, wx as int, wy as int,
                ),
    {
        for x in 0..w
            invariant
                img.wf(),
                img.width == w,
                img.height == h,
                out.wf(),
                out.width == w,
                out.height == h,
                1 <= wx,
                1 <= wy,
                w + wx <= usize::MAX,
                h + wy <= usize::MAX,
                y < h,
                forall|x2: int, y2: int|
                    out.in_bounds(x2, y2) && (y2 < y || (y2 == y && x2 < x)) ==> out.pix(x2, y2)
                        == erode_val(*img, x2, y2, wx as int, wy as int),
        {
            let v = if scan_window(img, x, y, wx, wy, black_px()) {
                black_px()
            } else {
                white()
            };
            out.set(x, y, v);
        }
    }
    out
}

/// Morphological duality: eroding the inversion of a mask gives, pixel for
/// pixel, the inversion of dilating the mask — for any mask and any window,
/// with the same out-of-bounds-skip behaviour on both sides.
pub proof fn lemma_morph_duality(m: Image, inv: Image, wx: int, wy: int)
    requires
        m.wf(),
        inv.wf(),
        inv.same_size(m),
        mask_wf(m),
        forall|x: int, y: int| m.in_bounds(x, y) ==> inv.pix(x, y) == invert_px(m.pix(x, y)),
    ensures
        forall|x: int, y: int|
            m.in_bounds(x, y) ==> erode_val(inv, x, y, wx, wy) == invert_px(
                dilate_val(m, x, y, wx, wy),
            ),
{
    assert forall|x: int, y: int| m.in_bounds(x, y) implies erode_val(inv, x, y, wx, wy)
        == invert_px(dilate_val(m, x, y, wx, wy)) by {
        assert(invert_px(spec_white()) == spec_black());
        assert(invert_px(spec_black()) == spec_white());
        if window_hit(m, x, y, wx, wy, spec_white()) {
            let (sx, sy) = choose|sx: int, sy: int|
                in_window(x, y, wx, wy, sx, sy) && m.in_bounds(sx, sy) && #[trigger] m.pix(sx, sy)
                    == spec_white();
            assert(inv.pix(sx, sy) == spec_black());
            assert(window_hit(inv, x, y, wx, wy, spec_black()));
        }
        if window_hit(inv, x, y, wx, wy, spec_black()) {
            let (sx, sy) = choose|sx: int, sy: int|
                in_window(x, y, wx, wy, sx, sy) && inv.in_bounds(sx, sy) && #[trigger] inv.pix(
                    sx, sy,
                ) == spec_black();
            assert(m.in_bounds(sx, sy));
            assert(m.pix(sx, sy) == spec_white() || m.pix(sx, sy) == spec_black());
            assert(m.pix(sx, sy) == spec_white());
            assert(window_hit(m, x, y, wx, wy, spec_white()));
        }
    }
}

} // verus!
