//! Compositing: merging a mask with the source image and a background
//! colour into a final image.
//!
//! Joint operations demand that the two images have exactly the same
//! dimensions; a mismatch is a contract violation, never silently
//! tolerated.

use vstd::prelude::*;
use crate::image::Image;
use crate::image::Rgba8;
use crate::image::spec_clear;
use crate::image::spec_white;
use crate::image::clear_px;
use crate::image::white;

verus! {

/// Replaces every white pixel of `dst` by the corresponding pixel of
/// `col`, and every other pixel by the background colour `or`.
pub fn capply(col: &Image, dst: &mut Image, or: Rgba8)
    requires
        col.wf(),
        old(dst).wf(),
        old(dst).same_size(*col),
    ensures
        final(dst).wf(),
        final(dst).same_size(*col),
        forall|x: int, y: int|
            col.in_bounds(x, y) ==> final(dst).pix(x, y) == (if old(dst).pix(x, y) == spec_white() {
                col.pix(x, y)
            } else {
                or
            }),
{
    let w = dst.width;
    let h = dst.height;
    for y in 0..h
        invariant
            col.wf(),
            dst.wf(),
            dst.width == w,
            dst.height == h,
            col.width == w,
            col.height == h,
            forall|x2: int, y2: int|
                dst.in_bounds(x2, y2) && y2 < y ==> dst.pix(x2, y2) == (if old(dst).pix(x2, y2)
                    == spec_white() {
                    col.pix(x2, y2)
                } else {
                    or
                }),
            forall|x2: int, y2: int|
                dst.in_bounds(x2, y2) && y2 >= y ==> dst.pix(x2, y2) == old(dst).pix(x2, y2),
    {
        for x in 0..w
            invariant
                col.wf(),
                dst.wf(),
                dst.width == w,
                dst.height == h,
                col.width == w,
                col.height == h,
                y < h,
                forall|x2: int, y2: int|
                    dst.in_bounds(x2, y2) && (y2 < y || (y2 == y && x2 < x)) ==> dst.pix(x2, y2)
                        == (if old(dst).pix(x2, y2) == spec_white() {
                        col.pix(x2, y2)
                    } else {
                        or
                    }),
                forall|x2: int, y2: int|
                    dst.in_bounds(x2, y2) && (y2 > y || (y2 == y && x2 >= x)) ==> dst.pix(x2, y2)
                        == old(dst).pix(x2, y2),
        {
            let m = dst.get(x, y);
            if m == white() {
                let c = col.get(x, y);
                dst.set(x, y, c);
            } else {
                dst.set(x, y, or);
            }
        }
    }
}

/// The sentinel that [`mask`] treats as "selected": white normally, the
/// unmarked flood-fill sentinel when `inverted`.
pub open spec fn mask_key(inverted: bool) -> Rgba8 {
    if inverted {
        spec_clear()
    } else {
        spec_white()
    }
}

/// Places the pixels of `col` onto `mask_img` wherever `mask_img` holds the
/// selected sentinel (white, or the unmarked sentinel when `inverted`);
/// every other pixel becomes fully transparent black.
pub fn mask(mask_img: &mut Image, col: &Image, inverted: bool)
    requires
        col.wf(),
        old(mask_img).wf(),
        old(mask_img).same_size(*col),
    ensures
        final(mask_img).wf(),
        final(mask_img).same_size(*col),
        forall|x: int, y: int|
            col.in_bounds(x, y) ==> final(mask_img).pix(x, y) == (if old(mask_img).pix(x, y)
                == mask_key(inverted) {
                col.pix(x, y)
            } else {
                spec_clear()
            }),
{
    let key = if inverted {
        clear_px()
    } else {
        white()
    };
    let w = mask_img.width;
    let h = mask_img.height;
    for y in 0..h
        invariant
            col.wf(),
            mask_img.wf(),
            mask_img.width == w,
            mask_img.height == h,
            col.width == w,
            col.height == h,
            key == mask_key(inverted),
            forall|x2: int, y2: int|
                mask_img.in_bounds(x2, y2) && y2 < y ==> mask_img.pix(x2, y2) == (if old(
                    mask_img,
                ).pix(x2, y2) == mask_key(inverted) {
                    col.pix(x2, y2)
                } else {
                    spec_clear()
                }),
            forall|x2: int, y2: int|
                mask_img.in_bounds(x2, y2) && y2 >= y ==> mask_img.pix(x2, y2) == old(
                    mask_img,
                ).pix(x2, y2),
    {
        for x in 0..w
            invariant
                col.wf(),
                mask_img.wf(),
                mask_img.width == w,
                mask_img.height == h,
                col.width == w,
                col.height == h,
                y < h,
                key == mask_key(inverted),
                forall|x2: int, y2: int|
                    mask_img.in_bounds(x2, y2) && (y2 < y || (y2 == y && x2 < x))
                        ==> mask_img.pix(x2, y2) == (if old(mask_img).pix(x2, y2) == mask_key(
                        inverted,
                    ) {
                        col.pix(x2, y2)
                    } else {
                        spec_clear()
                    }),
                forall|x2: int, y2: int|
                    mask_img.in_bounds(x2, y2) && (y2 > y || (y2 == y && x2 >= x))
                        ==> mask_img.pix(x2, y2) == old(mask_img).pix(x2, y2),
        {
            let m = mask_img.get(x, y);
            if m == key {
                let c = col.get(x, y);
                mask_img.set(x, y, c);
            } else {
                mask_img.set(x, y, clear_px());
            }
        }
    }
}

} // verus!
