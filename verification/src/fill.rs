//! Pixel-level flood fill: a depth-bounded, 4-connected fill from a seed
//! point, driven by an explicit work stack rather than call recursion.
//!
//! With a depth budget of zero nothing is marked — not even the seed
//! pixel. With a budget larger than the pixel count the budget never
//! binds, and the mask is exactly the set of pixels reachable from the
//! seed through colours within tolerance of the seed's.

use vstd::prelude::*;
use crate::image::Image;
use crate::image::Rgba8;
use crate::image::SCALE;
use crate::image::create_mask;
use crate::image::spec_clear;
use crate::image::spec_white;
use crate::image::white;

verus! {

/// Squared channel distance between two colours in raw 8-bit units,
/// ignoring alpha.
pub open spec fn spec_dist_sq(a: Rgba8, b: Rgba8) -> int {
    (a.r - b.r) * (a.r - b.r) + (a.g - b.g) * (a.g - b.g) + (a.b - b.b) * (a.b - b.b)
}

/// Whether the Euclidean RGB distance between `a` and `b`, normalised to
/// `[0, 1]`, is at most `tol / SCALE`: compared exactly on squares.
pub open spec fn within_tol(a: Rgba8, b: Rgba8, tol: u64) -> bool {
    spec_dist_sq(a, b) * SCALE * SCALE <= tol * tol * 65025
}

/// Computes the squared channel distance of two colours, alpha ignored.
pub fn dist_sq(a: Rgba8, b: Rgba8) -> (d: u32)
    ensures
        d == spec_dist_sq(a, b),
        d <= 195075,
{
    let dr = a.r as i32 - b.r as i32;
    let dg = a.g as i32 - b.g as i32;
    let db = a.b as i32 - b.b as i32;
    proof {
        assert(dr * dr <= 65025 && dg * dg <= 65025 && db * db <= 65025 && dr * dr >= 0 && dg * dg
            >= 0 && db * db >= 0) by (nonlinear_arith)
            requires
                -255 <= dr <= 255,
                -255 <= dg <= 255,
                -255 <= db <= 255,
        ;
    }
    (dr * dr + dg * dg + db * db) as u32
}

/// Decides whether colour `a` is within the normalised tolerance of `b`.
pub fn colour_test(a: Rgba8, b: Rgba8, tol: u64) -> (ok: bool)
    requires
        tol <= 2 * SCALE,
    ensures
        ok == within_tol(a, b, tol),
{
    let d = dist_sq(a, b) as u64;
    proof {
        assert(d * SCALE * SCALE <= 195075000000000000int && tol * tol * 65025
            <= 260100000000000000int) by (nonlinear_arith)
            requires
                d <= 195075,
                tol <= 2000000,
        ;
    }
    d * SCALE * SCALE <= tol * tol * 65025
}

/// How many pixels of the mask are marked white.
pub open spec fn count_white(s: Seq<Rgba8>) -> int
    decreases s.len(),
{
    if s.len() == 0 {
        0
    } else {
        count_white(s.drop_last()) + if s.last() == spec_white() {
            1int
        } else {
            0int
        }
    }
}

/// The white count never exceeds the buffer length.
proof fn lemma_count_white_le_len(s: Seq<Rgba8>)
    ensures
        0 <= count_white(s) <= s.len(),
    decreases s.len(),
{
    if s.len() > 0 {
        lemma_count_white_le_len(s.drop_last());
    }
}

/// Marking a previously unmarked pixel white increases the white count by
/// one.
proof fn lemma_count_white_update(s: Seq<Rgba8>, i: int)
    requires
        0 <= i < s.len(),
        s[i] != spec_white(),
    ensures
        count_white(s.update(i, spec_white())) == count_white(s) + 1,
    decreases s.len(),
{
    let t = s.update(i, spec_white());
    if i == s.len() - 1 {
        assert(t.drop_last() =~= s.drop_last());
    } else {
        assert(t.drop_last() =~= s.drop_last().update(i, spec_white()));
        lemma_count_white_update(s.drop_last(), i);
    }
}

/// A mask without white pixels counts zero.
proof fn lemma_count_white_none(s: Seq<Rgba8>)
    requires
        forall|j: int| 0 <= j < s.len() ==> s[j] != spec_white(),
    ensures
        count_white(s) == 0,
    decreases s.len(),
{
    if s.len() > 0 {
        assert forall|j: int| 0 <= j < s.drop_last().len() implies s.drop_last()[j]
            != spec_white() by {
            assert(s.drop_last()[j] == s[j]);
        }
        lemma_count_white_none(s.drop_last());
    }
}

/// A pixel the fill may claim: inside the image, within tolerance of the
/// seed colour.
pub open spec fn fill_ok(img: Image, col: Rgba8, tol: u64, x: int, y: int) -> bool {
    img.in_bounds(x, y) && within_tol(img.pix(x, y), col, tol)
}

/// 4-connectivity of two coordinates.
pub open spec fn adjacent(ax: int, ay: int, bx: int, by: int) -> bool {
    ||| (ax == bx && (ay == by + 1 || by == ay + 1))
    ||| (ay == by && (ax == bx + 1 || bx == ax + 1))
}

/// A chain of 4-connected, claimable coordinates.
pub open spec fn fill_path(img: Image, col: Rgba8, tol: u64, p: Seq<(int, int)>) -> bool {
    &&& p.len() >= 1
    &&& (forall|i: int| 0 <= i < p.len() ==> fill_ok(img, col, tol, (#[trigger] p[i]).0, p[i].1))
    &&& (forall|i: int|
        0 <= i < p.len() - 1 ==> adjacent((#[trigger] p[i]).0, p[i].1, p[i + 1].0, p[i + 1].1))
}

/// `(tx, ty)` is reachable from `(sx, sy)` through claimable pixels.
pub open spec fn fill_reach(
    img: Image,
    col: Rgba8,
    tol: u64,
    sx: int,
    sy: int,
    tx: int,
    ty: int,
) -> bool {
    exists|p: Seq<(int, int)>|
        fill_path(img, col, tol, p) && p.first() == (sx, sy) && p.last() == (tx, ty)
}

/// A claimable pixel reaches itself.
proof fn lemma_reach_self(img: Image, col: Rgba8, tol: u64, x: int, y: int)
    requires
        fill_ok(img, col, tol, x, y),
    ensures
        fill_reach(img, col, tol, x, y, x, y),
{
    let p = seq![(x, y)];
    assert(p[0] == (x, y));
    assert(fill_path(img, col, tol, p));
    assert(p.first() == (x, y) && p.last() == (x, y));
}

/// Reachability extends across one claimable neighbour.
proof fn lemma_reach_step(
    img: Image,
    col: Rgba8,
    tol: u64,
    sx: int,
    sy: int,
    wx: int,
    wy: int,
    qx: int,
    qy: int,
)
    requires
        fill_reach(img, col, tol, sx, sy, wx, wy),
        adjacent(wx, wy, qx, qy),
        fill_ok(img, col, tol, qx, qy),
    ensures
        fill_reach(img, col, tol, sx, sy, qx, qy),
{
    let p = choose|p: Seq<(int, int)>|
        fill_path(img, col, tol, p) && p.first() == (sx, sy) && p.last() == (wx, wy);
    let p2 = p.push((qx, qy));
    assert forall|i: int| 0 <= i < p2.len() implies fill_ok(
        img, col, tol, (#[trigger] p2[i]).0, p2[i].1,
    ) by {
        if i < p.len() {
            assert(p2[i] == p[i]);
        } else {
            assert(p2[i] == (qx, qy));
        }
    }
    assert forall|i: int| 0 <= i < p2.len() - 1 implies adjacent(
        (#[trigger] p2[i]).0, p2[i].1, p2[i + 1].0, p2[i + 1].1,
    ) by {
        if i < p.len() - 1 {
            assert(p2[i] == p[i] && p2[i + 1] == p[i + 1]);
        } else {
            assert(p2[i] == p.last() && p2[i + 1] == (qx, qy));
        }
    }
    assert(fill_path(img, col, tol, p2));
    assert(p2.first() == (sx, sy) && p2.last() == (qx, qy));
}

/// The mask is closed under the fill: every claimable neighbour of a
/// white pixel is already white.
pub open spec fn fill_closed(img: Image, col: Rgba8, tol: u64, mask: Image) -> bool {
    forall|ax: int, ay: int, bx: int, by: int|
        #![trigger mask.pix(ax, ay), mask.pix(bx, by)]
        mask.in_bounds(ax, ay) && mask.pix(ax, ay) == spec_white() && adjacent(ax, ay, bx, by)
            && fill_ok(img, col, tol, bx, by) ==> mask.pix(bx, by) == spec_white()
}

/// In a closed mask whose seed is white, everything the seed reaches is
/// white.
proof fn lemma_path_white(img: Image, col: Rgba8, tol: u64, mask: Image, p: Seq<(int, int)>)
    requires
        mask.same_size(img),
        fill_closed(img, col, tol, mask),
        fill_path(img, col, tol, p),
        mask.pix(p.first().0, p.first().1) == spec_white(),
    ensures
        mask.pix(p.last().0, p.last().1) == spec_white(),
    decreases p.len(),
{
    if p.len() > 1 {
        let q = p.drop_last();
        assert forall|i: int| 0 <= i < q.len() implies fill_ok(
            img, col, tol, (#[trigger] q[i]).0, q[i].1,
        ) by {
            assert(q[i] == p[i]);
        }
        assert forall|i: int| 0 <= i < q.len() - 1 implies adjacent(
            (#[trigger] q[i]).0, q[i].1, q[i + 1].0, q[i + 1].1,
        ) by {
            assert(q[i] == p[i] && q[i + 1] == p[i + 1]);
        }
        assert(fill_path(img, col, tol, q));
        assert(q.first() == p.first());
        lemma_path_white(img, col, tol, mask, q);
        let w = p[p.len() - 2];
        assert(q.last() == w);
        assert(adjacent(w.0, w.1, p.last().0, p.last().1));
        assert(fill_ok(img, col, tol, p.last().0, p.last().1));
        assert(mask.in_bounds(w.0, w.1));
    }
}

/// Every stacked coordinate lies inside a `w` x `h` grid.
pub open spec fn stack_ok(s: Seq<(usize, usize, usize)>, w: int, h: int) -> bool {
    forall|k: int| 0 <= k < s.len() ==> (#[trigger] s[k]).0 < w && s[k].1 < h
}

/// `(bx, by)` waits on the stack.
pub open spec fn on_stack(s: Seq<(usize, usize, usize)>, bx: int, by: int) -> bool {
    exists|k: int| 0 <= k < s.len() && (#[trigger] s[k]).0 == bx && s[k].1 == by
}

/// Selects pixels by flood fill from the seed `(px, py)`: a 4-connected
/// neighbour is visited only while the remaining depth budget is positive
/// and its colour lies within the normalised distance `tol / SCALE` of
/// the *seed's* colour. Returns the selection mask: white where selected,
/// transparent black elsewhere. Every marked pixel is reachable from the
/// seed through in-tolerance pixels; when the budget exceeds the pixel
/// count it never binds, and exactly the reachable pixels are marked.
pub fn qfill(img: &Image, px: usize, py: usize, tol: u64, depth: usize) -> (mask: Image)
    requires
        img.wf(),
        img.in_bounds(px as int, py as int),
        tol <= 2 * SCALE,
    ensures
        mask.wf(),
        mask.same_size(*img),
        forall|x: int, y: int|
            mask.in_bounds(x, y) ==> mask.pix(x, y) == spec_white() || mask.pix(x, y)
                == spec_clear(),
        forall|x: int, y: int|
            mask.in_bounds(x, y) && mask.pix(x, y) == spec_white() ==> fill_reach(
                *img,
                img.pix(px as int, py as int),
                tol,
                px as int,
                py as int,
                x,
                y,
            ),
        forall|x: int, y: int|
            mask.in_bounds(x, y) && mask.pix(x, y) == spec_white() ==> within_tol(
                img.pix(x, y),
                img.pix(px as int, py as int),
                tol,
            ),
        depth == 0 ==> forall|x: int, y: int|
            mask.in_bounds(x, y) ==> mask.pix(x, y) == spec_clear(),
        depth >= 1 ==> mask.pix(px as int, py as int) == spec_white(),
        depth > img.width * img.height ==> forall|x: int, y: int|
            fill_reach(*img, img.pix(px as int, py as int), tol, px as int, py as int, x, y)
                ==> mask.in_bounds(x, y) && mask.pix(x, y) == spec_white(),
{
    let mut mask = create_mask(img);
    if depth == 0 {
        return mask;
    }
    let col = img.get(px, py);
    let w = img.width;
    let h = img.height;
    proof {
        assert(spec_dist_sq(col, col) == 0);
        assert(0 <= tol * tol * 65025) by (nonlinear_arith);
        assert(within_tol(col, col, tol));
        assert(fill_ok(*img, col, tol, px as int, py as int));
        lemma_reach_self(*img, col, tol, px as int, py as int);
    }
    proof {
        assert forall|j: int| 0 <= j < mask.data@.len() implies mask.data@[j] != spec_white() by {
            let yy = j / (w as int);
            let xx = j % (w as int);
            vstd::arithmetic::div_mod::lemma_fundamental_div_mod(j, w as int);
            assert(0 <= xx < w) by (nonlinear_arith)
                requires
                    xx == j % (w as int),
                    0 < w,
            ;
            assert(0 <= yy < h && (w as int) * yy + xx == yy * (w as int) + xx)
                by (nonlinear_arith)
                requires
                    yy == j / (w as int),
                    0 <= j < (w as int) * (h as int),
                    j == (w as int) * yy + xx,
                    0 <= xx < w,
                    0 < w,
            ;
            assert(mask.pix(xx, yy) == spec_clear());
        }
        lemma_count_white_none(mask.data@);
        crate::image::lemma_row_major_index(w as int, h as int, px as int, py as int);
        lemma_count_white_update(mask.data@, py * w + px);
    }
    // the seed always passes its own colour test
    mask.set(px, py, white());
    let mut stack: Vec<(usize, usize, usize)> = Vec::new();
    push_neighbours(&mut stack, px, py, depth - 1, w, h);
    while stack.len() > 0
        invariant
            img.wf(),
            img.width == w,
            img.height == h,
            mask.wf(),
            mask.width == w,
            mask.height == h,
            tol <= 2 * SCALE,
            img.in_bounds(px as int, py as int),
            col == img.pix(px as int, py as int),
            mask.pix(px as int, py as int) == spec_white(),
            forall|x: int, y: int|
                mask.in_bounds(x, y) ==> mask.pix(x, y) == spec_white() || mask.pix(x, y)
                    == spec_clear(),
            forall|x: int, y: int|
                mask.in_bounds(x, y) && mask.pix(x, y) == spec_white() ==> fill_reach(
                    *img, col, tol, px as int, py as int, x, y,
                ),
            forall|x: int, y: int|
                mask.in_bounds(x, y) && mask.pix(x, y) == spec_white() ==> within_tol(
                    img.pix(x, y),
                    col,
                    tol,
                ),
            stack_ok(stack@, w as int, h as int),
            forall|k: int|
                0 <= k < stack@.len() ==> exists|wx: int, wy: int|
                    mask.in_bounds(wx, wy) && #[trigger] mask.pix(wx, wy) == spec_white()
                        && adjacent(wx, wy, (#[trigger] stack@[k]).0 as int, stack@[k].1 as int),
            depth > w * h ==> forall|k: int|
                0 <= k < stack@.len() ==> (#[trigger] stack@[k]).2 + count_white(mask.data@)
                    >= depth,
            depth > w * h ==> forall|ax: int, ay: int, bx: int, by: int|
                #![trigger mask.pix(ax, ay), mask.pix(bx, by)]
                mask.in_bounds(ax, ay) && mask.pix(ax, ay) == spec_white() && adjacent(
                    ax, ay, bx, by,
                ) && fill_ok(*img, col, tol, bx, by) ==> mask.pix(bx, by) == spec_white()
                    || on_stack(stack@, bx, by),
        decreases mask.data.len() - count_white(mask.data@), stack.len(),
    {
        proof {
            lemma_count_white_le_len(mask.data@);
        }
        let ghost prestack = stack@;
        let (x, y, budget) = stack.pop().unwrap();
        proof {
            assert(prestack[prestack.len() - 1] == (x, y, budget));
            assert forall|k: int| 0 <= k < stack@.len() implies stack@[k] == prestack[k] by {
                assert(stack@ == prestack.take(prestack.len() - 1));
            }
        }
        if budget == 0 {
            proof {
                if depth > w * h {
                    assert(prestack[prestack.len() - 1].2 + count_white(mask.data@) >= depth);
                    assert(false);
                }
            }
            continue;
        }
        let cur = mask.get(x, y);
        if cur == white() {
            continue;
        }
        if !colour_test(img.get(x, y), col, tol) {
            continue;
        }
        proof {
            crate::image::lemma_row_major_index(w as int, h as int, x as int, y as int);
            lemma_count_white_update(mask.data@, y * w + x);
            let (wx, wy) = choose|wx: int, wy: int|
                mask.in_bounds(wx, wy) && #[trigger] mask.pix(wx, wy) == spec_white() && adjacent(
                    wx, wy, x as int, y as int,
                );
            lemma_reach_step(*img, col, tol, px as int, py as int, wx, wy, x as int, y as int);
        }
        mask.set(x, y, white());
        proof {
            lemma_count_white_le_len(mask.data@);
        }
        push_neighbours(&mut stack, x, y, budget - 1, w, h);
    }
    proof {
        if depth > w * h {
            assert(fill_closed(*img, col, tol, mask));
            assert forall|x: int, y: int|
                fill_reach(*img, col, tol, px as int, py as int, x, y) implies mask.in_bounds(x, y)
                && mask.pix(x, y) == spec_white() by {
                let p = choose|p: Seq<(int, int)>|
                    fill_path(*img, col, tol, p) && p.first() == (px as int, py as int) && p.last()
                        == (x, y);
                assert(fill_ok(*img, col, tol, p.last().0, p.last().1));
                lemma_path_white(*img, col, tol, mask, p);
            }
        }
    }
    mask
}

/// Pushes the in-bounds 4-connected neighbours of `(x, y)` with the given
/// remaining budget; exactly those neighbours are appended.
fn push_neighbours(stack: &mut Vec<(usize, usize, usize)>, x: usize, y: usize, budget: usize, w: usize, h: usize)
    requires
        x < w,
        y < h,
        stack_ok(old(stack)@, w as int, h as int),
    ensures
        stack_ok(final(stack)@, w as int, h as int),
        final(stack)@.len() >= old(stack)@.len(),
        forall|k: int| 0 <= k < old(stack)@.len() ==> final(stack)@[k] == old(stack)@[k],
        forall|k: int|
            old(stack)@.len() <= k < final(stack)@.len() ==> (#[trigger] final(stack)@[k]).2
                == budget && adjacent(
                x as int,
                y as int,
                final(stack)@[k].0 as int,
                final(stack)@[k].1 as int,
            ),
        forall|bx: int, by: int|
            0 <= bx < w && 0 <= by < h && adjacent(x as int, y as int, bx, by) ==> on_stack(
                final(stack)@,
                bx,
                by,
            ),
{
    let ghost mut ie: int = -1;
    let ghost mut iw: int = -1;
    let ghost mut is_: int = -1;
    let ghost mut in_: int = -1;
    if x + 1 < w {
        proof {
            ie = stack@.len() as int;
        }
        stack.push((x + 1, y, budget));
    }
    if x > 0 {
        proof {
            iw = stack@.len() as int;
        }
        stack.push((x - 1, y, budget));
    }
    if y + 1 < h {
        proof {
            is_ = stack@.len() as int;
        }
        stack.push((x, y + 1, budget));
    }
    if y > 0 {
        proof {
            in_ = stack@.len() as int;
        }
        stack.push((x, y - 1, budget));
    }
    proof {
        assert forall|k: int| 0 <= k < stack@.len() implies (#[trigger] stack@[k]).0 < w
            && stack@[k].1 < h by {
            if k < old(stack)@.len() {
                assert(stack@[k] == old(stack)@[k]);
            }
        }
        assert forall|bx: int, by: int|
            0 <= bx < w && 0 <= by < h && adjacent(x as int, y as int, bx, by) implies on_stack(
            stack@, bx, by,
        ) by {
            if bx == x + 1 && by == y {
                assert(stack@[ie].0 == bx && stack@[ie].1 == by);
            } else if bx + 1 == x && by == y {
                assert(stack@[iw].0 == bx && stack@[iw].1 == by);
            } else if bx == x && by == y + 1 {
                assert(stack@[is_].0 == bx && stack@[is_].1 == by);
            } else {
                assert(bx == x && by + 1 == y);
                assert(stack@[in_].0 == bx && stack@[in_].1 == by);
            }
        }
    }
}

} // verus!
