//! The per-pixel Gaussian-tolerance classifier.
//!
//! For each pixel the Gaussian density of each HSL channel is evaluated at
//! the pixel's value, against the image's channel mean and standard
//! deviation, and the pixel is selected when every density lies at or
//! below its tolerance. Density is highest near the mean, so the test
//! fires for pixels that deviate *far* from the mean: the density acts as
//! a monotone-decreasing distance proxy, not as a probability.
//!
//! All arithmetic is fixed-point over [`SCALE`], including the
//! exponential, which is evaluated by a truncated alternating series on
//! the fractional part and repeated decay by `1/e` on the integer part.

use vstd::prelude::*;
use crate::color::hsl;
use crate::image::Image;
use crate::image::Rgba8;
use crate::image::SCALE;
use crate::image::black;
use crate::image::black_px;
use crate::image::create_mask;
use crate::image::spec_black;
use crate::image::spec_clear;
use crate::image::spec_white;
use crate::image::white;
use crate::image::clear_px;
use crate::fill::dist_sq;
use crate::fill::spec_dist_sq;
use crate::stats::ColorStats;
use crate::stats::StatsError;
use crate::stats::cstats;
use crate::stats::hsl_fx;
use crate::stats::is_isqrt;
use crate::stats::isqrt;
use crate::stats::lemma_sqrt_floor_of;
use crate::stats::mean_of;
use crate::stats::sd_of;
use crate::stats::sqrt_floor;
use crate::stats::valid_n;
use crate::stats::var_of;

verus! {

/// The square root of two pi, in fixed-point units.
pub const SQRT_TAU: u64 = 2_506_628;

/// The reciprocal of Euler's number, in fixed-point units.
pub const EINV: u64 = 367_879;

/// The `j`-th term of the alternating series for `e^(-f/SCALE)`, rounded
/// down at every step.
pub open spec fn exp_term(f: int, j: int) -> int
    decreases j,
{
    if j <= 0 {
        SCALE as int
    } else {
        exp_term(f, j - 1) * f / (SCALE * j)
    }
}

/// The alternating partial sum of that series after `j` terms.
pub open spec fn exp_partial(f: int, j: int) -> int
    decreases j,
{
    if j <= 0 {
        SCALE as int
    } else {
        exp_partial(f, j - 1) + (if j % 2 == 1 {
            -exp_term(f, j)
        } else {
            exp_term(f, j)
        })
    }
}

/// Clamps a value to the unit range.
pub open spec fn clamp_unit(x: int) -> int {
    if x < 0 {
        0
    } else if x > SCALE {
        SCALE as int
    } else {
        x
    }
}

/// `e^(-f/SCALE)` in fixed point for a fractional argument, by ten series
/// terms, clamped to the unit range.
pub open spec fn exp_frac_spec(f: int) -> int {
    clamp_unit(exp_partial(f, 10))
}

/// `i` successive decays of `r` by `1/e`.
pub open spec fn decay(r: int, i: int) -> int
    decreases i,
{
    if i <= 0 {
        r
    } else {
        decay(r, i - 1) * (EINV as int) / (SCALE as int)
    }
}

/// `e^(-t/SCALE)` in fixed point: the fractional part by series, the
/// integer part by decay; arguments of `64` or more underflow to zero.
pub open spec fn exp_neg_spec(t: int) -> int {
    if t / (SCALE as int) >= 64 {
        0
    } else {
        decay(exp_frac_spec(t % (SCALE as int)), t / (SCALE as int))
    }
}

/// Series terms stay in the unit range and partial sums stay bounded.
proof fn lemma_exp_series_bounds(f: int, j: int)
    requires
        0 <= f < SCALE,
        0 <= j,
    ensures
        0 <= exp_term(f, j) <= SCALE,
        -SCALE * (j + 1) <= exp_partial(f, j) <= SCALE * (j + 1),
    decreases j,
{
    if j == 0 {
        assert(-SCALE * 1 <= SCALE) by (nonlinear_arith);
    } else {
        lemma_exp_series_bounds(f, j - 1);
        let t = exp_term(f, j - 1);
        assert(0 <= t * f / (SCALE * j) <= SCALE) by (nonlinear_arith)
            requires
                0 <= t <= SCALE,
                0 <= f < SCALE,
                1 <= j,
        ;
        assert(-SCALE * (j + 1) <= exp_partial(f, j) <= SCALE * (j + 1)) by (nonlinear_arith)
            requires
                -SCALE * j <= exp_partial(f, j - 1) <= SCALE * j,
                exp_partial(f, j) == exp_partial(f, j - 1) + (if j % 2 == 1 {
                    -exp_term(f, j)
                } else {
                    exp_term(f, j)
                }),
                0 <= exp_term(f, j) <= SCALE,
        ;
    }
}

/// Evaluates the series for a fractional argument.
fn exp_frac(f: u64) -> (r: u64)
    requires
        f < SCALE,
    ensures
        r == exp_frac_spec(f as int),
        r <= SCALE,
{
    let mut term: u64 = SCALE;
    let mut sum: i64 = SCALE as i64;
    for j in 1..11u64
        invariant
            f < SCALE,
            1 <= j <= 11,
            term == exp_term(f as int, j - 1),
            sum == exp_partial(f as int, j - 1),
            0 <= term <= SCALE,
            -12_000_000 <= sum <= 12_000_000,
    {
        proof {
            lemma_exp_series_bounds(f as int, j as int);
            assert(term * f <= SCALE * SCALE) by (nonlinear_arith)
                requires
                    0 <= term <= SCALE,
                    0 <= f < SCALE,
            ;
        }
        term = term * f / (SCALE * j);
        if j % 2 == 1 {
            sum = sum - term as i64;
        } else {
            sum = sum + term as i64;
        }
    }
    if sum < 0 {
        0
    } else if sum > SCALE as i64 {
        SCALE
    } else {
        sum as u64
    }
}

/// Decayed values stay in the unit range.
proof fn lemma_decay_bounds(r: int, i: int)
    requires
        0 <= r <= SCALE,
        0 <= i,
    ensures
        0 <= decay(r, i) <= SCALE,
    decreases i,
{
    if i > 0 {
        lemma_decay_bounds(r, i - 1);
        assert(0 <= decay(r, i - 1) * (EINV as int) / (SCALE as int) <= SCALE) by (nonlinear_arith)
            requires
                0 <= decay(r, i - 1) <= SCALE,
        ;
    }
}

/// Evaluates `e^(-t/SCALE)` in fixed point.
fn exp_neg(t: u128) -> (r: u64)
    ensures
        r == exp_neg_spec(t as int),
        r <= SCALE,
{
    let n = t / (SCALE as u128);
    if n >= 64 {
        return 0;
    }
    let f = (t % (SCALE as u128)) as u64;
    let n64 = n as u64;
    let mut r = exp_frac(f);
    proof {
        lemma_exp_series_bounds(f as int, 10);
    }
    for i in 0..n64
        invariant
            n64 < 64,
            f < SCALE,
            r == decay(exp_frac_spec(f as int), i as int),
            r <= SCALE,
    {
        proof {
            assert(r as int * EINV <= SCALE as int * SCALE && r as int * EINV / (SCALE as int)
                <= SCALE) by (nonlinear_arith)
                requires
                    0 <= r <= SCALE,
            ;
        }
        r = r * EINV / SCALE;
    }
    r
}

/// The fixed-point Gaussian density at `x` for the given mean and
/// standard deviation: `(1/(sd * sqrt(2 pi))) * e^(-((x - mean)/sd)^2 / 2)`,
/// every intermediate step rounded down.
pub open spec fn gaussian_spec(x: int, mean: int, sd: int) -> int {
    let d = if x >= mean {
        x - mean
    } else {
        mean - x
    };
    let ratio = d * SCALE / sd;
    let u = ratio * ratio / (SCALE as int);
    let a = (SCALE as int) * SCALE * SCALE / (sd * SQRT_TAU);
    a * exp_neg_spec(u / 2) / (SCALE as int)
}

/// Applies the Gaussian density function to a fixed-point sample point,
/// sample mean and sample standard deviation.
pub fn gaussian(x: u64, mean: u64, stdev: u64) -> (w: u64)
    requires
        x <= SCALE,
        mean <= SCALE,
        1 <= stdev <= 2 * SCALE,
    ensures
        w == gaussian_spec(x as int, mean as int, stdev as int),
{
    let d = if x >= mean {
        x - mean
    } else {
        mean - x
    };
    let num = d * SCALE;
    let ratio = num / stdev;
    proof {
        assert(ratio <= 1_000_000_000_000) by (nonlinear_arith)
            requires
                ratio == num / stdev,
                num <= 1_000_000_000_000,
                1 <= stdev,
        ;
    }
    proof {
        assert(ratio as int * ratio as int <= 1_000_000_000_000_000_000_000_000int && ratio as int
            * ratio as int / (SCALE as int) <= 1_000_000_000_000_000_000int) by (nonlinear_arith)
            requires
                0 <= ratio <= 1_000_000_000_000,
        ;
    }
    let u = ((ratio as u128 * ratio as u128) / (SCALE as u128)) as u64;
    let t = u / 2;
    let e = exp_neg(t as u128);
    let den = stdev * SQRT_TAU;
    let a = 1_000_000_000_000_000_000u64 / den;
    proof {
        assert(stdev * SQRT_TAU >= SQRT_TAU && stdev * SQRT_TAU <= 2 * SCALE * SQRT_TAU)
            by (nonlinear_arith)
            requires
                1 <= stdev <= 2 * SCALE,
        ;
        assert(a <= 1_000_000_000_000) by (nonlinear_arith)
            requires
                a == 1_000_000_000_000_000_000int / (stdev as int * SQRT_TAU),
                stdev * SQRT_TAU >= SQRT_TAU,
        ;
        assert(a * e <= 1_000_000_000_000_000_000) by (nonlinear_arith)
            requires
                0 <= a <= 1_000_000_000_000,
                0 <= e <= SCALE,
        ;
        assert(SCALE * SCALE * SCALE == 1_000_000_000_000_000_000int);
    }
    a * e / SCALE
}

/// Whether a pixel is selected: every channel's Gaussian density lies at
/// or below its tolerance.
pub open spec fn spec_selected(px: Rgba8, st: ColorStats, th: u64, ts: u64, tl: u64) -> bool {
    &&& gaussian_spec(hsl_fx(px).h as int, st.mean_h as int, st.sd_h as int) <= th
    &&& gaussian_spec(hsl_fx(px).s as int, st.mean_s as int, st.sd_s as int) <= ts
    &&& gaussian_spec(hsl_fx(px).l as int, st.mean_l as int, st.sd_l as int) <= tl
}

/// Classifies every pixel of the image against precomputed statistics,
/// producing a mask: white where selected, black elsewhere.
pub fn classify(img: &Image, st: &ColorStats, th: u64, ts: u64, tl: u64) -> (mask: Image)
    requires
        img.wf(),
        st.mean_h <= SCALE,
        st.mean_s <= SCALE,
        st.mean_l <= SCALE,
        1 <= st.sd_h <= 2 * SCALE,
        1 <= st.sd_s <= 2 * SCALE,
        1 <= st.sd_l <= 2 * SCALE,
    ensures
        mask.wf(),
        mask.same_size(*img),
        forall|x: int, y: int|
            mask.in_bounds(x, y) ==> mask.pix(x, y) == (if spec_selected(
                img.pix(x, y), *st, th, ts, tl,
            ) {
                spec_white()
            } else {
                spec_black()
            }),
{
    let w = img.width;
    let h = img.height;
    let mut mask = black(w, h);
    for y in 0..h
        invariant
            img.wf(),
            img.width == w,
            img.height == h,
            mask.wf(),
            mask.width == w,
            mask.height == h,
            st.mean_h <= SCALE,
            st.mean_s <= SCALE,
            st.mean_l <= SCALE,
            1 <= st.sd_h <= 2 * SCALE,
            1 <= st.sd_s <= 2 * SCALE,
            1 <= st.sd_l <= 2 * SCALE,
            forall|x2: int, y2: int|
                mask.in_bounds(x2, y2) && y2 < y ==> mask.pix(x2, y2) == (if spec_selected(
                    img.pix(x2, y2), *st, th, ts, tl,
                ) {
                    spec_white()
                } else {
                    spec_black()
                }),
    {
        for x in 0..w
            invariant
                img.wf(),
                img.width == w,
                img.height == h,
                mask.wf(),
                mask.width == w,
                mask.height == h,
                y < h,
                st.mean_h <= SCALE,
                st.mean_s <= SCALE,
                st.mean_l <= SCALE,
                1 <= st.sd_h <= 2 * SCALE,
                1 <= st.sd_s <= 2 * SCALE,
                1 <= st.sd_l <= 2 * SCALE,
                forall|x2: int, y2: int|
                    mask.in_bounds(x2, y2) && (y2 < y || (y2 == y && x2 < x)) ==> mask.pix(x2, y2)
                        == (if spec_selected(img.pix(x2, y2), *st, th, ts, tl) {
                        spec_white()
                    } else {
                        spec_black()
                    }),
        {
            let c = img.get(x, y);
            let f = hsl(c).fixed();
            proof {
                assert(f == hsl_fx(c));
                crate::color::lemma_hsl_wf_fixed(c);
            }
            let wh = gaussian(f.h, st.mean_h, st.sd_h);
            let ws = gaussian(f.s, st.mean_s, st.sd_s);
            let wl = gaussian(f.l, st.mean_l, st.sd_l);
            if wh <= th && ws <= ts && wl <= tl {
                mask.set(x, y, white());
            } else {
                mask.set(x, y, black_px());
            }
        }
    }
    mask
}

/// Whether a pixel of the image is selected under the image's own
/// statistics.
pub open spec fn cselect_selected(s: Seq<Rgba8>, px: Rgba8, th: u64, ts: u64, tl: u64) -> bool {
    let m = mean_of(s);
    let sd = sd_of(s);
    &&& gaussian_spec(hsl_fx(px).h as int, m.0, sd.0) <= th
    &&& gaussian_spec(hsl_fx(px).s as int, m.1, sd.1) <= ts
    &&& gaussian_spec(hsl_fx(px).l as int, m.2, sd.2) <= tl
}

/// An integer square root exists for every non-negative argument.
proof fn lemma_isqrt_exists(x: int)
    requires
        0 <= x,
    ensures
        is_isqrt(sqrt_floor(x), x),
    decreases x,
{
    if x == 0 {
        assert(is_isqrt(0, 0)) by (nonlinear_arith);
        lemma_sqrt_floor_of(0, 0);
    } else {
        lemma_isqrt_exists(x - 1);
        let r = sqrt_floor(x - 1);
        if x < (r + 1) * (r + 1) {
            assert(is_isqrt(r, x));
            lemma_sqrt_floor_of(r, x);
        } else {
            assert(is_isqrt(r + 1, x)) by (nonlinear_arith)
                requires
                    is_isqrt(r, x - 1),
                    x >= (r + 1) * (r + 1),
            ;
            lemma_sqrt_floor_of(r + 1, x);
        }
    }
}

/// The statistics of an image give channel means in the unit range and
/// standard deviations below twice the unit.
proof fn lemma_stats_ranges(s: Seq<Rgba8>)
    requires
        valid_n(s) >= 2,
    ensures
        0 <= mean_of(s).0 <= SCALE,
        0 <= mean_of(s).1 <= SCALE,
        0 <= mean_of(s).2 <= SCALE,
        0 <= var_of(s).0 <= 2 * SCALE * SCALE,
        0 <= var_of(s).1 <= 2 * SCALE * SCALE,
        0 <= var_of(s).2 <= 2 * SCALE * SCALE,
        is_isqrt(sd_of(s).0, var_of(s).0),
        is_isqrt(sd_of(s).1, var_of(s).1),
        is_isqrt(sd_of(s).2, var_of(s).2),
        0 <= sd_of(s).0 < 2 * SCALE,
        0 <= sd_of(s).1 < 2 * SCALE,
        0 <= sd_of(s).2 < 2 * SCALE,
{
    crate::stats::lemma_stats_public_bounds(s);
    lemma_isqrt_exists(var_of(s).0);
    lemma_isqrt_exists(var_of(s).1);
    lemma_isqrt_exists(var_of(s).2);
    assert forall|v: int, r: int|
        0 <= v <= 2 * SCALE * SCALE && is_isqrt(r, v) implies r < 2 * SCALE by {
        assert(r < 2 * SCALE) by (nonlinear_arith)
            requires
                0 <= v <= 2 * SCALE * SCALE,
                is_isqrt(r, v),
        ;
    }
}

/// Colour-range select: computes the image's HSL statistics and
/// classifies every pixel against them with the given per-channel
/// tolerances; the pixel-count bound keeps the statistics sums inside a
/// machine word. Degenerate statistics — fewer than two valid pixels, or a
/// zero standard deviation — are reported as insufficient data instead of
/// being propagated into the classifier.
pub fn cselect(img: &Image, th: u64, ts: u64, tl: u64) -> (res: Result<Image, StatsError>)
    requires
        img.wf(),
        img.width * img.height <= 0x10_0000_0000,
    ensures
        match res {
            Ok(mask) => {
                &&& valid_n(img.data@) >= 2
                &&& var_of(img.data@).0 != 0
                &&& var_of(img.data@).1 != 0
                &&& var_of(img.data@).2 != 0
                &&& mask.wf()
                &&& mask.same_size(*img)
                &&& forall|x: int, y: int|
                    mask.in_bounds(x, y) ==> mask.pix(x, y) == (if cselect_selected(
                        img.data@, img.pix(x, y), th, ts, tl,
                    ) {
                        spec_white()
                    } else {
                        spec_black()
                    })
            },
            Err(e) => {
                &&& e == StatsError::InsufficientData
                &&& (valid_n(img.data@) < 2 || var_of(img.data@).0 == 0 || var_of(img.data@).1
                    == 0 || var_of(img.data@).2 == 0)
            },
        },
{
    let st = match cstats(img) {
        Ok(st) => st,
        Err(e) => {
            return Err(e);
        },
    };
    proof {
        lemma_stats_ranges(img.data@);
    }
    if st.sd_h == 0 || st.sd_s == 0 || st.sd_l == 0 {
        proof {
            if st.sd_h == 0 {
                assert(var_of(img.data@).0 == 0) by (nonlinear_arith)
                    requires
                        is_isqrt(0, var_of(img.data@).0),
                ;
            }
            if st.sd_s == 0 {
                assert(var_of(img.data@).1 == 0) by (nonlinear_arith)
                    requires
                        is_isqrt(0, var_of(img.data@).1),
                ;
            }
            if st.sd_l == 0 {
                assert(var_of(img.data@).2 == 0) by (nonlinear_arith)
                    requires
                        is_isqrt(0, var_of(img.data@).2),
                ;
            }
        }
        return Err(StatsError::InsufficientData);
    }
    proof {
        if var_of(img.data@).0 == 0 {
            assert(st.sd_h == 0) by (nonlinear_arith)
                requires
                    is_isqrt(st.sd_h as int, 0),
            ;
        }
        if var_of(img.data@).1 == 0 {
            assert(st.sd_s == 0) by (nonlinear_arith)
                requires
                    is_isqrt(st.sd_s as int, 0),
            ;
        }
        if var_of(img.data@).2 == 0 {
            assert(st.sd_l == 0) by (nonlinear_arith)
                requires
                    is_isqrt(st.sd_l as int, 0),
            ;
        }
    }
    let mask = classify(img, &st, th, ts, tl);
    Ok(mask)
}

/// The fixed-point Euclidean distance between two colours, normalised to
/// `[0, 1]` per channel.
pub open spec fn dist_fx(a: Rgba8, b: Rgba8) -> int {
    sqrt_floor(spec_dist_sq(a, b) * SCALE * SCALE / 65025)
}

/// Computes the normalised fixed-point distance between two colours,
/// ignoring alpha.
pub fn dist(a: Rgba8, b: Rgba8) -> (d: u64)
    ensures
        d == dist_fx(a, b),
        d <= 2 * SCALE,
{
    let q = dist_sq(a, b) as u64;
    proof {
        assert(q * SCALE * SCALE <= 195_075_000_000_000_000int && q * SCALE * SCALE / 65025
            <= 3_000_000_000_000int && 0 <= q * SCALE * SCALE) by (nonlinear_arith)
            requires
                0 <= q <= 195075,
        ;
    }
    let sq = q * SCALE * SCALE / 65025;
    let d = isqrt(sq);
    proof {
        lemma_sqrt_floor_of(d as int, sq as int);
        assert(d <= 2 * SCALE) by (nonlinear_arith)
            requires
                is_isqrt(d as int, sq as int),
                sq <= 3_000_000_000_000,
        ;
    }
    d
}

/// The Gaussian falloff at `x`: `a * e^(-((x - b)/c)^2 / 2)` in fixed
/// point, with `a` the peak height, `b` the centre of the peak and `c`
/// the standard deviation.
pub open spec fn falloff_spec(x: int, a: int, b: int, c: int) -> int {
    let d = if x >= b {
        x - b
    } else {
        b - x
    };
    let ratio = d * SCALE / c;
    let u = ratio * ratio / (SCALE as int);
    a * exp_neg_spec(u / 2) / (SCALE as int)
}

/// Applies the Gaussian falloff function to `x`.
pub fn gauss_falloff(x: u64, a: u64, b: i64, c: u64) -> (w: u64)
    requires
        x <= 2 * SCALE,
        a <= SCALE,
        -8 * (SCALE as i64) <= b <= 8 * (SCALE as i64),
        1 <= c <= SCALE,
    ensures
        w == falloff_spec(x as int, a as int, b as int, c as int),
        w <= SCALE,
{
    let d: u64 = if x as i64 >= b {
        (x as i64 - b) as u64
    } else {
        (b - x as i64) as u64
    };
    proof {
        assert(d <= 10_000_000);
    }
    let num = d * SCALE;
    let ratio = num / c;
    proof {
        assert(ratio <= 10_000_000_000_000int) by (nonlinear_arith)
            requires
                ratio == num / c,
                num <= 10_000_000_000_000,
                1 <= c,
        ;
        assert(ratio as int * ratio as int <= 100_000_000_000_000_000_000_000_000int)
            by (nonlinear_arith)
            requires
                0 <= ratio <= 10_000_000_000_000,
        ;
    }
    let u = (ratio as u128 * ratio as u128) / (SCALE as u128);
    let t = u / 2;
    let e = exp_neg(t);
    proof {
        assert(a * e <= SCALE * SCALE && a as int * e / (SCALE as int) <= SCALE)
            by (nonlinear_arith)
            requires
                0 <= a <= SCALE,
                0 <= e <= SCALE,
        ;
    }
    a * e / SCALE
}

/// Whether a pixel is within the falloff tolerance of a reference colour.
pub open spec fn select_hit(px: Rgba8, col: Rgba8, tol: u64, a: u64, b: i64, c: u64) -> bool {
    falloff_spec(dist_fx(px, col), a as int, b as int, c as int) <= tol
}

/// Selects all pixels whose Gaussian-falloff-weighted distance to the
/// given colour lies at or below the tolerance. Returns a mask: white
/// where selected, transparent black elsewhere.
pub fn select(img: &Image, col: Rgba8, tol: u64, a: u64, b: i64, c: u64) -> (mask: Image)
    requires
        img.wf(),
        a <= SCALE,
        -8 * (SCALE as i64) <= b <= 8 * (SCALE as i64),
        1 <= c <= SCALE,
    ensures
        mask.wf(),
        mask.same_size(*img),
        forall|x: int, y: int|
            mask.in_bounds(x, y) ==> mask.pix(x, y) == (if select_hit(
                img.pix(x, y), col, tol, a, b, c,
            ) {
                spec_white()
            } else {
                spec_clear()
            }),
{
    let w = img.width;
    let h = img.height;
    let mut mask = create_mask(img);
    for y in 0..h
        invariant
            img.wf(),
            img.width == w,
            img.height == h,
            mask.wf(),
            mask.width == w,
            mask.height == h,
            a <= SCALE,
            -8 * (SCALE as i64) <= b <= 8 * (SCALE as i64),
            1 <= c <= SCALE,
            forall|x2: int, y2: int|
                mask.in_bounds(x2, y2) && y2 < y ==> mask.pix(x2, y2) == (if select_hit(
                    img.pix(x2, y2), col, tol, a, b, c,
                ) {
                    spec_white()
                } else {
                    spec_clear()
                }),
            forall|x2: int, y2: int|
                mask.in_bounds(x2, y2) && y2 >= y ==> mask.pix(x2, y2) == spec_clear(),
    {
        for x in 0..w
            invariant
                img.wf(),
                img.width == w,
                img.height == h,
                mask.wf(),
                mask.width == w,
                mask.height == h,
                y < h,
                a <= SCALE,
                -8 * (SCALE as i64) <= b <= 8 * (SCALE as i64),
                1 <= c <= SCALE,
                forall|x2: int, y2: int|
                    mask.in_bounds(x2, y2) && (y2 < y || (y2 == y && x2 < x)) ==> mask.pix(x2, y2)
                        == (if select_hit(img.pix(x2, y2), col, tol, a, b, c) {
                        spec_white()
                    } else {
                        spec_clear()
                    }),
                forall|x2: int, y2: int|
                    mask.in_bounds(x2, y2) && (y2 > y || (y2 == y && x2 >= x)) ==> mask.pix(
                        x2, y2,
                    ) == spec_clear(),
        {
            let px = img.get(x, y);
            let dv = dist(px, col);
            let wv = gauss_falloff(dv, a, b, c);
            if wv <= tol {
                mask.set(x, y, white());
            } else {
                mask.set(x, y, clear_px());
            }
        }
    }
    mask
}

/// Classification is deterministic: identical image, statistics and
/// tolerances give a bit-identical mask — any two masks that satisfy the
/// classifier's contract agree on every pixel.
pub proof fn lemma_classification_deterministic(
    img: Image,
    st: ColorStats,
    th: u64,
    ts: u64,
    tl: u64,
    m1: Image,
    m2: Image,
)
    requires
        m1.same_size(img),
        m2.same_size(img),
        forall|x: int, y: int|
            m1.in_bounds(x, y) ==> m1.pix(x, y) == (if spec_selected(
                img.pix(x, y), st, th, ts, tl,
            ) {
                spec_white()
            } else {
                spec_black()
            }),
        forall|x: int, y: int|
            m2.in_bounds(x, y) ==> m2.pix(x, y) == (if spec_selected(
                img.pix(x, y), st, th, ts, tl,
            ) {
                spec_white()
            } else {
                spec_black()
            }),
    ensures
        m1.same_size(m2),
        forall|x: int, y: int| m1.in_bounds(x, y) ==> m1.pix(x, y) == m2.pix(x, y),
{
}

} // verus!
