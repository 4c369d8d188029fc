//! Statistical colour modelling: per-channel mean and standard deviation
//! of the valid pixels of an image, in fixed-point HSL space.
//!
//! The mean divides by the number of valid pixels; the variance uses the
//! sample denominator (one less than that count). With fewer than two
//! valid pixels the statistics are undefined and reported as an
//! insufficient-data condition.

use vstd::prelude::*;
use crate::color::HslFixed;
use crate::color::hsl;
use crate::color::spec_hsl;
use crate::image::Image;
use crate::image::Rgba8;
use crate::image::SCALE;

verus! {

/// The fixed-point HSL triple of a pixel's colour.
pub open spec fn hsl_fx(c: Rgba8) -> HslFixed {
    spec_hsl(c.r as int, c.g as int, c.b as int).spec_fixed()
}

/// Running totals of fixed-point HSL values over the valid pixels of a
/// buffer.
pub ghost struct HslTotals {
    pub h: int,
    pub s: int,
    pub l: int,
    pub n: int,
}

/// Sum of the fixed-point HSL channels of all valid pixels.
pub open spec fn hsl_totals(s: Seq<Rgba8>) -> HslTotals
    decreases s.len(),
{
    if s.len() == 0 {
        HslTotals { h: 0, s: 0, l: 0, n: 0 }
    } else {
        let p = hsl_totals(s.drop_last());
        if s.last().spec_valid() {
            let f = hsl_fx(s.last());
            HslTotals { h: p.h + f.h, s: p.s + f.s, l: p.l + f.l, n: p.n + 1 }
        } else {
            p
        }
    }
}

/// Squared-deviation totals of the valid pixels against fixed channel
/// means.
pub ghost struct DevTotals {
    pub h: int,
    pub s: int,
    pub l: int,
}

/// The squared deviation of one value from a mean.
pub open spec fn dev_sq(a: int, m: int) -> int {
    (a - m) * (a - m)
}

/// Sum of squared deviations of the valid pixels' fixed-point HSL values
/// from the given means.
pub open spec fn dev_totals(s: Seq<Rgba8>, mh: int, ms: int, ml: int) -> DevTotals
    decreases s.len(),
{
    if s.len() == 0 {
        DevTotals { h: 0, s: 0, l: 0 }
    } else {
        let p = dev_totals(s.drop_last(), mh, ms, ml);
        if s.last().spec_valid() {
            let f = hsl_fx(s.last());
            DevTotals {
                h: p.h + dev_sq(f.h as int, mh),
                s: p.s + dev_sq(f.s as int, ms),
                l: p.l + dev_sq(f.l as int, ml),
            }
        } else {
            p
        }
    }
}

/// How many valid pixels the buffer holds.
pub open spec fn valid_n(s: Seq<Rgba8>) -> int {
    hsl_totals(s).n
}

/// The per-channel fixed-point means over the valid pixels.
pub open spec fn mean_of(s: Seq<Rgba8>) -> (int, int, int) {
    let t = hsl_totals(s);
    (t.h / t.n, t.s / t.n, t.l / t.n)
}

/// The per-channel sample variances (denominator `n - 1`), rounded down.
pub open spec fn var_of(s: Seq<Rgba8>) -> (int, int, int) {
    let m = mean_of(s);
    let d = dev_totals(s, m.0, m.1, m.2);
    let n = valid_n(s);
    (d.h / (n - 1), d.s / (n - 1), d.l / (n - 1))
}

/// `r` is the integer square root of `x`, rounded down.
pub open spec fn is_isqrt(r: int, x: int) -> bool {
    0 <= r && r * r <= x < (r + 1) * (r + 1)
}

/// The integer square root, rounded down.
pub open spec fn sqrt_floor(x: int) -> int {
    choose|r: int| is_isqrt(r, x)
}

/// The integer square root is unique.
pub proof fn lemma_isqrt_unique(r1: int, r2: int, x: int)
    by (nonlinear_arith)
    requires
        is_isqrt(r1, x),
        is_isqrt(r2, x),
    ensures
        r1 == r2,
{
}

/// An exec witness pins down [`sqrt_floor`].
pub proof fn lemma_sqrt_floor_of(r: int, x: int)
    requires
        is_isqrt(r, x),
    ensures
        sqrt_floor(x) == r,
{
    let r2 = choose|r2: int| is_isqrt(r2, x);
    lemma_isqrt_unique(r2, r, x);
}

/// The per-channel sample standard deviations, rounded down.
pub open spec fn sd_of(s: Seq<Rgba8>) -> (int, int, int) {
    let v = var_of(s);
    (sqrt_floor(v.0), sqrt_floor(v.1), sqrt_floor(v.2))
}

/// Per-channel mean and standard deviation in fixed-point HSL.
#[derive(Clone, Copy, PartialEq, Eq, Structural, Debug)]
pub struct ColorStats {
    pub mean_h: u64,
    pub mean_s: u64,
    pub mean_l: u64,
    pub sd_h: u64,
    pub sd_s: u64,
    pub sd_l: u64,
}

/// Degenerate statistics: fewer than two valid pixels, or a zero standard
/// deviation that would divide by zero in the Gaussian weight.
#[derive(Clone, Copy, PartialEq, Eq, Structural, Debug)]
pub enum StatsError {
    InsufficientData,
}

/// `st` holds exactly the statistics of the buffer.
pub open spec fn stats_ok(s: Seq<Rgba8>, st: ColorStats) -> bool {
    &&& valid_n(s) >= 2
    &&& (st.mean_h as int, st.mean_s as int, st.mean_l as int) == mean_of(s)
    &&& (st.sd_h as int, st.sd_s as int, st.sd_l as int) == sd_of(s)
}

/// Computes the integer square root by bisection.
pub fn isqrt(x: u64) -> (r: u64)
    ensures
        is_isqrt(r as int, x as int),
{
    let mut lo: u64 = 0;
    let mut hi: u64 = 0x1_0000_0000;
    proof {
        assert((0x1_0000_0000int + 1) * (0x1_0000_0000int + 1) > x) by (nonlinear_arith)
            requires
                x <= 0xffff_ffff_ffff_ffff,
        ;
    }
    while lo + 1 < hi
        invariant
            lo < hi <= 0x1_0000_0000,
            lo * lo <= x,
            x < hi * hi,
        decreases hi - lo,
    {
        let mid = lo + (hi - lo) / 2;
        let below = if mid <= 0xffff_ffff {
            proof {
                assert(mid * mid <= 0xffff_fffe_0000_0001) by (nonlinear_arith)
                    requires
                        mid <= 0xffff_ffff,
                ;
            }
            mid * mid <= x
        } else {
            false
        };
        if below {
            lo = mid;
        } else {
            proof {
                if mid > 0xffff_ffff {
                    assert(x < mid * mid) by (nonlinear_arith)
                        requires
                            mid > 0xffff_ffff,
                            x <= 0xffff_ffff_ffff_ffff,
                    ;
                }
            }
            hi = mid;
        }
    }
    proof {
        assert(x < (lo + 1) * (lo + 1)) by (nonlinear_arith)
            requires
                x < hi * hi,
                hi == lo + 1,
        ;
    }
    lo
}

/// Statistics of an image: fixed-point HSL mean and sample standard
/// deviation over the valid pixels, or the insufficient-data condition
/// when fewer than two pixels are valid. The pixel-count bound keeps the
/// channel sums inside a machine word.
pub fn cstats(img: &Image) -> (res: Result<ColorStats, StatsError>)
    requires
        img.wf(),
        img.width * img.height <= 0x10_0000_0000,
    ensures
        match res {
            Ok(st) => stats_ok(img.data@, st),
            Err(e) => valid_n(img.data@) < 2 && e == StatsError::InsufficientData,
        },
{
    let data = &img.data;
    let len = data.len();
    let ghost ab: int = 0x10_0000_0000;
    let mut th: u64 = 0;
    let mut ts: u64 = 0;
    let mut tl: u64 = 0;
    let mut n: u64 = 0;
    for i in 0..len
        invariant
            len == data.len() <= ab,
            ab == 0x10_0000_0000,
            th == hsl_totals(data@.take(i as int)).h,
            ts == hsl_totals(data@.take(i as int)).s,
            tl == hsl_totals(data@.take(i as int)).l,
            n == hsl_totals(data@.take(i as int)).n,
    {
        proof {
            lemma_hsl_totals_bounds(data@.take(i as int));
            assert(hsl_totals(data@.take(i as int)).h <= SCALE * ab) by (nonlinear_arith)
                requires
                    hsl_totals(data@.take(i as int)).h <= SCALE * hsl_totals(
                        data@.take(i as int),
                    ).n,
                    0 <= hsl_totals(data@.take(i as int)).n <= i,
                    0 <= i <= ab,
            ;
            assert(hsl_totals(data@.take(i as int)).s <= SCALE * ab && hsl_totals(
                data@.take(i as int),
            ).l <= SCALE * ab) by (nonlinear_arith)
                requires
                    hsl_totals(data@.take(i as int)).s <= SCALE * hsl_totals(
                        data@.take(i as int),
                    ).n,
                    hsl_totals(data@.take(i as int)).l <= SCALE * hsl_totals(
                        data@.take(i as int),
                    ).n,
                    0 <= hsl_totals(data@.take(i as int)).n <= i,
                    0 <= i <= ab,
            ;
        }
        let c = data[i];
        proof {
            assert(data@.take(i + 1).drop_last() =~= data@.take(i as int));
            assert(data@.take(i + 1).last() == c);
        }
        if c.valid() {
            let f = hsl(c).fixed();
            proof {
                assert(f == hsl_fx(c));
            }
            th = th + f.h;
            ts = ts + f.s;
            tl = tl + f.l;
            n = n + 1;
        }
    }
    proof {
        assert(data@.take(len as int) =~= data@);
    }
    if n < 2 {
        return Err(StatsError::InsufficientData);
    }
    let mh = th / n;
    let ms = ts / n;
    let ml = tl / n;
    proof {
        lemma_hsl_totals_bounds(data@);
        lemma_mean_in_range(hsl_totals(data@).h, n as int);
        lemma_mean_in_range(hsl_totals(data@).s, n as int);
        lemma_mean_in_range(hsl_totals(data@).l, n as int);
    }
    let mut dh: u128 = 0;
    let mut ds: u128 = 0;
    let mut dl: u128 = 0;
    for i in 0..len
        invariant
            len == data.len() <= ab,
            ab == 0x10_0000_0000,
            mh <= SCALE,
            ms <= SCALE,
            ml <= SCALE,
            dh == dev_totals(data@.take(i as int), mh as int, ms as int, ml as int).h,
            ds == dev_totals(data@.take(i as int), mh as int, ms as int, ml as int).s,
            dl == dev_totals(data@.take(i as int), mh as int, ms as int, ml as int).l,
    {
        proof {
            lemma_dev_totals_bounds(data@.take(i as int), mh as int, ms as int, ml as int);
            lemma_hsl_totals_bounds(data@.take(i as int));
            assert(dev_totals(data@.take(i as int), mh as int, ms as int, ml as int).h <= SCALE
                * SCALE * ab && dev_totals(data@.take(i as int), mh as int, ms as int, ml as int).s
                <= SCALE * SCALE * ab && dev_totals(
                data@.take(i as int),
                mh as int,
                ms as int,
                ml as int,
            ).l <= SCALE * SCALE * ab) by (nonlinear_arith)
                requires
                    dev_totals(data@.take(i as int), mh as int, ms as int, ml as int).h <= SCALE
                        * SCALE * hsl_totals(data@.take(i as int)).n,
                    dev_totals(data@.take(i as int), mh as int, ms as int, ml as int).s <= SCALE
                        * SCALE * hsl_totals(data@.take(i as int)).n,
                    dev_totals(data@.take(i as int), mh as int, ms as int, ml as int).l <= SCALE
                        * SCALE * hsl_totals(data@.take(i as int)).n,
                    0 <= hsl_totals(data@.take(i as int)).n <= i,
                    0 <= i <= ab,
            ;
        }
        let c = data[i];
        proof {
            assert(data@.take(i + 1).drop_last() =~= data@.take(i as int));
            assert(data@.take(i + 1).last() == c);
        }
        if c.valid() {
            let f = hsl(c).fixed();
            proof {
                assert(f == hsl_fx(c));
            }
            let eh = abs_diff(f.h, mh);
            let es = abs_diff(f.s, ms);
            let el = abs_diff(f.l, ml);
            proof {
                lemma_abs_diff_sq(f.h as int, mh as int, eh as int);
                lemma_abs_diff_sq(f.s as int, ms as int, es as int);
                lemma_abs_diff_sq(f.l as int, ml as int, el as int);
            }
            dh = dh + (eh as u128) * (eh as u128);
            ds = ds + (es as u128) * (es as u128);
            dl = dl + (el as u128) * (el as u128);
        }
    }
    proof {
        assert(data@.take(len as int) =~= data@);
        lemma_dev_totals_bounds(data@, mh as int, ms as int, ml as int);
        lemma_hsl_totals_bounds(data@);
        lemma_var_bound(dev_totals(data@, mh as int, ms as int, ml as int).h, n as int);
        lemma_var_bound(dev_totals(data@, mh as int, ms as int, ml as int).s, n as int);
        lemma_var_bound(dev_totals(data@, mh as int, ms as int, ml as int).l, n as int);
    }
    let vh = (dh / ((n - 1) as u128)) as u64;
    let vs = (ds / ((n - 1) as u128)) as u64;
    let vl = (dl / ((n - 1) as u128)) as u64;
    let sh = isqrt(vh);
    let ss = isqrt(vs);
    let sl = isqrt(vl);
    proof {
        lemma_sqrt_floor_of(sh as int, vh as int);
        lemma_sqrt_floor_of(ss as int, vs as int);
        lemma_sqrt_floor_of(sl as int, vl as int);
    }
    Ok(ColorStats { mean_h: mh, mean_s: ms, mean_l: ml, sd_h: sh, sd_s: ss, sd_l: sl })
}

/// Absolute difference of two fixed-point values.
fn abs_diff(a: u64, b: u64) -> (d: u64)
    ensures
        d == (if a >= b { a - b } else { b - a }),
{
    if a >= b {
        a - b
    } else {
        b - a
    }
}

/// The square of an absolute difference is the squared deviation.
proof fn lemma_abs_diff_sq(a: int, m: int, d: int)
    by (nonlinear_arith)
    requires
        0 <= a <= SCALE,
        0 <= m <= SCALE,
        d == (if a >= m { a - m } else { m - a }),
    ensures
        d * d == dev_sq(a, m),
        0 <= d * d <= SCALE * SCALE,
{
}

/// HSL totals are bounded by `SCALE` per counted pixel.
proof fn lemma_hsl_totals_bounds(s: Seq<Rgba8>)
    ensures
        0 <= hsl_totals(s).n <= s.len(),
        0 <= hsl_totals(s).h <= SCALE * hsl_totals(s).n,
        0 <= hsl_totals(s).s <= SCALE * hsl_totals(s).n,
        0 <= hsl_totals(s).l <= SCALE * hsl_totals(s).n,
    decreases s.len(),
{
    if s.len() > 0 {
        lemma_hsl_totals_bounds(s.drop_last());
        if s.last().spec_valid() {
            crate::color::lemma_hsl_wf_fixed(s.last());
            assert(SCALE * (hsl_totals(s.drop_last()).n + 1) == SCALE * hsl_totals(
                s.drop_last(),
            ).n + SCALE) by (nonlinear_arith);
        }
    }
}

/// Deviation totals are bounded by `SCALE * SCALE` per pixel.
proof fn lemma_dev_totals_bounds(s: Seq<Rgba8>, mh: int, ms: int, ml: int)
    requires
        0 <= mh <= SCALE,
        0 <= ms <= SCALE,
        0 <= ml <= SCALE,
    ensures
        0 <= dev_totals(s, mh, ms, ml).h <= SCALE * SCALE * hsl_totals(s).n,
        0 <= dev_totals(s, mh, ms, ml).s <= SCALE * SCALE * hsl_totals(s).n,
        0 <= dev_totals(s, mh, ms, ml).l <= SCALE * SCALE * hsl_totals(s).n,
    decreases s.len(),
{
    if s.len() > 0 {
        lemma_dev_totals_bounds(s.drop_last(), mh, ms, ml);
        if s.last().spec_valid() {
            crate::color::lemma_hsl_wf_fixed(s.last());
            let f = hsl_fx(s.last());
            assert(0 <= dev_sq(f.h as int, mh) <= SCALE * SCALE && 0 <= dev_sq(f.s as int, ms)
                <= SCALE * SCALE && 0 <= dev_sq(f.l as int, ml) <= SCALE * SCALE)
                by (nonlinear_arith)
                requires
                    0 <= f.h <= SCALE,
                    0 <= f.s <= SCALE,
                    0 <= f.l <= SCALE,
                    0 <= mh <= SCALE,
                    0 <= ms <= SCALE,
                    0 <= ml <= SCALE,
            ;
        }
        lemma_hsl_totals_bounds(s.drop_last());
        lemma_hsl_totals_bounds(s);
        assert(SCALE * SCALE * (hsl_totals(s.drop_last()).n + 1) == SCALE * SCALE * hsl_totals(
            s.drop_last(),
        ).n + SCALE * SCALE) by (nonlinear_arith);
    } else {
        assert(SCALE * SCALE * 0 == 0) by (nonlinear_arith);
    }
}

/// A mean of values in the unit range stays in the unit range.
proof fn lemma_mean_in_range(total: int, n: int)
    by (nonlinear_arith)
    requires
        1 <= n,
        0 <= total <= SCALE * n,
    ensures
        0 <= total / n <= SCALE,
{
}

/// The sample variance of unit-range values fits in a machine word.
proof fn lemma_var_bound(total: int, n: int)
    by (nonlinear_arith)
    requires
        2 <= n,
        0 <= total <= SCALE * SCALE * n,
    ensures
        0 <= total / (n - 1) <= 2 * SCALE * SCALE,
{
}

/// Channel totals over all pixels, alpha included.
pub ghost struct RgbaTotals {
    pub r: int,
    pub g: int,
    pub b: int,
    pub a: int,
}

/// Sum of every channel of every pixel, valid or not.
pub open spec fn all_totals(s: Seq<Rgba8>) -> RgbaTotals
    decreases s.len(),
{
    if s.len() == 0 {
        RgbaTotals { r: 0, g: 0, b: 0, a: 0 }
    } else {
        let p = all_totals(s.drop_last());
        let c = s.last();
        RgbaTotals { r: p.r + c.r, g: p.g + c.g, b: p.b + c.b, a: p.a + c.a }
    }
}

/// RGB totals and count over the valid pixels only.
pub open spec fn valid_rgb_totals(s: Seq<Rgba8>) -> crate::chunks::TileSum
    decreases s.len(),
{
    if s.len() == 0 {
        crate::chunks::TileSum { r: 0, g: 0, b: 0, n: 0 }
    } else {
        let p = valid_rgb_totals(s.drop_last());
        let c = s.last();
        if c.spec_valid() {
            crate::chunks::TileSum { r: p.r + c.r, g: p.g + c.g, b: p.b + c.b, n: p.n + 1 }
        } else {
            p
        }
    }
}

/// All-pixel totals are bounded by `255` per pixel.
proof fn lemma_all_totals_bounds(s: Seq<Rgba8>)
    ensures
        0 <= all_totals(s).r <= 255 * s.len(),
        0 <= all_totals(s).g <= 255 * s.len(),
        0 <= all_totals(s).b <= 255 * s.len(),
        0 <= all_totals(s).a <= 255 * s.len(),
    decreases s.len(),
{
    if s.len() > 0 {
        lemma_all_totals_bounds(s.drop_last());
        assert(255 * s.len() == 255 * (s.len() - 1) + 255);
    }
}

/// Valid-pixel totals are bounded by `255` per counted pixel, and the
/// count by the length.
proof fn lemma_valid_rgb_totals_bounds(s: Seq<Rgba8>)
    ensures
        0 <= valid_rgb_totals(s).n <= s.len(),
        0 <= valid_rgb_totals(s).r <= 255 * valid_rgb_totals(s).n,
        0 <= valid_rgb_totals(s).g <= 255 * valid_rgb_totals(s).n,
        0 <= valid_rgb_totals(s).b <= 255 * valid_rgb_totals(s).n,
    decreases s.len(),
{
    if s.len() > 0 {
        lemma_valid_rgb_totals_bounds(s.drop_last());
        assert(255 * (valid_rgb_totals(s.drop_last()).n + 1) == 255 * valid_rgb_totals(
            s.drop_last(),
        ).n + 255) by (nonlinear_arith);
    }
}

/// The mean of channel values over at least as many pixels stays an 8-bit
/// value.
proof fn lemma_channel_mean_bound(total: int, cnt: int, area: int)
    by (nonlinear_arith)
    requires
        1 <= area,
        0 <= cnt <= area,
        0 <= total <= 255 * cnt,
    ensures
        0 <= total / area <= 255,
{
}

/// The average colour of the valid pixels of an image, dividing each
/// channel sum by the whole pixel count and rounding down; fully opaque.
pub fn avg_col(img: &Image) -> (res: Rgba8)
    requires
        img.wf(),
        1 <= img.width * img.height <= 0x1_0000_0000_0000,
    ensures
        res.r as int == valid_rgb_totals(img.data@).r / (img.width * img.height),
        res.g as int == valid_rgb_totals(img.data@).g / (img.width * img.height),
        res.b as int == valid_rgb_totals(img.data@).b / (img.width * img.height),
        res.a == 255,
{
    let data = &img.data;
    let len = data.len();
    let ghost ab: int = 0x1_0000_0000_0000;
    let mut sr: u64 = 0;
    let mut sg: u64 = 0;
    let mut sb: u64 = 0;
    for i in 0..len
        invariant
            len == data.len() <= ab,
            ab == 0x1_0000_0000_0000,
            sr == valid_rgb_totals(data@.take(i as int)).r,
            sg == valid_rgb_totals(data@.take(i as int)).g,
            sb == valid_rgb_totals(data@.take(i as int)).b,
    {
        proof {
            lemma_valid_rgb_totals_bounds(data@.take(i as int));
            assert(valid_rgb_totals(data@.take(i as int)).r <= 255 * ab && valid_rgb_totals(
                data@.take(i as int),
            ).g <= 255 * ab && valid_rgb_totals(data@.take(i as int)).b <= 255 * ab)
                by (nonlinear_arith)
                requires
                    valid_rgb_totals(data@.take(i as int)).r <= 255 * valid_rgb_totals(
                        data@.take(i as int),
                    ).n,
                    valid_rgb_totals(data@.take(i as int)).g <= 255 * valid_rgb_totals(
                        data@.take(i as int),
                    ).n,
                    valid_rgb_totals(data@.take(i as int)).b <= 255 * valid_rgb_totals(
                        data@.take(i as int),
                    ).n,
                    0 <= valid_rgb_totals(data@.take(i as int)).n <= i,
                    0 <= i <= ab,
            ;
        }
        let c = data[i];
        proof {
            assert(data@.take(i + 1).drop_last() =~= data@.take(i as int));
            assert(data@.take(i + 1).last() == c);
        }
        if c.valid() {
            sr = sr + c.r as u64;
            sg = sg + c.g as u64;
            sb = sb + c.b as u64;
        }
    }
    proof {
        assert(data@.take(len as int) =~= data@);
        lemma_valid_rgb_totals_bounds(data@);
        lemma_channel_mean_bound(valid_rgb_totals(data@).r, valid_rgb_totals(data@).n, len as int);
        lemma_channel_mean_bound(valid_rgb_totals(data@).g, valid_rgb_totals(data@).n, len as int);
        lemma_channel_mean_bound(valid_rgb_totals(data@).b, valid_rgb_totals(data@).n, len as int);
    }
    let area = data.len() as u64;
    Rgba8 { r: (sr / area) as u8, g: (sg / area) as u8, b: (sb / area) as u8, a: 255 }
}

/// The average of each channel over every pixel of the image, alpha
/// included, rounding down.
pub fn average(img: &Image) -> (res: Rgba8)
    requires
        img.wf(),
        1 <= img.width * img.height <= 0x1_0000_0000_0000,
    ensures
        res.r as int == all_totals(img.data@).r / (img.width * img.height),
        res.g as int == all_totals(img.data@).g / (img.width * img.height),
        res.b as int == all_totals(img.data@).b / (img.width * img.height),
        res.a as int == all_totals(img.data@).a / (img.width * img.height),
{
    let data = &img.data;
    let len = data.len();
    let ghost ab: int = 0x1_0000_0000_0000;
    let mut sr: u64 = 0;
    let mut sg: u64 = 0;
    let mut sb: u64 = 0;
    let mut sa: u64 = 0;
    for i in 0..len
        invariant
            len == data.len() <= ab,
            ab == 0x1_0000_0000_0000,
            sr == all_totals(data@.take(i as int)).r,
            sg == all_totals(data@.take(i as int)).g,
            sb == all_totals(data@.take(i as int)).b,
            sa == all_totals(data@.take(i as int)).a,
    {
        proof {
            lemma_all_totals_bounds(data@.take(i as int));
            assert(255 * i <= 255 * ab);
        }
        let c = data[i];
        proof {
            assert(data@.take(i + 1).drop_last() =~= data@.take(i as int));
            assert(data@.take(i + 1).last() == c);
        }
        sr = sr + c.r as u64;
        sg = sg + c.g as u64;
        sb = sb + c.b as u64;
        sa = sa + c.a as u64;
    }
    proof {
        assert(data@.take(len as int) =~= data@);
        lemma_all_totals_bounds(data@);
        lemma_channel_mean_bound(all_totals(data@).r, len as int, len as int);
        lemma_channel_mean_bound(all_totals(data@).g, len as int, len as int);
        lemma_channel_mean_bound(all_totals(data@).b, len as int, len as int);
        lemma_channel_mean_bound(all_totals(data@).a, len as int, len as int);
    }
    let area = data.len() as u64;
    Rgba8 {
        r: (sr / area) as u8,
        g: (sg / area) as u8,
        b: (sb / area) as u8,
        a: (sa / area) as u8,
    }
}

/// The statistics of any buffer with at least two valid pixels lie in
/// range: means within the unit cube, variances at most twice its square.
pub proof fn lemma_stats_public_bounds(s: Seq<Rgba8>)
    requires
        valid_n(s) >= 2,
    ensures
        0 <= mean_of(s).0 <= SCALE,
        0 <= mean_of(s).1 <= SCALE,
        0 <= mean_of(s).2 <= SCALE,
        0 <= var_of(s).0 <= 2 * SCALE * SCALE,
        0 <= var_of(s).1 <= 2 * SCALE * SCALE,
        0 <= var_of(s).2 <= 2 * SCALE * SCALE,
{
    lemma_hsl_totals_bounds(s);
    let t = hsl_totals(s);
    lemma_mean_in_range(t.h, t.n);
    lemma_mean_in_range(t.s, t.n);
    lemma_mean_in_range(t.l, t.n);
    let m = mean_of(s);
    lemma_dev_totals_bounds(s, m.0, m.1, m.2);
    lemma_var_bound(dev_totals(s, m.0, m.1, m.2).h, t.n);
    lemma_var_bound(dev_totals(s, m.0, m.1, m.2).s, t.n);
    lemma_var_bound(dev_totals(s, m.0, m.1, m.2).l, t.n);
}

/// In a buffer whose valid pixels all share the colour of `c`, the HSL
/// totals are the count times `c`'s fixed HSL and the deviations from that
/// colour's channels vanish.
proof fn lemma_uniform_totals(s: Seq<Rgba8>, c: Rgba8)
    requires
        forall|i: int|
            0 <= i < s.len() && (#[trigger] s[i]).spec_valid() ==> s[i].r == c.r && s[i].g == c.g
                && s[i].b == c.b,
    ensures
        hsl_totals(s).h == hsl_totals(s).n * hsl_fx(c).h,
        hsl_totals(s).s == hsl_totals(s).n * hsl_fx(c).s,
        hsl_totals(s).l == hsl_totals(s).n * hsl_fx(c).l,
        dev_totals(s, hsl_fx(c).h as int, hsl_fx(c).s as int, hsl_fx(c).l as int).h == 0,
        dev_totals(s, hsl_fx(c).h as int, hsl_fx(c).s as int, hsl_fx(c).l as int).s == 0,
        dev_totals(s, hsl_fx(c).h as int, hsl_fx(c).s as int, hsl_fx(c).l as int).l == 0,
    decreases s.len(),
{
    if s.len() > 0 {
        lemma_uniform_totals(s.drop_last(), c);
        if s.last().spec_valid() {
            assert(hsl_fx(s.last()) == hsl_fx(c));
            let n0 = hsl_totals(s.drop_last()).n;
            assert((n0 + 1) * hsl_fx(c).h == n0 * hsl_fx(c).h + hsl_fx(c).h && (n0 + 1) * hsl_fx(
                c,
            ).s == n0 * hsl_fx(c).s + hsl_fx(c).s && (n0 + 1) * hsl_fx(c).l == n0 * hsl_fx(c).l
                + hsl_fx(c).l) by (nonlinear_arith);
            assert(dev_sq(hsl_fx(c).h as int, hsl_fx(c).h as int) == 0 && dev_sq(
                hsl_fx(c).s as int,
                hsl_fx(c).s as int,
            ) == 0 && dev_sq(hsl_fx(c).l as int, hsl_fx(c).l as int) == 0) by (nonlinear_arith);
        }
    }
}

/// If all valid pixels share one colour, the per-channel mean is exactly
/// that colour's fixed-point HSL and every standard deviation is zero.
pub proof fn lemma_uniform_stats(s: Seq<Rgba8>, c: Rgba8, st: ColorStats)
    requires
        stats_ok(s, st),
        forall|i: int|
            0 <= i < s.len() && (#[trigger] s[i]).spec_valid() ==> s[i].r == c.r && s[i].g == c.g
                && s[i].b == c.b,
    ensures
        st.mean_h == hsl_fx(c).h,
        st.mean_s == hsl_fx(c).s,
        st.mean_l == hsl_fx(c).l,
        st.sd_h == 0,
        st.sd_s == 0,
        st.sd_l == 0,
{
    lemma_uniform_totals(s, c);
    let n = valid_n(s);
    vstd::arithmetic::div_mod::lemma_div_multiples_vanish(hsl_fx(c).h as int, n);
    vstd::arithmetic::div_mod::lemma_div_multiples_vanish(hsl_fx(c).s as int, n);
    vstd::arithmetic::div_mod::lemma_div_multiples_vanish(hsl_fx(c).l as int, n);
    assert(n * hsl_fx(c).h == hsl_totals(s).h && n * hsl_fx(c).s == hsl_totals(s).s && n * hsl_fx(
        c,
    ).l == hsl_totals(s).l) by (nonlinear_arith)
        requires
            hsl_totals(s).h == n * hsl_fx(c).h,
            hsl_totals(s).s == n * hsl_fx(c).s,
            hsl_totals(s).l == n * hsl_fx(c).l,
            n == hsl_totals(s).n,
    ;
    assert(mean_of(s) == (hsl_fx(c).h as int, hsl_fx(c).s as int, hsl_fx(c).l as int));
    assert(var_of(s) == (0int, 0int, 0int));
    assert(is_isqrt(0, 0)) by (nonlinear_arith);
    lemma_sqrt_floor_of(0, 0);
}

} // verus!
