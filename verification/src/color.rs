//! RGB <-> HSL conversion with defined edge cases.
//!
//! An HSL triple produced from an 8-bit colour is an exact rational: each of
//! hue, saturation and lightness is stored as a numerator/denominator pair.
//! This keeps the conversion free of rounding, so the inverse conversion can
//! reconstruct the original 8-bit colour exactly.

use vstd::prelude::*;
use crate::image::Rgba8;
use crate::image::SCALE;

verus! {

/// Largest denominator a well-formed [`Hsl`] may carry; conversions from
/// 8-bit colours stay far below it.
pub const MAX_DEN: u32 = 100_000;

/// An exact HSL triple: hue, saturation and lightness as rationals in
/// `[0, 1]`.
#[derive(Clone, Copy, PartialEq, Eq, Structural, Debug)]
pub struct Hsl {
    pub h_num: u32,
    pub h_den: u32,
    pub s_num: u32,
    pub s_den: u32,
    pub l_num: u32,
    pub l_den: u32,
}

/// An HSL triple quantised to the fixed-point scale used by the statistics
/// and classification passes: each channel lies in `0 ..= SCALE`.
#[derive(Clone, Copy, PartialEq, Eq, Structural, Debug)]
pub struct HslFixed {
    pub h: u64,
    pub s: u64,
    pub l: u64,
}

impl Hsl {
    /// Each channel is a fraction in `[0, 1]` with a bounded positive
    /// denominator.
    pub open spec fn wf(self) -> bool {
        &&& 1 <= self.h_den <= MAX_DEN
        &&& 1 <= self.s_den <= MAX_DEN
        &&& 1 <= self.l_den <= MAX_DEN
        &&& self.h_num <= self.h_den
        &&& self.s_num <= self.s_den
        &&& self.l_num <= self.l_den
    }

    /// Quantises the triple to the fixed-point scale, rounding down.
    pub fn fixed(&self) -> (f: HslFixed)
        requires
            self.wf(),
        ensures
            f == self.spec_fixed(),
            f.h <= SCALE,
            f.s <= SCALE,
            f.l <= SCALE,
    {
        let h = self.h_num as u64 * SCALE / self.h_den as u64;
        let s = self.s_num as u64 * SCALE / self.s_den as u64;
        let l = self.l_num as u64 * SCALE / self.l_den as u64;
        proof {
            lemma_frac_fixed_bound(self.h_num as int, self.h_den as int);
            lemma_frac_fixed_bound(self.s_num as int, self.s_den as int);
            lemma_frac_fixed_bound(self.l_num as int, self.l_den as int);
        }
        HslFixed { h, s, l }
    }

    /// The fixed-point image of the triple.
    pub open spec fn spec_fixed(self) -> HslFixed {
        HslFixed {
            h: (self.h_num * SCALE / self.h_den as int) as u64,
            s: (self.s_num * SCALE / self.s_den as int) as u64,
            l: (self.l_num * SCALE / self.l_den as int) as u64,
        }
    }
}

/// `num/den <= 1` scaled by `SCALE` stays within `0 ..= SCALE`.
proof fn lemma_frac_fixed_bound(num: int, den: int)
    by (nonlinear_arith)
    requires
        1 <= den,
        0 <= num <= den,
    ensures
        0 <= num * SCALE / den <= SCALE,
{
}

/// The largest of three channel values.
pub open spec fn max3(r: int, g: int, b: int) -> int {
    if r >= g && r >= b {
        r
    } else if g >= b {
        g
    } else {
        b
    }
}

/// The smallest of three channel values.
pub open spec fn min3(r: int, g: int, b: int) -> int {
    if r <= g && r <= b {
        r
    } else if g <= b {
        g
    } else {
        b
    }
}

/// Chroma: the spread between the largest and smallest channel.
pub open spec fn chroma(r: int, g: int, b: int) -> int {
    max3(r, g, b) - min3(r, g, b)
}

/// Hue numerator over the denominator `6 * chroma`; zero for achromatic
/// colours. The maximal channel is resolved in the order red, blue, green.
pub open spec fn hue_num(r: int, g: int, b: int) -> int {
    let mx = max3(r, g, b);
    let c = chroma(r, g, b);
    if c == 0 {
        0
    } else if mx == r {
        if g >= b {
            g - b
        } else {
            g - b + 6 * c
        }
    } else if mx == b {
        r - g + 4 * c
    } else {
        b - r + 2 * c
    }
}

/// Hue denominator: `6 * chroma`, or `1` for achromatic colours.
pub open spec fn hue_den(r: int, g: int, b: int) -> int {
    let c = chroma(r, g, b);
    if c == 0 {
        1
    } else {
        6 * c
    }
}

/// Saturation numerator: the chroma itself for chromatic colours.
pub open spec fn sat_num(r: int, g: int, b: int) -> int {
    if chroma(r, g, b) == 0 {
        0
    } else {
        chroma(r, g, b)
    }
}

/// Saturation denominator, split on whether lightness exceeds one half to
/// avoid division blow-ups near the extremes.
pub open spec fn sat_den(r: int, g: int, b: int) -> int {
    let sum = max3(r, g, b) + min3(r, g, b);
    if chroma(r, g, b) == 0 {
        1
    } else if sum <= 255 {
        sum
    } else {
        510 - sum
    }
}

/// Lightness numerator over the fixed denominator `510`.
pub open spec fn light_num(r: int, g: int, b: int) -> int {
    max3(r, g, b) + min3(r, g, b)
}

/// The exact HSL triple of an 8-bit colour.
pub open spec fn spec_hsl(r: int, g: int, b: int) -> Hsl {
    Hsl {
        h_num: hue_num(r, g, b) as u32,
        h_den: hue_den(r, g, b) as u32,
        s_num: sat_num(r, g, b) as u32,
        s_den: sat_den(r, g, b) as u32,
        l_num: light_num(r, g, b) as u32,
        l_den: 510u32,
    }
}

/// Converts an 8-bit colour to its exact HSL triple. Achromatic colours
/// (equal channels) yield hue `0` and saturation `0`.
pub fn hsl(col: Rgba8) -> (res: Hsl)
    ensures
        res == spec_hsl(col.r as int, col.g as int, col.b as int),
        res.wf(),
{
    let r = col.r as u32;
    let g = col.g as u32;
    let b = col.b as u32;
    let mx0 = if r >= g { r } else { g };
    let mx = if mx0 >= b { mx0 } else { b };
    let mn0 = if r <= g { r } else { g };
    let mn = if mn0 <= b { mn0 } else { b };
    let sum = mx + mn;
    if mx == mn {
        Hsl { h_num: 0, h_den: 1, s_num: 0, s_den: 1, l_num: sum, l_den: 510 }
    } else {
        let c = mx - mn;
        let h_den = 6 * c;
        let h_num = if mx == r {
            if g >= b {
                g - b
            } else {
                g + 6 * c - b
            }
        } else if mx == b {
            r + 4 * c - g
        } else {
            b + 2 * c - r
        };
        let s_den = if sum <= 255 { sum } else { 510 - sum };
        Hsl { h_num, h_den, s_num: c, s_den, l_num: sum, l_den: 510 }
    }
}

/// Numerator of `q`, the upper helper point of the inverse conversion, over
/// the denominator `l_den * s_den`.
pub open spec fn q_num(h: Hsl) -> int {
    if 2 * h.l_num < h.l_den {
        h.l_num * (h.s_den + h.s_num)
    } else {
        h.l_num * h.s_den + h.s_num * h.l_den - h.l_num * h.s_num
    }
}

/// Shared denominator of the helper points `p` and `q`.
pub open spec fn pq_den(h: Hsl) -> int {
    h.l_den * h.s_den
}

/// Numerator of `p`, the lower helper point: `2*l - q`.
pub open spec fn p_num(h: Hsl) -> int {
    2 * h.l_num * h.s_den - q_num(h)
}

/// Wraps a hue offset numerator into `[0, td]`.
pub open spec fn wrap_num(tn: int, td: int) -> int {
    if tn < 0 {
        tn + td
    } else if tn > td {
        tn - td
    } else {
        tn
    }
}

/// Numerator of the piecewise-linear hue ramp over the denominator
/// `qd * td`, where `p = pn/qd`, `q = qn/qd` and the wrapped hue offset is
/// `tn/td`.
pub open spec fn hue2rgb_num(pn: int, qn: int, tn: int, td: int) -> int {
    if 6 * tn < td {
        pn * td + (qn - pn) * 6 * tn
    } else if 2 * tn < td {
        qn * td
    } else if 3 * tn < 2 * td {
        pn * td + (qn - pn) * (4 * td - 6 * tn)
    } else {
        pn * td
    }
}

/// The 8-bit value of one reconstructed channel: the hue ramp value scaled
/// to `0 ..= 255` and rounded down.
pub open spec fn channel_val(pn: int, qn: int, qd: int, tn: int, td: int) -> int {
    255 * hue2rgb_num(pn, qn, tn, td) / (qd * td)
}

/// Hue offset numerator of the red channel: `h + 1/3` over `3 * h_den`.
pub open spec fn t_red(h: Hsl) -> int {
    wrap_num(3 * h.h_num + h.h_den, 3 * h.h_den)
}

/// Hue offset numerator of the green channel: `h` over `3 * h_den`.
pub open spec fn t_green(h: Hsl) -> int {
    wrap_num(3 * h.h_num, 3 * h.h_den)
}

/// Hue offset numerator of the blue channel: `h - 1/3` over `3 * h_den`.
pub open spec fn t_blue(h: Hsl) -> int {
    wrap_num(3 * h.h_num - h.h_den, 3 * h.h_den)
}

/// The reconstructed 8-bit value of one channel, given its hue offset
/// numerator; achromatic triples reproduce the lightness alone.
pub open spec fn rgb_channel(h: Hsl, tn: int) -> int {
    if h.s_num == 0 {
        255 * h.l_num / h.l_den as int
    } else {
        channel_val(p_num(h), q_num(h), pq_den(h), tn, 3 * h.h_den)
    }
}

/// Bounds needed by the exec arithmetic: `0 <= p <= q <= 1` as numerators
/// over `pq_den`.
proof fn lemma_pq_bounds(h: Hsl)
    by (nonlinear_arith)
    requires
        h.wf(),
        h.s_num > 0,
    ensures
        0 < pq_den(h) <= MAX_DEN * MAX_DEN,
        0 <= p_num(h),
        p_num(h) <= q_num(h),
        q_num(h) <= pq_den(h),
{
}

/// The hue ramp numerator stays within `[pn*td, qn*td]`, so the channel
/// value stays within `[0, 255]`.
proof fn lemma_hue2rgb_bounds(pn: int, qn: int, qd: int, tn: int, td: int)
    by (nonlinear_arith)
    requires
        0 < qd,
        0 < td,
        0 <= pn <= qn <= qd,
        0 <= tn <= td,
    ensures
        0 <= hue2rgb_num(pn, qn, tn, td) <= qd * td,
        0 <= channel_val(pn, qn, qd, tn, td) <= 255,
{
    assert(0 <= hue2rgb_num(pn, qn, tn, td) <= qd * td);
    assert(255 * hue2rgb_num(pn, qn, tn, td) <= 255 * (qd * td));
    assert(channel_val(pn, qn, qd, tn, td) <= 255);
}

/// Evaluates one channel of the inverse conversion with exact integer
/// arithmetic.
fn hue2rgb_ch(pn: u64, qn: u64, qd: u64, tn: u64, td: u64) -> (v: u8)
    requires
        0 < qd <= MAX_DEN * MAX_DEN,
        0 < td <= 300_000,
        pn <= qn <= qd,
        tn <= td,
    ensures
        v as int == channel_val(pn as int, qn as int, qd as int, tn as int, td as int),
{
    proof {
        lemma_hue2rgb_bounds(pn as int, qn as int, qd as int, tn as int, td as int);
        lemma_mul_bounds_simple(pn as int, qn as int, qd as int, tn as int, td as int);
    }
    let num: u64 = if 6 * tn < td {
        pn * td + (qn - pn) * (6 * tn)
    } else if 2 * tn < td {
        qn * td
    } else if 3 * tn < 2 * td {
        pn * td + (qn - pn) * (4 * td - 6 * tn)
    } else {
        pn * td
    };
    proof {
        assert(num == hue2rgb_num(pn as int, qn as int, tn as int, td as int)) by {
            assert((qn - pn) * (6 * tn) == (qn as int - pn as int) * 6 * tn) by (nonlinear_arith);
        }
    }
    let den: u64 = qd * td;
    let v: u64 = 255 * num / den;
    v as u8
}

/// Overflow bounds for the products in [`hue2rgb_ch`].
proof fn lemma_mul_bounds_simple(pn: int, qn: int, qd: int, tn: int, td: int)
    by (nonlinear_arith)
    requires
        0 < qd <= MAX_DEN * MAX_DEN,
        0 < td <= 300_000,
        0 <= pn <= qn <= qd,
        0 <= tn <= td,
    ensures
        pn * td <= qd * td,
        qn * td <= qd * td,
        (qn - pn) * (6 * tn) <= qd * (6 * td),
        (qn - pn) * (4 * td - 6 * tn) <= qd * (4 * td),
        0 < qd * td <= 3_000_000_000_000_000,
        qd * (6 * td) <= 18_000_000_000_000_000,
        qd * (4 * td) <= 12_000_000_000_000_000,
{
}

/// Converts an HSL triple back to an 8-bit colour, the exact inverse of
/// [`hsl`] wherever the triple came from an 8-bit colour. The result is
/// fully opaque.
pub fn rgb(h: &Hsl) -> (res: Rgba8)
    requires
        h.wf(),
    ensures
        res.r as int == rgb_channel(*h, t_red(*h)),
        res.g as int == rgb_channel(*h, t_green(*h)),
        res.b as int == rgb_channel(*h, t_blue(*h)),
        res.a == 255,
{
    if h.s_num == 0 {
        proof {
            lemma_frac_times_255(h.l_num as int, h.l_den as int);
        }
        let v = (255 * h.l_num as u64 / h.l_den as u64) as u8;
        Rgba8 { r: v, g: v, b: v, a: 255 }
    } else {
        proof {
            lemma_pq_bounds(*h);
        }
        let ln = h.l_num as u64;
        let ld = h.l_den as u64;
        let sn = h.s_num as u64;
        let sd = h.s_den as u64;
        proof {
            assert(ln * sd <= 10_000_000_000 && sn * ld <= 10_000_000_000 && ln * sn <= ln * sd
                && ln * (sd + sn) <= 20_000_000_000 && 2 * (ln * sd) <= 20_000_000_000)
                by (nonlinear_arith)
                requires
                    ln <= 100_000,
                    sd <= 100_000,
                    ld <= 100_000,
                    sn <= sd,
            ;
        }
        let qd = ld * sd;
        let qn = if 2 * ln < ld {
            ln * (sd + sn)
        } else {
            ln * sd + sn * ld - ln * sn
        };
        let pn = 2 * ln * sd - qn;
        let hn = h.h_num as u64;
        let hd = h.h_den as u64;
        let td = 3 * hd;
        let tr = if 3 * hn + hd > td {
            3 * hn + hd - td
        } else {
            3 * hn + hd
        };
        let tg = 3 * hn;
        let tb = if 3 * hn < hd {
            3 * hn + 2 * hd
        } else {
            3 * hn - hd
        };
        let r = hue2rgb_ch(pn, qn, qd, tr, td);
        let g = hue2rgb_ch(pn, qn, qd, tg, td);
        let b = hue2rgb_ch(pn, qn, qd, tb, td);
        Rgba8 { r, g, b, a: 255 }
    }
}

/// `255 * num / den` stays within `0 ..= 255` for a fraction in `[0, 1]`.
proof fn lemma_frac_times_255(num: int, den: int)
    by (nonlinear_arith)
    requires
        1 <= den,
        0 <= num <= den,
    ensures
        0 <= 255 * num / den <= 255,
{
}

/// The exact HSL triple of any 8-bit colour is well formed, so its
/// fixed-point image lies in the unit cube.
pub proof fn lemma_hsl_wf_fixed(c: Rgba8)
    ensures
        spec_hsl(c.r as int, c.g as int, c.b as int).wf(),
        0 <= spec_hsl(c.r as int, c.g as int, c.b as int).spec_fixed().h <= SCALE,
        0 <= spec_hsl(c.r as int, c.g as int, c.b as int).spec_fixed().s <= SCALE,
        0 <= spec_hsl(c.r as int, c.g as int, c.b as int).spec_fixed().l <= SCALE,
{
    let hq = spec_hsl(c.r as int, c.g as int, c.b as int);
    assert(hq.wf());
    lemma_frac_fixed_bound(hq.h_num as int, hq.h_den as int);
    lemma_frac_fixed_bound(hq.s_num as int, hq.s_den as int);
    lemma_frac_fixed_bound(hq.l_num as int, hq.l_den as int);
}

/// Achromatic colours (equal channels) always yield hue `0` and
/// saturation `0`.
pub proof fn lemma_achromatic_hue_zero(v: int)
    requires
        0 <= v <= 255,
    ensures
        spec_hsl(v, v, v).h_num == 0,
        spec_hsl(v, v, v).s_num == 0,
{
}

/// If the ramp numerator equals `x` scaled by the full denominator, the
/// channel value is exactly `x`.
proof fn lemma_channel_exact_div(pn: int, qn: int, qd: int, tn: int, td: int, x: int)
    by (nonlinear_arith)
    requires
        0 < qd,
        0 < td,
        255 * hue2rgb_num(pn, qn, tn, td) == x * (qd * td),
    ensures
        channel_val(pn, qn, qd, tn, td) == x,
{
}

/// If `p` and `q` are `lo/255` and `hi/255` and the ramp identity holds for
/// `x` at the hue offset `tn/td`, the channel reconstructs exactly `x`.
proof fn lemma_ramp_reconstruct(pn: int, qn: int, qd: int, tn: int, td: int, lo: int, hi: int, x: int)
    requires
        0 < qd,
        0 < td,
        0 <= tn <= td,
        255 * pn == lo * qd,
        255 * qn == hi * qd,
        x * td == (if 6 * tn < td {
            lo * td + (hi - lo) * 6 * tn
        } else if 2 * tn < td {
            hi * td
        } else if 3 * tn < 2 * td {
            lo * td + (hi - lo) * (4 * td - 6 * tn)
        } else {
            lo * td
        }),
    ensures
        channel_val(pn, qn, qd, tn, td) == x,
{
    if 6 * tn < td {
        assert(255 * hue2rgb_num(pn, qn, tn, td) == x * (qd * td)) by (nonlinear_arith)
            requires
                255 * pn == lo * qd,
                255 * qn == hi * qd,
                x * td == lo * td + (hi - lo) * 6 * tn,
                hue2rgb_num(pn, qn, tn, td) == pn * td + (qn - pn) * 6 * tn,
        ;
    } else if 2 * tn < td {
        assert(255 * hue2rgb_num(pn, qn, tn, td) == x * (qd * td)) by (nonlinear_arith)
            requires
                255 * qn == hi * qd,
                x * td == hi * td,
                hue2rgb_num(pn, qn, tn, td) == qn * td,
        ;
    } else if 3 * tn < 2 * td {
        assert(255 * hue2rgb_num(pn, qn, tn, td) == x * (qd * td)) by (nonlinear_arith)
            requires
                255 * pn == lo * qd,
                255 * qn == hi * qd,
                x * td == lo * td + (hi - lo) * (4 * td - 6 * tn),
                hue2rgb_num(pn, qn, tn, td) == pn * td + (qn - pn) * (4 * td - 6 * tn),
        ;
    } else {
        assert(255 * hue2rgb_num(pn, qn, tn, td) == x * (qd * td)) by (nonlinear_arith)
            requires
                255 * pn == lo * qd,
                x * td == lo * td,
                hue2rgb_num(pn, qn, tn, td) == pn * td,
        ;
    }
    lemma_channel_exact_div(pn, qn, qd, tn, td, x);
}

/// For a chromatic 8-bit colour, the helper points of the inverse
/// conversion are exactly `max/255` and `min/255`.
proof fn lemma_qp_exact(r: int, g: int, b: int)
    requires
        0 <= r <= 255,
        0 <= g <= 255,
        0 <= b <= 255,
        chroma(r, g, b) > 0,
    ensures
        0 < pq_den(spec_hsl(r, g, b)),
        255 * q_num(spec_hsl(r, g, b)) == max3(r, g, b) * pq_den(spec_hsl(r, g, b)),
        255 * p_num(spec_hsl(r, g, b)) == min3(r, g, b) * pq_den(spec_hsl(r, g, b)),
{
    let mx = max3(r, g, b);
    let mn = min3(r, g, b);
    let c = mx - mn;
    let sum = mx + mn;
    let hq = spec_hsl(r, g, b);
    assert(hq.s_num as int == c);
    assert(hq.l_num as int == sum);
    assert(hq.l_den as int == 510);
    if sum <= 255 {
        assert(hq.s_den as int == sum);
        if 2 * sum < 510 {
            assert(255 * (sum * (sum + c)) == mx * (510 * sum) && 255 * (2 * sum * sum - sum * (sum
                + c)) == mn * (510 * sum)) by (nonlinear_arith)
                requires
                    c == mx - mn,
                    sum == mx + mn,
            ;
        } else {
            assert(255 * (sum * sum + c * 510 - sum * c) == mx * (510 * sum) && 255 * (2 * sum * sum
                - (sum * sum + c * 510 - sum * c)) == mn * (510 * sum)) by (nonlinear_arith)
                requires
                    c == mx - mn,
                    sum == mx + mn,
                    sum == 255,
            ;
        }
    } else {
        assert(hq.s_den as int == 510 - sum);
        assert(255 * (sum * (510 - sum) + c * 510 - sum * c) == mx * (510 * (510 - sum)) && 255 * (2
            * sum * (510 - sum) - (sum * (510 - sum) + c * 510 - sum * c)) == mn * (510 * (510
            - sum))) by (nonlinear_arith)
            requires
                c == mx - mn,
                sum == mx + mn,
                255 < sum < 510,
        ;
    }
}

/// RGB -> HSL -> RGB reconstructs every 8-bit colour exactly.
pub proof fn lemma_hsl_rgb_round_trip(r: int, g: int, b: int)
    requires
        0 <= r <= 255,
        0 <= g <= 255,
        0 <= b <= 255,
    ensures
        rgb_channel(spec_hsl(r, g, b), t_red(spec_hsl(r, g, b))) == r,
        rgb_channel(spec_hsl(r, g, b), t_green(spec_hsl(r, g, b))) == g,
        rgb_channel(spec_hsl(r, g, b), t_blue(spec_hsl(r, g, b))) == b,
{
    let hq = spec_hsl(r, g, b);
    let mx = max3(r, g, b);
    let mn = min3(r, g, b);
    let c = mx - mn;
    if c == 0 {
        assert(r == g && g == b);
        assert(rgb_channel(hq, t_red(hq)) == 255 * (2 * r) / 510);
        assert(255 * (2 * r) / 510 == r) by (nonlinear_arith)
            requires 0 <= r <= 255,
        ;
    } else {
        lemma_qp_exact(r, g, b);
        let pn = p_num(hq);
        let qn = q_num(hq);
        let qd = pq_den(hq);
        assert(hq.h_den as int == 6 * c);
        let td = 3 * (hq.h_den as int);
        assert(td == 18 * c);
        if mx == r {
            assert(mn == if g <= b { g } else { b });
            if g >= b {
                assert(mn == b);
                assert(hq.h_num as int == g - b);
                let tr = t_red(hq);
                let tg = t_green(hq);
                let tb = t_blue(hq);
                assert(tr == 3 * (g - b) + 6 * c);
                assert(tg == 3 * (g - b));
                assert(tb == 3 * (g - b) + 12 * c);
                assert(r * td == (if 6 * tr < td {
                    b * td + (r - b) * 6 * tr
                } else if 2 * tr < td {
                    r * td
                } else if 3 * tr < 2 * td {
                    b * td + (r - b) * (4 * td - 6 * tr)
                } else {
                    b * td
                })) by (nonlinear_arith)
                    requires
                        tr == 3 * (g - b) + 6 * c,
                        td == 18 * c,
                        c == r - b,
                        0 <= g - b <= c,
                        0 < c,
                ;
                lemma_ramp_reconstruct(pn, qn, qd, tr, td, mn, mx, r);
                assert(g * td == (if 6 * tg < td {
                    b * td + (r - b) * 6 * tg
                } else if 2 * tg < td {
                    r * td
                } else if 3 * tg < 2 * td {
                    b * td + (r - b) * (4 * td - 6 * tg)
                } else {
                    b * td
                })) by (nonlinear_arith)
                    requires
                        tg == 3 * (g - b),
                        td == 18 * c,
                        c == r - b,
                        0 <= g - b <= c,
                        0 < c,
                ;
                lemma_ramp_reconstruct(pn, qn, qd, tg, td, mn, mx, g);
                assert(b * td == (if 6 * tb < td {
                    b * td + (r - b) * 6 * tb
                } else if 2 * tb < td {
                    r * td
                } else if 3 * tb < 2 * td {
                    b * td + (r - b) * (4 * td - 6 * tb)
                } else {
                    b * td
                })) by (nonlinear_arith)
                    requires
                        tb == 3 * (g - b) + 12 * c,
                        td == 18 * c,
                        c == r - b,
                        0 <= g - b <= c,
                        0 < c,
                ;
                lemma_ramp_reconstruct(pn, qn, qd, tb, td, mn, mx, b);
            } else {
                assert(mn == g);
                assert(hq.h_num as int == g - b + 6 * c);
                let tr = t_red(hq);
                let tg = t_green(hq);
                let tb = t_blue(hq);
                assert(tr == 3 * (g - b) + 6 * c);
                assert(tg == 3 * (g - b) + 18 * c);
                assert(tb == 3 * (g - b) + 12 * c);
                assert(r * td == (if 6 * tr < td {
                    g * td + (r - g) * 6 * tr
                } else if 2 * tr < td {
                    r * td
                } else if 3 * tr < 2 * td {
                    g * td + (r - g) * (4 * td - 6 * tr)
                } else {
                    g * td
                })) by (nonlinear_arith)
                    requires
                        tr == 3 * (g - b) + 6 * c,
                        td == 18 * c,
                        c == r - g,
                        -c <= g - b < 0,
                        0 < c,
                ;
                lemma_ramp_reconstruct(pn, qn, qd, tr, td, mn, mx, r);
                assert(g * td == (if 6 * tg < td {
                    g * td + (r - g) * 6 * tg
                } else if 2 * tg < td {
                    r * td
                } else if 3 * tg < 2 * td {
                    g * td + (r - g) * (4 * td - 6 * tg)
                } else {
                    g * td
                })) by (nonlinear_arith)
                    requires
                        tg == 3 * (g - b) + 18 * c,
                        td == 18 * c,
                        c == r - g,
                        -c <= g - b < 0,
                        0 < c,
                ;
                lemma_ramp_reconstruct(pn, qn, qd, tg, td, mn, mx, g);
                assert(b * td == (if 6 * tb < td {
                    g * td + (r - g) * 6 * tb
                } else if 2 * tb < td {
                    r * td
                } else if 3 * tb < 2 * td {
                    g * td + (r - g) * (4 * td - 6 * tb)
                } else {
                    g * td
                })) by (nonlinear_arith)
                    requires
                        tb == 3 * (g - b) + 12 * c,
                        td == 18 * c,
                        c == r - g,
                        -c <= g - b < 0,
                        0 < c,
                ;
                lemma_ramp_reconstruct(pn, qn, qd, tb, td, mn, mx, b);
            }
        } else if mx == b {
            assert(mn == if r <= g { r } else { g });
            assert(hq.h_num as int == r - g + 4 * c);
            let tg = t_green(hq);
            let tb = t_blue(hq);
            assert(tg == 3 * (r - g) + 12 * c);
            assert(tb == 3 * (r - g) + 6 * c);
            let tr = t_red(hq);
            if 3 * (r - g) > 0 {
                assert(tr == 3 * (r - g));
            } else {
                assert(tr == 3 * (r - g) + 18 * c);
            }
            assert(r * td == (if 6 * tr < td {
                mn * td + (b - mn) * 6 * tr
            } else if 2 * tr < td {
                b * td
            } else if 3 * tr < 2 * td {
                mn * td + (b - mn) * (4 * td - 6 * tr)
            } else {
                mn * td
            })) by (nonlinear_arith)
                requires
                    tr == (if 3 * (r - g) > 0 { 3 * (r - g) } else { 3 * (r - g) + 18 * c }),
                    td == 18 * c,
                    c == b - mn,
                    mn == (if r <= g { r } else { g }),
                    r < b,
                    g <= b,
                    -c <= r - g < c,
                    0 < c,
            ;
            lemma_ramp_reconstruct(pn, qn, qd, tr, td, mn, mx, r);
            assert(g * td == (if 6 * tg < td {
                mn * td + (b - mn) * 6 * tg
            } else if 2 * tg < td {
                b * td
            } else if 3 * tg < 2 * td {
                mn * td + (b - mn) * (4 * td - 6 * tg)
            } else {
                mn * td
            })) by (nonlinear_arith)
                requires
                    tg == 3 * (r - g) + 12 * c,
                    td == 18 * c,
                    c == b - mn,
                    mn == (if r <= g { r } else { g }),
                    r < b,
                    g <= b,
                    -c <= r - g < c,
                    0 < c,
            ;
            lemma_ramp_reconstruct(pn, qn, qd, tg, td, mn, mx, g);
            assert(b * td == (if 6 * tb < td {
                mn * td + (b - mn) * 6 * tb
            } else if 2 * tb < td {
                b * td
            } else if 3 * tb < 2 * td {
                mn * td + (b - mn) * (4 * td - 6 * tb)
            } else {
                mn * td
            })) by (nonlinear_arith)
                requires
                    tb == 3 * (r - g) + 6 * c,
                    td == 18 * c,
                    c == b - mn,
                    mn == (if r <= g { r } else { g }),
                    r < b,
                    g <= b,
                    -c <= r - g < c,
                    0 < c,
            ;
            lemma_ramp_reconstruct(pn, qn, qd, tb, td, mn, mx, b);
        } else {
            assert(mx == g);
            assert(mn == if r <= b { r } else { b });
            assert(hq.h_num as int == b - r + 2 * c);
            let tr = t_red(hq);
            let tg = t_green(hq);
            assert(tr == 3 * (b - r) + 12 * c);
            assert(tg == 3 * (b - r) + 6 * c);
            let tb = t_blue(hq);
            if 3 * (b - r) >= 0 {
                assert(tb == 3 * (b - r));
            } else {
                assert(tb == 3 * (b - r) + 18 * c);
            }
            assert(r * td == (if 6 * tr < td {
                mn * td + (g - mn) * 6 * tr
            } else if 2 * tr < td {
                g * td
            } else if 3 * tr < 2 * td {
                mn * td + (g - mn) * (4 * td - 6 * tr)
            } else {
                mn * td
            })) by (nonlinear_arith)
                requires
                    tr == 3 * (b - r) + 12 * c,
                    td == 18 * c,
                    c == g - mn,
                    mn == (if r <= b { r } else { b }),
                    r < g,
                    b < g,
                    -c <= b - r < c,
                    0 < c,
            ;
            lemma_ramp_reconstruct(pn, qn, qd, tr, td, mn, mx, r);
            assert(g * td == (if 6 * tg < td {
                mn * td + (g - mn) * 6 * tg
            } else if 2 * tg < td {
                g * td
            } else if 3 * tg < 2 * td {
                mn * td + (g - mn) * (4 * td - 6 * tg)
            } else {
                mn * td
            })) by (nonlinear_arith)
                requires
                    tg == 3 * (b - r) + 6 * c,
                    td == 18 * c,
                    c == g - mn,
                    mn == (if r <= b { r } else { b }),
                    r < g,
                    b < g,
                    -c <= b - r < c,
                    0 < c,
            ;
            lemma_ramp_reconstruct(pn, qn, qd, tg, td, mn, mx, g);
            assert(b * td == (if 6 * tb < td {
                mn * td + (g - mn) * 6 * tb
            } else if 2 * tb < td {
                g * td
            } else if 3 * tb < 2 * td {
                mn * td + (g - mn) * (4 * td - 6 * tb)
            } else {
                mn * td
            })) by (nonlinear_arith)
                requires
                    tb == (if 3 * (b - r) >= 0 { 3 * (b - r) } else { 3 * (b - r) + 18 * c }),
                    td == 18 * c,
                    c == g - mn,
                    mn == (if r <= b { r } else { b }),
                    r < g,
                    b < g,
                    -c <= b - r < c,
                    0 < c,
            ;
            lemma_ramp_reconstruct(pn, qn, qd, tb, td, mn, mx, b);
        }
    }
}

} // verus!
