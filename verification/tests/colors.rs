use trash_detection::classify::classify;
use trash_detection::classify::cselect;
use trash_detection::classify::dist;
use trash_detection::classify::gauss_falloff;
use trash_detection::classify::gaussian;
use trash_detection::classify::select;
use trash_detection::color::hsl;
use trash_detection::color::rgb;
use trash_detection::image::Image;
use trash_detection::image::Rgba8;
use trash_detection::image::SCALE;
use trash_detection::stats::ColorStats;
use trash_detection::stats::StatsError;
use trash_detection::stats::avg_col;
use trash_detection::stats::average;
use trash_detection::stats::cstats;
use trash_detection::stats::isqrt;

fn img_from(width: usize, height: usize, px: &[Rgba8]) -> Image {
    assert_eq!(px.len(), width * height);
    Image { width, height, data: px.to_vec() }
}

#[test]
fn hsl_of_pure_blue() {
    let h = hsl(Rgba8::opaque(0, 0, 255));
    assert_eq!((h.h_num, h.h_den), (1020, 1530));
    assert_eq!((h.s_num, h.s_den), (255, 255));
    assert_eq!((h.l_num, h.l_den), (255, 510));
    let f = h.fixed();
    assert_eq!((f.h, f.s, f.l), (666666, 1000000, 500000));
}

#[test]
fn hsl_achromatic_is_zero_hue() {
    for v in [0u8, 1, 77, 128, 254, 255] {
        let h = hsl(Rgba8::opaque(v, v, v));
        assert_eq!(h.h_num, 0);
        assert_eq!(h.s_num, 0);
    }
}

#[test]
fn rgb_hsl_round_trip_samples() {
    let mut r = 0u16;
    while r < 256 {
        let mut g = 0u16;
        while g < 256 {
            let mut b = 0u16;
            while b < 256 {
                let c = Rgba8::opaque(r as u8, g as u8, b as u8);
                let back = rgb(&hsl(c));
                assert_eq!((back.r, back.g, back.b, back.a), (c.r, c.g, c.b, 255));
                b += 17;
            }
            g += 17;
        }
        r += 17;
    }
}

#[test]
fn rgb_of_mid_grey() {
    let back = rgb(&hsl(Rgba8::opaque(128, 128, 128)));
    assert_eq!((back.r, back.g, back.b, back.a), (128, 128, 128, 255));
}

#[test]
fn isqrt_exact_values() {
    assert_eq!(isqrt(0), 0);
    assert_eq!(isqrt(1), 1);
    assert_eq!(isqrt(3), 1);
    assert_eq!(isqrt(4), 2);
    assert_eq!(isqrt(2_000_000_000_000), 1414213);
    assert_eq!(isqrt(u64::MAX), 0xffff_ffff);
}

#[test]
fn dist_red_blue() {
    // squared distance 2 * 255^2 gives sqrt(2) in fixed point
    let d = dist(Rgba8::opaque(255, 0, 0), Rgba8::opaque(0, 0, 255));
    assert_eq!(d, 1414213);
}

#[test]
fn stats_uniform_image() {
    // every valid pixel shares one colour: mean is its HSL, deviations zero
    let c = Rgba8::opaque(10, 20, 30);
    let img = img_from(2, 2, &[c, c, c, c]);
    let st = cstats(&img).unwrap();
    let f = hsl(c).fixed();
    assert_eq!((st.mean_h, st.mean_s, st.mean_l), (f.h, f.s, f.l));
    assert_eq!((st.sd_h, st.sd_s, st.sd_l), (0, 0, 0));
    assert_eq!((f.h, f.s, f.l), (583333, 500000, 78431));
}

#[test]
fn stats_insufficient_data() {
    // only one valid pixel
    let img = img_from(
        2,
        1,
        &[Rgba8::opaque(5, 5, 5), Rgba8::new(9, 9, 9, 0)],
    );
    assert_eq!(cstats(&img), Err(StatsError::InsufficientData));
}

#[test]
fn avg_col_blue_red_halves() {
    // 4x4 fully valid: left two columns blue, right two columns red
    let blue = Rgba8::opaque(0, 0, 255);
    let red = Rgba8::opaque(255, 0, 0);
    let mut px = Vec::new();
    for _y in 0..4 {
        px.extend_from_slice(&[blue, blue, red, red]);
    }
    let img = img_from(4, 4, &px);
    let a = avg_col(&img);
    assert_eq!((a.r, a.g, a.b, a.a), (127, 0, 127, 255));
}

#[test]
fn average_counts_invalid_and_alpha() {
    let img = img_from(
        2,
        1,
        &[Rgba8::new(100, 0, 0, 255), Rgba8::new(50, 0, 0, 0)],
    );
    let a = average(&img);
    assert_eq!((a.r, a.g, a.b, a.a), (75, 0, 0, 127));
}

#[test]
fn cselect_blue_red_is_degenerate() {
    // both halves share saturation and lightness exactly, so those
    // channels have zero deviation: insufficient data, not NaN
    let blue = Rgba8::opaque(0, 0, 255);
    let red = Rgba8::opaque(255, 0, 0);
    let mut px = Vec::new();
    for _y in 0..4 {
        px.extend_from_slice(&[blue, blue, red, red]);
    }
    let img = img_from(4, 4, &px);
    assert_eq!(
        cselect(&img, 1_000_000_000, 1_000_000_000, 1_000_000_000).err(),
        Some(StatsError::InsufficientData)
    );
}

#[test]
fn gaussian_peak_value() {
    // at the mean with unit deviation the density is 1/sqrt(2 pi)
    assert_eq!(gaussian(SCALE, SCALE, SCALE), 398942);
    assert_eq!(gaussian(500000, 500000, 100000), 3989423);
}

#[test]
fn gaussian_far_from_mean_is_tiny() {
    // five deviations out the density all but vanishes
    let w = gaussian(0, 500000, 100000);
    assert_eq!(w, 11);
}

#[test]
fn classify_inverted_polarity() {
    // far-from-mean pixels are the ones selected: a small tolerance on
    // the hue channel keeps the at-mean pixel out and the far pixel in
    let red = Rgba8::opaque(255, 0, 0); // hue 0, five deviations below the mean
    let cyan = Rgba8::opaque(0, 255, 255); // hue exactly at the mean
    let img = img_from(2, 1, &[red, cyan]);
    let st = ColorStats {
        mean_h: 500000,
        mean_s: 1000000,
        mean_l: 500000,
        sd_h: 100000,
        sd_s: 100000,
        sd_l: 100000,
    };
    let big = 10_000_000_000;
    let mask = classify(&img, &st, 1000, big, big);
    assert_eq!(mask.get(0, 0), Rgba8::opaque(255, 255, 255));
    assert_eq!(mask.get(1, 0), Rgba8::opaque(0, 0, 0));
    // a tolerance above the peak density admits the near-mean pixel too
    let all = classify(&img, &st, big, big, big);
    assert_eq!(all.get(0, 0), Rgba8::opaque(255, 255, 255));
    assert_eq!(all.get(1, 0), Rgba8::opaque(255, 255, 255));
}

#[test]
fn cselect_deterministic() {
    // identical image and tolerances give a bit-identical mask
    let px = [
        Rgba8::opaque(255, 0, 0),
        Rgba8::opaque(0, 0, 255),
        Rgba8::opaque(255, 255, 255),
        Rgba8::opaque(0, 0, 0),
    ];
    let img = img_from(2, 2, &px);
    let m1 = cselect(&img, 2_000_000, 2_000_000, 2_000_000).unwrap();
    let m2 = cselect(&img, 2_000_000, 2_000_000, 2_000_000).unwrap();
    assert_eq!((m1.width, m1.height), (m2.width, m2.height));
    for y in 0..m1.height {
        for x in 0..m1.width {
            assert_eq!(m1.get(x, y), m2.get(x, y));
        }
    }
}

#[test]
fn gauss_falloff_peak() {
    // at the centre the falloff equals the peak height
    assert_eq!(gauss_falloff(0, SCALE, 0, 100000), SCALE);
    assert_eq!(gauss_falloff(300000, 700000, 300000, SCALE), 700000);
}

#[test]
fn select_inverted_polarity() {
    // pixels equal to the reference colour sit at the falloff peak and
    // are rejected by a zero tolerance; distant pixels pass it
    let red = Rgba8::opaque(255, 0, 0);
    let blue = Rgba8::opaque(0, 0, 255);
    let img = img_from(2, 1, &[red, blue]);
    let mask = select(&img, red, 0, SCALE, 0, 100000);
    assert_eq!(mask.get(0, 0), Rgba8::new(0, 0, 0, 0));
    assert_eq!(mask.get(1, 0), Rgba8::opaque(255, 255, 255));
}
