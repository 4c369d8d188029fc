use trash_detection::compose::capply;
use trash_detection::compose::mask;
use trash_detection::fill::colour_test;
use trash_detection::fill::dist_sq;
use trash_detection::fill::qfill;
use trash_detection::image::Image;
use trash_detection::image::Rgba8;
use trash_detection::image::SCALE;
use trash_detection::image::black;
use trash_detection::image::create_mask;
use trash_detection::morph::cdilate;
use trash_detection::morph::cerode;
use trash_detection::morph::invert;

const WHITE: Rgba8 = Rgba8 { r: 255, g: 255, b: 255, a: 255 };
const BLACK: Rgba8 = Rgba8 { r: 0, g: 0, b: 0, a: 255 };
const CLEAR: Rgba8 = Rgba8 { r: 0, g: 0, b: 0, a: 0 };

fn mask_from(width: usize, height: usize, bits: &[u8]) -> Image {
    assert_eq!(bits.len(), width * height);
    let data = bits.iter().map(|&b| if b != 0 { WHITE } else { BLACK }).collect();
    Image { width, height, data }
}

fn bits_of(m: &Image) -> Vec<u8> {
    let mut out = Vec::new();
    for y in 0..m.height {
        for x in 0..m.width {
            out.push(if m.get(x, y) == WHITE { 1 } else { 0 });
        }
    }
    out
}

#[test]
fn dilate_spreads_single_white() {
    let m = mask_from(3, 3, &[0, 0, 0, 0, 1, 0, 0, 0, 0]);
    let d = cdilate(&m, 3, 3);
    assert_eq!(bits_of(&d), vec![1, 1, 1, 1, 1, 1, 1, 1, 1]);
}

#[test]
fn dilate_skips_out_of_bounds() {
    // white in a corner: only the four pixels whose window reaches it
    let m = mask_from(3, 3, &[1, 0, 0, 0, 0, 0, 0, 0, 0]);
    let d = cdilate(&m, 3, 3);
    assert_eq!(bits_of(&d), vec![1, 1, 0, 1, 1, 0, 0, 0, 0]);
}

#[test]
fn erode_removes_single_black() {
    let m = mask_from(3, 3, &[1, 1, 1, 1, 0, 1, 1, 1, 1]);
    let e = cerode(&m, 3, 3);
    assert_eq!(bits_of(&e), vec![0, 0, 0, 0, 0, 0, 0, 0, 0]);
}

#[test]
fn erode_keeps_solid_white() {
    let m = mask_from(3, 2, &[1, 1, 1, 1, 1, 1]);
    let e = cerode(&m, 3, 3);
    assert_eq!(bits_of(&e), vec![1, 1, 1, 1, 1, 1]);
}

#[test]
fn morphological_duality() {
    // erode(invert(m)) equals invert(dilate(m)) with identical
    // out-of-bounds skipping on both sides
    let m = mask_from(4, 3, &[1, 0, 0, 1, 0, 1, 0, 0, 0, 0, 1, 1]);
    for (wx, wy) in [(1, 1), (3, 3), (2, 3), (5, 1)] {
        let mut inv = Image { width: m.width, height: m.height, data: m.data.clone() };
        invert(&mut inv);
        let lhs = cerode(&inv, wx, wy);
        let mut rhs = cdilate(&m, wx, wy);
        invert(&mut rhs);
        for y in 0..m.height {
            for x in 0..m.width {
                assert_eq!(lhs.get(x, y), rhs.get(x, y));
            }
        }
    }
}

#[test]
fn invert_swaps_sentinels() {
    let mut m = mask_from(2, 1, &[1, 0]);
    invert(&mut m);
    assert_eq!(m.get(0, 0), BLACK);
    assert_eq!(m.get(1, 0), WHITE);
}

#[test]
fn capply_copies_source_where_white() {
    let src = Image {
        width: 2,
        height: 1,
        data: vec![Rgba8::opaque(1, 2, 3), Rgba8::opaque(4, 5, 6)],
    };
    let mut dst = mask_from(2, 1, &[1, 0]);
    let bg = Rgba8::new(9, 9, 9, 0);
    capply(&src, &mut dst, bg);
    assert_eq!(dst.get(0, 0), Rgba8::opaque(1, 2, 3));
    assert_eq!(dst.get(1, 0), bg);
}

#[test]
fn mask_places_colour_on_white() {
    let src = Image {
        width: 2,
        height: 1,
        data: vec![Rgba8::opaque(1, 2, 3), Rgba8::opaque(4, 5, 6)],
    };
    let mut m = mask_from(2, 1, &[1, 0]);
    mask(&mut m, &src, false);
    assert_eq!(m.get(0, 0), Rgba8::opaque(1, 2, 3));
    assert_eq!(m.get(1, 0), CLEAR);
}

#[test]
fn mask_inverted_places_colour_on_clear() {
    let src = Image {
        width: 2,
        height: 1,
        data: vec![Rgba8::opaque(1, 2, 3), Rgba8::opaque(4, 5, 6)],
    };
    let mut m = Image { width: 2, height: 1, data: vec![CLEAR, WHITE] };
    mask(&mut m, &src, true);
    assert_eq!(m.get(0, 0), Rgba8::opaque(1, 2, 3));
    assert_eq!(m.get(1, 0), CLEAR);
}

#[test]
fn black_image_is_opaque_black() {
    let b = black(2, 2);
    for y in 0..2 {
        for x in 0..2 {
            assert_eq!(b.get(x, y), BLACK);
        }
    }
    let m = create_mask(&b);
    assert_eq!(m.get(0, 0), CLEAR);
}

#[test]
fn colour_test_exact_and_near() {
    let a = Rgba8::opaque(10, 10, 10);
    assert_eq!(dist_sq(a, a), 0);
    assert!(colour_test(a, a, 0));
    let b = Rgba8::opaque(11, 10, 10);
    assert_eq!(dist_sq(a, b), 1);
    // one raw step is 1/255 of the cube: just under 0.004
    assert!(!colour_test(a, b, 3921));
    assert!(colour_test(a, b, 3922));
}

#[test]
fn qfill_zero_depth_marks_nothing() {
    // the depth budget is spent before the seed itself is marked
    let img = Image { width: 2, height: 2, data: vec![WHITE; 4] };
    let m = qfill(&img, 0, 0, 2 * SCALE, 0);
    assert_eq!(bits_of_clear(&m), vec![0, 0, 0, 0]);
}

#[test]
fn qfill_depth_one_marks_seed_only() {
    let img = Image { width: 2, height: 2, data: vec![WHITE; 4] };
    let m = qfill(&img, 1, 0, 2 * SCALE, 1);
    assert_eq!(bits_of_clear(&m), vec![0, 1, 0, 0]);
}

#[test]
fn qfill_fills_connected_region() {
    let r = Rgba8::opaque(255, 0, 0);
    let b = Rgba8::opaque(0, 0, 255);
    // a red plus on blue corners
    let img = Image {
        width: 3,
        height: 3,
        data: vec![b, r, b, r, r, r, b, r, b],
    };
    let m = qfill(&img, 1, 1, 0, 100);
    assert_eq!(bits_of_clear(&m), vec![0, 1, 0, 1, 1, 1, 0, 1, 0]);
}

#[test]
fn qfill_budget_truncates_silently() {
    let r = Rgba8::opaque(255, 0, 0);
    let img = Image { width: 5, height: 1, data: vec![r; 5] };
    let m = qfill(&img, 0, 0, 0, 3);
    assert_eq!(bits_of_clear(&m), vec![1, 1, 1, 0, 0]);
}

fn bits_of_clear(m: &Image) -> Vec<u8> {
    let mut out = Vec::new();
    for y in 0..m.height {
        for x in 0..m.width {
            out.push(if m.get(x, y) == WHITE { 1 } else { 0 });
        }
    }
    out
}

#[test]
fn qfill_huge_budget_fills_exactly_the_component() {
    let r = Rgba8::opaque(255, 0, 0);
    let b = Rgba8::opaque(0, 0, 255);
    // two red regions separated by a blue wall
    let img = Image {
        width: 5,
        height: 1,
        data: vec![r, r, b, r, r],
    };
    let m = qfill(&img, 0, 0, 0, 1000);
    assert_eq!(bits_of_clear(&m), vec![1, 1, 0, 0, 0]);
}

#[test]
fn qfill_large_tolerance_crosses_colours() {
    let r = Rgba8::opaque(255, 0, 0);
    let b = Rgba8::opaque(0, 0, 255);
    let img = Image {
        width: 5,
        height: 1,
        data: vec![r, r, b, r, r],
    };
    // twice the unit distance covers the whole colour cube
    let m = qfill(&img, 0, 0, 2 * SCALE, 1000);
    assert_eq!(bits_of_clear(&m), vec![1, 1, 1, 1, 1]);
}
