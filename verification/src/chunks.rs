//! Chunk aggregation: partitions the image into a grid of fixed-size
//! tiles (partial tiles at the far edges truncate), computes the mean RGB
//! of the valid pixels of each tile, normalised to the fixed-point scale,
//! and drops tiles whose pixel sums are pure black — a tile with no valid
//! pixels is indistinguishable from a genuinely black one.

use vstd::prelude::*;
use crate::image::Image;
use crate::image::Rgba8;
use crate::image::SCALE;
use crate::image::spec_black;

verus! {

/// Raw channel sums and valid-pixel count of an image region.
pub ghost struct TileSum {
    pub r: int,
    pub g: int,
    pub b: int,
    pub n: int,
}

/// The contribution of a single pixel: its channels if it is valid,
/// nothing otherwise.
pub open spec fn px_sum(img: Image, x: int, y: int) -> TileSum {
    if img.pix(x, y).spec_valid() {
        TileSum { r: img.pix(x, y).r as int, g: img.pix(x, y).g as int, b: img.pix(x, y).b as int, n: 1 }
    } else {
        TileSum { r: 0, g: 0, b: 0, n: 0 }
    }
}

/// Componentwise sum.
pub open spec fn add_sum(a: TileSum, c: TileSum) -> TileSum {
    TileSum { r: a.r + c.r, g: a.g + c.g, b: a.b + c.b, n: a.n + c.n }
}

/// The empty sum.
pub open spec fn zero_sum() -> TileSum {
    TileSum { r: 0, g: 0, b: 0, n: 0 }
}

/// Sum of the valid pixels of row `y`, columns `x0 ..= x1 - 1`.
pub open spec fn row_sum(img: Image, y: int, x0: int, x1: int) -> TileSum
    decreases x1 - x0,
{
    if x1 <= x0 {
        zero_sum()
    } else {
        add_sum(row_sum(img, y, x0, x1 - 1), px_sum(img, x1 - 1, y))
    }
}

/// Sum of the valid pixels of the rectangle `[x0, x1) x [y0, y1)`.
pub open spec fn rect_sum(img: Image, x0: int, x1: int, y0: int, y1: int) -> TileSum
    decreases y1 - y0,
{
    if y1 <= y0 {
        zero_sum()
    } else {
        add_sum(rect_sum(img, x0, x1, y0, y1 - 1), row_sum(img, y1 - 1, x0, x1))
    }
}

/// How many whole-or-partial tiles of size `step` cover a length `len`.
pub open spec fn n_tiles(len: int, step: int) -> int {
    len / step + if len % step != 0 {
        1int
    } else {
        0int
    }
}

/// First pixel column of tile column `tx`.
pub open spec fn tile_x0(step: int, t: int) -> int {
    t * step
}

/// One past the last pixel column of tile column `tx`: partial tiles at
/// the far edge truncate.
pub open spec fn tile_x1(len: int, step: int, t: int) -> int {
    if t * step + step <= len {
        t * step + step
    } else {
        len
    }
}

/// The channel sums and valid count of tile `(tx, ty)`.
pub open spec fn tile_sum(img: Image, cw: int, ch: int, tx: int, ty: int) -> TileSum {
    rect_sum(
        img,
        tile_x0(cw, tx),
        tile_x1(img.width as int, cw, tx),
        tile_x0(ch, ty),
        tile_x1(img.height as int, ch, ty),
    )
}

/// The fixed-point mean of one channel: `sum / (255 * n)` scaled.
pub open spec fn quant_mean(sum: int, n: int) -> int {
    sum * SCALE / (255 * n)
}

/// One tile of the chunk map: its tile coordinate and its mean colour in
/// fixed-point normalised RGB.
#[derive(Clone, Copy, PartialEq, Eq, Structural, Debug)]
pub struct ChunkEntry {
    pub tx: usize,
    pub ty: usize,
    pub r: u64,
    pub g: u64,
    pub b: u64,
}

/// A mapping from tile coordinate to mean colour, with each coordinate
/// present at most once.
pub struct ChunkMap {
    pub entries: Vec<ChunkEntry>,
}

impl ChunkMap {
    /// Whether tile `(tx, ty)` is present.
    pub open spec fn contains_tile(self, tx: int, ty: int) -> bool {
        exists|k: int|
            0 <= k < self.entries.len() && (#[trigger] self.entries[k]).tx == tx
                && self.entries[k].ty == ty
    }

    /// No tile coordinate occurs twice.
    pub open spec fn distinct(self) -> bool {
        forall|k1: int, k2: int|
            0 <= k1 < k2 < self.entries.len() ==> ((#[trigger] self.entries[k1]).tx
                != (#[trigger] self.entries[k2]).tx || self.entries[k1].ty != self.entries[k2].ty)
    }

    /// Every stored colour channel lies in `0 ..= SCALE`.
    pub open spec fn cols_bounded(self) -> bool {
        forall|k: int|
            0 <= k < self.entries.len() ==> (#[trigger] self.entries[k]).r <= SCALE
                && self.entries[k].g <= SCALE && self.entries[k].b <= SCALE
    }

    /// Number of tiles in the map.
    pub fn len(&self) -> (n: usize)
        ensures
            n == self.entries.len(),
    {
        self.entries.len()
    }
}

/// One map entry is faithful to the image: its coordinate is on the tile
/// grid, its tile's sums are not pure black, and its colour is the exact
/// quantised mean of its tile.
pub open spec fn entry_ok(img: Image, cw: int, ch: int, e: ChunkEntry) -> bool {
    let s = tile_sum(img, cw, ch, e.tx as int, e.ty as int);
    &&& 0 <= e.tx < n_tiles(img.width as int, cw)
    &&& 0 <= e.ty < n_tiles(img.height as int, ch)
    &&& !(s.r == 0 && s.g == 0 && s.b == 0)
    &&& e.r == quant_mean(s.r, s.n)
    &&& e.g == quant_mean(s.g, s.n)
    &&& e.b == quant_mean(s.b, s.n)
}

/// The whole contract of [`cavg_chunks`]: the map holds exactly the tiles
/// whose sums are not pure black, each with its exact quantised mean.
pub open spec fn chunk_map_ok(img: Image, cw: int, ch: int, map: ChunkMap) -> bool {
    &&& map.distinct()
    &&& map.cols_bounded()
    &&& forall|k: int|
        0 <= k < map.entries.len() ==> entry_ok(img, cw, ch, #[trigger] map.entries[k])
    &&& forall|tx: int, ty: int|
        0 <= tx < n_tiles(img.width as int, cw) && 0 <= ty < n_tiles(img.height as int, ch) && !(
        (#[trigger] tile_sum(img, cw, ch, tx, ty)).r == 0 && tile_sum(img, cw, ch, tx, ty).g == 0
            && tile_sum(img, cw, ch, tx, ty).b == 0) ==> map.contains_tile(tx, ty)
}

/// Region sums are non-negative and bounded by `255` per counted pixel.
proof fn lemma_row_sum_bounds(img: Image, y: int, x0: int, x1: int)
    ensures
        0 <= row_sum(img, y, x0, x1).n,
        row_sum(img, y, x0, x1).n <= (if x1 >= x0 { x1 - x0 } else { 0 }),
        0 <= row_sum(img, y, x0, x1).r <= 255 * row_sum(img, y, x0, x1).n,
        0 <= row_sum(img, y, x0, x1).g <= 255 * row_sum(img, y, x0, x1).n,
        0 <= row_sum(img, y, x0, x1).b <= 255 * row_sum(img, y, x0, x1).n,
    decreases x1 - x0,
{
    if x1 > x0 {
        lemma_row_sum_bounds(img, y, x0, x1 - 1);
    }
}

/// Rectangle sums are non-negative and bounded by `255` per counted pixel.
proof fn lemma_rect_sum_bounds(img: Image, x0: int, x1: int, y0: int, y1: int)
    ensures
        0 <= rect_sum(img, x0, x1, y0, y1).n,
        rect_sum(img, x0, x1, y0, y1).n <= (if x1 >= x0 { x1 - x0 } else { 0 }) * (if y1 >= y0 {
            y1 - y0
        } else {
            0
        }),
        0 <= rect_sum(img, x0, x1, y0, y1).r <= 255 * rect_sum(img, x0, x1, y0, y1).n,
        0 <= rect_sum(img, x0, x1, y0, y1).g <= 255 * rect_sum(img, x0, x1, y0, y1).n,
        0 <= rect_sum(img, x0, x1, y0, y1).b <= 255 * rect_sum(img, x0, x1, y0, y1).n,
    decreases y1 - y0,
{
    let dx: int = if x1 >= x0 { x1 - x0 } else { 0 };
    if y1 > y0 {
        lemma_rect_sum_bounds(img, x0, x1, y0, y1 - 1);
        lemma_row_sum_bounds(img, y1 - 1, x0, x1);
        assert(dx * (y1 - y0) == dx * (y1 - 1 - y0) + dx) by (nonlinear_arith);
    } else {
        assert(dx * 0 == 0) by (nonlinear_arith);
    }
}

/// Sums the valid pixels of the rectangle `[x0, x1) x [y0, y1)`.
fn sum_rect(img: &Image, x0: usize, x1: usize, y0: usize, y1: usize) -> (s: (u64, u64, u64, u64))
    requires
        img.wf(),
        x0 <= x1 <= img.width,
        y0 <= y1 <= img.height,
        img.width * img.height <= 0x1_0000_0000_0000,
    ensures
        s.0 == rect_sum(*img, x0 as int, x1 as int, y0 as int, y1 as int).r,
        s.1 == rect_sum(*img, x0 as int, x1 as int, y0 as int, y1 as int).g,
        s.2 == rect_sum(*img, x0 as int, x1 as int, y0 as int, y1 as int).b,
        s.3 == rect_sum(*img, x0 as int, x1 as int, y0 as int, y1 as int).n,
{
    let ghost ab: int = 0x1_0000_0000_0000;
    proof {
        assert((x1 - x0) * (y1 - y0) <= img.width * img.height) by (nonlinear_arith)
            requires
                0 <= x1 - x0 <= img.width,
                0 <= y1 - y0 <= img.height,
        ;
    }
    let mut sr: u64 = 0;
    let mut sg: u64 = 0;
    let mut sb: u64 = 0;
    let mut n: u64 = 0;
    for y in y0..y1
        invariant
            img.wf(),
            x0 <= x1 <= img.width,
            y0 <= y <= y1 <= img.height,
            ab == 0x1_0000_0000_0000,
            (x1 - x0) * (y1 - y0) <= ab,
            sr == rect_sum(*img, x0 as int, x1 as int, y0 as int, y as int).r,
            sg == rect_sum(*img, x0 as int, x1 as int, y0 as int, y as int).g,
            sb == rect_sum(*img, x0 as int, x1 as int, y0 as int, y as int).b,
            n == rect_sum(*img, x0 as int, x1 as int, y0 as int, y as int).n,
    {
        let ghost base = rect_sum(*img, x0 as int, x1 as int, y0 as int, y as int);
        proof {
            lemma_rect_sum_bounds(*img, x0 as int, x1 as int, y0 as int, y as int);
            assert(base.n + (x1 - x0) <= ab) by (nonlinear_arith)
                requires
                    base.n <= (x1 - x0) * (y - y0),
                    0 <= x1 - x0,
                    y0 <= y < y1,
                    (x1 - x0) * (y1 - y0) <= ab,
            ;
        }
        for x in x0..x1
            invariant
                img.wf(),
                x0 <= x <= x1 <= img.width,
                y0 <= y < y1 <= img.height,
                ab == 0x1_0000_0000_0000,
                base == rect_sum(*img, x0 as int, x1 as int, y0 as int, y as int),
                0 <= base.r <= 255 * base.n,
                0 <= base.g <= 255 * base.n,
                0 <= base.b <= 255 * base.n,
                0 <= base.n,
                base.n + (x1 - x0) <= ab,
                sr == base.r + row_sum(*img, y as int, x0 as int, x as int).r,
                sg == base.g + row_sum(*img, y as int, x0 as int, x as int).g,
                sb == base.b + row_sum(*img, y as int, x0 as int, x as int).b,
                n == base.n + row_sum(*img, y as int, x0 as int, x as int).n,
        {
            proof {
                lemma_row_sum_bounds(*img, y as int, x0 as int, x as int);
                let row = row_sum(*img, y as int, x0 as int, x as int);
                assert(base.r + row.r <= 255 * ab && base.g + row.g <= 255 * ab && base.b + row.b
                    <= 255 * ab && base.n + row.n < ab) by (nonlinear_arith)
                    requires
                        0 <= base.r <= 255 * base.n,
                        0 <= base.g <= 255 * base.n,
                        0 <= base.b <= 255 * base.n,
                        0 <= row.r <= 255 * row.n,
                        0 <= row.g <= 255 * row.n,
                        0 <= row.b <= 255 * row.n,
                        0 <= row.n <= x - x0,
                        0 <= base.n,
                        x0 <= x < x1,
                        base.n + (x1 - x0) <= ab,
                        ab == 0x1_0000_0000_0000,
                ;
            }
            let c = img.get(x, y);
            if c.valid() {
                sr = sr + c.r as u64;
                sg = sg + c.g as u64;
                sb = sb + c.b as u64;
                n = n + 1;
            }
        }
    }
    (sr, sg, sb, n)
}

/// Computes the quantised fixed-point mean of one channel sum.
fn quantise(sum: u64, n: u64) -> (q: u64)
    requires
        1 <= n,
        sum <= 255 * n,
    ensures
        q == quant_mean(sum as int, n as int),
        q <= SCALE,
{
    proof {
        let d: int = 255 * n;
        assert(sum * SCALE <= d * SCALE && SCALE * d == d * SCALE && 0 < d * SCALE) by (nonlinear_arith)
            requires
                0 <= sum <= d,
                0 < d,
        ;
        vstd::arithmetic::div_mod::lemma_div_is_ordered(sum as int * SCALE, d * SCALE, d);
        vstd::arithmetic::div_mod::lemma_div_multiples_vanish(SCALE as int, d);
        vstd::arithmetic::div_mod::lemma_div_pos_is_pos(sum as int * SCALE, d);
        assert(0 <= sum * SCALE) by (nonlinear_arith);
        assert(sum as int * SCALE / d <= SCALE);
    }
    let num = sum as u128 * SCALE as u128;
    let den = 255u128 * n as u128;
    (num / den) as u64
}

/// Partitions the image into a grid of `cw` x `ch` tiles and returns the
/// mean normalised RGB of the valid pixels of each tile, keyed by tile
/// coordinate; tiles whose channel sums are pure black are omitted.
pub fn cavg_chunks(img: &Image, cw: usize, ch: usize) -> (map: ChunkMap)
    requires
        img.wf(),
        1 <= cw,
        1 <= ch,
        img.width * img.height <= 0x1_0000_0000_0000,
    ensures
        chunk_map_ok(*img, cw as int, ch as int, map),
{
    let w = img.width;
    let h = img.height;
    proof {
        assert((w % cw != 0 ==> w / cw + 1 <= w) && (h % ch != 0 ==> h / ch + 1 <= h))
            by (nonlinear_arith)
            requires
                1 <= cw,
                1 <= ch,
        ;
    }
    let ntx = w / cw + (if w % cw != 0 { 1 } else { 0 });
    let nty = h / ch + (if h % ch != 0 { 1 } else { 0 });
    let mut entries: Vec<ChunkEntry> = Vec::new();
    for ty in 0..nty
        invariant
            img.wf(),
            img.width == w,
            img.height == h,
            1 <= cw,
            1 <= ch,
            w * h <= 0x1_0000_0000_0000,
            ntx == n_tiles(w as int, cw as int),
            nty == n_tiles(h as int, ch as int),
            forall|k: int|
                0 <= k < entries.len() ==> entry_ok(*img, cw as int, ch as int, #[trigger] entries[k]),
            forall|k: int|
                0 <= k < entries.len() ==> ((#[trigger] entries[k]).ty < ty),
            forall|k1: int, k2: int|
                0 <= k1 < k2 < entries.len() ==> ((#[trigger] entries[k1]).tx
                    != (#[trigger] entries[k2]).tx || entries[k1].ty != entries[k2].ty),
            forall|k: int|
                0 <= k < entries.len() ==> (#[trigger] entries[k]).r <= SCALE && entries[k].g
                    <= SCALE && entries[k].b <= SCALE,
            forall|tx2: int, ty2: int|
                0 <= tx2 < ntx && 0 <= ty2 < ty && !((#[trigger] tile_sum(
                    *img, cw as int, ch as int, tx2, ty2,
                )).r == 0 && tile_sum(*img, cw as int, ch as int, tx2, ty2).g == 0 && tile_sum(
                    *img, cw as int, ch as int, tx2, ty2,
                ).b == 0) ==> exists|k: int|
                    0 <= k < entries.len() && (#[trigger] entries[k]).tx == tx2 && entries[k].ty
                        == ty2,
    {
        for tx in 0..ntx
            invariant
                img.wf(),
                img.width == w,
                img.height == h,
                1 <= cw,
                1 <= ch,
                w * h <= 0x1_0000_0000_0000,
                ntx == n_tiles(w as int, cw as int),
                nty == n_tiles(h as int, ch as int),
                ty < nty,
                forall|k: int|
                    0 <= k < entries.len() ==> entry_ok(
                        *img, cw as int, ch as int, #[trigger] entries[k],
                    ),
                forall|k: int|
                    0 <= k < entries.len() ==> ((#[trigger] entries[k]).ty < ty || (entries[k].ty
                        == ty && entries[k].tx < tx)),
                forall|k1: int, k2: int|
                    0 <= k1 < k2 < entries.len() ==> ((#[trigger] entries[k1]).tx
                        != (#[trigger] entries[k2]).tx || entries[k1].ty != entries[k2].ty),
                forall|k: int|
                    0 <= k < entries.len() ==> (#[trigger] entries[k]).r <= SCALE && entries[k].g
                        <= SCALE && entries[k].b <= SCALE,
                forall|tx2: int, ty2: int|
                    0 <= tx2 < ntx && 0 <= ty2 < nty && (ty2 < ty || (ty2 == ty && tx2 < tx)) && !((
                    #[trigger] tile_sum(*img, cw as int, ch as int, tx2, ty2)).r == 0 && tile_sum(
                        *img, cw as int, ch as int, tx2, ty2,
                    ).g == 0 && tile_sum(*img, cw as int, ch as int, tx2, ty2).b == 0) ==> exists|
                        k: int,
                    |
                        0 <= k < entries.len() && (#[trigger] entries[k]).tx == tx2 && entries[k].ty
                            == ty2,
        {
            proof {
                lemma_tile_start_in_range(w as int, cw as int, tx as int);
                lemma_tile_start_in_range(h as int, ch as int, ty as int);
            }
            let x0 = tx * cw;
            let x1 = if w - x0 < cw {
                w
            } else {
                x0 + cw
            };
            let y0 = ty * ch;
            let y1 = if h - y0 < ch {
                h
            } else {
                y0 + ch
            };
            let (sr, sg, sb, n) = sum_rect(img, x0, x1, y0, y1);
            proof {
                assert(tile_sum(*img, cw as int, ch as int, tx as int, ty as int) == rect_sum(
                    *img, x0 as int, x1 as int, y0 as int, y1 as int,
                ));
            }
            let ghost prev = entries@;
            if sr > 0 || sg > 0 || sb > 0 {
                proof {
                    lemma_rect_sum_bounds(*img, x0 as int, x1 as int, y0 as int, y1 as int);
                    if n == 0 {
                        assert(sr == 0 && sg == 0 && sb == 0) by (nonlinear_arith)
                            requires
                                0 <= sr <= 255 * 0,
                                0 <= sg <= 255 * 0,
                                0 <= sb <= 255 * 0,
                        ;
                    }
                }
                let cr = quantise(sr, n);
                let cg = quantise(sg, n);
                let cb = quantise(sb, n);
                entries.push(ChunkEntry { tx, ty, r: cr, g: cg, b: cb });
            }
            proof {
                assert forall|tx2: int, ty2: int|
                    0 <= tx2 < ntx && 0 <= ty2 < nty && (ty2 < ty || (ty2 == ty && tx2 < tx + 1))
                        && !((#[trigger] tile_sum(*img, cw as int, ch as int, tx2, ty2)).r == 0
                        && tile_sum(*img, cw as int, ch as int, tx2, ty2).g == 0 && tile_sum(
                        *img, cw as int, ch as int, tx2, ty2,
                    ).b == 0) implies exists|k: int|
                        0 <= k < entries.len() && (#[trigger] entries[k]).tx == tx2 && entries[k].ty
                            == ty2 by {
                    if tx2 == tx as int && ty2 == ty as int {
                        assert(entries[entries.len() - 1].tx == tx && entries[entries.len()
                            - 1].ty == ty);
                    } else {
                        let k0 = choose|k: int|
                            0 <= k < prev.len() && (#[trigger] prev[k]).tx == tx2 && prev[k].ty
                                == ty2;
                        assert(entries[k0].tx == tx2 && entries[k0].ty == ty2);
                    }
                }
            }
        }
    }
    let ghost done = entries@;
    let map = ChunkMap { entries };
    proof {
        assert(map.entries@ == done);
        assert forall|tx2: int, ty2: int|
            0 <= tx2 < n_tiles(w as int, cw as int) && 0 <= ty2 < n_tiles(h as int, ch as int)
                && !((#[trigger] tile_sum(*img, cw as int, ch as int, tx2, ty2)).r == 0
                && tile_sum(*img, cw as int, ch as int, tx2, ty2).g == 0 && tile_sum(
                *img, cw as int, ch as int, tx2, ty2,
            ).b == 0) implies map.contains_tile(tx2, ty2) by {
            let k0 = choose|k: int|
                0 <= k < done.len() && (#[trigger] done[k]).tx == tx2 && done[k].ty == ty2;
            assert(map.entries[k0].tx == tx2 && map.entries[k0].ty == ty2);
        }
    }
    map
}

/// A tile index below the tile count starts strictly inside the image.
proof fn lemma_tile_start_in_range(len: int, step: int, t: int)
    by (nonlinear_arith)
    requires
        1 <= step,
        0 <= len,
        0 <= t < n_tiles(len, step),
    ensures
        t * step < len,
        t * step + step <= len || len - t * step < step,
        tile_x0(step, t) == t * step,
        tile_x1(len, step, t) == (if len - t * step < step { len } else { t * step + step }),
{
}

/// A row of invalid pixels sums to nothing.
proof fn lemma_row_sum_invalid(img: Image, y: int, x0: int, x1: int)
    requires
        forall|x: int| x0 <= x < x1 ==> !(#[trigger] img.pix(x, y)).spec_valid(),
    ensures
        row_sum(img, y, x0, x1) == zero_sum(),
    decreases x1 - x0,
{
    if x1 > x0 {
        lemma_row_sum_invalid(img, y, x0, x1 - 1);
    }
}

/// A rectangle of invalid pixels sums to nothing.
proof fn lemma_rect_sum_invalid(img: Image, x0: int, x1: int, y0: int, y1: int)
    requires
        forall|x: int, y: int| x0 <= x < x1 && y0 <= y < y1 ==> !(#[trigger] img.pix(x, y)).spec_valid(),
    ensures
        rect_sum(img, x0, x1, y0, y1) == zero_sum(),
    decreases y1 - y0,
{
    if y1 > y0 {
        lemma_rect_sum_invalid(img, x0, x1, y0, y1 - 1);
        lemma_row_sum_invalid(img, y1 - 1, x0, x1);
    }
}

/// The tile column a pixel column belongs to is its quotient by the tile
/// width, and it indexes a tile on the grid.
proof fn lemma_pixel_tile(len: int, step: int, x: int)
    by (nonlinear_arith)
    requires
        1 <= step,
        0 <= x < len,
    ensures
        0 <= x / step < n_tiles(len, step),
        tile_x0(step, x / step) <= x < tile_x1(len, step, x / step),
        forall|t: int| #[trigger] tile_x0(step, t) <= x < tile_x0(step, t) + step ==> t == x / step,
{
}

/// The 8-bit value of a fixed-point colour channel.
pub open spec fn to_byte(v: int) -> int {
    v * 255 / (SCALE as int)
}

/// The colour [`temp_colour_chunks`] paints at a pixel: its tile's
/// quantised mean scaled to 8 bits, or black where the tile was elided.
pub open spec fn tile_paint_px(img: Image, cw: int, ch: int, x: int, y: int) -> Rgba8 {
    let s = tile_sum(img, cw, ch, x / cw, y / ch);
    if s.r == 0 && s.g == 0 && s.b == 0 {
        spec_black()
    } else {
        Rgba8 {
            r: to_byte(quant_mean(s.r, s.n)) as u8,
            g: to_byte(quant_mean(s.g, s.n)) as u8,
            b: to_byte(quant_mean(s.b, s.n)) as u8,
            a: 255u8,
        }
    }
}

/// Some entry among the first `k` covers tile `(tx, ty)`.
pub open spec fn prefix_contains(m: ChunkMap, k: int, tx: int, ty: int) -> bool {
    exists|j: int|
        0 <= j < k && j < m.entries.len() && (#[trigger] m.entries[j]).tx == tx
            && m.entries[j].ty == ty
}

/// Paints every tile that carries colour with its mean colour, scaled to
/// 8 bits; elided tiles stay black.
pub fn temp_colour_chunks(img: &Image, cw: usize, ch: usize) -> (out: Image)
    requires
        img.wf(),
        1 <= cw,
        1 <= ch,
        img.width * img.height <= 0x1_0000_0000_0000,
    ensures
        out.wf(),
        out.same_size(*img),
        forall|x: int, y: int|
            out.in_bounds(x, y) ==> out.pix(x, y) == tile_paint_px(
                *img, cw as int, ch as int, x, y,
            ),
{
    let w = img.width;
    let h = img.height;
    let map = cavg_chunks(img, cw, ch);
    let mut out = crate::image::black(w, h);
    let n = map.entries.len();
    for k in 0..n
        invariant
            img.wf(),
            img.width == w,
            img.height == h,
            1 <= cw,
            1 <= ch,
            w * h <= 0x1_0000_0000_0000,
            chunk_map_ok(*img, cw as int, ch as int, map),
            n == map.entries.len(),
            out.wf(),
            out.width == w,
            out.height == h,
            forall|x: int, y: int|
                out.in_bounds(x, y) ==> out.pix(x, y) == (if prefix_contains(
                    map, k as int, x / (cw as int), y / (ch as int),
                ) {
                    tile_paint_px(*img, cw as int, ch as int, x, y)
                } else {
                    spec_black()
                }),
    {
        let e = map.entries[k];
        proof {
            assert(entry_ok(*img, cw as int, ch as int, map.entries@[k as int]));
            lemma_tile_start_in_range(w as int, cw as int, e.tx as int);
            lemma_tile_start_in_range(h as int, ch as int, e.ty as int);
        }
        let x0 = e.tx * cw;
        let x1 = if w - x0 < cw {
            w
        } else {
            x0 + cw
        };
        let y0 = e.ty * ch;
        let y1 = if h - y0 < ch {
            h
        } else {
            y0 + ch
        };
        proof {
            assert(e.r * 255 <= SCALE * 255 && e.g * 255 <= SCALE * 255 && e.b * 255 <= SCALE * 255
                && e.r as int * 255 / (SCALE as int) <= 255 && e.g as int * 255 / (SCALE as int)
                <= 255 && e.b as int * 255 / (SCALE as int) <= 255) by (nonlinear_arith)
                requires
                    e.r <= SCALE,
                    e.g <= SCALE,
                    e.b <= SCALE,
            ;
        }
        let col = Rgba8 {
            r: (e.r * 255 / SCALE) as u8,
            g: (e.g * 255 / SCALE) as u8,
            b: (e.b * 255 / SCALE) as u8,
            a: 255,
        };
        proof {
            lemma_pixel_tile(w as int, cw as int, x0 as int);
            lemma_pixel_tile(h as int, ch as int, y0 as int);
            assert(tile_x0(cw as int, e.tx as int) == x0);
            assert(tile_x0(ch as int, e.ty as int) == y0);
            assert(x0 as int / (cw as int) == e.tx as int);
            assert(y0 as int / (ch as int) == e.ty as int);
            assert(col == tile_paint_px(*img, cw as int, ch as int, x0 as int, y0 as int));
        }
        for y in y0..y1
            invariant
                img.wf(),
                img.width == w,
                img.height == h,
                1 <= cw,
                1 <= ch,
                chunk_map_ok(*img, cw as int, ch as int, map),
                n == map.entries.len(),
                k < n,
                e == map.entries@[k as int],
                out.wf(),
                out.width == w,
                out.height == h,
                tile_x0(cw as int, e.tx as int) == x0,
                tile_x1(w as int, cw as int, e.tx as int) == x1,
                tile_x0(ch as int, e.ty as int) == y0,
                tile_x1(h as int, ch as int, e.ty as int) == y1,
                x0 <= x1 <= w,
                y0 <= y <= y1 <= h,
                col == tile_paint_px(*img, cw as int, ch as int, x0 as int, y0 as int),
                col.a == 255,
                forall|x2: int, y2: int|
                    out.in_bounds(x2, y2) && (y0 <= y2 < y && x0 <= x2 < x1) ==> out.pix(x2, y2)
                        == col,
                forall|x2: int, y2: int|
                    out.in_bounds(x2, y2) && !(y0 <= y2 < y && x0 <= x2 < x1) ==> out.pix(x2, y2)
                        == (if prefix_contains(map, k as int, x2 / (cw as int), y2 / (ch as int)) {
                        tile_paint_px(*img, cw as int, ch as int, x2, y2)
                    } else {
                        spec_black()
                    }),
        {
            for x in x0..x1
                invariant
                    out.wf(),
                    out.width == w,
                    out.height == h,
                    x0 <= x <= x1 <= w,
                    y0 <= y < y1 <= h,
                    col.a == 255,
                    forall|x2: int, y2: int|
                        out.in_bounds(x2, y2) && ((y0 <= y2 < y && x0 <= x2 < x1) || (y2 == y && x0
                            <= x2 < x)) ==> out.pix(x2, y2) == col,
                    forall|x2: int, y2: int|
                        out.in_bounds(x2, y2) && !((y0 <= y2 < y && x0 <= x2 < x1) || (y2 == y
                            && x0 <= x2 < x)) ==> out.pix(x2, y2) == (if prefix_contains(
                            map, k as int, x2 / (cw as int), y2 / (ch as int),
                        ) {
                            tile_paint_px(*img, cw as int, ch as int, x2, y2)
                        } else {
                            spec_black()
                        }),
            {
                out.set(x, y, col);
            }
        }
        proof {
            assert forall|x2: int, y2: int| out.in_bounds(x2, y2) implies out.pix(x2, y2) == (
            if prefix_contains(map, (k + 1) as int, x2 / (cw as int), y2 / (ch as int)) {
                tile_paint_px(*img, cw as int, ch as int, x2, y2)
            } else {
                spec_black()
            }) by {
                lemma_pixel_tile(w as int, cw as int, x2);
                lemma_pixel_tile(h as int, ch as int, y2);
                if y0 <= y2 < y1 && x0 <= x2 < x1 {
                    assert(x2 / (cw as int) == e.tx && y2 / (ch as int) == e.ty);
                    assert(prefix_contains(map, (k + 1) as int, x2 / (cw as int), y2 / (ch as int)));
                    assert(tile_paint_px(*img, cw as int, ch as int, x2, y2) == col);
                } else {
                    assert(!(x2 / (cw as int) == e.tx && y2 / (ch as int) == e.ty));
                    assert(prefix_contains(map, (k + 1) as int, x2 / (cw as int), y2 / (ch as int))
                        == prefix_contains(map, k as int, x2 / (cw as int), y2 / (ch as int)));
                }
            }
        }
    }
    proof {
        assert forall|x2: int, y2: int| out.in_bounds(x2, y2) implies out.pix(x2, y2)
            == tile_paint_px(*img, cw as int, ch as int, x2, y2) by {
            lemma_pixel_tile(w as int, cw as int, x2);
            lemma_pixel_tile(h as int, ch as int, y2);
            let tx = x2 / (cw as int);
            let ty = y2 / (ch as int);
            let s = tile_sum(*img, cw as int, ch as int, tx, ty);
            if prefix_contains(map, n as int, tx, ty) {
                let j = choose|j: int|
                    0 <= j < n && j < map.entries.len() && (#[trigger] map.entries[j]).tx == tx
                        && map.entries[j].ty == ty;
                assert(entry_ok(*img, cw as int, ch as int, map.entries[j]));
            } else {
                if !(s.r == 0 && s.g == 0 && s.b == 0) {
                    assert(map.contains_tile(tx, ty));
                    let j = choose|j: int|
                        0 <= j < map.entries.len() && (#[trigger] map.entries[j]).tx == tx
                            && map.entries[j].ty == ty;
                    assert(prefix_contains(map, n as int, tx, ty));
                }
            }
        }
    }
    out
}

/// A tile composed entirely of invalid pixels is absent from the chunk
/// map.
pub proof fn lemma_invalid_tile_absent(img: Image, cw: int, ch: int, map: ChunkMap, tx: int, ty: int)
    requires
        chunk_map_ok(img, cw, ch, map),
        forall|x: int, y: int|
            tile_x0(cw, tx) <= x < tile_x1(img.width as int, cw, tx) && tile_x0(ch, ty) <= y
                < tile_x1(img.height as int, ch, ty) ==> !(#[trigger] img.pix(x, y)).spec_valid(),
    ensures
        !map.contains_tile(tx, ty),
{
    lemma_rect_sum_invalid(
        img,
        tile_x0(cw, tx),
        tile_x1(img.width as int, cw, tx),
        tile_x0(ch, ty),
        tile_x1(img.height as int, ch, ty),
    );
    assert(tile_sum(img, cw, ch, tx, ty) == zero_sum());
    if map.contains_tile(tx, ty) {
        let k = choose|k: int|
            0 <= k < map.entries.len() && (#[trigger] map.entries[k]).tx == tx
                && map.entries[k].ty == ty;
        assert(entry_ok(img, cw, ch, map.entries[k]));
    }
}

} // verus!
