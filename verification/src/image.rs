//! The pixel-buffer type shared by every pass of the pipeline: a row-major
//! RGBA buffer whose alpha channel doubles as a validity flag (`255` means
//! the sample is valid and contributes to statistics; anything else is
//! excluded).

use vstd::prelude::*;

verus! {

/// Fixed-point scale: the real interval `[0, 1]` is represented by the
/// integers `0 ..= SCALE`.
pub const SCALE: u64 = 1_000_000;

/// An 8-bit RGBA sample. Alpha `255` marks a valid pixel.
#[derive(Clone, Copy, PartialEq, Eq, Structural, Debug)]
pub struct Rgba8 {
    pub r: u8,
    pub g: u8,
    pub b: u8,
    pub a: u8,
}

impl Rgba8 {
    /// Builds a sample from its four channels.
    pub fn new(r: u8, g: u8, b: u8, a: u8) -> (c: Rgba8)
        ensures
            c == (Rgba8 { r, g, b, a }),
    {
        Rgba8 { r, g, b, a }
    }

    /// Builds a fully opaque sample.
    pub fn opaque(r: u8, g: u8, b: u8) -> (c: Rgba8)
        ensures
            c == (Rgba8 { r, g, b, a: 255u8 }),
    {
        Rgba8 { r, g, b, a: 255 }
    }

    /// A valid sample is one whose alpha equals the maximum value.
    pub open spec fn spec_valid(self) -> bool {
        self.a == 255
    }

    /// Whether this sample counts as valid for statistics and tile averages.
    pub fn valid(&self) -> (v: bool)
        ensures
            v == self.spec_valid(),
    {
        self.a == 255
    }
}

/// The mask sentinel for a selected pixel.
pub open spec fn spec_white() -> Rgba8 {
    Rgba8 { r: 255, g: 255, b: 255, a: 255 }
}

/// The mask sentinel for an unselected pixel in the statistical pipeline.
pub open spec fn spec_black() -> Rgba8 {
    Rgba8 { r: 0, g: 0, b: 0, a: 255 }
}

/// The unmarked sentinel used by the interactive flood fill.
pub open spec fn spec_clear() -> Rgba8 {
    Rgba8 { r: 0, g: 0, b: 0, a: 0 }
}

/// Returns the selected-pixel sentinel.
pub fn white() -> (c: Rgba8)
    ensures
        c == spec_white(),
{
    Rgba8 { r: 255, g: 255, b: 255, a: 255 }
}

/// Returns the unselected-pixel sentinel.
pub fn black_px() -> (c: Rgba8)
    ensures
        c == spec_black(),
{
    Rgba8 { r: 0, g: 0, b: 0, a: 255 }
}

/// Returns the unmarked sentinel of the interactive flood fill.
pub fn clear_px() -> (c: Rgba8)
    ensures
        c == spec_clear(),
{
    Rgba8 { r: 0, g: 0, b: 0, a: 0 }
}

/// A width x height, row-major RGBA image.
pub struct Image {
    pub width: usize,
    pub height: usize,
    pub data: Vec<Rgba8>,
}

impl Image {
    /// The buffer holds exactly one sample per coordinate.
    pub open spec fn wf(self) -> bool {
        self.data.len() == self.width * self.height
    }

    /// The sample at column `x`, row `y`.
    pub open spec fn pix(self, x: int, y: int) -> Rgba8 {
        self.data[y * self.width + x]
    }

    /// Whether `(x, y)` lies inside the image.
    pub open spec fn in_bounds(self, x: int, y: int) -> bool {
        0 <= x < self.width && 0 <= y < self.height
    }

    /// Two images cover the same coordinate grid.
    pub open spec fn same_size(self, other: Image) -> bool {
        self.width == other.width && self.height == other.height
    }

    /// Reads the sample at `(x, y)`.
    pub fn get(&self, x: usize, y: usize) -> (c: Rgba8)
        requires
            self.wf(),
            self.in_bounds(x as int, y as int),
        ensures
            c == self.pix(x as int, y as int),
    {
        proof {
            lemma_row_major_index(self.width as int, self.height as int, x as int, y as int);
        }
        self.data[y * self.width + x]
    }

    /// Overwrites the sample at `(x, y)`.
    pub fn set(&mut self, x: usize, y: usize, c: Rgba8)
        requires
            old(self).wf(),
            old(self).in_bounds(x as int, y as int),
        ensures
            final(self).wf(),
            final(self).width == old(self).width,
            final(self).height == old(self).height,
            final(self).data@ == old(self).data@.update(y * old(self).width + x, c),
            final(self).pix(x as int, y as int) == c,
            forall|i: int, j: int|
                old(self).in_bounds(i, j) && !(i == x && j == y) ==> final(self).pix(i, j)
                    == old(self).pix(i, j),
    {
        proof {
            lemma_row_major_index(self.width as int, self.height as int, x as int, y as int);
        }
        let idx = y * self.width + x;
        self.data.set(idx, c);
        proof {
            assert forall|i: int, j: int|
                old(self).in_bounds(i, j) && !(i == x && j == y) implies final(self).pix(i, j)
                == old(self).pix(i, j) by {
                lemma_row_major_index(self.width as int, self.height as int, i, j);
                lemma_row_major_distinct(self.width as int, x as int, y as int, i, j);
            }
        }
    }

    /// Builds an image whose every sample is `fill`.
    pub fn filled(width: usize, height: usize, fill: Rgba8) -> (img: Image)
        requires
            width * height <= usize::MAX,
        ensures
            img.wf(),
            img.width == width,
            img.height == height,
            forall|i: int, j: int| img.in_bounds(i, j) ==> img.pix(i, j) == fill,
    {
        let n = width * height;
        let mut data: Vec<Rgba8> = Vec::new();
        let mut k: usize = 0;
        while k < n
            invariant
                k <= n,
                data.len() == k,
                forall|t: int| 0 <= t < k ==> data[t] == fill,
            decreases n - k,
        {
            data.push(fill);
            k = k + 1;
        }
        let img = Image { width, height, data };
        proof {
            assert forall|i: int, j: int| img.in_bounds(i, j) implies img.pix(i, j) == fill by {
                lemma_row_major_index(width as int, height as int, i, j);
            }
        }
        img
    }
}

/// Returns a completely opaque, black image of the given size.
pub fn black(width: usize, height: usize) -> (img: Image)
    requires
        width * height <= usize::MAX,
    ensures
        img.wf(),
        img.width == width,
        img.height == height,
        forall|i: int, j: int| img.in_bounds(i, j) ==> img.pix(i, j) == spec_black(),
{
    Image::filled(width, height, black_px())
}

/// Creates an all-unmarked selection mask with the dimensions of `img`.
pub fn create_mask(img: &Image) -> (mask: Image)
    requires
        img.wf(),
    ensures
        mask.wf(),
        mask.same_size(*img),
        forall|i: int, j: int| mask.in_bounds(i, j) ==> mask.pix(i, j) == spec_clear(),
{
    Image::filled(img.width, img.height, clear_px())
}

/// A row-major index stays inside the buffer.
pub proof fn lemma_row_major_index(w: int, h: int, x: int, y: int)
    by (nonlinear_arith)
    requires
        0 <= x < w,
        0 <= y < h,
    ensures
        0 <= y * w + x < w * h,
{
}

/// Distinct coordinates map to distinct row-major indices.
pub proof fn lemma_row_major_distinct(w: int, x0: int, y0: int, x1: int, y1: int)
    by (nonlinear_arith)
    requires
        0 <= x0 < w,
        0 <= x1 < w,
        0 <= y0,
        0 <= y1,
        !(x0 == x1 && y0 == y1),
    ensures
        y0 * w + x0 != y1 * w + x1,
{
}

} // verus!
