//! A minimal software rasterization pipeline: integer vector geometry,
//! bounds-checked pixel surfaces, Bresenham line drawing, barycentric
//! triangle fill, and flat per-face shading of a triangle mesh.
//!
//! Mesh-space coordinates are held in fixed-point form (see [`geometry`]),
//! so every arithmetic step of the pipeline has an exact integer meaning
//! that the contracts state directly.
//!
//! The crate root also carries a standalone true-color image type,
//! `TGAImage`, with explicit (error-returning) bounds checks; the
//! pipeline itself draws on [`image::Image`], whose writes clip silently.
use vstd::prelude::*;
use vstd::pervasive::VecAdditionalExecFns;
use crate::image::{flipped, lemma_rowmajor_in_range, lemma_rowmajor_split, lemma_rowmajor_unique};

pub mod geometry;
pub mod gl;
pub mod image;
pub mod model;
pub mod util;

verus! {

/// One pixel of a `TGAImage`: red, green, blue and alpha channels.
#[derive(Clone, Copy, Debug, PartialEq, Eq, Structural)]
pub struct TGAColor(pub u8, pub u8, pub u8, pub u8);

/// A true-color image of `width * height` pixels in row-major order,
/// sized for the uncompressed 32-bit TGA layout.
#[derive(Debug)]
pub struct TGAImage {
    pub width: usize,
    pub height: usize,
    pub data: Vec<TGAColor>,
}

impl TGAImage {
    /// Dimensions are positive and the buffer holds exactly one pixel per
    /// coordinate.
    pub open spec fn wf(self) -> bool {
        &&& 0 < self.width
        &&& 0 < self.height
        &&& self.data@.len() == self.width * self.height
    }

    /// Allocates a `width * height` image filled with transparent black.
    pub fn new(width: usize, height: usize) -> (r: TGAImage)
        requires
            0 < width,
            0 < height,
            width * height <= usize::MAX,
        ensures
            r.wf(),
            r.width == width,
            r.height == height,
            forall|i: int| 0 <= i < r.data@.len() ==> r.data@[i] == TGAColor(0, 0, 0, 0),
    {
        let bytes_count: usize = width * height;
        let mut data: Vec<TGAColor> = Vec::new();
        while data.len() < bytes_count
            invariant
                data@.len() <= bytes_count,
                forall|i: int| 0 <= i < data@.len() ==> data@[i] == TGAColor(0, 0, 0, 0),
            decreases bytes_count - data@.len(),
        {
            data.push(TGAColor(0, 0, 0, 0));
        }
        TGAImage { width, height, data }
    }

    /// Writes a pixel, rejecting an out-of-range coordinate with an error
    /// instead of clipping silently.
    pub fn set(&mut self, x: usize, y: usize, color: TGAColor) -> (r: Result<(), &'static str>)
        requires
            old(self).wf(),
        ensures
            final(self).wf(),
            final(self).width == old(self).width,
            final(self).height == old(self).height,
            r is Ok <==> x < old(self).width && y < old(self).height,
            r is Ok ==> final(self).data@ == old(self).data@.update(
                x + y * old(self).width,
                color,
            ),
            r is Err ==> final(self).data@ == old(self).data@,
    {
        if x >= self.width || y >= self.height {
            return Err("x and y must be within initial image boundaries");
        }
        let n = self.data.len();
        proof {
            lemma_rowmajor_in_range(y as int, x as int, self.width as int, self.height as int);
            assert(n == self.width * self.height);
        }
        let idx: usize = x + y * self.width;
        self.data.set(idx, color);
        Ok(())
    }

    /// Reverses the row order in place: row `i` swaps with row
    /// `height - 1 - i`.
    pub fn flip_vertically(&mut self)
        requires
            old(self).wf(),
        ensures
            final(self).wf(),
            final(self).width == old(self).width,
            final(self).height == old(self).height,
            final(self).data@ == flipped(
                old(self).data@,
                old(self).width as int,
                old(self).height as int,
            ),
    {
        let w = self.width;
        let h = self.height;
        let ghost orig = self.data@;
        let half = h / 2;
        let mut i: usize = 0;
        while i < half
            invariant
                0 < w,
                0 < h,
                half == h as int / 2,
                0 <= i <= half,
                self.width == w,
                self.height == h,
                self.data@.len() == orig.len() == w * h,
                forall|r: int, c: int|
                    0 <= r < h && 0 <= c < w ==> #[trigger] self.data@[r * w + c] == if r < i || r
                        > h - 1 - i {
                        orig[(h - 1 - r) * w + c]
                    } else {
                        orig[r * w + c]
                    },
            decreases half - i,
        {
            let mut j: usize = 0;
            while j < w
                invariant
                    0 < w,
                    0 < h,
                    half == h as int / 2,
                    0 <= i < half,
                    0 <= j <= w,
                    self.width == w,
                    self.height == h,
                    self.data@.len() == orig.len() == w * h,
                    forall|r: int, c: int|
                        0 <= r < h && 0 <= c < w ==> #[trigger] self.data@[r * w + c] == if r < i
                            || r > h - 1 - i || (r == i && c < j) || (r == h - 1 - i && c < j) {
                            orig[(h - 1 - r) * w + c]
                        } else {
                            orig[r * w + c]
                        },
                decreases w - j,
            {
                let n = self.data.len();
                proof {
                    lemma_rowmajor_in_range(i as int, j as int, w as int, h as int);
                    lemma_rowmajor_in_range(h - 1 - i, j as int, w as int, h as int);
                    assert(i < h - 1 - i) by (nonlinear_arith)
                        requires
                            0 <= i < half,
                            half == h as int / 2,
                            0 < h,
                    ;
                    assert(n == w * h);
                }
                let pixel_idx: usize = i * w + j;
                let pixel_to_swap_x_coord: usize = h - 1 - i;
                let pixel_to_swap_idx: usize = pixel_to_swap_x_coord * w + j;
                let a = self.data[pixel_idx];
                let b = self.data[pixel_to_swap_idx];
                self.data.set(pixel_idx, b);
                self.data.set(pixel_to_swap_idx, a);
                proof {
                    assert forall|r: int, c: int| 0 <= r < h && 0 <= c < w implies #[trigger] self
                        .data@[r * w + c] == if r < i || r > h - 1 - i || (r == i && c < j + 1) || (
                    r == h - 1 - i && c < j + 1) {
                        orig[(h - 1 - r) * w + c]
                    } else {
                        orig[r * w + c]
                    } by {
                        lemma_rowmajor_in_range(r, c, w as int, h as int);
                        if r * w + c == pixel_idx {
                            lemma_rowmajor_unique(r, c, i as int, j as int, w as int);
                        } else if r * w + c == pixel_to_swap_idx {
                            lemma_rowmajor_unique(r, c, h - 1 - i, j as int, w as int);
                        }
                    }
                }
                j = j + 1;
            }
            i = i + 1;
        }
        proof {
            let fs = flipped(orig, w as int, h as int);
            assert forall|k: int| 0 <= k < self.data@.len() implies self.data@[k] == fs[k] by {
                lemma_rowmajor_split(k, w as int);
                let r = k / w as int;
                let c = k % w as int;
                assert(r < h) by (nonlinear_arith)
                    requires
                        0 < w,
                        0 <= c < w,
                        r * w + c == k,
                        k < w * h,
                        0 <= r,
                ;
                assert(self.data@[r * (w as int) + c] == if r < i || r > h - 1 - i {
                    orig[(h - 1 - r) * w + c]
                } else {
                    orig[r * (w as int) + c]
                });
                if !(r < i || r > h - 1 - i) {
                    assert(r == h - 1 - r) by (nonlinear_arith)
                        requires
                            i <= r <= h - 1 - i,
                            i == h as int / 2,
                            0 < h,
                    ;
                }
                lemma_rowmajor_in_range(h - 1 - r, c, w as int, h as int);
            }
            assert(self.data@ =~= fs);
        }
    }
}

} // verus!
