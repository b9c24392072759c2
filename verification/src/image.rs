//! The raster surface: a row-major grid of RGBA pixels with a vertical
//! flip, plus the uncompressed true-color file encoding of the grid.
use vstd::prelude::*;
use vstd::pervasive::VecAdditionalExecFns;
use vstd::arithmetic::div_mod::{
    lemma_fundamental_div_mod,
    lemma_fundamental_div_mod_converse,
};

verus! {

/// One pixel: red, green, blue and alpha channels.
#[derive(Clone, Copy, Debug, PartialEq, Eq, Structural)]
pub struct Color(pub u8, pub u8, pub u8, pub u8);

/// A raster surface of `width * height` pixels in row-major order: the
/// pixel at `(x, y)` lives at index `x + y * width`.
#[derive(Debug)]
pub struct Image {
    pub width: i32,
    pub height: i32,
    pub data: Vec<Color>,
}

/// Index holding pixel `(x, y)` of a surface `w` pixels wide.
pub open spec fn pixel_index(x: int, y: int, w: int) -> int {
    x + y * w
}

/// Index that row `i / w`'s mirror row supplies to index `i` when a
/// `w * h` surface is flipped vertically.
pub open spec fn flip_source(i: int, w: int, h: int) -> int {
    (h - 1 - i / w) * w + i % w
}

/// The pixel buffer `s` of a `w * h` surface with its row order reversed.
pub open spec fn flipped<T>(s: Seq<T>, w: int, h: int) -> Seq<T> {
    Seq::new(s.len(), |i: int| s[flip_source(i, w, h)])
}

/// Row-major indices are unique: one `(row, column)` pair per index.
pub(crate) proof fn lemma_rowmajor_unique(r1: int, c1: int, r2: int, c2: int, w: int)
    by (nonlinear_arith)
    requires
        0 < w,
        0 <= c1 < w,
        0 <= c2 < w,
        r1 * w + c1 == r2 * w + c2,
    ensures
        r1 == r2,
        c1 == c2,
{
}

/// Splits an index of a `w`-wide row-major buffer into its row and column.
pub(crate) proof fn lemma_rowmajor_split(i: int, w: int)
    requires
        0 < w,
        0 <= i,
    ensures
        i == (i / w) * w + (i % w),
        0 <= i % w < w,
        0 <= i / w,
{
    lemma_fundamental_div_mod(i, w);
    assert(i == w * (i / w) + (i % w));
    assert(w * (i / w) == (i / w) * w) by (nonlinear_arith);
}

/// A row-major index built from a row and column in range recovers them
/// by division and remainder.
pub(crate) proof fn lemma_rowmajor_join(r: int, c: int, w: int)
    requires
        0 < w,
        0 <= r,
        0 <= c < w,
    ensures
        (r * w + c) / w == r,
        (r * w + c) % w == c,
{
    lemma_fundamental_div_mod_converse(r * w + c, w, r, c);
}

/// Indices of a `w * h` buffer stay in range: `r * w + c < w * h` for any
/// row `r < h` and column `c < w`.
pub(crate) proof fn lemma_rowmajor_in_range(r: int, c: int, w: int, h: int)
    by (nonlinear_arith)
    requires
        0 < w,
        0 <= r < h,
        0 <= c < w,
    ensures
        0 <= r * w + c < w * h,
{
}

/// Reversing the rows of a `w * h` buffer twice restores every pixel:
/// the vertical flip is an involution.
pub proof fn lemma_flip_involution<T>(s: Seq<T>, w: int, h: int)
    requires
        0 < w,
        0 < h,
        s.len() == w * h,
    ensures
        flipped(flipped(s, w, h), w, h) == s,
{
    let f = flipped(s, w, h);
    let ff = flipped(f, w, h);
    assert forall|i: int| 0 <= i < s.len() implies ff[i] == s[i] by {
        lemma_rowmajor_split(i, w);
        let r = i / w;
        let c = i % w;
        assert(r < h) by (nonlinear_arith)
            requires
                0 < w,
                0 <= c < w,
                r * w + c == i,
                i < w * h,
                0 <= r,
        ;
        lemma_rowmajor_in_range(r, c, w, h);
        lemma_rowmajor_in_range(h - 1 - r, c, w, h);
        lemma_rowmajor_join(h - 1 - r, c, w);
        assert(flip_source(i, w, h) == (h - 1 - r) * w + c);
        assert(ff[i] == f[(h - 1 - r) * w + c]);
        assert(flip_source((h - 1 - r) * w + c, w, h) == r * w + c);
    }
    assert(ff =~= s);
}

impl Image {
    /// Dimensions are positive and the buffer holds exactly one pixel per
    /// `(x, y)` coordinate.
    pub open spec fn wf(self) -> bool {
        &&& 0 < self.width
        &&& 0 < self.height
        &&& self.data@.len() == self.width * self.height
    }

    /// Allocates a `width * height` surface filled with transparent black.
    pub fn new(width: i32, height: i32) -> (r: Image)
        requires
            0 < width,
            0 < height,
            width * height <= usize::MAX,
        ensures
            r.wf(),
            r.width == width,
            r.height == height,
            forall|i: int| 0 <= i < r.data@.len() ==> r.data@[i] == Color(0, 0, 0, 0),
    {
        let count: usize = (width as usize) * (height as usize);
        let mut data: Vec<Color> = Vec::new();
        while data.len() < count
            invariant
                data@.len() <= count,
                forall|i: int| 0 <= i < data@.len() ==> data@[i] == Color(0, 0, 0, 0),
            decreases count - data@.len(),
        {
            data.push(Color(0, 0, 0, 0));
        }
        Image { width, height, data }
    }

    /// Reverses the row order in place: row `i` swaps with row
    /// `height - 1 - i`, converting between bottom-up and top-down pixel
    /// buffers.
    pub fn flip_vertically(&mut self)
        requires
            old(self).wf(),
        ensures
            final(self).wf(),
            final(self).width == old(self).width,
            final(self).height == old(self).height,
            final(self).data@ == flipped(old(self).data@, old(self).width as int, old(self).height as int),
    {
        let w = self.width;
        let h = self.height;
        let wu = w as usize;
        let ghost orig = self.data@;
        let half = h >> 1;
        assert(half == h as int / 2) by (bit_vector)
            requires
                half == h >> 1,
                0 < h,
        ;
        let mut i: i32 = 0;
        while i < half
            invariant
                0 < w,
                0 < h,
                wu == w,
                half == h as int / 2,
                0 <= i <= half,
                self.width == w,
                self.height == h,
                self.data@.len() == orig.len() == w * h,
                forall|r: int, c: int|
                    0 <= r < h && 0 <= c < w ==> #[trigger] self.data@[r * w + c] == if r < i || r
                        > h - 1 - i {
                        orig[(h - 1 - r) * w + c]
                    } else {
                        orig[r * w + c]
                    },
            decreases half - i,
        {
            let mut j: i32 = 0;
            while j < w
                invariant
                    0 < w,
                    0 < h,
                    wu == w,
                    half == h as int / 2,
                    0 <= i < half,
                    0 <= j <= w,
                    self.width == w,
                    self.height == h,
                    self.data@.len() == orig.len() == w * h,
                    forall|r: int, c: int|
                        0 <= r < h && 0 <= c < w ==> #[trigger] self.data@[r * w + c] == if r < i
                            || r > h - 1 - i || (r == i && c < j) || (r == h - 1 - i && c < j) {
                            orig[(h - 1 - r) * w + c]
                        } else {
                            orig[r * w + c]
                        },
                decreases w - j,
            {
                let n = self.data.len();
                proof {
                    lemma_rowmajor_in_range(i as int, j as int, w as int, h as int);
                    lemma_rowmajor_in_range(h - 1 - i, j as int, w as int, h as int);
                    assert(i < h - 1 - i) by (nonlinear_arith)
                        requires
                            0 <= i < half,
                            half == h as int / 2,
                            0 < h,
                    ;
                    assert(n == w * h);
                }
                let idx: usize = (i as usize) * wu + (j as usize);
                let swap_row: i32 = h - 1 - i;
                let swap_idx: usize = (swap_row as usize) * wu + (j as usize);
                let a = self.data[idx];
                let b = self.data[swap_idx];
                self.data.set(idx, b);
                self.data.set(swap_idx, a);
                proof {
                    assert forall|r: int, c: int| 0 <= r < h && 0 <= c < w implies #[trigger] self
                        .data@[r * w + c] == if r < i || r > h - 1 - i || (r == i && c < j + 1) || (
                    r == h - 1 - i && c < j + 1) {
                        orig[(h - 1 - r) * w + c]
                    } else {
                        orig[r * w + c]
                    } by {
                        lemma_rowmajor_in_range(r, c, w as int, h as int);
                        if r * w + c == idx {
                            lemma_rowmajor_unique(r, c, i as int, j as int, w as int);
                        } else if r * w + c == swap_idx {
                            lemma_rowmajor_unique(r, c, h - 1 - i, j as int, w as int);
                        }
                    }
                }
                j = j + 1;
            }
            i = i + 1;
        }
        proof {
            let fs = flipped(orig, w as int, h as int);
            assert forall|k: int| 0 <= k < self.data@.len() implies self.data@[k] == fs[k] by {
                lemma_rowmajor_split(k, w as int);
                let r = k / w as int;
                let c = k % w as int;
                assert(r < h) by (nonlinear_arith)
                    requires
                        0 < w,
                        0 <= c < w,
                        r * w + c == k,
                        k < w * h,
                        0 <= r,
                ;
                assert(self.data@[r * (w as int) + c] == if r < i || r > h - 1 - i {
                    orig[(h - 1 - r) * w + c]
                } else {
                    orig[r * (w as int) + c]
                });
                if !(r < i || r > h - 1 - i) {
                    assert(r == h - 1 - r) by (nonlinear_arith)
                        requires
                            i <= r <= h - 1 - i,
                            i == h as int / 2,
                            0 < h,
                    ;
                }
                lemma_rowmajor_in_range(h - 1 - r, c, w as int, h as int);
            }
            assert(self.data@ =~= fs);
        }
    }
}

/// The 18-byte header of an uncompressed 32-bit true-color image file:
/// image type 2, no color map, little-endian width and height, 32 bits
/// per pixel.
pub open spec fn tga_header(w: int, h: int) -> Seq<u8> {
    seq![
        0u8,
        0u8,
        2u8,
        0u8,
        0u8,
        0u8,
        0u8,
        0u8,
        0u8,
        0u8,
        0u8,
        0u8,
        (w % 256) as u8,
        (w / 256) as u8,
        (h % 256) as u8,
        (h / 256) as u8,
        32u8,
        0u8,
    ]
}

/// The four bytes of one pixel, in R-G-B-A order.
pub open spec fn pixel_bytes(c: Color) -> Seq<u8> {
    seq![c.0, c.1, c.2, c.3]
}

/// The raw pixel payload: each pixel's four channel bytes in buffer
/// order.
pub open spec fn tga_payload(data: Seq<Color>) -> Seq<u8> {
    Seq::new(4 * data.len(), |i: int| pixel_bytes(data[i / 4])[i % 4])
}

/// The full file encoding of a pixel buffer: header then payload.
pub open spec fn encode_bytes(w: int, h: int, data: Seq<Color>) -> Seq<u8> {
    tga_header(w, h) + tga_payload(data)
}

/// The width named by an encoded file's header (little endian).
pub open spec fn decoded_width(b: Seq<u8>) -> int {
    b[12] + 256 * b[13]
}

/// The height named by an encoded file's header.
pub open spec fn decoded_height(b: Seq<u8>) -> int {
    b[14] + 256 * b[15]
}

/// `b` is a well-formed encoding: the fixed header fields match, the
/// dimensions are positive, and the payload holds exactly four bytes per
/// pixel.
pub open spec fn valid_encoding(b: Seq<u8>) -> bool {
    &&& b.len() >= 18
    &&& b[0] == 0 && b[1] == 0 && b[2] == 2
    &&& b[3] == 0 && b[4] == 0 && b[5] == 0 && b[6] == 0 && b[7] == 0
    &&& b[8] == 0 && b[9] == 0 && b[10] == 0 && b[11] == 0
    &&& b[16] == 32 && b[17] == 0
    &&& 0 < decoded_width(b)
    &&& 0 < decoded_height(b)
    &&& b.len() == 18 + 4 * (decoded_width(b) * decoded_height(b))
}

/// The pixel buffer an encoded file carries.
pub open spec fn decoded_pixels(b: Seq<u8>) -> Seq<Color> {
    Seq::new(
        (decoded_width(b) * decoded_height(b)) as nat,
        |i: int|
            Color(b[18 + 4 * i], b[18 + 4 * i + 1], b[18 + 4 * i + 2], b[18 + 4 * i + 3]),
    )
}

/// Round trip: decoding an encoded surface recovers its dimensions and
/// its pixel buffer exactly.
pub proof fn lemma_encode_decode(w: int, h: int, data: Seq<Color>)
    requires
        0 < w <= 0xFFFF,
        0 < h <= 0xFFFF,
        data.len() == w * h,
    ensures
        valid_encoding(encode_bytes(w, h, data)),
        decoded_width(encode_bytes(w, h, data)) == w,
        decoded_height(encode_bytes(w, h, data)) == h,
        decoded_pixels(encode_bytes(w, h, data)) == data,
{
    let b = encode_bytes(w, h, data);
    lemma_fundamental_div_mod(w, 256);
    lemma_fundamental_div_mod(h, 256);
    assert(decoded_width(b) == w);
    assert(decoded_height(b) == h);
    let px = decoded_pixels(b);
    assert forall|i: int| 0 <= i < data.len() implies px[i] == data[i] by {
        lemma_fundamental_div_mod_converse(4 * i, 4, i, 0);
        lemma_fundamental_div_mod_converse(4 * i + 1, 4, i, 1);
        lemma_fundamental_div_mod_converse(4 * i + 2, 4, i, 2);
        lemma_fundamental_div_mod_converse(4 * i + 3, 4, i, 3);
        assert(b[18 + 4 * i] == tga_payload(data)[4 * i]);
        assert(b[18 + 4 * i + 1] == tga_payload(data)[4 * i + 1]);
        assert(b[18 + 4 * i + 2] == tga_payload(data)[4 * i + 2]);
        assert(b[18 + 4 * i + 3] == tga_payload(data)[4 * i + 3]);
        assert(px[i] == Color(data[i].0, data[i].1, data[i].2, data[i].3));
    }
    assert(px =~= data);
}

impl Image {
    /// Serializes the surface to the explicit byte layout of an
    /// uncompressed 32-bit true-color image file: 18-byte header, then
    /// R-G-B-A bytes per pixel in buffer (bottom-up) row order. The
    /// format's 16-bit dimension fields force the size bound.
    pub fn encode(&self) -> (r: Vec<u8>)
        requires
            self.wf(),
            self.width <= 0xFFFF,
            self.height <= 0xFFFF,
        ensures
            r@ == encode_bytes(self.width as int, self.height as int, self.data@),
    {
        let w = self.width;
        let h = self.height;
        let mut out: Vec<u8> = Vec::new();
        out.push(0);
        out.push(0);
        out.push(2);
        out.push(0);
        out.push(0);
        out.push(0);
        out.push(0);
        out.push(0);
        out.push(0);
        out.push(0);
        out.push(0);
        out.push(0);
        out.push((w % 256) as u8);
        out.push((w / 256) as u8);
        out.push((h % 256) as u8);
        out.push((h / 256) as u8);
        out.push(32);
        out.push(0);
        assert(out@ =~= tga_header(w as int, h as int));
        let ghost hdr = out@;
        let n = self.data.len();
        let mut i: usize = 0;
        while i < n
            invariant
                n == self.data@.len(),
                0 <= i <= n,
                out@.len() == 18 + 4 * i,
                forall|j: int| 0 <= j < 18 ==> out@[j] == hdr[j],
                hdr == tga_header(self.width as int, self.height as int),
                forall|j: int|
                    0 <= j < i ==> #[trigger] out@[18 + 4 * j] == self.data@[j].0 && out@[18 + 4 * j
                        + 1] == self.data@[j].1 && out@[18 + 4 * j + 2] == self.data@[j].2 && out@[18
                        + 4 * j + 3] == self.data@[j].3,
            decreases n - i,
        {
            let c = self.data[i];
            let ghost before = out@;
            out.push(c.0);
            out.push(c.1);
            out.push(c.2);
            out.push(c.3);
            proof {
                assert(out@[18 + 4 * (i as int)] == c.0);
                assert(out@[18 + 4 * (i as int) + 1] == c.1);
                assert(out@[18 + 4 * (i as int) + 2] == c.2);
                assert(out@[18 + 4 * (i as int) + 3] == c.3);
                assert forall|j: int| 0 <= j < i + 1 implies #[trigger] out@[18 + 4 * j]
                    == self.data@[j].0 && out@[18 + 4 * j + 1] == self.data@[j].1 && out@[18 + 4 * j
                    + 2] == self.data@[j].2 && out@[18 + 4 * j + 3] == self.data@[j].3 by {
                    if j < i {
                        assert(out@[18 + 4 * j] == before[18 + 4 * j]);
                        assert(out@[18 + 4 * j + 1] == before[18 + 4 * j + 1]);
                        assert(out@[18 + 4 * j + 2] == before[18 + 4 * j + 2]);
                        assert(out@[18 + 4 * j + 3] == before[18 + 4 * j + 3]);
                    }
                }
            }
            i = i + 1;
        }
        proof {
            let fin = encode_bytes(self.width as int, self.height as int, self.data@);
            assert(out@.len() == fin.len());
            assert forall|k: int| 0 <= k < out@.len() implies out@[k] == fin[k] by {
                if k < 18 {
                    assert(fin[k] == tga_header(self.width as int, self.height as int)[k]);
                } else {
                    let t = k - 18;
                    lemma_fundamental_div_mod(t, 4);
                    let j = t / 4;
                    let c = t % 4;
                    assert(j < self.data@.len()) by (nonlinear_arith)
                        requires
                            t == 4 * j + c,
                            0 <= c < 4,
                            t < 4 * self.data@.len(),
                            0 <= j,
                    ;
                    assert(fin[k] == tga_payload(self.data@)[t]);
                    assert(out@[18 + 4 * j] == self.data@[j].0);
                    assert(out@[18 + 4 * j + 1] == self.data@[j].1);
                    assert(out@[18 + 4 * j + 2] == self.data@[j].2);
                    assert(out@[18 + 4 * j + 3] == self.data@[j].3);
                    if c == 0 {
                        assert(k == 18 + 4 * j);
                    } else if c == 1 {
                        assert(k == 18 + 4 * j + 1);
                    } else if c == 2 {
                        assert(k == 18 + 4 * j + 2);
                    } else {
                        assert(k == 18 + 4 * j + 3);
                    }
                }
            }
            assert(out@ =~= fin);
        }
        out
    }

    /// Parses the explicit byte layout back into a surface: returns the
    /// decoded image exactly when the bytes are a well-formed encoding,
    /// and nothing otherwise.
    pub fn decode(bytes: &Vec<u8>) -> (r: Option<Image>)
        ensures
            valid_encoding(bytes@) ==> (r matches Some(img) && img.wf() && img.width
                == decoded_width(bytes@) && img.height == decoded_height(bytes@) && img.data@
                == decoded_pixels(bytes@)),
            !valid_encoding(bytes@) ==> r is None,
    {
        if bytes.len() < 18 {
            return None;
        }
        if bytes[0] != 0 || bytes[1] != 0 || bytes[2] != 2 || bytes[3] != 0 || bytes[4] != 0
            || bytes[5] != 0 || bytes[6] != 0 || bytes[7] != 0 || bytes[8] != 0 || bytes[9] != 0
            || bytes[10] != 0 || bytes[11] != 0 || bytes[16] != 32 || bytes[17] != 0 {
            return None;
        }
        let w: u64 = bytes[12] as u64 + 256 * (bytes[13] as u64);
        let h: u64 = bytes[14] as u64 + 256 * (bytes[15] as u64);
        if w == 0 || h == 0 {
            return None;
        }
        proof {
            crate::geometry::lemma_mul_abs_bound(w as int, h as int, 0x1_0000);
        }
        let expected: u64 = 18 + 4 * (w * h);
        let blen = bytes.len();
        if blen as u64 != expected {
            return None;
        }
        assert(w * h <= usize::MAX);
        let count: usize = (w * h) as usize;
        let mut data: Vec<Color> = Vec::new();
        let mut i: usize = 0;
        while i < count
            invariant
                count == decoded_width(bytes@) * decoded_height(bytes@),
                bytes@.len() == 18 + 4 * count,
                bytes@.len() <= usize::MAX,
                0 <= i <= count,
                data@.len() == i,
                forall|j: int| 0 <= j < i ==> #[trigger] data@[j] == decoded_pixels(bytes@)[j],
            decreases count - i,
        {
            proof {
                assert(18 + 4 * i + 3 < bytes@.len()) by (nonlinear_arith)
                    requires
                        0 <= i < count,
                        bytes@.len() == 18 + 4 * count,
                ;
            }
            let c = Color(
                bytes[18 + 4 * i],
                bytes[18 + 4 * i + 1],
                bytes[18 + 4 * i + 2],
                bytes[18 + 4 * i + 3],
            );
            data.push(c);
            i = i + 1;
        }
        let img = Image { width: w as i32, height: h as i32, data };
        proof {
            assert(img.data@ =~= decoded_pixels(bytes@));
        }
        Some(img)
    }
}

} // verus!
