//! Image extractor and compositor: crops a sprite's frame rectangle out of
//! the decoded source image and, for a trimmed sprite, restores the crop onto
//! a fully transparent canvas of the original untrimmed size, pixel by pixel.
use vstd::prelude::*;

use vstd::arithmetic::div_mod::lemma_fundamental_div_mod;
use vstd::arithmetic::div_mod::lemma_fundamental_div_mod_converse;
use vstd::arithmetic::div_mod::lemma_mod_bound;
use vstd::arithmetic::mul::lemma_mul_inequality;

verus! {

/// One RGBA pixel.
#[derive(Clone, Copy, PartialEq, Eq, Structural, Debug)]
pub struct Pixel {
    pub r: u8,
    pub g: u8,
    pub b: u8,
    pub a: u8,
}

/// The fully transparent pixel a restored canvas is filled with.
pub open spec fn transparent() -> Pixel {
    Pixel { r: 0, g: 0, b: 0, a: 0 }
}

/// A decoded RGBA pixel buffer in row-major order.
pub struct ImageBuf {
    pub width: u32,
    pub height: u32,
    pub pixels: Vec<Pixel>,
}

impl ImageBuf {
    /// The buffer holds exactly one pixel per coordinate.
    pub open spec fn wf(self) -> bool {
        self.pixels@.len() == self.width as int * self.height as int
    }

    /// The pixel at column `x` of row `y`.
    pub open spec fn pix(self, x: int, y: int) -> Pixel {
        self.pixels@[y * self.width as int + x]
    }

    /// A coordinate's row-major offset lies inside the buffer.
    proof fn lemma_offset_in_bounds(self, x: int, y: int)
        requires
            self.wf(),
            0 <= x < self.width as int,
            0 <= y < self.height as int,
        ensures
            0 <= y * self.width as int + x < self.pixels@.len(),
    {
        let w = self.width as int;
        let h = self.height as int;
        assert(y * w + x < w * h) by (nonlinear_arith)
            requires
                0 <= x < w,
                0 <= y < h,
        ;
        assert(0 <= y * w) by (nonlinear_arith)
            requires
                0 <= y,
                0 <= w,
        ;
    }

    /// Reads the pixel at `(x, y)`.
    pub fn get(&self, x: u32, y: u32) -> (p: Pixel)
        requires
            self.wf(),
            x < self.width,
            y < self.height,
        ensures
            p == self.pix(x as int, y as int),
    {
        let n = self.pixels.len();
        proof {
            self.lemma_offset_in_bounds(x as int, y as int);
        }
        let idx: usize = (y as usize) * (self.width as usize) + (x as usize);
        self.pixels[idx]
    }
}

/// A flat offset `k` of a `w`-by-`h` row-major buffer decomposes into the
/// column `k % w` of row `k / w`.
pub(crate) proof fn lemma_flat_decompose(k: int, w: int, h: int)
    requires
        0 < w,
        0 <= k < w * h,
    ensures
        0 <= k % w < w,
        0 <= k / w < h,
        k == (k / w) * w + (k % w),
{
    lemma_fundamental_div_mod(k, w);
    lemma_mod_bound(k, w);
    let q = k / w;
    if q < 0 {
        assert(w * q <= w * -1) by (nonlinear_arith)
            requires
                0 < w,
                q <= -1,
        ;
    }
    if q >= h {
        lemma_mul_inequality(h, q, w);
        assert(w * q == q * w) by (nonlinear_arith);
        assert(h * w == w * h) by (nonlinear_arith);
    }
    assert(w * q == q * w) by (nonlinear_arith);
}

/// `out` is the crop of the `w`-by-`h` rectangle of `src` at `(x, y)`.
pub open spec fn is_crop_of(out: ImageBuf, src: ImageBuf, x: int, y: int, w: int, h: int) -> bool {
    &&& out.wf()
    &&& out.width as int == w
    &&& out.height as int == h
    &&& forall|i: int, j: int|
        0 <= i < w && 0 <= j < h ==> out.pix(i, j) == src.pix(x + i, y + j)
}

/// The pixel a crop's flat offset `k` must hold.
pub open spec fn crop_pix(src: ImageBuf, x: int, y: int, w: int, k: int) -> Pixel {
    src.pix(x + k % w, y + k / w)
}

/// Crops the `w`-by-`h` rectangle of `src` at `(x, y)` into a new buffer.
pub fn crop(src: &ImageBuf, x: u32, y: u32, w: u32, h: u32) -> (r: ImageBuf)
    requires
        src.wf(),
        x + w <= src.width,
        y + h <= src.height,
    ensures
        is_crop_of(r, *src, x as int, y as int, w as int, h as int),
{
    let mut pixels: Vec<Pixel> = Vec::new();
    let mut j: u32 = 0;
    while j < h
        invariant
            src.wf(),
            x + w <= src.width,
            y + h <= src.height,
            j <= h,
            pixels@.len() == j as int * w as int,
            forall|k: int|
                0 <= k < pixels@.len() ==> pixels@[k] == crop_pix(
                    *src,
                    x as int,
                    y as int,
                    w as int,
                    k,
                ),
        decreases h - j,
    {
        let mut i: u32 = 0;
        while i < w
            invariant
                src.wf(),
                x + w <= src.width,
                y + h <= src.height,
                i <= w,
                j < h,
                pixels@.len() == j as int * w as int + i as int,
                forall|k: int|
                    0 <= k < pixels@.len() ==> pixels@[k] == crop_pix(
                        *src,
                        x as int,
                        y as int,
                        w as int,
                        k,
                    ),
            decreases w - i,
        {
            proof {
                assert((j as int) * (w as int) + (i as int) < (w as int) * (h as int)) by (nonlinear_arith)
                    requires
                        0 <= i < w as int,
                        0 <= j < h as int,
                ;
            }
            let p = src.get(x + i, y + j);
            pixels.push(p);
            proof {
                lemma_fundamental_div_mod_converse(
                    j as int * w as int + i as int,
                    w as int,
                    j as int,
                    i as int,
                );
            }
            i = i + 1;
        }
        j = j + 1;
        proof {
            assert(pixels@.len() == j as int * w as int) by (nonlinear_arith)
                requires
                    pixels@.len() == (j - 1) as int * w as int + w as int,
            ;
        }
    }
    let r = ImageBuf { width: w, height: h, pixels };
    proof {
        assert(r.wf()) by (nonlinear_arith)
            requires
                r.pixels@.len() == h as int * w as int,
                r.width == w,
                r.height == h,
        ;
        assert forall|i: int, j2: int| 0 <= i < w && 0 <= j2 < h implies r.pix(i, j2) == src.pix(
            x + i,
            y + j2,
        ) by {
            assert(0 <= j2 * (w as int) + i < (w as int) * (h as int)) by (nonlinear_arith)
                requires
                    0 <= i < w as int,
                    0 <= j2 < h as int,
            ;
            lemma_fundamental_div_mod_converse(j2 * w as int + i, w as int, j2, i);
        }
    }
    r
}

/// `out` is `cr` pasted at `(fx, fy)` onto a transparent `fw`-by-`fh` canvas.
pub open spec fn is_composite_of(out: ImageBuf, cr: ImageBuf, fx: int, fy: int, fw: int, fh: int) -> bool {
    &&& out.wf()
    &&& out.width as int == fw
    &&& out.height as int == fh
    &&& forall|i: int, j: int|
        0 <= i < fw && 0 <= j < fh ==> out.pix(i, j) == (if fx <= i < fx + cr.width as int && fy
            <= j < fy + cr.height as int {
            cr.pix(i - fx, j - fy)
        } else {
            transparent()
        })
}

/// The pixel a composite's flat offset `k` must hold.
pub open spec fn comp_pix(cr: ImageBuf, fx: int, fy: int, fw: int, k: int) -> Pixel {
    let i = k % fw;
    let j = k / fw;
    if fx <= i < fx + cr.width as int && fy <= j < fy + cr.height as int {
        cr.pix(i - fx, j - fy)
    } else {
        transparent()
    }
}

/// Pastes `cr` at `(fx, fy)` onto a fully transparent `fw`-by-`fh` canvas:
/// the cropped pixels fully replace the background at their footprint.
pub fn composite(cr: &ImageBuf, fx: u32, fy: u32, fw: u32, fh: u32) -> (r: ImageBuf)
    requires
        cr.wf(),
        fx + cr.width <= fw,
        fy + cr.height <= fh,
        fw as int * fh as int <= usize::MAX as int,
    ensures
        is_composite_of(r, *cr, fx as int, fy as int, fw as int, fh as int),
{
    let mut pixels: Vec<Pixel> = Vec::new();
    let mut j: u32 = 0;
    while j < fh
        invariant
            cr.wf(),
            fx + cr.width <= fw,
            fy + cr.height <= fh,
            j <= fh,
            pixels@.len() == j as int * fw as int,
            forall|k: int|
                0 <= k < pixels@.len() ==> pixels@[k] == comp_pix(
                    *cr,
                    fx as int,
                    fy as int,
                    fw as int,
                    k,
                ),
        decreases fh - j,
    {
        let mut i: u32 = 0;
        while i < fw
            invariant
                cr.wf(),
                fx + cr.width <= fw,
                fy + cr.height <= fh,
                i <= fw,
                j < fh,
                pixels@.len() == j as int * fw as int + i as int,
                forall|k: int|
                    0 <= k < pixels@.len() ==> pixels@[k] == comp_pix(
                        *cr,
                        fx as int,
                        fy as int,
                        fw as int,
                        k,
                    ),
            decreases fw - i,
        {
            let p = if fx <= i && i < fx + cr.width && fy <= j && j < fy + cr.height {
                cr.get(i - fx, j - fy)
            } else {
                Pixel { r: 0, g: 0, b: 0, a: 0 }
            };
            pixels.push(p);
            proof {
                lemma_fundamental_div_mod_converse(
                    j as int * fw as int + i as int,
                    fw as int,
                    j as int,
                    i as int,
                );
            }
            i = i + 1;
        }
        j = j + 1;
        proof {
            assert(pixels@.len() == j as int * fw as int) by (nonlinear_arith)
                requires
                    pixels@.len() == (j - 1) as int * fw as int + fw as int,
            ;
        }
    }
    let r = ImageBuf { width: fw, height: fh, pixels };
    proof {
        assert(r.wf()) by (nonlinear_arith)
            requires
                r.pixels@.len() == fh as int * fw as int,
                r.width == fw,
                r.height == fh,
        ;
        assert forall|i: int, j2: int| 0 <= i < fw && 0 <= j2 < fh implies r.pix(i, j2) == (if fx
            <= i < fx + cr.width as int && fy <= j2 < fy + cr.height as int {
            cr.pix(i - fx, j2 - fy)
        } else {
            transparent()
        }) by {
            let k = j2 * (fw as int) + i;
            assert(0 <= k < (fw as int) * (fh as int)) by (nonlinear_arith)
                requires
                    0 <= i < fw as int,
                    0 <= j2 < fh as int,
                    k == j2 * (fw as int) + i,
            ;
            lemma_fundamental_div_mod_converse(k, fw as int, j2, i);
            assert(r.pixels@[k] == comp_pix(*cr, fx as int, fy as int, fw as int, k));
        }
    }
    r
}

} // verus!
