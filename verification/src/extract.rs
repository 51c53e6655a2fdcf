//! Per-sprite extraction: validates a record's geometry against the source
//! image defensively, crops its frame, and restores the untrimmed canvas when
//! trim data is present. Every violation is a recoverable `BoundsError` that
//! aborts only that sprite.
use vstd::prelude::*;

use crate::compose::ImageBuf;
use crate::compose::composite;
use crate::compose::crop;
use crate::compose::is_composite_of;
use crate::compose::is_crop_of;
use crate::compose::lemma_flat_decompose;
use crate::compose::transparent;
use crate::records::SpriteRecord;
use crate::records::SpriteRecordV;

verus! {

/// Why one sprite could not be extracted.
#[derive(Clone, Copy, PartialEq, Eq, Structural, Debug)]
pub enum BoundsError {
    /// The frame rectangle is empty or exceeds the source image extent.
    Frame,
    /// The trim offsets would place the crop outside the untrimmed canvas.
    Trim,
    /// The untrimmed canvas has more pixels than this machine can address.
    Canvas,
}

/// The frame rectangle is non-empty and lies inside a `w`-by-`h` image.
pub open spec fn frame_ok(rec: SpriteRecordV, w: int, h: int) -> bool {
    &&& 0 <= rec.x
    &&& 0 <= rec.y
    &&& 1 <= rec.width
    &&& 1 <= rec.height
    &&& rec.x + rec.width <= w
    &&& rec.y + rec.height <= h
}

/// The trim data, when present, places the crop inside the untrimmed canvas.
pub open spec fn trim_ok(rec: SpriteRecordV) -> bool {
    match rec.trim {
        None => true,
        Some(t) => {
            &&& 0 <= t.frame_x
            &&& 0 <= t.frame_y
            &&& t.frame_x + rec.width <= t.frame_w
            &&& t.frame_y + rec.height <= t.frame_h
        },
    }
}

/// The untrimmed canvas, when trim is present, fits in one allocation.
pub open spec fn canvas_ok(rec: SpriteRecordV, max: int) -> bool {
    match rec.trim {
        None => true,
        Some(t) => t.frame_w * t.frame_h <= max,
    }
}

/// Exactly which `BoundsError` a record is rejected with, if any: frame
/// violations first, then trim violations, then an unaddressable canvas.
pub open spec fn spec_extract_err(rec: SpriteRecordV, w: int, h: int, max: int) -> Option<
    BoundsError,
> {
    if !frame_ok(rec, w, h) {
        Some(BoundsError::Frame)
    } else if !trim_ok(rec) {
        Some(BoundsError::Trim)
    } else if !canvas_ok(rec, max) {
        Some(BoundsError::Canvas)
    } else {
        None
    }
}

/// The output image a record must extract to: the plain crop of its frame
/// when untrimmed, else that crop pasted at the trim offset onto a
/// transparent canvas of the untrimmed size.
pub open spec fn is_extract_of(img: ImageBuf, src: ImageBuf, rec: SpriteRecordV) -> bool {
    match rec.trim {
        None => is_crop_of(img, src, rec.x, rec.y, rec.width, rec.height),
        Some(t) => {
            &&& img.wf()
            &&& img.width as int == t.frame_w
            &&& img.height as int == t.frame_h
            &&& forall|i: int, j: int|
                0 <= i < t.frame_w && 0 <= j < t.frame_h ==> img.pix(i, j) == (if t.frame_x <= i
                    < t.frame_x + rec.width && t.frame_y <= j < t.frame_y + rec.height {
                    src.pix(rec.x + (i - t.frame_x), rec.y + (j - t.frame_y))
                } else {
                    transparent()
                })
        },
    }
}

/// Crops the record's frame out of `src` and, if the record is trimmed,
/// restores the untrimmed canvas; returns exactly the `BoundsError` that
/// `spec_extract_err` assigns when the geometry is invalid.
pub fn extract_sprite(src: &ImageBuf, rec: &SpriteRecord) -> (r: Result<ImageBuf, BoundsError>)
    requires
        src.wf(),
    ensures
        match r {
            Ok(img) => spec_extract_err(
                rec@,
                src.width as int,
                src.height as int,
                usize::MAX as int,
            ) is None && is_extract_of(img, *src, rec@),
            Err(e) => spec_extract_err(
                rec@,
                src.width as int,
                src.height as int,
                usize::MAX as int,
            ) == Some(e),
        },
{
    let frame_fits = rec.x >= 0 && rec.y >= 0 && rec.width >= 1 && rec.height >= 1 && (rec.x as i64)
        + (rec.width as i64) <= (src.width as i64) && (rec.y as i64) + (rec.height as i64) <= (
    src.height as i64);
    if !frame_fits {
        return Err(BoundsError::Frame);
    }
    let cropped = crop(src, rec.x as u32, rec.y as u32, rec.width as u32, rec.height as u32);
    match rec.trim {
        None => Ok(cropped),
        Some(t) => {
            let trim_fits = t.frame_x >= 0 && t.frame_y >= 0 && (t.frame_x as i64) + (rec.width
                as i64) <= (t.frame_w as i64) && (t.frame_y as i64) + (rec.height as i64) <= (
            t.frame_h as i64);
            if !trim_fits {
                return Err(BoundsError::Trim);
            }
            proof {
                assert((t.frame_w as int) * (t.frame_h as int) <= 0x7fff_ffff * 0x7fff_ffff)
                    by (nonlinear_arith)
                    requires
                        0 <= t.frame_w as int <= 0x7fff_ffff,
                        0 <= t.frame_h as int <= 0x7fff_ffff,
                ;
            }
            if (t.frame_w as u64) * (t.frame_h as u64) > (usize::MAX as u64) {
                return Err(BoundsError::Canvas);
            }
            let canvas = composite(
                &cropped,
                t.frame_x as u32,
                t.frame_y as u32,
                t.frame_w as u32,
                t.frame_h as u32,
            );
            Ok(canvas)
        },
    }
}

/// Compositing identity: a trim that neither offsets nor enlarges the canvas
/// (zero offsets, canvas of the frame's own size) restores an image
/// pixel-identical to the plain crop.
pub proof fn lemma_trim_identity(img: ImageBuf, cr: ImageBuf, src: ImageBuf, rec: SpriteRecordV)
    requires
        rec.trim matches Some(t) && t.frame_x == 0 && t.frame_y == 0 && t.frame_w == rec.width
            && t.frame_h == rec.height,
        is_extract_of(img, src, rec),
        is_crop_of(cr, src, rec.x, rec.y, rec.width, rec.height),
    ensures
        img.width == cr.width,
        img.height == cr.height,
        img.pixels@ == cr.pixels@,
{
    let t = rec.trim->Some_0;
    let w = rec.width;
    let h = rec.height;
    assert forall|i: int, j: int| 0 <= i < w && 0 <= j < h implies img.pix(i, j) == cr.pix(
        i,
        j,
    ) by {
        assert(img.pix(i, j) == src.pix(rec.x + i, rec.y + j));
        assert(cr.pix(i, j) == src.pix(rec.x + i, rec.y + j));
    }
    assert(img.pixels@.len() == cr.pixels@.len());
    assert forall|k: int| 0 <= k < img.pixels@.len() implies img.pixels@[k] == cr.pixels@[k] by {
        lemma_flat_decompose(k, w, h);
        let i = k % w;
        let j = k / w;
        assert(img.pix(i, j) == img.pixels@[j * w + i]);
        assert(j * w + i == k);
        assert(img.pix(i, j) == cr.pix(i, j));
    }
    assert(img.pixels@ =~= cr.pixels@);
}

} // verus!
