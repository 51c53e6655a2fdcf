//! Data model of one atlas: sprite geometry records and their ghost views.
use vstd::prelude::*;

verus! {

/// Offset and full size of the untrimmed canvas a cropped sprite belongs in:
/// the crop is pasted at `(frame_x, frame_y)` on a transparent canvas of size
/// `frame_w` by `frame_h`.
#[derive(Clone, Copy, PartialEq, Eq, Structural, Debug)]
pub struct Trim {
    pub frame_x: i32,
    pub frame_y: i32,
    pub frame_w: i32,
    pub frame_h: i32,
}

/// Ghost view of `Trim` over unbounded integers.
#[verifier::ext_equal]
pub ghost struct TrimV {
    pub frame_x: int,
    pub frame_y: int,
    pub frame_w: int,
    pub frame_h: int,
}

impl View for Trim {
    type V = TrimV;

    open spec fn view(&self) -> TrimV {
        TrimV {
            frame_x: self.frame_x as int,
            frame_y: self.frame_y as int,
            frame_w: self.frame_w as int,
            frame_h: self.frame_h as int,
        }
    }
}

/// One named sprite: its `frame` rectangle `(x, y, width, height)` in source
/// image coordinates, and the optional trim data needed to restore the
/// untrimmed canvas.
#[derive(Debug)]
pub struct SpriteRecord {
    pub name: String,
    pub x: i32,
    pub y: i32,
    pub width: i32,
    pub height: i32,
    pub trim: Option<Trim>,
}

/// Ghost view of `SpriteRecord`.
#[verifier::ext_equal]
pub ghost struct SpriteRecordV {
    pub name: Seq<char>,
    pub x: int,
    pub y: int,
    pub width: int,
    pub height: int,
    pub trim: Option<TrimV>,
}

impl View for SpriteRecord {
    type V = SpriteRecordV;

    open spec fn view(&self) -> SpriteRecordV {
        SpriteRecordV {
            name: self.name@,
            x: self.x as int,
            y: self.y as int,
            width: self.width as int,
            height: self.height as int,
            trim: match self.trim {
                Some(t) => Some(t@),
                None => None,
            },
        }
    }
}

impl SpriteRecordV {
    /// Two records describe the same pixel region when their frame
    /// rectangles agree; names and trim data are not compared.
    pub open spec fn same_frame(self, other: SpriteRecordV) -> bool {
        &&& self.x == other.x
        &&& self.y == other.y
        &&& self.width == other.width
        &&& self.height == other.height
    }
}

} // verus!
