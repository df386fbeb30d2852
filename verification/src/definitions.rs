//! The placed-rectangle type and the spec-level predicates that the packing
//! contracts are stated over.

use vstd::prelude::*;

verus! {

/// Why a packing run failed.
#[derive(Clone, Copy, Debug, PartialEq, Eq, Structural)]
pub enum PackError {
    /// A zero-width or zero-height item, or an empty item set.
    DegenerateInput,
    /// The retry ceiling or the maximum canvas dimension was exceeded.
    Unplaceable,
    /// A rectangle (or its source image) does not fit the canvas it was
    /// composited onto: an internal-invariant violation, not an input error.
    BlitOutOfBounds,
}

/// An axis-aligned rectangle on the atlas canvas, in pixels.
///
/// `x`/`y` is the top-left corner; `w`/`h` always equal the dimensions of the
/// source image the rectangle was computed for (placement never resizes).
#[derive(Clone, Copy, Debug, PartialEq, Eq, Structural)]
pub struct Rect {
    pub x: u32,
    pub y: u32,
    pub w: u32,
    pub h: u32,
}

/// Mathematical model of a rectangle, free of machine-integer bounds.
pub ghost struct RectModel {
    pub x: int,
    pub y: int,
    pub w: int,
    pub h: int,
}

impl View for Rect {
    type V = RectModel;

    open spec fn view(&self) -> RectModel {
        RectModel { x: self.x as int, y: self.y as int, w: self.w as int, h: self.h as int }
    }
}

impl RectModel {
    /// True when the two rectangles share no pixel: they are separated on at
    /// least one axis.
    pub open spec fn disjoint_from(self, other: RectModel) -> bool {
        ||| self.x + self.w <= other.x
        ||| other.x + other.w <= self.x
        ||| self.y + self.h <= other.y
        ||| other.y + other.h <= self.y
    }

    /// True when the rectangle lies entirely within a `width x height` canvas.
    pub open spec fn within_canvas(self, width: int, height: int) -> bool {
        &&& 0 <= self.x
        &&& 0 <= self.y
        &&& self.x + self.w <= width
        &&& self.y + self.h <= height
    }

    /// True when the rectangle lies entirely within `outer`.
    pub open spec fn within_rect(self, outer: RectModel) -> bool {
        &&& outer.x <= self.x
        &&& outer.y <= self.y
        &&& self.x + self.w <= outer.x + outer.w
        &&& self.y + self.h <= outer.y + outer.h
    }
}

impl Rect {
    /// Builds a rectangle from its four components.
    pub fn new(x: u32, y: u32, w: u32, h: u32) -> (r: Rect)
        ensures
            r@ == (RectModel { x: x as int, y: y as int, w: w as int, h: h as int }),
    {
        Rect { x, y, w, h }
    }
}

} // verus!
