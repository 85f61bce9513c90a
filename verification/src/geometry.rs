//! Rectangles of whole pixels.

use vstd::prelude::*;

verus! {

/// A width and a height.
#[derive(Clone, Copy, Debug, PartialEq, Eq, Structural)]
pub struct Size {
    pub w: i32,
    pub h: i32,
}

impl Size {
    /// Whether no pixel fits in.
    pub open spec fn no_pixels(self) -> bool {
        self.w <= 0 || self.h <= 0
    }

    /// Whether no pixel fits in.
    pub fn is_empty(self) -> (empty: bool)
        ensures
            empty == self.no_pixels(),
    {
        self.w <= 0 || self.h <= 0
    }
}

/// A rectangle: its top left corner, its width and its height.
#[derive(Clone, Copy, Debug, PartialEq, Eq, Structural)]
pub struct Rect {
    pub x: i32,
    pub y: i32,
    pub w: i32,
    pub h: i32,
}

impl Rect {
    pub fn new(x: i32, y: i32, w: i32, h: i32) -> (rect: Rect)
        ensures
            rect == (Rect { x, y, w, h }),
    {
        Rect { x, y, w, h }
    }

    /// Whether the far edges are representable.
    pub open spec fn fits(self) -> bool {
        &&& i32::MIN <= self.x + self.w <= i32::MAX
        &&& i32::MIN <= self.y + self.h <= i32::MAX
    }

    /// Whether the far edges are representable.
    pub fn is_representable(self) -> (representable: bool)
        ensures
            representable == self.fits(),
    {
        self.x.checked_add(self.w).is_some() && self.y.checked_add(self.h).is_some()
    }

    /// The first column to the right of the rectangle.
    pub fn right(self) -> (right: i32)
        requires
            self.fits(),
        ensures
            right == self.x + self.w,
    {
        self.x + self.w
    }

    /// The first row below the rectangle.
    pub fn bottom(self) -> (bottom: i32)
        requires
            self.fits(),
        ensures
            bottom == self.y + self.h,
    {
        self.y + self.h
    }

    /// Whether the pixel in column `x` and row `y` lies in the rectangle.
    pub open spec fn covers(self, x: int, y: int) -> bool {
        &&& self.x <= x < self.x + self.w
        &&& self.y <= y < self.y + self.h
    }
}

pub open spec fn min(a: int, b: int) -> int {
    if a <= b {
        a
    } else {
        b
    }
}

pub open spec fn max(a: int, b: int) -> int {
    if a >= b {
        a
    } else {
        b
    }
}

/// The overlap of `rect` and `bounds`, or `None` where they share no pixel.
pub open spec fn overlap(rect: Rect, bounds: Rect) -> Option<Rect> {
    let left = max(rect.x as int, bounds.x as int);
    let top = max(rect.y as int, bounds.y as int);
    let right = min(rect.x + rect.w, bounds.x + bounds.w);
    let bottom = min(rect.y + rect.h, bounds.y + bounds.h);
    if right <= left || bottom <= top {
        None
    } else {
        Some(
            Rect {
                x: left as i32,
                y: top as i32,
                w: (right - left) as i32,
                h: (bottom - top) as i32,
            },
        )
    }
}

/// The overlap of `rect` and `bounds`, or `None` where they share no pixel: rectangles that only
/// touch along an edge do not overlap.
pub fn clip(rect: Rect, bounds: Rect) -> (clipped: Option<Rect>)
    requires
        rect.fits(),
        bounds.fits(),
    ensures
        clipped == overlap(rect, bounds),
{
    let left: i32 = if rect.x >= bounds.x {
        rect.x
    } else {
        bounds.x
    };
    let top: i32 = if rect.y >= bounds.y {
        rect.y
    } else {
        bounds.y
    };
    let right: i32 = if rect.right() <= bounds.right() {
        rect.right()
    } else {
        bounds.right()
    };
    let bottom: i32 = if rect.bottom() <= bounds.bottom() {
        rect.bottom()
    } else {
        bounds.bottom()
    };
    if right <= left || bottom <= top {
        None
    } else {
        Some(Rect::new(left, top, right - left, bottom - top))
    }
}

/// A pixel lies in the overlap of two rectangles exactly when it lies in both.
pub proof fn the_overlap_is_what_both_cover(rect: Rect, bounds: Rect, x: int, y: int)
    requires
        rect.fits(),
        bounds.fits(),
    ensures
        match overlap(rect, bounds) {
            Some(both) => both.covers(x, y) <==> rect.covers(x, y) && bounds.covers(x, y),
            None => !(rect.covers(x, y) && bounds.covers(x, y)),
        },
{
}

/// An overlap has pixels, and there is one wherever two rectangles share a pixel.
pub proof fn an_overlap_has_pixels(rect: Rect, bounds: Rect)
    requires
        rect.fits(),
        bounds.fits(),
    ensures
        overlap(rect, bounds) is Some ==> (overlap(rect, bounds)->0).w > 0 && (overlap(
            rect,
            bounds,
        )->0).h > 0,
        overlap(rect, bounds) is Some <==> exists|x: int, y: int| #[trigger]
            rect.covers(x, y) && bounds.covers(x, y),
{
    match overlap(rect, bounds) {
        Some(both) => {
            assert(rect.covers(both.x as int, both.y as int) && bounds.covers(
                both.x as int,
                both.y as int,
            ));
        },
        None => {
            assert forall|x: int, y: int| #[trigger]
                rect.covers(x, y) && bounds.covers(x, y) implies false by {
                the_overlap_is_what_both_cover(rect, bounds, x, y);
            }
        },
    }
}

/// A size has no pixels exactly where one of its sides has none.
pub proof fn a_size_has_pixels_in_both_directions(size: Size, x: int, y: int)
    ensures
        size.no_pixels() ==> !(0 <= x < size.w && 0 <= y < size.h),
        !size.no_pixels() ==> size.w > 0 && size.h > 0,
{
}

} // verus!
