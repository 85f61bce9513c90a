//! The shape of the ring around a window.

use vstd::prelude::*;

use crate::geometry::{clip, overlap, Rect};

verus! {

/// The bars that a ring is made of, named by the side of the window that they are on. A bar is
/// `None` where the ring has no width, or where nothing of it is left in bounds.
#[derive(Clone, Copy, Debug, PartialEq, Eq)]
pub struct RingRects {
    pub top: Option<Rect>,
    pub bottom: Option<Rect>,
    pub left: Option<Rect>,
    pub right: Option<Rect>,
}

impl Default for RingRects {
    fn default() -> (rects: RingRects)
        ensures
            rects == no_rects(),
    {
        RingRects { top: None, bottom: None, left: None, right: None }
    }
}

pub open spec fn no_rects() -> RingRects {
    RingRects { top: None, bottom: None, left: None, right: None }
}

/// The bar above `rect`, over its full outer width.
pub open spec fn top_bar(rect: Rect, width: i32) -> Rect {
    Rect {
        x: (rect.x - width) as i32,
        y: (rect.y - width) as i32,
        w: (rect.w + 2 * width) as i32,
        h: width,
    }
}

/// The bar below `rect`, over its full outer width.
pub open spec fn bottom_bar(rect: Rect, width: i32) -> Rect {
    Rect {
        x: (rect.x - width) as i32,
        y: (rect.y + rect.h) as i32,
        w: (rect.w + 2 * width) as i32,
        h: width,
    }
}

/// The bar to the left of `rect`, as high as `rect` itself.
pub open spec fn left_bar(rect: Rect, width: i32) -> Rect {
    Rect { x: (rect.x - width) as i32, y: rect.y, w: width, h: rect.h }
}

/// The bar to the right of `rect`, as high as `rect` itself.
pub open spec fn right_bar(rect: Rect, width: i32) -> Rect {
    Rect { x: (rect.x + rect.w) as i32, y: rect.y, w: width, h: rect.h }
}

/// The ring of `width` pixels around `rect`, clipped to `bounds`.
pub open spec fn ring_around(rect: Rect, width: i32, bounds: Rect) -> RingRects {
    if width <= 0 {
        no_rects()
    } else {
        RingRects {
            top: overlap(top_bar(rect, width), bounds),
            bottom: overlap(bottom_bar(rect, width), bounds),
            left: overlap(left_bar(rect, width), bounds),
            right: overlap(right_bar(rect, width), bounds),
        }
    }
}

/// Whether every edge of the ring of `width` pixels around `rect` is representable, and every edge
/// of `bounds` with them. A ring without width has no edges.
pub open spec fn ring_fits(rect: Rect, width: i32, bounds: Rect) -> bool {
    width > 0 ==> {
        &&& rect.fits()
        &&& bounds.fits()
        &&& i32::MIN <= rect.x - width
        &&& i32::MIN <= rect.y - width
        &&& i32::MIN <= rect.w + 2 * width <= i32::MAX
        &&& 2 * width <= i32::MAX
        &&& i32::MIN <= rect.x + rect.w + width <= i32::MAX
        &&& i32::MIN <= rect.y + rect.h + width <= i32::MAX
    }
}

/// Whether every edge of the ring of `width` pixels around `rect` is representable, and every edge
/// of `bounds` with them.
pub fn ring_is_representable(rect: Rect, width: i32, bounds: Rect) -> (representable: bool)
    ensures
        representable == ring_fits(rect, width, bounds),
{
    if width <= 0 {
        return true;
    }
    if !rect.is_representable() || !bounds.is_representable() {
        return false;
    }
    let wide: i64 = width as i64;
    rect.x as i64 - wide >= i32::MIN as i64 && rect.y as i64 - wide >= i32::MIN as i64
        && rect.w as i64 + 2 * wide <= i32::MAX as i64 && rect.w as i64 + 2 * wide
        >= i32::MIN as i64 && 2 * wide <= i32::MAX as i64 && rect.x as i64 + rect.w as i64 + wide
        <= i32::MAX as i64 && rect.y as i64 + rect.h as i64 + wide <= i32::MAX as i64
}

/// The ring of `width` pixels around `rect`, outside it, clipped to `bounds`. The top and the
/// bottom bar span the full outer width and so cover the corners; the left and the right bar span
/// only the height of `rect`, so that no corner is drawn twice.
pub fn ring_rects(rect: Rect, width: i32, bounds: Rect) -> (rects: RingRects)
    requires
        ring_fits(rect, width, bounds),
    ensures
        rects == ring_around(rect, width, bounds),
{
    if width <= 0 {
        return RingRects::default();
    }
    let top = Rect::new(rect.x - width, rect.y - width, rect.w + 2 * width, width);
    let bottom = Rect::new(rect.x - width, rect.y + rect.h, rect.w + 2 * width, width);
    let left = Rect::new(rect.x - width, rect.y, width, rect.h);
    let right = Rect::new(rect.x + rect.w, rect.y, width, rect.h);
    RingRects {
        top: clip(top, bounds),
        bottom: clip(bottom, bounds),
        left: clip(left, bounds),
        right: clip(right, bounds),
    }
}

/// Whether `bar` is there and covers the pixel in column `x` and row `y`.
pub open spec fn bar_covers(bar: Option<Rect>, x: int, y: int) -> bool {
    bar is Some && (bar->0).covers(x, y)
}

/// Whether a bar of `rects` covers the pixel in column `x` and row `y`.
pub open spec fn ring_covers(rects: RingRects, x: int, y: int) -> bool {
    ||| bar_covers(rects.top, x, y)
    ||| bar_covers(rects.bottom, x, y)
    ||| bar_covers(rects.left, x, y)
    ||| bar_covers(rects.right, x, y)
}

/// Whether the pixel in column `x` and row `y` is at most `width` columns and `width` rows away
/// from `rect`.
pub open spec fn within_reach(rect: Rect, width: i32, x: int, y: int) -> bool {
    &&& rect.x - width <= x < rect.x + rect.w + width
    &&& rect.y - width <= y < rect.y + rect.h + width
}

/// The ring covers exactly the pixels in bounds that lie around the window and not on it.
pub proof fn the_ring_is_the_frame_around_the_window(
    rect: Rect,
    width: i32,
    bounds: Rect,
    x: int,
    y: int,
)
    requires
        ring_fits(rect, width, bounds),
        rect.w >= 0,
        rect.h >= 0,
    ensures
        ring_covers(ring_around(rect, width, bounds), x, y) <==> {
            &&& width > 0
            &&& bounds.covers(x, y)
            &&& within_reach(rect, width, x, y)
            &&& !rect.covers(x, y)
        },
{
}

/// No pixel is covered by two bars of a ring.
pub proof fn no_pixel_of_a_ring_is_drawn_twice(rect: Rect, width: i32, bounds: Rect, x: int, y: int)
    requires
        ring_fits(rect, width, bounds),
        rect.w >= 0,
        rect.h >= 0,
    ensures
        ({
            let rects = ring_around(rect, width, bounds);
            &&& !(bar_covers(rects.top, x, y) && bar_covers(rects.bottom, x, y))
            &&& !(bar_covers(rects.top, x, y) && bar_covers(rects.left, x, y))
            &&& !(bar_covers(rects.top, x, y) && bar_covers(rects.right, x, y))
            &&& !(bar_covers(rects.bottom, x, y) && bar_covers(rects.left, x, y))
            &&& !(bar_covers(rects.bottom, x, y) && bar_covers(rects.right, x, y))
            &&& !(bar_covers(rects.left, x, y) && bar_covers(rects.right, x, y))
        }),
{
}

/// The bars share the frame as their sides say: what is above the window, corners included, is the
/// top bar's, what is below it the bottom bar's, and what is beside it, in its own rows, the left
/// or the right bar's.
pub proof fn each_bar_is_on_its_own_side(rect: Rect, width: i32, bounds: Rect, x: int, y: int)
    requires
        ring_fits(rect, width, bounds),
        rect.w >= 0,
        rect.h >= 0,
        width > 0,
    ensures
        ({
            let rects = ring_around(rect, width, bounds);
            let drawn = bounds.covers(x, y) && within_reach(rect, width, x, y);
            &&& bar_covers(rects.top, x, y) <==> drawn && y < rect.y
            &&& bar_covers(rects.bottom, x, y) <==> drawn && y >= rect.y + rect.h
            &&& bar_covers(rects.left, x, y) <==> drawn && rect.y <= y < rect.y + rect.h && x
                < rect.x
            &&& bar_covers(rects.right, x, y) <==> drawn && rect.y <= y < rect.y + rect.h && x
                >= rect.x + rect.w
        }),
{
}

/// The pixels within reach of a window are those at most the ring's width away in each direction.
pub proof fn reach_is_the_width_in_each_direction(rect: Rect, width: i32, x: int, y: int)
    ensures
        within_reach(rect, width, x, y) <==> {
            &&& rect.x - x <= width
            &&& x - (rect.x + rect.w - 1) <= width
            &&& rect.y - y <= width
            &&& y - (rect.y + rect.h - 1) <= width
        },
{
}

/// A ring without width has no bars.
pub proof fn a_ring_without_width_has_no_bars(rect: Rect, width: i32, bounds: Rect)
    requires
        width <= 0,
    ensures
        ring_around(rect, width, bounds).top is None,
        ring_around(rect, width, bounds).bottom is None,
        ring_around(rect, width, bounds).left is None,
        ring_around(rect, width, bounds).right is None,
{
}

} // verus!
