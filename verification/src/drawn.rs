//! The part of its layout slot that a window has drawn.
//!
//! The layout gives every window a slot and asks the client for that size. What the client commits
//! is its own call: it may fall short of the slot, and it may run past it for as long as a shrink
//! is in flight. The window is anchored at the slot's top left corner either way, so what it has
//! drawn is the slot's origin with, per axis, the smaller of the two sizes.

use vstd::prelude::*;

use crate::geometry::{Rect, Size};

verus! {

/// What a window that has committed `w` by `h` pixels covers of `slot`. A window that has
/// committed nothing stands for its whole slot, which it is about to be drawn into.
pub open spec fn drawn(slot: Rect, w: i32, h: i32) -> Rect {
    if w <= 0 || h <= 0 {
        slot
    } else {
        Rect {
            w: if w < slot.w { w } else { slot.w },
            h: if h < slot.h { h } else { slot.h },
            ..slot
        }
    }
}

/// The part of `slot` that a window with a committed size of `committed_w` by `committed_h`
/// covers, or `slot` where nothing is committed.
pub fn clamp_to_slot(slot: Rect, committed_w: i32, committed_h: i32) -> (rect: Rect)
    ensures
        rect == drawn(slot, committed_w, committed_h),
{
    if committed_w <= 0 || committed_h <= 0 {
        return slot;
    }
    Rect::new(
        slot.x,
        slot.y,
        if committed_w < slot.w {
            committed_w
        } else {
            slot.w
        },
        if committed_h < slot.h {
            committed_h
        } else {
            slot.h
        },
    )
}

/// `clamp_to_slot` for a window whose committed geometry is `window`, or `slot` where there is no
/// such window.
pub fn drawn_rect(slot: Rect, window: Option<Size>) -> (rect: Rect)
    ensures
        rect == match window {
            Some(committed) => drawn(slot, committed.w, committed.h),
            None => slot,
        },
{
    match window {
        Some(committed) => clamp_to_slot(slot, committed.w, committed.h),
        None => slot,
    }
}

/// What a window covers keeps the slot's origin and never reaches outside the slot.
pub proof fn a_window_stays_in_its_slot(slot: Rect, w: i32, h: i32, x: int, y: int)
    ensures
        drawn(slot, w, h).x == slot.x,
        drawn(slot, w, h).y == slot.y,
        drawn(slot, w, h).w <= slot.w,
        drawn(slot, w, h).h <= slot.h,
        drawn(slot, w, h).covers(x, y) ==> slot.covers(x, y),
{
}

/// What a window covers is settled: clamping it to the slot again changes nothing.
pub proof fn a_drawn_rect_is_settled(slot: Rect, w: i32, h: i32)
    ensures
        drawn(drawn(slot, w, h), w, h) == drawn(slot, w, h),
{
}

/// A window that has committed at least its slot covers all of it.
pub proof fn a_window_that_fills_its_slot_covers_it(slot: Rect, w: i32, h: i32)
    requires
        slot.w <= w,
        slot.h <= h,
    ensures
        drawn(slot, w, h) == slot,
{
}

/// A window that has committed pixels covers exactly those pixels of its slot that lie within its
/// committed size; one that has committed nothing in either direction stands for the whole slot.
pub proof fn a_window_covers_what_it_has_committed(slot: Rect, w: i32, h: i32, x: int, y: int)
    ensures
        w > 0 && h > 0 ==> (drawn(slot, w, h).covers(x, y) <==> slot.covers(x, y) && x - slot.x < w
            && y - slot.y < h),
        w <= 0 || h <= 0 ==> drawn(slot, w, h) == slot,
{
}

/// Where there is no such window, its slot stands for it; otherwise it covers the pixels of the slot
/// that lie within its committed size, or the whole slot where it has committed nothing.
pub proof fn a_missing_window_stands_for_its_slot(
    slot: Rect,
    window: Option<Size>,
    rect: Rect,
    x: int,
    y: int,
)
    requires
        call_ensures(drawn_rect, (slot, window), rect),
    ensures
        match window {
            None => rect == slot,
            Some(committed) => if committed.w > 0 && committed.h > 0 {
                &&& rect.x == slot.x && rect.y == slot.y
                &&& rect.covers(x, y) <==> slot.covers(x, y) && x - slot.x < committed.w && y
                    - slot.y < committed.h
            } else {
                rect == slot
            },
        },
{
}

} // verus!
