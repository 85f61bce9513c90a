//! Window decorations: a ring around each window, in the gap that the layout leaves.
//!
//! The ring is either square, four solid bars, or rounded, two painted strips and the two solid
//! bars between them. Each bar has a buffer that lasts as long as its window is arranged and is
//! updated in place, so that a frame in which nothing changed shows the same elements. Windows that
//! are gone lose their buffers.

use std::collections::HashMap;

use vstd::prelude::*;

use crate::arrangement::{is_arranged, Arrangement, Placement};
use crate::geometry::{Rect, Size};
use self::appearance::Appearance;
use self::color::{a_pixel_is_blue_green_red_and_alpha, nearest_byte, pixel_of, Color};
use self::ring::{ring_around, ring_fits, ring_rects, RingRects};
use self::strips::{
    build_seen, build_strips, built, can_build, can_plan_ring, given_up, is_painted, moved, plan_ring,
    refresh_strip_origins, ring_planned, strips_still_fit, unpainted, BuildSeen, OutputScale,
    PaintedKey, PaintedRing, RingMeasures, RingPaint, StripGeometry, StripPlan,
};

pub mod appearance;
pub mod color;
pub mod ring;
pub mod strips;

verus! {

/// A side of a window.
#[derive(Clone, Copy, Debug, PartialEq, Eq, Structural)]
pub enum Side {
    Top,
    Bottom,
    Left,
    Right,
}

/// The buffer of one bar: its size in logical pixels and its color.
#[derive(Clone, Copy, Debug, PartialEq, Eq, Structural)]
pub struct Bar {
    pub w: i32,
    pub h: i32,
    pub color: Color,
}

/// The buffers of one window's bars.
#[derive(Clone, Copy, Debug, PartialEq, Eq, Structural)]
pub struct WindowRing {
    /// Given when the ring is made, and kept for as long as it lasts: with a side it names the
    /// element that is drawn there, the same from frame to frame.
    pub id: u64,
    pub top: Bar,
    pub bottom: Bar,
    pub left: Bar,
    pub right: Bar,
}

/// A bar to draw, from the buffer of one side of a window's ring.
#[derive(Clone, Copy, Debug, PartialEq, Eq, Structural)]
pub struct RingBar {
    pub window: u64,
    /// The id of the window's ring.
    pub ring: u64,
    pub side: Side,
    pub rect: Rect,
    pub color: Color,
}

/// One element of a ring.
#[derive(Debug, PartialEq, Eq)]
pub enum RingElement<E> {
    /// A solid bar.
    Rect(RingBar),
    /// A painted strip.
    Painted(E),
}

/// The bar of a ring that was never drawn.
pub open spec fn blank_bar() -> Bar {
    Bar { w: 0, h: 0, color: Color { r: 0, g: 0, b: 0, a: 0 } }
}

/// The ring of a window that was never drawn.
pub open spec fn blank_ring(id: u64) -> WindowRing {
    WindowRing {
        id,
        top: blank_bar(),
        bottom: blank_bar(),
        left: blank_bar(),
        right: blank_bar(),
    }
}

/// `bar` for a segment `rect`: of its size and in its color, or empty where there is none.
pub open spec fn bar_for(bar: Bar, rect: Option<Rect>, color: Color) -> Bar {
    match rect {
        Some(rect) => Bar { w: rect.w, h: rect.h, color },
        None => Bar { w: 0, h: 0, ..bar },
    }
}

/// `ring` with every bar for its segment of `rects`.
pub open spec fn ring_for(ring: WindowRing, rects: RingRects, color: Color) -> WindowRing {
    WindowRing {
        id: ring.id,
        top: bar_for(ring.top, rects.top, color),
        bottom: bar_for(ring.bottom, rects.bottom, color),
        left: bar_for(ring.left, rects.left, color),
        right: bar_for(ring.right, rects.right, color),
    }
}

/// `ring` with the bars at its sides for their segments of `rects`.
pub open spec fn sides_for(ring: WindowRing, rects: RingRects, color: Color) -> WindowRing {
    WindowRing {
        left: bar_for(ring.left, rects.left, color),
        right: bar_for(ring.right, rects.right, color),
        ..ring
    }
}

/// The bar to draw for the segment `rect`, if there is one.
pub open spec fn drawn_bar(
    window: u64,
    ring: u64,
    side: Side,
    rect: Option<Rect>,
    color: Color,
) -> Seq<RingBar> {
    match rect {
        Some(rect) => seq![RingBar { window, ring, side, rect, color }],
        None => Seq::empty(),
    }
}

/// The bars to draw for the sides of a ring.
pub open spec fn drawn_sides(window: u64, ring: u64, rects: RingRects, color: Color) -> Seq<
    RingBar,
> {
    drawn_bar(window, ring, Side::Left, rects.left, color) + drawn_bar(
        window,
        ring,
        Side::Right,
        rects.right,
        color,
    )
}

/// The bars to draw for a square ring: top, bottom, left, right.
pub open spec fn drawn_ring(window: u64, ring: u64, rects: RingRects, color: Color) -> Seq<
    RingBar,
> {
    drawn_bar(window, ring, Side::Top, rects.top, color) + drawn_bar(
        window,
        ring,
        Side::Bottom,
        rects.bottom,
        color,
    ) + drawn_sides(window, ring, rects, color)
}

/// The color of the ring around the window `id`: active around the focused one only.
pub open spec fn ring_color_of(focused: Option<u64>, id: u64, appearance: Appearance) -> Color {
    if focused == Some(id) {
        appearance.focus_ring_active_color
    } else {
        appearance.focus_ring_inactive_color
    }
}

fn ring_color(arrangement: &Arrangement, id: u64, appearance: &Appearance) -> (color: Color)
    ensures
        color == ring_color_of(arrangement.focused, id, *appearance),
{
    match arrangement.focused {
        Some(focused) => {
            if focused == id {
                appearance.focus_ring_active_color
            } else {
                appearance.focus_ring_inactive_color
            }
        },
        None => appearance.focus_ring_inactive_color,
    }
}

/// The rings there are, and the id of the next one that is made.
#[verifier::ext_equal]
pub struct RingTable {
    pub rings: Map<u64, WindowRing>,
    pub next: u64,
}

/// The id after `id`.
pub open spec fn following(id: u64) -> u64 {
    if id == u64::MAX {
        0
    } else {
        (id + 1) as u64
    }
}

impl RingTable {
    /// The ring of `window`, a blank new one where it has none.
    pub open spec fn ring_of(self, window: u64) -> WindowRing {
        if self.rings.contains_key(window) {
            self.rings[window]
        } else {
            blank_ring(self.next)
        }
    }

    /// The id of the next ring, once `window` has one.
    pub open spec fn next_with(self, window: u64) -> u64 {
        if self.rings.contains_key(window) {
            self.next
        } else {
            following(self.next)
        }
    }

    /// The table once `ring` is the ring of `window`.
    pub open spec fn with_ring(self, window: u64, ring: WindowRing) -> RingTable {
        RingTable { rings: self.rings.insert(window, ring), next: self.next_with(window) }
    }

    /// The table without the rings of windows that are not arranged.
    pub open spec fn arranged(self, placements: Seq<Placement>) -> RingTable {
        RingTable { rings: arranged_part(self.rings, placements), ..self }
    }
}

/// `table` once the ring of a placed window is drawn square. A window that is not visible keeps
/// its ring as it was.
pub open spec fn ring_drawn(
    table: RingTable,
    placement: Placement,
    focused: Option<u64>,
    appearance: Appearance,
    bounds: Rect,
) -> RingTable {
    if placement.visible {
        table.with_ring(
            placement.id,
            ring_for(
                table.ring_of(placement.id),
                ring_around(placement.rect, appearance.focus_ring_width, bounds),
                ring_color_of(focused, placement.id, appearance),
            ),
        )
    } else {
        table
    }
}

/// `table` once the ring of every placed window is drawn square, in order.
pub open spec fn rings_drawn(
    table: RingTable,
    placements: Seq<Placement>,
    focused: Option<u64>,
    appearance: Appearance,
    bounds: Rect,
) -> RingTable
    decreases placements.len(),
{
    if placements.len() == 0 {
        table
    } else {
        ring_drawn(
            rings_drawn(table, placements.drop_last(), focused, appearance, bounds),
            placements.last(),
            focused,
            appearance,
            bounds,
        )
    }
}

/// The bars of one placed window's square ring.
pub open spec fn placement_bars(
    table: RingTable,
    placement: Placement,
    focused: Option<u64>,
    appearance: Appearance,
    bounds: Rect,
) -> Seq<RingBar> {
    if placement.visible {
        drawn_ring(
            placement.id,
            table.ring_of(placement.id).id,
            ring_around(placement.rect, appearance.focus_ring_width, bounds),
            ring_color_of(focused, placement.id, appearance),
        )
    } else {
        Seq::empty()
    }
}

/// The bars of every placed window's square ring, in order.
pub open spec fn square_bars(
    table: RingTable,
    placements: Seq<Placement>,
    focused: Option<u64>,
    appearance: Appearance,
    bounds: Rect,
) -> Seq<RingBar>
    decreases placements.len(),
{
    if placements.len() == 0 {
        Seq::empty()
    } else {
        let earlier = placements.drop_last();
        square_bars(table, earlier, focused, appearance, bounds) + placement_bars(
            rings_drawn(table, earlier, focused, appearance, bounds),
            placements.last(),
            focused,
            appearance,
            bounds,
        )
    }
}

/// What `map` has of the windows that are arranged.
pub open spec fn arranged_part<V>(map: Map<u64, V>, placements: Seq<Placement>) -> Map<u64, V> {
    map.restrict(Set::new(|id: u64| is_arranged(placements, id)))
}

/// Whether the ring of every visible window is representable.
pub open spec fn rings_fit(placements: Seq<Placement>, width: i32, bounds: Rect) -> bool {
    forall|i: int|
        0 <= i < placements.len() && (#[trigger] placements[i]).visible ==> ring_fits(
            placements[i].rect,
            width,
            bounds,
        )
}

/// What a rounded ring depends on besides the window and the ring's color.
pub struct RingStyle {
    pub appearance: Appearance,
    pub bounds: Rect,
    pub scale_bits: u64,
}

/// What the painted ring of a window at `rect` in `color` depends on.
pub open spec fn painted_key(
    rect: Rect,
    appearance: Appearance,
    color: Color,
    scale_bits: u64,
) -> PaintedKey {
    PaintedKey {
        w: rect.w,
        h: rect.h,
        thickness: appearance.focus_ring_width,
        radius: appearance.corner_radius,
        color: pixel_of(color),
        scale_bits,
    }
}

/// What the outside made of one window's painted ring.
pub struct RingSeen<L, M, E> {
    /// The plan for the window's rectangle.
    pub plan: Option<StripPlan<L>>,
    /// What painting the plan came to.
    pub build: BuildSeen<M>,
    /// The element of the top strip, or `None` where the renderer refused it.
    pub top: Option<E>,
    /// The element of the bottom strip, or `None` where the renderer refused it.
    pub bottom: Option<E>,
}

/// Whether a plan is asked for: when something that the pixels depend on changed, and, to follow
/// the window, while there are strips. A ring that was given up is left alone until its key
/// changes.
pub open spec fn asks_for_a_plan<L, M>(ring: PaintedRing<L, M>, key: PaintedKey) -> bool {
    ring.key != Some(key) || ring.top_at is Some
}

/// Whether the strips are painted anew: when something that the pixels depend on changed, or when
/// the strips no longer fit the plan.
pub open spec fn repaints<L, M>(
    ring: PaintedRing<L, M>,
    key: PaintedKey,
    plan: Option<StripPlan<L>>,
) -> bool {
    &&& asks_for_a_plan(ring, key)
    &&& !(ring.key == Some(key) && strips_still_fit(ring, plan))
}

/// `ring` brought up to date with `key` and `plan`: painted anew, moved, or left alone.
pub open spec fn brought_up_to_date<L, M>(
    ring: PaintedRing<L, M>,
    key: PaintedKey,
    plan: Option<StripPlan<L>>,
    build: BuildSeen<M>,
) -> PaintedRing<L, M> {
    if repaints(ring, key, plan) {
        built(PaintedRing { key: Some(key), ..ring }, plan, build)
    } else if asks_for_a_plan(ring, key) {
        moved(ring, plan->0)
    } else {
        ring
    }
}

/// The strips of `window` in `painted`, none where it has no entry.
pub open spec fn strips_in<L, M>(
    painted: Map<u64, PaintedRing<L, M>>,
    window: u64,
) -> PaintedRing<L, M> {
    if painted.contains_key(window) {
        painted[window]
    } else {
        unpainted()
    }
}

/// The state of the decorations while rounded rings are drawn: the buffers, and the elements so
/// far.
#[verifier::ext_equal]
pub struct Frame<L, M, E> {
    pub table: RingTable,
    pub painted: Map<u64, PaintedRing<L, M>>,
    pub elements: Seq<RingElement<E>>,
}

/// `bars` as elements of a ring.
pub open spec fn as_elements<E>(bars: Seq<RingBar>) -> Seq<RingElement<E>> {
    bars.map_values(|bar: RingBar| RingElement::<E>::Rect(bar))
}

/// `frame` once the ring of one window is drawn rounded: two strips and the two bars between them,
/// or, where the strips cannot be had, the square ring. Nothing is drawn of a ring without width.
pub open spec fn window_drawn<L, M, E>(
    frame: Frame<L, M, E>,
    window: u64,
    rect: Rect,
    color: Color,
    style: RingStyle,
    seen: RingSeen<L, M, E>,
) -> Frame<L, M, E> {
    let width = style.appearance.focus_ring_width;
    let key = painted_key(rect, style.appearance, color, style.scale_bits);
    let ring = brought_up_to_date(strips_in(frame.painted, window), key, seen.plan, seen.build);
    let rects = ring_around(rect, width, style.bounds);
    if width <= 0 {
        frame
    } else if is_painted(ring) && seen.top is Some && seen.bottom is Some {
        Frame {
            table: frame.table.with_ring(
                window,
                sides_for(frame.table.ring_of(window), rects, color),
            ),
            painted: frame.painted.insert(window, ring),
            elements: frame.elements + seq![
                RingElement::Painted(seen.top->0),
                RingElement::Painted(seen.bottom->0),
            ] + as_elements(drawn_sides(window, frame.table.ring_of(window).id, rects, color)),
        }
    } else {
        Frame {
            table: frame.table.with_ring(
                window,
                ring_for(frame.table.ring_of(window), rects, color),
            ),
            painted: frame.painted.insert(
                window,
                if is_painted(ring) {
                    given_up(ring)
                } else {
                    ring
                },
            ),
            elements: frame.elements + as_elements(
                drawn_ring(window, frame.table.ring_of(window).id, rects, color),
            ),
        }
    }
}

/// Whether `seen` is what the outside made of the painted ring `ring` of a window at `rect`.
pub open spec fn ring_seen<L, M, E, P, R, D, C, F, U, I>(
    ring: PaintedRing<L, M>,
    rect: Rect,
    key: PaintedKey,
    seen: RingSeen<L, M, E>,
    scale: OutputScale<P, R, D, C>,
    paint: F,
    upload: U,
    import: I,
) -> bool where
    P: Fn(Rect, i32, i32) -> RingMeasures<L>,
    R: Fn(i32) -> i32,
    D: Fn(L, i32) -> L,
    C: Fn(L, Size) -> Size,
    F: Fn(Vec<u8>, RingPaint, [u8; 4]) -> Vec<u8>,
    U: Fn(&Vec<u8>, Size) -> M,
    I: Fn(&M, StripGeometry<L>) -> Option<E>,
 {
    let current = brought_up_to_date(ring, key, seen.plan, seen.build);
    &&& asks_for_a_plan(ring, key) ==> ring_planned(
        scale,
        rect,
        key.thickness,
        key.radius,
        seen.plan,
    )
    &&& repaints(ring, key, seen.plan) && seen.plan is Some ==> build_seen(
        seen.plan->0,
        key.color,
        seen.build,
        paint,
        upload,
    )
    &&& is_painted(current) ==> {
        &&& call_ensures(import, (&(current.top->0), current.top_at->0), seen.top)
        &&& call_ensures(import, (&(current.bottom->0), current.bottom_at->0), seen.bottom)
    }
}

/// Whether the outside can be asked what drawing the painted ring `ring` takes: a plan, where one
/// is asked for; painting and uploading, where the strips are painted anew; and importing the two
/// strips there are then.
pub open spec fn can_draw<L, M, E, P, R, D, C, F, U, I>(
    ring: PaintedRing<L, M>,
    rect: Rect,
    key: PaintedKey,
    scale: OutputScale<P, R, D, C>,
    paint: F,
    upload: U,
    import: I,
) -> bool where
    P: Fn(Rect, i32, i32) -> RingMeasures<L>,
    R: Fn(i32) -> i32,
    D: Fn(L, i32) -> L,
    C: Fn(L, Size) -> Size,
    F: Fn(Vec<u8>, RingPaint, [u8; 4]) -> Vec<u8>,
    U: Fn(&Vec<u8>, Size) -> M,
    I: Fn(&M, StripGeometry<L>) -> Option<E>,
 {
    &&& asks_for_a_plan(ring, key) ==> {
        &&& can_plan_ring::<L, P, R, D, C>(scale, rect, key.thickness, key.radius)
        &&& forall|found: StripPlan<L>| #[trigger]
            ring_planned(scale, rect, key.thickness, key.radius, Some(found)) && repaints(ring, key, Some(found))
                ==> can_build::<L, M, F, U>(found, key.color, paint, upload)
    }
    &&& forall|found: Option<StripPlan<L>>, build: BuildSeen<M>|
        {
            let current = #[trigger] brought_up_to_date(ring, key, found, build);
            &&& asks_for_a_plan(ring, key) ==> ring_planned(
                scale,
                rect,
                key.thickness,
                key.radius,
                found,
            )
            &&& repaints(ring, key, found) && found is Some ==> build_seen(
                found->0,
                key.color,
                build,
                paint,
                upload,
            )
            &&& is_painted(current)
        } ==> {
            let current = brought_up_to_date(ring, key, found, build);
            &&& call_requires(import, (&(current.top->0), current.top_at->0))
            &&& call_requires(import, (&(current.bottom->0), current.bottom_at->0))
        }
}

/// `frame` once the ring of one placed window is drawn rounded. Nothing is drawn of a window that
/// is not visible.
pub open spec fn placement_drawn<L, M, E>(
    frame: Frame<L, M, E>,
    placement: Placement,
    focused: Option<u64>,
    style: RingStyle,
    seen: RingSeen<L, M, E>,
) -> Frame<L, M, E> {
    if placement.visible {
        window_drawn(
            frame,
            placement.id,
            placement.rect,
            ring_color_of(focused, placement.id, style.appearance),
            style,
            seen,
        )
    } else {
        frame
    }
}

/// `frame` once the ring of every placed window is drawn rounded, in order; `seen` is what the
/// outside made of each.
pub open spec fn frame_drawn<L, M, E>(
    frame: Frame<L, M, E>,
    placements: Seq<Placement>,
    focused: Option<u64>,
    style: RingStyle,
    seen: Seq<RingSeen<L, M, E>>,
) -> Frame<L, M, E>
    decreases placements.len(),
{
    if placements.len() == 0 {
        frame
    } else {
        placement_drawn(
            frame_drawn(frame, placements.drop_last(), focused, style, seen.drop_last()),
            placements.last(),
            focused,
            style,
            seen.last(),
        )
    }
}

/// Whether `seen` is what the outside made of one placed window's ring.
pub open spec fn placement_seen<L, M, E, P, R, D, C, F, U, I>(
    frame: Frame<L, M, E>,
    placement: Placement,
    focused: Option<u64>,
    style: RingStyle,
    seen: RingSeen<L, M, E>,
    scale: OutputScale<P, R, D, C>,
    paint: F,
    upload: U,
    import: I,
) -> bool where
    P: Fn(Rect, i32, i32) -> RingMeasures<L>,
    R: Fn(i32) -> i32,
    D: Fn(L, i32) -> L,
    C: Fn(L, Size) -> Size,
    F: Fn(Vec<u8>, RingPaint, [u8; 4]) -> Vec<u8>,
    U: Fn(&Vec<u8>, Size) -> M,
    I: Fn(&M, StripGeometry<L>) -> Option<E>,
 {
    placement.visible && style.appearance.focus_ring_width > 0 ==> ring_seen(
        strips_in(frame.painted, placement.id),
        placement.rect,
        painted_key(
            placement.rect,
            style.appearance,
            ring_color_of(focused, placement.id, style.appearance),
            style.scale_bits,
        ),
        seen,
        scale,
        paint,
        upload,
        import,
    )
}

/// Whether `seen` is, window by window, what the outside made of the rings.
pub open spec fn frame_seen<L, M, E, P, R, D, C, F, U, I>(
    frame: Frame<L, M, E>,
    placements: Seq<Placement>,
    focused: Option<u64>,
    style: RingStyle,
    seen: Seq<RingSeen<L, M, E>>,
    scale: OutputScale<P, R, D, C>,
    paint: F,
    upload: U,
    import: I,
) -> bool where
    P: Fn(Rect, i32, i32) -> RingMeasures<L>,
    R: Fn(i32) -> i32,
    D: Fn(L, i32) -> L,
    C: Fn(L, Size) -> Size,
    F: Fn(Vec<u8>, RingPaint, [u8; 4]) -> Vec<u8>,
    U: Fn(&Vec<u8>, Size) -> M,
    I: Fn(&M, StripGeometry<L>) -> Option<E>,

    decreases placements.len(),
{
    &&& seen.len() == placements.len()
    &&& placements.len() > 0 ==> {
        &&& frame_seen(
            frame,
            placements.drop_last(),
            focused,
            style,
            seen.drop_last(),
            scale,
            paint,
            upload,
            import,
        )
        &&& placement_seen(
            frame_drawn(frame, placements.drop_last(), focused, style, seen.drop_last()),
            placements.last(),
            focused,
            style,
            seen.last(),
            scale,
            paint,
            upload,
            import,
        )
    }
}

/// Whether the outside can be asked what drawing each visible window's ring takes, after whatever
/// it made of the rings before it.
pub open spec fn can_draw_all<L, M, E, P, R, D, C, F, U, I>(
    frame: Frame<L, M, E>,
    placements: Seq<Placement>,
    focused: Option<u64>,
    style: RingStyle,
    scale: OutputScale<P, R, D, C>,
    paint: F,
    upload: U,
    import: I,
) -> bool where
    P: Fn(Rect, i32, i32) -> RingMeasures<L>,
    R: Fn(i32) -> i32,
    D: Fn(L, i32) -> L,
    C: Fn(L, Size) -> Size,
    F: Fn(Vec<u8>, RingPaint, [u8; 4]) -> Vec<u8>,
    U: Fn(&Vec<u8>, Size) -> M,
    I: Fn(&M, StripGeometry<L>) -> Option<E>,
 {
    forall|i: int, seen: Seq<RingSeen<L, M, E>>|
        0 <= i < placements.len() && placements[i].visible && #[trigger] frame_seen(
            frame,
            placements.take(i),
            focused,
            style,
            seen,
            scale,
            paint,
            upload,
            import,
        ) ==> can_draw::<L, M, E, P, R, D, C, F, U, I>(
            strips_in(
                frame_drawn(frame, placements.take(i), focused, style, seen).painted,
                placements[i].id,
            ),
            placements[i].rect,
            painted_key(
                placements[i].rect,
                style.appearance,
                ring_color_of(focused, placements[i].id, style.appearance),
                style.scale_bits,
            ),
            scale,
            paint,
            upload,
            import,
        )
}

/// Updates the buffer `bar` for the segment `rect` and adds the bar to `elements`, where there is
/// one; else empties the buffer and adds nothing.
fn push(
    elements: &mut Vec<RingBar>,
    window: u64,
    ring: u64,
    side: Side,
    bar: &mut Bar,
    rect: Option<Rect>,
    color: Color,
)
    ensures
        *final(bar) == bar_for(*old(bar), rect, color),
        final(elements)@ == old(elements)@ + drawn_bar(window, ring, side, rect, color),
{
    match rect {
        Some(rect) => {
            *bar = Bar { w: rect.w, h: rect.h, color };
            elements.push(RingBar { window, ring, side, rect, color });
        },
        None => {
            bar.w = 0;
            bar.h = 0;
        },
    }
}

/// `push` for an element of a rounded ring.
fn push_painted_rect<E>(
    elements: &mut Vec<RingElement<E>>,
    window: u64,
    ring: u64,
    side: Side,
    bar: &mut Bar,
    rect: Option<Rect>,
    color: Color,
)
    ensures
        *final(bar) == bar_for(*old(bar), rect, color),
        final(elements)@ == old(elements)@ + as_elements::<E>(drawn_bar(window, ring, side, rect, color)),
{
    match rect {
        Some(rect) => {
            *bar = Bar { w: rect.w, h: rect.h, color };
            elements.push(RingElement::Rect(RingBar { window, ring, side, rect, color }));
        },
        None => {
            bar.w = 0;
            bar.h = 0;
        },
    }
    assert(elements@ =~= old(elements)@ + as_elements::<E>(drawn_bar(window, ring, side, rect, color)));
}

/// Whether `key` is what `ring` was painted for.
fn is_painted_for<L, M>(ring: &PaintedRing<L, M>, key: &PaintedKey) -> (same: bool)
    ensures
        same == (ring.key == Some(*key)),
{
    match ring.key {
        Some(old_key) => {
            let same = old_key.w == key.w && old_key.h == key.h && old_key.thickness
                == key.thickness && old_key.radius == key.radius && old_key.scale_bits
                == key.scale_bits && old_key.color[0] == key.color[0] && old_key.color[1]
                == key.color[1] && old_key.color[2] == key.color[2] && old_key.color[3]
                == key.color[3];
            proof {
                if same {
                    assert(old_key.color =~= key.color);
                }
            }
            same
        },
        None => false,
    }
}

/// The decorations of a session, kept from frame to frame. `L` is an exact position on an output
/// and `M` an image in the renderer's memory.
pub struct Decorations<L, M> {
    /// The bars of every window that has any.
    pub rings: HashMap<u64, WindowRing>,
    /// The id of the next ring that is made.
    pub next_ring: u64,
    /// The strips of every window that has any.
    pub painted: HashMap<u64, PaintedRing<L, M>>,
    /// Where strips are painted before they are uploaded.
    pub scratch: Vec<u8>,
}

/// Keeps the entries of `map` that belong to arranged windows.
fn keep_arranged<V>(map: &mut HashMap<u64, V>, placements: &Vec<Placement>)
    ensures
        final(map)@ == arranged_part(old(map)@, placements@),
{
    broadcast use vstd::std_specs::hash::group_hash_axioms;

    let mut kept: HashMap<u64, V> = HashMap::new();
    let mut i: usize = 0;
    while i < placements.len()
        invariant
            i <= placements@.len(),
            forall|id: u64|
                #![trigger kept@.contains_key(id)]
                #![trigger map@.contains_key(id)]
                {
                    &&& kept@.contains_key(id) <==> old(map)@.contains_key(id) && is_arranged(
                        placements@.take(i as int),
                        id,
                    )
                    &&& map@.contains_key(id) <==> old(map)@.contains_key(id) && !is_arranged(
                        placements@.take(i as int),
                        id,
                    )
                },
            forall|id: u64| #[trigger] kept@.contains_key(id) ==> kept@[id] == old(map)@[id],
            forall|id: u64| #[trigger] map@.contains_key(id) ==> map@[id] == old(map)@[id],
        decreases placements@.len() - i,
    {
        let id: u64 = placements[i].id;
        proof {
            let before = placements@.take(i as int);
            let after = placements@.take(i + 1);
            assert forall|other: u64| is_arranged(after, other) <==> is_arranged(before, other)
                || other == id by {
                if is_arranged(before, other) {
                    let j = choose|j: int| 0 <= j < before.len() && (#[trigger] before[j]).id == other;
                    assert(after[j].id == other);
                }
                if other == id {
                    assert(after[i as int].id == id);
                }
                if is_arranged(after, other) {
                    let j = choose|j: int| 0 <= j < after.len() && (#[trigger] after[j]).id == other;
                    if j < i {
                        assert(before[j].id == other);
                    }
                }
            }
        }
        match map.remove(&id) {
            Some(entry) => {
                kept.insert(id, entry);
            },
            None => {},
        }
        i += 1;
    }
    proof {
        assert(placements@.take(i as int) =~= placements@);
        assert(kept@ =~= arranged_part(old(map)@, placements@));
    }
    *map = kept;
}

impl<L, M> Default for Decorations<L, M> {
    fn default() -> (decorations: Decorations<L, M>)
        ensures
            decorations.rings@ == Map::<u64, WindowRing>::empty(),
            decorations.next_ring == 0,
            decorations.painted@ == Map::<u64, PaintedRing<L, M>>::empty(),
    {
        Decorations {
            rings: HashMap::new(),
            next_ring: 0,
            painted: HashMap::new(),
            scratch: Vec::new(),
        }
    }
}

impl<L, M> Decorations<L, M> {
    /// The bars of the session's square rings, window by window: top, bottom, left, right, without
    /// those that are out of bounds. Each window's buffers are updated in place; windows that are
    /// gone lose theirs, and so do strips from when rings were rounded.
    #[verifier::spinoff_prover]
    #[verifier::rlimit(40)]
    pub fn elements(
        &mut self,
        arrangement: &Arrangement,
        appearance: &Appearance,
        bounds: Rect,
    ) -> (elements: Vec<RingBar>)
        requires
            rings_fit(arrangement.placements@, appearance.focus_ring_width, bounds),
        ensures
            elements@ == bars_of(
                table_of(*old(self)),
                (SquareFrame {
                    placements: arrangement.placements@,
                    focused: arrangement.focused,
                    appearance: *appearance,
                    bounds,
                }),
            ),
            table_of(*final(self)) == rings_after(
                table_of(*old(self)),
                (SquareFrame {
                    placements: arrangement.placements@,
                    focused: arrangement.focused,
                    appearance: *appearance,
                    bounds,
                }),
            ),
            final(self).painted@ == Map::<u64, PaintedRing<L, M>>::empty(),
    {
        broadcast use vstd::std_specs::hash::group_hash_axioms;

        self.retain(arrangement);
        self.painted.clear();
        let mut elements: Vec<RingBar> = Vec::new();
        let ghost start = table_of(*self);
        let ghost placements = arrangement.placements@;
        let mut i: usize = 0;
        assert(placements.take(0) =~= Seq::empty());
        while i < arrangement.placements.len()
            invariant
                i <= placements.len(),
                placements == arrangement.placements@,
                rings_fit(placements, appearance.focus_ring_width, bounds),
                self.painted@ == Map::<u64, PaintedRing<L, M>>::empty(),
                table_of(*self) == rings_drawn(
                    start,
                    placements.take(i as int),
                    arrangement.focused,
                    *appearance,
                    bounds,
                ),
                elements@ == square_bars(
                    start,
                    placements.take(i as int),
                    arrangement.focused,
                    *appearance,
                    bounds,
                ),
            decreases placements.len() - i,
        {
            let placement = arrangement.placements[i];
            proof {
                assert(placements.take(i + 1).drop_last() =~= placements.take(i as int));
                assert(placements.take(i + 1).last() == placement);
            }
            if placement.visible {
                let color = ring_color(arrangement, placement.id, appearance);
                let rects = ring_rects(placement.rect, appearance.focus_ring_width, bounds);
                let mut ring = self.take_ring(placement.id);
                let id: u64 = placement.id;
                push(&mut elements, id, ring.id, Side::Top, &mut ring.top, rects.top, color);
                push(&mut elements, id, ring.id, Side::Bottom, &mut ring.bottom, rects.bottom, color);
                push(&mut elements, id, ring.id, Side::Left, &mut ring.left, rects.left, color);
                push(&mut elements, id, ring.id, Side::Right, &mut ring.right, rects.right, color);
                self.rings.insert(placement.id, ring);
            }
            i += 1;
            assert(elements@ =~= square_bars(
                start,
                placements.take(i as int),
                arrangement.focused,
                *appearance,
                bounds,
            ));
            assert(table_of(*self) =~= rings_drawn(
                start,
                placements.take(i as int),
                arrangement.focused,
                *appearance,
                bounds,
            ));
        }
        assert(placements.take(i as int) =~= placements);
        elements
    }

    /// Drops the buffers of windows that are no longer arranged.
    fn retain(&mut self, arrangement: &Arrangement)
        ensures
            table_of(*final(self)) == table_of(*old(self)).arranged(arrangement.placements@),
            final(self).painted@ == arranged_part(old(self).painted@, arrangement.placements@),
            final(self).scratch == old(self).scratch,
    {
        keep_arranged(&mut self.rings, &arrangement.placements);
        keep_arranged(&mut self.painted, &arrangement.placements);
    }

    /// Takes the ring of `window` out, to be put back once it is drawn; a new one where it has none.
    fn take_ring(&mut self, window: u64) -> (ring: WindowRing)
        ensures
            ring == table_of(*old(self)).ring_of(window),
            final(self).rings@ == old(self).rings@.remove(window),
            final(self).next_ring == table_of(*old(self)).next_with(window),
            final(self).painted == old(self).painted,
            final(self).scratch == old(self).scratch,
    {
        broadcast use vstd::std_specs::hash::group_hash_axioms;

        match self.rings.remove(&window) {
            Some(ring) => ring,
            None => {
                let blank = Bar { w: 0, h: 0, color: Color { r: 0, g: 0, b: 0, a: 0 } };
                let id: u64 = self.next_ring;
                self.next_ring = id.wrapping_add(1);
                assert(old(self).rings@.remove(window) =~= old(self).rings@);
                WindowRing { id, top: blank, bottom: blank, left: blank, right: blank }
            },
        }
    }

    /// The elements of the session's rounded rings, window by window. Windows that are gone lose
    /// their buffers.
    ///
    /// `scale` is what the strips are planned with, `paint` puts a band on a blank canvas, `upload`
    /// makes an image of a canvas, and `import` makes an element of an image, or `None` where the
    /// renderer refuses it.
    pub fn elements_rounded<E, P, R, D, C, F, U, I>(
        &mut self,
        arrangement: &Arrangement,
        appearance: &Appearance,
        bounds: Rect,
        scale_bits: u64,
        scale: &OutputScale<P, R, D, C>,
        paint: &F,
        upload: &U,
        import: &I,
    ) -> (elements: Vec<RingElement<E>>) where
        L: Copy,
        P: Fn(Rect, i32, i32) -> RingMeasures<L>,
        R: Fn(i32) -> i32,
        D: Fn(L, i32) -> L,
        C: Fn(L, Size) -> Size,
        F: Fn(Vec<u8>, RingPaint, [u8; 4]) -> Vec<u8>,
        U: Fn(&Vec<u8>, Size) -> M,
        I: Fn(&M, StripGeometry<L>) -> Option<E>,

        requires
            appearance.focus_ring_width > 0 ==> {
                &&& rings_fit(arrangement.placements@, appearance.focus_ring_width, bounds)
                &&& can_draw_all::<L, M, E, P, R, D, C, F, U, I>(
                    frame_begun(*old(self), arrangement.placements@),
                    arrangement.placements@,
                    arrangement.focused,
                    (RingStyle { appearance: *appearance, bounds, scale_bits }),
                    *scale,
                    *paint,
                    *upload,
                    *import,
                )
            },
        ensures
            exists|seen: Seq<RingSeen<L, M, E>>|
                {
                    &&& #[trigger] frame_seen(
                        frame_begun(*old(self), arrangement.placements@),
                        arrangement.placements@,
                        arrangement.focused,
                        (RingStyle { appearance: *appearance, bounds, scale_bits }),
                        seen,
                        *scale,
                        *paint,
                        *upload,
                        *import,
                    )
                    &&& frame_of(*final(self), elements@) == frame_drawn(
                        frame_begun(*old(self), arrangement.placements@),
                        arrangement.placements@,
                        arrangement.focused,
                        (RingStyle { appearance: *appearance, bounds, scale_bits }),
                        seen,
                    )
                },
    {
        self.retain(arrangement);
        let mut elements: Vec<RingElement<E>> = Vec::new();
        let ghost start = frame_begun::<L, M, E>(*old(self), arrangement.placements@);
        assert(frame_of(*self, elements@) =~= start);
        let ghost style = RingStyle { appearance: *appearance, bounds, scale_bits };
        let ghost placements = arrangement.placements@;
        let ghost mut seen: Seq<RingSeen<L, M, E>> = Seq::empty();
        let mut i: usize = 0;
        assert(placements.take(0) =~= Seq::empty());
        while i < arrangement.placements.len()
            invariant
                i <= placements.len(),
                placements == arrangement.placements@,
                style == (RingStyle { appearance: *appearance, bounds, scale_bits }),
                appearance.focus_ring_width > 0 ==> {
                    &&& rings_fit(placements, appearance.focus_ring_width, bounds)
                    &&& can_draw_all::<L, M, E, P, R, D, C, F, U, I>(
                        start,
                        placements,
                        arrangement.focused,
                        style,
                        *scale,
                        *paint,
                        *upload,
                        *import,
                    )
                },
                frame_seen(
                    start,
                    placements.take(i as int),
                    arrangement.focused,
                    style,
                    seen,
                    *scale,
                    *paint,
                    *upload,
                    *import,
                ),
                frame_of(*self, elements@) == frame_drawn(
                    start,
                    placements.take(i as int),
                    arrangement.focused,
                    style,
                    seen,
                ),
            decreases placements.len() - i,
        {
            let placement = arrangement.placements[i];
            let ghost before = frame_of(*self, elements@);
            let ghost mut one: RingSeen<L, M, E> = arbitrary();
            if placement.visible {
                let color = ring_color(arrangement, placement.id, appearance);
                self.push_painted(
                    &mut elements,
                    placement.id,
                    placement.rect,
                    appearance,
                    color,
                    bounds,
                    scale_bits,
                    scale,
                    paint,
                    upload,
                    import,
                );
                proof {
                    if appearance.focus_ring_width > 0 {
                        one = choose|seen: RingSeen<L, M, E>|
                            {
                                &&& #[trigger] ring_seen(
                                    strips_in(before.painted, placement.id),
                                    placement.rect,
                                    painted_key(placement.rect, *appearance, color, scale_bits),
                                    seen,
                                    *scale,
                                    *paint,
                                    *upload,
                                    *import,
                                )
                                &&& frame_of(*self, elements@) == window_drawn(
                                    before,
                                    placement.id,
                                    placement.rect,
                                    color,
                                    style,
                                    seen,
                                )
                            };
                    }
                }
            }
            proof {
                let so_far = placements.take(i as int);
                let now = placements.take(i + 1);
                let all = seen.push(one);
                assert(now.drop_last() =~= so_far);
                assert(now.last() == placement);
                assert(all.drop_last() =~= seen);
                assert(all.last() == one);
                assert(placement_seen(
                    before,
                    placement,
                    arrangement.focused,
                    style,
                    one,
                    *scale,
                    *paint,
                    *upload,
                    *import,
                ));
                assert(frame_of(*self, elements@) == placement_drawn(
                    before,
                    placement,
                    arrangement.focused,
                    style,
                    one,
                ));
                seen = all;
            }
            i += 1;
        }
        assert(placements.take(i as int) =~= placements);
        elements
    }

    /// Draws one window's rounded ring: two strips and the two bars between them, or the square
    /// ring where the strips cannot be had.
    ///
    /// The strips are painted anew only when something that their pixels depend on changed, or when
    /// rounding moved an edge of a strip under a window that moved. A ring that could not be painted
    /// or imported is not tried again until its key changes.
    pub fn push_painted<E, P, R, D, C, F, U, I>(
        &mut self,
        elements: &mut Vec<RingElement<E>>,
        window: u64,
        rect: Rect,
        appearance: &Appearance,
        color: Color,
        bounds: Rect,
        scale_bits: u64,
        scale: &OutputScale<P, R, D, C>,
        paint: &F,
        upload: &U,
        import: &I,
    ) where
        L: Copy,
        P: Fn(Rect, i32, i32) -> RingMeasures<L>,
        R: Fn(i32) -> i32,
        D: Fn(L, i32) -> L,
        C: Fn(L, Size) -> Size,
        F: Fn(Vec<u8>, RingPaint, [u8; 4]) -> Vec<u8>,
        U: Fn(&Vec<u8>, Size) -> M,
        I: Fn(&M, StripGeometry<L>) -> Option<E>,

        requires
            appearance.focus_ring_width > 0 ==> {
                &&& ring_fits(rect, appearance.focus_ring_width, bounds)
                &&& can_draw::<L, M, E, P, R, D, C, F, U, I>(
                    strips_in(old(self).painted@, window),
                    rect,
                    painted_key(rect, *appearance, color, scale_bits),
                    *scale,
                    *paint,
                    *upload,
                    *import,
                )
            },
        ensures
            appearance.focus_ring_width <= 0 ==> *final(self) == *old(self) && *final(elements)
                == *old(elements),
            appearance.focus_ring_width > 0 ==> exists|seen: RingSeen<L, M, E>|
                {
                    &&& #[trigger] ring_seen(
                        strips_in(old(self).painted@, window),
                        rect,
                        painted_key(rect, *appearance, color, scale_bits),
                        seen,
                        *scale,
                        *paint,
                        *upload,
                        *import,
                    )
                    &&& frame_of(*final(self), final(elements)@) == window_drawn(
                        frame_of(*old(self), old(elements)@),
                        window,
                        rect,
                        color,
                        RingStyle { appearance: *appearance, bounds, scale_bits },
                        seen,
                    )
                },
    {
        broadcast use vstd::std_specs::hash::group_hash_axioms;

        let thickness: i32 = appearance.focus_ring_width;
        if thickness <= 0 {
            return;
        }
        let key = PaintedKey {
            w: rect.w,
            h: rect.h,
            thickness,
            radius: appearance.corner_radius,
            color: color.to_argb8888(),
            scale_bits,
        };
        let ghost before = strips_in(self.painted@, window);
        let mut ring = match self.painted.remove(&window) {
            Some(ring) => ring,
            None => PaintedRing { top: None, bottom: None, top_at: None, bottom_at: None, key: None },
        };
        let ghost mut found: Option<StripPlan<L>> = None;
        let ghost mut build: BuildSeen<M> = arbitrary();
        if !is_painted_for(&ring, &key) {
            ring.key = Some(key);
            let planned = plan_ring(scale, rect, thickness, appearance.corner_radius);
            let ghost keyed = ring;
            build_strips(&mut ring, planned, key.color, &mut self.scratch, paint, upload);
            proof {
                found = planned;
                if planned is Some {
                    build = choose|seen: BuildSeen<M>| #[trigger]
                        build_seen(planned->0, key.color, seen, *paint, *upload) && ring == built(
                            keyed,
                            planned,
                            seen,
                        );
                }
            }
        } else if ring.top_at.is_some() {
            let planned = plan_ring(scale, rect, thickness, appearance.corner_radius);
            let ghost keyed = ring;
            if !refresh_strip_origins(&mut ring, planned) {
                build_strips(&mut ring, planned, key.color, &mut self.scratch, paint, upload);
                proof {
                    if planned is Some {
                        build = choose|seen: BuildSeen<M>| #[trigger]
                            build_seen(planned->0, key.color, seen, *paint, *upload) && ring
                                == built(keyed, planned, seen);
                    }
                }
            }
            proof {
                found = planned;
            }
        }
        let ghost current = ring;
        assert(current == brought_up_to_date(before, key, found, build));
        let imported = match (&ring.top, &ring.bottom, ring.top_at, ring.bottom_at) {
            (Some(top), Some(bottom), Some(top_at), Some(bottom_at)) => Some(
                (import(top, top_at), import(bottom, bottom_at)),
            ),
            _ => None,
        };
        let ghost seen = RingSeen {
            plan: found,
            build,
            top: if imported is Some {
                (imported->0).0
            } else {
                None
            },
            bottom: if imported is Some {
                (imported->0).1
            } else {
                None
            },
        };
        assert(ring_seen(before, rect, key, seen, *scale, *paint, *upload, *import));
        match imported {
            Some((Some(top), Some(bottom))) => {
                elements.push(RingElement::Painted(top));
                elements.push(RingElement::Painted(bottom));
                let rects = ring_rects(rect, thickness, bounds);
                let mut bars = self.take_ring(window);
                push_painted_rect(
                    elements,
                    window,
                    bars.id,
                    Side::Left,
                    &mut bars.left,
                    rects.left,
                    color,
                );
                push_painted_rect(
                    elements,
                    window,
                    bars.id,
                    Side::Right,
                    &mut bars.right,
                    rects.right,
                    color,
                );
                self.rings.insert(window, bars);
            },
            Some(_) => {
                ring.top = None;
                ring.bottom = None;
                ring.top_at = None;
                ring.bottom_at = None;
                self.push_fallback(elements, window, rect, thickness, color, bounds);
            },
            None => {
                self.push_fallback(elements, window, rect, thickness, color, bounds);
            },
        }
        self.painted.insert(window, ring);
        proof {
            let style = RingStyle { appearance: *appearance, bounds, scale_bits };
            let after = window_drawn(
                frame_of(*old(self), old(elements)@),
                window,
                rect,
                color,
                style,
                seen,
            );
            assert(self.painted@ =~= after.painted);
            assert(table_of(*self) =~= after.table);
            assert(elements@ =~= after.elements);
        }
    }

    /// Draws the square ring of one window among rounded ones.
    fn push_fallback<E>(
        &mut self,
        elements: &mut Vec<RingElement<E>>,
        window: u64,
        rect: Rect,
        thickness: i32,
        color: Color,
        bounds: Rect,
    )
        requires
            ring_fits(rect, thickness, bounds),
        ensures
            final(self).painted == old(self).painted,
            final(self).scratch == old(self).scratch,
            table_of(*final(self)) == table_of(*old(self)).with_ring(
                window,
                ring_for(
                    table_of(*old(self)).ring_of(window),
                    ring_around(rect, thickness, bounds),
                    color,
                ),
            ),
            final(elements)@ == old(elements)@ + as_elements::<E>(
                drawn_ring(
                    window,
                    table_of(*old(self)).ring_of(window).id,
                    ring_around(rect, thickness, bounds),
                    color,
                ),
            ),
    {
        broadcast use vstd::std_specs::hash::group_hash_axioms;

        let rects = ring_rects(rect, thickness, bounds);
        let mut bars = self.take_ring(window);
        push_painted_rect(
            elements,
            window,
            bars.id,
            Side::Top,
            &mut bars.top,
            rects.top,
            color,
        );
        push_painted_rect(
            elements,
            window,
            bars.id,
            Side::Bottom,
            &mut bars.bottom,
            rects.bottom,
            color,
        );
        push_painted_rect(
            elements,
            window,
            bars.id,
            Side::Left,
            &mut bars.left,
            rects.left,
            color,
        );
        push_painted_rect(
            elements,
            window,
            bars.id,
            Side::Right,
            &mut bars.right,
            rects.right,
            color,
        );
        self.rings.insert(window, bars);
        let ghost ring = table_of(*old(self)).ring_of(window);
        assert(elements@ =~= old(elements)@ + as_elements::<E>(
            drawn_ring(window, ring.id, rects, color),
        ));
        assert(table_of(*self) =~= table_of(*old(self)).with_ring(
            window,
            ring_for(ring, rects, color),
        ));
    }
}

/// The buffers of `decorations` that belong to arranged windows, with nothing drawn yet.
pub open spec fn frame_begun<L, M, E>(
    decorations: Decorations<L, M>,
    placements: Seq<Placement>,
) -> Frame<L, M, E> {
    Frame {
        table: table_of(decorations).arranged(placements),
        painted: arranged_part(decorations.painted@, placements),
        elements: Seq::empty(),
    }
}

/// The buffers of `decorations` and the elements so far.
pub open spec fn frame_of<L, M, E>(
    decorations: Decorations<L, M>,
    elements: Seq<RingElement<E>>,
) -> Frame<L, M, E> {
    Frame { table: table_of(decorations), painted: decorations.painted@, elements }
}

/// The rings of `decorations`, and the id of the next.
pub open spec fn table_of<L, M>(decorations: Decorations<L, M>) -> RingTable {
    RingTable { rings: decorations.rings@, next: decorations.next_ring }
}

/// Only arranged windows have buffers after square rings are drawn, and a window that had buffers
/// keeps them, and their id, for as long as it is arranged, whether it is visible or not.
pub proof fn square_rings_belong_to_arranged_windows(
    table: RingTable,
    placements: Seq<Placement>,
    focused: Option<u64>,
    appearance: Appearance,
    bounds: Rect,
    window: u64,
)
    ensures
        ({
            let after = rings_drawn(
                table.arranged(placements),
                placements,
                focused,
                appearance,
                bounds,
            );
            &&& after.rings.contains_key(window) ==> is_arranged(placements, window)
            &&& is_arranged(placements, window) && table.rings.contains_key(window) ==> {
                &&& after.rings.contains_key(window)
                &&& after.rings[window].id == table.rings[window].id
            }
        }),
{
    lemma_rings_grow(table.arranged(placements), placements, focused, appearance, bounds, window);
}

/// Drawing adds an entry for arranged windows only, and takes none away.
proof fn lemma_rings_grow(
    table: RingTable,
    placements: Seq<Placement>,
    focused: Option<u64>,
    appearance: Appearance,
    bounds: Rect,
    window: u64,
)
    ensures
        ({
            let after = rings_drawn(table, placements, focused, appearance, bounds);
            &&& table.rings.contains_key(window) ==> after.rings.contains_key(window)
                && after.rings[window].id == table.rings[window].id
            &&& after.rings.contains_key(window) ==> table.rings.contains_key(window)
                || is_arranged(placements, window)
        }),
    decreases placements.len(),
{
    if placements.len() > 0 {
        let earlier = placements.drop_last();
        lemma_rings_grow(table, earlier, focused, appearance, bounds, window);
        if is_arranged(earlier, window) {
            let j = choose|j: int| 0 <= j < earlier.len() && (#[trigger] earlier[j]).id == window;
            assert(placements[j].id == window);
        }
        if placements.last().id == window {
            assert(placements[placements.len() - 1].id == window);
        }
    }
}

/// What one call for square rings is made with.
pub struct SquareFrame {
    pub placements: Seq<Placement>,
    pub focused: Option<u64>,
    pub appearance: Appearance,
    pub bounds: Rect,
}

/// The rings after one call for square rings.
pub open spec fn rings_after(table: RingTable, frame: SquareFrame) -> RingTable {
    rings_drawn(
        table.arranged(frame.placements),
        frame.placements,
        frame.focused,
        frame.appearance,
        frame.bounds,
    )
}

/// The bars that one call for square rings draws.
pub open spec fn bars_of(table: RingTable, frame: SquareFrame) -> Seq<RingBar> {
    square_bars(
        table.arranged(frame.placements),
        frame.placements,
        frame.focused,
        frame.appearance,
        frame.bounds,
    )
}

/// The rings after a call for square rings for each of `frames`, in turn.
pub open spec fn rings_after_all(table: RingTable, frames: Seq<SquareFrame>) -> RingTable
    decreases frames.len(),
{
    if frames.len() == 0 {
        table
    } else {
        rings_after(rings_after_all(table, frames.drop_last()), frames.last())
    }
}

/// Whether `window` is arranged in every one of `frames`.
pub open spec fn stays_arranged(frames: Seq<SquareFrame>, window: u64) -> bool {
    forall|i: int| 0 <= i < frames.len() ==> is_arranged((#[trigger] frames[i]).placements, window)
}

/// Over any number of frames, a ring stays, with its id, for as long as its window is arranged in
/// every one of them, visible or not; and after each frame every ring is that of a window of its
/// arrangement.
pub proof fn an_arranged_window_keeps_its_ring(
    table: RingTable,
    frames: Seq<SquareFrame>,
    window: u64,
)
    ensures
        ({
            let after = rings_after_all(table, frames);
            &&& table.rings.contains_key(window) && stays_arranged(frames, window) ==> {
                &&& after.rings.contains_key(window)
                &&& after.rings[window].id == table.rings[window].id
            }
            &&& frames.len() > 0 && after.rings.contains_key(window) ==> is_arranged(
                frames.last().placements,
                window,
            )
        }),
    decreases frames.len(),
{
    if frames.len() > 0 {
        let earlier = frames.drop_last();
        let last = frames.last();
        an_arranged_window_keeps_its_ring(table, earlier, window);
        if stays_arranged(frames, window) {
            assert forall|i: int| 0 <= i < earlier.len() implies is_arranged(
                (#[trigger] earlier[i]).placements,
                window,
            ) by {
                assert(is_arranged(frames[i].placements, window));
            }
            assert(is_arranged(frames[frames.len() - 1].placements, window));
        }
        square_rings_belong_to_arranged_windows(
            rings_after_all(table, earlier),
            last.placements,
            last.focused,
            last.appearance,
            last.bounds,
            window,
        );
    }
}

/// The bar at a side of a ring.
pub open spec fn bar_at(ring: WindowRing, side: Side) -> Bar {
    match side {
        Side::Top => ring.top,
        Side::Bottom => ring.bottom,
        Side::Left => ring.left,
        Side::Right => ring.right,
    }
}

/// Whether no window is placed twice.
pub open spec fn placed_once(placements: Seq<Placement>) -> bool {
    forall|i: int, j: int|
        0 <= i < j < placements.len() ==> (#[trigger] placements[i]).id != (
        #[trigger] placements[j]).id
}

/// Every bar that is drawn is drawn under the id of its window's ring.
pub proof fn every_bar_has_its_rings_id(
    table: RingTable,
    placements: Seq<Placement>,
    focused: Option<u64>,
    appearance: Appearance,
    bounds: Rect,
    i: int,
)
    requires
        0 <= i < square_bars(table, placements, focused, appearance, bounds).len(),
    ensures
        ({
            let bar = square_bars(table, placements, focused, appearance, bounds)[i];
            let after = rings_drawn(table, placements, focused, appearance, bounds);
            &&& after.rings.contains_key(bar.window)
            &&& bar.ring == after.rings[bar.window].id
        }),
    decreases placements.len(),
{
    let rest = placements.drop_last();
    let earlier = square_bars(table, rest, focused, appearance, bounds);
    if i < earlier.len() {
        every_bar_has_its_rings_id(table, rest, focused, appearance, bounds, i);
    }
}

/// Where no window is placed twice, every bar that is drawn is the bar that its window's ring keeps
/// at that side.
pub proof fn every_bar_is_its_rings_own(
    table: RingTable,
    placements: Seq<Placement>,
    focused: Option<u64>,
    appearance: Appearance,
    bounds: Rect,
    i: int,
)
    requires
        placed_once(placements),
        0 <= i < square_bars(table, placements, focused, appearance, bounds).len(),
    ensures
        ({
            let bar = square_bars(table, placements, focused, appearance, bounds)[i];
            let after = rings_drawn(table, placements, focused, appearance, bounds);
            &&& after.rings.contains_key(bar.window)
            &&& bar.ring == after.rings[bar.window].id
            &&& bar_at(after.rings[bar.window], bar.side) == (Bar {
                w: bar.rect.w,
                h: bar.rect.h,
                color: bar.color,
            })
        }),
    decreases placements.len(),
{
    let rest = placements.drop_last();
    let last = placements.last();
    let earlier = square_bars(table, rest, focused, appearance, bounds);
    let bar = square_bars(table, placements, focused, appearance, bounds)[i];
    if i < earlier.len() {
        every_bar_is_its_rings_own(table, rest, focused, appearance, bounds, i);
        every_bar_has_its_windows_color(table, rest, focused, appearance, bounds, i);
        let j = choose|j: int|
            0 <= j < rest.len() && (#[trigger] rest[j]).id == bar.window && rest[j].visible;
        assert(placements[j].id != placements[placements.len() - 1].id);
    } else {
        let drawn = rings_drawn(table, rest, focused, appearance, bounds);
        let ring = drawn.ring_of(last.id).id;
        let rects = ring_around(last.rect, appearance.focus_ring_width, bounds);
        let color = ring_color_of(focused, last.id, appearance);
        let bars = placement_bars(drawn, last, focused, appearance, bounds);
        assert(bar == bars[i - earlier.len()]);
        assert(bars == drawn_ring(last.id, ring, rects, color));
        let top = drawn_bar(last.id, ring, Side::Top, rects.top, color);
        let bottom = drawn_bar(last.id, ring, Side::Bottom, rects.bottom, color);
        let left = drawn_bar(last.id, ring, Side::Left, rects.left, color);
        let right = drawn_bar(last.id, ring, Side::Right, rects.right, color);
        assert(bars =~= top + bottom + left + right);
    }
}

/// A window that is arranged in every frame from `first` on is drawn with the same elements in the
/// first and in the last of them: whatever its bars there, each side is drawn under the same id,
/// even if the window was hidden or out of bounds in between.
pub proof fn an_arranged_window_keeps_its_elements(
    table: RingTable,
    first: SquareFrame,
    between: Seq<SquareFrame>,
    last: SquareFrame,
    i: int,
    j: int,
)
    requires
        0 <= i < bars_of(table, first).len(),
        0 <= j < bars_of(rings_after_all(rings_after(table, first), between), last).len(),
        ({
            let shown = bars_of(table, first)[i];
            let again = bars_of(rings_after_all(rings_after(table, first), between), last)[j];
            again.window == shown.window && stays_arranged(between, shown.window)
        }),
    ensures
        bars_of(rings_after_all(rings_after(table, first), between), last)[j].ring == bars_of(
            table,
            first,
        )[i].ring,
{
    let window = bars_of(table, first)[i].window;
    let shown = rings_after(table, first);
    let before = rings_after_all(shown, between);
    every_bar_has_its_rings_id(
        table.arranged(first.placements),
        first.placements,
        first.focused,
        first.appearance,
        first.bounds,
        i,
    );
    an_arranged_window_keeps_its_ring(shown, between, window);
    every_bar_has_its_rings_id(
        before.arranged(last.placements),
        last.placements,
        last.focused,
        last.appearance,
        last.bounds,
        j,
    );
    every_bar_has_its_windows_color(
        before.arranged(last.placements),
        last.placements,
        last.focused,
        last.appearance,
        last.bounds,
        j,
    );
    assert(is_arranged(last.placements, window));
    square_rings_belong_to_arranged_windows(
        before,
        last.placements,
        last.focused,
        last.appearance,
        last.bounds,
        window,
    );
}

/// Whether no two rings have the same id, nor one the id of the next.
pub open spec fn told_apart(table: RingTable) -> bool {
    &&& forall|window: u64| #[trigger]
        table.rings.contains_key(window) ==> table.rings[window].id < table.next
    &&& forall|a: u64, b: u64| #[trigger]
        table.rings.contains_key(a) && #[trigger] table.rings.contains_key(b) && a != b
            ==> table.rings[a].id != table.rings[b].id
}

/// Rings are told apart by their ids, from the first frame to the last; a window that comes back
/// after it was closed has a ring of its own, with an id that was never given. Until the ids wrap.
pub proof fn rings_stay_told_apart(table: RingTable, frame: SquareFrame)
    requires
        told_apart(table),
        table.next + frame.placements.len() <= u64::MAX,
    ensures
        told_apart(rings_after(table, frame)),
        table.next <= rings_after(table, frame).next <= table.next + frame.placements.len(),
        forall|window: u64| #[trigger]
            rings_after(table, frame).rings.contains_key(window) && !table.rings.contains_key(
                window,
            ) ==> rings_after(table, frame).rings[window].id >= table.next,
{
    lemma_told_apart(
        table.arranged(frame.placements),
        frame.placements,
        frame.focused,
        frame.appearance,
        frame.bounds,
    );
}

proof fn lemma_told_apart(
    table: RingTable,
    placements: Seq<Placement>,
    focused: Option<u64>,
    appearance: Appearance,
    bounds: Rect,
)
    requires
        told_apart(table),
        table.next + placements.len() <= u64::MAX,
    ensures
        ({
            let after = rings_drawn(table, placements, focused, appearance, bounds);
            &&& told_apart(after)
            &&& table.next <= after.next <= table.next + placements.len()
            &&& forall|window: u64| #[trigger]
                after.rings.contains_key(window) && !table.rings.contains_key(window)
                    ==> after.rings[window].id >= table.next
        }),
    decreases placements.len(),
{
    if placements.len() > 0 {
        let earlier = placements.drop_last();
        lemma_told_apart(table, earlier, focused, appearance, bounds);
    }
}

/// Only arranged windows have buffers after rounded rings are drawn, and a window that had bars
/// keeps them, and their id, for as long as it is arranged.
pub proof fn rounded_rings_belong_to_arranged_windows<L, M, E>(
    decorations: Decorations<L, M>,
    placements: Seq<Placement>,
    focused: Option<u64>,
    style: RingStyle,
    seen: Seq<RingSeen<L, M, E>>,
    window: u64,
)
    requires
        seen.len() == placements.len(),
    ensures
        ({
            let after = frame_drawn(
                frame_begun(decorations, placements),
                placements,
                focused,
                style,
                seen,
            );
            &&& after.table.rings.contains_key(window) ==> is_arranged(placements, window)
            &&& is_arranged(placements, window) && decorations.rings@.contains_key(window) ==> {
                &&& after.table.rings.contains_key(window)
                &&& after.table.rings[window].id == decorations.rings@[window].id
            }
            &&& after.painted.contains_key(window) ==> is_arranged(placements, window)
        }),
{
    lemma_frame_grows(
        frame_begun(decorations, placements),
        placements,
        focused,
        style,
        seen,
        window,
    );
}

/// Drawing rounded rings adds entries for arranged windows only, and takes no bars away.
proof fn lemma_frame_grows<L, M, E>(
    frame: Frame<L, M, E>,
    placements: Seq<Placement>,
    focused: Option<u64>,
    style: RingStyle,
    seen: Seq<RingSeen<L, M, E>>,
    window: u64,
)
    requires
        seen.len() == placements.len(),
    ensures
        ({
            let after = frame_drawn(frame, placements, focused, style, seen);
            &&& frame.table.rings.contains_key(window) ==> after.table.rings.contains_key(window)
                && after.table.rings[window].id == frame.table.rings[window].id
            &&& after.table.rings.contains_key(window) ==> frame.table.rings.contains_key(window)
                || is_arranged(placements, window)
            &&& after.painted.contains_key(window) ==> frame.painted.contains_key(window)
                || is_arranged(placements, window)
        }),
    decreases placements.len(),
{
    if placements.len() > 0 {
        let earlier = placements.drop_last();
        lemma_frame_grows(frame, earlier, focused, style, seen.drop_last(), window);
        if is_arranged(earlier, window) {
            let j = choose|j: int| 0 <= j < earlier.len() && (#[trigger] earlier[j]).id == window;
            assert(placements[j].id == window);
        }
        if placements.last().id == window {
            assert(placements[placements.len() - 1].id == window);
        }
    }
}

/// Every bar that is drawn is around a visible window, in the color of that window's focus: when
/// the focus moves, both the ring that gains it and the ring that loses it change.
pub proof fn every_bar_has_its_windows_color(
    table: RingTable,
    placements: Seq<Placement>,
    focused: Option<u64>,
    appearance: Appearance,
    bounds: Rect,
    i: int,
)
    requires
        0 <= i < square_bars(table, placements, focused, appearance, bounds).len(),
    ensures
        ({
            let bar = square_bars(table, placements, focused, appearance, bounds)[i];
            &&& bar.color == ring_color_of(focused, bar.window, appearance)
            &&& exists|j: int|
                0 <= j < placements.len() && (#[trigger] placements[j]).id == bar.window
                    && placements[j].visible
        }),
    decreases placements.len(),
{
    let earlier = square_bars(table, placements.drop_last(), focused, appearance, bounds);
    if i < earlier.len() {
        every_bar_has_its_windows_color(table, placements.drop_last(), focused, appearance, bounds, i);
        let bar = earlier[i];
        let j = choose|j: int|
            0 <= j < placements.drop_last().len() && (#[trigger] placements.drop_last()[j]).id
                == bar.window && placements.drop_last()[j].visible;
        assert(placements[j].id == bar.window && placements[j].visible);
    } else {
        assert(placements[placements.len() - 1] == placements.last());
    }
}

/// A visible window whose ring is all in bounds is drawn with four bars, in order.
pub proof fn a_whole_ring_has_four_bars(
    table: RingTable,
    placement: Placement,
    focused: Option<u64>,
    appearance: Appearance,
    bounds: Rect,
)
    requires
        placement.visible,
        ({
            let rects = ring_around(placement.rect, appearance.focus_ring_width, bounds);
            rects.top is Some && rects.bottom is Some && rects.left is Some && rects.right is Some
        }),
    ensures
        ({
            let bars = placement_bars(table, placement, focused, appearance, bounds);
            &&& bars.len() == 4
            &&& bars[0].side == Side::Top
            &&& bars[1].side == Side::Bottom
            &&& bars[2].side == Side::Left
            &&& bars[3].side == Side::Right
        }),
{
}

/// A window that only moves is not painted again: its strips keep their buffers and are drawn
/// elsewhere.
pub proof fn a_move_paints_nothing<L, M>(
    ring: PaintedRing<L, M>,
    key: PaintedKey,
    plan: StripPlan<L>,
    build: BuildSeen<M>,
)
    requires
        ring.key == Some(key),
        strips_still_fit(ring, Some(plan)),
    ensures
        !repaints(ring, key, Some(plan)),
        ({
            let after = brought_up_to_date(ring, key, Some(plan), build);
            &&& after.top == ring.top
            &&& after.bottom == ring.bottom
            &&& after.key == ring.key
            &&& (after.top_at->0).loc == plan.top.loc
            &&& (after.bottom_at->0).loc == plan.bottom.loc
            &&& (after.top_at->0).canvas == (ring.top_at->0).canvas
            &&& (after.bottom_at->0).canvas == (ring.bottom_at->0).canvas
        }),
{
}

/// A ring that was given up is left alone, without asking for a plan or painting, until something
/// that its pixels depend on changes; and then it is tried again.
pub proof fn a_ring_that_was_given_up_waits<L, M>(
    ring: PaintedRing<L, M>,
    key: PaintedKey,
    other: PaintedKey,
    plan: Option<StripPlan<L>>,
    build: BuildSeen<M>,
)
    requires
        ring.key == Some(key),
        key != other,
    ensures
        !asks_for_a_plan(given_up(ring), key),
        brought_up_to_date(given_up(ring), key, plan, build) == given_up(ring),
        !is_painted(given_up(ring)),
        repaints(given_up(ring), other, plan),
{
}

/// Whether `ring` has both strips and knows where to draw them, or has nothing.
pub open spec fn is_whole<L, M>(ring: PaintedRing<L, M>) -> bool {
    ||| is_painted(ring)
    ||| ring.top is None && ring.bottom is None && ring.top_at is None && ring.bottom_at is None
}

/// The strips of a window come and go together.
pub proof fn strips_come_and_go_together<L, M>(
    ring: PaintedRing<L, M>,
    key: PaintedKey,
    plan: Option<StripPlan<L>>,
    build: BuildSeen<M>,
)
    requires
        is_whole(ring),
    ensures
        is_whole(unpainted::<L, M>()),
        is_whole(brought_up_to_date(ring, key, plan, build)),
        is_whole(given_up(ring)),
        brought_up_to_date(ring, key, plan, build).key == Some(key),
{
}

/// A rounded ring that can be drawn has two strips before its bars, and one that cannot has the
/// bars of the square ring: a visible window is never left without a ring.
pub proof fn a_window_has_a_ring_either_way<L, M, E>(
    frame: Frame<L, M, E>,
    window: u64,
    rect: Rect,
    color: Color,
    style: RingStyle,
    seen: RingSeen<L, M, E>,
)
    requires
        style.appearance.focus_ring_width > 0,
    ensures
        ({
            let rects = ring_around(rect, style.appearance.focus_ring_width, style.bounds);
            let added = window_drawn(frame, window, rect, color, style, seen).elements.skip(
                frame.elements.len() as int,
            );
            ||| {
                &&& seen.top is Some
                &&& seen.bottom is Some
                &&& added == seq![
                    RingElement::Painted(seen.top->0),
                    RingElement::Painted(seen.bottom->0),
                ] + as_elements(drawn_sides(window, frame.table.ring_of(window).id, rects, color))
            }
            ||| added == as_elements::<E>(drawn_ring(window, frame.table.ring_of(window).id, rects, color))
        }),
{
    let rects = ring_around(rect, style.appearance.focus_ring_width, style.bounds);
    let after = window_drawn(frame, window, rect, color, style, seen);
    let added = after.elements.skip(frame.elements.len() as int);
    let key = painted_key(rect, style.appearance, color, style.scale_bits);
    let ring = brought_up_to_date(strips_in(frame.painted, window), key, seen.plan, seen.build);
    if is_painted(ring) && seen.top is Some && seen.bottom is Some {
        assert(added =~= seq![
            RingElement::Painted(seen.top->0),
            RingElement::Painted(seen.bottom->0),
        ] + as_elements(drawn_sides(window, frame.table.ring_of(window).id, rects, color)));
    } else {
        assert(added =~= as_elements::<E>(drawn_ring(window, frame.table.ring_of(window).id, rects, color)));
    }
}

/// The strips of a window are painted in the color of its focus, the one that its side bars are
/// drawn in: byte by byte the premultiplied blue, green and red of it, and its alpha. They are
/// painted for the window's size, the ring's width, the corners' radius and the output's scale, and
/// anew wherever one of these or the color is another than they were painted for.
pub proof fn strips_are_painted_in_the_color_of_the_bars<L, M, E, P, R, D, C, F, U, I>(
    frame: Frame<L, M, E>,
    placement: Placement,
    focused: Option<u64>,
    style: RingStyle,
    seen: RingSeen<L, M, E>,
    scale: OutputScale<P, R, D, C>,
    paint: F,
    upload: U,
    import: I,
) where
    P: Fn(Rect, i32, i32) -> RingMeasures<L>,
    R: Fn(i32) -> i32,
    D: Fn(L, i32) -> L,
    C: Fn(L, Size) -> Size,
    F: Fn(Vec<u8>, RingPaint, [u8; 4]) -> Vec<u8>,
    U: Fn(&Vec<u8>, Size) -> M,
    I: Fn(&M, StripGeometry<L>) -> Option<E>,

    requires
        placement_seen(frame, placement, focused, style, seen, scale, paint, upload, import),
        placement.visible,
        style.appearance.focus_ring_width > 0,
    ensures
        ({
            let after = placement_drawn(frame, placement, focused, style, seen);
            let color = if focused == Some(placement.id) {
                style.appearance.focus_ring_active_color
            } else {
                style.appearance.focus_ring_inactive_color
            };
            let painted_for = after.painted[placement.id].key;
            let key = painted_for->0;
            let anew = !frame.painted.contains_key(placement.id) || frame.painted[placement.id].key
                != painted_for;
            &&& after.painted.contains_key(placement.id)
            &&& painted_for is Some
            &&& key.color[0] == nearest_byte(color.b * color.a, 2_550_000)
            &&& key.color[1] == nearest_byte(color.g * color.a, 2_550_000)
            &&& key.color[2] == nearest_byte(color.r * color.a, 2_550_000)
            &&& key.color[3] == nearest_byte(color.a as int, 100)
            &&& key.w == placement.rect.w
            &&& key.h == placement.rect.h
            &&& key.thickness == style.appearance.focus_ring_width
            &&& key.radius == style.appearance.corner_radius
            &&& key.scale_bits == style.scale_bits
            &&& anew ==> ring_planned(
                scale,
                placement.rect,
                style.appearance.focus_ring_width,
                style.appearance.corner_radius,
                seen.plan,
            )
            &&& anew && seen.plan is Some ==> build_seen(
                seen.plan->0,
                key.color,
                seen.build,
                paint,
                upload,
            )
        }),
{
    let color = ring_color_of(focused, placement.id, style.appearance);
    a_pixel_is_blue_green_red_and_alpha(color);
}

/// A ring keeps its strips from frame to frame exactly while its window's size, its width, its
/// radius, the pixel of its color and the scale are the same, wherever the window goes, as long as
/// the plan for it has the canvases that the strips have; otherwise they are painted anew. A ring
/// that was given up is left alone for as long as those are the same.
pub proof fn strips_are_kept_while_their_pixels_are_the_same<L, M>(
    ring: PaintedRing<L, M>,
    painted_at: Rect,
    rect: Rect,
    painted_as: Appearance,
    appearance: Appearance,
    painted_in: Color,
    color: Color,
    painted_scale: u64,
    scale_bits: u64,
    plan: Option<StripPlan<L>>,
)
    requires
        ring.key == Some(painted_key(painted_at, painted_as, painted_in, painted_scale)),
        is_whole(ring),
    ensures
        ({
            let key = painted_key(rect, appearance, color, scale_bits);
            let same = {
                &&& rect.w == painted_at.w
                &&& rect.h == painted_at.h
                &&& appearance.focus_ring_width == painted_as.focus_ring_width
                &&& appearance.corner_radius == painted_as.corner_radius
                &&& pixel_of(color) == pixel_of(painted_in)
                &&& scale_bits == painted_scale
            };
            let fits = {
                &&& plan is Some
                &&& ring.top_at is Some
                &&& (ring.top_at->0).canvas == (plan->0).top.canvas
                &&& (ring.bottom_at->0).canvas == (plan->0).bottom.canvas
            };
            &&& !same ==> repaints(ring, key, plan)
            &&& same && ring.top_at is Some ==> repaints(ring, key, plan) == !fits
            &&& same && ring.top_at is None ==> !repaints(ring, key, plan) && !asks_for_a_plan(
                ring,
                key,
            )
        }),
{
}

/// What a frame makes of a ring's strips: painted anew they are where the plan has them, and none
/// without a plan; kept they are moved to where the plan has them.
pub proof fn strips_follow_their_plan<L, M>(
    ring: PaintedRing<L, M>,
    key: PaintedKey,
    plan: Option<StripPlan<L>>,
    build: BuildSeen<M>,
)
    ensures
        ({
            let after = brought_up_to_date(ring, key, plan, build);
            &&& after.key == Some(key)
            &&& repaints(ring, key, plan) && plan is Some ==> {
                &&& after.top == Some(build.top)
                &&& after.bottom == Some(build.bottom)
                &&& after.top_at == Some((plan->0).top)
                &&& after.bottom_at == Some((plan->0).bottom)
            }
            &&& repaints(ring, key, plan) && plan is None ==> !is_painted(after) && after.top is None
                && after.bottom is None
            &&& !repaints(ring, key, plan) ==> after.top == ring.top && after.bottom == ring.bottom
            &&& !repaints(ring, key, plan) && asks_for_a_plan(ring, key) ==> {
                &&& (after.top_at->0).loc == (plan->0).top.loc
                &&& (after.bottom_at->0).loc == (plan->0).bottom.loc
            }
            &&& !repaints(ring, key, plan) && !asks_for_a_plan(ring, key) ==> after == ring
        }),
{
}

/// The elements of a painted ring are made of its own strips, each where it is: the top one first,
/// then the bottom one, then the bars beside the window. A ring that the renderer refuses any strip
/// of is drawn square and given up.
pub proof fn a_painted_ring_shows_its_own_strips<L, M, E, P, R, D, C, F, U, I>(
    frame: Frame<L, M, E>,
    placement: Placement,
    focused: Option<u64>,
    style: RingStyle,
    seen: RingSeen<L, M, E>,
    scale: OutputScale<P, R, D, C>,
    paint: F,
    upload: U,
    import: I,
) where
    P: Fn(Rect, i32, i32) -> RingMeasures<L>,
    R: Fn(i32) -> i32,
    D: Fn(L, i32) -> L,
    C: Fn(L, Size) -> Size,
    F: Fn(Vec<u8>, RingPaint, [u8; 4]) -> Vec<u8>,
    U: Fn(&Vec<u8>, Size) -> M,
    I: Fn(&M, StripGeometry<L>) -> Option<E>,

    requires
        placement_seen(frame, placement, focused, style, seen, scale, paint, upload, import),
        placement.visible,
        style.appearance.focus_ring_width > 0,
    ensures
        ({
            let after = placement_drawn(frame, placement, focused, style, seen);
            let strips = after.painted[placement.id];
            let n = frame.elements.len() as int;
            &&& after.elements.len() >= n
            &&& after.elements.take(n) == frame.elements
            &&& is_painted(strips) ==> {
                &&& seen.top is Some
                &&& seen.bottom is Some
                &&& call_ensures(import, (&(strips.top->0), strips.top_at->0), seen.top)
                &&& call_ensures(import, (&(strips.bottom->0), strips.bottom_at->0), seen.bottom)
                &&& after.elements.len() >= n + 2
                &&& after.elements[n] == RingElement::Painted(seen.top->0)
                &&& after.elements[n + 1] == RingElement::Painted(seen.bottom->0)
                &&& forall|i: int|
                    n + 2 <= i < after.elements.len() ==> (#[trigger] after.elements[i]) is Rect
            }
            &&& !is_painted(strips) ==> forall|i: int|
                n <= i < after.elements.len() ==> (#[trigger] after.elements[i]) is Rect
        }),
{
    let after = placement_drawn(frame, placement, focused, style, seen);
    assert(after.elements.take(frame.elements.len() as int) =~= frame.elements);
}

/// The bars that are drawn of a window's ring are its segments, each under its own side, in the
/// color of the window's focus: the left and the right one beside painted strips, and all four in
/// order, the top and the bottom one first, of a square ring.
pub proof fn a_bar_is_drawn_for_each_segment(
    window: u64,
    ring: u64,
    rects: RingRects,
    color: Color,
    bar: RingBar,
)
    ensures
        ({
            let segment = match bar.side {
                Side::Top => rects.top,
                Side::Bottom => rects.bottom,
                Side::Left => rects.left,
                Side::Right => rects.right,
            };
            let own = {
                &&& bar.window == window
                &&& bar.ring == ring
                &&& bar.color == color
                &&& segment == Some(bar.rect)
            };
            &&& drawn_ring(window, ring, rects, color).contains(bar) <==> own
            &&& drawn_sides(window, ring, rects, color).contains(bar) <==> own && (bar.side
                is Left || bar.side is Right)
        }),
{
    let top = drawn_bar(window, ring, Side::Top, rects.top, color);
    let bottom = drawn_bar(window, ring, Side::Bottom, rects.bottom, color);
    let left = drawn_bar(window, ring, Side::Left, rects.left, color);
    let right = drawn_bar(window, ring, Side::Right, rects.right, color);
    let sides = drawn_sides(window, ring, rects, color);
    let all = drawn_ring(window, ring, rects, color);
    assert(sides =~= left + right);
    assert(all =~= top + bottom + left + right);
    if rects.left is Some {
        assert(left[0] == sides[0]);
        assert(all[(top + bottom).len() as int] == left[0]);
    }
    if rects.right is Some {
        assert(sides[left.len() as int] == right[0]);
        assert(all[(top + bottom + left).len() as int] == right[0]);
    }
    if rects.top is Some {
        assert(all[0] == top[0]);
    }
    if rects.bottom is Some {
        assert(all[top.len() as int] == bottom[0]);
    }
}

/// Drawing a window's square ring gives each of its bars the size of its segment and the color of
/// the window's focus, and empties the bar of a side that is out of bounds, which keeps its color.
/// Beside painted strips the left and the right bar are so, and the other two stay as they were. The
/// ring keeps its id, and no other window's ring is touched.
pub proof fn a_ring_keeps_a_bar_for_each_segment(
    ring: WindowRing,
    rects: RingRects,
    color: Color,
    side: Side,
)
    ensures
        ({
            let segment = match side {
                Side::Top => rects.top,
                Side::Bottom => rects.bottom,
                Side::Left => rects.left,
                Side::Right => rects.right,
            };
            let square = bar_at(ring_for(ring, rects, color), side);
            let beside = bar_at(sides_for(ring, rects, color), side);
            let before = bar_at(ring, side);
            &&& segment is Some ==> square.w == (segment->0).w && square.h == (segment->0).h
                && square.color == color
            &&& segment is None ==> square.w == 0 && square.h == 0 && square.color == before.color
            &&& beside == if side is Left || side is Right {
                square
            } else {
                before
            }
            &&& ring_for(ring, rects, color).id == ring.id
            &&& sides_for(ring, rects, color).id == ring.id
        }),
{
}

/// A visible window's ring is drawn in the color of its focus: the active color exactly where it is
/// the focused window. A window that is not visible draws nothing and keeps its ring; and drawing
/// one window's ring touches no other's.
pub proof fn only_the_focused_window_has_the_active_color(
    table: RingTable,
    placement: Placement,
    focused: Option<u64>,
    appearance: Appearance,
    bounds: Rect,
    other: u64,
    i: int,
)
    ensures
        ({
            let bars = placement_bars(table, placement, focused, appearance, bounds);
            let after = ring_drawn(table, placement, focused, appearance, bounds);
            &&& !placement.visible ==> bars.len() == 0 && after == table
            &&& 0 <= i < bars.len() ==> {
                &&& bars[i].window == placement.id
                &&& focused == Some(placement.id) ==> bars[i].color
                    == appearance.focus_ring_active_color
                &&& focused != Some(placement.id) ==> bars[i].color
                    == appearance.focus_ring_inactive_color
            }
            &&& other != placement.id ==> after.rings.contains_key(other)
                == table.rings.contains_key(other) && after.rings[other] == table.rings[other]
            &&& placement.visible ==> after.rings.contains_key(placement.id)
        }),
{
}

/// Windows that are arranged keep what they have from one frame to the next, and no other window
/// does.
pub proof fn only_arranged_windows_keep_their_buffers<V>(
    map: Map<u64, V>,
    placements: Seq<Placement>,
    window: u64,
)
    ensures
        arranged_part(map, placements).contains_key(window) <==> map.contains_key(window) && exists|
            i: int,
        |
            0 <= i < placements.len() && (#[trigger] placements[i]).id == window,
        arranged_part(map, placements).contains_key(window) ==> arranged_part(
            map,
            placements,
        )[window] == map[window],
{
}

/// Every bar of a frame of square rings is a segment of the ring around a visible window, on the
/// side it is named for; and every segment in bounds of a visible window's ring is drawn.
pub proof fn the_segments_of_visible_windows_are_drawn(
    table: RingTable,
    placements: Seq<Placement>,
    focused: Option<u64>,
    appearance: Appearance,
    bounds: Rect,
    window: u64,
    side: Side,
    rect: Rect,
)
    ensures
        shows_bar(
            square_bars(table, placements, focused, appearance, bounds),
            window,
            side,
            rect,
        ) <==> exists|j: int|
            {
                &&& 0 <= j < placements.len()
                &&& (#[trigger] placements[j]).visible
                &&& placements[j].id == window
                &&& segment_on(
                    ring_around(placements[j].rect, appearance.focus_ring_width, bounds),
                    side,
                ) == Some(rect)
            },
    decreases placements.len(),
{
    let width = appearance.focus_ring_width;
    let bars = square_bars(table, placements, focused, appearance, bounds);
    if placements.len() > 0 {
        let rest = placements.drop_last();
        let last = placements.last();
        let earlier = square_bars(table, rest, focused, appearance, bounds);
        let drawn = rings_drawn(table, rest, focused, appearance, bounds);
        let own = placement_bars(drawn, last, focused, appearance, bounds);
        the_segments_of_visible_windows_are_drawn(
            table,
            rest,
            focused,
            appearance,
            bounds,
            window,
            side,
            rect,
        );
        assert(bars == earlier + own);
        let ring = drawn.ring_of(last.id).id;
        let color = ring_color_of(focused, last.id, appearance);
        let rects = ring_around(last.rect, width, bounds);
        let bar = RingBar { window: last.id, ring, side, rect, color };
        a_bar_is_drawn_for_each_segment(last.id, ring, rects, color, bar);
        if shows_bar(bars, window, side, rect) {
            let i = choose|i: int| {
                &&& 0 <= i < bars.len()
                &&& (#[trigger] bars[i]).window == window
                &&& bars[i].side == side
                &&& bars[i].rect == rect
            };
            if i < earlier.len() {
                assert(earlier[i] == bars[i]);
                let j = choose|j: int| {
                    &&& 0 <= j < rest.len()
                    &&& (#[trigger] rest[j]).visible
                    &&& rest[j].id == window
                    &&& segment_on(ring_around(rest[j].rect, width, bounds), side) == Some(rect)
                };
                assert(placements[j] == rest[j]);
            } else {
                assert(own[i - earlier.len()] == bars[i]);
                a_bar_is_drawn_for_each_segment(last.id, ring, rects, color, bars[i]);
                assert(own.contains(bars[i]));
                assert(placements[placements.len() - 1] == last);
            }
        }
        if exists|j: int| {
            &&& 0 <= j < placements.len()
            &&& (#[trigger] placements[j]).visible
            &&& placements[j].id == window
            &&& segment_on(ring_around(placements[j].rect, width, bounds), side) == Some(rect)
        } {
            let j = choose|j: int| {
                &&& 0 <= j < placements.len()
                &&& (#[trigger] placements[j]).visible
                &&& placements[j].id == window
                &&& segment_on(ring_around(placements[j].rect, width, bounds), side) == Some(rect)
            };
            if j < rest.len() {
                assert(rest[j] == placements[j]);
                let i = choose|i: int| {
                    &&& 0 <= i < earlier.len()
                    &&& (#[trigger] earlier[i]).window == window
                    &&& earlier[i].side == side
                    &&& earlier[i].rect == rect
                };
                assert(bars[i] == earlier[i]);
            } else {
                assert(own.contains(bar));
                let i = choose|i: int| 0 <= i < own.len() && own[i] == bar;
                assert(bars[earlier.len() + i] == bar);
            }
        }
    }
}

/// Whether one of `bars` is at `rect`, on `side` of `window`.
pub open spec fn shows_bar(bars: Seq<RingBar>, window: u64, side: Side, rect: Rect) -> bool {
    exists|i: int|
        {
            &&& 0 <= i < bars.len()
            &&& (#[trigger] bars[i]).window == window
            &&& bars[i].side == side
            &&& bars[i].rect == rect
        }
}

/// The segment of a ring on `side`.
pub open spec fn segment_on(rects: RingRects, side: Side) -> Option<Rect> {
    match side {
        Side::Top => rects.top,
        Side::Bottom => rects.bottom,
        Side::Left => rects.left,
        Side::Right => rects.right,
    }
}

/// A window that is not visible adds nothing to a frame of rounded rings, and keeps its bars and
/// its strips; and one window's ring touches no other's bars or strips.
pub proof fn a_rounded_ring_touches_its_own_window_only<L, M, E>(
    frame: Frame<L, M, E>,
    placement: Placement,
    focused: Option<u64>,
    style: RingStyle,
    seen: RingSeen<L, M, E>,
    other: u64,
)
    ensures
        ({
            let after = placement_drawn(frame, placement, focused, style, seen);
            &&& !placement.visible || style.appearance.focus_ring_width <= 0 ==> after == frame
            &&& other != placement.id ==> {
                &&& after.painted.contains_key(other) == frame.painted.contains_key(other)
                &&& after.painted[other] == frame.painted[other]
                &&& after.table.rings.contains_key(other) == frame.table.rings.contains_key(other)
                &&& after.table.rings[other] == frame.table.rings[other]
            }
        }),
{
}

/// A frame of square rings shows exactly the segments in bounds of the rings around its visible
/// windows, each in the color of its window's focus.
pub proof fn a_frame_shows_the_rings_of_its_windows(
    table: RingTable,
    frame: SquareFrame,
    window: u64,
    side: Side,
    rect: Rect,
    i: int,
)
    ensures
        shows_bar(bars_of(table, frame), window, side, rect) <==> exists|j: int|
            {
                &&& 0 <= j < frame.placements.len()
                &&& (#[trigger] frame.placements[j]).visible
                &&& frame.placements[j].id == window
                &&& segment_on(
                    ring_around(
                        frame.placements[j].rect,
                        frame.appearance.focus_ring_width,
                        frame.bounds,
                    ),
                    side,
                ) == Some(rect)
            },
        0 <= i < bars_of(table, frame).len() ==> {
            let bar = bars_of(table, frame)[i];
            &&& frame.focused == Some(bar.window) ==> bar.color
                == frame.appearance.focus_ring_active_color
            &&& frame.focused != Some(bar.window) ==> bar.color
                == frame.appearance.focus_ring_inactive_color
        },
{
    let kept = table.arranged(frame.placements);
    the_segments_of_visible_windows_are_drawn(
        kept,
        frame.placements,
        frame.focused,
        frame.appearance,
        frame.bounds,
        window,
        side,
        rect,
    );
    if 0 <= i < bars_of(table, frame).len() {
        every_bar_has_its_windows_color(
            kept,
            frame.placements,
            frame.focused,
            frame.appearance,
            frame.bounds,
            i,
        );
    }
}

} // verus!
