//! The painted part of a rounded ring: a strip above and a strip below.
//!
//! A rounded ring is drawn as two painted strips, which hold the rows that the arcs touch, and two
//! solid bars between them. The strips are cut from one band on one canvas, so that the strips and
//! the bars agree on every edge. What a strip shows depends on the window's size, the ring's shape,
//! its color and the scale; where it is drawn follows the window, so a move changes no pixel.

use vstd::prelude::*;

use crate::geometry::{max, Rect, Size};

verus! {

/// Where one strip is drawn.
#[derive(Clone, Copy, Debug, PartialEq, Eq)]
pub struct StripGeometry<L> {
    /// Its origin, in exact physical pixels.
    pub loc: L,
    /// Its size in logical pixels.
    pub logical: Size,
    /// Its size in physical pixels, which is that of its buffer.
    pub canvas: Size,
}

/// The measures of a ring at the scale of its output.
#[derive(Clone, Copy, Debug, PartialEq, Eq)]
pub struct RingMeasures<L> {
    /// The ring's origin, in exact physical pixels.
    pub loc: L,
    /// The ring's origin, in whole physical pixels.
    pub origin_x: i32,
    pub origin_y: i32,
    /// The ring's width in logical pixels.
    pub logical_w: i32,
    /// The ring's size in physical pixels.
    pub canvas: Size,
    /// The window in physical pixels.
    pub clip: Rect,
    /// The radius of the window's corners in physical pixels.
    pub radius: i32,
    /// The ring's thickness in physical pixels.
    pub thickness: i32,
}

/// What follows for a window's strips from geometry alone.
#[derive(Clone, Copy, Debug, PartialEq, Eq)]
pub struct StripPlan<L> {
    pub top: StripGeometry<L>,
    pub bottom: StripGeometry<L>,
    /// The size of the whole ring.
    pub canvas: Size,
    /// The window, on the ring's canvas.
    pub inner: Rect,
    /// The ring's outer edge, on the ring's canvas.
    pub outer: Rect,
    pub radius_inner: i32,
    pub radius_outer: i32,
}

/// The band to paint on one strip's canvas.
#[derive(Clone, Copy, Debug, PartialEq, Eq, Structural)]
pub struct RingPaint {
    pub canvas: Size,
    pub outer: Rect,
    pub radius_outer: i32,
    pub inner: Rect,
    pub radius_inner: i32,
}

/// Everything that a strip's pixels depend on.
#[derive(Clone, Copy, Debug, PartialEq, Eq)]
pub struct PaintedKey {
    /// The window's size in logical pixels.
    pub w: i32,
    pub h: i32,
    /// The ring's thickness in logical pixels.
    pub thickness: i32,
    /// The configured radius in logical pixels.
    pub radius: i32,
    /// The ring's color as a pixel.
    pub color: [u8; 4],
    /// The output's scale, bit for bit.
    pub scale_bits: u64,
}

/// The radius of the ring's outer edge.
pub open spec fn outer_radius<L>(measures: RingMeasures<L>) -> int {
    measures.radius + max(measures.thickness as int, 0)
}

/// The rows that a strip has to show: those of the band and those of its arcs.
pub open spec fn strip_rows<L>(measures: RingMeasures<L>) -> int {
    measures.thickness + outer_radius(measures)
}

/// The logical size of a strip that is `rows` logical pixels high, though never less than one.
pub open spec fn strip_size<L>(measures: RingMeasures<L>, rows: i32) -> Size {
    Size { w: measures.logical_w, h: max(rows as int, 1) as i32 }
}

/// Whether the sums that the plan is made of are representable.
pub open spec fn measures_fit<L>(measures: RingMeasures<L>) -> bool {
    &&& i32::MIN <= outer_radius(measures) <= i32::MAX
    &&& i32::MIN <= strip_rows(measures) <= i32::MAX
    &&& i32::MIN <= measures.clip.x - measures.origin_x <= i32::MAX
    &&& i32::MIN <= measures.clip.y - measures.origin_y <= i32::MAX
}

/// What the output's scale made of a plan's measures.
pub struct PlanSeen<L> {
    /// The logical rows that cover the strip's rows.
    pub rows: i32,
    /// The canvas of the top strip.
    pub top: Size,
    /// The origin of the bottom strip.
    pub bottom_loc: L,
    /// The canvas of the bottom strip.
    pub bottom: Size,
}

/// How far below the ring's origin the bottom strip begins.
pub open spec fn bottom_drop<L>(measures: RingMeasures<L>, top: Size) -> int {
    measures.canvas.h - top.h
}

/// Whether `seen` is what the scale made of `measures`.
pub open spec fn plan_seen<L, R, D, C>(
    measures: RingMeasures<L>,
    seen: PlanSeen<L>,
    rows: R,
    lowered: D,
    canvas_at: C,
) -> bool where R: Fn(i32) -> i32, D: Fn(L, i32) -> L, C: Fn(L, Size) -> Size {
    !measures.canvas.no_pixels() ==> {
        &&& call_ensures(rows, (strip_rows(measures) as i32,), seen.rows)
        &&& call_ensures(canvas_at, (measures.loc, strip_size(measures, seen.rows)), seen.top)
        &&& !seen.top.no_pixels() ==> {
            &&& call_ensures(
                lowered,
                (measures.loc, bottom_drop(measures, seen.top) as i32),
                seen.bottom_loc,
            )
            &&& call_ensures(
                canvas_at,
                (seen.bottom_loc, strip_size(measures, seen.rows)),
                seen.bottom,
            )
        }
    }
}

/// The plan for a ring of `measures` where the scale makes of them what `seen` says. There is none
/// where a canvas has no pixels.
pub open spec fn plan_step<L>(measures: RingMeasures<L>, seen: PlanSeen<L>) -> Option<StripPlan<L>> {
    let logical = strip_size(measures, seen.rows);
    if measures.canvas.no_pixels() || seen.top.no_pixels() || seen.bottom.no_pixels() {
        None
    } else {
        Some(
            StripPlan {
                top: StripGeometry { loc: measures.loc, logical, canvas: seen.top },
                bottom: StripGeometry { loc: seen.bottom_loc, logical, canvas: seen.bottom },
                canvas: measures.canvas,
                inner: Rect {
                    x: (measures.clip.x - measures.origin_x) as i32,
                    y: (measures.clip.y - measures.origin_y) as i32,
                    ..measures.clip
                },
                outer: Rect { x: 0, y: 0, w: measures.canvas.w, h: measures.canvas.h },
                radius_inner: measures.radius,
                radius_outer: outer_radius(measures) as i32,
            },
        )
    }
}

/// Whether the scale can be asked what a plan for `measures` takes: the rows of a strip, the canvas
/// of the top strip, and, where that has pixels, the origin and the canvas of the bottom strip.
pub open spec fn can_plan<L, R, D, C>(
    measures: RingMeasures<L>,
    rows: R,
    lowered: D,
    canvas_at: C,
) -> bool where R: Fn(i32) -> i32, D: Fn(L, i32) -> L, C: Fn(L, Size) -> Size {
    &&& call_requires(rows, (strip_rows(measures) as i32,))
    &&& forall|n: i32| #[trigger]
        call_ensures(rows, (strip_rows(measures) as i32,), n) ==> {
            &&& call_requires(canvas_at, (measures.loc, strip_size(measures, n)))
            &&& forall|top: Size| #[trigger]
                call_ensures(canvas_at, (measures.loc, strip_size(measures, n)), top)
                    && !top.no_pixels() ==> {
                    let down = bottom_drop(measures, top) as i32;
                    &&& call_requires(lowered, (measures.loc, down))
                    &&& forall|at: L| #[trigger]
                        call_ensures(lowered, (measures.loc, down), at) ==> call_requires(
                            canvas_at,
                            (at, strip_size(measures, n)),
                        )
                }
        }
}

/// The strips of a ring of `measures`, or `None` where a canvas has no pixels.
///
/// `rows` gives the logical rows that cover a number of physical ones, `lowered` moves an origin
/// down by physical rows, and `canvas_at` gives the physical size of an element of a logical size
/// at an origin. The bottom strip's canvas is measured at its own origin, since rounding depends
/// on where an element stands.
pub fn plan_strips<L: Copy, R, D, C>(
    measures: RingMeasures<L>,
    rows: &R,
    lowered: &D,
    canvas_at: &C,
) -> (plan: Option<StripPlan<L>>) where
    R: Fn(i32) -> i32,
    D: Fn(L, i32) -> L,
    C: Fn(L, Size) -> Size,

    requires
        !measures.canvas.no_pixels() ==> measures_fit(measures) && can_plan(
            measures,
            *rows,
            *lowered,
            *canvas_at,
        ),
    ensures
        exists|seen: PlanSeen<L>| #[trigger]
            plan_seen(measures, seen, *rows, *lowered, *canvas_at) && plan == plan_step(
                measures,
                seen,
            ),
{
    if measures.canvas.is_empty() {
        proof {
            let seen = PlanSeen {
                rows: 0,
                top: measures.canvas,
                bottom_loc: measures.loc,
                bottom: measures.canvas,
            };
            assert(plan_seen(measures, seen, *rows, *lowered, *canvas_at));
        }
        return None;
    }
    let radius_outer: i32 = measures.radius + if measures.thickness > 0 {
        measures.thickness
    } else {
        0
    };
    let inner = Rect::new(
        measures.clip.x - measures.origin_x,
        measures.clip.y - measures.origin_y,
        measures.clip.w,
        measures.clip.h,
    );
    let outer = Rect::new(0, 0, measures.canvas.w, measures.canvas.h);
    let covering: i32 = rows(measures.thickness + radius_outer);
    let logical = Size {
        w: measures.logical_w,
        h: if covering > 1 {
            covering
        } else {
            1
        },
    };
    let top = canvas_at(measures.loc, logical);
    if top.is_empty() {
        proof {
            let seen = PlanSeen { rows: covering, top, bottom_loc: measures.loc, bottom: top };
            assert(plan_seen(measures, seen, *rows, *lowered, *canvas_at));
        }
        return None;
    }
    let bottom_loc = lowered(measures.loc, measures.canvas.h - top.h);
    let bottom = canvas_at(bottom_loc, logical);
    proof {
        let seen = PlanSeen { rows: covering, top, bottom_loc, bottom };
        assert(plan_seen(measures, seen, *rows, *lowered, *canvas_at));
    }
    if bottom.is_empty() {
        return None;
    }
    Some(
        StripPlan {
            top: StripGeometry { loc: measures.loc, logical, canvas: top },
            bottom: StripGeometry { loc: bottom_loc, logical, canvas: bottom },
            canvas: measures.canvas,
            inner,
            outer,
            radius_inner: measures.radius,
            radius_outer,
        },
    )
}

/// What the scale of an output makes of lengths and positions.
pub struct OutputScale<P, R, D, C> {
    /// Measures the ring of a thickness around a window with corners of a radius.
    pub measure: P,
    /// Gives the logical rows that cover a number of physical ones.
    pub rows: R,
    /// Moves an origin down by physical rows.
    pub lowered: D,
    /// Gives the physical size of an element of a logical size at an origin.
    pub canvas_at: C,
}

/// Whether `scale` can be asked what the strips of a window at `rect` take.
pub open spec fn can_plan_ring<L, P, R, D, C>(
    scale: OutputScale<P, R, D, C>,
    rect: Rect,
    thickness: i32,
    radius: i32,
) -> bool where
    P: Fn(Rect, i32, i32) -> RingMeasures<L>,
    R: Fn(i32) -> i32,
    D: Fn(L, i32) -> L,
    C: Fn(L, Size) -> Size,
 {
    &&& call_requires(scale.measure, (rect, thickness, radius))
    &&& forall|measures: RingMeasures<L>| #[trigger]
        call_ensures(scale.measure, (rect, thickness, radius), measures)
            && !measures.canvas.no_pixels() ==> measures_fit(measures) && can_plan(
            measures,
            scale.rows,
            scale.lowered,
            scale.canvas_at,
        )
}

/// Whether `plan` is the plan for the measures that `scale` has of the ring around a window at
/// `rect`.
pub open spec fn ring_planned<L, P, R, D, C>(
    scale: OutputScale<P, R, D, C>,
    rect: Rect,
    thickness: i32,
    radius: i32,
    plan: Option<StripPlan<L>>,
) -> bool where
    P: Fn(Rect, i32, i32) -> RingMeasures<L>,
    R: Fn(i32) -> i32,
    D: Fn(L, i32) -> L,
    C: Fn(L, Size) -> Size,
 {
    exists|measures: RingMeasures<L>, seen: PlanSeen<L>|
        {
            &&& #[trigger] plan_seen(measures, seen, scale.rows, scale.lowered, scale.canvas_at)
            &&& call_ensures(scale.measure, (rect, thickness, radius), measures)
            &&& plan == plan_step(measures, seen)
        }
}

/// The strips of the ring of `thickness` around a window at `rect` with corners of `radius`.
pub fn plan_ring<L: Copy, P, R, D, C>(
    scale: &OutputScale<P, R, D, C>,
    rect: Rect,
    thickness: i32,
    radius: i32,
) -> (plan: Option<StripPlan<L>>) where
    P: Fn(Rect, i32, i32) -> RingMeasures<L>,
    R: Fn(i32) -> i32,
    D: Fn(L, i32) -> L,
    C: Fn(L, Size) -> Size,

    requires
        can_plan_ring::<L, P, R, D, C>(*scale, rect, thickness, radius),
    ensures
        ring_planned(*scale, rect, thickness, radius, plan),
{
    let measure = &scale.measure;
    let measures = measure(rect, thickness, radius);
    plan_strips(measures, &scale.rows, &scale.lowered, &scale.canvas_at)
}

/// One window's painted strips: their buffers, where to draw them and what they were painted for.
/// Without buffers the last attempt to paint them failed, and the window has a square ring until
/// the key changes.
pub struct PaintedRing<L, M> {
    pub top: Option<M>,
    pub bottom: Option<M>,
    pub top_at: Option<StripGeometry<L>>,
    pub bottom_at: Option<StripGeometry<L>>,
    pub key: Option<PaintedKey>,
}

/// A ring for which nothing was ever painted.
pub open spec fn unpainted<L, M>() -> PaintedRing<L, M> {
    PaintedRing { top: None, bottom: None, top_at: None, bottom_at: None, key: None }
}

/// `ring` without its strips. What they were for is kept, so that the next attempt waits until
/// that changes.
pub open spec fn given_up<L, M>(ring: PaintedRing<L, M>) -> PaintedRing<L, M> {
    PaintedRing { key: ring.key, ..unpainted() }
}

/// Whether `ring` can be drawn.
pub open spec fn is_painted<L, M>(ring: PaintedRing<L, M>) -> bool {
    ring.top is Some && ring.bottom is Some && ring.top_at is Some && ring.bottom_at is Some
}

/// Whether the strips of `ring` have the sizes that `plan` asks for.
pub open spec fn strips_still_fit<L, M>(
    ring: PaintedRing<L, M>,
    plan: Option<StripPlan<L>>,
) -> bool {
    match (ring.top_at, ring.bottom_at, plan) {
        (Some(top_at), Some(bottom_at), Some(plan)) => top_at.canvas == plan.top.canvas
            && bottom_at.canvas == plan.bottom.canvas,
        _ => false,
    }
}

/// `ring` drawn where `plan` says.
pub open spec fn moved<L, M>(ring: PaintedRing<L, M>, plan: StripPlan<L>) -> PaintedRing<L, M> {
    PaintedRing {
        top_at: Some(StripGeometry { loc: plan.top.loc, ..ring.top_at->0 }),
        bottom_at: Some(StripGeometry { loc: plan.bottom.loc, ..ring.bottom_at->0 }),
        ..ring
    }
}

/// The bytes of a canvas.
pub open spec fn canvas_bytes(canvas: Size) -> int {
    canvas.w * canvas.h * 4
}

/// Whether a buffer for `canvas` has pixels, and its length is representable.
pub open spec fn canvas_fits(canvas: Size) -> bool {
    !canvas.no_pixels() && canvas_bytes(canvas) <= usize::MAX
}

/// The row of the ring's canvas on which the bottom strip begins.
pub open spec fn first_row<L>(plan: StripPlan<L>) -> int {
    plan.canvas.h - plan.bottom.canvas.h
}

/// Whether the strips of `plan` can be painted: their buffers, and the rows that the bottom strip
/// is cut from, are representable.
pub open spec fn plan_fits<L>(plan: StripPlan<L>) -> bool {
    &&& canvas_fits(plan.top.canvas)
    &&& canvas_fits(plan.bottom.canvas)
    &&& i32::MIN <= first_row(plan) <= i32::MAX
    &&& i32::MIN <= plan.outer.y - first_row(plan) <= i32::MAX
    &&& i32::MIN <= plan.inner.y - first_row(plan) <= i32::MAX
}

/// What is painted on the top strip: the first rows of the band.
pub open spec fn top_paint<L>(plan: StripPlan<L>) -> RingPaint {
    RingPaint {
        canvas: plan.top.canvas,
        outer: plan.outer,
        radius_outer: plan.radius_outer,
        inner: plan.inner,
        radius_inner: plan.radius_inner,
    }
}

/// What is painted on the bottom strip: the last rows of the band, moved up to the strip's own
/// first row.
pub open spec fn bottom_paint<L>(plan: StripPlan<L>) -> RingPaint {
    RingPaint {
        canvas: plan.bottom.canvas,
        outer: Rect { y: (plan.outer.y - first_row(plan)) as i32, ..plan.outer },
        radius_outer: plan.radius_outer,
        inner: Rect { y: (plan.inner.y - first_row(plan)) as i32, ..plan.inner },
        radius_inner: plan.radius_inner,
    }
}

/// Whether `painted` is what `paint` makes of a blank buffer for the band `band`.
pub open spec fn painted_on_blank<F>(paint: F, band: RingPaint, color: [u8; 4], painted: Vec<u8>) -> bool where
    F: Fn(Vec<u8>, RingPaint, [u8; 4]) -> Vec<u8>,
 {
    exists|blank: Vec<u8>|
        {
            &&& #[trigger] is_blank(blank@, band.canvas)
            &&& call_ensures(paint, (blank, band, color), painted)
        }
}

/// Whether `pixels` is a buffer for `canvas` with nothing on it.
pub open spec fn is_blank(pixels: Seq<u8>, canvas: Size) -> bool {
    &&& pixels.len() == canvas_bytes(canvas)
    &&& forall|i: int| 0 <= i < pixels.len() ==> pixels[i] == 0
}

/// Whether `paint` can put `band` on any blank buffer for it, and keeps the buffer's length.
pub open spec fn paints_band<F>(paint: F, band: RingPaint, color: [u8; 4]) -> bool where
    F: Fn(Vec<u8>, RingPaint, [u8; 4]) -> Vec<u8>,
 {
    &&& forall|blank: Vec<u8>|
        is_blank(blank@, band.canvas) ==> #[trigger] call_requires(paint, (blank, band, color))
    &&& forall|blank: Vec<u8>, painted: Vec<u8>|
        is_blank(blank@, band.canvas) && #[trigger] call_ensures(
            paint,
            (blank, band, color),
            painted,
        ) ==> painted@.len() == blank@.len()
}

/// Whether `upload` takes any buffer for `canvas`.
pub open spec fn uploads_canvas<U, M>(upload: U, canvas: Size) -> bool where
    U: Fn(&Vec<u8>, Size) -> M,
 {
    forall|pixels: &Vec<u8>|
        pixels@.len() == canvas_bytes(canvas) ==> #[trigger] call_requires(upload, (pixels, canvas))
}

/// Whether the strips of `plan` can be painted in `color` and uploaded.
pub open spec fn can_build<L, M, F, U>(
    plan: StripPlan<L>,
    color: [u8; 4],
    paint: F,
    upload: U,
) -> bool where F: Fn(Vec<u8>, RingPaint, [u8; 4]) -> Vec<u8>, U: Fn(&Vec<u8>, Size) -> M {
    &&& plan_fits(plan)
    &&& paints_band(paint, top_paint(plan), color)
    &&& paints_band(paint, bottom_paint(plan), color)
    &&& uploads_canvas::<U, M>(upload, plan.top.canvas)
    &&& uploads_canvas::<U, M>(upload, plan.bottom.canvas)
}

/// The buffers that painting a plan came to.
pub struct BuildSeen<M> {
    pub top_pixels: Vec<u8>,
    pub top: M,
    pub bottom_pixels: Vec<u8>,
    pub bottom: M,
}

/// Whether `seen` is what painting and uploading the strips of `plan` came to.
pub open spec fn build_seen<L, M, F, U>(
    plan: StripPlan<L>,
    color: [u8; 4],
    seen: BuildSeen<M>,
    paint: F,
    upload: U,
) -> bool where F: Fn(Vec<u8>, RingPaint, [u8; 4]) -> Vec<u8>, U: Fn(&Vec<u8>, Size) -> M {
    &&& painted_on_blank(paint, top_paint(plan), color, seen.top_pixels)
    &&& call_ensures(upload, (&seen.top_pixels, plan.top.canvas), seen.top)
    &&& painted_on_blank(paint, bottom_paint(plan), color, seen.bottom_pixels)
    &&& call_ensures(upload, (&seen.bottom_pixels, plan.bottom.canvas), seen.bottom)
}

/// `ring` with the strips of `plan`, whose buffers are those that `seen` has.
pub open spec fn built<L, M>(
    ring: PaintedRing<L, M>,
    plan: Option<StripPlan<L>>,
    seen: BuildSeen<M>,
) -> PaintedRing<L, M> {
    match plan {
        Some(plan) => PaintedRing {
            top: Some(seen.top),
            bottom: Some(seen.bottom),
            top_at: Some(plan.top),
            bottom_at: Some(plan.bottom),
            key: ring.key,
        },
        None => given_up(ring),
    }
}

/// Sizes `pixels` for the canvas of `band`, blanks it and lets `paint` put the band on it.
pub fn paint_strip<F>(pixels: &mut Vec<u8>, band: RingPaint, color: [u8; 4], paint: &F) where
    F: Fn(Vec<u8>, RingPaint, [u8; 4]) -> Vec<u8>,

    requires
        canvas_fits(band.canvas),
        paints_band(*paint, band, color),
    ensures
        painted_on_blank(*paint, band, color, *final(pixels)),
        final(pixels)@.len() == canvas_bytes(band.canvas),
{
    let w: usize = band.canvas.w as usize;
    let h: usize = band.canvas.h as usize;
    assert(0 < w * h && w * h * 4 == canvas_bytes(band.canvas)) by (nonlinear_arith)
        requires
            w == band.canvas.w,
            h == band.canvas.h,
            w > 0,
            h > 0,
    ;
    let len: usize = w * h * 4;
    let mut blank: Vec<u8> = Vec::new();
    std::mem::swap(pixels, &mut blank);
    blank.clear();
    blank.resize(len, 0);
    assert(is_blank(blank@, band.canvas)) by {
        assert forall|i: int| 0 <= i < blank@.len() implies blank@[i] == 0 by {
            assert(cloned::<u8>(0, blank@[i]));
        }
    }
    let painted = paint(blank, band, color);
    assert(painted_on_blank(*paint, band, color, painted));
    *pixels = painted;
}

/// Moves the strips of `ring` to where `plan` has them, and says whether they still fit. Where
/// they do not, the ring is left as it is, to be painted again.
pub fn refresh_strip_origins<L: Copy, M>(
    ring: &mut PaintedRing<L, M>,
    plan: Option<StripPlan<L>>,
) -> (fits: bool)
    ensures
        fits == strips_still_fit(*old(ring), plan),
        *final(ring) == if fits {
            moved(*old(ring), plan->0)
        } else {
            *old(ring)
        },
{
    match (ring.top_at, ring.bottom_at, plan) {
        (Some(top_at), Some(bottom_at), Some(plan)) => {
            if top_at.canvas != plan.top.canvas || bottom_at.canvas != plan.bottom.canvas {
                return false;
            }
            ring.top_at = Some(
                StripGeometry {
                    loc: plan.top.loc,
                    logical: top_at.logical,
                    canvas: top_at.canvas,
                },
            );
            ring.bottom_at = Some(
                StripGeometry {
                    loc: plan.bottom.loc,
                    logical: bottom_at.logical,
                    canvas: bottom_at.canvas,
                },
            );
            true
        },
        _ => false,
    }
}

/// Both strips show one band: a pixel of the bottom strip is the pixel of the ring's canvas that
/// lies as far down as the strip begins, and the strip ends on the canvas's last row.
pub proof fn the_strips_are_cut_from_one_band<L>(plan: StripPlan<L>, x: int, y: int)
    requires
        plan_fits(plan),
    ensures
        top_paint(plan).outer == plan.outer,
        top_paint(plan).inner == plan.inner,
        bottom_paint(plan).outer.covers(x, y) <==> plan.outer.covers(x, y + first_row(plan)),
        bottom_paint(plan).inner.covers(x, y) <==> plan.inner.covers(x, y + first_row(plan)),
        first_row(plan) + bottom_paint(plan).canvas.h == plan.canvas.h,
{
}

/// Every strip that is planned has pixels, and a ring without pixels is not planned.
pub proof fn a_plan_has_pixels<L>(measures: RingMeasures<L>, seen: PlanSeen<L>)
    ensures
        plan_step(measures, seen) is Some <==> !measures.canvas.no_pixels()
            && !seen.top.no_pixels() && !seen.bottom.no_pixels(),
        match plan_step(measures, seen) {
            Some(plan) => !plan.top.canvas.no_pixels() && !plan.bottom.canvas.no_pixels()
                && !plan.canvas.no_pixels() && plan.top.logical.h >= 1
                && plan.top.logical == plan.bottom.logical,
            None => true,
        },
{
}

/// `after` are the measures of a ring that only moved: its origin is where `shift` takes it, and
/// the window stands where it stood in it.
pub open spec fn only_moved<L>(
    before: RingMeasures<L>,
    after: RingMeasures<L>,
    shift: spec_fn(L) -> L,
) -> bool {
    &&& after.loc == shift(before.loc)
    &&& after.clip.x - after.origin_x == before.clip.x - before.origin_x
    &&& after.clip.y - after.origin_y == before.clip.y - before.origin_y
    &&& after == (RingMeasures {
        loc: after.loc,
        origin_x: after.origin_x,
        origin_y: after.origin_y,
        clip: Rect { x: after.clip.x, y: after.clip.y, ..before.clip },
        ..before
    })
}

/// Whether the scale takes `shift` for a mere move: a lowered origin moves along, and an element
/// keeps its size. A whole scale does so of every move by whole logical pixels.
pub open spec fn moves_along<L, D, C>(shift: spec_fn(L) -> L, lowered: D, canvas_at: C) -> bool where
    D: Fn(L, i32) -> L,
    C: Fn(L, Size) -> Size,
 {
    &&& forall|at: L, down: i32, to: L| #[trigger]
        call_ensures(lowered, (shift(at), down), to) ==> exists|from: L| #[trigger]
            call_ensures(lowered, (at, down), from) && to == shift(from)
    &&& forall|at: L, size: Size, canvas: Size| #[trigger]
        call_ensures(canvas_at, (shift(at), size), canvas) ==> call_ensures(
            canvas_at,
            (at, size),
            canvas,
        )
}

/// `plan` with both origins moved, and nothing else.
pub open spec fn plan_shifted<L>(plan: StripPlan<L>, shift: spec_fn(L) -> L) -> StripPlan<L> {
    StripPlan {
        top: StripGeometry { loc: shift(plan.top.loc), ..plan.top },
        bottom: StripGeometry { loc: shift(plan.bottom.loc), ..plan.bottom },
        ..plan
    }
}

/// A ring that only moved is planned as it was, but for its origins, which move with it: the
/// canvases, the logical sizes, the band and its radii stay.
pub proof fn a_moved_ring_keeps_its_plan<L, R, D, C>(
    before: RingMeasures<L>,
    after: RingMeasures<L>,
    shift: spec_fn(L) -> L,
    seen: PlanSeen<L>,
    rows: R,
    lowered: D,
    canvas_at: C,
) where R: Fn(i32) -> i32, D: Fn(L, i32) -> L, C: Fn(L, Size) -> Size,
    requires
        only_moved(before, after, shift),
        moves_along(shift, lowered, canvas_at),
        plan_seen(after, seen, rows, lowered, canvas_at),
    ensures
        exists|unmoved: PlanSeen<L>| #[trigger]
            plan_seen(before, unmoved, rows, lowered, canvas_at) && plan_step(after, seen)
                == match plan_step(before, unmoved) {
                Some(plan) => Some(plan_shifted(plan, shift)),
                None => None,
            },
{
    let asks = !before.canvas.no_pixels() && !seen.top.no_pixels();
    let down = bottom_drop(before, seen.top) as i32;
    let bottom_loc = if asks {
        choose|from: L| #[trigger]
            call_ensures(lowered, (before.loc, down), from) && seen.bottom_loc == shift(from)
    } else {
        before.loc
    };
    let unmoved = PlanSeen { bottom_loc, ..seen };
    if asks {
        assert(call_ensures(lowered, (shift(before.loc), down), seen.bottom_loc));
        assert(call_ensures(
            canvas_at,
            (shift(bottom_loc), strip_size(after, seen.rows)),
            seen.bottom,
        ));
    }
    assert(plan_seen(before, unmoved, rows, lowered, canvas_at));
}

/// A window that stands as far inside its ring as the ring is thick stands there on the canvas too,
/// in its own size.
pub proof fn the_band_is_as_thick_as_the_ring<L>(measures: RingMeasures<L>, seen: PlanSeen<L>)
    requires
        measures.clip.x == measures.origin_x + measures.thickness,
        measures.clip.y == measures.origin_y + measures.thickness,
        plan_step(measures, seen) is Some,
    ensures
        (plan_step(measures, seen)->0).inner == (Rect {
            x: measures.thickness,
            y: measures.thickness,
            w: measures.clip.w,
            h: measures.clip.h,
        }),
{
}

/// The measures of the ring of `thickness` logical pixels around the window at `rect`, at the whole
/// scale `scale`: every length is that many times as long. `place` reads an exact position.
pub open spec fn at_whole_scale<L>(
    measures: RingMeasures<L>,
    place: spec_fn(L) -> (int, int),
    rect: Rect,
    thickness: i32,
    scale: int,
) -> bool {
    &&& place(measures.loc) == ((rect.x - thickness) * scale, (rect.y - thickness) * scale)
    &&& measures.origin_x == (rect.x - thickness) * scale
    &&& measures.origin_y == (rect.y - thickness) * scale
    &&& measures.logical_w == rect.w + 2 * thickness
    &&& measures.canvas.w == (rect.w + 2 * thickness) * scale
    &&& measures.canvas.h == (rect.h + 2 * thickness) * scale
    &&& measures.clip.x == rect.x * scale
    &&& measures.clip.y == rect.y * scale
    &&& measures.clip.w == rect.w * scale
    &&& measures.clip.h == rect.h * scale
    &&& measures.thickness == thickness * scale
}

/// What the whole scale `scale` makes of lengths and positions: it takes as many logical rows as
/// cover the physical ones, a lowered position is that much lower, and an element is as many times
/// as large, wherever it stands.
pub open spec fn scales_whole<L, R, D, C>(
    place: spec_fn(L) -> (int, int),
    scale: int,
    rows: R,
    lowered: D,
    canvas_at: C,
) -> bool where R: Fn(i32) -> i32, D: Fn(L, i32) -> L, C: Fn(L, Size) -> Size {
    &&& forall|physical: i32, logical: i32| #[trigger]
        call_ensures(rows, (physical,), logical) ==> (logical - 1) * scale < physical <= logical
            * scale
    &&& forall|at: L, down: i32, to: L| #[trigger]
        call_ensures(lowered, (at, down), to) ==> place(to) == (place(at).0, place(at).1 + down)
    &&& forall|at: L, size: Size, canvas: Size| #[trigger]
        call_ensures(canvas_at, (at, size), canvas) ==> canvas.w == size.w * scale && canvas.h
            == size.h * scale
}

/// At a whole scale a window that moves by `(dx, dy)` logical pixels is planned as it was: the
/// canvases, the logical sizes, the band and its radii are the same, and both origins are moved by
/// exactly `scale` times as much. At scale 1 the window stands `thickness` pixels inside its ring,
/// in its own size.
pub proof fn a_whole_scale_plans_a_moved_window_alike<L, R, D, C>(
    place: spec_fn(L) -> (int, int),
    scale: int,
    rows: R,
    lowered: D,
    canvas_at: C,
    rect: Rect,
    moved_rect: Rect,
    thickness: i32,
    measures: RingMeasures<L>,
    moved_measures: RingMeasures<L>,
    seen: PlanSeen<L>,
    moved_seen: PlanSeen<L>,
) where R: Fn(i32) -> i32, D: Fn(L, i32) -> L, C: Fn(L, Size) -> Size,
    requires
        scale >= 1,
        scales_whole(place, scale, rows, lowered, canvas_at),
        moved_rect.w == rect.w,
        moved_rect.h == rect.h,
        at_whole_scale(measures, place, rect, thickness, scale),
        at_whole_scale(moved_measures, place, moved_rect, thickness, scale),
        measures.radius == moved_measures.radius,
        !measures.canvas.no_pixels() ==> measures_fit(measures),
        plan_seen(measures, seen, rows, lowered, canvas_at),
        plan_seen(moved_measures, moved_seen, rows, lowered, canvas_at),
    ensures
        plan_step(measures, seen) is Some <==> plan_step(moved_measures, moved_seen) is Some,
        match (plan_step(measures, seen), plan_step(moved_measures, moved_seen)) {
            (Some(p), Some(q)) => {
                let dx = (moved_rect.x - rect.x) * scale;
                let dy = (moved_rect.y - rect.y) * scale;
                &&& q == (StripPlan {
                    top: StripGeometry { loc: q.top.loc, ..p.top },
                    bottom: StripGeometry { loc: q.bottom.loc, ..p.bottom },
                    ..p
                })
                &&& place(q.top.loc) == (place(p.top.loc).0 + dx, place(p.top.loc).1 + dy)
                &&& place(q.bottom.loc) == (place(p.bottom.loc).0 + dx, place(p.bottom.loc).1 + dy)
                &&& scale == 1 ==> p.inner == (Rect {
                    x: thickness,
                    y: thickness,
                    w: rect.w,
                    h: rect.h,
                })
            },
            _ => true,
        },
{
    let (x, y, u, v) = (rect.x as int, rect.y as int, moved_rect.x as int, moved_rect.y as int);
    let t = thickness as int;
    assert((x - t) * scale == x * scale - t * scale) by (nonlinear_arith);
    assert((y - t) * scale == y * scale - t * scale) by (nonlinear_arith);
    assert((u - t) * scale == u * scale - t * scale) by (nonlinear_arith);
    assert((v - t) * scale == v * scale - t * scale) by (nonlinear_arith);
    assert((u - x) * scale == u * scale - x * scale) by (nonlinear_arith);
    assert((v - y) * scale == v * scale - y * scale) by (nonlinear_arith);
    assert(measures.canvas == moved_measures.canvas);
    if !measures.canvas.no_pixels() {
        let physical = strip_rows(measures) as i32;
        assert(call_ensures(rows, (physical,), seen.rows));
        assert(call_ensures(rows, (physical,), moved_seen.rows));
        lemma_covering_rows(physical as int, seen.rows as int, moved_seen.rows as int, scale);
        assert(seen.top == moved_seen.top);
        if !seen.top.no_pixels() {
            let down = bottom_drop(measures, seen.top) as i32;
            assert(call_ensures(lowered, (measures.loc, down), seen.bottom_loc));
            assert(call_ensures(lowered, (moved_measures.loc, down), moved_seen.bottom_loc));
            assert(seen.bottom == moved_seen.bottom);
        }
        let inner_x = measures.clip.x - measures.origin_x;
        let inner_y = measures.clip.y - measures.origin_y;
        assert(inner_x == t * scale && inner_y == t * scale);
        assert(moved_measures.clip.x - moved_measures.origin_x == inner_x);
        assert(moved_measures.clip.y - moved_measures.origin_y == inner_y);
        if scale == 1 {
            assert(t * scale == t && rect.w * scale == rect.w && rect.h * scale == rect.h)
                by (nonlinear_arith)
                requires
                    scale == 1,
            ;
        }
    }
}

/// There is one number of logical rows that covers a number of physical ones and no more.
proof fn lemma_covering_rows(physical: int, a: int, b: int, scale: int)
    requires
        scale >= 1,
        (a - 1) * scale < physical <= a * scale,
        (b - 1) * scale < physical <= b * scale,
    ensures
        a == b,
{
    assert(a == b) by (nonlinear_arith)
        requires
            scale >= 1,
            (a - 1) * scale < b * scale,
            (b - 1) * scale < a * scale,
    ;
}

/// Paints the strips of `ring` anew: the top rows of the plan's band, then its bottom rows, each
/// onto a blank canvas of its own in `pixels`, from which `upload` makes a buffer. Without a plan
/// the ring is left without strips.
pub fn build_strips<L: Copy, M, F, U>(
    ring: &mut PaintedRing<L, M>,
    plan: Option<StripPlan<L>>,
    color: [u8; 4],
    pixels: &mut Vec<u8>,
    paint: &F,
    upload: &U,
) where F: Fn(Vec<u8>, RingPaint, [u8; 4]) -> Vec<u8>, U: Fn(&Vec<u8>, Size) -> M,
    requires
        plan is Some ==> can_build::<L, M, F, U>(plan->0, color, *paint, *upload),
    ensures
        plan is None ==> *final(ring) == given_up(*old(ring)) && *final(pixels) == *old(pixels),
        plan is Some ==> exists|seen: BuildSeen<M>| #[trigger]
            build_seen(plan->0, color, seen, *paint, *upload) && *final(ring) == built(
                *old(ring),
                plan,
                seen,
            ) && *final(pixels) == seen.bottom_pixels,
{
    ring.top = None;
    ring.bottom = None;
    ring.top_at = None;
    ring.bottom_at = None;
    let plan = match plan {
        Some(plan) => plan,
        None => {
            return;
        },
    };
    paint_strip(
        pixels,
        RingPaint {
            canvas: plan.top.canvas,
            outer: plan.outer,
            radius_outer: plan.radius_outer,
            inner: plan.inner,
            radius_inner: plan.radius_inner,
        },
        color,
        paint,
    );
    let ghost top_pixels = *pixels;
    let top = upload(pixels, plan.top.canvas);
    let first: i32 = plan.canvas.h - plan.bottom.canvas.h;
    paint_strip(
        pixels,
        RingPaint {
            canvas: plan.bottom.canvas,
            outer: Rect::new(plan.outer.x, plan.outer.y - first, plan.outer.w, plan.outer.h),
            radius_outer: plan.radius_outer,
            inner: Rect::new(plan.inner.x, plan.inner.y - first, plan.inner.w, plan.inner.h),
            radius_inner: plan.radius_inner,
        },
        color,
        paint,
    );
    let bottom = upload(pixels, plan.bottom.canvas);
    proof {
        let seen = BuildSeen { top_pixels, top, bottom_pixels: *pixels, bottom };
        assert(build_seen(plan, color, seen, *paint, *upload));
    }
    ring.top = Some(top);
    ring.bottom = Some(bottom);
    ring.top_at = Some(plan.top);
    ring.bottom_at = Some(plan.bottom);
}

/// What a plan is made from: the scale is asked for the logical rows that cover the band and its
/// outer arc, for the canvas of a strip of that height (of one row at least) and the ring's width at
/// the ring's origin, and for that canvas again where the strip would end on the ring's last row.
pub proof fn a_plan_is_measured_where_it_is_drawn<L, R, D, C>(
    measures: RingMeasures<L>,
    seen: PlanSeen<L>,
    rows: R,
    lowered: D,
    canvas_at: C,
) where R: Fn(i32) -> i32, D: Fn(L, i32) -> L, C: Fn(L, Size) -> Size,
    requires
        plan_seen(measures, seen, rows, lowered, canvas_at),
        measures_fit(measures),
        measures.canvas.w > 0,
        measures.canvas.h > 0,
    ensures
        ({
            let band = if measures.thickness > 0 {
                measures.thickness as int
            } else {
                0
            };
            let size = Size {
                w: measures.logical_w,
                h: if seen.rows > 1 {
                    seen.rows
                } else {
                    1
                },
            };
            &&& call_ensures(
                rows,
                ((measures.thickness + (measures.radius + band)) as i32,),
                seen.rows,
            )
            &&& call_ensures(canvas_at, (measures.loc, size), seen.top)
            &&& seen.top.w > 0 && seen.top.h > 0 ==> {
                &&& call_ensures(
                    lowered,
                    (measures.loc, (measures.canvas.h - seen.top.h) as i32),
                    seen.bottom_loc,
                )
                &&& call_ensures(canvas_at, (seen.bottom_loc, size), seen.bottom)
            }
        }),
{
}

/// A plan draws the top strip at the ring's origin and the bottom strip at its own, each of the
/// ring's logical width and as high as the rows that cover it. The band is the ring's canvas without
/// the window, which stands where it stands in the ring; the window's radius is its inner one, and
/// the ring's thickness is added for the outer one.
pub proof fn a_plan_is_the_ring_of_its_measures<L>(measures: RingMeasures<L>, seen: PlanSeen<L>)
    requires
        measures_fit(measures),
        plan_step(measures, seen) is Some,
    ensures
        ({
            let plan = plan_step(measures, seen)->0;
            &&& plan.top.loc == measures.loc
            &&& plan.top.canvas == seen.top
            &&& plan.bottom.loc == seen.bottom_loc
            &&& plan.bottom.canvas == seen.bottom
            &&& plan.top.logical.w == measures.logical_w
            &&& plan.bottom.logical == plan.top.logical
            &&& seen.rows >= 1 ==> plan.top.logical.h == seen.rows
            &&& seen.rows < 1 ==> plan.top.logical.h == 1
            &&& plan.canvas == measures.canvas
            &&& plan.outer.x == 0 && plan.outer.y == 0
            &&& plan.outer.w == measures.canvas.w && plan.outer.h == measures.canvas.h
            &&& plan.inner.x == measures.clip.x - measures.origin_x
            &&& plan.inner.y == measures.clip.y - measures.origin_y
            &&& plan.inner.w == measures.clip.w && plan.inner.h == measures.clip.h
            &&& plan.radius_inner == measures.radius
            &&& measures.thickness >= 0 ==> plan.radius_outer - plan.radius_inner
                == measures.thickness
            &&& measures.thickness < 0 ==> plan.radius_outer == plan.radius_inner
        }),
{
}

/// Each strip is painted on its own canvas with the radii of the band; the top one with the band as
/// it is, and the bottom one with the band moved up by the rows of the ring above the strip.
pub proof fn each_strip_is_painted_with_its_rows_of_the_band<L>(plan: StripPlan<L>)
    requires
        plan_fits(plan),
    ensures
        ({
            let top = top_paint(plan);
            let bottom = bottom_paint(plan);
            let above = plan.canvas.h - plan.bottom.canvas.h;
            &&& top == (RingPaint {
                canvas: plan.top.canvas,
                outer: plan.outer,
                radius_outer: plan.radius_outer,
                inner: plan.inner,
                radius_inner: plan.radius_inner,
            })
            &&& bottom.canvas == plan.bottom.canvas
            &&& bottom.radius_outer == plan.radius_outer
            &&& bottom.radius_inner == plan.radius_inner
            &&& bottom.outer.y + above == plan.outer.y
            &&& bottom.inner.y + above == plan.inner.y
            &&& bottom.outer == (Rect { y: bottom.outer.y, ..plan.outer })
            &&& bottom.inner == (Rect { y: bottom.inner.y, ..plan.inner })
        }),
{
}

/// Strips that were painted are drawn where the plan has them: the top one's image at the top, the
/// bottom one's at the bottom. Without a plan there are no strips. What they were painted for is
/// kept either way.
pub proof fn strips_are_drawn_where_they_were_planned<L, M>(
    ring: PaintedRing<L, M>,
    plan: Option<StripPlan<L>>,
    seen: BuildSeen<M>,
)
    ensures
        ({
            let after = built(ring, plan, seen);
            &&& after.key == ring.key
            &&& plan is Some ==> {
                &&& after.top == Some(seen.top)
                &&& after.bottom == Some(seen.bottom)
                &&& after.top_at == Some((plan->0).top)
                &&& after.bottom_at == Some((plan->0).bottom)
            }
            &&& plan is None ==> {
                &&& after.top is None
                &&& after.bottom is None
                &&& after.top_at is None
                &&& after.bottom_at is None
            }
        }),
{
}

/// Each image is made of what was painted for it: the top strip's band on a blank canvas of the top
/// strip's size, uploaded in that size, and the same at the bottom; both in one color.
pub proof fn each_image_is_made_of_its_own_strip<L, M, F, U>(
    plan: StripPlan<L>,
    color: [u8; 4],
    seen: BuildSeen<M>,
    paint: F,
    upload: U,
) where F: Fn(Vec<u8>, RingPaint, [u8; 4]) -> Vec<u8>, U: Fn(&Vec<u8>, Size) -> M,
    requires
        build_seen(plan, color, seen, paint, upload),
        plan_fits(plan),
    ensures
        call_ensures(upload, (&seen.top_pixels, plan.top.canvas), seen.top),
        call_ensures(upload, (&seen.bottom_pixels, plan.bottom.canvas), seen.bottom),
        exists|blank: Vec<u8>|
            {
                &&& blank@.len() == plan.top.canvas.w * plan.top.canvas.h * 4
                &&& forall|i: int| 0 <= i < blank@.len() ==> blank@[i] == 0
                &&& #[trigger] call_ensures(
                    paint,
                    (blank, top_paint(plan), color),
                    seen.top_pixels,
                )
            },
        exists|blank: Vec<u8>|
            {
                &&& blank@.len() == plan.bottom.canvas.w * plan.bottom.canvas.h * 4
                &&& forall|i: int| 0 <= i < blank@.len() ==> blank@[i] == 0
                &&& #[trigger] call_ensures(
                    paint,
                    (blank, bottom_paint(plan), color),
                    seen.bottom_pixels,
                )
            },
{
    let top = choose|blank: Vec<u8>|
        {
            &&& #[trigger] is_blank(blank@, top_paint(plan).canvas)
            &&& call_ensures(paint, (blank, top_paint(plan), color), seen.top_pixels)
        };
    let bottom = choose|blank: Vec<u8>|
        {
            &&& #[trigger] is_blank(blank@, bottom_paint(plan).canvas)
            &&& call_ensures(paint, (blank, bottom_paint(plan), color), seen.bottom_pixels)
        };
    assert(call_ensures(paint, (top, top_paint(plan), color), seen.top_pixels));
    assert(call_ensures(paint, (bottom, bottom_paint(plan), color), seen.bottom_pixels));
}

/// Strips fit a plan exactly where there are both and each has the canvas that the plan gives it;
/// and strips that fit are moved to the plan's origins, with nothing else changed.
pub proof fn strips_fit_by_their_canvases<L, M>(ring: PaintedRing<L, M>, plan: Option<StripPlan<L>>)
    ensures
        strips_still_fit(ring, plan) <==> {
            &&& plan is Some
            &&& ring.top_at is Some
            &&& ring.bottom_at is Some
            &&& (ring.top_at->0).canvas == (plan->0).top.canvas
            &&& (ring.bottom_at->0).canvas == (plan->0).bottom.canvas
        },
        strips_still_fit(ring, plan) ==> {
            let after = moved(ring, plan->0);
            &&& (after.top_at->0).loc == (plan->0).top.loc
            &&& (after.bottom_at->0).loc == (plan->0).bottom.loc
            &&& (after.top_at->0).logical == (ring.top_at->0).logical
            &&& (after.bottom_at->0).logical == (ring.bottom_at->0).logical
            &&& (after.top_at->0).canvas == (ring.top_at->0).canvas
            &&& (after.bottom_at->0).canvas == (ring.bottom_at->0).canvas
            &&& after.top == ring.top
            &&& after.bottom == ring.bottom
            &&& after.key == ring.key
        },
{
}

/// A ring is planned from what the scale measures of it, around its window, with its thickness and
/// its radius: there is a plan only of measures with pixels, drawn at their origin, on their canvas.
pub proof fn a_ring_is_planned_from_its_own_measures<L, P, R, D, C>(
    scale: OutputScale<P, R, D, C>,
    rect: Rect,
    thickness: i32,
    radius: i32,
    plan: Option<StripPlan<L>>,
) where
    P: Fn(Rect, i32, i32) -> RingMeasures<L>,
    R: Fn(i32) -> i32,
    D: Fn(L, i32) -> L,
    C: Fn(L, Size) -> Size,

    requires
        ring_planned(scale, rect, thickness, radius, plan),
    ensures
        exists|measures: RingMeasures<L>|
            {
                &&& #[trigger] call_ensures(scale.measure, (rect, thickness, radius), measures)
                &&& plan is Some ==> {
                    &&& measures.canvas.w > 0 && measures.canvas.h > 0
                    &&& (plan->0).top.loc == measures.loc
                    &&& (plan->0).canvas == measures.canvas
                    &&& (plan->0).radius_inner == measures.radius
                    &&& exists|at: L|
                        {
                            &&& #[trigger] call_ensures(
                                scale.lowered,
                                (
                                    measures.loc,
                                    (measures.canvas.h - (plan->0).top.canvas.h) as i32,
                                ),
                                at,
                            )
                            &&& (plan->0).bottom.loc == at
                            &&& call_ensures(
                                scale.canvas_at,
                                (at, (plan->0).bottom.logical),
                                (plan->0).bottom.canvas,
                            )
                        }
                    &&& call_ensures(
                        scale.canvas_at,
                        (measures.loc, (plan->0).top.logical),
                        (plan->0).top.canvas,
                    )
                }
            },
{
    let (measures, seen) = choose|measures: RingMeasures<L>, seen: PlanSeen<L>|
        {
            &&& #[trigger] plan_seen(measures, seen, scale.rows, scale.lowered, scale.canvas_at)
            &&& call_ensures(scale.measure, (rect, thickness, radius), measures)
            &&& plan == plan_step(measures, seen)
        };
    assert(call_ensures(scale.measure, (rect, thickness, radius), measures));
    if plan is Some {
        assert(call_ensures(
            scale.lowered,
            (measures.loc, (measures.canvas.h - (plan->0).top.canvas.h) as i32),
            seen.bottom_loc,
        ));
    }
}

} // verus!
