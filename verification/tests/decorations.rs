use std::cell::{Cell, RefCell};

use scoot::arrangement::{Arrangement, Placement};
use scoot::decorations::appearance::Appearance;
use scoot::decorations::color::{Color, CHANNEL_ONE};
use scoot::decorations::ring::{ring_is_representable, ring_rects, RingRects};
use scoot::decorations::strips::{
    build_strips, paint_strip, plan_ring, plan_strips, refresh_strip_origins, OutputScale,
    PaintedRing, RingMeasures, RingPaint, StripGeometry, StripPlan,
};
use scoot::decorations::{Bar, Decorations, RingBar, RingElement, Side};
use scoot::geometry::{clip, Rect, Size};

const SCREEN: Rect = Rect { x: 0, y: 0, w: 1200, h: 800 };

/// A channel of `value`, as a fraction of full strength.
fn parts(value: f64) -> i32 {
    (value * f64::from(CHANNEL_ONE)).round() as i32
}

fn color(r: f64, g: f64, b: f64, a: f64) -> Color {
    Color::new(parts(r), parts(g), parts(b), parts(a))
}

// -- Color::parse -----------------------------------------------------------

#[test]
fn parses_a_six_digit_hex_color_as_opaque() {
    assert_eq!(
        Color::parse("#ff8000"),
        Some(color(1.0, 128.0 / 255.0, 0.0, 1.0))
    );
}

#[test]
fn parses_an_eight_digit_hex_color_with_alpha() {
    assert_eq!(
        Color::parse("#ff800080"),
        Some(color(1.0, 128.0 / 255.0, 0.0, 128.0 / 255.0))
    );
}

#[test]
fn parsing_is_case_insensitive() {
    assert_eq!(Color::parse("#FF8000"), Color::parse("#ff8000"));
    assert_eq!(Color::parse("#aBcDeF01"), Color::parse("#AbCdEf01"));
}

#[test]
fn any_text_means_what_it_means_in_the_other_case() {
    for text in ["#aBcDeF", "#aBcDeF01", "#gBcDeF", "aBcDeF", "#", "", "#aBcDé1"] {
        assert_eq!(Color::parse(&text.to_ascii_uppercase()), Color::parse(text), "{text}");
        assert_eq!(Color::parse(&text.to_ascii_lowercase()), Color::parse(text), "{text}");
    }
}

#[test]
fn six_digits_mean_what_they_mean_with_full_alpha() {
    for text in ["#ff8000", "#012345", "#gg8000", "xff8000"] {
        assert_eq!(Color::parse(&format!("{text}ff")), Color::parse(text), "{text}");
    }
}

#[test]
fn rejects_a_missing_hash() {
    assert_eq!(Color::parse("ff8000"), None);
}

#[test]
fn rejects_the_wrong_length() {
    assert_eq!(Color::parse("#fff"), None);
    assert_eq!(Color::parse("#ff80000"), None);
}

#[test]
fn rejects_non_hex_digits() {
    assert_eq!(Color::parse("#gggggg"), None);
}

#[test]
fn rejects_what_only_looks_like_digits() {
    for text in ["", "#", "#+f+f+f", "#-1-1-1", "# f f f", "#ff80é", "##ff800", "#ff8000 "] {
        assert_eq!(Color::parse(text), None, "{text:?}");
    }
}

#[test]
fn every_byte_survives_parsing_and_packing() {
    for byte in 0..=255u8 {
        let opaque = Color::parse(&format!("#{byte:02x}{:02x}00", 255 - byte)).unwrap();
        assert_eq!(opaque.to_argb8888(), [0, 255 - byte, byte, 255]);
    }
}

#[test]
fn packing_rounds_as_single_precision_does() {
    for channel in 0..=255u8 {
        for alpha in 0..=255u8 {
            let parsed = Color::parse(&format!("#{channel:02x}0000{alpha:02x}")).unwrap();
            let v = f32::from(channel) / 255.0;
            let a = f32::from(alpha) / 255.0;
            let expected = (v * a * 255.0).round().clamp(0.0, 255.0) as u8;
            assert_eq!(parsed.to_argb8888(), [0, 0, expected, alpha]);
        }
    }
}

// -- Color::to_argb8888 -----------------------------------------------------

#[test]
fn an_opaque_color_becomes_bgra_bytes_unscaled() {
    let orange = Color::parse("#ff8000").expect("a valid color");
    assert_eq!(orange.to_argb8888(), [0x00, 0x80, 0xff, 0xff]);
}

#[test]
fn a_color_spelled_opaque_gives_back_its_bytes_and_no_byte_is_above_the_alpha() {
    let spelled = Color::parse("#ff8001ff").expect("a valid color");
    assert_eq!(spelled.to_argb8888(), [0x01, 0x80, 0xff, 0xff]);
    for alpha in 0..=255 {
        let color = Color::parse(&format!("#ff8001{alpha:02x}")).expect("a valid color");
        let pixel = color.to_argb8888();
        assert_eq!(pixel[3], alpha);
        assert!(pixel[..3].iter().all(|byte| *byte <= alpha), "{pixel:?}");
    }
}

#[test]
fn a_translucent_color_has_its_channels_premultiplied() {
    let orange = Color::parse("#ff800080").expect("a valid color");
    assert_eq!(orange.to_argb8888(), [0x00, 64, 0x80, 0x80]);
}

#[test]
fn a_fully_transparent_color_becomes_four_zero_bytes() {
    assert_eq!(color(1.0, 1.0, 1.0, 0.0).to_argb8888(), [0, 0, 0, 0]);
}

#[test]
fn white_and_black_are_exactly_the_bytes_the_cursor_has_always_used() {
    assert_eq!(color(1.0, 1.0, 1.0, 1.0).to_argb8888(), [255, 255, 255, 255]);
    assert_eq!(color(0.0, 0.0, 0.0, 1.0).to_argb8888(), [0, 0, 0, 255]);
}

#[test]
fn out_of_range_components_saturate_instead_of_wrapping() {
    assert_eq!(color(2.0, -1.0, 0.0, 1.0).to_argb8888(), [0, 0, 255, 255]);
    assert_eq!(
        Color::new(i32::MAX, i32::MIN, i32::MIN, i32::MIN).to_argb8888(),
        [255, 255, 0, 0]
    );
}

#[test]
fn no_channel_of_a_pixel_outshines_its_alpha() {
    for alpha in (0..=CHANNEL_ONE).step_by(97) {
        let pixel = Color::new(CHANNEL_ONE, CHANNEL_ONE / 2, 1, alpha).to_argb8888();
        assert!(pixel[..3].iter().all(|channel| *channel <= pixel[3]), "{pixel:?}");
    }
}

// -- Appearance -------------------------------------------------------------

#[test]
fn cursor_size_clamps_at_both_bounds() {
    for (configured, expected) in [
        (Appearance::MIN_CURSOR_SIZE - 1, Appearance::MIN_CURSOR_SIZE),
        (Appearance::MIN_CURSOR_SIZE, Appearance::MIN_CURSOR_SIZE),
        (16, 16),
        (Appearance::MAX_CURSOR_SIZE, Appearance::MAX_CURSOR_SIZE),
        (Appearance::MAX_CURSOR_SIZE + 1, Appearance::MAX_CURSOR_SIZE),
        (i32::MAX, Appearance::MAX_CURSOR_SIZE),
        (i32::MIN, Appearance::MIN_CURSOR_SIZE),
        (0, Appearance::MIN_CURSOR_SIZE),
        (-1, Appearance::MIN_CURSOR_SIZE),
    ] {
        assert_eq!(
            Appearance::clamp_cursor_size(configured),
            expected,
            "cursor_size {configured} clamped wrongly"
        );
    }
    assert_eq!((Appearance::MIN_CURSOR_SIZE, Appearance::MAX_CURSOR_SIZE), (4, 256));
}

#[test]
fn the_clamped_cursor_size_cannot_overflow_the_bitmap_length() {
    let size = Appearance::clamp_cursor_size(i32::MAX);
    assert_eq!(size * size * 4, 262_144);
}

#[test]
fn an_out_of_range_cursor_size_is_clamped_by_clamped() {
    let appearance = Appearance { cursor_size: i32::MAX, ..Appearance::default() }.clamped(10);
    assert_eq!(appearance.cursor_size, Appearance::MAX_CURSOR_SIZE);

    let appearance = Appearance { cursor_size: 0, ..Appearance::default() }.clamped(10);
    assert_eq!(appearance.cursor_size, Appearance::MIN_CURSOR_SIZE);
}

#[test]
fn an_in_range_cursor_size_survives_clamped_untouched() {
    let appearance = Appearance { cursor_size: 48, ..Appearance::default() }.clamped(10);
    assert_eq!(appearance.cursor_size, 48);
}

#[test]
fn a_ring_width_within_half_the_gap_is_left_alone() {
    let appearance = Appearance { focus_ring_width: 3, ..Appearance::default() }.clamped(10);
    assert_eq!(appearance.focus_ring_width, 3);
}

#[test]
fn a_ring_wider_than_half_the_gap_is_clamped() {
    let appearance = Appearance { focus_ring_width: 8, ..Appearance::default() }.clamped(10);
    assert_eq!(appearance.focus_ring_width, 5);
}

#[test]
fn a_zero_gap_clamps_the_ring_to_zero() {
    let appearance = Appearance { focus_ring_width: 4, ..Appearance::default() }.clamped(0);
    assert_eq!(appearance.focus_ring_width, 0);
}

#[test]
fn a_negative_gap_is_treated_as_zero() {
    let appearance = Appearance { focus_ring_width: 4, ..Appearance::default() }.clamped(-6);
    assert_eq!(appearance.focus_ring_width, 0);
}

#[test]
fn a_negative_corner_radius_is_clamped_to_zero() {
    let appearance = Appearance { corner_radius: -8, ..Appearance::default() }.clamped(10);
    assert_eq!(appearance.corner_radius, 0);
}

#[test]
fn a_zero_or_positive_corner_radius_survives_clamped() {
    for configured in [0, 1, 12, i32::MAX] {
        let appearance =
            Appearance { corner_radius: configured, ..Appearance::default() }.clamped(10);
        assert_eq!(
            appearance.corner_radius, configured,
            "corner_radius {configured} must not be clamped: the upper bound \
             is per window at render time, not per config at load time"
        );
    }
}

#[test]
fn the_default_corner_radius_is_square() {
    assert_eq!(Appearance::default().corner_radius, 0);
}

#[test]
fn the_defaults_are_what_they_are() {
    let appearance = Appearance::default();
    assert_eq!(appearance.focus_ring_width, 3);
    assert_eq!(appearance.focus_ring_active_color, color(0.42, 0.65, 0.98, 1.0));
    assert_eq!(appearance.focus_ring_inactive_color, color(0.35, 0.35, 0.38, 1.0));
    assert_eq!(appearance.background_color, color(0.08, 0.08, 0.1, 1.0));
    assert_eq!(appearance.cursor_size, 16);
    assert_eq!(appearance.cursor_color, color(1.0, 1.0, 1.0, 1.0));
    assert_eq!(appearance.cursor_theme, None);
    assert!(appearance.prefer_no_csd);
    for (channel, value) in [(10_710, 0.42f32), (16_575, 0.65), (24_990, 0.98), (2_550, 0.1)] {
        assert_eq!(channel as f32 / CHANNEL_ONE as f32, value);
    }
}

#[test]
fn clamping_twice_is_clamping_once_and_leaves_the_rest_alone() {
    let configured = Appearance {
        focus_ring_width: 40,
        corner_radius: -3,
        cursor_size: 1,
        cursor_theme: Some("Adwaita".to_string()),
        prefer_no_csd: false,
        ..Appearance::default()
    };
    let once = configured.clone().clamped(9);
    assert_eq!(
        once,
        Appearance { focus_ring_width: 4, corner_radius: 0, cursor_size: 4, ..configured }
    );
    assert_eq!(once.clone().clamped(9), once);
    assert_eq!(once.clone().clamped(30), once, "a wider gap takes nothing back");
    let mut widest = 0;
    for gap in -2..100 {
        let wide = Appearance { focus_ring_width: 40, ..Appearance::default() };
        let ring = wide.clamped(gap).focus_ring_width;
        assert!(ring >= widest, "a wider gap never narrows a ring");
        widest = ring;
    }
    assert_eq!(widest, 40);
}

// -- ring_rects -------------------------------------------------------------

#[test]
fn a_zero_width_ring_produces_no_rects() {
    let rects = ring_rects(Rect::new(100, 100, 200, 150), 0, SCREEN);
    assert_eq!(rects, RingRects::default());
}

#[test]
fn a_negative_width_also_produces_no_rects() {
    let rects = ring_rects(Rect::new(100, 100, 200, 150), -1, SCREEN);
    assert_eq!(rects, RingRects::default());
}

#[test]
fn a_window_with_plenty_of_gap_gets_a_full_frame() {
    let rects = ring_rects(Rect::new(100, 100, 200, 150), 4, SCREEN);
    assert_eq!(rects.top, Some(Rect::new(96, 96, 208, 4)));
    assert_eq!(rects.bottom, Some(Rect::new(96, 250, 208, 4)));
    assert_eq!(rects.left, Some(Rect::new(96, 100, 4, 150)));
    assert_eq!(rects.right, Some(Rect::new(300, 100, 4, 150)));
}

#[test]
fn a_window_at_the_top_left_corner_clips_the_off_screen_sides() {
    let rects = ring_rects(Rect::new(0, 0, 100, 100), 4, SCREEN);
    assert_eq!(rects.top, None);
    assert_eq!(rects.left, None);
    assert_eq!(rects.bottom, Some(Rect::new(0, 100, 104, 4)));
    assert_eq!(rects.right, Some(Rect::new(100, 0, 4, 100)));
}

#[test]
fn a_window_scrolled_partly_off_the_left_edge_clips_its_left_ring() {
    let rects = ring_rects(Rect::new(-50, 100, 200, 150), 4, SCREEN);
    assert_eq!(rects.left, None, "the left strip is entirely at x < -50, off screen");
    assert_eq!(rects.top, Some(Rect::new(0, 96, 154, 4)));
    assert_eq!(rects.right, Some(Rect::new(150, 100, 4, 150)));
}

#[test]
fn a_ring_covers_each_pixel_around_the_window_once() {
    let window = Rect::new(2, 3, 4, 2);
    let bounds = Rect::new(0, 1, 8, 20);
    let rects = ring_rects(window, 2, bounds);
    let covers = |rect: Rect, x: i32, y: i32| {
        rect.x <= x && x < rect.right() && rect.y <= y && y < rect.bottom()
    };
    for x in -5..20 {
        for y in -5..30 {
            let bars = [rects.top, rects.bottom, rects.left, rects.right]
                .into_iter()
                .flatten()
                .filter(|bar| covers(*bar, x, y))
                .count();
            let around = covers(Rect::new(0, 1, 8, 6), x, y)
                && covers(bounds, x, y)
                && !covers(window, x, y);
            assert_eq!(bars, usize::from(around), "pixel {x},{y}");
        }
    }
}

#[test]
fn rectangles_that_only_touch_do_not_overlap() {
    let rect = Rect::new(0, 0, 10, 10);
    assert_eq!(clip(rect, Rect::new(10, 0, 5, 5)), None);
    assert_eq!(clip(rect, Rect::new(0, 10, 5, 5)), None);
    assert_eq!(clip(rect, Rect::new(9, 9, 5, 5)), Some(Rect::new(9, 9, 1, 1)));
    assert_eq!(clip(rect, Rect::new(0, 0, 0, 0)), None);
}

#[test]
fn a_ring_past_the_edge_of_the_plane_is_told_apart() {
    assert!(ring_is_representable(Rect::new(0, 0, 100, 100), 4, SCREEN));
    assert!(!ring_is_representable(Rect::new(i32::MAX - 3, 0, 1, 1), 4, SCREEN));
    assert!(!ring_is_representable(Rect::new(i32::MIN, 0, 1, 1), 4, SCREEN));
    assert!(!ring_is_representable(Rect::new(0, 0, i32::MAX, 1), 1, SCREEN));
    assert!(!ring_is_representable(SCREEN, i32::MAX, SCREEN));
    assert!(ring_is_representable(Rect::new(i32::MAX, 0, i32::MAX, 1), 0, SCREEN));
}

// -- Decorations::elements --------------------------------------------------

fn placement(id: u64, rect: Rect) -> Placement {
    Placement { id, output: 1, rect, visible: true }
}

fn arrangement(placements: Vec<Placement>, focused: u64) -> Arrangement {
    Arrangement { placements, focused: Some(focused), focused_output: Some(1) }
}

/// Decorations that only ever draw square rings.
fn square() -> Decorations<(), ()> {
    Decorations::default()
}

#[test]
fn a_visible_focused_window_produces_four_active_colored_segments() {
    let appearance = Appearance::default();
    let arrangement = arrangement(vec![placement(1, Rect::new(100, 100, 200, 150))], 1);
    let mut decorations = square();

    let elements = decorations.elements(&arrangement, &appearance, SCREEN);

    assert_eq!(elements.len(), 4);
    for element in &elements {
        assert_eq!(element.color, appearance.focus_ring_active_color);
    }
    assert_eq!(
        elements.iter().map(|element| element.side).collect::<Vec<_>>(),
        [Side::Top, Side::Bottom, Side::Left, Side::Right]
    );
    assert_eq!(elements[0].rect, Rect::new(97, 97, 206, 3));
}

#[test]
fn an_invisible_window_produces_no_segments() {
    let appearance = Appearance::default();
    let mut invisible = placement(1, Rect::new(100, 100, 200, 150));
    invisible.visible = false;
    let arrangement = arrangement(vec![invisible], 1);
    let mut decorations = square();

    assert!(decorations.elements(&arrangement, &appearance, SCREEN).is_empty());
}

#[test]
fn closing_a_window_drops_its_persistent_buffers() {
    let appearance = Appearance::default();
    let mut decorations = square();
    let with_window = arrangement(vec![placement(1, Rect::new(100, 100, 200, 150))], 1);
    decorations.elements(&with_window, &appearance, SCREEN);
    assert_eq!(decorations.rings.len(), 1);

    let closed = Arrangement::default();
    decorations.elements(&closed, &appearance, SCREEN);
    assert!(decorations.rings.is_empty());
}

#[test]
fn moving_focus_recolors_both_the_old_and_new_focused_windows_ring() {
    let appearance = Appearance::default();
    let active = appearance.focus_ring_active_color;
    let inactive = appearance.focus_ring_inactive_color;
    let mut decorations = square();

    let a = placement(1, Rect::new(100, 100, 200, 150));
    let b = placement(2, Rect::new(400, 100, 200, 150));

    let a_focused = arrangement(vec![a, b], 1);
    let elements = decorations.elements(&a_focused, &appearance, SCREEN);
    assert_eq!(elements.len(), 8);
    for element in &elements {
        let expected = if element.rect.x < 350 { active } else { inactive };
        assert_eq!(element.color, expected);
    }

    let b_focused = arrangement(vec![a, b], 2);
    let elements = decorations.elements(&b_focused, &appearance, SCREEN);
    assert_eq!(elements.len(), 8);
    for element in &elements {
        let expected = if element.rect.x < 350 { inactive } else { active };
        assert_eq!(element.color, expected, "segment at {:?}", element.rect);
    }
}

#[test]
fn a_window_that_leaves_the_screen_keeps_empty_buffers() {
    let appearance = Appearance::default();
    let mut decorations = square();
    let there = arrangement(vec![placement(1, Rect::new(100, 100, 200, 150))], 1);
    decorations.elements(&there, &appearance, SCREEN);
    let ring = decorations.rings[&1];
    assert_eq!(
        ring.left,
        Bar { w: 3, h: 150, color: appearance.focus_ring_active_color }
    );

    let away = arrangement(vec![placement(1, Rect::new(5000, 100, 200, 150))], 9);
    assert!(decorations.elements(&away, &appearance, SCREEN).is_empty());
    assert_eq!(
        decorations.rings[&1].left,
        Bar { w: 0, h: 0, color: appearance.focus_ring_active_color },
        "an emptied buffer keeps its color"
    );
}

// -- The rounded ring -------------------------------------------------------

/// A ring of `thickness` around `rect` at scale one, with corners of `radius`.
fn measures(rect: Rect, thickness: i32, radius: i32) -> RingMeasures<(i32, i32)> {
    RingMeasures {
        loc: (rect.x - thickness, rect.y - thickness),
        origin_x: rect.x - thickness,
        origin_y: rect.y - thickness,
        logical_w: rect.w + 2 * thickness,
        canvas: Size { w: rect.w + 2 * thickness, h: rect.h + 2 * thickness },
        clip: rect,
        radius,
        thickness,
    }
}

/// The plan for such a ring.
fn plan(rect: Rect, thickness: i32, radius: i32) -> Option<StripPlan<(i32, i32)>> {
    plan_strips(
        measures(rect, thickness, radius),
        &|rows: i32| rows,
        &|at: (i32, i32), rows: i32| (at.0, at.1 + rows),
        &|_at: (i32, i32), size: Size| size,
    )
}

#[test]
fn the_strips_of_a_ring_hug_its_top_and_bottom() {
    let plan = plan(Rect::new(100, 50, 200, 150), 3, 8).expect("a window with pixels");
    assert_eq!(plan.canvas, Size { w: 206, h: 156 });
    assert_eq!(plan.inner, Rect::new(3, 3, 200, 150));
    assert_eq!(plan.outer, Rect::new(0, 0, 206, 156));
    assert_eq!((plan.radius_inner, plan.radius_outer), (8, 11));
    assert_eq!(
        plan.top,
        StripGeometry {
            loc: (97, 47),
            logical: Size { w: 206, h: 14 },
            canvas: Size { w: 206, h: 14 }
        }
    );
    assert_eq!(plan.bottom, StripGeometry { loc: (97, 47 + 156 - 14), ..plan.top });
}

#[test]
fn a_ring_without_pixels_has_no_strips() {
    assert!(plan(Rect::new(0, 0, -6, 10), 3, 0).is_none(), "no canvas");
    let no_top = plan_strips(
        measures(Rect::new(0, 0, 10, 10), 3, 0),
        &|rows: i32| rows,
        &|at: (i32, i32), rows: i32| (at.0, at.1 + rows),
        &|_at: (i32, i32), size: Size| Size { w: size.w, h: 0 },
    );
    assert!(no_top.is_none(), "no top strip");
    let no_bottom = plan_strips(
        measures(Rect::new(0, 0, 10, 10), 3, 0),
        &|rows: i32| rows,
        &|at: (i32, i32), rows: i32| (at.0, at.1 + rows),
        &|at: (i32, i32), size: Size| if at.1 < 0 { size } else { Size { w: 0, h: 0 } },
    );
    assert!(no_bottom.is_none(), "no bottom strip");
}

#[test]
fn a_strip_is_never_less_than_one_logical_row_high() {
    let flat = plan_strips(
        measures(Rect::new(10, 10, 20, 20), 1, 0),
        &|_rows: i32| 0,
        &|at: (i32, i32), rows: i32| (at.0, at.1 + rows),
        &|_at: (i32, i32), size: Size| size,
    )
    .expect("a window with pixels");
    assert_eq!(flat.top.logical.h, 1);
}

/// An image that was uploaded: its canvas and its first byte.
type Image = (Size, u8);

fn blank_ring() -> PaintedRing<(i32, i32), Image> {
    PaintedRing { top: None, bottom: None, top_at: None, bottom_at: None, key: None }
}

#[test]
fn a_strip_is_painted_on_a_blank_canvas() {
    let mut pixels = vec![7u8; 5];
    let band = RingPaint {
        canvas: Size { w: 2, h: 3 },
        outer: Rect::new(0, 0, 2, 3),
        radius_outer: 0,
        inner: Rect::new(0, 0, 0, 0),
        radius_inner: 0,
    };
    let painter = |mut pixels: Vec<u8>, _band: RingPaint, color: [u8; 4]| {
        assert_eq!(pixels, vec![0u8; 24]);
        pixels[0] = color[2];
        pixels
    };
    paint_strip(&mut pixels, band, [1, 2, 3, 4], &painter);
    assert_eq!(pixels.len(), 24);
    assert_eq!(pixels[0], 3);
    assert!(pixels[1..].iter().all(|byte| *byte == 0));
}

#[test]
fn both_strips_are_painted_from_one_band() {
    let plan = plan(Rect::new(100, 50, 200, 150), 3, 8);
    let bands: RefCell<Vec<RingPaint>> = RefCell::new(Vec::new());
    let painter = |mut pixels: Vec<u8>, band: RingPaint, _color: [u8; 4]| {
        bands.borrow_mut().push(band);
        pixels[0] = bands.borrow().len() as u8;
        pixels
    };
    let upload = |pixels: &Vec<u8>, canvas: Size| -> Image { (canvas, pixels[0]) };
    let mut ring = blank_ring();
    let mut scratch = Vec::new();
    build_strips(&mut ring, plan, [0; 4], &mut scratch, &painter, &upload);

    let bands = bands.borrow();
    assert_eq!(bands.len(), 2);
    assert_eq!(bands[0].canvas, Size { w: 206, h: 14 });
    assert_eq!(bands[0].outer, Rect::new(0, 0, 206, 156));
    assert_eq!(bands[0].inner, Rect::new(3, 3, 200, 150));
    assert_eq!(bands[1].outer, Rect::new(0, -142, 206, 156));
    assert_eq!(bands[1].inner, Rect::new(3, -139, 200, 150));
    assert_eq!((bands[1].radius_inner, bands[1].radius_outer), (8, 11));
    assert_eq!(ring.top, Some((Size { w: 206, h: 14 }, 1)));
    assert_eq!(ring.bottom, Some((Size { w: 206, h: 14 }, 2)));
    assert_eq!(ring.top_at, plan.map(|plan| plan.top));
    assert_eq!(ring.bottom_at, plan.map(|plan| plan.bottom));
}

#[test]
fn strips_that_still_fit_only_move() {
    let painter = |pixels: Vec<u8>, _band: RingPaint, _color: [u8; 4]| pixels;
    let upload = |pixels: &Vec<u8>, canvas: Size| -> Image { (canvas, pixels[0]) };
    let mut ring = blank_ring();
    assert!(
        !refresh_strip_origins(&mut ring, plan(Rect::new(0, 0, 20, 20), 2, 4)),
        "nothing was ever painted"
    );
    let mut scratch = Vec::new();
    let first = plan(Rect::new(0, 0, 20, 20), 2, 4);
    build_strips(&mut ring, first, [0; 4], &mut scratch, &painter, &upload);
    let top = ring.top;

    assert!(refresh_strip_origins(&mut ring, plan(Rect::new(9, 5, 20, 20), 2, 4)));
    assert_eq!(ring.top, top);
    assert_eq!(ring.top_at.unwrap().loc, (7, 3));

    assert!(!refresh_strip_origins(&mut ring, plan(Rect::new(9, 5, 30, 20), 2, 4)));
    assert_eq!(ring.top_at.unwrap().loc, (7, 3), "left as it was");
    assert!(!refresh_strip_origins(&mut ring, None));
}

/// What the outside did while rounded rings were drawn.
#[derive(Default)]
struct Outside {
    plans: Cell<usize>,
    paints: Cell<usize>,
    imports: Cell<usize>,
    refuses: Cell<bool>,
    plans_fail: Cell<bool>,
}

type Painted = (Image, (i32, i32));

/// Draws rounded rings at scale one.
fn rounded(
    decorations: &mut Decorations<(i32, i32), Image>,
    outside: &Outside,
    arrangement: &Arrangement,
    appearance: &Appearance,
) -> Vec<RingElement<Painted>> {
    let scale = OutputScale {
        measure: |rect: Rect, thickness: i32, radius: i32| {
            assert_eq!(thickness, appearance.focus_ring_width);
            assert_eq!(radius, appearance.corner_radius);
            outside.plans.set(outside.plans.get() + 1);
            let mut measured = measures(rect, thickness, radius);
            if outside.plans_fail.get() {
                measured.canvas = Size { w: 0, h: 0 };
            }
            measured
        },
        rows: |rows: i32| rows,
        lowered: |at: (i32, i32), rows: i32| (at.0, at.1 + rows),
        canvas_at: |_at: (i32, i32), size: Size| size,
    };
    let painter = |mut pixels: Vec<u8>, _band: RingPaint, color: [u8; 4]| {
        outside.paints.set(outside.paints.get() + 1);
        pixels[0] = color[0];
        pixels
    };
    let upload = |pixels: &Vec<u8>, canvas: Size| -> Image { (canvas, pixels[0]) };
    let import = |image: &Image, at: StripGeometry<(i32, i32)>| -> Option<Painted> {
        outside.imports.set(outside.imports.get() + 1);
        if outside.refuses.get() {
            None
        } else {
            Some((*image, at.loc))
        }
    };
    decorations.elements_rounded(
        arrangement,
        appearance,
        SCREEN,
        1f64.to_bits(),
        &scale,
        &painter,
        &upload,
        &import,
    )
}

fn round_appearance() -> Appearance {
    Appearance { corner_radius: 8, ..Appearance::default() }
}

fn bar(element: &RingElement<Painted>) -> Option<RingBar> {
    match element {
        RingElement::Rect(bar) => Some(*bar),
        RingElement::Painted(_) => None,
    }
}

#[test]
fn a_rounded_ring_is_two_strips_and_two_bars() {
    let appearance = round_appearance();
    let mut decorations = Decorations::default();
    let outside = Outside::default();
    let window = arrangement(vec![placement(1, Rect::new(100, 100, 200, 150))], 1);
    let elements = rounded(&mut decorations, &outside, &window, &appearance);
    assert_eq!(elements.len(), 4);
    assert!(matches!(elements[0], RingElement::Painted((_, (97, 97)))));
    assert!(matches!(elements[1], RingElement::Painted((_, (97, 239)))));
    let left = bar(&elements[2]).expect("a bar");
    assert_eq!((left.side, left.rect), (Side::Left, Rect::new(97, 100, 3, 150)));
    let right = bar(&elements[3]).expect("a bar");
    assert_eq!((right.side, right.rect), (Side::Right, Rect::new(300, 100, 3, 150)));
    assert_eq!(decorations.rings[&1].top, Bar { w: 0, h: 0, color: Color::new(0, 0, 0, 0) });
}

#[test]
fn steady_frames_and_moves_paint_nothing() {
    let appearance = round_appearance();
    let mut decorations = Decorations::default();
    let outside = Outside::default();
    let here = arrangement(vec![placement(1, Rect::new(100, 100, 200, 150))], 1);
    rounded(&mut decorations, &outside, &here, &appearance);
    assert_eq!(outside.paints.get(), 2);

    rounded(&mut decorations, &outside, &here, &appearance);
    let there = arrangement(vec![placement(1, Rect::new(300, 120, 200, 150))], 1);
    let elements = rounded(&mut decorations, &outside, &there, &appearance);
    assert_eq!(outside.paints.get(), 2, "a move changes no pixel");
    assert!(matches!(elements[0], RingElement::Painted((_, (297, 117)))));
}

#[test]
fn whatever_the_pixels_depend_on_repaints_them() {
    let base = round_appearance();
    let here = arrangement(vec![placement(1, Rect::new(100, 100, 200, 150))], 1);
    let wider = arrangement(vec![placement(1, Rect::new(100, 100, 201, 150))], 1);
    let taller = arrangement(vec![placement(1, Rect::new(100, 100, 200, 151))], 1);
    let unfocused = arrangement(vec![placement(1, Rect::new(100, 100, 200, 150))], 2);
    let thicker = Appearance { focus_ring_width: 4, ..base.clone() };
    let rounder = Appearance { corner_radius: 9, ..base.clone() };
    for (arrangement, appearance) in [
        (&wider, &base),
        (&taller, &base),
        (&unfocused, &base),
        (&here, &thicker),
        (&here, &rounder),
    ] {
        let mut decorations = Decorations::default();
        let outside = Outside::default();
        rounded(&mut decorations, &outside, &here, &base);
        rounded(&mut decorations, &outside, arrangement, appearance);
        assert_eq!(outside.paints.get(), 4);
    }
}

#[test]
fn a_refused_import_falls_back_until_something_changes() {
    let appearance = round_appearance();
    let mut decorations = Decorations::default();
    let outside = Outside::default();
    let here = arrangement(vec![placement(1, Rect::new(100, 100, 200, 150))], 1);
    outside.refuses.set(true);
    let elements = rounded(&mut decorations, &outside, &here, &appearance);
    assert_eq!(elements.len(), 4);
    assert_eq!(
        elements.iter().map(|element| bar(element).unwrap().side).collect::<Vec<_>>(),
        [Side::Top, Side::Bottom, Side::Left, Side::Right]
    );
    assert_eq!((outside.plans.get(), outside.imports.get()), (1, 2));

    outside.refuses.set(false);
    let moved = arrangement(vec![placement(1, Rect::new(110, 100, 200, 150))], 1);
    let elements = rounded(&mut decorations, &outside, &moved, &appearance);
    assert!(elements.iter().all(|element| bar(element).is_some()));
    assert_eq!((outside.plans.get(), outside.imports.get()), (1, 2), "not tried again");

    let resized = arrangement(vec![placement(1, Rect::new(110, 100, 210, 150))], 1);
    let elements = rounded(&mut decorations, &outside, &resized, &appearance);
    assert!(bar(&elements[0]).is_none(), "a new size is tried");
}

#[test]
fn a_ring_that_cannot_be_planned_falls_back_until_something_changes() {
    let appearance = round_appearance();
    let mut decorations = Decorations::default();
    let outside = Outside::default();
    let here = arrangement(vec![placement(1, Rect::new(100, 100, 200, 150))], 1);
    outside.plans_fail.set(true);
    for _ in 0..3 {
        let elements = rounded(&mut decorations, &outside, &here, &appearance);
        assert_eq!(elements.len(), 4);
        assert!(elements.iter().all(|element| bar(element).is_some()));
    }
    assert_eq!((outside.plans.get(), outside.paints.get()), (1, 0));
}

#[test]
fn going_back_to_square_rings_frees_the_strips() {
    let appearance = round_appearance();
    let mut decorations = Decorations::default();
    let outside = Outside::default();
    let here = arrangement(vec![placement(1, Rect::new(100, 100, 200, 150))], 1);
    rounded(&mut decorations, &outside, &here, &appearance);
    assert_eq!(decorations.painted.len(), 1);
    decorations.elements(&here, &Appearance::default(), SCREEN);
    assert!(decorations.painted.is_empty());
    assert_eq!(decorations.rings.len(), 1);
}

#[test]
fn a_closed_window_loses_its_strips() {
    let appearance = round_appearance();
    let mut decorations = Decorations::default();
    let outside = Outside::default();
    let here = arrangement(vec![placement(1, Rect::new(100, 100, 200, 150))], 1);
    rounded(&mut decorations, &outside, &here, &appearance);
    rounded(&mut decorations, &outside, &Arrangement::default(), &appearance);
    assert!(decorations.painted.is_empty() && decorations.rings.is_empty());
}

#[test]
fn a_rounded_ring_without_width_is_not_drawn() {
    let appearance = Appearance { focus_ring_width: 0, ..round_appearance() };
    let mut decorations = Decorations::default();
    let outside = Outside::default();
    let here = arrangement(vec![placement(1, Rect::new(100, 100, 200, 150))], 1);
    assert!(rounded(&mut decorations, &outside, &here, &appearance).is_empty());
    assert_eq!(outside.plans.get(), 0);
    assert!(decorations.painted.is_empty());
}

#[test]
fn rounding_that_moves_an_edge_repaints_under_an_unchanged_key() {
    let appearance = round_appearance();
    let mut decorations: Decorations<(i32, i32), Image> = Decorations::default();
    let paints = Cell::new(0usize);
    let painter = |pixels: Vec<u8>, _band: RingPaint, _color: [u8; 4]| {
        paints.set(paints.get() + 1);
        pixels
    };
    let upload = |pixels: &Vec<u8>, canvas: Size| -> Image { (canvas, pixels[0]) };
    let import = |image: &Image, at: StripGeometry<(i32, i32)>| Some((*image, at.loc));
    for x in [100, 101] {
        // On odd columns an element is one physical pixel higher.
        let scale = OutputScale {
            measure: measures,
            rows: |rows: i32| rows,
            lowered: |at: (i32, i32), rows: i32| (at.0, at.1 + rows),
            canvas_at: |at: (i32, i32), size: Size| Size { w: size.w, h: size.h + at.0 % 2 },
        };
        let here = arrangement(vec![placement(1, Rect::new(x, 100, 200, 150))], 1);
        let elements: Vec<RingElement<Painted>> = decorations.elements_rounded(
            &here, &appearance, SCREEN, 0, &scale, &painter, &upload, &import,
        );
        assert_eq!(elements.len(), 4);
    }
    assert_eq!(paints.get(), 4);
}

#[test]
fn a_ring_stays_while_its_window_is_arranged() {
    let appearance = Appearance::default();
    let rect = Rect::new(100, 100, 200, 150);
    let mut decorations = square();
    let shown = arrangement(vec![placement(1, rect)], 1);
    let hidden = arrangement(vec![Placement { visible: false, ..placement(1, rect) }], 1);
    let outside = arrangement(vec![placement(1, Rect::new(5000, 5000, 200, 150))], 1);
    let first = decorations.elements(&shown, &appearance, SCREEN);
    for frame in [&hidden, &outside, &hidden] {
        assert!(decorations.elements(frame, &appearance, SCREEN).is_empty());
        assert!(decorations.rings.contains_key(&1));
    }
    assert_eq!(
        decorations.elements(&shown, &appearance, SCREEN),
        first,
        "the same elements, under the same id"
    );
    decorations.elements(&Arrangement::default(), &appearance, SCREEN);
    assert!(!decorations.rings.contains_key(&1));
    let reopened = decorations.elements(&shown, &appearance, SCREEN);
    assert_ne!(reopened[0].ring, first[0].ring, "a window that comes back has a ring of its own");
}

#[test]
fn every_bar_is_the_one_its_ring_keeps() {
    let appearance = Appearance::default();
    let mut decorations = square();
    let two = arrangement(
        vec![
            placement(1, Rect::new(100, 100, 200, 150)),
            placement(2, Rect::new(400, 100, 300, 150)),
        ],
        2,
    );
    for bar in decorations.elements(&two, &appearance, SCREEN) {
        let ring = decorations.rings[&bar.window];
        let kept = match bar.side {
            Side::Top => ring.top,
            Side::Bottom => ring.bottom,
            Side::Left => ring.left,
            Side::Right => ring.right,
        };
        assert_eq!(kept, Bar { w: bar.rect.w, h: bar.rect.h, color: bar.color });
        assert_eq!(bar.ring, ring.id);
    }
}

#[test]
fn a_moved_window_is_planned_as_it_was() {
    let at_scale = |rect: Rect, scale: i32| {
        let whole = measures(rect, 3, 12);
        plan_strips(
            RingMeasures {
                loc: (whole.loc.0 * scale, whole.loc.1 * scale),
                origin_x: whole.origin_x * scale,
                origin_y: whole.origin_y * scale,
                canvas: Size { w: whole.canvas.w * scale, h: whole.canvas.h * scale },
                clip: Rect::new(
                    whole.clip.x * scale,
                    whole.clip.y * scale,
                    whole.clip.w * scale,
                    whole.clip.h * scale,
                ),
                radius: whole.radius * scale,
                thickness: whole.thickness * scale,
                ..whole
            },
            &|rows: i32| (rows + scale - 1) / scale,
            &|at: (i32, i32), rows: i32| (at.0, at.1 + rows),
            &|_at: (i32, i32), size: Size| Size { w: size.w * scale, h: size.h * scale },
        )
        .expect("a ring with pixels")
    };
    for scale in 1..4 {
        let here = at_scale(Rect::new(100, 80, 200, 150), scale);
        let there = at_scale(Rect::new(117, 61, 200, 150), scale);
        let moved = |at: (i32, i32)| (at.0 + 17 * scale, at.1 - 19 * scale);
        assert_eq!(
            there,
            StripPlan {
                top: StripGeometry { loc: moved(here.top.loc), ..here.top },
                bottom: StripGeometry { loc: moved(here.bottom.loc), ..here.bottom },
                ..here
            }
        );
        assert_eq!(here.inner, Rect::new(3 * scale, 3 * scale, 200 * scale, 150 * scale));
    }
}

#[test]
fn a_ring_is_planned_from_what_the_scale_measures() {
    let rect = Rect::new(100, 50, 200, 150);
    let scale = OutputScale {
        measure: measures,
        rows: |rows: i32| rows,
        lowered: |at: (i32, i32), rows: i32| (at.0, at.1 + rows),
        canvas_at: |_at: (i32, i32), size: Size| size,
    };
    assert_eq!(plan_ring(&scale, rect, 3, 8), plan(rect, 3, 8));
    let empty = OutputScale {
        measure: |rect: Rect, thickness: i32, radius: i32| RingMeasures {
            canvas: Size { w: 0, h: 0 },
            ..measures(rect, thickness, radius)
        },
        rows: |_rows: i32| -> i32 { panic!("nothing to cover") },
        lowered: |_at: (i32, i32), _rows: i32| -> (i32, i32) { panic!("nothing to move") },
        canvas_at: |_at: (i32, i32), _size: Size| -> Size { panic!("nothing to measure") },
    };
    assert_eq!(plan_ring(&empty, rect, 3, 8), None);
}

#[test]
fn a_window_that_is_placed_twice_keeps_its_elements() {
    let appearance = Appearance::default();
    let mut decorations = square();
    let twice = arrangement(
        vec![
            placement(1, Rect::new(100, 100, 200, 150)),
            placement(1, Rect::new(400, 100, 300, 150)),
        ],
        1,
    );
    let first = decorations.elements(&twice, &appearance, SCREEN);
    assert_eq!(first.len(), 8);
    let again = decorations.elements(&twice, &appearance, SCREEN);
    for bar in first.iter().chain(&again) {
        assert_eq!(bar.ring, decorations.rings[&1].id);
    }
}
