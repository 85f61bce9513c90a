use scoot::drawn::{clamp_to_slot, drawn_rect};
use scoot::geometry::{Rect, Size};

const SLOT: Rect = Rect { x: 12, y: 30, w: 400, h: 300 };

#[test]
fn a_client_that_fills_its_slot_reports_the_slot() {
    assert_eq!(clamp_to_slot(SLOT, 400, 300), SLOT);
}

#[test]
fn a_short_client_keeps_the_slot_origin_and_its_own_size() {
    assert_eq!(clamp_to_slot(SLOT, 387, 293), Rect::new(12, 30, 387, 293));
}

#[test]
fn each_axis_clamps_on_its_own() {
    assert_eq!(clamp_to_slot(SLOT, 500, 200), Rect::new(12, 30, 400, 200));
    assert_eq!(clamp_to_slot(SLOT, 100, 900), Rect::new(12, 30, 100, 300));
}

#[test]
fn a_client_past_its_slot_reports_the_slot() {
    assert_eq!(clamp_to_slot(SLOT, i32::MAX, i32::MAX), SLOT);
}

#[test]
fn nothing_committed_reports_the_slot() {
    for (w, h) in [(0, 0), (0, 300), (400, 0), (-1, 50), (50, i32::MIN)] {
        assert_eq!(clamp_to_slot(SLOT, w, h), SLOT, "committed {w}x{h}");
    }
}

#[test]
fn no_window_reports_the_slot() {
    assert_eq!(drawn_rect(SLOT, None), SLOT);
}

#[test]
fn a_window_reports_what_it_committed() {
    assert_eq!(
        drawn_rect(SLOT, Some(Size { w: 100, h: 1000 })),
        Rect::new(12, 30, 100, 300)
    );
}

#[test]
fn clamping_again_changes_nothing() {
    for (w, h) in [(100, 100), (1000, 5), (0, 5), (i32::MAX, i32::MIN)] {
        let once = clamp_to_slot(SLOT, w, h);
        assert_eq!(clamp_to_slot(once, w, h), once);
    }
}
