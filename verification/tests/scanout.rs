use std::cell::Cell;

use scoot::dmabuf::formats::{
    Format, FormatSet, FormatTable, TableRow, ARGB8888, INVALID, LINEAR, XRGB8888,
};
use scoot::dmabuf::scanout::{
    build, entry_taken, plane_takes, scanout_tranche, single_plane, FormatsKey, ScanoutFeedback,
    ScanoutFeedbacks, Send, Steer, TableEntry, REVERT_HOLD,
};
use scoot::state::{Output, State};

const TILED: u64 = 0x0100_0000_0000_0001;
const OTHER_TILED: u64 = 0x0100_0000_0000_0002;

const XRGB2101010: u32 = u32::from_le_bytes(*b"XR30");
const ABGR8888: u32 = u32::from_le_bytes(*b"AB24");
const XBGR8888: u32 = u32::from_le_bytes(*b"XB24");
const ARGB16161616F: u32 = u32::from_le_bytes(*b"AR4H");
const XRGB16161616F: u32 = u32::from_le_bytes(*b"XR4H");
const RGB565: u32 = u32::from_le_bytes(*b"RG16");
const RGB888: u32 = u32::from_le_bytes(*b"RG24");
const NV12: u32 = u32::from_le_bytes(*b"NV12");
const YUV420: u32 = u32::from_le_bytes(*b"YU12");
const YUYV: u32 = u32::from_le_bytes(*b"YUYV");
const P010: u32 = u32::from_le_bytes(*b"P010");
const NV21: u32 = u32::from_le_bytes(*b"NV21");

/// The rows of the format table that the tests need.
fn table() -> FormatTable {
    let mut table = FormatTable::new();
    for (code, opaque, bits_per_pixel) in [
        (XRGB8888, None, Some(32)),
        (XBGR8888, None, Some(32)),
        (XRGB2101010, None, Some(32)),
        (ARGB8888, Some(XRGB8888), Some(32)),
        (ABGR8888, Some(XBGR8888), Some(32)),
        (XRGB16161616F, None, Some(64)),
        (ARGB16161616F, Some(XRGB16161616F), Some(64)),
        (RGB565, None, Some(16)),
        (RGB888, None, Some(24)),
        (NV12, None, Some(12)),
        (YUV420, None, Some(12)),
    ] {
        table.insert(code, TableRow { opaque, bits_per_pixel });
    }
    table
}

fn f(code: u32, modifier: u64) -> Format {
    Format { code, modifier }
}

fn plane(formats: &[Format]) -> FormatSet {
    FormatSet::from_formats(&formats.to_vec())
}

/// A plane that lists each fourcc at the implicit modifier only.
fn implicit_plane(codes: &[u32]) -> FormatSet {
    let formats: Vec<Format> = codes.iter().map(|code| f(*code, INVALID)).collect();
    plane(&formats)
}

fn entry(format: Format) -> TableEntry {
    let table = table();
    TableEntry {
        format,
        opaque: table.opaque(format.code),
        single_plane: single_plane(format.code, &table),
    }
}

fn tranche(advertised: &[Format], plane: &FormatSet, lost: &[u64]) -> Vec<Format> {
    scanout_tranche(&advertised.to_vec(), plane, &lost.to_vec(), &table())
}

fn llvmpipe_table() -> Vec<Format> {
    vec![
        f(XRGB8888, LINEAR),
        f(ARGB8888, LINEAR),
        f(ABGR8888, LINEAR),
        f(NV12, LINEAR),
        f(RGB565, LINEAR),
    ]
}

#[test]
fn an_implicit_only_plane_offers_linear_for_the_single_plane_formats_it_lists() {
    let plane = implicit_plane(&[XRGB8888, ARGB8888]);
    assert_eq!(
        tranche(&llvmpipe_table(), &plane, &[]),
        vec![f(XRGB8888, LINEAR), f(ARGB8888, LINEAR)],
        "ABGR is not listed (its opaque twin XBGR is not either), RGB565 is not listed, and NV12 \
         is multi-plane"
    );
}

#[test]
fn an_alpha_format_is_matched_as_its_opaque_twin() {
    let table = [f(ARGB8888, LINEAR)];
    assert_eq!(tranche(&table, &implicit_plane(&[XRGB8888]), &[]), table.to_vec());
    assert!(tranche(&table, &implicit_plane(&[ARGB8888]), &[]).is_empty());
    let tiled = [f(ARGB8888, TILED)];
    assert_eq!(
        tranche(&tiled, &plane(&[f(XRGB8888, INVALID), f(XRGB8888, TILED)]), &[]),
        tiled.to_vec()
    );
}

#[test]
fn a_modifier_plane_offers_exactly_the_explicit_layouts_it_lists() {
    let plane = plane(&[f(XRGB8888, INVALID), f(XRGB8888, LINEAR), f(XRGB8888, TILED)]);
    let table = [
        f(XRGB8888, LINEAR),
        f(XRGB8888, TILED),
        f(XRGB8888, OTHER_TILED),
        f(ARGB8888, TILED),
        f(ARGB8888, OTHER_TILED),
    ];
    assert_eq!(
        tranche(&table, &plane, &[]),
        vec![f(XRGB8888, LINEAR), f(XRGB8888, TILED), f(ARGB8888, TILED)],
        "only the layouts the plane names, in the advertised order"
    );
}

#[test]
fn linear_is_not_offered_where_the_plane_named_its_layouts_without_it() {
    let plane = plane(&[f(XRGB8888, INVALID), f(XRGB8888, TILED)]);
    let table = [f(XRGB8888, LINEAR), f(XRGB8888, TILED)];
    assert_eq!(tranche(&table, &plane, &[]), vec![f(XRGB8888, TILED)]);
}

#[test]
fn a_multi_plane_linear_format_needs_an_explicit_linear_entry() {
    let table = [f(NV12, LINEAR)];
    assert!(tranche(&table, &implicit_plane(&[NV12]), &[]).is_empty());
    let explicit = plane(&[f(NV12, INVALID), f(NV12, LINEAR)]);
    assert_eq!(tranche(&table, &explicit, &[]), table.to_vec());
}

#[test]
fn implicit_is_never_offered() {
    let table = [f(XRGB8888, INVALID)];
    let plane = implicit_plane(&[XRGB8888]);
    assert!(tranche(&table, &plane, &[]).is_empty());
}

#[test]
fn a_modifier_the_exporter_refused_is_dropped_and_linear_never_is() {
    let plane = plane(&[
        f(XRGB8888, INVALID),
        f(XRGB8888, LINEAR),
        f(XRGB8888, TILED),
        f(XRGB8888, OTHER_TILED),
    ]);
    let table = [f(XRGB8888, LINEAR), f(XRGB8888, TILED), f(XRGB8888, OTHER_TILED)];
    assert_eq!(
        tranche(&table, &plane, &[TILED]),
        vec![f(XRGB8888, LINEAR), f(XRGB8888, OTHER_TILED)]
    );
    assert_eq!(tranche(&table, &plane, &[LINEAR]), table.to_vec());
}

#[test]
fn a_plane_that_takes_nothing_advertised_gives_an_empty_tranche() {
    assert!(tranche(&llvmpipe_table(), &FormatSet::new(), &[]).is_empty());
    assert!(tranche(&llvmpipe_table(), &implicit_plane(&[YUYV]), &[]).is_empty());
    assert!(tranche(&[], &implicit_plane(&[XRGB8888]), &[]).is_empty());
}

#[test]
fn the_tranche_is_an_ordered_subset_of_the_advertised_table_for_every_shape() {
    let universe = [
        f(XRGB8888, INVALID),
        f(XRGB8888, LINEAR),
        f(XRGB8888, TILED),
        f(ARGB8888, INVALID),
        f(ARGB8888, OTHER_TILED),
        f(NV12, INVALID),
        f(NV12, LINEAR),
    ];
    let advertised = [
        f(XRGB8888, LINEAR),
        f(ARGB8888, LINEAR),
        f(XRGB8888, TILED),
        f(ARGB8888, TILED),
        f(ARGB8888, OTHER_TILED),
        f(NV12, LINEAR),
    ];
    for mask in 0u32..(1 << universe.len()) {
        let listed: Vec<Format> = universe
            .iter()
            .enumerate()
            .filter(|(bit, _)| mask & (1 << bit) != 0)
            .map(|(_, format)| *format)
            .collect();
        let plane = plane(&listed);
        for lost in [&[][..], &[TILED][..]] {
            let tranche = tranche(&advertised, &plane, lost);
            let mut cursor = advertised.iter();
            for entry in &tranche {
                assert_ne!(entry.modifier, INVALID, "mask {mask:#b}");
                assert!(
                    cursor.any(|offered| offered == entry),
                    "mask {mask:#b}: {entry:?} is not an in-order entry of the table"
                );
            }
            for format in advertised {
                assert_eq!(
                    tranche.contains(&format),
                    plane_takes(format, &plane, &lost.to_vec(), &table()),
                    "mask {mask:#b}"
                );
                assert_eq!(
                    plane_takes(format, &plane, &lost.to_vec(), &table()),
                    entry_taken(entry(format), &plane, &lost.to_vec()),
                    "mask {mask:#b}"
                );
            }
        }
    }
}

#[test]
fn a_fresh_tracker_needs_a_build_and_a_built_one_only_for_a_new_key() {
    let mut feedback = ScanoutFeedback::new();
    let key = FormatsKey { planes: 0, lost: 0 };
    assert!(feedback.needs_build(key));
    feedback.install(key, None, None, |_surface| true);
    assert!(!feedback.needs_build(key), "a cached `None` is cached too");
    assert!(feedback.needs_build(FormatsKey { planes: 1, lost: 0 }));
    assert!(feedback.needs_build(FormatsKey { planes: 0, lost: 1 }));
}

#[test]
fn single_plane_means_packed_and_known() {
    let table = table();
    for planar in [NV12, YUV420] {
        assert!(!single_plane(planar, &table), "{planar:#x}");
        assert!(!single_plane(planar, &FormatTable::new()), "nor where it is not listed");
    }
    for packed in [XRGB8888, ARGB8888, RGB565, RGB888, XRGB2101010, ARGB16161616F] {
        assert!(single_plane(packed, &table), "{packed:#x}");
    }
    for unknown in [YUYV, P010, NV21] {
        assert!(!single_plane(unknown, &table), "{unknown:#x}");
    }
}

#[test]
fn a_format_is_looked_up_by_its_own_fourcc() {
    let listed = implicit_plane(&[XRGB8888]);
    let lost = Vec::new();
    let alpha = f(ARGB8888, LINEAR);
    assert!(plane_takes(alpha, &listed, &lost, &table()));
    assert!(!plane_takes(f(ARGB8888, TILED), &listed, &lost, &table()), "linear only");
    let mut other = FormatTable::new();
    other.insert(XRGB8888, TableRow { opaque: None, bits_per_pixel: Some(32) });
    assert!(!plane_takes(alpha, &listed, &lost, &other), "without a twin it is matched as it is");
    other.insert(ARGB8888, TableRow { opaque: Some(XRGB8888), bits_per_pixel: Some(12) });
    assert!(!plane_takes(alpha, &listed, &lost, &other), "no whole number of bytes: not packed");
    other.insert(ARGB8888, TableRow { opaque: Some(XRGB8888), bits_per_pixel: None });
    assert!(!plane_takes(alpha, &listed, &lost, &other), "unknown: not packed");
    other.insert(ARGB8888, TableRow { opaque: Some(XRGB8888), bits_per_pixel: Some(32) });
    assert!(plane_takes(alpha, &listed, &lost, &other), "the last row counts");
}

#[test]
fn a_table_answers_what_was_inserted() {
    let mut table = FormatTable::new();
    assert_eq!((table.opaque(ARGB8888), table.bits(ARGB8888)), (None, None));
    table.insert(ARGB8888, TableRow { opaque: Some(XRGB8888), bits_per_pixel: Some(32) });
    assert_eq!((table.opaque(ARGB8888), table.bits(ARGB8888)), (Some(XRGB8888), Some(32)));
    assert_eq!((table.opaque(XRGB8888), table.bits(XRGB8888)), (None, None));
}

#[test]
fn a_lost_modifier_takes_its_own_entries_off_the_tranche() {
    let listed = plane(&[
        f(XRGB8888, INVALID),
        f(XRGB8888, LINEAR),
        f(XRGB8888, TILED),
        f(XRGB8888, OTHER_TILED),
    ]);
    let table = [
        f(XRGB8888, TILED),
        f(XRGB8888, LINEAR),
        f(ARGB8888, TILED),
        f(ARGB8888, OTHER_TILED),
    ];
    let all = tranche(&table, &listed, &[]);
    assert_eq!(all, table.to_vec());
    let without: Vec<Format> =
        all.iter().copied().filter(|format| format.modifier != TILED).collect();
    assert_eq!(tranche(&table, &listed, &[TILED]), without);
    assert_eq!(tranche(&table, &listed, &[TILED, LINEAR]), without, "linear is never lost");
}

// -- building ---------------------------------------------------------------

#[test]
fn a_feedback_is_built_only_from_a_tranche_and_a_device() {
    let offered = llvmpipe_table();
    let plane = implicit_plane(&[XRGB8888]);
    let made = build(&offered, &plane, &Vec::new(), Some(226), &table(), |device, tranche| {
        assert_eq!(device, 226);
        assert_eq!(tranche, vec![f(XRGB8888, LINEAR), f(ARGB8888, LINEAR)]);
        Some(9)
    });
    assert_eq!(made, Some(9));
    let without_device =
        build(&offered, &plane, &Vec::new(), None, &table(), |_device, _tranche| panic!("no device"));
    assert_eq!(without_device, None);
    let without_formats =
        build(&offered, &FormatSet::new(), &Vec::new(), Some(226), &table(), |_device, _tranche| {
            panic!("nothing to offer")
        });
    assert_eq!(without_formats, None);
    let failed = build(&offered, &plane, &Vec::new(), Some(226), &table(), |_device, _tranche| None);
    assert_eq!(failed, None);
}

// -- steering ---------------------------------------------------------------

const DEFAULT: u64 = 1000;
const SCANOUT: u64 = 2000;

fn tracker() -> ScanoutFeedback {
    let mut tracker = ScanoutFeedback::new();
    let sends = tracker.install(
        FormatsKey { planes: 0, lost: 0 },
        Some(SCANOUT),
        Some(DEFAULT),
        |_surface| panic!("nothing is steered yet"),
    );
    assert!(sends.is_empty());
    tracker
}

fn steer(
    tracker: &mut ScanoutFeedback,
    covering: Option<u64>,
    eligible: bool,
    now: u64,
) -> (Steer, Vec<Send>) {
    tracker.steer(covering, eligible, Some(DEFAULT), |_surface| true, || now)
}

#[test]
fn feedback_is_sent_on_a_change_and_never_per_frame() {
    let mut tracker = tracker();
    let (answer, sends) = steer(&mut tracker, Some(7), true, 0);
    assert_eq!(answer, Steer::Sent);
    assert_eq!(sends, vec![Send { surface: 7, feedback: SCANOUT }]);
    for now in 1..5 {
        assert_eq!(steer(&mut tracker, Some(7), true, now), (Steer::Kept, vec![]));
    }
    assert_eq!(tracker.for_new_surface(7), Some(SCANOUT));
    assert_eq!(tracker.for_new_surface(8), None);
}

#[test]
fn a_new_target_reverts_the_old_one_first() {
    let mut tracker = tracker();
    steer(&mut tracker, Some(7), true, 0);
    let (answer, sends) = steer(&mut tracker, Some(8), true, 1);
    assert_eq!(answer, Steer::Sent);
    assert_eq!(
        sends,
        vec![
            Send { surface: 7, feedback: DEFAULT },
            Send { surface: 8, feedback: SCANOUT }
        ]
    );
}

#[test]
fn an_ineligible_target_is_held_before_it_is_reverted() {
    let mut tracker = tracker();
    steer(&mut tracker, Some(7), true, 0);
    assert_eq!(steer(&mut tracker, Some(7), false, 10), (Steer::Holding, vec![]));
    assert_eq!(
        steer(&mut tracker, Some(7), false, 10 + REVERT_HOLD - 1),
        (Steer::Holding, vec![])
    );
    assert_eq!(
        steer(&mut tracker, Some(7), false, 10 + REVERT_HOLD),
        (Steer::Reverted, vec![Send { surface: 7, feedback: DEFAULT }])
    );
    assert_eq!(steer(&mut tracker, Some(7), false, u64::MAX), (Steer::Idle, vec![]));
}

#[test]
fn becoming_eligible_again_ends_the_hold() {
    let mut tracker = tracker();
    steer(&mut tracker, Some(7), true, 0);
    steer(&mut tracker, Some(7), false, 10);
    assert_eq!(steer(&mut tracker, Some(7), true, 20), (Steer::Kept, vec![]));
    assert_eq!(
        steer(&mut tracker, Some(7), false, 10 + REVERT_HOLD),
        (Steer::Holding, vec![]),
        "the hold starts over"
    );
}

#[test]
fn a_target_that_no_longer_covers_is_reverted_at_once() {
    for covering in [None, Some(8)] {
        let mut tracker = tracker();
        steer(&mut tracker, Some(7), true, 0);
        let answer = tracker.steer(covering, false, Some(DEFAULT), |_surface| true, || {
            panic!("no clock is needed")
        });
        assert_eq!(answer, (Steer::Reverted, vec![Send { surface: 7, feedback: DEFAULT }]));
    }
}

#[test]
fn a_dead_target_is_forgotten_and_told_nothing() {
    let mut tracker = tracker();
    steer(&mut tracker, Some(7), true, 0);
    let answer = tracker.steer(None, false, Some(DEFAULT), |surface| surface != 7, || 1);
    assert_eq!(answer, (Steer::Idle, vec![]));
    assert_eq!(tracker.target, None);
}

#[test]
fn a_rebuilt_feedback_moves_a_live_target_onto_it() {
    let mut tracker = tracker();
    steer(&mut tracker, Some(7), true, 0);
    let key = FormatsKey { planes: 1, lost: 0 };
    let sends = tracker.install(key, Some(3000), Some(DEFAULT), |_surface| true);
    assert_eq!(sends, vec![Send { surface: 7, feedback: 3000 }]);
    let sends = tracker.install(key, None, Some(DEFAULT), |_surface| true);
    assert_eq!(sends, vec![Send { surface: 7, feedback: DEFAULT }]);
    assert_eq!(tracker.target, None);
    assert_eq!(steer(&mut tracker, Some(7), true, 0), (Steer::Idle, vec![]));
}

#[test]
fn outputs_are_steered_apart() {
    let mut feedbacks = ScanoutFeedbacks::new();
    for output in [1, 2] {
        feedbacks.refresh(
            output,
            FormatsKey { planes: 0, lost: 0 },
            Some(DEFAULT),
            || Some(SCANOUT + output),
            |_surface| true,
        );
    }
    feedbacks.steer(1, Some(7), true, Some(DEFAULT), |_surface| true, || 0);
    assert_eq!(feedbacks.get(1).target, Some(7));
    assert_eq!(feedbacks.get(2).target, None);
    assert_eq!(feedbacks.for_new_surface(7), Some(SCANOUT + 1));
    feedbacks.forget(1);
    assert_eq!(feedbacks.for_new_surface(7), None);
    assert_eq!(feedbacks.get(1), ScanoutFeedback::new());
}

#[test]
fn a_feedback_is_rebuilt_only_for_a_new_key() {
    let mut feedbacks = ScanoutFeedbacks::new();
    let rebuilds = Cell::new(0);
    for key in [0, 0, 1, 1] {
        feedbacks.refresh(
            1,
            FormatsKey { planes: key, lost: 0 },
            Some(DEFAULT),
            || {
                rebuilds.set(rebuilds.get() + 1);
                None
            },
            |_surface| true,
        );
    }
    assert_eq!(rebuilds.get(), 2);
}

// -- a session --------------------------------------------------------------

fn session() -> State {
    let mut state = State::new(1);
    state.outputs.push(Output { id: 4, covering: Some(7), direct: true });
    state.outputs.push(Output { id: 5, covering: Some(8), direct: true });
    state.dmabuf_default = Some(DEFAULT);
    state
}

#[test]
fn a_session_steers_its_primary_output() {
    let mut state = session();
    let key = FormatsKey { planes: 0, lost: 0 };
    assert!(state.install_scanout_feedback(key, || Some(SCANOUT), |_surface| true).is_empty());
    let (answer, sends) = state.steer_now(5, |_surface| true);
    assert_eq!(answer, Steer::Sent);
    assert_eq!(sends, vec![Send { surface: 7, feedback: SCANOUT }]);
    state.outputs[0].direct = false;
    assert_eq!(state.steer_now(6, |_surface| true).0, Steer::Holding);
    assert_eq!(state.steer_now(6 + REVERT_HOLD, |_surface| true).0, Steer::Reverted);
}

#[test]
fn an_output_is_steered_by_its_own_covering_window() {
    let mut state = session();
    let key = FormatsKey { planes: 0, lost: 0 };
    state.scanout_feedback.refresh(5, key, Some(DEFAULT), || Some(SCANOUT), |_surface| true);
    let (answer, sends) = state.steer_scanout_feedback(5, true, |_surface| true, || 0);
    assert_eq!(answer, Steer::Sent);
    assert_eq!(sends, vec![Send { surface: 8, feedback: SCANOUT }]);
    assert_eq!(state.steer_scanout_feedback(6, true, |_surface| true, || 0).0, Steer::Idle);
}

#[test]
fn a_session_that_advertised_nothing_builds_no_scanout_feedback() {
    let mut state = session();
    state.dmabuf_default = None;
    let key = FormatsKey { planes: 0, lost: 0 };
    let sends = state.install_scanout_feedback(
        key,
        || panic!("there is no table to build from"),
        |_surface| true,
    );
    assert!(sends.is_empty());
    assert_eq!(state.steer_now(0, |_surface| true).0, Steer::Idle);
}
