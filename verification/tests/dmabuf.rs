use std::cell::Cell;

use scoot::dispatch::Verdict;
use scoot::dmabuf::formats::{Format, FormatSet, ARGB8888, INVALID, LINEAR, XRGB8888};
use scoot::dmabuf::{
    advertise, advertised_formats, cpu_mapped_tranche, drain_cache, driver_tranche, fourcc_count,
    imports_linear, main_device, main_device_from, refuse_import, schedule_cache_drain,
    ImportOutcome, ImportSet,
};
use scoot::protocol::{Destroyed, Request};
use scoot::state::{RendererKind, State};

const X_TILED: u64 = 0x0100_0000_0000_0001;
const Y_TILED: u64 = 0x0100_0000_0000_0002;

const ABGR16161616F: u32 = u32::from_le_bytes(*b"AB4H");
const ABGR8888: u32 = u32::from_le_bytes(*b"AB24");
const NV12: u32 = u32::from_le_bytes(*b"NV12");
const P010: u32 = u32::from_le_bytes(*b"P010");
const R8: u32 = u32::from_le_bytes(*b"R8  ");

const CLIENT: u64 = 1;

fn format(code: u32, modifier: u64) -> Format {
    Format { code, modifier }
}

fn set(formats: &[(u32, u64)]) -> FormatSet {
    let formats: Vec<Format> =
        formats.iter().map(|(code, modifier)| format(*code, *modifier)).collect();
    FormatSet::from_formats(&formats)
}

// -- the advertisement ------------------------------------------------------

#[test]
fn default_feedback_names_a_device_and_the_renderers_own_formats() {
    let expected = vec![
        format(u32::from_le_bytes(*b"XR24"), 0),
        format(u32::from_le_bytes(*b"AR24"), 0),
    ];
    let offered = advertise(
        &ImportSet::CpuMapped,
        &|format: Format| format.modifier == LINEAR,
        || 226,
        |device, table| {
            assert_eq!(device, 226);
            assert_eq!(table, expected);
            true
        },
    )
    .expect("an offered feedback");
    assert_eq!(offered.device, 226);
    assert_eq!(offered.formats, expected);
}

fn no_device() -> u64 {
    panic!("an empty table has no device")
}

#[test]
fn a_session_with_no_renderer_advertises_no_dmabuf_global() {
    let offered = advertise(&ImportSet::CpuMapped, &|_format: Format| false, no_device, |_, _| {
        panic!("an empty table is not built")
    });
    assert!(offered.is_none());
    let mut state = State::new(1);
    let outcome = state.dmabuf_imported(
        Some(CLIENT),
        |_backend| panic!("there is no renderer"),
        || None,
        |_dev, _ino| false,
        |_dev, _ino| None,
        Vec::new,
    );
    assert_eq!(outcome, ImportOutcome::Failed { backend: None });
}

#[test]
fn a_feedback_that_cannot_be_built_is_not_offered() {
    let offered = advertise(&ImportSet::CpuMapped, &|_format: Format| true, || 226, |_, _| false);
    assert!(offered.is_none());
}

#[test]
fn every_advertised_format_is_one_the_renderer_imports() {
    for mask in 0u32..16 {
        let asked = [
            format(XRGB8888, LINEAR),
            format(XRGB8888, INVALID),
            format(ARGB8888, LINEAR),
            format(ARGB8888, INVALID),
        ];
        let can_import = |format: Format| {
            asked.iter().position(|asked| *asked == format).is_some_and(|bit| mask & (1 << bit) != 0)
        };
        for entry in advertised_formats(&ImportSet::CpuMapped, &can_import) {
            assert_eq!(entry.modifier, LINEAR);
            assert!(imports_linear(entry.code, &can_import), "{entry:?}");
        }
    }
}

#[test]
fn a_renderer_that_imports_nothing_is_advertised_as_nothing() {
    assert!(cpu_mapped_tranche(&|_format: Format| false).is_empty());
}

#[test]
fn a_renderer_missing_one_candidate_advertises_only_the_other() {
    let opaque = format(XRGB8888, LINEAR);
    assert_eq!(cpu_mapped_tranche(&|format: Format| format == opaque), vec![opaque]);
    let alpha = format(ARGB8888, LINEAR);
    assert_eq!(cpu_mapped_tranche(&|format: Format| format == alpha), vec![alpha]);
    assert_eq!(
        cpu_mapped_tranche(&|_format: Format| true),
        vec![opaque, alpha],
        "a renderer that imports both is advertised both, opaque first"
    );
}

#[test]
fn a_renderer_listing_only_the_invalid_modifier_still_advertises_linear() {
    assert_eq!(
        cpu_mapped_tranche(&|format: Format| format.modifier == INVALID),
        vec![format(XRGB8888, LINEAR), format(ARGB8888, LINEAR)]
    );
}

#[test]
fn a_renderer_with_only_other_explicit_modifiers_advertises_nothing() {
    let tiled = 1u64;
    assert!(cpu_mapped_tranche(&|format: Format| format.modifier == tiled).is_empty());
}

#[test]
fn the_main_device_ladder_prefers_the_render_node() {
    assert_eq!(main_device_from(|| Some(1), || Some(2)), (1, "/dev/dri/renderD128"));
    assert_eq!(main_device_from(|| None, || Some(2)), (2, "/dev/dri/card0"));
}

#[test]
fn the_no_drm_node_ladder_ends_at_zero() {
    assert_eq!(main_device_from(|| None, || None), (0, "no DRM node"));
}

#[test]
fn the_renderers_own_device_beats_the_path_ladder() {
    let answer = main_device(
        Some(0xdead_beef),
        || panic!("a renderer's own device is not second-guessed"),
        || panic!("a renderer's own device is not second-guessed"),
    );
    assert_eq!(answer.0, 0xdead_beef);
    assert_eq!(main_device(None, || Some(1), || Some(2)), main_device_from(|| Some(1), || Some(2)));
}

// -- the driver's own table -------------------------------------------------

#[test]
fn a_mesa_style_set_advertises_every_fourcc_at_its_explicit_modifiers_only() {
    let importable = set(&[
        (ABGR16161616F, LINEAR),
        (ABGR16161616F, INVALID),
        (ARGB8888, LINEAR),
        (ARGB8888, INVALID),
        (XRGB8888, LINEAR),
        (XRGB8888, INVALID),
        (NV12, LINEAR),
        (NV12, INVALID),
        (P010, LINEAR),
        (P010, INVALID),
    ]);
    assert_eq!(
        driver_tranche(&importable),
        vec![
            format(XRGB8888, LINEAR),
            format(ARGB8888, LINEAR),
            format(ABGR16161616F, LINEAR),
            format(NV12, LINEAR),
            format(P010, LINEAR),
        ]
    );
}

#[test]
fn implicit_is_never_advertised_where_the_driver_named_explicit_layouts() {
    let importable =
        set(&[(NV12, LINEAR), (NV12, INVALID), (XRGB8888, X_TILED), (XRGB8888, INVALID)]);
    let advertised = driver_tranche(&importable);
    assert!(
        advertised.iter().all(|format| format.modifier != INVALID),
        "no implicit-modifier entry may be advertised: {advertised:?}"
    );
}

#[test]
fn a_display_without_the_modifiers_extension_keeps_the_old_table() {
    let importable = set(&[(ARGB8888, INVALID), (XRGB8888, INVALID)]);
    assert_eq!(
        driver_tranche(&importable),
        vec![format(XRGB8888, LINEAR), format(ARGB8888, LINEAR)]
    );
}

#[test]
fn a_driver_that_refuses_the_modifier_query_loses_only_its_unvouched_formats() {
    let importable = set(&[
        (XRGB8888, INVALID),
        (ARGB8888, LINEAR),
        (ARGB8888, X_TILED),
        (ARGB8888, INVALID),
        (NV12, INVALID),
        (ABGR8888, Y_TILED),
        (ABGR8888, INVALID),
    ]);
    assert_eq!(
        driver_tranche(&importable),
        vec![
            format(XRGB8888, LINEAR),
            format(ARGB8888, LINEAR),
            format(ARGB8888, X_TILED),
            format(ABGR8888, Y_TILED),
        ]
    );
}

#[test]
fn a_driver_that_lists_tiled_layouts_but_not_linear_is_not_offered_linear() {
    let importable = set(&[(XRGB8888, X_TILED), (XRGB8888, Y_TILED), (XRGB8888, INVALID)]);
    assert_eq!(
        driver_tranche(&importable),
        vec![format(XRGB8888, X_TILED), format(XRGB8888, Y_TILED)]
    );
}

#[test]
fn a_renderer_that_imports_nothing_is_advertised_nothing() {
    assert!(driver_tranche(&FormatSet::new()).is_empty());
}

#[test]
fn each_fourcc_is_grouped_with_its_modifiers_in_the_drivers_order() {
    let importable = set(&[
        (NV12, Y_TILED),
        (XRGB8888, LINEAR),
        (NV12, LINEAR),
        (XRGB8888, X_TILED),
        (NV12, INVALID),
        (XRGB8888, INVALID),
    ]);
    assert_eq!(
        driver_tranche(&importable),
        vec![
            format(XRGB8888, LINEAR),
            format(XRGB8888, X_TILED),
            format(NV12, Y_TILED),
            format(NV12, LINEAR),
        ]
    );
}

#[test]
fn every_advertised_pair_is_the_drivers_own_or_the_documented_widening() {
    let cases = [
        set(&[(XRGB8888, LINEAR), (XRGB8888, INVALID), (NV12, LINEAR), (NV12, INVALID)]),
        set(&[(ARGB8888, INVALID), (XRGB8888, INVALID), (R8, INVALID)]),
        set(&[(XRGB8888, X_TILED), (XRGB8888, INVALID), (ARGB8888, INVALID)]),
    ];
    for importable in cases {
        for entry in driver_tranche(&importable) {
            let widened = entry.modifier == LINEAR
                && [XRGB8888, ARGB8888].contains(&entry.code)
                && importable.contains(format(entry.code, INVALID))
                && !importable
                    .formats()
                    .iter()
                    .any(|f| f.code == entry.code && f.modifier != INVALID);
            assert!(importable.contains(entry) || widened, "{entry:?}");
            assert_ne!(entry.modifier, INVALID);
        }
    }
}

#[test]
fn a_format_set_keeps_the_first_of_each_in_order() {
    let repeated = set(&[(NV12, LINEAR), (R8, LINEAR), (NV12, LINEAR), (NV12, INVALID)]);
    assert_eq!(
        repeated.formats().to_vec(),
        vec![format(NV12, LINEAR), format(R8, LINEAR), format(NV12, INVALID)]
    );
    assert_eq!(fourcc_count(&repeated.formats().to_vec()), 2);
}

// -- imports ----------------------------------------------------------------

/// A session whose renderers take a buffer or not.
struct Session {
    state: State,
    takes: bool,
}

impl Session {
    fn new() -> Self {
        let mut state = State::new(1);
        state.backends.push(RendererKind::Pixman);
        Session { state, takes: true }
    }

    fn import(&mut self, request: Request) -> ImportOutcome {
        let verdict = self.state.request(
            CLIENT,
            request,
            |_fd, _size| true,
            || false,
            |_fd| true,
            |_surface, _parent| false,
        );
        assert_eq!(verdict, Verdict::Delegate);
        let takes = self.takes;
        self.state.dmabuf_imported(
            Some(CLIENT),
            |_backend| takes,
            || None,
            |_dev, _ino| false,
            |_dev, _ino| None,
            Vec::new,
        )
    }

    fn buffers(&self) -> u32 {
        self.state.wl_buffers.in_flight()
    }
}

#[test]
fn a_real_dmabuf_is_imported_and_the_client_gets_its_buffer() {
    let mut session = Session::new();
    let outcome = session.import(Request::CreateDmabuf { params: 3 });
    assert_eq!(outcome, ImportOutcome::Imported { first: true, settled: None });
}

#[test]
fn an_import_through_create_immed_is_not_a_client_kill() {
    let mut session = Session::new();
    let outcome = session.import(Request::CreateDmabufImmed { params: 3 });
    assert_eq!(outcome, ImportOutcome::Imported { first: true, settled: None });
    assert_eq!(session.buffers(), 1, "the immed buffer must be claimed against the cap");
    session.state.destroyed(CLIENT, Destroyed::Buffer { buffer: 1 });
    assert_eq!(session.buffers(), 0, "and released like any other kind");
}

#[test]
fn an_imported_mapping_is_released_without_any_frame() {
    let mut session = Session::new();
    assert!(!schedule_cache_drain(&mut session.state), "nothing was imported yet");
    session.import(Request::CreateDmabuf { params: 3 });
    let aftermath = session.state.destroyed(CLIENT, Destroyed::Buffer { buffer: 1 });
    assert!(aftermath.queue_drain, "a destruction queues the drain, with no frame in between");
    assert_eq!(drain_cache(&mut session.state), 1, "every renderer is drained");
}

#[test]
fn repeated_import_and_release_without_a_frame_does_not_grow_the_cache() {
    let mut session = Session::new();
    for pass in 0..16 {
        let outcome = session.import(Request::CreateDmabuf { params: 3 });
        assert_eq!(
            outcome,
            ImportOutcome::Imported { first: pass == 0, settled: None },
            "pass {pass}"
        );
        let aftermath = session.state.destroyed(CLIENT, Destroyed::Buffer { buffer: pass });
        assert!(aftermath.queue_drain, "pass {pass}");
        drain_cache(&mut session.state);
        assert_eq!(session.buffers(), 0, "pass {pass}");
    }
}

#[test]
fn one_drain_is_queued_however_many_buffers_go() {
    let mut session = Session::new();
    for params in 0..3 {
        session.import(Request::CreateDmabuf { params });
    }
    let queued: Vec<bool> = (0..3)
        .map(|buffer| {
            session.state.destroyed(CLIENT, Destroyed::Buffer { buffer }).queue_drain
        })
        .collect();
    assert_eq!(queued, [true, false, false]);
    drain_cache(&mut session.state);
    assert!(session.state.destroyed(CLIENT, Destroyed::Surface).queue_drain);
}

#[test]
fn an_accepted_import_claims_and_releases_one_buffer_unit() {
    let mut session = Session::new();
    assert_eq!(session.buffers(), 0);
    session.import(Request::CreateDmabuf { params: 3 });
    assert_eq!(session.buffers(), 1);
    session.state.destroyed(CLIENT, Destroyed::Buffer { buffer: 1 });
    assert_eq!(session.buffers(), 0);
}

#[test]
fn a_refused_async_import_hands_its_buffer_unit_back() {
    let mut session = Session::new();
    session.takes = false;
    for _ in 0..4 {
        let outcome = session.import(Request::CreateDmabuf { params: 3 });
        assert_eq!(outcome, ImportOutcome::Failed { backend: Some(0) });
    }
    assert_eq!(session.buffers(), 0, "four refused imports must leave the count as it was");
    assert!(!session.state.imports_dmabufs);
}

#[test]
fn an_unknown_clients_refused_import_hands_nothing_back() {
    let mut session = Session::new();
    session.import(Request::CreateDmabuf { params: 3 });
    refuse_import(&mut session.state.wl_buffers, None);
    assert_eq!(session.buffers(), 1);
    refuse_import(&mut session.state.wl_buffers, Some(CLIENT));
    assert_eq!(session.buffers(), 0);
}

#[test]
fn the_first_renderer_that_refuses_decides() {
    let mut session = Session::new();
    session.state.backends.push(RendererKind::Pixman);
    session.state.backends.push(RendererKind::Pixman);
    let asked = Cell::new(0);
    let outcome = session.state.dmabuf_imported(
        Some(CLIENT),
        |backend| {
            asked.set(asked.get() + 1);
            backend != 1
        },
        || None,
        |_dev, _ino| false,
        |_dev, _ino| None,
        Vec::new,
    );
    assert_eq!(outcome, ImportOutcome::Failed { backend: Some(1) });
    assert_eq!(asked.get(), 2);
}

#[test]
fn an_import_is_charged_with_the_copies_it_left() {
    let mut session = Session::new();
    session.state.backends = vec![RendererKind::Gles];
    let copies = Cell::new(1);
    let outcome = session.state.dmabuf_imported(
        Some(CLIENT),
        |_backend| {
            copies.set(3);
            true
        },
        || Some((1, 2)),
        |_dev, _ino| false,
        |dev, ino| {
            assert_eq!((dev, ino), (1, 2));
            Some(copies.get())
        },
        || vec![Some((1, 2))],
    );
    assert_eq!(session.state.renderer_plane_copies, Some(2));
    assert_eq!(outcome, ImportOutcome::Imported { first: true, settled: Some(2) });
}

#[test]
fn no_backend_is_asked_after_the_first_refusal() {
    let mut session = Session::new();
    session.state.backends = vec![RendererKind::Pixman; 4];
    let asked = Cell::new(0);
    let outcome = session.state.dmabuf_imported(
        Some(CLIENT),
        |backend| {
            asked.set(asked.get() + 1);
            assert!(backend < 3, "asked after a refusal");
            backend != 2
        },
        || None,
        |_dev, _ino| false,
        |_dev, _ino| None,
        Vec::new,
    );
    assert_eq!(outcome, ImportOutcome::Failed { backend: Some(2) });
    assert_eq!(asked.get(), 3);
}

#[test]
fn a_widened_pair_is_offered_and_nothing_twice() {
    let importable = FormatSet::from_formats(&vec![
        format(ARGB8888, INVALID),
        format(XRGB8888, X_TILED),
        format(XRGB8888, INVALID),
        format(ABGR16161616F, Y_TILED),
        format(XRGB8888, X_TILED),
    ]);
    let table = driver_tranche(&importable);
    assert_eq!(
        table,
        vec![
            format(XRGB8888, X_TILED),
            format(ARGB8888, LINEAR),
            format(ABGR16161616F, Y_TILED),
        ]
    );
}
