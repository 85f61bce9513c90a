use std::cell::Cell;

use scoot::dmabuf::renderer_copies::{
    charge, fds_on_file, gles_backends, learn, per_plane, plane_weight, Probe, MAX_COPIES_PER_PLANE,
};
use scoot::state::{RendererKind, State};

/// A session with `gles` GLES renderers and one that maps buffers on the CPU.
fn session(gles: usize) -> State {
    let mut state = State::new(1);
    state.backends.push(RendererKind::Pixman);
    for _ in 0..gles {
        state.backends.push(RendererKind::Gles);
    }
    state
}

#[test]
fn copies_are_spread_over_planes_and_backends_rounding_up() {
    assert_eq!(per_plane(3, 3, 1), 1);
    assert_eq!(per_plane(0, 3, 1), 0);
    assert_eq!(per_plane(6, 3, 2), 1);
    assert_eq!(per_plane(1, 3, 1), 1);
    assert_eq!(per_plane(100, 1, 1), MAX_COPIES_PER_PLANE);
    assert_eq!(per_plane(2, 0, 0), 2);
}

#[test]
fn extreme_counts_neither_overflow_nor_divide_by_zero() {
    assert_eq!(per_plane(usize::MAX, usize::MAX, usize::MAX), 1);
    assert_eq!(per_plane(usize::MAX, 1, 1), MAX_COPIES_PER_PLANE);
    assert_eq!(per_plane(0, 0, 0), 0);
    assert_eq!(MAX_COPIES_PER_PLANE, 4);
}

#[test]
fn a_count_that_shrank_teaches_nothing() {
    assert_eq!(learn(3, 6, 3, 1), Some(1));
    assert_eq!(learn(3, 3, 3, 1), Some(0));
    assert_eq!(learn(4, 3, 3, 1), None);
}

#[test]
fn a_plane_weighs_itself_and_the_copies_of_every_gles_renderer() {
    assert_eq!(plane_weight(&session(0)), 1);
    let mut state = session(2);
    assert_eq!(gles_backends(&state), 2);
    assert_eq!(plane_weight(&state), 3, "one copy each until the number is known");
    state.renderer_plane_copies = Some(0);
    assert_eq!(plane_weight(&state), 1);
    state.renderer_plane_copies = Some(4);
    assert_eq!(plane_weight(&state), 9);
    let mut crowded = session(300);
    crowded.renderer_plane_copies = Some(1);
    assert_eq!(plane_weight(&crowded), u8::MAX);
}

#[test]
fn an_import_is_measured_once_a_session() {
    let mut state = session(1);
    let naming = |_dev: u64, _ino: u64| Some(2usize);
    let probe = Probe::before(&state, || Some((5, 77)), |_dev, _ino| false, &naming);
    assert_eq!(probe, Some(Probe { dev: 5, ino: 77, before: 2 }));

    let after = |_dev: u64, _ino: u64| Some(5usize);
    let settled = charge(&mut state, probe, &after, || vec![Some((5, 77)), Some((5, 77))]);
    assert_eq!(state.renderer_plane_copies, Some(2), "three fds over two planes, rounded up");
    assert_eq!(settled, Some(2), "the copies that each plane is settled at");
    assert_eq!(plane_weight(&state), 3);

    let again = Probe::before(
        &state,
        || panic!("the number is known"),
        |_dev, _ino| panic!("the number is known"),
        &naming,
    );
    assert_eq!(again, None);
}

#[test]
fn a_file_that_a_pool_names_is_not_measured() {
    let state = session(1);
    let naming = |_dev: u64, _ino: u64| Some(2usize);
    assert_eq!(Probe::before(&state, || Some((5, 77)), |_dev, _ino| true, &naming), None);
    assert_eq!(Probe::before(&state, || None, |_dev, _ino| false, &naming), None);
    let unknown = |_dev: u64, _ino: u64| None;
    assert_eq!(Probe::before(&state, || Some((5, 77)), |_dev, _ino| false, &unknown), None);
}

#[test]
fn a_session_without_gles_measures_nothing() {
    let mut state = session(0);
    let asked = Cell::new(false);
    let naming = |_dev: u64, _ino: u64| {
        asked.set(true);
        Some(1usize)
    };
    let probe = Probe::before(&state, || Some((1, 1)), |_dev, _ino| false, &naming);
    assert_eq!(probe, None);
    charge(&mut state, probe, &naming, || panic!("nothing to identify"));
    assert!(!asked.get());
    assert_eq!(state.renderer_plane_copies, None);
}

#[test]
fn fds_are_counted_on_their_own_file() {
    let files = vec![Some((1, 7)), None, Some((1, 8)), Some((2, 7)), Some((1, 7))];
    assert_eq!(fds_on_file(&files, 1, 7), 2);
    assert_eq!(fds_on_file(&files, 2, 7), 1);
    assert_eq!(fds_on_file(&files, 3, 7), 0);
}
