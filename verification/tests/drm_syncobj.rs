use std::cell::{Cell, RefCell};
use std::collections::{BTreeMap, BTreeSet};

use scoot::dispatch::Verdict;
use scoot::drm_syncobj::acquire::{
    blocker_state, ordered, pre_commit, refuse_wait, BlockerState, Commit, CommitOutcome, SyncPoint,
};
use scoot::drm_syncobj::{
    DrmSyncobj, ExplicitBuffers, MAX_ACQUIRE_WAITS_PER_CLIENT, MAX_TIMELINES_PER_CLIENT,
    PRESSURE_GRACE_ACQUIRE_WAITS, PRESSURE_GRACE_TIMELINES,
};
use scoot::protocol::{Destroyed, Interface, ProtocolError, Request, INVALID_TIMELINE};
use scoot::state::State;

const CLIENT: u64 = 1;
const OTHER: u64 = 2;
const TIMELINE: u64 = 77;

/// A commit that has not applied yet.
struct Queued {
    buffer: u64,
    release: u64,
    /// What it waits for, unless its point has signalled.
    wait: Option<Wait>,
}

struct Wait {
    acquire: u64,
    key: u64,
    token: u64,
}

/// A surface, with its commits in order behind the one that is shown.
#[derive(Default)]
struct Surface {
    shown: Option<(u64, u64)>,
    queue: Vec<Queued>,
}

/// One client's surfaces on a session that offers explicit sync, and the timeline they share.
struct Session {
    state: State,
    surfaces: BTreeMap<u64, Surface>,
    /// The highest point that the client signalled.
    reached: u64,
    /// The release points that were signalled.
    released: BTreeSet<u64>,
    sources: RefCell<BTreeSet<u64>>,
    next: u64,
}

impl Session {
    fn new() -> Self {
        let mut state = State::new(1);
        assert!(state.drm_syncobj.enable(1, |_i| Some(9), |_device| true));
        Session {
            state,
            surfaces: BTreeMap::new(),
            reached: 0,
            released: BTreeSet::new(),
            sources: RefCell::new(BTreeSet::new()),
            next: 0,
        }
    }

    fn new_surface(&mut self) -> u64 {
        self.next += 1;
        self.surfaces.insert(self.next, Surface::default());
        self.next
    }

    fn commit_of(&mut self, surface: u64, commit: Commit) -> CommitOutcome {
        let (reached, sources) = (self.reached, &self.sources);
        let acquire = commit.acquire.map_or(0, |point| point.point);
        let release = commit.release.map_or(0, |point| point.point);
        let outcome = pre_commit(
            &mut self.state.drm_syncobj.waits,
            &mut self.state.drm_syncobj.explicit,
            Some(CLIENT),
            surface,
            commit,
            || acquire <= reached,
            || false,
            || true,
            |key| {
                sources.borrow_mut().insert(1000 + key);
                Some(1000 + key)
            },
        );
        let wait = match outcome {
            CommitOutcome::Wait { key, token } => Some(Wait { acquire, key, token }),
            CommitOutcome::Refuse { .. } => {
                self.disconnect();
                return outcome;
            }
            _ => None,
        };
        let queued = Queued { buffer: commit.buffer.unwrap_or(0), release, wait };
        self.surfaces.get_mut(&surface).expect("a live surface").queue.push(queued);
        self.settle();
        outcome
    }

    /// Commits a fresh dma-buf with an acquire and a release point; answers the buffer.
    fn commit(&mut self, surface: u64, acquire: u64, release: u64) -> (u64, CommitOutcome) {
        self.next += 1;
        let buffer = self.next;
        let outcome = self.commit_of(surface, explicit(buffer, acquire, release));
        (buffer, outcome)
    }

    /// Signals a point and every point below it: the waits on them fire.
    fn signal(&mut self, point: u64) {
        self.reached = self.reached.max(point);
        for (surface, kept) in &mut self.surfaces {
            for queued in &mut kept.queue {
                if let Some(wait) = &queued.wait {
                    if wait.acquire <= point {
                        self.state.drm_syncobj.waits.finished(CLIENT, *surface, wait.key);
                        self.sources.borrow_mut().remove(&wait.token);
                        queued.wait = None;
                    }
                }
            }
        }
        self.settle();
    }

    /// Applies every commit that waits for nothing and is behind nothing.
    fn settle(&mut self) {
        for surface in self.surfaces.values_mut() {
            while surface.queue.first().is_some_and(|queued| queued.wait.is_none()) {
                let queued = surface.queue.remove(0);
                if let Some((_, release)) = surface.shown.replace((queued.buffer, queued.release)) {
                    self.released.insert(release);
                }
            }
        }
    }

    fn destroy_surface(&mut self, surface: u64) {
        let gone = self.state.drm_syncobj.forget_surface(CLIENT, surface);
        for wait in gone.unwrap_or_default() {
            self.sources.borrow_mut().remove(&wait.1);
        }
        self.surfaces.remove(&surface);
    }

    fn disconnect(&mut self) {
        let surfaces: Vec<u64> = self.surfaces.keys().copied().collect();
        for surface in surfaces {
            self.destroy_surface(surface);
        }
    }

    fn has_buffer(&self, surface: u64) -> bool {
        self.surfaces[&surface].shown.is_some()
    }

    fn waits(&self) -> u32 {
        self.state.drm_syncobj.waits.in_flight()
    }

    fn waiting_surfaces(&self) -> usize {
        self.state.drm_syncobj.waits.surfaces_tracked()
    }
}

fn explicit(buffer: u64, acquire: u64, release: u64) -> Commit {
    Commit {
        buffer: Some(buffer),
        dmabuf: true,
        acquire: Some(SyncPoint { timeline: TIMELINE, point: acquire }),
        release: Some(SyncPoint { timeline: TIMELINE, point: release }),
    }
}

// -- where the global exists ------------------------------------------------

#[test]
fn the_global_is_not_offered_unless_enabled() {
    let mut syncobj = DrmSyncobj::new();
    assert!(!syncobj.active());
    assert!(syncobj.forget_surface(CLIENT, 1).is_none());
}

#[test]
fn the_global_is_offered_once_enabled() {
    let mut syncobj = DrmSyncobj::new();
    assert!(syncobj.enable(1, |_i| Some(9), |_device| true));
    assert!(syncobj.active());
    assert_eq!(syncobj.device, Some(9));
}

#[test]
fn enabling_twice_keeps_one_global() {
    let mut syncobj = DrmSyncobj::new();
    assert!(syncobj.enable(1, |_i| Some(9), |_device| true));
    assert!(syncobj.enable(1, |_i| panic!("already offered"), |_device| true));
    assert_eq!(syncobj.device, Some(9));
}

#[test]
fn candidates_that_fail_or_cannot_open_fall_through_to_one_that_passes() {
    let mut syncobj = DrmSyncobj::new();
    let candidates = [Some(3), None, Some(5), Some(6)];
    let opened = Cell::new(0);
    let offered = syncobj.enable(
        candidates.len(),
        |i| {
            opened.set(opened.get() + 1);
            candidates[i]
        },
        |device| device != 3,
    );
    assert!(offered);
    assert_eq!(syncobj.device, Some(5));
    assert_eq!(opened.get(), 3, "nothing after the first that passes is opened");
}

#[test]
fn no_passing_candidate_offers_nothing() {
    let mut syncobj = DrmSyncobj::new();
    let candidates = [Some(3), None];
    assert!(!syncobj.enable(2, |i| candidates[i], |_device| false));
    assert!(!syncobj.active());
}

// -- acquire points ---------------------------------------------------------

#[test]
fn a_commit_waits_for_its_acquire_point() {
    let mut session = Session::new();
    let surface = session.new_surface();
    session.commit(surface, 1, 2);
    assert!(
        !session.has_buffer(surface),
        "the buffer must not be applied before its acquire point signals"
    );
    assert_eq!(session.waits(), 1);

    session.signal(1);
    assert!(session.has_buffer(surface), "the commit applies once the point signals");
    assert_eq!(session.waits(), 0);
    assert_eq!(session.state.drm_syncobj.explicit.len(), 1);
}

#[test]
fn an_already_signalled_acquire_point_is_not_waited_on() {
    let mut session = Session::new();
    let surface = session.new_surface();
    session.signal(5);
    let (_, outcome) = session.commit(surface, 5, 6);
    assert_eq!(outcome, CommitOutcome::Apply);
    assert!(session.has_buffer(surface));
    assert_eq!(session.waits(), 0);
    assert_eq!(session.waiting_surfaces(), 0, "the fast path creates no per-surface record");
}

#[test]
fn later_commits_queue_behind_a_waiting_one_and_apply_in_order() {
    let mut session = Session::new();
    let surface = session.new_surface();
    let (first, _) = session.commit(surface, 5, 100);
    let (second, _) = session.commit(surface, 3, 200);
    assert!(!session.has_buffer(surface));
    assert_eq!(session.waits(), 2);
    session.signal(3);
    assert!(!session.has_buffer(surface));
    assert_eq!(session.waits(), 1);
    session.signal(5);
    assert!(session.has_buffer(surface));
    assert_eq!(session.waits(), 0);
    assert!(session.released.contains(&100), "buffer {first} was replaced");
    assert!(!session.released.contains(&200), "buffer {second} is still on screen");
}

#[test]
fn a_never_signalled_point_stalls_only_its_own_surface() {
    let mut session = Session::new();
    let stuck = session.new_surface();
    let free = session.new_surface();
    session.commit(stuck, 1000, 1001);
    session.signal(7);
    session.commit(free, 7, 8);
    assert!(!session.has_buffer(stuck), "the stuck surface waits");
    assert!(session.has_buffer(free), "a sibling surface of the same client is not held behind it");
    assert_eq!(session.waits(), 1);
}

#[test]
fn destroying_a_surface_mid_wait_removes_its_eventfd_source() {
    let mut session = Session::new();
    let surface = session.new_surface();
    session.commit(surface, 1, 2);
    let tokens = session.state.drm_syncobj.waits.tokens_for(CLIENT, surface);
    assert_eq!(tokens.len(), 1);
    assert!(session.sources.borrow().contains(&tokens[0]), "the wait's source is registered");

    session.destroy_surface(surface);
    assert_eq!(session.waits(), 0);
    assert_eq!(session.waiting_surfaces(), 0);
    assert!(!session.sources.borrow().contains(&tokens[0]), "the source went with the surface");
    session.signal(1);
    let again = session.new_surface();
    session.signal(9);
    session.commit(again, 9, 10);
    assert!(session.has_buffer(again), "the client carries on");
}

#[test]
fn a_disconnect_mid_wait_removes_every_eventfd_source() {
    let mut session = Session::new();
    let first = session.new_surface();
    let second = session.new_surface();
    session.commit(first, 1, 2);
    session.commit(second, 3, 4);
    session.commit(second, 5, 6);
    let mut tokens = session.state.drm_syncobj.waits.tokens_for(CLIENT, first);
    tokens.extend(session.state.drm_syncobj.waits.tokens_for(CLIENT, second));
    assert_eq!(tokens.len(), 3);
    assert_eq!(session.waits(), 3);

    session.disconnect();
    assert_eq!(session.waits(), 0);
    assert_eq!(session.waiting_surfaces(), 0);
    assert!(session.sources.borrow().is_empty());
}

#[test]
fn outstanding_waits_are_bounded_per_client() {
    let mut session = Session::new();
    let surface = session.new_surface();
    let mut outcome = CommitOutcome::Apply;
    for point in 0..=u64::from(MAX_ACQUIRE_WAITS_PER_CLIENT) {
        outcome = session.commit(surface, 1000 + point, 5000 + point).1;
    }
    assert_eq!(outcome, CommitOutcome::Refuse { live: MAX_ACQUIRE_WAITS_PER_CLIENT });
    assert!(refuse_wait(MAX_ACQUIRE_WAITS_PER_CLIENT).contains("64"));
    assert_eq!(session.waits(), 0, "the killed client's waits are all gone");
    assert_eq!(session.waiting_surfaces(), 0);
}

#[test]
fn tests_exactly_the_bound_is_allowed() {
    let mut session = Session::new();
    let surface = session.new_surface();
    for point in 0..u64::from(MAX_ACQUIRE_WAITS_PER_CLIENT) {
        let (_, outcome) = session.commit(surface, 1000 + point, 5000 + point);
        assert!(matches!(outcome, CommitOutcome::Wait { .. }), "commit {point}: {outcome:?}");
    }
    assert_eq!(session.waits(), MAX_ACQUIRE_WAITS_PER_CLIENT);
}

#[test]
fn a_malformed_commit_gets_smithays_error_and_no_wait() {
    let mut session = Session::new();
    let surface = session.new_surface();
    let malformed = Commit { release: None, ..explicit(3, 1, 2) };
    assert_eq!(session.commit_of(surface, malformed), CommitOutcome::Apply);
    assert_eq!(session.waits(), 0, "no eventfd for a commit that is refused");
    let backwards = explicit(4, 9, 9);
    assert_eq!(session.commit_of(surface, backwards), CommitOutcome::Apply);
    let shm = Commit { dmabuf: false, ..explicit(5, 9, 10) };
    assert_eq!(session.commit_of(surface, shm), CommitOutcome::Apply);
    assert_eq!(session.state.drm_syncobj.explicit.len(), 0);
}

#[test]
fn a_destroyed_buffer_leaves_the_explicit_set() {
    let mut session = Session::new();
    let surface = session.new_surface();
    session.signal(1);
    let (first, _) = session.commit(surface, 1, 2);
    session.signal(3);
    session.commit(surface, 3, 4);
    assert_eq!(session.state.drm_syncobj.explicit.len(), 2);
    session.state.destroyed(CLIENT, Destroyed::Buffer { buffer: first });
    assert_eq!(session.state.drm_syncobj.explicit.len(), 1);
}

#[test]
fn a_buffer_committed_without_points_is_implicit_again() {
    let mut buffers = ExplicitBuffers::new();
    assert!(buffers.is_empty());
    buffers.note(4, true);
    buffers.note(5, true);
    assert!(buffers.contains(4) && buffers.len() == 2);
    buffers.note(4, false);
    assert!(!buffers.contains(4) && buffers.contains(5));
    buffers.forget(5);
    assert!(buffers.is_empty());
}

#[test]
fn a_wait_that_cannot_be_set_up_lets_the_commit_apply() {
    let mut session = Session::new();
    let waits = &mut session.state.drm_syncobj.waits;
    let explicit_buffers = &mut session.state.drm_syncobj.explicit;
    for (blocker, first) in [(false, true), (true, false)] {
        let outcome = pre_commit(
            waits,
            explicit_buffers,
            Some(CLIENT),
            1,
            explicit(1, 5, 6),
            || false,
            || panic!("a client with no waits is not measured"),
            || blocker,
            |_key| None,
        );
        assert_eq!(outcome, CommitOutcome::Unsynchronised { first });
    }
    assert_eq!(waits.in_flight(), 0);
}

#[test]
fn a_pressured_table_cuts_a_client_off_past_its_grace() {
    let mut session = Session::new();
    for point in 0..=u64::from(PRESSURE_GRACE_ACQUIRE_WAITS) {
        let surface = session.new_surface();
        session.commit(surface, 1000 + point, 5000 + point);
    }
    let outcome = pre_commit(
        &mut session.state.drm_syncobj.waits,
        &mut session.state.drm_syncobj.explicit,
        Some(CLIENT),
        99,
        explicit(1, 5, 6),
        || false,
        || true,
        || panic!("refused before a blocker is made"),
        |_key| None,
    );
    assert_eq!(outcome, CommitOutcome::Refuse { live: PRESSURE_GRACE_ACQUIRE_WAITS + 1 });
    let text = refuse_wait(PRESSURE_GRACE_ACQUIRE_WAITS + 1);
    assert!(text.contains("17 commits waiting"), "{text}");
}

#[test]
fn a_commit_without_a_client_never_waits() {
    let mut session = Session::new();
    let outcome = pre_commit(
        &mut session.state.drm_syncobj.waits,
        &mut session.state.drm_syncobj.explicit,
        None,
        1,
        explicit(1, 5, 6),
        || false,
        || panic!("nobody to measure"),
        || panic!("nothing to hold"),
        |_key| None,
    );
    assert_eq!(outcome, CommitOutcome::Apply);
}

#[test]
fn points_on_one_timeline_are_in_order() {
    let point = |timeline, point| SyncPoint { timeline, point };
    assert!(ordered(point(1, 5), point(1, 6)));
    assert!(!ordered(point(1, 5), point(1, 5)));
    assert!(!ordered(point(1, 5), point(1, 4)));
    assert!(ordered(point(1, 5), point(2, 4)), "two timelines have no order");
}

#[test]
fn a_blocker_is_released_early_with_its_surface() {
    for state in [BlockerState::Pending, BlockerState::Released, BlockerState::Cancelled] {
        assert_eq!(blocker_state(true, state), BlockerState::Released);
        assert_eq!(blocker_state(false, state), state);
    }
}

// -- timelines --------------------------------------------------------------

/// A client's timelines: the fds that are open here, and how many live objects it has.
struct Timelines {
    state: State,
    open: BTreeSet<i32>,
    objects: u32,
}

impl Timelines {
    /// A client that has imported one timeline.
    fn new() -> Self {
        let mut timelines =
            Timelines { state: State::new(1), open: BTreeSet::new(), objects: 0 };
        timelines.import(true).expect("the first timeline");
        timelines
    }

    /// Imports a timeline on the lowest free number. Its fd stays open as long as something refers
    /// to it: its object, or a point set on it (`referenced`).
    fn import(&mut self, referenced: bool) -> Result<i32, ProtocolError> {
        let fd = (20..).find(|fd| !self.open.contains(fd)).expect("a free number");
        let open = self.open.clone();
        let verdict = self.state.request(
            CLIENT,
            Request::ImportTimeline { fd },
            |_fd, _size| true,
            || false,
            |fd| open.contains(&fd),
            |_surface, _parent| false,
        );
        match verdict {
            Verdict::Delegate => {
                self.objects += 1;
                self.open.insert(fd);
                if !referenced {
                    self.destroy();
                    self.open.remove(&fd);
                }
                Ok(fd)
            }
            Verdict::Refuse(error) => {
                self.disconnect();
                Err(error)
            }
            Verdict::Refused => panic!("nothing here nests subsurfaces"),
        }
    }

    /// Destroys a timeline object; a point on it may keep its fd.
    fn destroy(&mut self) {
        self.objects -= 1;
        self.state.destroyed(CLIENT, Destroyed::Timeline);
    }

    /// A surface with points on two fresh timelines whose objects are then destroyed, `surfaces`
    /// times; answers at which surface the client was killed, if it was.
    fn hoard(&mut self, surfaces: u32) -> Result<Vec<i32>, (u32, ProtocolError)> {
        let mut fds = Vec::new();
        for surface in 1..=surfaces {
            for _ in 0..2 {
                fds.push(self.import(true).map_err(|error| (surface, error))?);
            }
            self.destroy();
            self.destroy();
        }
        Ok(fds)
    }

    fn disconnect(&mut self) {
        while self.objects > 0 {
            self.destroy();
        }
        self.open.clear();
    }

    /// How many timelines a sweep finds still held.
    fn in_flight(&mut self) -> u32 {
        let open = self.open.clone();
        self.state.drm_syncobj.retained.sweep(CLIENT, |fd| open.contains(&fd))
    }
}

#[test]
fn live_timelines_are_bounded_per_client() {
    let mut timelines = Timelines::new();
    let mut refused = None;
    for _ in 0..MAX_TIMELINES_PER_CLIENT {
        refused = timelines.import(true).err();
    }
    let error = refused.expect("the import past the bound");
    assert_eq!((error.interface, error.code), (Interface::SyncobjManager, INVALID_TIMELINE));
    assert_eq!(timelines.in_flight(), 0, "the killed client's timelines are all released");
    assert_eq!(timelines.state.drm_syncobj.timelines_for(CLIENT), 0);
}

#[test]
fn pending_points_on_destroyed_timelines_count_against_the_bound() {
    let mut timelines = Timelines::new();
    let (surface, error) =
        timelines.hoard(MAX_TIMELINES_PER_CLIENT).expect_err("past the bound");
    assert_eq!(surface, 64);
    assert_eq!((error.interface, error.code), (Interface::SyncobjManager, INVALID_TIMELINE));
    assert_eq!(error.interface.name(), "wp_linux_drm_syncobj_manager_v1");
    assert!(
        error.message.contains("destroyed ones its sync points still reference"),
        "{}",
        error.message
    );
    assert_eq!(timelines.in_flight(), 0);
}

#[test]
fn committed_points_on_destroyed_timelines_count_against_the_bound() {
    // Committing the points changes nothing of what they keep open.
    let mut timelines = Timelines::new();
    let mut refused = None;
    for surface in 1..=u64::from(MAX_TIMELINES_PER_CLIENT) {
        if let Err((_, error)) = timelines.hoard(1) {
            refused = Some((surface, error));
            break;
        }
        let syncobj = &mut timelines.state.drm_syncobj;
        let outcome = pre_commit(
            &mut syncobj.waits,
            &mut syncobj.explicit,
            Some(CLIENT),
            surface,
            explicit(1, 1, 2),
            || true,
            || panic!("nothing waits"),
            || panic!("nothing waits"),
            |_key| None,
        );
        assert_eq!(outcome, CommitOutcome::Apply);
    }
    let (surface, error) = refused.expect("past the bound");
    assert_eq!(surface, 64);
    assert_eq!(error.code, INVALID_TIMELINE);
    assert_eq!(timelines.in_flight(), 0);
}

#[test]
fn timelines_held_by_points_stop_counting_when_the_points_go() {
    let mut timelines = Timelines::new();
    let fds = timelines.hoard(40).expect("under the bound");
    assert_eq!(timelines.in_flight(), 81, "setup's, and two per surface: every one still open");
    for fd in fds {
        timelines.open.remove(&fd);
    }
    assert_eq!(timelines.in_flight(), 1, "just setup's");
    for _ in 0..MAX_TIMELINES_PER_CLIENT - 1 {
        timelines.import(true).expect("a whole cap's worth again");
    }
    assert_eq!(timelines.in_flight(), MAX_TIMELINES_PER_CLIENT);
}

#[test]
fn an_import_smithay_refuses_leaves_nothing_counted() {
    let mut timelines = Timelines::new();
    // Recorded before it is served; the refusal there kills the client and closes the fd.
    timelines.import(true).expect("delegated");
    timelines.disconnect();
    assert_eq!(timelines.in_flight(), 0);
}

#[test]
fn destroyed_timelines_do_not_count_against_the_bound() {
    let mut timelines = Timelines::new();
    for _ in 0..MAX_TIMELINES_PER_CLIENT * 2 {
        timelines.import(false).expect("each closes at once");
    }
    assert_eq!(timelines.in_flight(), 1, "just setup's");
}

#[test]
fn a_pressured_table_refuses_timelines_past_the_grace() {
    let mut syncobj = DrmSyncobj::new();
    for fd in 0..=PRESSURE_GRACE_TIMELINES as i32 {
        let refused = syncobj.reject_excess_timeline(CLIENT, fd, |_fd| true, || true);
        assert_eq!(refused, None, "timeline {fd}");
    }
    let error = syncobj
        .reject_excess_timeline(CLIENT, 500, |_fd| true, || true)
        .expect("one past the grace");
    assert!(error.message.contains("pressure"), "{}", error.message);
    assert_eq!(syncobj.reject_excess_timeline(OTHER, 501, |_fd| true, || true), None);
}

#[test]
fn live_objects_are_bounded_behind_the_fds() {
    let mut syncobj = DrmSyncobj::new();
    for _ in 0..MAX_TIMELINES_PER_CLIENT {
        assert!(!syncobj.claim_timeline(CLIENT));
    }
    assert!(syncobj.claim_timeline(CLIENT));
    let error = syncobj
        .reject_excess_timeline(CLIENT, 5, |_fd| true, || false)
        .expect("too many live objects");
    assert!(error.message.contains("maximum of 128 live timelines"), "{}", error.message);
    syncobj.forget_timeline(CLIENT);
    assert_eq!(syncobj.reject_excess_timeline(CLIENT, 5, |_fd| true, || false), None);
}

#[test]
fn an_fd_that_arrives_any_other_way_forgets_its_record() {
    let mut state = State::new(1);
    let send = |state: &mut State, request| {
        state.request(
            CLIENT,
            request,
            |_fd, _size| true,
            || false,
            |_fd| true,
            |_surface, _parent| false,
        )
    };
    for fd in [30, 31] {
        assert_eq!(send(&mut state, Request::ImportTimeline { fd }), Verdict::Delegate);
    }
    assert_eq!(state.drm_syncobj.retained.held_by(CLIENT), 2);
    send(&mut state, Request::CreatePool { size: 4096, fd: 30 });
    send(&mut state, Request::AddPlane { params: 1, fd: 31 });
    assert_eq!(state.drm_syncobj.retained.held_by(CLIENT), 0);
}
