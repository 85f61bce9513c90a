use std::cell::Cell;
use std::collections::BTreeMap;

use scoot::dispatch::{
    note_assigned_toplevel_icon, prepare_post_destroy_lock_commit, pressure_refusal,
    pressure_refusal_for, reject_excess_buffer, reject_excess_capture_frame,
    reject_excess_shm_pool, reject_frozen_toplevel_icon_request, reject_invalid_shm_pool_resize,
    reject_oversized_shm_pool_creation, reject_too_deep_subsurface,
    reject_unrepresentable_layer_size, too_large, too_many_buffers,
    too_many_buffers_under_pressure, too_many_pools, too_many_pools_under_pressure, Aftermath,
    Verdict, MAX_LAYER_DIMENSION, MAX_SHM_POOL_BYTES,
};
use scoot::counts::LiveCounts;
use scoot::dmabuf::ImportOutcome;
use scoot::protocol::{
    Destroyed, Interface, ProtocolError, Request, DUPLICATE_FRAME, IMMUTABLE, INVALID_FD,
    INVALID_SIZE, INVALID_STRIDE,
};
use scoot::state::{
    State, MAX_BUFFERS_PER_CLIENT, MAX_POOLS_PER_CLIENT, PRESSURE_GRACE_BUFFERS,
    PRESSURE_GRACE_POOLS,
};

const OFFENDER: u64 = 1;
const SURVIVOR: u64 = 2;

/// A session whose clients are killed by the errors they provoke, with every object they hold.
struct Session {
    state: State,
    /// The live objects of each client.
    objects: BTreeMap<u64, Vec<Destroyed>>,
    mappable: bool,
    pressured: bool,
    next: u64,
}

impl Session {
    fn new() -> Self {
        Session {
            state: State::new(4),
            objects: BTreeMap::new(),
            mappable: true,
            pressured: false,
            next: 0,
        }
    }

    /// Hands a request of `client` to the guards; what it creates lives until it is destroyed, and
    /// an error kills the client.
    fn send(&mut self, client: u64, request: Request) -> Result<(), ProtocolError> {
        let (mappable, pressured) = (self.mappable, self.pressured);
        let verdict = self.state.request(
            client,
            request,
            |_fd, _size| mappable,
            || pressured,
            |_fd| true,
            |_surface, _parent| false,
        );
        match verdict {
            Verdict::Delegate => {
                self.next += 1;
                let created = match request {
                    Request::CreatePool { .. } => Some(Destroyed::Pool),
                    Request::CreateShmBuffer
                    | Request::CreateSinglePixelBuffer
                    | Request::CreateDmabufImmed { .. } => {
                        Some(Destroyed::Buffer { buffer: self.next })
                    }
                    Request::CreateCaptureFrame => Some(Destroyed::CaptureFrame),
                    _ => None,
                };
                self.objects.entry(client).or_default().extend(created);
                Ok(())
            }
            Verdict::Refuse(error) => {
                self.disconnect(client);
                Err(error)
            }
            Verdict::Refused => panic!("nothing here nests subsurfaces"),
        }
    }

    fn destroy(&mut self, client: u64, object: Destroyed) -> Aftermath {
        let held = self.objects.entry(client).or_default();
        let at = held.iter().position(|held| *held == object).expect("a live object");
        held.remove(at);
        self.state.destroyed(client, object)
    }

    /// Every object of a client that is gone is destroyed.
    fn disconnect(&mut self, client: u64) {
        for object in self.objects.remove(&client).unwrap_or_default() {
            self.state.destroyed(client, object);
        }
    }

    fn create_pool(&mut self, client: u64, size: i32) -> Result<(), ProtocolError> {
        self.send(client, Request::CreatePool { size, fd: 9 })
    }

    fn create_pools(&mut self, client: u64, count: u32) -> Result<(), ProtocolError> {
        for _ in 0..count {
            self.create_pool(client, 4096)?;
        }
        Ok(())
    }

    /// A pool, a buffer in it, and the pool destroyed: the buffer keeps the mapping.
    fn bypass_once(&mut self, client: u64) -> Result<(), ProtocolError> {
        self.create_pool(client, 4096)?;
        self.send(client, Request::CreateShmBuffer)?;
        self.destroy(client, Destroyed::Pool);
        Ok(())
    }

    fn bypass(&mut self, client: u64, count: u32) -> Result<(), ProtocolError> {
        for _ in 0..count {
            self.bypass_once(client)?;
        }
        Ok(())
    }

    fn destroy_buffers(&mut self, client: u64) {
        let held = self.objects.get(&client).cloned().unwrap_or_default();
        for object in held {
            if matches!(object, Destroyed::Buffer { .. }) {
                self.destroy(client, object);
            }
        }
    }

    /// A second client grows a pool the way a toolkit does, whatever the first did.
    fn assert_survivor_still_served(&mut self) {
        self.create_pool(SURVIVOR, 4096).expect("a survivor's pool");
        self.send(SURVIVOR, Request::ResizePool { size: 8192 }).expect("a survivor's resize");
        self.disconnect(SURVIVOR);
    }

    fn pools(&self) -> u32 {
        self.state.shm_pools.in_flight()
    }

    fn buffers(&self) -> u32 {
        self.state.wl_buffers.in_flight()
    }
}

fn assert_refused(result: Result<(), ProtocolError>, interface: &str, code: u32) -> String {
    let error = result.expect_err("the request was accepted");
    assert_eq!(error.code, code, "{error:?}");
    assert_eq!(error.interface.name(), interface, "{error:?}");
    error.message
}

// -- resizes ----------------------------------------------------------------

#[test]
fn a_zero_sized_pool_resize_kills_only_the_client_that_asked() {
    let mut session = Session::new();
    session.create_pool(OFFENDER, 1).unwrap();
    let resize = session.send(OFFENDER, Request::ResizePool { size: 0 });
    assert_refused(resize, "wl_shm_pool", INVALID_FD);
    session.assert_survivor_still_served();
}

#[test]
fn a_negative_pool_resize_kills_only_the_client_that_asked() {
    let mut session = Session::new();
    session.create_pool(OFFENDER, 1).unwrap();
    let resize = session.send(OFFENDER, Request::ResizePool { size: -1 });
    assert_refused(resize, "wl_shm_pool", INVALID_FD);
    session.assert_survivor_still_served();
}

#[test]
fn a_resize_up_to_the_cap_is_accepted() {
    for size in [MAX_SHM_POOL_BYTES - 1, MAX_SHM_POOL_BYTES] {
        let mut session = Session::new();
        session.create_pool(OFFENDER, 1).unwrap();
        if let Err(error) = session.send(OFFENDER, Request::ResizePool { size }) {
            panic!("a {size}-byte pool resize was refused: {error:?}");
        }
        session.assert_survivor_still_served();
    }
}

#[test]
fn a_resize_past_the_cap_kills_only_the_client_that_asked() {
    for size in [MAX_SHM_POOL_BYTES + 1, i32::MAX] {
        let mut session = Session::new();
        session.create_pool(OFFENDER, 1).unwrap();
        let resize = session.send(OFFENDER, Request::ResizePool { size });
        assert_refused(resize, "wl_shm_pool", INVALID_FD);
        session.assert_survivor_still_served();
    }
}

// -- pool sizes -------------------------------------------------------------

#[test]
fn creating_a_pool_up_to_the_cap_is_accepted() {
    for size in [MAX_SHM_POOL_BYTES - 1, MAX_SHM_POOL_BYTES] {
        let mut session = Session::new();
        if let Err(error) = session.create_pool(OFFENDER, size) {
            panic!("a {size}-byte pool was refused at creation: {error:?}");
        }
        session.assert_survivor_still_served();
    }
}

#[test]
fn creating_a_pool_past_the_cap_kills_only_the_client_that_asked() {
    for size in [MAX_SHM_POOL_BYTES + 1, i32::MAX] {
        let mut session = Session::new();
        let created = session.create_pool(OFFENDER, size);
        assert_refused(created, "wl_shm", INVALID_STRIDE);
        session.assert_survivor_still_served();
    }
}

#[test]
fn an_oversized_create_consumes_no_count_budget() {
    let mut session = Session::new();
    let created = session.create_pool(OFFENDER, MAX_SHM_POOL_BYTES + 1);
    assert_refused(created, "wl_shm", INVALID_STRIDE);
    session.assert_survivor_still_served();
    assert_eq!(session.pools(), 0, "a pool refused by the per-pool cap must not be counted");
}

#[test]
fn a_zero_size_create_consumes_no_count_budget() {
    let mut session = Session::new();
    for size in [0, -1, i32::MIN] {
        let verdict = session.state.request(
            OFFENDER,
            Request::CreatePool { size, fd: 9 },
            |_fd, _size| panic!("a pool without a size is not mapped"),
            || panic!("nor is the fd table observed"),
            |_fd| true,
            |_surface, _parent| false,
        );
        assert_eq!(verdict, Verdict::Delegate, "left to be refused where it is served");
    }
    session.assert_survivor_still_served();
    assert_eq!(session.pools(), 0, "a pool refused by upstream must not be counted");
}

#[test]
fn an_unmappable_fd_create_consumes_no_count_budget() {
    let mut session = Session::new();
    session.mappable = false;
    let created = session.create_pool(OFFENDER, 4096);
    let message = assert_refused(created, "wl_shm", INVALID_FD);
    assert!(message.contains('9'), "{message}");
    session.mappable = true;
    session.assert_survivor_still_served();
    assert_eq!(session.pools(), 0, "a pool that was never created must not be counted");
}

#[test]
fn the_mapping_is_tried_with_the_pools_own_fd_and_size() {
    let mut pools = LiveCounts::new(MAX_POOLS_PER_CLIENT);
    let tried = Cell::new(None);
    let refused = reject_excess_shm_pool(
        &mut pools,
        OFFENDER,
        Request::CreatePool { size: 4096, fd: 17 },
        |fd: i32, size: usize| {
            tried.set(Some((fd, size)));
            true
        },
        || panic!("a client with no pools is not measured"),
    );
    assert_eq!(refused, None);
    assert_eq!(tried.get(), Some((17, 4096)));
    assert_eq!(pools.live_for(OFFENDER), 1);
}

// -- live pools -------------------------------------------------------------

#[test]
fn creating_pools_past_the_count_cap_kills_only_the_client_that_asked() {
    let mut session = Session::new();
    let created = session.create_pools(OFFENDER, MAX_POOLS_PER_CLIENT + 1);
    assert_refused(created, "wl_shm", INVALID_STRIDE);
    session.assert_survivor_still_served();
    assert_eq!(
        session.pools(),
        0,
        "the killed client's pools must drain with it, or the count leaks per kill"
    );
}

#[test]
fn destroying_pools_reopens_headroom() {
    let mut session = Session::new();
    session.create_pools(OFFENDER, MAX_POOLS_PER_CLIENT).unwrap();
    for _ in 0..MAX_POOLS_PER_CLIENT {
        session.destroy(OFFENDER, Destroyed::Pool);
    }
    if let Err(error) = session.create_pool(OFFENDER, 4096) {
        panic!("a pool created after destroying a full cap was refused: {error:?}");
    }
    session.assert_survivor_still_served();
}

#[test]
fn a_second_client_is_unaffected_by_the_first_clients_full_cap() {
    let mut session = Session::new();
    if let Err(error) = session.create_pools(OFFENDER, MAX_POOLS_PER_CLIENT) {
        panic!("filling exactly to the cap was refused: {error:?}");
    }
    session.assert_survivor_still_served();
    assert_eq!(session.pools(), MAX_POOLS_PER_CLIENT);
}

#[test]
fn disconnecting_with_live_pools_drains_the_count() {
    let mut session = Session::new();
    if let Err(error) = session.create_pools(OFFENDER, 3) {
        panic!("creating three small pools was refused: {error:?}");
    }
    session.disconnect(OFFENDER);
    session.assert_survivor_still_served();
    assert_eq!(session.pools(), 0, "live pools must drain on disconnect");
}

#[test]
fn resizing_a_pool_leaves_the_count_alone() {
    let mut session = Session::new();
    session.create_pool(OFFENDER, 4096).unwrap();
    let mut size = 4096i32;
    for _ in 0..130 {
        size += 1024;
        if let Err(error) = session.send(OFFENDER, Request::ResizePool { size }) {
            panic!("growing one pool 130 times was refused: {error:?}");
        }
    }
    assert_eq!(session.pools(), 1);
    session.disconnect(OFFENDER);
    session.assert_survivor_still_served();
    assert_eq!(session.pools(), 0, "the grown pool must drain on disconnect");
}

// -- live buffers -----------------------------------------------------------

#[test]
fn retaining_a_buffer_past_its_pool_trips_the_buffer_cap() {
    let mut session = Session::new();
    let result = session.bypass(OFFENDER, MAX_BUFFERS_PER_CLIENT + 1);
    let message = assert_refused(result, "wl_shm_pool", INVALID_STRIDE);
    assert!(message.contains(&format!("maximum of {MAX_BUFFERS_PER_CLIENT} live buffers")));
    session.assert_survivor_still_served();
    assert_eq!(
        session.buffers(),
        0,
        "the killed client's buffers must drain with it, or the count leaks per kill"
    );
    assert_eq!(session.pools(), 0);
}

#[test]
fn destroying_a_pool_with_live_buffers_keeps_every_buffer_counted() {
    let mut session = Session::new();
    session.create_pool(OFFENDER, 4096).unwrap();
    for _ in 0..5 {
        session.send(OFFENDER, Request::CreateShmBuffer).unwrap();
    }
    session.destroy(OFFENDER, Destroyed::Pool);
    session.bypass(OFFENDER, MAX_BUFFERS_PER_CLIENT - 5).unwrap();
    let result = session.bypass_once(OFFENDER);
    let message = assert_refused(result, "wl_shm_pool", INVALID_STRIDE);
    assert!(message.contains(&format!("maximum of {MAX_BUFFERS_PER_CLIENT} live buffers")));
    session.assert_survivor_still_served();
    assert_eq!(session.buffers(), 0, "the killed client's buffers must drain");
}

#[test]
fn double_buffered_churn_and_a_burst_stay_far_from_the_cap() {
    let mut session = Session::new();
    session.create_pool(OFFENDER, 4096).unwrap();
    session.send(OFFENDER, Request::CreateShmBuffer).unwrap();
    session.send(OFFENDER, Request::CreateShmBuffer).unwrap();
    for _ in 0..20u32 {
        session.send(OFFENDER, Request::CreateShmBuffer).unwrap();
        let oldest = *session.objects[&OFFENDER]
            .iter()
            .find(|object| matches!(object, Destroyed::Buffer { .. }))
            .unwrap();
        session.destroy(OFFENDER, oldest);
    }
    for _ in 0..8u32 {
        if let Err(error) = session.send(OFFENDER, Request::CreateShmBuffer) {
            panic!("a double-buffered client with an 8-frame burst was refused: {error:?}");
        }
    }
    assert_eq!(session.buffers(), 10);
    session.destroy_buffers(OFFENDER);
    session.assert_survivor_still_served();
    assert_eq!(session.buffers(), 0, "destroyed buffers must release");
}

#[test]
fn a_second_client_buffers_while_the_first_sits_at_the_cap() {
    let mut session = Session::new();
    if let Err(error) = session.bypass(OFFENDER, MAX_BUFFERS_PER_CLIENT) {
        panic!("filling exactly to the cap was refused: {error:?}");
    }
    if let Err(error) = session.bypass_once(SURVIVOR) {
        panic!("a second client's first buffer was refused while another sat at the cap: {error:?}");
    }
}

#[test]
fn a_failed_buffer_creation_leaves_only_a_dead_unit() {
    let mut session = Session::new();
    session.create_pool(OFFENDER, 4096).unwrap();
    session.send(OFFENDER, Request::CreateShmBuffer).unwrap();
    // Where it is served the creation fails: the client dies, and the buffer never lived.
    session.objects.get_mut(&OFFENDER).unwrap().pop();
    session.disconnect(OFFENDER);
    session.assert_survivor_still_served();
    assert_eq!(session.buffers(), 1, "exactly one unit stays on a dead entry");
    assert_eq!(session.pools(), 0);
}

#[test]
fn disconnecting_with_live_buffers_drains_the_count() {
    let mut session = Session::new();
    session.create_pool(OFFENDER, 4096).unwrap();
    for _ in 0..3 {
        if let Err(error) = session.send(OFFENDER, Request::CreateShmBuffer) {
            panic!("creating three small buffers was refused: {error:?}");
        }
    }
    session.disconnect(OFFENDER);
    session.assert_survivor_still_served();
    assert_eq!(session.buffers(), 0, "live buffers must drain on disconnect");
    assert_eq!(session.pools(), 0, "the live pool must drain on disconnect");
}

#[test]
fn a_few_single_pixel_buffers_are_accepted() {
    let mut session = Session::new();
    for _ in 0..3u32 {
        if let Err(error) = session.send(OFFENDER, Request::CreateSinglePixelBuffer) {
            panic!("three single-pixel buffers were refused: {error:?}");
        }
    }
    assert_eq!(session.buffers(), 3);
    session.destroy_buffers(OFFENDER);
    session.assert_survivor_still_served();
    assert_eq!(session.buffers(), 0, "destroyed single-pixel buffers must release");
}

#[test]
fn flooding_single_pixel_buffers_trips_the_same_cap() {
    let mut session = Session::new();
    let mut result = Ok(());
    for _ in 0..=MAX_BUFFERS_PER_CLIENT {
        result = session.send(OFFENDER, Request::CreateSinglePixelBuffer);
    }
    let message = assert_refused(result, "wp_single_pixel_buffer_manager_v1", 0);
    assert!(message.contains(&format!("maximum of {MAX_BUFFERS_PER_CLIENT} live buffers")));
    session.assert_survivor_still_served();
    assert_eq!(session.buffers(), 0, "the killed client's buffers must drain with it");
}

#[test]
fn a_dmabuf_immed_past_a_full_budget_is_refused_before_validation() {
    let mut session = Session::new();
    session.bypass(OFFENDER, MAX_BUFFERS_PER_CLIENT).unwrap();
    session.send(OFFENDER, Request::AddPlane { params: 5, fd: 3 }).unwrap();
    let result = session.send(OFFENDER, Request::CreateDmabufImmed { params: 5 });
    let message = assert_refused(result, "zwp_linux_buffer_params_v1", 7);
    assert!(message.contains(&format!("maximum of {MAX_BUFFERS_PER_CLIENT} live buffers")));
    session.assert_survivor_still_served();
    assert_eq!(session.buffers(), 0, "the killed client's shm budget must drain with it");
}

#[test]
fn a_dmabuf_create_past_a_full_budget_is_refused_by_the_shared_budget() {
    let mut session = Session::new();
    session.bypass(OFFENDER, MAX_BUFFERS_PER_CLIENT).unwrap();
    session.send(OFFENDER, Request::AddPlane { params: 5, fd: 3 }).unwrap();
    let result = session.send(OFFENDER, Request::CreateDmabuf { params: 5 });
    let message = assert_refused(result, "zwp_linux_buffer_params_v1", 7);
    assert!(message.contains(&format!("maximum of {MAX_BUFFERS_PER_CLIENT} live buffers")));
    session.assert_survivor_still_served();
    assert_eq!(session.buffers(), 0, "the killed client's shm budget must drain with it");
}

#[test]
fn a_failed_dmabuf_import_kills_only_that_client_and_drains_its_budget() {
    let mut session = Session::new();
    session.state.backends.push(scoot::state::RendererKind::Pixman);
    session.send(OFFENDER, Request::AddPlane { params: 5, fd: 3 }).unwrap();
    session.send(OFFENDER, Request::CreateDmabufImmed { params: 5 }).unwrap();
    assert_eq!(session.buffers(), 1);
    let outcome = session.state.dmabuf_imported(
        Some(OFFENDER),
        |_backend| false,
        || None,
        |_dev, _ino| false,
        |_dev, _ino| None,
        Vec::new,
    );
    assert_eq!(outcome, ImportOutcome::Failed { backend: Some(0) });
    session.disconnect(OFFENDER);
    session.assert_survivor_still_served();
    assert_eq!(session.buffers(), 0, "the killed client's buffer budget must drain with it");
}

// -- pressure ---------------------------------------------------------------

#[test]
fn pressure_graces_are_128_buffers_and_64_pools() {
    assert_eq!(PRESSURE_GRACE_BUFFERS, 128);
    assert_eq!(PRESSURE_GRACE_POOLS, 64);
}

#[test]
fn at_grace_passes_even_under_pressure() {
    for grace in [PRESSURE_GRACE_BUFFERS, PRESSURE_GRACE_POOLS] {
        assert!(!pressure_refusal_for(0, grace, true), "an empty client is never refused");
        assert!(
            !pressure_refusal_for(grace - 1, grace, true),
            "one under grace passes under pressure"
        );
        assert!(!pressure_refusal_for(grace, grace, true), "at grace passes under pressure");
    }
}

#[test]
fn one_past_grace_refuses_under_pressure() {
    assert!(
        pressure_refusal_for(PRESSURE_GRACE_BUFFERS + 1, PRESSURE_GRACE_BUFFERS, true),
        "129 live buffers refuse under pressure"
    );
    assert!(
        pressure_refusal_for(PRESSURE_GRACE_POOLS + 1, PRESSURE_GRACE_POOLS, true),
        "65 live pools refuse under pressure"
    );
}

#[test]
fn past_grace_without_pressure_passes() {
    for grace in [PRESSURE_GRACE_BUFFERS, PRESSURE_GRACE_POOLS] {
        assert!(
            !pressure_refusal_for(grace + 1, grace, false),
            "past grace with a calm table passes"
        );
        assert!(
            !pressure_refusal_for(u32::MAX, grace, false),
            "any holding with a calm table passes"
        );
    }
}

#[test]
fn under_grace_with_pressure_passes() {
    for grace in [PRESSURE_GRACE_BUFFERS, PRESSURE_GRACE_POOLS] {
        for live in [0, 1, grace - 1, grace] {
            assert!(
                !pressure_refusal_for(live, grace, true),
                "live {live} under a {grace} grace passes under pressure"
            );
        }
    }
}

#[test]
fn a_client_under_its_grace_is_never_measured() {
    let measured = Cell::new(0);
    let observe = || {
        measured.set(measured.get() + 1);
        true
    };
    assert!(!pressure_refusal(10, 10, observe));
    assert_eq!(measured.get(), 0);
    assert!(pressure_refusal(11, 10, observe));
    assert_eq!(measured.get(), 1);
}

#[test]
fn a_pressured_table_refuses_the_first_object_past_its_grace() {
    let mut session = Session::new();
    session.pressured = true;
    session.create_pools(OFFENDER, PRESSURE_GRACE_POOLS + 1).unwrap();
    let message = assert_refused(session.create_pool(OFFENDER, 4096), "wl_shm", INVALID_STRIDE);
    assert_eq!(message, too_many_pools_under_pressure());

    let mut session = Session::new();
    session.pressured = true;
    for _ in 0..=PRESSURE_GRACE_BUFFERS {
        session.send(OFFENDER, Request::CreateSinglePixelBuffer).unwrap();
    }
    let refused = session.send(OFFENDER, Request::CreateSinglePixelBuffer);
    let message = assert_refused(refused, "wp_single_pixel_buffer_manager_v1", 0);
    assert_eq!(message, too_many_buffers_under_pressure());
    session.assert_survivor_still_served();
}

#[test]
fn a_full_cap_refuses_with_a_calm_table() {
    let mut buffers = LiveCounts::new(MAX_BUFFERS_PER_CLIENT);
    for _ in 0..MAX_BUFFERS_PER_CLIENT {
        assert!(!buffers.claim(OFFENDER));
    }
    let refused = reject_excess_buffer(&mut buffers, OFFENDER, Request::CreateShmBuffer, || false)
        .expect("the cap refuses");
    assert_eq!(refused.message, too_many_buffers());
    assert_eq!(buffers.live_for(OFFENDER), MAX_BUFFERS_PER_CLIENT);
}

// -- the texts --------------------------------------------------------------

#[test]
fn refusals_name_their_bounds() {
    assert!(too_large(7).contains('7'), "{}", too_large(7));
    assert!(too_large(i32::MIN).contains("-2147483648"), "{}", too_large(i32::MIN));
    assert!(too_large(7).contains(&MAX_SHM_POOL_BYTES.to_string()), "{}", too_large(7));
    assert!(too_many_pools().contains("128"), "{}", too_many_pools());
    assert!(too_many_buffers().contains("maximum of 512 live buffers"), "{}", too_many_buffers());
    assert!(!too_many_buffers_under_pressure().contains("maximum of"));
    assert!(!too_many_pools_under_pressure().contains("maximum of"));
}

// -- the guards one by one --------------------------------------------------

#[test]
fn guards_leave_other_requests_alone() {
    for request in [Request::Other, Request::CommitSurface { surface: 3 }] {
        assert_eq!(reject_invalid_shm_pool_resize(request), None);
        assert_eq!(reject_oversized_shm_pool_creation(request), None);
        assert_eq!(reject_unrepresentable_layer_size(request), None);
        assert!(!reject_too_deep_subsurface(request, |_surface, _parent| true));
        let mut frames = LiveCounts::new(0);
        assert_eq!(reject_excess_capture_frame(&mut frames, OFFENDER, request), None);
    }
}

#[test]
fn a_layer_size_past_the_largest_dimension_is_refused() {
    let at = |width, height| {
        reject_unrepresentable_layer_size(Request::SetLayerSize { width, height })
    };
    assert_eq!(at(0, 0), None);
    assert_eq!(at(MAX_LAYER_DIMENSION, MAX_LAYER_DIMENSION), None);
    for (width, height) in [
        (MAX_LAYER_DIMENSION + 1, 1),
        (1, MAX_LAYER_DIMENSION + 1),
        (u32::MAX, u32::MAX),
    ] {
        let error = at(width, height).expect("an unrepresentable size");
        assert_eq!(error.interface, Interface::LayerSurface);
        assert_eq!(error.code, INVALID_SIZE);
        assert!(error.message.contains(&width.to_string()), "{}", error.message);
        assert!(error.message.contains(&height.to_string()), "{}", error.message);
    }
}

#[test]
fn an_assigned_icon_is_immutable_until_it_is_destroyed() {
    let mut session = Session::new();
    session.send(OFFENDER, Request::SetIconName { icon: 8 }).unwrap();
    session.send(OFFENDER, Request::SetIcon { assigned: Some(8) }).unwrap();
    session.send(OFFENDER, Request::SetIcon { assigned: None }).unwrap();
    session.send(OFFENDER, Request::SetIconName { icon: 9 }).unwrap();
    assert!(session.state.frozen_icons.contains(&8));
    for request in [Request::SetIconName { icon: 8 }, Request::AddIconBuffer { icon: 8 }] {
        let error = reject_frozen_toplevel_icon_request(&session.state.frozen_icons, request)
            .expect("a frozen icon");
        assert_eq!((error.interface, error.code), (Interface::ToplevelIcon, IMMUTABLE));
    }
    session.state.destroyed(OFFENDER, Destroyed::Icon { icon: 8 });
    session.send(OFFENDER, Request::SetIconName { icon: 8 }).unwrap();

    let mut frozen = std::collections::HashSet::new();
    note_assigned_toplevel_icon(&mut frozen, Request::SetIcon { assigned: Some(1) });
    note_assigned_toplevel_icon(&mut frozen, Request::SetIconName { icon: 2 });
    assert!(frozen.contains(&1) && !frozen.contains(&2));
}

#[test]
fn capture_frames_are_bounded_per_client() {
    let mut session = Session::new();
    for _ in 0..4 {
        session.send(OFFENDER, Request::CreateCaptureFrame).unwrap();
    }
    session.send(SURVIVOR, Request::CreateCaptureFrame).unwrap();
    let refused = session.send(OFFENDER, Request::CreateCaptureFrame);
    let message = assert_refused(refused, "ext_image_copy_capture_session_v1", DUPLICATE_FRAME);
    assert!(message.contains("maximum of 4 live capture frames"), "{message}");
    assert_eq!(session.state.capture_frames.in_flight(), 1);
}

#[test]
fn a_subsurface_is_refused_where_its_depth_is_judged() {
    let mut state = State::new(1);
    let asked = Cell::new(None);
    let verdict = state.request(
        OFFENDER,
        Request::GetSubsurface { surface: 4, parent: 5 },
        |_fd, _size| true,
        || false,
        |_fd| true,
        |surface, parent| {
            asked.set(Some((surface, parent)));
            true
        },
    );
    assert_eq!(verdict, Verdict::Refused);
    assert_eq!(asked.get(), Some((4, 5)));
}

#[test]
fn only_a_commit_is_prepared() {
    let commit = Request::CommitSurface { surface: 12 };
    assert_eq!(prepare_post_destroy_lock_commit(commit), Some(12));
    assert_eq!(prepare_post_destroy_lock_commit(Request::Other), None);
}

#[test]
fn destructions_leave_their_own_work_to_do() {
    let mut state = State::new(1);
    let nothing =
        Aftermath { queue_drain: false, redraw_lock: false, neutralize_layers: false };
    assert_eq!(state.destroyed(1, Destroyed::Other), nothing);
    assert_eq!(
        state.destroyed(1, Destroyed::LockSurface),
        Aftermath { redraw_lock: true, ..nothing }
    );
    assert_eq!(
        state.destroyed(1, Destroyed::LayerSurface),
        Aftermath { neutralize_layers: true, ..nothing }
    );
    assert_eq!(state.destroyed(1, Destroyed::Surface), nothing, "nothing was imported");
    state.imports_dmabufs = true;
    assert_eq!(
        state.destroyed(1, Destroyed::Surface),
        Aftermath { queue_drain: true, ..nothing }
    );
    assert_eq!(state.destroyed(1, Destroyed::Buffer { buffer: 1 }), nothing, "already queued");
}

#[test]
fn a_refused_request_counts_nothing_and_forgetting_too_much_is_harmless() {
    let mut session = Session::new();
    session.bypass(OFFENDER, 3).unwrap();
    session.state.destroyed(SURVIVOR, Destroyed::Pool);
    session.state.destroyed(SURVIVOR, Destroyed::Buffer { buffer: 99 });
    assert_eq!((session.pools(), session.buffers()), (0, 3));
}

#[test]
fn a_client_that_goes_leaves_only_its_timeline_records() {
    let mut state = State::new(1);
    state.drm_syncobj.retained.record(7, 30);
    state.drm_syncobj.retained.record(8, 31);
    state.drm_syncobj.retained.sweep(7, |_fd| true);
    assert!(!state.drm_syncobj.retained.sweep_due(7));
    state.forget_client(7);
    assert!(state.drm_syncobj.retained.sweep_due(7));
    assert_eq!(state.drm_syncobj.retained.records(), 2);
}
