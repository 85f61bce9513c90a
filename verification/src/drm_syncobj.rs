//! Explicit sync: `wp_linux_drm_syncobj_manager_v1`.

pub mod acquire;
pub mod release_hold;
pub mod retained;
pub mod timeline_fd;

use crate::counts::{claimed, forgotten, live, LiveCounts};
use crate::drm_syncobj::acquire::{Wait, WaitTable, Waits};
use crate::drm_syncobj::retained::{
    admission, an_import_is_refused_exactly_past_its_bounds, answerable, answered, may_observe, may_sweep, Admission,
    Ledger, Refusal, RetainedTimelines,
};
use crate::protocol::{said, ErrorText, Interface, ProtocolError, INVALID_TIMELINE};
use crate::text::{decimal, push_decimal};
use std::collections::HashSet;
use vstd::prelude::*;
use vstd::string::*;

verus! {

/// How many timeline fds one client may make this process hold at once, and
/// how many live timeline objects.
pub const MAX_TIMELINES_PER_CLIENT: u32 = 128;

/// How many commits one client may have waiting on unsignalled acquire points
/// at once, across all its surfaces.
pub const MAX_ACQUIRE_WAITS_PER_CLIENT: u32 = 64;

/// Timelines a client may hold before fd pressure starts refusing its
/// imports.
pub const PRESSURE_GRACE_TIMELINES: u32 = 32;

/// Outstanding acquire waits a client may hold before fd pressure starts
/// disconnecting it on the next wait.
pub const PRESSURE_GRACE_ACQUIRE_WAITS: u32 = 16;

/// The buffers whose most recent commit carried sync points.
pub struct ExplicitBuffers {
    ids: HashSet<u64>,
}

impl View for ExplicitBuffers {
    type V = Set<u64>;

    closed spec fn view(&self) -> Set<u64> {
        self.ids@
    }
}

/// The explicit buffers after a commit of `buffer` with or without points.
pub open spec fn noted(buffers: Set<u64>, buffer: u64, explicit: bool) -> Set<u64> {
    if explicit {
        buffers.insert(buffer)
    } else {
        buffers.remove(buffer)
    }
}

impl ExplicitBuffers {
    pub fn new() -> (buffers: ExplicitBuffers)
        ensures
            buffers@ == Set::<u64>::empty(),
    {
        ExplicitBuffers { ids: HashSet::new() }
    }

    /// Whether no buffer is explicit.
    pub fn is_empty(&self) -> (empty: bool)
        ensures
            empty == (self@ == Set::<u64>::empty()),
    {
        let empty = self.ids.is_empty();
        assert(empty ==> self@ =~= Set::empty());
        empty
    }

    /// Whether `buffer`'s most recent commit carried sync points.
    pub fn contains(&self, buffer: u64) -> (explicit: bool)
        ensures
            explicit == self@.contains(buffer),
    {
        !self.ids.is_empty() && self.ids.contains(&buffer)
    }

    /// Records a commit of `buffer` with (`explicit`) or without sync points.
    pub fn note(&mut self, buffer: u64, explicit: bool)
        ensures
            final(self)@ == noted(old(self)@, buffer, explicit),
    {
        if explicit {
            self.ids.insert(buffer);
        } else if !self.ids.is_empty() {
            self.ids.remove(&buffer);
        } else {
            assert(self@ =~= noted(old(self)@, buffer, explicit));
        }
    }

    /// Forgets a destroyed buffer object.
    pub fn forget(&mut self, buffer: u64)
        ensures
            final(self)@ == old(self)@.remove(buffer),
    {
        self.ids.remove(&buffer);
    }

    /// How many buffers are explicit.
    pub fn len(&self) -> (n: usize)
        ensures
            n == self@.len(),
    {
        self.ids.len()
    }
}

/// Everything kept for explicit sync.
pub struct DrmSyncobj {
    /// The device timelines are imported into, and with it the global; none
    /// where the global is not offered.
    pub device: Option<u64>,
    /// Live timeline objects per client.
    pub timelines: LiveCounts,
    /// The timeline fds this process still holds.
    pub retained: RetainedTimelines,
    pub waits: Waits,
    pub explicit: ExplicitBuffers,
}

/// Candidate `i` could not be opened, or does not support what is needed.
pub open spec fn candidate_failed<O: Fn(usize) -> Option<u64>, S: Fn(u64) -> bool>(
    open: O,
    supports: S,
    i: usize,
) -> bool {
    ||| call_ensures(open, (i,), None)
    ||| exists|device: u64|
        call_ensures(open, (i,), Some(device)) && #[trigger] call_ensures(
            supports,
            (device,),
            false,
        )
}

/// Every candidate before `n` failed.
pub open spec fn candidates_failed<O: Fn(usize) -> Option<u64>, S: Fn(u64) -> bool>(
    open: O,
    supports: S,
    n: int,
) -> bool {
    forall|i: usize| i < n ==> #[trigger] candidate_failed(open, supports, i)
}

impl DrmSyncobj {
    pub open spec fn wf(&self) -> bool {
        &&& self.timelines.wf()
        &&& self.timelines.cap() == MAX_TIMELINES_PER_CLIENT
        &&& self.retained.wf()
        &&& self.waits.wf()
    }

    pub open spec fn is_new(&self) -> bool {
        &&& self.device is None
        &&& self.timelines@ == Map::<u64, u32>::empty()
        &&& self.retained@ == Ledger::empty()
        &&& self.waits@ == WaitTable::empty()
        &&& self.explicit@ == Set::<u64>::empty()
    }

    pub fn new() -> (syncobj: DrmSyncobj)
        ensures
            syncobj.wf(),
            syncobj.is_new(),
    {
        DrmSyncobj {
            device: None,
            timelines: LiveCounts::new(MAX_TIMELINES_PER_CLIENT),
            retained: RetainedTimelines::new(),
            waits: Waits::new(),
            explicit: ExplicitBuffers::new(),
        }
    }

    /// Offers the global on the first of `count` candidates that can be
    /// opened and supports syncobj eventfds, and answers whether one did.
    /// Nothing after the first that passes is opened at all, and a session
    /// that already offers the global keeps it.
    pub fn enable<O: Fn(usize) -> Option<u64>, S: Fn(u64) -> bool>(
        &mut self,
        count: usize,
        open: O,
        supports: S,
    ) -> (offered: bool)
        requires
            old(self).device is None ==> forall|i: usize|
                i < count && candidates_failed(open, supports, i as int) ==> #[trigger]
                    call_requires(open, (i,)),
            old(self).device is None ==> forall|i: usize, device: u64|
                i < count && candidates_failed(open, supports, i as int) && #[trigger]
                    call_ensures(open, (i,), Some(device)) ==> call_requires(supports, (device,)),
        ensures
            *final(self) == (DrmSyncobj { device: final(self).device, ..*old(self) }),
            offered == final(self).device is Some,
            old(self).device is Some ==> final(self).device == old(self).device,
            old(self).device is None && offered ==> exists|i: usize|
                {
                    &&& i < count
                    &&& #[trigger] call_ensures(open, (i,), final(self).device)
                    &&& call_ensures(supports, (final(self).device->0,), true)
                    &&& candidates_failed(open, supports, i as int)
                },
            !offered ==> candidates_failed(open, supports, count as int),
    {
        if self.device.is_some() {
            return true;
        }
        let mut i: usize = 0;
        while i < count
            invariant
                i <= count,
                self == old(self),
                self.device is None,
                candidates_failed(open, supports, i as int),
                forall|j: usize|
                    j < count && candidates_failed(open, supports, j as int) ==> #[trigger]
                        call_requires(open, (j,)),
                forall|j: usize, device: u64|
                    j < count && candidates_failed(open, supports, j as int) && #[trigger]
                        call_ensures(open, (j,), Some(device)) ==> call_requires(
                        supports,
                        (device,),
                    ),
            decreases count - i,
        {
            let candidate = open(i);
            if let Some(device) = candidate {
                let passes: bool = supports(device);
                if passes {
                    self.device = Some(device);
                    return true;
                }
                assert(candidate_failed(open, supports, i));
            } else {
                assert(candidate_failed(open, supports, i));
            }
            i += 1;
        }
        false
    }

    /// Whether the global exists, and so whether any surface can carry sync
    /// points at all.
    pub fn active(&self) -> (active: bool)
        ensures
            active == self.device is Some,
    {
        self.device.is_some()
    }

    /// Counts one more live timeline object of `client`, answering whether it
    /// must be refused.
    pub fn claim_timeline(&mut self, client: u64) -> (refused: bool)
        requires
            old(self).wf(),
        ensures
            final(self).wf(),
            *final(self) == (DrmSyncobj { timelines: final(self).timelines, ..*old(self) }),
            refused == (live(old(self).timelines@, client) >= MAX_TIMELINES_PER_CLIENT),
            final(self).timelines@ == if refused {
                old(self).timelines@
            } else {
                claimed(old(self).timelines@, client)
            },
    {
        self.timelines.claim(client)
    }

    /// Forgets one live timeline object of `client`.
    pub fn forget_timeline(&mut self, client: u64)
        requires
            old(self).wf(),
        ensures
            final(self).wf(),
            *final(self) == (DrmSyncobj { timelines: final(self).timelines, ..*old(self) }),
            final(self).timelines@ == forgotten(old(self).timelines@, client),
    {
        self.timelines.forget(client);
    }

    /// How many live timeline objects `client` holds.
    pub fn timelines_for(&self, client: u64) -> (n: u32)
        ensures
            n == live(self.timelines@, client),
    {
        self.timelines.live_for(client)
    }

    /// `fd` has just been received from a client: whatever timeline was
    /// recorded on that number is gone.
    pub fn fd_arrived(&mut self, fd: i32)
        requires
            old(self).wf(),
        ensures
            final(self).wf(),
            *final(self) == (DrmSyncobj { retained: final(self).retained, ..*old(self) }),
            final(self).retained@ == old(self).retained@.without(fd),
    {
        self.retained.fd_arrived(fd);
    }

    /// `client` has disconnected: drops what only mattered for its next
    /// import.
    pub fn forget_client(&mut self, client: u64)
        requires
            old(self).wf(),
        ensures
            final(self).wf(),
            *final(self) == (DrmSyncobj { retained: final(self).retained, ..*old(self) }),
            final(self).retained@ == old(self).retained@.departed(client),
    {
        self.retained.forget_client(client);
    }

    /// A surface is gone: forgets its waits, and answers those that were
    /// outstanding. Nothing where the global is not offered.
    pub fn forget_surface(&mut self, client: u64, surface: u64) -> (gone: Option<Vec<Wait>>)
        requires
            old(self).wf(),
        ensures
            final(self).wf(),
            *final(self) == (DrmSyncobj { waits: final(self).waits, ..*old(self) }),
            if old(self).device is None {
                &&& final(self).waits == old(self).waits
                &&& gone is None
            } else {
                &&& final(self).waits@ == old(self).waits@.forgotten(client, surface)
                &&& gone is Some <==> old(self).waits@.surfaces.contains_key((client, surface))
                &&& gone is Some ==> gone->0@ == old(self).waits@.surfaces[(client, surface)]
            },
    {
        if !self.active() {
            return None;
        }
        self.waits.forget_surface(client, surface)
    }
}

/// The text an import past the fd bound is refused with.
pub open spec fn timeline_cap_text(held: nat) -> Seq<char> {
    "timeline refused: this client already holds "@ + decimal(held)
        + " timelines, counting destroyed ones its sync points still reference (the bound is "@
        + decimal(MAX_TIMELINES_PER_CLIENT as nat) + ")"@
}

/// The text an import past the pressure grace is refused with.
pub open spec fn timeline_pressure_text() -> Seq<char> {
    "timeline refused: compositor-wide file-descriptor pressure, and this client holds more than the "@
        + decimal(PRESSURE_GRACE_TIMELINES as nat) + "-timeline pressure grace"@
}

/// The text an import past the live-object bound is refused with.
pub open spec fn timeline_objects_text() -> Seq<char> {
    "timeline refused: this client already holds the maximum of "@ + decimal(
        MAX_TIMELINES_PER_CLIENT as nat,
    ) + " live timelines"@
}

fn timeline_error(message: String) -> (error: ProtocolError)
    ensures
        error@ == (ErrorText {
            interface: Interface::SyncobjManager,
            code: INVALID_TIMELINE,
            message: message@,
        }),
{
    ProtocolError { interface: Interface::SyncobjManager, code: INVALID_TIMELINE, message }
}

fn timeline_refused(refusal: Refusal) -> (error: ProtocolError)
    ensures
        error@ == (ErrorText {
            interface: Interface::SyncobjManager,
            code: INVALID_TIMELINE,
            message: match refusal {
                Refusal::Cap { held } => timeline_cap_text(held as nat),
                Refusal::Pressure { .. } => timeline_pressure_text(),
            },
        }),
{
    match refusal {
        Refusal::Cap { held } => {
            let mut text = String::from_str("timeline refused: this client already holds ");
            push_decimal(&mut text, held as u64);
            text.append(
                " timelines, counting destroyed ones its sync points still reference (the bound is ",
            );
            push_decimal(&mut text, MAX_TIMELINES_PER_CLIENT as u64);
            text.append(")");
            timeline_error(text)
        },
        Refusal::Pressure { .. } => {
            let mut text = String::from_str(
                "timeline refused: compositor-wide file-descriptor pressure, and this client holds more than the ",
            );
            push_decimal(&mut text, PRESSURE_GRACE_TIMELINES as u64);
            text.append("-timeline pressure grace");
            timeline_error(text)
        },
    }
}

/// How an import on `fd` is answered, given what a sweep would find `live`
/// and whether the fd table is `pressured`: the number is forgotten, the
/// ledger admits or refuses, and an admitted import is claimed and recorded.
pub open spec fn import_step(
    ledger: Ledger,
    timelines: Map<u64, u32>,
    client: u64,
    fd: i32,
    live_fds: Set<i32>,
    pressured: bool,
) -> (Ledger, Map<u64, u32>, Option<ErrorText>) {
    let a = import_admission(ledger, client, fd, live_fds, pressured);
    let refused = |message: Seq<char>|
        Some(ErrorText { interface: Interface::SyncobjManager, code: INVALID_TIMELINE, message });
    match a.outcome {
        Err(Refusal::Cap { held }) => (
            a.ledger,
            timelines,
            refused(timeline_cap_text(held as nat)),
        ),
        Err(Refusal::Pressure { .. }) => (
            a.ledger,
            timelines,
            refused(timeline_pressure_text()),
        ),
        Ok(_) => if live(timelines, client) >= MAX_TIMELINES_PER_CLIENT {
            (a.ledger, timelines, refused(timeline_objects_text()))
        } else {
            (a.ledger.with(client, fd), claimed(timelines, client), None)
        },
    }
}

/// The ledger's decision on an import on `fd`, once the number is forgotten.
pub open spec fn import_admission(
    ledger: Ledger,
    client: u64,
    fd: i32,
    live_fds: Set<i32>,
    pressured: bool,
) -> Admission {
    admission(
        ledger.without(fd),
        client,
        MAX_TIMELINES_PER_CLIENT,
        PRESSURE_GRACE_TIMELINES,
        live_fds,
        pressured,
    )
}

/// Whether judging an import on `fd` may observe the fd table.
pub open spec fn import_may_observe<F: Fn(i32) -> bool>(
    ledger: Ledger,
    client: u64,
    fd: i32,
    still_held: F,
) -> bool {
    may_observe(
        ledger.without(fd),
        client,
        MAX_TIMELINES_PER_CLIENT,
        PRESSURE_GRACE_TIMELINES,
        still_held,
    )
}

/// Whether judging an import on `fd` may sweep its client's records.
pub open spec fn import_may_sweep<P: FnOnce() -> bool>(
    ledger: Ledger,
    client: u64,
    fd: i32,
    pressured: P,
) -> bool {
    may_sweep(
        ledger.without(fd),
        client,
        MAX_TIMELINES_PER_CLIENT,
        PRESSURE_GRACE_TIMELINES,
        pressured,
    )
}

impl DrmSyncobj {
    /// Refuses an import past the client's retained-timeline bound, or past
    /// its pressure grace while the fd table is pressured; otherwise counts
    /// and records it. `still_held` answers whether a recorded number is
    /// still a timeline, and `pressured` observes the fd table.
    pub fn reject_excess_timeline<F: Fn(i32) -> bool, P: FnOnce() -> bool>(
        &mut self,
        client: u64,
        fd: i32,
        still_held: F,
        pressured: P,
    ) -> (refused: Option<ProtocolError>)
        requires
            old(self).wf(),
            import_may_sweep(old(self).retained@, client, fd, pressured) ==> answerable(
                still_held,
                old(self).retained@.without(fd).fds_of(client),
            ),
            import_may_observe(old(self).retained@, client, fd, still_held) ==> call_requires(
                pressured,
                (),
            ),
        ensures
            final(self).wf(),
            *final(self) == (DrmSyncobj {
                retained: final(self).retained,
                timelines: final(self).timelines,
                ..*old(self)
            }),
            exists|live_fds: Set<i32>, p: bool|
                {
                    let a = #[trigger] import_admission(
                        old(self).retained@,
                        client,
                        fd,
                        live_fds,
                        p,
                    );
                    &&& a.swept ==> answered(
                        still_held,
                        old(self).retained@.without(fd).fds_of(client),
                        live_fds,
                    )
                    &&& a.observed ==> call_ensures(pressured, (), p)
                    &&& (final(self).retained@, final(self).timelines@, said(refused))
                        == import_step(
                        old(self).retained@,
                        old(self).timelines@,
                        client,
                        fd,
                        live_fds,
                        p,
                    )
                },
    {
        self.retained.fd_arrived(fd);
        let ghost arrived = self.retained@;
        let outcome = self.retained.try_admit(
            client,
            MAX_TIMELINES_PER_CLIENT,
            PRESSURE_GRACE_TIMELINES,
            still_held,
            pressured,
        );
        let ghost (live_fds, p) = choose|live_fds: Set<i32>, p: bool|
            {
                let a = #[trigger] admission(
                    arrived,
                    client,
                    MAX_TIMELINES_PER_CLIENT,
                    PRESSURE_GRACE_TIMELINES,
                    live_fds,
                    p,
                );
                &&& a.swept ==> answered(still_held, arrived.fds_of(client), live_fds)
                &&& a.observed ==> call_ensures(pressured, (), p)
                &&& self.retained@ == a.ledger
                &&& outcome == a.outcome
            };
        let ghost a = import_admission(old(self).retained@, client, fd, live_fds, p);
        if let Err(refusal) = outcome {
            return Some(timeline_refused(refusal));
        }
        if self.timelines.claim(client) {
            let mut text = String::from_str(
                "timeline refused: this client already holds the maximum of ",
            );
            push_decimal(&mut text, MAX_TIMELINES_PER_CLIENT as u64);
            text.append(" live timelines");
            return Some(timeline_error(text));
        }
        self.retained.record(client, fd);
        None
    }
}

/// An import is refused exactly where more than 112 of 128 or more recorded timelines are live,
/// where more than 32 are live of a client that is looked at while the fd table is pressured, and
/// where the client has 128 live timeline objects. The number it arrives on is not counted. A
/// refused import leaves no record on its number and counts nothing; a served one records its
/// number for the client and counts one more object.
pub proof fn a_timeline_is_refused_at_its_bounds(
    ledger: Ledger,
    timelines: Map<u64, u32>,
    client: u64,
    fd: i32,
    live_fds: Set<i32>,
    pressured: bool,
)
    requires
        ledger.owner.dom().finite(),
        live_fds.subset_of(ledger.fds_of(client).remove(fd)),
    ensures
        ({
            let (after, counts, error) = import_step(
                ledger,
                timelines,
                client,
                fd,
                live_fds,
                pressured,
            );
            let held = ledger.fds_of(client).remove(fd).len();
            let marked = ledger.sweep_at.contains_key(client) && held < ledger.sweep_at[client];
            let full = held >= 128 && live_fds.len() > 112;
            let pressed = (held >= 128 || held > 32 && !marked) && live_fds.len() > 32 && pressured;
            &&& error is Some <==> full || pressed || live(timelines, client) >= 128
            &&& error is Some ==> {
                &&& error->0.interface == Interface::SyncobjManager
                &&& error->0.code == 1
                &&& counts == timelines
                &&& !after.owner.contains_key(fd)
                &&& full && live_fds.len() <= u32::MAX ==> error->0.message == timeline_cap_text(
                    live_fds.len(),
                )
                &&& !full && pressed ==> error->0.message == timeline_pressure_text()
                &&& !full && !pressed ==> error->0.message == timeline_objects_text()
            }
            &&& error is None ==> {
                &&& after.owner.contains_key(fd)
                &&& after.owner[fd] == client
                &&& live(counts, client) == live(timelines, client) + 1
            }
        }),
{
    let arrived = ledger.without(fd);
    assert(arrived.fds_of(client) =~= ledger.fds_of(client).remove(fd));
    assert(arrived.owner.dom() =~= ledger.owner.dom().remove(fd));
    vstd::set_lib::lemma_len_subset(live_fds, arrived.fds_of(client));
    an_import_is_refused_exactly_past_its_bounds(
        arrived,
        client,
        MAX_TIMELINES_PER_CLIENT,
        PRESSURE_GRACE_TIMELINES,
        live_fds,
        pressured,
    );
}

/// An import touches no record of another client but the one on its number, and no other client's
/// timeline objects.
pub proof fn an_import_touches_its_own_client_only(
    ledger: Ledger,
    timelines: Map<u64, u32>,
    client: u64,
    fd: i32,
    live_fds: Set<i32>,
    pressured: bool,
    number: i32,
    other: u64,
)
    requires
        other != client,
    ensures
        ({
            let (after, counts, error) = import_step(
                ledger,
                timelines,
                client,
                fd,
                live_fds,
                pressured,
            );
            &&& live(counts, other) == live(timelines, other)
            &&& after.sweep_at.contains_key(other) == ledger.sweep_at.contains_key(other)
            &&& after.sweep_at[other] == ledger.sweep_at[other]
            &&& number != fd && ledger.owner.contains_key(number) && ledger.owner[number] == other
                ==> after.owner.contains_key(number) && after.owner[number] == other
            &&& after.owner.contains_key(number) && after.owner[number] == other
                ==> ledger.owner.contains_key(number) && ledger.owner[number] == other && number
                != fd
        }),
{
}

/// The bounds on timelines, and the texts that name them.
pub proof fn the_timeline_bounds_are_said(held: nat)
    ensures
        MAX_TIMELINES_PER_CLIENT == 128,
        PRESSURE_GRACE_TIMELINES == 32,
        timeline_cap_text(held) == "timeline refused: this client already holds "@ + decimal(held)
            + " timelines, counting destroyed ones its sync points still reference (the bound is "@
            + decimal(128) + ")"@,
        timeline_pressure_text()
            == "timeline refused: compositor-wide file-descriptor pressure, and this client holds more than the "@
            + decimal(32) + "-timeline pressure grace"@,
        timeline_objects_text() == "timeline refused: this client already holds the maximum of "@
            + decimal(128) + " live timelines"@,
{
}

/// Noting a buffer as explicit or not says so of it, and of no other buffer.
pub proof fn noting_a_buffer_touches_no_other(
    buffers: Set<u64>,
    buffer: u64,
    explicit: bool,
    other: u64,
)
    ensures
        noted(buffers, buffer, explicit).contains(buffer) == explicit,
        other != buffer ==> noted(buffers, buffer, explicit).contains(other) == buffers.contains(
            other,
        ),
{
}

/// The global is offered on the first candidate that opens and passes, and nothing else of the
/// session changes. A session that offers it already keeps its device; one that does not come to
/// offer it has seen every candidate fail to open or to pass.
pub proof fn the_first_device_that_passes_is_offered<
    O: Fn(usize) -> Option<u64>,
    S: Fn(u64) -> bool,
>(syncobj: &mut DrmSyncobj, count: usize, open: O, supports: S, offered: bool, earlier: usize)
    requires
        call_ensures(DrmSyncobj::enable::<O, S>, (syncobj, count, open, supports), offered),
    ensures
        offered <==> final(syncobj).device is Some,
        old(syncobj).device is Some ==> *final(syncobj) == *old(syncobj),
        old(syncobj).device is None && offered ==> exists|i: usize|
            {
                &&& i < count
                &&& #[trigger] call_ensures(open, (i,), final(syncobj).device)
                &&& call_ensures(supports, (final(syncobj).device->0,), true)
                &&& earlier < i ==> {
                    ||| call_ensures(open, (earlier,), None)
                    ||| exists|device: u64|
                        call_ensures(open, (earlier,), Some(device)) && #[trigger] call_ensures(
                            supports,
                            (device,),
                            false,
                        )
                }
            },
        !offered && earlier < count ==> {
            ||| call_ensures(open, (earlier,), None)
            ||| exists|device: u64|
                call_ensures(open, (earlier,), Some(device)) && #[trigger] call_ensures(
                    supports,
                    (device,),
                    false,
                )
        },
        final(syncobj).timelines == old(syncobj).timelines,
        final(syncobj).retained == old(syncobj).retained,
        final(syncobj).waits == old(syncobj).waits,
        final(syncobj).explicit == old(syncobj).explicit,
{
    if old(syncobj).device is None && offered {
        let i = choose|i: usize|
            {
                &&& i < count
                &&& #[trigger] call_ensures(open, (i,), final(syncobj).device)
                &&& call_ensures(supports, (final(syncobj).device->0,), true)
                &&& candidates_failed(open, supports, i as int)
            };
        assert(earlier < i ==> candidate_failed(open, supports, earlier));
    }
    if !offered && earlier < count {
        assert(candidate_failed(open, supports, earlier));
    }
}

/// A client may have 128 live timeline objects: one more is refused and counted nowhere, and any
/// other is counted for its client alone.
pub proof fn timeline_objects_are_claimed_up_to_the_bound(
    syncobj: &mut DrmSyncobj,
    client: u64,
    refused: bool,
    other: u64,
)
    requires
        old(syncobj).wf(),
        call_ensures(DrmSyncobj::claim_timeline, (syncobj, client), refused),
    ensures
        refused <==> live(old(syncobj).timelines@, client) >= 128,
        refused ==> final(syncobj).timelines@ == old(syncobj).timelines@,
        !refused ==> live(final(syncobj).timelines@, client) == live(
            old(syncobj).timelines@,
            client,
        ) + 1,
        other != client ==> live(final(syncobj).timelines@, other) == live(
            old(syncobj).timelines@,
            other,
        ),
        final(syncobj).device == old(syncobj).device,
        final(syncobj).retained == old(syncobj).retained,
        final(syncobj).waits == old(syncobj).waits,
        final(syncobj).explicit == old(syncobj).explicit,
{
}

/// A destroyed timeline object is taken off its client's count, and off nothing else: its fd stays
/// recorded.
pub proof fn a_destroyed_timeline_keeps_its_record(
    syncobj: &mut DrmSyncobj,
    client: u64,
    other: u64,
)
    requires
        old(syncobj).wf(),
        call_ensures(DrmSyncobj::forget_timeline, (syncobj, client), ()),
    ensures
        live(old(syncobj).timelines@, client) > 0 ==> live(final(syncobj).timelines@, client) + 1
            == live(old(syncobj).timelines@, client),
        other != client ==> live(final(syncobj).timelines@, other) == live(
            old(syncobj).timelines@,
            other,
        ),
        final(syncobj).retained == old(syncobj).retained,
        final(syncobj).device == old(syncobj).device,
        final(syncobj).waits == old(syncobj).waits,
        final(syncobj).explicit == old(syncobj).explicit,
{
}

/// A number that arrives anew has no record left, and every other number keeps its own.
pub proof fn an_arrived_number_has_no_record(syncobj: &mut DrmSyncobj, fd: i32, number: i32)
    requires
        old(syncobj).wf(),
        call_ensures(DrmSyncobj::fd_arrived, (syncobj, fd), ()),
    ensures
        !final(syncobj).retained@.owner.contains_key(fd),
        number != fd ==> {
            &&& final(syncobj).retained@.owner.contains_key(number) == old(syncobj).retained@.owner.contains_key(number)
            &&& old(syncobj).retained@.owner.contains_key(number) ==> final(syncobj).retained@.owner[number] == old(syncobj).retained@.owner[number]
        },
        final(syncobj).retained@.sweep_at == old(syncobj).retained@.sweep_at,
        final(syncobj).timelines == old(syncobj).timelines,
        final(syncobj).waits == old(syncobj).waits,
        final(syncobj).explicit == old(syncobj).explicit,
{
}

/// A client that disconnects leaves every record on its number, and takes its own mark alone.
pub proof fn a_departed_client_keeps_its_records(
    syncobj: &mut DrmSyncobj,
    client: u64,
    other: u64,
)
    requires
        old(syncobj).wf(),
        call_ensures(DrmSyncobj::forget_client, (syncobj, client), ()),
    ensures
        final(syncobj).retained@.owner == old(syncobj).retained@.owner,
        !final(syncobj).retained@.sweep_at.contains_key(client),
        other != client ==> {
            &&& final(syncobj).retained@.sweep_at.contains_key(other) == old(syncobj).retained@.sweep_at.contains_key(other)
            &&& final(syncobj).retained@.sweep_at[other] == old(syncobj).retained@.sweep_at[other]
        },
        final(syncobj).timelines == old(syncobj).timelines,
        final(syncobj).waits == old(syncobj).waits,
        final(syncobj).explicit == old(syncobj).explicit,
{
}

/// A surface that goes while the global is offered hands back the waits it had, and has none left;
/// every other surface keeps its own. Where the global is not offered nothing happens.
pub proof fn a_gone_surface_hands_back_its_waits(
    syncobj: &mut DrmSyncobj,
    client: u64,
    surface: u64,
    gone: Option<Vec<Wait>>,
    other: (u64, u64),
)
    requires
        old(syncobj).wf(),
        call_ensures(DrmSyncobj::forget_surface, (syncobj, client, surface), gone),
    ensures
        old(syncobj).device is None ==> gone is None && *final(syncobj) == *old(syncobj),
        old(syncobj).device is Some ==> {
            let before = old(syncobj).waits@.surfaces;
            let after = final(syncobj).waits@.surfaces;
            &&& gone is Some <==> before.contains_key((client, surface))
            &&& gone is Some ==> gone->0@ == before[(client, surface)]
            &&& !after.contains_key((client, surface))
            &&& other != (client, surface) ==> {
                &&& after.contains_key(other) == before.contains_key(other)
                &&& before.contains_key(other) ==> after[other] == before[other]
            }
        },
        final(syncobj).timelines == old(syncobj).timelines,
        final(syncobj).retained == old(syncobj).retained,
        final(syncobj).explicit == old(syncobj).explicit,
{
}

/// A buffer that is destroyed is not explicit, and no other buffer is touched.
pub proof fn a_destroyed_buffer_is_not_explicit(
    buffers: &mut ExplicitBuffers,
    buffer: u64,
    other: u64,
)
    requires
        call_ensures(ExplicitBuffers::forget, (buffers, buffer), ()),
    ensures
        !final(buffers)@.contains(buffer),
        other != buffer ==> final(buffers)@.contains(other) == old(buffers)@.contains(other),
{
}

} // verus!
