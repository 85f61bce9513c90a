//! The acquire half of explicit sync: hold a commit until its acquire point
//! signals.
//!
//! A commit of a new dma-buf with both sync points, in order, waits until its
//! acquire point signals. Each wait is an event source of this process and a
//! queued transaction, so outstanding waits are bounded per client, and a
//! surface destroyed while waiting takes its sources with it.

use crate::counts::{live, sum_counts};
use crate::dispatch::pressure_refusal;
use crate::drm_syncobj::{
    noted, ExplicitBuffers, MAX_ACQUIRE_WAITS_PER_CLIENT, PRESSURE_GRACE_ACQUIRE_WAITS,
};
use crate::objects::{key_of, lemma_keys, object_key, object_of};
use crate::tally::{
    lemma_sum_agree, lemma_sum_changed_at, lemma_sum_positive, lemma_sum_remove, sum_of,
};
use crate::text::{decimal, push_decimal};
use std::collections::HashMap;
use vstd::prelude::*;
use vstd::string::*;

verus! {

/// One outstanding wait: its key, and the event source it is registered as.
pub type Wait = (u64, u64);

/// The outstanding waits of each surface that has waited, by client and
/// surface, with the key of the next wait and whether a failed setup was
/// already warned about.
#[verifier::ext_equal]
pub struct WaitTable {
    pub surfaces: Map<(u64, u64), Seq<Wait>>,
    pub next_key: u64,
    pub warned: bool,
}

/// Where the wait with `key` first stands in `pending`, or past its end.
pub open spec fn wait_at(pending: Seq<Wait>, key: u64) -> int
    decreases pending.len(),
{
    if pending.len() == 0 || pending[0].0 == key {
        0
    } else {
        1 + wait_at(pending.drop_first(), key)
    }
}

/// `pending` without the wait with `key`; the last wait takes its place.
pub open spec fn without_wait(pending: Seq<Wait>, key: u64) -> Seq<Wait> {
    let at = wait_at(pending, key);
    if at < pending.len() {
        pending.update(at, pending.last()).drop_last()
    } else {
        pending
    }
}

impl WaitTable {
    pub open spec fn empty() -> WaitTable {
        WaitTable { surfaces: Map::empty(), next_key: 0, warned: false }
    }

    /// The waits of `surface` of `client`.
    pub open spec fn pending(self, client: u64, surface: u64) -> Seq<Wait> {
        if self.surfaces.contains_key((client, surface)) {
            self.surfaces[(client, surface)]
        } else {
            Seq::empty()
        }
    }

    /// What each surface adds to `client`'s outstanding waits.
    pub open spec fn share(self, client: u64) -> spec_fn((u64, u64)) -> nat {
        |object: (u64, u64)|
            if object.0 == client {
                self.surfaces[object].len()
            } else {
                0
            }
    }

    /// How many waits `client` has outstanding, over all its surfaces.
    pub open spec fn outstanding(self, client: u64) -> nat {
        sum_of(self.surfaces.dom(), self.share(client))
    }

    /// The clients with a wait outstanding.
    pub open spec fn waiting_clients(self) -> Set<u64> {
        Set::new(|client: u64| self.outstanding(client) > 0)
    }

    /// How many waits every client has outstanding.
    pub open spec fn all_outstanding(self) -> nat {
        sum_of(self.waiting_clients(), |client: u64| self.outstanding(client))
    }

    /// The table once the wait with `key` on `surface` has fired.
    pub open spec fn finished(self, client: u64, surface: u64, key: u64) -> WaitTable {
        if self.surfaces.contains_key((client, surface)) {
            WaitTable {
                surfaces: self.surfaces.insert(
                    (client, surface),
                    without_wait(self.surfaces[(client, surface)], key),
                ),
                ..self
            }
        } else {
            self
        }
    }

    /// The table once `surface` is gone.
    pub open spec fn forgotten(self, client: u64, surface: u64) -> WaitTable {
        WaitTable { surfaces: self.surfaces.remove((client, surface)), ..self }
    }

    /// The table with a record for `surface`, and the next key taken.
    pub open spec fn opened(self, client: u64, surface: u64) -> WaitTable {
        WaitTable {
            surfaces: self.surfaces.insert((client, surface), self.pending(client, surface)),
            next_key: if self.next_key == u64::MAX {
                0
            } else {
                (self.next_key + 1) as u64
            },
            ..self
        }
    }

    /// The table with one more wait on `surface`, registered as `token`.
    pub open spec fn waiting(self, client: u64, surface: u64, token: u64) -> WaitTable {
        let opened = self.opened(client, surface);
        WaitTable {
            surfaces: opened.surfaces.insert(
                (client, surface),
                opened.pending(client, surface).push((self.next_key, token)),
            ),
            ..opened
        }
    }

    /// The table after a setup failure.
    pub open spec fn failed(self) -> WaitTable {
        WaitTable { warned: true, ..self }
    }
}

/// Outstanding acquire waits, per surface and per client.
pub struct Waits {
    per_client: HashMap<u64, u32>,
    per_surface: HashMap<u128, Vec<Wait>>,
    next_key: u64,
    warned_setup_failure: bool,
}

impl View for Waits {
    type V = WaitTable;

    closed spec fn view(&self) -> WaitTable {
        WaitTable {
            surfaces: Map::new(
                |object: (u64, u64)| self.per_surface@.contains_key(object_key(object)),
                |object: (u64, u64)| self.per_surface@[object_key(object)]@,
            ),
            next_key: self.next_key,
            warned: self.warned_setup_failure,
        }
    }
}

fn position(pending: &Vec<Wait>, key: u64) -> (at: usize)
    ensures
        at == wait_at(pending@, key),
        at <= pending@.len(),
{
    let mut at: usize = 0;
    assert(pending@.skip(0) =~= pending@);
    while at < pending.len()
        invariant
            at <= pending@.len(),
            wait_at(pending@, key) == at + wait_at(pending@.skip(at as int), key),
        decreases pending@.len() - at,
    {
        if pending[at].0 == key {
            return at;
        }
        assert(pending@.skip(at as int).drop_first() =~= pending@.skip(at + 1));
        at += 1;
    }
    at
}

impl Waits {
    /// Each client's count is the sum over its surfaces, and no count is
    /// kept at zero.
    pub closed spec fn wf(&self) -> bool {
        &&& self@.surfaces.dom().finite()
        &&& forall|client: u64| #[trigger]
            live(self.per_client@, client) == self@.outstanding(client)
        &&& forall|client: u64| #[trigger]
            self.per_client@.contains_key(client) ==> self.per_client@[client] > 0
    }

    /// Only finitely many surfaces have a wait record.
    pub proof fn lemma_finite(&self)
        requires
            self.wf(),
        ensures
            self@.surfaces.dom().finite(),
    {
    }

    pub fn new() -> (waits: Waits)
        ensures
            waits.wf(),
            waits@ == WaitTable::empty(),
    {
        let waits = Waits {
            per_client: HashMap::new(),
            per_surface: HashMap::new(),
            next_key: 0,
            warned_setup_failure: false,
        };
        assert(waits@ =~= WaitTable::empty());
        waits
    }

    /// How many waits `client` has outstanding.
    pub fn live_for(&self, client: u64) -> (n: u32)
        requires
            self.wf(),
        ensures
            n == self@.outstanding(client),
    {
        assert(live(self.per_client@, client) == self@.outstanding(client));
        match self.per_client.get(&client) {
            Some(n) => *n,
            None => 0,
        }
    }

    /// A wait's source fired: it is removing itself, so only the bookkeeping
    /// goes.
    pub fn finished(&mut self, client: u64, surface: u64, key: u64)
        requires
            old(self).wf(),
        ensures
            final(self).wf(),
            final(self)@ == old(self)@.finished(client, surface, key),
    {
        let ghost before = self@;
        let at_key: u128 = key_of(client, surface);
        proof {
            lemma_keys();
        }
        match self.per_surface.remove(&at_key) {
            None => {
                assert(self.per_surface@ =~= old(self).per_surface@);
            },
            Some(mut pending) => {
                let at: usize = position(&pending, key);
                let found: bool = at < pending.len();
                if found {
                    pending.swap_remove(at);
                }
                self.per_surface.insert(at_key, pending);
                proof {
                    assert(before.surfaces.contains_key((client, surface)));
                    lemma_sum_remove(
                        before.surfaces.dom(),
                        before.share(client),
                        (client, surface),
                    );
                    assert(live(old(self).per_client@, client) == before.outstanding(client));
                }
                if found {
                    self.release_one(client);
                }
                proof {
                    assert(self@.surfaces =~= before.finished(client, surface, key).surfaces);
                    assert forall|other: u64| #[trigger]
                        live(self.per_client@, other) == self@.outstanding(other) by {
                        lemma_sum_changed_at(
                            before.surfaces.dom(),
                            self@.surfaces.dom(),
                            before.share(other),
                            self@.share(other),
                            (client, surface),
                        );
                        assert(live(old(self).per_client@, other) == before.outstanding(other));
                    }
                }
            },
        }
    }

    /// Forgets one outstanding wait of `client` in its count.
    fn release_one(&mut self, client: u64)
        requires
            live(old(self).per_client@, client) > 0,
        ensures
            final(self).per_client@ == crate::counts::forgotten(old(self).per_client@, client),
            final(self).per_surface@ == old(self).per_surface@,
            final(self).next_key == old(self).next_key,
            final(self).warned_setup_failure == old(self).warned_setup_failure,
    {
        if let Some(n) = self.per_client.remove(&client) {
            if n > 1 {
                self.per_client.insert(client, n - 1);
            }
        }
        assert(self.per_client@ =~= crate::counts::forgotten(old(self).per_client@, client));
    }

    /// Takes the next key and makes sure `surface` has a record.
    fn open(&mut self, client: u64, surface: u64) -> (key: u64)
        requires
            old(self).wf(),
        ensures
            final(self).wf(),
            key == old(self)@.next_key,
            final(self)@ == old(self)@.opened(client, surface),
    {
        let ghost before = self@;
        let key: u64 = self.next_key;
        self.next_key = self.next_key.wrapping_add(1);
        let at_key: u128 = key_of(client, surface);
        proof {
            lemma_keys();
        }
        if !self.per_surface.contains_key(&at_key) {
            self.per_surface.insert(at_key, Vec::new());
        }
        proof {
            assert(self@ =~= before.opened(client, surface)) by {
                assert(self@.surfaces =~= before.opened(client, surface).surfaces);
            }
            assert forall|other: u64| #[trigger]
                live(self.per_client@, other) == self@.outstanding(other) by {
                lemma_sum_changed_at(
                    before.surfaces.dom(),
                    self@.surfaces.dom(),
                    before.share(other),
                    self@.share(other),
                    (client, surface),
                );
                assert(live(old(self).per_client@, other) == before.outstanding(other));
            }
            assert(self@.surfaces.dom() =~= before.surfaces.dom().insert((client, surface)));
        }
        key
    }

    /// Counts a wait on `surface`, opened with `key` and registered as
    /// `token`.
    fn register(&mut self, client: u64, surface: u64, key: u64, token: u64)
        requires
            old(self).wf(),
            old(self)@.surfaces.contains_key((client, surface)),
            old(self)@.outstanding(client) < u32::MAX,
        ensures
            final(self).wf(),
            final(self)@ == (WaitTable {
                surfaces: old(self)@.surfaces.insert(
                    (client, surface),
                    old(self)@.pending(client, surface).push((key, token)),
                ),
                ..old(self)@
            }),
    {
        let ghost before = self@;
        let n: u32 = self.live_for(client);
        let at_key: u128 = key_of(client, surface);
        proof {
            lemma_keys();
        }
        if let Some(mut pending) = self.per_surface.remove(&at_key) {
            pending.push((key, token));
            self.per_surface.insert(at_key, pending);
        }
        self.per_client.insert(client, n + 1);
        proof {
            assert(self@.surfaces =~= before.surfaces.insert(
                (client, surface),
                before.pending(client, surface).push((key, token)),
            ));
            assert forall|other: u64| #[trigger]
                live(self.per_client@, other) == self@.outstanding(other) by {
                lemma_sum_changed_at(
                    before.surfaces.dom(),
                    self@.surfaces.dom(),
                    before.share(other),
                    self@.share(other),
                    (client, surface),
                );
                assert(live(old(self).per_client@, other) == before.outstanding(other));
            }
            assert(self@.surfaces.dom() =~= before.surfaces.dom());
        }
    }

    /// Notes a failed setup, answering whether it is the first.
    fn setup_failed(&mut self) -> (first: bool)
        requires
            old(self).wf(),
        ensures
            final(self).wf(),
            first == !old(self)@.warned,
            final(self)@ == old(self)@.failed(),
    {
        let first: bool = !self.warned_setup_failure;
        self.warned_setup_failure = true;
        proof {
            assert(self@.surfaces =~= old(self)@.surfaces);
            assert forall|other: u64| #[trigger]
                live(self.per_client@, other) == self@.outstanding(other) by {
                assert(live(old(self).per_client@, other) == old(self)@.outstanding(other));
            }
        }
        first
    }

    /// A surface is gone: forgets its record, hands its client's count back,
    /// and answers the waits that were outstanding on it, or nothing for a
    /// surface that never waited.
    pub fn forget_surface(&mut self, client: u64, surface: u64) -> (gone: Option<Vec<Wait>>)
        requires
            old(self).wf(),
        ensures
            final(self).wf(),
            final(self)@ == old(self)@.forgotten(client, surface),
            match gone {
                Some(pending) => {
                    &&& old(self)@.surfaces.contains_key((client, surface))
                    &&& pending@ == old(self)@.surfaces[(client, surface)]
                },
                None => !old(self)@.surfaces.contains_key((client, surface)),
            },
    {
        let ghost before = self@;
        let at_key: u128 = key_of(client, surface);
        proof {
            lemma_keys();
        }
        match self.per_surface.remove(&at_key) {
            None => {
                proof {
                    assert(self.per_surface@ =~= old(self).per_surface@);
                    assert(self@.surfaces =~= before.surfaces);
                    assert(before.forgotten(client, surface).surfaces =~= before.surfaces);
                }
                None
            },
            Some(pending) => {
                proof {
                    assert(before.surfaces.contains_key((client, surface)));
                    lemma_sum_remove(
                        before.surfaces.dom(),
                        before.share(client),
                        (client, surface),
                    );
                    assert(live(old(self).per_client@, client) == before.outstanding(client));
                }
                let ghost counts = self.per_client@;
                let mut i: usize = 0;
                while i < pending.len()
                    invariant
                        i <= pending@.len(),
                        live(counts, client) >= pending@.len(),
                        live(self.per_client@, client) == live(counts, client) - i,
                        self.per_client@.remove(client) =~= counts.remove(client),
                        self.per_client@.contains_key(client) ==> self.per_client@[client] > 0,
                        self.per_surface@ == old(self).per_surface@.remove(at_key),
                        self.next_key == old(self).next_key,
                        self.warned_setup_failure == old(self).warned_setup_failure,
                    decreases pending@.len() - i,
                {
                    let ghost previous = self.per_client@;
                    self.release_one(client);
                    assert(self.per_client@.remove(client) =~= previous.remove(client));
                    i += 1;
                }
                proof {
                    assert(self@.surfaces =~= before.forgotten(client, surface).surfaces);
                    assert forall|other: u64| #[trigger]
                        live(self.per_client@, other) == self@.outstanding(other) by {
                        lemma_sum_changed_at(
                            before.surfaces.dom(),
                            self@.surfaces.dom(),
                            before.share(other),
                            self@.share(other),
                            (client, surface),
                        );
                        assert(live(counts, other) == before.outstanding(other));
                        if other != client {
                            assert(self.per_client@.remove(client).contains_key(other)
                                == counts.remove(client).contains_key(other));
                            assert(self.per_client@.remove(client)[other] == counts.remove(
                                client,
                            )[other]);
                        }
                    }
                    assert forall|other: u64| #[trigger]
                        self.per_client@.contains_key(other) implies self.per_client@[other] > 0 by {
                        if other != client {
                            assert(self.per_client@.remove(client).contains_key(other));
                            assert(counts.remove(client).contains_key(other));
                            assert(counts.contains_key(other));
                            assert(self.per_client@.remove(client)[other] == counts.remove(
                                client,
                            )[other]);
                        }
                    }
                    assert(self@.surfaces.dom() =~= before.surfaces.dom().remove(
                        (client, surface),
                    ));
                }
                Some(pending)
            },
        }
    }

    /// How many surfaces have a wait record.
    pub fn surfaces_tracked(&self) -> (n: usize)
        requires
            self.wf(),
        ensures
            n == self@.surfaces.len(),
    {
        proof {
            lemma_keys();
            let objects = self@.surfaces.dom();
            let keys = self.per_surface@.dom();
            assert(objects.map(|object: (u64, u64)| object_key(object)) =~= keys) by {
                assert forall|key: u128| keys.contains(key) implies objects.map(
                    |object: (u64, u64)| object_key(object),
                ).contains(key) by {
                    assert(objects.contains(object_of(key)));
                }
            }
            vstd::set_lib::lemma_map_size(
                objects,
                keys,
                |object: (u64, u64)| object_key(object),
            );
        }
        self.per_surface.len()
    }

    /// The sources that a surface's outstanding waits are registered as.
    pub fn tokens_for(&self, client: u64, surface: u64) -> (tokens: Vec<u64>)
        ensures
            tokens@ == self@.pending(client, surface).map_values(|wait: Wait| wait.1),
    {
        let at_key: u128 = key_of(client, surface);
        let mut tokens: Vec<u64> = Vec::new();
        proof {
            lemma_keys();
        }
        if let Some(pending) = self.per_surface.get(&at_key) {
            let mut i: usize = 0;
            while i < pending.len()
                invariant
                    i <= pending@.len(),
                    tokens@ == pending@.take(i as int).map_values(|wait: Wait| wait.1),
                decreases pending@.len() - i,
            {
                tokens.push(pending[i].1);
                i += 1;
                assert(tokens@ =~= pending@.take(i as int).map_values(|wait: Wait| wait.1));
            }
            assert(pending@.take(i as int) =~= pending@);
        } else {
            assert(tokens@ =~= self@.pending(client, surface).map_values(|wait: Wait| wait.1));
        }
        tokens
    }

    /// How many waits every client has outstanding.
    pub fn in_flight(&self) -> (n: u32)
        requires
            self.wf(),
            self@.all_outstanding() <= u32::MAX,
        ensures
            n == self@.all_outstanding(),
    {
        proof {
            let table = self@;
            let clients = table.waiting_clients();
            assert forall|client: u64| #[trigger]
                self.per_client@.contains_key(client) <==> clients.contains(client) by {
                let weight = table.share(client);
                lemma_sum_positive(table.surfaces.dom(), weight);
                assert(live(self.per_client@, client) == table.outstanding(client));
            }
            assert(clients =~= self.per_client@.dom());
            assert forall|client: u64| #[trigger]
                clients.contains(client) implies self.per_client@[client] as nat
                == table.outstanding(client) by {
                assert(live(self.per_client@, client) == table.outstanding(client));
            }
            lemma_sum_agree(
                clients,
                |client: u64| self.per_client@[client] as nat,
                |client: u64| table.outstanding(client),
            );
        }
        sum_counts(&self.per_client)
    }
}

/// A point on a timeline.
#[derive(Clone, Copy, Debug, PartialEq, Eq, Structural)]
pub struct SyncPoint {
    pub timeline: u64,
    pub point: u64,
}

/// What a commit carries: the buffer it newly attaches, whether that buffer
/// is a dma-buf, and the sync points set with it.
#[derive(Clone, Copy, Debug, PartialEq, Eq, Structural)]
pub struct Commit {
    pub buffer: Option<u64>,
    pub dmabuf: bool,
    pub acquire: Option<SyncPoint>,
    pub release: Option<SyncPoint>,
}

/// What becomes of a commit.
#[derive(Clone, Copy, Debug, PartialEq, Eq, Structural)]
pub enum CommitOutcome {
    /// It applies now.
    Apply,
    /// It is held until the event source `token` fires for the wait `key`.
    Wait { key: u64, token: u64 },
    /// Its client already has `live` commits waiting, and is disconnected.
    Refuse { live: u32 },
    /// Its wait could not be set up, so it applies without one; `first` when
    /// that was not warned about before.
    Unsynchronised { first: bool },
}

/// What was observed while a commit was classified: whether its acquire point
/// has signalled, whether the fd table is pressured, whether a blocker could
/// be made, and the event source it was registered as, if it could be.
pub struct Observed {
    pub signaled: bool,
    pub pressured: bool,
    pub blocker: bool,
    pub source: Option<u64>,
}

/// How one commit is answered, and which of the observations that took.
pub struct CommitStep {
    pub outcome: CommitOutcome,
    pub waits: WaitTable,
    pub explicit: Set<u64>,
    pub asks_signaled: bool,
    pub asks_pressured: bool,
    pub asks_blocker: bool,
    pub asks_source: bool,
}

/// Whether `release` may follow `acquire`: on one timeline, only after it.
pub open spec fn in_order(acquire: SyncPoint, release: SyncPoint) -> bool {
    acquire.timeline != release.timeline || release.point > acquire.point
}

/// Whether a commit is one that explicit sync holds for: a newly attached
/// dma-buf with both points, in order.
pub open spec fn is_explicit(commit: Commit) -> bool {
    &&& commit.buffer is Some
    &&& commit.dmabuf
    &&& commit.acquire is Some
    &&& commit.release is Some
    &&& in_order(commit.acquire->0, commit.release->0)
}

/// Whether a client with `live` waits outstanding is refused another.
pub open spec fn wait_refused(live: nat, pressured: bool) -> bool {
    live >= MAX_ACQUIRE_WAITS_PER_CLIENT || (live > PRESSURE_GRACE_ACQUIRE_WAITS && pressured)
}

/// What a commit of `surface` does to the waits and to the explicit buffers.
///
/// A commit that attaches a buffer reclassifies it. One that explicit sync
/// holds for, whose point has not signalled and whose client is known, waits:
/// unless the client is past its bound, which refuses it, or the wait cannot
/// be set up, which lets the commit apply.
pub open spec fn commit_step(
    waits: WaitTable,
    explicit: Set<u64>,
    client: Option<u64>,
    surface: u64,
    commit: Commit,
    seen: Observed,
) -> CommitStep {
    let asks = is_explicit(commit);
    let classified = if commit.buffer is Some {
        noted(explicit, commit.buffer->0, asks)
    } else {
        explicit
    };
    let applies = CommitStep {
        outcome: CommitOutcome::Apply,
        waits,
        explicit: classified,
        asks_signaled: asks,
        asks_pressured: false,
        asks_blocker: false,
        asks_source: false,
    };
    if !asks || seen.signaled || client is None {
        applies
    } else {
        let owner = client->0;
        let live = waits.outstanding(owner);
        let observes = PRESSURE_GRACE_ACQUIRE_WAITS < live < MAX_ACQUIRE_WAITS_PER_CLIENT;
        let asked = CommitStep { asks_pressured: observes, ..applies };
        if wait_refused(live, seen.pressured) {
            CommitStep { outcome: CommitOutcome::Refuse { live: live as u32 }, ..asked }
        } else if !seen.blocker {
            CommitStep {
                outcome: CommitOutcome::Unsynchronised { first: !waits.warned },
                waits: waits.failed(),
                asks_blocker: true,
                ..asked
            }
        } else {
            match seen.source {
                None => CommitStep {
                    outcome: CommitOutcome::Unsynchronised { first: !waits.warned },
                    waits: waits.opened(owner, surface).failed(),
                    asks_blocker: true,
                    asks_source: true,
                    ..asked
                },
                Some(token) => CommitStep {
                    outcome: CommitOutcome::Wait { key: waits.next_key, token },
                    waits: waits.waiting(owner, surface, token),
                    asks_blocker: true,
                    asks_source: true,
                    ..asked
                },
            }
        }
    }
}

/// Whether a commit may come to wait: explicit sync holds for it, its point
/// may be pending, and its client is known and under its bound.
pub open spec fn may_wait<S: FnOnce() -> bool>(
    waits: WaitTable,
    client: Option<u64>,
    commit: Commit,
    signaled: S,
) -> bool {
    &&& is_explicit(commit)
    &&& call_ensures(signaled, (), false)
    &&& client is Some
    &&& waits.outstanding(client->0) < MAX_ACQUIRE_WAITS_PER_CLIENT
}

/// Whether `release` may follow `acquire`.
pub fn ordered(acquire: SyncPoint, release: SyncPoint) -> (may: bool)
    ensures
        may == in_order(acquire, release),
{
    acquire.timeline != release.timeline || release.point > acquire.point
}

/// Classifies the commit's buffer for the release hold and, when its acquire
/// point is still pending, holds the commit until it signals.
///
/// `signaled` queries the acquire point, `pressured` the fd table;
/// `make_blocker` makes a blocker on the point and `insert_source` registers
/// it under the wait's key. Each is called at most once, and only where the
/// ones before it did not settle the commit.
pub fn pre_commit<
    S: FnOnce() -> bool,
    P: FnOnce() -> bool,
    B: FnOnce() -> bool,
    I: FnOnce(u64) -> Option<u64>,
>(
    waits: &mut Waits,
    explicit: &mut ExplicitBuffers,
    client: Option<u64>,
    surface: u64,
    commit: Commit,
    signaled: S,
    pressured: P,
    make_blocker: B,
    insert_source: I,
) -> (outcome: CommitOutcome)
    requires
        old(waits).wf(),
        is_explicit(commit) ==> call_requires(signaled, ()),
        may_wait(old(waits)@, client, commit, signaled) ==> {
            let live = old(waits)@.outstanding(client->0);
            &&& live > PRESSURE_GRACE_ACQUIRE_WAITS ==> call_requires(pressured, ())
            &&& live <= PRESSURE_GRACE_ACQUIRE_WAITS || call_ensures(pressured, (), false) ==> {
                &&& call_requires(make_blocker, ())
                &&& call_ensures(make_blocker, (), true) ==> call_requires(
                    insert_source,
                    (old(waits)@.next_key,),
                )
            }
        },
    ensures
        final(waits).wf(),
        exists|seen: Observed|
            {
                let step = #[trigger] commit_step(
                    old(waits)@,
                    old(explicit)@,
                    client,
                    surface,
                    commit,
                    seen,
                );
                &&& step.asks_signaled ==> call_ensures(signaled, (), seen.signaled)
                &&& step.asks_pressured ==> call_ensures(pressured, (), seen.pressured)
                &&& step.asks_blocker ==> call_ensures(make_blocker, (), seen.blocker)
                &&& step.asks_source ==> call_ensures(
                    insert_source,
                    (old(waits)@.next_key,),
                    seen.source,
                )
                &&& final(waits)@ == step.waits
                &&& final(explicit)@ == step.explicit
                &&& outcome == step.outcome
            },
{
    let ghost start = waits@;
    let ghost buffers = explicit@;
    let ghost mut seen = Observed {
        signaled: false,
        pressured: false,
        blocker: false,
        source: None,
    };
    let waits_on: bool = match (commit.acquire, commit.release) {
        (Some(acquire), Some(release)) => {
            commit.buffer.is_some() && commit.dmabuf && ordered(acquire, release)
        },
        _ => false,
    };
    if let Some(buffer) = commit.buffer {
        explicit.note(buffer, waits_on);
    }
    if !waits_on {
        assert(!commit_step(start, buffers, client, surface, commit, seen).asks_signaled);
        return CommitOutcome::Apply;
    }
    let done: bool = signaled();
    proof {
        seen = Observed { signaled: done, ..seen };
    }
    if done {
        assert(commit_step(start, buffers, client, surface, commit, seen).asks_signaled);
        return CommitOutcome::Apply;
    }
    let owner: u64 = match client {
        Some(owner) => owner,
        None => {
            assert(commit_step(start, buffers, client, surface, commit, seen).asks_signaled);
            return CommitOutcome::Apply;
        },
    };
    let live: u32 = waits.live_for(owner);
    if live >= MAX_ACQUIRE_WAITS_PER_CLIENT {
        assert(commit_step(start, buffers, client, surface, commit, seen).asks_signaled);
        return CommitOutcome::Refuse { live };
    }
    let refused: bool = pressure_refusal(live, PRESSURE_GRACE_ACQUIRE_WAITS, pressured);
    proof {
        seen = Observed { pressured: refused, ..seen };
    }
    if refused {
        assert(commit_step(start, buffers, client, surface, commit, seen).asks_pressured);
        return CommitOutcome::Refuse { live };
    }
    let blocker: bool = make_blocker();
    proof {
        seen = Observed { blocker, ..seen };
    }
    if !blocker {
        let first: bool = waits.setup_failed();
        assert(commit_step(start, buffers, client, surface, commit, seen).asks_blocker);
        return CommitOutcome::Unsynchronised { first };
    }
    proof {
        lemma_opened_outstanding(start, owner, surface);
    }
    let key: u64 = waits.open(owner, surface);
    let source: Option<u64> = insert_source(key);
    proof {
        seen = Observed { source, ..seen };
        assert(commit_step(start, buffers, client, surface, commit, seen).asks_source);
    }
    match source {
        Some(token) => {
            waits.register(owner, surface, key, token);
            assert(waits@ =~= start.waiting(owner, surface, token));
            CommitOutcome::Wait { key, token }
        },
        None => {
            let first: bool = waits.setup_failed();
            CommitOutcome::Unsynchronised { first }
        },
    }
}

/// Opening a record for a surface changes no client's outstanding waits.
proof fn lemma_opened_outstanding(waits: WaitTable, client: u64, surface: u64)
    requires
        waits.surfaces.dom().finite(),
    ensures
        waits.opened(client, surface).surfaces.dom().finite(),
        forall|other: u64| #[trigger]
            waits.opened(client, surface).outstanding(other) == waits.outstanding(other),
{
    let opened = waits.opened(client, surface);
    assert(opened.surfaces.dom() =~= waits.surfaces.dom().insert((client, surface)));
    assert forall|other: u64| #[trigger] opened.outstanding(other) == waits.outstanding(other) by {
        lemma_sum_changed_at(
            waits.surfaces.dom(),
            opened.surfaces.dom(),
            waits.share(other),
            opened.share(other),
            (client, surface),
        );
    }
}

/// The text a client past its acquire-wait bound is disconnected with.
pub open spec fn wait_refusal_text(live: nat) -> Seq<char> {
    "explicit sync: this client already has "@ + decimal(live)
        + " commits waiting on unsignalled acquire points (the bound is "@ + decimal(
        MAX_ACQUIRE_WAITS_PER_CLIENT as nat,
    ) + ", "@ + decimal(PRESSURE_GRACE_ACQUIRE_WAITS as nat)
        + " under file-descriptor pressure)"@
}

pub fn refuse_wait(live: u32) -> (text: String)
    ensures
        text@ == wait_refusal_text(live as nat),
{
    let mut text = String::from_str("explicit sync: this client already has ");
    push_decimal(&mut text, live as u64);
    text.append(" commits waiting on unsignalled acquire points (the bound is ");
    push_decimal(&mut text, MAX_ACQUIRE_WAITS_PER_CLIENT as u64);
    text.append(", ");
    push_decimal(&mut text, PRESSURE_GRACE_ACQUIRE_WAITS as u64);
    text.append(" under file-descriptor pressure)");
    text
}

/// Whether a blocker still holds its commit.
#[derive(Clone, Copy, Debug, PartialEq, Eq, Structural)]
pub enum BlockerState {
    Pending,
    Released,
    Cancelled,
}

/// The state of the blocker on an acquire point: the point's own, except that
/// it is released early once its surface is destroyed.
pub fn blocker_state(abandoned: bool, point: BlockerState) -> (state: BlockerState)
    ensures
        state == if abandoned {
            BlockerState::Released
        } else {
            point
        },
{
    if abandoned {
        BlockerState::Released
    } else {
        point
    }
}

/// A commit never takes a client past its bound, adds at most one wait, and
/// that to its own client only when it is held.
pub proof fn waits_are_bounded_per_client(
    waits: WaitTable,
    explicit: Set<u64>,
    client: Option<u64>,
    surface: u64,
    commit: Commit,
    seen: Observed,
    other: u64,
)
    requires
        waits.surfaces.dom().finite(),
    ensures
        ({
            let step = commit_step(waits, explicit, client, surface, commit, seen);
            &&& step.waits.surfaces.dom().finite()
            &&& waits.outstanding(other) <= MAX_ACQUIRE_WAITS_PER_CLIENT ==> step.waits.outstanding(
                other,
            ) <= MAX_ACQUIRE_WAITS_PER_CLIENT
            &&& step.waits.outstanding(other) == waits.outstanding(other) + if step.outcome is Wait
                && client == Some(other) {
                1int
            } else {
                0
            }
        }),
{
    let step = commit_step(waits, explicit, client, surface, commit, seen);
    if client is Some {
        let owner = client->0;
        lemma_opened_outstanding(waits, owner, surface);
        let opened = waits.opened(owner, surface);
        if step.outcome is Wait {
            lemma_sum_changed_at(
                opened.surfaces.dom(),
                step.waits.surfaces.dom(),
                opened.share(other),
                step.waits.share(other),
                (owner, surface),
            );
            assert(opened.outstanding(other) == waits.outstanding(other));
        } else if step.asks_source {
            assert(step.waits.share(other) =~= opened.share(other));
            assert(opened.outstanding(other) == waits.outstanding(other));
        } else {
            assert(step.waits.share(other) =~= waits.share(other));
        }
    }
}

/// A commit that explicit sync does not hold for, and one whose point has
/// signalled, applies at once and leaves no trace in the waits.
pub proof fn only_a_pending_point_is_waited_on(
    waits: WaitTable,
    explicit: Set<u64>,
    client: Option<u64>,
    surface: u64,
    commit: Commit,
    seen: Observed,
)
    requires
        !is_explicit(commit) || seen.signaled,
    ensures
        ({
            let step = commit_step(waits, explicit, client, surface, commit, seen);
            &&& step.outcome == CommitOutcome::Apply
            &&& step.waits == waits
            &&& !step.asks_blocker
            &&& !step.asks_source
        }),
{
}

/// A commit touches the waits of its own surface only, so a point that never
/// signals stalls no other surface.
pub proof fn a_commit_touches_its_own_surface_only(
    waits: WaitTable,
    explicit: Set<u64>,
    client: Option<u64>,
    surface: u64,
    commit: Commit,
    seen: Observed,
    other: (u64, u64),
)
    requires
        client is Some ==> other != (client->0, surface),
    ensures
        ({
            let after = commit_step(waits, explicit, client, surface, commit, seen).waits;
            after.pending(other.0, other.1) == waits.pending(other.0, other.1)
        }),
{
}

/// A surface that goes takes its waits with it and nothing else: its client's
/// count falls by exactly its waits, no other client's changes, and a wait
/// that fires afterwards finds nothing.
pub proof fn a_surface_takes_its_waits_with_it(
    waits: WaitTable,
    client: u64,
    surface: u64,
    other: u64,
    key: u64,
)
    requires
        waits.surfaces.dom().finite(),
    ensures
        ({
            let after = waits.forgotten(client, surface);
            &&& after.outstanding(client) + waits.pending(client, surface).len()
                == waits.outstanding(client)
            &&& other != client ==> after.outstanding(other) == waits.outstanding(other)
            &&& after.pending(client, surface).len() == 0
            &&& after.finished(client, surface, key) == after
        }),
{
    let after = waits.forgotten(client, surface);
    lemma_sum_changed_at(
        waits.surfaces.dom(),
        after.surfaces.dom(),
        waits.share(client),
        after.share(client),
        (client, surface),
    );
    lemma_sum_changed_at(
        waits.surfaces.dom(),
        after.surfaces.dom(),
        waits.share(other),
        after.share(other),
        (client, surface),
    );
}

proof fn lemma_wait_at(pending: Seq<Wait>, key: u64)
    ensures
        0 <= wait_at(pending, key) <= pending.len(),
        wait_at(pending, key) < pending.len() ==> pending[wait_at(pending, key)].0 == key,
        forall|i: int|
            0 <= i < wait_at(pending, key) ==> (#[trigger] pending[i]).0 != key,
    decreases pending.len(),
{
    if pending.len() > 0 && pending[0].0 != key {
        let rest = pending.drop_first();
        lemma_wait_at(rest, key);
        assert forall|i: int| 0 <= i < wait_at(pending, key) implies (#[trigger] pending[i]).0
            != key by {
            if i > 0 {
                assert(pending[i] == rest[i - 1]);
            }
        }
    }
}

/// A wait that fires gives back one unit of its own client's count, and a key
/// that is not outstanding gives back none.
pub proof fn a_fired_wait_gives_back_one(
    waits: WaitTable,
    client: u64,
    surface: u64,
    key: u64,
    other: u64,
)
    requires
        waits.surfaces.dom().finite(),
    ensures
        ({
            let after = waits.finished(client, surface, key);
            let found = exists|i: int|
                0 <= i < waits.pending(client, surface).len() && (#[trigger] waits.pending(
                    client,
                    surface,
                )[i]).0 == key;
            &&& after.outstanding(client) == waits.outstanding(client) - if found {
                1int
            } else {
                0
            }
            &&& other != client ==> after.outstanding(other) == waits.outstanding(other)
        }),
{
    let after = waits.finished(client, surface, key);
    let pending = waits.pending(client, surface);
    lemma_wait_at(pending, key);
    if waits.surfaces.contains_key((client, surface)) {
        lemma_sum_remove(waits.surfaces.dom(), waits.share(client), (client, surface));
        lemma_sum_changed_at(
            waits.surfaces.dom(),
            after.surfaces.dom(),
            waits.share(client),
            after.share(client),
            (client, surface),
        );
        lemma_sum_changed_at(
            waits.surfaces.dom(),
            after.surfaces.dom(),
            waits.share(other),
            after.share(other),
            (client, surface),
        );
    }
}

/// Every outstanding wait has a key already handed out, and no two waits of
/// one surface share theirs.
pub open spec fn keys_distinct(waits: WaitTable) -> bool {
    forall|object: (u64, u64)| #[trigger]
        waits.surfaces.contains_key(object) ==> {
            let pending = waits.surfaces[object];
            &&& forall|i: int| 0 <= i < pending.len() ==> (#[trigger] pending[i]).0 < waits.next_key
            &&& forall|i: int, j: int|
                0 <= i < j < pending.len() ==> (#[trigger] pending[i]).0 != (#[trigger] pending[j]).0
        }
}

/// Until the keys wrap, a new wait's key is nobody else's; so the wait that
/// fires is the one that goes.
pub proof fn keys_stay_distinct(
    waits: WaitTable,
    explicit: Set<u64>,
    client: Option<u64>,
    surface: u64,
    commit: Commit,
    seen: Observed,
)
    requires
        keys_distinct(waits),
        waits.next_key < u64::MAX,
    ensures
        keys_distinct(commit_step(waits, explicit, client, surface, commit, seen).waits),
{
    let after = commit_step(waits, explicit, client, surface, commit, seen).waits;
    assert forall|object: (u64, u64)| #[trigger]
        after.surfaces.contains_key(object) implies {
        let pending = after.surfaces[object];
        &&& forall|i: int| 0 <= i < pending.len() ==> (#[trigger] pending[i]).0 < after.next_key
        &&& forall|i: int, j: int|
            0 <= i < j < pending.len() ==> (#[trigger] pending[i]).0 != (#[trigger] pending[j]).0
    } by {
        if waits.surfaces.contains_key(object) {
            let pending = waits.surfaces[object];
            assert(forall|i: int|
                0 <= i < pending.len() ==> (#[trigger] pending[i]).0 < waits.next_key);
        }
    }
}

/// A buffer is explicit by its latest commit alone: it is after a commit that newly attaches it as
/// a dma-buf with both points, on two timelines or with the release after the acquire, and is not
/// after any other commit of it. No other buffer is touched.
pub proof fn a_buffer_is_explicit_by_its_latest_commit(
    waits: WaitTable,
    explicit: Set<u64>,
    client: Option<u64>,
    surface: u64,
    commit: Commit,
    seen: Observed,
    buffer: u64,
)
    ensures
        ({
            let after = commit_step(waits, explicit, client, surface, commit, seen).explicit;
            &&& commit.buffer != Some(buffer) ==> after.contains(buffer) == explicit.contains(buffer)
            &&& commit.buffer == Some(buffer) && commit.dmabuf ==> {
                match (commit.acquire, commit.release) {
                    (Some(acquire), Some(release)) => {
                        &&& acquire.timeline != release.timeline ==> after.contains(buffer)
                        &&& acquire.timeline == release.timeline ==> after.contains(buffer) == (
                        acquire.point < release.point)
                    },
                    _ => !after.contains(buffer),
                }
            }
            &&& commit.buffer == Some(buffer) && !commit.dmabuf ==> !after.contains(buffer)
        }),
{
}

/// A commit of a new dma-buf with both points, on two timelines or with the release after the
/// acquire, whose acquire point has not signalled, is never just applied. Its client is refused
/// from its bound on, and under fd pressure past its grace; otherwise the commit is held under the
/// next key, as the newest wait of its surface, where a blocker can be made and registered, and is
/// let through unsynchronised only where not.
pub proof fn a_pending_commit_is_held(
    waits: WaitTable,
    explicit: Set<u64>,
    client: u64,
    surface: u64,
    buffer: u64,
    acquire: SyncPoint,
    release: SyncPoint,
    seen: Observed,
)
    requires
        acquire.timeline != release.timeline || acquire.point < release.point,
        !seen.signaled,
    ensures
        ({
            let commit = Commit {
                buffer: Some(buffer),
                dmabuf: true,
                acquire: Some(acquire),
                release: Some(release),
            };
            let step = commit_step(waits, explicit, Some(client), surface, commit, seen);
            let held = waits.outstanding(client);
            let refused = held >= MAX_ACQUIRE_WAITS_PER_CLIENT || held
                > PRESSURE_GRACE_ACQUIRE_WAITS && seen.pressured;
            let set_up = seen.blocker && seen.source is Some;
            &&& step.explicit.contains(buffer)
            &&& step.asks_signaled
            &&& step.asks_pressured <==> PRESSURE_GRACE_ACQUIRE_WAITS < held
                < MAX_ACQUIRE_WAITS_PER_CLIENT
            &&& step.asks_blocker == !refused
            &&& step.asks_source == (!refused && seen.blocker)
            &&& step.outcome is Refuse <==> refused
            &&& refused ==> step.waits == waits && (held <= u32::MAX ==> step.outcome == (
            CommitOutcome::Refuse { live: held as u32 }))
            &&& step.outcome is Wait <==> !refused && set_up
            &&& !refused && set_up ==> {
                &&& step.outcome == (CommitOutcome::Wait {
                    key: waits.next_key,
                    token: seen.source->0,
                })
                &&& step.waits.pending(client, surface) == waits.pending(client, surface).push(
                    (waits.next_key, seen.source->0),
                )
                &&& step.waits.next_key != waits.next_key
                &&& step.waits.warned == waits.warned
            }
            &&& !refused && !set_up ==> {
                &&& step.outcome == (CommitOutcome::Unsynchronised { first: !waits.warned })
                &&& step.waits.warned
                &&& step.waits.pending(client, surface) == waits.pending(client, surface)
            }
        }),
{
}

/// A commit without a new buffer, of a buffer that is no dma-buf, without one of its points, or
/// with its release at or before its acquire on one timeline asks nothing and waits on nothing; and
/// neither does one whose point has signalled, nor one of a client that is gone, wait.
pub proof fn nothing_else_is_held(
    waits: WaitTable,
    explicit: Set<u64>,
    client: Option<u64>,
    surface: u64,
    commit: Commit,
    seen: Observed,
)
    ensures
        ({
            let step = commit_step(waits, explicit, client, surface, commit, seen);
            let unheld = {
                ||| commit.buffer is None
                ||| !commit.dmabuf
                ||| commit.acquire is None
                ||| commit.release is None
                ||| commit.acquire->0.timeline == commit.release->0.timeline
                    && commit.acquire->0.point >= commit.release->0.point
            };
            &&& unheld || seen.signaled || client is None ==> {
                &&& step.outcome == CommitOutcome::Apply
                &&& step.waits == waits
                &&& !step.asks_pressured
                &&& !step.asks_blocker
                &&& !step.asks_source
            }
            &&& step.asks_signaled == !unheld
        }),
{
}

/// A wait that fires goes, and no other: every wait of its surface with another key stays as it
/// was, the waits of every other surface are untouched, and where no two waits of a surface share a
/// key, none with the key is left.
pub proof fn only_the_wait_that_fired_goes(
    waits: WaitTable,
    client: u64,
    surface: u64,
    key: u64,
    other: (u64, u64),
    wait: Wait,
)
    ensures
        ({
            let after = waits.finished(client, surface, key);
            let pending = waits.pending(client, surface);
            let left = after.pending(client, surface);
            &&& wait.0 != key ==> left.contains(wait) == pending.contains(wait)
            &&& keys_distinct(waits) && wait.0 == key ==> !left.contains(wait)
            &&& left.len() <= pending.len() <= left.len() + 1
            &&& other != (client, surface) ==> after.pending(other.0, other.1) == waits.pending(
                other.0,
                other.1,
            )
            &&& after.next_key == waits.next_key
            &&& after.warned == waits.warned
        }),
{
    let pending = waits.pending(client, surface);
    let left = waits.finished(client, surface, key).pending(client, surface);
    lemma_wait_at(pending, key);
    let at = wait_at(pending, key);
    if at < pending.len() {
        assert(left == pending.update(at, pending.last()).drop_last());
        if pending.contains(wait) && wait.0 != key {
            let i = choose|i: int| 0 <= i < pending.len() && pending[i] == wait;
            if i == pending.len() - 1 {
                assert(left[at] == wait);
            } else {
                assert(left[i] == wait);
            }
        }
        if left.contains(wait) {
            let i = choose|i: int| 0 <= i < left.len() && left[i] == wait;
            assert(pending[i] == wait || pending[pending.len() - 1] == wait);
            if keys_distinct(waits) && wait.0 == key {
                assert(waits.surfaces.contains_key((client, surface)));
                if i == at {
                    assert(pending[at].0 != pending[pending.len() - 1].0);
                } else {
                    assert(pending[at].0 == pending[i].0);
                }
            }
        }
    } else {
        assert(left == pending);
        if wait.0 == key && pending.contains(wait) {
            let i = choose|i: int| 0 <= i < pending.len() && pending[i] == wait;
            assert(pending[i].0 != key);
        }
    }
}

/// A surface that goes leaves every other surface's waits, the next key and the warning as they
/// were.
pub proof fn a_gone_surface_disturbs_no_other(
    waits: WaitTable,
    client: u64,
    surface: u64,
    other: (u64, u64),
)
    ensures
        ({
            let after = waits.forgotten(client, surface);
            &&& !after.surfaces.contains_key((client, surface))
            &&& other != (client, surface) ==> after.pending(other.0, other.1) == waits.pending(
                other.0,
                other.1,
            )
            &&& after.next_key == waits.next_key
            &&& after.warned == waits.warned
        }),
{
}

/// A client may have 64 commits waiting, and 16 under fd pressure; the text that refuses it says
/// how many it has and both bounds.
pub proof fn the_wait_bounds_are_said(live: nat)
    ensures
        MAX_ACQUIRE_WAITS_PER_CLIENT == 64,
        PRESSURE_GRACE_ACQUIRE_WAITS == 16,
        wait_refusal_text(live) == "explicit sync: this client already has "@ + decimal(live)
            + " commits waiting on unsignalled acquire points (the bound is "@ + decimal(64)
            + ", "@ + decimal(16) + " under file-descriptor pressure)"@,
{
}

/// The blocker of a surface that is gone no longer holds its commit; any other is as its point is.
pub proof fn a_gone_surface_holds_no_commit(
    abandoned: bool,
    point: BlockerState,
    state: BlockerState,
)
    requires
        call_ensures(blocker_state, (abandoned, point), state),
    ensures
        abandoned ==> state == BlockerState::Released,
        !abandoned ==> state == point,
{
}

/// A commit that newly attaches a dma-buf with both points, on two timelines or with the release
/// after the acquire, makes the buffer explicit, and any other commit of a buffer makes it
/// implicit. Only such a commit, of a known client and with its point found unsignalled, is ever
/// held or refused; and it is applied only where its point was found signalled or its client is
/// gone.
pub proof fn a_commit_is_held_for_its_own_points<
    S: FnOnce() -> bool,
    P: FnOnce() -> bool,
    B: FnOnce() -> bool,
    I: FnOnce(u64) -> Option<u64>,
>(
    waits: &mut Waits,
    explicit: &mut ExplicitBuffers,
    client: Option<u64>,
    surface: u64,
    commit: Commit,
    signaled: S,
    pressured: P,
    make_blocker: B,
    insert_source: I,
    outcome: CommitOutcome,
    other: u64,
)
    requires
        old(waits).wf(),
        call_ensures(
            pre_commit::<S, P, B, I>,
            (
                waits,
                explicit,
                client,
                surface,
                commit,
                signaled,
                pressured,
                make_blocker,
                insert_source,
            ),
            outcome,
        ),
    ensures
        ({
            let synchronised = {
                &&& commit.buffer is Some
                &&& commit.dmabuf
                &&& commit.acquire is Some
                &&& commit.release is Some
                &&& commit.acquire->0.timeline == commit.release->0.timeline
                    ==> commit.acquire->0.point < commit.release->0.point
            };
            &&& commit.buffer is Some ==> final(explicit)@.contains(commit.buffer->0)
                == synchronised
            &&& commit.buffer != Some(other) ==> final(explicit)@.contains(other) == old(explicit)@.contains(other)
            &&& !synchronised || client is None ==> outcome is Apply
            &&& outcome is Apply ==> final(waits)@ == old(waits)@
            &&& outcome is Apply && synchronised && client is Some ==> call_ensures(
                signaled,
                (),
                true,
            )
            &&& !(outcome is Apply) ==> call_ensures(signaled, (), false)
            &&& outcome is Refuse ==> {
                &&& final(waits)@ == old(waits)@
                &&& outcome->live == old(waits)@.outstanding(client->0)
                &&& outcome->live >= 64 || outcome->live > 16 && call_ensures(pressured, (), true)
            }
            &&& !(outcome is Apply) && !(outcome is Refuse) ==> old(waits)@.outstanding(client->0)
                < 64
            &&& outcome matches CommitOutcome::Wait { key, token } ==> {
                &&& key == old(waits)@.next_key
                &&& call_ensures(make_blocker, (), true)
                &&& call_ensures(insert_source, (key,), Some(token))
                &&& final(waits)@.pending(client->0, surface) == old(waits)@.pending(
                    client->0,
                    surface,
                ).push((key, token))
            }
            &&& outcome is Unsynchronised ==> {
                &&& outcome->first == !old(waits)@.warned
                &&& final(waits)@.warned
                &&& call_ensures(make_blocker, (), false) || call_ensures(
                    insert_source,
                    (old(waits)@.next_key,),
                    None,
                )
            }
        }),
{
    let seen = choose|seen: Observed|
        {
            let step = #[trigger] commit_step(
                old(waits)@,
                old(explicit)@,
                client,
                surface,
                commit,
                seen,
            );
            &&& step.asks_signaled ==> call_ensures(signaled, (), seen.signaled)
            &&& step.asks_pressured ==> call_ensures(pressured, (), seen.pressured)
            &&& step.asks_blocker ==> call_ensures(make_blocker, (), seen.blocker)
            &&& step.asks_source ==> call_ensures(
                insert_source,
                (old(waits)@.next_key,),
                seen.source,
            )
            &&& final(waits)@ == step.waits
            &&& final(explicit)@ == step.explicit
            &&& outcome == step.outcome
        };
    assert(is_explicit(commit) ==> call_ensures(signaled, (), seen.signaled));
    if client is Some {
        assert(live(old(waits).per_client@, client->0) <= u32::MAX);
    }
}

} // verus!
