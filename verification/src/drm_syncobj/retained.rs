//! Which imported syncobj timeline fds this process still holds, and for
//! which client.
//!
//! An imported timeline keeps its fd open until the last sync point on it is
//! gone, which may be long after the timeline object was destroyed. The
//! ledger therefore records fd numbers, not objects. A record dies when its
//! number arrives again (the kernel reuses only closed numbers) or when a
//! sweep finds the number closed or no longer a syncobj. Until one of the two
//! notices, dead records linger, so the record count is an upper bound and a
//! refusal is only ever decided on a fresh sweep.
//!
//! A sweep marks its client, and the next one under pressure is due only once
//! the client has [`SWEEP_MARGIN`] records more than that sweep left. The mark
//! stays when the records go, and goes with its client.

use crate::tally::{lemma_sum_changed_at, sum_of};
use std::collections::HashMap;
use vstd::prelude::*;

verus! {

/// How far below its bound a sweep must bring a client for the import that
/// triggered it to be admitted. It is also how many more records a client may
/// gain before it is swept again.
pub const SWEEP_MARGIN: u32 = 16;

/// Why an import was refused, with how many timelines the fresh sweep found
/// the client still holding.
#[derive(Clone, Copy, Debug, PartialEq, Eq, Structural)]
pub enum Refusal {
    /// At the hard cap, and a sweep could not free [`SWEEP_MARGIN`].
    Cap { held: u32 },
    /// Past the pressure grace while the fd table is pressured.
    Pressure { held: u32 },
}

/// What the ledger holds: the client recorded on each fd number, and the
/// next-sweep mark of each client that was swept.
#[verifier::ext_equal]
pub struct Ledger {
    pub owner: Map<i32, u64>,
    pub sweep_at: Map<u64, u32>,
}

impl Ledger {
    pub open spec fn empty() -> Ledger {
        Ledger { owner: Map::empty(), sweep_at: Map::empty() }
    }

    /// The fd numbers recorded for `client`.
    pub open spec fn fds_of(self, client: u64) -> Set<i32> {
        self.owner.dom().filter(|fd: i32| self.owner[fd] == client)
    }

    /// How many records `client` has.
    pub open spec fn held(self, client: u64) -> nat {
        self.fds_of(client).len()
    }

    /// The clients with a record.
    pub open spec fn owners(self) -> Set<u64> {
        self.owner.values()
    }

    /// Whether a pressure sweep of `client`, which has a record, is due: its
    /// records have reached its mark, or it was never swept.
    pub open spec fn due(self, client: u64) -> bool {
        &&& self.held(client) > 0
        &&& self.sweep_at.contains_key(client) ==> self.held(client) >= self.sweep_at[client]
    }

    /// The ledger without the record on `fd`.
    pub open spec fn without(self, fd: i32) -> Ledger {
        Ledger { owner: self.owner.remove(fd), ..self }
    }

    /// The ledger with `fd` recorded for `client`, replacing whatever was
    /// recorded on that number.
    pub open spec fn with(self, client: u64, fd: i32) -> Ledger {
        Ledger { owner: self.owner.insert(fd, client), ..self }
    }

    /// The ledger with each of `fds` recorded for `client`, in turn.
    pub open spec fn with_all(self, client: u64, fds: Seq<i32>) -> Ledger
        decreases fds.len(),
    {
        if fds.len() == 0 {
            self
        } else {
            self.with_all(client, fds.drop_last()).with(client, fds.last())
        }
    }

    /// The ledger once `client` has disconnected: its mark goes, and its
    /// records stay until their numbers are reused.
    pub open spec fn departed(self, client: u64) -> Ledger {
        Ledger { sweep_at: self.sweep_at.remove(client), ..self }
    }

    /// The ledger after a sweep of `client` that found exactly `live` of its
    /// records still held. Every sweep sets the mark.
    pub open spec fn swept(self, client: u64, live: Set<i32>) -> Ledger {
        Ledger {
            owner: self.owner.remove_keys(self.fds_of(client).difference(live)),
            sweep_at: self.sweep_at.insert(client, next_sweep(live.len())),
        }
    }
}

/// `n` as a count of 32 bits, which stops at the largest.
pub open spec fn shown(n: nat) -> u32 {
    if n > u32::MAX {
        u32::MAX
    } else {
        n as u32
    }
}

/// The record count at which the next pressure sweep is due, after one that
/// left `live` records.
pub open spec fn next_sweep(live: nat) -> u32 {
    shown(live + SWEEP_MARGIN as nat)
}

/// `live` is what `still_held` answered of each of `fds`.
pub open spec fn answered<F: Fn(i32) -> bool>(
    still_held: F,
    fds: Set<i32>,
    live: Set<i32>,
) -> bool {
    &&& live.subset_of(fds)
    &&& forall|fd: i32| #[trigger]
        fds.contains(fd) ==> call_ensures(still_held, (fd,), live.contains(fd))
}

/// How one request to import is answered, and what answering it took.
pub struct Admission {
    pub outcome: Result<(), Refusal>,
    /// The ledger afterwards.
    pub ledger: Ledger,
    /// Whether the client's records were swept.
    pub swept: bool,
    /// Whether the fd table was observed.
    pub observed: bool,
}

/// The admission rule, given what a sweep of `client` would find `live` and
/// whether the fd table is `pressured`.
///
/// Records at `cap` are swept first, and refused when more than
/// `cap - SWEEP_MARGIN` are live. Records past `grace`, with a sweep due or
/// just done, are refused when the table is pressured and more than `grace`
/// are live.
pub open spec fn admission(
    ledger: Ledger,
    client: u64,
    cap: u32,
    grace: u32,
    live: Set<i32>,
    pressured: bool,
) -> Admission {
    let after = ledger.swept(client, live);
    let held = shown(live.len());
    if ledger.held(client) >= cap {
        if live.len() + SWEEP_MARGIN > cap && live.len() > 0 {
            Admission {
                outcome: Err(Refusal::Cap { held }),
                ledger: after,
                swept: true,
                observed: false,
            }
        } else {
            Admission {
                outcome: if live.len() > grace && pressured {
                    Err(Refusal::Pressure { held })
                } else {
                    Ok(())
                },
                ledger: after,
                swept: true,
                observed: live.len() > grace,
            }
        }
    } else if ledger.held(client) > grace && ledger.due(client) {
        if pressured {
            Admission {
                outcome: if live.len() > grace {
                    Err(Refusal::Pressure { held })
                } else {
                    Ok(())
                },
                ledger: after,
                swept: true,
                observed: true,
            }
        } else {
            Admission { outcome: Ok(()), ledger, swept: false, observed: true }
        }
    } else {
        Admission { outcome: Ok(()), ledger, swept: false, observed: false }
    }
}

/// Whether judging an import may observe the fd table: past the grace with a
/// sweep due; or at the cap, where a sweep leaves room under it but not under
/// the grace.
pub open spec fn may_observe<F: Fn(i32) -> bool>(
    ledger: Ledger,
    client: u64,
    cap: u32,
    grace: u32,
    still_held: F,
) -> bool {
    if ledger.held(client) >= cap {
        exists|live: Set<i32>| #[trigger]
            answered(still_held, ledger.fds_of(client), live) && grace < live.len()
                && live.len() + SWEEP_MARGIN <= cap
    } else {
        ledger.held(client) > grace && ledger.due(client)
    }
}

/// Whether judging an import may sweep: at the cap, or past the grace with a
/// sweep due and a table that may be pressured.
pub open spec fn may_sweep<P: FnOnce() -> bool>(
    ledger: Ledger,
    client: u64,
    cap: u32,
    grace: u32,
    pressured: P,
) -> bool {
    ||| ledger.held(client) >= cap
    ||| ledger.held(client) > grace && ledger.due(client) && call_ensures(pressured, (), true)
}

/// `still_held` can be asked of each of `fds`.
pub open spec fn answerable<F: Fn(i32) -> bool>(still_held: F, fds: Set<i32>) -> bool {
    forall|fd: i32| #[trigger] fds.contains(fd) ==> call_requires(still_held, (fd,))
}

/// The ledger of retained timeline fds.
pub struct RetainedTimelines {
    owner: HashMap<i32, u64>,
    per_client: HashMap<u64, Vec<i32>>,
    sweep_at: HashMap<u64, u32>,
}

impl View for RetainedTimelines {
    type V = Ledger;

    closed spec fn view(&self) -> Ledger {
        Ledger { owner: self.owner@, sweep_at: self.sweep_at@ }
    }
}

impl RetainedTimelines {
    /// Every record is in both maps, once in each, and a client has an entry
    /// only while it has a record.
    pub closed spec fn wf(&self) -> bool {
        &&& forall|client: u64| #[trigger]
            self.per_client@.contains_key(client) ==> {
                let fds = self.per_client@[client]@;
                &&& 0 < fds.len()
                &&& fds.no_duplicates()
                &&& fds.to_set() =~= self@.fds_of(client)
            }
        &&& forall|fd: i32| #[trigger]
            self.owner@.contains_key(fd) ==> self.per_client@.contains_key(self.owner@[fd])
    }

    proof fn lemma_held(&self, client: u64)
        requires
            self.wf(),
        ensures
            self@.held(client) == if self.per_client@.contains_key(client) {
                self.per_client@[client]@.len()
            } else {
                0
            },
    {
        if self.per_client@.contains_key(client) {
            self.per_client@[client]@.unique_seq_to_set();
        } else {
            assert(self@.fds_of(client) =~= Set::empty());
        }
    }

    /// Only finitely many numbers have a record.
    pub proof fn lemma_finite(&self)
        ensures
            self@.owner.dom().finite(),
            self@.sweep_at.dom().finite(),
    {
    }

    pub fn new() -> (ledger: RetainedTimelines)
        ensures
            ledger.wf(),
            ledger@ == Ledger::empty(),
    {
        let ledger = RetainedTimelines {
            owner: HashMap::new(),
            per_client: HashMap::new(),
            sweep_at: HashMap::new(),
        };
        assert(ledger@ =~= Ledger::empty());
        ledger
    }

    /// How many timeline fds are recorded for `client`.
    pub fn held_by(&self, client: u64) -> (held: u32)
        requires
            self.wf(),
        ensures
            held == shown(self@.held(client)),
    {
        to_shown(self.count(client))
    }

    fn count(&self, client: u64) -> (held: usize)
        requires
            self.wf(),
        ensures
            held == self@.held(client),
    {
        proof {
            self.lemma_held(client);
        }
        match self.per_client.get(&client) {
            Some(fds) => fds.len(),
            None => 0,
        }
    }

    /// Whether a pressure sweep of `client` is due: its records have grown
    /// [`SWEEP_MARGIN`] past what its last sweep left, or it was never swept.
    pub fn sweep_due(&self, client: u64) -> (due: bool)
        requires
            self.wf(),
        ensures
            due == self@.due(client),
    {
        proof {
            self.lemma_held(client);
        }
        match self.per_client.get(&client) {
            Some(fds) => match self.sweep_at.get(&client) {
                Some(mark) => fds.len() >= *mark as usize,
                None => true,
            },
            None => false,
        }
    }

    /// `fd` has just been received from a client, so whatever was recorded on
    /// that number was closed in between: forgets it.
    pub fn fd_arrived(&mut self, fd: i32)
        requires
            old(self).wf(),
        ensures
            final(self).wf(),
            final(self)@ == old(self)@.without(fd),
    {
        if self.owner.is_empty() {
            assert(self@ =~= old(self)@.without(fd));
            return;
        }
        match self.owner.remove(&fd) {
            None => {
                assert(self@ =~= old(self)@.without(fd));
            },
            Some(client) => {
                let ghost before = *old(self);
                match self.per_client.remove(&client) {
                    None => {},
                    Some(mut held) => {
                        let ghost fds = held@;
                        assert(fds.to_set().contains(fd)) by {
                            assert(before@.fds_of(client).contains(fd));
                        }
                        let at = position(&held, fd);
                        held.swap_remove(at);
                        proof {
                            lemma_swap_remove(fds, at as int);
                            assert(held@.to_set() =~= before@.fds_of(client).remove(fd));
                            held@.unique_seq_to_set();
                        }
                        if !held.is_empty() {
                            self.per_client.insert(client, held);
                        }
                        proof {
                            assert(self@ =~= before@.without(fd));
                            assert forall|other: u64| #[trigger]
                                self.per_client@.contains_key(other) && other != client implies {
                                self@.fds_of(other) == before@.fds_of(other)
                            } by {
                                assert(self@.fds_of(other) =~= before@.fds_of(other));
                            }
                            assert(self@.fds_of(client) =~= before@.fds_of(client).remove(fd));
                            assert forall|other: i32| #[trigger]
                                self.owner@.contains_key(other) implies self.per_client@.contains_key(
                                self.owner@[other],
                            ) by {
                                if self.owner@[other] == client {
                                    assert(self@.fds_of(client).contains(other));
                                }
                            }
                        }
                    },
                }
            },
        }
    }

    /// Records `fd`, just received in `client`'s import. Any older record on
    /// the same number is dead and is dropped first.
    pub fn record(&mut self, client: u64, fd: i32)
        requires
            old(self).wf(),
        ensures
            final(self).wf(),
            final(self)@ == old(self)@.with(client, fd),
    {
        let ghost start = self@;
        self.fd_arrived(fd);
        let ghost before = *self;
        proof {
            before.lemma_held(client);
        }
        self.owner.insert(fd, client);
        let mut held = match self.per_client.remove(&client) {
            Some(held) => held,
            None => Vec::new(),
        };
        let ghost fds = held@;
        held.push(fd);
        let ghost pushed = held@;
        self.per_client.insert(client, held);
        proof {
            assert(!before@.owner.contains_key(fd));
            assert(fds.to_set() =~= before@.fds_of(client)) by {
                if !before.per_client@.contains_key(client) {
                    assert(before@.fds_of(client) =~= Set::empty());
                }
            }
            assert(self@ =~= start.with(client, fd));
            assert(!fds.contains(fd)) by {
                if fds.contains(fd) {
                    assert(fds.to_set().contains(fd));
                }
            }
            assert(pushed.no_duplicates());
            assert(self@.fds_of(client) =~= before@.fds_of(client).insert(fd));
            assert(pushed.to_set() =~= fds.to_set().insert(fd)) by {
                assert(pushed[pushed.len() - 1] == fd);
                assert forall|x: i32| fds.to_set().contains(x) implies pushed.to_set().contains(x) by {
                    let i = choose|i: int| 0 <= i < fds.len() && fds[i] == x;
                    assert(pushed[i] == x);
                }
            }
            assert forall|other: u64| #[trigger]
                self.per_client@.contains_key(other) && other != client implies self@.fds_of(other)
                == before@.fds_of(other) by {
                assert(self@.fds_of(other) =~= before@.fds_of(other));
            }
        }
    }

    /// `client` has disconnected: drops its mark, so that marks are kept for
    /// connected clients only.
    pub fn forget_client(&mut self, client: u64)
        requires
            old(self).wf(),
        ensures
            final(self).wf(),
            final(self)@ == old(self)@.departed(client),
    {
        self.sweep_at.remove(&client);
        proof {
            assert(self@ =~= old(self)@.departed(client));
            assert forall|other: u64| #[trigger] self@.fds_of(other) == old(self)@.fds_of(
                other,
            ) by {
                assert(self@.fds_of(other) =~= old(self)@.fds_of(other));
            }
        }
    }

    /// Checks each of `client`'s records with `still_held`, drops the dead
    /// ones and answers how many are left.
    pub fn sweep<F: Fn(i32) -> bool>(&mut self, client: u64, still_held: F) -> (left: u32)
        requires
            old(self).wf(),
            answerable(still_held, old(self)@.fds_of(client)),
        ensures
            final(self).wf(),
            exists|live: Set<i32>|
                {
                    &&& #[trigger] answered(still_held, old(self)@.fds_of(client), live)
                    &&& final(self)@ == old(self)@.swept(client, live)
                    &&& left == shown(live.len())
                },
    {
        to_shown(self.sweep_records(client, &still_held))
    }

    fn sweep_records<F: Fn(i32) -> bool>(&mut self, client: u64, still_held: &F) -> (left: usize)
        requires
            old(self).wf(),
            answerable(*still_held, old(self)@.fds_of(client)),
        ensures
            final(self).wf(),
            exists|live: Set<i32>|
                {
                    &&& #[trigger] answered(*still_held, old(self)@.fds_of(client), live)
                    &&& final(self)@ == old(self)@.swept(client, live)
                    &&& left == live.len()
                },
    {
        let ghost before = *self;
        proof {
            before.lemma_held(client);
        }
        match self.per_client.remove(&client) {
            None => {
                self.sweep_at.insert(client, SWEEP_MARGIN);
                proof {
                    let none = Set::<i32>::empty();
                    assert(before@.fds_of(client) =~= none);
                    assert(answered(*still_held, before@.fds_of(client), none));
                    assert(self.per_client@ =~= before.per_client@);
                    assert(self@ =~= before@.swept(client, none));
                    assert forall|other: u64| #[trigger] self@.fds_of(other) == before@.fds_of(
                        other,
                    ) by {
                        assert(self@.fds_of(other) =~= before@.fds_of(other));
                    }
                }
                0
            },
            Some(fds) => {
                let mut kept: Vec<i32> = Vec::new();
                let mut i: usize = 0;
                assert(fds@.to_set() =~= before@.fds_of(client));
                while i < fds.len()
                    invariant
                        i <= fds.len(),
                        fds@.no_duplicates(),
                        fds@.to_set() =~= before@.fds_of(client),
                        self.per_client@ == before.per_client@.remove(client),
                        self.sweep_at@ == before.sweep_at@,
                        kept@.len() <= i,
                        kept@.no_duplicates(),
                        forall|j: int| 0 <= j < kept@.len() ==> fds@.take(i as int).contains(#[trigger] kept@[j]),
                        forall|j: int|
                            0 <= j < i ==> call_ensures(
                                *still_held,
                                (#[trigger] fds@[j],),
                                kept@.contains(fds@[j]),
                            ),
                        self.owner@ =~= before.owner@.remove_keys(
                            fds@.take(i as int).to_set().difference(kept@.to_set()),
                        ),
                        answerable(*still_held, before@.fds_of(client)),
                    decreases fds.len() - i,
                {
                    let fd: i32 = fds[i];
                    assert(before@.fds_of(client).contains(fd)) by {
                        assert(fds@.to_set().contains(fd));
                    }
                    let ghost kept_before = kept@;
                    let ghost earlier = fds@.take(i as int);
                    let ghost later = fds@.take(i + 1);
                    proof {
                        assert(later =~= earlier.push(fd));
                        assert(!earlier.contains(fd));
                        assert(!kept_before.contains(fd));
                        assert(later.to_set() =~= earlier.to_set().insert(fd)) by {
                            assert(later[i as int] == fd);
                            assert forall|x: i32| earlier.to_set().contains(x) implies later.to_set().contains(x) by {
                                let j = choose|j: int| 0 <= j < earlier.len() && earlier[j] == x;
                                assert(later[j] == x);
                            }
                        }
                    }
                    if still_held(fd) {
                        kept.push(fd);
                        proof {
                            assert(kept@[kept@.len() - 1] == fd);
                            assert(kept@.to_set() =~= kept_before.to_set().insert(fd)) by {
                                assert forall|x: i32| kept_before.to_set().contains(x) implies kept@.to_set().contains(x) by {
                                    let j = choose|j: int| 0 <= j < kept_before.len() && kept_before[j] == x;
                                    assert(kept@[j] == x);
                                }
                            }
                            assert forall|j: int| 0 <= j < i + 1 implies call_ensures(
                                *still_held,
                                (#[trigger] fds@[j],),
                                kept@.contains(fds@[j]),
                            ) by {
                                if j < i {
                                    assert(fds@[j] != fd);
                                    assert(kept@.contains(fds@[j]) == kept_before.contains(fds@[j])) by {
                                        assert(kept@.to_set().contains(fds@[j]) == kept_before.to_set().contains(fds@[j]));
                                    }
                                }
                            }
                            assert forall|j: int| 0 <= j < kept@.len() implies later.contains(#[trigger] kept@[j]) by {
                                if j < kept_before.len() {
                                    assert(earlier.contains(kept_before[j]));
                                    assert(earlier.to_set().contains(kept@[j]));
                                    assert(later.to_set().contains(kept@[j]));
                                } else {
                                    assert(later[i as int] == fd);
                                }
                            }
                            assert(later.to_set().difference(kept@.to_set()) =~= earlier.to_set().difference(kept_before.to_set()));
                        }
                    } else {
                        self.owner.remove(&fd);
                        proof {
                            assert(later.to_set().difference(kept@.to_set()) =~= earlier.to_set().difference(kept_before.to_set()).insert(fd)) by {
                                assert(!kept@.to_set().contains(fd));
                            }
                            assert forall|j: int| 0 <= j < kept@.len() implies later.contains(#[trigger] kept@[j]) by {
                                assert(earlier.to_set().contains(kept@[j]));
                                assert(later.to_set().contains(kept@[j]));
                            }
                        }
                    }
                    i += 1;
                }
                let left: usize = kept.len();
                let ghost live = kept@.to_set();
                proof {
                    kept@.unique_seq_to_set();
                    assert(fds@.take(fds@.len() as int) =~= fds@);
                    assert(live.subset_of(before@.fds_of(client))) by {
                        assert forall|x: i32| live.contains(x) implies before@.fds_of(client).contains(x) by {
                            let j = choose|j: int| 0 <= j < kept@.len() && kept@[j] == x;
                            assert(fds@.contains(kept@[j]));
                            assert(fds@.to_set().contains(x));
                        }
                    }
                    assert(answered(*still_held, before@.fds_of(client), live)) by {
                        assert forall|fd: i32| #[trigger] before@.fds_of(client).contains(fd) implies call_ensures(
                            *still_held,
                            (fd,),
                            live.contains(fd),
                        ) by {
                            assert(fds@.to_set().contains(fd));
                            let j = choose|j: int| 0 <= j < fds@.len() && fds@[j] == fd;
                            assert(kept@.contains(fds@[j]) == live.contains(fd));
                        }
                    }
                }
                if left > 0 {
                    self.per_client.insert(client, kept);
                }
                self.sweep_at.insert(client, to_shown(left).saturating_add(SWEEP_MARGIN));
                proof {
                    assert(self@ =~= before@.swept(client, live));
                    assert forall|other: u64| other != client implies #[trigger] self@.fds_of(other)
                        == before@.fds_of(other) by {
                        assert(self@.fds_of(other) =~= before@.fds_of(other));
                    }
                    assert(self@.fds_of(client) =~= live);
                    assert forall|fd: i32| #[trigger]
                        self.owner@.contains_key(fd) implies self.per_client@.contains_key(
                        self.owner@[fd],
                    ) by {
                        if self.owner@[fd] == client {
                            assert(self@.fds_of(client).contains(fd));
                        }
                    }
                }
                left
            },
        }
    }

    /// Decides whether `client` may import one more timeline, against a hard
    /// `cap` and a `grace` that applies only while `pressured()` says the fd
    /// table is. Records nothing.
    ///
    /// `pressured` is evaluated at most once, and only past the grace with a
    /// sweep due or just done; below the cap, `still_held` is asked only where
    /// it answered yes. A client under both bounds costs a map lookup and no
    /// observation.
    pub fn try_admit<F: Fn(i32) -> bool, P: FnOnce() -> bool>(
        &mut self,
        client: u64,
        cap: u32,
        grace: u32,
        still_held: F,
        pressured: P,
    ) -> (outcome: Result<(), Refusal>)
        requires
            old(self).wf(),
            may_sweep(old(self)@, client, cap, grace, pressured) ==> answerable(
                still_held,
                old(self)@.fds_of(client),
            ),
            may_observe(old(self)@, client, cap, grace, still_held) ==> call_requires(pressured, ()),
        ensures
            final(self).wf(),
            outcome is Ok && cap > 0 ==> final(self)@.held(client) < cap,
            exists|live: Set<i32>, p: bool|
                {
                    let a = #[trigger] admission(old(self)@, client, cap, grace, live, p);
                    &&& a.swept ==> answered(still_held, old(self)@.fds_of(client), live)
                    &&& a.observed ==> call_ensures(pressured, (), p)
                    &&& final(self)@ == a.ledger
                    &&& outcome == a.outcome
                },
    {
        let ghost start = self@;
        let mut held: usize = self.count(client);
        let mut fresh: bool = false;
        let ghost mut live: Set<i32> = Set::empty();
        if held >= cap as usize {
            held = self.sweep_records(client, &still_held);
            fresh = true;
            proof {
                live = choose|l: Set<i32>|
                    {
                        &&& #[trigger] answered(still_held, start.fds_of(client), l)
                        &&& self@ == start.swept(client, l)
                        &&& held == l.len()
                    };
                vstd::set_lib::lemma_len_subset(live, start.fds_of(client));
                a_sweep_keeps_exactly_the_live(start, client, live);
            }
            if held > cap.saturating_sub(SWEEP_MARGIN) as usize {
                assert(admission(start, client, cap, grace, live, false).swept);
                return Err(Refusal::Cap { held: to_shown(held) });
            }
        }
        if held > grace as usize && (fresh || self.sweep_due(client)) {
            assert(may_observe(start, client, cap, grace, still_held)) by {
                if fresh {
                    assert(answered(still_held, start.fds_of(client), live));
                }
            }
            let p: bool = pressured();
            if p {
                if !fresh {
                    assert(may_sweep(start, client, cap, grace, pressured));
                    held = self.sweep_records(client, &still_held);
                    proof {
                        live = choose|l: Set<i32>|
                            {
                                &&& #[trigger] answered(still_held, start.fds_of(client), l)
                                &&& self@ == start.swept(client, l)
                                &&& held == l.len()
                            };
                        vstd::set_lib::lemma_len_subset(live, start.fds_of(client));
                        a_sweep_keeps_exactly_the_live(start, client, live);
                    }
                }
                if held > grace as usize {
                    assert(admission(start, client, cap, grace, live, p).observed);
                    return Err(Refusal::Pressure { held: to_shown(held) });
                }
            }
            assert(admission(start, client, cap, grace, live, p).observed);
            return Ok(());
        }
        assert(!admission(start, client, cap, grace, live, false).observed);
        Ok(())
    }

    /// How many records the ledger holds for every client.
    pub fn records(&self) -> (n: usize)
        ensures
            n == self@.owner.len(),
    {
        self.owner.len()
    }
}

/// `n` as a count of 32 bits, which stops at the largest.
fn to_shown(n: usize) -> (count: u32)
    ensures
        count == shown(n as nat),
{
    if n > u32::MAX as usize {
        u32::MAX
    } else {
        n as u32
    }
}

/// Where `fd` stands in `fds`.
fn position(fds: &Vec<i32>, fd: i32) -> (at: usize)
    requires
        fds@.contains(fd),
    ensures
        at < fds@.len(),
        fds@[at as int] == fd,
{
    let mut at: usize = 0;
    while at < fds.len() && fds[at] != fd
        invariant
            at <= fds.len(),
            forall|i: int| 0 <= i < at ==> fds@[i] != fd,
        decreases fds.len() - at,
    {
        at += 1;
    }
    at
}

proof fn lemma_swap_remove(fds: Seq<i32>, at: int)
    requires
        fds.no_duplicates(),
        0 <= at < fds.len(),
    ensures
        ({
            let rest = fds.update(at, fds.last()).drop_last();
            &&& rest.no_duplicates()
            &&& rest.to_set() =~= fds.to_set().remove(fds[at])
        }),
{
    let rest = fds.update(at, fds.last()).drop_last();
    assert forall|fd: i32| fds.to_set().remove(fds[at]).contains(fd) implies rest.to_set().contains(
        fd,
    ) by {
        let i = choose|i: int| 0 <= i < fds.len() && fds[i] == fd;
        if i == fds.len() - 1 {
            assert(rest[at] == fd);
        } else {
            assert(rest[i] == fd);
        }
    }
}

/// Forgetting a number never adds to a client's count.
proof fn lemma_without_shrinks(ledger: Ledger, fd: i32, client: u64)
    requires
        ledger.owner.dom().finite(),
    ensures
        ledger.without(fd).held(client) <= ledger.held(client),
{
    assert(ledger.without(fd).fds_of(client) =~= ledger.fds_of(client).remove(fd));
}

/// Only a sweep moves a mark: it stays when records come, and when they go.
pub proof fn only_a_sweep_moves_a_mark(ledger: Ledger, client: u64, fd: i32)
    ensures
        ledger.without(fd).sweep_at == ledger.sweep_at,
        ledger.with(client, fd).sweep_at == ledger.sweep_at,
{
}

/// A number received again forgets its record, whoever owned it, and no other.
pub proof fn an_arriving_number_forgets_its_own_record_only(ledger: Ledger, fd: i32, other: i32)
    ensures
        !ledger.without(fd).owner.contains_key(fd),
        other != fd ==> ledger.without(fd).owner.contains_key(other) == ledger.owner.contains_key(
            other,
        ) && ledger.without(fd).owner[other] == ledger.owner[other],
        ledger.without(fd).without(fd) == ledger.without(fd),
        ledger.without(fd).sweep_at == ledger.sweep_at,
{
    assert(ledger.without(fd).without(fd) =~= ledger.without(fd));
}

/// Recording on a number leaves one record there, the new client's, and
/// leaves every other number as it was. The client holds one more, unless the
/// number was its own; another client that was recorded on the number holds
/// one fewer; and nobody else's count moves.
pub proof fn a_number_has_one_record(
    ledger: Ledger,
    client: u64,
    fd: i32,
    other: i32,
    bystander: u64,
)
    requires
        ledger.owner.dom().finite(),
        bystander != client,
    ensures
        ledger.with(client, fd).owner.contains_key(fd),
        ledger.with(client, fd).owner[fd] == client,
        other != fd ==> ledger.with(client, fd).owner.contains_key(other)
            == ledger.owner.contains_key(other) && ledger.with(client, fd).owner[other]
            == ledger.owner[other],
        ledger.with(client, fd).held(client) == ledger.held(client) + if ledger.fds_of(
            client,
        ).contains(fd) {
            0int
        } else {
            1
        },
        ledger.with(client, fd).held(bystander) == ledger.held(bystander) - if ledger.fds_of(
            bystander,
        ).contains(fd) {
            1int
        } else {
            0
        },
{
    let after = ledger.with(client, fd);
    assert(after.fds_of(client) =~= ledger.fds_of(client).insert(fd));
    assert(after.fds_of(bystander) =~= ledger.fds_of(bystander).remove(fd));
}

/// What the clients hold adds up to the records there are, however many
/// clients came and went.
pub proof fn counts_add_up_to_the_records(ledger: Ledger)
    requires
        ledger.owner.dom().finite(),
    ensures
        ledger.owners().finite(),
        sum_of(ledger.owners(), |client: u64| ledger.held(client)) == ledger.owner.len(),
    decreases ledger.owner.len(),
{
    let count = |client: u64| ledger.held(client);
    if ledger.owner.dom().len() == 0 {
        assert(ledger.owner.dom() =~= Set::empty());
        assert(ledger.owners() =~= Set::empty());
    } else {
        let fd = ledger.owner.dom().choose();
        let client = ledger.owner[fd];
        let rest = ledger.without(fd);
        let fewer = |other: u64| rest.held(other);
        counts_add_up_to_the_records(rest);
        assert(rest.fds_of(client) =~= ledger.fds_of(client).remove(fd));
        assert(ledger.fds_of(client).contains(fd));
        assert forall|other: u64| other != client implies #[trigger] rest.held(other)
            == ledger.held(other) by {
            assert(rest.fds_of(other) =~= ledger.fds_of(other));
        }
        assert forall|other: u64| #[trigger] ledger.owners().remove(client).contains(other)
            == rest.owners().remove(client).contains(other) by {
            if ledger.owners().contains(other) && other != client {
                let n = choose|n: i32| #[trigger]
                    ledger.owner.dom().contains(n) && ledger.owner[n] == other;
                assert(rest.owner.dom().contains(n) && rest.owner[n] == other);
            }
            if rest.owners().contains(other) {
                let n = choose|n: i32| #[trigger]
                    rest.owner.dom().contains(n) && rest.owner[n] == other;
                assert(ledger.owner.dom().contains(n) && ledger.owner[n] == other);
            }
        }
        assert(ledger.owners().contains(client)) by {
            assert(ledger.owner.dom().contains(fd) && ledger.owner[fd] == client);
        }
        assert(rest.owners().contains(client) <==> rest.held(client) > 0) by {
            if rest.owners().contains(client) {
                let n = choose|n: i32| #[trigger]
                    rest.owner.dom().contains(n) && rest.owner[n] == client;
                assert(rest.fds_of(client).contains(n));
                if rest.held(client) == 0 {
                    assert(rest.fds_of(client) =~= Set::empty());
                }
            }
            if rest.held(client) > 0 {
                let n = rest.fds_of(client).choose();
                assert(rest.fds_of(client).contains(n));
                assert(rest.owner.dom().contains(n) && rest.owner[n] == client);
            }
        }
        lemma_sum_changed_at(rest.owners(), ledger.owners(), fewer, count, client);
    }
}

/// The ledger never outgrows the fd table: if every recorded number is one of
/// `table`, there are at most as many records as `table` has numbers, however
/// many clients came and went.
pub proof fn records_are_bounded_by_numbers(ledger: Ledger, table: Set<i32>)
    requires
        table.finite(),
        ledger.owner.dom().subset_of(table),
    ensures
        ledger.owner.len() <= table.len(),
{
    vstd::set_lib::lemma_len_subset(ledger.owner.dom(), table);
}

/// A sweep of one client leaves every other client's records and mark alone.
pub proof fn a_sweep_touches_nobody_else(ledger: Ledger, client: u64, live: Set<i32>, other: u64)
    requires
        other != client,
    ensures
        ledger.swept(client, live).fds_of(other) == ledger.fds_of(other),
        ledger.swept(client, live).held(other) == ledger.held(other),
        ledger.swept(client, live).due(other) == ledger.due(other),
{
    assert(ledger.swept(client, live).fds_of(other) =~= ledger.fds_of(other));
}

/// A sweep leaves a client exactly its live records, and the next one is not
/// due before [`SWEEP_MARGIN`] more.
pub proof fn a_sweep_keeps_exactly_the_live(ledger: Ledger, client: u64, live: Set<i32>)
    requires
        ledger.owner.dom().finite(),
        live.subset_of(ledger.fds_of(client)),
    ensures
        ledger.swept(client, live).fds_of(client) == live,
        ledger.swept(client, live).sweep_at.contains_key(client),
        ledger.swept(client, live).sweep_at[client] == next_sweep(live.len()),
{
    assert(ledger.swept(client, live).fds_of(client) =~= live);
}

proof fn lemma_with_all(ledger: Ledger, client: u64, fds: Seq<i32>)
    requires
        ledger.owner.dom().finite(),
        fds.no_duplicates(),
        forall|i: int| 0 <= i < fds.len() ==> !ledger.owner.contains_key(#[trigger] fds[i]),
    ensures
        ledger.with_all(client, fds).owner.dom().finite(),
        ledger.with_all(client, fds).sweep_at == ledger.sweep_at,
        ledger.with_all(client, fds).held(client) == ledger.held(client) + fds.len(),
        forall|fd: i32| #[trigger]
            ledger.with_all(client, fds).owner.contains_key(fd) <==> ledger.owner.contains_key(fd)
                || fds.contains(fd),
    decreases fds.len(),
{
    if fds.len() > 0 {
        let rest = fds.drop_last();
        let last = fds.last();
        let before = ledger.with_all(client, rest);
        lemma_with_all(ledger, client, rest);
        assert(!rest.contains(last));
        assert(fds[fds.len() - 1] == last);
        assert(!before.owner.contains_key(last));
        let after = ledger.with_all(client, fds);
        assert(after.fds_of(client) =~= before.fds_of(client).insert(last));
        assert forall|fd: i32| #[trigger] after.owner.contains_key(fd)
            <==> ledger.owner.contains_key(fd) || fds.contains(fd) by {
            if fds.contains(fd) && fd != last {
                let i = choose|i: int| 0 <= i < fds.len() && fds[i] == fd;
                assert(rest[i] == fd);
            }
            if rest.contains(fd) {
                let i = choose|i: int| 0 <= i < rest.len() && rest[i] == fd;
                assert(fds[i] == fd);
            }
        }
    }
}

/// After any sweep, the next one under pressure is due [`SWEEP_MARGIN`]
/// records later, whatever the sweep left, if anything: once that many new
/// numbers were recorded for the client, and not before. Only a mark that
/// would not fit in 32 bits stops short.
pub proof fn a_sweep_is_due_a_margin_later(
    ledger: Ledger,
    client: u64,
    live: Set<i32>,
    fds: Seq<i32>,
)
    requires
        ledger.owner.dom().finite(),
        live.subset_of(ledger.fds_of(client)),
        live.len() + SWEEP_MARGIN <= u32::MAX,
        fds.no_duplicates(),
        forall|i: int|
            0 <= i < fds.len() ==> !ledger.swept(client, live).owner.contains_key(#[trigger] fds[i]),
    ensures
        ledger.swept(client, live).with_all(client, fds).due(client) == (fds.len()
            >= SWEEP_MARGIN),
{
    a_sweep_keeps_exactly_the_live(ledger, client, live);
    lemma_swept_finite(ledger, client, live);
    lemma_with_all(ledger.swept(client, live), client, fds);
}

/// Before a client's first sweep, one is due as soon as it has a record.
pub proof fn the_first_sweep_is_due_at_once(ledger: Ledger, client: u64)
    requires
        !ledger.sweep_at.contains_key(client),
        ledger.held(client) > 0,
    ensures
        ledger.due(client),
{
}

proof fn lemma_swept_finite(ledger: Ledger, client: u64, live: Set<i32>)
    requires
        ledger.owner.dom().finite(),
    ensures
        ledger.swept(client, live).owner.dom().finite(),
{
    assert(ledger.owner.remove_keys(ledger.fds_of(client).difference(live)).dom()
        =~= ledger.owner.dom().difference(ledger.fds_of(client).difference(live)));
}

/// Under both bounds nothing is swept, nothing is observed, and the import is
/// admitted.
pub proof fn nothing_is_observed_under_the_bounds(
    ledger: Ledger,
    client: u64,
    cap: u32,
    grace: u32,
    live: Set<i32>,
    pressured: bool,
)
    requires
        ledger.held(client) < cap,
        ledger.held(client) <= grace,
    ensures
        admission(ledger, client, cap, grace, live, pressured).outcome is Ok,
        !admission(ledger, client, cap, grace, live, pressured).swept,
        !admission(ledger, client, cap, grace, live, pressured).observed,
{
}

/// A refusal is only ever decided on a fresh sweep, with the number that the
/// sweep found live, and a pressure refusal only of a pressured table.
pub proof fn refusals_are_decided_on_a_fresh_sweep(
    ledger: Ledger,
    client: u64,
    cap: u32,
    grace: u32,
    live: Set<i32>,
    pressured: bool,
)
    requires
        ledger.owner.dom().finite(),
        live.subset_of(ledger.fds_of(client)),
    ensures
        ({
            let a = admission(ledger, client, cap, grace, live, pressured);
            a.outcome matches Err(refusal) ==> {
                &&& a.swept
                &&& match refusal {
                    Refusal::Cap { held } => held == shown(live.len()) && ledger.held(client)
                        >= cap && live.len() + SWEEP_MARGIN > cap,
                    Refusal::Pressure { held } => held == shown(live.len()) && live.len() > grace
                        && a.observed && pressured,
                }
            }
        }),
{
    vstd::set_lib::lemma_len_subset(live, ledger.fds_of(client));
}

/// A client all of whose records are live is refused from the cap on.
pub proof fn a_client_holding_the_cap_is_refused(
    ledger: Ledger,
    client: u64,
    cap: u32,
    grace: u32,
    pressured: bool,
)
    requires
        ledger.held(client) >= cap,
        ledger.held(client) > 0,
    ensures
        admission(ledger, client, cap, grace, ledger.fds_of(client), pressured).outcome == Err::<
            (),
            Refusal,
        >(Refusal::Cap { held: shown(ledger.held(client)) }),
{
}

/// Imports that go through the admission rule never take a client's records
/// past the cap; and one admitted at the cap leaves room for
/// [`SWEEP_MARGIN`] more imports before the cap is reached again.
pub proof fn records_never_exceed_the_cap(
    ledger: Ledger,
    client: u64,
    cap: u32,
    grace: u32,
    live: Set<i32>,
    pressured: bool,
    fd: i32,
)
    requires
        ledger.owner.dom().finite(),
        live.subset_of(ledger.fds_of(client)),
        cap > 0,
        admission(ledger, client, cap, grace, live, pressured).outcome is Ok,
    ensures
        ({
            let after = admission(ledger, client, cap, grace, live, pressured).ledger;
            &&& after.held(client) < cap
            &&& after.with(client, fd).held(client) <= cap
            &&& ledger.held(client) >= cap && cap >= SWEEP_MARGIN ==> after.held(client)
                + SWEEP_MARGIN <= cap
        }),
{
    let after = admission(ledger, client, cap, grace, live, pressured).ledger;
    vstd::set_lib::lemma_len_subset(live, ledger.fds_of(client));
    a_sweep_keeps_exactly_the_live(ledger, client, live);
    lemma_swept_finite(ledger, client, live);
    lemma_without_shrinks(after, fd, client);
    assert(after.without(fd).owner.dom().subset_of(after.owner.dom()));
    let rest = after.without(fd);
    assert(after.with(client, fd).fds_of(client) =~= rest.fds_of(client).insert(fd));
}

/// Under pressure a client can hold at most [`SWEEP_MARGIN`] past the grace:
/// once its mark is within that, every admitted import keeps both its records
/// and its mark within it.
pub proof fn pressure_slack_is_the_margin(
    ledger: Ledger,
    client: u64,
    cap: u32,
    grace: u32,
    live: Set<i32>,
    fd: i32,
)
    requires
        ledger.owner.dom().finite(),
        live.subset_of(ledger.fds_of(client)),
        ledger.sweep_at.contains_key(client) ==> ledger.sweep_at[client] <= grace + SWEEP_MARGIN,
        admission(ledger, client, cap, grace, live, true).outcome is Ok,
    ensures
        ({
            let after = admission(ledger, client, cap, grace, live, true).ledger.with(client, fd);
            &&& after.held(client) <= grace + SWEEP_MARGIN
            &&& after.sweep_at.contains_key(client) ==> after.sweep_at[client] <= grace
                + SWEEP_MARGIN
        }),
{
    let after = admission(ledger, client, cap, grace, live, true).ledger;
    vstd::set_lib::lemma_len_subset(live, ledger.fds_of(client));
    a_sweep_keeps_exactly_the_live(ledger, client, live);
    lemma_swept_finite(ledger, client, live);
    lemma_without_shrinks(after, fd, client);
    assert(after.without(fd).owner.dom().subset_of(after.owner.dom()));
    let rest = after.without(fd);
    assert(after.with(client, fd).fds_of(client) =~= rest.fds_of(client).insert(fd));
}

/// One call on the ledger, with what it observed.
pub enum LedgerStep {
    Arrive { fd: i32 },
    Record { client: u64, fd: i32 },
    Sweep { client: u64, live: Set<i32> },
    Admission { client: u64, cap: u32, grace: u32, live: Set<i32>, pressured: bool },
    Departure { client: u64 },
}

/// The ledger after one call.
pub open spec fn stepped(ledger: Ledger, step: LedgerStep) -> Ledger {
    match step {
        LedgerStep::Arrive { fd } => ledger.without(fd),
        LedgerStep::Record { client, fd } => ledger.with(client, fd),
        LedgerStep::Sweep { client, live } => ledger.swept(client, live),
        LedgerStep::Admission { client, cap, grace, live, pressured } => admission(
            ledger,
            client,
            cap,
            grace,
            live,
            pressured,
        ).ledger,
        LedgerStep::Departure { client } => ledger.departed(client),
    }
}

/// The ledger after any number of calls on an empty one.
pub open spec fn after_steps(steps: Seq<LedgerStep>) -> Ledger
    decreases steps.len(),
{
    if steps.len() == 0 {
        Ledger::empty()
    } else {
        stepped(after_steps(steps.drop_last()), steps.last())
    }
}

proof fn lemma_steps_finite(steps: Seq<LedgerStep>)
    ensures
        after_steps(steps).owner.dom().finite(),
    decreases steps.len(),
{
    if steps.len() > 0 {
        let before = after_steps(steps.drop_last());
        lemma_steps_finite(steps.drop_last());
        match steps.last() {
            LedgerStep::Sweep { client, live } => lemma_swept_finite(before, client, live),
            LedgerStep::Admission { client, live, .. } => lemma_swept_finite(before, client, live),
            _ => {},
        }
    }
}

/// Whatever was called before, a record stands: its number has one record, the
/// client's; another client that was recorded on the number holds one fewer;
/// every other number's record is as it was; and what the clients hold adds up
/// to the records there are, before and after.
pub proof fn a_record_stands_after_anything(
    steps: Seq<LedgerStep>,
    client: u64,
    fd: i32,
    other: i32,
    bystander: u64,
)
    requires
        other != fd,
        bystander != client,
    ensures
        ({
            let before = after_steps(steps);
            let after = after_steps(steps.push(LedgerStep::Record { client, fd }));
            &&& after.owner.contains_key(fd) && after.owner[fd] == client
            &&& after.owner.contains_key(other) == before.owner.contains_key(other)
            &&& after.owner[other] == before.owner[other]
            &&& after.held(bystander) == before.held(bystander) - if before.fds_of(
                bystander,
            ).contains(fd) {
                1int
            } else {
                0
            }
            &&& sum_of(before.owners(), |c: u64| before.held(c)) == before.owner.len()
            &&& sum_of(after.owners(), |c: u64| after.held(c)) == after.owner.len()
        }),
{
    let record = LedgerStep::Record { client, fd };
    assert(steps.push(record).drop_last() =~= steps);
    lemma_steps_finite(steps);
    lemma_steps_finite(steps.push(record));
    a_number_has_one_record(after_steps(steps), client, fd, other, bystander);
    counts_add_up_to_the_records(after_steps(steps));
    counts_add_up_to_the_records(after_steps(steps.push(record)));
}

/// Marks are bounded by the clients that are connected: a call for a connected
/// client marks no other, and a client that goes takes its mark with it.
pub proof fn marks_are_bounded_by_the_clients_there_are(
    ledger: Ledger,
    connected: Set<u64>,
    step: LedgerStep,
)
    requires
        connected.finite(),
        ledger.sweep_at.dom().subset_of(connected),
        match step {
            LedgerStep::Sweep { client, .. } => connected.contains(client),
            LedgerStep::Admission { client, .. } => connected.contains(client),
            _ => true,
        },
    ensures
        ({
            let left = match step {
                LedgerStep::Departure { client } => connected.remove(client),
                _ => connected,
            };
            &&& stepped(ledger, step).sweep_at.dom().subset_of(left)
            &&& stepped(ledger, step).sweep_at.len() <= left.len()
        }),
{
    let left = match step {
        LedgerStep::Departure { client } => connected.remove(client),
        _ => connected,
    };
    assert(stepped(ledger, step).sweep_at.dom().subset_of(left));
    vstd::set_lib::lemma_len_subset(stepped(ledger, step).sweep_at.dom(), left);
}

/// An import is refused for the cap exactly where the client has as many records as the cap and a
/// sweep finds more than [`SWEEP_MARGIN`] below it live; and for the pressure exactly where that
/// does not refuse it, the table is pressured, a sweep finds more than the grace live, and the
/// records were at the cap, or past the grace and either never swept or at the client's mark.
pub proof fn an_import_is_refused_exactly_past_its_bounds(
    ledger: Ledger,
    client: u64,
    cap: u32,
    grace: u32,
    live: Set<i32>,
    pressured: bool,
)
    requires
        ledger.owner.dom().finite(),
        live.subset_of(ledger.fds_of(client)),
    ensures
        ({
            let a = admission(ledger, client, cap, grace, live, pressured);
            let held = ledger.fds_of(client).len();
            let room = if cap > SWEEP_MARGIN {
                cap - SWEEP_MARGIN
            } else {
                0
            };
            let full = held >= cap && live.len() > room;
            let marked = ledger.sweep_at.contains_key(client) && held < ledger.sweep_at[client];
            let looked_at = held >= cap || held > grace && !marked;
            &&& (a.outcome is Err && a.outcome->Err_0 is Cap) <==> full
            &&& (a.outcome is Err && a.outcome->Err_0 is Pressure) <==> !full && looked_at
                && live.len() > grace && pressured
        }),
{
    vstd::set_lib::lemma_len_subset(live, ledger.fds_of(client));
}

/// Judging an import sweeps exactly at the cap, and past the grace of a pressured table with a sweep
/// due; it observes the table exactly past the grace with a sweep due, or just done and leaving room
/// under the cap but not under the grace. Where it sweeps, the client's records are the live ones
/// and its mark is [`SWEEP_MARGIN`] above them; where not, the ledger is as it was.
pub proof fn judging_an_import_looks_no_further_than_it_must(
    ledger: Ledger,
    client: u64,
    cap: u32,
    grace: u32,
    live: Set<i32>,
    pressured: bool,
    number: i32,
    other: u64,
)
    requires
        ledger.owner.dom().finite(),
        live.subset_of(ledger.fds_of(client)),
    ensures
        ({
            let a = admission(ledger, client, cap, grace, live, pressured);
            let held = ledger.fds_of(client).len();
            let marked = ledger.sweep_at.contains_key(client) && held < ledger.sweep_at[client];
            &&& a.swept <==> held >= cap || held > grace && !marked && pressured
            &&& held < cap ==> (a.observed <==> held > grace && !marked)
            &&& held >= cap ==> (a.observed <==> live.len() > grace && (live.len() == 0
                || live.len() + SWEEP_MARGIN <= cap))
            &&& !a.swept ==> a.ledger == ledger
            &&& a.swept ==> {
                &&& a.ledger.owner.contains_key(number) <==> ledger.owner.contains_key(number) && (
                ledger.owner[number] != client || live.contains(number))
                &&& a.ledger.owner.contains_key(number) ==> a.ledger.owner[number]
                    == ledger.owner[number]
                &&& a.ledger.sweep_at.contains_key(client)
                &&& live.len() + SWEEP_MARGIN <= u32::MAX ==> a.ledger.sweep_at[client]
                    == live.len() + SWEEP_MARGIN
                &&& live.len() + SWEEP_MARGIN > u32::MAX ==> a.ledger.sweep_at[client] == u32::MAX
                &&& other != client ==> a.ledger.sweep_at.contains_key(other)
                    == ledger.sweep_at.contains_key(other) && a.ledger.sweep_at[other]
                    == ledger.sweep_at[other]
            }
        }),
{
    vstd::set_lib::lemma_len_subset(live, ledger.fds_of(client));
}

/// A client that goes takes its mark with it, and leaves every record and every other mark.
pub proof fn a_departure_takes_the_mark_only(ledger: Ledger, client: u64, other: u64)
    ensures
        ledger.departed(client).owner == ledger.owner,
        !ledger.departed(client).sweep_at.contains_key(client),
        other != client ==> ledger.departed(client).sweep_at.contains_key(other)
            == ledger.sweep_at.contains_key(other) && ledger.departed(client).sweep_at[other]
            == ledger.sweep_at[other],
{
}

/// A client's count is the number of fds recorded for it, and a sweep margin is 16 of them.
pub proof fn a_client_holds_what_is_recorded_for_it(ledger: Ledger, client: u64, fd: i32)
    ensures
        ledger.held(client) == ledger.fds_of(client).len(),
        ledger.fds_of(client).contains(fd) <==> ledger.owner.contains_key(fd) && ledger.owner[fd]
            == client,
        SWEEP_MARGIN == 16,
{
}

} // verus!
