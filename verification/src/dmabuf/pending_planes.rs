//! Plane fds held in params objects that no buffer was created from yet.
//!
//! Every `add` of a plane leaves one fd in this process until its params
//! object is consumed or destroyed. The counts follow that: one unit per
//! added plane, all of an object's units released when it is consumed, and
//! again (finding nothing) when it is destroyed. A params object is named by
//! its client and its own number.

use crate::counts::{live, sum_counts};
use crate::objects::{key_of, lemma_keys, object_key, object_of};
use crate::protocol::{said, ErrorText, Interface, ProtocolError, NO_MEMORY};
use crate::tally::{
    lemma_sum_agree, lemma_sum_changed_at, lemma_sum_positive, lemma_sum_remove, sum_of,
};
use crate::text::{decimal, push_decimal};
use std::collections::HashMap;
use vstd::prelude::*;
use vstd::string::*;

verus! {

/// How many plane fds one client may have held in params objects that have
/// not been consumed yet, across all of them.
pub const MAX_PENDING_PLANES_PER_CLIENT: u32 = 32;

/// Pending planes a client may hold before fd pressure starts refusing its
/// adds.
pub const PRESSURE_GRACE_PENDING_PLANES: u32 = 8;

/// Why an `add` is refused.
#[derive(Clone, Copy, Debug, PartialEq, Eq, Structural)]
pub enum Refusal {
    /// The client holds [`MAX_PENDING_PLANES_PER_CLIENT`] already.
    Cap,
    /// It holds more than [`PRESSURE_GRACE_PENDING_PLANES`], and the fd table
    /// is pressured.
    Pressure,
}

/// The refusal of a client that holds `live` pending planes, while the fd
/// table is or is not `pressured`.
pub open spec fn refusal_for(live: nat, pressured: bool) -> Option<Refusal> {
    if live >= MAX_PENDING_PLANES_PER_CLIENT {
        Some(Refusal::Cap)
    } else if live > PRESSURE_GRACE_PENDING_PLANES && pressured {
        Some(Refusal::Pressure)
    } else {
        None
    }
}

/// The fd table is observed only past the grace and under the cap.
pub open spec fn observes(live: int) -> bool {
    PRESSURE_GRACE_PENDING_PLANES < live && live < MAX_PENDING_PLANES_PER_CLIENT
}

/// Decides whether a client that holds `live` pending planes is refused one
/// more. `pressured` observes the fd table, and is called only past the grace
/// and under the cap.
pub fn plane_refusal<P: FnOnce() -> bool>(live: u32, pressured: P) -> (refusal: Option<Refusal>)
    requires
        observes(live as int) ==> call_requires(
            pressured,
            (),
        ),
    ensures
        exists|p: bool|
            {
                &&& refusal == #[trigger] refusal_for(live as nat, p)
                &&& observes(live as int)
                    ==> call_ensures(pressured, (), p)
            },
{
    if live >= MAX_PENDING_PLANES_PER_CLIENT {
        assert(refusal_for(live as nat, false) == Some(Refusal::Cap));
        return Some(Refusal::Cap);
    }
    if live > PRESSURE_GRACE_PENDING_PLANES {
        let p: bool = pressured();
        assert(refusal_for(live as nat, p) == if p {
            Some(Refusal::Pressure)
        } else {
            None
        });
        return if p {
            Some(Refusal::Pressure)
        } else {
            None
        };
    }
    assert(refusal_for(live as nat, false) is None);
    None
}

/// The planes pending on each params object, named by client and number.
pub type Planes = Map<(u64, u64), u32>;

/// How many planes `params` of `client` holds.
pub open spec fn planes_on(planes: Planes, client: u64, params: u64) -> nat {
    if planes.contains_key((client, params)) {
        planes[(client, params)] as nat
    } else {
        0
    }
}

/// How many planes `client` holds, over all its params objects.
pub open spec fn pending(planes: Planes, client: u64) -> nat {
    sum_of(planes.dom(), share(planes, client))
}

/// How many planes every client holds between them.
pub open spec fn all_pending(planes: Planes) -> nat {
    sum_of(planes.dom().map(|object: (u64, u64)| object.0), |client: u64| pending(planes, client))
}

/// What each params object adds to `client`'s sum.
pub open spec fn share(planes: Planes, client: u64) -> spec_fn((u64, u64)) -> nat {
    |object: (u64, u64)|
        if object.0 == client {
            planes[object] as nat
        } else {
            0
        }
}

/// The planes with one more on `params` of `client`.
pub open spec fn with_plane(planes: Planes, client: u64, params: u64) -> Planes {
    planes.insert((client, params), (planes_on(planes, client, params) + 1) as u32)
}

/// The planes without those on `params` of `client`.
pub open spec fn without_params(planes: Planes, client: u64, params: u64) -> Planes {
    planes.remove((client, params))
}

/// The per-params and per-client plane counts.
pub struct PendingPlanes {
    per_params: HashMap<u128, u32>,
    per_client: HashMap<u64, u32>,
}

impl View for PendingPlanes {
    type V = Planes;

    closed spec fn view(&self) -> Planes {
        Map::new(
            |object: (u64, u64)| self.per_params@.contains_key(object_key(object)),
            |object: (u64, u64)| self.per_params@[object_key(object)],
        )
    }
}

impl PendingPlanes {
    /// Each client's count is the sum over its params objects, and neither
    /// map keeps a zero.
    pub closed spec fn wf(&self) -> bool {
        &&& self@.dom().finite()
        &&& forall|object: (u64, u64)| #[trigger] self@.contains_key(object) ==> self@[object] > 0
        &&& forall|client: u64| #[trigger] live(self.per_client@, client) == pending(self@, client)
        &&& forall|client: u64| #[trigger]
            self.per_client@.contains_key(client) ==> self.per_client@[client] > 0
    }

    /// Only finitely many params objects hold a plane.
    pub proof fn lemma_finite(&self)
        requires
            self.wf(),
        ensures
            self@.dom().finite(),
    {
    }

    /// The clients that a count is kept for.
    pub closed spec fn counted(&self) -> Set<u64> {
        self.per_client@.dom()
    }

    pub fn new() -> (planes: PendingPlanes)
        ensures
            planes.wf(),
            planes@ == Planes::empty(),
    {
        let planes = PendingPlanes { per_params: HashMap::new(), per_client: HashMap::new() };
        assert(planes@ =~= Map::empty());
        planes
    }

    /// How many pending plane fds `client` has this compositor hold.
    pub fn live_for(&self, client: u64) -> (n: u32)
        requires
            self.wf(),
        ensures
            n == pending(self@, client),
    {
        assert(live(self.per_client@, client) == pending(self@, client));
        match self.per_client.get(&client) {
            Some(n) => *n,
            None => 0,
        }
    }

    /// Counts one more plane on `params` for `client`, unless `refuse` (given
    /// how many the client holds) says no, in which case nothing is counted
    /// and the refusal and that count are handed back.
    pub fn try_claim<F: FnOnce(u32) -> Option<Refusal>>(
        &mut self,
        client: u64,
        params: u64,
        refuse: F,
    ) -> (claimed: Result<(), (Refusal, u32)>)
        requires
            old(self).wf(),
            pending(old(self)@, client) == u32::MAX ==> !call_ensures(refuse, (u32::MAX,), None),
            call_requires(refuse, (pending(old(self)@, client) as u32,)),
        ensures
            final(self).wf(),
            exists|refusal: Option<Refusal>|
                {
                    &&& #[trigger] call_ensures(
                        refuse,
                        (pending(old(self)@, client) as u32,),
                        refusal,
                    )
                    &&& match refusal {
                        Some(refusal) => {
                            &&& claimed == Err::<(), (Refusal, u32)>(
                                (refusal, pending(old(self)@, client) as u32),
                            )
                            &&& final(self)@ == old(self)@
                        },
                        None => {
                            &&& claimed is Ok
                            &&& final(self)@ == with_plane(old(self)@, client, params)
                        },
                    }
                },
    {
        let ghost before = self@;
        let held: u32 = self.live_for(client);
        let refusal = refuse(held);
        if let Some(refusal) = refusal {
            return Err((refusal, held));
        }
        let key: u128 = key_of(client, params);
        let planes: u32 = match self.per_params.get(&key) {
            Some(n) => *n,
            None => 0,
        };
        proof {
            lemma_keys();
            if before.contains_key((client, params)) {
                lemma_sum_remove(before.dom(), share(before, client), (client, params));
            }
        }
        self.per_client.insert(client, held + 1);
        self.per_params.insert(key, planes + 1);
        proof {
            assert(self@ =~= with_plane(before, client, params));
            assert forall|other: u64| #[trigger] live(self.per_client@, other) == pending(
                self@,
                other,
            ) by {
                lemma_sum_changed_at(
                    before.dom(),
                    self@.dom(),
                    share(before, other),
                    share(self@, other),
                    (client, params),
                );
                assert(live(old(self).per_client@, other) == pending(before, other));
            }
            assert(self@.dom() =~= before.dom().insert((client, params)));
        }
        Ok(())
    }

    /// Forgets every plane `params` holds: it was consumed, or destroyed.
    pub fn release(&mut self, client: u64, params: u64)
        requires
            old(self).wf(),
        ensures
            final(self).wf(),
            final(self)@ == without_params(old(self)@, client, params),
    {
        let ghost before = self@;
        let key: u128 = key_of(client, params);
        proof {
            lemma_keys();
        }
        match self.per_params.remove(&key) {
            None => {
                assert(self.per_params@ =~= old(self).per_params@);
                assert(self@ =~= without_params(before, client, params));
                assert(self@ =~= before);
            },
            Some(planes) => {
                proof {
                    assert(before.contains_key((client, params)));
                    lemma_sum_remove(before.dom(), share(before, client), (client, params));
                    assert(live(old(self).per_client@, client) == pending(before, client));
                }
                if let Some(held) = self.per_client.remove(&client) {
                    if held > planes {
                        self.per_client.insert(client, held - planes);
                    }
                }
                proof {
                    assert(self@ =~= without_params(before, client, params));
                    assert forall|other: u64| #[trigger] live(self.per_client@, other) == pending(
                        self@,
                        other,
                    ) by {
                        lemma_sum_changed_at(
                            before.dom(),
                            self@.dom(),
                            share(before, other),
                            share(self@, other),
                            (client, params),
                        );
                        assert(live(old(self).per_client@, other) == pending(before, other));
                    }
                    assert(self@.dom() =~= before.dom().remove((client, params)));
                }
            },
        }
    }

    /// How many planes every client holds between them.
    pub fn in_flight(&self) -> (n: u32)
        requires
            self.wf(),
            all_pending(self@) <= u32::MAX,
        ensures
            n == all_pending(self@),
    {
        proof {
            let clients = self@.dom().map(|object: (u64, u64)| object.0);
            assert forall|client: u64| #[trigger]
                self.per_client@.contains_key(client) <==> clients.contains(client) by {
                let weight = share(self@, client);
                lemma_sum_positive(self@.dom(), weight);
                assert(live(self.per_client@, client) == pending(self@, client));
                if clients.contains(client) {
                    let object = choose|object: (u64, u64)|
                        self@.dom().contains(object) && object.0 == client;
                    assert(self@.contains_key(object));
                    assert(self@.dom().contains(object) && weight(object) > 0);
                }
                if self.per_client@.contains_key(client) {
                    let object = choose|object: (u64, u64)| #[trigger]
                        self@.dom().contains(object) && weight(object) > 0;
                    assert(self@.dom().contains(object) && object.0 == client);
                }
            }
            assert(clients =~= self.per_client@.dom());
            assert forall|client: u64| #[trigger]
                clients.contains(client) implies self.per_client@[client] as nat == pending(
                self@,
                client,
            ) by {
                assert(live(self.per_client@, client) == pending(self@, client));
            }
            lemma_sum_agree(
                clients,
                |client: u64| self.per_client@[client] as nat,
                |client: u64| pending(self@, client),
            );
        }
        sum_counts(&self.per_client)
    }

    /// How many params objects hold at least one plane.
    pub fn params_tracked(&self) -> (n: usize)
        requires
            self.wf(),
        ensures
            n == self@.len(),
    {
        proof {
            lemma_keys();
            let objects = self@.dom();
            let keys = self.per_params@.dom();
            assert(objects.map(|object: (u64, u64)| object_key(object)) =~= keys) by {
                assert forall|key: u128| keys.contains(key) implies objects.map(
                    |object: (u64, u64)| object_key(object),
                ).contains(key) by {
                    assert(objects.contains(object_of(key)));
                }
            }
            vstd::set_lib::lemma_map_size(
                objects,
                keys,
                |object: (u64, u64)| object_key(object),
            );
        }
        self.per_params.len()
    }
}

/// The text a client past a plane bound is disconnected with.
pub open spec fn plane_refusal_text(refusal: Refusal, live: nat) -> Seq<char> {
    "zwp_linux_buffer_params_v1.add refused: this client already has "@ + decimal(live)
        + " dmabuf planes added to params objects it has not created a buffer from (the bound is "@
        + match refusal {
        Refusal::Cap => decimal(MAX_PENDING_PLANES_PER_CLIENT as nat) + ""@,
        Refusal::Pressure => decimal(PRESSURE_GRACE_PENDING_PLANES as nat)
            + ", while compositor-wide file descriptors are under pressure"@,
    } + ")"@
}

fn plane_refused(refusal: Refusal, live: u32) -> (error: ProtocolError)
    ensures
        error@ == (ErrorText {
            interface: Interface::Display,
            code: NO_MEMORY,
            message: plane_refusal_text(refusal, live as nat),
        }),
{
    let (bound, why): (u32, &'static str) = match refusal {
        Refusal::Cap => (MAX_PENDING_PLANES_PER_CLIENT, ""),
        Refusal::Pressure => (
            PRESSURE_GRACE_PENDING_PLANES,
            ", while compositor-wide file descriptors are under pressure",
        ),
    };
    let mut message = String::from_str(
        "zwp_linux_buffer_params_v1.add refused: this client already has ",
    );
    push_decimal(&mut message, live as u64);
    message.append(
        " dmabuf planes added to params objects it has not created a buffer from (the bound is ",
    );
    push_decimal(&mut message, bound as u64);
    message.append(why);
    message.append(")");
    proof {
        reveal_strlit("");
    }
    assert(message@ =~= plane_refusal_text(refusal, live as nat));
    ProtocolError { interface: Interface::Display, code: NO_MEMORY, message }
}

/// How an `add` on `params` is answered, and what it does to the planes.
pub open spec fn plane_step(planes: Planes, client: u64, params: u64, pressured: bool) -> (
    Planes,
    Option<ErrorText>,
) {
    let live = pending(planes, client);
    match refusal_for(live, pressured) {
        Some(refusal) => (
            planes,
            Some(
                ErrorText {
                    interface: Interface::Display,
                    code: NO_MEMORY,
                    message: plane_refusal_text(refusal, live),
                },
            ),
        ),
        None => (with_plane(planes, client, params), None),
    }
}

/// Refuses an `add` past the client's pending-plane bounds, by disconnecting
/// it out of memory, and counts any other. `pressured` is asked only past the
/// grace and under the cap.
pub fn reject_excess_plane<P: FnOnce() -> bool>(
    planes: &mut PendingPlanes,
    client: u64,
    params: u64,
    pressured: P,
) -> (refused: Option<ProtocolError>)
    requires
        old(planes).wf(),
        observes(pending(old(planes)@, client) as int) ==> call_requires(pressured, ()),
    ensures
        final(planes).wf(),
        exists|p: bool|
            {
                &&& observes(pending(old(planes)@, client) as int) ==> call_ensures(pressured, (), p)
                &&& (final(planes)@, said(refused)) == #[trigger] plane_step(
                    old(planes)@,
                    client,
                    params,
                    p,
                )
            },
{
    let ghost start = planes@;
    let ghost held = pending(start, client) as u32;
    assert(live(planes.per_client@, client) == pending(planes@, client));
    let refuse = |live: u32| -> (refusal: Option<Refusal>)
        requires
            observes(live as int) ==> call_requires(pressured, ()),
        ensures
            exists|p: bool|
                {
                    &&& refusal == #[trigger] refusal_for(live as nat, p)
                    &&& observes(live as int) ==> call_ensures(pressured, (), p)
                },
    {
        plane_refusal(live, pressured)
    };
    let claimed = planes.try_claim(client, params, refuse);
    proof {
        let p = choose|p: bool|
            {
                &&& #[trigger] refusal_for(held as nat, p) == match claimed {
                    Ok(_) => None,
                    Err((refusal, _)) => Some(refusal),
                }
                &&& observes(held as int)
                    ==> call_ensures(pressured, (), p)
            };
        assert(plane_step(start, client, params, p).0 == planes@);
    }
    match claimed {
        Ok(_) => None,
        Err((refusal, live)) => Some(plane_refused(refusal, live)),
    }
}

/// An `add` counts one plane for its client, and one on its params object.
pub proof fn an_add_counts_one(planes: Planes, client: u64, params: u64)
    requires
        planes.dom().finite(),
        pending(planes, client) < u32::MAX,
    ensures
        planes_on(with_plane(planes, client, params), client, params) == planes_on(
            planes,
            client,
            params,
        ) + 1,
        pending(with_plane(planes, client, params), client) == pending(planes, client) + 1,
{
    let after = with_plane(planes, client, params);
    if planes.contains_key((client, params)) {
        lemma_sum_remove(planes.dom(), share(planes, client), (client, params));
    }
    lemma_sum_changed_at(
        planes.dom(),
        after.dom(),
        share(planes, client),
        share(after, client),
        (client, params),
    );
}

/// Releasing a params object gives back exactly the planes it held, once: a
/// consume followed by a destroy releases nothing twice.
pub proof fn a_release_gives_back_exactly_once(planes: Planes, client: u64, params: u64)
    requires
        planes.dom().finite(),
    ensures
        pending(without_params(planes, client, params), client) + planes_on(planes, client, params)
            == pending(planes, client),
        planes_on(without_params(planes, client, params), client, params) == 0,
        without_params(without_params(planes, client, params), client, params) == without_params(
            planes,
            client,
            params,
        ),
{
    let after = without_params(planes, client, params);
    lemma_sum_changed_at(
        planes.dom(),
        after.dom(),
        share(planes, client),
        share(after, client),
        (client, params),
    );
    assert(without_params(after, client, params) =~= after);
}

/// No zero is kept: a params object has an entry only while it holds a plane,
/// and a client has a count only while one of its params objects does.
pub proof fn no_zero_is_kept(planes: &PendingPlanes, client: u64, params: u64)
    requires
        planes.wf(),
    ensures
        planes@.contains_key((client, params)) <==> planes_on(planes@, client, params) > 0,
        planes.counted().contains(client) <==> pending(planes@, client) > 0,
{
    assert(live(planes.per_client@, client) == pending(planes@, client));
}

/// One client's adds and releases never touch another's count.
pub proof fn the_bound_is_per_client(planes: Planes, client: u64, params: u64, other: u64)
    requires
        planes.dom().finite(),
        client != other,
    ensures
        pending(with_plane(planes, client, params), other) == pending(planes, other),
        pending(without_params(planes, client, params), other) == pending(planes, other),
{
    let added = with_plane(planes, client, params);
    let released = without_params(planes, client, params);
    lemma_sum_changed_at(
        planes.dom(),
        added.dom(),
        share(planes, other),
        share(added, other),
        (client, params),
    );
    lemma_sum_changed_at(
        planes.dom(),
        released.dom(),
        share(planes, other),
        share(released, other),
        (client, params),
    );
}

/// A client at the bound is refused whatever the table, one at the grace never
/// is, and a refusal under the bound needs a pressured table.
pub proof fn planes_are_refused_at_the_bounds(live: nat, pressured: bool)
    ensures
        refusal_for(live, pressured) == Some(Refusal::Cap) <==> live
            >= MAX_PENDING_PLANES_PER_CLIENT,
        live <= PRESSURE_GRACE_PENDING_PLANES ==> refusal_for(live, pressured) is None,
        refusal_for(live, pressured) == Some(Refusal::Pressure) <==> pressured
            && observes(live as int),
{
}

/// A plane that is added is answered by its client's pending planes: from 32 on it is refused
/// whatever the table, past 8 while the fd table is pressured, and otherwise counted on its params
/// object and nowhere else. A refusal counts nothing, says how many planes there are and which bound
/// they met, and disconnects the client out of memory.
pub proof fn a_plane_is_refused_or_counted_on_its_params(
    planes: Planes,
    client: u64,
    params: u64,
    pressured: bool,
    other: (u64, u64),
)
    requires
        planes.dom().finite(),
    ensures
        ({
            let (after, error) = plane_step(planes, client, params, pressured);
            let held = pending(planes, client);
            &&& error is Some <==> held >= 32 || held > 8 && pressured
            &&& error is Some ==> {
                &&& after == planes
                &&& error->0.interface == Interface::Display
                &&& error->0.code == 2
                &&& held >= 32 ==> error->0.message == plane_refusal_text(Refusal::Cap, held)
                &&& held < 32 ==> error->0.message == plane_refusal_text(Refusal::Pressure, held)
            }
            &&& error is None ==> {
                &&& after.contains_key((client, params))
                &&& after[(client, params)] == 1 + if planes.contains_key((client, params)) {
                    planes[(client, params)] as int
                } else {
                    0
                }
                &&& pending(after, client) == held + 1
                &&& other != (client, params) ==> after.contains_key(other) == planes.contains_key(
                    other,
                ) && after[other] == planes[other]
            }
        }),
{
    if pending(planes, client) < 32 {
        an_add_counts_one(planes, client, params);
        if planes.contains_key((client, params)) {
            lemma_sum_remove(planes.dom(), share(planes, client), (client, params));
        }
    }
}

/// The texts that refuse a plane, with the bounds they name.
pub proof fn the_plane_refusals_name_their_bounds(live: nat)
    ensures
        plane_refusal_text(Refusal::Cap, live)
            == "zwp_linux_buffer_params_v1.add refused: this client already has "@ + decimal(live)
            + " dmabuf planes added to params objects it has not created a buffer from (the bound is "@
            + decimal(32) + ")"@,
        plane_refusal_text(Refusal::Pressure, live)
            == "zwp_linux_buffer_params_v1.add refused: this client already has "@ + decimal(live)
            + " dmabuf planes added to params objects it has not created a buffer from (the bound is "@
            + (decimal(8) + ", while compositor-wide file descriptors are under pressure"@) + ")"@,
{
    reveal_strlit("");
    assert(decimal(32) + ""@ =~= decimal(32));
}

/// A client's pending planes are at least those of each of its params objects, and are none where
/// none of them holds any.
pub proof fn pending_planes_are_those_of_the_params(planes: Planes, client: u64, params: u64)
    requires
        planes.dom().finite(),
    ensures
        pending(planes, client) >= planes_on(planes, client, params),
        pending(planes, client) == 0 <==> forall|object: (u64, u64)| #[trigger]
            planes.contains_key(object) && object.0 == client ==> planes[object] == 0,
{
    let weight = share(planes, client);
    if planes.contains_key((client, params)) {
        lemma_sum_remove(planes.dom(), weight, (client, params));
    }
    lemma_sum_positive(planes.dom(), weight);
    if pending(planes, client) == 0 {
        assert forall|object: (u64, u64)| #[trigger]
            planes.contains_key(object) && object.0 == client implies planes[object] == 0 by {
            if planes[object] > 0 {
                assert(planes.dom().contains(object) && weight(object) > 0);
            }
        }
    } else {
        let object = choose|object: (u64, u64)| #[trigger]
            planes.dom().contains(object) && weight(object) > 0;
        assert(planes.contains_key(object) && object.0 == client);
    }
}

} // verus!
