use std::cell::Cell;
use std::collections::BTreeMap;

use scoot::dispatch::Verdict;
use scoot::dmabuf::pending_planes::{
    plane_refusal, reject_excess_plane, PendingPlanes, Refusal, MAX_PENDING_PLANES_PER_CLIENT,
    PRESSURE_GRACE_PENDING_PLANES,
};
use scoot::protocol::{Destroyed, Interface, ProtocolError, Request, NO_MEMORY};
use scoot::state::State;

/// A session in which clients keep params objects, and lose them all with a protocol error.
struct Session {
    state: State,
    params: BTreeMap<u64, Vec<u64>>,
    next: u64,
}

impl Session {
    fn new() -> Self {
        Session { state: State::new(1), params: BTreeMap::new(), next: 100 }
    }

    fn send(&mut self, client: u64, request: Request) -> Result<(), ProtocolError> {
        match self.state.request(
            client,
            request,
            |_fd, _size| true,
            || false,
            |_fd| true,
            |_surface, _parent| false,
        ) {
            Verdict::Delegate => Ok(()),
            Verdict::Refuse(error) => {
                self.destroy_all(client);
                Err(error)
            }
            Verdict::Refused => panic!("nothing here nests subsurfaces"),
        }
    }

    /// Creates `params` params objects and adds `planes` planes to each, keeping all of them;
    /// answers how many objects there were when the client was killed, if it was.
    fn hoard(&mut self, client: u64, params: u32, planes: u32) -> Result<(), (u32, ProtocolError)> {
        for n in 0..params {
            self.next += 1;
            let object = self.next;
            self.params.entry(client).or_default().push(object);
            for plane in 0..planes {
                self.send(client, Request::AddPlane { params: object, fd: 50 + plane as i32 })
                    .map_err(|error| (n + 1, error))?;
            }
        }
        Ok(())
    }

    /// Consumes every kept params object; the imports fail, softly.
    fn consume_all(&mut self, client: u64) -> u32 {
        let mut failed = 0;
        for params in self.params[&client].clone() {
            self.send(client, Request::CreateDmabuf { params }).unwrap();
            self.state.dmabuf_imported(
                Some(client),
                |_backend| false,
                || None,
                |_dev, _ino| false,
                |_dev, _ino| None,
                Vec::new,
            );
            failed += 1;
        }
        failed
    }

    fn destroy_all(&mut self, client: u64) {
        for params in self.params.remove(&client).unwrap_or_default() {
            self.state.destroyed(client, Destroyed::Params { params });
        }
    }

    fn planes(&self) -> u32 {
        self.state.pending_planes.in_flight()
    }

    fn objects(&self) -> usize {
        self.state.pending_planes.params_tracked()
    }
}

const CLIENT: u64 = 1;
const OTHER: u64 = 2;

#[test]
fn pending_planes_are_bounded_per_client() {
    let mut session = Session::new();
    let (params, error) = session.hoard(CLIENT, 64, 4).expect_err("past the bound");
    assert_eq!(params, 9, "the first plane of the ninth params object");
    assert_eq!((error.interface, error.code), (Interface::Display, NO_MEMORY));
    assert!(error.message.contains("it has not created a buffer from"), "{}", error.message);
    assert_eq!(NO_MEMORY, 2);
    assert_eq!(session.planes(), 0, "the killed client's count drained");
    assert_eq!(session.objects(), 0);
}

#[test]
fn exactly_the_bound_is_allowed() {
    let mut session = Session::new();
    session.hoard(CLIENT, MAX_PENDING_PLANES_PER_CLIENT / 4, 4).unwrap();
    assert_eq!(session.planes(), MAX_PENDING_PLANES_PER_CLIENT);
}

#[test]
fn a_consumed_params_object_releases_its_planes() {
    let mut session = Session::new();
    session.hoard(CLIENT, 4, 2).unwrap();
    assert_eq!(session.planes(), 8);
    assert_eq!(session.consume_all(CLIENT), 4, "every import was answered failed, softly");
    assert_eq!(session.planes(), 0);
    assert_eq!(session.objects(), 0);
    session.destroy_all(CLIENT);
    assert_eq!(session.planes(), 0, "nothing is released twice");
    session.hoard(CLIENT, MAX_PENDING_PLANES_PER_CLIENT / 4, 4).unwrap();
    assert_eq!(session.planes(), MAX_PENDING_PLANES_PER_CLIENT);
}

#[test]
fn a_destroyed_params_object_releases_its_planes() {
    let mut session = Session::new();
    session.hoard(CLIENT, MAX_PENDING_PLANES_PER_CLIENT / 4, 4).unwrap();
    session.destroy_all(CLIENT);
    assert_eq!(session.planes(), 0);
    assert_eq!(session.objects(), 0);
    session.hoard(CLIENT, MAX_PENDING_PLANES_PER_CLIENT / 4, 4).unwrap();
    assert_eq!(session.planes(), MAX_PENDING_PLANES_PER_CLIENT);
}

#[test]
fn a_disconnect_releases_every_pending_plane() {
    let mut session = Session::new();
    session.hoard(CLIENT, 5, 3).unwrap();
    assert_eq!(session.planes(), 15);
    session.destroy_all(CLIENT);
    assert_eq!(session.planes(), 0);
    assert_eq!(session.objects(), 0);
}

#[test]
fn an_add_smithay_refuses_leaves_no_phantom() {
    let mut session = Session::new();
    session.hoard(CLIENT, 1, 2).unwrap();
    // The claim is taken before the request is served; the refusal there kills the client.
    session.hoard(CLIENT, 1, 1).unwrap();
    assert_eq!(session.planes(), 3);
    session.destroy_all(CLIENT);
    assert_eq!(session.planes(), 0);
    assert_eq!(session.objects(), 0);
}

#[test]
fn the_bound_is_per_client() {
    let mut session = Session::new();
    session.hoard(CLIENT, MAX_PENDING_PLANES_PER_CLIENT / 4, 4).unwrap();
    session.hoard(OTHER, 2, 4).unwrap();
    session.destroy_all(OTHER);
    assert_eq!(
        session.state.pending_planes.live_for(CLIENT),
        MAX_PENDING_PLANES_PER_CLIENT,
        "the other client's releases left this one's count alone"
    );
    session.hoard(OTHER, MAX_PENDING_PLANES_PER_CLIENT / 4, 4).unwrap();
    assert_eq!(session.planes(), 2 * MAX_PENDING_PLANES_PER_CLIENT);
}

#[test]
fn the_cap_refuses_at_the_cap_whatever_the_table() {
    assert_eq!(plane_refusal(MAX_PENDING_PLANES_PER_CLIENT - 1, || false), None);
    assert_eq!(plane_refusal(MAX_PENDING_PLANES_PER_CLIENT, || false), Some(Refusal::Cap));
}

#[test]
fn at_the_grace_passes_even_under_pressure() {
    assert_eq!(plane_refusal(PRESSURE_GRACE_PENDING_PLANES, || true), None);
}

#[test]
fn past_the_grace_refuses_only_under_pressure() {
    assert_eq!(
        plane_refusal(PRESSURE_GRACE_PENDING_PLANES + 1, || true),
        Some(Refusal::Pressure)
    );
    assert_eq!(plane_refusal(PRESSURE_GRACE_PENDING_PLANES + 1, || false), None);
}

#[test]
fn under_the_grace_the_table_is_never_observed() {
    for live in 0..=PRESSURE_GRACE_PENDING_PLANES {
        assert_eq!(plane_refusal(live, || panic!("observed the table at {live}")), None);
    }
}

#[test]
fn a_pressured_table_refuses_the_first_plane_past_the_grace() {
    let mut planes = PendingPlanes::new();
    let observed = Cell::new(0);
    let mut refused = None;
    for plane in 0..=PRESSURE_GRACE_PENDING_PLANES + 1 {
        assert!(refused.is_none(), "refused at plane {plane}");
        refused = reject_excess_plane(&mut planes, CLIENT, 7, || {
            observed.set(observed.get() + 1);
            true
        });
    }
    let error = refused.expect("the first plane past the grace");
    assert_eq!((error.interface, error.code), (Interface::Display, NO_MEMORY));
    assert_eq!(planes.live_for(CLIENT), PRESSURE_GRACE_PENDING_PLANES + 1);
    assert_eq!(observed.get(), 1);
}

#[test]
fn a_claim_answers_what_the_client_holds_when_it_is_refused() {
    let mut planes = PendingPlanes::new();
    assert_eq!(planes.try_claim(CLIENT, 7, |_live| None), Ok(()));
    assert_eq!(planes.try_claim(CLIENT, 8, |_live| None), Ok(()));
    assert_eq!(
        planes.try_claim(CLIENT, 8, |_live| Some(Refusal::Pressure)),
        Err((Refusal::Pressure, 2))
    );
    assert_eq!((planes.in_flight(), planes.params_tracked()), (2, 2));
    planes.release(CLIENT, 7);
    planes.release(CLIENT, 7);
    planes.release(OTHER, 8);
    assert_eq!((planes.in_flight(), planes.params_tracked()), (1, 1));
}

#[test]
fn a_count_past_the_bound_is_answered_too() {
    let mut planes = PendingPlanes::new();
    for _ in 0..MAX_PENDING_PLANES_PER_CLIENT + 8 {
        planes.try_claim(1, 7, |_live| None).expect("never refused");
    }
    let refused = reject_excess_plane(&mut planes, 1, 7, || panic!("not observed past the cap"))
        .expect("past the cap");
    assert_eq!(refused.code, NO_MEMORY);
    assert!(refused.message.contains("already has 40 dmabuf planes"), "{}", refused.message);
    assert_eq!(planes.live_for(1), MAX_PENDING_PLANES_PER_CLIENT + 8);
}

#[test]
fn an_emptied_client_leaves_nothing_behind() {
    let mut planes = PendingPlanes::new();
    for params in [3, 4] {
        planes.try_claim(1, params, |_live| None).expect("never refused");
    }
    planes.release(1, 3);
    assert_eq!((planes.live_for(1), planes.params_tracked()), (1, 1));
    planes.release(1, 4);
    planes.release(1, 4);
    assert_eq!((planes.live_for(1), planes.params_tracked(), planes.in_flight()), (0, 0, 0));
}
