use std::cell::Cell;
use std::collections::HashSet;

use scoot::drm_syncobj::retained::{Refusal, RetainedTimelines, SWEEP_MARGIN};
use scoot::drm_syncobj::timeline_fd::{is_syncobj_link, proc_fd_path, timeline_fd_open};

const CAP: u32 = 128;
const GRACE: u32 = 32;

const A: u64 = 1;
const B: u64 = 2;

/// Imports `count` timelines for `client` on fd numbers starting at `first`, each admitted with
/// nothing live but what `live` names and no pressure.
fn import_all(
    ledger: &mut RetainedTimelines,
    client: u64,
    first: i32,
    count: u32,
    live: &HashSet<i32>,
) -> Result<(), Refusal> {
    for fd in first..first + count as i32 {
        ledger.fd_arrived(fd);
        ledger.try_admit(client, CAP, GRACE, |fd| live.contains(&fd), || false)?;
        ledger.record(client, fd);
    }
    Ok(())
}

#[test]
fn records_count_per_client_and_drain_by_sweep() {
    let mut ledger = RetainedTimelines::new();
    let live: HashSet<i32> = (100..105).collect();
    import_all(&mut ledger, A, 100, 10, &live).expect("under the cap");
    import_all(&mut ledger, B, 200, 3, &live).expect("under the cap");
    assert_eq!(ledger.held_by(A), 10);
    assert_eq!(ledger.held_by(B), 3);
    assert_eq!(ledger.records(), 13);
    assert_eq!(ledger.sweep(A, |fd| live.contains(&fd)), 5);
    assert_eq!(ledger.held_by(A), 5, "a sweep drops a's dead records");
    assert_eq!(ledger.held_by(B), 3, "and touches nobody else's");
    assert_eq!(ledger.sweep(B, |_| false), 0);
    assert_eq!(ledger.held_by(B), 0);
    assert_eq!(ledger.records(), 5, "an emptied client leaves no records behind");
}

#[test]
fn a_reused_number_forgets_the_old_record_whoever_owned_it() {
    let mut ledger = RetainedTimelines::new();
    ledger.record(A, 7);
    ledger.record(A, 8);
    ledger.fd_arrived(7);
    assert_eq!(ledger.held_by(A), 1);
    ledger.record(B, 8);
    assert_eq!(ledger.held_by(A), 0);
    assert_eq!(ledger.held_by(B), 1);
    assert_eq!(ledger.records(), 1);
    assert_eq!(ledger.sweep(A, |_| false), 0);
    assert_eq!(ledger.held_by(B), 1);
}

#[test]
fn fd_arrived_on_an_empty_ledger_is_a_no_op() {
    let mut ledger = RetainedTimelines::new();
    ledger.fd_arrived(3);
    assert_eq!(ledger.records(), 0);
}

#[test]
fn a_client_really_holding_the_cap_is_refused_at_it() {
    let mut ledger = RetainedTimelines::new();
    let live: HashSet<i32> = (1000..2000).collect();
    import_all(&mut ledger, A, 1000, CAP, &live).expect("the cap itself is admitted");
    assert_eq!(ledger.held_by(A), CAP);
    let refusal = ledger.try_admit(A, CAP, GRACE, |fd| live.contains(&fd), || false);
    assert_eq!(refusal, Err(Refusal::Cap { held: CAP }));
}

#[test]
fn churned_timelines_never_reach_the_cap() {
    let mut ledger = RetainedTimelines::new();
    let live: HashSet<i32> = (0..16).collect();
    import_all(&mut ledger, A, 0, 16, &live).expect("a window's worth");
    import_all(&mut ledger, A, 10_000, 10 * CAP, &live).expect("dead records are swept");
    assert!(ledger.held_by(A) <= CAP, "the records never exceed the cap");
    assert_eq!(ledger.sweep(A, |fd| live.contains(&fd)), 16);
}

#[test]
fn a_client_within_the_margin_of_the_cap_is_refused_not_swept_per_import() {
    let mut ledger = RetainedTimelines::new();
    let live: HashSet<i32> = (0..CAP as i32 - 1).collect();
    import_all(&mut ledger, A, 0, CAP - 1, &live).expect("under the cap");
    ledger.record(A, 5000); // one churned import, dead
    let checks = Cell::new(0);
    let refusal = ledger.try_admit(
        A,
        CAP,
        GRACE,
        |fd| {
            checks.set(checks.get() + 1);
            live.contains(&fd)
        },
        || false,
    );
    assert_eq!(refusal, Err(Refusal::Cap { held: CAP - 1 }));
    assert_eq!(checks.get(), CAP, "one sweep, of the client's own records");
}

#[test]
fn a_sweep_that_frees_the_margin_admits_and_buys_that_many_imports() {
    let mut ledger = RetainedTimelines::new();
    let live_count = CAP - SWEEP_MARGIN;
    let live: HashSet<i32> = (0..live_count as i32).collect();
    import_all(&mut ledger, A, 0, live_count, &live).expect("under the cap");
    import_all(&mut ledger, A, 5000, SWEEP_MARGIN, &live).expect("to the cap");
    let mut sweeps = 0;
    for fd in 6000..6000 + SWEEP_MARGIN as i32 {
        let swept = Cell::new(false);
        ledger
            .try_admit(
                A,
                CAP,
                GRACE,
                |fd| {
                    swept.set(true);
                    live.contains(&fd) || fd >= 6000
                },
                || false,
            )
            .expect("the dead margin is reclaimed");
        sweeps += u32::from(swept.get());
        ledger.record(A, fd);
    }
    assert_eq!(sweeps, 1, "one sweep for the whole margin's worth of imports");
}

#[test]
fn nothing_is_observed_under_the_grace() {
    let mut ledger = RetainedTimelines::new();
    for fd in 0..GRACE as i32 {
        ledger
            .try_admit(
                A,
                CAP,
                GRACE,
                |_| panic!("no sweep under the grace"),
                || panic!("no table observation under the grace"),
            )
            .expect("under the grace");
        ledger.record(A, fd);
    }
}

#[test]
fn under_pressure_a_client_past_the_grace_is_refused_on_a_fresh_count() {
    let mut ledger = RetainedTimelines::new();
    let live: HashSet<i32> = (0..=GRACE as i32).collect();
    import_all(&mut ledger, A, 0, GRACE + 1, &live).expect("no pressure yet");
    let refusal = ledger.try_admit(A, CAP, GRACE, |fd| live.contains(&fd), || true);
    assert_eq!(refusal, Err(Refusal::Pressure { held: GRACE + 1 }));
}

#[test]
fn under_pressure_dead_records_do_not_count_against_the_grace() {
    let mut ledger = RetainedTimelines::new();
    let live: HashSet<i32> = (0..10).collect();
    import_all(&mut ledger, A, 0, 10, &live).expect("under the grace");
    for fd in 100..100 + 3 * GRACE as i32 {
        ledger.record(A, fd);
    }
    assert!(ledger.held_by(A) > GRACE);
    ledger
        .try_admit(A, CAP, GRACE, |fd| live.contains(&fd), || true)
        .expect("the fresh count is 10, under the grace");
    assert_eq!(ledger.held_by(A), 10);
}

#[test]
fn under_pressure_sweeps_are_amortized_by_the_margin() {
    let mut ledger = RetainedTimelines::new();
    let live: HashSet<i32> = (0..10_000).collect();
    import_all(&mut ledger, A, 0, GRACE, &live).expect("no pressure yet");
    ledger.record(A, 20_000);
    let mut sweeps = 0;
    let observations = Cell::new(0);
    let mut outcome = Ok(());
    for fd in GRACE as i32..GRACE as i32 + 2 * SWEEP_MARGIN as i32 {
        let swept = Cell::new(false);
        outcome = ledger.try_admit(
            A,
            CAP,
            GRACE,
            |fd| {
                swept.set(true);
                live.contains(&fd)
            },
            || {
                observations.set(observations.get() + 1);
                true
            },
        );
        sweeps += u32::from(swept.get());
        if outcome.is_err() {
            break;
        }
        ledger.record(A, fd);
    }
    assert_eq!(
        outcome,
        Err(Refusal::Pressure { held: GRACE + SWEEP_MARGIN }),
        "the slack past a sweep that admitted is the margin, and not a record more"
    );
    assert_eq!(sweeps, 2, "the sweep that admitted, and the one that refused");
    assert_eq!(observations.get(), 2, "the table is observed only when a sweep is due");
}

#[test]
fn the_ledger_is_bounded_by_fd_numbers_not_by_clients() {
    let mut ledger = RetainedTimelines::new();
    for client in 0..1000 {
        for fd in 20..24 {
            ledger.fd_arrived(fd);
            ledger.record(client, fd);
        }
    }
    assert_eq!(ledger.records(), 4, "one record per number, whoever held it last");
}

#[test]
fn a_sweep_is_due_again_once_the_margin_is_spent() {
    let mut ledger = RetainedTimelines::new();
    ledger.record(A, 0);
    assert!(ledger.sweep_due(A), "never swept");
    ledger.sweep(A, |_| true);
    assert!(!ledger.sweep_due(A));
    for fd in 1..SWEEP_MARGIN as i32 {
        ledger.record(A, fd);
    }
    assert!(!ledger.sweep_due(A));
    ledger.record(A, SWEEP_MARGIN as i32);
    assert!(ledger.sweep_due(A));
}

#[test]
fn a_sweep_that_leaves_nothing_is_not_due_again_at_once() {
    let mut ledger = RetainedTimelines::new();
    ledger.record(A, 0);
    assert_eq!(ledger.sweep(A, |_| false), 0);
    for fd in 1..SWEEP_MARGIN as i32 {
        ledger.record(A, fd);
        assert!(!ledger.sweep_due(A), "{fd} records since the sweep");
    }
    ledger.record(A, SWEEP_MARGIN as i32);
    assert!(ledger.sweep_due(A));
}

#[test]
fn a_sweep_that_finds_no_record_sets_the_mark_too() {
    let mut ledger = RetainedTimelines::new();
    assert_eq!(ledger.sweep(A, |_| panic!("no record to ask about")), 0);
    assert!(!ledger.sweep_due(A), "no record, no sweep");
    for fd in 1..SWEEP_MARGIN as i32 {
        ledger.record(A, fd);
        assert!(!ledger.sweep_due(A), "{fd} records since the sweep");
    }
    ledger.record(A, SWEEP_MARGIN as i32);
    assert!(ledger.sweep_due(A));
}

#[test]
fn a_mark_outlives_the_records_it_was_set_for() {
    let mut ledger = RetainedTimelines::new();
    ledger.record(A, 0);
    assert_eq!(ledger.sweep(A, |_| true), 1);
    ledger.fd_arrived(0);
    assert!(!ledger.sweep_due(A), "no record, no sweep");
    ledger.record(A, 1);
    assert!(!ledger.sweep_due(A));
    ledger.record(B, 2);
    assert!(ledger.sweep_due(B), "never swept");
}

#[test]
fn a_sweep_that_left_nothing_spares_the_next_import_under_a_small_grace() {
    let mut ledger = RetainedTimelines::new();
    ledger.record(A, 0);
    ledger.record(A, 1);
    ledger.try_admit(A, CAP, 1, |_| false, || true).expect("nothing is live");
    ledger.record(A, 2);
    ledger.record(A, 3);
    ledger
        .try_admit(A, CAP, 1, |_| panic!("no sweep is due"), || panic!("nothing to observe for"))
        .expect("within the margin");
}

#[test]
fn a_table_that_is_not_pressured_sweeps_nothing() {
    let mut ledger = RetainedTimelines::new();
    for fd in 0..=GRACE as i32 {
        ledger.record(A, fd);
    }
    ledger
        .try_admit(A, CAP, GRACE, |_| panic!("nothing to sweep for"), || false)
        .expect("no pressure");
    assert_eq!(ledger.held_by(A), GRACE + 1);
}

#[test]
fn the_counts_add_up_to_the_records() {
    let mut ledger = RetainedTimelines::new();
    for fd in 0..10 {
        ledger.record(u64::from(fd as u32 % 3), fd);
    }
    ledger.record(A, 0);
    assert_eq!([ledger.held_by(0), ledger.held_by(1), ledger.held_by(2)], [3, 4, 3]);
    assert_eq!(ledger.records(), 10);
}

#[test]
fn a_client_that_goes_takes_its_mark_and_leaves_its_records() {
    let mut ledger = RetainedTimelines::new();
    for fd in 0..3 {
        ledger.record(A, fd);
    }
    ledger.record(B, 3);
    ledger.sweep(A, |_| true);
    ledger.sweep(B, |_| true);
    assert!(!ledger.sweep_due(A));
    ledger.forget_client(A);
    assert_eq!((ledger.held_by(A), ledger.records()), (3, 4), "records go with their numbers");
    assert!(ledger.sweep_due(A), "as if it was never swept");
    assert!(!ledger.sweep_due(B), "and nobody else's mark goes");
}

// -- whether a number is still a timeline ------------------------------------

fn path(fd: i32, buf: &mut [u8; 32]) -> Option<String> {
    let end = proc_fd_path(fd, buf)?;
    assert_eq!(buf[end], 0, "the path is terminated");
    Some(String::from_utf8(buf[..end].to_vec()).expect("ascii"))
}

#[test]
fn the_proc_path_is_formatted_in_place() {
    let mut buf = [0u8; 32];
    for (fd, expected) in [
        (0, "/proc/self/fd/0"),
        (7, "/proc/self/fd/7"),
        (1023, "/proc/self/fd/1023"),
        (i32::MAX, "/proc/self/fd/2147483647"),
    ] {
        assert_eq!(path(fd, &mut buf).expect("fits"), expected);
    }
    assert!(proc_fd_path(-1, &mut buf).is_none());
}

#[test]
fn timeline_fd_open_tells_a_syncobj_from_everything_else() {
    let reads = |link: &str| {
        let link = link.as_bytes().to_vec();
        timeline_fd_open(5, |_fd| true, |_buf, _end| Some(link))
    };
    assert!(!reads("anon_inode:[eventfd]"), "an eventfd is not a timeline");
    assert!(!reads("/memfd:retained-test (deleted)"), "a memfd is not a timeline");
    assert!(reads("anon_inode:syncobj_file"), "a syncobj fd is a timeline");
    assert!(
        !timeline_fd_open(5, |_fd| false, |_buf, _end| panic!("a closed number has no link")),
        "a closed number is not held"
    );
    assert!(!timeline_fd_open(-1, |_fd| panic!("no such number"), |_buf, _end| None));
}

#[test]
fn a_link_that_cannot_be_read_counts_as_held() {
    assert!(timeline_fd_open(5, |_fd| true, |_buf, _end| None));
}

#[test]
fn the_link_is_read_at_the_numbers_own_path() {
    let held = timeline_fd_open(
        42,
        |fd| fd == 42,
        |buf, end| {
            assert_eq!(&buf[..=end], b"/proc/self/fd/42\0");
            Some(b"anon_inode:syncobj_file".to_vec())
        },
    );
    assert!(held);
    assert!(!is_syncobj_link(&b"anon_inode:syncobj_file2".to_vec()));
    assert!(!is_syncobj_link(&Vec::new()));
}
