use std::cell::Cell;

use scoot::drm_syncobj::release_hold::{Released, ReleaseHold, MAX_FRAMES};

/// A hold whose buffers are names and whose renders are waited out by counting.
struct Rig {
    hold: ReleaseHold<&'static str, u64>,
    log: Vec<&'static str>,
    waits: Cell<usize>,
}

impl Rig {
    fn new() -> Self {
        Rig { hold: ReleaseHold::new(), log: Vec::new(), waits: Cell::new(0) }
    }

    fn hold(&mut self, flip: u64, names: &[&'static str]) {
        let waits = &self.waits;
        let released = self.hold.hold(flip, flip, names.to_vec(), |_render| {
            waits.set(waits.get() + 1);
            true
        });
        self.log.extend(released.buffers);
    }

    fn flip_completed(&mut self, flip: u64) {
        let waits = &self.waits;
        let released = self.hold.flip_completed(flip, |_render| {
            waits.set(waits.get() + 1);
            true
        });
        self.log.extend(released.buffers);
    }

    fn release_all(&mut self) -> Released<&'static str> {
        let waits = &self.waits;
        let released = self.hold.release_all(|_render| {
            waits.set(waits.get() + 1);
            true
        });
        self.log.extend(released.buffers.iter());
        released
    }

    fn discard_frame(&mut self, flip: u64) {
        self.log.extend(self.hold.discard_frame(flip));
    }

    fn released(&self) -> Vec<&'static str> {
        let mut log = self.log.clone();
        log.sort_unstable();
        log
    }

    fn waits(&self) -> usize {
        self.waits.get()
    }
}

#[test]
fn a_held_buffer_is_released_only_when_its_flip_completes() {
    let mut rig = Rig::new();
    rig.hold(7, &["a", "b"]);
    assert_eq!(rig.hold.held(), 2);
    assert!(rig.released().is_empty(), "nothing is released at hold time");
    rig.flip_completed(6);
    assert!(rig.released().is_empty(), "an earlier flip releases nothing of flip 7");
    rig.flip_completed(7);
    assert_eq!(rig.released(), ["a", "b"]);
    assert_eq!(rig.hold.held(), 0);
    assert_eq!(rig.hold.frames(), 0);
    assert_eq!(rig.waits(), 1, "the frame's render is waited out before its buffers go");
}

#[test]
fn a_completed_flip_also_releases_every_earlier_frame() {
    let mut rig = Rig::new();
    rig.hold(1, &["replaced"]);
    rig.hold(2, &["flipped"]);
    rig.flip_completed(2);
    assert_eq!(rig.released(), ["flipped", "replaced"]);
    assert_eq!(rig.waits(), 2);
}

#[test]
fn a_frame_with_no_explicit_buffers_records_nothing() {
    let mut rig = Rig::new();
    rig.hold(1, &[]);
    assert_eq!(rig.hold.frames(), 0);
    rig.hold(2, &["x"]);
    rig.hold(3, &[]);
    rig.hold(4, &[]);
    assert_eq!(rig.hold.held(), 1);
    assert_eq!(rig.waits(), 0);
}

#[test]
fn more_frames_than_can_be_in_flight_wait_out_and_release_the_oldest() {
    let mut rig = Rig::new();
    for (flip, name) in [(1, "one"), (2, "two")] {
        rig.hold(flip, &[name]);
    }
    assert_eq!(rig.hold.frames(), MAX_FRAMES);
    assert_eq!(rig.waits(), 0);
    rig.hold(3, &["three"]);
    assert_eq!(
        rig.hold.frames(),
        MAX_FRAMES,
        "the hold never grows past the in-flight bound"
    );
    assert_eq!(rig.released(), ["one"], "the oldest goes, and only it");
    assert_eq!(rig.waits(), 1, "after its render was waited out");
}

#[test]
fn flips_that_never_complete_cannot_grow_the_hold() {
    let mut rig = Rig::new();
    for flip in 0..1000 {
        rig.hold(flip, &["frame"]);
    }
    assert_eq!(rig.hold.frames(), MAX_FRAMES);
    assert_eq!(rig.hold.held(), MAX_FRAMES);
    assert_eq!(rig.released().len(), 1000 - MAX_FRAMES);
}

#[test]
fn a_refused_queue_discards_its_own_frame_without_waiting() {
    let mut rig = Rig::new();
    rig.hold(4, &["kept"]);
    rig.hold(5, &["refused"]);
    rig.discard_frame(5);
    assert_eq!(rig.released(), ["refused"]);
    assert_eq!(rig.waits(), 0);
    assert_eq!(rig.hold.frames(), 1);
    rig.hold(5, &["retry"]);
    rig.flip_completed(5);
    assert_eq!(rig.released(), ["kept", "refused", "retry"]);
}

#[test]
fn discard_frame_for_an_unheld_flip_is_a_no_op() {
    let mut rig = Rig::new();
    rig.hold(1, &["a"]);
    rig.discard_frame(9);
    assert_eq!(rig.hold.held(), 1);
    assert_eq!(rig.waits(), 0);
    rig.flip_completed(0);
    assert_eq!(rig.waits(), 0);
    assert_eq!(rig.hold.held(), 1);
}

#[test]
fn discard_all_releases_everything_without_waiting() {
    let mut rig = Rig::new();
    rig.hold(1, &["a"]);
    rig.hold(2, &["b", "c"]);
    rig.log.extend(rig.hold.discard_all());
    assert_eq!(rig.released(), ["a", "b", "c"]);
    assert_eq!(rig.waits(), 0);
    assert_eq!(rig.hold.frames(), 0);
    rig.flip_completed(2);
    assert_eq!(rig.released().len(), 3);
    rig.hold(3, &["d"]);
    assert_eq!(rig.hold.held(), 1);
}

#[test]
fn release_all_waits_out_every_frame_and_empties() {
    let mut rig = Rig::new();
    rig.hold(1, &["a"]);
    rig.hold(2, &["b", "c"]);
    rig.release_all();
    assert_eq!(rig.released(), ["a", "b", "c"]);
    assert_eq!(rig.waits(), 2);
    assert_eq!(rig.hold.frames(), 0);
    rig.flip_completed(2);
    assert_eq!(rig.released().len(), 3);
}

#[test]
fn an_interrupted_wait_still_releases() {
    let mut hold: ReleaseHold<&str, u64> = ReleaseHold::new();
    hold.hold(1, 1, vec!["stuck"], |_render| panic!("nothing goes yet"));
    let released = hold.release_all(|_render| false);
    assert_eq!(released.buffers, ["stuck"]);
    assert_eq!(released.waited, [false]);
}

#[test]
fn one_frame_is_released_after_its_own_render() {
    let mut hold: ReleaseHold<&str, u64> = ReleaseHold::new();
    hold.hold(1, 10, vec!["a"], |_render| true);
    hold.hold(2, 20, vec!["b"], |_render| true);
    let waited = Cell::new(0);
    let released = hold.release_frame(2, |render| {
        waited.set(*render);
        true
    });
    assert_eq!(released.buffers, ["b"]);
    assert_eq!(waited.get(), 20);
    assert_eq!((hold.held(), hold.frames()), (1, 1));
    let again = hold.flip_completed(1, |_render| true);
    assert_eq!(again.buffers, ["a"]);
    assert!(hold.flip_completed(1, |_render| panic!("nothing is held")).buffers.is_empty());
}
