//! Explicit buffers kept until the frame that sampled them is done with them.
//!
//! A buffer's release point is signalled when the last reference to it goes,
//! so every composited frame hands its explicit buffers to this hold, tagged
//! with the frame's flip number and paired with its render fence. They come
//! back out when that flip completes, when the frame will never flip, or when
//! more frames are held than can be in flight. Whoever receives them drops
//! them, which signals their release points.
//!
//! A frame that may still be read is waited out first. A frame that is known
//! never to be shown is discarded without a wait.

use vstd::prelude::*;

verus! {

/// How many composited frames can be awaiting a flip at once: one submitted
/// and one queued behind it.
pub const MAX_FRAMES: usize = 2;

/// Buffers handed back for release, and how the render of each frame waited
/// out first ended (`false` for an interrupted wait, which still releases).
pub struct Released<T> {
    pub buffers: Vec<T>,
    pub waited: Vec<bool>,
}

/// What a hold keeps: `(flip, buffer)` for every held buffer, and
/// `(flip, fence)` for every frame that holds one, oldest first.
#[verifier::ext_equal]
pub struct Holding<T, S> {
    pub held: Seq<(u64, T)>,
    pub frames: Seq<(u64, S)>,
}

/// Whether an entry tagged `tag` goes with `flip`: the same number when
/// `exact`, and any number up to it otherwise.
pub open spec fn goes(tag: u64, flip: u64, exact: bool) -> bool {
    if exact {
        tag == flip
    } else {
        tag <= flip
    }
}

/// The entries of `held` that stay when `flip` goes, in their order.
pub open spec fn staying<T>(held: Seq<(u64, T)>, flip: u64, exact: bool) -> Seq<(u64, T)>
    decreases held.len(),
{
    if held.len() == 0 {
        Seq::empty()
    } else if goes(held.last().0, flip, exact) {
        staying(held.drop_last(), flip, exact)
    } else {
        staying(held.drop_last(), flip, exact).push(held.last())
    }
}

/// The values of the entries that go when `flip` goes, in their order.
pub open spec fn going<T>(held: Seq<(u64, T)>, flip: u64, exact: bool) -> Seq<T>
    decreases held.len(),
{
    if held.len() == 0 {
        Seq::empty()
    } else if goes(held.last().0, flip, exact) {
        going(held.drop_last(), flip, exact).push(held.last().1)
    } else {
        going(held.drop_last(), flip, exact)
    }
}

/// `buffers`, each tagged with `flip`.
pub open spec fn tagged<T>(flip: u64, buffers: Seq<T>) -> Seq<(u64, T)> {
    Seq::new(buffers.len(), |i: int| (flip, buffers[i]))
}

/// `waited` is what `wait` answered of each of `fences`, in order.
pub open spec fn waited_out<S, W: Fn(&S) -> bool>(
    wait: W,
    fences: Seq<S>,
    waited: Seq<bool>,
) -> bool {
    &&& waited.len() == fences.len()
    &&& forall|i: int|
        0 <= i < fences.len() ==> call_ensures(wait, (&#[trigger] fences[i],), waited[i])
}

/// Removes from `held` every entry that goes with `flip`, and answers them.
fn take_going<T>(held: &mut Vec<(u64, T)>, flip: u64, exact: bool) -> (out: Vec<T>)
    ensures
        final(held)@ == staying(old(held)@, flip, exact),
        out@ == going(old(held)@, flip, exact),
{
    let mut out: Vec<T> = Vec::new();
    let mut at: usize = 0;
    let ghost all = held@;
    let ghost mut seen: int = 0;
    while at < held.len()
        invariant
            0 <= seen <= all.len(),
            at <= held@.len(),
            held@ == staying(all.take(seen), flip, exact) + all.skip(seen),
            at == staying(all.take(seen), flip, exact).len(),
            out@ == going(all.take(seen), flip, exact),
        decreases held@.len() - at,
    {
        let ghost before = held@;
        proof {
            assert(before[at as int] == all[seen]);
            assert(all.take(seen + 1).drop_last() =~= all.take(seen));
            assert(all.take(seen + 1).last() == all[seen]);
        }
        let tag: u64 = held[at].0;
        let leaves: bool = if exact {
            tag == flip
        } else {
            tag <= flip
        };
        if leaves {
            let (_, buffer) = held.remove(at);
            out.push(buffer);
            assert(held@ =~= staying(all.take(seen), flip, exact) + all.skip(seen + 1));
        } else {
            at += 1;
            assert(held@ =~= staying(all.take(seen + 1), flip, exact) + all.skip(seen + 1));
        }
        proof {
            seen = seen + 1;
        }
    }
    assert(all.take(all.len() as int) =~= all);
    assert(all.skip(seen).len() == 0);
    out
}

/// Waits for each of `fences` in turn.
fn wait_out<S, W: Fn(&S) -> bool>(fences: &Vec<S>, wait: &W) -> (waited: Vec<bool>)
    requires
        forall|i: int| 0 <= i < fences@.len() ==> call_requires(*wait, (&#[trigger] fences@[i],)),
    ensures
        waited_out(*wait, fences@, waited@),
{
    let mut waited: Vec<bool> = Vec::new();
    let mut i: usize = 0;
    while i < fences.len()
        invariant
            i <= fences@.len(),
            waited@.len() == i,
            forall|j: int|
                0 <= j < fences@.len() ==> call_requires(*wait, (&#[trigger] fences@[j],)),
            forall|j: int|
                0 <= j < i ==> call_ensures(*wait, (&#[trigger] fences@[j],), waited@[j]),
        decreases fences@.len() - i,
    {
        let ended: bool = wait(&fences[i]);
        waited.push(ended);
        i += 1;
    }
    waited
}

/// A flip releases nothing of a later one: what stays is exactly what was
/// there and does not go with it.
pub proof fn what_stays<T>(held: Seq<(u64, T)>, flip: u64, exact: bool)
    ensures
        staying(held, flip, exact).len() <= held.len(),
        forall|e: (u64, T)| #[trigger]
            staying(held, flip, exact).contains(e) <==> held.contains(e) && !goes(
                e.0,
                flip,
                exact,
            ),
    decreases held.len(),
{
    if held.len() > 0 {
        let rest = held.drop_last();
        let kept = staying(rest, flip, exact);
        what_stays(rest, flip, exact);
        assert forall|e: (u64, T)| #[trigger] held.contains(e) <==> rest.contains(e) || e
            == held.last() by {
            if held.contains(e) {
                let i = choose|i: int| 0 <= i < held.len() && held[i] == e;
                if i < held.len() - 1 {
                    assert(rest[i] == e);
                }
            }
            if rest.contains(e) {
                let i = choose|i: int| 0 <= i < rest.len() && rest[i] == e;
                assert(held[i] == e);
            }
            if e == held.last() {
                assert(held[held.len() - 1] == e);
            }
        }
        assert forall|e: (u64, T)| #[trigger] kept.push(held.last()).contains(e) <==> kept.contains(
            e,
        ) || e == held.last() by {
            let pushed = kept.push(held.last());
            if pushed.contains(e) {
                let i = choose|i: int| 0 <= i < pushed.len() && pushed[i] == e;
                if i < kept.len() {
                    assert(kept[i] == e);
                }
            }
            if kept.contains(e) {
                let i = choose|i: int| 0 <= i < kept.len() && kept[i] == e;
                assert(pushed[i] == e);
            }
            if e == held.last() {
                assert(pushed[kept.len() as int] == e);
            }
        }
    }
}

/// Flip numbers that ascend still ascend when some go.
proof fn lemma_staying_ascends<S>(frames: Seq<(u64, S)>, flip: u64, exact: bool)
    requires
        ascending(frames),
    ensures
        ascending(staying(frames, flip, exact)),
    decreases frames.len(),
{
    if frames.len() > 0 {
        let rest = frames.drop_last();
        lemma_staying_ascends(rest, flip, exact);
        what_stays(rest, flip, exact);
        let kept = staying(rest, flip, exact);
        assert forall|i: int, j: int|
            0 <= i < j < staying(frames, flip, exact).len() implies #[trigger] staying(
            frames,
            flip,
            exact,
        )[i].0 < #[trigger] staying(frames, flip, exact)[j].0 by {
            if j == kept.len() {
                assert(kept.contains(kept[i]));
                let k = choose|k: int| 0 <= k < rest.len() && rest[k] == kept[i];
                assert(frames[k].0 < frames[frames.len() - 1].0);
            }
        }
    }
}

/// The flip numbers of `frames` ascend.
pub open spec fn ascending<S>(frames: Seq<(u64, S)>) -> bool {
    forall|i: int, j: int|
        0 <= i < j < frames.len() ==> #[trigger] frames[i].0 < #[trigger] frames[j].0
}

/// `frames` holds a frame numbered `flip`.
pub open spec fn has_flip<S>(frames: Seq<(u64, S)>, flip: u64) -> bool {
    exists|i: int| 0 <= i < frames.len() && (#[trigger] frames[i]).0 == flip
}

impl<T, S> Holding<T, S> {
    pub open spec fn empty() -> Holding<T, S> {
        Holding { held: Seq::empty(), frames: Seq::empty() }
    }

    /// At most [`MAX_FRAMES`] frames, numbered in ascending order; every held
    /// buffer belongs to one of them, and every one of them holds a buffer.
    pub open spec fn consistent(self) -> bool {
        &&& self.frames.len() <= MAX_FRAMES
        &&& ascending(self.frames)
        &&& forall|i: int|
            0 <= i < self.held.len() ==> has_flip(self.frames, (#[trigger] self.held[i]).0)
        &&& forall|i: int|
            0 <= i < self.frames.len() ==> has_flip(self.held, (#[trigger] self.frames[i]).0)
    }

    /// What is kept when everything that goes with `flip` has gone.
    pub open spec fn after(self, flip: u64, exact: bool) -> Holding<T, S> {
        Holding {
            held: staying(self.held, flip, exact),
            frames: staying(self.frames, flip, exact),
        }
    }

    /// What is kept once a frame's buffers were added, before the oldest
    /// frame past [`MAX_FRAMES`] goes.
    pub open spec fn adding(self, flip: u64, sync: S, buffers: Seq<T>) -> Holding<T, S> {
        Holding {
            held: self.held + tagged(flip, buffers),
            frames: self.frames.push((flip, sync)),
        }
    }
}

/// Releasing by flip number keeps a consistent hold consistent.
proof fn lemma_after_consistent<T, S>(hold: Holding<T, S>, flip: u64, exact: bool)
    requires
        ascending(hold.frames),
        forall|i: int|
            0 <= i < hold.held.len() ==> has_flip(hold.frames, (#[trigger] hold.held[i]).0),
        forall|i: int|
            0 <= i < hold.frames.len() ==> has_flip(hold.held, (#[trigger] hold.frames[i]).0),
    ensures
        hold.after(flip, exact).frames.len() <= hold.frames.len(),
        hold.after(flip, exact).frames.len() <= MAX_FRAMES ==> hold.after(
            flip,
            exact,
        ).consistent(),
{
    let after = hold.after(flip, exact);
    what_stays(hold.held, flip, exact);
    what_stays(hold.frames, flip, exact);
    lemma_staying_ascends(hold.frames, flip, exact);
    assert forall|i: int| 0 <= i < after.held.len() implies has_flip(
        after.frames,
        (#[trigger] after.held[i]).0,
    ) by {
        let e = after.held[i];
        assert(after.held.contains(e));
        let k = choose|k: int| 0 <= k < hold.held.len() && hold.held[k] == e;
        assert(has_flip(hold.frames, hold.held[k].0));
        let m = choose|m: int| 0 <= m < hold.frames.len() && (#[trigger] hold.frames[m]).0 == e.0;
        assert(hold.frames.contains(hold.frames[m]));
        assert(after.frames.contains(hold.frames[m]));
        let n = choose|n: int| 0 <= n < after.frames.len() && after.frames[n] == hold.frames[m];
        assert(after.frames[n].0 == e.0);
    }
    assert forall|i: int| 0 <= i < after.frames.len() implies has_flip(
        after.held,
        (#[trigger] after.frames[i]).0,
    ) by {
        let e = after.frames[i];
        assert(after.frames.contains(e));
        let k = choose|k: int| 0 <= k < hold.frames.len() && hold.frames[k] == e;
        assert(has_flip(hold.held, hold.frames[k].0));
        let m = choose|m: int| 0 <= m < hold.held.len() && (#[trigger] hold.held[m]).0 == e.0;
        assert(hold.held.contains(hold.held[m]));
        assert(after.held.contains(hold.held[m]));
        let n = choose|n: int| 0 <= n < after.held.len() && after.held[n] == hold.held[m];
        assert(after.held[n].0 == e.0);
    }
}

/// Adding a frame with a buffer, under a number past every held one, keeps
/// everything but the frame bound.
proof fn lemma_adding_consistent<T, S>(hold: Holding<T, S>, flip: u64, sync: S, buffers: Seq<T>)
    requires
        hold.consistent(),
        forall|i: int| 0 <= i < hold.frames.len() ==> (#[trigger] hold.frames[i]).0 < flip,
        buffers.len() > 0,
    ensures
        ({
            let added = hold.adding(flip, sync, buffers);
            &&& ascending(added.frames)
            &&& forall|i: int|
                0 <= i < added.held.len() ==> has_flip(added.frames, (#[trigger] added.held[i]).0)
            &&& forall|i: int|
                0 <= i < added.frames.len() ==> has_flip(
                    added.held,
                    (#[trigger] added.frames[i]).0,
                )
        }),
{
    let added = hold.adding(flip, sync, buffers);
    assert forall|i: int| 0 <= i < added.held.len() implies has_flip(
        added.frames,
        (#[trigger] added.held[i]).0,
    ) by {
        if i < hold.held.len() {
            assert(has_flip(hold.frames, hold.held[i].0));
            let m = choose|m: int|
                0 <= m < hold.frames.len() && (#[trigger] hold.frames[m]).0 == hold.held[i].0;
            assert(added.frames[m].0 == added.held[i].0);
        } else {
            assert(added.frames[hold.frames.len() as int].0 == flip);
        }
    }
    assert forall|i: int| 0 <= i < added.frames.len() implies has_flip(
        added.held,
        (#[trigger] added.frames[i]).0,
    ) by {
        if i < hold.frames.len() {
            assert(has_flip(hold.held, hold.frames[i].0));
            let m = choose|m: int|
                0 <= m < hold.held.len() && (#[trigger] hold.held[m]).0 == hold.frames[i].0;
            assert(added.held[m].0 == added.frames[i].0);
        } else {
            assert(added.held[hold.held.len() as int].0 == flip);
        }
    }
}

/// With ascending numbers, releasing up to the oldest removes just it.
proof fn lemma_oldest_goes<S>(frames: Seq<(u64, S)>)
    requires
        ascending(frames),
        frames.len() > 0,
    ensures
        staying(frames, frames[0].0, false) == frames.drop_first(),
        going(frames, frames[0].0, false) == seq![frames[0].1],
    decreases frames.len(),
{
    let flip = frames[0].0;
    if frames.len() > 1 {
        let rest = frames.drop_last();
        lemma_oldest_goes(rest);
        assert(frames[0].0 < frames[frames.len() - 1].0);
        assert(rest.drop_first().push(frames.last()) =~= frames.drop_first());
    } else {
        assert(frames.drop_last() =~= Seq::empty());
        assert(staying(frames.drop_last(), flip, false) =~= Seq::empty());
        assert(going(frames.drop_last(), flip, false) =~= Seq::empty());
        assert(frames.drop_first() =~= Seq::empty());
        assert(seq![frames[0].1] =~= Seq::<S>::empty().push(frames[0].1));
    }
}

/// What one call on a hold does: what it keeps afterwards, the buffers it hands back, and the
/// fences it waits on first.
#[verifier::ext_equal]
pub struct HoldStep<T, S> {
    pub hold: Holding<T, S>,
    pub released: Seq<T>,
    pub fences: Seq<S>,
}

impl<T, S> Holding<T, S> {
    /// Everything that goes with `flip` goes, once the fences of its frames are waited on.
    pub open spec fn releasing(self, flip: u64, exact: bool) -> HoldStep<T, S> {
        HoldStep {
            hold: self.after(flip, exact),
            released: going(self.held, flip, exact),
            fences: going(self.frames, flip, exact),
        }
    }

    /// A composited frame's buffers are held; nothing where it has none. Past [`MAX_FRAMES`], the
    /// oldest frame goes.
    pub open spec fn holding(self, flip: u64, sync: S, buffers: Seq<T>) -> HoldStep<T, S> {
        let added = self.adding(flip, sync, buffers);
        if buffers.len() == 0 {
            HoldStep { hold: self, released: Seq::empty(), fences: Seq::empty() }
        } else if self.frames.len() < MAX_FRAMES {
            HoldStep { hold: added, released: Seq::empty(), fences: Seq::empty() }
        } else {
            HoldStep {
                hold: added.after(self.frames[0].0, false),
                released: going(added.held, self.frames[0].0, false),
                fences: seq![self.frames[0].1],
            }
        }
    }

    /// A flip has reached the screen.
    pub open spec fn completing(self, flip: u64) -> HoldStep<T, S> {
        self.releasing(flip, false)
    }

    /// A frame will never reach the screen.
    pub open spec fn withdrawing(self, flip: u64) -> HoldStep<T, S> {
        self.releasing(flip, true)
    }
}

/// Explicit buffers held for frames still in flight.
pub struct ReleaseHold<T, S> {
    held: Vec<(u64, T)>,
    frames: Vec<(u64, S)>,
}

impl<T, S> View for ReleaseHold<T, S> {
    type V = Holding<T, S>;

    closed spec fn view(&self) -> Holding<T, S> {
        Holding { held: self.held@, frames: self.frames@ }
    }
}

impl<T, S> ReleaseHold<T, S> {
    pub open spec fn wf(&self) -> bool {
        self@.consistent()
    }

    pub fn new() -> (hold: ReleaseHold<T, S>)
        ensures
            hold.wf(),
            hold@ == Holding::<T, S>::empty(),
    {
        ReleaseHold { held: Vec::new(), frames: Vec::with_capacity(MAX_FRAMES + 1) }
    }

    /// Holds `buffers` for the composited frame about to be queued as `flip`,
    /// whose GPU work completes at `sync`. `flip` is greater than every flip
    /// already held. Holds nothing, and records no frame, when `buffers` is
    /// empty. A frame past [`MAX_FRAMES`] waits out and releases the oldest.
    pub fn hold<W: Fn(&S) -> bool>(
        &mut self,
        flip: u64,
        sync: S,
        buffers: Vec<T>,
        wait: W,
    ) -> (released: Released<T>)
        requires
            old(self).wf(),
            forall|i: int|
                0 <= i < old(self)@.frames.len() ==> (#[trigger] old(self)@.frames[i]).0 < flip,
            old(self)@.frames.len() == MAX_FRAMES && buffers@.len() > 0 ==> call_requires(
                wait,
                (&old(self)@.frames[0].1,),
            ),
        ensures
            final(self).wf(),
            ({
                let step = old(self)@.holding(flip, sync, buffers@);
                &&& final(self)@ == step.hold
                &&& released.buffers@ == step.released
                &&& waited_out(wait, step.fences, released.waited@)
            }),
    {
        let ghost start = self@;
        let ghost all = buffers@;
        let mut buffers = buffers;
        if buffers.is_empty() {
            return Released { buffers: Vec::new(), waited: Vec::new() };
        }
        proof {
            lemma_adding_consistent(start, flip, sync, all);
        }
        tag_all(&mut self.held, flip, &mut buffers);
        self.frames.push((flip, sync));
        assert(self@ =~= start.adding(flip, sync, all));
        if self.frames.len() > MAX_FRAMES {
            let oldest: u64 = self.frames[0].0;
            proof {
                lemma_oldest_goes(self.frames@);
                lemma_after_consistent(self@, oldest, false);
            }
            let fences = take_going(&mut self.frames, oldest, false);
            let waited = wait_out(&fences, &wait);
            let buffers = take_going(&mut self.held, oldest, false);
            return Released { buffers, waited };
        }
        Released { buffers: Vec::new(), waited: Vec::new() }
    }

    /// `flip` reached the screen: everything held at or below it is released,
    /// each frame's render waited out first.
    pub fn flip_completed<W: Fn(&S) -> bool>(&mut self, flip: u64, wait: W) -> (released: Released<
        T,
    >)
        requires
            old(self).wf(),
            forall|i: int|
                0 <= i < going(old(self)@.frames, flip, false).len() ==> call_requires(
                    wait,
                    (&#[trigger] going(old(self)@.frames, flip, false)[i],),
                ),
        ensures
            final(self).wf(),
            final(self)@ == old(self)@.completing(flip).hold,
            released.buffers@ == old(self)@.completing(flip).released,
            waited_out(wait, old(self)@.completing(flip).fences, released.waited@),
    {
        proof {
            lemma_after_consistent(self@, flip, false);
        }
        let fences = take_going(&mut self.frames, flip, false);
        let waited = wait_out(&fences, &wait);
        let buffers = take_going(&mut self.held, flip, false);
        Released { buffers, waited }
    }

    /// `flip` will never reach the screen, but may still be read: waits out
    /// its render and releases what it held.
    pub fn release_frame<W: Fn(&S) -> bool>(&mut self, flip: u64, wait: W) -> (released: Released<
        T,
    >)
        requires
            old(self).wf(),
            forall|i: int|
                0 <= i < going(old(self)@.frames, flip, true).len() ==> call_requires(
                    wait,
                    (&#[trigger] going(old(self)@.frames, flip, true)[i],),
                ),
        ensures
            final(self).wf(),
            final(self)@ == old(self)@.withdrawing(flip).hold,
            released.buffers@ == old(self)@.withdrawing(flip).released,
            waited_out(wait, old(self)@.withdrawing(flip).fences, released.waited@),
    {
        proof {
            lemma_after_consistent(self@, flip, true);
        }
        let fences = take_going(&mut self.frames, flip, true);
        let waited = wait_out(&fences, &wait);
        let buffers = take_going(&mut self.held, flip, true);
        Released { buffers, waited }
    }

    /// `flip` will never be shown (its queue was refused): releases what it
    /// held at once, without a wait.
    pub fn discard_frame(&mut self, flip: u64) -> (buffers: Vec<T>)
        requires
            old(self).wf(),
        ensures
            final(self).wf(),
            final(self)@ == old(self)@.withdrawing(flip).hold,
            buffers@ == old(self)@.withdrawing(flip).released,
    {
        proof {
            lemma_after_consistent(self@, flip, true);
        }
        let fences = take_going(&mut self.frames, flip, true);
        take_going(&mut self.held, flip, true)
    }

    /// No held frame can be trusted to flip any more, and one may be on
    /// screen: waits out every held render and releases everything.
    pub fn release_all<W: Fn(&S) -> bool>(&mut self, wait: W) -> (released: Released<T>)
        requires
            old(self).wf(),
            forall|i: int|
                0 <= i < old(self)@.frames.len() ==> call_requires(
                    wait,
                    (&(#[trigger] old(self)@.frames[i]).1,),
                ),
        ensures
            final(self).wf(),
            final(self)@ == Holding::<T, S>::empty(),
            released.buffers@ == values(old(self)@.held),
            waited_out(wait, values(old(self)@.frames), released.waited@),
    {
        proof {
            lemma_everything_goes(self.frames@);
            lemma_everything_goes(self.held@);
            lemma_after_consistent(self@, u64::MAX, false);
        }
        let fences = take_going(&mut self.frames, u64::MAX, false);
        let waited = wait_out(&fences, &wait);
        let buffers = take_going(&mut self.held, u64::MAX, false);
        Released { buffers, waited }
    }

    /// Nothing held will be shown: releases everything at once, without a
    /// wait.
    pub fn discard_all(&mut self) -> (buffers: Vec<T>)
        requires
            old(self).wf(),
        ensures
            final(self).wf(),
            final(self)@ == Holding::<T, S>::empty(),
            buffers@ == values(old(self)@.held),
    {
        proof {
            lemma_everything_goes(self.held@);
        }
        self.frames.clear();
        take_going(&mut self.held, u64::MAX, false)
    }

    /// How many buffers are held.
    pub fn held(&self) -> (n: usize)
        ensures
            n == self@.held.len(),
    {
        self.held.len()
    }

    /// How many frames hold something.
    pub fn frames(&self) -> (n: usize)
        ensures
            n == self@.frames.len(),
    {
        self.frames.len()
    }
}

/// The values of tagged entries, in order.
pub open spec fn values<T>(entries: Seq<(u64, T)>) -> Seq<T> {
    Seq::new(entries.len(), |i: int| entries[i].1)
}

/// No number is past the largest.
proof fn lemma_everything_goes<T>(entries: Seq<(u64, T)>)
    ensures
        going(entries, u64::MAX, false) == values(entries),
        staying(entries, u64::MAX, false) == Seq::<(u64, T)>::empty(),
    decreases entries.len(),
{
    if entries.len() > 0 {
        lemma_everything_goes(entries.drop_last());
        assert(values(entries.drop_last()).push(entries.last().1) =~= values(entries));
    } else {
        assert(values(entries) =~= Seq::empty());
    }
}

/// Moves every buffer of `buffers` to the end of `held`, tagged with `flip`.
fn tag_all<T>(held: &mut Vec<(u64, T)>, flip: u64, buffers: &mut Vec<T>)
    ensures
        final(held)@ == old(held)@ + tagged(flip, old(buffers)@),
        final(buffers)@.len() == 0,
{
    let ghost all = buffers@;
    let ghost before = held@;
    while !buffers.is_empty()
        invariant
            buffers@.len() <= all.len(),
            buffers@ == all.skip(all.len() - buffers@.len()),
            held@ == before + tagged(flip, all.take(all.len() - buffers@.len())),
        decreases buffers@.len(),
    {
        let ghost done = all.len() - buffers@.len();
        let buffer = buffers.remove(0);
        held.push((flip, buffer));
        assert(buffers@ =~= all.skip(done + 1));
        assert(held@ =~= before + tagged(flip, all.take(done + 1)));
    }
    assert(all.take(all.len() as int) =~= all);
}

/// Every buffer either stays or is handed back, exactly once: none is lost
/// and none is released twice.
pub proof fn every_buffer_stays_or_is_handed_back<T>(held: Seq<(u64, T)>, flip: u64, exact: bool)
    ensures
        values(held).to_multiset() == values(staying(held, flip, exact)).to_multiset().add(
            going(held, flip, exact).to_multiset(),
        ),
    decreases held.len(),
{
    broadcast use vstd::seq_lib::group_to_multiset_ensures;

    if held.len() > 0 {
        let rest = held.drop_last();
        let last = held.last();
        every_buffer_stays_or_is_handed_back(rest, flip, exact);
        assert(values(held) =~= values(rest).push(last.1));
        if !goes(last.0, flip, exact) {
            assert(values(staying(held, flip, exact)) =~= values(staying(rest, flip, exact)).push(
                last.1,
            ));
        }
        assert(values(held).to_multiset() =~= values(
            staying(held, flip, exact),
        ).to_multiset().add(going(held, flip, exact).to_multiset()));
    } else {
        assert(values(held) =~= Seq::empty());
        assert(values(staying(held, flip, exact)) =~= Seq::empty());
        assert(values(held).to_multiset() =~= values(
            staying(held, flip, exact),
        ).to_multiset().add(going(held, flip, exact).to_multiset()));
    }
}

/// A completion that arrives again for frames already released changes
/// nothing and releases nothing.
pub proof fn a_repeated_completion_is_harmless<T>(held: Seq<(u64, T)>, flip: u64, exact: bool)
    ensures
        staying(staying(held, flip, exact), flip, exact) == staying(held, flip, exact),
        going(staying(held, flip, exact), flip, exact) == Seq::<T>::empty(),
    decreases held.len(),
{
    if held.len() > 0 {
        let rest = held.drop_last();
        a_repeated_completion_is_harmless(rest, flip, exact);
        if !goes(held.last().0, flip, exact) {
            let kept = staying(rest, flip, exact);
            assert(kept.push(held.last()).drop_last() =~= kept);
        }
    }
}

/// A flip that completes takes every entry up to its number with it, and none of a later frame; a
/// single frame that goes takes the entries of its own number, and no other. What stays and what
/// goes keep their order.
pub proof fn a_flip_takes_what_is_numbered_up_to_it<T>(held: Seq<(u64, T)>, flip: u64)
    ensures
        staying(held, flip, false) == held.filter(|entry: (u64, T)| entry.0 > flip),
        going(held, flip, false) == held.filter(|entry: (u64, T)| entry.0 <= flip).map_values(
            |entry: (u64, T)| entry.1,
        ),
        staying(held, flip, true) == held.filter(|entry: (u64, T)| entry.0 != flip),
        going(held, flip, true) == held.filter(|entry: (u64, T)| entry.0 == flip).map_values(
            |entry: (u64, T)| entry.1,
        ),
    decreases held.len(),
{
    reveal(Seq::filter);
    let value = |entry: (u64, T)| entry.1;
    if held.len() > 0 {
        let rest = held.drop_last();
        let last = held.last();
        a_flip_takes_what_is_numbered_up_to_it(rest, flip);
        let up_to = rest.filter(|entry: (u64, T)| entry.0 <= flip);
        let same = rest.filter(|entry: (u64, T)| entry.0 == flip);
        assert(up_to.push(last).map_values(value) =~= up_to.map_values(value).push(last.1));
        assert(same.push(last).map_values(value) =~= same.map_values(value).push(last.1));
    } else {
        assert(going(held, flip, false) =~= held.filter(
            |entry: (u64, T)| entry.0 <= flip,
        ).map_values(value));
        assert(going(held, flip, true) =~= held.filter(
            |entry: (u64, T)| entry.0 == flip,
        ).map_values(value));
    }
}

/// A frame that is held stands behind those already held: its fence under its number, and each of
/// its buffers, in order, under the same number.
pub proof fn a_held_frame_stands_behind_the_others<T, S>(
    hold: Holding<T, S>,
    flip: u64,
    sync: S,
    buffers: Seq<T>,
    i: int,
)
    ensures
        ({
            let added = hold.adding(flip, sync, buffers);
            let n = hold.held.len() as int;
            &&& added.frames == hold.frames.push((flip, sync))
            &&& added.held.len() == n + buffers.len()
            &&& added.held.take(n) == hold.held
            &&& 0 <= i < buffers.len() ==> added.held[n + i] == (flip, buffers[i])
        }),
{
    let added = hold.adding(flip, sync, buffers);
    assert(added.held.take(hold.held.len() as int) =~= hold.held);
}

/// Buffers and frames go together, by the same number.
pub proof fn buffers_go_with_their_frames<T, S>(
    hold: Holding<T, S>,
    flip: u64,
    exact: bool,
    buffer: (u64, T),
    frame: (u64, S),
)
    ensures
        ({
            let after = hold.after(flip, exact);
            let leaves = |number: u64| number == flip || !exact && number < flip;
            &&& after.held.contains(buffer) <==> hold.held.contains(buffer) && !leaves(buffer.0)
            &&& after.frames.contains(frame) <==> hold.frames.contains(frame) && !leaves(frame.0)
        }),
{
    what_stays(hold.held, flip, exact);
    what_stays(hold.frames, flip, exact);
}

/// Releasing everything hands back every buffer, in order; and two frames are in flight at most.
pub proof fn everything_is_handed_back_in_order<T>(entries: Seq<(u64, T)>, i: int)
    ensures
        values(entries).len() == entries.len(),
        0 <= i < entries.len() ==> values(entries)[i] == entries[i].1,
        MAX_FRAMES == 2,
{
}

/// Every fence is waited on, in order, each with its own answer.
pub proof fn every_fence_is_waited_on<S, W: Fn(&S) -> bool>(
    wait: W,
    fences: Seq<S>,
    waited: Seq<bool>,
    i: int,
)
    requires
        waited_out(wait, fences, waited),
    ensures
        waited.len() == fences.len(),
        0 <= i < fences.len() ==> call_ensures(wait, (&fences[i],), waited[i]),
{
}

/// A flip that completes hands back the buffers of every frame numbered up to it, after waiting on
/// each of those frames' fences, and leaves exactly the frames after it and their buffers.
pub proof fn a_completed_flip_releases_up_to_itself<T, S>(hold: Holding<T, S>, flip: u64)
    ensures
        ({
            let step = hold.completing(flip);
            &&& step.hold.held == hold.held.filter(|entry: (u64, T)| entry.0 > flip)
            &&& step.hold.frames == hold.frames.filter(|frame: (u64, S)| frame.0 > flip)
            &&& step.released == hold.held.filter(|entry: (u64, T)| entry.0 <= flip).map_values(
                |entry: (u64, T)| entry.1,
            )
            &&& step.fences == hold.frames.filter(|frame: (u64, S)| frame.0 <= flip).map_values(
                |frame: (u64, S)| frame.1,
            )
        }),
{
    a_flip_takes_what_is_numbered_up_to_it(hold.held, flip);
    a_flip_takes_what_is_numbered_up_to_it(hold.frames, flip);
}

/// A frame that is withdrawn hands back its own buffers, and leaves every other frame and its
/// buffers.
pub proof fn a_withdrawn_frame_releases_its_own<T, S>(hold: Holding<T, S>, flip: u64)
    ensures
        ({
            let step = hold.withdrawing(flip);
            &&& step.hold.held == hold.held.filter(|entry: (u64, T)| entry.0 != flip)
            &&& step.hold.frames == hold.frames.filter(|frame: (u64, S)| frame.0 != flip)
            &&& step.released == hold.held.filter(|entry: (u64, T)| entry.0 == flip).map_values(
                |entry: (u64, T)| entry.1,
            )
            &&& step.fences == hold.frames.filter(|frame: (u64, S)| frame.0 == flip).map_values(
                |frame: (u64, S)| frame.1,
            )
        }),
{
    a_flip_takes_what_is_numbered_up_to_it(hold.held, flip);
    a_flip_takes_what_is_numbered_up_to_it(hold.frames, flip);
}

/// A frame with buffers is held with all of them, as the newest. Of a hold that has room nothing is
/// handed back; of a full one the oldest frame is, exactly, after its fence is waited on: its
/// buffers, and no others. A frame without buffers leaves the hold as it was.
pub proof fn a_frame_past_the_bound_pushes_out_the_oldest<T, S>(
    hold: Holding<T, S>,
    flip: u64,
    sync: S,
    buffers: Seq<T>,
)
    requires
        hold.consistent(),
        forall|i: int| 0 <= i < hold.frames.len() ==> (#[trigger] hold.frames[i]).0 < flip,
    ensures
        ({
            let step = hold.holding(flip, sync, buffers);
            let all = hold.held + Seq::new(buffers.len(), |i: int| (flip, buffers[i]));
            &&& buffers.len() == 0 ==> step.hold == hold
            &&& buffers.len() == 0 || hold.frames.len() < 2 ==> step.released.len() == 0
                && step.fences.len() == 0
            &&& buffers.len() > 0 && hold.frames.len() < 2 ==> {
                &&& step.hold.held == all
                &&& step.hold.frames == hold.frames.push((flip, sync))
            }
            &&& buffers.len() > 0 && hold.frames.len() == 2 ==> {
                let oldest = hold.frames[0].0;
                &&& step.hold.frames == seq![hold.frames[1], (flip, sync)]
                &&& step.hold.held == all.filter(|entry: (u64, T)| entry.0 > oldest)
                &&& step.released == all.filter(|entry: (u64, T)| entry.0 <= oldest).map_values(
                    |entry: (u64, T)| entry.1,
                )
                &&& step.fences == seq![hold.frames[0].1]
            }
        }),
{
    let added = hold.adding(flip, sync, buffers);
    assert(tagged(flip, buffers) =~= Seq::new(buffers.len(), |i: int| (flip, buffers[i])));
    if buffers.len() > 0 && hold.frames.len() == 2 {
        lemma_adding_consistent(hold, flip, sync, buffers);
        lemma_oldest_goes(added.frames);
        assert(added.frames.drop_first() =~= seq![hold.frames[1], (flip, sync)]);
        a_flip_takes_what_is_numbered_up_to_it(added.held, hold.frames[0].0);
    }
}

/// Discarding everything hands back every held buffer, in the order it was held, and leaves
/// nothing held and no frame waiting.
pub proof fn discarding_everything_leaves_nothing_held<T, S>(
    hold: &mut ReleaseHold<T, S>,
    buffers: Vec<T>,
    i: int,
)
    requires
        old(hold).wf(),
        call_ensures(ReleaseHold::<T, S>::discard_all, (hold,), buffers),
    ensures
        final(hold)@.held.len() == 0,
        final(hold)@.frames.len() == 0,
        buffers@.len() == old(hold)@.held.len(),
        0 <= i < buffers@.len() ==> buffers@[i] == old(hold)@.held[i].1,
{
}

/// Releasing everything hands back every held buffer, in the order it was held, and leaves nothing
/// held and no frame waiting.
pub proof fn releasing_everything_leaves_nothing_held<T, S, W: Fn(&S) -> bool>(
    hold: &mut ReleaseHold<T, S>,
    wait: W,
    released: Released<T>,
    i: int,
)
    requires
        old(hold).wf(),
        call_ensures(ReleaseHold::<T, S>::release_all::<W>, (hold, wait), released),
    ensures
        final(hold)@.held.len() == 0,
        final(hold)@.frames.len() == 0,
        released.buffers@.len() == old(hold)@.held.len(),
        0 <= i < released.buffers@.len() ==> released.buffers@[i] == old(hold)@.held[i].1,
        released.waited@.len() == old(hold)@.frames.len(),
{
}

} // verus!
