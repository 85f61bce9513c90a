//! The scanout tranche: which advertised formats an output's primary plane
//! would take as a client framebuffer, and which surface is told so.
//!
//! The root surface of the fullscreen window covering an output is steered
//! with a feedback that puts the scanout tranche first, while the output's
//! frame is eligible for direct scanout. A client reallocates on every change
//! it acts on, so feedback is sent on a change and never per frame, and an
//! ineligibility that may be transient is held for a while before it reverts
//! anything.

use crate::dmabuf::formats::{
    bits_of, opaque_of, Format, FormatSet, FormatTable, TableRow, INVALID, LINEAR,
};
use vstd::prelude::*;

verus! {

/// How long the window covering an output may stay ineligible before the next
/// drawn frame steers it back to the default feedback, in nanoseconds.
pub const REVERT_HOLD: u64 = 2_000_000_000;

/// An advertised format, with what the format table knows of its fourcc: the
/// fourcc of its opaque twin, and whether it is a single-plane packed format.
#[derive(Clone, Copy, Debug, PartialEq, Eq, Structural)]
pub struct TableEntry {
    pub format: Format,
    pub opaque: Option<u32>,
    pub single_plane: bool,
}

/// The fourcc that a framebuffer of `entry` has: an alpha format is added as
/// its opaque twin.
pub open spec fn framebuffer_code(entry: TableEntry) -> u32 {
    match entry.opaque {
        Some(code) => code,
        None => entry.format.code,
    }
}

/// A packed format whose pixel is a whole number of bytes.
pub open spec fn is_single_plane(bits_per_pixel: Option<usize>) -> bool {
    bits_per_pixel is Some && bits_per_pixel->0 % 8 == 0
}

/// `plane` names an explicit layout of `code`.
pub open spec fn names_layout(plane: Seq<Format>, code: u32) -> bool {
    exists|i: int|
        0 <= i < plane.len() && (#[trigger] plane[i]).code == code && plane[i].modifier != INVALID
}

/// Whether a client buffer of `entry`'s format would pass the format check of
/// a primary plane that lists `plane`, given the modifiers that were `lost`.
pub open spec fn taken(entry: TableEntry, plane: Seq<Format>, lost: Seq<u64>) -> bool {
    let code = framebuffer_code(entry);
    let modifier = entry.format.modifier;
    if modifier == INVALID {
        false
    } else if modifier == LINEAR {
        ||| plane.contains(Format { code, modifier: LINEAR })
        ||| entry.single_plane && plane.contains(
            Format { code, modifier: INVALID },
        ) && !names_layout(plane, code)
    } else {
        !lost.contains(modifier) && plane.contains(Format { code, modifier })
    }
}

/// The advertised formats that are taken, in their order.
pub open spec fn taken_of(advertised: Seq<TableEntry>, plane: Seq<Format>, lost: Seq<u64>) -> Seq<
    Format,
>
    decreases advertised.len(),
{
    if advertised.len() == 0 {
        Seq::empty()
    } else {
        let rest = taken_of(advertised.drop_last(), plane, lost);
        if taken(advertised.last(), plane, lost) {
            rest.push(advertised.last().format)
        } else {
            rest
        }
    }
}

/// Whether `code` is a single-plane packed format: one that the format table
/// knows the bits per pixel of, which are whole bytes.
pub fn single_plane(code: u32, table: &FormatTable) -> (packed: bool)
    ensures
        packed == is_single_plane(bits_of(table@, code)),
{
    match table.bits(code) {
        Some(bits) => bits % 8 == 0,
        None => false,
    }
}

fn contains_modifier(lost: &Vec<u64>, modifier: u64) -> (found: bool)
    ensures
        found == lost@.contains(modifier),
{
    let mut i: usize = 0;
    while i < lost.len()
        invariant
            i <= lost@.len(),
            forall|j: int| 0 <= j < i ==> lost@[j] != modifier,
        decreases lost@.len() - i,
    {
        if lost[i] == modifier {
            assert(lost@[i as int] == modifier);
            return true;
        }
        i += 1;
    }
    false
}

fn lists_explicit(plane: &FormatSet, code: u32) -> (found: bool)
    ensures
        found == names_layout(plane@, code),
{
    let formats = plane.formats();
    let mut i: usize = 0;
    while i < formats.len()
        invariant
            i <= formats@.len(),
            formats@ == plane@,
            forall|j: int|
                0 <= j < i ==> !((#[trigger] formats@[j]).code == code && formats@[j].modifier
                    != INVALID),
        decreases formats@.len() - i,
    {
        if formats[i].code == code && formats[i].modifier != INVALID {
            assert(plane@[i as int].code == code);
            return true;
        }
        i += 1;
    }
    false
}

/// Whether a client buffer of `entry`'s format would pass the primary plane's
/// format check.
pub fn entry_taken(entry: TableEntry, plane: &FormatSet, lost: &Vec<u64>) -> (takes: bool)
    ensures
        takes == taken(entry, plane@, lost@),
{
    let code: u32 = match entry.opaque {
        Some(code) => code,
        None => entry.format.code,
    };
    let modifier: u64 = entry.format.modifier;
    if modifier == INVALID {
        false
    } else if modifier == LINEAR {
        if plane.contains(Format { code, modifier: LINEAR }) {
            return true;
        }
        entry.single_plane && plane.contains(Format { code, modifier: INVALID })
            && !lists_explicit(plane, code)
    } else {
        !contains_modifier(lost, modifier) && plane.contains(Format { code, modifier })
    }
}

/// `format` with what the format table knows of its fourcc.
pub open spec fn entry_of(table: Map<u32, TableRow>, format: Format) -> TableEntry {
    TableEntry {
        format,
        opaque: opaque_of(table, format.code),
        single_plane: is_single_plane(bits_of(table, format.code)),
    }
}

/// `formats`, each with what the format table knows of its fourcc.
pub open spec fn entries_of(table: Map<u32, TableRow>, formats: Seq<Format>) -> Seq<TableEntry> {
    formats.map_values(|format: Format| entry_of(table, format))
}

/// The scanout tranche of what is advertised.
pub open spec fn tranche_of(
    table: Map<u32, TableRow>,
    advertised: Seq<Format>,
    plane: Seq<Format>,
    lost: Seq<u64>,
) -> Seq<Format> {
    taken_of(entries_of(table, advertised), plane, lost)
}

/// Whether a client buffer of `format` would pass the primary plane's format
/// check.
pub fn plane_takes(format: Format, plane: &FormatSet, lost: &Vec<u64>, table: &FormatTable) -> (takes:
    bool)
    ensures
        takes == taken(entry_of(table@, format), plane@, lost@),
{
    let entry = TableEntry {
        format,
        opaque: table.opaque(format.code),
        single_plane: single_plane(format.code, table),
    };
    entry_taken(entry, plane, lost)
}

/// The scanout tranche: every advertised format, in order, that the primary
/// plane would take.
pub fn scanout_tranche(
    advertised: &Vec<Format>,
    plane: &FormatSet,
    lost: &Vec<u64>,
    table: &FormatTable,
) -> (tranche: Vec<Format>)
    ensures
        tranche@ == tranche_of(table@, advertised@, plane@, lost@),
{
    let mut tranche: Vec<Format> = Vec::new();
    let mut i: usize = 0;
    let ghost entries = entries_of(table@, advertised@);
    assert(entries.take(0) =~= Seq::empty());
    while i < advertised.len()
        invariant
            i <= advertised@.len(),
            entries == entries_of(table@, advertised@),
            tranche@ == taken_of(entries.take(i as int), plane@, lost@),
        decreases advertised@.len() - i,
    {
        proof {
            assert(entries.take(i + 1).drop_last() =~= entries.take(i as int));
            assert(entries.take(i + 1).last() == entry_of(table@, advertised@[i as int]));
        }
        if plane_takes(advertised[i], plane, lost, table) {
            tranche.push(advertised[i]);
        }
        i += 1;
    }
    assert(entries.take(i as int) =~= entries);
    tranche
}

/// `part` is a subsequence of `whole`.
pub open spec fn in_order(part: Seq<Format>, whole: Seq<TableEntry>) -> bool
    decreases whole.len(),
{
    if part.len() == 0 {
        true
    } else if whole.len() == 0 {
        false
    } else {
        ||| in_order(part, whole.drop_last())
        ||| part.last() == whole.last().format && in_order(part.drop_last(), whole.drop_last())
    }
}

/// The tranche is a subset of the advertised table, in the table's order, so
/// nothing reaches it that is not already offered.
pub proof fn the_tranche_is_an_ordered_subset(
    advertised: Seq<TableEntry>,
    plane: Seq<Format>,
    lost: Seq<u64>,
)
    ensures
        in_order(taken_of(advertised, plane, lost), advertised),
    decreases advertised.len(),
{
    if advertised.len() > 0 {
        let rest = advertised.drop_last();
        the_tranche_is_an_ordered_subset(rest, plane, lost);
        if taken(advertised.last(), plane, lost) {
            let part = taken_of(advertised, plane, lost);
            assert(part.drop_last() =~= taken_of(rest, plane, lost));
        }
    }
}

/// Every entry of the tranche is an advertised one that the plane takes; none
/// is an implicit layout, and none a lost one but `LINEAR`.
pub proof fn the_tranche_holds_only_what_the_plane_takes(
    advertised: Seq<TableEntry>,
    plane: Seq<Format>,
    lost: Seq<u64>,
    format: Format,
)
    requires
        taken_of(advertised, plane, lost).contains(format),
    ensures
        format.modifier != INVALID,
        format.modifier != LINEAR ==> !lost.contains(format.modifier),
        exists|i: int|
            0 <= i < advertised.len() && (#[trigger] advertised[i]).format == format && taken(
                advertised[i],
                plane,
                lost,
            ),
    decreases advertised.len(),
{
    if advertised.len() > 0 {
        let rest = advertised.drop_last();
        let part = taken_of(advertised, plane, lost);
        let k = choose|k: int| 0 <= k < part.len() && part[k] == format;
        if k < taken_of(rest, plane, lost).len() {
            assert(taken_of(rest, plane, lost)[k] == format);
            the_tranche_holds_only_what_the_plane_takes(rest, plane, lost, format);
            let i = choose|i: int|
                0 <= i < rest.len() && (#[trigger] rest[i]).format == format && taken(
                    rest[i],
                    plane,
                    lost,
                );
            assert(advertised[i].format == format);
        } else {
            assert(advertised[advertised.len() - 1].format == format);
        }
    }
}

/// Nothing the plane takes is left out.
pub proof fn the_tranche_holds_everything_the_plane_takes(
    advertised: Seq<TableEntry>,
    plane: Seq<Format>,
    lost: Seq<u64>,
    i: int,
)
    requires
        0 <= i < advertised.len(),
        taken(advertised[i], plane, lost),
    ensures
        taken_of(advertised, plane, lost).contains(advertised[i].format),
    decreases advertised.len(),
{
    let rest = advertised.drop_last();
    let part = taken_of(advertised, plane, lost);
    let before = taken_of(rest, plane, lost);
    if i < rest.len() {
        the_tranche_holds_everything_the_plane_takes(rest, plane, lost, i);
        let k = choose|k: int| 0 <= k < before.len() && before[k] == rest[i].format;
        assert(part[k] == advertised[i].format);
    } else {
        assert(part[before.len() as int] == advertised[i].format);
    }
}

/// One more lost modifier takes exactly its entries off the tranche, and
/// `LINEAR` is never lost.
pub proof fn a_lost_modifier_takes_its_entries_only(
    advertised: Seq<TableEntry>,
    plane: Seq<Format>,
    lost: Seq<u64>,
    modifier: u64,
)
    ensures
        modifier != LINEAR ==> taken_of(advertised, plane, lost.push(modifier)) == taken_of(
            advertised,
            plane,
            lost,
        ).filter(|format: Format| format.modifier != modifier),
        modifier == LINEAR ==> taken_of(advertised, plane, lost.push(modifier)) == taken_of(
            advertised,
            plane,
            lost,
        ),
    decreases advertised.len(),
{
    reveal(Seq::filter);
    let keeps = |format: Format| format.modifier != modifier;
    let more = lost.push(modifier);
    assert forall|m: u64| more.contains(m) <==> lost.contains(m) || m == modifier by {
        if lost.contains(m) {
            let i = choose|i: int| 0 <= i < lost.len() && lost[i] == m;
            assert(more[i] == m);
        }
        assert(more[lost.len() as int] == modifier);
        if more.contains(m) && m != modifier {
            let i = choose|i: int| 0 <= i < more.len() && more[i] == m;
            assert(lost[i] == m);
        }
    }
    if advertised.len() > 0 {
        let earlier = advertised.drop_last();
        let last = advertised.last();
        a_lost_modifier_takes_its_entries_only(earlier, plane, lost, modifier);
        let before = taken_of(earlier, plane, lost);
        assert(before.push(last.format).drop_last() =~= before);
    }
}

/// The tranche is an ordered part of what is advertised, without an implicit
/// layout; a modifier that is lost in addition takes exactly its own entries
/// off it, and `LINEAR` none.
pub proof fn the_tranche_shrinks_by_what_is_lost(
    table: Map<u32, TableRow>,
    advertised: Seq<Format>,
    plane: Seq<Format>,
    lost: Seq<u64>,
    modifier: u64,
)
    ensures
        ({
            let tranche = tranche_of(table, advertised, plane, lost);
            let fewer = tranche_of(table, advertised, plane, lost.push(modifier));
            &&& is_part_of(tranche, advertised)
            &&& forall|i: int|
                0 <= i < tranche.len() ==> (#[trigger] tranche[i]).modifier != INVALID
            &&& modifier != LINEAR ==> fewer == tranche.filter(
                |format: Format| format.modifier != modifier,
            )
            &&& modifier == LINEAR ==> fewer == tranche
        }),
{
    let entries = entries_of(table, advertised);
    let tranche = tranche_of(table, advertised, plane, lost);
    a_lost_modifier_takes_its_entries_only(entries, plane, lost, modifier);
    the_tranche_is_an_ordered_subset(entries, plane, lost);
    lemma_part_of_formats(tranche, entries, advertised);
    assert forall|i: int| 0 <= i < tranche.len() implies (#[trigger] tranche[i]).modifier
        != INVALID by {
        assert(tranche.contains(tranche[i]));
        the_tranche_holds_only_what_the_plane_takes(entries, plane, lost, tranche[i]);
    }
}

/// `part` is a subsequence of `whole`.
pub open spec fn is_part_of(part: Seq<Format>, whole: Seq<Format>) -> bool
    decreases whole.len(),
{
    if part.len() == 0 {
        true
    } else if whole.len() == 0 {
        false
    } else {
        ||| is_part_of(part, whole.drop_last())
        ||| part.last() == whole.last() && is_part_of(part.drop_last(), whole.drop_last())
    }
}

proof fn lemma_part_of_formats(part: Seq<Format>, entries: Seq<TableEntry>, formats: Seq<Format>)
    requires
        entries.len() == formats.len(),
        forall|i: int| 0 <= i < entries.len() ==> (#[trigger] entries[i]).format == formats[i],
        in_order(part, entries),
    ensures
        is_part_of(part, formats),
    decreases entries.len(),
{
    if part.len() > 0 && entries.len() > 0 {
        let rest = entries.drop_last();
        assert(entries[entries.len() - 1].format == formats[entries.len() - 1]);
        assert forall|i: int| 0 <= i < rest.len() implies (#[trigger] rest[i]).format
            == formats.drop_last()[i] by {
            assert(entries[i].format == formats[i]);
        }
        if in_order(part, rest) {
            lemma_part_of_formats(part, rest, formats.drop_last());
        } else {
            lemma_part_of_formats(part.drop_last(), rest, formats.drop_last());
        }
    }
}

/// Builds the per-surface scanout feedback, answering its handle: nothing when
/// the tranche is empty, when the display device has no name, or when `make`
/// cannot make it. `make` is asked only of a tranche that is not empty, on a
/// device that has a name.
pub fn build<M: FnOnce(u64, Vec<Format>) -> Option<u64>>(
    advertised: &Vec<Format>,
    plane: &FormatSet,
    lost: &Vec<u64>,
    device: Option<u64>,
    table: &FormatTable,
    make: M,
) -> (feedback: Option<u64>)
    requires
        device is Some ==> forall|tranche: Vec<Format>|
            tranche@.len() > 0 && tranche@ == tranche_of(table@, advertised@, plane@, lost@)
                ==> #[trigger] call_requires(make, (device->0, tranche)),
    ensures
        ({
            let tranche = tranche_of(table@, advertised@, plane@, lost@);
            if tranche.len() == 0 || device is None {
                feedback is None
            } else {
                exists|handed: Vec<Format>|
                    handed@ == tranche && #[trigger] call_ensures(
                        make,
                        (device->0, handed),
                        feedback,
                    )
            }
        }),
{
    let tranche = scanout_tranche(advertised, plane, lost, table);
    if tranche.is_empty() {
        return None;
    }
    match device {
        None => None,
        Some(device) => make(device, tranche),
    }
}

/// Which plane set and lost-modifier record a scanout tranche was built from.
#[derive(Clone, Copy, Debug, PartialEq, Eq, Structural)]
pub struct FormatsKey {
    /// Moved by every CRTC switch.
    pub planes: u64,
    /// Moved by every modifier the exporter newly refuses.
    pub lost: u64,
}

/// What one frame's steering did.
#[derive(Clone, Copy, Debug, PartialEq, Eq, Structural)]
pub enum Steer {
    /// Nothing to do: no target and none wanted, or nothing to steer with.
    Idle,
    /// The target already holds the scanout feedback and still should.
    Kept,
    /// A new target was sent the scanout feedback, and any previous one
    /// reverted.
    Sent,
    /// The target still covers the output but is not eligible; it keeps the
    /// scanout feedback until [`REVERT_HOLD`] has passed.
    Holding,
    /// The target was sent the default feedback back.
    Reverted,
}

/// One feedback to hand to one surface.
#[derive(Clone, Copy, Debug, PartialEq, Eq, Structural)]
pub struct Send {
    pub surface: u64,
    pub feedback: u64,
}

/// The scanout feedback one output's covering window is steered with, and
/// which surface currently holds it.
#[derive(Clone, Copy, Debug, PartialEq, Eq)]
pub struct ScanoutFeedback {
    /// The key the feedback was built for, and its handle; no handle when
    /// nothing can be steered with, which is kept too.
    pub built: Option<(FormatsKey, Option<u64>)>,
    /// The surface the scanout feedback was last sent to.
    pub target: Option<u64>,
    /// When the target, still covering, was first seen ineligible.
    pub held_since: Option<u64>,
}

/// What steering or installing does: the tracker afterwards, what it answers,
/// what it hands out, and whether it read the clock.
#[verifier::ext_equal]
pub struct SteerStep {
    pub tracker: ScanoutFeedback,
    pub steer: Steer,
    pub sends: Seq<Send>,
    pub reads_clock: bool,
}

impl ScanoutFeedback {
    /// A tracker that has steered nothing.
    pub open spec fn fresh() -> ScanoutFeedback {
        ScanoutFeedback { built: None, target: None, held_since: None }
    }

    /// The scanout feedback there is to steer with.
    pub open spec fn scanout(self) -> Option<u64> {
        match self.built {
            Some((_, feedback)) => feedback,
            None => None,
        }
    }

    /// Whether the cached feedback, or the lack of one, is for `key`.
    pub open spec fn built_for(self, key: FormatsKey) -> bool {
        match self.built {
            Some((built, _)) => built == key,
            None => false,
        }
    }

    /// The tracker without a target.
    pub open spec fn forgetting(self) -> ScanoutFeedback {
        ScanoutFeedback { target: None, held_since: None, ..self }
    }

    /// What telling the target the default feedback hands out.
    pub open spec fn reverting(self, default: Option<u64>) -> Seq<Send> {
        if self.target is Some && default is Some {
            seq![Send { surface: self.target->0, feedback: default->0 }]
        } else {
            Seq::empty()
        }
    }

    /// The tracker with a dead target forgotten.
    pub open spec fn noticing(self, alive: bool) -> ScanoutFeedback {
        if self.target is Some && !alive {
            self.forgetting()
        } else {
            self
        }
    }
}

/// One frame's steering of a live tracker at time `now`.
pub open spec fn steer_live(
    tracker: ScanoutFeedback,
    covering: Option<u64>,
    eligible: bool,
    default: Option<u64>,
    now: u64,
) -> SteerStep {
    if tracker.scanout() is None {
        SteerStep { tracker, steer: Steer::Idle, sends: Seq::empty(), reads_clock: false }
    } else if covering is Some && eligible {
        if tracker.target == covering {
            SteerStep {
                tracker: ScanoutFeedback { held_since: None, ..tracker },
                steer: Steer::Kept,
                sends: Seq::empty(),
                reads_clock: false,
            }
        } else {
            SteerStep {
                tracker: ScanoutFeedback { target: covering, held_since: None, ..tracker },
                steer: Steer::Sent,
                sends: tracker.reverting(default).push(
                    Send { surface: covering->0, feedback: tracker.scanout()->0 },
                ),
                reads_clock: false,
            }
        }
    } else if covering is Some && tracker.target == covering {
        let since = match tracker.held_since {
            Some(since) => since,
            None => now,
        };
        if now - since < REVERT_HOLD {
            SteerStep {
                tracker: ScanoutFeedback { held_since: Some(since), ..tracker },
                steer: Steer::Holding,
                sends: Seq::empty(),
                reads_clock: true,
            }
        } else {
            SteerStep {
                tracker: tracker.forgetting(),
                steer: Steer::Reverted,
                sends: tracker.reverting(default),
                reads_clock: true,
            }
        }
    } else if tracker.target is None {
        SteerStep { tracker, steer: Steer::Idle, sends: Seq::empty(), reads_clock: false }
    } else {
        SteerStep {
            tracker: tracker.forgetting(),
            steer: Steer::Reverted,
            sends: tracker.reverting(default),
            reads_clock: false,
        }
    }
}

/// One frame's steering: a dead target is forgotten first.
pub open spec fn steer_step(
    tracker: ScanoutFeedback,
    covering: Option<u64>,
    eligible: bool,
    default: Option<u64>,
    alive: bool,
    now: u64,
) -> SteerStep {
    steer_live(tracker.noticing(alive), covering, eligible, default, now)
}

/// What installing a feedback built for `key` does: a live target moves onto
/// it, or back to the default when there is nothing to steer with.
pub open spec fn install_step(
    tracker: ScanoutFeedback,
    key: FormatsKey,
    feedback: Option<u64>,
    default: Option<u64>,
    alive: bool,
) -> (ScanoutFeedback, Seq<Send>) {
    let built = ScanoutFeedback { built: Some((key, feedback)), ..tracker };
    if tracker.target is None || !alive {
        (built, Seq::empty())
    } else {
        match feedback {
            Some(scanout) => (
                built,
                seq![Send { surface: tracker.target->0, feedback: scanout }],
            ),
            None => (built.forgetting(), tracker.reverting(default)),
        }
    }
}

/// Whether a frame's steering may read the clock: there is something to steer
/// with, the target may be alive and still covers, and the frame is not
/// eligible.
pub open spec fn may_read_clock<A: FnOnce(u64) -> bool>(
    tracker: ScanoutFeedback,
    covering: Option<u64>,
    eligible: bool,
    is_alive: A,
) -> bool {
    &&& tracker.scanout() is Some
    &&& covering is Some
    &&& tracker.target == covering
    &&& !eligible
    &&& call_ensures(is_alive, (covering->0,), true)
}

impl ScanoutFeedback {
    pub fn new() -> (tracker: ScanoutFeedback)
        ensures
            tracker == ScanoutFeedback::fresh(),
    {
        ScanoutFeedback { built: None, target: None, held_since: None }
    }

    /// Whether the cached feedback was built for anything but `key`.
    pub fn needs_build(&self, key: FormatsKey) -> (needs: bool)
        ensures
            needs == !self.built_for(key),
    {
        match self.built {
            Some((built, _)) => built != key,
            None => true,
        }
    }

    /// Caches `feedback` as the scanout feedback for `key`, and moves a
    /// current target onto it. `is_alive` is asked of the target, if there is
    /// one.
    pub fn install<A: FnOnce(u64) -> bool>(
        &mut self,
        key: FormatsKey,
        feedback: Option<u64>,
        default: Option<u64>,
        is_alive: A,
    ) -> (sends: Vec<Send>)
        requires
            old(self).target is Some ==> call_requires(is_alive, (old(self).target->0,)),
        ensures
            exists|alive: bool|
                {
                    &&& old(self).target is Some ==> call_ensures(
                        is_alive,
                        (old(self).target->0,),
                        alive,
                    )
                    &&& (*final(self), sends@) == #[trigger] install_step(
                        *old(self),
                        key,
                        feedback,
                        default,
                        alive,
                    )
                },
    {
        let mut sends: Vec<Send> = Vec::new();
        let ghost mut live: bool = false;
        if let Some(surface) = self.target {
            let alive: bool = is_alive(surface);
            proof {
                live = alive;
            }
            if alive {
                match feedback {
                    Some(scanout) => {
                        sends.push(Send { surface, feedback: scanout });
                    },
                    None => {
                        if let Some(default) = default {
                            sends.push(Send { surface, feedback: default });
                        }
                        self.target = None;
                        self.held_since = None;
                    },
                }
            }
        }
        self.built = Some((key, feedback));
        proof {
            let step = install_step(*old(self), key, feedback, default, live);
            assert(sends@ =~= step.1);
        }
        sends
    }

    /// Tells the current target the default feedback, and forgets it.
    fn revert(&mut self, default: Option<u64>, sends: &mut Vec<Send>)
        ensures
            *final(self) == old(self).forgetting(),
            final(sends)@ == old(sends)@ + old(self).reverting(default),
    {
        if let Some(surface) = self.target {
            if let Some(default) = default {
                sends.push(Send { surface, feedback: default });
            }
        }
        self.target = None;
        self.held_since = None;
        assert(sends@ =~= old(sends)@ + old(self).reverting(default));
    }

    /// One frame's steering: `covering` is the root surface of the window
    /// covering the output, `eligible` whether this frame may go direct, and
    /// `default` the feedback to revert to. `is_alive` is asked of the
    /// target, if there is one, and `now` (in nanoseconds) is read only while
    /// a revert is being held.
    pub fn steer<A: FnOnce(u64) -> bool, N: FnOnce() -> u64>(
        &mut self,
        covering: Option<u64>,
        eligible: bool,
        default: Option<u64>,
        is_alive: A,
        now: N,
    ) -> (steered: (Steer, Vec<Send>))
        requires
            old(self).target is Some ==> call_requires(is_alive, (old(self).target->0,)),
            may_read_clock(*old(self), covering, eligible, is_alive) ==> call_requires(now, ()),
        ensures
            exists|alive: bool, time: u64|
                {
                    let step = #[trigger] steer_step(
                        *old(self),
                        covering,
                        eligible,
                        default,
                        alive,
                        time,
                    );
                    &&& old(self).target is Some ==> call_ensures(
                        is_alive,
                        (old(self).target->0,),
                        alive,
                    )
                    &&& step.reads_clock ==> call_ensures(now, (), time)
                    &&& *final(self) == step.tracker
                    &&& steered.0 == step.steer
                    &&& steered.1@ == step.sends
                },
    {
        let ghost start = *self;
        let ghost mut live: bool = true;
        let mut sends: Vec<Send> = Vec::new();
        if let Some(target) = self.target {
            let alive: bool = is_alive(target);
            proof {
                live = alive;
            }
            if !alive {
                self.target = None;
                self.held_since = None;
            }
        }
        let ghost noticed = *self;
        assert(noticed == start.noticing(live));
        let scanout: u64 = match self.built {
            Some((_, Some(scanout))) => scanout,
            _ => {
                assert(steer_step(start, covering, eligible, default, live, 0).steer
                    == Steer::Idle);
                return (Steer::Idle, sends);
            },
        };
        let holds: bool = match (covering, self.target) {
            (Some(surface), Some(target)) => surface == target,
            _ => false,
        };
        if let Some(surface) = covering {
            if eligible {
                if holds {
                    self.held_since = None;
                    assert(steer_step(start, covering, eligible, default, live, 0).steer
                        == Steer::Kept);
                    return (Steer::Kept, sends);
                }
                self.revert(default, &mut sends);
                sends.push(Send { surface, feedback: scanout });
                self.target = Some(surface);
                proof {
                    let step = steer_step(start, covering, eligible, default, live, 0);
                    assert(sends@ =~= step.sends);
                    assert(*self == step.tracker);
                }
                return (Steer::Sent, sends);
            }
            if holds {
                let time: u64 = now();
                let since: u64 = match self.held_since {
                    Some(since) => since,
                    None => time,
                };
                self.held_since = Some(since);
                if time.saturating_sub(since) < REVERT_HOLD {
                    assert(steer_step(start, covering, eligible, default, live, time).steer
                        == Steer::Holding);
                    return (Steer::Holding, sends);
                }
                self.revert(default, &mut sends);
                proof {
                    let step = steer_step(start, covering, eligible, default, live, time);
                    assert(sends@ =~= step.sends);
                    assert(*self == step.tracker);
                }
                return (Steer::Reverted, sends);
            }
        }
        if self.target.is_none() {
            assert(steer_step(start, covering, eligible, default, live, 0).steer == Steer::Idle);
            return (Steer::Idle, sends);
        }
        self.revert(default, &mut sends);
        proof {
            let step = steer_step(start, covering, eligible, default, live, 0);
            assert(sends@ =~= step.sends);
            assert(*self == step.tracker);
        }
        (Steer::Reverted, sends)
    }

    /// The scanout feedback, if `surface` is the one currently steered with
    /// it.
    pub fn for_new_surface(&self, surface: u64) -> (feedback: Option<u64>)
        ensures
            feedback == if self.target == Some(surface) {
                self.scanout()
            } else {
                None
            },
    {
        match self.target {
            Some(target) => {
                if target != surface {
                    return None;
                }
            },
            None => {
                return None;
            },
        }
        match self.built {
            Some((_, feedback)) => feedback,
            None => None,
        }
    }
}

/// Feedback is handed out on a change and never per frame: a frame that keeps,
/// holds or has nothing to do hands out nothing, and the frame after one that
/// sent, if nothing changed, keeps.
pub proof fn feedback_is_sent_on_a_change_only(
    tracker: ScanoutFeedback,
    covering: Option<u64>,
    eligible: bool,
    default: Option<u64>,
    alive: bool,
    now: u64,
    later: u64,
)
    ensures
        ({
            let step = steer_step(tracker, covering, eligible, default, alive, now);
            let next = steer_step(step.tracker, covering, eligible, default, true, later);
            &&& step.steer is Idle || step.steer is Kept || step.steer is Holding
                ==> step.sends.len() == 0
            &&& step.steer is Sent || step.steer is Kept ==> next.steer is Kept
                && next.sends.len() == 0
            &&& step.steer is Reverted ==> next.steer is Idle && next.sends.len() == 0
        }),
{
}

/// A surface that stops being the target while it is alive is told the
/// default feedback, so no surface is left on a tranche that is not its own;
/// and the new target, if any, is told the scanout feedback.
pub proof fn a_surface_that_stops_being_the_target_is_reverted(
    tracker: ScanoutFeedback,
    covering: Option<u64>,
    eligible: bool,
    default: Option<u64>,
    now: u64,
)
    requires
        default is Some,
    ensures
        ({
            let step = steer_step(tracker, covering, eligible, default, true, now);
            &&& tracker.target is Some && step.tracker.target != tracker.target
                ==> step.sends.contains(
                Send { surface: tracker.target->0, feedback: default->0 },
            )
            &&& step.tracker.target is Some && step.tracker.target != tracker.target ==> {
                &&& step.tracker.target == covering
                &&& eligible
                &&& step.sends.last() == (Send {
                    surface: covering->0,
                    feedback: tracker.scanout()->0,
                })
            }
        }),
{
    let step = steer_step(tracker, covering, eligible, default, true, now);
    if tracker.target is Some && step.tracker.target != tracker.target {
        assert(tracker.reverting(default)[0] == (Send {
            surface: tracker.target->0,
            feedback: default->0,
        }));
        assert(step.sends[0] == tracker.reverting(default)[0]);
    }
}

/// The window covering the output is not reverted before it has been
/// ineligible for [`REVERT_HOLD`], is at the first frame after that, and an
/// eligible frame in between starts the wait again.
pub proof fn a_transient_ineligibility_is_held(
    tracker: ScanoutFeedback,
    default: Option<u64>,
    since: u64,
    now: u64,
)
    requires
        tracker.scanout() is Some,
        tracker.target is Some,
        tracker.held_since == Some(since),
    ensures
        ({
            let step = steer_step(tracker, tracker.target, false, default, true, now);
            &&& now - since < REVERT_HOLD ==> step.steer is Holding && step.tracker == tracker
            &&& now - since >= REVERT_HOLD ==> step.steer is Reverted && step.tracker.target is None
        }),
        steer_step(tracker, tracker.target, true, default, true, now).tracker.held_since is None,
{
}

/// A surface that is gone is forgotten and handed nothing.
pub proof fn a_dead_target_is_forgotten(
    tracker: ScanoutFeedback,
    covering: Option<u64>,
    eligible: bool,
    default: Option<u64>,
    now: u64,
)
    requires
        tracker.target is Some,
        covering != tracker.target,
    ensures
        ({
            let step = steer_step(tracker, covering, eligible, default, false, now);
            &&& step.tracker.target != tracker.target
            &&& forall|i: int|
                0 <= i < step.sends.len() ==> (#[trigger] step.sends[i]).surface
                    != tracker.target->0
        }),
{
}

/// The trackers of every output that has drawn a scanout frame.
pub type Trackers = Seq<(u64, ScanoutFeedback)>;

/// Where `output`'s tracker stands, or past the end.
pub open spec fn tracker_at(trackers: Trackers, output: u64) -> int
    decreases trackers.len(),
{
    if trackers.len() == 0 || trackers[0].0 == output {
        0
    } else {
        1 + tracker_at(trackers.drop_first(), output)
    }
}

/// `output`'s tracker, a fresh one if it has none.
pub open spec fn tracker_of(trackers: Trackers, output: u64) -> ScanoutFeedback {
    let at = tracker_at(trackers, output);
    if at < trackers.len() {
        trackers[at].1
    } else {
        ScanoutFeedback::fresh()
    }
}

/// The trackers with `output`'s replaced, or added at the end.
pub open spec fn with_tracker(trackers: Trackers, output: u64, tracker: ScanoutFeedback) -> Trackers {
    let at = tracker_at(trackers, output);
    if at < trackers.len() {
        trackers.update(at, (output, tracker))
    } else {
        trackers.push((output, tracker))
    }
}

/// The trackers without `output`'s.
pub open spec fn without_tracker(trackers: Trackers, output: u64) -> Trackers
    decreases trackers.len(),
{
    if trackers.len() == 0 {
        Seq::empty()
    } else {
        let rest = without_tracker(trackers.drop_last(), output);
        if trackers.last().0 == output {
            rest
        } else {
            rest.push(trackers.last())
        }
    }
}

/// The feedback of the first tracker that steers `surface` with one.
pub open spec fn answer_for(trackers: Trackers, surface: u64) -> Option<u64>
    decreases trackers.len(),
{
    if trackers.len() == 0 {
        None
    } else if trackers[0].1.target == Some(surface) && trackers[0].1.scanout() is Some {
        trackers[0].1.scanout()
    } else {
        answer_for(trackers.drop_first(), surface)
    }
}

/// `after` and `sends` are what refreshing `output`'s feedback for `key` may come to: nothing where
/// it was built for it, and otherwise what installing what `rebuild` answers does.
pub open spec fn refreshed_as<R: FnOnce() -> Option<u64>, A: FnOnce(u64) -> bool>(
    before: Trackers,
    after: Trackers,
    output: u64,
    key: FormatsKey,
    default: Option<u64>,
    rebuild: R,
    is_alive: A,
    sends: Seq<Send>,
) -> bool {
    let tracker = tracker_of(before, output);
    if tracker.built_for(key) {
        &&& after == with_tracker(before, output, tracker)
        &&& sends.len() == 0
    } else {
        exists|feedback: Option<u64>, alive: bool|
            {
                let step = #[trigger] install_step(tracker, key, feedback, default, alive);
                &&& call_ensures(rebuild, (), feedback)
                &&& tracker.target is Some ==> call_ensures(is_alive, (tracker.target->0,), alive)
                &&& after == with_tracker(before, output, step.0)
                &&& sends == step.1
            }
    }
}

/// `after`, `steer` and `sends` are what one frame's steering of `output` may come to.
pub open spec fn steered_as<A: FnOnce(u64) -> bool, N: FnOnce() -> u64>(
    before: Trackers,
    after: Trackers,
    output: u64,
    covering: Option<u64>,
    eligible: bool,
    default: Option<u64>,
    is_alive: A,
    now: N,
    steer: Steer,
    sends: Seq<Send>,
) -> bool {
    let tracker = tracker_of(before, output);
    exists|alive: bool, time: u64|
        {
            let step = #[trigger] steer_step(tracker, covering, eligible, default, alive, time);
            &&& tracker.target is Some ==> call_ensures(is_alive, (tracker.target->0,), alive)
            &&& step.reads_clock ==> call_ensures(now, (), time)
            &&& after == with_tracker(before, output, step.tracker)
            &&& steer == step.steer
            &&& sends == step.sends
        }
}

/// One tracker per output, made on an output's first frame.
pub struct ScanoutFeedbacks {
    outputs: Vec<(u64, ScanoutFeedback)>,
}

impl View for ScanoutFeedbacks {
    type V = Trackers;

    closed spec fn view(&self) -> Trackers {
        self.outputs@
    }
}

impl ScanoutFeedbacks {
    pub fn new() -> (feedbacks: ScanoutFeedbacks)
        ensures
            feedbacks@ == Trackers::empty(),
    {
        ScanoutFeedbacks { outputs: Vec::new() }
    }

    fn position(&self, output: u64) -> (at: usize)
        ensures
            at == tracker_at(self@, output),
            at <= self@.len(),
            at < self@.len() ==> self@[at as int].0 == output,
    {
        let mut at: usize = 0;
        assert(self.outputs@.skip(0) =~= self.outputs@);
        while at < self.outputs.len()
            invariant
                at <= self.outputs@.len(),
                tracker_at(self.outputs@, output) == at + tracker_at(
                    self.outputs@.skip(at as int),
                    output,
                ),
            decreases self.outputs@.len() - at,
        {
            if self.outputs[at].0 == output {
                return at;
            }
            assert(self.outputs@.skip(at as int).drop_first() =~= self.outputs@.skip(at + 1));
            at += 1;
        }
        at
    }

    /// `output`'s tracker, a fresh one if it has none.
    pub fn get(&self, output: u64) -> (tracker: ScanoutFeedback)
        ensures
            tracker == tracker_of(self@, output),
    {
        let at: usize = self.position(output);
        if at < self.outputs.len() {
            self.outputs[at].1
        } else {
            ScanoutFeedback::new()
        }
    }

    /// Puts `output`'s tracker back.
    fn put(&mut self, output: u64, tracker: ScanoutFeedback)
        ensures
            final(self)@ == with_tracker(old(self)@, output, tracker),
    {
        let at: usize = self.position(output);
        if at < self.outputs.len() {
            self.outputs[at] = (output, tracker);
        } else {
            self.outputs.push((output, tracker));
        }
    }

    /// Drops `output`'s tracker, for an output that went away.
    pub fn forget(&mut self, output: u64)
        ensures
            final(self)@ == without_tracker(old(self)@, output),
    {
        let ghost all = self.outputs@;
        let mut kept: Vec<(u64, ScanoutFeedback)> = Vec::new();
        let mut i: usize = 0;
        assert(without_tracker(all.take(0), output) =~= Seq::empty());
        while i < self.outputs.len()
            invariant
                i <= self.outputs@.len(),
                self.outputs@ == all,
                kept@ == without_tracker(all.take(i as int), output),
            decreases self.outputs@.len() - i,
        {
            proof {
                assert(all.take(i + 1).drop_last() =~= all.take(i as int));
                assert(all.take(i + 1).last() == all[i as int]);
            }
            let entry: (u64, ScanoutFeedback) = self.outputs[i];
            if entry.0 != output {
                kept.push(entry);
            }
            i += 1;
        }
        assert(all.take(i as int) =~= all);
        self.outputs = kept;
    }

    /// Rebuilds `output`'s scanout feedback if it was built for anything but
    /// `key`, and moves a current target onto the rebuilt one. `rebuild`,
    /// which is asked only for the rebuilt feedback, answers nothing when
    /// nothing can be steered with, and that is kept too.
    pub fn refresh<R: FnOnce() -> Option<u64>, A: FnOnce(u64) -> bool>(
        &mut self,
        output: u64,
        key: FormatsKey,
        default: Option<u64>,
        rebuild: R,
        is_alive: A,
    ) -> (sends: Vec<Send>)
        requires
            ({
                let tracker = tracker_of(old(self)@, output);
                !tracker.built_for(key) ==> {
                    &&& call_requires(rebuild, ())
                    &&& tracker.target is Some ==> call_requires(is_alive, (tracker.target->0,))
                }
            }),
        ensures
            refreshed_as(
                old(self)@,
                final(self)@,
                output,
                key,
                default,
                rebuild,
                is_alive,
                sends@,
            ),
    {
        let mut tracker = self.get(output);
        let sends: Vec<Send> = if tracker.needs_build(key) {
            let feedback: Option<u64> = rebuild();
            tracker.install(key, feedback, default, is_alive)
        } else {
            Vec::new()
        };
        self.put(output, tracker);
        sends
    }

    /// One frame's steering of `output`.
    pub fn steer<A: FnOnce(u64) -> bool, N: FnOnce() -> u64>(
        &mut self,
        output: u64,
        covering: Option<u64>,
        eligible: bool,
        default: Option<u64>,
        is_alive: A,
        now: N,
    ) -> (steered: (Steer, Vec<Send>))
        requires
            ({
                let tracker = tracker_of(old(self)@, output);
                &&& tracker.target is Some ==> call_requires(is_alive, (tracker.target->0,))
                &&& may_read_clock(tracker, covering, eligible, is_alive) ==> call_requires(now, ())
            }),
        ensures
            steered_as(
                old(self)@,
                final(self)@,
                output,
                covering,
                eligible,
                default,
                is_alive,
                now,
                steered.0,
                steered.1@,
            ),
    {
        let mut tracker = self.get(output);
        let steered = tracker.steer(covering, eligible, default, is_alive, now);
        self.put(output, tracker);
        steered
    }

    /// What a surface asking for feedback for the first time is answered
    /// with: the first output steering it answers.
    pub fn for_new_surface(&self, surface: u64) -> (feedback: Option<u64>)
        ensures
            feedback == answer_for(self@, surface),
    {
        let mut i: usize = 0;
        assert(self.outputs@.skip(0) =~= self.outputs@);
        while i < self.outputs.len()
            invariant
                i <= self.outputs@.len(),
                answer_for(self.outputs@, surface) == answer_for(
                    self.outputs@.skip(i as int),
                    surface,
                ),
            decreases self.outputs@.len() - i,
        {
            let feedback: Option<u64> = self.outputs[i].1.for_new_surface(surface);
            assert(self.outputs@.skip(i as int)[0] == self.outputs@[i as int]);
            if feedback.is_some() {
                return feedback;
            }
            assert(self.outputs@.skip(i as int).drop_first() =~= self.outputs@.skip(i + 1));
            i += 1;
        }
        None
    }
}

proof fn lemma_tracker_at(trackers: Trackers, output: u64)
    ensures
        0 <= tracker_at(trackers, output) <= trackers.len(),
        tracker_at(trackers, output) < trackers.len() ==> trackers[tracker_at(
            trackers,
            output,
        )].0 == output,
        forall|i: int|
            0 <= i < tracker_at(trackers, output) ==> (#[trigger] trackers[i]).0 != output,
    decreases trackers.len(),
{
    if trackers.len() > 0 && trackers[0].0 != output {
        let rest = trackers.drop_first();
        lemma_tracker_at(rest, output);
        assert forall|i: int| 0 <= i < tracker_at(trackers, output) implies (
        #[trigger] trackers[i]).0 != output by {
            if i > 0 {
                assert(trackers[i] == rest[i - 1]);
            }
        }
    }
}

proof fn lemma_tracker_is_first(trackers: Trackers, output: u64, at: int)
    requires
        0 <= at <= trackers.len(),
        at < trackers.len() ==> trackers[at].0 == output,
        forall|i: int| 0 <= i < at ==> (#[trigger] trackers[i]).0 != output,
    ensures
        tracker_at(trackers, output) == at,
{
    lemma_tracker_at(trackers, output);
    let found = tracker_at(trackers, output);
    if found < at {
        assert(trackers[found].0 != output);
    }
    if at < found {
        assert(trackers[at].0 != output);
    }
}

/// Outputs are steered apart: what one output's frame does to its tracker is
/// what it finds there at its next frame, and no other output's changes.
pub proof fn outputs_are_steered_apart(
    trackers: Trackers,
    output: u64,
    tracker: ScanoutFeedback,
    other: u64,
)
    ensures
        tracker_of(with_tracker(trackers, output, tracker), output) == tracker,
        other != output ==> tracker_of(with_tracker(trackers, output, tracker), other)
            == tracker_of(trackers, other),
{
    let after = with_tracker(trackers, output, tracker);
    lemma_tracker_at(trackers, output);
    lemma_tracker_at(trackers, other);
    let at = tracker_at(trackers, output);
    lemma_tracker_is_first(after, output, at);
    if other != output {
        let found = tracker_at(trackers, other);
        if found < trackers.len() {
            lemma_tracker_is_first(after, other, found);
        } else {
            lemma_tracker_is_first(after, other, after.len() as int);
        }
    }
}

/// Every advertised entry at an explicit modifier is in the tranche where the plane lists its
/// framebuffer's fourcc, which is its opaque twin's where it has one, at that modifier, unless the
/// modifier is lost; and `LINEAR` is never lost. An entry at another modifier than `LINEAR` is in
/// it nowhere else.
pub proof fn a_listed_layout_is_in_the_tranche(
    table: Map<u32, TableRow>,
    advertised: Seq<Format>,
    plane: Seq<Format>,
    lost: Seq<u64>,
    i: int,
)
    requires
        0 <= i < advertised.len(),
    ensures
        ({
            let format = advertised[i];
            let tranche = tranche_of(table, advertised, plane, lost);
            let twin = if table.contains_key(format.code) && table[format.code].opaque is Some {
                table[format.code].opaque->0
            } else {
                format.code
            };
            let listed = plane.contains(Format { code: twin, modifier: format.modifier });
            &&& format.modifier == LINEAR && listed ==> tranche.contains(format)
            &&& format.modifier != LINEAR && format.modifier != INVALID ==> (tranche.contains(
                format,
            ) <==> listed && !lost.contains(format.modifier))
            &&& format.modifier == INVALID ==> !tranche.contains(format)
        }),
{
    let entries = entries_of(table, advertised);
    let format = advertised[i];
    assert(entries[i] == entry_of(table, format));
    if taken(entries[i], plane, lost) {
        the_tranche_holds_everything_the_plane_takes(entries, plane, lost, i);
    }
    if tranche_of(table, advertised, plane, lost).contains(format) {
        the_tranche_holds_only_what_the_plane_takes(entries, plane, lost, format);
        let j = choose|j: int|
            0 <= j < entries.len() && (#[trigger] entries[j]).format == format && taken(
                entries[j],
                plane,
                lost,
            );
        assert(entries[j] == entry_of(table, advertised[j]));
    }
}

/// A linear entry whose framebuffer's fourcc the plane does not list at `LINEAR` is in the tranche
/// exactly where the plane lists that fourcc at the implicit modifier and at no other, and the
/// entry's own fourcc is known to have pixels of whole bytes. What is lost does not matter to it.
pub proof fn an_implicit_plane_takes_packed_linear_formats(
    table: Map<u32, TableRow>,
    advertised: Seq<Format>,
    plane: Seq<Format>,
    lost: Seq<u64>,
    i: int,
)
    requires
        0 <= i < advertised.len(),
        advertised[i].modifier == LINEAR,
    ensures
        ({
            let format = advertised[i];
            let row = table[format.code];
            let known = table.contains_key(format.code);
            let twin = if known && row.opaque is Some {
                row.opaque->0
            } else {
                format.code
            };
            let implicit_only = forall|j: int|
                0 <= j < plane.len() && (#[trigger] plane[j]).code == twin ==> plane[j].modifier
                    == INVALID;
            !plane.contains(Format { code: twin, modifier: LINEAR }) ==> (tranche_of(
                table,
                advertised,
                plane,
                lost,
            ).contains(format) <==> {
                &&& plane.contains(Format { code: twin, modifier: INVALID })
                &&& implicit_only
                &&& known && row.bits_per_pixel is Some && row.bits_per_pixel->0 % 8 == 0
            })
        }),
{
    let entries = entries_of(table, advertised);
    let format = advertised[i];
    assert(entries[i] == entry_of(table, format));
    if taken(entries[i], plane, lost) {
        the_tranche_holds_everything_the_plane_takes(entries, plane, lost, i);
    }
    if tranche_of(table, advertised, plane, lost).contains(format) {
        the_tranche_holds_only_what_the_plane_takes(entries, plane, lost, format);
        let j = choose|j: int|
            0 <= j < entries.len() && (#[trigger] entries[j]).format == format && taken(
                entries[j],
                plane,
                lost,
            );
        assert(entries[j] == entry_of(table, advertised[j]));
    }
}

/// The tranche keeps every occurrence of what it keeps, and nothing else: it is what is advertised,
/// without the entries that are not in it.
pub proof fn the_tranche_is_what_is_advertised_without_the_rest(
    table: Map<u32, TableRow>,
    advertised: Seq<Format>,
    plane: Seq<Format>,
    lost: Seq<u64>,
)
    ensures
        ({
            let tranche = tranche_of(table, advertised, plane, lost);
            tranche == advertised.filter(|format: Format| tranche.contains(format))
        }),
{
    let tranche = tranche_of(table, advertised, plane, lost);
    let takes = |format: Format| taken(entry_of(table, format), plane, lost);
    lemma_tranche_filters(table, advertised, plane, lost);
    let kept = |format: Format| tranche.contains(format);
    assert forall|i: int| 0 <= i < advertised.len() implies takes(#[trigger] advertised[i]) == kept(
        advertised[i],
    ) by {
        let entries = entries_of(table, advertised);
        assert(entries[i] == entry_of(table, advertised[i]));
        if takes(advertised[i]) {
            the_tranche_holds_everything_the_plane_takes(entries, plane, lost, i);
        }
        if kept(advertised[i]) {
            the_tranche_holds_only_what_the_plane_takes(entries, plane, lost, advertised[i]);
            let j = choose|j: int|
                0 <= j < entries.len() && (#[trigger] entries[j]).format == advertised[i] && taken(
                    entries[j],
                    plane,
                    lost,
                );
            assert(entries[j] == entry_of(table, advertised[j]));
        }
    }
    lemma_filters_agree(advertised, takes, kept);
}

proof fn lemma_tranche_filters(
    table: Map<u32, TableRow>,
    advertised: Seq<Format>,
    plane: Seq<Format>,
    lost: Seq<u64>,
)
    ensures
        tranche_of(table, advertised, plane, lost) == advertised.filter(
            |format: Format| taken(entry_of(table, format), plane, lost),
        ),
    decreases advertised.len(),
{
    reveal(Seq::filter);
    if advertised.len() > 0 {
        lemma_tranche_filters(table, advertised.drop_last(), plane, lost);
        assert(entries_of(table, advertised).drop_last() =~= entries_of(
            table,
            advertised.drop_last(),
        ));
    }
}

proof fn lemma_filters_agree(
    formats: Seq<Format>,
    a: spec_fn(Format) -> bool,
    b: spec_fn(Format) -> bool,
)
    requires
        forall|i: int| 0 <= i < formats.len() ==> a(#[trigger] formats[i]) == b(formats[i]),
    ensures
        formats.filter(a) == formats.filter(b),
    decreases formats.len(),
{
    reveal(Seq::filter);
    if formats.len() > 0 {
        let rest = formats.drop_last();
        assert forall|i: int| 0 <= i < rest.len() implies a(#[trigger] rest[i]) == b(rest[i]) by {
            assert(rest[i] == formats[i]);
        }
        lemma_filters_agree(rest, a, b);
        assert(formats[formats.len() - 1] == formats.last());
    }
}

/// While there is a feedback to steer with, the surface of an eligible frame is steered: one that
/// is steered already is sent nothing, and any other is sent the scanout feedback, after a live
/// surface that was steered before it is sent the default. No clock is read, and a hold ends.
pub proof fn an_eligible_window_is_steered(
    key: FormatsKey,
    feedback: u64,
    target: Option<u64>,
    held_since: Option<u64>,
    surface: u64,
    default: Option<u64>,
    alive: bool,
    now: u64,
)
    ensures
        ({
            let tracker = ScanoutFeedback { built: Some((key, Some(feedback))), target, held_since };
            let step = steer_step(tracker, Some(surface), true, default, alive, now);
            let sent = Send { surface, feedback };
            &&& step.tracker == (ScanoutFeedback {
                built: tracker.built,
                target: Some(surface),
                held_since: None,
            })
            &&& !step.reads_clock
            &&& target == Some(surface) && alive ==> step.steer is Kept && step.sends
                == Seq::<Send>::empty()
            &&& target != Some(surface) || !alive ==> step.steer is Sent
            &&& !alive || target is None ==> step.sends == seq![sent]
            &&& alive && target is Some && target != Some(surface) ==> step.sends == match default {
                Some(back) => seq![Send { surface: target->0, feedback: back }, sent],
                None => seq![sent],
            }
        }),
{
}

/// A frame that is not eligible steers nothing new. The live surface that is steered keeps its
/// feedback while it still covers the output and was first seen so less than [`REVERT_HOLD`] ago;
/// otherwise it is forgotten and sent the default, once. A surface that is gone is sent nothing.
pub proof fn an_ineligible_window_is_held_and_reverted(
    key: FormatsKey,
    feedback: u64,
    target: Option<u64>,
    held_since: Option<u64>,
    covering: Option<u64>,
    default: Option<u64>,
    alive: bool,
    now: u64,
)
    ensures
        ({
            let tracker = ScanoutFeedback { built: Some((key, Some(feedback))), target, held_since };
            let step = steer_step(tracker, covering, false, default, alive, now);
            let steered = target is Some && alive;
            let covers = steered && covering == target;
            let since = match held_since {
                Some(since) => since,
                None => now,
            };
            let holding = covers && now < since + REVERT_HOLD;
            &&& step.tracker.built == tracker.built
            &&& step.reads_clock == covers
            &&& !steered ==> step.steer is Idle && step.tracker.target is None && step.sends
                == Seq::<Send>::empty()
            &&& holding ==> {
                &&& step.steer is Holding
                &&& step.sends == Seq::<Send>::empty()
                &&& step.tracker.target == target
                &&& step.tracker.held_since == Some(since)
            }
            &&& steered && !holding ==> {
                &&& step.steer is Reverted
                &&& step.tracker.target is None
                &&& step.tracker.held_since is None
                &&& step.sends == match default {
                    Some(back) => seq![Send { surface: target->0, feedback: back }],
                    None => Seq::empty(),
                }
            }
        }),
{
}

/// Without a feedback to steer with, nothing is sent and no surface is taken up; a target that is
/// gone is forgotten.
pub proof fn nothing_is_steered_without_a_feedback(
    tracker: ScanoutFeedback,
    covering: Option<u64>,
    eligible: bool,
    default: Option<u64>,
    alive: bool,
    now: u64,
)
    requires
        tracker.built is None || (tracker.built->0).1 is None,
    ensures
        ({
            let step = steer_step(tracker, covering, eligible, default, alive, now);
            &&& step.steer is Idle
            &&& step.sends == Seq::<Send>::empty()
            &&& !step.reads_clock
            &&& step.tracker.built == tracker.built
            &&& step.tracker.target == if alive {
                tracker.target
            } else {
                None
            }
        }),
{
}

/// A feedback is installed with the key it was built for. A live surface that is steered is sent
/// it and stays steered; where there is none to steer with, it is sent the default and is steered no
/// longer. Nobody else is sent anything. A tracker needs building exactly while it has not been
/// built for the key.
pub proof fn a_rebuilt_feedback_reaches_the_target(
    tracker: ScanoutFeedback,
    key: FormatsKey,
    feedback: Option<u64>,
    default: Option<u64>,
    alive: bool,
    other: FormatsKey,
)
    ensures
        ({
            let (after, sends) = install_step(tracker, key, feedback, default, alive);
            let told = tracker.target is Some && alive;
            &&& after.built == Some((key, feedback))
            &&& after.built_for(key)
            &&& other != key ==> !after.built_for(other)
            &&& after.scanout() == feedback
            &&& !ScanoutFeedback::fresh().built_for(key)
            &&& ScanoutFeedback::fresh().target is None
            &&& !told ==> sends == Seq::<Send>::empty() && after.target == tracker.target
            &&& told && feedback is Some ==> {
                &&& sends == seq![Send { surface: tracker.target->0, feedback: feedback->0 }]
                &&& after.target == tracker.target
                &&& after.held_since == tracker.held_since
            }
            &&& told && feedback is None ==> {
                &&& after.target is None
                &&& after.held_since is None
                &&& sends == match default {
                    Some(back) => seq![Send { surface: tracker.target->0, feedback: back }],
                    None => Seq::empty(),
                }
            }
        }),
{
}

/// A target that still covers is not reverted for two seconds.
pub proof fn a_revert_is_held_for_two_seconds()
    ensures
        REVERT_HOLD == 2 * 1_000_000_000,
{
}

/// An output that goes takes its tracker with it: it starts afresh, and every other output's
/// tracker is as it was.
pub proof fn a_gone_output_takes_its_tracker(trackers: Trackers, output: u64, other: u64)
    ensures
        tracker_of(without_tracker(trackers, output), output) == ScanoutFeedback::fresh(),
        other != output ==> tracker_of(without_tracker(trackers, output), other) == tracker_of(
            trackers,
            other,
        ),
    decreases trackers.len(),
{
    if trackers.len() > 0 {
        let rest = trackers.drop_last();
        let last = trackers.last();
        a_gone_output_takes_its_tracker(rest, output, other);
        let kept = without_tracker(rest, output);
        let left = without_tracker(trackers, output);
        lemma_last_tracker(rest, last, other);
        lemma_last_tracker(rest, last, output);
        assert(rest.push(last) =~= trackers);
        if last.0 != output {
            lemma_last_tracker(kept, last, other);
            lemma_last_tracker(kept, last, output);
            lemma_kept_trackers(rest, output, other);
        }
    }
}

/// An output has a tracker among those kept exactly where it had one and is another.
proof fn lemma_kept_trackers(trackers: Trackers, output: u64, other: u64)
    ensures
        other != output ==> (tracker_at(without_tracker(trackers, output), other)
            < without_tracker(trackers, output).len()) == (tracker_at(trackers, other)
            < trackers.len()),
        tracker_at(without_tracker(trackers, output), output) == without_tracker(
            trackers,
            output,
        ).len(),
    decreases trackers.len(),
{
    if trackers.len() > 0 {
        let rest = trackers.drop_last();
        let last = trackers.last();
        lemma_kept_trackers(rest, output, other);
        let kept = without_tracker(rest, output);
        assert(rest.push(last) =~= trackers);
        lemma_last_tracker(rest, last, other);
        if last.0 != output {
            lemma_last_tracker(kept, last, other);
            lemma_last_tracker(kept, last, output);
        }
    }
}

proof fn lemma_last_tracker(trackers: Trackers, last: (u64, ScanoutFeedback), output: u64)
    ensures
        tracker_at(trackers.push(last), output) == if tracker_at(trackers, output)
            < trackers.len() || last.0 == output {
            tracker_at(trackers, output)
        } else {
            trackers.len() as int + 1
        },
        0 <= tracker_at(trackers, output) <= trackers.len(),
{
    let more = trackers.push(last);
    lemma_tracker_at(trackers, output);
    let at = tracker_at(trackers, output);
    if at < trackers.len() || last.0 == output {
        lemma_tracker_is_first(more, output, at);
    } else {
        lemma_tracker_is_first(more, output, more.len() as int);
    }
}

/// A surface that asks for feedback is answered with the scanout feedback of the first output that
/// steers it and has one, and with none where no output does.
pub proof fn a_new_surface_is_answered_by_the_output_that_steers_it(
    trackers: Trackers,
    surface: u64,
)
    ensures
        match answer_for(trackers, surface) {
            Some(feedback) => exists|i: int|
                {
                    &&& 0 <= i < trackers.len()
                    &&& (#[trigger] trackers[i]).1.target == Some(surface)
                    &&& trackers[i].1.built is Some
                    &&& (trackers[i].1.built->0).1 == Some(feedback)
                    &&& forall|j: int|
                        0 <= j < i && (#[trigger] trackers[j]).1.target == Some(surface)
                            ==> trackers[j].1.built is None || (trackers[j].1.built->0).1 is None
                },
            None => forall|j: int|
                0 <= j < trackers.len() && (#[trigger] trackers[j]).1.target == Some(surface)
                    ==> trackers[j].1.built is None || (trackers[j].1.built->0).1 is None,
        },
    decreases trackers.len(),
{
    if trackers.len() > 0 {
        let first = trackers[0].1;
        let rest = trackers.drop_first();
        a_new_surface_is_answered_by_the_output_that_steers_it(rest, surface);
        if first.target == Some(surface) && first.scanout() is Some {
            assert((trackers[0].1.built->0).1 == answer_for(trackers, surface));
        } else {
            match answer_for(rest, surface) {
                Some(feedback) => {
                    let i = choose|i: int|
                        {
                            &&& 0 <= i < rest.len()
                            &&& (#[trigger] rest[i]).1.target == Some(surface)
                            &&& rest[i].1.built is Some
                            &&& (rest[i].1.built->0).1 == Some(feedback)
                            &&& forall|j: int|
                                0 <= j < i && (#[trigger] rest[j]).1.target == Some(surface)
                                    ==> rest[j].1.built is None || (rest[j].1.built->0).1 is None
                        };
                    assert(trackers[i + 1] == rest[i]);
                    assert forall|j: int|
                        0 <= j < i + 1 && (#[trigger] trackers[j]).1.target == Some(
                            surface,
                        ) implies trackers[j].1.built is None || (trackers[j].1.built->0).1 is None by {
                        if j > 0 {
                            assert(trackers[j] == rest[j - 1]);
                        }
                    }
                },
                None => {
                    assert forall|j: int|
                        0 <= j < trackers.len() && (#[trigger] trackers[j]).1.target == Some(
                            surface,
                        ) implies trackers[j].1.built is None || (trackers[j].1.built->0).1 is None by {
                        if j > 0 {
                            assert(trackers[j] == rest[j - 1]);
                        }
                    }
                },
            }
        }
    }
}

/// Refreshing an output's feedback asks for a new one only where it was not built for the key. What
/// comes is kept under the key, even where it is nothing, so that it is asked for once; and a live
/// surface that is steered is told of it, and no other. No other output's tracker changes.
pub proof fn a_feedback_is_rebuilt_once_for_its_key<
    R: FnOnce() -> Option<u64>,
    A: FnOnce(u64) -> bool,
>(
    before: Trackers,
    after: Trackers,
    output: u64,
    key: FormatsKey,
    default: Option<u64>,
    rebuild: R,
    is_alive: A,
    sends: Seq<Send>,
    other: u64,
)
    requires
        refreshed_as(before, after, output, key, default, rebuild, is_alive, sends),
    ensures
        ({
            let was = tracker_of(before, output);
            let is = tracker_of(after, output);
            let fresh = was.built is None || (was.built->0).0 != key;
            &&& other != output ==> tracker_of(after, other) == tracker_of(before, other)
            &&& is.built is Some && (is.built->0).0 == key
            &&& !fresh ==> is == was && sends.len() == 0
            &&& fresh ==> call_ensures(rebuild, (), (is.built->0).1)
            &&& was.target is None ==> sends.len() == 0 && is.target is None
            &&& sends.len() <= 1
            &&& sends.len() == 1 ==> {
                &&& fresh
                &&& was.target == Some(sends[0].surface)
                &&& call_ensures(is_alive, (sends[0].surface,), true)
                &&& (is.built->0).1 is Some ==> sends[0].feedback == (is.built->0).1->0
                    && is.target == was.target
                &&& (is.built->0).1 is None ==> default == Some(sends[0].feedback)
                    && is.target is None
            }
        }),
{
    let was = tracker_of(before, output);
    if was.built_for(key) {
        outputs_are_steered_apart(before, output, was, other);
    } else {
        let (feedback, alive) = choose|feedback: Option<u64>, alive: bool|
            {
                let step = #[trigger] install_step(was, key, feedback, default, alive);
                &&& call_ensures(rebuild, (), feedback)
                &&& was.target is Some ==> call_ensures(is_alive, (was.target->0,), alive)
                &&& after == with_tracker(before, output, step.0)
                &&& sends == step.1
            };
        outputs_are_steered_apart(
            before,
            output,
            install_step(was, key, feedback, default, alive).0,
            other,
        );
    }
}

/// One frame steers its own output only. With a feedback to steer with, the surface that covers an
/// eligible frame is the output's target afterwards, and is sent the feedback unless it was the
/// target already and is alive; and nobody is sent anything but that feedback and the default.
pub proof fn a_frame_steers_its_own_output<A: FnOnce(u64) -> bool, N: FnOnce() -> u64>(
    before: Trackers,
    after: Trackers,
    output: u64,
    covering: Option<u64>,
    eligible: bool,
    default: Option<u64>,
    is_alive: A,
    now: N,
    steer: Steer,
    sends: Seq<Send>,
    other: u64,
    i: int,
)
    requires
        steered_as(
            before,
            after,
            output,
            covering,
            eligible,
            default,
            is_alive,
            now,
            steer,
            sends,
        ),
    ensures
        ({
            let was = tracker_of(before, output);
            let is = tracker_of(after, output);
            let ready = was.built is Some && (was.built->0).1 is Some;
            &&& other != output ==> tracker_of(after, other) == tracker_of(before, other)
            &&& is.built == was.built
            &&& !ready ==> sends.len() == 0
            &&& ready && eligible && covering is Some ==> {
                &&& is.target == covering
                &&& sends.len() == 0 ==> was.target == covering && call_ensures(
                    is_alive,
                    (covering->0,),
                    true,
                )
                &&& sends.len() > 0 ==> sends.last() == (Send {
                    surface: covering->0,
                    feedback: (was.built->0).1->0,
                })
            }
            &&& ready && !(eligible && covering is Some) ==> is.target is None || is.target
                == was.target && is.target == covering
            &&& 0 <= i < sends.len() ==> {
                ||| sends[i].feedback == (was.built->0).1->0 && covering == Some(sends[i].surface)
                    && eligible
                ||| default == Some(sends[i].feedback) && was.target == Some(sends[i].surface)
            }
        }),
{
    let was = tracker_of(before, output);
    let (alive, time) = choose|alive: bool, time: u64|
        {
            let step = #[trigger] steer_step(was, covering, eligible, default, alive, time);
            &&& was.target is Some ==> call_ensures(is_alive, (was.target->0,), alive)
            &&& step.reads_clock ==> call_ensures(now, (), time)
            &&& after == with_tracker(before, output, step.tracker)
            &&& steer == step.steer
            &&& sends == step.sends
        };
    outputs_are_steered_apart(
        before,
        output,
        steer_step(was, covering, eligible, default, alive, time).tracker,
        other,
    );
}

/// A scanout feedback is made only of a tranche with a format in it, on a device that has a name,
/// and is then what the maker answers.
pub proof fn a_feedback_is_made_of_a_tranche_and_a_device<
    M: FnOnce(u64, Vec<Format>) -> Option<u64>,
>(
    advertised: Vec<Format>,
    plane: FormatSet,
    lost: Vec<u64>,
    device: Option<u64>,
    table: FormatTable,
    make: M,
    feedback: Option<u64>,
)
    requires
        call_ensures(
            build::<M>,
            (&advertised, &plane, &lost, device, &table, make),
            feedback,
        ),
    ensures
        ({
            let tranche = tranche_of(table@, advertised@, plane@, lost@);
            &&& tranche.len() == 0 ==> feedback is None
            &&& device is None ==> feedback is None
            &&& tranche.len() > 0 && device is Some ==> exists|handed: Vec<Format>|
                handed@ == tranche && #[trigger] call_ensures(
                    make,
                    (device->0, handed),
                    feedback,
                )
        }),
{
}

/// A fourcc is single-plane exactly where the table knows its bits per pixel and they are whole
/// bytes.
pub proof fn single_plane_pixels_are_whole_bytes(code: u32, table: FormatTable, packed: bool)
    requires
        call_ensures(single_plane, (code, &table), packed),
    ensures
        packed <==> {
            &&& table@.contains_key(code)
            &&& table@[code].bits_per_pixel is Some
            &&& table@[code].bits_per_pixel->0 % 8 == 0
        },
{
}

/// A format is taken on its own exactly where it would be in the tranche of a table that advertises
/// nothing else.
pub proof fn a_plane_takes_what_its_tranche_has(
    format: Format,
    plane: FormatSet,
    lost: Vec<u64>,
    table: FormatTable,
    takes: bool,
)
    requires
        call_ensures(plane_takes, (format, &plane, &lost, &table), takes),
    ensures
        takes <==> tranche_of(table@, seq![format], plane@, lost@).contains(format),
{
    let one = seq![format];
    let entries = entries_of(table@, one);
    assert(entries[0] == entry_of(table@, format));
    if takes {
        the_tranche_holds_everything_the_plane_takes(entries, plane@, lost@, 0);
    }
    if tranche_of(table@, one, plane@, lost@).contains(format) {
        the_tranche_holds_only_what_the_plane_takes(entries, plane@, lost@, format);
    }
}

} // verus!
