//! Dma-buf imports: what is advertised, what an import does, and what is
//! dropped afterwards.

pub mod formats;
pub mod pending_planes;
pub mod renderer_copies;
pub mod scanout;

use crate::dmabuf::formats::{Format, FormatSet, ARGB8888, INVALID, LINEAR, XRGB8888};
use crate::counts::{
    a_claim_forgotten_leaves_no_trace, claimed, forgotten, live, LiveCounts,
};
use crate::dmabuf::renderer_copies::{
    charge, charged, gles_count, names_no_pool, only_gles_backends_are_counted, probed, Probe,
};
use crate::dmabuf::scanout::{
    install_step, may_read_clock, outputs_are_steered_apart, steer_step, steered_as, tracker_of,
    with_tracker, FormatsKey, Send, Steer, Trackers,
};
use crate::state::{Output, RendererKind, State};
use vstd::prelude::*;

verus! {

/// The fourccs offered on a renderer's weaker evidence, opaque first.
pub open spec fn candidates() -> Seq<u32> {
    seq![XRGB8888, ARGB8888]
}

fn candidate_codes() -> (codes: Vec<u32>)
    ensures
        codes@ == candidates(),
{
    let mut codes: Vec<u32> = Vec::new();
    codes.push(XRGB8888);
    codes.push(ARGB8888);
    assert(codes@ =~= candidates());
    codes
}

/// The distinct fourccs `formats` names.
pub open spec fn distinct_codes(formats: Seq<Format>) -> Set<u32> {
    formats.map_values(|format: Format| format.code).to_set()
}

/// How many distinct fourccs `formats` names.
pub fn fourcc_count(formats: &Vec<Format>) -> (n: usize)
    ensures
        n == distinct_codes(formats@).len(),
{
    let mut n: usize = 0;
    let mut i: usize = 0;
    assert(distinct_codes(formats@.take(0)) =~= Set::empty());
    while i < formats.len()
        invariant
            i <= formats@.len(),
            n <= i,
            distinct_codes(formats@.take(i as int)).finite(),
            n == distinct_codes(formats@.take(i as int)).len(),
        decreases formats@.len() - i,
    {
        let code: u32 = formats[i].code;
        let ghost earlier = formats@.take(i as int);
        let ghost later = formats@.take(i + 1);
        let mut seen: bool = false;
        let mut j: usize = 0;
        while j < i
            invariant
                j <= i < formats@.len(),
                seen == exists|k: int| 0 <= k < j && (#[trigger] formats@[k]).code == code,
            decreases i - j,
        {
            if formats[j].code == code {
                seen = true;
            }
            j += 1;
        }
        proof {
            let codes = earlier.map_values(|format: Format| format.code);
            let more = later.map_values(|format: Format| format.code);
            assert(more =~= codes.push(code));
            assert(distinct_codes(later) =~= distinct_codes(earlier).insert(code)) by {
                assert forall|c: u32| distinct_codes(later).contains(c) == distinct_codes(
                    earlier,
                ).insert(code).contains(c) by {
                    if more.contains(c) {
                        let k = choose|k: int| 0 <= k < more.len() && more[k] == c;
                        if k < codes.len() {
                            assert(codes[k] == c);
                        }
                    }
                    if codes.contains(c) {
                        let k = choose|k: int| 0 <= k < codes.len() && codes[k] == c;
                        assert(more[k] == c);
                    }
                    assert(more[codes.len() as int] == code);
                }
            }
            assert(seen == distinct_codes(earlier).contains(code)) by {
                if seen {
                    let k = choose|k: int| 0 <= k < i && (#[trigger] formats@[k]).code == code;
                    assert(codes[k] == code);
                }
                if codes.contains(code) {
                    let k = choose|k: int| 0 <= k < codes.len() && codes[k] == code;
                    assert(formats@[k].code == code);
                }
            }
        }
        if !seen {
            n += 1;
        }
        i += 1;
    }
    assert(formats@.take(i as int) =~= formats@);
    n
}

/// `accepted` is the answer to whether a renderer takes a single-plane linear
/// buffer of `code`: it lists the fourcc at `LINEAR`, or, asked only if not,
/// at an implicit layout.
pub open spec fn evidence<F: Fn(Format) -> bool>(
    can_import: F,
    code: u32,
    accepted: bool,
) -> bool {
    let linear = Format { code, modifier: LINEAR };
    let implicit = Format { code, modifier: INVALID };
    ||| accepted && call_ensures(can_import, (linear,), true)
    ||| call_ensures(can_import, (linear,), false) && call_ensures(
        can_import,
        (implicit,),
        accepted,
    )
}

/// `can_import` can be asked about `code`: at `LINEAR`, and at an implicit
/// layout where the first answer may be no.
pub open spec fn askable<F: Fn(Format) -> bool>(can_import: F, code: u32) -> bool {
    let linear = Format { code, modifier: LINEAR };
    let implicit = Format { code, modifier: INVALID };
    &&& call_requires(can_import, (linear,))
    &&& call_ensures(can_import, (linear,), false) ==> call_requires(can_import, (implicit,))
}

/// Whether `can_import` is evidence that a renderer will accept a
/// single-plane linear dma-buf of `code`.
pub fn imports_linear<F: Fn(Format) -> bool>(code: u32, can_import: &F) -> (accepted: bool)
    requires
        askable(*can_import, code),
    ensures
        evidence(*can_import, code, accepted),
{
    if can_import(Format { code, modifier: LINEAR }) {
        return true;
    }
    can_import(Format { code, modifier: INVALID })
}

/// The table of a renderer that maps buffers on the CPU, from whether it takes
/// each of the two candidates.
pub open spec fn cpu_mapped_table(opaque: bool, alpha: bool) -> Seq<Format> {
    (if opaque {
        seq![Format { code: XRGB8888, modifier: LINEAR }]
    } else {
        Seq::empty()
    }) + (if alpha {
        seq![Format { code: ARGB8888, modifier: LINEAR }]
    } else {
        Seq::empty()
    })
}

/// The table of a renderer that maps buffers on the CPU: the candidates in
/// their order, minus any it cannot import, every one at `LINEAR`.
pub fn cpu_mapped_tranche<F: Fn(Format) -> bool>(can_import: &F) -> (tranche: Vec<Format>)
    requires
        askable(*can_import, XRGB8888),
        askable(*can_import, ARGB8888),
    ensures
        exists|opaque: bool, alpha: bool|
            {
                &&& evidence(*can_import, XRGB8888, opaque)
                &&& evidence(*can_import, ARGB8888, alpha)
                &&& tranche@ == #[trigger] cpu_mapped_table(opaque, alpha)
            },
{
    let mut tranche: Vec<Format> = Vec::new();
    let opaque: bool = imports_linear(XRGB8888, can_import);
    if opaque {
        tranche.push(Format { code: XRGB8888, modifier: LINEAR });
    }
    let alpha: bool = imports_linear(ARGB8888, can_import);
    if alpha {
        tranche.push(Format { code: ARGB8888, modifier: LINEAR });
    }
    assert(tranche@ =~= cpu_mapped_table(opaque, alpha));
    tranche
}

/// The fourccs of a driver's table: the candidates, and then every other in
/// the driver's order, each once.
pub open spec fn fourccs(importable: Seq<Format>) -> Seq<u32>
    decreases importable.len(),
{
    if importable.len() == 0 {
        candidates()
    } else {
        let rest = fourccs(importable.drop_last());
        if rest.contains(importable.last().code) {
            rest
        } else {
            rest.push(importable.last().code)
        }
    }
}

/// The layouts a driver named for `code`, in its order.
pub open spec fn explicit_layouts(importable: Seq<Format>, code: u32) -> Seq<Format>
    decreases importable.len(),
{
    if importable.len() == 0 {
        Seq::empty()
    } else {
        let rest = explicit_layouts(importable.drop_last(), code);
        let format = importable.last();
        if format.code == code && format.modifier != INVALID {
            rest.push(format)
        } else {
            rest
        }
    }
}

/// What is advertised of `code`: the layouts the driver named; or, for a
/// candidate it named none for but lists at an implicit layout, `LINEAR`.
pub open spec fn entries_for(importable: Seq<Format>, code: u32) -> Seq<Format> {
    let named = explicit_layouts(importable, code);
    if named.len() > 0 {
        named
    } else if candidates().contains(code) && importable.contains(
        Format { code, modifier: INVALID },
    ) {
        seq![Format { code, modifier: LINEAR }]
    } else {
        Seq::empty()
    }
}

/// The entries of each of `codes`, in turn.
pub open spec fn table_of(importable: Seq<Format>, codes: Seq<u32>) -> Seq<Format>
    decreases codes.len(),
{
    if codes.len() == 0 {
        Seq::empty()
    } else {
        table_of(importable, codes.drop_last()) + entries_for(importable, codes.last())
    }
}

/// The table of a renderer whose driver imports `importable`.
pub open spec fn driver_table(importable: Seq<Format>) -> Seq<Format> {
    table_of(importable, fourccs(importable))
}

fn contains_code(codes: &Vec<u32>, code: u32) -> (found: bool)
    ensures
        found == codes@.contains(code),
{
    let mut i: usize = 0;
    while i < codes.len()
        invariant
            i <= codes@.len(),
            forall|j: int| 0 <= j < i ==> codes@[j] != code,
        decreases codes@.len() - i,
    {
        if codes[i] == code {
            assert(codes@[i as int] == code);
            return true;
        }
        i += 1;
    }
    false
}

proof fn lemma_explicit(importable: Seq<Format>, code: u32)
    ensures
        forall|format: Format| #[trigger]
            explicit_layouts(importable, code).contains(format) <==> importable.contains(format)
                && format.code == code && format.modifier != INVALID,
    decreases importable.len(),
{
    if importable.len() > 0 {
        let rest = importable.drop_last();
        let last = importable.last();
        let named = explicit_layouts(rest, code);
        lemma_explicit(rest, code);
        assert forall|format: Format| #[trigger] importable.contains(format) <==> rest.contains(
            format,
        ) || format == last by {
            if importable.contains(format) {
                let i = choose|i: int| 0 <= i < importable.len() && importable[i] == format;
                if i < rest.len() {
                    assert(rest[i] == format);
                }
            }
            if rest.contains(format) {
                let i = choose|i: int| 0 <= i < rest.len() && rest[i] == format;
                assert(importable[i] == format);
            }
            assert(importable[importable.len() - 1] == last);
        }
        assert forall|format: Format| #[trigger] named.push(last).contains(format)
            <==> named.contains(format) || format == last by {
            let pushed = named.push(last);
            if pushed.contains(format) {
                let i = choose|i: int| 0 <= i < pushed.len() && pushed[i] == format;
                if i < named.len() {
                    assert(named[i] == format);
                }
            }
            if named.contains(format) {
                let i = choose|i: int| 0 <= i < named.len() && named[i] == format;
                assert(pushed[i] == format);
            }
            assert(pushed[named.len() as int] == last);
        }
    }
}

/// The table of a renderer whose driver said what it imports: every layout
/// the driver named, the candidates first, and no implicit one.
pub fn driver_tranche(importable: &FormatSet) -> (tranche: Vec<Format>)
    ensures
        tranche@ == driver_table(importable@),
{
    let formats = importable.formats();
    let mut codes: Vec<u32> = candidate_codes();
    let mut i: usize = 0;
    assert(formats@.take(0) =~= Seq::empty());
    while i < formats.len()
        invariant
            i <= formats@.len(),
            codes@ == fourccs(formats@.take(i as int)),
        decreases formats@.len() - i,
    {
        proof {
            assert(formats@.take(i + 1).drop_last() =~= formats@.take(i as int));
            assert(formats@.take(i + 1).last() == formats@[i as int]);
        }
        let code: u32 = formats[i].code;
        if !contains_code(&codes, code) {
            codes.push(code);
        }
        i += 1;
    }
    assert(formats@.take(i as int) =~= formats@);
    let candidates_list = candidate_codes();
    let mut tranche: Vec<Format> = Vec::new();
    let mut c: usize = 0;
    assert(table_of(importable@, codes@.take(0)) =~= Seq::empty());
    while c < codes.len()
        invariant
            c <= codes@.len(),
            formats@ == importable@,
            candidates_list@ == candidates(),
            tranche@ == table_of(importable@, codes@.take(c as int)),
        decreases codes@.len() - c,
    {
        let code: u32 = codes[c];
        let ghost before = tranche@;
        let mut named: bool = false;
        let mut k: usize = 0;
        assert(formats@.take(0) =~= Seq::empty());
        while k < formats.len()
            invariant
                k <= formats@.len(),
                tranche@ == before + explicit_layouts(formats@.take(k as int), code),
                named == (explicit_layouts(formats@.take(k as int), code).len() > 0),
            decreases formats@.len() - k,
        {
            proof {
                assert(formats@.take(k + 1).drop_last() =~= formats@.take(k as int));
                assert(formats@.take(k + 1).last() == formats@[k as int]);
            }
            let format: Format = formats[k];
            if format.code == code && format.modifier != INVALID {
                tranche.push(format);
                named = true;
            }
            k += 1;
            assert(tranche@ =~= before + explicit_layouts(formats@.take(k as int), code));
        }
        assert(formats@.take(k as int) =~= formats@);
        if !named && contains_code(&candidates_list, code) {
            proof {
                lemma_explicit(importable@, code);
                let linear = Format { code, modifier: LINEAR };
                if importable@.contains(linear) {
                    assert(explicit_layouts(importable@, code).contains(linear));
                }
            }
            if importable.contains(Format { code, modifier: LINEAR }) || importable.contains(
                Format { code, modifier: INVALID },
            ) {
                tranche.push(Format { code, modifier: LINEAR });
            }
        }
        c += 1;
        proof {
            assert(codes@.take(c as int).drop_last() =~= codes@.take(c - 1));
            assert(codes@.take(c as int).last() == code);
            assert(tranche@ =~= before + entries_for(importable@, code));
        }
    }
    assert(codes@.take(c as int) =~= codes@);
    tranche
}

/// An entry is the documented widening: a candidate at `LINEAR` whose fourcc
/// the driver named no layout for and did list at an implicit one.
pub open spec fn is_widening(importable: Seq<Format>, entry: Format) -> bool {
    &&& entry.modifier == LINEAR
    &&& candidates().contains(entry.code)
    &&& importable.contains(Format { code: entry.code, modifier: INVALID })
    &&& forall|format: Format| #[trigger]
        importable.contains(format) && format.code == entry.code ==> format.modifier == INVALID
}

/// Some format of `importable` has the fourcc `code`.
pub open spec fn lists(importable: Seq<Format>, code: u32) -> bool {
    exists|format: Format| #[trigger] importable.contains(format) && format.code == code
}

proof fn lemma_fourccs(importable: Seq<Format>)
    ensures
        fourccs(importable).no_duplicates(),
        fourccs(importable).len() >= 2,
        fourccs(importable).take(2) == candidates(),
        forall|format: Format| #[trigger]
            importable.contains(format) ==> fourccs(importable).contains(format.code),
        forall|i: int|
            2 <= i < fourccs(importable).len() ==> lists(
                importable,
                #[trigger] fourccs(importable)[i],
            ),
    decreases importable.len(),
{
    if importable.len() > 0 {
        let rest = importable.drop_last();
        let last = importable.last();
        let codes = fourccs(rest);
        lemma_fourccs(rest);
        assert forall|format: Format| #[trigger] importable.contains(format) implies fourccs(
            importable,
        ).contains(format.code) by {
            let i = choose|i: int| 0 <= i < importable.len() && importable[i] == format;
            if i < rest.len() {
                assert(rest[i] == format);
                assert(rest.contains(format));
                let k = choose|k: int| 0 <= k < codes.len() && codes[k] == format.code;
                assert(fourccs(importable)[k] == format.code);
            } else if !codes.contains(last.code) {
                assert(fourccs(importable)[codes.len() as int] == last.code);
            }
        }
        assert forall|i: int| 2 <= i < fourccs(importable).len() implies lists(
            importable,
            #[trigger] fourccs(importable)[i],
        ) by {
            if i < codes.len() {
                assert(lists(rest, codes[i]));
                let format = choose|format: Format| #[trigger]
                    rest.contains(format) && format.code == codes[i];
                let k = choose|k: int| 0 <= k < rest.len() && rest[k] == format;
                assert(importable[k] == format);
                assert(importable.contains(format) && format.code == fourccs(importable)[i]);
            } else {
                assert(importable[importable.len() - 1] == last);
                assert(importable.contains(last) && last.code == fourccs(importable)[i]);
            }
        }
        assert(fourccs(importable).take(2) =~= codes.take(2));
    } else {
        assert(candidates().take(2) =~= candidates());
    }
}

proof fn lemma_table_of(importable: Seq<Format>, codes: Seq<u32>, entry: Format)
    ensures
        table_of(importable, codes).contains(entry) <==> exists|i: int|
            0 <= i < codes.len() && entries_for(importable, #[trigger] codes[i]).contains(entry),
    decreases codes.len(),
{
    if codes.len() > 0 {
        let rest = codes.drop_last();
        let before = table_of(importable, rest);
        let added = entries_for(importable, codes.last());
        let table = table_of(importable, codes);
        lemma_table_of(importable, rest, entry);
        if table.contains(entry) {
            let i = choose|i: int| 0 <= i < table.len() && table[i] == entry;
            if i < before.len() {
                assert(before[i] == entry);
                let k = choose|k: int|
                    0 <= k < rest.len() && entries_for(importable, #[trigger] rest[k]).contains(
                        entry,
                    );
                assert(codes[k] == rest[k]);
            } else {
                assert(added[i - before.len()] == entry);
                assert(codes[codes.len() - 1] == codes.last());
            }
        }
        if exists|i: int|
            0 <= i < codes.len() && entries_for(importable, #[trigger] codes[i]).contains(entry) {
            let k = choose|k: int|
                0 <= k < codes.len() && entries_for(importable, #[trigger] codes[k]).contains(
                    entry,
                );
            if k < rest.len() {
                assert(rest[k] == codes[k]);
                let i = choose|i: int| 0 <= i < before.len() && before[i] == entry;
                assert(table[i] == entry);
            } else {
                let i = choose|i: int| 0 <= i < added.len() && added[i] == entry;
                assert(table[before.len() + i] == entry);
            }
        }
    }
}

/// Every advertised pair is the driver's own or the documented widening, and
/// no implicit layout is ever advertised.
pub proof fn advertised_pairs_are_the_drivers_own(importable: Seq<Format>, entry: Format)
    requires
        driver_table(importable).contains(entry),
    ensures
        entry.modifier != INVALID,
        importable.contains(entry) || is_widening(importable, entry),
{
    lemma_table_of(importable, fourccs(importable), entry);
    let codes = fourccs(importable);
    let k = choose|k: int|
        0 <= k < codes.len() && entries_for(importable, #[trigger] codes[k]).contains(entry);
    let code = codes[k];
    lemma_explicit(importable, code);
    if explicit_layouts(importable, code).len() == 0 {
        let widened = seq![Format { code, modifier: LINEAR }];
        assert(entries_for(importable, code) == widened || entries_for(importable, code).len()
            == 0);
        assert(entry == Format { code, modifier: LINEAR });
        assert forall|format: Format| #[trigger]
            importable.contains(format) && format.code == entry.code implies format.modifier
            == INVALID by {
            if format.modifier != INVALID {
                assert(explicit_layouts(importable, code).contains(format));
            }
        }
    }
}

/// Every layout the driver named is advertised.
pub proof fn every_named_layout_is_advertised(importable: Seq<Format>, format: Format)
    requires
        importable.contains(format),
        format.modifier != INVALID,
    ensures
        driver_table(importable).contains(format),
{
    lemma_fourccs(importable);
    lemma_explicit(importable, format.code);
    lemma_table_of(importable, fourccs(importable), format);
    let codes = fourccs(importable);
    let k = choose|k: int| 0 <= k < codes.len() && codes[k] == format.code;
    assert(explicit_layouts(importable, format.code).contains(format));
    assert(entries_for(importable, codes[k]).contains(format));
}

/// Each fourcc is named once, so its layouts stand together; the candidates
/// lead, in their order, and every other fourcc is one the driver listed.
pub proof fn candidates_lead_the_table(importable: Seq<Format>)
    ensures
        fourccs(importable).no_duplicates(),
        fourccs(importable).len() >= 2,
        fourccs(importable)[0] == XRGB8888,
        fourccs(importable)[1] == ARGB8888,
        forall|i: int|
            2 <= i < fourccs(importable).len() ==> lists(
                importable,
                #[trigger] fourccs(importable)[i],
            ),
{
    lemma_fourccs(importable);
    assert(fourccs(importable).take(2)[0] == candidates()[0]);
    assert(fourccs(importable).take(2)[1] == candidates()[1]);
}

/// The documented widening is always offered: a candidate that the driver lists
/// at an implicit layout, and names no other for, is advertised at `LINEAR`.
pub proof fn every_widening_is_advertised(importable: Seq<Format>, entry: Format)
    requires
        is_widening(importable, entry),
    ensures
        driver_table(importable).contains(entry),
{
    let codes = fourccs(importable);
    lemma_fourccs(importable);
    lemma_explicit(importable, entry.code);
    let named = explicit_layouts(importable, entry.code);
    if named.len() > 0 {
        assert(named.contains(named[0]));
        assert(importable.contains(named[0]));
    }
    let k = choose|k: int| 0 <= k < codes.len() && codes[k] == entry.code;
    assert(codes.contains(entry.code)) by {
        assert(importable.contains(Format { code: entry.code, modifier: INVALID }));
    }
    assert(entries_for(importable, codes[k])[0] == entry);
    lemma_table_of(importable, codes, entry);
}

proof fn lemma_explicit_distinct(importable: Seq<Format>, code: u32)
    requires
        importable.no_duplicates(),
    ensures
        explicit_layouts(importable, code).no_duplicates(),
    decreases importable.len(),
{
    if importable.len() > 0 {
        let rest = importable.drop_last();
        lemma_explicit_distinct(rest, code);
        lemma_explicit(rest, code);
        assert(!rest.contains(importable.last()));
        assert(!explicit_layouts(rest, code).contains(importable.last()));
    }
}

proof fn lemma_table_distinct(importable: Seq<Format>, codes: Seq<u32>)
    requires
        importable.no_duplicates(),
        codes.no_duplicates(),
    ensures
        table_of(importable, codes).no_duplicates(),
        forall|entry: Format| #[trigger]
            table_of(importable, codes).contains(entry) ==> codes.contains(entry.code),
    decreases codes.len(),
{
    if codes.len() > 0 {
        let rest = codes.drop_last();
        let code = codes.last();
        let before = table_of(importable, rest);
        let added = entries_for(importable, code);
        let table = table_of(importable, codes);
        lemma_table_distinct(importable, rest);
        lemma_explicit(importable, code);
        lemma_explicit_distinct(importable, code);
        assert(!rest.contains(code));
        assert(codes[codes.len() - 1] == code);
        assert forall|i: int| 0 <= i < added.len() implies (#[trigger] added[i]).code == code by {
            let named = explicit_layouts(importable, code);
            if named.len() > 0 {
                assert(named.contains(named[i]));
            }
        }
        assert forall|i: int, j: int|
            0 <= i < table.len() && 0 <= j < table.len() && i != j implies table[i] != table[j] by {
            let n = before.len();
            if i < n && j >= n {
                assert(before.contains(before[i]));
                assert(added[j - n].code == code);
            }
            if j < n && i >= n {
                assert(before.contains(before[j]));
                assert(added[i - n].code == code);
            }
            if i >= n && j >= n {
                assert(added[i - n] != added[j - n]);
            }
        }
        assert forall|entry: Format| #[trigger] table.contains(entry) implies codes.contains(
            entry.code,
        ) by {
            let i = choose|i: int| 0 <= i < table.len() && table[i] == entry;
            if i < before.len() {
                assert(before.contains(before[i]));
                let k = choose|k: int| 0 <= k < rest.len() && rest[k] == entry.code;
                assert(codes[k] == entry.code);
            } else {
                assert(added[i - before.len()].code == code);
            }
        }
    }
}

/// No pair is advertised twice.
pub proof fn no_pair_is_advertised_twice(importable: Seq<Format>)
    requires
        importable.no_duplicates(),
    ensures
        driver_table(importable).no_duplicates(),
{
    lemma_fourccs(importable);
    lemma_table_distinct(importable, fourccs(importable));
}

/// A renderer that imports nothing is advertised nothing.
pub proof fn nothing_importable_advertises_nothing()
    ensures
        driver_table(Seq::<Format>::empty()) == Seq::<Format>::empty(),
        cpu_mapped_table(false, false) == Seq::<Format>::empty(),
{
    let none = Seq::<Format>::empty();
    let codes = fourccs(none);
    assert(codes =~= candidates());
    assert(codes.drop_last() =~= seq![XRGB8888]);
    assert(codes.drop_last().drop_last() =~= Seq::<u32>::empty());
    assert(entries_for(none, XRGB8888) =~= Seq::empty());
    assert(entries_for(none, ARGB8888) =~= Seq::empty());
    assert(table_of(none, codes.drop_last().drop_last()) =~= Seq::empty());
    assert(table_of(none, codes.drop_last()) =~= Seq::empty());
    assert(table_of(none, codes) =~= Seq::empty());
}

/// Where the answer to what a renderer imports comes from.
pub enum ImportSet {
    /// Buffers are mapped on the CPU; each format is asked about.
    CpuMapped,
    /// The driver listed what it imports.
    Driver(FormatSet),
}

/// `table` is the feedback table of a renderer that answers `set`.
pub open spec fn is_advertised<F: Fn(Format) -> bool>(
    set: ImportSet,
    can_import: F,
    table: Seq<Format>,
) -> bool {
    match set {
        ImportSet::CpuMapped => exists|opaque: bool, alpha: bool|
            {
                &&& evidence(can_import, XRGB8888, opaque)
                &&& evidence(can_import, ARGB8888, alpha)
                &&& table == #[trigger] cpu_mapped_table(opaque, alpha)
            },
        ImportSet::Driver(importable) => table == driver_table(importable@),
    }
}

/// The feedback table of a renderer that answers `set`, in wire order.
pub fn advertised_formats<F: Fn(Format) -> bool>(set: &ImportSet, can_import: &F) -> (formats: Vec<
    Format,
>)
    requires
        *set is CpuMapped ==> askable(*can_import, XRGB8888) && askable(*can_import, ARGB8888),
    ensures
        is_advertised(*set, *can_import, formats@),
{
    match set {
        ImportSet::CpuMapped => cpu_mapped_tranche(can_import),
        ImportSet::Driver(importable) => driver_tranche(importable),
    }
}

/// What was advertised: the main device, and the table in wire order.
pub struct DefaultFeedback {
    pub device: u64,
    pub formats: Vec<Format>,
}

/// Decides what the global offers: nothing for a renderer that imports
/// nothing, nothing when the feedback cannot be built, and otherwise the
/// renderer's own table on the main device. `main` names that device and
/// `build` builds the feedback; both are asked only of a table that is not
/// empty.
pub fn advertise<
    F: Fn(Format) -> bool,
    D: FnOnce() -> u64,
    B: FnOnce(u64, Vec<Format>) -> bool,
>(set: &ImportSet, can_import: &F, main: D, build: B) -> (offered: Option<DefaultFeedback>)
    requires
        *set is CpuMapped ==> askable(*can_import, XRGB8888) && askable(*can_import, ARGB8888),
        (exists|table: Seq<Format>| #[trigger]
            is_advertised(*set, *can_import, table) && table.len() > 0) ==> call_requires(main, ()),
        forall|device: u64, table: Vec<Format>|
            table@.len() > 0 && is_advertised(*set, *can_import, table@) && call_ensures(
                main,
                (),
                device,
            ) ==> #[trigger] call_requires(build, (device, table)),
    ensures
        exists|table: Vec<Format>| #[trigger]
            is_advertised(*set, *can_import, table@) && if table@.len() == 0 {
                offered is None
            } else {
                exists|device: u64| #[trigger]
                    call_ensures(main, (), device) && match offered {
                        Some(default) => {
                            &&& default.device == device
                            &&& default.formats@ == table@
                            &&& built_on(build, device, table@, true)
                        },
                        None => built_on(build, device, table@, false),
                    }
            },
{
    let formats = advertised_formats(set, can_import);
    if formats.is_empty() {
        return None;
    }
    assert(is_advertised(*set, *can_import, formats@));
    let device: u64 = main();
    let handed = formats.clone();
    assert(handed@ =~= formats@);
    let made: bool = build(device, handed);
    assert(built_on(build, device, formats@, made));
    if made {
        Some(DefaultFeedback { device, formats })
    } else {
        None
    }
}

/// `made` is what `build` answered of `table` on `device`.
pub open spec fn built_on<B: FnOnce(u64, Vec<Format>) -> bool>(
    build: B,
    device: u64,
    table: Seq<Format>,
    made: bool,
) -> bool {
    exists|handed: Vec<Format>|
        handed@ == table && #[trigger] call_ensures(build, (device, handed), made)
}

/// The device ladder below the renderer's own: the render node, the card, and
/// no device at all. Answers the device and which rung it came from.
pub fn main_device_from<R: FnOnce() -> Option<u64>, C: FnOnce() -> Option<u64>>(
    render: R,
    card0: C,
) -> (answer: (u64, &'static str))
    requires
        call_requires(render, ()),
        call_ensures(render, (), None) ==> call_requires(card0, ()),
    ensures
        exists|node: Option<u64>| #[trigger]
            call_ensures(render, (), node) && match node {
                Some(device) => answer.0 == device && answer.1@ == "/dev/dri/renderD128"@,
                None => exists|card: Option<u64>| #[trigger]
                    call_ensures(card0, (), card) && match card {
                        Some(device) => answer.0 == device && answer.1@ == "/dev/dri/card0"@,
                        None => answer.0 == 0 && answer.1@ == "no DRM node"@,
                    },
            },
{
    let node = render();
    if let Some(device) = node {
        return (device, "/dev/dri/renderD128");
    }
    let card = card0();
    if let Some(device) = card {
        return (device, "/dev/dri/card0");
    }
    (0, "no DRM node")
}

/// The device a client should allocate against: the renderer's own, where it
/// has one, and otherwise the ladder's.
pub fn main_device<R: FnOnce() -> Option<u64>, C: FnOnce() -> Option<u64>>(
    renderer: Option<u64>,
    render: R,
    card0: C,
) -> (answer: (u64, &'static str))
    requires
        renderer is None ==> {
            &&& call_requires(render, ())
            &&& call_ensures(render, (), None) ==> call_requires(card0, ())
        },
    ensures
        match renderer {
            Some(device) => answer.0 == device && answer.1@ == "the renderer's own device"@,
            None => exists|node: Option<u64>| #[trigger]
                call_ensures(render, (), node) && match node {
                    Some(device) => answer.0 == device && answer.1@ == "/dev/dri/renderD128"@,
                    None => exists|card: Option<u64>| #[trigger]
                        call_ensures(card0, (), card) && match card {
                            Some(device) => answer.0 == device && answer.1@ == "/dev/dri/card0"@,
                            None => answer.0 == 0 && answer.1@ == "no DRM node"@,
                        },
                },
        },
{
    match renderer {
        Some(device) => (device, "the renderer's own device"),
        None => main_device_from(render, card0),
    }
}

/// Whether an object's destruction queues a drain: only in a session that has
/// imported a dma-buf, and only if none is queued already.
pub open spec fn queues_a_drain(state: State) -> bool {
    state.imports_dmabufs && !state.dmabuf_drain_queued
}

/// `state` once a destruction has queued a drain, if it does.
pub open spec fn drain_queued(state: State) -> State {
    State { dmabuf_drain_queued: state.dmabuf_drain_queued || queues_a_drain(state), ..state }
}

/// `state` once the queued drain has run.
pub open spec fn drained(state: State) -> State {
    State { dmabuf_drain_queued: false, ..state }
}

/// Queues the one idle that drops expired entries from the renderers' dma-buf
/// caches, and answers whether to: only a session that has imported one, and
/// only if none is queued already.
pub fn schedule_cache_drain(state: &mut State) -> (queue: bool)
    ensures
        queue == queues_a_drain(*old(state)),
        *final(state) == drain_queued(*old(state)),
{
    if !state.imports_dmabufs || state.dmabuf_drain_queued {
        return false;
    }
    state.dmabuf_drain_queued = true;
    true
}

/// Lets the next destruction queue another drain, and answers how many
/// renderers' caches this one cleans: every one.
pub fn drain_cache(state: &mut State) -> (renderers: usize)
    ensures
        renderers == old(state).backends@.len(),
        *final(state) == drained(*old(state)),
{
    state.dmabuf_drain_queued = false;
    state.backends.len()
}

/// What becomes of an import.
#[derive(Clone, Copy, Debug, PartialEq, Eq, Structural)]
pub enum ImportOutcome {
    /// Every renderer took the buffer; `first` when it is the session's first
    /// import, and `settled` the copies its planes are settled at, once known.
    Imported { first: bool, settled: Option<u8> },
    /// The renderer of `backend` refused it, or the session has none.
    Failed { backend: Option<usize> },
}

/// `refused` is the first of `n` backends that `import` answers no for, if
/// any; those before it were asked and took the buffer.
pub open spec fn first_refusal<F: Fn(usize) -> bool>(
    import: F,
    n: usize,
    refused: Option<usize>,
) -> bool {
    let taken = match refused {
        Some(backend) => backend,
        None => n,
    };
    &&& forall|i: usize| i < taken ==> #[trigger] call_ensures(import, (i,), true)
    &&& refused is Some ==> refused->0 < n && call_ensures(import, (refused->0,), false)
}

/// The buffer counts once a refused import has handed its unit back.
pub open spec fn handed_back(buffers: Map<u64, u32>, client: Option<u64>) -> Map<u64, u32> {
    match client {
        Some(client) => forgotten(buffers, client),
        None => buffers,
    }
}

/// Hands back the live-buffer unit that was claimed for a creation whose
/// import failed, if its client is still known.
pub fn refuse_import(buffers: &mut LiveCounts, client: Option<u64>)
    requires
        old(buffers).wf(),
    ensures
        final(buffers).wf(),
        final(buffers).cap() == old(buffers).cap(),
        final(buffers)@ == handed_back(old(buffers)@, client),
{
    if let Some(client) = client {
        buffers.forget(client);
    }
}

/// The first `n` backends all took the buffer.
pub open spec fn took_all<F: Fn(usize) -> bool>(import: F, n: usize) -> bool {
    forall|j: usize| j < n ==> #[trigger] call_ensures(import, (j,), true)
}

fn import_into_every<F: Fn(usize) -> bool>(import: &F, n: usize) -> (refused: Option<usize>)
    requires
        forall|i: usize|
            i < n && took_all(*import, i) ==> #[trigger] call_requires(*import, (i,)),
    ensures
        first_refusal(*import, n, refused),
{
    let mut i: usize = 0;
    while i < n
        invariant
            i <= n,
            forall|j: usize|
                j < n && took_all(*import, j) ==> #[trigger] call_requires(*import, (j,)),
            took_all(*import, i),
        decreases n - i,
    {
        let taken: bool = import(i);
        if !taken {
            return Some(i);
        }
        i += 1;
    }
    None
}

/// `outcome` and `after` are what importing a client's dma-buf in `before` may come to.
pub open spec fn imported_as<
    F: Fn(usize) -> bool,
    I: FnOnce() -> Option<(u64, u64)>,
    N: FnOnce(u64, u64) -> bool,
    C: Fn(u64, u64) -> Option<usize>,
    V: FnOnce() -> Vec<Option<(u64, u64)>>,
>(
    before: State,
    after: State,
    client: Option<u64>,
    import: F,
    identity: I,
    pool_names: N,
    fds_naming: C,
    identities: V,
    outcome: ImportOutcome,
) -> bool {
    match outcome {
        ImportOutcome::Imported { first, settled } => {
            &&& before.backends@.len() > 0
            &&& first_refusal(import, before.backends@.len() as usize, None)
            &&& first == !before.imports_dmabufs
            &&& after.imports_dmabufs
            &&& after.wl_buffers == before.wl_buffers
            &&& exists|probe: Option<Probe>|
                {
                    &&& probed(
                        before.renderer_plane_copies,
                        gles_count(before.backends@),
                        identity,
                        pool_names,
                        fds_naming,
                        probe,
                    )
                    &&& #[trigger] charged(
                        before.renderer_plane_copies,
                        gles_count(before.backends@),
                        probe,
                        fds_naming,
                        identities,
                        after.renderer_plane_copies,
                        settled,
                    )
                }
        },
        ImportOutcome::Failed { backend } => {
            &&& backend is None <==> before.backends@.len() == 0
            &&& backend is Some ==> first_refusal(
                import,
                before.backends@.len() as usize,
                backend,
            )
            &&& after.imports_dmabufs == before.imports_dmabufs
            &&& after.renderer_plane_copies == before.renderer_plane_copies
            &&& after.wl_buffers@ == handed_back(before.wl_buffers@, client)
        },
    }
}

impl State {
    /// Imports a client's dma-buf into every renderer; the first refusal
    /// decides, after which none is asked, and hands the client's live-buffer
    /// unit back. A success is charged to the client's planes.
    ///
    /// `import` imports into one backend. The rest is what measuring the
    /// renderer's copies takes: the identity of the buffer's file, whether a
    /// pool is open on a file, how many fds name one, and the identity of each
    /// plane's file afterwards.
    pub fn dmabuf_imported<
        F: Fn(usize) -> bool,
        I: FnOnce() -> Option<(u64, u64)>,
        N: FnOnce(u64, u64) -> bool,
        C: Fn(u64, u64) -> Option<usize>,
        V: FnOnce() -> Vec<Option<(u64, u64)>>,
    >(
        &mut self,
        client: Option<u64>,
        import: F,
        identity: I,
        pool_names: N,
        fds_naming: C,
        identities: V,
    ) -> (outcome: ImportOutcome)
        requires
            old(self).wf(),
            forall|i: usize|
                i < old(self).backends@.len() && took_all(import, i) ==> #[trigger] call_requires(
                    import,
                    (i,),
                ),
            old(self).renderer_plane_copies is None && gles_count(old(self).backends@) > 0 ==> {
                &&& call_requires(identity, ())
                &&& forall|dev: u64, ino: u64|
                    call_ensures(identity, (), Some((dev, ino))) ==> #[trigger] call_requires(
                        pool_names,
                        (dev, ino),
                    )
                &&& forall|dev: u64, ino: u64|
                    names_no_pool(identity, pool_names, dev, ino) ==> #[trigger] call_requires(
                        fds_naming,
                        (dev, ino),
                    )
                &&& forall|dev: u64, ino: u64, after: usize|
                    names_no_pool(identity, pool_names, dev, ino) && #[trigger] call_ensures(
                        fds_naming,
                        (dev, ino),
                        Some(after),
                    ) && took_all(import, old(self).backends@.len() as usize) ==> call_requires(
                        identities,
                        (),
                    )
            },
        ensures
            final(self).wf(),
            *final(self) == (State {
                wl_buffers: final(self).wl_buffers,
                imports_dmabufs: final(self).imports_dmabufs,
                renderer_plane_copies: final(self).renderer_plane_copies,
                ..*old(self)
            }),
            imported_as(
                *old(self),
                *final(self),
                client,
                import,
                identity,
                pool_names,
                fds_naming,
                identities,
                outcome,
            ),
    {
        if self.backends.is_empty() {
            refuse_import(&mut self.wl_buffers, client);
            return ImportOutcome::Failed { backend: None };
        }
        let probe = Probe::before(self, identity, pool_names, &fds_naming);
        match import_into_every(&import, self.backends.len()) {
            None => {
                let first: bool = !self.imports_dmabufs;
                self.imports_dmabufs = true;
                let settled = charge(self, probe, &fds_naming, identities);
                ImportOutcome::Imported { first, settled }
            },
            Some(backend) => {
                refuse_import(&mut self.wl_buffers, client);
                ImportOutcome::Failed { backend: Some(backend) }
            },
        }
    }
}

/// However many destructions ask, one drain is queued until it has run, and
/// none before the session's first import; once it has run, the next
/// destruction queues another.
pub proof fn one_drain_per_batch(state: State)
    ensures
        !state.imports_dmabufs ==> !queues_a_drain(state),
        !queues_a_drain(drain_queued(state)),
        drain_queued(drain_queued(state)) == drain_queued(state),
        state.imports_dmabufs ==> queues_a_drain(drained(drain_queued(state))),
{
}

/// A creation whose import is refused leaves its client's live buffers as they
/// were before it was counted.
pub proof fn a_refused_import_leaves_no_trace(buffers: LiveCounts, client: u64)
    requires
        buffers.wf(),
        live(buffers@, client) < buffers.cap(),
    ensures
        handed_back(claimed(buffers@, client), Some(client)) == buffers@,
{
    a_claim_forgotten_leaves_no_trace(buffers@, client);
}

/// Where `id` stands among the outputs, or past their end.
pub open spec fn output_at(outputs: Seq<Output>, id: u64) -> int
    decreases outputs.len(),
{
    if outputs.len() == 0 || outputs[0].id == id {
        0
    } else {
        1 + output_at(outputs.drop_first(), id)
    }
}

/// The root surface of the fullscreen window covering output `id`.
pub open spec fn covering_of(outputs: Seq<Output>, id: u64) -> Option<u64> {
    let at = output_at(outputs, id);
    if at < outputs.len() {
        outputs[at].covering
    } else {
        None
    }
}

/// `after` and `sends` are what refreshing the primary output's feedback for `key` in `before` may
/// come to: nothing where it was built for it, and otherwise what installing does of what `rebuild`
/// answers, which is asked only where a default feedback was advertised.
pub open spec fn installed_as<R: FnOnce() -> Option<u64>, A: FnOnce(u64) -> bool>(
    before: State,
    after: Trackers,
    key: FormatsKey,
    rebuild: R,
    is_alive: A,
    sends: Seq<Send>,
) -> bool {
    let output = before.outputs@[0].id;
    let trackers = before.scanout_feedback@;
    let tracker = tracker_of(trackers, output);
    if tracker.built_for(key) {
        &&& after == with_tracker(trackers, output, tracker)
        &&& sends.len() == 0
    } else {
        exists|feedback: Option<u64>, alive: bool|
            {
                let step = #[trigger] install_step(
                    tracker,
                    key,
                    feedback,
                    before.dmabuf_default,
                    alive,
                );
                &&& if before.dmabuf_default is Some {
                    call_ensures(rebuild, (), feedback)
                } else {
                    feedback is None
                }
                &&& tracker.target is Some ==> call_ensures(is_alive, (tracker.target->0,), alive)
                &&& after == with_tracker(trackers, output, step.0)
                &&& sends == step.1
            }
    }
}

impl State {
    fn covering(&self, output: u64) -> (surface: Option<u64>)
        ensures
            surface == covering_of(self.outputs@, output),
    {
        let mut i: usize = 0;
        assert(self.outputs@.skip(0) =~= self.outputs@);
        while i < self.outputs.len()
            invariant
                i <= self.outputs@.len(),
                output_at(self.outputs@, output) == i + output_at(
                    self.outputs@.skip(i as int),
                    output,
                ),
            decreases self.outputs@.len() - i,
        {
            if self.outputs[i].id == output {
                return self.outputs[i].covering;
            }
            assert(self.outputs@.skip(i as int).drop_first() =~= self.outputs@.skip(i + 1));
            i += 1;
        }
        None
    }

    /// One frame's steering for `output`: its covering window's root surface
    /// is what is steered, and `eligible` is the frame's own judgement.
    pub fn steer_scanout_feedback<A: FnOnce(u64) -> bool, N: FnOnce() -> u64>(
        &mut self,
        output: u64,
        eligible: bool,
        is_alive: A,
        now: N,
    ) -> (steered: (Steer, Vec<Send>))
        requires
            ({
                let tracker = tracker_of(old(self).scanout_feedback@, output);
                let covering = covering_of(old(self).outputs@, output);
                &&& tracker.target is Some ==> call_requires(is_alive, (tracker.target->0,))
                &&& may_read_clock(tracker, covering, eligible, is_alive) ==> call_requires(now, ())
            }),
        ensures
            *final(self) == (State {
                scanout_feedback: final(self).scanout_feedback,
                ..*old(self)
            }),
            steered_as(
                old(self).scanout_feedback@,
                final(self).scanout_feedback@,
                output,
                covering_of(old(self).outputs@, output),
                eligible,
                old(self).dmabuf_default,
                is_alive,
                now,
                steered.0,
                steered.1@,
            ),
    {
        let covering = self.covering(output);
        let default = self.dmabuf_default;
        self.scanout_feedback.steer(output, covering, eligible, default, is_alive, now)
    }

    /// Rebuilds the primary output's scanout feedback if it was built for
    /// anything but `key`, from `rebuild`, which is asked only where a default
    /// feedback was advertised.
    pub fn install_scanout_feedback<R: FnOnce() -> Option<u64>, A: FnOnce(u64) -> bool>(
        &mut self,
        key: FormatsKey,
        rebuild: R,
        is_alive: A,
    ) -> (sends: Vec<Send>)
        requires
            old(self).outputs@.len() > 0,
            ({
                let tracker = tracker_of(
                    old(self).scanout_feedback@,
                    old(self).outputs@[0].id,
                );
                !tracker.built_for(key) ==> {
                    &&& old(self).dmabuf_default is Some ==> call_requires(rebuild, ())
                    &&& tracker.target is Some ==> call_requires(is_alive, (tracker.target->0,))
                }
            }),
        ensures
            *final(self) == (State {
                scanout_feedback: final(self).scanout_feedback,
                ..*old(self)
            }),
            installed_as(
                *old(self),
                final(self).scanout_feedback@,
                key,
                rebuild,
                is_alive,
                sends@,
            ),
    {
        let output: u64 = self.outputs[0].id;
        let default = self.dmabuf_default;
        let advertised: bool = default.is_some();
        let rebuilt = || -> (feedback: Option<u64>)
            requires
                advertised ==> call_requires(rebuild, ()),
            ensures
                if advertised {
                    call_ensures(rebuild, (), feedback)
                } else {
                    feedback is None
                },
        {
            if advertised {
                rebuild()
            } else {
                None
            }
        };
        self.scanout_feedback.refresh(output, key, default, rebuilt, is_alive)
    }

    /// One frame's steering of the primary output at `now`, judged by whether
    /// its frames may go direct.
    pub fn steer_now<A: FnOnce(u64) -> bool>(&mut self, now: u64, is_alive: A) -> (steered: (
        Steer,
        Vec<Send>,
    ))
        requires
            old(self).outputs@.len() > 0,
            ({
                let tracker = tracker_of(
                    old(self).scanout_feedback@,
                    old(self).outputs@[0].id,
                );
                tracker.target is Some ==> call_requires(is_alive, (tracker.target->0,))
            }),
        ensures
            *final(self) == (State {
                scanout_feedback: final(self).scanout_feedback,
                ..*old(self)
            }),
            exists|alive: bool|
                {
                    let primary = old(self).outputs@[0];
                    let tracker = tracker_of(old(self).scanout_feedback@, primary.id);
                    let step = #[trigger] steer_step(
                        tracker_of(old(self).scanout_feedback@, old(self).outputs@[0].id),
                        old(self).outputs@[0].covering,
                        old(self).outputs@[0].direct,
                        old(self).dmabuf_default,
                        alive,
                        now,
                    );
                    &&& tracker.target is Some ==> call_ensures(
                        is_alive,
                        (tracker.target->0,),
                        alive,
                    )
                    &&& final(self).scanout_feedback@ == with_tracker(
                        old(self).scanout_feedback@,
                        primary.id,
                        step.tracker,
                    )
                    &&& steered.0 == step.steer
                    &&& steered.1@ == step.sends
                },
    {
        let output: u64 = self.outputs[0].id;
        let eligible: bool = self.outputs[0].direct;
        let clock = || -> (time: u64)
            ensures
                time == now,
        { now };
        assert(output_at(self.outputs@, output) == 0);
        let steered = self.steer_scanout_feedback(output, eligible, is_alive, clock);
        proof {
            let (alive, time) = choose|alive: bool, time: u64|
                {
                    let tracker = tracker_of(old(self).scanout_feedback@, output);
                    let step = #[trigger] steer_step(
                        tracker_of(old(self).scanout_feedback@, output),
                        covering_of(old(self).outputs@, output),
                        eligible,
                        old(self).dmabuf_default,
                        alive,
                        time,
                    );
                    &&& tracker.target is Some ==> call_ensures(
                        is_alive,
                        (tracker.target->0,),
                        alive,
                    )
                    &&& step.reads_clock ==> call_ensures(clock, (), time)
                    &&& self.scanout_feedback@ == with_tracker(
                        old(self).scanout_feedback@,
                        output,
                        step.tracker,
                    )
                    &&& steered.0 == step.steer
                    &&& steered.1@ == step.sends
                };
            let here = steer_step(
                tracker_of(old(self).scanout_feedback@, output),
                covering_of(old(self).outputs@, output),
                eligible,
                old(self).dmabuf_default,
                alive,
                now,
            );
            let there = steer_step(
                tracker_of(old(self).scanout_feedback@, output),
                covering_of(old(self).outputs@, output),
                eligible,
                old(self).dmabuf_default,
                alive,
                time,
            );
            assert(there.reads_clock == here.reads_clock);
            assert(there == here);
        }
        steered
    }
}

/// A pair is advertised exactly where it is at an explicit layout and the driver listed it, or where
/// it is opaque or alpha 32-bit RGB at `LINEAR`, the driver listed its fourcc at an implicit layout,
/// and at no other.
pub proof fn a_pair_is_advertised_for_what_the_driver_listed(importable: Seq<Format>, entry: Format)
    ensures
        driver_table(importable).contains(entry) <==> {
            ||| entry.modifier != INVALID && importable.contains(entry)
            ||| {
                &&& entry.modifier == LINEAR
                &&& entry.code == XRGB8888 || entry.code == ARGB8888
                &&& importable.contains(Format { code: entry.code, modifier: INVALID })
                &&& forall|i: int|
                    0 <= i < importable.len() && (#[trigger] importable[i]).code == entry.code
                        ==> importable[i].modifier == INVALID
            }
        },
{
    assert(candidates().contains(entry.code) <==> entry.code == XRGB8888 || entry.code == ARGB8888)
        by {
        assert(candidates()[0] == XRGB8888 && candidates()[1] == ARGB8888);
    }
    if driver_table(importable).contains(entry) {
        advertised_pairs_are_the_drivers_own(importable, entry);
        if is_widening(importable, entry) {
            assert forall|i: int|
                0 <= i < importable.len() && (#[trigger] importable[i]).code
                    == entry.code implies importable[i].modifier == INVALID by {
                assert(importable.contains(importable[i]));
            }
        }
    }
    if entry.modifier != INVALID && importable.contains(entry) {
        every_named_layout_is_advertised(importable, entry);
    }
    if {
        &&& entry.modifier == LINEAR
        &&& entry.code == XRGB8888 || entry.code == ARGB8888
        &&& importable.contains(Format { code: entry.code, modifier: INVALID })
        &&& forall|i: int|
            0 <= i < importable.len() && (#[trigger] importable[i]).code == entry.code
                ==> importable[i].modifier == INVALID
    } {
        assert forall|format: Format| #[trigger]
            importable.contains(format) && format.code == entry.code implies format.modifier
            == INVALID by {
            let i = choose|i: int| 0 <= i < importable.len() && importable[i] == format;
            assert(importable[i].code == entry.code);
        }
        every_widening_is_advertised(importable, entry);
    }
}

/// The layouts of a fourcc are advertised in the driver's order.
pub proof fn layouts_keep_the_drivers_order(importable: Seq<Format>, code: u32)
    ensures
        explicit_layouts(importable, code) == importable.filter(
            |format: Format| format.code == code && format.modifier != INVALID,
        ),
    decreases importable.len(),
{
    reveal(Seq::filter);
    if importable.len() > 0 {
        layouts_keep_the_drivers_order(importable.drop_last(), code);
    }
}

/// Whether a format of fourcc `a` stands in `importable` before any of fourcc `b`.
pub open spec fn listed_before(importable: Seq<Format>, a: u32, b: u32) -> bool {
    exists|p: int|
        {
            &&& 0 <= p < importable.len()
            &&& (#[trigger] importable[p]).code == a
            &&& forall|q: int|
                0 <= q < importable.len() && (#[trigger] importable[q]).code == b ==> p < q
        }
}

/// Behind the two candidates, fourccs come in the order in which the driver first listed each.
pub proof fn fourccs_keep_the_drivers_order(importable: Seq<Format>, i: int, j: int)
    requires
        2 <= i < j < fourccs(importable).len(),
    ensures
        listed_before(importable, fourccs(importable)[i], fourccs(importable)[j]),
    decreases importable.len(),
{
    let rest = importable.drop_last();
    let last = importable.last();
    let codes = fourccs(rest);
    let all = fourccs(importable);
    lemma_fourccs(rest);
    if importable.len() > 0 {
        assert(all[i] == codes[i]);
        if j < codes.len() {
            fourccs_keep_the_drivers_order(rest, i, j);
            let p = choose|p: int|
                {
                    &&& 0 <= p < rest.len()
                    &&& (#[trigger] rest[p]).code == codes[i]
                    &&& forall|q: int|
                        0 <= q < rest.len() && (#[trigger] rest[q]).code == codes[j] ==> p < q
                };
            assert(importable[p].code == all[i]);
            assert forall|q: int|
                0 <= q < importable.len() && (#[trigger] importable[q]).code
                    == all[j] implies p < q by {
                if q < rest.len() {
                    assert(rest[q].code == codes[j]);
                }
            }
        } else {
            assert(lists(rest, codes[i]));
            let format = choose|format: Format| #[trigger]
                rest.contains(format) && format.code == codes[i];
            let p = choose|p: int| 0 <= p < rest.len() && rest[p] == format;
            assert(importable[p].code == all[i]);
            assert forall|q: int|
                0 <= q < importable.len() && (#[trigger] importable[q]).code
                    == all[j] implies p < q by {
                if q < rest.len() {
                    assert(rest.contains(rest[q]));
                    assert(codes.contains(last.code));
                }
            }
        }
    }
}

/// What is advertised of each fourcc stands together, in the order of the fourccs: of two entries,
/// the later one's fourcc is the same or a later one.
pub proof fn the_table_goes_fourcc_by_fourcc(importable: Seq<Format>, codes: Seq<u32>, a: int, b: int)
    requires
        0 <= a < b < table_of(importable, codes).len(),
    ensures
        exists|i: int, j: int|
            {
                &&& 0 <= i <= j < codes.len()
                &&& #[trigger] codes[i] == table_of(importable, codes)[a].code
                &&& #[trigger] codes[j] == table_of(importable, codes)[b].code
            },
    decreases codes.len(),
{
    if codes.len() > 0 {
        let rest = codes.drop_last();
        let before = table_of(importable, rest);
        let added = entries_for(importable, codes.last());
        let table = table_of(importable, codes);
        let end = codes.len() - 1;
        assert forall|k: int| 0 <= k < added.len() implies (#[trigger] added[k]).code
            == codes.last() by {
            lemma_explicit(importable, codes.last());
            let named = explicit_layouts(importable, codes.last());
            if named.len() > 0 {
                assert(named.contains(named[k]));
            }
        }
        if b < before.len() {
            the_table_goes_fourcc_by_fourcc(importable, rest, a, b);
            let (i, j) = choose|i: int, j: int|
                {
                    &&& 0 <= i <= j < rest.len()
                    &&& #[trigger] rest[i] == before[a].code
                    &&& #[trigger] rest[j] == before[b].code
                };
            assert(codes[i] == table[a].code && codes[j] == table[b].code);
        } else {
            assert(table[b] == added[b - before.len()]);
            assert(codes[end] == table[b].code);
            if a < before.len() {
                assert(before.contains(before[a]));
                lemma_table_of(importable, rest, before[a]);
                let k = choose|k: int|
                    0 <= k < rest.len() && entries_for(importable, #[trigger] rest[k]).contains(
                        before[a],
                    );
                lemma_entries_code(importable, rest[k], before[a]);
                assert(codes[k] == table[a].code);
            } else {
                assert(table[a] == added[a - before.len()]);
                assert(codes[end] == table[a].code);
            }
        }
    }
}

proof fn lemma_entries_code(importable: Seq<Format>, code: u32, entry: Format)
    requires
        entries_for(importable, code).contains(entry),
    ensures
        entry.code == code,
{
    lemma_explicit(importable, code);
}

/// A renderer that maps buffers on the CPU is advertised at most the two 32-bit RGB formats, the
/// opaque one first, both linear: each exactly where it takes it.
pub proof fn a_mapping_renderer_is_offered_what_it_takes(opaque: bool, alpha: bool)
    ensures
        ({
            let table = cpu_mapped_table(opaque, alpha);
            let xrgb = Format { code: XRGB8888, modifier: LINEAR };
            let argb = Format { code: ARGB8888, modifier: LINEAR };
            &&& opaque && alpha ==> table == seq![xrgb, argb]
            &&& opaque && !alpha ==> table == seq![xrgb]
            &&& !opaque && alpha ==> table == seq![argb]
            &&& !opaque && !alpha ==> table.len() == 0
        }),
{
}

/// A renderer takes a linear buffer of a fourcc where it lists the fourcc at `LINEAR`, and where it
/// lists it at an implicit layout; and not where it lists it at neither.
pub proof fn a_listed_fourcc_is_evidence<F: Fn(Format) -> bool>(
    can_import: F,
    code: u32,
    accepted: bool,
)
    requires
        evidence(can_import, code, accepted),
    ensures
        accepted ==> call_ensures(can_import, (Format { code, modifier: LINEAR },), true)
            || call_ensures(can_import, (Format { code, modifier: INVALID },), true),
        !accepted ==> call_ensures(can_import, (Format { code, modifier: LINEAR },), false)
            && call_ensures(can_import, (Format { code, modifier: INVALID },), false),
{
}

/// An import goes into every backend in turn until one refuses it, which is the one that is
/// reported; it succeeds only where all of them took the buffer.
pub proof fn the_first_refusal_decides<F: Fn(usize) -> bool>(
    import: F,
    n: usize,
    refused: Option<usize>,
    backend: usize,
)
    requires
        first_refusal(import, n, refused),
    ensures
        refused is None && backend < n ==> call_ensures(import, (backend,), true),
        refused is Some ==> refused->0 < n && call_ensures(import, (refused->0,), false),
        refused is Some && backend < refused->0 ==> call_ensures(import, (backend,), true),
{
}

/// A refused import hands back one of its client's live buffers, if it has any, and nobody else's;
/// and none where the client is gone.
pub proof fn a_refused_import_hands_back_one_buffer(
    buffers: Map<u64, u32>,
    client: u64,
    other: u64,
)
    ensures
        live(buffers, client) > 0 ==> live(handed_back(buffers, Some(client)), client) == live(
            buffers,
            client,
        ) - 1,
        live(buffers, client) == 0 ==> live(handed_back(buffers, Some(client)), client) == 0,
        other != client ==> live(handed_back(buffers, Some(client)), other) == live(buffers, other),
        handed_back(buffers, None) == buffers,
{
}

/// The covering surface of an output is the one that the first output of its id has; an id that no
/// output has covers nothing.
pub proof fn an_output_is_covered_by_its_own_surface(outputs: Seq<Output>, id: u64, i: int)
    ensures
        0 <= i < outputs.len() && outputs[i].id == id && (forall|j: int|
            0 <= j < i ==> (#[trigger] outputs[j]).id != id) ==> covering_of(outputs, id)
            == outputs[i].covering,
        (forall|j: int| 0 <= j < outputs.len() ==> (#[trigger] outputs[j]).id != id)
            ==> covering_of(outputs, id) is None,
    decreases outputs.len(),
{
    if outputs.len() > 0 {
        let rest = outputs.drop_first();
        if outputs[0].id != id {
            an_output_is_covered_by_its_own_surface(rest, id, i - 1);
            lemma_output_at(rest, id);
            if forall|j: int| 0 <= j < outputs.len() ==> (#[trigger] outputs[j]).id != id {
                assert forall|j: int| 0 <= j < rest.len() implies (#[trigger] rest[j]).id
                    != id by {
                    assert(outputs[j + 1].id != id);
                }
            }
            if 0 < i < outputs.len() && outputs[i].id == id && (forall|j: int|
                0 <= j < i ==> (#[trigger] outputs[j]).id != id) {
                assert(rest[i - 1] == outputs[i]);
                assert forall|j: int| 0 <= j < i - 1 implies (#[trigger] rest[j]).id != id by {
                    assert(outputs[j + 1].id != id);
                }
            }
        }
    }
}

proof fn lemma_output_at(outputs: Seq<Output>, id: u64)
    ensures
        0 <= output_at(outputs, id) <= outputs.len(),
    decreases outputs.len(),
{
    if outputs.len() > 0 && outputs[0].id != id {
        lemma_output_at(outputs.drop_first(), id);
    }
}

/// A drain is queued exactly by a session that has imported a dma-buf and has none queued, and
/// queuing or running it changes nothing else.
pub proof fn a_drain_is_queued_once_there_is_something_to_drop(state: State)
    ensures
        queues_a_drain(state) <==> state.imports_dmabufs && !state.dmabuf_drain_queued,
        drain_queued(state).dmabuf_drain_queued <==> state.imports_dmabufs
            || state.dmabuf_drain_queued,
        !drained(state).dmabuf_drain_queued,
        drain_queued(state) == (State {
            dmabuf_drain_queued: drain_queued(state).dmabuf_drain_queued,
            ..state
        }),
        drained(state) == (State { dmabuf_drain_queued: false, ..state }),
{
}

/// The fourccs that are counted are those that some format has.
pub proof fn a_fourcc_is_counted_where_a_format_has_it(formats: Seq<Format>, code: u32)
    ensures
        distinct_codes(formats).contains(code) <==> exists|i: int|
            0 <= i < formats.len() && (#[trigger] formats[i]).code == code,
{
    let codes = formats.map_values(|format: Format| format.code);
    if codes.contains(code) {
        let i = choose|i: int| 0 <= i < codes.len() && codes[i] == code;
        assert(formats[i].code == code);
    }
    if exists|i: int| 0 <= i < formats.len() && (#[trigger] formats[i]).code == code {
        let i = choose|i: int| 0 <= i < formats.len() && (#[trigger] formats[i]).code == code;
        assert(codes[i] == code);
    }
}

/// An import succeeds exactly where there is a renderer and all of them take the buffer. It is the
/// session's first where none came before, keeps its client's unit, and is charged what a probe
/// taken before it teaches. One that fails names the renderer that refused it, after those before it
/// took it, gives its client's unit back, and teaches nothing.
pub proof fn an_import_is_taken_by_every_renderer_or_given_back<
    F: Fn(usize) -> bool,
    I: FnOnce() -> Option<(u64, u64)>,
    N: FnOnce(u64, u64) -> bool,
    C: Fn(u64, u64) -> Option<usize>,
    V: FnOnce() -> Vec<Option<(u64, u64)>>,
>(
    before: State,
    after: State,
    client: Option<u64>,
    import: F,
    identity: I,
    pool_names: N,
    fds_naming: C,
    identities: V,
    outcome: ImportOutcome,
    backend: usize,
)
    requires
        before.backends@.len() <= usize::MAX,
        imported_as(
            before,
            after,
            client,
            import,
            identity,
            pool_names,
            fds_naming,
            identities,
            outcome,
        ),
    ensures
        ({
            let n = before.backends@.len();
            let gles = before.backends@.filter(
                |kind: RendererKind| kind == RendererKind::Gles,
            ).len();
            match outcome {
                ImportOutcome::Imported { first, settled } => {
                    &&& n > 0
                    &&& backend < n ==> call_ensures(import, (backend,), true)
                    &&& first == !before.imports_dmabufs
                    &&& after.imports_dmabufs
                    &&& after.wl_buffers@ == before.wl_buffers@
                    &&& before.renderer_plane_copies is Some ==> after.renderer_plane_copies
                        == before.renderer_plane_copies
                    &&& settled is Some <==> gles > 0 && after.renderer_plane_copies is Some
                    &&& settled is Some && after.renderer_plane_copies->0 * gles <= 255
                        ==> settled->0 == after.renderer_plane_copies->0 * gles
                    &&& settled is Some && after.renderer_plane_copies->0 * gles > 255
                        ==> settled->0 == 255
                },
                ImportOutcome::Failed { backend: refused } => {
                    &&& refused is None <==> n == 0
                    &&& refused is Some ==> refused->0 < n && call_ensures(
                        import,
                        (refused->0,),
                        false,
                    )
                    &&& refused is Some && backend < refused->0 ==> call_ensures(
                        import,
                        (backend,),
                        true,
                    )
                    &&& after.imports_dmabufs == before.imports_dmabufs
                    &&& after.renderer_plane_copies == before.renderer_plane_copies
                    &&& client is None ==> after.wl_buffers@ == before.wl_buffers@
                    &&& client is Some && live(before.wl_buffers@, client->0) > 0 ==> live(
                        after.wl_buffers@,
                        client->0,
                    ) + 1 == live(before.wl_buffers@, client->0)
                },
            }
        }),
{
    only_gles_backends_are_counted(before.backends@);
}

/// The primary output's feedback is refreshed, and no other's: it is built for the key afterwards.
/// Where nothing was advertised it is built as nothing, without asking; otherwise a new one is asked
/// for only where it was not built for the key.
pub proof fn the_primary_output_is_refreshed<R: FnOnce() -> Option<u64>, A: FnOnce(u64) -> bool>(
    before: State,
    after: Trackers,
    key: FormatsKey,
    rebuild: R,
    is_alive: A,
    sends: Seq<Send>,
    other: u64,
)
    requires
        before.outputs@.len() > 0,
        installed_as(before, after, key, rebuild, is_alive, sends),
    ensures
        ({
            let primary = before.outputs@[0].id;
            let was = tracker_of(before.scanout_feedback@, primary);
            let is = tracker_of(after, primary);
            let fresh = was.built is None || (was.built->0).0 != key;
            &&& other != primary ==> tracker_of(after, other) == tracker_of(
                before.scanout_feedback@,
                other,
            )
            &&& is.built is Some && (is.built->0).0 == key
            &&& !fresh ==> is == was && sends.len() == 0
            &&& fresh && before.dmabuf_default is Some ==> call_ensures(
                rebuild,
                (),
                (is.built->0).1,
            )
            &&& fresh && before.dmabuf_default is None ==> (is.built->0).1 is None && sends.len()
                == 0
            &&& was.target is None ==> sends.len() == 0
            &&& sends.len() > 0 ==> was.target == Some(sends[0].surface)
        }),
{
    let primary = before.outputs@[0].id;
    let was = tracker_of(before.scanout_feedback@, primary);
    if was.built_for(key) {
        outputs_are_steered_apart(before.scanout_feedback@, primary, was, other);
    } else {
        let (feedback, alive) = choose|feedback: Option<u64>, alive: bool|
            {
                let step = #[trigger] install_step(
                    was,
                    key,
                    feedback,
                    before.dmabuf_default,
                    alive,
                );
                &&& if before.dmabuf_default is Some {
                    call_ensures(rebuild, (), feedback)
                } else {
                    feedback is None
                }
                &&& was.target is Some ==> call_ensures(is_alive, (was.target->0,), alive)
                &&& after == with_tracker(before.scanout_feedback@, primary, step.0)
                &&& sends == step.1
            };
        outputs_are_steered_apart(
            before.scanout_feedback@,
            primary,
            install_step(was, key, feedback, before.dmabuf_default, alive).0,
            other,
        );
    }
}

/// The main device is the renderer's own where it has one; otherwise that of the render node, and
/// only where there is none that of the card; and none, which is 0, where there is neither.
pub proof fn the_main_device_is_the_first_there_is<
    R: FnOnce() -> Option<u64>,
    C: FnOnce() -> Option<u64>,
>(renderer: Option<u64>, render: R, card0: C, answer: (u64, &'static str))
    requires
        call_ensures(main_device::<R, C>, (renderer, render, card0), answer),
    ensures
        renderer is Some ==> renderer == Some(answer.0),
        renderer is None ==> {
            ||| call_ensures(render, (), Some(answer.0))
            ||| call_ensures(render, (), None) && call_ensures(card0, (), Some(answer.0))
            ||| call_ensures(render, (), None) && call_ensures(card0, (), None) && answer.0 == 0
        },
{
}

/// What is offered is a table that the renderer's answers make, with at least one format, on the
/// main device, and only where a feedback could be built of them; nothing is offered only where the
/// table is empty or the feedback could not be built.
pub proof fn only_a_built_table_is_offered<
    F: Fn(Format) -> bool,
    D: FnOnce() -> u64,
    B: FnOnce(u64, Vec<Format>) -> bool,
>(set: ImportSet, can_import: F, main: D, build: B, offered: Option<DefaultFeedback>)
    requires
        call_ensures(advertise::<F, D, B>, (&set, &can_import, main, build), offered),
    ensures
        match offered {
            Some(default) => {
                &&& default.formats@.len() > 0
                &&& is_advertised(set, can_import, default.formats@)
                &&& call_ensures(main, (), default.device)
                &&& exists|handed: Vec<Format>|
                    handed@ == default.formats@ && #[trigger] call_ensures(
                        build,
                        (default.device, handed),
                        true,
                    )
            },
            None => {
                ||| is_advertised(set, can_import, Seq::empty())
                ||| exists|device: u64, handed: Vec<Format>|
                    {
                        &&& handed@.len() > 0
                        &&& is_advertised(set, can_import, handed@)
                        &&& call_ensures(main, (), device)
                        &&& #[trigger] call_ensures(build, (device, handed), false)
                    }
            },
        },
{
    let table = choose|table: Vec<Format>| #[trigger]
        is_advertised(set, can_import, table@) && if table@.len() == 0 {
            offered is None
        } else {
            exists|device: u64| #[trigger]
                call_ensures(main, (), device) && match offered {
                    Some(default) => {
                        &&& default.device == device
                        &&& default.formats@ == table@
                        &&& built_on(build, device, table@, true)
                    },
                    None => built_on(build, device, table@, false),
                }
        };
    if table@.len() == 0 {
        assert(table@ =~= Seq::empty());
    } else if offered is None {
        let device = choose|device: u64| #[trigger]
            call_ensures(main, (), device) && built_on(build, device, table@, false);
        let handed = choose|handed: Vec<Format>|
            handed@ == table@ && #[trigger] call_ensures(build, (device, handed), false);
        assert(call_ensures(build, (device, handed), false));
    }
}

/// A drain reaches every renderer, and lets the next one be queued.
pub proof fn a_drain_reaches_every_renderer(state: &mut State, renderers: usize)
    requires
        call_ensures(drain_cache, (state,), renderers),
    ensures
        renderers == old(state).backends@.len(),
        !final(state).dmabuf_drain_queued,
        final(state).backends == old(state).backends,
        final(state).imports_dmabufs == old(state).imports_dmabufs,
        final(state).wl_buffers == old(state).wl_buffers,
        final(state).renderer_plane_copies == old(state).renderer_plane_copies,
{
}

} // verus!
