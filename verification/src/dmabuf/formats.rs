//! Pixel formats: a fourcc and the modifier that names a layout of it.
//!
//! A renderer's set of formats and the format table are Smithay's. Smithay
//! links libxkbcommon into whatever names it, and this library links without
//! it. So both are held here as plain values, one for one: a [`FormatSet`] is
//! what a set lists, and a [`FormatTable`] has, for each fourcc, what
//! `get_opaque` and `get_bpp` answer of it.

use std::collections::HashMap;
use vstd::prelude::*;

verus! {

/// The modifier of a linear layout.
pub const LINEAR: u64 = 0;

/// The modifier of an implicit layout: one that was not named.
pub const INVALID: u64 = 0x00ff_ffff_ffff_ffff;

/// The fourcc of opaque 32-bit RGB.
pub const XRGB8888: u32 = 0x3432_5258;

/// The fourcc of 32-bit RGB with alpha.
pub const ARGB8888: u32 = 0x3432_5241;

/// A fourcc in one layout.
#[derive(Clone, Copy, Debug, PartialEq, Eq, Structural)]
pub struct Format {
    pub code: u32,
    pub modifier: u64,
}

/// A set of formats, in the order they were first added.
pub struct FormatSet {
    formats: Vec<Format>,
}

impl View for FormatSet {
    type V = Seq<Format>;

    closed spec fn view(&self) -> Seq<Format> {
        self.formats@
    }
}

/// `formats` with every repeat of an earlier one left out.
pub open spec fn deduplicated(formats: Seq<Format>) -> Seq<Format>
    decreases formats.len(),
{
    if formats.len() == 0 {
        Seq::empty()
    } else {
        let rest = deduplicated(formats.drop_last());
        if rest.contains(formats.last()) {
            rest
        } else {
            rest.push(formats.last())
        }
    }
}

impl FormatSet {
    /// No format occurs twice.
    pub open spec fn wf(&self) -> bool {
        self@.no_duplicates()
    }

    pub fn new() -> (set: FormatSet)
        ensures
            set.wf(),
            set@ == Seq::<Format>::empty(),
    {
        FormatSet { formats: Vec::new() }
    }

    /// The set of `formats`, in their order.
    pub fn from_formats(formats: &Vec<Format>) -> (set: FormatSet)
        ensures
            set.wf(),
            set@ == deduplicated(formats@),
    {
        let mut set = FormatSet::new();
        let mut i: usize = 0;
        assert(formats@.take(0) =~= Seq::empty());
        while i < formats.len()
            invariant
                i <= formats@.len(),
                set.wf(),
                set@ == deduplicated(formats@.take(i as int)),
            decreases formats@.len() - i,
        {
            proof {
                assert(formats@.take(i + 1).drop_last() =~= formats@.take(i as int));
                assert(formats@.take(i + 1).last() == formats@[i as int]);
            }
            set.insert(formats[i]);
            i += 1;
        }
        assert(formats@.take(i as int) =~= formats@);
        set
    }

    /// Adds `format` at the end, unless the set has it.
    pub fn insert(&mut self, format: Format)
        requires
            old(self).wf(),
        ensures
            final(self).wf(),
            final(self)@ == if old(self)@.contains(format) {
                old(self)@
            } else {
                old(self)@.push(format)
            },
    {
        if !self.contains(format) {
            self.formats.push(format);
        }
    }

    /// Whether the set has `format`.
    pub fn contains(&self, format: Format) -> (found: bool)
        ensures
            found == self@.contains(format),
    {
        let mut i: usize = 0;
        while i < self.formats.len()
            invariant
                i <= self.formats@.len(),
                forall|j: int| 0 <= j < i ==> self.formats@[j] != format,
            decreases self.formats@.len() - i,
        {
            if self.formats[i] == format {
                assert(self@[i as int] == format);
                return true;
            }
            i += 1;
        }
        false
    }

    /// The formats, in order.
    pub fn formats(&self) -> (formats: &Vec<Format>)
        ensures
            formats@ == self@,
    {
        &self.formats
    }
}

/// What the format table knows of a fourcc: the fourcc of its opaque twin, and
/// its bits per pixel.
#[derive(Clone, Copy, Debug, PartialEq, Eq, Structural)]
pub struct TableRow {
    pub opaque: Option<u32>,
    pub bits_per_pixel: Option<usize>,
}

/// The format table: a row for each fourcc that it knows something of.
pub struct FormatTable {
    rows: HashMap<u32, TableRow>,
}

impl View for FormatTable {
    type V = Map<u32, TableRow>;

    closed spec fn view(&self) -> Map<u32, TableRow> {
        self.rows@
    }
}

/// The opaque twin of `code`, if the table has one.
pub open spec fn opaque_of(table: Map<u32, TableRow>, code: u32) -> Option<u32> {
    if table.contains_key(code) {
        table[code].opaque
    } else {
        None
    }
}

/// The bits per pixel of `code`, if the table has them.
pub open spec fn bits_of(table: Map<u32, TableRow>, code: u32) -> Option<usize> {
    if table.contains_key(code) {
        table[code].bits_per_pixel
    } else {
        None
    }
}

impl FormatTable {
    pub fn new() -> (table: FormatTable)
        ensures
            table@ == Map::<u32, TableRow>::empty(),
    {
        FormatTable { rows: HashMap::new() }
    }

    /// Makes `row` the row of `code`.
    pub fn insert(&mut self, code: u32, row: TableRow)
        ensures
            final(self)@ == old(self)@.insert(code, row),
    {
        self.rows.insert(code, row);
    }

    /// The opaque twin of `code`; an unknown fourcc has none.
    pub fn opaque(&self, code: u32) -> (twin: Option<u32>)
        ensures
            twin == opaque_of(self@, code),
    {
        match self.rows.get(&code) {
            Some(row) => row.opaque,
            None => None,
        }
    }

    /// The bits per pixel of `code`; an unknown fourcc has none.
    pub fn bits(&self, code: u32) -> (bits: Option<usize>)
        ensures
            bits == bits_of(self@, code),
    {
        match self.rows.get(&code) {
            Some(row) => row.bits_per_pixel,
            None => None,
        }
    }
}

/// A set holds what was added to it, each once, in the order in which each was first added.
pub proof fn a_set_keeps_each_format_where_it_was_first_added(formats: Seq<Format>)
    ensures
        deduplicated(formats).no_duplicates(),
        forall|format: Format| #[trigger]
            deduplicated(formats).contains(format) <==> formats.contains(format),
        forall|i: int, j: int|
            0 <= i < j < deduplicated(formats).len() ==> added_before(
                formats,
                #[trigger] deduplicated(formats)[i],
                #[trigger] deduplicated(formats)[j],
            ),
    decreases formats.len(),
{
    if formats.len() > 0 {
        let rest = formats.drop_last();
        let last = formats.last();
        let before = deduplicated(rest);
        let after = deduplicated(formats);
        a_set_keeps_each_format_where_it_was_first_added(rest);
        assert(formats[formats.len() - 1] == last);
        assert forall|format: Format| formats.contains(format) <==> rest.contains(format) || format
            == last by {
            if formats.contains(format) {
                let k = choose|k: int| 0 <= k < formats.len() && formats[k] == format;
                if k < rest.len() {
                    assert(rest[k] == format);
                }
            }
            if rest.contains(format) {
                let k = choose|k: int| 0 <= k < rest.len() && rest[k] == format;
                assert(formats[k] == format);
            }
        }
        assert forall|format: Format| #[trigger] after.contains(format) <==> formats.contains(
            format,
        ) by {
            if before.contains(format) {
                let k = choose|k: int| 0 <= k < before.len() && before[k] == format;
                assert(after[k] == format);
            }
            if !before.contains(last) {
                assert(after[before.len() as int] == last);
                if after.contains(format) && format != last {
                    let k = choose|k: int| 0 <= k < after.len() && after[k] == format;
                    assert(before[k] == format);
                }
            }
            assert(before.contains(format) <==> rest.contains(format));
            assert(before.contains(last) <==> rest.contains(last));
        }
        assert forall|i: int, j: int| 0 <= i < j < after.len() implies added_before(
            formats,
            #[trigger] after[i],
            #[trigger] after[j],
        ) by {
            assert(before.contains(before[i]));
            assert(rest.contains(after[i]));
            if j < before.len() {
                assert(added_before(rest, before[i], before[j]));
                let p = choose|p: int|
                    {
                        &&& 0 <= p < rest.len()
                        &&& #[trigger] rest[p] == before[i]
                        &&& forall|q: int|
                            0 <= q < rest.len() && #[trigger] rest[q] == before[j] ==> p < q
                    };
                assert(formats[p] == after[i]);
                assert forall|q: int|
                    0 <= q < formats.len() && #[trigger] formats[q] == after[j] implies p < q by {
                    if q < rest.len() {
                        assert(rest[q] == before[j]);
                    }
                }
            } else {
                let p = choose|p: int| 0 <= p < rest.len() && rest[p] == after[i];
                assert(formats[p] == after[i]);
                assert forall|q: int|
                    0 <= q < formats.len() && #[trigger] formats[q] == after[j] implies p < q by {
                    if q < rest.len() {
                        assert(rest[q] == last);
                        assert(rest.contains(last));
                    }
                }
            }
        }
    } else {
        assert(deduplicated(formats) =~= Seq::empty());
    }
}

/// Whether `a` was added to `formats` before `b` first was.
pub open spec fn added_before(formats: Seq<Format>, a: Format, b: Format) -> bool {
    exists|p: int|
        {
            &&& 0 <= p < formats.len()
            &&& #[trigger] formats[p] == a
            &&& forall|q: int| 0 <= q < formats.len() && #[trigger] formats[q] == b ==> p < q
        }
}

/// The values that go over the wire: a fourcc is its four characters, the first in the lowest byte;
/// a linear layout is 0, and an implicit one all 56 bits of a modifier's value.
pub proof fn formats_go_by_their_wire_values()
    ensures
        XRGB8888 == 'X' as int + 0x100 * ('R' as int) + 0x1_0000 * ('2' as int) + 0x100_0000 * (
        '4' as int),
        ARGB8888 == 'A' as int + 0x100 * ('R' as int) + 0x1_0000 * ('2' as int) + 0x100_0000 * (
        '4' as int),
        LINEAR == 0,
        INVALID == 0x100_0000_0000_0000 - 1,
{
}

/// A table answers of a fourcc what its own row says, and nothing of a fourcc without one.
pub proof fn a_table_answers_by_the_row_of_the_fourcc(
    table: Map<u32, TableRow>,
    code: u32,
    row: TableRow,
    other: u32,
)
    ensures
        opaque_of(table.insert(code, row), code) == row.opaque,
        bits_of(table.insert(code, row), code) == row.bits_per_pixel,
        other != code ==> opaque_of(table.insert(code, row), other) == opaque_of(table, other),
        other != code ==> bits_of(table.insert(code, row), other) == bits_of(table, other),
        opaque_of(Map::empty(), code) is None,
        bits_of(Map::empty(), code) is None,
{
}

} // verus!
