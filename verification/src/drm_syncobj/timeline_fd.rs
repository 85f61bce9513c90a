//! Whether an fd number is still open as a syncobj.

use crate::text::{a_decimal_spells_its_number, decimal, digit_char};
use vstd::prelude::*;
use vstd::string::*;

verus! {

/// The ASCII bytes of `text`.
pub open spec fn ascii_bytes(text: Seq<char>) -> Seq<u8> {
    Seq::new(text.len(), |i: int| text[i] as u8)
}

/// The directory that lists this process's open fds.
pub open spec fn fd_dir() -> Seq<u8> {
    ascii_bytes("/proc/self/fd/"@)
}

/// The path of fd number `fd` in it.
pub open spec fn fd_path(fd: nat) -> Seq<u8> {
    fd_dir() + ascii_bytes(decimal(fd))
}

/// What the link of a DRM syncobj fd reads.
pub open spec fn syncobj_link() -> Seq<u8> {
    ascii_bytes("anon_inode:syncobj_file"@)
}

proof fn lemma_fd_dir()
    ensures
        "/proc/self/fd/"@.len() == 14,
        fd_dir().len() == 14,
        "/proc/self/fd/".spec_bytes() == fd_dir(),
{
    reveal_strlit("/proc/self/fd/");
    assert(is_ascii("/proc/self/fd/"));
    is_ascii_spec_bytes("/proc/self/fd/");
    assert("/proc/self/fd/".spec_bytes() =~= fd_dir());
}

/// A number of at most `width` digits is written in at most that many.
proof fn lemma_decimal_width(n: nat, width: nat, bound: nat)
    requires
        n < bound,
        width >= 1,
        bound == vstd::arithmetic::power::pow(10, width),
    ensures
        1 <= decimal(n).len() <= width,
    decreases width,
{
    reveal(vstd::arithmetic::power::pow);
    if n >= 10 {
        if width == 1 {
            reveal_with_fuel(vstd::arithmetic::power::pow, 2);
        } else {
            let smaller = vstd::arithmetic::power::pow(10, (width - 1) as nat);
            assert(bound == 10 * smaller);
            lemma_decimal_width(n / 10, (width - 1) as nat, smaller as nat);
        }
    }
}

proof fn lemma_u32_width(n: nat)
    requires
        n <= u32::MAX,
    ensures
        1 <= decimal(n).len() <= 10,
{
    reveal_with_fuel(vstd::arithmetic::power::pow, 11);
    lemma_decimal_width(n, 10, 10_000_000_000);
}

fn write_digits(buf: &mut [u8; 32], at: usize, value: u32) -> (end: usize)
    requires
        at + decimal(value as nat).len() <= 32,
    ensures
        end == at + decimal(value as nat).len(),
        final(buf)@ == old(buf)@.take(at as int) + ascii_bytes(decimal(value as nat))
            + old(buf)@.skip(end as int),
    decreases value,
{
    let digit: u8 = 48 + (value % 10) as u8;
    let start: usize = if value >= 10 {
        write_digits(buf, at, value / 10)
    } else {
        at
    };
    buf[start] = digit;
    assert(digit == digit_char((value % 10) as nat) as u8);
    assert(buf@ =~= old(buf)@.take(at as int) + ascii_bytes(decimal(value as nat))
        + old(buf)@.skip(start + 1));
    start + 1
}

/// Writes the nul-terminated path of fd number `fd` into `buf`, and answers
/// where the nul is; a negative number has no path.
pub fn proc_fd_path(fd: i32, buf: &mut [u8; 32]) -> (end: Option<usize>)
    ensures
        match end {
            Some(end) => {
                &&& fd >= 0
                &&& end == fd_path(fd as nat).len()
                &&& end < 32
                &&& final(buf)@ == fd_path(fd as nat).push(0) + old(buf)@.skip(end + 1)
            },
            None => fd < 0 && final(buf)@ == fd_dir() + old(buf)@.skip(14),
        },
{
    let prefix = "/proc/self/fd/".as_bytes();
    proof {
        lemma_fd_dir();
    }
    let mut i: usize = 0;
    while i < prefix.len()
        invariant
            i <= prefix@.len(),
            prefix@.len() == 14,
            buf@ == prefix@.take(i as int) + old(buf)@.skip(i as int),
        decreases prefix@.len() - i,
    {
        buf[i] = prefix[i];
        i += 1;
        assert(buf@ =~= prefix@.take(i as int) + old(buf)@.skip(i as int));
    }
    assert(prefix@.take(14) =~= prefix@);
    if fd < 0 {
        return None;
    }
    proof {
        lemma_u32_width(fd as nat);
    }
    let end: usize = write_digits(buf, i, fd as u32);
    buf[end] = 0;
    assert(buf@ =~= fd_path(fd as nat).push(0) + old(buf)@.skip(end + 1));
    Some(end)
}

/// `buf` starts with the path of fd number `fd` and a nul at `end`.
pub open spec fn names_fd(buf: [u8; 32], end: usize, fd: nat) -> bool {
    &&& end == fd_path(fd).len()
    &&& end < 32
    &&& buf@.take(end + 1) == fd_path(fd).push(0)
}

/// The verdict on an fd number, from whether it is `open` and from what its
/// `link` reads, if it can be read: an open fd with an unreadable link counts
/// as held, which can only over-count.
pub open spec fn reads_as_timeline(fd: int, open: bool, link: Option<Seq<u8>>) -> bool {
    &&& fd >= 0
    &&& open
    &&& match link {
        Some(link) => link == syncobj_link(),
        None => true,
    }
}

fn same_bytes(a: &Vec<u8>, b: &[u8]) -> (same: bool)
    ensures
        same == (a@ == b@),
{
    if a.len() != b.len() {
        return false;
    }
    let mut i: usize = 0;
    while i < a.len()
        invariant
            i <= a@.len(),
            a@.len() == b@.len(),
            forall|j: int| 0 <= j < i ==> a@[j] == b@[j],
        decreases a@.len() - i,
    {
        if a[i] != b[i] {
            return false;
        }
        i += 1;
    }
    assert(a@ =~= b@);
    true
}

/// Whether what the link reads is a syncobj's.
pub fn is_syncobj_link(link: &Vec<u8>) -> (yes: bool)
    ensures
        yes == (link@ == syncobj_link()),
{
    let expected = "anon_inode:syncobj_file".as_bytes();
    proof {
        reveal_strlit("anon_inode:syncobj_file");
        assert(is_ascii("anon_inode:syncobj_file"));
        is_ascii_spec_bytes("anon_inode:syncobj_file");
        assert(expected@ =~= syncobj_link());
    }
    same_bytes(link, expected)
}

/// Whether fd number `fd` is still open in this process and still a syncobj,
/// and so presumably the timeline fd recorded on it.
///
/// `is_open` answers whether the number is open, and `read_link` what the
/// link at a nul-terminated path reads, if it can be read. A negative number
/// asks neither, and a closed one reads no link.
pub fn timeline_fd_open<O: FnOnce(i32) -> bool, L: FnOnce([u8; 32], usize) -> Option<Vec<u8>>>(
    fd: i32,
    is_open: O,
    read_link: L,
) -> (held: bool)
    requires
        fd >= 0 ==> call_requires(is_open, (fd,)),
        fd >= 0 && call_ensures(is_open, (fd,), true) ==> forall|buf: [u8; 32], end: usize|
            names_fd(buf, end, fd as nat) ==> #[trigger] call_requires(read_link, (buf, end)),
    ensures
        fd < 0 ==> !held,
        fd >= 0 ==> exists|open: bool| #[trigger]
            call_ensures(is_open, (fd,), open) && if open {
                exists|buf: [u8; 32], end: usize, link: Option<Vec<u8>>|
                    {
                        &&& names_fd(buf, end, fd as nat)
                        &&& #[trigger] call_ensures(read_link, (buf, end), link)
                        &&& held == reads_as_timeline(
                            fd as int,
                            true,
                            match link {
                                Some(link) => Some(link@),
                                None => None,
                            },
                        )
                    }
            } else {
                !held
            },
{
    if fd < 0 {
        return false;
    }
    let open: bool = is_open(fd);
    if !open {
        return false;
    }
    let mut buf: [u8; 32] = [0; 32];
    match proc_fd_path(fd, &mut buf) {
        None => true,
        Some(end) => {
            assert(buf@.take(end + 1) =~= fd_path(fd as nat).push(0));
            let link = read_link(buf, end);
            match &link {
                Some(link) => is_syncobj_link(link),
                None => true,
            }
        },
    }
}

/// A number is a timeline exactly where it is one that can be open, is open, and its link reads as
/// a syncobj's or cannot be read.
pub proof fn an_open_syncobj_is_a_timeline(fd: int, open: bool, link: Option<Seq<u8>>)
    ensures
        link is None ==> reads_as_timeline(fd, open, link) == (fd >= 0 && open),
        link is Some ==> (reads_as_timeline(fd, open, link) <==> fd >= 0 && open && link->0
            == ascii_bytes("anon_inode:syncobj_file"@)),
{
}

/// The path of an fd is its number in the directory of this process's fds, and no two fds share
/// one.
pub proof fn every_fd_has_a_path_of_its_own(fd: nat, other: nat)
    ensures
        fd_path(fd) == ascii_bytes("/proc/self/fd/"@ + decimal(fd)),
        fd_path(fd) == fd_path(other) ==> fd == other,
{
    let dir = "/proc/self/fd/"@;
    assert(fd_path(fd) =~= ascii_bytes(dir + decimal(fd)));
    a_decimal_spells_its_number(fd);
    a_decimal_spells_its_number(other);
    if fd_path(fd) == fd_path(other) {
        let a = decimal(fd);
        let b = decimal(other);
        let n = fd_dir().len() as int;
        assert(a.len() == b.len());
        assert forall|i: int| 0 <= i < a.len() implies a[i] == b[i] by {
            assert(fd_path(fd)[n + i] == a[i] as u8);
            assert(fd_path(other)[n + i] == b[i] as u8);
            assert('0' <= a[i] <= '9' && '0' <= b[i] <= '9');
        }
        assert(a =~= b);
    }
}

/// The bytes of printable ASCII text are its characters, one by one.
pub proof fn ascii_bytes_are_the_characters(text: Seq<char>, i: int)
    ensures
        ascii_bytes(text).len() == text.len(),
        0 <= i < text.len() && ' ' <= text[i] <= '~' ==> ascii_bytes(text)[i] as int
            == text[i] as int,
{
    if 0 <= i < text.len() {
        let c: char = text[i];
        assert(ascii_bytes(text)[i] == c as u8);
    }
}

/// A path that names an fd is that fd's, with a nul behind it.
pub proof fn a_named_fd_has_its_path_and_a_nul(buf: [u8; 32], end: usize, fd: nat)
    requires
        names_fd(buf, end, fd),
    ensures
        end < 32,
        buf@.take(end as int) == ascii_bytes("/proc/self/fd/"@ + decimal(fd)),
        buf@[end as int] == 0,
{
    every_fd_has_a_path_of_its_own(fd, fd);
    let named = buf@.take(end + 1);
    assert(named.take(end as int) =~= buf@.take(end as int));
    assert(fd_path(fd).push(0).take(end as int) =~= fd_path(fd));
    assert(named[end as int] == 0);
}

/// A number is held as a timeline only where it is open; and an open one is let go only where its
/// link, read at its own path, is not a syncobj's.
pub proof fn a_number_is_held_while_it_reads_as_a_syncobj<
    O: FnOnce(i32) -> bool,
    L: FnOnce([u8; 32], usize) -> Option<Vec<u8>>,
>(fd: i32, is_open: O, read_link: L, held: bool)
    requires
        call_ensures(timeline_fd_open::<O, L>, (fd, is_open, read_link), held),
    ensures
        fd < 0 ==> !held,
        held ==> call_ensures(is_open, (fd,), true),
        held ==> exists|buf: [u8; 32], end: usize, link: Option<Vec<u8>>|
            {
                &&& names_fd(buf, end, fd as nat)
                &&& #[trigger] call_ensures(read_link, (buf, end), link)
                &&& link is None || link->0@ == ascii_bytes("anon_inode:syncobj_file"@)
            },
        fd >= 0 && !held ==> {
            ||| call_ensures(is_open, (fd,), false)
            ||| exists|buf: [u8; 32], end: usize, link: Vec<u8>|
                {
                    &&& names_fd(buf, end, fd as nat)
                    &&& #[trigger] call_ensures(read_link, (buf, end), Some(link))
                    &&& link@ != ascii_bytes("anon_inode:syncobj_file"@)
                }
        },
{
    if fd >= 0 {
        let open = choose|open: bool| #[trigger]
            call_ensures(is_open, (fd,), open) && if open {
                exists|buf: [u8; 32], end: usize, link: Option<Vec<u8>>|
                    {
                        &&& names_fd(buf, end, fd as nat)
                        &&& #[trigger] call_ensures(read_link, (buf, end), link)
                        &&& held == reads_as_timeline(
                            fd as int,
                            true,
                            match link {
                                Some(link) => Some(link@),
                                None => None,
                            },
                        )
                    }
            } else {
                !held
            };
        if open {
            let (buf, end, link) = choose|buf: [u8; 32], end: usize, link: Option<Vec<u8>>|
                {
                    &&& names_fd(buf, end, fd as nat)
                    &&& #[trigger] call_ensures(read_link, (buf, end), link)
                    &&& held == reads_as_timeline(
                        fd as int,
                        true,
                        match link {
                            Some(link) => Some(link@),
                            None => None,
                        },
                    )
                };
            if !held {
                assert(call_ensures(read_link, (buf, end), Some(link->0)));
            }
        }
    }
}

} // verus!
