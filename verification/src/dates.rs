//! Reading and setting the two date values of a metadata block.
//!
//! Setting never moves a byte that is already there. A value whose entry is a
//! twenty-byte text is overwritten where it stands. Any other value is
//! written behind the end of the block, and its entry is made to point there.
//! Where the date directory lacks an entry, or the block has no date directory
//! at all, a copy of the directory with the entries added is written behind
//! the end of the block, and the one field that points to the directory is
//! made to point to the copy. The entries that were there keep their order;
//! an added entry goes in front of the first entry with a larger tag, so that
//! a sorted directory stays sorted.

use vstd::prelude::*;
use crate::bytes::{
    append_all,
    append_range,
    copy_of,
    copy_range,
    enc16,
    enc32,
    lemma_four_writes,
    lemma_put_same,
    lemma_read_back,
    push16,
    push32,
    push_zeros,
    put,
    rd16,
    rd32,
    read32,
    write32,
    write_bytes,
    zeros,
};
use crate::tagdir::{
    directory_at,
    entry_bytes,
    lemma_entry_fields,
    lemma_reads_in_window,
    lemma_resolved,
    locate,
    locate_directory,
    push_entry,
    resolve,
    resolve_layout,
    write_entry,
    Directory,
    Layout,
    DATE_LEN,
    MAX_BLOCK,
    TAG_DIGITIZED,
    TAG_ORIGINAL,
    TAG_SUBDIRECTORY,
    TYPE_ASCII,
    TYPE_LONG,
};

verus! {

/// How many entries a directory lacks for the two dates.
pub open spec fn missing(t: Seq<u8>, d: Directory) -> int {
    (if d.find(t, TAG_ORIGINAL as int) >= d.count {
        1int
    } else {
        0int
    }) + (if d.find(t, TAG_DIGITIZED as int) >= d.count {
        1int
    } else {
        0int
    })
}

/// Where the first date value goes: where it stands if it can be overwritten
/// there, else behind the end of the block.
pub open spec fn first_target(t: Seq<u8>, lay: Layout) -> int {
    let i = lay.dates.find(t, TAG_ORIGINAL as int);
    if lay.in_place(t, i) {
        lay.offset_at(t, i)
    } else {
        t.len() as int
    }
}

/// Where the second date value goes: where it stands if it can be
/// overwritten there, else behind the end of the block and behind the first
/// value if that one went there too.
pub open spec fn second_target(t: Seq<u8>, lay: Layout) -> int {
    let i = lay.dates.find(t, TAG_DIGITIZED as int);
    if lay.in_place(t, i) {
        lay.offset_at(t, i)
    } else if lay.in_place(t, lay.dates.find(t, TAG_ORIGINAL as int)) {
        t.len() as int
    } else {
        t.len() + DATE_LEN
    }
}

/// By how many bytes the block grows when both values are set.
pub open spec fn growth(t: Seq<u8>, lay: Layout) -> int {
    (if lay.in_place(t, lay.dates.find(t, TAG_ORIGINAL as int)) {
        0int
    } else {
        DATE_LEN as int
    }) + (if lay.in_place(t, lay.dates.find(t, TAG_DIGITIZED as int)) {
        0int
    } else {
        DATE_LEN as int
    })
}

/// Whether two twenty-byte values at `a` and `b` share a byte.
pub open spec fn overlap(a: int, b: int) -> bool {
    a < b + DATE_LEN && b < a + DATE_LEN
}

/// A block whose date directory has an entry for each date, with both values
/// set.
///
/// A value whose entry is a twenty-byte text clear of the directories is
/// overwritten where it stands; any other is written behind the end of the
/// block, and its entry is made to point there. `None` where an entry is
/// missing, both values stand in place and share a byte, or the block would
/// outgrow a segment.
pub open spec fn updated(t: Seq<u8>, lay: Layout, taken: Seq<u8>, created: Seq<u8>) -> Option<
    Seq<u8>,
> {
    let d = lay.dates;
    let i1 = d.find(t, TAG_ORIGINAL as int);
    let i2 = d.find(t, TAG_DIGITIZED as int);
    let a1 = first_target(t, lay);
    let a2 = second_target(t, lay);
    if missing(t, d) != 0 {
        None
    } else if lay.in_place(t, i1) && lay.in_place(t, i2) && overlap(a1, a2) {
        None
    } else if t.len() + growth(t, lay) > MAX_BLOCK {
        None
    } else {
        let le = d.little_endian;
        let e1 = entry_bytes(TAG_ORIGINAL as int, TYPE_ASCII as int, DATE_LEN as int, a1, le);
        let e2 = entry_bytes(TAG_DIGITIZED as int, TYPE_ASCII as int, DATE_LEN as int, a2, le);
        let base = t + zeros(growth(t, lay));
        Some(put(put(put(put(base, d.entry(i1), e1), d.entry(i2), e2), a1, taken), a2, created))
    }
}

/// An entry that only reserves a place for `tag`.
pub open spec fn placeholder(tag: int, little_endian: bool) -> Seq<u8> {
    entry_bytes(tag, 0, 0, 0, little_endian)
}

/// The entries that a directory gets for the dates it lacks.
pub open spec fn added_entries(t: Seq<u8>, d: Directory) -> Seq<u8> {
    (if d.find(t, TAG_ORIGINAL as int) >= d.count {
        placeholder(TAG_ORIGINAL as int, d.little_endian)
    } else {
        Seq::empty()
    }) + (if d.find(t, TAG_DIGITIZED as int) >= d.count {
        placeholder(TAG_DIGITIZED as int, d.little_endian)
    } else {
        Seq::empty()
    })
}

/// Where a copy of a directory starts: behind the end of the block, on an
/// even offset.
pub open spec fn copy_start(t: Seq<u8>) -> int {
    t.len() as int + t.len() as int % 2
}

/// Where a copy of `d` with `added` more entries ends.
pub open spec fn copy_end(t: Seq<u8>, d: Directory, added: int) -> int {
    copy_start(t) + 2 + 12 * (d.count + added) + 4
}

/// The directory that a copy of `d` with `added` more entries is.
pub open spec fn copy_of_directory(t: Seq<u8>, d: Directory, added: int) -> Directory {
    Directory {
        little_endian: d.little_endian,
        start: copy_start(t) as usize,
        count: (d.count + added) as usize,
    }
}

/// Where the entries for the dates that a directory lacks go: in front of
/// the first entry with a larger tag.
pub open spec fn insertion_point(t: Seq<u8>, d: Directory) -> int {
    if d.find(t, TAG_ORIGINAL as int) >= d.count {
        d.above(t, TAG_ORIGINAL as int)
    } else {
        d.above(t, TAG_DIGITIZED as int)
    }
}

/// The block with directory `d` copied behind its end, the entries `added`
/// put in at entry `at`, and the four bytes at `link` made to hold the offset
/// of the copy.
pub open spec fn relocated(t: Seq<u8>, d: Directory, link: int, at: int, added: Seq<u8>) -> Seq<
    u8,
> {
    let le = d.little_endian;
    put(t, link, enc32(copy_start(t), le)) + zeros(t.len() as int % 2) + enc16(
        d.count + added.len() / 12,
        le,
    ) + t.subrange(d.entry(0), d.entry(at)) + added + t.subrange(d.entry(at), d.end())
}

/// The block with its date directory copied behind the end and given a
/// placeholder entry for each date it lacks; the root entry then points to
/// the copy. `None` where the block would outgrow a segment.
pub open spec fn grown(t: Seq<u8>, lay: Layout) -> Option<Seq<u8>> {
    let d = lay.dates;
    if copy_end(t, d, missing(t, d)) > MAX_BLOCK {
        None
    } else {
        Some(relocated(t, d, lay.link(t), insertion_point(t, d), added_entries(t, d)))
    }
}

/// Where the date directory of [`with_subdirectory`] starts: behind the
/// copy of the root directory.
pub open spec fn subdirectory_start(t: Seq<u8>, root: Directory) -> int {
    copy_end(t, root, 1)
}

/// A new date directory: a placeholder entry for each date and an empty
/// link.
pub open spec fn empty_dates(little_endian: bool) -> Seq<u8> {
    enc16(2, little_endian) + placeholder(TAG_ORIGINAL as int, little_endian) + placeholder(
        TAG_DIGITIZED as int,
        little_endian,
    ) + enc32(0, little_endian)
}

/// The block with its root directory copied behind the end and given an
/// entry that points to a new date directory, which follows the copy and has
/// a placeholder entry for each date; the header then points to the copy.
/// `None` where the block would outgrow a segment.
pub open spec fn with_subdirectory(t: Seq<u8>, root: Directory) -> Option<Seq<u8>> {
    let le = root.little_endian;
    let at = subdirectory_start(t, root);
    if at + 30 > MAX_BLOCK {
        None
    } else {
        Some(
            relocated(
                t,
                root,
                4,
                root.above(t, TAG_SUBDIRECTORY as int),
                entry_bytes(TAG_SUBDIRECTORY as int, TYPE_LONG as int, 1, at, le),
            ) + empty_dates(le),
        )
    }
}

/// The block with a date directory: the block itself where its root
/// directory points to one, else the block with a new one added.
pub open spec fn prepared(t: Seq<u8>) -> Option<Seq<u8>> {
    match locate(t) {
        None => None,
        Some(root) => if root.find(t, TAG_SUBDIRECTORY as int) < root.count {
            Some(t)
        } else {
            with_subdirectory(t, root)
        },
    }
}

/// The block with an entry for each date in its date directory: the block
/// itself where it has both, else the block with its date directory grown.
pub open spec fn completed(t: Seq<u8>) -> Option<Seq<u8>> {
    match resolve(t) {
        None => None,
        Some(lay) => if missing(t, lay.dates) == 0 {
            Some(t)
        } else {
            grown(t, lay)
        },
    }
}

/// The block with both date values set, or `None` where it cannot be patched:
/// its header or one of its directories is invalid, two values that stand in
/// place share a byte, or the result would outgrow a segment.
pub open spec fn patched(t: Seq<u8>, taken: Seq<u8>, created: Seq<u8>) -> Option<Seq<u8>> {
    match prepared(t) {
        None => None,
        Some(p) => match completed(p) {
            None => None,
            Some(c) => match resolve(c) {
                None => None,
                Some(lay) => updated(c, lay, taken, created),
            },
        },
    }
}

/// The date value that a block holds for `tag`: the twenty bytes that the
/// first entry of the date directory with that tag points to, if they can be
/// read in place.
pub open spec fn date_value(t: Seq<u8>, tag: int) -> Option<Seq<u8>> {
    match resolve(t) {
        None => None,
        Some(lay) => {
            let i = lay.dates.find(t, tag);
            if i < lay.dates.count && lay.in_place(t, i) {
                Some(t.subrange(lay.offset_at(t, i), lay.offset_at(t, i) + DATE_LEN))
            } else {
                None
            }
        },
    }
}

/// A new block that holds the two date values and nothing else: a big-endian
/// header, a root directory whose one entry points to the date directory, the
/// date directory with its two entries, and the two values.
#[verifier::opaque]
pub open spec fn fresh(taken: Seq<u8>, created: Seq<u8>) -> Seq<u8> {
    seq![0x4Du8, 0x4Du8, 0x00u8, 0x2Au8, 0x00u8, 0x00u8, 0x00u8, 0x08u8] + enc16(1, false)
        + entry_bytes(TAG_SUBDIRECTORY as int, TYPE_LONG as int, 1, 26, false) + zeros(4) + enc16(
        2,
        false,
    ) + entry_bytes(TAG_ORIGINAL as int, TYPE_ASCII as int, DATE_LEN as int, 56, false)
        + entry_bytes(TAG_DIGITIZED as int, TYPE_ASCII as int, DATE_LEN as int, 76, false) + zeros(
        4,
    ) + taken + created
}

/// Sets both date values in a block whose date directory has an entry for
/// each.
pub fn update(t: &[u8], lay: &Layout, taken: &[u8], created: &[u8]) -> (r: Option<Vec<u8>>)
    requires
        lay.root.within(t@),
        lay.dates.within(t@),
        taken@.len() == DATE_LEN,
        created@.len() == DATE_LEN,
    ensures
        match r {
            Some(out) => updated(t@, *lay, taken@, created@) == Some(out@),
            None => updated(t@, *lay, taken@, created@) is None,
        },
{
    let d = &lay.dates;
    let le = d.little_endian;
    let i1 = d.find_tag(t, TAG_ORIGINAL);
    let i2 = d.find_tag(t, TAG_DIGITIZED);
    if i1 >= d.count || i2 >= d.count {
        return None;
    }
    let len = t.len();
    let e1: usize = d.start + 2 + 12 * i1;
    let e2: usize = d.start + 2 + 12 * i2;
    let g1 = lay.entry_in_place(t, i1);
    let g2 = lay.entry_in_place(t, i2);
    let a1: usize = if g1 {
        read32(t, e1 + 8, le) as usize
    } else {
        len
    };
    let a2: usize = if g2 {
        read32(t, e2 + 8, le) as usize
    } else if g1 {
        len
    } else {
        len + DATE_LEN
    };
    if g1 && g2 && a1 < a2 + DATE_LEN && a2 < a1 + DATE_LEN {
        return None;
    }
    let grow: usize = (if g1 {
        0
    } else {
        DATE_LEN
    }) + (if g2 {
        0
    } else {
        DATE_LEN
    });
    if len + grow > MAX_BLOCK {
        return None;
    }
    let mut out = copy_of(t);
    push_zeros(&mut out, grow);
    write_entry(&mut out, e1, TAG_ORIGINAL, TYPE_ASCII, DATE_LEN as u32, a1 as u32, le);
    write_entry(&mut out, e2, TAG_DIGITIZED, TYPE_ASCII, DATE_LEN as u32, a2 as u32, le);
    write_bytes(&mut out, a1, taken);
    write_bytes(&mut out, a2, created);
    Some(out)
}

/// Copies a directory behind the end of the block, with more entries put in
/// at entry `at`, and makes the four bytes at `link` point to the copy.
pub fn relocate(t: &[u8], d: &Directory, link: usize, at: usize, added: &[u8]) -> (r: Vec<u8>)
    requires
        d.within(t@),
        link + 4 <= t@.len(),
        at <= d.count,
        copy_end(t@, *d, added@.len() as int / 12) <= MAX_BLOCK,
    ensures
        r@ == relocated(t@, *d, link as int, at as int, added@),
{
    let le = d.little_endian;
    let len = t.len();
    let start: usize = len + len % 2;
    let count: usize = d.count + added.len() / 12;
    let mut out = copy_of(t);
    write32(&mut out, link, start as u32, le);
    push_zeros(&mut out, len % 2);
    push16(&mut out, count as u16, le);
    append_range(&mut out, t, d.start + 2, d.start + 2 + 12 * at);
    append_all(&mut out, added);
    append_range(&mut out, t, d.start + 2 + 12 * at, d.start + 2 + 12 * d.count + 4);
    out
}

/// The placeholder entries for the dates that a directory lacks.
fn missing_entries(t: &[u8], d: &Directory) -> (r: Vec<u8>)
    requires
        d.within(t@),
    ensures
        r@ == added_entries(t@, *d),
        r@.len() == 12 * missing(t@, *d),
{
    let le = d.little_endian;
    let mut added: Vec<u8> = Vec::new();
    if d.find_tag(t, TAG_ORIGINAL) >= d.count {
        push_entry(&mut added, TAG_ORIGINAL, 0, 0, 0, le);
    }
    let ghost first = added@;
    if d.find_tag(t, TAG_DIGITIZED) >= d.count {
        push_entry(&mut added, TAG_DIGITIZED, 0, 0, 0, le);
    }
    proof {
        lemma_entry_fields(TAG_ORIGINAL as int, 0, 0, 0, le);
        lemma_entry_fields(TAG_DIGITIZED as int, 0, 0, 0, le);
        assert(added@ =~= added_entries(t@, *d));
    }
    added
}

/// Copies the date directory behind the end of the block, with a placeholder
/// entry for each date it lacks.
pub fn grow(t: &[u8], lay: &Layout) -> (r: Option<Vec<u8>>)
    requires
        resolve(t@) == Some(*lay),
    ensures
        match r {
            Some(out) => grown(t@, *lay) == Some(out@),
            None => grown(t@, *lay) is None,
        },
{
    proof {
        lemma_resolved(t@, *lay);
    }
    let d = &lay.dates;
    let len = t.len();
    let added = missing_entries(t, d);
    if len + len % 2 + 2 + 12 * (d.count + added.len() / 12) + 4 > MAX_BLOCK {
        return None;
    }
    let p = lay.root.find_tag(t, TAG_SUBDIRECTORY);
    let link: usize = lay.root.start + 2 + 12 * p + 8;
    let at = if d.find_tag(t, TAG_ORIGINAL) >= d.count {
        d.find_above(t, TAG_ORIGINAL)
    } else {
        d.find_above(t, TAG_DIGITIZED)
    };
    Some(relocate(t, d, link, at, added.as_slice()))
}

/// Copies the root directory behind the end of the block, with an entry that
/// points to a new date directory behind the copy.
pub fn add_subdirectory(t: &[u8], root: &Directory) -> (r: Option<Vec<u8>>)
    requires
        root.within(t@),
    ensures
        match r {
            Some(out) => with_subdirectory(t@, *root) == Some(out@),
            None => with_subdirectory(t@, *root) is None,
        },
{
    let le = root.little_endian;
    let len = t.len();
    let at: usize = len + len % 2 + 2 + 12 * (root.count + 1) + 4;
    if at + 30 > MAX_BLOCK {
        return None;
    }
    let mut added: Vec<u8> = Vec::new();
    push_entry(&mut added, TAG_SUBDIRECTORY, TYPE_LONG, 1, at as u32, le);
    proof {
        lemma_entry_fields(TAG_SUBDIRECTORY as int, TYPE_LONG as int, 1, at as int, le);
        assert(added@ =~= entry_bytes(TAG_SUBDIRECTORY as int, TYPE_LONG as int, 1, at as int, le));
    }
    let place = root.find_above(t, TAG_SUBDIRECTORY);
    let mut out = relocate(t, root, 4, place, added.as_slice());
    let ghost copied = out@;
    push16(&mut out, 2, le);
    push_entry(&mut out, TAG_ORIGINAL, 0, 0, 0, le);
    push_entry(&mut out, TAG_DIGITIZED, 0, 0, 0, le);
    push32(&mut out, 0, le);
    assert(out@ =~= copied + empty_dates(le));
    Some(out)
}

/// Gives a block a date directory where it has none.
pub fn prepare(t: &[u8]) -> (r: Option<Vec<u8>>)
    ensures
        match r {
            Some(out) => prepared(t@) == Some(out@),
            None => prepared(t@) is None,
        },
{
    match locate_directory(t) {
        None => None,
        Some(root) => if root.find_tag(t, TAG_SUBDIRECTORY) < root.count {
            Some(copy_of(t))
        } else {
            add_subdirectory(t, &root)
        },
    }
}

/// Gives the date directory of a block an entry for each date.
pub fn complete(t: &[u8]) -> (r: Option<Vec<u8>>)
    ensures
        match r {
            Some(out) => completed(t@) == Some(out@),
            None => completed(t@) is None,
        },
{
    match resolve_layout(t) {
        None => None,
        Some(lay) => {
            let d = &lay.dates;
            if d.find_tag(t, TAG_ORIGINAL) < d.count && d.find_tag(t, TAG_DIGITIZED) < d.count {
                Some(copy_of(t))
            } else {
                grow(t, &lay)
            }
        },
    }
}

/// Sets both date values in a block, adding the directory and the entries
/// that it lacks.
pub fn patch(t: &[u8], taken: &[u8], created: &[u8]) -> (r: Option<Vec<u8>>)
    requires
        taken@.len() == DATE_LEN,
        created@.len() == DATE_LEN,
    ensures
        match r {
            Some(out) => patched(t@, taken@, created@) == Some(out@),
            None => patched(t@, taken@, created@) is None,
        },
{
    let p = match prepare(t) {
        Some(p) => p,
        None => {
            return None;
        },
    };
    let c = match complete(p.as_slice()) {
        Some(c) => c,
        None => {
            return None;
        },
    };
    match resolve_layout(c.as_slice()) {
        None => None,
        Some(lay) => update(c.as_slice(), &lay, taken, created),
    }
}

/// Builds a new block for the two date values.
pub fn fresh_block(taken: &[u8], created: &[u8]) -> (r: Vec<u8>)
    requires
        taken@.len() == DATE_LEN,
        created@.len() == DATE_LEN,
    ensures
        r@ == fresh(taken@, created@),
{
    let mut out: Vec<u8> = Vec::new();
    out.push(0x4D);
    out.push(0x4D);
    out.push(0x00);
    out.push(0x2A);
    out.push(0x00);
    out.push(0x00);
    out.push(0x00);
    out.push(0x08);
    assert(out@ =~= seq![0x4Du8, 0x4Du8, 0x00u8, 0x2Au8, 0x00u8, 0x00u8, 0x00u8, 0x08u8]);
    push16(&mut out, 1, false);
    push_entry(&mut out, TAG_SUBDIRECTORY, TYPE_LONG, 1, 26, false);
    push_zeros(&mut out, 4);
    push16(&mut out, 2, false);
    push_entry(&mut out, TAG_ORIGINAL, TYPE_ASCII, DATE_LEN as u32, 56, false);
    push_entry(&mut out, TAG_DIGITIZED, TYPE_ASCII, DATE_LEN as u32, 76, false);
    push_zeros(&mut out, 4);
    append_all(&mut out, taken);
    append_all(&mut out, created);
    reveal(fresh);
    out
}

/// Reads the date value that a block holds for `tag`.
pub fn read_date(t: &[u8], tag: u16) -> (r: Option<Vec<u8>>)
    ensures
        match r {
            Some(value) => date_value(t@, tag as int) == Some(value@),
            None => date_value(t@, tag as int) is None,
        },
{
    match resolve_layout(t) {
        None => None,
        Some(lay) => {
            let d = &lay.dates;
            let i = d.find_tag(t, tag);
            if i < d.count && lay.entry_in_place(t, i) {
                let at = read32(t, d.start + 2 + 12 * i + 8, d.little_endian) as usize;
                Some(copy_range(t, at, at + DATE_LEN))
            } else {
                None
            }
        },
    }
}


/// A block that agrees with a resolved one on the header and on the root
/// directory, but for the offset that the root entry stores, has the same
/// root directory, and the directory at that offset as its date directory.
pub proof fn lemma_layout_carried(t: Seq<u8>, g: Seq<u8>, lay: Layout, dates: Directory)
    requires
        resolve(t) == Some(lay),
        t.len() <= g.len() <= MAX_BLOCK,
        forall|k: int| 0 <= k < 8 ==> #[trigger] g[k] == t[k],
        forall|k: int|
            lay.root.start <= k < lay.root.end() && !(lay.link(t) <= k < lay.link(t) + 4)
                ==> #[trigger] g[k] == t[k],
        rd32(g, lay.link(t), lay.root.little_endian) == dates.start,
        directory_at(g, lay.root.little_endian, dates.start as int) == Some(dates),
        lay.root.apart_from(dates),
    ensures
        resolve(g) == Some(Layout { root: lay.root, dates }),
{
    let root = lay.root;
    let le = root.little_endian;
    let p = lay.pointer(t);
    let at = root.entry(p);
    lemma_resolved(t, lay);
    assert(locate(g) == Some(root)) by {
        assert(g[0] == t[0] && g[1] == t[1] && g[2] == t[2] && g[3] == t[3]);
        assert(g[4] == t[4] && g[5] == t[5] && g[6] == t[6] && g[7] == t[7]);
        assert(g[root.start as int] == t[root.start as int]);
        assert(g[root.start + 1] == t[root.start + 1]);
    }
    assert forall|j: int| 0 <= j < root.count implies root.tag_at(t, j) == root.tag_at(g, j) by {
        assert(g[root.entry(j)] == t[root.entry(j)]);
        assert(g[root.entry(j) + 1] == t[root.entry(j) + 1]);
    }
    root.lemma_find_agrees(t, root, g, TAG_SUBDIRECTORY as int, 0);
    assert(root.find(g, TAG_SUBDIRECTORY as int) == p);
    assert(rd16(g, at + 2, le) == rd16(t, at + 2, le)) by {
        assert(g[at + 2] == t[at + 2] && g[at + 3] == t[at + 3]);
    }
    assert(rd32(g, at + 4, le) == rd32(t, at + 4, le)) by {
        assert(g[at + 4] == t[at + 4] && g[at + 5] == t[at + 5]);
        assert(g[at + 6] == t[at + 6] && g[at + 7] == t[at + 7]);
    }
}

/// Whether `out` is `t` with the two date entries rewritten to point to
/// twenty-byte texts at `a1` and `a2`: header and directories are otherwise
/// the same, and both targets lie in the block, clear of the directories and
/// of each other.
pub open spec fn settled(t: Seq<u8>, out: Seq<u8>, lay: Layout, a1: int, a2: int) -> bool {
    let d = lay.dates;
    let le = d.little_endian;
    let pos1 = d.entry(d.find(t, TAG_ORIGINAL as int));
    let pos2 = d.entry(d.find(t, TAG_DIGITIZED as int));
    &&& t.len() <= out.len() <= MAX_BLOCK
    &&& d.find(t, TAG_ORIGINAL as int) < d.count
    &&& d.find(t, TAG_DIGITIZED as int) < d.count
    &&& 8 <= a1 && a1 + DATE_LEN <= out.len() && lay.root.clear_of(a1) && d.clear_of(a1)
    &&& 8 <= a2 && a2 + DATE_LEN <= out.len() && lay.root.clear_of(a2) && d.clear_of(a2)
    &&& !overlap(a1, a2)
    &&& forall|k: int|
        (0 <= k < 8 || lay.root.start <= k < lay.root.end() || d.start <= k < d.end()) && !(pos1 <= k
            < pos1 + 12) && !(pos2 <= k < pos2 + 12) ==> #[trigger] out[k] == t[k]
    &&& out.subrange(pos1, pos1 + 12) == entry_bytes(
        TAG_ORIGINAL as int,
        TYPE_ASCII as int,
        DATE_LEN as int,
        a1,
        le,
    )
    &&& out.subrange(pos2, pos2 + 12) == entry_bytes(
        TAG_DIGITIZED as int,
        TYPE_ASCII as int,
        DATE_LEN as int,
        a2,
        le,
    )
}

/// A settled block has the layout it had.
proof fn lemma_layout_kept(t: Seq<u8>, out: Seq<u8>, lay: Layout, a1: int, a2: int)
    requires
        resolve(t) == Some(lay),
        settled(t, out, lay, a1, a2),
    ensures
        resolve(out) == Some(lay),
{
    let d = lay.dates;
    let le = d.little_endian;
    let i1 = d.find(t, TAG_ORIGINAL as int);
    let i2 = d.find(t, TAG_DIGITIZED as int);
    let pos1 = d.entry(i1);
    let pos2 = d.entry(i2);
    lemma_resolved(t, lay);
    d.lemma_find_first(t, TAG_ORIGINAL as int, 0);
    d.lemma_find_first(t, TAG_DIGITIZED as int, 0);
    assert(d.start + 2 <= pos1 && pos1 + 12 <= d.end() - 4);
    assert(d.start + 2 <= pos2 && pos2 + 12 <= d.end() - 4);
    assert forall|k: int| lay.root.start <= k < lay.root.end() implies #[trigger] out[k]
        == t[k] by {}
    let at = lay.link(t);
    assert(rd32(out, at, le) == rd32(t, at, le)) by {
        assert(out[at] == t[at] && out[at + 1] == t[at + 1]);
        assert(out[at + 2] == t[at + 2] && out[at + 3] == t[at + 3]);
    }
    assert(directory_at(out, le, d.start as int) == Some(d)) by {
        assert(out[d.start as int] == t[d.start as int]);
        assert(out[d.start + 1] == t[d.start + 1]);
    }
    lemma_layout_carried(t, out, lay, d);
}

/// In a settled block both date entries are found where they were and can be
/// read in place at their targets.
proof fn lemma_entries_kept(t: Seq<u8>, out: Seq<u8>, lay: Layout, a1: int, a2: int)
    requires
        resolve(t) == Some(lay),
        settled(t, out, lay, a1, a2),
    ensures
        lay.dates.find(out, TAG_ORIGINAL as int) == lay.dates.find(t, TAG_ORIGINAL as int),
        lay.dates.find(out, TAG_DIGITIZED as int) == lay.dates.find(t, TAG_DIGITIZED as int),
        lay.in_place(out, lay.dates.find(out, TAG_ORIGINAL as int)),
        lay.in_place(out, lay.dates.find(out, TAG_DIGITIZED as int)),
        lay.offset_at(out, lay.dates.find(out, TAG_ORIGINAL as int)) == a1,
        lay.offset_at(out, lay.dates.find(out, TAG_DIGITIZED as int)) == a2,
{
    let d = lay.dates;
    let le = d.little_endian;
    let i1 = d.find(t, TAG_ORIGINAL as int);
    let i2 = d.find(t, TAG_DIGITIZED as int);
    let pos1 = d.entry(i1);
    let pos2 = d.entry(i2);
    let e1 = entry_bytes(TAG_ORIGINAL as int, TYPE_ASCII as int, DATE_LEN as int, a1, le);
    let e2 = entry_bytes(TAG_DIGITIZED as int, TYPE_ASCII as int, DATE_LEN as int, a2, le);
    lemma_resolved(t, lay);
    d.lemma_find_first(t, TAG_ORIGINAL as int, 0);
    d.lemma_find_first(t, TAG_DIGITIZED as int, 0);
    lemma_entry_fields(TAG_ORIGINAL as int, TYPE_ASCII as int, DATE_LEN as int, a1, le);
    lemma_entry_fields(TAG_DIGITIZED as int, TYPE_ASCII as int, DATE_LEN as int, a2, le);
    assert(i1 != i2);
    assert(d.start + 2 <= pos1 && pos1 + 12 <= d.end() - 4);
    assert(d.start + 2 <= pos2 && pos2 + 12 <= d.end() - 4);
    lemma_reads_in_window(out, pos1, e1, le);
    lemma_reads_in_window(out, pos2, e2, le);
    assert forall|j: int| 0 <= j < d.count implies d.tag_at(t, j) == d.tag_at(out, j) by {
        let p = d.entry(j);
        if j != i1 && j != i2 {
            assert(p + 12 <= pos1 || pos1 + 12 <= p);
            assert(p + 12 <= pos2 || pos2 + 12 <= p);
            assert(out[p] == t[p]);
            assert(out[p + 1] == t[p + 1]);
        }
    }
    d.lemma_find_agrees(t, d, out, TAG_ORIGINAL as int, 0);
    d.lemma_find_agrees(t, d, out, TAG_DIGITIZED as int, 0);
}

/// Setting the values that a block already holds in place changes nothing.
proof fn lemma_rewrite_is_idle(
    out: Seq<u8>,
    lay: Layout,
    a1: int,
    a2: int,
    taken: Seq<u8>,
    created: Seq<u8>,
)
    requires
        resolve(out) == Some(lay),
        taken.len() == DATE_LEN,
        created.len() == DATE_LEN,
        lay.dates.find(out, TAG_ORIGINAL as int) < lay.dates.count,
        lay.dates.find(out, TAG_DIGITIZED as int) < lay.dates.count,
        lay.in_place(out, lay.dates.find(out, TAG_ORIGINAL as int)),
        lay.in_place(out, lay.dates.find(out, TAG_DIGITIZED as int)),
        lay.offset_at(out, lay.dates.find(out, TAG_ORIGINAL as int)) == a1,
        lay.offset_at(out, lay.dates.find(out, TAG_DIGITIZED as int)) == a2,
        !overlap(a1, a2),
        out.subrange(a1, a1 + DATE_LEN) == taken,
        out.subrange(a2, a2 + DATE_LEN) == created,
        out.subrange(
            lay.dates.entry(lay.dates.find(out, TAG_ORIGINAL as int)),
            lay.dates.entry(lay.dates.find(out, TAG_ORIGINAL as int)) + 12,
        ) == entry_bytes(
            TAG_ORIGINAL as int,
            TYPE_ASCII as int,
            DATE_LEN as int,
            a1,
            lay.dates.little_endian,
        ),
        out.subrange(
            lay.dates.entry(lay.dates.find(out, TAG_DIGITIZED as int)),
            lay.dates.entry(lay.dates.find(out, TAG_DIGITIZED as int)) + 12,
        ) == entry_bytes(
            TAG_DIGITIZED as int,
            TYPE_ASCII as int,
            DATE_LEN as int,
            a2,
            lay.dates.little_endian,
        ),
    ensures
        missing(out, lay.dates) == 0,
        date_value(out, TAG_ORIGINAL as int) == Some(taken),
        date_value(out, TAG_DIGITIZED as int) == Some(created),
        updated(out, lay, taken, created) == Some(out),
{
    let d = lay.dates;
    let le = d.little_endian;
    let pos1 = d.entry(d.find(out, TAG_ORIGINAL as int));
    let pos2 = d.entry(d.find(out, TAG_DIGITIZED as int));
    let e1 = entry_bytes(TAG_ORIGINAL as int, TYPE_ASCII as int, DATE_LEN as int, a1, le);
    let e2 = entry_bytes(TAG_DIGITIZED as int, TYPE_ASCII as int, DATE_LEN as int, a2, le);
    lemma_resolved(out, lay);
    d.lemma_find_first(out, TAG_ORIGINAL as int, 0);
    d.lemma_find_first(out, TAG_DIGITIZED as int, 0);
    assert(growth(out, lay) == 0);
    assert(out + zeros(0) =~= out);
    assert(first_target(out, lay) == a1);
    assert(second_target(out, lay) == a2);
    assert(e1.len() == 12 && e2.len() == 12);
    lemma_put_same(out, pos1, e1);
    lemma_put_same(out, pos2, e2);
    lemma_put_same(out, a1, taken);
    lemma_put_same(out, a2, created);
}

/// After both values are set, the block has the same layout, both entries
/// can be read in place and hold the values, and setting the same values
/// again changes nothing.
pub proof fn lemma_updated_settles(t: Seq<u8>, lay: Layout, taken: Seq<u8>, created: Seq<u8>)
    requires
        resolve(t) == Some(lay),
        taken.len() == DATE_LEN,
        created.len() == DATE_LEN,
        updated(t, lay, taken, created) is Some,
    ensures
        ({
            let out = updated(t, lay, taken, created).unwrap();
            &&& t.len() <= out.len() <= MAX_BLOCK
            &&& resolve(out) == Some(lay)
            &&& missing(out, lay.dates) == 0
            &&& date_value(out, TAG_ORIGINAL as int) == Some(taken)
            &&& date_value(out, TAG_DIGITIZED as int) == Some(created)
            &&& updated(out, lay, taken, created) == Some(out)
        }),
{
    let out = updated(t, lay, taken, created).unwrap();
    let d = lay.dates;
    let le = d.little_endian;
    let i1 = d.find(t, TAG_ORIGINAL as int);
    let i2 = d.find(t, TAG_DIGITIZED as int);
    let a1 = first_target(t, lay);
    let a2 = second_target(t, lay);
    let pos1 = d.entry(i1);
    let pos2 = d.entry(i2);
    let e1 = entry_bytes(TAG_ORIGINAL as int, TYPE_ASCII as int, DATE_LEN as int, a1, le);
    let e2 = entry_bytes(TAG_DIGITIZED as int, TYPE_ASCII as int, DATE_LEN as int, a2, le);
    let base = t + zeros(growth(t, lay));
    lemma_resolved(t, lay);
    d.lemma_find_first(t, TAG_ORIGINAL as int, 0);
    d.lemma_find_first(t, TAG_DIGITIZED as int, 0);
    assert(i1 != i2);
    assert(0 <= i1 < d.count && 0 <= i2 < d.count);
    assert(8 <= a1 && a1 + DATE_LEN <= out.len() && lay.root.clear_of(a1) && d.clear_of(a1));
    assert(8 <= a2 && a2 + DATE_LEN <= out.len() && lay.root.clear_of(a2) && d.clear_of(a2));
    assert(!overlap(a1, a2));
    assert(a1 < 65536 && a2 < 65536);
    lemma_entry_fields(TAG_ORIGINAL as int, TYPE_ASCII as int, DATE_LEN as int, a1, le);
    lemma_entry_fields(TAG_DIGITIZED as int, TYPE_ASCII as int, DATE_LEN as int, a2, le);
    assert(pos1 + 12 <= pos2 || pos2 + 12 <= pos1);
    assert(e1.len() == 12 && e2.len() == 12);
    lemma_four_writes(base, pos1, e1, pos2, e2, a1, taken, a2, created);
    assert forall|k: int|
        (0 <= k < 8 || lay.root.start <= k < lay.root.end() || d.start <= k < d.end()) && !(pos1 <= k
            < pos1 + 12) && !(pos2 <= k < pos2 + 12) implies #[trigger] out[k] == t[k] by {
        assert(out[k] == base[k]);
    }
    assert(settled(t, out, lay, a1, a2));
    lemma_layout_kept(t, out, lay, a1, a2);
    lemma_entries_kept(t, out, lay, a1, a2);
    lemma_rewrite_is_idle(out, lay, a1, a2, taken, created);
}


/// Whether directory `c` of block `g` is directory `d` of block `t` with the
/// entries `added` put in at entry `p`.
pub open spec fn inserted(
    t: Seq<u8>,
    d: Directory,
    g: Seq<u8>,
    c: Directory,
    p: int,
    added: Seq<u8>,
) -> bool {
    &&& 0 <= p <= d.count
    &&& added.len() % 12 == 0
    &&& c.little_endian == d.little_endian
    &&& c.count == d.count + added.len() / 12
    &&& 0 <= d.entry(0) && d.end() <= t.len()
    &&& 0 <= c.entry(0) && c.end() <= g.len()
    &&& g.subrange(c.entry(0), c.entry(p)) == t.subrange(d.entry(0), d.entry(p))
    &&& g.subrange(c.entry(p), c.entry(p) + added.len()) == added
    &&& g.subrange(c.entry(p) + added.len(), c.entry(c.count as int)) == t.subrange(
        d.entry(p),
        d.entry(d.count as int),
    )
}

/// Where entry `j` of a directory stands after `k` entries were put in at
/// entry `p`.
pub open spec fn shifted(p: int, k: int, j: int) -> int {
    if j < p {
        j
    } else {
        j + k
    }
}

/// What a block with a relocated directory holds where.
proof fn lemma_relocated_layout(t: Seq<u8>, d: Directory, link: int, at: int, added: Seq<u8>)
    requires
        d.within(t),
        0 <= link,
        link + 4 <= t.len(),
        0 <= at <= d.count,
        added.len() % 12 == 0,
        copy_end(t, d, added.len() as int / 12) <= MAX_BLOCK,
    ensures
        ({
            let r = relocated(t, d, link, at, added);
            let c = copy_of_directory(t, d, added.len() as int / 12);
            &&& c.start == copy_start(t)
            &&& c.count == d.count + added.len() / 12
            &&& c.little_endian == d.little_endian
            &&& t.len() <= c.start
            &&& r.len() == c.end()
            &&& forall|k: int|
                0 <= k < t.len() && !(link <= k < link + 4) ==> #[trigger] r[k] == t[k]
            &&& r.subrange(link, link + 4) == enc32(c.start as int, d.little_endian)
            &&& r.subrange(c.start as int, c.start + 2) == enc16(c.count as int, d.little_endian)
            &&& inserted(t, d, r, c, at, added)
        }),
{
    let r = relocated(t, d, link, at, added);
    let le = d.little_endian;
    let start = copy_start(t);
    let count = d.count + added.len() / 12;
    let head = put(t, link, enc32(start, le)) + zeros(t.len() as int % 2);
    let before = t.subrange(d.entry(0), d.entry(at));
    let after = t.subrange(d.entry(at), d.end());
    lemma_read_back(start, le);
    lemma_read_back(count, le);
    assert(12 * (added.len() as int / 12) == added.len());
    assert(head.len() == start);
    assert(before.len() == 12 * at);
    assert(after.len() == 12 * (d.count - at) + 4);
    assert(r == head + enc16(count, le) + before + added + after);
    assert(r.len() == start + 2 + 12 * count + 4);
    assert forall|k: int| 0 <= k < t.len() && !(link <= k < link + 4) implies #[trigger] r[k]
        == t[k] by {
        assert(r[k] == head[k]);
    }
    assert(r.subrange(link, link + 4) =~= enc32(start, le));
    assert(r.subrange(start, start + 2) =~= enc16(count, le));
    assert(r.subrange(start + 2, start + 2 + 12 * at) =~= before);
    assert(r.subrange(start + 2 + 12 * at, start + 2 + 12 * at + added.len()) =~= added);
    assert(r.subrange(start + 2 + 12 * at + added.len(), start + 2 + 12 * count) =~= t.subrange(
        d.entry(at),
        d.entry(d.count as int),
    ));
}

/// A directory whose entry count is written where it starts is the
/// directory at that offset.
proof fn lemma_directory_read(g: Seq<u8>, c: Directory)
    requires
        8 <= c.start,
        c.end() <= g.len(),
        c.count < 65536,
        g.subrange(c.start as int, c.start + 2) == enc16(c.count as int, c.little_endian),
    ensures
        directory_at(g, c.little_endian, c.start as int) == Some(c),
{
    let w = g.subrange(c.start as int, c.start + 2);
    lemma_read_back(c.count as int, c.little_endian);
    assert(g[c.start as int] == w[0] && g[c.start + 1] == w[1]);
    assert(rd16(g, c.start as int, c.little_endian) == rd16(w, 0, c.little_endian));
}

/// A number written into a four-byte window reads back from the buffer.
proof fn lemma_number_read(g: Seq<u8>, pos: int, v: int, le: bool)
    requires
        0 <= pos,
        pos + 4 <= g.len(),
        0 <= v < 4294967296,
        g.subrange(pos, pos + 4) == enc32(v, le),
    ensures
        rd32(g, pos, le) == v,
{
    let w = g.subrange(pos, pos + 4);
    lemma_read_back(v, le);
    assert(g[pos] == w[0] && g[pos + 1] == w[1] && g[pos + 2] == w[2] && g[pos + 3] == w[3]);
    assert(rd32(g, pos, le) == rd32(w, 0, le));
}

/// The fields of entry `i` of a directory where the twelve bytes of an
/// entry stand.
proof fn lemma_written_tag(
    g: Seq<u8>,
    c: Directory,
    i: int,
    tag: int,
    kind: int,
    count: int,
    value: int,
)
    requires
        0 <= i,
        0 <= c.entry(i),
        c.entry(i) + 12 <= g.len(),
        0 <= tag < 65536,
        0 <= kind < 65536,
        0 <= count < 4294967296,
        0 <= value < 4294967296,
        g.subrange(c.entry(i), c.entry(i) + 12) == entry_bytes(
            tag,
            kind,
            count,
            value,
            c.little_endian,
        ),
    ensures
        c.tag_at(g, i) == tag,
        rd16(g, c.entry(i) + 2, c.little_endian) == kind,
        rd32(g, c.entry(i) + 4, c.little_endian) == count,
        rd32(g, c.entry(i) + 8, c.little_endian) == value,
{
    let le = c.little_endian;
    lemma_entry_fields(tag, kind, count, value, le);
    lemma_reads_in_window(g, c.entry(i), entry_bytes(tag, kind, count, value, le), le);
}

/// An entry that was there before others were put in stands where it is
/// shifted to, with the fields it had.
proof fn lemma_copied_entry(
    t: Seq<u8>,
    d: Directory,
    g: Seq<u8>,
    c: Directory,
    p: int,
    added: Seq<u8>,
    j: int,
)
    requires
        inserted(t, d, g, c, p, added),
        0 <= j < d.count,
    ensures
        ({
            let i = shifted(p, added.len() as int / 12, j);
            let le = d.little_endian;
            &&& 0 <= i < c.count
            &&& c.tag_at(g, i) == d.tag_at(t, j)
            &&& rd16(g, c.entry(i) + 2, le) == rd16(t, d.entry(j) + 2, le)
            &&& rd32(g, c.entry(i) + 4, le) == rd32(t, d.entry(j) + 4, le)
            &&& rd32(g, c.entry(i) + 8, le) == rd32(t, d.entry(j) + 8, le)
        }),
{
    let k = added.len() as int / 12;
    let i = shifted(p, k, j);
    let le = d.little_endian;
    let window = t.subrange(d.entry(j), d.entry(j) + 12);
    assert(12 * k == added.len());
    if j < p {
        let x = g.subrange(c.entry(0), c.entry(p));
        let y = t.subrange(d.entry(0), d.entry(p));
        assert(window =~= y.subrange(12 * j, 12 * j + 12));
        assert(g.subrange(c.entry(i), c.entry(i) + 12) =~= x.subrange(12 * j, 12 * j + 12));
    } else {
        let x = g.subrange(c.entry(p) + added.len(), c.entry(c.count as int));
        let y = t.subrange(d.entry(p), d.entry(d.count as int));
        assert(window =~= y.subrange(12 * (j - p), 12 * (j - p) + 12));
        assert(g.subrange(c.entry(i), c.entry(i) + 12) =~= x.subrange(
            12 * (j - p),
            12 * (j - p) + 12,
        ));
    }
    lemma_reads_in_window(g, c.entry(i), window, le);
    lemma_reads_in_window(t, d.entry(j), window, le);
}

/// The fields of an entry that was put in.
proof fn lemma_added_entry(
    t: Seq<u8>,
    d: Directory,
    g: Seq<u8>,
    c: Directory,
    p: int,
    added: Seq<u8>,
    m: int,
    tag: int,
    kind: int,
    count: int,
    value: int,
)
    requires
        inserted(t, d, g, c, p, added),
        0 <= m,
        12 * m + 12 <= added.len(),
        0 <= tag < 65536,
        0 <= kind < 65536,
        0 <= count < 4294967296,
        0 <= value < 4294967296,
        added.subrange(12 * m, 12 * m + 12) == entry_bytes(
            tag,
            kind,
            count,
            value,
            d.little_endian,
        ),
    ensures
        p + m < c.count,
        c.tag_at(g, p + m) == tag,
        rd16(g, c.entry(p + m) + 2, c.little_endian) == kind,
        rd32(g, c.entry(p + m) + 4, c.little_endian) == count,
        rd32(g, c.entry(p + m) + 8, c.little_endian) == value,
{
    let x = g.subrange(c.entry(p), c.entry(p) + added.len());
    assert(12 * (added.len() as int / 12) == added.len());
    assert(g.subrange(c.entry(p + m), c.entry(p + m) + 12) =~= x.subrange(12 * m, 12 * m + 12));
    lemma_written_tag(g, c, p + m, tag, kind, count, value);
}

/// Whether the tags of directory `c` of block `g` are those of directory `d`
/// of block `t`, with `k` entries put in at entry `p`.
pub open spec fn tags_shifted(
    t: Seq<u8>,
    d: Directory,
    g: Seq<u8>,
    c: Directory,
    p: int,
    k: int,
) -> bool {
    &&& 0 <= p <= d.count
    &&& 0 <= k
    &&& c.count == d.count + k
    &&& forall|j: int| 0 <= j < p ==> c.tag_at(g, j) == #[trigger] d.tag_at(t, j)
    &&& forall|j: int| p <= j < d.count ==> c.tag_at(g, j + k) == #[trigger] d.tag_at(t, j)
}

/// Putting entries in shifts the tags behind them.
proof fn lemma_inserted_tags(
    t: Seq<u8>,
    d: Directory,
    g: Seq<u8>,
    c: Directory,
    p: int,
    added: Seq<u8>,
)
    requires
        inserted(t, d, g, c, p, added),
    ensures
        tags_shifted(t, d, g, c, p, added.len() as int / 12),
{
    let k = added.len() as int / 12;
    assert forall|j: int| 0 <= j < p implies c.tag_at(g, j) == #[trigger] d.tag_at(t, j) by {
        lemma_copied_entry(t, d, g, c, p, added, j);
    }
    assert forall|j: int| p <= j < d.count implies c.tag_at(g, j + k) == #[trigger] d.tag_at(
        t,
        j,
    ) by {
        lemma_copied_entry(t, d, g, c, p, added, j);
    }
}

/// Behind the entries that were put in, a tag is found as many entries
/// later as were put in.
proof fn lemma_find_after(
    t: Seq<u8>,
    d: Directory,
    g: Seq<u8>,
    c: Directory,
    p: int,
    k: int,
    tag: int,
    from: int,
)
    requires
        tags_shifted(t, d, g, c, p, k),
        p <= from <= d.count,
    ensures
        c.find_from(g, tag, from + k) == d.find_from(t, tag, from) + k,
    decreases d.count - from,
{
    if from < d.count {
        assert(c.tag_at(g, from + k) == d.tag_at(t, from));
        if d.tag_at(t, from) != tag {
            lemma_find_after(t, d, g, c, p, k, tag, from + 1);
        }
    }
}

/// A tag that none of the entries that were put in carries is found where
/// the entry that carried it before is shifted to.
proof fn lemma_find_before(
    t: Seq<u8>,
    d: Directory,
    g: Seq<u8>,
    c: Directory,
    p: int,
    k: int,
    tag: int,
    from: int,
)
    requires
        tags_shifted(t, d, g, c, p, k),
        0 <= from <= p,
        forall|j: int| p <= j < p + k ==> #[trigger] c.tag_at(g, j) != tag,
    ensures
        c.find_from(g, tag, from) == shifted(p, k, d.find_from(t, tag, from)),
    decreases p - from,
{
    if from < p {
        assert(c.tag_at(g, from) == d.tag_at(t, from));
        if d.tag_at(t, from) != tag {
            lemma_find_before(t, d, g, c, p, k, tag, from + 1);
        }
    } else {
        c.lemma_find_skips(g, tag, p, p + k);
        lemma_find_after(t, d, g, c, p, k, tag, p);
        d.lemma_find_first(t, tag, p);
    }
}

/// A tag that no entry carried before is found at the first entry put in
/// that carries it.
proof fn lemma_find_added(
    t: Seq<u8>,
    d: Directory,
    g: Seq<u8>,
    c: Directory,
    p: int,
    k: int,
    tag: int,
    i: int,
)
    requires
        tags_shifted(t, d, g, c, p, k),
        d.find(t, tag) >= d.count,
        p <= i < p + k,
        c.tag_at(g, i) == tag,
        forall|j: int| p <= j < i ==> #[trigger] c.tag_at(g, j) != tag,
    ensures
        c.find(g, tag) == i,
{
    d.lemma_find_first(t, tag, 0);
    assert forall|j: int| 0 <= j < i implies #[trigger] c.tag_at(g, j) != tag by {
        if j < p {
            assert(c.tag_at(g, j) == d.tag_at(t, j));
        }
    }
    c.lemma_find_skips(g, tag, 0, i);
}

/// The added entries take twelve bytes for each missing date.
proof fn lemma_added_length(t: Seq<u8>, d: Directory)
    ensures
        added_entries(t, d).len() == 12 * missing(t, d),
        0 <= missing(t, d) <= 2,
{
    lemma_entry_fields(TAG_ORIGINAL as int, 0, 0, 0, d.little_endian);
    lemma_entry_fields(TAG_DIGITIZED as int, 0, 0, 0, d.little_endian);
}

/// Where a directory that was given the entries it lacked has a date: where
/// the entry that carried it before is shifted to, with the fields it had,
/// or at an added entry that is no text.
proof fn lemma_date_after_insertion(
    t: Seq<u8>,
    d: Directory,
    g: Seq<u8>,
    c: Directory,
    p: int,
    tag: int,
)
    requires
        tag == TAG_ORIGINAL || tag == TAG_DIGITIZED,
        inserted(t, d, g, c, p, added_entries(t, d)),
    ensures
        ({
            let i = d.find(t, tag);
            let j = c.find(g, tag);
            &&& 0 <= j < c.count
            &&& i < d.count ==> j == shifted(p, missing(t, d), i) && is_date_text(g, c, j)
                == is_date_text(t, d, i) && rd32(g, c.entry(j) + 8, c.little_endian) == rd32(
                t,
                d.entry(i) + 8,
                d.little_endian,
            )
            &&& i >= d.count ==> p <= j < p + missing(t, d) && !is_date_text(g, c, j)
        }),
{
    let le = d.little_endian;
    let added = added_entries(t, d);
    let k = missing(t, d);
    let i = d.find(t, tag);
    let need1 = d.find(t, TAG_ORIGINAL as int) >= d.count;
    let need2 = d.find(t, TAG_DIGITIZED as int) >= d.count;
    lemma_added_length(t, d);
    lemma_entry_fields(TAG_ORIGINAL as int, 0, 0, 0, le);
    lemma_entry_fields(TAG_DIGITIZED as int, 0, 0, 0, le);
    lemma_inserted_tags(t, d, g, c, p, added);
    d.lemma_find_first(t, tag, 0);
    // The tags of the entries that were put in.
    if need1 {
        assert(added.subrange(0, 12) =~= placeholder(TAG_ORIGINAL as int, le));
        lemma_added_entry(t, d, g, c, p, added, 0, TAG_ORIGINAL as int, 0, 0, 0);
        if need2 {
            assert(added.subrange(12, 24) =~= placeholder(TAG_DIGITIZED as int, le));
            lemma_added_entry(t, d, g, c, p, added, 1, TAG_DIGITIZED as int, 0, 0, 0);
        }
    } else if need2 {
        assert(added.subrange(0, 12) =~= placeholder(TAG_DIGITIZED as int, le));
        lemma_added_entry(t, d, g, c, p, added, 0, TAG_DIGITIZED as int, 0, 0, 0);
    }
    if i < d.count {
        lemma_find_before(t, d, g, c, p, k, tag, 0);
        lemma_copied_entry(t, d, g, c, p, added, i);
    } else if tag == TAG_ORIGINAL || !need1 {
        lemma_find_added(t, d, g, c, p, k, tag, p);
    } else {
        lemma_find_added(t, d, g, c, p, k, tag, p + 1);
    }
}

/// A grown block has the root directory it had and the copy as its date
/// directory.
proof fn lemma_grown_resolves(t: Seq<u8>, lay: Layout, g: Seq<u8>, c: Directory)
    requires
        resolve(t) == Some(lay),
        lay.dates.within(t),
        lay.root.within(t),
        8 <= lay.link(t),
        lay.link(t) + 4 <= lay.root.end(),
        c.little_endian == lay.root.little_endian,
        t.len() <= c.start,
        c.count < 65536,
        g.len() == c.end(),
        g.len() <= MAX_BLOCK,
        forall|k: int|
            0 <= k < t.len() && !(lay.link(t) <= k < lay.link(t) + 4) ==> #[trigger] g[k] == t[k],
        g.subrange(lay.link(t), lay.link(t) + 4) == enc32(c.start as int, c.little_endian),
        g.subrange(c.start as int, c.start + 2) == enc16(c.count as int, c.little_endian),
    ensures
        resolve(g) == Some(Layout { root: lay.root, dates: c }),
{
    let le = c.little_endian;
    let link = lay.link(t);
    lemma_directory_read(g, c);
    lemma_number_read(g, link, c.start as int, le);
    assert forall|k: int| 0 <= k < 8 implies #[trigger] g[k] == t[k] by {}
    assert forall|k: int|
        lay.root.start <= k < lay.root.end() && !(link <= k < link + 4) implies #[trigger] g[k]
        == t[k] by {}
    assert(lay.root.apart_from(c));
    lemma_layout_carried(t, g, lay, c);
}

/// A grown block has the root directory it had, the copy as its date
/// directory, and in it an entry for each date.
pub proof fn lemma_grown_complete(t: Seq<u8>, lay: Layout)
    requires
        resolve(t) == Some(lay),
        grown(t, lay) is Some,
    ensures
        ({
            let g = grown(t, lay).unwrap();
            let c = copy_of_directory(t, lay.dates, missing(t, lay.dates));
            &&& resolve(g) == Some(Layout { root: lay.root, dates: c })
            &&& missing(g, c) == 0
        }),
{
    let g = grown(t, lay).unwrap();
    let d = lay.dates;
    let added = added_entries(t, d);
    let c = copy_of_directory(t, d, missing(t, d));
    let p = insertion_point(t, d);
    lemma_resolved(t, lay);
    lemma_added_length(t, d);
    d.lemma_above_range(t, TAG_ORIGINAL as int, 0);
    d.lemma_above_range(t, TAG_DIGITIZED as int, 0);
    lemma_relocated_layout(t, d, lay.link(t), p, added);
    lemma_grown_resolves(t, lay, g, c);
    lemma_date_after_insertion(t, d, g, c, p, TAG_ORIGINAL as int);
    lemma_date_after_insertion(t, d, g, c, p, TAG_DIGITIZED as int);
}

/// The directories of a block that was given a date directory.
pub open spec fn subdirectory_layout(t: Seq<u8>, root: Directory) -> Layout {
    Layout {
        root: copy_of_directory(t, root, 1),
        dates: Directory {
            little_endian: root.little_endian,
            start: subdirectory_start(t, root) as usize,
            count: 2,
        },
    }
}

/// What a block that was given a date directory holds where its root
/// directory was copied to.
proof fn lemma_subdirectory_bytes(t: Seq<u8>, root: Directory)
    requires
        locate(t) == Some(root),
        with_subdirectory(t, root) is Some,
    ensures
        ({
            let s = with_subdirectory(t, root).unwrap();
            let c = subdirectory_layout(t, root).root;
            let p = root.above(t, TAG_SUBDIRECTORY as int);
            let le = root.little_endian;
            &&& s.len() == subdirectory_start(t, root) + 30
            &&& c.little_endian == le
            &&& 8 <= c.start
            &&& c.end() == subdirectory_start(t, root)
            &&& c.count < 65536
            &&& s.subrange(0, 4) == t.subrange(0, 4)
            &&& s.subrange(4, 8) == enc32(c.start as int, le)
            &&& s.subrange(c.start as int, c.start + 2) == enc16(c.count as int, le)
            &&& inserted(
                t,
                root,
                s,
                c,
                p,
                entry_bytes(
                    TAG_SUBDIRECTORY as int,
                    TYPE_LONG as int,
                    1,
                    subdirectory_start(t, root),
                    le,
                ),
            )
        }),
{
    let s = with_subdirectory(t, root).unwrap();
    let le = root.little_endian;
    let at = subdirectory_start(t, root);
    let p = root.above(t, TAG_SUBDIRECTORY as int);
    let pointer = entry_bytes(TAG_SUBDIRECTORY as int, TYPE_LONG as int, 1, at, le);
    let r = relocated(t, root, 4, p, pointer);
    let c = subdirectory_layout(t, root).root;
    lemma_entry_fields(TAG_SUBDIRECTORY as int, TYPE_LONG as int, 1, at, le);
    lemma_entry_fields(TAG_ORIGINAL as int, 0, 0, 0, le);
    lemma_entry_fields(TAG_DIGITIZED as int, 0, 0, 0, le);
    root.lemma_above_range(t, TAG_SUBDIRECTORY as int, 0);
    lemma_relocated_layout(t, root, 4, p, pointer);
    assert(s == r + empty_dates(le));
    assert(r.len() == at);
    assert(s.len() == at + 30);
    assert(s.subrange(0, 4) =~= t.subrange(0, 4));
    assert(s.subrange(4, 8) =~= r.subrange(4, 8));
    assert(s.subrange(c.start as int, c.start + 2) =~= r.subrange(c.start as int, c.start + 2));
    assert(s.subrange(c.entry(0), c.entry(p)) =~= r.subrange(c.entry(0), c.entry(p)));
    assert(s.subrange(c.entry(p), c.entry(p) + 12) =~= r.subrange(c.entry(p), c.entry(p) + 12));
    assert(s.subrange(c.entry(p) + 12, c.entry(c.count as int)) =~= r.subrange(
        c.entry(p) + 12,
        c.entry(c.count as int),
    ));
}

/// The copy of the root directory of a block that was given a date
/// directory is the root directory of the new block, and the entry that was
/// put in points to the new date directory.
proof fn lemma_subdirectory_root(t: Seq<u8>, root: Directory)
    requires
        locate(t) == Some(root),
        root.find(t, TAG_SUBDIRECTORY as int) >= root.count,
        with_subdirectory(t, root) is Some,
    ensures
        ({
            let s = with_subdirectory(t, root).unwrap();
            let c = subdirectory_layout(t, root).root;
            let p = root.above(t, TAG_SUBDIRECTORY as int);
            let le = root.little_endian;
            &&& s.len() == subdirectory_start(t, root) + 30
            &&& locate(s) == Some(c)
            &&& c.find(s, TAG_SUBDIRECTORY as int) == p
            &&& 0 <= p < c.count
            &&& rd16(s, c.entry(p) + 2, le) == TYPE_LONG
            &&& rd32(s, c.entry(p) + 4, le) == 1
            &&& rd32(s, c.entry(p) + 8, le) == subdirectory_start(t, root)
        }),
{
    let s = with_subdirectory(t, root).unwrap();
    let le = root.little_endian;
    let at = subdirectory_start(t, root);
    let p = root.above(t, TAG_SUBDIRECTORY as int);
    let pointer = entry_bytes(TAG_SUBDIRECTORY as int, TYPE_LONG as int, 1, at, le);
    let c = subdirectory_layout(t, root).root;
    lemma_subdirectory_bytes(t, root);
    lemma_entry_fields(TAG_SUBDIRECTORY as int, TYPE_LONG as int, 1, at, le);
    lemma_directory_read(s, c);
    lemma_number_read(s, 4, c.start as int, le);
    assert(locate(s) == Some(c)) by {
        let a = s.subrange(0, 4);
        let b = t.subrange(0, 4);
        assert(s[0] == a[0] && s[1] == a[1] && s[2] == a[2] && s[3] == a[3]);
        assert(t[0] == b[0] && t[1] == b[1] && t[2] == b[2] && t[3] == b[3]);
    }
    lemma_inserted_tags(t, root, s, c, p, pointer);
    assert(pointer.subrange(0, 12) =~= pointer);
    lemma_added_entry(
        t,
        root,
        s,
        c,
        p,
        pointer,
        0,
        TAG_SUBDIRECTORY as int,
        TYPE_LONG as int,
        1,
        at,
    );
    lemma_find_added(t, root, s, c, p, 1, TAG_SUBDIRECTORY as int, p);
}

/// A block that was given a date directory has the copy of its root
/// directory as root directory, the new directory as date directory, and in
/// it an entry for each date.
pub proof fn lemma_subdirectory_complete(t: Seq<u8>, root: Directory)
    requires
        locate(t) == Some(root),
        root.find(t, TAG_SUBDIRECTORY as int) >= root.count,
        with_subdirectory(t, root) is Some,
    ensures
        resolve(with_subdirectory(t, root).unwrap()) == Some(subdirectory_layout(t, root)),
        missing(with_subdirectory(t, root).unwrap(), subdirectory_layout(t, root).dates) == 0,
{
    let s = with_subdirectory(t, root).unwrap();
    let le = root.little_endian;
    let at = subdirectory_start(t, root);
    let lay = subdirectory_layout(t, root);
    let dates = lay.dates;
    lemma_subdirectory_root(t, root);
    lemma_subdirectory_dates(t, root);
    assert(lay.root.apart_from(dates));
    assert(resolve(s) == Some(lay));
}

/// The steps of patching leave a block that the next step can read: a block
/// that was given a date directory has a layout and an entry for each date,
/// and so has every block whose date directory was completed. Patching
/// therefore fails only where a step itself fails.
pub proof fn lemma_steps_resolve(t: Seq<u8>)
    ensures
        locate(t) is Some && locate(t).unwrap().find(t, TAG_SUBDIRECTORY as int) >= locate(
            t,
        ).unwrap().count && prepared(t) is Some ==> completed(prepared(t).unwrap()) == prepared(t),
        completed(t) is Some ==> resolve(completed(t).unwrap()) is Some && missing(
            completed(t).unwrap(),
            resolve(completed(t).unwrap()).unwrap().dates,
        ) == 0,
{
    if locate(t) is Some {
        let root = locate(t).unwrap();
        if root.find(t, TAG_SUBDIRECTORY as int) >= root.count && prepared(t) is Some {
            lemma_subdirectory_complete(t, root);
        }
    }
    if completed(t) is Some {
        let lay = resolve(t).unwrap();
        if missing(t, lay.dates) != 0 {
            lemma_grown_complete(t, lay);
        }
    }
}

/// Idempotence: a patched block holds both values where they can be read in
/// place, and patching it again with the same values gives the same bytes.
pub proof fn lemma_patched_settles(t: Seq<u8>, taken: Seq<u8>, created: Seq<u8>)
    requires
        taken.len() == DATE_LEN,
        created.len() == DATE_LEN,
        patched(t, taken, created) is Some,
    ensures
        ({
            let out = patched(t, taken, created).unwrap();
            &&& date_value(out, TAG_ORIGINAL as int) == Some(taken)
            &&& date_value(out, TAG_DIGITIZED as int) == Some(created)
            &&& patched(out, taken, created) == Some(out)
            &&& out.len() <= MAX_BLOCK
        }),
{
    let p = prepared(t).unwrap();
    let c = completed(p).unwrap();
    let lay = resolve(c).unwrap();
    let out = updated(c, lay, taken, created).unwrap();
    lemma_updated_settles(c, lay, taken, created);
    lemma_resolved(out, lay);
    assert(prepared(out) == Some(out));
    assert(completed(out) == Some(out));
}

/// The directories of a new block.
pub open spec fn fresh_layout() -> Layout {
    Layout {
        root: Directory { little_endian: false, start: 8, count: 1 },
        dates: Directory { little_endian: false, start: 26, count: 2 },
    }
}

/// A new block holds both values where they can be read in place, and
/// patching it with the same values changes nothing.
pub proof fn lemma_fresh_settles(taken: Seq<u8>, created: Seq<u8>)
    requires
        taken.len() == DATE_LEN,
        created.len() == DATE_LEN,
    ensures
        fresh(taken, created).len() == 96,
        resolve(fresh(taken, created)) == Some(fresh_layout()),
        date_value(fresh(taken, created), TAG_ORIGINAL as int) == Some(taken),
        date_value(fresh(taken, created), TAG_DIGITIZED as int) == Some(created),
        patched(fresh(taken, created), taken, created) == Some(fresh(taken, created)),
{
    let f = fresh(taken, created);
    let lay = fresh_layout();
    lemma_fresh_layout(taken, created);
    lemma_resolved(f, lay);
    let e1 = entry_bytes(TAG_ORIGINAL as int, TYPE_ASCII as int, DATE_LEN as int, 56, false);
    let e2 = entry_bytes(TAG_DIGITIZED as int, TYPE_ASCII as int, DATE_LEN as int, 76, false);
    lemma_written_tag(f, lay.dates, 0, TAG_ORIGINAL as int, TYPE_ASCII as int, DATE_LEN as int, 56);
    lemma_written_tag(f, lay.dates, 1, TAG_DIGITIZED as int, TYPE_ASCII as int, DATE_LEN as int, 76);
    assert(lay.dates.find_from(f, TAG_DIGITIZED as int, 1) == 1);
    assert(lay.dates.find(f, TAG_ORIGINAL as int) == 0);
    assert(lay.dates.find(f, TAG_DIGITIZED as int) == 1);
    lemma_rewrite_is_idle(f, lay, 56, 76, taken, created);
    assert(prepared(f) == Some(f));
    assert(completed(f) == Some(f));
}

/// Where a new block holds what, and the layout that follows from it.
proof fn lemma_fresh_layout(taken: Seq<u8>, created: Seq<u8>)
    requires
        taken.len() == DATE_LEN,
        created.len() == DATE_LEN,
    ensures
        ({
            let f = fresh(taken, created);
            &&& f.len() == 96
            &&& resolve(f) == Some(fresh_layout())
            &&& f.subrange(28, 40) == entry_bytes(
                TAG_ORIGINAL as int,
                TYPE_ASCII as int,
                DATE_LEN as int,
                56,
                false,
            )
            &&& f.subrange(40, 52) == entry_bytes(
                TAG_DIGITIZED as int,
                TYPE_ASCII as int,
                DATE_LEN as int,
                76,
                false,
            )
            &&& f.subrange(56, 76) == taken
            &&& f.subrange(76, 96) == created
        }),
{
    reveal(fresh);
    let f = fresh(taken, created);
    let lay = fresh_layout();
    let head = seq![0x4Du8, 0x4Du8, 0x00u8, 0x2Au8, 0x00u8, 0x00u8, 0x00u8, 0x08u8];
    let pointer = entry_bytes(TAG_SUBDIRECTORY as int, TYPE_LONG as int, 1, 26, false);
    let e1 = entry_bytes(TAG_ORIGINAL as int, TYPE_ASCII as int, DATE_LEN as int, 56, false);
    let e2 = entry_bytes(TAG_DIGITIZED as int, TYPE_ASCII as int, DATE_LEN as int, 76, false);
    lemma_read_back(1, false);
    lemma_read_back(2, false);
    lemma_entry_fields(TAG_SUBDIRECTORY as int, TYPE_LONG as int, 1, 26, false);
    lemma_entry_fields(TAG_ORIGINAL as int, TYPE_ASCII as int, DATE_LEN as int, 56, false);
    lemma_entry_fields(TAG_DIGITIZED as int, TYPE_ASCII as int, DATE_LEN as int, 76, false);
    assert(head.len() == 8);
    assert(f.len() == 96);
    assert(f.subrange(0, 8) =~= head);
    assert(f.subrange(8, 10) =~= enc16(1, false));
    assert(f.subrange(10, 22) =~= pointer);
    assert(f.subrange(26, 28) =~= enc16(2, false));
    assert(f.subrange(28, 40) =~= e1);
    assert(f.subrange(40, 52) =~= e2);
    assert(f.subrange(56, 76) =~= taken);
    assert(f.subrange(76, 96) =~= created);
    lemma_directory_read(f, lay.root);
    lemma_directory_read(f, lay.dates);
    assert(locate(f) == Some(lay.root)) by {
        assert(f[0] == head[0] && f[1] == head[1] && f[2] == head[2] && f[3] == head[3]);
        assert(f[4] == head[4] && f[5] == head[5] && f[6] == head[6] && f[7] == head[7]);
    }
    lemma_written_tag(f, lay.root, 0, TAG_SUBDIRECTORY as int, TYPE_LONG as int, 1, 26);
    assert(lay.root.find(f, TAG_SUBDIRECTORY as int) == 0);
}


/// Whether entry `i` of a directory claims to be a twenty-byte text.
pub open spec fn is_date_text(t: Seq<u8>, d: Directory, i: int) -> bool {
    rd16(t, d.entry(i) + 2, d.little_endian) == TYPE_ASCII && rd32(
        t,
        d.entry(i) + 4,
        d.little_endian,
    ) == DATE_LEN
}

/// Whether byte `k` belongs to the date with `tag`: to the twelve bytes of
/// the first entry of the date directory that carries the tag, or, where
/// that entry claims to be a twenty-byte text, to the twenty bytes that it
/// points to.
pub open spec fn in_date(t: Seq<u8>, lay: Layout, tag: int, k: int) -> bool {
    let i = lay.dates.find(t, tag);
    i < lay.dates.count && ((lay.dates.entry(i) <= k < lay.dates.entry(i) + 12) || (is_date_text(
        t,
        lay.dates,
        i,
    ) && lay.offset_at(t, i) <= k < lay.offset_at(t, i) + DATE_LEN))
}

/// Whether patching may change byte `k` of a block: in a block with a date
/// directory, the offset of that directory in the root entry that points to
/// it, and the two dates; in a block without one, the offset of the root
/// directory in the header.
pub open spec fn may_change(t: Seq<u8>, k: int) -> bool {
    match resolve(t) {
        None => 4 <= k < 8,
        Some(lay) => (lay.link(t) <= k < lay.link(t) + 4) || in_date(
            t,
            lay,
            TAG_ORIGINAL as int,
            k,
        ) || in_date(t, lay, TAG_DIGITIZED as int, k),
    }
}

/// Setting both values changes no byte of the block but those of the two
/// dates.
pub proof fn lemma_updated_keeps_rest(t: Seq<u8>, lay: Layout, taken: Seq<u8>, created: Seq<u8>)
    requires
        resolve(t) == Some(lay),
        taken.len() == DATE_LEN,
        created.len() == DATE_LEN,
        updated(t, lay, taken, created) is Some,
    ensures
        t.len() <= updated(t, lay, taken, created).unwrap().len(),
        forall|k: int|
            0 <= k < t.len() && !in_date(t, lay, TAG_ORIGINAL as int, k) && !in_date(
                t,
                lay,
                TAG_DIGITIZED as int,
                k,
            ) ==> #[trigger] updated(t, lay, taken, created).unwrap()[k] == t[k],
{
    let out = updated(t, lay, taken, created).unwrap();
    let d = lay.dates;
    let le = d.little_endian;
    let i1 = d.find(t, TAG_ORIGINAL as int);
    let i2 = d.find(t, TAG_DIGITIZED as int);
    let a1 = first_target(t, lay);
    let a2 = second_target(t, lay);
    let pos1 = d.entry(i1);
    let pos2 = d.entry(i2);
    let e1 = entry_bytes(TAG_ORIGINAL as int, TYPE_ASCII as int, DATE_LEN as int, a1, le);
    let e2 = entry_bytes(TAG_DIGITIZED as int, TYPE_ASCII as int, DATE_LEN as int, a2, le);
    let base = t + zeros(growth(t, lay));
    lemma_resolved(t, lay);
    d.lemma_find_first(t, TAG_ORIGINAL as int, 0);
    d.lemma_find_first(t, TAG_DIGITIZED as int, 0);
    assert(i1 != i2);
    assert(0 <= i1 < d.count && 0 <= i2 < d.count);
    assert(8 <= a1 && a1 + DATE_LEN <= out.len());
    assert(8 <= a2 && a2 + DATE_LEN <= out.len());
    assert(!overlap(a1, a2));
    assert(a1 < 65536 && a2 < 65536);
    lemma_entry_fields(TAG_ORIGINAL as int, TYPE_ASCII as int, DATE_LEN as int, a1, le);
    lemma_entry_fields(TAG_DIGITIZED as int, TYPE_ASCII as int, DATE_LEN as int, a2, le);
    assert(pos1 + 12 <= pos2 || pos2 + 12 <= pos1);
    assert(d.clear_of(a1) && d.clear_of(a2));
    lemma_four_writes(base, pos1, e1, pos2, e2, a1, taken, a2, created);
    assert forall|k: int|
        0 <= k < t.len() && !in_date(t, lay, TAG_ORIGINAL as int, k) && !in_date(
            t,
            lay,
            TAG_DIGITIZED as int,
            k,
        ) implies #[trigger] out[k] == t[k] by {
        assert(!(pos1 <= k < pos1 + 12) && !(pos2 <= k < pos2 + 12));
        assert(!(a1 <= k < a1 + DATE_LEN));
        assert(!(a2 <= k < a2 + DATE_LEN));
        assert(out[k] == base[k]);
    }
}

/// In a grown block, a byte of the old block belongs to a date only if it
/// did so before.
proof fn lemma_grown_dates(t: Seq<u8>, lay: Layout, tag: int, k: int)
    requires
        resolve(t) == Some(lay),
        grown(t, lay) is Some,
        tag == TAG_ORIGINAL || tag == TAG_DIGITIZED,
        0 <= k < t.len(),
        in_date(
            grown(t, lay).unwrap(),
            Layout { root: lay.root, dates: copy_of_directory(t, lay.dates, missing(t, lay.dates)) },
            tag,
            k,
        ),
    ensures
        in_date(t, lay, tag, k),
{
    let g = grown(t, lay).unwrap();
    let d = lay.dates;
    let c = copy_of_directory(t, d, missing(t, d));
    let p = insertion_point(t, d);
    lemma_resolved(t, lay);
    lemma_added_length(t, d);
    d.lemma_above_range(t, TAG_ORIGINAL as int, 0);
    d.lemma_above_range(t, TAG_DIGITIZED as int, 0);
    lemma_relocated_layout(t, d, lay.link(t), p, added_entries(t, d));
    lemma_date_after_insertion(t, d, g, c, p, tag);
}

/// Giving a block a date directory and setting both values changes no byte
/// of the block but the offset in its header.
proof fn lemma_added_keeps_rest(t: Seq<u8>, root: Directory, taken: Seq<u8>, created: Seq<u8>)
    requires
        locate(t) == Some(root),
        root.find(t, TAG_SUBDIRECTORY as int) >= root.count,
        with_subdirectory(t, root) is Some,
        taken.len() == DATE_LEN,
        created.len() == DATE_LEN,
        updated(
            with_subdirectory(t, root).unwrap(),
            subdirectory_layout(t, root),
            taken,
            created,
        ) is Some,
    ensures
        ({
            let out = updated(
                with_subdirectory(t, root).unwrap(),
                subdirectory_layout(t, root),
                taken,
                created,
            ).unwrap();
            &&& t.len() <= out.len()
            &&& forall|k: int| 0 <= k < t.len() && !(4 <= k < 8) ==> #[trigger] out[k] == t[k]
        }),
{
    let p = with_subdirectory(t, root).unwrap();
    let lay = subdirectory_layout(t, root);
    let out = updated(p, lay, taken, created).unwrap();
    let at = subdirectory_start(t, root);
    let added = entry_bytes(TAG_SUBDIRECTORY as int, TYPE_LONG as int, 1, at, root.little_endian);
    let place = root.above(t, TAG_SUBDIRECTORY as int);
    let r = relocated(t, root, 4, place, added);
    lemma_entry_fields(TAG_SUBDIRECTORY as int, TYPE_LONG as int, 1, at, root.little_endian);
    root.lemma_above_range(t, TAG_SUBDIRECTORY as int, 0);
    lemma_relocated_layout(t, root, 4, place, added);
    lemma_subdirectory_complete(t, root);
    lemma_subdirectory_dates(t, root);
    lemma_updated_keeps_rest(p, lay, taken, created);
    assert(p == r + empty_dates(root.little_endian));
    assert forall|k: int| 0 <= k < t.len() && !(4 <= k < 8) implies #[trigger] out[k] == t[k] by {
        assert(p[k] == r[k]);
        assert(r[k] == t[k]);
        assert(!in_date(p, lay, TAG_ORIGINAL as int, k));
        assert(!in_date(p, lay, TAG_DIGITIZED as int, k));
        assert(out[k] == p[k]);
    }
}

/// Growing the date directory of a block and setting both values changes no
/// byte of the block but the offset of the date directory and the two dates.
proof fn lemma_grown_keeps_rest(t: Seq<u8>, lay: Layout, taken: Seq<u8>, created: Seq<u8>)
    requires
        resolve(t) == Some(lay),
        grown(t, lay) is Some,
        taken.len() == DATE_LEN,
        created.len() == DATE_LEN,
        updated(
            grown(t, lay).unwrap(),
            Layout { root: lay.root, dates: copy_of_directory(t, lay.dates, missing(t, lay.dates)) },
            taken,
            created,
        ) is Some,
    ensures
        ({
            let out = updated(
                grown(t, lay).unwrap(),
                Layout {
                    root: lay.root,
                    dates: copy_of_directory(t, lay.dates, missing(t, lay.dates)),
                },
                taken,
                created,
            ).unwrap();
            &&& t.len() <= out.len()
            &&& forall|k: int|
                0 <= k < t.len() && !(lay.link(t) <= k < lay.link(t) + 4) && !in_date(
                    t,
                    lay,
                    TAG_ORIGINAL as int,
                    k,
                ) && !in_date(t, lay, TAG_DIGITIZED as int, k) ==> #[trigger] out[k] == t[k]
        }),
{
    let g = grown(t, lay).unwrap();
    let after = Layout {
        root: lay.root,
        dates: copy_of_directory(t, lay.dates, missing(t, lay.dates)),
    };
    let out = updated(g, after, taken, created).unwrap();
    lemma_resolved(t, lay);
    lemma_added_length(t, lay.dates);
    lay.dates.lemma_above_range(t, TAG_ORIGINAL as int, 0);
    lay.dates.lemma_above_range(t, TAG_DIGITIZED as int, 0);
    lemma_relocated_layout(
        t,
        lay.dates,
        lay.link(t),
        insertion_point(t, lay.dates),
        added_entries(t, lay.dates),
    );
    lemma_grown_complete(t, lay);
    lemma_updated_keeps_rest(g, after, taken, created);
    assert forall|k: int|
        0 <= k < t.len() && !(lay.link(t) <= k < lay.link(t) + 4) && !in_date(
            t,
            lay,
            TAG_ORIGINAL as int,
            k,
        ) && !in_date(t, lay, TAG_DIGITIZED as int, k) implies #[trigger] out[k] == t[k] by {
        assert(g[k] == t[k]);
        if in_date(g, after, TAG_ORIGINAL as int, k) {
            lemma_grown_dates(t, lay, TAG_ORIGINAL as int, k);
        }
        if in_date(g, after, TAG_DIGITIZED as int, k) {
            lemma_grown_dates(t, lay, TAG_DIGITIZED as int, k);
        }
        assert(out[k] == g[k]);
    }
}

/// Patching changes no byte of the block but those that may change: all
/// other entries, their values and everything else stay where they are and
/// as they are.
pub proof fn lemma_patched_keeps_rest(t: Seq<u8>, taken: Seq<u8>, created: Seq<u8>)
    requires
        taken.len() == DATE_LEN,
        created.len() == DATE_LEN,
        patched(t, taken, created) is Some,
    ensures
        t.len() <= patched(t, taken, created).unwrap().len(),
        forall|k: int|
            0 <= k < t.len() && !may_change(t, k) ==> #[trigger] patched(
                t,
                taken,
                created,
            ).unwrap()[k] == t[k],
{
    let root = locate(t).unwrap();
    if root.find(t, TAG_SUBDIRECTORY as int) >= root.count {
        lemma_subdirectory_complete(t, root);
        lemma_added_keeps_rest(t, root, taken, created);
    } else {
        let lay = resolve(t).unwrap();
        if missing(t, lay.dates) == 0 {
            lemma_updated_keeps_rest(t, lay, taken, created);
        } else {
            lemma_grown_complete(t, lay);
            lemma_grown_keeps_rest(t, lay, taken, created);
        }
    }
}

/// The new date directory of a block that was given one is where the
/// layout says, with a placeholder entry for each date; no byte of the old
/// block belongs to a date.
proof fn lemma_subdirectory_dates(t: Seq<u8>, root: Directory)
    requires
        locate(t) == Some(root),
        root.find(t, TAG_SUBDIRECTORY as int) >= root.count,
        with_subdirectory(t, root) is Some,
    ensures
        ({
            let s = with_subdirectory(t, root).unwrap();
            let lay = subdirectory_layout(t, root);
            &&& directory_at(s, root.little_endian, lay.dates.start as int) == Some(lay.dates)
            &&& lay.dates.start == subdirectory_start(t, root)
            &&& lay.dates.start == lay.root.end()
            &&& t.len() <= lay.root.start
            &&& missing(s, lay.dates) == 0
            &&& forall|k: int|
                0 <= k < t.len() ==> !in_date(s, lay, TAG_ORIGINAL as int, k) && !in_date(
                    s,
                    lay,
                    TAG_DIGITIZED as int,
                    k,
                )
        }),
{
    let s = with_subdirectory(t, root).unwrap();
    let le = root.little_endian;
    let at = subdirectory_start(t, root);
    let place = root.above(t, TAG_SUBDIRECTORY as int);
    let pointer = entry_bytes(TAG_SUBDIRECTORY as int, TYPE_LONG as int, 1, at, le);
    let r = relocated(t, root, 4, place, pointer);
    let dates = subdirectory_layout(t, root).dates;
    lemma_entry_fields(TAG_SUBDIRECTORY as int, TYPE_LONG as int, 1, at, le);
    lemma_entry_fields(TAG_ORIGINAL as int, 0, 0, 0, le);
    lemma_entry_fields(TAG_DIGITIZED as int, 0, 0, 0, le);
    lemma_read_back(2, le);
    root.lemma_above_range(t, TAG_SUBDIRECTORY as int, 0);
    lemma_relocated_layout(t, root, 4, place, pointer);
    assert(s == r + empty_dates(le));
    assert(r.len() == at);
    assert(s.len() == at + 30);
    assert(s.subrange(at, at + 2) =~= enc16(2, le));
    lemma_directory_read(s, dates);
    assert(s.subrange(dates.entry(0), dates.entry(0) + 12) =~= placeholder(
        TAG_ORIGINAL as int,
        le,
    ));
    assert(s.subrange(dates.entry(1), dates.entry(1) + 12) =~= placeholder(
        TAG_DIGITIZED as int,
        le,
    ));
    lemma_written_tag(s, dates, 0, TAG_ORIGINAL as int, 0, 0, 0);
    lemma_written_tag(s, dates, 1, TAG_DIGITIZED as int, 0, 0, 0);
    assert(dates.find_from(s, TAG_DIGITIZED as int, 1) == 1);
    assert(dates.find(s, TAG_ORIGINAL as int) == 0);
    assert(dates.find(s, TAG_DIGITIZED as int) == 1);
    assert(!is_date_text(s, dates, 0));
    assert(!is_date_text(s, dates, 1));
}

} // verus!
