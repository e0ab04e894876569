//! The tag directories inside a metadata block.
//!
//! A block starts with an eight-byte header: a byte-order mark, the number 42
//! and the offset of the root directory. A directory is a two-byte entry
//! count, twelve-byte entries (tag, type, count, value or offset) and a
//! four-byte link. Values that do not fit an entry live elsewhere in the block
//! and are reached by offset.
//!
//! The dates live in a directory of their own, which an entry of the root
//! directory points to. Root directory and date directory together are the
//! block's layout.

use vstd::prelude::*;
use crate::bytes::{
    enc16,
    enc32,
    lemma_read_back,
    push_zeros,
    put,
    rd16,
    rd32,
    read16,
    read32,
    write16,
    write32,
};

verus! {

/// Tag of the time at which the picture was taken.
pub const TAG_ORIGINAL: u16 = 0x9003;

/// Tag of the time at which the picture was stored in digital form.
pub const TAG_DIGITIZED: u16 = 0x9004;

/// Tag of the root entry that points to the date directory.
pub const TAG_SUBDIRECTORY: u16 = 0x8769;

/// Type code of a null-terminated text value.
pub const TYPE_ASCII: u16 = 2;

/// Type code of a four-byte number.
pub const TYPE_LONG: u16 = 4;

/// Length of a date value: nineteen characters and the terminating null.
pub const DATE_LEN: usize = 20;

/// Largest block that still fits a segment behind its six-byte prefix.
pub const MAX_BLOCK: usize = 65527;

/// The kinds of value that an entry can hold.
#[derive(Clone, Copy, Debug, PartialEq, Eq, Structural)]
pub enum EntryType {
    Byte,
    Ascii,
    Short,
    Long,
    Rational,
    /// Any type code other than those of the five named kinds.
    Other,
}

/// The kind of value that a type code stands for.
pub open spec fn type_of(code: int) -> EntryType {
    if code == 1 {
        EntryType::Byte
    } else if code == 2 {
        EntryType::Ascii
    } else if code == 3 {
        EntryType::Short
    } else if code == 4 {
        EntryType::Long
    } else if code == 5 {
        EntryType::Rational
    } else {
        EntryType::Other
    }
}

/// One entry of a directory.
#[derive(Clone, Copy, Debug, PartialEq, Eq, Structural)]
pub struct TagDirectoryEntry {
    /// What the value is about.
    pub tag_id: u16,
    /// The code of the value's type.
    pub type_code: u16,
    /// How many items of that type the value has.
    pub count: u32,
    /// The value itself if it fits four bytes, else its offset in the block.
    pub value_or_offset: u32,
}

impl TagDirectoryEntry {
    /// The kind of value that the entry holds.
    pub fn kind(&self) -> (r: EntryType)
        ensures
            r == type_of(self.type_code as int),
    {
        if self.type_code == 1 {
            EntryType::Byte
        } else if self.type_code == 2 {
            EntryType::Ascii
        } else if self.type_code == 3 {
            EntryType::Short
        } else if self.type_code == 4 {
            EntryType::Long
        } else if self.type_code == 5 {
            EntryType::Rational
        } else {
            EntryType::Other
        }
    }
}

/// The twelve bytes of a directory entry.
pub open spec fn entry_bytes(tag: int, kind: int, count: int, value: int, little_endian: bool) -> Seq<
    u8,
> {
    enc16(tag, little_endian) + enc16(kind, little_endian) + enc32(count, little_endian) + enc32(
        value,
        little_endian,
    )
}

/// Where a block keeps a directory.
#[derive(Clone, Copy, Debug, PartialEq, Eq, Structural)]
pub struct Directory {
    /// Whether numbers are stored low byte first.
    pub little_endian: bool,
    /// Offset of the entry count.
    pub start: usize,
    /// Number of entries.
    pub count: usize,
}

impl Directory {
    /// Offset of entry `i`.
    pub open spec fn entry(self, i: int) -> int {
        self.start + 2 + 12 * i
    }

    /// Offset of the first byte behind the directory and its link.
    pub open spec fn end(self) -> int {
        self.start + 2 + 12 * self.count + 4
    }

    /// Whether the directory lies inside the block, behind the header, and
    /// the block is no larger than a segment can hold.
    pub open spec fn within(self, t: Seq<u8>) -> bool {
        8 <= self.start && self.end() <= t.len() && t.len() <= MAX_BLOCK
    }

    /// Whether twenty bytes at `offset` lie clear of the directory.
    pub open spec fn clear_of(self, offset: int) -> bool {
        offset + DATE_LEN <= self.start || self.end() <= offset
    }

    /// Whether the two directories share no byte.
    pub open spec fn apart_from(self, other: Directory) -> bool {
        self.end() <= other.start || other.end() <= self.start
    }

    /// The tag of entry `i`.
    pub open spec fn tag_at(self, t: Seq<u8>, i: int) -> int {
        rd16(t, self.entry(i), self.little_endian)
    }

    /// Entry `i`.
    pub open spec fn entry_at(self, t: Seq<u8>, i: int) -> TagDirectoryEntry {
        TagDirectoryEntry {
            tag_id: rd16(t, self.entry(i), self.little_endian) as u16,
            type_code: rd16(t, self.entry(i) + 2, self.little_endian) as u16,
            count: rd32(t, self.entry(i) + 4, self.little_endian) as u32,
            value_or_offset: rd32(t, self.entry(i) + 8, self.little_endian) as u32,
        }
    }

    /// The index of the first entry from `from` on that carries `tag`, or the
    /// entry count if there is none.
    pub open spec fn find_from(self, t: Seq<u8>, tag: int, from: int) -> int
        decreases self.count - from,
    {
        if from >= self.count {
            self.count as int
        } else if self.tag_at(t, from) == tag {
            from
        } else {
            self.find_from(t, tag, from + 1)
        }
    }

    /// The index of the first entry that carries `tag`, or the entry count.
    pub open spec fn find(self, t: Seq<u8>, tag: int) -> int {
        self.find_from(t, tag, 0)
    }

    /// The index of the first entry from `from` on whose tag is larger than
    /// `tag`, or the entry count if there is none.
    pub open spec fn above_from(self, t: Seq<u8>, tag: int, from: int) -> int
        decreases self.count - from,
    {
        if from >= self.count {
            self.count as int
        } else if self.tag_at(t, from) > tag {
            from
        } else {
            self.above_from(t, tag, from + 1)
        }
    }

    /// Where an entry with `tag` goes when it is added: in front of the first
    /// entry whose tag is larger, which in a sorted directory keeps the
    /// order; behind all entries if there is none.
    pub open spec fn above(self, t: Seq<u8>, tag: int) -> int {
        self.above_from(t, tag, 0)
    }
}

/// The directory at `start`, or `None` where it does not lie inside the
/// block behind the header.
pub open spec fn directory_at(t: Seq<u8>, little_endian: bool, start: int) -> Option<Directory> {
    if start < 8 || start + 2 > t.len() {
        None
    } else {
        let count = rd16(t, start, little_endian);
        if start + 2 + 12 * count + 4 > t.len() {
            None
        } else {
            Some(Directory { little_endian, start: start as usize, count: count as usize })
        }
    }
}

/// The root directory of a block, or `None` where the header is not one of
/// the two byte-order marks followed by 42, or the directory does not lie
/// inside the block behind the header, or the block is larger than a segment
/// can hold.
pub open spec fn locate(t: Seq<u8>) -> Option<Directory> {
    if t.len() < 8 || t.len() > MAX_BLOCK {
        None
    } else if !((t[0] == 0x49 && t[1] == 0x49) || (t[0] == 0x4D && t[1] == 0x4D)) {
        None
    } else if rd16(t, 2, t[0] == 0x49) != 42 {
        None
    } else {
        directory_at(t, t[0] == 0x49, rd32(t, 4, t[0] == 0x49))
    }
}

/// The two directories that patching works on.
#[derive(Clone, Copy, Debug, PartialEq, Eq, Structural)]
pub struct Layout {
    /// The directory that the header points to.
    pub root: Directory,
    /// The directory that holds the dates.
    pub dates: Directory,
}

impl Layout {
    /// Index of the root entry that points to the date directory.
    pub open spec fn pointer(self, t: Seq<u8>) -> int {
        self.root.find(t, TAG_SUBDIRECTORY as int)
    }

    /// Offset of the four bytes that hold the offset of the date directory.
    pub open spec fn link(self, t: Seq<u8>) -> int {
        self.root.entry(self.pointer(t)) + 8
    }

    /// Whether twenty bytes at `offset` lie in the block, behind the header
    /// and clear of both directories.
    pub open spec fn value_fits(self, t: Seq<u8>, offset: int) -> bool {
        &&& 8 <= offset
        &&& offset + DATE_LEN <= t.len()
        &&& self.root.clear_of(offset)
        &&& self.dates.clear_of(offset)
    }

    /// The offset that entry `i` of the date directory stores.
    pub open spec fn offset_at(self, t: Seq<u8>, i: int) -> int {
        rd32(t, self.dates.entry(i) + 8, self.dates.little_endian)
    }

    /// Whether entry `i` of the date directory is a twenty-byte text value
    /// that lies clear of both directories, so that it can be overwritten
    /// where it stands.
    pub open spec fn in_place(self, t: Seq<u8>, i: int) -> bool {
        &&& rd16(t, self.dates.entry(i) + 2, self.dates.little_endian) == TYPE_ASCII
        &&& rd32(t, self.dates.entry(i) + 4, self.dates.little_endian) == DATE_LEN
        &&& self.value_fits(t, self.offset_at(t, i))
    }
}

/// The layout of a block, or `None` where it has no root directory, the root
/// directory has no entry that points to a date directory, that entry is not
/// a single four-byte number, or the date directory does not lie inside the
/// block, behind the header and apart from the root directory.
pub open spec fn resolve(t: Seq<u8>) -> Option<Layout> {
    match locate(t) {
        None => None,
        Some(root) => {
            let le = root.little_endian;
            let at = root.entry(root.find(t, TAG_SUBDIRECTORY as int));
            if root.find(t, TAG_SUBDIRECTORY as int) >= root.count {
                None
            } else if rd16(t, at + 2, le) != TYPE_LONG || rd32(t, at + 4, le) != 1 {
                None
            } else {
                match directory_at(t, le, rd32(t, at + 8, le)) {
                    None => None,
                    Some(dates) => if root.apart_from(dates) {
                        Some(Layout { root, dates })
                    } else {
                        None
                    },
                }
            }
        },
    }
}

/// Reads the directory at `start`.
pub fn read_directory_at(t: &[u8], little_endian: bool, start: u32) -> (r: Option<Directory>)
    requires
        t@.len() <= MAX_BLOCK,
    ensures
        r == directory_at(t@, little_endian, start as int),
        r matches Some(d) ==> d.within(t@),
{
    if start < 8 || start > 65536 || start as usize + 2 > t.len() {
        return None;
    }
    let start: usize = start as usize;
    let count: usize = read16(t, start, little_endian) as usize;
    if start + 2 + 12 * count + 4 > t.len() {
        return None;
    }
    Some(Directory { little_endian, start, count })
}

/// Finds the root directory of a block.
pub fn locate_directory(t: &[u8]) -> (r: Option<Directory>)
    ensures
        r == locate(t@),
        r matches Some(d) ==> d.within(t@),
{
    if t.len() < 8 || t.len() > MAX_BLOCK {
        return None;
    }
    if !((t[0] == 0x49 && t[1] == 0x49) || (t[0] == 0x4D && t[1] == 0x4D)) {
        return None;
    }
    let le = t[0] == 0x49;
    if read16(t, 2, le) != 42 {
        return None;
    }
    read_directory_at(t, le, read32(t, 4, le))
}

impl Directory {
    /// Looks for the first entry that carries `tag`.
    pub fn find_tag(&self, t: &[u8], tag: u16) -> (r: usize)
        requires
            self.within(t@),
        ensures
            r == self.find(t@, tag as int),
            r <= self.count,
    {
        let mut i: usize = 0;
        while i < self.count
            invariant
                self.within(t@),
                i <= self.count,
                self.find(t@, tag as int) == self.find_from(t@, tag as int, i as int),
            decreases self.count - i,
        {
            if read16(t, self.start + 2 + 12 * i, self.little_endian) == tag {
                return i;
            }
            i += 1;
        }
        i
    }

    /// Looks for the first entry whose tag is larger than `tag`.
    pub fn find_above(&self, t: &[u8], tag: u16) -> (r: usize)
        requires
            self.within(t@),
        ensures
            r == self.above(t@, tag as int),
            r <= self.count,
    {
        let mut i: usize = 0;
        while i < self.count
            invariant
                self.within(t@),
                i <= self.count,
                self.above(t@, tag as int) == self.above_from(t@, tag as int, i as int),
            decreases self.count - i,
        {
            if read16(t, self.start + 2 + 12 * i, self.little_endian) > tag {
                return i;
            }
            i += 1;
        }
        i
    }

    /// Reads entry `i`.
    pub fn read_entry(&self, t: &[u8], i: usize) -> (r: TagDirectoryEntry)
        requires
            self.within(t@),
            i < self.count,
        ensures
            r == self.entry_at(t@, i as int),
    {
        let at: usize = self.start + 2 + 12 * i;
        TagDirectoryEntry {
            tag_id: read16(t, at, self.little_endian),
            type_code: read16(t, at + 2, self.little_endian),
            count: read32(t, at + 4, self.little_endian),
            value_or_offset: read32(t, at + 8, self.little_endian),
        }
    }
}

/// Finds the layout of a block.
pub fn resolve_layout(t: &[u8]) -> (r: Option<Layout>)
    ensures
        r == resolve(t@),
        r matches Some(lay) ==> lay.root.within(t@) && lay.dates.within(t@),
{
    let root = match locate_directory(t) {
        Some(d) => d,
        None => {
            return None;
        },
    };
    let i = root.find_tag(t, TAG_SUBDIRECTORY);
    if i >= root.count {
        return None;
    }
    let pointer = root.read_entry(t, i);
    if pointer.type_code != TYPE_LONG || pointer.count != 1 {
        return None;
    }
    let dates = match read_directory_at(t, root.little_endian, pointer.value_or_offset) {
        Some(d) => d,
        None => {
            return None;
        },
    };
    if root.start + 2 + 12 * root.count + 4 <= dates.start || dates.start + 2 + 12 * dates.count + 4
        <= root.start {
        Some(Layout { root, dates })
    } else {
        None
    }
}

impl Layout {
    /// Whether entry `i` of the date directory can be overwritten where it
    /// stands.
    pub fn entry_in_place(&self, t: &[u8], i: usize) -> (r: bool)
        requires
            self.root.within(t@),
            self.dates.within(t@),
            i < self.dates.count,
        ensures
            r == self.in_place(t@, i as int),
    {
        let e = self.dates.read_entry(t, i);
        if e.type_code != TYPE_ASCII || e.count != 20 || e.value_or_offset < 8 || e.value_or_offset
            > 65536 {
            return false;
        }
        let at: usize = e.value_or_offset as usize;
        at + 20 <= t.len() && (at + 20 <= self.root.start || self.root.start + 2 + 12
            * self.root.count + 4 <= at) && (at + 20 <= self.dates.start || self.dates.start + 2
            + 12 * self.dates.count + 4 <= at)
    }
}

/// Writes a directory entry at `pos`.
pub fn write_entry(
    out: &mut Vec<u8>,
    pos: usize,
    tag: u16,
    kind: u16,
    count: u32,
    value: u32,
    little_endian: bool,
)
    requires
        pos + 12 <= old(out)@.len(),
    ensures
        final(out)@ == put(
            old(out)@,
            pos as int,
            entry_bytes(tag as int, kind as int, count as int, value as int, little_endian),
        ),
{
    let len = out.len();
    assert(pos + 12 <= len);
    write16(out, pos, tag, little_endian);
    write16(out, pos + 2, kind, little_endian);
    write32(out, pos + 4, count, little_endian);
    write32(out, pos + 8, value, little_endian);
    assert(out@ =~= put(
        old(out)@,
        pos as int,
        entry_bytes(tag as int, kind as int, count as int, value as int, little_endian),
    ));
}

/// Appends a directory entry.
pub fn push_entry(
    out: &mut Vec<u8>,
    tag: u16,
    kind: u16,
    count: u32,
    value: u32,
    little_endian: bool,
)
    ensures
        final(out)@ == old(out)@ + entry_bytes(
            tag as int,
            kind as int,
            count as int,
            value as int,
            little_endian,
        ),
{
    let pos = out.len();
    push_zeros(out, 12);
    write_entry(out, pos, tag, kind, count, value, little_endian);
    assert(out@ =~= old(out)@ + entry_bytes(
        tag as int,
        kind as int,
        count as int,
        value as int,
        little_endian,
    ));
}

/// The fields of an entry read back as they were written.
pub proof fn lemma_entry_fields(tag: int, kind: int, count: int, value: int, le: bool)
    requires
        0 <= tag < 65536,
        0 <= kind < 65536,
        0 <= count < 4294967296,
        0 <= value < 4294967296,
    ensures
        ({
            let e = entry_bytes(tag, kind, count, value, le);
            &&& e.len() == 12
            &&& rd16(e, 0, le) == tag
            &&& rd16(e, 2, le) == kind
            &&& rd32(e, 4, le) == count
            &&& rd32(e, 8, le) == value
        }),
{
    let e = entry_bytes(tag, kind, count, value, le);
    lemma_read_back(tag, le);
    lemma_read_back(kind, le);
    lemma_read_back(count, le);
    lemma_read_back(value, le);
    assert(e.len() == 12);
    assert(e[0] == enc16(tag, le)[0] && e[1] == enc16(tag, le)[1]);
    assert(e[2] == enc16(kind, le)[0] && e[3] == enc16(kind, le)[1]);
    assert(e[4] == enc32(count, le)[0] && e[5] == enc32(count, le)[1]);
    assert(e[6] == enc32(count, le)[2] && e[7] == enc32(count, le)[3]);
    assert(e[8] == enc32(value, le)[0] && e[9] == enc32(value, le)[1]);
    assert(e[10] == enc32(value, le)[2] && e[11] == enc32(value, le)[3]);
}

/// Numbers read inside a twelve-byte window of a buffer are the numbers of
/// the window.
pub proof fn lemma_reads_in_window(out: Seq<u8>, pos: int, window: Seq<u8>, le: bool)
    requires
        0 <= pos,
        pos + 12 <= out.len(),
        out.subrange(pos, pos + 12) == window,
    ensures
        rd16(out, pos, le) == rd16(window, 0, le),
        rd16(out, pos + 2, le) == rd16(window, 2, le),
        rd32(out, pos + 4, le) == rd32(window, 4, le),
        rd32(out, pos + 8, le) == rd32(window, 8, le),
{
    assert forall|k: int| 0 <= k < 12 implies out[pos + k] == window[k] by {
        assert(out.subrange(pos, pos + 12)[k] == out[pos + k]);
    }
}

impl Directory {
    /// What `find_from` returns is the first match from `from` on.
    pub proof fn lemma_find_first(self, t: Seq<u8>, tag: int, from: int)
        requires
            0 <= from <= self.count,
        ensures
            from <= self.find_from(t, tag, from) <= self.count,
            self.find_from(t, tag, from) < self.count ==> self.tag_at(
                t,
                self.find_from(t, tag, from),
            ) == tag,
            forall|j: int|
                from <= j < self.find_from(t, tag, from) ==> #[trigger] self.tag_at(t, j) != tag,
        decreases self.count - from,
    {
        if from < self.count && self.tag_at(t, from) != tag {
            self.lemma_find_first(t, tag, from + 1);
        }
    }

    /// What `above_from` returns lies between `from` and the entry count.
    pub proof fn lemma_above_range(self, t: Seq<u8>, tag: int, from: int)
        requires
            0 <= from <= self.count,
        ensures
            from <= self.above_from(t, tag, from) <= self.count,
        decreases self.count - from,
    {
        if from < self.count && !(self.tag_at(t, from) > tag) {
            self.lemma_above_range(t, tag, from + 1);
        }
    }

    /// Looking for a tag from `from` on is looking for it from `to` on where
    /// no entry in between carries it.
    pub proof fn lemma_find_skips(self, t: Seq<u8>, tag: int, from: int, to: int)
        requires
            0 <= from <= to <= self.count,
            forall|j: int| from <= j < to ==> #[trigger] self.tag_at(t, j) != tag,
        ensures
            self.find_from(t, tag, from) == self.find_from(t, tag, to),
        decreases to - from,
    {
        if from < to {
            assert(self.tag_at(t, from) != tag);
            self.lemma_find_skips(t, tag, from + 1, to);
        }
    }

    /// Two directories whose tags agree up to the end of the shorter one find
    /// the same entry, or the longer one goes on looking behind that end.
    pub proof fn lemma_find_agrees(
        self,
        t: Seq<u8>,
        other: Directory,
        u: Seq<u8>,
        tag: int,
        from: int,
    )
        requires
            0 <= from <= self.count <= other.count,
            forall|j: int| from <= j < self.count ==> self.tag_at(t, j) == other.tag_at(u, j),
        ensures
            other.find_from(u, tag, from) == if self.find_from(t, tag, from) < self.count {
                self.find_from(t, tag, from)
            } else {
                other.find_from(u, tag, self.count as int)
            },
        decreases self.count - from,
    {
        if from < self.count {
            assert(self.tag_at(t, from) == other.tag_at(u, from));
            if self.tag_at(t, from) != tag {
                self.lemma_find_agrees(t, other, u, tag, from + 1);
            }
        }
    }
}

/// What a resolved layout says of the block.
pub proof fn lemma_resolved(t: Seq<u8>, lay: Layout)
    requires
        resolve(t) == Some(lay),
    ensures
        locate(t) == Some(lay.root),
        lay.root.within(t),
        lay.dates.within(t),
        lay.root.apart_from(lay.dates),
        lay.dates.little_endian == lay.root.little_endian,
        0 <= lay.pointer(t) < lay.root.count,
        lay.root.start + 2 <= lay.link(t) - 8,
        lay.link(t) + 4 <= lay.root.end() - 4,
        rd16(t, lay.link(t) - 6, lay.root.little_endian) == TYPE_LONG,
        rd32(t, lay.link(t) - 4, lay.root.little_endian) == 1,
        rd32(t, lay.link(t), lay.root.little_endian) == lay.dates.start,
        directory_at(t, lay.root.little_endian, lay.dates.start as int) == Some(lay.dates),
{
    let root = locate(t).unwrap();
    root.lemma_find_first(t, TAG_SUBDIRECTORY as int, 0);
}

} // verus!
