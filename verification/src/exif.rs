//! The metadata block builder for the marker-delimited container kind.
//!
//! The metadata block is the first application segment whose payload starts
//! with the six-byte block prefix; behind the prefix stands a tag directory.
//! Setting the dates patches that directory, or, where the container has no
//! metadata block, puts a new one right behind the start-of-image segment.

use vstd::prelude::*;
use vstd::slice::slice_subrange;
use crate::bytes::append_all;
use crate::dates::{
    date_value,
    fresh,
    fresh_block,
    lemma_fresh_settles,
    lemma_patched_settles,
    patch,
    patched,
    read_date,
};
use crate::error::InjectError;
use crate::segment::{
    bare,
    encode_all,
    is_container,
    lemma_body_grows,
    lemma_encode_all_one,
    lemma_encode_all_split,
    sized,
    views,
    Segment,
    SegmentKind,
    SegmentView,
    SOI,
    SOS,
};
use crate::tagdir::{DATE_LEN, MAX_BLOCK, TAG_DIGITIZED, TAG_ORIGINAL};
use crate::timestamp::NormalizedTimestamp;

verus! {

/// Marker code of the application segment that carries the metadata block.
pub const APP1: u8 = 0xE1;

/// The six bytes in front of the tag directory: `Exif` and two nulls.
pub open spec fn prefix() -> Seq<u8> {
    seq![0x45u8, 0x78u8, 0x69u8, 0x66u8, 0x00u8, 0x00u8]
}

/// Whether a segment carries a metadata block.
pub open spec fn is_metadata(s: SegmentView) -> bool {
    &&& s.kind == SegmentKind::Sized
    &&& s.marker == APP1
    &&& s.payload.len() >= 6
    &&& s.payload.subrange(0, 6) == prefix()
}

/// The index of the first metadata segment from `from` on, or the number of
/// segments if there is none.
pub open spec fn first_metadata(segments: Seq<SegmentView>, from: int) -> int
    decreases segments.len() - from,
{
    if from >= segments.len() {
        segments.len() as int
    } else if is_metadata(segments[from]) {
        from
    } else {
        first_metadata(segments, from + 1)
    }
}

/// The segment that carries `block`.
pub open spec fn block_segment(block: Seq<u8>) -> SegmentView {
    sized(APP1, prefix() + block)
}

/// The segments with both date values set.
///
/// The first metadata segment is replaced by one with its directory patched;
/// where there is none, a new metadata segment is put behind the first
/// segment. Every other segment stays as it is, in its place.
/// `FormatError` where the run does not start with the start-of-image
/// segment, `UnsupportedDirectoryLayout` where the block cannot be patched.
pub open spec fn with_dates(segments: Seq<SegmentView>, taken: Seq<u8>, created: Seq<u8>) -> Result<
    Seq<SegmentView>,
    InjectError,
> {
    if segments.len() == 0 || segments[0] != bare(SOI) {
        Err(InjectError::FormatError)
    } else {
        let k = first_metadata(segments, 0);
        if k < segments.len() {
            match patched(segments[k].payload.skip(6), taken, created) {
                Some(block) => Ok(segments.update(k, block_segment(block))),
                None => Err(InjectError::UnsupportedDirectoryLayout),
            }
        } else {
            Ok(segments.insert(1, block_segment(fresh(taken, created))))
        }
    }
}

/// What `first_metadata` returns is the first metadata segment from `from` on.
pub proof fn lemma_first_metadata(segments: Seq<SegmentView>, from: int)
    requires
        0 <= from <= segments.len(),
    ensures
        from <= first_metadata(segments, from) <= segments.len(),
        first_metadata(segments, from) < segments.len() ==> is_metadata(
            segments[first_metadata(segments, from)],
        ),
        forall|j: int|
            from <= j < first_metadata(segments, from) ==> !is_metadata(#[trigger] segments[j]),
    decreases segments.len() - from,
{
    if from < segments.len() && !is_metadata(segments[from]) {
        lemma_first_metadata(segments, from + 1);
    }
}

/// Whether the segment carries a metadata block.
pub fn carries_metadata(segment: &Segment) -> (r: bool)
    ensures
        r == is_metadata(segment@),
{
    let payload = segment.payload();
    if segment.kind() != SegmentKind::Sized || segment.marker() != APP1 || payload.len() < 6 {
        return false;
    }
    let r = payload[0] == 0x45 && payload[1] == 0x78 && payload[2] == 0x69 && payload[3] == 0x66
        && payload[4] == 0x00 && payload[5] == 0x00;
    proof {
        let head = segment@.payload.subrange(0, 6);
        if r {
            assert(head =~= prefix());
        } else {
            assert(head[0] == payload[0] && head[1] == payload[1] && head[2] == payload[2]);
            assert(head[3] == payload[3] && head[4] == payload[4] && head[5] == payload[5]);
        }
    }
    r
}

/// Looks for the first metadata segment.
pub fn find_metadata(segments: &Vec<Segment>) -> (r: usize)
    ensures
        r == first_metadata(views(segments@), 0),
        r <= segments@.len(),
{
    let mut i: usize = 0;
    while i < segments.len()
        invariant
            i <= segments@.len(),
            first_metadata(views(segments@), 0) == first_metadata(views(segments@), i as int),
        decreases segments.len() - i,
    {
        if carries_metadata(&segments[i]) {
            return i;
        }
        i += 1;
    }
    i
}

/// A metadata segment for `block`.
fn metadata_segment(block: &Vec<u8>) -> (r: Segment)
    requires
        block@.len() <= MAX_BLOCK,
    ensures
        r@ == block_segment(block@),
{
    let mut payload: Vec<u8> = Vec::new();
    payload.push(0x45);
    payload.push(0x78);
    payload.push(0x69);
    payload.push(0x66);
    payload.push(0x00);
    payload.push(0x00);
    assert(payload@ =~= prefix());
    append_all(&mut payload, block.as_slice());
    Segment::sized(APP1, payload).unwrap()
}

/// A copy of the segments.
fn copy_segments(segments: &Vec<Segment>) -> (r: Vec<Segment>)
    ensures
        views(r@) == views(segments@),
{
    let mut out: Vec<Segment> = Vec::new();
    let mut i: usize = 0;
    while i < segments.len()
        invariant
            i <= segments@.len(),
            views(out@) == views(segments@).take(i as int),
        decreases segments.len() - i,
    {
        let s = segments[i].clone();
        assert(s@ == segments@[i as int]@);
        let ghost before = out@;
        out.push(s);
        assert(views(out@) =~= views(before).push(s@));
        i += 1;
        assert(views(out@) =~= views(segments@).take(i as int));
    }
    assert(views(segments@).take(segments@.len() as int) =~= views(segments@));
    out
}

/// Sets both dates in the metadata block of a container's segments, adding a
/// block where there is none.
pub fn set_dates(
    segments: &Vec<Segment>,
    taken: &NormalizedTimestamp,
    created: &NormalizedTimestamp,
) -> (r: Result<Vec<Segment>, InjectError>)
    ensures
        match r {
            Ok(out) => with_dates(views(segments@), taken@.field(), created@.field()) == Ok::<
                Seq<SegmentView>,
                InjectError,
            >(views(out@)),
            Err(e) => with_dates(views(segments@), taken@.field(), created@.field()) == Err::<
                Seq<SegmentView>,
                InjectError,
            >(e),
        },
{
    if segments.len() == 0 {
        return Err(InjectError::FormatError);
    }
    let first = &segments[0];
    if first.kind() != SegmentKind::Bare || first.marker() != SOI {
        return Err(InjectError::FormatError);
    }
    assert(views(segments@)[0] == bare(SOI)) by {
        assert(first@.payload =~= Seq::<u8>::empty());
    }
    let taken_field = taken.to_field();
    let created_field = created.to_field();
    let k = find_metadata(segments);
    proof {
        lemma_first_metadata(views(segments@), 0);
    }
    if k < segments.len() {
        let payload = segments[k].payload();
        let block = slice_subrange(payload.as_slice(), 6, payload.len());
        assert(block@ =~= views(segments@)[k as int].payload.skip(6));
        match patch(block, taken_field.as_slice(), created_field.as_slice()) {
            None => Err(InjectError::UnsupportedDirectoryLayout),
            Some(new_block) => {
                proof {
                    lemma_patched_settles(block@, taken_field@, created_field@);
                }
                let replacement = metadata_segment(&new_block);
                let mut out = copy_segments(segments);
                let ghost before = out@;
                out.set(k, replacement);
                assert(views(out@) =~= views(before).update(k as int, replacement@));
                Ok(out)
            },
        }
    } else {
        let new_block = fresh_block(taken_field.as_slice(), created_field.as_slice());
        proof {
            lemma_fresh_settles(taken_field@, created_field@);
        }
        let addition = metadata_segment(&new_block);
        let mut out = copy_segments(segments);
        let ghost before = out@;
        out.insert(1, addition);
        assert(views(out@) =~= views(before).insert(1, addition@));
        Ok(out)
    }
}


/// The first metadata segment is at `k` if the segment there is one and none
/// before it is.
pub proof fn lemma_first_metadata_is(segments: Seq<SegmentView>, from: int, k: int)
    requires
        0 <= from <= k < segments.len(),
        is_metadata(segments[k]),
        forall|j: int| from <= j < k ==> !is_metadata(#[trigger] segments[j]),
    ensures
        first_metadata(segments, from) == k,
    decreases k - from,
{
    if from < k {
        lemma_first_metadata_is(segments, from + 1, k);
    }
}

/// A block of at most the largest size makes a well-formed metadata segment.
pub proof fn lemma_block_segment(block: Seq<u8>)
    requires
        block.len() <= MAX_BLOCK,
    ensures
        block_segment(block).wf(),
        is_metadata(block_segment(block)),
        block_segment(block).payload.skip(6) == block,
{
    let s = block_segment(block);
    assert(s.payload.subrange(0, 6) =~= prefix());
    assert(s.payload.skip(6) =~= block);
}

/// Non-corruption: setting the dates changes the metadata segment alone, or
/// adds one behind the first segment; every other segment stays as it is and
/// where it is relative to the others.
pub proof fn lemma_with_dates_keeps_others(
    segments: Seq<SegmentView>,
    taken: Seq<u8>,
    created: Seq<u8>,
)
    requires
        taken.len() == DATE_LEN,
        created.len() == DATE_LEN,
        with_dates(segments, taken, created) is Ok,
    ensures
        ({
            let out = with_dates(segments, taken, created)->Ok_0;
            let k = first_metadata(segments, 0);
            if k < segments.len() {
                &&& 1 <= k
                &&& out.len() == segments.len()
                &&& is_metadata(out[k])
                &&& out[k].wf()
                &&& forall|i: int| 0 <= i < segments.len() && i != k ==> out[i] == segments[i]
            } else {
                &&& out.len() == segments.len() + 1
                &&& out[0] == segments[0]
                &&& is_metadata(out[1])
                &&& out[1].wf()
                &&& forall|i: int| 1 <= i < segments.len() ==> out[i + 1] == segments[i]
            }
        }),
{
    let k = first_metadata(segments, 0);
    lemma_first_metadata(segments, 0);
    if k < segments.len() {
        let block = patched(segments[k].payload.skip(6), taken, created).unwrap();
        lemma_patched_settles(segments[k].payload.skip(6), taken, created);
        lemma_block_segment(block);
    } else {
        lemma_fresh_settles(taken, created);
        lemma_block_segment(fresh(taken, created));
    }
}

/// Idempotence: setting the same dates again changes nothing.
pub proof fn lemma_with_dates_idempotent(
    segments: Seq<SegmentView>,
    taken: Seq<u8>,
    created: Seq<u8>,
)
    requires
        taken.len() == DATE_LEN,
        created.len() == DATE_LEN,
        with_dates(segments, taken, created) is Ok,
    ensures
        with_dates(with_dates(segments, taken, created)->Ok_0, taken, created) == with_dates(
            segments,
            taken,
            created,
        ),
{
    let out = with_dates(segments, taken, created)->Ok_0;
    let k = first_metadata(segments, 0);
    lemma_first_metadata(segments, 0);
    lemma_with_dates_keeps_others(segments, taken, created);
    if k < segments.len() {
        let block = patched(segments[k].payload.skip(6), taken, created).unwrap();
        lemma_patched_settles(segments[k].payload.skip(6), taken, created);
        lemma_block_segment(block);
        lemma_first_metadata_is(out, 0, k);
        assert(out.update(k, block_segment(block)) =~= out);
    } else {
        let block = fresh(taken, created);
        lemma_fresh_settles(taken, created);
        lemma_block_segment(block);
        assert(!is_metadata(out[0]));
        lemma_first_metadata_is(out, 0, 1);
        assert(out.update(1, block_segment(block)) =~= out);
    }
}

/// Setting the dates in a container gives a container.
pub proof fn lemma_with_dates_keeps_container(
    segments: Seq<SegmentView>,
    taken: Seq<u8>,
    created: Seq<u8>,
)
    requires
        taken.len() == DATE_LEN,
        created.len() == DATE_LEN,
        is_container(segments),
        with_dates(segments, taken, created) is Ok,
    ensures
        is_container(with_dates(segments, taken, created)->Ok_0),
{
    let out = with_dates(segments, taken, created)->Ok_0;
    let k = first_metadata(segments, 0);
    let body = segments.drop_first();
    lemma_first_metadata(segments, 0);
    lemma_with_dates_keeps_others(segments, taken, created);
    if k < segments.len() {
        let after = out.drop_first();
        assert(segments[k] == body[k - 1]);
        assert(k - 1 < body.len() - 2);
        assert forall|i: int| 0 <= i < after.len() implies (#[trigger] after[i]).wf() by {
            if i != k - 1 {
                assert(after[i] == body[i]);
            }
        }
        assert forall|i: int| 0 <= i < after.len() - 2 implies (#[trigger] after[i]).kind
            != SegmentKind::Scan && after[i].marker != SOS by {
            if i != k - 1 {
                assert(after[i] == body[i]);
            }
        }
        assert(after[after.len() - 1] == body[body.len() - 1]);
        assert(after[after.len() - 2] == body[body.len() - 2]);
    } else {
        assert(out.drop_first() =~= seq![out[1]] + body);
        lemma_body_grows(out[1], body);
    }
}


/// The date value that the metadata block of a container holds for `tag`;
/// `None` where there is no metadata block or it holds no such value that
/// can be read in place.
pub open spec fn metadata_date(segments: Seq<SegmentView>, tag: int) -> Option<Seq<u8>> {
    let k = first_metadata(segments, 0);
    if k < segments.len() {
        date_value(segments[k].payload.skip(6), tag)
    } else {
        None
    }
}

/// Reads the date value that the metadata block of a container holds for
/// `tag`.
pub fn date_of(segments: &Vec<Segment>, tag: u16) -> (r: Option<Vec<u8>>)
    ensures
        match r {
            Some(value) => metadata_date(views(segments@), tag as int) == Some(value@),
            None => metadata_date(views(segments@), tag as int) is None,
        },
{
    let k = find_metadata(segments);
    proof {
        lemma_first_metadata(views(segments@), 0);
    }
    if k < segments.len() {
        let payload = segments[k].payload();
        let block = slice_subrange(payload.as_slice(), 6, payload.len());
        assert(block@ =~= views(segments@)[k as int].payload.skip(6));
        read_date(block, tag)
    } else {
        None
    }
}

/// After the dates are set, the metadata block holds them.
pub proof fn lemma_with_dates_reads_back(
    segments: Seq<SegmentView>,
    taken: Seq<u8>,
    created: Seq<u8>,
)
    requires
        taken.len() == DATE_LEN,
        created.len() == DATE_LEN,
        with_dates(segments, taken, created) is Ok,
    ensures
        metadata_date(with_dates(segments, taken, created)->Ok_0, TAG_ORIGINAL as int) == Some(
            taken,
        ),
        metadata_date(with_dates(segments, taken, created)->Ok_0, TAG_DIGITIZED as int) == Some(
            created,
        ),
{
    let out = with_dates(segments, taken, created)->Ok_0;
    let k = first_metadata(segments, 0);
    lemma_first_metadata(segments, 0);
    lemma_with_dates_keeps_others(segments, taken, created);
    if k < segments.len() {
        let block = patched(segments[k].payload.skip(6), taken, created).unwrap();
        lemma_patched_settles(segments[k].payload.skip(6), taken, created);
        lemma_block_segment(block);
        lemma_first_metadata_is(out, 0, k);
    } else {
        let block = fresh(taken, created);
        lemma_fresh_settles(taken, created);
        lemma_block_segment(block);
        assert(!is_metadata(out[0]));
        lemma_first_metadata_is(out, 0, 1);
    }
}


/// Where the metadata segment stands in the result: at the first metadata
/// segment, or behind the first segment where there is none.
pub open spec fn metadata_index(segments: Seq<SegmentView>) -> int {
    if first_metadata(segments, 0) < segments.len() {
        first_metadata(segments, 0)
    } else {
        1
    }
}

/// The segment that the new metadata segment replaces, as a run: the first
/// metadata segment, or nothing where there is none.
pub open spec fn replaced(segments: Seq<SegmentView>) -> Seq<SegmentView> {
    if first_metadata(segments, 0) < segments.len() {
        seq![segments[first_metadata(segments, 0)]]
    } else {
        Seq::empty()
    }
}

/// The encodings before and after the dates are set differ in one span
/// alone: what stands for the replaced segment becomes what stands for the
/// new one.
pub proof fn lemma_with_dates_splices(
    segments: Seq<SegmentView>,
    taken: Seq<u8>,
    created: Seq<u8>,
)
    requires
        taken.len() == DATE_LEN,
        created.len() == DATE_LEN,
        with_dates(segments, taken, created) is Ok,
    ensures
        ({
            let after = with_dates(segments, taken, created)->Ok_0;
            let k = metadata_index(segments);
            let head = encode_all(segments.take(k));
            let tail = encode_all(segments.skip(k + replaced(segments).len()));
            &&& 1 <= k <= segments.len()
            &&& k < after.len()
            &&& encode_all(segments) == head + encode_all(replaced(segments)) + tail
            &&& encode_all(after) == head + after[k].encoding() + tail
        }),
{
    let after = with_dates(segments, taken, created)->Ok_0;
    let k = metadata_index(segments);
    let n = replaced(segments).len() as int;
    lemma_first_metadata(segments, 0);
    lemma_with_dates_keeps_others(segments, taken, created);
    lemma_encode_all_split(segments, k, k + n);
    lemma_encode_all_split(after, k, k + 1);
    assert(segments.subrange(k, k + n) =~= replaced(segments));
    assert(after.take(k) =~= segments.take(k));
    assert(after.skip(k + 1) =~= segments.skip(k + n));
    assert(after.subrange(k, k + 1) =~= seq![after[k]]);
    lemma_encode_all_one(after[k]);
}

} // verus!
