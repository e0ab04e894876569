//! The injector: from an image buffer, its container kind and two timestamps
//! to the buffer with the timestamps in its metadata.
//!
//! Nothing is written in place. The result is a complete new buffer, or an
//! error and no buffer at all.

use vstd::prelude::*;
use crate::chunk;
use crate::error::InjectError;
use crate::exif;
use crate::segment;
use crate::segment::SegmentKind;
use crate::sidecar::{normalize, normalized};
use crate::text;
use crate::timestamp::{lemma_field_length, Calendar, NormalizedTimestamp};

verus! {

/// The container kinds that a buffer can be taken for.
#[derive(Clone, Copy, Debug, PartialEq, Eq, Structural)]
pub enum ContainerKind {
    /// Marker-delimited segments; the dates go into a tag directory.
    Jpeg,
    /// Checksum-protected chunks; the dates go into a text chunk.
    Png,
    /// Anything else.
    Unknown,
}

/// What the likeliest kinds of a buffer are, in the order in which the
/// detector reports them; `None` where it reports nothing.
pub uninterp spec fn sniffed(bytes: Seq<u8>) -> Option<Seq<ContainerKind>>;

/// The detector's report on a buffer.
///
/// Calls `bindet::detect` on the buffer as an in-memory reader. Trusted: the
/// result is the list `likely_to_be` of the report, each file type mapped to
/// its container kind, and `None` where the detector finds no match or fails.
/// The report depends on the bytes alone.
#[verifier::external_body]
fn sniff(bytes: &[u8]) -> (r: Option<Vec<ContainerKind>>)
    ensures
        r matches Some(kinds) ==> sniffed(bytes@) == Some(kinds@),
        r is None ==> sniffed(bytes@) is None,
{
    match bindet::detect(std::io::Cursor::new(bytes)) {
        Ok(Some(found)) => Some(
            found.likely_to_be.iter().map(
                |t| match t {
                    bindet::FileType::Jpg => ContainerKind::Jpeg,
                    bindet::FileType::Png => ContainerKind::Png,
                    _ => ContainerKind::Unknown,
                },
            ).collect(),
        ),
        _ => None,
    }
}

/// The single best guess in a report: its first entry, `Unknown` where there
/// is none.
pub open spec fn best_guess(report: Option<Seq<ContainerKind>>) -> ContainerKind {
    match report {
        Some(kinds) => if kinds.len() > 0 {
            kinds[0]
        } else {
            ContainerKind::Unknown
        },
        None => ContainerKind::Unknown,
    }
}

/// Picks the best guess from a detector's report.
pub fn pick_kind(report: Option<Vec<ContainerKind>>) -> (kind: ContainerKind)
    ensures
        kind == best_guess(
            match report {
                Some(kinds) => Some(kinds@),
                None => None,
            },
        ),
{
    match report {
        Some(kinds) => if kinds.len() > 0 {
            kinds[0]
        } else {
            ContainerKind::Unknown
        },
        None => ContainerKind::Unknown,
    }
}

/// The container kind of a buffer: the detector's best guess.
pub fn detect_kind(bytes: &[u8]) -> (kind: ContainerKind)
    ensures
        kind == best_guess(sniffed(bytes@)),
{
    pick_kind(sniff(bytes))
}

/// The buffer with both timestamps in its metadata.
///
/// A buffer of the first kind is split into segments, its metadata block is
/// patched or added, and the segments are written out again; one of the
/// second kind is split into chunks and gets its date chunk replaced or
/// added. `FormatError` where the buffer is not a valid container of its
/// kind, `UnsupportedDirectoryLayout` where an existing metadata block cannot
/// be patched, `UnsupportedContainer` for any other kind.
pub open spec fn injected(
    bytes: Seq<u8>,
    kind: ContainerKind,
    taken: Calendar,
    created: Calendar,
) -> Result<Seq<u8>, InjectError> {
    match kind {
        ContainerKind::Jpeg => match segment::decode(bytes) {
            None => Err(InjectError::FormatError),
            Some(segments) => match exif::with_dates(segments, taken.field(), created.field()) {
                Ok(out) => Ok(segment::encode_all(out)),
                Err(e) => Err(e),
            },
        },
        ContainerKind::Png => match chunk::decode(bytes) {
            None => Err(InjectError::FormatError),
            Some(chunks) => match text::with_dates(chunks, taken.rendered(), created.rendered()) {
                Ok(out) => Ok(chunk::encode_all(out)),
                Err(e) => Err(e),
            },
        },
        ContainerKind::Unknown => Err(InjectError::UnsupportedContainer),
    }
}

/// Writes the two timestamps into the metadata of an image.
///
/// Returns the complete new buffer, or the reason why there is none; the
/// input is never changed.
pub fn inject(
    image_bytes: &[u8],
    kind: ContainerKind,
    taken: &NormalizedTimestamp,
    created: &NormalizedTimestamp,
) -> (r: Result<Vec<u8>, InjectError>)
    ensures
        match r {
            Ok(out) => injected(image_bytes@, kind, taken@, created@) == Ok::<Seq<u8>, InjectError>(
                out@,
            ),
            Err(e) => injected(image_bytes@, kind, taken@, created@) == Err::<Seq<u8>, InjectError>(
                e,
            ),
        },
{
    match kind {
        ContainerKind::Jpeg => {
            let segments = match segment::parse(image_bytes) {
                Ok(s) => s,
                Err(e) => {
                    return Err(e);
                },
            };
            match exif::set_dates(&segments, taken, created) {
                Ok(out) => Ok(segment::serialize(&out)),
                Err(e) => Err(e),
            }
        },
        ContainerKind::Png => {
            let chunks = match chunk::parse(image_bytes) {
                Ok(c) => c,
                Err(e) => {
                    return Err(e);
                },
            };
            match text::set_dates(&chunks, taken, created) {
                Ok(out) => Ok(chunk::serialize(&out)),
                Err(e) => Err(e),
            }
        },
        ContainerKind::Unknown => Err(InjectError::UnsupportedContainer),
    }
}

/// The result of an injection is a valid container of the same kind: it
/// parses, and its parts are those of the input with the dates set.
pub proof fn lemma_injected_parses(
    bytes: Seq<u8>,
    kind: ContainerKind,
    taken: Calendar,
    created: Calendar,
)
    requires
        injected(bytes, kind, taken, created) is Ok,
    ensures
        kind == ContainerKind::Jpeg ==> segment::decode(injected(bytes, kind, taken, created)->Ok_0)
            == Some(
            exif::with_dates(
                segment::decode(bytes).unwrap(),
                taken.field(),
                created.field(),
            )->Ok_0,
        ),
        kind == ContainerKind::Png ==> chunk::decode(injected(bytes, kind, taken, created)->Ok_0)
            == Some(
            text::with_dates(
                chunk::decode(bytes).unwrap(),
                taken.rendered(),
                created.rendered(),
            )->Ok_0,
        ),
{
    lemma_field_length(taken);
    lemma_field_length(created);
    match kind {
        ContainerKind::Jpeg => {
            let segments = segment::decode(bytes).unwrap();
            segment::lemma_serialize_inverts_parse(bytes);
            exif::lemma_with_dates_keeps_container(segments, taken.field(), created.field());
            let out = exif::with_dates(segments, taken.field(), created.field())->Ok_0;
            segment::lemma_parse_inverts_serialize(out);
        },
        ContainerKind::Png => {
            let chunks = chunk::decode(bytes).unwrap();
            chunk::lemma_serialize_inverts_parse(bytes);
            text::lemma_with_dates_keeps_wf(chunks, taken.rendered(), created.rendered());
            let out = text::with_dates(chunks, taken.rendered(), created.rendered())->Ok_0;
            chunk::lemma_parse_inverts_serialize(out);
        },
        ContainerKind::Unknown => {},
    }
}

/// Idempotence: injecting the same timestamps into the result of an
/// injection gives the same bytes again.
pub proof fn lemma_inject_idempotent(
    bytes: Seq<u8>,
    kind: ContainerKind,
    taken: Calendar,
    created: Calendar,
)
    requires
        injected(bytes, kind, taken, created) is Ok,
    ensures
        injected(injected(bytes, kind, taken, created)->Ok_0, kind, taken, created) == injected(
            bytes,
            kind,
            taken,
            created,
        ),
{
    lemma_field_length(taken);
    lemma_field_length(created);
    lemma_injected_parses(bytes, kind, taken, created);
    match kind {
        ContainerKind::Jpeg => {
            let segments = segment::decode(bytes).unwrap();
            exif::lemma_with_dates_idempotent(segments, taken.field(), created.field());
        },
        ContainerKind::Png => {
            let chunks = chunk::decode(bytes).unwrap();
            text::lemma_with_dates_idempotent(chunks, taken.rendered(), created.rendered());
        },
        ContainerKind::Unknown => {},
    }
}


/// The buffer with the timestamps of a sidecar record in its metadata: the
/// failure of the normalizer where the record has no usable timestamps,
/// otherwise what the injection gives.
pub open spec fn restored(
    bytes: Seq<u8>,
    kind: ContainerKind,
    sidecar: serde_json::Value,
) -> Result<Seq<u8>, InjectError> {
    match normalized(sidecar) {
        Err(e) => Err(e),
        Ok(pair) => injected(bytes, kind, pair.0, pair.1),
    }
}

/// Reads the two timestamps from a sidecar record and writes them into the
/// metadata of an image.
pub fn inject_from_sidecar(
    image_bytes: &[u8],
    kind: ContainerKind,
    sidecar: &serde_json::Value,
) -> (r: Result<Vec<u8>, InjectError>)
    ensures
        match r {
            Ok(out) => restored(image_bytes@, kind, *sidecar) == Ok::<Seq<u8>, InjectError>(out@),
            Err(e) => restored(image_bytes@, kind, *sidecar) == Err::<Seq<u8>, InjectError>(e),
        },
{
    match normalize(sidecar) {
        Err(e) => Err(e),
        Ok(pair) => inject(image_bytes, kind, &pair.0, &pair.1),
    }
}

/// Whether the second reader takes a buffer for a container of the first
/// kind.
pub uninterp spec fn reads_as_segments(bytes: Seq<u8>) -> bool;

/// Whether the second reader takes a buffer for a container of the second
/// kind.
pub uninterp spec fn reads_as_chunks(bytes: Seq<u8>) -> bool;

/// Asks the second reader about a buffer of the first kind.
///
/// Calls `img_parts::jpeg::Jpeg::from_bytes` on a copy of the buffer.
/// Trusted: the result says whether the call succeeds, which depends on the
/// bytes alone.
#[verifier::external_body]
fn second_reader_segments(bytes: &[u8]) -> (r: bool)
    ensures
        r == reads_as_segments(bytes@),
{
    img_parts::jpeg::Jpeg::from_bytes(img_parts::Bytes::copy_from_slice(bytes)).is_ok()
}

/// Asks the second reader about a buffer of the second kind.
///
/// Calls `img_parts::png::Png::from_bytes` on a copy of the buffer. Trusted:
/// the result says whether the call succeeds, which depends on the bytes
/// alone.
#[verifier::external_body]
fn second_reader_chunks(bytes: &[u8]) -> (r: bool)
    ensures
        r == reads_as_chunks(bytes@),
{
    img_parts::png::Png::from_bytes(img_parts::Bytes::copy_from_slice(bytes)).is_ok()
}

/// Whether the second reader takes a buffer for a container of its kind.
pub open spec fn confirmed(bytes: Seq<u8>, kind: ContainerKind) -> bool {
    match kind {
        ContainerKind::Jpeg => reads_as_segments(bytes),
        ContainerKind::Png => reads_as_chunks(bytes),
        ContainerKind::Unknown => false,
    }
}

/// Asks the second reader whether it takes a buffer for a container of its
/// kind.
pub fn confirm(bytes: &[u8], kind: ContainerKind) -> (r: bool)
    ensures
        r == confirmed(bytes@, kind),
{
    match kind {
        ContainerKind::Jpeg => second_reader_segments(bytes),
        ContainerKind::Png => second_reader_chunks(bytes),
        ContainerKind::Unknown => false,
    }
}

/// A result that the second reader has judged: the buffer where it was
/// accepted, `FormatError` where it was not.
pub fn judged(out: Vec<u8>, accepted: bool) -> (r: Result<Vec<u8>, InjectError>)
    ensures
        accepted ==> r == Ok::<Vec<u8>, InjectError>(out),
        !accepted ==> r == Err::<Vec<u8>, InjectError>(InjectError::FormatError),
{
    if accepted {
        Ok(out)
    } else {
        Err(InjectError::FormatError)
    }
}

/// What restoring an image from its sidecar record gives: the image with the
/// record's timestamps in its metadata, where the detector takes the image
/// for one of the two supported kinds, the record holds both timestamps, the
/// injection succeeds, and the second reader takes the result for a container
/// of that kind. `UnsupportedContainer` where the detector does not, then the
/// failure of the normalizer or of the injection, and `FormatError` where the
/// second reader does not take the result.
pub open spec fn restoration(bytes: Seq<u8>, sidecar: serde_json::Value) -> Result<
    Seq<u8>,
    InjectError,
> {
    let kind = best_guess(sniffed(bytes));
    if kind == ContainerKind::Unknown {
        Err(InjectError::UnsupportedContainer)
    } else {
        match restored(bytes, kind, sidecar) {
            Err(e) => Err(e),
            Ok(out) => if confirmed(out, kind) {
                Ok(out)
            } else {
                Err(InjectError::FormatError)
            },
        }
    }
}

/// Restores the timestamps of an image from its sidecar record: detects the
/// container kind, reads the two timestamps, writes them into the metadata,
/// and has a second reader confirm that the result is a container of that
/// kind.
pub fn restore(image_bytes: &[u8], sidecar: &serde_json::Value) -> (r: Result<Vec<u8>, InjectError>)
    ensures
        match r {
            Ok(out) => restoration(image_bytes@, *sidecar) == Ok::<Seq<u8>, InjectError>(out@),
            Err(e) => restoration(image_bytes@, *sidecar) == Err::<Seq<u8>, InjectError>(e),
        },
{
    let kind = detect_kind(image_bytes);
    if kind == ContainerKind::Unknown {
        return Err(InjectError::UnsupportedContainer);
    }
    match inject_from_sidecar(image_bytes, kind, sidecar) {
        Err(e) => Err(e),
        Ok(out) => {
            let accepted = confirm(out.as_slice(), kind);
            judged(out, accepted)
        },
    }
}

/// The span of the input that an injection replaces, as offset and length:
/// the metadata segment or date chunk where there is one, else the empty span
/// behind the first segment or chunk, where the new one goes.
pub open spec fn replaced_span(bytes: Seq<u8>, kind: ContainerKind) -> (int, int) {
    match kind {
        ContainerKind::Jpeg => {
            let segments = segment::decode(bytes).unwrap();
            let k = exif::first_metadata(segments, 0);
            if k < segments.len() {
                (segment::offset_of(segments, k), segments[k].encoding().len() as int)
            } else {
                (segment::offset_of(segments, 1), 0)
            }
        },
        ContainerKind::Png => {
            let chunks = chunk::decode(bytes).unwrap();
            let k = text::first_date_chunk(chunks, 0);
            if k < chunks.len() {
                (chunk::offset_of(chunks, k), chunks[k].encoding().len() as int)
            } else {
                (chunk::offset_of(chunks, 1), 0)
            }
        },
        ContainerKind::Unknown => (0, 0),
    }
}

/// Two buffers that differ in one span agree in front of it and behind it.
proof fn lemma_splice(head: Seq<u8>, old: Seq<u8>, new: Seq<u8>, tail: Seq<u8>)
    ensures
        ({
            let before = head + old + tail;
            let after = head + new + tail;
            let at = head.len() as int;
            let rest = before.len() - at - old.len();
            &&& rest == tail.len()
            &&& at + rest <= after.len()
            &&& after.take(at) == before.take(at)
            &&& after.skip(after.len() - rest) == before.skip(at + old.len())
        }),
{
    let before = head + old + tail;
    let after = head + new + tail;
    let at = head.len() as int;
    assert(after.take(at) =~= head);
    assert(before.take(at) =~= head);
    assert(after.skip(after.len() - tail.len()) =~= tail);
    assert(before.skip(at + old.len()) =~= tail);
}

/// Non-corruption for the first kind.
proof fn lemma_segments_splice(bytes: Seq<u8>, taken: Calendar, created: Calendar)
    requires
        injected(bytes, ContainerKind::Jpeg, taken, created) is Ok,
    ensures
        ({
            let out = injected(bytes, ContainerKind::Jpeg, taken, created)->Ok_0;
            let at = replaced_span(bytes, ContainerKind::Jpeg).0;
            let n = replaced_span(bytes, ContainerKind::Jpeg).1;
            let rest = bytes.len() - at - n;
            &&& 0 <= at && 0 <= n && 0 <= rest
            &&& at + rest <= out.len()
            &&& out.take(at) == bytes.take(at)
            &&& out.skip(out.len() - rest) == bytes.skip(at + n)
        }),
{
    lemma_field_length(taken);
    lemma_field_length(created);
    let out = injected(bytes, ContainerKind::Jpeg, taken, created)->Ok_0;
    let segments = segment::decode(bytes).unwrap();
    let t = taken.field();
    let c = created.field();
    let after = exif::with_dates(segments, t, c)->Ok_0;
    assert(out == segment::encode_all(after));
    segment::lemma_serialize_inverts_parse(bytes);
    assert(bytes == segment::encode_all(segments));
    exif::lemma_with_dates_splices(segments, t, c);
    exif::lemma_first_metadata(segments, 0);
    let k = exif::metadata_index(segments);
    let gone = exif::replaced(segments);
    let a = segment::encode_all(segments.take(k));
    let b = segment::encode_all(segments.skip(k + gone.len()));
    let old = segment::encode_all(gone);
    let new = after[k].encoding();
    if gone.len() > 0 {
        segment::lemma_encode_all_one(gone[0]);
    } else {
        assert(old.len() == 0);
    }
    lemma_splice(a, old, new, b);
}

/// Non-corruption for the second kind.
proof fn lemma_chunks_splice(bytes: Seq<u8>, taken: Calendar, created: Calendar)
    requires
        injected(bytes, ContainerKind::Png, taken, created) is Ok,
    ensures
        ({
            let out = injected(bytes, ContainerKind::Png, taken, created)->Ok_0;
            let at = replaced_span(bytes, ContainerKind::Png).0;
            let n = replaced_span(bytes, ContainerKind::Png).1;
            let rest = bytes.len() - at - n;
            &&& 0 <= at && 0 <= n && 0 <= rest
            &&& at + rest <= out.len()
            &&& out.take(at) == bytes.take(at)
            &&& out.skip(out.len() - rest) == bytes.skip(at + n)
        }),
{
    lemma_field_length(taken);
    lemma_field_length(created);
    let out = injected(bytes, ContainerKind::Png, taken, created)->Ok_0;
    let chunks = chunk::decode(bytes).unwrap();
    let t = taken.rendered();
    let c = created.rendered();
    let after = text::with_dates(chunks, t, c)->Ok_0;
    assert(out == chunk::encode_all(after));
    chunk::lemma_serialize_inverts_parse(bytes);
    assert(bytes == chunk::encode_all(chunks));
    text::lemma_with_dates_splices(chunks, t, c);
    text::lemma_first_date_chunk(chunks, 0);
    let k = text::date_index(chunks);
    let gone = text::replaced(chunks);
    let a = chunk::encode_chunks(chunks.take(k));
    let b = chunk::encode_chunks(chunks.skip(k + gone.len()));
    let old = chunk::encode_chunks(gone);
    let new = text::date_chunk(t, c).encoding();
    if gone.len() > 0 {
        chunk::lemma_encode_chunks_one(gone[0]);
    } else {
        assert(old.len() == 0);
    }
    lemma_with_signature(a, old, b, bytes);
    lemma_with_signature(a, new, b, out);
    lemma_splice(chunk::signature() + a, old, new, b);
}

/// A signature in front of three runs can be counted to the first of them.
proof fn lemma_with_signature(a: Seq<u8>, m: Seq<u8>, b: Seq<u8>, whole: Seq<u8>)
    requires
        whole == chunk::signature() + (a + m + b),
    ensures
        whole == (chunk::signature() + a) + m + b,
        (chunk::signature() + a).len() == 8 + a.len(),
{
    assert(chunk::signature() + (a + m + b) =~= (chunk::signature() + a) + m + b);
}

/// Non-corruption: an injection leaves every byte in front of the replaced
/// span and every byte behind it as it was; the bytes behind it move by as
/// much as the metadata grows.
pub proof fn lemma_inject_keeps_rest(
    bytes: Seq<u8>,
    kind: ContainerKind,
    taken: Calendar,
    created: Calendar,
)
    requires
        injected(bytes, kind, taken, created) is Ok,
    ensures
        ({
            let out = injected(bytes, kind, taken, created)->Ok_0;
            let at = replaced_span(bytes, kind).0;
            let n = replaced_span(bytes, kind).1;
            let rest = bytes.len() - at - n;
            &&& 0 <= at && 0 <= n && 0 <= rest
            &&& at + rest <= out.len()
            &&& out.take(at) == bytes.take(at)
            &&& out.skip(out.len() - rest) == bytes.skip(at + n)
        }),
{
    match kind {
        ContainerKind::Jpeg => {
            lemma_segments_splice(bytes, taken, created);
        },
        ContainerKind::Png => {
            lemma_chunks_splice(bytes, taken, created);
        },
        ContainerKind::Unknown => {},
    }
}

/// Length rule for the first kind: in the result of an injection every
/// segment stands at its offset, and the length field of each
/// length-prefixed segment is the length of its payload plus two.
pub proof fn lemma_injected_segment_lengths(
    bytes: Seq<u8>,
    taken: Calendar,
    created: Calendar,
    i: int,
)
    requires
        injected(bytes, ContainerKind::Jpeg, taken, created) is Ok,
        0 <= i < segment::decode(
            injected(bytes, ContainerKind::Jpeg, taken, created)->Ok_0,
        ).unwrap().len(),
    ensures
        ({
            let out = injected(bytes, ContainerKind::Jpeg, taken, created)->Ok_0;
            let segments = segment::decode(out).unwrap();
            let at = segment::offset_of(segments, i);
            let seg = segments[i];
            &&& segment::decode(out) is Some
            &&& at + seg.encoding().len() <= out.len()
            &&& out.subrange(at, at + seg.encoding().len()) == seg.encoding()
            &&& seg.kind == SegmentKind::Sized ==> {
                &&& out[at] == 0xFF
                &&& out[at + 1] == seg.marker
                &&& out[at + 2] as int * 256 + out[at + 3] as int == seg.payload.len() + 2
                &&& out.subrange(at + 4, at + 4 + seg.payload.len()) == seg.payload
            }
        }),
{
    lemma_field_length(taken);
    lemma_field_length(created);
    let out = injected(bytes, ContainerKind::Jpeg, taken, created)->Ok_0;
    lemma_injected_parses(bytes, ContainerKind::Jpeg, taken, created);
    segment::lemma_serialize_inverts_parse(out);
    let segments = segment::decode(out).unwrap();
    if i > 0 {
        assert(segments[i] == segments.drop_first()[i - 1]);
    }
    segment::lemma_length_fields(segments, i);
}

/// Length rule for the second kind: in the result of an injection every
/// chunk stands at its offset, its length field is the length of its payload,
/// and its check value is the one computed from its type code and payload.
pub proof fn lemma_injected_chunk_lengths(
    bytes: Seq<u8>,
    taken: Calendar,
    created: Calendar,
    i: int,
)
    requires
        injected(bytes, ContainerKind::Png, taken, created) is Ok,
        0 <= i < chunk::decode(
            injected(bytes, ContainerKind::Png, taken, created)->Ok_0,
        ).unwrap().len(),
    ensures
        ({
            let out = injected(bytes, ContainerKind::Png, taken, created)->Ok_0;
            let chunks = chunk::decode(out).unwrap();
            let at = chunk::offset_of(chunks, i);
            let c = chunks[i];
            &&& chunk::decode(out) is Some
            &&& at + 12 + c.payload.len() <= out.len()
            &&& crate::bytes::rd32(out, at, false) == c.payload.len()
            &&& out.subrange(at + 4, at + 8) == c.type_code
            &&& out.subrange(at + 8, at + 8 + c.payload.len()) == c.payload
            &&& crate::bytes::rd32(out, at + 8 + c.payload.len(), false) == c.checksum()
        }),
{
    lemma_field_length(taken);
    lemma_field_length(created);
    let out = injected(bytes, ContainerKind::Png, taken, created)->Ok_0;
    lemma_injected_parses(bytes, ContainerKind::Png, taken, created);
    chunk::lemma_serialize_inverts_parse(out);
    let chunks = chunk::decode(out).unwrap();
    chunk::lemma_length_fields(chunks, i);
}

} // verus!
