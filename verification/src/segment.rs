//! The segment codec for the marker-delimited container kind.
//!
//! A buffer is a start-of-image marker followed by marker segments, most of
//! them length-prefixed, up to the start-of-scan segment. Everything after the
//! start-of-scan header is entropy-coded image data and is carried as one
//! opaque trailing segment.
//!
//! The codec is strict, so that writing is the exact inverse of reading:
//! every segment has to start right behind the one before it, and fill bytes
//! between segments are not accepted.

use vstd::prelude::*;
use crate::bytes::{append_all, copy_of, copy_range};
use crate::error::InjectError;

verus! {

/// Marker code of the start-of-image segment.
pub const SOI: u8 = 0xD8;

/// Marker code of the start-of-scan segment, after which parsing stops.
pub const SOS: u8 = 0xDA;

/// Largest payload whose length still fits the two-byte length field.
pub const MAX_PAYLOAD: usize = 65533;

/// How a segment is laid out in the buffer.
#[derive(Clone, Copy, Debug, PartialEq, Eq, Structural)]
pub enum SegmentKind {
    /// The two marker bytes alone.
    Bare,
    /// Marker, two-byte big-endian length, payload.
    Sized,
    /// The raw bytes that follow the start-of-scan header.
    Scan,
}

/// The mathematical value of a [`Segment`].
pub struct SegmentView {
    pub kind: SegmentKind,
    pub marker: u8,
    pub payload: Seq<u8>,
}

/// Markers that stand alone, without a length field.
pub open spec fn is_standalone(marker: u8) -> bool {
    marker == 0x01 || (0xD0 <= marker && marker <= 0xD9)
}

/// Markers that are followed by a length field and a payload.
pub open spec fn is_sized(marker: u8) -> bool {
    marker != 0x00 && marker != 0xFF && !is_standalone(marker)
}

impl SegmentView {
    /// The segment can be written: its marker fits its kind and its payload
    /// fits the length field.
    pub open spec fn wf(self) -> bool {
        match self.kind {
            SegmentKind::Bare => is_standalone(self.marker) && self.payload.len() == 0,
            SegmentKind::Sized => is_sized(self.marker) && self.payload.len() <= MAX_PAYLOAD,
            SegmentKind::Scan => self.marker == 0x00,
        }
    }

    /// The bytes that stand for the segment in a buffer.
    pub open spec fn encoding(self) -> Seq<u8> {
        match self.kind {
            SegmentKind::Bare => seq![0xFFu8, self.marker],
            SegmentKind::Sized => seq![
                0xFFu8,
                self.marker,
                ((self.payload.len() + 2) / 256) as u8,
                ((self.payload.len() + 2) % 256) as u8,
            ] + self.payload,
            SegmentKind::Scan => self.payload,
        }
    }
}

/// A bare segment with the given marker.
pub open spec fn bare(marker: u8) -> SegmentView {
    SegmentView { kind: SegmentKind::Bare, marker, payload: Seq::empty() }
}

/// A length-prefixed segment with the given marker and payload.
pub open spec fn sized(marker: u8, payload: Seq<u8>) -> SegmentView {
    SegmentView { kind: SegmentKind::Sized, marker, payload }
}

/// The trailing segment that holds the entropy-coded data.
pub open spec fn scan(data: Seq<u8>) -> SegmentView {
    SegmentView { kind: SegmentKind::Scan, marker: 0x00, payload: data }
}

/// One unit of the container: a marker with its payload, or the opaque data
/// after the start-of-scan header.
#[derive(Debug)]
pub struct Segment {
    kind: SegmentKind,
    marker: u8,
    payload: Vec<u8>,
}

impl View for Segment {
    type V = SegmentView;

    closed spec fn view(&self) -> SegmentView {
        SegmentView { kind: self.kind, marker: self.marker, payload: self.payload@ }
    }
}

impl Segment {
    #[verifier::type_invariant]
    spec fn inv(self) -> bool {
        self@.wf()
    }

    /// A segment that is its marker alone, or `None` if the marker takes a
    /// length field.
    pub fn bare(marker: u8) -> (r: Option<Segment>)
        ensures
            r is Some <==> is_standalone(marker),
            r matches Some(s) ==> s@ == self::bare(marker),
    {
        if standalone(marker) {
            let s = Segment { kind: SegmentKind::Bare, marker, payload: Vec::new() };
            assert(s@.payload =~= Seq::<u8>::empty());
            Some(s)
        } else {
            None
        }
    }

    /// A length-prefixed segment, or `None` if the marker takes no length
    /// field or the payload does not fit it.
    pub fn sized(marker: u8, payload: Vec<u8>) -> (r: Option<Segment>)
        ensures
            r is Some <==> is_sized(marker) && payload@.len() <= MAX_PAYLOAD,
            r matches Some(s) ==> s@ == self::sized(marker, payload@),
    {
        if marker != 0x00 && marker != 0xFF && !standalone(marker) && payload.len() <= MAX_PAYLOAD {
            Some(Segment { kind: SegmentKind::Sized, marker, payload })
        } else {
            None
        }
    }

    /// The trailing segment that carries the entropy-coded data as it is.
    pub fn scan(data: Vec<u8>) -> (r: Segment)
        ensures
            r@ == self::scan(data@),
    {
        Segment { kind: SegmentKind::Scan, marker: 0x00, payload: data }
    }

    /// How the segment is laid out.
    pub fn kind(&self) -> (k: SegmentKind)
        ensures
            k == self@.kind,
            self@.wf(),
    {
        proof {
            use_type_invariant(self);
        }
        self.kind
    }

    /// The marker code (zero for the trailing scan data, which has none).
    pub fn marker(&self) -> (m: u8)
        ensures
            m == self@.marker,
            self@.wf(),
    {
        proof {
            use_type_invariant(self);
        }
        self.marker
    }

    /// The payload, without marker and length field.
    pub fn payload(&self) -> (p: &Vec<u8>)
        ensures
            p@ == self@.payload,
            self@.wf(),
    {
        proof {
            use_type_invariant(self);
        }
        &self.payload
    }

}

impl Clone for Segment {
    fn clone(&self) -> (r: Segment)
        ensures
            r@ == self@,
    {
        proof {
            use_type_invariant(self);
        }
        Segment { kind: self.kind, marker: self.marker, payload: copy_of(self.payload.as_slice()) }
    }
}

/// Whether the marker stands alone.
pub fn standalone(marker: u8) -> (r: bool)
    ensures
        r == is_standalone(marker),
{
    marker == 0x01 || (0xD0 <= marker && marker <= 0xD9)
}

/// The values of a run of segments.
pub open spec fn views(segments: Seq<Segment>) -> Seq<SegmentView> {
    segments.map_values(|s: Segment| s@)
}

/// The encodings of a run of segments, one after the other.
pub open spec fn encode_all(segments: Seq<SegmentView>) -> Seq<u8>
    decreases segments.len(),
{
    if segments.len() == 0 {
        Seq::empty()
    } else {
        segments[0].encoding() + encode_all(segments.drop_first())
    }
}

/// Puts `first` in front of a decoded rest, if there is one.
pub open spec fn prepend(first: SegmentView, rest: Option<Seq<SegmentView>>) -> Option<
    Seq<SegmentView>,
> {
    match rest {
        Some(r) => Some(seq![first] + r),
        None => None,
    }
}

/// The value of the two-byte length field at the start of `bytes`.
pub open spec fn length_field(bytes: Seq<u8>) -> int {
    bytes[0] as int * 256 + bytes[1] as int
}

/// The segments that `bytes` holds after the start-of-image marker: marker
/// segments up to and including the start-of-scan header, then the scan data.
/// `None` where a marker is missing or invalid, a length runs past the end, or
/// the buffer ends before a start-of-scan segment.
pub open spec fn decode_rest(bytes: Seq<u8>) -> Option<Seq<SegmentView>>
    decreases bytes.len(),
{
    if bytes.len() < 2 || bytes[0] != 0xFF {
        None
    } else if is_standalone(bytes[1]) {
        prepend(bare(bytes[1]), decode_rest(bytes.skip(2)))
    } else if !is_sized(bytes[1]) || bytes.len() < 4 {
        None
    } else {
        let n = length_field(bytes.skip(2));
        if n < 2 || bytes.len() < 2 + n {
            None
        } else if bytes[1] == SOS {
            Some(seq![sized(bytes[1], bytes.subrange(4, 2 + n)), scan(bytes.skip(2 + n))])
        } else {
            prepend(sized(bytes[1], bytes.subrange(4, 2 + n)), decode_rest(bytes.skip(2 + n)))
        }
    }
}

/// The segments of a whole buffer, or `None` if it is not a valid container.
pub open spec fn decode(bytes: Seq<u8>) -> Option<Seq<SegmentView>> {
    if bytes.len() >= 2 && bytes[0] == 0xFF && bytes[1] == SOI {
        prepend(bare(SOI), decode_rest(bytes.skip(2)))
    } else {
        None
    }
}

/// The shape of what `decode` yields: marker segments that end in the
/// start-of-scan header, followed by the scan data and nothing else.
pub open spec fn is_body(segments: Seq<SegmentView>) -> bool {
    &&& segments.len() >= 2
    &&& forall|i: int| 0 <= i < segments.len() ==> (#[trigger] segments[i]).wf()
    &&& segments[segments.len() - 1].kind == SegmentKind::Scan
    &&& segments[segments.len() - 2].kind == SegmentKind::Sized
    &&& segments[segments.len() - 2].marker == SOS
    &&& forall|i: int|
        0 <= i < segments.len() - 2 ==> (#[trigger] segments[i]).kind != SegmentKind::Scan
            && segments[i].marker != SOS
}

/// The shape of a whole container: the start-of-image marker, then a body.
pub open spec fn is_container(segments: Seq<SegmentView>) -> bool {
    &&& segments.len() >= 3
    &&& segments[0] == bare(SOI)
    &&& is_body(segments.drop_first())
}


/// The segments so far, followed by what the rest of the buffer decodes to.
pub open spec fn glue(done: Seq<SegmentView>, rest: Option<Seq<SegmentView>>) -> Option<
    Seq<SegmentView>,
> {
    match rest {
        Some(r) => Some(done + r),
        None => None,
    }
}

/// Splits a buffer into its segments.
///
/// Succeeds exactly on the buffers that `decode` accepts: those that begin
/// with the start-of-image marker, in which every declared length stays inside
/// the buffer, and which reach a start-of-scan segment. Everything after the
/// start-of-scan header becomes the one trailing segment.
pub fn parse(bytes: &[u8]) -> (r: Result<Vec<Segment>, InjectError>)
    ensures
        match r {
            Ok(segments) => decode(bytes@) == Some(views(segments@)),
            Err(e) => e == InjectError::FormatError && decode(bytes@) is None,
        },
{
    let n = bytes.len();
    if n < 2 || bytes[0] != 0xFF || bytes[1] != SOI {
        return Err(InjectError::FormatError);
    }
    let mut out: Vec<Segment> = Vec::new();
    let first = Segment { kind: SegmentKind::Bare, marker: SOI, payload: Vec::new() };
    assert(first@ == bare(SOI)) by {
        assert(first@.payload =~= Seq::<u8>::empty());
    }
    out.push(first);
    let mut pos: usize = 2;
    proof {
        assert(views(out@) =~= seq![bare(SOI)]);
        match decode_rest(bytes@.skip(2)) {
            Some(r) => {
                assert(seq![bare(SOI)] + r =~= views(out@) + r);
            },
            None => {},
        }
    }
    loop
        invariant
            n == bytes@.len(),
            2 <= pos <= n,
            decode(bytes@) == glue(views(out@), decode_rest(bytes@.skip(pos as int))),
        decreases n - pos,
    {
        let ghost rest = bytes@.skip(pos as int);
        let ghost done = views(out@);
        if n - pos < 2 || bytes[pos] != 0xFF {
            return Err(InjectError::FormatError);
        }
        let marker = bytes[pos + 1];
        if standalone(marker) {
            out.push(Segment { kind: SegmentKind::Bare, marker, payload: Vec::new() });
            pos += 2;
            proof {
                assert(rest.skip(2) =~= bytes@.skip(pos as int));
                assert(out@[out@.len() - 1]@ == bare(marker)) by {
                    assert(out@[out@.len() - 1]@.payload =~= Seq::<u8>::empty());
                }
                assert(views(out@) =~= done.push(bare(marker)));
                lemma_glue_step(done, bare(marker), decode_rest(rest.skip(2)));
            }
        } else if marker == 0x00 || marker == 0xFF || n - pos < 4 {
            return Err(InjectError::FormatError);
        } else {
            let len: usize = (bytes[pos + 2] as usize) * 256 + (bytes[pos + 3] as usize);
            assert(len == length_field(rest.skip(2)));
            if len < 2 || n - pos - 2 < len {
                return Err(InjectError::FormatError);
            }
            let payload = copy_range(bytes, pos + 4, pos + 2 + len);
            assert(payload@ =~= rest.subrange(4, 2 + len));
            out.push(Segment { kind: SegmentKind::Sized, marker, payload });
            assert(views(out@) =~= done.push(sized(marker, rest.subrange(4, 2 + len))));
            if marker == SOS {
                let data = copy_range(bytes, pos + 2 + len, n);
                assert(data@ =~= rest.skip(2 + len));
                let ghost before = views(out@);
                out.push(Segment { kind: SegmentKind::Scan, marker: 0x00, payload: data });
                proof {
                    assert(views(out@) =~= before.push(scan(rest.skip(2 + len))));
                    assert(views(out@) =~= done + seq![
                        sized(marker, rest.subrange(4, 2 + len)),
                        scan(rest.skip(2 + len)),
                    ]);
                }
                return Ok(out);
            }
            pos += 2 + len;
            proof {
                assert(rest.skip(2 + len) =~= bytes@.skip(pos as int));
                lemma_glue_step(
                    done,
                    sized(marker, rest.subrange(4, 2 + len)),
                    decode_rest(rest.skip(2 + len)),
                );
            }
        }
    }
}

proof fn lemma_glue_step(done: Seq<SegmentView>, next: SegmentView, rest: Option<Seq<SegmentView>>)
    ensures
        glue(done, prepend(next, rest)) == glue(done.push(next), rest),
{
    match rest {
        Some(r) => {
            assert(done + (seq![next] + r) =~= done.push(next) + r);
        },
        None => {},
    }
}

/// Writes the segments out, one after the other: marker, length field where
/// the kind has one, payload.
pub fn serialize(segments: &Vec<Segment>) -> (bytes: Vec<u8>)
    ensures
        bytes@ == encode_all(views(segments@)),
{
    let mut out: Vec<u8> = Vec::new();
    let mut i: usize = 0;
    assert(views(segments@).take(0) =~= Seq::<SegmentView>::empty());
    while i < segments.len()
        invariant
            i <= segments.len(),
            out@ == encode_all(views(segments@).take(i as int)),
        decreases segments.len() - i,
    {
        let seg = &segments[i];
        let ghost before = out@;
        match seg.kind() {
            SegmentKind::Bare => {
                out.push(0xFF);
                out.push(seg.marker());
            },
            SegmentKind::Sized => {
                let n: usize = seg.payload().len() + 2;
                out.push(0xFF);
                out.push(seg.marker());
                out.push((n / 256) as u8);
                out.push((n % 256) as u8);
                append_all(&mut out, seg.payload().as_slice());
            },
            SegmentKind::Scan => {
                append_all(&mut out, seg.payload().as_slice());
            },
        }
        assert(out@ =~= before + seg@.encoding());
        proof {
            let all = views(segments@);
            assert(all.take(i + 1) =~= all.take(i as int) + seq![seg@]);
            lemma_encode_all_concat(all.take(i as int), seq![seg@]);
            lemma_encode_all_one(seg@);
        }
        i += 1;
    }
    assert(views(segments@).take(segments@.len() as int) =~= views(segments@));
    out
}

/// A run of one segment encodes as that segment.
pub proof fn lemma_encode_all_one(segment: SegmentView)
    ensures
        encode_all(seq![segment]) == segment.encoding(),
{
    let s = seq![segment];
    assert(s.drop_first() =~= Seq::<SegmentView>::empty());
    assert(encode_all(s.drop_first()) =~= Seq::<u8>::empty());
    assert(encode_all(s) =~= segment.encoding());
}

/// Two runs written one after the other encode as the two encodings, one
/// after the other.
pub proof fn lemma_encode_all_concat(a: Seq<SegmentView>, b: Seq<SegmentView>)
    ensures
        encode_all(a + b) == encode_all(a) + encode_all(b),
    decreases a.len(),
{
    if a.len() == 0 {
        assert(a + b =~= b);
        assert(encode_all(a) + encode_all(b) =~= encode_all(b));
    } else {
        assert((a + b).drop_first() =~= a.drop_first() + b);
        lemma_encode_all_concat(a.drop_first(), b);
        assert(encode_all(a + b) =~= encode_all(a) + encode_all(b));
    }
}


/// What `decode_rest` accepts is a body, and writing the body out gives the
/// bytes back.
pub proof fn lemma_decode_rest_inverts(bytes: Seq<u8>)
    ensures
        decode_rest(bytes) matches Some(segments) ==> is_body(segments) && encode_all(segments)
            == bytes,
    decreases bytes.len(),
{
    if bytes.len() < 2 || bytes[0] != 0xFF {
    } else if is_standalone(bytes[1]) {
        let rest = bytes.skip(2);
        lemma_decode_rest_inverts(rest);
        if let Some(r) = decode_rest(rest) {
            let first = bare(bytes[1]);
            let s = seq![first] + r;
            assert(s.drop_first() =~= r);
            assert(first.encoding() + rest =~= bytes);
            lemma_body_grows(first, r);
        }
    } else if !is_sized(bytes[1]) || bytes.len() < 4 {
    } else {
        let n = length_field(bytes.skip(2));
        if n < 2 || bytes.len() < 2 + n {
        } else {
            let first = sized(bytes[1], bytes.subrange(4, 2 + n));
            let rest = bytes.skip(2 + n);
            assert(first.payload.len() + 2 == n);
            assert(n == bytes[2] as int * 256 + bytes[3] as int);
            assert(first.encoding() + rest =~= bytes);
            if bytes[1] == SOS {
                let last = scan(rest);
                let s = seq![first, last];
                assert(s.drop_first() =~= seq![last]);
                lemma_encode_all_one(last);
                assert(encode_all(s) =~= bytes);
            } else {
                lemma_decode_rest_inverts(rest);
                if let Some(r) = decode_rest(rest) {
                    let s = seq![first] + r;
                    assert(s.drop_first() =~= r);
                    lemma_body_grows(first, r);
                }
            }
        }
    }
}

/// A body stays a body when a marker segment other than start-of-scan is
/// put in front of it.
pub proof fn lemma_body_grows(first: SegmentView, rest: Seq<SegmentView>)
    requires
        is_body(rest),
        first.wf(),
        first.kind != SegmentKind::Scan,
        first.marker != SOS,
    ensures
        is_body(seq![first] + rest),
{
    let s = seq![first] + rest;
    assert forall|i: int| 0 <= i < s.len() implies (#[trigger] s[i]).wf() by {
        if i > 0 {
            assert(s[i] == rest[i - 1]);
        }
    }
    assert forall|i: int| 0 <= i < s.len() - 2 implies (#[trigger] s[i]).kind != SegmentKind::Scan
        && s[i].marker != SOS by {
        if i > 0 {
            assert(s[i] == rest[i - 1]);
        }
    }
    assert(s[s.len() - 1] == rest[rest.len() - 1]);
    assert(s[s.len() - 2] == rest[rest.len() - 2]);
}

/// Round trip: a buffer that parses is exactly the serialization of its
/// segments, and those segments form a container.
pub proof fn lemma_serialize_inverts_parse(bytes: Seq<u8>)
    ensures
        decode(bytes) matches Some(segments) ==> is_container(segments) && encode_all(segments)
            == bytes,
{
    if bytes.len() >= 2 && bytes[0] == 0xFF && bytes[1] == SOI {
        let rest = bytes.skip(2);
        lemma_decode_rest_inverts(rest);
        if let Some(r) = decode_rest(rest) {
            let s = seq![bare(SOI)] + r;
            assert(s.drop_first() =~= r);
            assert(bare(SOI).encoding() + rest =~= bytes);
        }
    }
}

/// Writing a body out and decoding the bytes gives the body back.
pub proof fn lemma_encode_rest_inverts(segments: Seq<SegmentView>)
    requires
        is_body(segments),
    ensures
        decode_rest(encode_all(segments)) == Some(segments),
    decreases segments.len(),
{
    let first = segments[0];
    let tail = segments.drop_first();
    let bytes = encode_all(segments);
    let rest = encode_all(tail);
    assert(first.wf());
    assert(bytes == first.encoding() + rest);
    if segments.len() == 2 {
        let last = segments[1];
        assert(tail =~= seq![last]);
        lemma_encode_all_one(last);
        assert(last.wf());
        lemma_sized_prefix(first, rest);
        assert(segments =~= seq![first, last]);
        assert(last == scan(rest));
    } else {
        assert(is_body(tail)) by {
            assert forall|i: int| 0 <= i < tail.len() implies (#[trigger] tail[i]).wf() by {
                assert(tail[i] == segments[i + 1]);
            }
            assert forall|i: int| 0 <= i < tail.len() - 2 implies (#[trigger] tail[i]).kind
                != SegmentKind::Scan && tail[i].marker != SOS by {
                assert(tail[i] == segments[i + 1]);
            }
        }
        lemma_encode_rest_inverts(tail);
        assert(segments =~= seq![first] + tail);
        match first.kind {
            SegmentKind::Bare => {
                assert(bytes.skip(2) =~= rest);
                assert(first == bare(bytes[1])) by {
                    assert(first.payload =~= Seq::<u8>::empty());
                }
            },
            SegmentKind::Sized => {
                lemma_sized_prefix(first, rest);
            },
            SegmentKind::Scan => {},
        }
    }
}

/// How a length-prefixed segment reads back from the front of a buffer.
proof fn lemma_sized_prefix(first: SegmentView, rest: Seq<u8>)
    requires
        first.kind == SegmentKind::Sized,
        first.wf(),
    ensures
        ({
            let bytes = first.encoding() + rest;
            let n = length_field(bytes.skip(2));
            &&& bytes.len() >= 4
            &&& bytes[0] == 0xFF
            &&& bytes[1] == first.marker
            &&& n == first.payload.len() + 2
            &&& bytes.len() >= 2 + n
            &&& sized(bytes[1], bytes.subrange(4, 2 + n)) == first
            &&& bytes.skip(2 + n) == rest
        }),
{
    let bytes = first.encoding() + rest;
    let m: int = first.payload.len() as int + 2;
    assert(bytes[2] == (m / 256) as u8);
    assert(bytes[3] == (m % 256) as u8);
    assert(m / 256 < 256 && m % 256 < 256);
    assert(bytes.skip(2)[0] == bytes[2]);
    assert(bytes.skip(2)[1] == bytes[3]);
    assert(length_field(bytes.skip(2)) == m);
    assert(bytes.subrange(4, 2 + m) =~= first.payload);
    assert(bytes.skip(2 + m) =~= rest);
}

/// Converse round trip: the serialization of a container parses, and gives
/// the same segments back.
pub proof fn lemma_parse_inverts_serialize(segments: Seq<SegmentView>)
    requires
        is_container(segments),
    ensures
        decode(encode_all(segments)) == Some(segments),
{
    let tail = segments.drop_first();
    let bytes = encode_all(segments);
    lemma_encode_rest_inverts(tail);
    assert(bytes == bare(SOI).encoding() + encode_all(tail));
    assert(bytes.skip(2) =~= encode_all(tail));
    assert(segments =~= seq![bare(SOI)] + tail);
}

/// Where the encoding of segment `i` starts in the encoding of the run.
pub open spec fn offset_of(segments: Seq<SegmentView>, i: int) -> int {
    encode_all(segments.take(i)).len() as int
}

/// Length rule: in the serialization of well-formed segments, each segment
/// stands at its offset as marker, length field and payload, and the length
/// field of a length-prefixed segment is the payload's length plus two.
pub proof fn lemma_length_fields(segments: Seq<SegmentView>, i: int)
    requires
        0 <= i < segments.len(),
        segments[i].wf(),
    ensures
        ({
            let bytes = encode_all(segments);
            let at = offset_of(segments, i);
            let seg = segments[i];
            &&& at + seg.encoding().len() <= bytes.len()
            &&& bytes.subrange(at, at + seg.encoding().len()) == seg.encoding()
            &&& seg.kind == SegmentKind::Sized ==> {
                &&& seg.encoding().len() == 4 + seg.payload.len()
                &&& bytes[at] == 0xFF
                &&& bytes[at + 1] == seg.marker
                &&& bytes[at + 2] as int * 256 + bytes[at + 3] as int == seg.payload.len() + 2
                &&& bytes.subrange(at + 4, at + 4 + seg.payload.len()) == seg.payload
            }
        }),
{
    let bytes = encode_all(segments);
    let seg = segments[i];
    let before = segments.take(i);
    let after = segments.skip(i + 1);
    let at = offset_of(segments, i);
    assert(segments =~= before + seq![seg] + after);
    lemma_encode_all_concat(before + seq![seg], after);
    lemma_encode_all_concat(before, seq![seg]);
    lemma_encode_all_one(seg);
    assert(bytes == encode_all(before) + seg.encoding() + encode_all(after));
    assert(bytes.subrange(at, at + seg.encoding().len()) =~= seg.encoding());
    if seg.kind == SegmentKind::Sized {
        let m: int = seg.payload.len() as int + 2;
        assert(m / 256 < 256 && m % 256 < 256);
        assert(seg.encoding()[2] == (m / 256) as u8);
        assert(seg.encoding()[3] == (m % 256) as u8);
        assert(bytes[at] == seg.encoding()[0]);
        assert(bytes[at + 1] == seg.encoding()[1]);
        assert(bytes[at + 2] == seg.encoding()[2]);
        assert(bytes[at + 3] == seg.encoding()[3]);
        assert(bytes.subrange(at + 4, at + 4 + seg.payload.len()) =~= seg.payload);
    }
}


/// The encoding of a run is the encoding of its beginning, of its middle and
/// of its end, one after the other.
pub proof fn lemma_encode_all_split(segments: Seq<SegmentView>, from: int, to: int)
    requires
        0 <= from <= to <= segments.len(),
    ensures
        encode_all(segments) == encode_all(segments.take(from)) + encode_all(
            segments.subrange(from, to),
        ) + encode_all(segments.skip(to)),
{
    let a = segments.take(from);
    let b = segments.subrange(from, to);
    let c = segments.skip(to);
    assert(segments =~= a + b + c);
    lemma_encode_all_concat(a + b, c);
    lemma_encode_all_concat(a, b);
}

} // verus!
