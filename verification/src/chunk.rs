//! The chunk codec for the checksum-protected container kind.
//!
//! A buffer is an eight-byte signature followed by chunks. A chunk is a
//! four-byte big-endian payload length, a four-byte type code, the payload,
//! and a four-byte check value computed over type code and payload.

use vstd::prelude::*;
use crate::bytes::{
    append_all,
    copy_of,
    copy_range,
    enc32,
    lemma_read_back,
    lemma_write_back,
    push32,
    rd32,
    read32,
};
use crate::crc::{checksum, crc32};
use crate::error::InjectError;

verus! {

/// Largest payload that the format allows.
pub const MAX_CHUNK: usize = 0x7FFFFFFF;

/// The eight bytes that every buffer of this kind starts with.
pub open spec fn signature() -> Seq<u8> {
    seq![0x89u8, 0x50u8, 0x4Eu8, 0x47u8, 0x0Du8, 0x0Au8, 0x1Au8, 0x0Au8]
}

/// The mathematical value of a [`Chunk`].
pub struct ChunkView {
    pub type_code: Seq<u8>,
    pub payload: Seq<u8>,
}

impl ChunkView {
    /// The chunk can be written: its type code has four bytes and its payload
    /// length fits the format.
    pub open spec fn wf(self) -> bool {
        self.type_code.len() == 4 && self.payload.len() <= MAX_CHUNK
    }

    /// The check value of the chunk.
    pub open spec fn checksum(self) -> u32 {
        crc32(self.type_code + self.payload)
    }

    /// The bytes that stand for the chunk in a buffer.
    pub open spec fn encoding(self) -> Seq<u8> {
        enc32(self.payload.len() as int, false) + self.type_code + self.payload + enc32(
            self.checksum() as int,
            false,
        )
    }
}

/// One unit of the container: a type code and a payload. The check value is
/// not stored; it is computed from the two whenever it is needed.
#[derive(Debug)]
pub struct Chunk {
    type_code: [u8; 4],
    payload: Vec<u8>,
}

impl View for Chunk {
    type V = ChunkView;

    closed spec fn view(&self) -> ChunkView {
        ChunkView { type_code: self.type_code@, payload: self.payload@ }
    }
}

impl Chunk {
    #[verifier::type_invariant]
    spec fn inv(self) -> bool {
        self@.wf()
    }

    /// A chunk, or `None` if the payload is longer than the format allows.
    pub fn new(type_code: [u8; 4], payload: Vec<u8>) -> (r: Option<Chunk>)
        ensures
            r is Some <==> payload@.len() <= MAX_CHUNK,
            r matches Some(c) ==> c@ == (ChunkView { type_code: type_code@, payload: payload@ }),
    {
        if payload.len() <= MAX_CHUNK {
            Some(Chunk { type_code, payload })
        } else {
            None
        }
    }

    /// The four-byte type code.
    pub fn type_code(&self) -> (r: [u8; 4])
        ensures
            r@ == self@.type_code,
            self@.wf(),
    {
        proof {
            use_type_invariant(self);
        }
        self.type_code
    }

    /// The payload.
    pub fn payload(&self) -> (r: &Vec<u8>)
        ensures
            r@ == self@.payload,
            self@.wf(),
    {
        proof {
            use_type_invariant(self);
        }
        &self.payload
    }

    /// The check value over type code and payload.
    pub fn checksum(&self) -> (r: u32)
        ensures
            r == self@.checksum(),
    {
        let r = checksum(self.type_code.as_slice(), self.payload.as_slice(), 0, self.payload.len());
        assert(self.payload@.subrange(0, self.payload@.len() as int) =~= self.payload@);
        r
    }
}

impl Clone for Chunk {
    fn clone(&self) -> (r: Chunk)
        ensures
            r@ == self@,
    {
        proof {
            use_type_invariant(self);
        }
        Chunk { type_code: self.type_code, payload: copy_of(self.payload.as_slice()) }
    }
}

/// The values of a run of chunks.
pub open spec fn views(chunks: Seq<Chunk>) -> Seq<ChunkView> {
    chunks.map_values(|c: Chunk| c@)
}

/// The encodings of a run of chunks, one after the other.
pub open spec fn encode_chunks(chunks: Seq<ChunkView>) -> Seq<u8>
    decreases chunks.len(),
{
    if chunks.len() == 0 {
        Seq::empty()
    } else {
        chunks[0].encoding() + encode_chunks(chunks.drop_first())
    }
}

/// The signature followed by the encodings of the chunks.
pub open spec fn encode_all(chunks: Seq<ChunkView>) -> Seq<u8> {
    signature() + encode_chunks(chunks)
}

/// Puts `first` in front of a decoded rest, if there is one.
pub open spec fn prepend(first: ChunkView, rest: Option<Seq<ChunkView>>) -> Option<Seq<ChunkView>> {
    match rest {
        Some(r) => Some(seq![first] + r),
        None => None,
    }
}

/// The chunks that `bytes` holds behind the signature. `None` where a chunk
/// is cut short, declares a length beyond what the format allows, or carries
/// a check value other than the one computed from its type code and payload.
pub open spec fn decode_chunks(bytes: Seq<u8>) -> Option<Seq<ChunkView>>
    decreases bytes.len(),
{
    if bytes.len() == 0 {
        Some(Seq::empty())
    } else if bytes.len() < 12 {
        None
    } else {
        let n = rd32(bytes, 0, false);
        if n > MAX_CHUNK || bytes.len() < 12 + n {
            None
        } else {
            let c = ChunkView { type_code: bytes.subrange(4, 8), payload: bytes.subrange(8, 8 + n) };
            if rd32(bytes, 8 + n, false) != c.checksum() {
                None
            } else {
                prepend(c, decode_chunks(bytes.skip(12 + n)))
            }
        }
    }
}

/// The chunks of a whole buffer, or `None` if it is not a valid container.
pub open spec fn decode(bytes: Seq<u8>) -> Option<Seq<ChunkView>> {
    if bytes.len() >= 8 && bytes.subrange(0, 8) == signature() {
        decode_chunks(bytes.skip(8))
    } else {
        None
    }
}

/// The chunks so far, followed by what the rest of the buffer decodes to.
pub open spec fn glue(done: Seq<ChunkView>, rest: Option<Seq<ChunkView>>) -> Option<Seq<ChunkView>> {
    match rest {
        Some(r) => Some(done + r),
        None => None,
    }
}

fn starts_with_signature(bytes: &[u8]) -> (r: bool)
    ensures
        r == (bytes@.len() >= 8 && bytes@.subrange(0, 8) == signature()),
{
    if bytes.len() < 8 {
        return false;
    }
    let r = bytes[0] == 0x89 && bytes[1] == 0x50 && bytes[2] == 0x4E && bytes[3] == 0x47 && bytes[4]
        == 0x0D && bytes[5] == 0x0A && bytes[6] == 0x1A && bytes[7] == 0x0A;
    proof {
        let head = bytes@.subrange(0, 8);
        if r {
            assert(head =~= signature());
        } else {
            assert(head[0] == bytes[0] && head[1] == bytes[1] && head[2] == bytes[2] && head[3]
                == bytes[3]);
            assert(head[4] == bytes[4] && head[5] == bytes[5] && head[6] == bytes[6] && head[7]
                == bytes[7]);
        }
    }
    r
}

/// Splits a buffer into its chunks.
///
/// Succeeds exactly on the buffers that `decode` accepts: those that start
/// with the signature and consist of whole chunks, each with the check value
/// that its type code and payload give.
pub fn parse(bytes: &[u8]) -> (r: Result<Vec<Chunk>, InjectError>)
    ensures
        match r {
            Ok(chunks) => decode(bytes@) == Some(views(chunks@)),
            Err(e) => e == InjectError::FormatError && decode(bytes@) is None,
        },
{
    if !starts_with_signature(bytes) {
        return Err(InjectError::FormatError);
    }
    let n = bytes.len();
    let mut out: Vec<Chunk> = Vec::new();
    let mut pos: usize = 8;
    proof {
        assert(views(out@) =~= Seq::<ChunkView>::empty());
        match decode_chunks(bytes@.skip(8)) {
            Some(r) => {
                assert(views(out@) + r =~= r);
            },
            None => {},
        }
    }
    while pos < n
        invariant
            n == bytes@.len(),
            8 <= pos <= n,
            decode(bytes@) == glue(views(out@), decode_chunks(bytes@.skip(pos as int))),
        decreases n - pos,
    {
        let ghost rest = bytes@.skip(pos as int);
        let ghost done = views(out@);
        if n - pos < 12 {
            return Err(InjectError::FormatError);
        }
        let len = read32(bytes, pos, false);
        assert(len == rd32(rest, 0, false));
        if len > 0x7FFFFFFF || (n - pos - 12) < len as usize {
            return Err(InjectError::FormatError);
        }
        let len: usize = len as usize;
        let type_code: [u8; 4] = [bytes[pos + 4], bytes[pos + 5], bytes[pos + 6], bytes[pos + 7]];
        assert(type_code@ =~= rest.subrange(4, 8));
        let stored = read32(bytes, pos + 8 + len, false);
        assert(stored == rd32(rest, 8 + len, false));
        let computed = checksum(type_code.as_slice(), bytes, pos + 8, pos + 8 + len);
        assert(bytes@.subrange(pos + 8, pos + 8 + len) =~= rest.subrange(8, 8 + len));
        if stored != computed {
            return Err(InjectError::FormatError);
        }
        let payload = copy_range(bytes, pos + 8, pos + 8 + len);
        let ghost c = ChunkView { type_code: rest.subrange(4, 8), payload: rest.subrange(8, 8 + len) };
        out.push(Chunk { type_code, payload });
        pos += 12 + len;
        proof {
            assert(views(out@) =~= done.push(c));
            assert(rest.skip(12 + len) =~= bytes@.skip(pos as int));
            lemma_glue_step(done, c, decode_chunks(rest.skip(12 + len)));
        }
    }
    assert(decode_chunks(bytes@.skip(pos as int)) == Some(Seq::<ChunkView>::empty()));
    assert(views(out@) + Seq::<ChunkView>::empty() =~= views(out@));
    Ok(out)
}

proof fn lemma_glue_step(done: Seq<ChunkView>, next: ChunkView, rest: Option<Seq<ChunkView>>)
    ensures
        glue(done, prepend(next, rest)) == glue(done.push(next), rest),
{
    match rest {
        Some(r) => {
            assert(done + (seq![next] + r) =~= done.push(next) + r);
        },
        None => {},
    }
}

/// Writes the signature and the chunks out, each with its length field and
/// its check value computed anew.
pub fn serialize(chunks: &Vec<Chunk>) -> (bytes: Vec<u8>)
    ensures
        bytes@ == encode_all(views(chunks@)),
{
    let mut out: Vec<u8> = Vec::new();
    out.push(0x89);
    out.push(0x50);
    out.push(0x4E);
    out.push(0x47);
    out.push(0x0D);
    out.push(0x0A);
    out.push(0x1A);
    out.push(0x0A);
    assert(out@ =~= signature());
    let mut i: usize = 0;
    assert(views(chunks@).take(0) =~= Seq::<ChunkView>::empty());
    assert(out@ =~= signature() + encode_chunks(views(chunks@).take(0)));
    while i < chunks.len()
        invariant
            i <= chunks.len(),
            out@ == signature() + encode_chunks(views(chunks@).take(i as int)),
        decreases chunks.len() - i,
    {
        let chunk = &chunks[i];
        let ghost before = out@;
        let payload = chunk.payload();
        push32(&mut out, payload.len() as u32, false);
        append_all(&mut out, chunk.type_code().as_slice());
        append_all(&mut out, payload.as_slice());
        push32(&mut out, chunk.checksum(), false);
        assert(out@ =~= before + chunk@.encoding());
        proof {
            let all = views(chunks@);
            assert(all.take(i + 1) =~= all.take(i as int) + seq![chunk@]);
            lemma_encode_chunks_concat(all.take(i as int), seq![chunk@]);
            lemma_encode_chunks_one(chunk@);
            assert(out@ =~= signature() + encode_chunks(all.take(i + 1)));
        }
        i += 1;
    }
    assert(views(chunks@).take(chunks@.len() as int) =~= views(chunks@));
    out
}

/// A run of one chunk encodes as that chunk.
pub proof fn lemma_encode_chunks_one(chunk: ChunkView)
    ensures
        encode_chunks(seq![chunk]) == chunk.encoding(),
{
    let s = seq![chunk];
    assert(s.drop_first() =~= Seq::<ChunkView>::empty());
    assert(encode_chunks(s.drop_first()) =~= Seq::<u8>::empty());
    assert(encode_chunks(s) =~= chunk.encoding());
}

/// Two runs written one after the other encode as the two encodings, one
/// after the other.
pub proof fn lemma_encode_chunks_concat(a: Seq<ChunkView>, b: Seq<ChunkView>)
    ensures
        encode_chunks(a + b) == encode_chunks(a) + encode_chunks(b),
    decreases a.len(),
{
    if a.len() == 0 {
        assert(a + b =~= b);
        assert(encode_chunks(a) + encode_chunks(b) =~= encode_chunks(b));
    } else {
        assert((a + b).drop_first() =~= a.drop_first() + b);
        lemma_encode_chunks_concat(a.drop_first(), b);
        assert(encode_chunks(a + b) =~= encode_chunks(a) + encode_chunks(b));
    }
}


/// Whether every chunk of the run can be written.
pub open spec fn all_wf(chunks: Seq<ChunkView>) -> bool {
    forall|i: int| 0 <= i < chunks.len() ==> (#[trigger] chunks[i]).wf()
}

/// What `decode_chunks` accepts can be written, and writing it out gives the
/// bytes back.
pub proof fn lemma_decode_chunks_inverts(bytes: Seq<u8>)
    ensures
        decode_chunks(bytes) matches Some(chunks) ==> all_wf(chunks) && encode_chunks(chunks)
            == bytes,
    decreases bytes.len(),
{
    if bytes.len() == 0 {
        assert(encode_chunks(Seq::<ChunkView>::empty()) =~= bytes);
    } else if bytes.len() >= 12 {
        let n = rd32(bytes, 0, false);
        if n <= MAX_CHUNK && bytes.len() >= 12 + n {
            let c = ChunkView { type_code: bytes.subrange(4, 8), payload: bytes.subrange(8, 8 + n) };
            let rest = bytes.skip(12 + n);
            if rd32(bytes, 8 + n, false) == c.checksum() {
                lemma_decode_chunks_inverts(rest);
                if let Some(r) = decode_chunks(rest) {
                    let s = seq![c] + r;
                    assert(s.drop_first() =~= r);
                    lemma_write_back(bytes, 0, false);
                    lemma_write_back(bytes, 8 + n, false);
                    assert(c.encoding() =~= bytes.subrange(0, 12 + n));
                    assert(bytes.subrange(0, 12 + n) + rest =~= bytes);
                    assert forall|i: int| 0 <= i < s.len() implies (#[trigger] s[i]).wf() by {
                        if i > 0 {
                            assert(s[i] == r[i - 1]);
                        }
                    }
                }
            }
        }
    }
}

/// Round trip: a buffer that parses is exactly the serialization of its
/// chunks.
pub proof fn lemma_serialize_inverts_parse(bytes: Seq<u8>)
    ensures
        decode(bytes) matches Some(chunks) ==> all_wf(chunks) && encode_all(chunks) == bytes,
{
    if bytes.len() >= 8 && bytes.subrange(0, 8) == signature() {
        lemma_decode_chunks_inverts(bytes.skip(8));
        assert(bytes.subrange(0, 8) + bytes.skip(8) =~= bytes);
    }
}

/// How a chunk reads back from the front of a buffer.
pub proof fn lemma_chunk_prefix(first: ChunkView, rest: Seq<u8>)
    requires
        first.wf(),
    ensures
        ({
            let bytes = first.encoding() + rest;
            let n = rd32(bytes, 0, false);
            &&& first.encoding().len() == 12 + first.payload.len()
            &&& n == first.payload.len()
            &&& bytes.subrange(4, 8) == first.type_code
            &&& bytes.subrange(8, 8 + n) == first.payload
            &&& rd32(bytes, 8 + n, false) == first.checksum()
            &&& bytes.skip(12 + n) == rest
        }),
{
    let bytes = first.encoding() + rest;
    let n = first.payload.len() as int;
    let head = enc32(n, false);
    let tail = enc32(first.checksum() as int, false);
    lemma_read_back(n, false);
    lemma_read_back(first.checksum() as int, false);
    assert(bytes[0] == head[0] && bytes[1] == head[1] && bytes[2] == head[2] && bytes[3]
        == head[3]);
    assert(rd32(bytes, 0, false) == n);
    assert(bytes.subrange(4, 8) =~= first.type_code);
    assert(bytes.subrange(8, 8 + n) =~= first.payload);
    assert(bytes[8 + n] == tail[0] && bytes[8 + n + 1] == tail[1] && bytes[8 + n + 2] == tail[2]
        && bytes[8 + n + 3] == tail[3]);
    assert(bytes.skip(12 + n) =~= rest);
}

/// Writing chunks out and decoding the bytes gives the chunks back.
pub proof fn lemma_encode_chunks_inverts(chunks: Seq<ChunkView>)
    requires
        all_wf(chunks),
    ensures
        decode_chunks(encode_chunks(chunks)) == Some(chunks),
    decreases chunks.len(),
{
    if chunks.len() == 0 {
    } else {
        let first = chunks[0];
        let tail = chunks.drop_first();
        assert(first.wf());
        assert forall|i: int| 0 <= i < tail.len() implies (#[trigger] tail[i]).wf() by {
            assert(tail[i] == chunks[i + 1]);
        }
        lemma_encode_chunks_inverts(tail);
        lemma_chunk_prefix(first, encode_chunks(tail));
        assert(chunks =~= seq![first] + tail);
        let bytes = encode_chunks(chunks);
        let n = rd32(bytes, 0, false);
        assert(first == ChunkView {
            type_code: bytes.subrange(4, 8),
            payload: bytes.subrange(8, 8 + n),
        });
    }
}

/// Converse round trip: the serialization of chunks parses, and gives the
/// same chunks back.
pub proof fn lemma_parse_inverts_serialize(chunks: Seq<ChunkView>)
    requires
        all_wf(chunks),
    ensures
        decode(encode_all(chunks)) == Some(chunks),
{
    let bytes = encode_all(chunks);
    lemma_encode_chunks_inverts(chunks);
    assert(bytes.subrange(0, 8) =~= signature());
    assert(bytes.skip(8) =~= encode_chunks(chunks));
}

/// Where the encoding of chunk `i` starts in the serialization of the run.
pub open spec fn offset_of(chunks: Seq<ChunkView>, i: int) -> int {
    8 + encode_chunks(chunks.take(i)).len() as int
}

/// Length rule: in the serialization, each chunk stands at its offset, its
/// length field holds the length of its payload, and its check value is the
/// one computed from its type code and payload.
pub proof fn lemma_length_fields(chunks: Seq<ChunkView>, i: int)
    requires
        0 <= i < chunks.len(),
        chunks[i].wf(),
    ensures
        ({
            let bytes = encode_all(chunks);
            let at = offset_of(chunks, i);
            let c = chunks[i];
            &&& at + 12 + c.payload.len() <= bytes.len()
            &&& bytes.subrange(at, at + 12 + c.payload.len()) == c.encoding()
            &&& rd32(bytes, at, false) == c.payload.len()
            &&& bytes.subrange(at + 4, at + 8) == c.type_code
            &&& bytes.subrange(at + 8, at + 8 + c.payload.len()) == c.payload
            &&& rd32(bytes, at + 8 + c.payload.len(), false) == c.checksum()
        }),
{
    let bytes = encode_all(chunks);
    let c = chunks[i];
    let before = chunks.take(i);
    let after = chunks.skip(i + 1);
    let at = offset_of(chunks, i);
    let n = c.payload.len() as int;
    assert(chunks =~= before + seq![c] + after);
    lemma_encode_chunks_concat(before + seq![c], after);
    lemma_encode_chunks_concat(before, seq![c]);
    lemma_encode_chunks_one(c);
    lemma_chunk_prefix(c, encode_chunks(after));
    let tail = c.encoding() + encode_chunks(after);
    assert(bytes =~= signature() + encode_chunks(before) + tail);
    assert(bytes.skip(at) =~= tail);
    assert(bytes.subrange(at, at + 12 + n) =~= c.encoding());
    assert(bytes.subrange(at + 4, at + 8) =~= tail.subrange(4, 8));
    assert(bytes.subrange(at + 8, at + 8 + n) =~= tail.subrange(8, 8 + n));
    assert(bytes[at] == tail[0] && bytes[at + 1] == tail[1] && bytes[at + 2] == tail[2] && bytes[at
        + 3] == tail[3]);
    assert(bytes[at + 8 + n] == tail[8 + n] && bytes[at + 8 + n + 1] == tail[8 + n + 1] && bytes[at
        + 8 + n + 2] == tail[8 + n + 2] && bytes[at + 8 + n + 3] == tail[8 + n + 3]);
}


/// The encoding of a run is the encoding of its beginning, of its middle and
/// of its end, one after the other.
pub proof fn lemma_encode_chunks_split(chunks: Seq<ChunkView>, from: int, to: int)
    requires
        0 <= from <= to <= chunks.len(),
    ensures
        encode_chunks(chunks) == encode_chunks(chunks.take(from)) + encode_chunks(
            chunks.subrange(from, to),
        ) + encode_chunks(chunks.skip(to)),
{
    let a = chunks.take(from);
    let b = chunks.subrange(from, to);
    let c = chunks.skip(to);
    assert(chunks =~= a + b + c);
    lemma_encode_chunks_concat(a + b, c);
    lemma_encode_chunks_concat(a, b);
}

} // verus!
