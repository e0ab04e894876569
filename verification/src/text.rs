//! The text chunk that carries the dates in the checksum-protected container
//! kind.
//!
//! Both dates stand in one text chunk as key and value, each key followed by a
//! null byte: `DateTimeOriginal`, the first date, a null byte,
//! `DateTimeDigitized`, the second date. The chunk replaces the first chunk of
//! that form, or is put right behind the header chunk where there is none.

use vstd::prelude::*;
use crate::bytes::{append_all, starts_with};
use crate::chunk::{
    all_wf,
    encode_chunks,
    lemma_encode_chunks_one,
    lemma_encode_chunks_split,
    views,
    Chunk,
    ChunkView,
};
use crate::error::InjectError;
use crate::timestamp::NormalizedTimestamp;

verus! {

/// Length of a rendered date.
pub const TEXT_LEN: usize = 19;

/// Type code of a text chunk: `tEXt`.
pub open spec fn text_type() -> Seq<u8> {
    seq![0x74u8, 0x45u8, 0x58u8, 0x74u8]
}

/// Type code of the header chunk: `IHDR`.
pub open spec fn header_type() -> Seq<u8> {
    seq![0x49u8, 0x48u8, 0x44u8, 0x52u8]
}

/// The key of the first date and its null byte: `DateTimeOriginal\0`.
#[verifier::opaque]
pub open spec fn original_key() -> Seq<u8> {
    seq![
        0x44u8, 0x61u8, 0x74u8, 0x65u8, 0x54u8, 0x69u8, 0x6Du8, 0x65u8, 0x4Fu8, 0x72u8, 0x69u8,
        0x67u8, 0x69u8, 0x6Eu8, 0x61u8, 0x6Cu8, 0x00u8,
    ]
}

/// The key of the second date between two null bytes:
/// `\0DateTimeDigitized\0`.
#[verifier::opaque]
pub open spec fn digitized_key() -> Seq<u8> {
    seq![
        0x00u8, 0x44u8, 0x61u8, 0x74u8, 0x65u8, 0x54u8, 0x69u8, 0x6Du8, 0x65u8, 0x44u8, 0x69u8,
        0x67u8, 0x69u8, 0x74u8, 0x69u8, 0x7Au8, 0x65u8, 0x64u8, 0x00u8,
    ]
}

/// The payload of the date chunk.
pub open spec fn date_text(taken: Seq<u8>, created: Seq<u8>) -> Seq<u8> {
    original_key() + taken + digitized_key() + created
}

/// The chunk that carries the two dates.
pub open spec fn date_chunk(taken: Seq<u8>, created: Seq<u8>) -> ChunkView {
    ChunkView { type_code: text_type(), payload: date_text(taken, created) }
}

/// Whether a chunk is a text chunk that starts with the key of the first
/// date.
pub open spec fn is_date_chunk(c: ChunkView) -> bool {
    &&& c.type_code == text_type()
    &&& c.payload.len() >= 17
    &&& c.payload.subrange(0, 17) == original_key()
}

/// The index of the first date chunk from `from` on, or the number of chunks
/// if there is none.
pub open spec fn first_date_chunk(chunks: Seq<ChunkView>, from: int) -> int
    decreases chunks.len() - from,
{
    if from >= chunks.len() {
        chunks.len() as int
    } else if is_date_chunk(chunks[from]) {
        from
    } else {
        first_date_chunk(chunks, from + 1)
    }
}

/// The chunks with both dates set.
///
/// The first date chunk is replaced by the new one; where there is none, the
/// new one is put behind the header chunk. Every other chunk stays as it is,
/// in its place. `FormatError` where the run does not start with the header
/// chunk.
pub open spec fn with_dates(chunks: Seq<ChunkView>, taken: Seq<u8>, created: Seq<u8>) -> Result<
    Seq<ChunkView>,
    InjectError,
> {
    if chunks.len() == 0 || chunks[0].type_code != header_type() {
        Err(InjectError::FormatError)
    } else {
        let k = first_date_chunk(chunks, 0);
        if k < chunks.len() {
            Ok(chunks.update(k, date_chunk(taken, created)))
        } else {
            Ok(chunks.insert(1, date_chunk(taken, created)))
        }
    }
}

fn original_key_bytes() -> (r: Vec<u8>)
    ensures
        r@ == original_key(),
        r@.len() == 17,
{
    let mut k: Vec<u8> = Vec::new();
    k.push(0x44);
    k.push(0x61);
    k.push(0x74);
    k.push(0x65);
    k.push(0x54);
    k.push(0x69);
    k.push(0x6D);
    k.push(0x65);
    k.push(0x4F);
    k.push(0x72);
    k.push(0x69);
    k.push(0x67);
    k.push(0x69);
    k.push(0x6E);
    k.push(0x61);
    k.push(0x6C);
    k.push(0x00);
    reveal(original_key);
    assert(k@ =~= original_key());
    k
}

fn digitized_key_bytes() -> (r: Vec<u8>)
    ensures
        r@ == digitized_key(),
        r@.len() == 19,
{
    let mut k: Vec<u8> = Vec::new();
    k.push(0x00);
    k.push(0x44);
    k.push(0x61);
    k.push(0x74);
    k.push(0x65);
    k.push(0x54);
    k.push(0x69);
    k.push(0x6D);
    k.push(0x65);
    k.push(0x44);
    k.push(0x69);
    k.push(0x67);
    k.push(0x69);
    k.push(0x74);
    k.push(0x69);
    k.push(0x7A);
    k.push(0x65);
    k.push(0x64);
    k.push(0x00);
    reveal(digitized_key);
    assert(k@ =~= digitized_key());
    k
}

/// Whether the type code is that of a text chunk.
fn is_text_type(code: [u8; 4]) -> (r: bool)
    ensures
        r == (code@ == text_type()),
{
    let r = code[0] == 0x74 && code[1] == 0x45 && code[2] == 0x58 && code[3] == 0x74;
    proof {
        if r {
            assert(code@ =~= text_type());
        }
    }
    r
}

/// Whether the type code is that of the header chunk.
fn is_header_type(code: [u8; 4]) -> (r: bool)
    ensures
        r == (code@ == header_type()),
{
    let r = code[0] == 0x49 && code[1] == 0x48 && code[2] == 0x44 && code[3] == 0x52;
    proof {
        if r {
            assert(code@ =~= header_type());
        }
    }
    r
}

/// Whether the chunk is a date chunk.
pub fn carries_dates(chunk: &Chunk) -> (r: bool)
    ensures
        r == is_date_chunk(chunk@),
{
    if !is_text_type(chunk.type_code()) {
        return false;
    }
    let key = original_key_bytes();
    starts_with(chunk.payload().as_slice(), key.as_slice())
}

/// Looks for the first date chunk.
pub fn find_date_chunk(chunks: &Vec<Chunk>) -> (r: usize)
    ensures
        r == first_date_chunk(views(chunks@), 0),
        r <= chunks@.len(),
{
    let mut i: usize = 0;
    while i < chunks.len()
        invariant
            i <= chunks@.len(),
            first_date_chunk(views(chunks@), 0) == first_date_chunk(views(chunks@), i as int),
        decreases chunks.len() - i,
    {
        if carries_dates(&chunks[i]) {
            return i;
        }
        i += 1;
    }
    i
}

/// The chunk that carries the two dates.
pub fn make_date_chunk(taken: &NormalizedTimestamp, created: &NormalizedTimestamp) -> (r: Chunk)
    ensures
        r@ == date_chunk(taken@.rendered(), created@.rendered()),
{
    let mut payload = original_key_bytes();
    append_all(&mut payload, taken.render().as_slice());
    append_all(&mut payload, digitized_key_bytes().as_slice());
    append_all(&mut payload, created.render().as_slice());
    let code: [u8; 4] = [0x74, 0x45, 0x58, 0x74];
    assert(code@ =~= text_type());
    Chunk::new(code, payload).unwrap()
}

/// A copy of the chunks.
fn copy_chunks(chunks: &Vec<Chunk>) -> (r: Vec<Chunk>)
    ensures
        views(r@) == views(chunks@),
{
    let mut out: Vec<Chunk> = Vec::new();
    let mut i: usize = 0;
    while i < chunks.len()
        invariant
            i <= chunks@.len(),
            views(out@) == views(chunks@).take(i as int),
        decreases chunks.len() - i,
    {
        let c = chunks[i].clone();
        assert(c@ == chunks@[i as int]@);
        let ghost before = out@;
        out.push(c);
        assert(views(out@) =~= views(before).push(c@));
        i += 1;
        assert(views(out@) =~= views(chunks@).take(i as int));
    }
    assert(views(chunks@).take(chunks@.len() as int) =~= views(chunks@));
    out
}

/// Sets both dates in a container's chunks: replaces the date chunk, or adds
/// one behind the header chunk.
pub fn set_dates(
    chunks: &Vec<Chunk>,
    taken: &NormalizedTimestamp,
    created: &NormalizedTimestamp,
) -> (r: Result<Vec<Chunk>, InjectError>)
    ensures
        match r {
            Ok(out) => with_dates(views(chunks@), taken@.rendered(), created@.rendered()) == Ok::<
                Seq<ChunkView>,
                InjectError,
            >(views(out@)),
            Err(e) => with_dates(views(chunks@), taken@.rendered(), created@.rendered()) == Err::<
                Seq<ChunkView>,
                InjectError,
            >(e),
        },
{
    if chunks.len() == 0 || !is_header_type(chunks[0].type_code()) {
        return Err(InjectError::FormatError);
    }
    let k = find_date_chunk(chunks);
    let fresh = make_date_chunk(taken, created);
    let mut out = copy_chunks(chunks);
    let ghost before = out@;
    if k < chunks.len() {
        out.set(k, fresh);
        assert(views(out@) =~= views(before).update(k as int, fresh@));
    } else {
        out.insert(1, fresh);
        assert(views(out@) =~= views(before).insert(1, fresh@));
    }
    Ok(out)
}

/// What `first_date_chunk` returns is the first date chunk from `from` on.
pub proof fn lemma_first_date_chunk(chunks: Seq<ChunkView>, from: int)
    requires
        0 <= from <= chunks.len(),
    ensures
        from <= first_date_chunk(chunks, from) <= chunks.len(),
        first_date_chunk(chunks, from) < chunks.len() ==> is_date_chunk(
            chunks[first_date_chunk(chunks, from)],
        ),
        forall|j: int|
            from <= j < first_date_chunk(chunks, from) ==> !is_date_chunk(#[trigger] chunks[j]),
    decreases chunks.len() - from,
{
    if from < chunks.len() && !is_date_chunk(chunks[from]) {
        lemma_first_date_chunk(chunks, from + 1);
    }
}

/// The first date chunk is at `k` if the chunk there is one and none before
/// it is.
pub proof fn lemma_first_date_chunk_is(chunks: Seq<ChunkView>, from: int, k: int)
    requires
        0 <= from <= k < chunks.len(),
        is_date_chunk(chunks[k]),
        forall|j: int| from <= j < k ==> !is_date_chunk(#[trigger] chunks[j]),
    ensures
        first_date_chunk(chunks, from) == k,
    decreases k - from,
{
    if from < k {
        lemma_first_date_chunk_is(chunks, from + 1, k);
    }
}

/// The new chunk is a date chunk that can be written, and it is no header
/// chunk.
pub proof fn lemma_date_chunk(taken: Seq<u8>, created: Seq<u8>)
    requires
        taken.len() == TEXT_LEN,
        created.len() == TEXT_LEN,
    ensures
        date_chunk(taken, created).wf(),
        is_date_chunk(date_chunk(taken, created)),
        date_chunk(taken, created).payload.len() == 74,
        text_type() != header_type(),
{
    let c = date_chunk(taken, created);
    reveal(original_key);
    reveal(digitized_key);
    assert(original_key().len() == 17 && digitized_key().len() == 19);
    assert(c.payload.subrange(0, 17) =~= original_key());
    assert(text_type()[0] != header_type()[0]);
}

/// Non-corruption: setting the dates changes the date chunk alone, or adds
/// one behind the header chunk; every other chunk stays as it is and where it
/// is relative to the others.
pub proof fn lemma_with_dates_keeps_others(chunks: Seq<ChunkView>, taken: Seq<u8>, created: Seq<u8>)
    requires
        taken.len() == TEXT_LEN,
        created.len() == TEXT_LEN,
        with_dates(chunks, taken, created) is Ok,
    ensures
        ({
            let out = with_dates(chunks, taken, created)->Ok_0;
            let k = first_date_chunk(chunks, 0);
            if k < chunks.len() {
                &&& 1 <= k
                &&& out.len() == chunks.len()
                &&& out[k] == date_chunk(taken, created)
                &&& forall|i: int| 0 <= i < chunks.len() && i != k ==> out[i] == chunks[i]
            } else {
                &&& out.len() == chunks.len() + 1
                &&& out[0] == chunks[0]
                &&& out[1] == date_chunk(taken, created)
                &&& forall|i: int| 1 <= i < chunks.len() ==> out[i + 1] == chunks[i]
            }
        }),
{
    lemma_first_date_chunk(chunks, 0);
    lemma_date_chunk(taken, created);
}

/// Idempotence: setting the same dates again changes nothing.
pub proof fn lemma_with_dates_idempotent(chunks: Seq<ChunkView>, taken: Seq<u8>, created: Seq<u8>)
    requires
        taken.len() == TEXT_LEN,
        created.len() == TEXT_LEN,
        with_dates(chunks, taken, created) is Ok,
    ensures
        with_dates(with_dates(chunks, taken, created)->Ok_0, taken, created) == with_dates(
            chunks,
            taken,
            created,
        ),
{
    let out = with_dates(chunks, taken, created)->Ok_0;
    let k = first_date_chunk(chunks, 0);
    lemma_with_dates_keeps_others(chunks, taken, created);
    lemma_first_date_chunk(chunks, 0);
    lemma_date_chunk(taken, created);
    if k < chunks.len() {
        lemma_first_date_chunk_is(out, 0, k);
        assert(out.update(k, date_chunk(taken, created)) =~= out);
    } else {
        assert(!is_date_chunk(out[0]));
        lemma_first_date_chunk_is(out, 0, 1);
        assert(out.update(1, date_chunk(taken, created)) =~= out);
    }
}

/// Setting the dates in chunks that can be written gives chunks that can be
/// written.
pub proof fn lemma_with_dates_keeps_wf(chunks: Seq<ChunkView>, taken: Seq<u8>, created: Seq<u8>)
    requires
        taken.len() == TEXT_LEN,
        created.len() == TEXT_LEN,
        all_wf(chunks),
        with_dates(chunks, taken, created) is Ok,
    ensures
        all_wf(with_dates(chunks, taken, created)->Ok_0),
{
    let out = with_dates(chunks, taken, created)->Ok_0;
    let k = first_date_chunk(chunks, 0);
    lemma_with_dates_keeps_others(chunks, taken, created);
    lemma_date_chunk(taken, created);
    assert forall|i: int| 0 <= i < out.len() implies (#[trigger] out[i]).wf() by {
        if k < chunks.len() {
            if i != k {
                assert(out[i] == chunks[i]);
            }
        } else {
            if i == 0 {
                assert(out[0] == chunks[0]);
            } else if i > 1 {
                assert(out[i] == chunks[i - 1]);
            }
        }
    }
}


/// Where the new chunk stands in the result: at the first date chunk, or
/// behind the header chunk where there is none.
pub open spec fn date_index(chunks: Seq<ChunkView>) -> int {
    if first_date_chunk(chunks, 0) < chunks.len() {
        first_date_chunk(chunks, 0)
    } else {
        1
    }
}

/// The chunk that the new one replaces, as a run: the first date chunk, or
/// nothing where there is none.
pub open spec fn replaced(chunks: Seq<ChunkView>) -> Seq<ChunkView> {
    if first_date_chunk(chunks, 0) < chunks.len() {
        seq![chunks[first_date_chunk(chunks, 0)]]
    } else {
        Seq::empty()
    }
}

/// The encodings before and after the dates are set differ in one span
/// alone: what stands for the replaced chunk becomes what stands for the new
/// one.
pub proof fn lemma_with_dates_splices(chunks: Seq<ChunkView>, taken: Seq<u8>, created: Seq<u8>)
    requires
        taken.len() == TEXT_LEN,
        created.len() == TEXT_LEN,
        with_dates(chunks, taken, created) is Ok,
    ensures
        ({
            let after = with_dates(chunks, taken, created)->Ok_0;
            let k = date_index(chunks);
            let head = encode_chunks(chunks.take(k));
            let tail = encode_chunks(chunks.skip(k + replaced(chunks).len()));
            &&& 1 <= k <= chunks.len()
            &&& encode_chunks(chunks) == head + encode_chunks(replaced(chunks)) + tail
            &&& encode_chunks(after) == head + date_chunk(taken, created).encoding() + tail
        }),
{
    let after = with_dates(chunks, taken, created)->Ok_0;
    let k = date_index(chunks);
    let n = replaced(chunks).len() as int;
    lemma_first_date_chunk(chunks, 0);
    lemma_with_dates_keeps_others(chunks, taken, created);
    lemma_encode_chunks_split(chunks, k, k + n);
    lemma_encode_chunks_split(after, k, k + 1);
    assert(chunks.subrange(k, k + n) =~= replaced(chunks));
    assert(after.take(k) =~= chunks.take(k));
    assert(after.skip(k + 1) =~= chunks.skip(k + n));
    assert(after.subrange(k, k + 1) =~= seq![date_chunk(taken, created)]);
    lemma_encode_chunks_one(date_chunk(taken, created));
}

} // verus!
