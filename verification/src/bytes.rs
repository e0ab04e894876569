//! Small verified helpers on byte buffers: copying, and numbers of two and
//! four bytes in either byte order.

use vstd::prelude::*;

verus! {

/// The two-byte number at `pos`.
pub open spec fn rd16(t: Seq<u8>, pos: int, little_endian: bool) -> int {
    if little_endian {
        t[pos] as int + 256 * (t[pos + 1] as int)
    } else {
        256 * (t[pos] as int) + t[pos + 1] as int
    }
}

/// The four-byte number at `pos`.
pub open spec fn rd32(t: Seq<u8>, pos: int, little_endian: bool) -> int {
    if little_endian {
        t[pos] as int + 256 * (t[pos + 1] as int) + 65536 * (t[pos + 2] as int) + 16777216 * (t[pos
            + 3] as int)
    } else {
        16777216 * (t[pos] as int) + 65536 * (t[pos + 1] as int) + 256 * (t[pos + 2] as int) + t[pos
            + 3] as int
    }
}

/// The two bytes that stand for `v`.
pub open spec fn enc16(v: int, little_endian: bool) -> Seq<u8> {
    if little_endian {
        seq![(v % 256) as u8, (v / 256) as u8]
    } else {
        seq![(v / 256) as u8, (v % 256) as u8]
    }
}

/// The four bytes that stand for `v`.
pub open spec fn enc32(v: int, little_endian: bool) -> Seq<u8> {
    if little_endian {
        seq![
            (v % 256) as u8,
            (v / 256 % 256) as u8,
            (v / 65536 % 256) as u8,
            (v / 16777216) as u8,
        ]
    } else {
        seq![
            (v / 16777216) as u8,
            (v / 65536 % 256) as u8,
            (v / 256 % 256) as u8,
            (v % 256) as u8,
        ]
    }
}

/// `t` with `data` written over the bytes from `pos` on.
pub open spec fn put(t: Seq<u8>, pos: int, data: Seq<u8>) -> Seq<u8> {
    Seq::new(
        t.len(),
        |i: int|
            if pos <= i < pos + data.len() {
                data[i - pos]
            } else {
                t[i]
            },
    )
}

/// `n` zero bytes.
pub open spec fn zeros(n: int) -> Seq<u8> {
    Seq::new(n as nat, |i: int| 0u8)
}

/// Appends `src[from..to]` to `out`.
pub fn append_range(out: &mut Vec<u8>, src: &[u8], from: usize, to: usize)
    requires
        from <= to <= src@.len(),
    ensures
        final(out)@ == old(out)@ + src@.subrange(from as int, to as int),
{
    let mut i: usize = from;
    while i < to
        invariant
            from <= i <= to <= src@.len(),
            out@ == old(out)@ + src@.subrange(from as int, i as int),
        decreases to - i,
    {
        out.push(src[i]);
        i += 1;
        assert(out@ =~= old(out)@ + src@.subrange(from as int, i as int));
    }
}

/// Appends all of `src` to `out`.
pub fn append_all(out: &mut Vec<u8>, src: &[u8])
    ensures
        final(out)@ == old(out)@ + src@,
{
    append_range(out, src, 0, src.len());
    assert(src@.subrange(0, src@.len() as int) =~= src@);
}

/// A fresh vector that holds `src[from..to]`.
pub fn copy_range(src: &[u8], from: usize, to: usize) -> (r: Vec<u8>)
    requires
        from <= to <= src@.len(),
    ensures
        r@ == src@.subrange(from as int, to as int),
{
    let mut out: Vec<u8> = Vec::new();
    append_range(&mut out, src, from, to);
    assert(out@ =~= src@.subrange(from as int, to as int));
    out
}

/// A fresh vector with the same bytes.
pub fn copy_of(src: &[u8]) -> (r: Vec<u8>)
    ensures
        r@ == src@,
{
    let out = copy_range(src, 0, src.len());
    assert(src@.subrange(0, src@.len() as int) =~= src@);
    out
}

/// Whether `data` begins with `prefix`.
pub fn starts_with(data: &[u8], prefix: &[u8]) -> (r: bool)
    ensures
        r == (data@.len() >= prefix@.len() && data@.subrange(0, prefix@.len() as int) == prefix@),
{
    if data.len() < prefix.len() {
        return false;
    }
    let mut i: usize = 0;
    while i < prefix.len()
        invariant
            i <= prefix@.len() <= data@.len(),
            data@.subrange(0, i as int) == prefix@.subrange(0, i as int),
        decreases prefix.len() - i,
    {
        if data[i] != prefix[i] {
            assert(data@.subrange(0, prefix@.len() as int)[i as int] != prefix@[i as int]);
            return false;
        }
        i += 1;
        assert(data@.subrange(0, i as int) =~= data@.subrange(0, i - 1).push(data@[i - 1]));
        assert(prefix@.subrange(0, i as int) =~= prefix@.subrange(0, i - 1).push(prefix@[i - 1]));
    }
    assert(prefix@.subrange(0, prefix@.len() as int) =~= prefix@);
    true
}

/// Reads the two-byte number at `pos`.
pub fn read16(t: &[u8], pos: usize, little_endian: bool) -> (r: u16)
    requires
        pos + 2 <= t@.len(),
    ensures
        r == rd16(t@, pos as int, little_endian),
{
    let a: u16 = t[pos] as u16;
    let b: u16 = t[pos + 1] as u16;
    if little_endian {
        a + 256 * b
    } else {
        256 * a + b
    }
}

/// Reads the four-byte number at `pos`.
pub fn read32(t: &[u8], pos: usize, little_endian: bool) -> (r: u32)
    requires
        pos + 4 <= t@.len(),
    ensures
        r == rd32(t@, pos as int, little_endian),
{
    let a: u32 = t[pos] as u32;
    let b: u32 = t[pos + 1] as u32;
    let c: u32 = t[pos + 2] as u32;
    let d: u32 = t[pos + 3] as u32;
    if little_endian {
        a + 256 * b + 65536 * c + 16777216 * d
    } else {
        16777216 * a + 65536 * b + 256 * c + d
    }
}

/// Writes `data` over the bytes from `pos` on.
pub fn write_bytes(out: &mut Vec<u8>, pos: usize, data: &[u8])
    requires
        pos + data@.len() <= old(out)@.len(),
    ensures
        final(out)@ == put(old(out)@, pos as int, data@),
{
    let len = out.len();
    let mut i: usize = 0;
    while i < data.len()
        invariant
            i <= data@.len(),
            len == out@.len(),
            pos + data@.len() <= out@.len(),
            out@ == put(old(out)@, pos as int, data@.take(i as int)),
        decreases data.len() - i,
    {
        out.set(pos + i, data[i]);
        i += 1;
        assert(out@ =~= put(old(out)@, pos as int, data@.take(i as int)));
    }
    assert(data@.take(data@.len() as int) =~= data@);
    assert(out@ =~= put(old(out)@, pos as int, data@));
}

/// Writes the two bytes of `v` at `pos`.
pub fn write16(out: &mut Vec<u8>, pos: usize, v: u16, little_endian: bool)
    requires
        pos + 2 <= old(out)@.len(),
    ensures
        final(out)@ == put(old(out)@, pos as int, enc16(v as int, little_endian)),
{
    let len = out.len();
    assert(pos + 2 <= len);
    let lo: u8 = (v % 256) as u8;
    let hi: u8 = (v / 256) as u8;
    if little_endian {
        out.set(pos, lo);
        out.set(pos + 1, hi);
    } else {
        out.set(pos, hi);
        out.set(pos + 1, lo);
    }
    assert(out@ =~= put(old(out)@, pos as int, enc16(v as int, little_endian)));
}

/// Writes the four bytes of `v` at `pos`.
pub fn write32(out: &mut Vec<u8>, pos: usize, v: u32, little_endian: bool)
    requires
        pos + 4 <= old(out)@.len(),
    ensures
        final(out)@ == put(old(out)@, pos as int, enc32(v as int, little_endian)),
{
    let len = out.len();
    assert(pos + 4 <= len);
    let b0: u8 = (v % 256) as u8;
    let b1: u8 = (v / 256 % 256) as u8;
    let b2: u8 = (v / 65536 % 256) as u8;
    let b3: u8 = (v / 16777216) as u8;
    if little_endian {
        out.set(pos, b0);
        out.set(pos + 1, b1);
        out.set(pos + 2, b2);
        out.set(pos + 3, b3);
    } else {
        out.set(pos, b3);
        out.set(pos + 1, b2);
        out.set(pos + 2, b1);
        out.set(pos + 3, b0);
    }
    assert(out@ =~= put(old(out)@, pos as int, enc32(v as int, little_endian)));
}

/// Appends `n` zero bytes.
pub fn push_zeros(out: &mut Vec<u8>, n: usize)
    ensures
        final(out)@ == old(out)@ + zeros(n as int),
{
    let mut i: usize = 0;
    assert(out@ =~= old(out)@ + zeros(0));
    while i < n
        invariant
            i <= n,
            out@ == old(out)@ + zeros(i as int),
        decreases n - i,
    {
        out.push(0u8);
        i += 1;
        assert(out@ =~= old(out)@ + zeros(i as int));
    }
}

/// Appends the two bytes of `v`.
pub fn push16(out: &mut Vec<u8>, v: u16, little_endian: bool)
    ensures
        final(out)@ == old(out)@ + enc16(v as int, little_endian),
{
    let pos = out.len();
    push_zeros(out, 2);
    write16(out, pos, v, little_endian);
    assert(out@ =~= old(out)@ + enc16(v as int, little_endian));
}

/// Appends the four bytes of `v`.
pub fn push32(out: &mut Vec<u8>, v: u32, little_endian: bool)
    ensures
        final(out)@ == old(out)@ + enc32(v as int, little_endian),
{
    let pos = out.len();
    push_zeros(out, 4);
    write32(out, pos, v, little_endian);
    assert(out@ =~= old(out)@ + enc32(v as int, little_endian));
}

/// Numbers read back as they were written.
pub proof fn lemma_read_back(v: int, little_endian: bool)
    ensures
        0 <= v < 65536 ==> rd16(enc16(v, little_endian), 0, little_endian) == v,
        0 <= v < 4294967296 ==> rd32(enc32(v, little_endian), 0, little_endian) == v,
        enc16(v, little_endian).len() == 2,
        enc32(v, little_endian).len() == 4,
{
}

/// The four base-256 digits of a number are its quotients and remainders.
proof fn lemma_digits_256(a: int, b: int, c: int, d: int)
    requires
        0 <= a < 256,
        0 <= b < 256,
        0 <= c < 256,
        0 <= d < 256,
    ensures
        ({
            let v = a + 256 * b + 65536 * c + 16777216 * d;
            &&& 0 <= v < 4294967296
            &&& v % 256 == a
            &&& v / 256 % 256 == b
            &&& v / 65536 % 256 == c
            &&& v / 16777216 == d
        }),
{
    let v = a + 256 * b + 65536 * c + 16777216 * d;
    let q1 = b + 256 * c + 65536 * d;
    let q2 = c + 256 * d;
    assert(v == a + 256 * q1);
    assert(v / 256 == q1 && v % 256 == a);
    assert(q1 == b + 256 * q2);
    assert(q1 % 256 == b);
    assert(v == (a + 256 * b) + 65536 * q2);
    assert(v / 65536 == q2);
    assert(q2 % 256 == c);
    assert(v == (a + 256 * b + 65536 * c) + 16777216 * d);
    assert(v / 16777216 == d);
}

/// Writing a number that was read gives the bytes it was read from.
pub proof fn lemma_write_back(t: Seq<u8>, pos: int, little_endian: bool)
    requires
        0 <= pos,
        pos + 4 <= t.len(),
    ensures
        enc32(rd32(t, pos, little_endian), little_endian) == t.subrange(pos, pos + 4),
        0 <= rd32(t, pos, little_endian) < 4294967296,
{
    let v = rd32(t, pos, little_endian);
    let a = t[pos] as int;
    let b = t[pos + 1] as int;
    let c = t[pos + 2] as int;
    let d = t[pos + 3] as int;
    if little_endian {
        lemma_digits_256(a, b, c, d);
    } else {
        lemma_digits_256(d, c, b, a);
    }
    assert(enc32(v, little_endian) =~= t.subrange(pos, pos + 4));
}

/// Writing over a window what the window holds changes nothing.
pub proof fn lemma_put_same(out: Seq<u8>, pos: int, data: Seq<u8>)
    requires
        0 <= pos,
        pos + data.len() <= out.len(),
        out.subrange(pos, pos + data.len()) == data,
    ensures
        put(out, pos, data) == out,
{
    assert forall|k: int| pos <= k < pos + data.len() implies data[k - pos] == out[k] by {
        assert(out.subrange(pos, pos + data.len())[k - pos] == out[k]);
    }
    assert(put(out, pos, data) =~= out);
}

/// Four writes to windows that do not meet leave each window with what was
/// written to it, and every byte outside them as it was.
pub proof fn lemma_four_writes(
    base: Seq<u8>,
    pos1: int,
    d1: Seq<u8>,
    pos2: int,
    d2: Seq<u8>,
    pos3: int,
    d3: Seq<u8>,
    pos4: int,
    d4: Seq<u8>,
)
    requires
        0 <= pos1 && pos1 + d1.len() <= base.len(),
        0 <= pos2 && pos2 + d2.len() <= base.len(),
        0 <= pos3 && pos3 + d3.len() <= base.len(),
        0 <= pos4 && pos4 + d4.len() <= base.len(),
        pos1 + d1.len() <= pos2 || pos2 + d2.len() <= pos1,
        pos1 + d1.len() <= pos3 || pos3 + d3.len() <= pos1,
        pos1 + d1.len() <= pos4 || pos4 + d4.len() <= pos1,
        pos2 + d2.len() <= pos3 || pos3 + d3.len() <= pos2,
        pos2 + d2.len() <= pos4 || pos4 + d4.len() <= pos2,
        pos3 + d3.len() <= pos4 || pos4 + d4.len() <= pos3,
    ensures
        ({
            let out = put(put(put(put(base, pos1, d1), pos2, d2), pos3, d3), pos4, d4);
            &&& out.len() == base.len()
            &&& out.subrange(pos1, pos1 + d1.len()) == d1
            &&& out.subrange(pos2, pos2 + d2.len()) == d2
            &&& out.subrange(pos3, pos3 + d3.len()) == d3
            &&& out.subrange(pos4, pos4 + d4.len()) == d4
            &&& forall|k: int|
                0 <= k < base.len() && !(pos1 <= k < pos1 + d1.len()) && !(pos2 <= k < pos2 + d2.len())
                    && !(pos3 <= k < pos3 + d3.len()) && !(pos4 <= k < pos4 + d4.len()) ==> #[trigger] out[k]
                    == base[k]
        }),
{
    let x1 = put(base, pos1, d1);
    let x2 = put(x1, pos2, d2);
    let x3 = put(x2, pos3, d3);
    let out = put(x3, pos4, d4);
    assert(x1.subrange(pos1, pos1 + d1.len()) =~= d1);
    assert(x2.subrange(pos1, pos1 + d1.len()) =~= d1);
    assert(x2.subrange(pos2, pos2 + d2.len()) =~= d2);
    assert(x3.subrange(pos1, pos1 + d1.len()) =~= d1);
    assert(x3.subrange(pos2, pos2 + d2.len()) =~= d2);
    assert(x3.subrange(pos3, pos3 + d3.len()) =~= d3);
    assert(out.subrange(pos1, pos1 + d1.len()) =~= d1);
    assert(out.subrange(pos2, pos2 + d2.len()) =~= d2);
    assert(out.subrange(pos3, pos3 + d3.len()) =~= d3);
    assert(out.subrange(pos4, pos4 + d4.len()) =~= d4);
}

} // verus!
