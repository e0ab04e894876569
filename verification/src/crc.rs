//! The 32-bit cyclic redundancy check that protects each chunk.
//!
//! The check is the reflected form with polynomial `0xEDB88320`: the register
//! starts with all bits set, takes each byte in through eight shift steps, and
//! is inverted at the end.

use vstd::prelude::*;

verus! {

/// One shift step of the register.
pub open spec fn crc_step(c: u32) -> u32 {
    if c & 1 == 1 {
        (c >> 1) ^ 0xEDB88320u32
    } else {
        c >> 1
    }
}

/// The register after it has taken in one byte.
pub open spec fn crc_byte(c: u32, b: u8) -> u32 {
    crc_step(crc_step(crc_step(crc_step(crc_step(crc_step(crc_step(crc_step(c ^ (b as u32)))))))))
}

/// The register after it has taken in `data`, byte by byte.
pub open spec fn crc_fold(c: u32, data: Seq<u8>) -> u32
    decreases data.len(),
{
    if data.len() == 0 {
        c
    } else {
        crc_byte(crc_fold(c, data.drop_last()), data.last())
    }
}

/// The check value of `data`.
pub open spec fn crc32(data: Seq<u8>) -> u32 {
    crc_fold(0xFFFFFFFFu32, data) ^ 0xFFFFFFFFu32
}

/// Taking in two runs one after the other is taking in their concatenation.
pub proof fn lemma_crc_fold_concat(c: u32, a: Seq<u8>, b: Seq<u8>)
    ensures
        crc_fold(c, a + b) == crc_fold(crc_fold(c, a), b),
    decreases b.len(),
{
    if b.len() == 0 {
        assert(a + b =~= a);
    } else {
        assert((a + b).drop_last() =~= a + b.drop_last());
        assert((a + b).last() == b.last());
        lemma_crc_fold_concat(c, a, b.drop_last());
    }
}

fn step(c: u32) -> (r: u32)
    ensures
        r == crc_step(c),
{
    if c & 1 == 1 {
        (c >> 1) ^ 0xEDB88320u32
    } else {
        c >> 1
    }
}

/// Feeds one byte into the register.
pub fn feed_byte(c: u32, b: u8) -> (r: u32)
    ensures
        r == crc_byte(c, b),
{
    step(step(step(step(step(step(step(step(c ^ (b as u32)))))))))
}

/// Feeds `data[from..to]` into the register.
pub fn feed(c: u32, data: &[u8], from: usize, to: usize) -> (r: u32)
    requires
        from <= to <= data@.len(),
    ensures
        r == crc_fold(c, data@.subrange(from as int, to as int)),
{
    let mut acc = c;
    let mut i: usize = from;
    assert(data@.subrange(from as int, from as int) =~= Seq::<u8>::empty());
    while i < to
        invariant
            from <= i <= to <= data@.len(),
            acc == crc_fold(c, data@.subrange(from as int, i as int)),
        decreases to - i,
    {
        acc = feed_byte(acc, data[i]);
        assert(data@.subrange(from as int, i + 1).drop_last() =~= data@.subrange(
            from as int,
            i as int,
        ));
        i += 1;
    }
    acc
}

/// The check value of `head` followed by `data[from..to]`.
pub fn checksum(head: &[u8], data: &[u8], from: usize, to: usize) -> (r: u32)
    requires
        from <= to <= data@.len(),
    ensures
        r == crc32(head@ + data@.subrange(from as int, to as int)),
{
    let a = feed(0xFFFFFFFFu32, head, 0, head.len());
    let b = feed(a, data, from, to);
    proof {
        assert(head@.subrange(0, head@.len() as int) =~= head@);
        lemma_crc_fold_concat(0xFFFFFFFFu32, head@, data@.subrange(from as int, to as int));
    }
    b ^ 0xFFFFFFFFu32
}

} // verus!
