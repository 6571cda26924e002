//! Endian-aware integer reads and NUL-terminated string extraction over
//! in-memory byte buffers.

use vstd::prelude::*;
use crate::text::{decode_lossy, utf8_lossy};

verus! {

/// A read that the buffer cannot satisfy: fewer bytes remain than the width.
#[derive(Debug, Clone, Copy, PartialEq, Eq, Structural)]
pub struct ShortRead;

/// Little-endian value of the two bytes at `p`.
pub open spec fn u16_le(b: Seq<u8>, p: int) -> int {
    b[p] + 256 * b[p + 1]
}

/// Big-endian value of the two bytes at `p`.
pub open spec fn u16_be(b: Seq<u8>, p: int) -> int {
    256 * b[p] + b[p + 1]
}

/// Little-endian value of the four bytes at `p`.
pub open spec fn u32_le(b: Seq<u8>, p: int) -> int {
    b[p] + 0x100 * b[p + 1] + 0x1_0000 * b[p + 2] + 0x100_0000 * b[p + 3]
}

/// Big-endian value of the four bytes at `p`.
pub open spec fn u32_be(b: Seq<u8>, p: int) -> int {
    0x100_0000 * b[p] + 0x1_0000 * b[p + 1] + 0x100 * b[p + 2] + b[p + 3]
}

/// Big-endian value of the eight bytes at `p`.
pub open spec fn u64_be(b: Seq<u8>, p: int) -> int {
    0x1_0000_0000 * u32_be(b, p) + u32_be(b, p + 4)
}

pub fn u16_le_at(b: &[u8], p: usize) -> (r: u16)
    requires
        p + 2 <= b@.len(),
    ensures
        r == u16_le(b@, p as int),
{
    b[p] as u16 + 256 * (b[p + 1] as u16)
}

pub fn u16_be_at(b: &[u8], p: usize) -> (r: u16)
    requires
        p + 2 <= b@.len(),
    ensures
        r == u16_be(b@, p as int),
{
    256 * (b[p] as u16) + b[p + 1] as u16
}

pub fn u32_le_at(b: &[u8], p: usize) -> (r: u32)
    requires
        p + 4 <= b@.len(),
    ensures
        r == u32_le(b@, p as int),
{
    b[p] as u32 + 0x100 * (b[p + 1] as u32) + 0x1_0000 * (b[p + 2] as u32) + 0x100_0000 * (
    b[p + 3] as u32)
}

pub fn u32_be_at(b: &[u8], p: usize) -> (r: u32)
    requires
        p + 4 <= b@.len(),
    ensures
        r == u32_be(b@, p as int),
{
    0x100_0000 * (b[p] as u32) + 0x1_0000 * (b[p + 1] as u32) + 0x100 * (b[p + 2] as u32) + b[p
        + 3] as u32
}

pub fn u64_be_at(b: &[u8], p: usize) -> (r: u64)
    requires
        p + 8 <= b@.len(),
    ensures
        r == u64_be(b@, p as int),
{
    let n = b.len();
    let hi = u32_be_at(b, p);
    let lo = u32_be_at(b, p + 4);
    0x1_0000_0000 * (hi as u64) + lo as u64
}

/// Reads a little-endian `u16` at `*pos` and advances past it.
pub fn read_u16_le(b: &[u8], pos: &mut usize) -> (r: Result<u16, ShortRead>)
    ensures
        r is Ok <==> *old(pos) + 2 <= b@.len(),
        r is Ok ==> r->Ok_0 == u16_le(b@, *old(pos) as int) && *final(pos) == *old(pos) + 2,
        r is Err ==> *final(pos) == *old(pos),
{
    if *pos <= b.len() && b.len() - *pos >= 2 {
        let v = u16_le_at(b, *pos);
        *pos = *pos + 2;
        Ok(v)
    } else {
        Err(ShortRead)
    }
}

/// Reads a big-endian `u16` at `*pos` and advances past it.
pub fn read_u16_be(b: &[u8], pos: &mut usize) -> (r: Result<u16, ShortRead>)
    ensures
        r is Ok <==> *old(pos) + 2 <= b@.len(),
        r is Ok ==> r->Ok_0 == u16_be(b@, *old(pos) as int) && *final(pos) == *old(pos) + 2,
        r is Err ==> *final(pos) == *old(pos),
{
    if *pos <= b.len() && b.len() - *pos >= 2 {
        let v = u16_be_at(b, *pos);
        *pos = *pos + 2;
        Ok(v)
    } else {
        Err(ShortRead)
    }
}

/// Reads a little-endian `u32` at `*pos` and advances past it.
pub fn read_u32_le(b: &[u8], pos: &mut usize) -> (r: Result<u32, ShortRead>)
    ensures
        r is Ok <==> *old(pos) + 4 <= b@.len(),
        r is Ok ==> r->Ok_0 == u32_le(b@, *old(pos) as int) && *final(pos) == *old(pos) + 4,
        r is Err ==> *final(pos) == *old(pos),
{
    if *pos <= b.len() && b.len() - *pos >= 4 {
        let v = u32_le_at(b, *pos);
        *pos = *pos + 4;
        Ok(v)
    } else {
        Err(ShortRead)
    }
}

/// Reads a big-endian `u32` at `*pos` and advances past it.
pub fn read_u32_be(b: &[u8], pos: &mut usize) -> (r: Result<u32, ShortRead>)
    ensures
        r is Ok <==> *old(pos) + 4 <= b@.len(),
        r is Ok ==> r->Ok_0 == u32_be(b@, *old(pos) as int) && *final(pos) == *old(pos) + 4,
        r is Err ==> *final(pos) == *old(pos),
{
    if *pos <= b.len() && b.len() - *pos >= 4 {
        let v = u32_be_at(b, *pos);
        *pos = *pos + 4;
        Ok(v)
    } else {
        Err(ShortRead)
    }
}

/// Reads a big-endian `u64` at `*pos` and advances past it.
pub fn read_u64_be(b: &[u8], pos: &mut usize) -> (r: Result<u64, ShortRead>)
    ensures
        r is Ok <==> *old(pos) + 8 <= b@.len(),
        r is Ok ==> r->Ok_0 == u64_be(b@, *old(pos) as int) && *final(pos) == *old(pos) + 8,
        r is Err ==> *final(pos) == *old(pos),
{
    if *pos <= b.len() && b.len() - *pos >= 8 {
        let v = u64_be_at(b, *pos);
        *pos = *pos + 8;
        Ok(v)
    } else {
        Err(ShortRead)
    }
}

/// Index of the first NUL at or after `i`, or the length when there is none.
pub open spec fn nul_index(b: Seq<u8>, i: int) -> int
    decreases b.len() - i,
{
    if i >= b.len() || b[i] == 0 {
        i
    } else {
        nul_index(b, i + 1)
    }
}

/// The bytes from `start` up to the first NUL or the end of `b`.
pub open spec fn c_string(b: Seq<u8>, start: int) -> Seq<u8> {
    if start >= b.len() {
        Seq::empty()
    } else {
        b.subrange(start, nul_index(b, start))
    }
}

proof fn lemma_nul_index_bounds(b: Seq<u8>, i: int)
    requires
        0 <= i <= b.len(),
    ensures
        i <= nul_index(b, i) <= b.len(),
        forall|j: int| i <= j < nul_index(b, i) ==> b[j] != 0,
        nul_index(b, i) < b.len() ==> b[nul_index(b, i)] == 0,
    decreases b.len() - i,
{
    if i < b.len() && b[i] != 0 {
        lemma_nul_index_bounds(b, i + 1);
    }
}

/// Decodes, lossily, the NUL-terminated string that starts at `start`.
pub fn extract_string(buffer: &[u8], start: usize) -> (r: String)
    ensures
        r@ == utf8_lossy(c_string(buffer@, start as int)),
{
    let mut text: Vec<u8> = Vec::new();
    let mut pos: usize = start;
    while pos < buffer.len() && buffer[pos] != 0
        invariant
            start <= pos,
            start < buffer@.len() ==> pos <= buffer@.len() && text@ == buffer@.subrange(
                start as int,
                pos as int,
            ),
            start >= buffer@.len() ==> pos == start && text@.len() == 0,
            forall|j: int| start <= j < pos ==> buffer@[j] != 0,
        decreases buffer@.len() - pos,
    {
        text.push(buffer[pos]);
        pos = pos + 1;
        assert(text@ =~= buffer@.subrange(start as int, pos as int));
    }
    proof {
        if start < buffer@.len() {
            lemma_nul_index_bounds(buffer@, start as int);
            let e = nul_index(buffer@, start as int);
            if pos < e {
                assert(buffer@[pos as int] != 0);
            }
            if e < pos {
                assert(buffer@[e] != 0);
            }
            assert(pos == e);
        } else {
            assert(text@ =~= Seq::<u8>::empty());
        }
    }
    decode_lossy(text.as_slice())
}

} // verus!
