//! Little-endian words inside byte buffers, and the byte-level helpers the
//! frame format is written with.
use vstd::prelude::*;

verus! {

/// The four little-endian bytes of `v`.
pub open spec fn le_bytes(v: u32) -> Seq<u8> {
    seq![(v & 0xff) as u8, ((v >> 8) & 0xff) as u8, ((v >> 16) & 0xff) as u8, ((v >> 24) & 0xff) as u8]
}

/// The value of the little-endian `u32` whose first byte is at `off` in `b`.
pub open spec fn le_u32_at(b: Seq<u8>, off: int) -> u32 {
    (b[off] as u32) | ((b[off + 1] as u32) << 8) | ((b[off + 2] as u32) << 16) | ((b[off + 3]
        as u32) << 24)
}

/// `b` with the bytes starting at `off` overwritten by `s`.
pub open spec fn splice(b: Seq<u8>, off: int, s: Seq<u8>) -> Seq<u8> {
    b.subrange(0, off) + s + b.subrange(off + s.len(), b.len() as int)
}

/// `n` zero bytes.
pub open spec fn zeros(n: nat) -> Seq<u8> {
    Seq::new(n, |i: int| 0u8)
}

/// The least multiple of 8 that is at least `v`.
pub open spec fn align8_spec(v: int) -> int {
    ((v + 7) / 8) * 8
}

/// Reading back the bytes of `v` gives `v`.
pub proof fn lemma_le_bytes_roundtrip(v: u32)
    ensures
        le_bytes(v).len() == 4,
        le_u32_at(le_bytes(v), 0) == v,
{
    let b0 = (v & 0xff) as u8;
    let b1 = ((v >> 8) & 0xff) as u8;
    let b2 = ((v >> 16) & 0xff) as u8;
    let b3 = ((v >> 24) & 0xff) as u8;
    assert(((b0 as u32) | ((b1 as u32) << 8) | ((b2 as u32) << 16) | ((b3 as u32) << 24)) == v)
        by (bit_vector)
        requires
            b0 == (v & 0xff) as u8,
            b1 == ((v >> 8) & 0xff) as u8,
            b2 == ((v >> 16) & 0xff) as u8,
            b3 == ((v >> 24) & 0xff) as u8,
    ;
}

/// A word written at `off` reads back at `off`.
pub proof fn lemma_read_after_write(b: Seq<u8>, off: int, v: u32)
    requires
        0 <= off,
        off + 4 <= b.len(),
    ensures
        splice(b, off, le_bytes(v)).len() == b.len(),
        le_u32_at(splice(b, off, le_bytes(v)), off) == v,
{
    lemma_le_bytes_roundtrip(v);
    let s = splice(b, off, le_bytes(v));
    assert(s[off] == le_bytes(v)[0]);
    assert(s[off + 1] == le_bytes(v)[1]);
    assert(s[off + 2] == le_bytes(v)[2]);
    assert(s[off + 3] == le_bytes(v)[3]);
}

/// Rounds `value` up to the next multiple of 8.
pub fn align8(value: usize) -> (r: usize)
    requires
        value + 7 <= usize::MAX,
    ensures
        r == align8_spec(value as int),
{
    let v = value + 7;
    let r = v & !7usize;
    assert(v & !7usize == (v / 8) * 8) by (bit_vector);
    r
}

/// Reads the little-endian `u32` at `offset`; a range that leaves the buffer
/// is an invalid frame.
pub fn read_u32(buffer: &[u8], offset: usize) -> (r: crate::error::Result<u32>)
    ensures
        offset + 4 <= buffer@.len() ==> r == Ok::<u32, crate::error::Error>(
            le_u32_at(buffer@, offset as int),
        ),
        offset + 4 > buffer@.len() ==> r matches Err(crate::error::Error::InvalidFrame),
{
    if offset > buffer.len() || buffer.len() - offset < 4 {
        return Err(crate::error::Error::InvalidFrame);
    }
    let b0 = buffer[offset] as u32;
    let b1 = buffer[offset + 1] as u32;
    let b2 = buffer[offset + 2] as u32;
    let b3 = buffer[offset + 3] as u32;
    Ok(b0 | (b1 << 8) | (b2 << 16) | (b3 << 24))
}

/// Writes `value` as a little-endian `u32` at `offset`; a range that leaves
/// the buffer is an invalid frame, and the buffer is left as it was.
pub fn write_u32(buffer: &mut [u8], offset: usize, value: u32) -> (r: crate::error::Result<()>)
    ensures
        offset + 4 <= old(buffer)@.len() ==> r is Ok && final(buffer)@ == splice(
            old(buffer)@,
            offset as int,
            le_bytes(value),
        ),
        offset + 4 > old(buffer)@.len() ==> (r matches Err(crate::error::Error::InvalidFrame))
            && final(buffer)@ == old(buffer)@,
{
    if offset > buffer.len() || buffer.len() - offset < 4 {
        return Err(crate::error::Error::InvalidFrame);
    }
    buffer[offset] = (value & 0xff) as u8;
    buffer[offset + 1] = ((value >> 8) & 0xff) as u8;
    buffer[offset + 2] = ((value >> 16) & 0xff) as u8;
    buffer[offset + 3] = ((value >> 24) & 0xff) as u8;
    assert(buffer@ =~= splice(old(buffer)@, offset as int, le_bytes(value)));
    Ok(())
}

} // verus!

verus! {

/// A word read inside a subrange is the word read at the same place in the whole.
pub proof fn lemma_read_within(b: Seq<u8>, lo: int, hi: int, k: int)
    requires
        0 <= lo <= k,
        k + 4 <= hi <= b.len(),
    ensures
        le_u32_at(b.subrange(lo, hi), k - lo) == le_u32_at(b, k),
{
    let s = b.subrange(lo, hi);
    assert(s[k - lo] == b[k]);
    assert(s[k - lo + 1] == b[k + 1]);
    assert(s[k - lo + 2] == b[k + 2]);
    assert(s[k - lo + 3] == b[k + 3]);
}

/// A word read from the front part of a concatenation.
pub proof fn lemma_read_prefix(s1: Seq<u8>, s2: Seq<u8>, k: int)
    requires
        0 <= k,
        k + 4 <= s1.len(),
    ensures
        le_u32_at(s1 + s2, k) == le_u32_at(s1, k),
{
    let s = s1 + s2;
    assert(s[k] == s1[k]);
    assert(s[k + 1] == s1[k + 1]);
    assert(s[k + 2] == s1[k + 2]);
    assert(s[k + 3] == s1[k + 3]);
}

/// Two splices at adjacent places are one splice of the concatenation.
pub proof fn lemma_splice_splice(b: Seq<u8>, o: int, s1: Seq<u8>, s2: Seq<u8>)
    requires
        0 <= o,
        o + s1.len() + s2.len() <= b.len(),
    ensures
        splice(splice(b, o, s1), o + s1.len(), s2) =~= splice(b, o, s1 + s2),
{
}

/// What a splice leaves at and around the spliced bytes.
pub proof fn lemma_splice_parts(b: Seq<u8>, o: int, s: Seq<u8>)
    requires
        0 <= o,
        o + s.len() <= b.len(),
    ensures
        splice(b, o, s).len() == b.len(),
        splice(b, o, s).subrange(o, o + s.len()) =~= s,
        splice(b, o, s).subrange(0, o) =~= b.subrange(0, o),
        splice(b, o, s).subrange(o + s.len(), b.len() as int) =~= b.subrange(
            o + s.len(),
            b.len() as int,
        ),
{
}

/// The least multiple of 8 at or above `v` lies in `[v, v + 8)`.
pub proof fn lemma_align8(v: int)
    requires
        0 <= v,
    ensures
        v <= align8_spec(v) < v + 8,
        align8_spec(v) % 8 == 0,
{
}

} // verus!

verus! {

/// Reads the little-endian `i32` at `offset`.
pub fn read_i32(buffer: &[u8], offset: usize) -> (r: crate::error::Result<i32>)
    ensures
        offset + 4 <= buffer@.len() ==> r == Ok::<i32, crate::error::Error>(
            le_u32_at(buffer@, offset as int) as i32,
        ),
        offset + 4 > buffer@.len() ==> r matches Err(crate::error::Error::InvalidFrame),
{
    Ok(read_u32(buffer, offset)? as i32)
}

/// Writes `value` as a little-endian `i32` at `offset`.
pub fn write_i32(buffer: &mut [u8], offset: usize, value: i32) -> (r: crate::error::Result<()>)
    ensures
        offset + 4 <= old(buffer)@.len() ==> r is Ok && final(buffer)@ == splice(
            old(buffer)@,
            offset as int,
            le_bytes(value as u32),
        ),
        offset + 4 > old(buffer)@.len() ==> (r matches Err(crate::error::Error::InvalidFrame))
            && final(buffer)@ == old(buffer)@,
{
    write_u32(buffer, offset, value as u32)
}

} // verus!
