//! Little-endian integer fields inside byte sequences.

use vstd::prelude::*;

verus! {

/// The unsigned 16-bit little-endian value stored at `at`.
pub open spec fn le16(s: Seq<u8>, at: int) -> int {
    s[at] as int + s[at + 1] as int * 0x100
}

/// The unsigned 32-bit little-endian value stored at `at`.
pub open spec fn le32(s: Seq<u8>, at: int) -> int {
    le16(s, at) + le16(s, at + 2) * 0x1_0000
}

/// The unsigned 64-bit little-endian value stored at `at`.
pub open spec fn le64(s: Seq<u8>, at: int) -> int {
    le32(s, at) + le32(s, at + 4) * 0x1_0000_0000
}

/// Whether the four bytes at `at` spell the little-endian form of `sig`.
pub open spec fn has_sig(s: Seq<u8>, at: int, sig: u32) -> bool {
    0 <= at && at + 4 <= s.len() && le32(s, at) == sig as int
}

pub fn read_le16(b: &[u8], at: usize) -> (r: u16)
    requires
        at + 2 <= b@.len(),
    ensures
        r as int == le16(b@, at as int),
{
    b[at] as u16 + b[at + 1] as u16 * 0x100
}

pub fn read_le32(b: &[u8], at: usize) -> (r: u32)
    requires
        at + 4 <= b@.len(),
    ensures
        r as int == le32(b@, at as int),
{
    let len = b.len();
    assert(at + 4 <= len);
    let lo = read_le16(b, at);
    let hi = read_le16(b, at + 2);
    lo as u32 + hi as u32 * 0x1_0000
}

pub fn read_le64(b: &[u8], at: usize) -> (r: u64)
    requires
        at + 8 <= b@.len(),
    ensures
        r as int == le64(b@, at as int),
{
    let len = b.len();
    assert(at + 8 <= len);
    let lo = read_le32(b, at);
    let hi = read_le32(b, at + 4);
    lo as u64 + hi as u64 * 0x1_0000_0000
}

/// A 16-bit field read from a window of a larger sequence has the value stored there.
pub proof fn lemma_le16_window(s: Seq<u8>, start: int, len: int, at: int)
    requires
        0 <= start,
        0 <= at,
        at + 2 <= len,
        start + len <= s.len(),
    ensures
        le16(s.subrange(start, start + len), at) == le16(s, start + at),
{
}

/// A 32-bit field read from a window of a larger sequence has the value stored there.
pub proof fn lemma_le32_window(s: Seq<u8>, start: int, len: int, at: int)
    requires
        0 <= start,
        0 <= at,
        at + 4 <= len,
        start + len <= s.len(),
    ensures
        le32(s.subrange(start, start + len), at) == le32(s, start + at),
{
    lemma_le16_window(s, start, len, at);
    lemma_le16_window(s, start, len, at + 2);
}

/// A 64-bit field read from a window of a larger sequence has the value stored there.
pub proof fn lemma_le64_window(s: Seq<u8>, start: int, len: int, at: int)
    requires
        0 <= start,
        0 <= at,
        at + 8 <= len,
        start + len <= s.len(),
    ensures
        le64(s.subrange(start, start + len), at) == le64(s, start + at),
{
    lemma_le32_window(s, start, len, at);
    lemma_le32_window(s, start, len, at + 4);
}

} // verus!
