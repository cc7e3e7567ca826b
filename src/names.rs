//! Names of FAT directory entries: the short 8.3 form, the checksum that ties
//! long-name entries to their short entry, and the UTF-16 text those carry.

use vstd::prelude::*;
use crate::bytes::{le16, read_le16};

verus! {

/// The checksum of the first `i` bytes of a short name, rotating right
/// before adding each byte.
pub open spec fn checksum_upto(name: Seq<u8>, i: nat) -> int
    decreases i,
{
    if i == 0 {
        0
    } else {
        let sum = checksum_upto(name, (i - 1) as nat);
        ((sum % 2) * 0x80 + sum / 2 + name[i - 1] as int) % 0x100
    }
}

/// The checksum of the 11-byte short name that starts a directory slot.
pub open spec fn short_checksum(slot: Seq<u8>) -> int {
    checksum_upto(slot, 11)
}

/// Computes the checksum of the short name at the start of `slot`.
pub fn checksum(slot: &[u8]) -> (r: u8)
    requires
        slot@.len() >= 11,
    ensures
        r as int == short_checksum(slot@),
{
    let mut sum: u8 = 0;
    let mut i: usize = 0;
    while i < 11
        invariant
            i <= 11,
            slot@.len() >= 11,
            sum as int == checksum_upto(slot@, i as nat),
        decreases 11 - i,
    {
        sum = (((sum % 2) as u16 * 0x80 + (sum / 2) as u16 + slot[i] as u16) % 0x100) as u8;
        i = i + 1;
    }
    sum
}

/// `s` without its trailing spaces.
pub open spec fn trim_spaces(s: Seq<u8>) -> Seq<u8>
    decreases s.len(),
{
    if s.len() > 0 && s.last() == 0x20 {
        trim_spaces(s.drop_last())
    } else {
        s
    }
}

/// The text of a short name: the base without padding, then a dot and the
/// extension where there is one.
pub open spec fn short_text(slot: Seq<u8>) -> Seq<u8> {
    let base = trim_spaces(slot.subrange(0, 8));
    let ext = trim_spaces(slot.subrange(8, 11));
    if ext.len() == 0 {
        base
    } else {
        base + seq![0x2Eu8] + ext
    }
}

/// Length of `s` once its trailing spaces are gone.
fn trimmed_len(s: &[u8], from: usize, to: usize) -> (r: usize)
    requires
        from <= to <= s@.len(),
    ensures
        from <= r <= to,
        s@.subrange(from as int, r as int) == trim_spaces(s@.subrange(from as int, to as int)),
{
    let mut end = to;
    while end > from && s[end - 1] == 0x20
        invariant
            from <= end <= to <= s@.len(),
            trim_spaces(s@.subrange(from as int, end as int)) == trim_spaces(
                s@.subrange(from as int, to as int),
            ),
        decreases end,
    {
        assert(s@.subrange(from as int, end as int).drop_last() =~= s@.subrange(
            from as int,
            end - 1,
        ));
        end = end - 1;
    }
    end
}

/// Builds the text of the short name at the start of `slot`.
pub fn short_name(slot: &[u8]) -> (r: Vec<u8>)
    requires
        slot@.len() >= 11,
    ensures
        r@ == short_text(slot@),
{
    let base_end = trimmed_len(slot, 0, 8);
    let ext_end = trimmed_len(slot, 8, 11);
    let mut r: Vec<u8> = Vec::new();
    let mut i: usize = 0;
    while i < base_end
        invariant
            i <= base_end <= 8,
            slot@.len() >= 11,
            r@ == slot@.subrange(0, i as int),
        decreases base_end - i,
    {
        r.push(slot[i]);
        i = i + 1;
        assert(r@ =~= slot@.subrange(0, i as int));
    }
    if ext_end > 8 {
        r.push(0x2E);
        let mut j: usize = 8;
        while j < ext_end
            invariant
                8 <= j <= ext_end <= 11,
                slot@.len() >= 11,
                r@ == slot@.subrange(0, base_end as int) + seq![0x2Eu8] + slot@.subrange(8, j as int),
            decreases ext_end - j,
        {
            r.push(slot[j]);
            j = j + 1;
            assert(r@ =~= slot@.subrange(0, base_end as int) + seq![0x2Eu8] + slot@.subrange(
                8,
                j as int,
            ));
        }
    } else {
        assert(slot@.subrange(8, ext_end as int) =~= Seq::<u8>::empty());
    }
    r
}

/// Offset inside a long-name slot of its `i`-th UTF-16 unit.
pub open spec fn unit_offset(i: int) -> int {
    if i < 5 {
        1 + 2 * i
    } else if i < 11 {
        14 + 2 * (i - 5)
    } else {
        28 + 2 * (i - 11)
    }
}

/// The 13 UTF-16 units a long-name slot carries, in order.
pub open spec fn slot_units(slot: Seq<u8>) -> Seq<u16> {
    Seq::new(13, |i: int| le16(slot, unit_offset(i)) as u16)
}

/// Reads the 13 UTF-16 units of a long-name slot.
pub fn name_units(slot: &[u8]) -> (r: Vec<u16>)
    requires
        slot@.len() >= 32,
    ensures
        r@ == slot_units(slot@),
{
    let mut r: Vec<u16> = Vec::new();
    let mut i: usize = 0;
    while i < 13
        invariant
            i <= 13,
            slot@.len() >= 32,
            r@ == slot_units(slot@).take(i as int),
        decreases 13 - i,
    {
        let at: usize = if i < 5 {
            1 + 2 * i
        } else if i < 11 {
            14 + 2 * (i - 5)
        } else {
            28 + 2 * (i - 11)
        };
        r.push(read_le16(slot, at));
        i = i + 1;
        assert(r@ =~= slot_units(slot@).take(i as int));
    }
    assert(r@ =~= slot_units(slot@));
    r
}

/// Position of the first NUL unit of `u` at or after `i`, or its length.
pub open spec fn nul_from(u: Seq<u16>, i: nat) -> nat
    decreases u.len() - i,
{
    if i >= u.len() || u[i as int] == 0 {
        i
    } else {
        nul_from(u, i + 1)
    }
}

/// The units of `u` before its first NUL.
pub open spec fn until_nul(u: Seq<u16>) -> Seq<u16> {
    u.take(nul_from(u, 0) as int)
}

/// The UTF-8 encoding of code point `c`.
pub open spec fn utf8_of_code_point(c: int) -> Seq<u8> {
    if c < 0x80 {
        seq![c as u8]
    } else if c < 0x800 {
        seq![(0xC0 + c / 0x40) as u8, (0x80 + c % 0x40) as u8]
    } else if c < 0x1_0000 {
        seq![(0xE0 + c / 0x1000) as u8, (0x80 + (c / 0x40) % 0x40) as u8, (0x80 + c % 0x40) as u8]
    } else {
        seq![
            (0xF0 + c / 0x4_0000) as u8,
            (0x80 + (c / 0x1000) % 0x40) as u8,
            (0x80 + (c / 0x40) % 0x40) as u8,
            (0x80 + c % 0x40) as u8,
        ]
    }
}

pub open spec fn is_high_surrogate(u: u16) -> bool {
    0xD800 <= u < 0xDC00
}

pub open spec fn is_low_surrogate(u: u16) -> bool {
    0xDC00 <= u < 0xE000
}

/// The UTF-8 form of UTF-16 text `u`; none where a surrogate is unpaired.
pub open spec fn utf8_of_utf16(u: Seq<u16>) -> Option<Seq<u8>>
    decreases u.len(),
{
    if u.len() == 0 {
        Some(Seq::empty())
    } else if !is_high_surrogate(u[0]) && !is_low_surrogate(u[0]) {
        match utf8_of_utf16(u.drop_first()) {
            Some(rest) => Some(utf8_of_code_point(u[0] as int) + rest),
            None => None,
        }
    } else if is_high_surrogate(u[0]) && u.len() >= 2 && is_low_surrogate(u[1]) {
        let c = 0x1_0000 + (u[0] - 0xD800) * 0x400 + (u[1] - 0xDC00);
        match utf8_of_utf16(u.subrange(2, u.len() as int)) {
            Some(rest) => Some(utf8_of_code_point(c) + rest),
            None => None,
        }
    } else {
        None
    }
}

/// Appends the UTF-8 encoding of code point `c` to `out`.
fn push_code_point(out: &mut Vec<u8>, c: u32)
    requires
        c < 0x11_0000,
    ensures
        final(out)@ == old(out)@ + utf8_of_code_point(c as int),
{
    if c < 0x80 {
        out.push(c as u8);
    } else if c < 0x800 {
        out.push((0xC0 + c / 0x40) as u8);
        out.push((0x80 + c % 0x40) as u8);
    } else if c < 0x1_0000 {
        out.push((0xE0 + c / 0x1000) as u8);
        out.push((0x80 + (c / 0x40) % 0x40) as u8);
        out.push((0x80 + c % 0x40) as u8);
    } else {
        out.push((0xF0 + c / 0x4_0000) as u8);
        out.push((0x80 + (c / 0x1000) % 0x40) as u8);
        out.push((0x80 + (c / 0x40) % 0x40) as u8);
        out.push((0x80 + c % 0x40) as u8);
    }
    assert(final(out)@ =~= old(out)@ + utf8_of_code_point(c as int));
}

/// Converts UTF-16 text, up to its first NUL, to UTF-8.
pub fn utf16_to_utf8(u: &[u16]) -> (r: Option<Vec<u8>>)
    ensures
        r matches Some(v) ==> utf8_of_utf16(until_nul(u@)) == Some(v@),
        r is None ==> utf8_of_utf16(until_nul(u@)) is None,
{
    let n = u.len();
    let mut end: usize = 0;
    while end < n && u[end] != 0
        invariant
            end <= n == u@.len(),
            nul_from(u@, 0) == nul_from(u@, end as nat),
        decreases n - end,
    {
        end = end + 1;
    }
    let ghost text = until_nul(u@);
    assert(text =~= u@.subrange(0, end as int));
    let mut out: Vec<u8> = Vec::new();
    let mut i: usize = 0;
    assert(text.subrange(0, end as int) =~= text);
    assert(Seq::<u8>::empty() + utf8_of_utf16(text)->0 =~= utf8_of_utf16(text)->0);
    while i < end
        invariant
            i <= end <= n == u@.len(),
            text == u@.subrange(0, end as int),
            text == until_nul(u@),
            match utf8_of_utf16(text.subrange(i as int, end as int)) {
                Some(rest) => utf8_of_utf16(text) == Some(out@ + rest),
                None => utf8_of_utf16(text) is None,
            },
        decreases end - i,
    {
        let ghost t = text.subrange(i as int, end as int);
        let c = u[i];
        assert(t[0] == c);
        if c < 0xD800 || c >= 0xE000 {
            assert(t.drop_first() =~= text.subrange(i + 1, end as int));
            let ghost before = out@;
            push_code_point(&mut out, c as u32);
            i = i + 1;
            proof {
                if let Some(rest) = utf8_of_utf16(text.subrange(i as int, end as int)) {
                    assert(before + (utf8_of_code_point(c as int) + rest) =~= out@ + rest);
                }
            }
        } else if c < 0xDC00 && i + 1 < end && u[i + 1] >= 0xDC00 && u[i + 1] < 0xE000 {
            let d = u[i + 1];
            assert(t.subrange(2, t.len() as int) =~= text.subrange(i + 2, end as int));
            let ghost before = out@;
            let cp: u32 = 0x1_0000 + (c as u32 - 0xD800) * 0x400 + (d as u32 - 0xDC00);
            push_code_point(&mut out, cp);
            i = i + 2;
            proof {
                if let Some(rest) = utf8_of_utf16(text.subrange(i as int, end as int)) {
                    assert(before + (utf8_of_code_point(cp as int) + rest) =~= out@ + rest);
                }
            }
        } else {
            proof {
                if i + 1 < end {
                    assert(t[1] == u@[i + 1]);
                }
                assert(utf8_of_utf16(t) is None);
            }
            return None;
        }
    }
    assert(text.subrange(end as int, end as int) =~= Seq::<u16>::empty());
    assert(out@ + Seq::<u8>::empty() =~= out@);
    Some(out)
}

} // verus!
