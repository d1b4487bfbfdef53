//! Little-endian readers over a fully buffered byte slice: single bytes,
//! 16-bit and 32-bit fields, each reporting when it would fall off the end.

use vstd::prelude::*;

use crate::strutil::byte_char;

verus! {

/// The little-endian 16-bit value at `off`.
pub open spec fn le_u16_at(b: Seq<u8>, off: int) -> u16 {
    (b[off] + 256 * b[off + 1]) as u16
}

/// The little-endian 32-bit value at `off`.
pub open spec fn le_u32_at(b: Seq<u8>, off: int) -> u32 {
    (b[off] + 0x100 * b[off + 1] + 0x10000 * b[off + 2] + 0x1000000 * b[off + 3]) as u32
}

/// The index of the first zero byte in `[i, end)`, or `end` if none.
pub open spec fn nul_scan(b: Seq<u8>, i: int, end: int) -> int
    decreases end - i,
{
    if i >= end {
        end
    } else if b[i] == 0 {
        i
    } else {
        nul_scan(b, i + 1, end)
    }
}

/// The characters of the zero-terminated string that starts at `start` and
/// is capped at `cap` bytes: the bytes up to the first zero byte, or the
/// empty string when no zero byte lies within the window.  The window is
/// clipped to the end of the buffer.
pub open spec fn cstr_window(b: Seq<u8>, start: int, cap: int) -> Seq<char> {
    let end = if start + cap <= b.len() {
        start + cap
    } else {
        b.len() as int
    };
    if start >= end {
        Seq::empty()
    } else {
        let stop = nul_scan(b, start, end);
        if stop == end {
            Seq::empty()
        } else {
            b.subrange(start, stop).map_values(|x: u8| byte_char(x))
        }
    }
}

/// The byte at offset `off` of the buffer.
pub fn byte_at(b: &Vec<u8>, off: u64) -> (r: u8)
    requires
        (off as int) < b@.len(),
    ensures
        r == b@[off as int],
{
    let n = b.len();
    proof {
        assert(off < n as u64);
    }
    b[off as usize]
}

/// The little-endian 32-bit field at `off`, or `None` when the buffer ends
/// before its last byte.
pub fn read_u32_le(b: &Vec<u8>, off: u64) -> (r: Option<u32>)
    ensures
        match r {
            Some(v) => (off as int) + 4 <= b@.len() && v == le_u32_at(b@, off as int),
            None => (off as int) + 4 > b@.len(),
        },
{
    let len = b.len() as u64;
    if off < len && len - off >= 4 {
        let b0 = byte_at(b, off) as u32;
        let b1 = byte_at(b, off + 1) as u32;
        let b2 = byte_at(b, off + 2) as u32;
        let b3 = byte_at(b, off + 3) as u32;
        Some(b0 + 0x100 * b1 + 0x10000 * b2 + 0x1000000 * b3)
    } else {
        None
    }
}

/// The little-endian 16-bit field at `off`, or `None` when the buffer ends
/// before its last byte.
pub fn read_u16_le(b: &Vec<u8>, off: u64) -> (r: Option<u16>)
    ensures
        match r {
            Some(v) => (off as int) + 2 <= b@.len() && v == le_u16_at(b@, off as int),
            None => (off as int) + 2 > b@.len(),
        },
{
    let len = b.len() as u64;
    if off < len && len - off >= 2 {
        let b0 = byte_at(b, off) as u16;
        let b1 = byte_at(b, off + 1) as u16;
        Some(b0 + 0x100 * b1)
    } else {
        None
    }
}

} // verus!
