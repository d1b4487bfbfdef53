//! The level-geometry container format: its fixed-size header of lump
//! directory entries and a fully buffered body whose lumps can be read and
//! replaced in place.

pub mod buffered_bsp;
pub mod counting_read;

use vstd::prelude::*;

use crate::bytes::{le_u32_at, read_u32_le};

verus! {

/// The number of bytes the container's header occupies: everything before
/// it in the file is directory data, everything after it lump data.
pub const BSP_HEADER_LEN: u32 = 1036;

/// How many lump directory entries the header holds.
pub const BSP_LUMP_COUNT: usize = 64;

/// One lump directory entry: where the lump's data lives in the file, how
/// long it is, and its version and identifier words.
#[derive(Default)]
pub struct Lump {
    pub off: u32,
    pub len: u32,
    pub version: u32,
    pub ident: u32,
}

/// The container's header: format version, the lump directory, and the map
/// revision counter.
pub struct BSPHeader {
    pub version: u32,
    pub lumps: Vec<Lump>,
    pub map_revision: u32,
}

/// Why reading a container header failed: the buffer is not a container at
/// all, or it ends before the header does.
#[derive(Debug, PartialEq, Eq)]
pub enum Error {
    Io,
    InvalidHeader,
}

/// Whether the buffer begins with the container signature `VBSP`.
pub open spec fn bsp_magic_ok(b: Seq<u8>) -> bool {
    b.len() >= 4 && b[0] == 86 && b[1] == 66 && b[2] == 83 && b[3] == 80
}

/// Directory entry `i` as laid out in the header: four 32-bit words,
/// sixteen bytes per entry, starting at offset 8.
pub open spec fn spec_lump_at(b: Seq<u8>, i: int) -> Lump {
    Lump {
        off: le_u32_at(b, 8 + 16 * i),
        len: le_u32_at(b, 12 + 16 * i),
        version: le_u32_at(b, 16 + 16 * i),
        ident: le_u32_at(b, 20 + 16 * i),
    }
}

/// Parses a container header out of the first `BSP_HEADER_LEN` bytes of a
/// buffer: the signature, the version, the 64 directory entries and the
/// map revision.
pub fn parse_header(bytes: &Vec<u8>) -> (r: Result<BSPHeader, Error>)
    ensures
        r is Ok <==> bsp_magic_ok(bytes@) && bytes@.len() >= BSP_HEADER_LEN,
        r matches Err(e) ==> e == (if bytes@.len() >= 4 && !bsp_magic_ok(bytes@) {
            Error::InvalidHeader
        } else {
            Error::Io
        }),
        r matches Ok(h) ==> {
            &&& h.version == le_u32_at(bytes@, 4)
            &&& h.lumps@.len() == BSP_LUMP_COUNT
            &&& (forall|i: int|
                0 <= i < BSP_LUMP_COUNT ==> #[trigger] h.lumps@[i] == spec_lump_at(bytes@, i))
            &&& h.map_revision == le_u32_at(bytes@, 1032)
        },
{
    let ghost bb = bytes@;
    let len = bytes.len() as u64;
    if len < 4 {
        return Err(Error::Io);
    }
    if !(crate::bytes::byte_at(bytes, 0) == 86 && crate::bytes::byte_at(bytes, 1) == 66
        && crate::bytes::byte_at(bytes, 2) == 83 && crate::bytes::byte_at(bytes, 3) == 80) {
        return Err(Error::InvalidHeader);
    }
    if len < BSP_HEADER_LEN as u64 {
        return Err(Error::Io);
    }
    let version = match read_u32_le(bytes, 4) {
        Some(v) => v,
        None => {
            return Err(Error::Io);
        },
    };
    let mut lumps: Vec<Lump> = Vec::new();
    let mut i: usize = 0;
    while i < BSP_LUMP_COUNT
        invariant
            bb == bytes@,
            len == bb.len(),
            len >= BSP_HEADER_LEN as u64,
            i <= BSP_LUMP_COUNT,
            lumps@.len() == i as int,
            forall|k: int| 0 <= k < i as int ==> #[trigger] lumps@[k] == spec_lump_at(bb, k),
        decreases BSP_LUMP_COUNT - i,
    {
        let base = 8 + 16 * (i as u64);
        let off = match read_u32_le(bytes, base) {
            Some(v) => v,
            None => {
                return Err(Error::Io);
            },
        };
        let l = match read_u32_le(bytes, base + 4) {
            Some(v) => v,
            None => {
                return Err(Error::Io);
            },
        };
        let vers = match read_u32_le(bytes, base + 8) {
            Some(v) => v,
            None => {
                return Err(Error::Io);
            },
        };
        let ident = match read_u32_le(bytes, base + 12) {
            Some(v) => v,
            None => {
                return Err(Error::Io);
            },
        };
        lumps.push(Lump { off, len: l, version: vers, ident });
        i += 1;
    }
    let map_revision = match read_u32_le(bytes, 1032) {
        Some(v) => v,
        None => {
            return Err(Error::Io);
        },
    };
    Ok(BSPHeader { version, lumps, map_revision })
}

/// The little-endian bytes of a 32-bit value.
pub open spec fn u32_le_bytes(v: u32) -> Seq<u8> {
    seq![
        (v % 0x100) as u8,
        ((v / 0x100) % 0x100) as u8,
        ((v / 0x10000) % 0x100) as u8,
        ((v / 0x1000000) % 0x100) as u8,
    ]
}

/// The serialized form of the first `n` directory entries.
pub open spec fn lumps_bytes(lumps: Seq<Lump>, n: int) -> Seq<u8>
    decreases n,
{
    if n <= 0 {
        Seq::empty()
    } else {
        lumps_bytes(lumps, n - 1) + u32_le_bytes(lumps[n - 1].off) + u32_le_bytes(
            lumps[n - 1].len,
        ) + u32_le_bytes(lumps[n - 1].version) + u32_le_bytes(lumps[n - 1].ident)
    }
}

/// Appends the little-endian bytes of `x`.
pub(crate) fn push_u32_le(v: &mut Vec<u8>, x: u32)
    ensures
        final(v)@ == old(v)@ + u32_le_bytes(x),
{
    v.push((x % 0x100) as u8);
    v.push(((x / 0x100) % 0x100) as u8);
    v.push(((x / 0x10000) % 0x100) as u8);
    v.push(((x / 0x1000000) % 0x100) as u8);
    proof {
        assert(v@ =~= old(v)@ + u32_le_bytes(x));
    }
}

} // verus!
