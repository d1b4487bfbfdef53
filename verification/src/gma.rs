//! Data carried by the sequential addon archive format: the archive's
//! metadata, its file entries, and the addon description record.

use vstd::prelude::*;

verus! {

/// The constant bytes an addon archive starts with.
pub const GMA_HEADER: [u8; 4] = [71, 77, 65, 68];

/// The archive format version this crate understands.
pub const SUPPORTED_GMA_VERSION: u8 = 3;

/// A parsed addon archive: its metadata and its entries.
pub struct GMAFile {
    pub name: String,
    pub description: String,
    pub author: String,
    pub entries: Vec<GMAEntry>,
}

/// One file inside an addon archive; `contents` is `None` when only the
/// entry table was read.
pub struct GMAEntry {
    pub name: String,
    pub size: u64,
    pub crc: u32,
    pub contents: Option<Vec<u8>>,
}

/// The addon description record embedded in an archive.
pub struct AddonJson {
    pub title: String,
    pub addon_type: String,
    pub tags: Vec<String>,
    pub ignore: Vec<String>,
}

} // verus!
