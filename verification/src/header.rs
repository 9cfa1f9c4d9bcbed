//! The fixed 46-byte header that every archive starts with.

use crate::error::ArchiveError;
use crate::wire::{le_u32, u32_at};
use vstd::prelude::*;

verus! {

/// The signature that an archive starts with: the text `Master of Magic`.
pub const GRF_MAGIC: [u8; 15] = [
    0x4d, 0x61, 0x73, 0x74, 0x65, 0x72, 0x20, 0x6f, 0x66, 0x20, 0x4d, 0x61, 0x67, 0x69, 0x63,
];

/// Size of the header in bytes.
pub const GRF_HEADER_SIZE: usize = 46;

/// The one format version that is supported.
pub const GRF_VERSION: u32 = 0x200;

/// What the entry count of the header exceeds the number of directory
/// entries by, besides the seed.
pub const COUNT_BIAS: u32 = 7;

/// The parsed header of an archive.
#[derive(Clone, Copy, Debug)]
pub struct Header {
    /// The signature, bytes 0 to 14.
    pub magic: [u8; 15],
    /// The reserved key field, bytes 15 to 29.
    pub key: [u8; 15],
    /// Byte offset of the directory, counted from the end of the header.
    pub file_table_offset: u32,
    /// The seed.
    pub seed: u32,
    /// The effective entry count: the raw count less the seed less 7.
    pub file_count: u32,
    /// The format version.
    pub version: u32,
}

/// The effective entry count that the header bytes `data` announce: the raw
/// count less the seed less 7.
pub open spec fn adjusted_count(data: Seq<u8>) -> int {
    le_u32(data, 38) - le_u32(data, 34) - COUNT_BIAS
}

/// Why `data` does not start with a valid header, or `None` if it does.
pub open spec fn header_error(data: Seq<u8>) -> Option<ArchiveError> {
    if data.len() < GRF_HEADER_SIZE {
        Some(ArchiveError::TruncatedHeader)
    } else if data.subrange(0, 15) != GRF_MAGIC@ {
        Some(ArchiveError::BadMagic)
    } else if le_u32(data, 42) != GRF_VERSION {
        Some(ArchiveError::UnsupportedVersion)
    } else if adjusted_count(data) < 0 {
        Some(ArchiveError::BadEntryCount)
    } else {
        None
    }
}

impl Header {
    /// Each field holds what the header bytes at the start of `data` say.
    pub open spec fn describes(self, data: Seq<u8>) -> bool {
        &&& self.magic@ == data.subrange(0, 15)
        &&& self.key@ == data.subrange(15, 30)
        &&& self.file_table_offset == le_u32(data, 30)
        &&& self.seed == le_u32(data, 34)
        &&& self.file_count == adjusted_count(data)
        &&& self.version == le_u32(data, 42)
    }
}

fn field15(data: &[u8], at: usize) -> (field: [u8; 15])
    requires
        at + 15 <= data@.len(),
    ensures
        field@ == data@.subrange(at as int, at + 15),
{
    let field: [u8; 15] = [
        data[at],
        data[at + 1],
        data[at + 2],
        data[at + 3],
        data[at + 4],
        data[at + 5],
        data[at + 6],
        data[at + 7],
        data[at + 8],
        data[at + 9],
        data[at + 10],
        data[at + 11],
        data[at + 12],
        data[at + 13],
        data[at + 14],
    ];
    assert(field@ =~= data@.subrange(at as int, at + 15));
    field
}

fn is_magic(magic: &[u8; 15]) -> (same: bool)
    ensures
        same == (magic@ == GRF_MAGIC@),
{
    let mut i: usize = 0;
    while i < 15
        invariant
            i <= 15,
            forall|k: int| 0 <= k < i ==> magic@[k] == GRF_MAGIC@[k],
        decreases 15 - i,
    {
        if magic[i] != GRF_MAGIC[i] {
            return false;
        }
        i += 1;
    }
    assert(magic@ =~= GRF_MAGIC@);
    true
}

/// Parses the header at the start of `data`. It is accepted if and only if
/// `data` holds at least 46 bytes, starts with the signature, names the
/// supported version, and has a raw entry count of at least the seed plus 7.
pub fn parse_header(data: &[u8]) -> (result: Result<Header, ArchiveError>)
    ensures
        match result {
            Ok(header) => header_error(data@) is None && header.describes(data@),
            Err(error) => header_error(data@) == Some(error),
        },
{
    if data.len() < GRF_HEADER_SIZE {
        return Err(ArchiveError::TruncatedHeader);
    }
    let magic = field15(data, 0);
    if !is_magic(&magic) {
        return Err(ArchiveError::BadMagic);
    }
    let key = field15(data, 15);
    let file_table_offset = u32_at(data, 30);
    let seed = u32_at(data, 34);
    let file_count = u32_at(data, 38);
    let version = u32_at(data, 42);
    if version != GRF_VERSION {
        return Err(ArchiveError::UnsupportedVersion);
    }
    if file_count < COUNT_BIAS || file_count - COUNT_BIAS < seed {
        return Err(ArchiveError::BadEntryCount);
    }
    Ok(Header { magic, key, file_table_offset, seed, file_count: file_count - seed - COUNT_BIAS, version })
}

} // verus!
