//! The archive: the bytes of an archive file together with its parsed header
//! and directory, and the operations that list and read its entries.

use crate::des;
use crate::directory::{enumerates, file_table, parse_file_table, texts, Entry, EntryTable};
use crate::error::ArchiveError;
use crate::header::{adjusted_count, header_error, parse_header, Header, GRF_HEADER_SIZE};
use crate::inflate::{inflate, inflated};
use crate::wire::le_u32;
use vstd::prelude::*;
use vstd::slice::{slice_subrange, slice_to_vec};
use vstd::std_specs::convert::FromSpecImpl;

verus! {

/// The meaning of each bit of an entry's flag byte.
#[derive(Clone, Copy, Debug, PartialEq, Eq, Structural)]
pub enum EntryType {
    /// No single known bit.
    Unknown,
    /// Bit 0: the entry holds file content.
    Normal,
    /// Bit 1: the payload went through the full cipher pass.
    EncryptedMixed,
    /// Bit 2: the payload went through the header-only cipher pass.
    EncryptedHeader,
}

impl From<u8> for EntryType {
    fn from(item: u8) -> (kind: Self) {
        match item {
            0x01 => Self::Normal,
            0x02 => Self::EncryptedMixed,
            0x04 => Self::EncryptedHeader,
            _ => Self::Unknown,
        }
    }
}

impl FromSpecImpl<u8> for EntryType {
    open spec fn obeys_from_spec() -> bool {
        true
    }

    open spec fn from_spec(item: u8) -> Self {
        if item == 0x01 {
            Self::Normal
        } else if item == 0x02 {
            Self::EncryptedMixed
        } else if item == 0x04 {
            Self::EncryptedHeader
        } else {
            Self::Unknown
        }
    }
}

impl From<EntryType> for u8 {
    fn from(kind: EntryType) -> (bits: u8) {
        match kind {
            EntryType::Unknown => 0x00,
            EntryType::Normal => 0x01,
            EntryType::EncryptedMixed => 0x02,
            EntryType::EncryptedHeader => 0x04,
        }
    }
}

impl FromSpecImpl<EntryType> for u8 {
    open spec fn obeys_from_spec() -> bool {
        true
    }

    open spec fn from_spec(kind: EntryType) -> u8 {
        match kind {
            EntryType::Unknown => 0x00,
            EntryType::Normal => 0x01,
            EntryType::EncryptedMixed => 0x02,
            EntryType::EncryptedHeader => 0x04,
        }
    }
}

/// The payload `raw` of an entry after the cipher pass that its flags call
/// for: the full pass if bit 1 is set, else the header-only pass if bit 2 is
/// set, else none.
pub open spec fn deciphered(raw: Seq<u8>, flags: u8, aligned_size: u32, packed_size: u32) -> Seq<
    u8,
> {
    if flags & 0x02 != 0 {
        des::decoded_entry(raw, aligned_size as int, packed_size as int)
    } else if flags & 0x04 != 0 {
        des::decoded_header(raw, aligned_size as int)
    } else {
        raw
    }
}

/// The content of an entry whose payload `raw` is compressed: the first
/// `size` bytes that the deciphered payload decompresses to.
pub open spec fn decoded(
    raw: Seq<u8>,
    flags: u8,
    aligned_size: u32,
    packed_size: u32,
    size: u32,
) -> Result<Seq<u8>, ArchiveError> {
    match inflated(deciphered(raw, flags, aligned_size, packed_size), size as nat) {
        Some(bytes) => Ok(bytes),
        None => Err(ArchiveError::Inflate),
    }
}

/// The content of `entry` in the archive bytes `data`, or the reason why it
/// cannot be had. The payload lies `entry.offset` bytes after the header. An
/// entry whose size equals its packed size is stored as it is.
pub open spec fn entry_content(data: Seq<u8>, entry: Entry) -> Result<Seq<u8>, ArchiveError> {
    let start = GRF_HEADER_SIZE + entry.offset;
    let end = start + entry.size_packed;
    if entry.flag & 0x01 == 0 {
        Err(ArchiveError::NotAFile)
    } else if end > data.len() {
        Err(ArchiveError::TruncatedEntry)
    } else if entry.size == entry.size_packed {
        Ok(data.subrange(start, end))
    } else {
        decoded(
            data.subrange(start, end),
            entry.flag,
            entry.size_aligned,
            entry.size_packed,
            entry.size,
        )
    }
}

/// The directory of the archive bytes `data`, or the reason why `data` is no
/// archive. The directory lies where the header says and is read for the
/// effective entry count of the header.
pub open spec fn directory_of(data: Seq<u8>) -> Result<Map<Seq<char>, Entry>, ArchiveError> {
    match header_error(data) {
        Some(error) => Err(error),
        None => file_table(data, le_u32(data, 30), adjusted_count(data)),
    }
}

/// The content of the entry of the given path in the archive bytes `data`,
/// or the reason why it cannot be had.
pub open spec fn content_of(data: Seq<u8>, path: Seq<char>) -> Result<Seq<u8>, ArchiveError> {
    match directory_of(data) {
        Err(error) => Err(error),
        Ok(directory) => if directory.contains_key(path) {
            entry_content(data, directory[path])
        } else {
            Err(ArchiveError::NotFound)
        },
    }
}

/// The outcome of reading an entry, with the bytes taken by their view.
pub open spec fn content(result: Result<Vec<u8>, ArchiveError>) -> Result<Seq<u8>, ArchiveError> {
    match result {
        Ok(bytes) => Ok(bytes@),
        Err(error) => Err(error),
    }
}

/// Applies to an entry's payload the cipher pass that its flags call for.
pub fn decipher(data: &mut [u8], flags: u8, aligned_size: u32, packed_size: u32)
    ensures
        final(data)@ == deciphered(old(data)@, flags, aligned_size, packed_size),
{
    let encrypted_mixed_type: u8 = EntryType::EncryptedMixed.into();
    let encrypted_header_type: u8 = EntryType::EncryptedHeader.into();
    if (flags & encrypted_mixed_type) != 0 {
        des::decode_entry(data, aligned_size as usize, packed_size as usize);
    } else if (flags & encrypted_header_type) != 0 {
        des::decode_header(data, aligned_size as usize);
    }
}

/// Decodes the payload of a compressed entry: deciphers it in place as its
/// flags call for, then decompresses it to `size` bytes.
pub fn decode_entry(
    data: &mut [u8],
    flags: u8,
    aligned_size: u32,
    packed_size: u32,
    size: u32,
) -> (result: Result<Vec<u8>, ArchiveError>)
    ensures
        final(data)@ == deciphered(old(data)@, flags, aligned_size, packed_size),
        content(result) == decoded(old(data)@, flags, aligned_size, packed_size, size),
{
    decipher(data, flags, aligned_size, packed_size);
    match inflate(data, size as usize) {
        Some(bytes) => Ok(bytes),
        None => Err(ArchiveError::Inflate),
    }
}

/// An opened archive.
pub struct Archive {
    file: Vec<u8>,
    header: Header,
    entry_table: EntryTable,
}

impl Archive {
    #[verifier::type_invariant]
    spec fn well_formed(self) -> bool {
        &&& header_error(self.file@) is None
        &&& self.header.describes(self.file@)
        &&& directory_of(self.file@) == Ok::<Map<Seq<char>, Entry>, ArchiveError>(
            self.entry_table@,
        )
    }

    /// The bytes of the archive file.
    pub closed spec fn data(&self) -> Seq<u8> {
        self.file@
    }

    /// Opens the archive whose bytes are `reader`: parses the header, then
    /// the directory. It fails if and only if the bytes have no directory,
    /// with the reason why.
    pub fn from_reader(reader: Vec<u8>) -> (result: Result<Archive, ArchiveError>)
        ensures
            match result {
                Ok(archive) => archive.data() == reader@ && directory_of(reader@) is Ok,
                Err(error) => directory_of(reader@) == Err::<Map<Seq<char>, Entry>, ArchiveError>(
                    error,
                ),
            },
    {
        let header = match parse_header(reader.as_slice()) {
            Ok(header) => header,
            Err(error) => {
                return Err(error);
            },
        };
        let entry_table = match parse_file_table(
            reader.as_slice(),
            header.file_table_offset as usize,
            header.file_count as usize,
        ) {
            Ok(entry_table) => entry_table,
            Err(error) => {
                return Err(error);
            },
        };
        Ok(Archive { file: reader, header, entry_table })
    }

    /// The header of the archive.
    pub fn header(&self) -> (header: Header)
        ensures
            header_error(self.data()) is None,
            header.describes(self.data()),
    {
        proof {
            use_type_invariant(self);
        }
        self.header
    }

    /// The paths of all entries, each once, in no particular order.
    pub fn list_entries(&self) -> (result: Result<Vec<String>, ArchiveError>)
        ensures
            result is Ok,
            directory_of(self.data()) is Ok,
            enumerates(texts(result->Ok_0@), directory_of(self.data())->Ok_0),
    {
        proof {
            use_type_invariant(self);
        }
        Ok(self.entry_table.paths())
    }

    /// Reads the entry of the given path. It fails with `NotFound` if the
    /// directory has no such path and with `NotAFile` if the entry's flag
    /// lacks bit 0. An entry whose size equals its packed size is returned
    /// as stored; any other is deciphered as its flags call for and then
    /// decompressed.
    pub fn read_entry(&self, entry_name: &str) -> (result: Result<Vec<u8>, ArchiveError>)
        ensures
            directory_of(self.data()) is Ok,
            content(result) == content_of(self.data(), entry_name@),
    {
        proof {
            use_type_invariant(self);
        }
        let entry = match self.entry_table.get(entry_name) {
            Some(entry) => entry,
            None => {
                return Err(ArchiveError::NotFound);
            },
        };
        let normal_type: u8 = EntryType::Normal.into();
        if (entry.flag & normal_type) == 0 {
            return Err(ArchiveError::NotAFile);
        }
        let file = self.file.as_slice();
        let len = file.len();
        if entry.offset as usize > len - GRF_HEADER_SIZE {
            return Err(ArchiveError::TruncatedEntry);
        }
        let start = GRF_HEADER_SIZE + entry.offset as usize;
        if entry.size_packed as usize > len - start {
            return Err(ArchiveError::TruncatedEntry);
        }
        let mut data = slice_to_vec(slice_subrange(file, start, start + entry.size_packed as usize));
        if entry.size == entry.size_packed {
            return Ok(data);
        }
        decode_entry(
            data.as_mut_slice(),
            entry.flag,
            entry.size_aligned,
            entry.size_packed,
            entry.size,
        )
    }
}

/// The effective entry count is the raw count less the seed less 7, and it
/// is this count that bounds the reading of the directory: a valid header
/// holds it, the directory is read for it, and one record fewer than it is
/// read.
pub proof fn lemma_entry_count(data: Seq<u8>, header: Header)
    requires
        header_error(data) is None,
        header.describes(data),
    ensures
        header.file_count == le_u32(data, 38) - le_u32(data, 34) - 7,
        directory_of(data) == file_table(
            data,
            header.file_table_offset as int,
            header.file_count as int,
        ),
        crate::directory::record_count(header.file_count as int) == if header.file_count == 0 {
            0
        } else {
            header.file_count - 1
        },
{
}

/// An entry that holds file content and whose size equals its packed size
/// is read back as the bytes that the archive stores for it, unchanged.
pub proof fn lemma_stored_entry_is_verbatim(data: Seq<u8>, path: Seq<char>)
    requires
        directory_of(data) is Ok,
        directory_of(data)->Ok_0.contains_key(path),
        directory_of(data)->Ok_0[path].flag & 0x01 != 0,
        directory_of(data)->Ok_0[path].size == directory_of(data)->Ok_0[path].size_packed,
        GRF_HEADER_SIZE + directory_of(data)->Ok_0[path].offset + directory_of(
            data,
        )->Ok_0[path].size_packed <= data.len(),
    ensures
        content_of(data, path) == Ok::<Seq<u8>, ArchiveError>(
            data.subrange(
                GRF_HEADER_SIZE + directory_of(data)->Ok_0[path].offset,
                GRF_HEADER_SIZE + directory_of(data)->Ok_0[path].offset + directory_of(
                    data,
                )->Ok_0[path].size_packed,
            ),
        ),
{
}

/// Looking up a path that the directory lacks fails with `NotFound`, and
/// looking up one whose flag lacks the file bit fails with `NotAFile`.
pub proof fn lemma_lookup_failures(data: Seq<u8>, path: Seq<char>)
    requires
        directory_of(data) is Ok,
    ensures
        !directory_of(data)->Ok_0.contains_key(path) ==> content_of(data, path) == Err::<
            Seq<u8>,
            ArchiveError,
        >(ArchiveError::NotFound),
        directory_of(data)->Ok_0.contains_key(path) && directory_of(data)->Ok_0[path].flag & 0x01
            == 0 ==> content_of(data, path) == Err::<Seq<u8>, ArchiveError>(
            ArchiveError::NotAFile,
        ),
{
}

/// Bytes whose signature differs from the fixed one in a single byte are no
/// archive.
pub proof fn lemma_rejects_wrong_signature(data: Seq<u8>, i: int)
    requires
        0 <= i < 15,
        i < data.len(),
        data[i] != crate::header::GRF_MAGIC@[i],
    ensures
        directory_of(data) is Err,
        data.len() >= GRF_HEADER_SIZE ==> directory_of(data) == Err::<
            Map<Seq<char>, Entry>,
            ArchiveError,
        >(ArchiveError::BadMagic),
{
    if data.len() >= GRF_HEADER_SIZE {
        assert(data.subrange(0, 15)[i] == data[i]);
    }
}

/// Bytes whose header names another version than the supported one are no
/// archive.
pub proof fn lemma_rejects_wrong_version(data: Seq<u8>)
    requires
        le_u32(data, 42) != crate::header::GRF_VERSION,
    ensures
        directory_of(data) is Err,
        data.len() >= GRF_HEADER_SIZE && data.subrange(0, 15) == crate::header::GRF_MAGIC@
            ==> directory_of(data) == Err::<Map<Seq<char>, Entry>, ArchiveError>(
            ArchiveError::UnsupportedVersion,
        ),
{
}

} // verus!
