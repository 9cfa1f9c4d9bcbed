//! The directory: the table that maps the path of each entry to where and how
//! its bytes are stored.
//!
//! On disk the directory is a zlib stream. Decompressed, it is a run of
//! records without padding: the bytes of a path, a zero byte, then 17 bytes
//! of fields.

use crate::error::ArchiveError;
use crate::header::GRF_HEADER_SIZE;
use crate::inflate::{inflate, inflated};
use crate::text::{decode_path, path_text};
use crate::wire::{le_u32, u32_at};
use vstd::hash_map::StringHashMap;
use vstd::prelude::*;
use vstd::slice::slice_subrange;

verus! {

/// Size in bytes of the terminator and the fields that follow a path.
pub const RECORD_TAIL_SIZE: usize = 18;

/// Size in bytes of the two sizes that precede the packed directory.
pub const TABLE_SIZES_SIZE: usize = 8;

/// What the directory records of one entry, besides its path.
#[derive(Clone, Copy, Debug, PartialEq, Eq, Structural)]
pub struct Entry {
    /// Number of bytes that the entry occupies in the archive.
    pub size_packed: u32,
    /// The packed size rounded up to whole cipher blocks.
    pub size_aligned: u32,
    /// Number of bytes of the decoded entry.
    pub size: u32,
    /// Bit 0: file content; bit 1: full cipher pass; bit 2: header-only pass.
    pub flag: u8,
    /// Byte offset of the entry's bytes, counted from the end of the header.
    pub offset: u32,
}

/// Index of the first zero byte of `table` at or after `pos`, or the length
/// of `table` if there is none.
pub open spec fn path_end(table: Seq<u8>, pos: int) -> int
    decreases table.len() - pos,
{
    if pos < 0 || pos >= table.len() {
        table.len() as int
    } else if table[pos] == 0 {
        pos
    } else {
        path_end(table, pos + 1)
    }
}

/// The fields that follow the path terminator at index `end` of `table`.
pub open spec fn entry_at(table: Seq<u8>, end: int) -> Entry {
    Entry {
        size_packed: le_u32(table, end + 1) as u32,
        size_aligned: le_u32(table, end + 5) as u32,
        size: le_u32(table, end + 9) as u32,
        flag: table[end + 13],
        offset: le_u32(table, end + 14) as u32,
    }
}

/// A whole record starts at `pos`: its path is terminated and its fields lie
/// within `table`.
pub open spec fn record_fits(table: Seq<u8>, pos: int) -> bool {
    0 <= pos && path_end(table, pos) + RECORD_TAIL_SIZE <= table.len()
}

/// The directory that results from `found` when `count` more records are read
/// from `table`, the first of them at `pos`; `None` if `table` ends before
/// the last of them does. A record replaces an earlier one of the same path.
pub open spec fn directory_from(
    table: Seq<u8>,
    pos: int,
    count: nat,
    found: Map<Seq<char>, Entry>,
) -> Option<Map<Seq<char>, Entry>>
    decreases count,
{
    if count == 0 {
        Some(found)
    } else if !record_fits(table, pos) {
        None
    } else {
        let end = path_end(table, pos);
        directory_from(
            table,
            end + RECORD_TAIL_SIZE,
            (count - 1) as nat,
            found.insert(path_text(table.subrange(pos, end)), entry_at(table, end)),
        )
    }
}

/// Number of records that are read for an effective entry count: one less,
/// as the count includes a closing record that is not read.
pub open spec fn record_count(file_count: int) -> nat {
    if file_count >= 1 {
        (file_count - 1) as nat
    } else {
        0
    }
}

/// The directory that the decompressed table `table` holds for an effective
/// entry count of `file_count`.
pub open spec fn directory_in(table: Seq<u8>, file_count: int) -> Option<Map<Seq<char>, Entry>> {
    directory_from(table, 0, record_count(file_count), Map::empty())
}

/// The packed directory that `data` holds at `offset` bytes after the header,
/// and the size that it announces for the decompressed table; `None` if
/// `data` ends before the packed directory does.
pub open spec fn packed_table(data: Seq<u8>, offset: int) -> Option<(Seq<u8>, nat)> {
    let at = GRF_HEADER_SIZE + offset;
    let start = at + TABLE_SIZES_SIZE;
    if start > data.len() {
        None
    } else if start + le_u32(data, at) > data.len() {
        None
    } else {
        Some((data.subrange(start, start + le_u32(data, at)), le_u32(data, at + 4) as nat))
    }
}

/// The directory of the archive bytes `data`, for a directory offset and an
/// effective entry count as a header gives them, or the reason why it cannot
/// be had.
pub open spec fn file_table(data: Seq<u8>, offset: int, file_count: int) -> Result<
    Map<Seq<char>, Entry>,
    ArchiveError,
> {
    match packed_table(data, offset) {
        None => Err(ArchiveError::TruncatedDirectory),
        Some((packed, size)) => match inflated(packed, size) {
            None => Err(ArchiveError::Inflate),
            Some(table) => match directory_in(table, file_count) {
                None => Err(ArchiveError::TruncatedRecord),
                Some(directory) => Ok(directory),
            },
        },
    }
}

/// The texts of a sequence of strings.
pub open spec fn texts(names: Seq<String>) -> Seq<Seq<char>> {
    Seq::new(names.len(), |i: int| names[i]@)
}

/// `paths` lists each path of `directory` once and nothing else.
pub open spec fn enumerates(paths: Seq<Seq<char>>, directory: Map<Seq<char>, Entry>) -> bool {
    &&& paths.no_duplicates()
    &&& forall|path: Seq<char>| directory.contains_key(path) <==> paths.contains(path)
}

/// The parsed directory of an archive.
pub struct EntryTable {
    entries: StringHashMap<Entry>,
    names: Vec<String>,
}

impl EntryTable {
    #[verifier::type_invariant]
    spec fn well_formed(self) -> bool {
        enumerates(texts(self.names@), self.entries@)
    }

    /// The directory as a map from path to entry.
    pub closed spec fn view(&self) -> Map<Seq<char>, Entry> {
        self.entries@
    }

    /// The entry of the given path, if the directory has one.
    pub fn get(&self, path: &str) -> (found: Option<Entry>)
        ensures
            found == if self@.contains_key(path@) {
                Some(self@[path@])
            } else {
                None
            },
    {
        match self.entries.get(path) {
            Some(entry) => Some(*entry),
            None => None,
        }
    }

    /// The paths of the directory, each once, in no particular order.
    pub fn paths(&self) -> (paths: Vec<String>)
        ensures
            enumerates(texts(paths@), self@),
    {
        proof {
            use_type_invariant(self);
        }
        let mut paths: Vec<String> = Vec::new();
        let mut i: usize = 0;
        while i < self.names.len()
            invariant
                i <= self.names@.len(),
                paths@.len() == i,
                forall|k: int| 0 <= k < i ==> paths@[k]@ == self.names@[k]@,
            decreases self.names@.len() - i,
        {
            paths.push(self.names[i].clone());
            i += 1;
        }
        assert(texts(paths@) =~= texts(self.names@));
        paths
    }
}

/// The outcome of parsing a directory, with the table taken by its view.
pub open spec fn parsed(result: Result<EntryTable, ArchiveError>) -> Result<
    Map<Seq<char>, Entry>,
    ArchiveError,
> {
    match result {
        Ok(entry_table) => Ok(entry_table@),
        Err(error) => Err(error),
    }
}

fn find_path_end(table: &[u8], pos: usize) -> (end: usize)
    requires
        pos <= table@.len(),
    ensures
        end == path_end(table@, pos as int),
        pos <= end <= table@.len(),
{
    let mut end = pos;
    while end < table.len() && table[end] != 0
        invariant
            pos <= end <= table@.len(),
            path_end(table@, pos as int) == path_end(table@, end as int),
        decreases table@.len() - end,
    {
        end += 1;
    }
    end
}

proof fn lemma_enumerates_insert(
    names: Seq<String>,
    directory: Map<Seq<char>, Entry>,
    name: String,
    entry: Entry,
)
    requires
        enumerates(texts(names), directory),
    ensures
        directory.contains_key(name@) ==> enumerates(texts(names), directory.insert(name@, entry)),
        !directory.contains_key(name@) ==> enumerates(
            texts(names.push(name)),
            directory.insert(name@, entry),
        ),
{
    let after = directory.insert(name@, entry);
    if directory.contains_key(name@) {
        assert forall|path: Seq<char>| after.contains_key(path) <==> texts(names).contains(
            path,
        ) by {}
    } else {
        let longer = texts(names.push(name));
        assert(longer =~= texts(names).push(name@));
        assert forall|path: Seq<char>| after.contains_key(path) <==> longer.contains(path) by {
            vstd::seq_lib::lemma_seq_contains_after_push(texts(names), name@, path);
        }
        assert forall|i: int, j: int| 0 <= i < longer.len() && 0 <= j < longer.len() && i != j
            implies longer[i] != longer[j] by {
            if i == names.len() {
                assert(texts(names).contains(longer[j]));
            } else if j == names.len() {
                assert(texts(names).contains(longer[i]));
            }
        }
    }
}

/// Parses the decompressed directory table `table` for an effective entry
/// count of `file_count`: reads `file_count - 1` records from its start. It
/// fails if and only if the table ends before the last of them does.
pub fn parse_entries(table: &[u8], file_count: usize) -> (result: Result<EntryTable, ArchiveError>)
    ensures
        match result {
            Ok(entry_table) => directory_in(table@, file_count as int) == Some(entry_table@),
            Err(error) => error == ArchiveError::TruncatedRecord && directory_in(
                table@,
                file_count as int,
            ) is None,
        },
{
    let mut entries: StringHashMap<Entry> = StringHashMap::new();
    let mut names: Vec<String> = Vec::new();
    let mut pos: usize = 0;
    let mut remaining: usize = if file_count >= 1 {
        file_count - 1
    } else {
        0
    };
    assert(texts(names@) =~= Seq::<Seq<char>>::empty());
    while remaining > 0
        invariant
            pos <= table@.len(),
            enumerates(texts(names@), entries@),
            directory_in(table@, file_count as int) == directory_from(
                table@,
                pos as int,
                remaining as nat,
                entries@,
            ),
        decreases remaining,
    {
        let end = find_path_end(table, pos);
        if table.len() - end < RECORD_TAIL_SIZE {
            return Err(ArchiveError::TruncatedRecord);
        }
        let path = decode_path(slice_subrange(table, pos, end));
        let entry = Entry {
            size_packed: u32_at(table, end + 1),
            size_aligned: u32_at(table, end + 5),
            size: u32_at(table, end + 9),
            flag: table[end + 13],
            offset: u32_at(table, end + 14),
        };
        proof {
            lemma_enumerates_insert(names@, entries@, path, entry);
        }
        if !entries.contains_key(path.as_str()) {
            names.push(path.clone());
        }
        entries.insert(path, entry);
        pos = end + RECORD_TAIL_SIZE;
        remaining -= 1;
    }
    Ok(EntryTable { entries, names })
}

/// Reads the directory of the archive bytes `data`: finds the packed
/// directory at `offset` bytes after the header, decompresses it and parses
/// `file_count - 1` records.
pub fn parse_file_table(data: &[u8], offset: usize, file_count: usize) -> (result: Result<
    EntryTable,
    ArchiveError,
>)
    ensures
        parsed(result) == file_table(data@, offset as int, file_count as int),
{
    let len = data.len();
    if len < GRF_HEADER_SIZE + TABLE_SIZES_SIZE || offset > len - (GRF_HEADER_SIZE
        + TABLE_SIZES_SIZE) {
        return Err(ArchiveError::TruncatedDirectory);
    }
    let at = GRF_HEADER_SIZE + offset;
    let size_packed = u32_at(data, at);
    let size_unpacked = u32_at(data, at + 4);
    let start = at + TABLE_SIZES_SIZE;
    if size_packed as usize > len - start {
        return Err(ArchiveError::TruncatedDirectory);
    }
    let packed = slice_subrange(data, start, start + size_packed as usize);
    match inflate(packed, size_unpacked as usize) {
        None => Err(ArchiveError::Inflate),
        Some(table) => parse_entries(table.as_slice(), file_count),
    }
}

} // verus!
