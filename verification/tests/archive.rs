use grf::archive::{decipher, decode_entry, Archive, EntryType};
use grf::des;
use grf::directory::{parse_entries, parse_file_table, Entry};
use grf::header::{parse_header, GRF_HEADER_SIZE, GRF_MAGIC, GRF_VERSION};
use grf::text::decode_path;
use grf::wire::u32_at;
use grf::ArchiveError;

const MAGIC: &[u8] = b"Master of Magic";
const KEY: [u8; 15] = [1, 2, 3, 4, 5, 6, 7, 8, 9, 10, 11, 12, 13, 14, 15];

/// A zlib stream of one stored block whose bytes 8 to 23 decipher to the
/// last 16 bytes of `CIPHERED_CONTENT`; its checksum is that of the content.
const CIPHERED_PAYLOAD: [u8; 28] = [
    0x78, 0x01, 0x01, 0x11, 0x00, 0xee, 0xff, 0x41, 0x12, 0x34, 0x56, 0x78, 0x9a, 0xbc, 0xde,
    0xf0, 0x01, 0x02, 0x03, 0x04, 0x05, 0x06, 0x07, 0x08, 0x10, 0x0c, 0x01, 0x82,
];

const CIPHERED_CONTENT: [u8; 17] = [
    0x41, 0x0d, 0x0d, 0x38, 0x38, 0x03, 0x07, 0x16, 0x32, 0x08, 0x00, 0x08, 0x10, 0x04, 0x08,
    0x00, 0x38,
];

fn zlib(data: &[u8]) -> Vec<u8> {
    let mut encoder = flate2::write::ZlibEncoder::new(Vec::new(), flate2::Compression::default());
    std::io::Write::write_all(&mut encoder, data).unwrap();
    encoder.finish().unwrap()
}

fn header_bytes(magic: &[u8], offset: u32, seed: u32, raw_count: u32, version: u32) -> Vec<u8> {
    let mut out = Vec::new();
    out.extend_from_slice(magic);
    out.extend_from_slice(&KEY);
    out.extend_from_slice(&offset.to_le_bytes());
    out.extend_from_slice(&seed.to_le_bytes());
    out.extend_from_slice(&raw_count.to_le_bytes());
    out.extend_from_slice(&version.to_le_bytes());
    out
}

fn record(path: &[u8], entry: Entry) -> Vec<u8> {
    let mut out = path.to_vec();
    out.push(0);
    out.extend_from_slice(&entry.size_packed.to_le_bytes());
    out.extend_from_slice(&entry.size_aligned.to_le_bytes());
    out.extend_from_slice(&entry.size.to_le_bytes());
    out.push(entry.flag);
    out.extend_from_slice(&entry.offset.to_le_bytes());
    out
}

fn directory_bytes(table: &[u8]) -> Vec<u8> {
    let packed = zlib(table);
    let mut out = Vec::new();
    out.extend_from_slice(&(packed.len() as u32).to_le_bytes());
    out.extend_from_slice(&(table.len() as u32).to_le_bytes());
    out.extend_from_slice(&packed);
    out
}

/// An archive of the given entries: path, stored bytes, decoded size, flag.
fn archive_bytes(items: &[(&str, Vec<u8>, u32, u8)], seed: u32) -> Vec<u8> {
    let mut payloads = Vec::new();
    let mut table = Vec::new();
    for (path, payload, size, flag) in items {
        let size_packed = payload.len() as u32;
        let entry = Entry {
            size_packed,
            size_aligned: (size_packed + 7) / 8 * 8,
            size: *size,
            flag: *flag,
            offset: payloads.len() as u32,
        };
        table.extend_from_slice(&record(path.as_bytes(), entry));
        payloads.extend_from_slice(payload);
    }
    let raw_count = items.len() as u32 + 1 + seed + 7;
    let mut out = header_bytes(MAGIC, payloads.len() as u32, seed, raw_count, 0x200);
    out.extend_from_slice(&payloads);
    out.extend_from_slice(&directory_bytes(&table));
    out
}

fn long_text() -> Vec<u8> {
    let mut text = Vec::new();
    for i in 0..40 {
        text.extend_from_slice(format!("line {} of the packed entry\n", i).as_bytes());
    }
    text
}

fn sample_items() -> Vec<(&'static str, Vec<u8>, u32, u8)> {
    let text = long_text();
    vec![
        ("data\\plain.txt", b"hello, archive".to_vec(), 14, 0x01),
        ("data\\packed.txt", zlib(&text), text.len() as u32, 0x01),
        ("data", Vec::new(), 0, 0x00),
        ("data\\header.bin", CIPHERED_PAYLOAD.to_vec(), 17, 0x05),
        ("data\\mixed.bin", CIPHERED_PAYLOAD.to_vec(), 17, 0x03),
        ("data\\broken.bin", vec![0x55; 12], 40, 0x01),
        ("data\\hidden.bin", b"not a file".to_vec(), 10, 0x06),
    ]
}

fn sample_archive() -> Archive {
    Archive::from_reader(archive_bytes(&sample_items(), 5)).unwrap_or_else(|e| panic!("{:?}", e))
}

#[test]
fn magic_constant_is_the_signature_text() {
    assert_eq!(&GRF_MAGIC[..], MAGIC);
    assert_eq!(GRF_HEADER_SIZE, 46);
    assert_eq!(GRF_VERSION, 0x200);
}

#[test]
fn u32_at_reads_little_endian() {
    let bytes = [0xff, 0x78, 0x56, 0x34, 0x12, 0x01, 0x00, 0x00, 0x80];
    assert_eq!(u32_at(&bytes, 1), 0x1234_5678);
    assert_eq!(u32_at(&bytes, 0), 0x3456_78ff);
    assert_eq!(u32_at(&bytes, 5), 0x8000_0001);
}

#[test]
fn decode_path_trims_white_space() {
    assert_eq!(decode_path(b"  data\\a file.txt \t\r\n"), "data\\a file.txt");
    assert_eq!(decode_path(b"plain"), "plain");
    assert_eq!(decode_path(b" \t "), "");
    assert_eq!(decode_path(b""), "");
}

#[test]
fn decode_path_replaces_invalid_utf8() {
    assert_eq!(decode_path(&[0x61, 0xff, 0x62]), "a\u{fffd}b");
    assert_eq!(decode_path(&[0xc3, 0xa9, 0x20]), "\u{e9}");
}

#[test]
fn entry_type_converts_to_and_from_bits() {
    assert_eq!(EntryType::from(0x01), EntryType::Normal);
    assert_eq!(EntryType::from(0x02), EntryType::EncryptedMixed);
    assert_eq!(EntryType::from(0x04), EntryType::EncryptedHeader);
    assert_eq!(EntryType::from(0x00), EntryType::Unknown);
    assert_eq!(EntryType::from(0x03), EntryType::Unknown);
    assert_eq!(EntryType::from(0xff), EntryType::Unknown);
    assert_eq!(u8::from(EntryType::Unknown), 0x00);
    assert_eq!(u8::from(EntryType::Normal), 0x01);
    assert_eq!(u8::from(EntryType::EncryptedMixed), 0x02);
    assert_eq!(u8::from(EntryType::EncryptedHeader), 0x04);
    let bits: u8 = EntryType::EncryptedHeader.into();
    assert_eq!(bits, 0x04);
}

#[test]
fn parse_header_reads_every_field() {
    let mut data = header_bytes(MAGIC, 0x0102_0304, 3, 20, 0x200);
    data.extend_from_slice(&[9, 9, 9]);
    let header = parse_header(&data).unwrap();
    assert_eq!(&header.magic[..], MAGIC);
    assert_eq!(header.key, KEY);
    assert_eq!(header.file_table_offset, 0x0102_0304);
    assert_eq!(header.seed, 3);
    assert_eq!(header.file_count, 10);
    assert_eq!(header.version, 0x200);
}

#[test]
fn parse_header_adjusts_the_entry_count() {
    for (seed, raw, adjusted) in [(0u32, 7u32, 0u32), (0, 8, 1), (5, 12, 0), (1000, 5000, 3993)] {
        let data = header_bytes(MAGIC, 0, seed, raw, 0x200);
        assert_eq!(parse_header(&data).unwrap().file_count, adjusted);
        assert_eq!(parse_header(&data).unwrap().file_count, raw - seed - 7);
    }
    let data = header_bytes(MAGIC, 0, 0xffff_fff0, 0xffff_ffff, 0x200);
    assert_eq!(parse_header(&data).unwrap().file_count, 8);
}

#[test]
fn parse_header_rejects_a_count_below_seed_plus_7() {
    for (seed, raw) in [(0u32, 6u32), (0, 0), (5, 11), (0xffff_ffff, 0xffff_ffff), (0xffff_fffa, 0)]
    {
        let data = header_bytes(MAGIC, 0, seed, raw, 0x200);
        assert_eq!(parse_header(&data).err(), Some(ArchiveError::BadEntryCount));
    }
}

#[test]
fn parse_header_rejects_short_data() {
    let data = header_bytes(MAGIC, 0, 0, 7, 0x200);
    assert_eq!(data.len(), 46);
    assert!(parse_header(&data).is_ok());
    for len in [0, 1, 15, 45] {
        assert_eq!(parse_header(&data[..len]).err(), Some(ArchiveError::TruncatedHeader));
    }
}

#[test]
fn parse_header_rejects_a_signature_that_differs_in_one_byte() {
    for i in 0..15 {
        let mut magic = MAGIC.to_vec();
        magic[i] ^= 0x01;
        let data = header_bytes(&magic, 0, 0, 7, 0x200);
        assert_eq!(parse_header(&data).err(), Some(ArchiveError::BadMagic));
        assert_eq!(Archive::from_reader(data).err(), Some(ArchiveError::BadMagic));
    }
    let data = header_bytes(b"master of magic", 0, 0, 7, 0x200);
    assert_eq!(parse_header(&data).err(), Some(ArchiveError::BadMagic));
    let data = header_bytes(&[0xff; 15], 0, 0, 7, 0x200);
    assert_eq!(parse_header(&data).err(), Some(ArchiveError::BadMagic));
}

#[test]
fn parse_header_rejects_another_version() {
    for version in [0u32, 0x102, 0x103, 0x1ff, 0x201, 0x0002_0000, 0xffff_ffff] {
        let data = header_bytes(MAGIC, 0, 0, 7, version);
        assert_eq!(parse_header(&data).err(), Some(ArchiveError::UnsupportedVersion));
        assert_eq!(Archive::from_reader(data).err(), Some(ArchiveError::UnsupportedVersion));
    }
}

#[test]
fn parse_header_reports_the_signature_before_the_version() {
    let data = header_bytes(b"Master of Magik", 0, 9, 0, 0x201);
    assert_eq!(parse_header(&data).err(), Some(ArchiveError::BadMagic));
    let data = header_bytes(MAGIC, 0, 9, 0, 0x201);
    assert_eq!(parse_header(&data).err(), Some(ArchiveError::UnsupportedVersion));
}

fn entry(n: u32) -> Entry {
    Entry {
        size_packed: 0x0100_0000 + n,
        size_aligned: 0x0200_0000 + n,
        size: 0x0300_0000 + n,
        flag: n as u8,
        offset: 0x0400_0000 + n,
    }
}

#[test]
fn parse_entries_reads_one_record_fewer_than_the_count() {
    let mut table = Vec::new();
    for n in 0..10 {
        table.extend_from_slice(&record(format!("file{}", n).as_bytes(), entry(n)));
    }
    let parsed = parse_entries(&table, 10).unwrap();
    let mut paths = parsed.paths();
    paths.sort();
    let expected: Vec<String> = (0..9).map(|n| format!("file{}", n)).collect();
    assert_eq!(paths, expected);
    for n in 0..9 {
        assert_eq!(parsed.get(&format!("file{}", n)), Some(entry(n)));
    }
    assert_eq!(parsed.get("file9"), None);

    let parsed = parse_entries(&table, 11).unwrap();
    assert_eq!(parsed.paths().len(), 10);
    assert_eq!(parsed.get("file9"), Some(entry(9)));
    assert_eq!(parse_entries(&table, 12).err(), Some(ArchiveError::TruncatedRecord));
}

#[test]
fn parse_entries_reads_nothing_for_a_count_of_0_or_1() {
    let table = record(b"only", entry(1));
    for count in [0, 1] {
        let parsed = parse_entries(&table, count).unwrap();
        assert!(parsed.paths().is_empty());
        assert_eq!(parsed.get("only"), None);
        assert!(parse_entries(&[], count).is_ok());
    }
    assert_eq!(parse_entries(&[], 2).err(), Some(ArchiveError::TruncatedRecord));
}

#[test]
fn parse_entries_reads_the_fields_in_order() {
    let table = [
        b'a', b'b', 0, 1, 0, 0, 0, 8, 0, 0, 0, 0x10, 0x27, 0, 0, 5, 0x78, 0x56, 0x34, 0x12,
    ];
    let parsed = parse_entries(&table, 2).unwrap();
    assert_eq!(
        parsed.get("ab"),
        Some(Entry { size_packed: 1, size_aligned: 8, size: 10000, flag: 5, offset: 0x1234_5678 })
    );
}

#[test]
fn parse_entries_rejects_a_truncated_record() {
    let table = record(b"some\\path", entry(7));
    assert!(parse_entries(&table, 2).is_ok());
    for len in 0..table.len() {
        assert_eq!(parse_entries(&table[..len], 2).err(), Some(ArchiveError::TruncatedRecord));
    }
    // A path without its terminator.
    assert_eq!(parse_entries(&[b'x'; 64], 2).err(), Some(ArchiveError::TruncatedRecord));
}

#[test]
fn parse_entries_normalizes_paths() {
    let mut table = record(b"  spaced.txt \t", entry(1));
    table.extend_from_slice(&record(&[b'b', 0xff, b'd'], entry(2)));
    table.extend_from_slice(&record(b"", entry(3)));
    let parsed = parse_entries(&table, 4).unwrap();
    assert_eq!(parsed.get("spaced.txt"), Some(entry(1)));
    assert_eq!(parsed.get("  spaced.txt \t"), None);
    assert_eq!(parsed.get("b\u{fffd}d"), Some(entry(2)));
    assert_eq!(parsed.get(""), Some(entry(3)));
    let mut paths = parsed.paths();
    paths.sort();
    assert_eq!(paths, vec!["", "b\u{fffd}d", "spaced.txt"]);
}

#[test]
fn parse_entries_keeps_the_last_record_of_a_path() {
    let mut table = record(b"twice", entry(1));
    table.extend_from_slice(&record(b"once", entry(2)));
    table.extend_from_slice(&record(b" twice", entry(3)));
    let parsed = parse_entries(&table, 4).unwrap();
    assert_eq!(parsed.get("twice"), Some(entry(3)));
    assert_eq!(parsed.get("once"), Some(entry(2)));
    let mut paths = parsed.paths();
    paths.sort();
    assert_eq!(paths, vec!["once", "twice"]);
}

#[test]
fn parse_file_table_finds_and_unpacks_the_directory() {
    let mut table = record(b"first", entry(1));
    table.extend_from_slice(&record(b"second", entry(2)));
    let mut data = header_bytes(MAGIC, 5, 0, 10, 0x200);
    data.extend_from_slice(&[0xee; 5]);
    data.extend_from_slice(&directory_bytes(&table));
    data.extend_from_slice(&[0xdd; 3]);
    let parsed = parse_file_table(&data, 5, 3).unwrap();
    assert_eq!(parsed.get("first"), Some(entry(1)));
    assert_eq!(parsed.get("second"), Some(entry(2)));
    assert_eq!(parsed.paths().len(), 2);
    assert_eq!(parse_file_table(&data, 5, 4).err(), Some(ArchiveError::TruncatedRecord));
    // At another offset the bytes are no directory.
    assert!(parse_file_table(&data, 4, 3).is_err());
}

#[test]
fn parse_file_table_rejects_a_truncated_directory() {
    let table = record(b"first", entry(1));
    let mut data = header_bytes(MAGIC, 0, 0, 9, 0x200);
    data.extend_from_slice(&directory_bytes(&table));
    assert!(parse_file_table(&data, 0, 2).is_ok());
    for len in 0..data.len() {
        assert_eq!(
            parse_file_table(&data[..len], 0, 2).err(),
            Some(ArchiveError::TruncatedDirectory)
        );
    }
    let beyond = data.len() - 46 - 7;
    assert_eq!(parse_file_table(&data, beyond, 2).err(), Some(ArchiveError::TruncatedDirectory));
    assert_eq!(
        parse_file_table(&data, usize::MAX, 2).err(),
        Some(ArchiveError::TruncatedDirectory)
    );
}

#[test]
fn parse_file_table_rejects_a_corrupt_stream() {
    let mut data = header_bytes(MAGIC, 0, 0, 9, 0x200);
    data.extend_from_slice(&8u32.to_le_bytes());
    data.extend_from_slice(&30u32.to_le_bytes());
    data.extend_from_slice(&[0x55; 8]);
    assert_eq!(parse_file_table(&data, 0, 2).err(), Some(ArchiveError::Inflate));
}

#[test]
fn parse_file_table_takes_the_announced_size_of_the_table() {
    let mut table = record(b"first", entry(1));
    table.extend_from_slice(&record(b"second", entry(2)));
    let packed = zlib(&table);
    let build = |size: u32| {
        let mut data = header_bytes(MAGIC, 0, 0, 10, 0x200);
        data.extend_from_slice(&(packed.len() as u32).to_le_bytes());
        data.extend_from_slice(&size.to_le_bytes());
        data.extend_from_slice(&packed);
        data
    };
    // A stream that holds less than announced is rejected.
    let data = build(table.len() as u32 + 1);
    assert_eq!(parse_file_table(&data, 0, 3).err(), Some(ArchiveError::Inflate));
    // Of a stream that holds more, the announced bytes are the table.
    let data = build(23);
    let parsed = parse_file_table(&data, 0, 2).unwrap();
    assert_eq!(parsed.get("first"), Some(entry(1)));
    assert_eq!(parse_file_table(&data, 0, 3).err(), Some(ArchiveError::TruncatedRecord));
    let data = build(22);
    assert_eq!(parse_file_table(&data, 0, 2).err(), Some(ArchiveError::TruncatedRecord));
}

#[test]
fn from_reader_opens_an_archive() {
    let archive = sample_archive();
    let header = archive.header();
    assert_eq!(header.seed, 5);
    assert_eq!(header.file_count, 8);
    assert_eq!(header.version, 0x200);
    assert_eq!(header.key, KEY);
    let mut paths = archive.list_entries().unwrap();
    paths.sort();
    assert_eq!(
        paths,
        vec![
            "data",
            "data\\broken.bin",
            "data\\header.bin",
            "data\\hidden.bin",
            "data\\mixed.bin",
            "data\\packed.txt",
            "data\\plain.txt",
        ]
    );
}

#[test]
fn from_reader_opens_an_empty_archive() {
    let archive = Archive::from_reader(archive_bytes(&[], 0)).unwrap_or_else(|e| panic!("{:?}", e));
    assert_eq!(archive.header().file_count, 1);
    assert!(archive.list_entries().unwrap().is_empty());
    assert_eq!(archive.read_entry("anything").err(), Some(ArchiveError::NotFound));
}

#[test]
fn from_reader_rejects_what_is_no_archive() {
    assert_eq!(Archive::from_reader(Vec::new()).err(), Some(ArchiveError::TruncatedHeader));
    let good = archive_bytes(&sample_items(), 5);
    assert_eq!(
        Archive::from_reader(good[..45].to_vec()).err(),
        Some(ArchiveError::TruncatedHeader)
    );
    assert_eq!(
        Archive::from_reader(good[..46].to_vec()).err(),
        Some(ArchiveError::TruncatedDirectory)
    );
    assert_eq!(
        Archive::from_reader(good[..good.len() - 1].to_vec()).err(),
        Some(ArchiveError::TruncatedDirectory)
    );
    let mut bad = good.clone();
    bad[38..42].copy_from_slice(&11u32.to_le_bytes());
    assert_eq!(Archive::from_reader(bad).err(), Some(ArchiveError::BadEntryCount));
    let mut bad = good.clone();
    bad[38..42].copy_from_slice(&21u32.to_le_bytes());
    assert_eq!(Archive::from_reader(bad).err(), Some(ArchiveError::TruncatedRecord));
    let mut bad = good.clone();
    let directory = 46 + u32::from_le_bytes([good[30], good[31], good[32], good[33]]) as usize;
    bad[directory + 8] ^= 0xff;
    assert_eq!(Archive::from_reader(bad).err(), Some(ArchiveError::Inflate));
}

#[test]
fn from_reader_uses_the_adjusted_count_for_the_directory() {
    // With a raw count one lower the last record is not read.
    let mut data = archive_bytes(&sample_items(), 5);
    data[38..42].copy_from_slice(&19u32.to_le_bytes());
    let archive = Archive::from_reader(data).unwrap_or_else(|e| panic!("{:?}", e));
    assert_eq!(archive.header().file_count, 7);
    assert_eq!(archive.list_entries().unwrap().len(), 6);
    assert_eq!(archive.read_entry("data\\hidden.bin").err(), Some(ArchiveError::NotFound));
    // The same raw count with a seed one lower reads all of them.
    let mut data = archive_bytes(&sample_items(), 5);
    data[38..42].copy_from_slice(&19u32.to_le_bytes());
    data[34..38].copy_from_slice(&4u32.to_le_bytes());
    let archive = Archive::from_reader(data).unwrap_or_else(|e| panic!("{:?}", e));
    assert_eq!(archive.header().file_count, 8);
    assert_eq!(archive.list_entries().unwrap().len(), 7);
}

#[test]
fn read_entry_returns_a_stored_entry_unchanged() {
    let archive = sample_archive();
    assert_eq!(archive.read_entry("data\\plain.txt"), Ok(b"hello, archive".to_vec()));
    // Each read decodes anew.
    assert_eq!(archive.read_entry("data\\plain.txt"), Ok(b"hello, archive".to_vec()));
}

#[test]
fn read_entry_returns_stored_bytes_whatever_the_cipher_flags() {
    let payload: Vec<u8> = (0..200u32).map(|i| (i * 3 + 1) as u8).collect();
    for flag in [0x01u8, 0x03, 0x05, 0x07, 0xff] {
        let items = vec![("stored.bin", payload.clone(), 200, flag)];
        let archive =
            Archive::from_reader(archive_bytes(&items, 0)).unwrap_or_else(|e| panic!("{:?}", e));
        assert_eq!(archive.read_entry("stored.bin"), Ok(payload.clone()));
    }
}

#[test]
fn read_entry_returns_an_empty_stored_entry() {
    let items = vec![("empty", Vec::new(), 0, 0x01)];
    let archive =
        Archive::from_reader(archive_bytes(&items, 0)).unwrap_or_else(|e| panic!("{:?}", e));
    assert_eq!(archive.read_entry("empty"), Ok(Vec::new()));
}

#[test]
fn read_entry_unpacks_a_packed_entry() {
    let archive = sample_archive();
    assert_eq!(archive.read_entry("data\\packed.txt"), Ok(long_text()));
}

#[test]
fn read_entry_deciphers_the_header_of_a_header_encrypted_entry() {
    let archive = sample_archive();
    assert_eq!(archive.read_entry("data\\header.bin"), Ok(CIPHERED_CONTENT.to_vec()));
}

#[test]
fn read_entry_deciphers_a_mixed_encrypted_entry() {
    let archive = sample_archive();
    assert_eq!(archive.read_entry("data\\mixed.bin"), Ok(CIPHERED_CONTENT.to_vec()));
}

#[test]
fn read_entry_does_not_decipher_without_a_cipher_flag() {
    // The same payload without a cipher flag: the stream's checksum does not
    // match its undeciphered bytes.
    let items = vec![("plain.bin", CIPHERED_PAYLOAD.to_vec(), 17, 0x01)];
    let archive =
        Archive::from_reader(archive_bytes(&items, 0)).unwrap_or_else(|e| panic!("{:?}", e));
    assert_ne!(archive.read_entry("plain.bin"), Ok(CIPHERED_CONTENT.to_vec()));
}

#[test]
fn read_entry_fails_on_a_missing_path() {
    let archive = sample_archive();
    assert_eq!(archive.read_entry("data\\absent.txt"), Err(ArchiveError::NotFound));
    assert_eq!(archive.read_entry(""), Err(ArchiveError::NotFound));
    assert_eq!(archive.read_entry("DATA\\PLAIN.TXT"), Err(ArchiveError::NotFound));
    // The archive stays usable.
    assert_eq!(archive.read_entry("data\\plain.txt"), Ok(b"hello, archive".to_vec()));
}

#[test]
fn read_entry_fails_on_what_is_not_a_file() {
    let archive = sample_archive();
    assert_eq!(archive.read_entry("data"), Err(ArchiveError::NotAFile));
    assert_eq!(archive.read_entry("data\\hidden.bin"), Err(ArchiveError::NotAFile));
    assert_eq!(archive.read_entry("data\\plain.txt"), Ok(b"hello, archive".to_vec()));
}

#[test]
fn read_entry_fails_on_a_corrupt_stream() {
    let archive = sample_archive();
    assert_eq!(archive.read_entry("data\\broken.bin"), Err(ArchiveError::Inflate));
}

#[test]
fn read_entry_fails_on_an_entry_beyond_the_data() {
    let mut table = record(
        b"far",
        Entry { size_packed: 4, size_aligned: 8, size: 4, flag: 1, offset: 1_000_000 },
    );
    table.extend_from_slice(&record(
        b"long",
        Entry { size_packed: 1_000_000, size_aligned: 1_000_000, size: 1_000_000, flag: 1, offset: 0 },
    ));
    table.extend_from_slice(&record(
        b"huge",
        Entry {
            size_packed: 0xffff_ffff,
            size_aligned: 0,
            size: 0xffff_ffff,
            flag: 1,
            offset: 0xffff_ffff,
        },
    ));
    let directory = directory_bytes(&table);
    let fitting = directory.len() as u32;
    table.extend_from_slice(&record(
        b"fits",
        Entry { size_packed: fitting, size_aligned: 0, size: fitting, flag: 1, offset: 0 },
    ));
    let mut data = header_bytes(MAGIC, 0, 0, 12, 0x200);
    data.extend_from_slice(&directory_bytes(&table));
    let archive = Archive::from_reader(data).unwrap_or_else(|e| panic!("{:?}", e));
    assert_eq!(archive.read_entry("far"), Err(ArchiveError::TruncatedEntry));
    assert_eq!(archive.read_entry("long"), Err(ArchiveError::TruncatedEntry));
    assert_eq!(archive.read_entry("huge"), Err(ArchiveError::TruncatedEntry));
    assert_eq!(archive.read_entry("fits").map(|bytes| bytes.len()), Ok(fitting as usize));
}

#[test]
fn decipher_routes_by_flag() {
    let before: Vec<u8> = (0..368usize).map(|i| ((i * 13 + 5) & 0xff) as u8).collect();
    let mut full = before.clone();
    des::decode_entry(&mut full, 368, 10);
    let mut header_only = before.clone();
    des::decode_header(&mut header_only, 368);
    assert_ne!(full, header_only);
    for (flag, expected) in [
        (0x00u8, &before),
        (0x01, &before),
        (0x02, &full),
        (0x03, &full),
        (0x04, &header_only),
        (0x05, &header_only),
        (0x06, &full),
        (0x07, &full),
        (0xf9, &before),
    ] {
        let mut buf = before.clone();
        decipher(&mut buf, flag, 368, 10);
        assert_eq!(&buf, expected, "flag {:#x}", flag);
    }
}

#[test]
fn decode_entry_deciphers_then_unpacks() {
    let mut buf = CIPHERED_PAYLOAD.to_vec();
    assert_eq!(decode_entry(&mut buf, 0x04, 32, 28, 17), Ok(CIPHERED_CONTENT.to_vec()));
    assert_eq!(buf[..8], CIPHERED_PAYLOAD[..8]);
    assert_eq!(buf[8..24], CIPHERED_CONTENT[1..]);
    assert_eq!(buf[24..], CIPHERED_PAYLOAD[24..]);

    let mut buf = CIPHERED_PAYLOAD.to_vec();
    assert_eq!(decode_entry(&mut buf, 0x02, 32, 28, 17), Ok(CIPHERED_CONTENT.to_vec()));

    let text = long_text();
    let mut buf = zlib(&text);
    assert_eq!(decode_entry(&mut buf, 0x01, 0, 0, text.len() as u32), Ok(text.clone()));
    // A shorter announced size gives the start of the content.
    let mut buf = zlib(&text);
    assert_eq!(decode_entry(&mut buf, 0x01, 0, 0, 10), Ok(text[..10].to_vec()));
    // A longer one cannot be met.
    let mut buf = zlib(&text);
    assert_eq!(decode_entry(&mut buf, 0x01, 0, 0, text.len() as u32 + 1), Err(ArchiveError::Inflate));
}
