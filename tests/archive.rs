use std::io::{Read, Write};
use ungelify::{ArchiveError, MagesArchive, RepackFile};

struct Rec<'a> {
    indicator: u32,
    id: u32,
    offset: u64,
    stored: u64,
    size: u64,
    name: &'a str,
}

fn name_field(name: &str) -> Vec<u8> {
    let mut field = vec![0u8; 224];
    field[..name.len()].copy_from_slice(name.as_bytes());
    field
}

fn v1_header(count: u32) -> Vec<u8> {
    let mut out = b"MPK\0".to_vec();
    out.extend_from_slice(&0u16.to_le_bytes());
    out.extend_from_slice(&1u16.to_le_bytes());
    out.extend_from_slice(&count.to_le_bytes());
    out.resize(0x40, 0);
    out
}

fn v2_header(count: u64) -> Vec<u8> {
    let mut out = b"MPK\0".to_vec();
    out.extend_from_slice(&0u16.to_le_bytes());
    out.extend_from_slice(&2u16.to_le_bytes());
    out.extend_from_slice(&count.to_le_bytes());
    out.resize(0x44, 0);
    out
}

fn v1_record(r: &Rec) -> Vec<u8> {
    let mut out = Vec::new();
    out.extend_from_slice(&r.id.to_le_bytes());
    out.extend_from_slice(&(r.offset as u32).to_le_bytes());
    out.extend_from_slice(&(r.stored as u32).to_le_bytes());
    out.extend_from_slice(&(r.size as u32).to_le_bytes());
    out.extend_from_slice(&[0u8; 16]);
    out.extend_from_slice(&name_field(r.name));
    out
}

fn v2_record(r: &Rec) -> Vec<u8> {
    let mut out = Vec::new();
    out.extend_from_slice(&r.indicator.to_le_bytes());
    out.extend_from_slice(&r.id.to_le_bytes());
    out.extend_from_slice(&r.offset.to_le_bytes());
    out.extend_from_slice(&r.stored.to_le_bytes());
    out.extend_from_slice(&r.size.to_le_bytes());
    out.extend_from_slice(&name_field(r.name));
    out
}

fn put(out: &mut Vec<u8>, pos: usize, bytes: &[u8]) {
    if out.len() < pos + bytes.len() {
        out.resize(pos + bytes.len(), 0);
    }
    out[pos..pos + bytes.len()].copy_from_slice(bytes);
}

fn zlib(data: &[u8]) -> Vec<u8> {
    let mut enc = flate2::write::ZlibEncoder::new(Vec::new(), flate2::Compression::default());
    enc.write_all(data).unwrap();
    enc.finish().unwrap()
}

fn unzlib(data: &[u8]) -> Vec<u8> {
    let mut out = Vec::new();
    flate2::read::ZlibDecoder::new(data).read_to_end(&mut out).unwrap();
    out
}

/// A version-1 archive with one entry, `a.txt`, holding `HelloWorld` right
/// after the table.
fn hello_archive() -> Vec<u8> {
    let mut data = v1_header(1);
    data.extend(v1_record(&Rec { indicator: 0, id: 0, offset: 0x140, stored: 10, size: 10, name: "a.txt" }));
    data.extend_from_slice(b"HelloWorld");
    data
}

/// A version-2 archive laid out as a repack writes it: an uncompressed entry at
/// 0x800, padded, then a compressed one at 0x1000.
fn v2_fixture() -> (Vec<u8>, Vec<u8>) {
    let packed = zlib(b"hello hello hello hello");
    let mut data = v2_header(2);
    data.extend(v2_record(&Rec { indicator: 0, id: 3, offset: 0x800, stored: 3, size: 3, name: "abc.bin" }));
    data.extend(v2_record(&Rec {
        indicator: 1,
        id: 9,
        offset: 0x1000,
        stored: packed.len() as u64,
        size: 23,
        name: "greeting.txt",
    }));
    put(&mut data, 0x800, b"abc");
    put(&mut data, 0x1000, &packed);
    (data, packed)
}

#[test]
fn extract_single_uncompressed_entry() {
    let data = hello_archive();
    let archive = MagesArchive::build(&data).unwrap();
    assert_eq!(archive.extract_entry(0, &data).unwrap(), b"HelloWorld".to_vec());
}

#[test]
fn repack_replaces_content_in_place() {
    let data = hello_archive();
    let archive = MagesArchive::build(&data).unwrap();
    let files = vec![RepackFile { name: "a.txt".to_string(), contents: b"Bye!!".to_vec() }];
    let (new_archive, out) = archive.repack_entries(&data, &files).unwrap();
    let entry = new_archive.get_entry_by_id(0).unwrap();
    assert_eq!(entry.len_deflated(), 5);
    assert_eq!(entry.len_compressed(), 5);
    assert_eq!(entry.offset(), 0x140);
    assert_eq!(&out[0x140..0x145], b"Bye!!");
    assert_eq!(out.len(), 0x145);
    let reread = MagesArchive::build(&out).unwrap();
    assert_eq!(reread.extract_entry(0, &out).unwrap(), b"Bye!!".to_vec());
}

#[test]
fn parse_lists_table_records() {
    let (data, packed) = v2_fixture();
    let archive = MagesArchive::build(&data).unwrap();
    let rows = archive.list_entries();
    assert_eq!(
        rows,
        vec![
            (3, "abc.bin".to_string(), 3, 0x800, false),
            (9, "greeting.txt".to_string(), 23, 0x1000, true),
        ]
    );
    let second = archive.entry_at(1).unwrap();
    assert_eq!(second.len_compressed(), packed.len() as u64);
    assert_eq!(archive.len(), 2);
    assert_eq!(archive.iter().len(), 2);
}

#[test]
fn zero_record_is_dropped() {
    let mut data = v1_header(3);
    data.extend(v1_record(&Rec { indicator: 0, id: 0, offset: 0x400, stored: 2, size: 2, name: "x" }));
    data.extend(v1_record(&Rec { indicator: 0, id: 1, offset: 0x800, stored: 2, size: 2, name: "y" }));
    data.extend(vec![0u8; 256]);
    put(&mut data, 0x400, b"xx");
    put(&mut data, 0x800, b"yy");
    let archive = MagesArchive::build(&data).unwrap();
    assert_eq!(archive.len(), 2);
    assert_eq!(archive.get_entry_by_id(0).unwrap().name(), "x");
    assert_eq!(archive.get_entry_by_id(1).unwrap().name(), "y");
    assert_eq!(archive.overwritten_records(), 0);
}

#[test]
fn repeated_id_keeps_place_and_takes_later_record() {
    let mut data = v1_header(3);
    data.extend(v1_record(&Rec { indicator: 0, id: 5, offset: 0x400, stored: 1, size: 1, name: "first" }));
    data.extend(v1_record(&Rec { indicator: 0, id: 6, offset: 0x500, stored: 1, size: 1, name: "other" }));
    data.extend(v1_record(&Rec { indicator: 0, id: 5, offset: 0x600, stored: 1, size: 1, name: "second" }));
    data.resize(0x700, 0);
    let archive = MagesArchive::build(&data).unwrap();
    assert_eq!(archive.len(), 2);
    assert_eq!(archive.entry_at(0).unwrap().name(), "second");
    assert_eq!(archive.entry_at(1).unwrap().name(), "other");
    assert_eq!(archive.overwritten_records(), 1);
}

#[test]
fn repack_without_replacements_is_byte_identical() {
    let (data, _) = v2_fixture();
    let archive = MagesArchive::build(&data).unwrap();
    let (_, out) = archive.repack_entries(&data, &Vec::new()).unwrap();
    assert_eq!(out, data);
}

#[test]
fn compressed_entry_round_trips_through_repack() {
    let (data, _) = v2_fixture();
    let archive = MagesArchive::build(&data).unwrap();
    let entry = archive.get_entry_by_id(9).unwrap();
    let content = entry.extract(&data).unwrap();
    assert_eq!(content, b"hello hello hello hello".to_vec());
    let mut stored = Vec::new();
    let written = entry.repack(&content, &mut stored);
    assert_eq!(written, stored.len() as u64);
    assert_eq!(unzlib(&stored), content);
}

#[test]
fn replaced_compressed_entry_is_recompressed() {
    let (data, _) = v2_fixture();
    let archive = MagesArchive::build(&data).unwrap();
    let files = vec![RepackFile { name: "greeting.txt".to_string(), contents: b"bye bye".to_vec() }];
    let (new_archive, out) = archive.repack_entries(&data, &files).unwrap();
    let entry = new_archive.get_entry_by_id(9).unwrap();
    assert!(entry.is_compressed());
    assert_eq!(entry.len_deflated(), 7);
    let start = entry.offset() as usize;
    let stored = &out[start..start + entry.len_compressed() as usize];
    assert_ne!(stored, b"bye bye");
    assert_eq!(unzlib(stored), b"bye bye".to_vec());
    let reread = MagesArchive::build(&out).unwrap();
    assert_eq!(reread.extract_entry(9, &out).unwrap(), b"bye bye".to_vec());
    assert_eq!(reread.extract_entry(3, &out).unwrap(), b"abc".to_vec());
}

#[test]
fn repacked_offsets_are_aligned() {
    let mut data = v1_header(3);
    data.extend(v1_record(&Rec { indicator: 0, id: 1, offset: 0x340, stored: 5, size: 5, name: "one" }));
    data.extend(v1_record(&Rec { indicator: 0, id: 2, offset: 0x345, stored: 3000, size: 3000, name: "two" }));
    data.extend(v1_record(&Rec { indicator: 0, id: 3, offset: 0xF00, stored: 7, size: 7, name: "three" }));
    data.resize(0x1000, 0x55);
    let archive = MagesArchive::build(&data).unwrap();
    let (new_archive, out) = archive.repack_entries(&data, &Vec::new()).unwrap();
    let offsets: Vec<u64> = new_archive.iter().iter().map(|e| e.offset()).collect();
    assert_eq!(offsets, vec![0x340, 0x800, 0x1800]);
    assert_eq!(out.len(), 0x1800 + 7);
    assert_eq!(&out[0x800..0x800 + 3000], &data[0x345..0x345 + 3000]);
    assert!(out[0x800 + 3000..0x1800].iter().all(|b| *b == 0));
}

#[test]
fn lookup_by_name_ignores_ascii_case() {
    let (data, _) = v2_fixture();
    let archive = MagesArchive::build(&data).unwrap();
    assert_eq!(archive.get_entry_by_name("GREETING.TXT").unwrap().id(), 9);
    assert_eq!(archive.get_entry_by_name("abc.bin").unwrap().id(), 3);
    assert!(archive.get_entry_by_name("missing").is_none());
    assert!(archive.get_entry_by_id(4).is_none());
}

#[test]
fn selection_by_id_and_glob() {
    let (data, _) = v2_fixture();
    let archive = MagesArchive::build(&data).unwrap();
    let by_glob = archive.select_entries(&vec!["*.txt".to_string()]).unwrap();
    assert_eq!(by_glob, vec![9]);
    let by_id = archive.select_entries(&vec!["3".to_string()]).unwrap();
    assert_eq!(by_id, vec![3]);
    let both = archive.select_entries(&vec!["greeting*".to_string(), "3".to_string()]).unwrap();
    assert_eq!(both, vec![3, 9]);
    assert_eq!(
        archive.select_entries(&vec!["[".to_string()]),
        Err(ArchiveError::InvalidPattern("[".to_string()))
    );
}

#[test]
fn bad_signature_is_rejected() {
    let mut data = hello_archive();
    data[0] = b'X';
    assert_eq!(MagesArchive::build(&data).err(), Some(ArchiveError::BadSignature));
}

#[test]
fn unsupported_version_is_rejected() {
    let mut data = hello_archive();
    data[6] = 3;
    assert_eq!(MagesArchive::build(&data).err(), Some(ArchiveError::UnsupportedVersion(3)));
}

#[test]
fn short_table_is_truncated() {
    let data = hello_archive();
    assert_eq!(MagesArchive::build(&data[..0x100]).err(), Some(ArchiveError::TruncatedRead));
    assert_eq!(MagesArchive::build(&data[..6]).err(), Some(ArchiveError::TruncatedRead));
}

#[test]
fn malformed_name_fails_parse() {
    let mut data = hello_archive();
    for b in &mut data[0x60..0x140] {
        *b = b'q';
    }
    assert_eq!(MagesArchive::build(&data).err(), Some(ArchiveError::MalformedName));
}

#[test]
fn extraction_errors() {
    let data = hello_archive();
    let archive = MagesArchive::build(&data).unwrap();
    assert_eq!(archive.extract_entry(0, &data[..0x145]), Err(ArchiveError::TruncatedRead));
    assert_eq!(archive.extract_entry(7, &data), Err(ArchiveError::UnknownEntry(7)));

    let mut v2 = v2_header(1);
    v2.extend(v2_record(&Rec { indicator: 1, id: 0, offset: 0x200, stored: 4, size: 9, name: "z" }));
    put(&mut v2, 0x200, b"junk");
    let archive = MagesArchive::build(&v2).unwrap();
    assert_eq!(archive.extract(&v2), Err(ArchiveError::DecompressionError));
}

#[test]
fn extract_all_in_table_order() {
    let (data, _) = v2_fixture();
    let archive = MagesArchive::build(&data).unwrap();
    let all = archive.extract(&data).unwrap();
    assert_eq!(all, vec![b"abc".to_vec(), b"hello hello hello hello".to_vec()]);
}

#[test]
fn repack_rejects_unknown_target() {
    let data = hello_archive();
    let archive = MagesArchive::build(&data).unwrap();
    let files = vec![RepackFile { name: "b.txt".to_string(), contents: vec![1] }];
    assert_eq!(
        archive.repack_entries(&data, &files).err(),
        Some(ArchiveError::UnknownReplacementTarget("b.txt".to_string()))
    );
}

#[test]
fn narrow_format_rejects_large_values() {
    let data = hello_archive();
    let archive = MagesArchive::build(&data).unwrap();
    let entry = archive.get_entry_by_id(0).unwrap();
    let moved = entry.updated(0x1_0000_0000, 10, 10);
    let mut table = Vec::new();
    let v1 = ungelify::MpkVersion::build(1, 0).unwrap();
    assert_eq!(moved.write_header(&mut table, &v1), Err(ArchiveError::ValueTooLargeForFormat));
    assert!(table.is_empty());
    let v2 = ungelify::MpkVersion::build(2, 0).unwrap();
    assert_eq!(moved.write_header(&mut table, &v2), Ok(()));
    assert_eq!(table.len(), 256);
    assert_eq!(&table[8..16], &0x1_0000_0000u64.to_le_bytes());
}

#[test]
fn repack_of_truncated_source_fails() {
    let data = hello_archive();
    let archive = MagesArchive::build(&data).unwrap();
    assert_eq!(archive.repack_entries(&data[..0x142], &Vec::new()).err(), Some(ArchiveError::TruncatedRead));
}

#[test]
fn version_one_compression_follows_sizes() {
    let mut data = v1_header(1);
    let packed = zlib(b"abcabcabcabcabcabc");
    data.extend(v1_record(&Rec {
        indicator: 0,
        id: 2,
        offset: 0x200,
        stored: packed.len() as u64,
        size: 18,
        name: "c",
    }));
    put(&mut data, 0x200, &packed);
    let archive = MagesArchive::build(&data).unwrap();
    let entry = archive.get_entry_by_id(2).unwrap();
    assert!(entry.is_compressed());
    assert_eq!(entry.extract(&data).unwrap(), b"abcabcabcabcabcabc".to_vec());
}

#[test]
fn second_repack_repeats_the_first() {
    let mut data = v1_header(2);
    data.extend(v1_record(&Rec { indicator: 0, id: 4, offset: 0x300, stored: 5, size: 5, name: "p" }));
    data.extend(v1_record(&Rec { indicator: 0, id: 8, offset: 0x310, stored: 4, size: 4, name: "q" }));
    put(&mut data, 0x300, b"11111");
    put(&mut data, 0x310, b"2222");
    data.extend_from_slice(b"trailing");
    let archive = MagesArchive::build(&data).unwrap();
    let (first, once) = archive.repack_entries(&data, &Vec::new()).unwrap();
    assert_ne!(once, data);
    let reread = MagesArchive::build(&once).unwrap();
    assert_eq!(reread.list_entries(), first.list_entries());
    let (_, twice) = reread.repack_entries(&once, &Vec::new()).unwrap();
    assert_eq!(twice, once);
}

#[test]
fn empty_archive_parses_and_repacks() {
    let data = v1_header(0);
    let archive = MagesArchive::build(&data).unwrap();
    assert_eq!(archive.len(), 0);
    assert!(archive.extract(&data).unwrap().is_empty());
    let (new_archive, out) = archive.repack_entries(&data, &Vec::new()).unwrap();
    assert_eq!(new_archive.len(), 0);
    assert_eq!(out, data);
}

#[test]
fn version_two_table_follows_longer_header() {
    let mut data = v2_header(1);
    assert_eq!(data.len(), 0x44);
    data.extend(v2_record(&Rec { indicator: 0, id: 1, offset: 0x144, stored: 2, size: 2, name: "ok" }));
    data.extend_from_slice(b"hi");
    let archive = MagesArchive::build(&data).unwrap();
    let entry = archive.get_entry_by_id(1).unwrap();
    assert_eq!(entry.name(), "ok");
    assert!(!entry.is_compressed());
    assert_eq!(archive.extract_entry(1, &data).unwrap(), b"hi".to_vec());
}

#[test]
fn version_two_indicator_decides_compression() {
    let mut data = v2_header(1);
    data.extend(v2_record(&Rec { indicator: 1, id: 1, offset: 0x144, stored: 2, size: 2, name: "same" }));
    data.extend_from_slice(b"hi");
    let archive = MagesArchive::build(&data).unwrap();
    assert!(archive.get_entry_by_id(1).unwrap().is_compressed());
    assert_eq!(archive.extract_entry(1, &data), Err(ArchiveError::DecompressionError));
}

#[test]
fn name_lookup_takes_last_match() {
    let mut data = v1_header(2);
    data.extend(v1_record(&Rec { indicator: 0, id: 1, offset: 0x400, stored: 1, size: 1, name: "dup.txt" }));
    data.extend(v1_record(&Rec { indicator: 0, id: 2, offset: 0x800, stored: 1, size: 1, name: "DUP.txt" }));
    data.resize(0x801, 0);
    let archive = MagesArchive::build(&data).unwrap();
    assert_eq!(archive.get_entry_by_name("dup.TXT").unwrap().id(), 2);
}

#[test]
fn oversized_glob_is_reported() {
    let (data, _) = v2_fixture();
    let archive = MagesArchive::build(&data).unwrap();
    let huge = "?".repeat(1_000_000);
    assert_eq!(
        archive.select_entries(&vec![huge.clone()]),
        Err(ArchiveError::InvalidPattern(huge))
    );
}

#[test]
fn lookup_by_name_folds_unicode_case() {
    let mut data = v1_header(1);
    data.extend(v1_record(&Rec { indicator: 0, id: 7, offset: 0x140, stored: 1, size: 1, name: "Ärger.txt" }));
    data.push(b'z');
    let archive = MagesArchive::build(&data).unwrap();
    assert_eq!(archive.get_entry_by_name("äRGER.TXT").unwrap().id(), 7);
    assert_eq!(archive.get_entry_by_folded_name("ärger.txt").unwrap().id(), 7);
    assert!(archive.get_entry_by_folded_name("Ärger.txt").is_none());
    assert!(ungelify::archive::names_match_ignoring_case("ÄRGER", "ärger"));
    assert!(!ungelify::archive::names_match_ignoring_case("ärger", "arger"));
}
