use ungelify::bytes::{push_le, push_zeros, read_le, write_at};
use ungelify::{copy_name_bytes, entry_name_from_bytes, parse_entry_id, write_alignment_padding, ArchiveError};

#[test]
fn name_field_decodes_text_before_nul() {
    let mut field = vec![0u8; 224];
    field[..11].copy_from_slice(b"script.scx\0");
    assert_eq!(entry_name_from_bytes(&field), Ok("script.scx".to_string()));
}

#[test]
fn name_field_with_bytes_after_nul_keeps_prefix() {
    let mut field = vec![0u8; 224];
    field[..5].copy_from_slice(b"a.txt");
    field[6..9].copy_from_slice(b"zzz");
    assert_eq!(entry_name_from_bytes(&field), Ok("a.txt".to_string()));
}

#[test]
fn name_field_without_nul_is_malformed() {
    let field = vec![b'x'; 224];
    assert_eq!(entry_name_from_bytes(&field), Err(ArchiveError::MalformedName));
}

#[test]
fn name_field_with_invalid_utf8_is_malformed() {
    let mut field = vec![0u8; 224];
    field[0] = 0xFF;
    field[1] = b'a';
    assert_eq!(entry_name_from_bytes(&field), Err(ArchiveError::MalformedName));
}

#[test]
fn name_field_encodes_with_zero_padding() {
    let field = copy_name_bytes("script.scx").unwrap();
    assert_eq!(field.len(), 224);
    assert_eq!(&field[..10], b"script.scx");
    assert!(field[10..].iter().all(|b| *b == 0));
    assert_eq!(entry_name_from_bytes(&field), Ok("script.scx".to_string()));
}

#[test]
fn name_field_encoding_rejects_long_names() {
    let long = "n".repeat(225);
    assert_eq!(copy_name_bytes(&long), Err(ArchiveError::NameTooLong));
    let fits = "n".repeat(224);
    assert_eq!(copy_name_bytes(&fits).unwrap().len(), 224);
}

#[test]
fn little_endian_reads_and_writes() {
    let bytes = [0x78u8, 0x56, 0x34, 0x12, 0xEF, 0xCD, 0xAB, 0x90, 0x01];
    assert_eq!(read_le(&bytes, 0, 4), 0x1234_5678);
    assert_eq!(read_le(&bytes, 0, 8), 0x90AB_CDEF_1234_5678);
    assert_eq!(read_le(&bytes, 4, 2), 0xCDEF);
    let mut out = vec![9u8];
    push_le(&mut out, 0x0102_0304, 4);
    assert_eq!(out, vec![9, 4, 3, 2, 1]);
    push_le(&mut out, 0x1FF, 2);
    assert_eq!(out, vec![9, 4, 3, 2, 1, 0xFF, 0x01]);
    push_zeros(&mut out, 2);
    assert_eq!(out.len(), 9);
}

#[test]
fn alignment_padding_reaches_next_boundary() {
    let mut out = Vec::new();
    write_alignment_padding(&mut out, 0x145);
    assert_eq!(out.len(), 2048 - 0x145);
    let mut out = Vec::new();
    write_alignment_padding(&mut out, 4096);
    assert!(out.is_empty());
    let mut out = Vec::new();
    write_alignment_padding(&mut out, 2049);
    assert_eq!(out.len(), 2047);
    assert!(out.iter().all(|b| *b == 0));
}

#[test]
fn write_at_overwrites_and_extends() {
    let mut out = vec![1u8, 2, 3];
    write_at(&mut out, 1, &[9, 9, 9, 9]);
    assert_eq!(out, vec![1, 9, 9, 9, 9]);
    let mut out = vec![1u8];
    write_at(&mut out, 3, &[7]);
    assert_eq!(out, vec![1, 0, 0, 7]);
}

#[test]
fn entry_ids_parse_as_decimal() {
    assert_eq!(parse_entry_id("12"), Some(12));
    assert_eq!(parse_entry_id("+7"), Some(7));
    assert_eq!(parse_entry_id("4294967295"), Some(u32::MAX));
    assert_eq!(parse_entry_id("4294967296"), None);
    assert_eq!(parse_entry_id("-1"), None);
    assert_eq!(parse_entry_id(""), None);
    assert_eq!(parse_entry_id("+"), None);
    assert_eq!(parse_entry_id("*.txt"), None);
}
