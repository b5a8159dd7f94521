//! Schema inference over synthetic header buffers.

use datrecover::schema::{data_offset_of, infer_schema, read_record_size, read_total_fields,
    read_total_rows, FieldType};

fn put_block(buf: &mut [u8], at: usize, name: &str, type_id: u8, stored_offset: u16) {
    buf[at + 2] = name.len() as u8;
    buf[at + 3..at + 3 + name.len()].copy_from_slice(name.as_bytes());
    buf[at + 0xA4] = type_id;
    buf[at + 0xAC..at + 0xAE].copy_from_slice(&stored_offset.to_le_bytes());
}

fn header(total_rows: u32, record_len_minus_one: u16, total_fields: u16) -> Vec<u8> {
    let mut h = vec![0u8; 512];
    h[0x29..0x2D].copy_from_slice(&total_rows.to_le_bytes());
    h[0x2D..0x2F].copy_from_slice(&record_len_minus_one.to_le_bytes());
    h[0x2F..0x31].copy_from_slice(&total_fields.to_le_bytes());
    h
}

#[test]
fn record_size_is_stored_value_plus_one() {
    let h = header(0, 13, 0);
    assert_eq!(read_record_size(&h), 14);
    let h2 = header(0, 0, 0);
    assert_eq!(read_record_size(&h2), 1);
    let h3 = header(0, 0xFFFF, 0);
    assert_eq!(read_record_size(&h3), 0x10000);
}

#[test]
fn header_counters_little_endian() {
    let h = header(0x01020304, 9, 0x0506);
    assert_eq!(read_total_rows(&h), 0x01020304);
    assert_eq!(read_total_fields(&h), 0x0506);
    assert_eq!(data_offset_of(2), 512 + 2 * 768);
}

#[test]
fn schema_collects_valid_blocks_and_sorts_by_offset() {
    let mut buf = header(3, 13, 2);
    buf.resize(512 + 3 * 768, 0);
    put_block(&mut buf, 512, "NAME", 1, 5);
    put_block(&mut buf, 512 + 768, "ID", 6, 1);
    // third block invalid: type id zero
    put_block(&mut buf, 512 + 2 * 768, "JUNK", 0, 7);
    let s = infer_schema(&buf).expect("schema");
    assert_eq!(s.record_size, 14);
    assert_eq!(s.columns.len(), 2);
    assert_eq!(s.columns[0].name, "ID");
    assert_eq!(s.columns[0].offset, 2);
    assert_eq!(s.columns[0].field_type, FieldType::Int);
    assert_eq!(s.columns[1].name, "NAME");
    assert_eq!(s.columns[1].offset, 6);
    assert_eq!(s.columns[1].field_type, FieldType::Str);
    let offsets: Vec<u32> = s.columns.iter().map(|c| c.offset).collect();
    let mut sorted = offsets.clone();
    sorted.sort();
    assert_eq!(offsets, sorted);
}

#[test]
fn sort_keeps_scan_order_on_equal_offsets() {
    let mut buf = header(0, 9, 2);
    buf.resize(512 + 2 * 768, 0);
    put_block(&mut buf, 512, "FIRST", 1, 3);
    put_block(&mut buf, 512 + 768, "SECOND", 1, 3);
    let s = infer_schema(&buf).expect("schema");
    assert_eq!(s.columns[0].name, "FIRST");
    assert_eq!(s.columns[1].name, "SECOND");
}

#[test]
fn no_schema_when_no_block_is_valid() {
    let mut buf = header(0, 13, 1);
    buf.resize(512 + 768, 0);
    assert!(infer_schema(&buf).is_none());
}

#[test]
fn no_schema_on_short_buffer() {
    let buf = vec![0u8; 100];
    assert!(infer_schema(&buf).is_none());
}

#[test]
fn partial_trailing_block_is_ignored() {
    let mut buf = header(0, 13, 1);
    buf.resize(512 + 768 + 100, 0);
    put_block(&mut buf, 512, "A", 1, 4);
    let s = infer_schema(&buf).expect("schema");
    assert_eq!(s.columns.len(), 1);
}
