//! Row extraction over synthetic table files.

use datrecover::extract::{extract_table, FieldValue};
use datrecover::schema::{infer_schema, TableSchema};

fn put_block(buf: &mut [u8], at: usize, name: &str, type_id: u8, stored_offset: u16) {
    buf[at + 2] = name.len() as u8;
    buf[at + 3..at + 3 + name.len()].copy_from_slice(name.as_bytes());
    buf[at + 0xA4] = type_id;
    buf[at + 0xAC..at + 0xAE].copy_from_slice(&stored_offset.to_le_bytes());
}

/// A table file with two fields (one String, one Integer), record size 14,
/// and the given records appended verbatim.
fn synthetic_file(total_rows: u32, records: &[[u8; 14]]) -> Vec<u8> {
    let mut f = vec![0u8; 512 + 2 * 768];
    f[0x29..0x2D].copy_from_slice(&total_rows.to_le_bytes());
    f[0x2D..0x2F].copy_from_slice(&13u16.to_le_bytes());
    f[0x2F..0x31].copy_from_slice(&2u16.to_le_bytes());
    put_block(&mut f, 512, "NAME", 1, 5);
    put_block(&mut f, 512 + 768, "ID", 6, 1);
    for r in records {
        f.extend_from_slice(r);
    }
    f
}

fn record(flag: u8, id: i32, name: &str) -> [u8; 14] {
    let mut r = [0u8; 14];
    r[0] = flag;
    r[2..6].copy_from_slice(&id.to_le_bytes());
    r[6..6 + name.len()].copy_from_slice(name.as_bytes());
    r
}

fn schema_of(file: &[u8]) -> TableSchema {
    infer_schema(file).expect("schema")
}

fn texts(row: &[FieldValue]) -> Vec<String> {
    row.iter()
        .map(|f| match f {
            FieldValue::Text(s) => s.clone(),
            FieldValue::FloatBits(b) => format!("{:.4}", f64::from_bits(*b)),
        })
        .collect()
}

#[test]
fn end_to_end_skips_tombstoned_record() {
    let file = synthetic_file(3, &[
        record(0, 10, "ANA\0"),
        record(1, 20, "GONE\0"),
        record(0, 30, "RUI\0"),
    ]);
    let schema = schema_of(&file);
    assert_eq!(schema.record_size, 14);
    let e = extract_table(&file, &schema).expect("extraction");
    assert_eq!(e.header, vec!["ID".to_string(), "NAME".to_string()]);
    assert_eq!(e.rows.len(), 2);
    assert_eq!(texts(&e.rows[0]), vec!["10".to_string(), "ANA".to_string()]);
    assert_eq!(texts(&e.rows[1]), vec!["30".to_string(), "RUI".to_string()]);
}

#[test]
fn live_flag_decides_emission() {
    let file = synthetic_file(4, &[
        record(2, 1, "X\0"),
        record(0, 2, "Y\0"),
        record(255, 3, "Z\0"),
        record(0, 4, "W\0"),
    ]);
    let schema = schema_of(&file);
    let e = extract_table(&file, &schema).expect("extraction");
    assert_eq!(e.rows.len(), 2);
    assert_eq!(texts(&e.rows[0])[0], "2");
    assert_eq!(texts(&e.rows[1])[0], "4");
}

#[test]
fn declared_row_count_caps_emission() {
    let file = synthetic_file(1, &[
        record(0, 1, "A\0"),
        record(0, 2, "B\0"),
        record(0, 3, "C\0"),
    ]);
    let schema = schema_of(&file);
    let e = extract_table(&file, &schema).expect("extraction");
    assert_eq!(e.rows.len(), 1);
    assert_eq!(texts(&e.rows[0])[0], "1");
}

#[test]
fn zero_declared_rows_emits_nothing() {
    let file = synthetic_file(0, &[record(0, 1, "A\0")]);
    let schema = schema_of(&file);
    let e = extract_table(&file, &schema).expect("extraction");
    assert_eq!(e.rows.len(), 0);
}

#[test]
fn file_end_caps_emission_when_count_overstates() {
    let file = synthetic_file(99, &[record(0, 1, "A\0"), record(0, 2, "B\0")]);
    let schema = schema_of(&file);
    let e = extract_table(&file, &schema).expect("extraction");
    assert_eq!(e.rows.len(), 2);
}

#[test]
fn trailing_partial_record_is_ignored() {
    let mut file = synthetic_file(9, &[record(0, 1, "A\0")]);
    file.extend_from_slice(&[0u8; 5]);
    let schema = schema_of(&file);
    let e = extract_table(&file, &schema).expect("extraction");
    assert_eq!(e.rows.len(), 1);
}

#[test]
fn short_file_yields_no_extraction() {
    let file = vec![0u8; 80];
    let schema = TableSchema { record_size: 14, columns: Vec::new() };
    assert!(extract_table(&file, &schema).is_none());
}

#[test]
fn zero_record_size_emits_nothing() {
    let file = synthetic_file(5, &[record(0, 1, "A\0")]);
    let schema = TableSchema { record_size: 0, columns: Vec::new() };
    let e = extract_table(&file, &schema).expect("extraction");
    assert_eq!(e.rows.len(), 0);
}
