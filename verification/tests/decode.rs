//! Field-level decoding: descriptor blocks and record fields.

use datrecover::extract::{decode_field, decode_record, FieldValue};
use datrecover::schema::{decode_descriptor, map_type_id, ColumnDef, FieldType};

fn block(name: &str, type_id: u8, stored_offset: u16) -> Vec<u8> {
    let mut b = vec![0u8; 768];
    b[2] = name.len() as u8;
    b[3..3 + name.len()].copy_from_slice(name.as_bytes());
    b[0xA4] = type_id;
    b[0xAC..0xAE].copy_from_slice(&stored_offset.to_le_bytes());
    b
}

fn col(name: &str, field_type: FieldType, offset: u32) -> ColumnDef {
    ColumnDef { name: name.to_string(), field_type, offset }
}

#[test]
fn valid_block_decodes_with_offset_plus_one() {
    let b = block("CODIGO", 6, 41);
    let c = decode_descriptor(&b).expect("valid block");
    assert_eq!(c.name, "CODIGO");
    assert_eq!(c.field_type, FieldType::Int);
    assert_eq!(c.offset, 42);
}

#[test]
fn block_rejected_on_zero_name_length() {
    let b = block("", 1, 5);
    assert!(decode_descriptor(&b).is_none());
}

#[test]
fn block_rejected_on_overlong_name() {
    let name = "A".repeat(65);
    let b = block(&name, 1, 5);
    assert!(decode_descriptor(&b).is_none());
}

#[test]
fn block_rejected_on_unprintable_name_byte() {
    let mut b = block("AB", 1, 5);
    b[4] = 0x07;
    assert!(decode_descriptor(&b).is_none());
}

#[test]
fn block_rejected_on_zero_type_id() {
    let b = block("AB", 0, 5);
    assert!(decode_descriptor(&b).is_none());
}

#[test]
fn block_rejected_on_zero_stored_offset() {
    let b = block("AB", 1, 0);
    assert!(decode_descriptor(&b).is_none());
}

#[test]
fn name_may_hold_spaces() {
    let b = block("DATA NASC", 1, 9);
    let c = decode_descriptor(&b).expect("valid block");
    assert_eq!(c.name, "DATA NASC");
}

#[test]
fn type_id_mapping() {
    assert_eq!(map_type_id(1), FieldType::Str);
    assert_eq!(map_type_id(6), FieldType::Int);
    assert_eq!(map_type_id(0x2E), FieldType::Int);
    assert_eq!(map_type_id(7), FieldType::Float);
    assert_eq!(map_type_id(2), FieldType::Decimal);
    assert_eq!(map_type_id(11), FieldType::Decimal);
    assert_eq!(map_type_id(0x55), FieldType::Bin);
}

#[test]
fn integer_field_little_endian() {
    let mut rec = vec![0u8; 14];
    rec[2..6].copy_from_slice(&[42, 0, 0, 0]);
    let v = decode_field(&rec, &col("N", FieldType::Int, 2));
    assert_eq!(v, FieldValue::Text("42".to_string()));
}

#[test]
fn integer_field_negative() {
    let mut rec = vec![0u8; 8];
    rec[2..6].copy_from_slice(&(-1234i32).to_le_bytes());
    let v = decode_field(&rec, &col("N", FieldType::Int, 2));
    assert_eq!(v, FieldValue::Text("-1234".to_string()));
}

#[test]
fn integer_field_out_of_window_is_zero() {
    let rec = vec![7u8; 5];
    let v = decode_field(&rec, &col("N", FieldType::Int, 3));
    assert_eq!(v, FieldValue::Text("0".to_string()));
}

#[test]
fn float_field_bits_round_and_format() {
    let mut rec = vec![0u8; 10];
    rec[2..10].copy_from_slice(&3.14159f64.to_le_bytes());
    let v = decode_field(&rec, &col("F", FieldType::Float, 2));
    match v {
        FieldValue::FloatBits(bits) => {
            assert_eq!(format!("{:.4}", f64::from_bits(bits)), "3.1416");
        },
        other => panic!("expected float bits, got {:?}", other),
    }
}

#[test]
fn float_field_out_of_window_is_zero() {
    let rec = vec![9u8; 6];
    let v = decode_field(&rec, &col("F", FieldType::Decimal, 2));
    assert_eq!(v, FieldValue::FloatBits(0));
}

#[test]
fn string_field_cut_at_nul() {
    let mut rec = vec![0u8; 12];
    rec[2..12].copy_from_slice(b"AB\0garbage");
    let v = decode_field(&rec, &col("S", FieldType::Str, 2));
    assert_eq!(v, FieldValue::Text("AB".to_string()));
}

#[test]
fn string_field_trimmed() {
    let mut rec = vec![0u8; 8];
    rec[2..8].copy_from_slice(b"  AB \0");
    let v = decode_field(&rec, &col("S", FieldType::Str, 2));
    assert_eq!(v, FieldValue::Text("AB".to_string()));
}

#[test]
fn string_field_western_code_page() {
    // 0xC7 and 0xC3 are not their own characters in UTF-8: the decode must
    // map them through the code page, not hand the bytes back.
    let mut rec = vec![0u8; 8];
    rec[2..8].copy_from_slice(&[0xC7, 0x41, 0xC3, 0x4F, 0, 0]);
    let v = decode_field(&rec, &col("S", FieldType::Str, 2));
    assert_eq!(v, FieldValue::Text("\u{C7}A\u{C3}O".to_string()));
}

#[test]
fn string_field_nonbreaking_space_is_trimmed() {
    // Byte 0xA0 decodes to U+00A0, which the whitespace trim removes.
    let mut rec = vec![0u8; 6];
    rec[2..6].copy_from_slice(&[0xA0, 0x41, 0xA0, 0]);
    let v = decode_field(&rec, &col("S", FieldType::Str, 2));
    assert_eq!(v, FieldValue::Text("A".to_string()));
}

#[test]
fn string_field_offset_past_window_is_empty() {
    let rec = vec![0u8; 4];
    let v = decode_field(&rec, &col("S", FieldType::Str, 9));
    assert_eq!(v, FieldValue::Text(String::new()));
}

#[test]
fn binary_field_is_empty_text() {
    let rec = vec![1u8; 14];
    let v = decode_field(&rec, &col("B", FieldType::Bin, 2));
    assert_eq!(v, FieldValue::Text(String::new()));
}

#[test]
fn record_decodes_each_column_in_order() {
    let mut rec = vec![0u8; 14];
    rec[2..6].copy_from_slice(&[1, 0, 0, 0]);
    rec[6..10].copy_from_slice(b"HI\0\0");
    let cols = vec![col("ID", FieldType::Int, 2), col("NAME", FieldType::Str, 6)];
    let row = decode_record(&rec, &cols);
    assert_eq!(row.len(), 2);
    assert_eq!(row[0], FieldValue::Text("1".to_string()));
    assert_eq!(row[1], FieldValue::Text("HI".to_string()));
}

#[test]
fn integer_field_minimum_value() {
    let mut rec = vec![0u8; 6];
    rec[2..6].copy_from_slice(&i32::MIN.to_le_bytes());
    let v = decode_field(&rec, &col("N", FieldType::Int, 2));
    assert_eq!(v, FieldValue::Text("-2147483648".to_string()));
}

#[test]
fn integer_field_maximum_value() {
    let mut rec = vec![0u8; 6];
    rec[2..6].copy_from_slice(&i32::MAX.to_le_bytes());
    let v = decode_field(&rec, &col("N", FieldType::Int, 2));
    assert_eq!(v, FieldValue::Text("2147483647".to_string()));
}
