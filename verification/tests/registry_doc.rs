//! The schema registry and its persisted document.

use datrecover::document::{encode_registry, parse_registry};
use datrecover::registry::SchemaRegistry;
use datrecover::schema::{ColumnDef, FieldType, TableSchema};

fn col(name: &str, field_type: FieldType, offset: u32) -> ColumnDef {
    ColumnDef { name: name.to_string(), field_type, offset }
}

fn sample_registry() -> SchemaRegistry {
    let mut reg = SchemaRegistry::new();
    reg.insert(
        "PRODUTOS".to_string(),
        TableSchema {
            record_size: 30,
            columns: vec![col("CODIGO", FieldType::Int, 2), col("PRECO", FieldType::Decimal, 6)],
        },
    );
    reg.insert(
        "CLIENTES".to_string(),
        TableSchema {
            record_size: 14,
            columns: vec![col("ID", FieldType::Int, 2), col("NOME", FieldType::Str, 6)],
        },
    );
    reg
}

#[test]
fn registry_get_after_insert() {
    let reg = sample_registry();
    assert_eq!(reg.len(), 2);
    let s = reg.get("CLIENTES").expect("present");
    assert_eq!(s.record_size, 14);
    assert_eq!(s.columns.len(), 2);
    assert_eq!(s.columns[1].name, "NOME");
    assert!(reg.get("MISSING").is_none());
}

#[test]
fn registry_insert_replaces_same_name() {
    let mut reg = SchemaRegistry::new();
    reg.insert("T".to_string(), TableSchema { record_size: 5, columns: vec![] });
    reg.insert(
        "T".to_string(),
        TableSchema { record_size: 9, columns: vec![col("A", FieldType::Str, 2)] },
    );
    assert_eq!(reg.len(), 1);
    assert_eq!(reg.get("T").unwrap().record_size, 9);
}

#[test]
fn registry_keeps_names_sorted() {
    let reg = sample_registry();
    let text = encode_registry(&reg);
    let c = text.find("\"CLIENTES\"").expect("clientes in document");
    let p = text.find("\"PRODUTOS\"").expect("produtos in document");
    assert!(c < p, "names must render in sorted order");
}

#[test]
fn document_round_trip_preserves_registry() {
    let reg = sample_registry();
    let text = encode_registry(&reg);
    let back = parse_registry(&text).expect("parses");
    assert_eq!(back.len(), 2);
    let cl = back.get("CLIENTES").expect("clientes");
    assert_eq!(cl.record_size, 14);
    assert_eq!(
        cl.columns,
        vec![col("ID", FieldType::Int, 2), col("NOME", FieldType::Str, 6)]
    );
    let pr = back.get("PRODUTOS").expect("produtos");
    assert_eq!(pr.record_size, 30);
    assert_eq!(
        pr.columns,
        vec![col("CODIGO", FieldType::Int, 2), col("PRECO", FieldType::Decimal, 6)]
    );
}

#[test]
fn document_round_trip_with_escapes_and_spaces() {
    let mut reg = SchemaRegistry::new();
    reg.insert(
        "ODD \"NAME\"".to_string(),
        TableSchema {
            record_size: 7,
            columns: vec![col("A \\ B", FieldType::Bin, 3)],
        },
    );
    let text = encode_registry(&reg);
    let back = parse_registry(&text).expect("parses");
    let s = back.get("ODD \"NAME\"").expect("table");
    assert_eq!(s.columns[0].name, "A \\ B");
}

#[test]
fn parse_rejects_malformed_text() {
    assert!(parse_registry("nonsense").is_none());
    assert!(parse_registry("[\"T\"]\nrecord_size = ").is_none());
    assert!(parse_registry("[\"T\"]\nrecord_size = 99999999999\n").is_none());
}

#[test]
fn empty_registry_renders_empty_document() {
    let reg = SchemaRegistry::new();
    let text = encode_registry(&reg);
    assert_eq!(text, "");
    let back = parse_registry(&text).expect("parses");
    assert_eq!(back.len(), 0);
}

#[test]
fn document_is_valid_toml() {
    let reg = sample_registry();
    let text = encode_registry(&reg);
    let table: toml::Table = text.parse().expect("valid toml");
    let clientes = table["CLIENTES"].as_table().expect("table");
    assert_eq!(clientes["record_size"].as_integer(), Some(14));
    let cols = clientes["columns"].as_array().expect("array");
    assert_eq!(cols.len(), 2);
    assert_eq!(cols[0].as_table().unwrap()["name"].as_str(), Some("ID"));
    assert_eq!(cols[0].as_table().unwrap()["field_type"].as_str(), Some("I"));
    assert_eq!(cols[0].as_table().unwrap()["offset"].as_integer(), Some(2));
    assert_eq!(cols[1].as_table().unwrap()["name"].as_str(), Some("NOME"));
    assert_eq!(cols[1].as_table().unwrap()["field_type"].as_str(), Some("S"));
}
