//! Recovery of tabular data from an undocumented fixed-record binary table
//! format: one file per table, a reserved header area that embeds per-field
//! metadata, and a record region of fixed-size rows.
//!
//! The crate has two engines. Schema inference ([`schema`]) scans a table
//! file's header region and recovers the column layout: name, type tag and
//! byte offset of every field, plus the record size. Row extraction
//! ([`extract`]) walks the record region with an inferred schema and decodes
//! every live record into typed text fields, skipping tombstoned records.
//! Inferred schemas are aggregated in a [`registry::SchemaRegistry`], which
//! can be rendered to and read back from a key-ordered text document.

pub mod document;
pub mod extract;
pub mod registry;
pub mod schema;
pub mod text;
