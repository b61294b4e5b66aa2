//! Parsing the uploaded symbol-table and data-type-table blobs.

use twincat::error::AdsError;
use twincat::schema::{parse_data_types, parse_symbols, Group};

fn push_u32(out: &mut Vec<u8>, x: u32) {
    out.extend_from_slice(&x.to_le_bytes());
}

fn push_u16(out: &mut Vec<u8>, x: u16) {
    out.extend_from_slice(&x.to_le_bytes());
}

/// One symbol record: 30-byte header, then name, type name and comment,
/// each followed by one separator byte.
fn symbol_record(name: &str, declared: &str, group: u32, offset: u32, tag: u32, flags: u32) -> Vec<
    u8,
> {
    let mut out = Vec::new();
    let entry_length = 30 + name.len() + 1 + declared.len() + 1;
    push_u32(&mut out, entry_length as u32);
    push_u32(&mut out, group);
    push_u32(&mut out, offset);
    push_u32(&mut out, 0); // size
    push_u32(&mut out, tag);
    push_u32(&mut out, flags);
    push_u16(&mut out, name.len() as u16);
    push_u16(&mut out, declared.len() as u16);
    push_u16(&mut out, 0); // comment length
    out.extend_from_slice(name.as_bytes());
    out.push(0);
    out.extend_from_slice(declared.as_bytes());
    out.push(0);
    out
}

/// One data-type record without sub-items: 42-byte header, then name,
/// type name and comment, each followed by one separator byte.
fn type_record(name: &str, size: u32) -> Vec<u8> {
    let mut out = Vec::new();
    let entry_length = 42 + name.len() + 1 + 1;
    push_u32(&mut out, entry_length as u32);
    push_u32(&mut out, 0); // version
    push_u32(&mut out, 0); // hash
    push_u32(&mut out, 0); // type hash
    push_u32(&mut out, size);
    push_u32(&mut out, 0); // offset
    push_u32(&mut out, 0); // data type
    push_u32(&mut out, 0); // flags
    push_u16(&mut out, name.len() as u16);
    push_u16(&mut out, 0); // type-name length
    push_u16(&mut out, 0); // comment length
    push_u16(&mut out, 0); // array dimensions
    push_u16(&mut out, 0); // sub-items
    out.extend_from_slice(name.as_bytes());
    out.push(0);
    out.push(0);
    out
}

#[test]
fn parse_one_symbol() {
    let blob = symbol_record("garden.plants", "ARRAY [0..255] OF INT", 16448, 64, 2, 1);
    let symbols = parse_symbols(&blob, 1).unwrap();
    assert_eq!(symbols.entries.len(), 1);
    let sym = &symbols.entries[0];
    assert_eq!(sym.name(), "garden.plants");
    assert_eq!(sym.data_type(), "ARRAY [0..255] OF INT");
    assert_eq!(sym.data_type_id(), 2);
    assert_eq!(sym.offset(), 64);
    assert!(sym.persistent);
    assert_eq!(sym.group, Group::Unassigned);
}

#[test]
fn parse_two_symbols_in_order() {
    let mut blob = symbol_record("alpha", "INT", 61472, 0, 2, 0);
    blob.extend_from_slice(&symbol_record("beta", "BOOL", 61488, 2, 33, 0));
    let symbols = parse_symbols(&blob, 2).unwrap();
    assert_eq!(symbols.entries.len(), 2);
    assert_eq!(symbols.entries[0].name(), "alpha");
    assert_eq!(symbols.entries[0].group, Group::Input);
    assert_eq!(symbols.entries[1].name(), "beta");
    assert_eq!(symbols.entries[1].group, Group::Output);
}

#[test]
fn parse_type_with_ranges_from_name() {
    let mut blob = type_record("INT", 2);
    blob.extend_from_slice(&type_record("ARRAY [0..3] OF INT", 8));
    let types = parse_data_types(&blob, 2).unwrap();
    assert_eq!(types.entries.len(), 2);
    assert_eq!(types.entries[0].name, String::from("INT"));
    assert_eq!(types.entries[0].size_bytes(), 2);
    assert!(types.entries[0].array_ranges().is_empty());
    assert_eq!(types.entries[1].array_ranges(), &vec![(0, 3)]);
}

#[test]
fn non_ascii_names_decode_as_utf8() {
    let blob = symbol_record("group.k\u{00fc}che", "INT", 16448, 0, 2, 0);
    let symbols = parse_symbols(&blob, 1).unwrap();
    assert_eq!(symbols.entries[0].name(), "group.k\u{00fc}che");
}

#[test]
fn truncated_and_invalid_blobs_are_malformed() {
    let blob = symbol_record("alpha", "INT", 16448, 0, 2, 0);
    assert_eq!(
        parse_symbols(&blob[..20], 1).unwrap_err(),
        AdsError::MalformedSchema
    );
    // Two records promised, one present.
    assert_eq!(parse_symbols(&blob, 2).unwrap_err(), AdsError::MalformedSchema);
    // A name that is not valid UTF-8.
    let mut bad = symbol_record("alpha", "INT", 16448, 0, 2, 0);
    bad[30] = 0xFF;
    assert_eq!(parse_symbols(&bad, 1).unwrap_err(), AdsError::MalformedSchema);
    // An empty blob parses to an empty table when no records are
    // promised.
    assert!(parse_symbols(&[], 0).is_ok());
}
