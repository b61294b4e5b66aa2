//! The array-literal splitter and textual scalar encoding.

use twincat::error::AdsError;
use twincat::literals::{str_and_symbol_to_bytes_flat, str_array_split};
use twincat::schema::{Group, Symbol};

fn symbol_with_tag(tag: u8) -> Symbol {
    Symbol {
        name: String::from("value"),
        data_type_id: tag,
        data_type_name: String::from("SCALAR"),
        offset: 0,
        group: Group::Unassigned,
        persistent: false,
        comment: None,
    }
}

#[test]
fn split_simple_array() {
    assert_eq!(
        str_array_split("[1,2,3,4,5]").unwrap(),
        vec![
            String::from("1"),
            String::from("2"),
            String::from("3"),
            String::from("4"),
            String::from("5"),
        ]
    )
}

#[test]
fn split_array_with_strings() {
    assert_eq!(
        str_array_split("[\"hello\",\"world\",\"let's \"escape\"!\"]").unwrap(),
        vec![
            String::from("\"hello\""),
            String::from("\"world\""),
            String::from("\"let's \"escape\"!\""),
        ]
    )
}

#[test]
fn split_array_of_arrays() {
    assert_eq!(
        str_array_split("[[1,2,3],[4,5,6],[20,21,22]]").unwrap(),
        vec![
            String::from("[1,2,3]"),
            String::from("[4,5,6]"),
            String::from("[20,21,22]"),
        ]
    )
}

#[test]
fn split_invalid_arrays() {
    assert!(str_array_split("[1,2,3,4").is_err());
    assert!(str_array_split("1,2,3,4]").is_err());
    assert!(str_array_split("[1,2,3]x[4,5,6]").is_err());
    assert!(str_array_split("[1,2,\",x,z]").is_err());
    assert!(str_array_split("[1,2,x,z]").is_ok())
}

#[test]
fn scalar_literals_encode_by_tag() {
    // 16-bit signed, little-endian.
    assert_eq!(
        str_and_symbol_to_bytes_flat("4", &symbol_with_tag(2)).unwrap(),
        vec![4, 0]
    );
    assert_eq!(
        str_and_symbol_to_bytes_flat("-1", &symbol_with_tag(2)).unwrap(),
        vec![0xFF, 0xFF]
    );
    // Booleans fold case.
    assert_eq!(
        str_and_symbol_to_bytes_flat("TRUE", &symbol_with_tag(33)).unwrap(),
        vec![1]
    );
    assert_eq!(
        str_and_symbol_to_bytes_flat("false", &symbol_with_tag(33)).unwrap(),
        vec![0]
    );
    // Text gains its terminator.
    assert_eq!(
        str_and_symbol_to_bytes_flat("hi", &symbol_with_tag(30)).unwrap(),
        vec![b'h', b'i', 0]
    );
    // Unsigned 32-bit.
    assert_eq!(
        str_and_symbol_to_bytes_flat("258", &symbol_with_tag(19)).unwrap(),
        vec![2, 1, 0, 0]
    );
}

#[test]
fn scalar_literal_errors() {
    // Out of the declared width.
    assert_eq!(
        str_and_symbol_to_bytes_flat("300", &symbol_with_tag(17)).unwrap_err(),
        AdsError::InvalidArgument
    );
    // Not a number at all.
    assert_eq!(
        str_and_symbol_to_bytes_flat("abc", &symbol_with_tag(2)).unwrap_err(),
        AdsError::InvalidArgument
    );
    // A minus sign is no unsigned value.
    assert!(str_and_symbol_to_bytes_flat("-1", &symbol_with_tag(17)).is_err());
    // A struct cannot be written from one literal.
    assert_eq!(
        str_and_symbol_to_bytes_flat("x", &symbol_with_tag(65)).unwrap_err(),
        AdsError::Unsupported
    );
    // Reserved tags are malformed.
    assert_eq!(
        str_and_symbol_to_bytes_flat("x", &symbol_with_tag(32)).unwrap_err(),
        AdsError::MalformedData
    );
}
