//! Path resolution through nested structs and accessor notation.

use twincat::error::AdsError;
use twincat::schema::{DataType, DataTypes, Group, Symbol, Symbols, SymbolsAndDataTypes};

fn symbol(name: &str, tag: u8, declared: &str, offset: usize) -> Symbol {
    Symbol {
        name: String::from(name),
        data_type_id: tag,
        data_type_name: String::from(declared),
        offset,
        group: Group::Unassigned,
        persistent: false,
        comment: None,
    }
}

fn data_type(name: &str, size: usize, ranges: Vec<(i32, i32)>, fields: Vec<Symbol>) -> DataType {
    DataType {
        name: String::from(name),
        size_bytes: size,
        comment: None,
        array_ranges: ranges,
        fields,
    }
}

fn grid_directory() -> SymbolsAndDataTypes {
    SymbolsAndDataTypes {
        symbols: Symbols {
            entries: vec![symbol("a.b", 2, "ARRAY [0..5,0..5] OF INT", 0)],
        },
        data_types: DataTypes {
            entries: vec![
                data_type("INT", 2, vec![], vec![]),
                data_type("ARRAY [0..5,0..5] OF INT", 72, vec![(0, 5), (0, 5)], vec![]),
            ],
        },
    }
}

/// Bracket-per-dimension and comma-combined accessors resolve to the
/// same symbol and effective data type.
#[test]
fn accessor_notations_resolve_alike() {
    let directory = grid_directory();
    let (s1, d1) = directory.get_symbol_and_data_type("a.b[3][2]").unwrap();
    let (s2, d2) = directory.get_symbol_and_data_type("a.b[3,2]").unwrap();
    assert_eq!(s1.name(), s2.name());
    assert_eq!(s1.data_type(), s2.data_type());
    assert_eq!(d1.name, d2.name);
    assert_eq!(d1.name, String::from("INT"));
    assert_eq!(d1.size_bytes(), 2);
}

/// One accessor into a combined two-dimensional bracket cannot land on
/// a dimension boundary.
#[test]
fn partial_accessor_into_combined_bracket() {
    let directory = grid_directory();
    assert_eq!(
        directory.get_symbol_and_data_type("a.b[3]").unwrap_err(),
        AdsError::OutOfBounds
    );
}

fn house_directory() -> SymbolsAndDataTypes {
    let fridge_fields = vec![
        symbol("middle_shelf", 2, "ARRAY [0..3] OF INT", 0),
        symbol("light_on", 33, "BOOL", 8),
    ];
    let kitchen_fields = vec![symbol("fridge", 65, "FRIDGE", 0)];
    SymbolsAndDataTypes {
        symbols: Symbols {
            entries: vec![symbol("main.kitchen", 65, "KITCHEN", 0)],
        },
        data_types: DataTypes {
            entries: vec![
                data_type("INT", 2, vec![], vec![]),
                data_type("BOOL", 1, vec![], vec![]),
                data_type("ARRAY [0..3] OF INT", 8, vec![(0, 3)], vec![]),
                data_type("FRIDGE", 9, vec![], fridge_fields),
                data_type("KITCHEN", 9, vec![], kitchen_fields),
            ],
        },
    }
}

/// A dotted path walks struct fields; the trailing accessors reduce the
/// final field's declared array type.
#[test]
fn nested_struct_walk() {
    let directory = house_directory();

    let (sym, dt) = directory
        .get_symbol_and_data_type("main.kitchen.fridge.middle_shelf[3]")
        .unwrap();
    assert_eq!(sym.name(), "middle_shelf");
    assert_eq!(sym.offset(), 0);
    assert_eq!(dt.name, String::from("INT"));

    let (sym, dt) = directory
        .get_symbol_and_data_type("main.kitchen.fridge.light_on")
        .unwrap();
    assert_eq!(sym.name(), "light_on");
    assert_eq!(sym.offset(), 8);
    assert_eq!(dt.name, String::from("BOOL"));
}

/// Unknown symbols, fields and types are lookup errors, not panics.
#[test]
fn missing_names_are_not_found() {
    let directory = house_directory();
    assert_eq!(
        directory.get_symbol_and_data_type("main.garage").unwrap_err(),
        AdsError::NotFound
    );
    assert_eq!(
        directory
            .get_symbol_and_data_type("main.kitchen.oven")
            .unwrap_err(),
        AdsError::NotFound
    );
    assert_eq!(
        directory
            .get_symbol_and_data_type("main.kitchen.fridge.freezer")
            .unwrap_err(),
        AdsError::NotFound
    );
}

/// Asking for more accessors than the declared type has dimensions is
/// out of bounds.
#[test]
fn too_many_accessors() {
    let directory = house_directory();
    assert_eq!(
        directory
            .get_symbol_and_data_type("main.kitchen.fridge.middle_shelf[1][2]")
            .unwrap_err(),
        AdsError::OutOfBounds
    );
}
