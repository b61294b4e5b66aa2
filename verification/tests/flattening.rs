//! Expanding path fragments and flattening queries.

use twincat::filters::Field;
use twincat::schema::{DataType, DataTypes, Group, Symbol, Symbols, SymbolsAndDataTypes};

fn symbol(name: &str, tag: u8, declared: &str, offset: usize, persistent: bool) -> Symbol {
    Symbol {
        name: String::from(name),
        data_type_id: tag,
        data_type_name: String::from(declared),
        offset,
        group: Group::Unassigned,
        persistent,
        comment: None,
    }
}

fn data_type(name: &str, size: usize, ranges: Vec<(i32, i32)>, fields: Vec<Symbol>) -> DataType {
    DataType {
        name: String::from(name),
        size_bytes: size,
        comment: None,
        array_ranges: ranges,
        fields,
    }
}

#[test]
fn flat() {
    let field = Field::Flat(
        String::from("something"),
        Box::new(Field::End(String::from("another_thing"))),
    );
    assert_eq!(
        field.to_strings(String::from("first_thing")),
        vec![String::from("first_thing.something.another_thing")]
    );
}

#[test]
fn array_start() {
    let field = Field::Array((0, 1), Box::new(Field::End(String::from("end"))));
    assert_eq!(
        field.to_strings(String::from("start")),
        vec![String::from("start[0].end"), String::from("start[1].end")]
    );
}

#[test]
fn arrays() {
    let field = Field::Flat(
        String::from("many"),
        Box::new(Field::Array(
            (-1, 0),
            Box::new(Field::Array(
                (0, 2),
                Box::new(Field::Flat(
                    String::from("items"),
                    Box::new(Field::Array(
                        (-8, -7),
                        Box::new(Field::End(String::from("together"))),
                    )),
                )),
            )),
        )),
    );
    assert_eq!(
        field.to_strings(String::from("very")),
        vec![
            String::from("very.many[-1][0].items[-8].together"),
            String::from("very.many[0][0].items[-8].together"),
            String::from("very.many[-1][1].items[-8].together"),
            String::from("very.many[0][1].items[-8].together"),
            String::from("very.many[-1][2].items[-8].together"),
            String::from("very.many[0][2].items[-8].together"),
            String::from("very.many[-1][0].items[-7].together"),
            String::from("very.many[0][0].items[-7].together"),
            String::from("very.many[-1][1].items[-7].together"),
            String::from("very.many[0][1].items[-7].together"),
            String::from("very.many[-1][2].items[-7].together"),
            String::from("very.many[0][2].items[-7].together"),
        ]
    )
}

/// A struct symbol itself marked persistent is emitted as one entry, not
/// field by field.
#[test]
fn persistent_struct_symbol_is_one_entry() {
    let fridge_fields = vec![
        symbol("top_shelf", 2, "INT", 0, true),
        symbol("middle_shelf", 2, "INT", 2, true),
    ];
    let directory = SymbolsAndDataTypes {
        symbols: Symbols {
            entries: vec![symbol("main.kitchen.fridge", 65, "FRIDGE", 0, true)],
        },
        data_types: DataTypes {
            entries: vec![
                data_type("INT", 2, vec![], vec![]),
                data_type("FRIDGE", 4, vec![], fridge_fields),
            ],
        },
    };
    assert_eq!(
        directory.persistent(),
        vec![String::from("main.kitchen.fridge")]
    );
}

/// When only inner fields are marked persistent, flattening descends and
/// emits the deeper paths instead.
#[test]
fn persistent_fields_descend() {
    let fridge_fields = vec![
        symbol("top_shelf", 2, "INT", 0, true),
        symbol("middle_shelf", 2, "INT", 2, true),
    ];
    let directory = SymbolsAndDataTypes {
        symbols: Symbols {
            entries: vec![symbol("main.kitchen.fridge", 65, "FRIDGE", 0, false)],
        },
        data_types: DataTypes {
            entries: vec![
                data_type("INT", 2, vec![], vec![]),
                data_type("FRIDGE", 4, vec![], fridge_fields),
            ],
        },
    };
    assert_eq!(
        directory.persistent(),
        vec![
            String::from("main.kitchen.fridge.top_shelf"),
            String::from("main.kitchen.fridge.middle_shelf"),
        ]
    );
}

/// Flattening by declared type name expands array dimensions over their
/// ranges.
#[test]
fn type_name_query_expands_arrays() {
    let holder_fields = vec![symbol("cell", 2, "ARRAY [0..1] OF INT", 0, false)];
    let directory = SymbolsAndDataTypes {
        symbols: Symbols {
            entries: vec![symbol("plant.rack", 65, "HOLDER", 0, false)],
        },
        data_types: DataTypes {
            entries: vec![
                data_type("INT", 2, vec![], vec![]),
                data_type("ARRAY [0..1] OF INT", 4, vec![(0, 1)], vec![]),
                data_type("HOLDER", 4, vec![], holder_fields),
            ],
        },
    };
    assert_eq!(
        directory.symbols_with_data_type_name("ARRAY [0..1] OF INT"),
        vec![String::from("plant.rack.cell")]
    );
}
