//! Encoding, decoding and the end-to-end write/read scenario.

use twincat::client::Client;
use twincat::error::AdsError;
use twincat::schema::{DataType, DataTypes, Group, Symbol, Symbols, SymbolsAndDataTypes};
use twincat::variables::{StartIndex, Variable};

fn symbol(name: &str, tag: u8, declared: &str, offset: usize) -> Symbol {
    Symbol {
        name: String::from(name),
        data_type_id: tag,
        data_type_name: String::from(declared),
        offset,
        group: Group::Unassigned,
        persistent: false,
        comment: None,
    }
}

fn data_type(name: &str, size: usize, ranges: Vec<(i32, i32)>, fields: Vec<Symbol>) -> DataType {
    DataType {
        name: String::from(name),
        size_bytes: size,
        comment: None,
        array_ranges: ranges,
        fields,
    }
}

fn garden_client() -> Client {
    Client {
        ams_address: [127, 0, 0, 1, 1, 1],
        ams_port: 851,
        symbols_and_data_types: SymbolsAndDataTypes {
            symbols: Symbols {
                entries: vec![symbol("garden.plants", 2, "ARRAY [0..255] OF INT", 0)],
            },
            data_types: DataTypes {
                entries: vec![
                    data_type("INT", 2, vec![], vec![]),
                    data_type("ARRAY [0..255] OF INT", 512, vec![(0, 255)], vec![]),
                ],
            },
        },
    }
}

/// Writing an element then reading it back returns the written value;
/// the simulated device is a plain byte buffer.
#[test]
fn write_then_read_element() {
    let client = garden_client();
    let mut memory = vec![0u8; 512];

    let payload = client.set_value("garden.plants[3]", Variable::I16(4)).unwrap();
    assert_eq!(payload.len(), 2);
    memory[6..8].copy_from_slice(&payload);
    let read_back = client.get_value("garden.plants[3]", &memory[6..8]).unwrap();
    assert_eq!(read_back, Variable::I16(4));

    let payload = client.set_value("garden.plants[3]", Variable::I16(2)).unwrap();
    memory[6..8].copy_from_slice(&payload);
    let read_back = client.get_value("garden.plants[3]", &memory[6..8]).unwrap();
    assert_eq!(read_back, Variable::I16(2));
}

/// A prefix write of a declared array is accepted; overflow and a wrong
/// start index are refused.
#[test]
fn array_write_bounds() {
    let client = garden_client();

    let mut long = Vec::new();
    let mut short = Vec::new();
    for i in 0..257 {
        long.push(Variable::I16(i as i16));
        if i < 8 {
            short.push(Variable::I16(i as i16));
        }
    }
    assert_eq!(
        client
            .set_value("garden.plants", Variable::Array(StartIndex::Start, long))
            .unwrap_err(),
        AdsError::InvalidArgument
    );
    assert_eq!(
        client
            .set_value(
                "garden.plants",
                Variable::Array(StartIndex::At(1), vec![Variable::I16(9)])
            )
            .unwrap_err(),
        AdsError::InvalidArgument
    );
    let bytes = client
        .set_value("garden.plants", Variable::Array(StartIndex::Start, short))
        .unwrap();
    assert_eq!(bytes.len(), 16);
    assert_eq!(&bytes[0..4], &[0, 0, 1, 0]);
}

/// Scalars of every fixed width round-trip exactly.
#[test]
fn scalar_round_trips() {
    let empty_types = DataTypes { entries: vec![] };
    let cases: Vec<(u8, Variable)> = vec![
        (0, Variable::Void),
        (33, Variable::Bool(true)),
        (16, Variable::I8(-5)),
        (2, Variable::I16(-300)),
        (3, Variable::I32(70000)),
        (20, Variable::I64(-1)),
        (17, Variable::U8(255)),
        (18, Variable::U16(65535)),
        (19, Variable::U32(4000000000)),
        (21, Variable::U64(18446744073709551615)),
        (4, Variable::F32(0x40490FDB)),
        (5, Variable::F64(0x400921FB54442D18)),
        (30, Variable::Text(String::from("greenhouse"))),
    ];
    for (tag, value) in cases {
        let sym = symbol("v", tag, "SCALAR", 0);
        let dt = data_type("SCALAR", 0, vec![], vec![]);
        let bytes = value.to_bytes(&empty_types, &sym, &dt).unwrap();
        let back = Variable::from_bytes(&empty_types, &sym, &dt, &bytes).unwrap();
        assert_eq!(back, value);
    }
}

/// One-, two- and three-dimensional full arrays round-trip exactly.
#[test]
fn array_round_trips() {
    let types = DataTypes {
        entries: vec![
            data_type("UINT", 2, vec![], vec![]),
            data_type("ARRAY [3..5] OF UINT", 6, vec![(3, 5)], vec![]),
            data_type("ARRAY [-1..0,3..4] OF UINT", 8, vec![(-1, 0), (3, 4)], vec![]),
            data_type(
                "ARRAY [0..1] OF ARRAY [0..1,5..6] OF UINT",
                16,
                vec![(0, 1), (0, 1), (5, 6)],
                vec![],
            ),
        ],
    };
    let one = Variable::Array(
        StartIndex::At(3),
        vec![Variable::U16(7), Variable::U16(8), Variable::U16(9)],
    );
    let sym1 = symbol("a", 18, "ARRAY [3..5] OF UINT", 0);
    let dt1 = data_type("ARRAY [3..5] OF UINT", 6, vec![(3, 5)], vec![]);
    let bytes = one.to_bytes(&types, &sym1, &dt1).unwrap();
    assert_eq!(bytes, vec![7, 0, 8, 0, 9, 0]);
    assert_eq!(Variable::from_bytes(&types, &sym1, &dt1, &bytes).unwrap(), one);

    let two = Variable::Array(
        StartIndex::At(-1),
        vec![
            Variable::Array(StartIndex::At(3), vec![Variable::U16(1), Variable::U16(2)]),
            Variable::Array(StartIndex::At(3), vec![Variable::U16(3), Variable::U16(4)]),
        ],
    );
    let sym2 = symbol("b", 18, "ARRAY [-1..0,3..4] OF UINT", 0);
    let dt2 = data_type("ARRAY [-1..0,3..4] OF UINT", 8, vec![(-1, 0), (3, 4)], vec![]);
    let bytes = two.to_bytes(&types, &sym2, &dt2).unwrap();
    assert_eq!(Variable::from_bytes(&types, &sym2, &dt2, &bytes).unwrap(), two);

    let plane = |a: u16, b: u16, c: u16, d: u16| {
        Variable::Array(
            StartIndex::At(0),
            vec![
                Variable::Array(StartIndex::At(5), vec![Variable::U16(a), Variable::U16(b)]),
                Variable::Array(StartIndex::At(5), vec![Variable::U16(c), Variable::U16(d)]),
            ],
        )
    };
    let three = Variable::Array(StartIndex::At(0), vec![plane(1, 2, 3, 4), plane(5, 6, 7, 8)]);
    let sym3 = symbol("c", 18, "ARRAY [0..1] OF ARRAY [0..1,5..6] OF UINT", 0);
    let dt3 = data_type(
        "ARRAY [0..1] OF ARRAY [0..1,5..6] OF UINT",
        16,
        vec![(0, 1), (0, 1), (5, 6)],
        vec![],
    );
    let bytes = three.to_bytes(&types, &sym3, &dt3).unwrap();
    assert_eq!(bytes.len(), 16);
    assert_eq!(Variable::from_bytes(&types, &sym3, &dt3, &bytes).unwrap(), three);
}

fn fridge_types() -> DataTypes {
    let fields = vec![
        symbol("top_shelf", 2, "INT", 0),
        symbol("middle_shelf", 2, "INT", 2),
        symbol("bottom_shelf", 2, "INT", 4),
        symbol("door_shelf", 2, "INT", 6),
        symbol("drawer", 2, "INT", 8),
    ];
    DataTypes {
        entries: vec![
            data_type("INT", 2, vec![], vec![]),
            data_type("FRIDGE", 10, vec![], fields),
        ],
    }
}

fn fridge_value(names: Vec<&str>) -> Variable {
    Variable::Struct(
        names
            .into_iter()
            .map(|n| (String::from(n), Variable::I16(1)))
            .collect(),
    )
}

/// A struct value covering the whole declared size encodes; a gap, a
/// duplicate and an unknown field are each refused.
#[test]
fn struct_gap_duplicate_unknown_detection() {
    let types = fridge_types();
    let sym = symbol("fridge", 65, "FRIDGE", 0);

    let all = fridge_value(vec![
        "top_shelf",
        "middle_shelf",
        "bottom_shelf",
        "door_shelf",
        "drawer",
    ]);
    let bytes = all
        .to_bytes(&types, &sym, &data_type("FRIDGE", 10, vec![], vec![]))
        .unwrap();
    assert_eq!(bytes.len(), 10);

    let gap = fridge_value(vec!["top_shelf", "bottom_shelf", "door_shelf", "drawer"]);
    assert_eq!(
        gap.to_bytes(&types, &sym, &data_type("FRIDGE", 10, vec![], vec![]))
            .unwrap_err(),
        AdsError::InvalidArgument
    );

    let duplicate = fridge_value(vec![
        "top_shelf",
        "top_shelf",
        "middle_shelf",
        "bottom_shelf",
        "door_shelf",
        "drawer",
    ]);
    assert_eq!(
        duplicate
            .to_bytes(&types, &sym, &data_type("FRIDGE", 10, vec![], vec![]))
            .unwrap_err(),
        AdsError::InvalidArgument
    );

    let unknown = fridge_value(vec![
        "top_shelf",
        "middle_shelf",
        "bottom_shelf",
        "door_shelf",
        "freezer",
    ]);
    assert_eq!(
        unknown
            .to_bytes(&types, &sym, &data_type("FRIDGE", 10, vec![], vec![]))
            .unwrap_err(),
        AdsError::InvalidArgument
    );
}

/// A gap-free struct round-trips through its byte image, field for
/// field in declaration order.
#[test]
fn struct_round_trip() {
    let types = fridge_types();
    let sym = symbol("fridge", 65, "FRIDGE", 0);
    let dt = data_type("FRIDGE", 10, vec![], fridge_types().entries.remove(1).fields);
    let value = Variable::Struct(vec![
        (String::from("top_shelf"), Variable::I16(10)),
        (String::from("middle_shelf"), Variable::I16(20)),
        (String::from("bottom_shelf"), Variable::I16(30)),
        (String::from("door_shelf"), Variable::I16(40)),
        (String::from("drawer"), Variable::I16(50)),
    ]);
    let bytes = value.to_bytes(&types, &sym, &dt).unwrap();
    let back = Variable::from_bytes(&types, &sym, &dt, &bytes).unwrap();
    assert_eq!(back, value);
}

/// Decode-time defenses: bad boolean bytes, missing terminators, and
/// the unsupported and reserved tags.
#[test]
fn decode_rejections() {
    let empty_types = DataTypes { entries: vec![] };
    let dt = data_type("SCALAR", 0, vec![], vec![]);

    let bool_sym = symbol("b", 33, "BOOL", 0);
    assert_eq!(
        Variable::from_bytes(&empty_types, &bool_sym, &dt, &[2]).unwrap_err(),
        AdsError::MalformedData
    );
    let text_sym = symbol("t", 30, "STRING", 0);
    assert_eq!(
        Variable::from_bytes(&empty_types, &text_sym, &dt, &[b'h', b'i']).unwrap_err(),
        AdsError::MalformedData
    );
    let bit_sym = symbol("x", 31, "BIT", 0);
    assert_eq!(
        Variable::from_bytes(&empty_types, &bit_sym, &dt, &[0]).unwrap_err(),
        AdsError::Unsupported
    );
    let reserved_sym = symbol("r", 34, "RESERVED", 0);
    assert_eq!(
        Variable::from_bytes(&empty_types, &reserved_sym, &dt, &[0]).unwrap_err(),
        AdsError::MalformedData
    );
    let wide_sym = symbol("w", 2, "INT", 0);
    assert_eq!(
        Variable::from_bytes(&empty_types, &wide_sym, &dt, &[1, 2, 3]).unwrap_err(),
        AdsError::MalformedData
    );
}

/// Encoding a value against the wrong tag is a type mismatch.
#[test]
fn encode_type_mismatch() {
    let empty_types = DataTypes { entries: vec![] };
    let dt = data_type("SCALAR", 0, vec![], vec![]);
    let int_sym = symbol("v", 2, "INT", 0);
    assert_eq!(
        Variable::Bool(true)
            .to_bytes(&empty_types, &int_sym, &dt)
            .unwrap_err(),
        AdsError::TypeMismatch
    );
}

/// An array literal writes through the textual path with the exact
/// declared length.
#[test]
fn set_value_from_str_array() {
    let client = garden_client();
    assert_eq!(
        client
            .set_value_from_str("garden.plants[3]", "4")
            .unwrap(),
        vec![4, 0]
    );
    // The textual array path demands the full declared length.
    assert_eq!(
        client
            .set_value_from_str("garden.plants", "[1,2,3]")
            .unwrap_err(),
        AdsError::InvalidArgument
    );
}
