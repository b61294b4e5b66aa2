//! The accessor algebra on type names and path segments.

use twincat::array::{count_accessors, get_base_name, get_ranges, trim_accessors};

#[test]
fn test_get_base_name() {
    assert_eq!(get_base_name("UINT", None).unwrap(), "UINT");
    assert!(get_base_name("UINT", Some(1)).is_err());

    assert_eq!(get_base_name("ARRAY [3..7] OF UINT", None).unwrap(), "UINT");
    assert_eq!(get_base_name("ARRAY [3..7] OF UINT", Some(1)).unwrap(), "UINT");
    assert!(get_base_name("ARRAY [3..7] OF UINT", Some(2)).is_err());

    assert_eq!(
        get_base_name("ARRAY [-6..2] OF ARRAY [3..7] OF UINT", None).unwrap(),
        "UINT"
    );
    assert_eq!(
        get_base_name("ARRAY [-6..2] OF ARRAY [3..7] OF UINT", Some(1)).unwrap(),
        "ARRAY [3..7] OF UINT"
    );
    assert_eq!(
        get_base_name("ARRAY [-6..2] OF ARRAY [3..7] OF UINT", Some(2)).unwrap(),
        "UINT"
    );
    assert!(get_base_name("ARRAY [-6..2] OF ARRAY [3..7] OF UINT", Some(3)).is_err());
}

#[test]
fn get_base_name_of_array_with_comma() {
    assert_eq!(
        get_base_name("ARRAY [0..1,1..2] OF USINT", None).unwrap(),
        "USINT"
    );
    assert!(get_base_name("ARRAY [0..1,1..2] OF USINT", Some(1)).is_err());
    assert_eq!(
        get_base_name("ARRAY [0..1,1..2] OF USINT", Some(2)).unwrap(),
        "USINT"
    );
    assert!(get_base_name("ARRAY [0..1,1..2] OF USINT", Some(3)).is_err());

    assert_eq!(
        get_base_name(
            "ARRAY [0..1,1..2,2..3] OF ARRAY [3..5] OF ARRAY [2..4,4..5] OF USINT",
            None
        )
        .unwrap(),
        "USINT"
    );
    assert!(get_base_name(
        "ARRAY [0..1,1..2,2..3] OF ARRAY [3..5] OF ARRAY [2..4,4..5] OF USINT",
        Some(1)
    )
    .is_err());
    assert!(get_base_name(
        "ARRAY [0..1,1..2,2..3] OF ARRAY [3..5] OF ARRAY [2..4,4..5] OF USINT",
        Some(2)
    )
    .is_err());
    assert_eq!(
        get_base_name(
            "ARRAY [0..1,1..2,2..3] OF ARRAY [3..5] OF ARRAY [2..4,4..5] OF USINT",
            Some(3)
        )
        .unwrap(),
        "ARRAY [3..5] OF ARRAY [2..4,4..5] OF USINT"
    );

    assert_eq!(
        get_base_name(
            "ARRAY [0..1,1..2,2..3] OF ARRAY [3..5] OF ARRAY [2..4,4..5] OF USINT",
            Some(4)
        )
        .unwrap(),
        "ARRAY [2..4,4..5] OF USINT"
    );

    assert!(get_base_name(
        "ARRAY [0..1,1..2,2..3] OF ARRAY [3..5] OF ARRAY [2..4,4..5] OF USINT",
        Some(5)
    )
    .is_err());
    assert_eq!(
        get_base_name(
            "ARRAY [0..1,1..2,2..3] OF ARRAY [3..5] OF ARRAY [2..4,4..5] OF USINT",
            Some(6)
        )
        .unwrap(),
        "USINT"
    );
    assert!(get_base_name(
        "ARRAY [0..1,1..2,2..3] OF ARRAY [3..5] OF ARRAY [2..4,4..5] OF USINT",
        Some(7)
    )
    .is_err());
}

#[test]
fn test_get_ranges() {
    assert_eq!(get_ranges("UINT").unwrap(), vec![]);
    assert_eq!(get_ranges("ARRAY [3..7] OF UINT").unwrap(), vec![(3, 7)]);
    assert_eq!(
        get_ranges("ARRAY [-6..2] OF ARRAY [3..7] OF UINT").unwrap(),
        vec![(-6, 2), (3, 7)]
    );
    assert_eq!(
        get_ranges("ARRAY [-6..2,1..3,-8..-4] OF ARRAY [3..7] OF ARRAY [1..2,2..3,3..4] OF UINT")
            .unwrap(),
        vec![(-6, 2), (1, 3), (-8, -4), (3, 7), (1, 2), (2, 3), (3, 4)]
    );

    assert!(get_ranges("ARRAY [..7] OF UINT").is_err());
}

#[test]
fn test_count_accessors() {
    assert_eq!(count_accessors("my_value"), 0);
    assert_eq!(count_accessors("my_value[-8]"), 1);
    assert_eq!(count_accessors("my_value[3][5]"), 2);
    assert_eq!(count_accessors("my_value[3,5]"), 2);
    assert_eq!(count_accessors("my_value[-8][3,5]"), 3);
}

#[test]
fn test_trim_accessors() {
    assert_eq!(trim_accessors("my_value"), String::from("my_value"));
    assert_eq!(trim_accessors("my_value[-8]"), String::from("my_value"));
    assert_eq!(trim_accessors("my_value[3][5]"), String::from("my_value"));
}

#[test]
fn ranges_reject_inverted_bounds() {
    assert!(get_ranges("ARRAY [7..3] OF UINT").is_err());
    assert!(get_ranges("ARRAY [a..3] OF UINT").is_err());
    assert!(get_ranges("ARRAY [3] OF UINT").is_err());
}
