//! The storage adapter exercised over a simulated double-precision column:
//! the engine's CAST of decimal text to a double column is the nearest
//! 64-bit float of the text, and a stored row holds the column encoding.

use currency::{Currency, from_nullable_storage, from_storage, to_storage};

fn decimal_cases() -> Vec<(u32, u32, &'static str, &'static str)> {
    // precision, scale, sent, expected
    vec![
        (1, 0, "1", "1.00"),
        (6, 2, "1", "1.00"),
        (6, 2, "9999.99", "9999.99"),
        (35, 6, "3950.123456", "3950.12"),
        (10, 2, "3950.123456", "3950.12"),
        (35, 6, "3950", "3950.00"),
        (4, 0, "3950", "3950.00"),
        (35, 6, "0.1", "0.10"),
        (35, 6, "0.01", "0.01"),
        (35, 6, "0.001", "0.00"),
        (35, 6, "0.0001", "0.00"),
        (35, 6, "0.00001", "0.00"),
        (35, 6, "0.000001", "0.00"),
        (35, 6, "1", "1.00"),
        (35, 6, "-100", "-100.00"),
        (35, 6, "-123.456", "-123.46"),
        (35, 6, "119996.25", "119996.25"),
        (35, 6, "1000000", "1000000.00"),
        (35, 6, "9999999.99999", "10000000.00"),
        (35, 6, "12340.56789", "12340.57"),
    ]
}

/// The engine's cast of decimal text into a native double column: the
/// nearest 64-bit float, handed on as its encoding.
fn cast_to_double_column(text: &str) -> u64 {
    let v: f64 = text.parse().expect("decimal text");
    v.to_bits()
}

#[test]
fn test_null() {
    // A SQL NULL column decodes to no value; no Currency is built and no
    // error is raised.
    let result = from_nullable_storage(None);
    assert!(result.is_none());
}

#[test]
fn read_numeric_type() {
    for &(precision, scale, sent, expected) in decimal_cases().iter() {
        let column = cast_to_double_column(sent);
        let value = from_storage(column);
        assert_eq!(
            expected,
            value.render(),
            "DECIMAL({}, {}) sent: {}",
            precision,
            scale,
            sent
        );
    }
}

#[test]
fn write_numeric_type() {
    for &(precision, scale, sent, expected) in decimal_cases().iter() {
        let written = Currency::from_bits(cast_to_double_column(sent), None);
        let column = to_storage(&written);
        let value = from_storage(column);
        assert_eq!(
            expected,
            value.render(),
            "DECIMAL({}, {}) sent: {}",
            precision,
            scale,
            sent
        );
    }
}

#[derive(Debug, PartialEq)]
struct Currencies {
    id: i32,
    currency: Currency,
}

#[test]
fn custom_types_round_trip() {
    let data = vec![
        Currencies { id: 1, currency: Currency::from_bits((0.10f64).to_bits(), None) },
        Currencies { id: 2, currency: Currency::from_bits((200f64).to_bits(), None) },
    ];

    // The table: rows of an id and a double-precision currency column.
    let mut table: Vec<(i32, u64)> = Vec::new();
    for row in data.iter() {
        table.push((row.id, to_storage(&row.currency)));
    }
    let inserted: Vec<Currencies> = table
        .iter()
        .map(|&(id, column)| Currencies { id, currency: from_storage(column) })
        .collect();

    assert_eq!(data, inserted);
}

#[test]
fn round_trip_preserves_encoding() {
    for v in [0.1f64, 200.0, -123.456, 0.0, -0.0, 1.0e300, 5.0e-324, f64::MAX] {
        let c = Currency::from_bits(v.to_bits(), None);
        let back = from_storage(to_storage(&c));
        assert_eq!(back, c);
        assert_eq!(f64::from_bits(back.bits), v);
    }
}

#[test]
fn null_is_distinct_from_zero() {
    let zero = from_nullable_storage(Some((0.0f64).to_bits()));
    assert!(zero.is_some());
    assert_eq!(zero.unwrap().render(), "0.00");
    assert!(from_nullable_storage(None).is_none());
}
