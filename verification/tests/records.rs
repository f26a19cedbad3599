//! Record parser behaviour: the split on `;` and the decimal value field.

use mean_by_key::error::LineError;
use mean_by_key::parse::parse_line;
use mean_by_key::SCALE;

#[test]
fn extract_line() {
    let line = b"Kelilalina;-96.9";
    let (station, measurement) = parse_line(line).unwrap();

    assert_eq!(station, b"Kelilalina".to_vec());
    assert_eq!(measurement as f64 / SCALE as f64, -96.9);
}

#[test]
fn parse_round_trip_samples() {
    // assembling "<key>;<value>" and parsing it gives the key verbatim and
    // the value exactly
    let cases: [(&[u8], &[u8], i128); 5] = [
        (b"a", b"2", 2 * SCALE),
        (b"spot 1", b"-0.5", -SCALE / 2),
        (b"x", b"+3.25", 3 * SCALE + SCALE / 4),
        (b"key with spaces", b"0.000000001", 1),
        (b"z", b"123456789012345678901234567.9", 123456789012345678901234567 * SCALE + 900_000_000),
    ];
    for (key, value, expected) in cases {
        let mut line = key.to_vec();
        line.push(b';');
        line.extend_from_slice(value);
        let (k, v) = parse_line(&line).unwrap();
        assert_eq!(k, key.to_vec());
        assert_eq!(v, expected);
    }
}

#[test]
fn parse_rejects_bad_split() {
    assert_eq!(parse_line(b"onlykey"), Err(LineError::Split));
    assert_eq!(parse_line(b""), Err(LineError::Split));
    assert_eq!(parse_line(b";5"), Err(LineError::Split));
    assert_eq!(parse_line(b"key;"), Err(LineError::Split));
    assert_eq!(parse_line(b"a;b;c"), Err(LineError::Split));
}

#[test]
fn parse_rejects_bad_number() {
    assert_eq!(parse_line(b"key;notanumber"), Err(LineError::Number));
    assert_eq!(parse_line(b"key;1.2.3"), Err(LineError::Number));
    assert_eq!(parse_line(b"key;."), Err(LineError::Number));
    assert_eq!(parse_line(b"key;.5"), Err(LineError::Number));
    assert_eq!(parse_line(b"key;5."), Err(LineError::Number));
    assert_eq!(parse_line(b"key;--1"), Err(LineError::Number));
    assert_eq!(parse_line(b"key;1 2"), Err(LineError::Number));
    // too many digits for the exact representation
    assert_eq!(parse_line(b"key;1234567890123456789012345678"), Err(LineError::Number));
    assert_eq!(parse_line(b"key;0.0000000001"), Err(LineError::Number));
}

#[test]
fn parse_accepts_edge_numbers() {
    // the widest fields the library holds exactly
    let (_, v) = parse_line(b"k;999999999999999999999999999.999999999").unwrap();
    assert_eq!(v, 999999999999999999999999999 * SCALE + 999_999_999);
    let (_, v) = parse_line(b"k;-999999999999999999999999999.999999999").unwrap();
    assert_eq!(v, -(999999999999999999999999999 * SCALE + 999_999_999));
    let (_, v) = parse_line(b"k;0").unwrap();
    assert_eq!(v, 0);
    let (_, v) = parse_line(b"k;-0.0").unwrap();
    assert_eq!(v, 0);
}
