//! The variable-length integer wire table, in both directions.

use drax::delegate::var_num::{read_var_int, read_var_long, size_var_int, write_var_int,
    write_var_long};
use drax::error::TransportError;
use drax::transport::ByteReader;

fn var_int_cases() -> Vec<(i32, Vec<u8>)> {
    vec![
        (25, vec![25]),
        (55324, vec![156, 176, 3]),
        (-8877777, vec![175, 146, 226, 251, 15]),
        (2147483647, vec![255, 255, 255, 255, 7]),
        (-2147483648, vec![128, 128, 128, 128, 8]),
    ]
}

#[test]
fn test_read_var_int() {
    for attempt in var_int_cases() {
        let mut reader = ByteReader::new(attempt.1);
        let result = read_var_int(&mut reader).unwrap();
        assert_eq!(result, attempt.0);
    }
}

#[test]
fn test_write_var_int() {
    for attempt in var_int_cases() {
        let mut out: Vec<u8> = Vec::new();
        write_var_int(&mut out, attempt.0);
        assert_eq!(out, attempt.1);
    }
}

#[test]
fn test_size_var_int_matches_encoding() {
    for attempt in var_int_cases() {
        assert_eq!(size_var_int(attempt.0), attempt.1.len());
    }
}

#[test]
fn test_var_long_round_trip() {
    for value in [0i64, 1, -1, 300, i64::MAX, i64::MIN, 987654321987654321] {
        let mut out: Vec<u8> = Vec::new();
        write_var_long(&mut out, value);
        let mut reader = ByteReader::new(out);
        assert_eq!(read_var_long(&mut reader).unwrap(), value);
    }
}

#[test]
fn test_var_int_too_large() {
    // Five continuation-flagged bytes exhaust the 35-bit ceiling.
    let mut reader = ByteReader::new(vec![0x80, 0x80, 0x80, 0x80, 0x80, 0x01]);
    assert_eq!(read_var_int(&mut reader), Err(TransportError::VarNumTooLarge));
}

#[test]
fn test_var_int_eof() {
    // A continuation flag with no byte after it.
    let mut reader = ByteReader::new(vec![0x80]);
    assert_eq!(read_var_int(&mut reader), Err(TransportError::EOF));
}
