//! Round trips for the fixed-width big-endian primitives, boolean, unit and
//! the 128-bit unique identifier.

use drax::transport::{ByteReader, PacketComponent};

fn round_trip_u16(expected: u16) {
    let mut ctx = ();
    let mut out: Vec<u8> = Vec::new();
    <u16 as PacketComponent<()>>::encode(&expected, &mut ctx, &mut out).unwrap();
    let mut reader = ByteReader::new(out);
    let back = <u16 as PacketComponent<()>>::decode(&mut ctx, &mut reader).unwrap();
    assert_eq!(back, expected);
}

#[test]
fn test_u8() {
    let expected: u8 = 10;
    let mut ctx = ();
    let mut out: Vec<u8> = Vec::new();
    <u8 as PacketComponent<()>>::encode(&expected, &mut ctx, &mut out).unwrap();
    let mut reader = ByteReader::new(out);
    assert_eq!(<u8 as PacketComponent<()>>::decode(&mut ctx, &mut reader).unwrap(), expected);
}

#[test]
fn test_u16() {
    round_trip_u16(u8::MAX as u16 + 10);
}

#[test]
fn test_u32() {
    let expected: u32 = u16::MAX as u32 + 10;
    let mut ctx = ();
    let mut out: Vec<u8> = Vec::new();
    <u32 as PacketComponent<()>>::encode(&expected, &mut ctx, &mut out).unwrap();
    assert_eq!(out, vec![0x00, 0x01, 0x00, 0x09]);
    let mut reader = ByteReader::new(out);
    assert_eq!(<u32 as PacketComponent<()>>::decode(&mut ctx, &mut reader).unwrap(), expected);
}

#[test]
fn test_u64() {
    let expected: u64 = u32::MAX as u64 + 10;
    let mut ctx = ();
    let mut out: Vec<u8> = Vec::new();
    <u64 as PacketComponent<()>>::encode(&expected, &mut ctx, &mut out).unwrap();
    let mut reader = ByteReader::new(out);
    assert_eq!(<u64 as PacketComponent<()>>::decode(&mut ctx, &mut reader).unwrap(), expected);
}

#[test]
fn test_i8() {
    let expected: i8 = 10;
    let mut ctx = ();
    let mut out: Vec<u8> = Vec::new();
    <i8 as PacketComponent<()>>::encode(&expected, &mut ctx, &mut out).unwrap();
    let mut reader = ByteReader::new(out);
    assert_eq!(<i8 as PacketComponent<()>>::decode(&mut ctx, &mut reader).unwrap(), expected);
}

#[test]
fn test_i16() {
    let expected: i16 = i8::MAX as i16 - 10;
    let mut ctx = ();
    let mut out: Vec<u8> = Vec::new();
    <i16 as PacketComponent<()>>::encode(&expected, &mut ctx, &mut out).unwrap();
    let mut reader = ByteReader::new(out);
    assert_eq!(<i16 as PacketComponent<()>>::decode(&mut ctx, &mut reader).unwrap(), expected);
}

#[test]
fn test_i32() {
    let expected: i32 = i16::MAX as i32 - 10;
    let mut ctx = ();
    let mut out: Vec<u8> = Vec::new();
    <i32 as PacketComponent<()>>::encode(&expected, &mut ctx, &mut out).unwrap();
    let mut reader = ByteReader::new(out);
    assert_eq!(<i32 as PacketComponent<()>>::decode(&mut ctx, &mut reader).unwrap(), expected);
}

#[test]
fn test_i64() {
    let expected: i64 = i32::MAX as i64 - 10;
    let mut ctx = ();
    let mut out: Vec<u8> = Vec::new();
    <i64 as PacketComponent<()>>::encode(&expected, &mut ctx, &mut out).unwrap();
    let mut reader = ByteReader::new(out);
    assert_eq!(<i64 as PacketComponent<()>>::decode(&mut ctx, &mut reader).unwrap(), expected);
}

#[test]
fn test_negative_values_round_trip() {
    let mut ctx = ();
    let mut out: Vec<u8> = Vec::new();
    <i32 as PacketComponent<()>>::encode(&-123456789, &mut ctx, &mut out).unwrap();
    <i64 as PacketComponent<()>>::encode(&i64::MIN, &mut ctx, &mut out).unwrap();
    <i8 as PacketComponent<()>>::encode(&-5, &mut ctx, &mut out).unwrap();
    let mut reader = ByteReader::new(out);
    assert_eq!(<i32 as PacketComponent<()>>::decode(&mut ctx, &mut reader).unwrap(), -123456789);
    assert_eq!(<i64 as PacketComponent<()>>::decode(&mut ctx, &mut reader).unwrap(), i64::MIN);
    assert_eq!(<i8 as PacketComponent<()>>::decode(&mut ctx, &mut reader).unwrap(), -5);
}

#[test]
fn test_bool_round_trip() {
    let mut ctx = ();
    let mut out: Vec<u8> = Vec::new();
    <bool as PacketComponent<()>>::encode(&true, &mut ctx, &mut out).unwrap();
    <bool as PacketComponent<()>>::encode(&false, &mut ctx, &mut out).unwrap();
    assert_eq!(out, vec![0x01, 0x00]);
    let mut reader = ByteReader::new(out);
    assert_eq!(<bool as PacketComponent<()>>::decode(&mut ctx, &mut reader).unwrap(), true);
    assert_eq!(<bool as PacketComponent<()>>::decode(&mut ctx, &mut reader).unwrap(), false);
    // Any nonzero decoded byte is true.
    let mut reader = ByteReader::new(vec![0x2a]);
    assert_eq!(<bool as PacketComponent<()>>::decode(&mut ctx, &mut reader).unwrap(), true);
}

#[test]
fn test_unit_writes_no_bytes() {
    let mut ctx = ();
    let mut out: Vec<u8> = Vec::new();
    <() as PacketComponent<()>>::encode(&(), &mut ctx, &mut out).unwrap();
    assert_eq!(out.len(), 0);
    let mut reader = ByteReader::new(out);
    <() as PacketComponent<()>>::decode(&mut ctx, &mut reader).unwrap();
}

#[test]
fn test_uuid() {
    let expected = uuid::Uuid::new_v4();
    let mut ctx = ();
    let mut out: Vec<u8> = Vec::new();
    <u128 as PacketComponent<()>>::encode(&expected.as_u128(), &mut ctx, &mut out).unwrap();
    // A 128-bit unique identifier crosses the wire as its sixteen raw bytes.
    assert_eq!(out.as_slice(), expected.as_bytes());
    let mut reader = ByteReader::new(out);
    let back = <u128 as PacketComponent<()>>::decode(&mut ctx, &mut reader).unwrap();
    assert_eq!(uuid::Uuid::from_u128(back), expected);
}
