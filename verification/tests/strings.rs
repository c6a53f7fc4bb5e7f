//! Length-prefixed text: round trips, byte-length caps on both sides, and
//! malformed payload rejection.

use drax::delegate::text::LimitedString;
use drax::error::TransportError;
use drax::transport::{ByteReader, PacketComponent};

#[test]
fn test_string_encoding() {
    let mut ctx = ();
    let mut out: Vec<u8> = Vec::new();
    <String as PacketComponent<()>>::encode(&"test string".to_string(), &mut ctx, &mut out)
        .unwrap();
    let mut reader = ByteReader::new(out);
    let back = <String as PacketComponent<()>>::decode(&mut ctx, &mut reader).unwrap();
    assert_eq!(back, "test string");
}

#[test]
fn test_limited_string_encoding() {
    let mut ctx = ();
    let mut out: Vec<u8> = Vec::new();
    let error = <LimitedString<10> as PacketComponent<()>>::encode(
        &"test string".to_string(),
        &mut ctx,
        &mut out,
    );
    assert_eq!(error, Err(TransportError::LimitExceeded(10, 11, "encoding string")));
    assert_eq!(out.len(), 0);
}

#[test]
fn test_limited_string_decoding() {
    let mut ctx = ();
    let mut framed: Vec<u8> = Vec::new();
    drax::delegate::var_num::write_var_int(&mut framed, 11);
    let mut reader = ByteReader::new(framed);
    let error = <LimitedString<10> as PacketComponent<()>>::decode(&mut ctx, &mut reader);
    assert_eq!(error, Err(TransportError::LimitExceeded(10, 11, "decoding string")));
}

#[test]
fn test_limited_string_decoding_leaves_payload() {
    // The declared length is rejected before any of the payload is read.
    let mut ctx = ();
    let mut framed: Vec<u8> = Vec::new();
    drax::delegate::var_num::write_var_int(&mut framed, 11);
    framed.extend_from_slice(b"test string");
    let mut reader = ByteReader::new(framed);
    let error = <LimitedString<10> as PacketComponent<()>>::decode(&mut ctx, &mut reader);
    assert_eq!(error, Err(TransportError::LimitExceeded(10, 11, "decoding string")));
    assert_eq!(reader.remaining_len(), 11);
}

#[test]
fn test_string_default_cap_decoding() {
    let mut ctx = ();
    let mut framed: Vec<u8> = Vec::new();
    drax::delegate::var_num::write_var_int(&mut framed, 131069);
    let mut reader = ByteReader::new(framed);
    let error = <String as PacketComponent<()>>::decode(&mut ctx, &mut reader);
    assert_eq!(error, Err(TransportError::LimitExceeded(131068, 131069, "decoding string")));
}

#[test]
fn test_string_invalid_utf8() {
    let mut ctx = ();
    let mut framed: Vec<u8> = Vec::new();
    drax::delegate::var_num::write_var_int(&mut framed, 2);
    framed.push(0xff);
    framed.push(0xfe);
    let mut reader = ByteReader::new(framed);
    let error = <String as PacketComponent<()>>::decode(&mut ctx, &mut reader);
    assert_eq!(error, Err(TransportError::Utf8Error));
}

#[test]
fn test_string_size_matches_encoding() {
    let value = "size check".to_string();
    let mut ctx = ();
    let mut out: Vec<u8> = Vec::new();
    <String as PacketComponent<()>>::encode(&value, &mut ctx, &mut out).unwrap();
    let size = <String as PacketComponent<()>>::size(&value, &mut ctx).unwrap();
    assert_eq!(size.count(), out.len());
}
