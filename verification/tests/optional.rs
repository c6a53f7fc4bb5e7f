//! The optional-value delegate: one presence byte, then the value.

use drax::delegate::maybe::Maybe;
use drax::size::Size;
use drax::transport::{ByteReader, PacketComponent};

#[test]
fn maybe_present_exact_bytes() {
    let mut ctx = ();
    let mut out: Vec<u8> = Vec::new();
    <Maybe<i32> as PacketComponent<()>>::encode(&Some(10), &mut ctx, &mut out).unwrap();
    assert_eq!(out, vec![0x01, 0x00, 0x00, 0x00, 0x0a]);
    let mut reader = ByteReader::new(out);
    let back = <Maybe<i32> as PacketComponent<()>>::decode(&mut ctx, &mut reader).unwrap();
    assert_eq!(back, Some(10));
}

#[test]
fn maybe_absent_exact_bytes() {
    let mut ctx = ();
    let mut out: Vec<u8> = Vec::new();
    <Maybe<i32> as PacketComponent<()>>::encode(&None, &mut ctx, &mut out).unwrap();
    assert_eq!(out, vec![0x00]);
}

#[test]
fn maybe_absent_ignores_trailing_bytes() {
    let mut ctx = ();
    let mut reader = ByteReader::new(vec![0x00, 0x99, 0x17, 0x42]);
    let back = <Maybe<i32> as PacketComponent<()>>::decode(&mut ctx, &mut reader).unwrap();
    assert_eq!(back, None);
    // Only the presence byte was consumed.
    assert_eq!(reader.remaining_len(), 3);
}

#[test]
fn maybe_size_matches_encoding() {
    let mut ctx = ();
    let mut out: Vec<u8> = Vec::new();
    <Maybe<i32> as PacketComponent<()>>::encode(&Some(10), &mut ctx, &mut out).unwrap();
    let size = <Maybe<i32> as PacketComponent<()>>::size(&Some(10), &mut ctx).unwrap();
    assert_eq!(size.count(), out.len());
    assert_eq!(size, Size::Constant(5));
    let none_size = <Maybe<i32> as PacketComponent<()>>::size(&None, &mut ctx).unwrap();
    assert_eq!(none_size, Size::Constant(1));
}

#[test]
fn boxed_value_round_trip() {
    let value: Box<i32> = Box::new(77);
    let mut ctx = ();
    let mut out: Vec<u8> = Vec::new();
    <Box<i32> as PacketComponent<()>>::encode(&value, &mut ctx, &mut out).unwrap();
    let mut reader = ByteReader::new(out);
    let back = <Box<i32> as PacketComponent<()>>::decode(&mut ctx, &mut reader).unwrap();
    assert_eq!(back, value);
}

#[test]
fn shared_value_round_trip() {
    let value: std::sync::Arc<u16> = std::sync::Arc::new(4242);
    let mut ctx = ();
    let mut out: Vec<u8> = Vec::new();
    <std::sync::Arc<u16> as PacketComponent<()>>::encode(&value, &mut ctx, &mut out).unwrap();
    let mut reader = ByteReader::new(out);
    let back = <std::sync::Arc<u16> as PacketComponent<()>>::decode(&mut ctx, &mut reader)
        .unwrap();
    assert_eq!(*back, *value);
}
