//! Sequence delegates: raw drains, fixed slices, count-prefixed byte runs
//! and element runs, and the size-limited variant.

use drax::delegate::primitive::VarInt;
use drax::delegate::vec::{ByteDrain, FixedArray, LimitedVec, SliceU8, VecU8};
use drax::error::TransportError;
use drax::transport::{ByteReader, PacketComponent};

#[test]
fn byte_drain_sanity() {
    let bytes: Vec<u8> = vec![10, 20, 30];
    let mut ctx = ();
    let mut out: Vec<u8> = Vec::new();
    <ByteDrain as PacketComponent<()>>::encode(&bytes, &mut ctx, &mut out).unwrap();
    assert_eq!(out, vec![10, 20, 30]);
}

#[test]
fn byte_drain_consumes_everything() {
    let mut ctx = ();
    let mut reader = ByteReader::new(vec![10, 20, 30]);
    let back = <ByteDrain as PacketComponent<()>>::decode(&mut ctx, &mut reader).unwrap();
    assert_eq!(back, vec![10, 20, 30]);
    assert_eq!(reader.remaining_len(), 0);
}

#[test]
fn slice_u8_sanity() {
    let bytes: Vec<u8> = vec![10, 20, 30];
    let mut ctx = ();
    let mut out: Vec<u8> = Vec::new();
    <SliceU8<3> as PacketComponent<()>>::encode(&bytes, &mut ctx, &mut out).unwrap();
    let mut reader = ByteReader::new(out);
    let back = <SliceU8<3> as PacketComponent<()>>::decode(&mut ctx, &mut reader).unwrap();
    assert_eq!(back, bytes);
}

#[test]
fn slice_sanity() {
    let slice: Vec<i32> = vec![10, 20, 30];
    let mut ctx = ();
    let mut out: Vec<u8> = Vec::new();
    <FixedArray<VarInt, 3> as PacketComponent<()>>::encode(&slice, &mut ctx, &mut out).unwrap();
    let mut reader = ByteReader::new(out);
    let back = <FixedArray<VarInt, 3> as PacketComponent<()>>::decode(&mut ctx, &mut reader)
        .unwrap();
    assert_eq!(back, slice);
}

#[test]
fn fixed_array_constant_size() {
    // Every element of a fixed array of four-byte values reports a constant
    // size, so the whole array does.
    let values: Vec<i32> = vec![1, 2, 3];
    let mut ctx = ();
    let size = <FixedArray<i32, 3> as PacketComponent<()>>::size(&values, &mut ctx).unwrap();
    assert_eq!(size, drax::size::Size::Constant(12));
}

#[test]
fn vec_u8_sanity() {
    let bytes: Vec<u8> = vec![10, 20, 30];
    let mut ctx = ();
    let mut out: Vec<u8> = Vec::new();
    <VecU8 as PacketComponent<()>>::encode(&bytes, &mut ctx, &mut out).unwrap();
    let mut reader = ByteReader::new(out);
    let back = <VecU8 as PacketComponent<()>>::decode(&mut ctx, &mut reader).unwrap();
    assert_eq!(back, bytes);
}

#[test]
fn vec_sanity() {
    let values: Vec<i32> = vec![10, 20, 30];
    let mut ctx = ();
    let mut out: Vec<u8> = Vec::new();
    <Vec<VarInt> as PacketComponent<()>>::encode(&values, &mut ctx, &mut out).unwrap();
    let mut reader = ByteReader::new(out);
    let back = <Vec<VarInt> as PacketComponent<()>>::decode(&mut ctx, &mut reader).unwrap();
    assert_eq!(back, values);
}

#[test]
fn test_limited_vec_failure() {
    let values: Vec<i32> = vec![10, 20, 30];
    let mut ctx = ();
    let mut out: Vec<u8> = Vec::new();
    <LimitedVec<VarInt, 3> as PacketComponent<()>>::encode(&values, &mut ctx, &mut out).unwrap();
    let mut reader = ByteReader::new(out);
    let error = <LimitedVec<VarInt, 2> as PacketComponent<()>>::decode(&mut ctx, &mut reader);
    assert_eq!(error, Err(TransportError::LimitExceeded(2, 3, "decoding vec")));
    // Only the count prefix was consumed: the three element bytes remain.
    assert_eq!(reader.remaining_len(), 3);
}

#[test]
fn test_limited_vec_encode_failure() {
    let values: Vec<i32> = vec![10, 20, 30];
    let mut ctx = ();
    let mut out: Vec<u8> = Vec::new();
    let error = <LimitedVec<VarInt, 2> as PacketComponent<()>>::encode(&values, &mut ctx, &mut out);
    assert_eq!(error, Err(TransportError::LimitExceeded(2, 3, "encoding vec")));
    assert_eq!(out.len(), 0);
}

#[test]
fn vec_size_matches_encoding() {
    let values: Vec<i32> = vec![7, -7, 0, i32::MAX];
    let mut ctx = ();
    let mut out: Vec<u8> = Vec::new();
    <Vec<VarInt> as PacketComponent<()>>::encode(&values, &mut ctx, &mut out).unwrap();
    let size = <Vec<VarInt> as PacketComponent<()>>::size(&values, &mut ctx).unwrap();
    assert_eq!(size.count(), out.len());
}

#[test]
fn nested_vec_round_trip() {
    let values: Vec<Vec<u8>> = vec![vec![1, 2], vec![], vec![3]];
    let mut ctx = ();
    let mut out: Vec<u8> = Vec::new();
    <Vec<VecU8> as PacketComponent<()>>::encode(&values, &mut ctx, &mut out).unwrap();
    let mut reader = ByteReader::new(out);
    let back = <Vec<VecU8> as PacketComponent<()>>::decode(&mut ctx, &mut reader).unwrap();
    assert_eq!(back, values);
}
