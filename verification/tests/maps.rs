//! Mapping delegates: count-prefixed key/value pairs in insertion order,
//! and the size-limited variant.

use drax::delegate::map::{LimitedMap, MapDelegate};
use drax::error::TransportError;
use drax::transport::{ByteReader, PacketComponent};

#[test]
fn test_int_map_encoding() {
    let in_map: Vec<(i32, i32)> = vec![(10, 20), (30, 40)];
    let mut ctx = ();
    let mut out: Vec<u8> = Vec::new();
    <MapDelegate<i32, i32> as PacketComponent<()>>::encode(&in_map, &mut ctx, &mut out).unwrap();
    let mut reader = ByteReader::new(out);
    let out_map = <MapDelegate<i32, i32> as PacketComponent<()>>::decode(&mut ctx, &mut reader)
        .unwrap();
    assert_eq!(out_map, in_map);
}

#[test]
fn test_string_map_encoding() {
    let in_map: Vec<(String, i32)> = vec![
        ("example1".to_string(), 20),
        ("example2".to_string(), 40),
    ];
    let mut ctx = ();
    let mut out: Vec<u8> = Vec::new();
    <MapDelegate<String, i32> as PacketComponent<()>>::encode(&in_map, &mut ctx, &mut out)
        .unwrap();
    let mut reader = ByteReader::new(out);
    let out_map = <MapDelegate<String, i32> as PacketComponent<()>>::decode(&mut ctx, &mut reader)
        .unwrap();
    assert_eq!(out_map, in_map);
}

#[test]
fn test_limited_map_encoding_failure() {
    let mut framed: Vec<u8> = Vec::new();
    drax::delegate::var_num::write_var_int(&mut framed, 3);
    let mut ctx = ();
    let mut reader = ByteReader::new(framed);
    let error = <LimitedMap<i32, i32, 2> as PacketComponent<()>>::decode(&mut ctx, &mut reader);
    assert_eq!(error, Err(TransportError::LimitExceeded(2, 3, "decoding map")));
}

#[test]
fn map_size_matches_encoding() {
    let in_map: Vec<(String, i32)> = vec![("k".to_string(), 1), ("key2".to_string(), -9)];
    let mut ctx = ();
    let mut out: Vec<u8> = Vec::new();
    <MapDelegate<String, i32> as PacketComponent<()>>::encode(&in_map, &mut ctx, &mut out)
        .unwrap();
    let size = <MapDelegate<String, i32> as PacketComponent<()>>::size(&in_map, &mut ctx).unwrap();
    assert_eq!(size.count(), out.len());
}

#[test]
fn map_keeps_duplicate_keys_in_order() {
    let in_map: Vec<(i32, i32)> = vec![(1, 10), (1, 20)];
    let mut ctx = ();
    let mut out: Vec<u8> = Vec::new();
    <MapDelegate<i32, i32> as PacketComponent<()>>::encode(&in_map, &mut ctx, &mut out).unwrap();
    let mut reader = ByteReader::new(out);
    let out_map = <MapDelegate<i32, i32> as PacketComponent<()>>::decode(&mut ctx, &mut reader)
        .unwrap();
    assert_eq!(out_map, in_map);
}
