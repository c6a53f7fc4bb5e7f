//! The tree (tag) codec: round trips for every node kind, the text codec,
//! the document delegate, and the depth and byte-budget guards.

use drax::delegate::nbt::{
    load_tag, read_string, size_tag, write_string, write_tag, EnsuredCompoundTag, NbtAccounter,
    Tag, COMPOUND_TAG_BIT,
};
use drax::error::{NbtError, TransportError};
use drax::transport::{ByteReader, PacketComponent};

fn round_trip_tag(value: Tag) {
    let mut out: Vec<u8> = Vec::new();
    write_tag(&mut out, &value).unwrap();
    let written = out.len();
    let size = size_tag(&value).unwrap();
    assert_eq!(size, written);
    let mut reader = ByteReader::new(out);
    let mut accounter = NbtAccounter::new(0);
    let back = load_tag(&mut reader, value.get_tag_bit(), 0, &mut accounter).unwrap();
    assert_eq!(back, value);
}

#[test]
fn test_tag_end() {
    round_trip_tag(Tag::TagEnd);
}

#[test]
fn test_tag_byte() {
    round_trip_tag(Tag::TagByte(10));
}

#[test]
fn test_tag_short() {
    round_trip_tag(Tag::TagShort(20));
}

#[test]
fn test_tag_int() {
    round_trip_tag(Tag::TagInt(30));
}

#[test]
fn test_tag_long() {
    round_trip_tag(Tag::TagLong(40));
}

#[test]
fn test_tag_float() {
    round_trip_tag(Tag::TagFloat(12.30f32.to_bits()));
}

#[test]
fn test_tag_double() {
    round_trip_tag(Tag::TagDouble(20.30f64.to_bits()));
}

#[test]
fn test_tag_byte_array() {
    round_trip_tag(Tag::TagByteArray(vec![10, 20, 0, 5]));
}

#[test]
fn test_tag_string() {
    round_trip_tag(Tag::TagString("test string".to_string()));
}

#[test]
fn test_tag_list() {
    round_trip_tag(Tag::TagList((
        2,
        vec![Tag::TagShort(10u16), Tag::TagShort(20), Tag::TagShort(9), Tag::TagShort(15)],
    )));
}

#[test]
fn test_tag_compound() {
    round_trip_tag(Tag::CompoundTag(vec![
        ("abc".to_string(), Tag::TagShort(15)),
        ("def".to_string(), Tag::TagFloat(12.30f32.to_bits())),
    ]));
}

#[test]
fn test_tag_int_array() {
    round_trip_tag(Tag::TagIntArray(vec![30, 23, 123, 955]));
}

#[test]
fn test_tag_long_array() {
    round_trip_tag(Tag::TagLongArray(vec![321423, 24312, 123123, 12312]));
}

#[test]
fn test_nested_list_of_shorts() {
    let inner1 = Tag::TagList((2, vec![Tag::TagShort(1), Tag::TagShort(2)]));
    let inner2 = Tag::TagList((2, vec![Tag::TagShort(3)]));
    round_trip_tag(Tag::TagList((9, vec![inner1, inner2])));
}

#[test]
fn test_empty_compound_single_byte() {
    let value = Tag::CompoundTag(vec![]);
    let mut out: Vec<u8> = Vec::new();
    write_tag(&mut out, &value).unwrap();
    assert_eq!(out, vec![0x00]);
    assert_eq!(size_tag(&value).unwrap(), 1);
    round_trip_tag(value);
}

#[test]
fn test_string_read_write_persistence() {
    let ref_string = "Example String".to_string();
    let mut out: Vec<u8> = Vec::new();
    write_string(&mut out, ref_string.as_str()).unwrap();
    let mut reader = ByteReader::new(out);
    let mut accounter = NbtAccounter::new(0);
    let back = read_string(&mut reader, &mut accounter).unwrap();
    assert_eq!(ref_string, back);
}

#[test]
fn test_supplementary_plane_text_round_trip() {
    // A supplementary-plane character exercises the surrogate-pair form of
    // modified UTF-8, which differs from standard UTF-8.
    round_trip_tag(Tag::TagString("mixed \u{10401} text".to_string()));
}

#[test]
fn test_malformed_modified_utf8() {
    let mut reader = ByteReader::new(vec![0x00, 0x01, 0xff]);
    let mut accounter = NbtAccounter::new(0);
    let error = read_string(&mut reader, &mut accounter);
    assert_eq!(error, Err(TransportError::NbtError(NbtError::Cesu8DecodingError)));
}

#[test]
fn test_invalid_tag_bit() {
    let mut reader = ByteReader::new(vec![1, 2, 3]);
    let mut accounter = NbtAccounter::new(0);
    let error = load_tag(&mut reader, 13, 0, &mut accounter);
    assert_eq!(error, Err(TransportError::NbtError(NbtError::InvalidTagBit(13))));
}

#[test]
fn test_tag_eof() {
    let mut reader = ByteReader::new(vec![0x00, 0x00, 0x00]);
    let mut accounter = NbtAccounter::new(0);
    let error = load_tag(&mut reader, 3, 0, &mut accounter);
    assert_eq!(error, Err(TransportError::EOF));
}

fn nested_compounds(levels: usize) -> Tag {
    let mut tag = Tag::CompoundTag(vec![]);
    for _ in 0..levels {
        tag = Tag::CompoundTag(vec![("a".to_string(), tag)]);
    }
    tag
}

#[test]
fn test_depth_guard_trips() {
    // The root compound sits at depth zero; 513 nested levels under it put
    // the innermost node at depth 513, past the guard.
    let value = nested_compounds(513);
    let mut out: Vec<u8> = Vec::new();
    write_tag(&mut out, &value).unwrap();
    let mut reader = ByteReader::new(out);
    let mut accounter = NbtAccounter::new(0);
    let error = load_tag(&mut reader, COMPOUND_TAG_BIT, 0, &mut accounter);
    assert_eq!(error, Err(TransportError::NbtError(NbtError::ComplexTag)));
}

#[test]
fn test_depth_guard_boundary() {
    // 512 nested levels put the innermost node exactly at the guard, which
    // still decodes.
    round_trip_tag(nested_compounds(512));
}

#[test]
fn test_budget_guard_trips() {
    // An empty compound debits its per-node weight of 48; a smaller nonzero
    // limit fails the decode before any byte of it is consumed.
    let value = Tag::CompoundTag(vec![]);
    let mut out: Vec<u8> = Vec::new();
    write_tag(&mut out, &value).unwrap();
    let mut reader = ByteReader::new(out);
    let mut accounter = NbtAccounter::new(10);
    let error = load_tag(&mut reader, COMPOUND_TAG_BIT, 0, &mut accounter);
    assert_eq!(error, Err(TransportError::NbtError(NbtError::TagTooBig(10, 48))));
}

#[test]
fn test_budget_guard_within_limit() {
    let value = Tag::CompoundTag(vec![]);
    let mut out: Vec<u8> = Vec::new();
    write_tag(&mut out, &value).unwrap();
    let mut reader = ByteReader::new(out);
    let mut accounter = NbtAccounter::new(48);
    let back = load_tag(&mut reader, COMPOUND_TAG_BIT, 0, &mut accounter).unwrap();
    assert_eq!(back, value);
}

#[test]
fn test_budget_guard_disabled_by_zero_limit() {
    // A limit of zero never fails, whatever the document's weights.
    let value = Tag::CompoundTag(vec![
        ("big".to_string(), Tag::TagLongArray(vec![1; 256])),
        ("more".to_string(), Tag::TagString("x".repeat(1000))),
    ]);
    round_trip_tag(value);
}

#[test]
fn test_document_round_trip() {
    let doc = Some(Tag::compound_tag(vec![
        ("example".to_string(), Tag::TagByte(10)),
        ("example2".to_string(), Tag::TagShort(20)),
        ("example3".to_string(), Tag::TagInt(30)),
    ]));
    let mut ctx = ();
    let mut out: Vec<u8> = Vec::new();
    <EnsuredCompoundTag<0> as PacketComponent<()>>::encode(&doc, &mut ctx, &mut out).unwrap();
    let size = <EnsuredCompoundTag<0> as PacketComponent<()>>::size(&doc, &mut ctx).unwrap();
    assert_eq!(size.count(), out.len());
    let mut reader = ByteReader::new(out);
    let back = <EnsuredCompoundTag<0> as PacketComponent<()>>::decode(&mut ctx, &mut reader)
        .unwrap();
    assert_eq!(back, doc);
}

#[test]
fn test_document_absent() {
    let mut ctx = ();
    let mut out: Vec<u8> = Vec::new();
    <EnsuredCompoundTag<0> as PacketComponent<()>>::encode(&None, &mut ctx, &mut out).unwrap();
    assert_eq!(out, vec![0x00]);
    let mut reader = ByteReader::new(out);
    let back = <EnsuredCompoundTag<0> as PacketComponent<()>>::decode(&mut ctx, &mut reader)
        .unwrap();
    assert_eq!(back, None);
}

#[test]
fn test_document_rejects_other_kinds() {
    let mut ctx = ();
    let mut reader = ByteReader::new(vec![0x05, 0x00, 0x00]);
    let error = <EnsuredCompoundTag<0> as PacketComponent<()>>::decode(&mut ctx, &mut reader);
    assert_eq!(error, Err(TransportError::NbtError(NbtError::InvalidTagBit(5))));
}

#[test]
fn test_document_budget_ceiling() {
    // The document delegate wires its ceiling to the accountant: an empty
    // root compound costs its per-node weight of 48.
    let doc = Some(Tag::CompoundTag(vec![]));
    let mut ctx = ();
    let mut out: Vec<u8> = Vec::new();
    <EnsuredCompoundTag<20> as PacketComponent<()>>::encode(&doc, &mut ctx, &mut out).unwrap();
    let mut reader = ByteReader::new(out);
    let error = <EnsuredCompoundTag<20> as PacketComponent<()>>::decode(&mut ctx, &mut reader);
    assert_eq!(error, Err(TransportError::NbtError(NbtError::TagTooBig(20, 48))));
}

#[test]
fn test_tag_string_builder() {
    let tag = Tag::string("built");
    assert_eq!(tag, Tag::TagString("built".to_string()));
}

#[test]
fn test_tag_compound_builder() {
    let tag = Tag::compound_tag(vec![("k".to_string(), Tag::TagByte(1))]);
    assert_eq!(tag, Tag::CompoundTag(vec![("k".to_string(), Tag::TagByte(1))]));
}

#[test]
fn test_account_bytes_overflow_guard() {
    // With a nonzero limit, debits accumulate and trip the ceiling exactly.
    let mut accounter = NbtAccounter::new(100);
    accounter.account_bytes(60).unwrap();
    accounter.account_bytes(40).unwrap();
    let error = accounter.account_bytes(1);
    assert_eq!(error, Err(TransportError::NbtError(NbtError::TagTooBig(100, 101))));
}
