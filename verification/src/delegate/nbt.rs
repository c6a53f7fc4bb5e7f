//! The tree (tag) codec: a recursive, tagged-union binary tree format with
//! thirteen node kinds, a recursion-depth guard, and a cumulative
//! byte-budget accountant that makes the decoder safe against adversarial
//! input.

use vstd::prelude::*;
use vstd::utf8::encode_utf8;

use crate::delegate::primitive::{
    lemma_u16_be_round_trip, read_u16_be, spec_u16_be, spec_u16_from_be, write_u16_be,
};
use crate::delegate::vec::append_bytes;
use crate::error::{saturate_i32, DraxResult, NbtError, TransportError};
use crate::size::Size;
use crate::transport::{ByteReader, PacketComponent};

verus! {

/// The wire discriminant of a present compound document root.
pub const COMPOUND_TAG_BIT: u8 = 10;

/// The bytes the modified-UTF-8 codec produces for a character sequence.
pub uninterp spec fn spec_cesu8_encode(s: Seq<char>) -> Seq<u8>;

/// The character sequence the modified-UTF-8 codec reads back from a byte
/// sequence, or nothing when the bytes are malformed.
pub uninterp spec fn spec_cesu8_decode(b: Seq<u8>) -> Option<Seq<char>>;

/// Whether the modified-UTF-8 codec reads its own encoding of `s` back as
/// `s`. The outside codec guarantees this of every character sequence; the
/// contracts here carry it as an explicit premise because nothing verified
/// restates the codec itself.
pub open spec fn cesu8_faithful(s: Seq<char>) -> bool {
    spec_cesu8_decode(spec_cesu8_encode(s)) == Some(s)
}

/// Relies on `cesu8::to_java_cesu8`: the result depends on the characters
/// alone, an empty text encodes to no bytes, and `cesu8::from_java_cesu8`
/// reads the encoding back as the same characters.
#[verifier::external_body]
fn cesu8_encode_bytes(s: &str) -> (r: Vec<u8>)
    ensures
        r@ == spec_cesu8_encode(s@),
        s@.len() == 0 ==> r@.len() == 0,
        spec_cesu8_decode(r@) == Some(s@),
{
    cesu8::to_java_cesu8(s).into_owned()
}

/// Relies on `cesu8::from_java_cesu8`: the outcome depends on the bytes
/// alone, and malformed bytes are rejected.
#[verifier::external_body]
fn cesu8_decode_bytes(b: &Vec<u8>) -> (r: Result<String, NbtError>)
    ensures
        match r {
            Ok(s) => spec_cesu8_decode(b@) == Some(s@),
            Err(e) => spec_cesu8_decode(b@) is None && e == NbtError::Cesu8DecodingError,
        },
{
    match cesu8::from_java_cesu8(b.as_slice()) {
        Ok(s) => Ok(s.into_owned()),
        Err(_) => Err(NbtError::Cesu8DecodingError),
    }
}

/// The outcome of debiting `bytes` from an accountant with the given limit
/// and running total: the new running total, or the budget failure. A limit
/// of zero disables the guard.
pub open spec fn spec_account(limit: u64, current: u64, bytes: u64) -> Result<u64, TransportError> {
    if limit == 0 {
        Ok(current)
    } else if current + bytes > u64::MAX {
        Err(TransportError::NbtError(NbtError::AccounterOverflow))
    } else if current + bytes > limit {
        Err(TransportError::NbtError(NbtError::TagTooBig(limit, (current + bytes) as u64)))
    } else {
        Ok((current + bytes) as u64)
    }
}

/// A mutable byte-budget tracker paired with a single top-level tree decode:
/// a configured limit (zero disables the guard) and a running total.
pub struct NbtAccounter {
    limit: u64,
    current: u64,
}

impl NbtAccounter {
    /// The configured ceiling; zero means unlimited.
    pub closed spec fn limit(self) -> u64 {
        self.limit
    }

    /// The running total debited so far.
    pub closed spec fn current(self) -> u64 {
        self.current
    }

    /// A fresh accountant with the given ceiling and nothing debited.
    pub fn new(limit: u64) -> (r: NbtAccounter)
        ensures
            r.limit() == limit,
            r.current() == 0,
    {
        NbtAccounter { limit, current: 0 }
    }

    /// Debits `bytes` from the budget, exactly as [`spec_account`] states:
    /// with a nonzero limit the running total grows and must stay within the
    /// limit, and an accumulator overflow is a hard failure.
    pub fn account_bytes(&mut self, bytes: u64) -> (r: DraxResult<()>)
        ensures
            final(self).limit() == old(self).limit(),
            match spec_account(old(self).limit(), old(self).current(), bytes) {
                Ok(c2) => r is Ok && final(self).current() == c2,
                Err(e) => r == Err::<(), TransportError>(e) && final(self).current() == old(
                    self,
                ).current(),
            },
    {
        if self.limit == 0 {
            return Ok(());
        }
        if bytes > u64::MAX - self.current {
            return NbtError::accounter_overflow();
        }
        let next = self.current + bytes;
        if next > self.limit {
            return NbtError::tag_too_big(self.limit, next);
        }
        self.current = next;
        Ok(())
    }
}

/// The bytes a text encodes to inside a tree: a two-byte big-endian length,
/// then that many bytes of modified UTF-8.
pub open spec fn spec_nbt_string_wire(s: Seq<char>) -> Seq<u8> {
    spec_u16_be(spec_cesu8_encode(s).len() as u16) + spec_cesu8_encode(s)
}

/// Whether a text fits its two-byte length field.
pub open spec fn spec_nbt_string_encode_ok(s: Seq<char>) -> bool {
    spec_cesu8_encode(s).len() <= u16::MAX
}

/// The outcome of decoding a tree text from `s` under the given budget: the
/// characters, the consumed byte count and the new running total, or the
/// error. The decoded text's in-memory byte length is debited.
pub open spec fn spec_nbt_string_parse(s: Seq<u8>, limit: u64, cur: u64) -> Result<
    (Seq<char>, int, u64),
    TransportError,
> {
    if s.len() < 2 {
        Err(TransportError::EOF)
    } else {
        let n = spec_u16_from_be(s.take(2)) as int;
        if s.skip(2).len() < n {
            Err(TransportError::EOF)
        } else {
            match spec_cesu8_decode(s.skip(2).take(n)) {
                Some(chars) => match spec_account(limit, cur, (encode_utf8(chars).len() as usize) as u64) {
                    Ok(c2) => Ok((chars, 2 + n, c2)),
                    Err(e) => Err(e),
                },
                None => Err(TransportError::NbtError(NbtError::Cesu8DecodingError)),
            }
        }
    }
}

/// Reads one tree text, as [`spec_nbt_string_parse`] states.
pub fn read_string(read: &mut ByteReader, accounter: &mut NbtAccounter) -> (r: DraxResult<String>)
    ensures
        final(read).data_seq() == old(read).data_seq(),
        old(read).position() <= final(read).position() <= old(read).data_seq().len(),
        final(accounter).limit() == old(accounter).limit(),
        match r {
            Ok(s) => spec_nbt_string_parse(
                old(read).remaining(),
                old(accounter).limit(),
                old(accounter).current(),
            ) == Ok::<_, TransportError>(
                (s@, final(read).position() - old(read).position(), final(accounter).current()),
            ),
            Err(e) => spec_nbt_string_parse(
                old(read).remaining(),
                old(accounter).limit(),
                old(accounter).current(),
            ) == Err::<(Seq<char>, int, u64), _>(e),
        },
{
    proof {
        use_type_invariant(&*read);
    }
    let len = match read_u16_be(read) {
        Ok(l) => l,
        Err(e) => {
            return Err(e);
        },
    };
    proof {
        crate::transport::lemma_skip_skip(old(read).data_seq(), old(read).position(), 2);
        assert(read.remaining() == old(read).remaining().skip(2));
    }
    let bytes = match read.read_exact(len as usize) {
        Ok(b) => b,
        Err(e) => {
            return Err(e);
        },
    };
    let string = match cesu8_decode_bytes(&bytes) {
        Ok(s) => s,
        Err(e) => {
            return Err(TransportError::NbtError(e));
        },
    };
    match accounter.account_bytes(string.as_str().len() as u64) {
        Ok(()) => Ok(string),
        Err(e) => Err(e),
    }
}

/// Writes one tree text, appending exactly [`spec_nbt_string_wire`] on
/// success; a text whose modified-UTF-8 form does not fit the two-byte
/// length field is rejected before anything is written.
pub fn write_string(write: &mut Vec<u8>, reference: &str) -> (r: DraxResult<()>)
    ensures
        r is Ok <==> spec_nbt_string_encode_ok(reference@),
        r is Ok ==> final(write)@ == old(write)@ + spec_nbt_string_wire(reference@),
        r is Err ==> final(write)@ == old(write)@,
        cesu8_faithful(reference@),
        reference@.len() == 0 ==> spec_cesu8_encode(reference@).len() == 0,
{
    let cesu_8 = cesu8_encode_bytes(reference);
    if cesu_8.len() > 65535usize {
        return TransportError::limit_exceeded(
            65535,
            saturate_i32(cesu_8.len()),
            "encoding string",
        );
    }
    write_u16_be(write, cesu_8.len() as u16);
    append_bytes(write, &cesu_8);
    proof {
        assert(final(write)@ =~= old(write)@ + spec_nbt_string_wire(reference@));
    }
    Ok(())
}

/// Returns the byte count [`write_string`] would produce: the two-byte
/// length field plus the modified-UTF-8 form.
pub fn size_string(reference: &str) -> (r: DraxResult<usize>)
    ensures
        spec_nbt_string_wire(reference@).len() <= usize::MAX ==> r == Ok::<usize, TransportError>(
            spec_nbt_string_wire(reference@).len() as usize,
        ),
        cesu8_faithful(reference@),
{
    let cesu_8 = cesu8_encode_bytes(reference);
    if cesu_8.len() > usize::MAX - 2 {
        return Ok(usize::MAX);
    }
    Ok(2 + cesu_8.len())
}

/// Round trip for tree texts: parsing the wire form of a faithful text
/// yields the text back, debiting its in-memory byte length, whatever bytes
/// follow.
pub proof fn lemma_nbt_string_round_trip(s: Seq<char>, rest: Seq<u8>, limit: u64, cur: u64)
    requires
        cesu8_faithful(s),
        spec_nbt_string_encode_ok(s),
        spec_account(limit, cur, (encode_utf8(s).len() as usize) as u64) is Ok,
    ensures
        spec_nbt_string_parse(spec_nbt_string_wire(s) + rest, limit, cur) == Ok::<
            _,
            TransportError,
        >(
            (
                s,
                spec_nbt_string_wire(s).len() as int,
                spec_account(limit, cur, (encode_utf8(s).len() as usize) as u64)->Ok_0,
            ),
        ),
{
    let bytes = spec_cesu8_encode(s);
    let n = bytes.len() as u16;
    lemma_u16_be_round_trip(n);
    let w = spec_nbt_string_wire(s) + rest;
    assert(w.take(2) =~= spec_u16_be(n));
    assert(w.skip(2) =~= bytes + rest);
    assert((bytes + rest).take(bytes.len() as int) =~= bytes);
    assert(w.len() >= 2 + bytes.len());
}


/// A node of the tree format: a closed variant type with one case per tag
/// kind. Floating-point payloads are carried as their IEEE 754 bit
/// patterns, which is exactly what crosses the wire.
#[derive(Debug, PartialEq)]
pub enum Tag {
    /// The compound-termination sentinel; never a standalone value.
    TagEnd,
    /// An eight-bit payload.
    TagByte(u8),
    /// A sixteen-bit payload.
    TagShort(u16),
    /// A 32-bit signed payload.
    TagInt(i32),
    /// A 64-bit signed payload.
    TagLong(i64),
    /// The bit pattern of a 32-bit float.
    TagFloat(u32),
    /// The bit pattern of a 64-bit float.
    TagDouble(u64),
    /// A length-prefixed byte sequence.
    TagByteArray(Vec<u8>),
    /// Modified-UTF-8 text.
    TagString(String),
    /// A homogeneous list: the element kind and the elements in order.
    TagList((u8, Vec<Tag>)),
    /// Ordered name/value pairs; duplicate names are kept as they come.
    CompoundTag(Vec<(String, Tag)>),
    /// A length-prefixed run of 32-bit signed values.
    TagIntArray(Vec<i32>),
    /// A length-prefixed run of 64-bit signed values.
    TagLongArray(Vec<i64>),
}

/// The mathematical value a [`Tag`] stands for.
pub enum TagModel {
    /// The compound-termination sentinel.
    End,
    /// An eight-bit payload.
    Byte(u8),
    /// A sixteen-bit payload.
    Short(u16),
    /// A 32-bit signed payload.
    Int(i32),
    /// A 64-bit signed payload.
    Long(i64),
    /// The bit pattern of a 32-bit float.
    Float(u32),
    /// The bit pattern of a 64-bit float.
    Double(u64),
    /// A byte sequence.
    ByteArray(Seq<u8>),
    /// Text.
    Text(Seq<char>),
    /// A homogeneous list: the element kind and the elements in order.
    List(u8, Seq<TagModel>),
    /// Ordered name/value pairs.
    Compound(Seq<(Seq<char>, TagModel)>),
    /// A run of 32-bit signed values.
    IntArray(Seq<i32>),
    /// A run of 64-bit signed values.
    LongArray(Seq<i64>),
}

/// The model of a tag value.
pub open spec fn tag_model(t: Tag) -> TagModel
    decreases t,
{
    match t {
        Tag::TagEnd => TagModel::End,
        Tag::TagByte(b) => TagModel::Byte(b),
        Tag::TagShort(x) => TagModel::Short(x),
        Tag::TagInt(x) => TagModel::Int(x),
        Tag::TagLong(x) => TagModel::Long(x),
        Tag::TagFloat(x) => TagModel::Float(x),
        Tag::TagDouble(x) => TagModel::Double(x),
        Tag::TagByteArray(v) => TagModel::ByteArray(v@),
        Tag::TagString(text) => TagModel::Text(text@),
        Tag::TagList(pair) => TagModel::List(pair.0, tags_model(pair.1@)),
        Tag::CompoundTag(entries) => TagModel::Compound(entries_model(entries@)),
        Tag::TagIntArray(v) => TagModel::IntArray(v@),
        Tag::TagLongArray(v) => TagModel::LongArray(v@),
    }
}

/// The models of a run of tag values.
pub open spec fn tags_model(v: Seq<Tag>) -> Seq<TagModel>
    decreases v,
{
    if v.len() == 0 {
        Seq::empty()
    } else {
        seq![tag_model(v[0])] + tags_model(v.drop_first())
    }
}

/// The models of a run of named tag values.
pub open spec fn entries_model(v: Seq<(String, Tag)>) -> Seq<(Seq<char>, TagModel)>
    decreases v,
{
    if v.len() == 0 {
        Seq::empty()
    } else {
        seq![(v[0].0@, tag_model(v[0].1))] + entries_model(v.drop_first())
    }
}

/// The numeric tag-kind identifier of a model, as used on the wire.
pub open spec fn spec_tag_bit(m: TagModel) -> u8 {
    match m {
        TagModel::End => 0,
        TagModel::Byte(..) => 1,
        TagModel::Short(..) => 2,
        TagModel::Int(..) => 3,
        TagModel::Long(..) => 4,
        TagModel::Float(..) => 5,
        TagModel::Double(..) => 6,
        TagModel::ByteArray(..) => 7,
        TagModel::Text(..) => 8,
        TagModel::List(..) => 9,
        TagModel::Compound(..) => 10,
        TagModel::IntArray(..) => 11,
        TagModel::LongArray(..) => 12,
    }
}

/// The four big-endian bytes of a 32-bit signed value.
pub open spec fn spec_i32_be(x: i32) -> Seq<u8> {
    crate::delegate::primitive::spec_u32_be(x as u32)
}

/// The eight big-endian bytes of a 64-bit signed value.
pub open spec fn spec_i64_be(x: i64) -> Seq<u8> {
    crate::delegate::primitive::spec_u64_be(x as u64)
}

/// The bytes of a run of 32-bit signed values, each big-endian.
pub open spec fn spec_i32_run_wire(v: Seq<i32>) -> Seq<u8>
    decreases v.len(),
{
    if v.len() == 0 {
        Seq::empty()
    } else {
        spec_i32_be(v[0]) + spec_i32_run_wire(v.drop_first())
    }
}

/// The bytes of a run of 64-bit signed values, each big-endian.
pub open spec fn spec_i64_run_wire(v: Seq<i64>) -> Seq<u8>
    decreases v.len(),
{
    if v.len() == 0 {
        Seq::empty()
    } else {
        spec_i64_be(v[0]) + spec_i64_run_wire(v.drop_first())
    }
}

/// The payload bytes a tag encodes to. The tag-kind byte is written by the
/// tag's container, not here, except for a list's element-kind byte, which
/// is part of the list payload.
pub open spec fn spec_tag_wire(m: TagModel) -> Seq<u8>
    decreases m,
{
    match m {
        TagModel::End => Seq::empty(),
        TagModel::Byte(b) => seq![b],
        TagModel::Short(x) => spec_u16_be(x),
        TagModel::Int(x) => spec_i32_be(x),
        TagModel::Long(x) => spec_i64_be(x),
        TagModel::Float(x) => crate::delegate::primitive::spec_u32_be(x),
        TagModel::Double(x) => crate::delegate::primitive::spec_u64_be(x),
        TagModel::ByteArray(v) => spec_i32_be(v.len() as i32) + v,
        TagModel::Text(text) => spec_nbt_string_wire(text),
        TagModel::List(k, elems) => seq![k] + spec_i32_be(elems.len() as i32) + spec_tag_run_wire(
            elems,
        ),
        TagModel::Compound(entries) => spec_compound_wire(entries) + seq![0u8],
        TagModel::IntArray(v) => spec_i32_be(v.len() as i32) + spec_i32_run_wire(v),
        TagModel::LongArray(v) => spec_i32_be(v.len() as i32) + spec_i64_run_wire(v),
    }
}

/// The payload bytes of a run of same-kind tags, in order.
pub open spec fn spec_tag_run_wire(elems: Seq<TagModel>) -> Seq<u8>
    decreases elems,
{
    if elems.len() == 0 {
        Seq::empty()
    } else {
        spec_tag_wire(elems[0]) + spec_tag_run_wire(elems.drop_first())
    }
}

/// The bytes of a compound's entries: for each entry the value's kind byte,
/// the name, and the value payload. The terminating zero byte is not here.
pub open spec fn spec_compound_wire(entries: Seq<(Seq<char>, TagModel)>) -> Seq<u8>
    decreases entries,
{
    if entries.len() == 0 {
        Seq::empty()
    } else {
        seq![spec_tag_bit(entries[0].1)] + spec_nbt_string_wire(entries[0].0) + spec_tag_wire(
            entries[0].1,
        ) + spec_compound_wire(entries.drop_first())
    }
}


/// The outcome of decoding a run of 32-bit big-endian values.
pub open spec fn spec_i32_run_parse(s: Seq<u8>, n: int) -> Result<(Seq<i32>, int), TransportError>
    decreases n,
{
    if n <= 0 {
        Ok((Seq::empty(), 0))
    } else if s.len() < 4 {
        Err(TransportError::EOF)
    } else {
        let x = crate::delegate::primitive::spec_u32_from_be(s.take(4)) as i32;
        match spec_i32_run_parse(s.skip(4), n - 1) {
            Ok((tail, m)) => Ok((seq![x] + tail, 4 + m)),
            Err(e) => Err(e),
        }
    }
}

/// The outcome of decoding a run of 64-bit big-endian values.
pub open spec fn spec_i64_run_parse(s: Seq<u8>, n: int) -> Result<(Seq<i64>, int), TransportError>
    decreases n,
{
    if n <= 0 {
        Ok((Seq::empty(), 0))
    } else if s.len() < 8 {
        Err(TransportError::EOF)
    } else {
        let x = crate::delegate::primitive::spec_u64_from_be(s.take(8)) as i64;
        match spec_i64_run_parse(s.skip(8), n - 1) {
            Ok((tail, m)) => Ok((seq![x] + tail, 8 + m)),
            Err(e) => Err(e),
        }
    }
}

/// The outcome of decoding one tag payload of kind `bit` from `s`, at the
/// given nesting depth and under the given budget: the model, the consumed
/// byte count and the new running total, or the error. Each kind first
/// debits its fixed per-node weight; lists and compounds then fail with the
/// depth-guard error beyond 512 levels, before consuming further bytes.
pub open spec fn spec_tag_parse(s: Seq<u8>, bit: u8, depth: i32, limit: u64, cur: u64) -> Result<
    (TagModel, int, u64),
    TransportError,
>
    decreases s.len(), 2int, 0int,
{
    if bit == 0 {
        match spec_account(limit, cur, 8) {
            Ok(c2) => Ok((TagModel::End, 0, c2)),
            Err(e) => Err(e),
        }
    } else if bit == 1 {
        match spec_account(limit, cur, 9) {
            Ok(c2) => if s.len() < 1 {
                Err(TransportError::EOF)
            } else {
                Ok((TagModel::Byte(s[0]), 1, c2))
            },
            Err(e) => Err(e),
        }
    } else if bit == 2 {
        match spec_account(limit, cur, 10) {
            Ok(c2) => if s.len() < 2 {
                Err(TransportError::EOF)
            } else {
                Ok((TagModel::Short(spec_u16_from_be(s.take(2))), 2, c2))
            },
            Err(e) => Err(e),
        }
    } else if bit == 3 {
        match spec_account(limit, cur, 12) {
            Ok(c2) => if s.len() < 4 {
                Err(TransportError::EOF)
            } else {
                Ok(
                    (
                        TagModel::Int(
                            crate::delegate::primitive::spec_u32_from_be(s.take(4)) as i32,
                        ),
                        4,
                        c2,
                    ),
                )
            },
            Err(e) => Err(e),
        }
    } else if bit == 4 {
        match spec_account(limit, cur, 16) {
            Ok(c2) => if s.len() < 8 {
                Err(TransportError::EOF)
            } else {
                Ok(
                    (
                        TagModel::Long(
                            crate::delegate::primitive::spec_u64_from_be(s.take(8)) as i64,
                        ),
                        8,
                        c2,
                    ),
                )
            },
            Err(e) => Err(e),
        }
    } else if bit == 5 {
        match spec_account(limit, cur, 12) {
            Ok(c2) => if s.len() < 4 {
                Err(TransportError::EOF)
            } else {
                Ok(
                    (
                        TagModel::Float(crate::delegate::primitive::spec_u32_from_be(s.take(4))),
                        4,
                        c2,
                    ),
                )
            },
            Err(e) => Err(e),
        }
    } else if bit == 6 {
        match spec_account(limit, cur, 16) {
            Ok(c2) => if s.len() < 8 {
                Err(TransportError::EOF)
            } else {
                Ok(
                    (
                        TagModel::Double(crate::delegate::primitive::spec_u64_from_be(s.take(8))),
                        8,
                        c2,
                    ),
                )
            },
            Err(e) => Err(e),
        }
    } else if bit == 7 {
        match spec_account(limit, cur, 24) {
            Ok(c2) => if s.len() < 4 {
                Err(TransportError::EOF)
            } else {
                let len = crate::delegate::primitive::spec_u32_from_be(s.take(4)) as i32;
                match spec_account(limit, c2, len as u64) {
                    Ok(c3) => {
                        let n = len as usize;
                        if s.skip(4).len() < n {
                            Err(TransportError::EOF)
                        } else {
                            Ok((TagModel::ByteArray(s.skip(4).take(n as int)), 4 + n, c3))
                        }
                    },
                    Err(e) => Err(e),
                }
            },
            Err(e) => Err(e),
        }
    } else if bit == 8 {
        match spec_account(limit, cur, 36) {
            Ok(c2) => match spec_nbt_string_parse(s, limit, c2) {
                Ok((text, n, c3)) => Ok((TagModel::Text(text), n, c3)),
                Err(e) => Err(e),
            },
            Err(e) => Err(e),
        }
    } else if bit == 9 {
        match spec_account(limit, cur, 37) {
            Ok(c2) => if depth > 512 {
                Err(TransportError::NbtError(NbtError::ComplexTag))
            } else if s.len() < 5 {
                Err(TransportError::EOF)
            } else {
                let k = s[0];
                let count = crate::delegate::primitive::spec_u32_from_be(s.skip(1).take(4)) as i32;
                match spec_account(limit, c2, (4 * (count as i64)) as u64) {
                    Ok(c3) => match spec_tag_run_parse(
                        s.skip(5),
                        k,
                        count as int,
                        (depth + 1) as i32,
                        limit,
                        c3,
                    ) {
                        Ok((elems, n, c4)) => Ok((TagModel::List(k, elems), 5 + n, c4)),
                        Err(e) => Err(e),
                    },
                    Err(e) => Err(e),
                }
            },
            Err(e) => Err(e),
        }
    } else if bit == 10 {
        match spec_account(limit, cur, 48) {
            Ok(c2) => if depth > 512 {
                Err(TransportError::NbtError(NbtError::ComplexTag))
            } else {
                match spec_compound_parse(s, depth, limit, c2) {
                    Ok((entries, n, c3)) => Ok((TagModel::Compound(entries), n, c3)),
                    Err(e) => Err(e),
                }
            },
            Err(e) => Err(e),
        }
    } else if bit == 11 {
        match spec_account(limit, cur, 24) {
            Ok(c2) => if s.len() < 4 {
                Err(TransportError::EOF)
            } else {
                let len = crate::delegate::primitive::spec_u32_from_be(s.take(4)) as i32;
                match spec_account(limit, c2, (4 * (len as i64)) as u64) {
                    Ok(c3) => match spec_i32_run_parse(s.skip(4), len as int) {
                        Ok((vals, n)) => Ok((TagModel::IntArray(vals), 4 + n, c3)),
                        Err(e) => Err(e),
                    },
                    Err(e) => Err(e),
                }
            },
            Err(e) => Err(e),
        }
    } else if bit == 12 {
        match spec_account(limit, cur, 24) {
            Ok(c2) => if s.len() < 4 {
                Err(TransportError::EOF)
            } else {
                let len = crate::delegate::primitive::spec_u32_from_be(s.take(4)) as i32;
                match spec_account(limit, c2, (8 * (len as i64)) as u64) {
                    Ok(c3) => match spec_i64_run_parse(s.skip(4), len as int) {
                        Ok((vals, n)) => Ok((TagModel::LongArray(vals), 4 + n, c3)),
                        Err(e) => Err(e),
                    },
                    Err(e) => Err(e),
                }
            },
            Err(e) => Err(e),
        }
    } else {
        Err(TransportError::NbtError(NbtError::InvalidTagBit(bit)))
    }
}

/// The outcome of decoding `n` consecutive same-kind tag payloads. The
/// consumed count of each element is clamped to the input as a defensive
/// bound; a successful element parse never exceeds it.
pub open spec fn spec_tag_run_parse(
    s: Seq<u8>,
    bit: u8,
    n: int,
    depth: i32,
    limit: u64,
    cur: u64,
) -> Result<(Seq<TagModel>, int, u64), TransportError>
    decreases s.len(), 3int, n,
{
    if n <= 0 {
        Ok((Seq::empty(), 0, cur))
    } else {
        match spec_tag_parse(s, bit, depth, limit, cur) {
            Ok((x, k, c2)) => {
                if !(0 <= k && k <= s.len()) {
                    Err(TransportError::EOF)
                } else {
                    match spec_tag_run_parse(s.skip(k), bit, n - 1, depth, limit, c2) {
                        Ok((tail, m, c3)) => Ok((seq![x] + tail, k + m, c3)),
                        Err(e) => Err(e),
                    }
                }
            },
            Err(e) => Err(e),
        }
    }
}

/// The outcome of decoding a compound's entries up to and including the
/// terminating zero byte: each entry is a kind byte, a name, and a payload
/// at one greater depth. Consumed counts are clamped to the input as a
/// defensive bound; successful parses never exceed it.
pub open spec fn spec_compound_parse(s: Seq<u8>, depth: i32, limit: u64, cur: u64) -> Result<
    (Seq<(Seq<char>, TagModel)>, int, u64),
    TransportError,
>
    decreases s.len(), 1int, 0int,
{
    if s.len() < 1 {
        Err(TransportError::EOF)
    } else {
        let kb = s[0];
        if kb == 0 {
            Ok((Seq::empty(), 1, cur))
        } else {
            match spec_account(limit, cur, 28) {
                Ok(c2) => match spec_nbt_string_parse(s.skip(1), limit, c2) {
                    Ok((name, n1, c3)) => {
                        if !(0 <= n1 && 1 + n1 <= s.len()) {
                            Err(TransportError::EOF)
                        } else {
                            match spec_tag_parse(
                                s.skip(1 + n1),
                                kb,
                                (depth + 1) as i32,
                                limit,
                                c3,
                            ) {
                                Ok((value, n2, c4)) => {
                                    if !(0 <= n2 && 1 + n1 + n2 <= s.len()) {
                                        Err(TransportError::EOF)
                                    } else {
                                        match spec_account(limit, c4, 36) {
                                            Ok(c5) => match spec_compound_parse(
                                                s.skip(1 + n1 + n2),
                                                depth,
                                                limit,
                                                c5,
                                            ) {
                                                Ok((rest_entries, n3, c6)) => Ok(
                                                    (
                                                        seq![(name, value)] + rest_entries,
                                                        1 + n1 + n2 + n3,
                                                        c6,
                                                    ),
                                                ),
                                                Err(e) => Err(e),
                                            },
                                            Err(e) => Err(e),
                                        }
                                    }
                                },
                                Err(e) => Err(e),
                            }
                        }
                    },
                    Err(e) => Err(e),
                },
                Err(e) => Err(e),
            }
        }
    }
}


/// Whether a tag's lengths fit their wire fields: array and list counts in
/// a 32-bit signed count, text in a two-byte length.
pub open spec fn spec_tag_encode_ok(m: TagModel) -> bool
    decreases m,
{
    match m {
        TagModel::End => true,
        TagModel::Byte(..) => true,
        TagModel::Short(..) => true,
        TagModel::Int(..) => true,
        TagModel::Long(..) => true,
        TagModel::Float(..) => true,
        TagModel::Double(..) => true,
        TagModel::ByteArray(v) => v.len() <= i32::MAX,
        TagModel::Text(text) => spec_nbt_string_encode_ok(text),
        TagModel::List(k, elems) => elems.len() <= i32::MAX && spec_tag_run_encode_ok(elems),
        TagModel::Compound(entries) => spec_compound_encode_ok(entries),
        TagModel::IntArray(v) => v.len() <= i32::MAX,
        TagModel::LongArray(v) => v.len() <= i32::MAX,
    }
}

/// Whether every tag of a run fits its wire fields.
pub open spec fn spec_tag_run_encode_ok(elems: Seq<TagModel>) -> bool
    decreases elems,
{
    elems.len() == 0 || (spec_tag_encode_ok(elems[0]) && spec_tag_run_encode_ok(
        elems.drop_first(),
    ))
}

/// Whether every entry of a compound fits its wire fields: each name in two
/// length bytes, each value recursively.
pub open spec fn spec_compound_encode_ok(entries: Seq<(Seq<char>, TagModel)>) -> bool
    decreases entries,
{
    entries.len() == 0 || (spec_nbt_string_encode_ok(entries[0].0) && spec_tag_encode_ok(
        entries[0].1,
    ) && spec_compound_encode_ok(entries.drop_first()))
}

/// A run fits its wire fields exactly when each member does.
pub proof fn lemma_tag_run_encode_ok_index(elems: Seq<TagModel>)
    ensures
        spec_tag_run_encode_ok(elems) <==> (forall|i: int|
            0 <= i < elems.len() ==> spec_tag_encode_ok(#[trigger] elems[i])),
    decreases elems,
{
    if elems.len() > 0 {
        lemma_tag_run_encode_ok_index(elems.drop_first());
        assert forall|i: int|
            0 <= i < elems.drop_first().len() implies #[trigger] elems.drop_first()[i] == elems[i
            + 1] by {}
        if spec_tag_run_encode_ok(elems) {
            assert forall|i: int| 0 <= i < elems.len() implies spec_tag_encode_ok(
                #[trigger] elems[i],
            ) by {
                if i > 0 {
                    assert(elems.drop_first()[i - 1] == elems[i]);
                }
            }
        } else {
            if spec_tag_encode_ok(elems[0]) {
                assert(!spec_tag_run_encode_ok(elems.drop_first()));
            }
        }
    }
}

/// A compound fits its wire fields exactly when each entry does.
pub proof fn lemma_compound_encode_ok_index(entries: Seq<(Seq<char>, TagModel)>)
    ensures
        spec_compound_encode_ok(entries) <==> (forall|i: int|
            0 <= i < entries.len() ==> spec_nbt_string_encode_ok((#[trigger] entries[i]).0)
                && spec_tag_encode_ok(entries[i].1)),
    decreases entries,
{
    if entries.len() > 0 {
        lemma_compound_encode_ok_index(entries.drop_first());
        if spec_compound_encode_ok(entries) {
            assert forall|i: int|
                0 <= i < entries.len() implies spec_nbt_string_encode_ok(
                (#[trigger] entries[i]).0,
            ) && spec_tag_encode_ok(entries[i].1) by {
                if i > 0 {
                    assert(entries.drop_first()[i - 1] == entries[i]);
                }
            }
        } else {
            if spec_nbt_string_encode_ok(entries[0].0) && spec_tag_encode_ok(entries[0].1) {
                assert(!spec_compound_encode_ok(entries.drop_first()));
                let j = choose|j: int|
                    0 <= j < entries.drop_first().len() && !(spec_nbt_string_encode_ok(
                        (#[trigger] entries.drop_first()[j]).0,
                    ) && spec_tag_encode_ok(entries.drop_first()[j].1));
                assert(entries.drop_first()[j] == entries[j + 1]);
            }
        }
    }
}

/// The models of a run of tags are the models of its members.
pub proof fn lemma_tags_model_index(v: Seq<Tag>)
    ensures
        tags_model(v).len() == v.len(),
        forall|i: int| 0 <= i < v.len() ==> #[trigger] tags_model(v)[i] == tag_model(v[i]),
    decreases v,
{
    if v.len() > 0 {
        lemma_tags_model_index(v.drop_first());
        assert forall|i: int| 0 <= i < v.len() implies #[trigger] tags_model(v)[i] == tag_model(
            v[i],
        ) by {
            if i > 0 {
                assert(tags_model(v)[i] == tags_model(v.drop_first())[i - 1]);
                assert(v.drop_first()[i - 1] == v[i]);
            }
        }
    }
}

/// The models of a run of named tags are the models of its members.
pub proof fn lemma_entries_model_index(v: Seq<(String, Tag)>)
    ensures
        entries_model(v).len() == v.len(),
        forall|i: int| 0 <= i < v.len() ==> #[trigger] entries_model(v)[i] == (
            v[i].0@,
            tag_model(v[i].1),
        ),
    decreases v,
{
    if v.len() > 0 {
        lemma_entries_model_index(v.drop_first());
        assert forall|i: int| 0 <= i < v.len() implies #[trigger] entries_model(v)[i] == (
            v[i].0@,
            tag_model(v[i].1),
        ) by {
            if i > 0 {
                assert(entries_model(v)[i] == entries_model(v.drop_first())[i - 1]);
                assert(v.drop_first()[i - 1] == v[i]);
            }
        }
    }
}

/// Appending one tag to a run appends its payload to the run's bytes.
pub proof fn lemma_tag_run_wire_snoc(elems: Seq<TagModel>, x: TagModel)
    ensures
        spec_tag_run_wire(elems.push(x)) == spec_tag_run_wire(elems) + spec_tag_wire(x),
    decreases elems,
{
    if elems.len() == 0 {
        assert(elems.push(x).drop_first() =~= Seq::<TagModel>::empty());
        assert(elems.push(x)[0] == x);
        assert(spec_tag_run_wire(Seq::<TagModel>::empty()) == Seq::<u8>::empty());
        assert(spec_tag_wire(x) + Seq::<u8>::empty() =~= Seq::<u8>::empty() + spec_tag_wire(x));
    } else {
        assert(elems.push(x).drop_first() =~= elems.drop_first().push(x));
        assert(elems.push(x)[0] == elems[0]);
        lemma_tag_run_wire_snoc(elems.drop_first(), x);
        assert(spec_tag_wire(elems[0]) + (spec_tag_run_wire(elems.drop_first()) + spec_tag_wire(x))
            =~= (spec_tag_wire(elems[0]) + spec_tag_run_wire(elems.drop_first())) + spec_tag_wire(
            x,
        ));
    }
}

/// A run's bytes split at any member boundary.
pub proof fn lemma_tag_run_wire_concat(a: Seq<TagModel>, b: Seq<TagModel>)
    ensures
        spec_tag_run_wire(a + b) == spec_tag_run_wire(a) + spec_tag_run_wire(b),
    decreases a,
{
    if a.len() == 0 {
        assert(a + b =~= b);
        assert(spec_tag_run_wire(a) + spec_tag_run_wire(b) =~= spec_tag_run_wire(b));
    } else {
        assert((a + b)[0] == a[0]);
        assert((a + b).drop_first() =~= a.drop_first() + b);
        lemma_tag_run_wire_concat(a.drop_first(), b);
        assert(spec_tag_wire(a[0]) + (spec_tag_run_wire(a.drop_first()) + spec_tag_run_wire(b))
            =~= (spec_tag_wire(a[0]) + spec_tag_run_wire(a.drop_first())) + spec_tag_run_wire(b));
    }
}

/// Appending one entry to a compound appends its bytes.
pub proof fn lemma_compound_wire_snoc(entries: Seq<(Seq<char>, TagModel)>, e: (Seq<char>, TagModel))
    ensures
        spec_compound_wire(entries.push(e)) == spec_compound_wire(entries) + (seq![
            spec_tag_bit(e.1),
        ] + spec_nbt_string_wire(e.0) + spec_tag_wire(e.1)),
    decreases entries,
{
    let piece = seq![spec_tag_bit(e.1)] + spec_nbt_string_wire(e.0) + spec_tag_wire(e.1);
    if entries.len() == 0 {
        assert(entries.push(e).drop_first() =~= Seq::<(Seq<char>, TagModel)>::empty());
        assert(entries.push(e)[0] == e);
        assert(spec_compound_wire(Seq::<(Seq<char>, TagModel)>::empty()) == Seq::<u8>::empty());
        assert(piece + Seq::<u8>::empty() =~= Seq::<u8>::empty() + piece);
    } else {
        assert(entries.push(e).drop_first() =~= entries.drop_first().push(e));
        assert(entries.push(e)[0] == entries[0]);
        lemma_compound_wire_snoc(entries.drop_first(), e);
        let head = seq![spec_tag_bit(entries[0].1)] + spec_nbt_string_wire(entries[0].0)
            + spec_tag_wire(entries[0].1);
        assert(head + (spec_compound_wire(entries.drop_first()) + piece) =~= (head
            + spec_compound_wire(entries.drop_first())) + piece);
    }
}

/// A compound's entry bytes split at any entry boundary.
pub proof fn lemma_compound_wire_concat(
    a: Seq<(Seq<char>, TagModel)>,
    b: Seq<(Seq<char>, TagModel)>,
)
    ensures
        spec_compound_wire(a + b) == spec_compound_wire(a) + spec_compound_wire(b),
    decreases a,
{
    if a.len() == 0 {
        assert(a + b =~= b);
        assert(spec_compound_wire(a) + spec_compound_wire(b) =~= spec_compound_wire(b));
    } else {
        assert((a + b)[0] == a[0]);
        assert((a + b).drop_first() =~= a.drop_first() + b);
        lemma_compound_wire_concat(a.drop_first(), b);
        let head = seq![spec_tag_bit(a[0].1)] + spec_nbt_string_wire(a[0].0) + spec_tag_wire(
            a[0].1,
        );
        assert(head + (spec_compound_wire(a.drop_first()) + spec_compound_wire(b)) =~= (head
            + spec_compound_wire(a.drop_first())) + spec_compound_wire(b));
    }
}

/// Appending one value to a 32-bit run appends its bytes.
pub proof fn lemma_i32_run_wire_snoc(v: Seq<i32>, x: i32)
    ensures
        spec_i32_run_wire(v.push(x)) == spec_i32_run_wire(v) + spec_i32_be(x),
    decreases v.len(),
{
    if v.len() == 0 {
        assert(v.push(x).drop_first() =~= Seq::<i32>::empty());
        assert(v.push(x)[0] == x);
        assert(spec_i32_run_wire(Seq::<i32>::empty()) == Seq::<u8>::empty());
        assert(spec_i32_be(x) + Seq::<u8>::empty() =~= Seq::<u8>::empty() + spec_i32_be(x));
    } else {
        assert(v.push(x).drop_first() =~= v.drop_first().push(x));
        assert(v.push(x)[0] == v[0]);
        lemma_i32_run_wire_snoc(v.drop_first(), x);
        assert(spec_i32_be(v[0]) + (spec_i32_run_wire(v.drop_first()) + spec_i32_be(x)) =~= (
        spec_i32_be(v[0]) + spec_i32_run_wire(v.drop_first())) + spec_i32_be(x));
    }
}

/// Appending one value to a 64-bit run appends its bytes.
pub proof fn lemma_i64_run_wire_snoc(v: Seq<i64>, x: i64)
    ensures
        spec_i64_run_wire(v.push(x)) == spec_i64_run_wire(v) + spec_i64_be(x),
    decreases v.len(),
{
    if v.len() == 0 {
        assert(v.push(x).drop_first() =~= Seq::<i64>::empty());
        assert(v.push(x)[0] == x);
        assert(spec_i64_run_wire(Seq::<i64>::empty()) == Seq::<u8>::empty());
        assert(spec_i64_be(x) + Seq::<u8>::empty() =~= Seq::<u8>::empty() + spec_i64_be(x));
    } else {
        assert(v.push(x).drop_first() =~= v.drop_first().push(x));
        assert(v.push(x)[0] == v[0]);
        lemma_i64_run_wire_snoc(v.drop_first(), x);
        assert(spec_i64_be(v[0]) + (spec_i64_run_wire(v.drop_first()) + spec_i64_be(x)) =~= (
        spec_i64_be(v[0]) + spec_i64_run_wire(v.drop_first())) + spec_i64_be(x));
    }
}

impl Tag {
    /// The numeric tag-kind identifier of this tag, as used on the wire.
    pub fn get_tag_bit(&self) -> (r: u8)
        ensures
            r == spec_tag_bit(tag_model(*self)),
    {
        match self {
            Tag::TagEnd => 0,
            Tag::TagByte(..) => 1,
            Tag::TagShort(..) => 2,
            Tag::TagInt(..) => 3,
            Tag::TagLong(..) => 4,
            Tag::TagFloat(..) => 5,
            Tag::TagDouble(..) => 6,
            Tag::TagByteArray(..) => 7,
            Tag::TagString(..) => 8,
            Tag::TagList(..) => 9,
            Tag::CompoundTag(..) => 10,
            Tag::TagIntArray(..) => 11,
            Tag::TagLongArray(..) => 12,
        }
    }
}


/// Adds two counts, saturating at the maximum representable value.
fn sat_add(a: usize, b: usize) -> (r: usize)
    ensures
        a + b <= usize::MAX ==> r == a + b,
{
    if a <= usize::MAX - b {
        a + b
    } else {
        usize::MAX
    }
}

/// Writes one tag payload, appending exactly [`spec_tag_wire`] on success.
/// The tag-kind byte is the container's to write, not this function's. An
/// array or list whose count does not fit a 32-bit signed value, or a text
/// whose modified-UTF-8 form does not fit two length bytes, is rejected.
pub fn write_tag(write: &mut Vec<u8>, tag: &Tag) -> (r: DraxResult<()>)
    ensures
        r is Ok <==> spec_tag_encode_ok(tag_model(*tag)),
        r is Ok ==> final(write)@ == old(write)@ + spec_tag_wire(tag_model(*tag)),
        r is Err ==> final(write)@.len() >= old(write)@.len() && final(write)@.take(
            old(write)@.len() as int,
        ) == old(write)@,
    decreases *tag,
{
    match tag {
        Tag::TagEnd => {
            proof {
                assert(write@ =~= old(write)@ + spec_tag_wire(tag_model(*tag)));
            }
            Ok(())
        },
        Tag::TagByte(b) => {
            write.push(*b);
            proof {
                assert(final(write)@ =~= old(write)@ + spec_tag_wire(tag_model(*tag)));
            }
            Ok(())
        },
        Tag::TagShort(x) => {
            write_u16_be(write, *x);
            Ok(())
        },
        Tag::TagInt(x) => {
            crate::delegate::primitive::write_u32_be(write, #[verifier::truncate] (*x as u32));
            Ok(())
        },
        Tag::TagLong(x) => {
            crate::delegate::primitive::write_u64_be(write, #[verifier::truncate] (*x as u64));
            Ok(())
        },
        Tag::TagFloat(x) => {
            crate::delegate::primitive::write_u32_be(write, *x);
            Ok(())
        },
        Tag::TagDouble(x) => {
            crate::delegate::primitive::write_u64_be(write, *x);
            Ok(())
        },
        Tag::TagByteArray(v) => {
            if v.len() > 0x7fff_ffffusize {
                proof {
                    assert(final(write)@.take(old(write)@.len() as int) =~= old(write)@);
                }
                return TransportError::limit_exceeded(
                    0x7fff_ffff,
                    saturate_i32(v.len()),
                    "encoding tag",
                );
            }
            crate::delegate::primitive::write_u32_be(write, #[verifier::truncate] (v.len() as u32));
            append_bytes(write, v);
            proof {
                assert(final(write)@ =~= old(write)@ + spec_tag_wire(tag_model(*tag)));
            }
            Ok(())
        },
        Tag::TagString(text) => {
            match write_string(write, text.as_str()) {
                Ok(()) => Ok(()),
                Err(e) => {
                    proof {
                        assert(final(write)@.take(old(write)@.len() as int) =~= old(write)@);
                    }
                    Err(e)
                },
            }
        },
        Tag::TagList(pair) => {
            let elems = &pair.1;
            let ghost models = tags_model(elems@);
            proof {
                lemma_tags_model_index(elems@);
            }
            if elems.len() > 0x7fff_ffffusize {
                proof {
                    assert(final(write)@.take(old(write)@.len() as int) =~= old(write)@);
                }
                return TransportError::limit_exceeded(
                    0x7fff_ffff,
                    saturate_i32(elems.len()),
                    "encoding tag",
                );
            }
            write.push(pair.0);
            crate::delegate::primitive::write_u32_be(
                write,
                #[verifier::truncate] (elems.len() as u32),
            );
            let ghost head = old(write)@ + seq![pair.0] + spec_i32_be(elems@.len() as i32);
            proof {
                assert(write@ =~= head + spec_tag_run_wire(models.take(0)));
            }
            let mut i: usize = 0;
            while i < elems.len()
                invariant
                    *tag == Tag::TagList(*pair),
                    elems == &pair.1,
                    models == tags_model(elems@),
                    models.len() == elems@.len(),
                    elems@.len() <= 0x7fff_ffffusize,
                    forall|j: int| 0 <= j < elems@.len() ==> #[trigger] models[j] == tag_model(
                        elems@[j],
                    ),
                    head == old(write)@ + seq![pair.0] + spec_i32_be(elems@.len() as i32),
                    0 <= i <= elems@.len(),
                    write@ == head + spec_tag_run_wire(models.take(i as int)),
                    spec_tag_run_encode_ok(models.take(i as int)),
                decreases elems@.len() - i,
            {
                proof {
                    assert(tag_model(*tag) == TagModel::List(pair.0, models));
                    assert(decreases_to!(*tag => pair.1));
                    assert(decreases_to!(pair.1 => pair.1@));
                    assert(decreases_to!(pair.1@ => pair.1@[i as int]));
                }
                match write_tag(write, &elems[i]) {
                    Ok(()) => {
                        proof {
                            lemma_tag_run_wire_snoc(models.take(i as int), models[i as int]);
                            assert(models.take(i as int).push(models[i as int]) =~= models.take(
                                i + 1,
                            ));
                            assert(write@ =~= head + spec_tag_run_wire(models.take(i + 1)));
                            lemma_tag_run_encode_ok_index(models.take(i as int));
                            lemma_tag_run_encode_ok_index(models.take(i + 1));
                        }
                        i = i + 1;
                    },
                    Err(e) => {
                        proof {
                            assert(!spec_tag_encode_ok(models[i as int]));
                            lemma_tag_run_encode_ok_index(models);
                            assert(final(write)@.take(old(write)@.len() as int) =~= old(write)@);
                        }
                        return Err(e);
                    },
                }
            }
            proof {
                assert(models.take(elems@.len() as int) =~= models);
                assert(final(write)@ =~= old(write)@ + spec_tag_wire(tag_model(*tag)));
            }
            Ok(())
        },
        Tag::CompoundTag(entries) => {
            let ghost ment = entries_model(entries@);
            proof {
                lemma_entries_model_index(entries@);
                assert(write@ =~= old(write)@ + spec_compound_wire(ment.take(0)));
            }
            let mut i: usize = 0;
            while i < entries.len()
                invariant
                    *tag == Tag::CompoundTag(*entries),
                    ment == entries_model(entries@),
                    ment.len() == entries@.len(),
                    forall|j: int| 0 <= j < entries@.len() ==> #[trigger] ment[j] == (
                        entries@[j].0@,
                        tag_model(entries@[j].1),
                    ),
                    0 <= i <= entries@.len(),
                    write@ == old(write)@ + spec_compound_wire(ment.take(i as int)),
                    spec_compound_encode_ok(ment.take(i as int)),
                decreases entries@.len() - i,
            {
                proof {
                    assert(tag_model(*tag) == TagModel::Compound(ment));
                    assert(decreases_to!(*tag => *entries));
                    assert(decreases_to!(*entries => entries@));
                    assert(decreases_to!(entries@ => entries@[i as int]));
                    assert(decreases_to!(entries@[i as int] => entries@[i as int].1));
                }
                let entry = &entries[i];
                let bit = entry.1.get_tag_bit();
                write.push(bit);
                match write_string(write, entry.0.as_str()) {
                    Ok(()) => {},
                    Err(e) => {
                        proof {
                            assert(!spec_nbt_string_encode_ok(ment[i as int].0));
                            lemma_compound_encode_ok_index(ment);
                            assert(final(write)@.take(old(write)@.len() as int) =~= old(write)@);
                        }
                        return Err(e);
                    },
                }
                match write_tag(write, &entry.1) {
                    Ok(()) => {
                        proof {
                            lemma_compound_wire_snoc(ment.take(i as int), ment[i as int]);
                            assert(ment.take(i as int).push(ment[i as int]) =~= ment.take(i + 1));
                            assert(write@ =~= old(write)@ + spec_compound_wire(ment.take(i + 1)));
                            lemma_compound_encode_ok_index(ment.take(i as int));
                            lemma_compound_encode_ok_index(ment.take(i + 1));
                        }
                        i = i + 1;
                    },
                    Err(e) => {
                        proof {
                            assert(!spec_tag_encode_ok(ment[i as int].1));
                            lemma_compound_encode_ok_index(ment);
                            assert(final(write)@.take(old(write)@.len() as int) =~= old(write)@);
                        }
                        return Err(e);
                    },
                }
            }
            write.push(0);
            proof {
                assert(ment.take(entries@.len() as int) =~= ment);
                assert(final(write)@ =~= old(write)@ + spec_tag_wire(tag_model(*tag)));
            }
            Ok(())
        },
        Tag::TagIntArray(v) => {
            if v.len() > 0x7fff_ffffusize {
                proof {
                    assert(final(write)@.take(old(write)@.len() as int) =~= old(write)@);
                }
                return TransportError::limit_exceeded(
                    0x7fff_ffff,
                    saturate_i32(v.len()),
                    "encoding tag",
                );
            }
            crate::delegate::primitive::write_u32_be(write, #[verifier::truncate] (v.len() as u32));
            let ghost head = old(write)@ + spec_i32_be(v@.len() as i32);
            proof {
                assert(write@ =~= head + spec_i32_run_wire(v@.take(0)));
            }
            let mut i: usize = 0;
            while i < v.len()
                invariant
                    head == old(write)@ + spec_i32_be(v@.len() as i32),
                    0 <= i <= v@.len(),
                    write@ == head + spec_i32_run_wire(v@.take(i as int)),
                decreases v@.len() - i,
            {
                crate::delegate::primitive::write_u32_be(write, #[verifier::truncate] (v[i] as u32));
                proof {
                    lemma_i32_run_wire_snoc(v@.take(i as int), v@[i as int]);
                    assert(v@.take(i as int).push(v@[i as int]) =~= v@.take(i + 1));
                    assert(write@ =~= head + spec_i32_run_wire(v@.take(i + 1)));
                }
                i = i + 1;
            }
            proof {
                assert(v@.take(v@.len() as int) =~= v@);
                assert(final(write)@ =~= old(write)@ + spec_tag_wire(tag_model(*tag)));
            }
            Ok(())
        },
        Tag::TagLongArray(v) => {
            if v.len() > 0x7fff_ffffusize {
                proof {
                    assert(final(write)@.take(old(write)@.len() as int) =~= old(write)@);
                }
                return TransportError::limit_exceeded(
                    0x7fff_ffff,
                    saturate_i32(v.len()),
                    "encoding tag",
                );
            }
            crate::delegate::primitive::write_u32_be(write, #[verifier::truncate] (v.len() as u32));
            let ghost head = old(write)@ + spec_i32_be(v@.len() as i32);
            proof {
                assert(write@ =~= head + spec_i64_run_wire(v@.take(0)));
            }
            let mut i: usize = 0;
            while i < v.len()
                invariant
                    head == old(write)@ + spec_i32_be(v@.len() as i32),
                    0 <= i <= v@.len(),
                    write@ == head + spec_i64_run_wire(v@.take(i as int)),
                decreases v@.len() - i,
            {
                crate::delegate::primitive::write_u64_be(write, #[verifier::truncate] (v[i] as u64));
                proof {
                    lemma_i64_run_wire_snoc(v@.take(i as int), v@[i as int]);
                    assert(v@.take(i as int).push(v@[i as int]) =~= v@.take(i + 1));
                    assert(write@ =~= head + spec_i64_run_wire(v@.take(i + 1)));
                }
                i = i + 1;
            }
            proof {
                assert(v@.take(v@.len() as int) =~= v@);
                assert(final(write)@ =~= old(write)@ + spec_tag_wire(tag_model(*tag)));
            }
            Ok(())
        },
    }
}


/// A 32-bit run's bytes are four per value.
pub proof fn lemma_i32_run_wire_len(v: Seq<i32>)
    ensures
        spec_i32_run_wire(v).len() == 4 * v.len(),
    decreases v.len(),
{
    if v.len() > 0 {
        lemma_i32_run_wire_len(v.drop_first());
    }
}

/// A 64-bit run's bytes are eight per value.
pub proof fn lemma_i64_run_wire_len(v: Seq<i64>)
    ensures
        spec_i64_run_wire(v).len() == 8 * v.len(),
    decreases v.len(),
{
    if v.len() > 0 {
        lemma_i64_run_wire_len(v.drop_first());
    }
}

/// Returns the byte count [`write_tag`] would produce for `tag`, without
/// writing: exactly the payload's wire length whenever the tag fits its
/// wire fields and the total fits a `usize`.
pub fn size_tag(tag: &Tag) -> (r: DraxResult<usize>)
    ensures
        spec_tag_encode_ok(tag_model(*tag)) && spec_tag_wire(tag_model(*tag)).len() <= usize::MAX
            ==> r == Ok::<usize, TransportError>(spec_tag_wire(tag_model(*tag)).len() as usize),
    decreases *tag,
{
    match tag {
        Tag::TagEnd => Ok(0),
        Tag::TagByte(..) => Ok(1),
        Tag::TagShort(..) => Ok(2),
        Tag::TagInt(..) => Ok(4),
        Tag::TagLong(..) => Ok(8),
        Tag::TagFloat(..) => Ok(4),
        Tag::TagDouble(..) => Ok(8),
        Tag::TagByteArray(v) => Ok(sat_add(4, v.len())),
        Tag::TagString(text) => size_string(text.as_str()),
        Tag::TagList(pair) => {
            let elems = &pair.1;
            let ghost models = tags_model(elems@);
            let ghost hyp = spec_tag_encode_ok(tag_model(*tag)) && spec_tag_wire(
                tag_model(*tag),
            ).len() <= usize::MAX;
            proof {
                lemma_tags_model_index(elems@);
                assert(spec_tag_run_wire(models.take(0)) =~= Seq::<u8>::empty());
            }
            let mut size: usize = 5;
            let mut i: usize = 0;
            while i < elems.len()
                invariant
                    *tag == Tag::TagList(*pair),
                    elems == &pair.1,
                    models == tags_model(elems@),
                    models.len() == elems@.len(),
                    forall|j: int| 0 <= j < elems@.len() ==> #[trigger] models[j] == tag_model(
                        elems@[j],
                    ),
                    hyp == (spec_tag_encode_ok(tag_model(*tag)) && spec_tag_wire(
                        tag_model(*tag),
                    ).len() <= usize::MAX),
                    0 <= i <= elems@.len(),
                    hyp ==> size == 5 + spec_tag_run_wire(models.take(i as int)).len(),
                decreases elems@.len() - i,
            {
                proof {
                    assert(tag_model(*tag) == TagModel::List(pair.0, models));
                    assert(decreases_to!(*tag => pair.1));
                    assert(decreases_to!(pair.1 => pair.1@));
                    assert(decreases_to!(pair.1@ => pair.1@[i as int]));
                    if hyp {
                        lemma_tag_run_encode_ok_index(models);
                        assert(models =~= models.take(i + 1) + models.skip(i + 1));
                        lemma_tag_run_wire_concat(models.take(i + 1), models.skip(i + 1));
                        lemma_tag_run_wire_snoc(models.take(i as int), models[i as int]);
                        assert(models.take(i as int).push(models[i as int]) =~= models.take(i + 1));
                    }
                }
                match size_tag(&elems[i]) {
                    Ok(n) => {
                        size = sat_add(size, n);
                        i = i + 1;
                    },
                    Err(e) => {
                        return Err(e);
                    },
                }
            }
            proof {
                if hyp {
                    assert(models.take(elems@.len() as int) =~= models);
                }
            }
            Ok(size)
        },
        Tag::CompoundTag(entries) => {
            let ghost ment = entries_model(entries@);
            let ghost hyp = spec_tag_encode_ok(tag_model(*tag)) && spec_tag_wire(
                tag_model(*tag),
            ).len() <= usize::MAX;
            proof {
                lemma_entries_model_index(entries@);
                assert(spec_compound_wire(ment.take(0)) =~= Seq::<u8>::empty());
            }
            let mut size: usize = 0;
            let mut i: usize = 0;
            while i < entries.len()
                invariant
                    *tag == Tag::CompoundTag(*entries),
                    ment == entries_model(entries@),
                    ment.len() == entries@.len(),
                    forall|j: int| 0 <= j < entries@.len() ==> #[trigger] ment[j] == (
                        entries@[j].0@,
                        tag_model(entries@[j].1),
                    ),
                    hyp == (spec_tag_encode_ok(tag_model(*tag)) && spec_tag_wire(
                        tag_model(*tag),
                    ).len() <= usize::MAX),
                    0 <= i <= entries@.len(),
                    hyp ==> size == spec_compound_wire(ment.take(i as int)).len(),
                decreases entries@.len() - i,
            {
                proof {
                    assert(tag_model(*tag) == TagModel::Compound(ment));
                    assert(decreases_to!(*tag => *entries));
                    assert(decreases_to!(*entries => entries@));
                    assert(decreases_to!(entries@ => entries@[i as int]));
                    assert(decreases_to!(entries@[i as int] => entries@[i as int].1));
                    if hyp {
                        lemma_compound_encode_ok_index(ment);
                        assert(ment =~= ment.take(i + 1) + ment.skip(i + 1));
                        lemma_compound_wire_concat(ment.take(i + 1), ment.skip(i + 1));
                        lemma_compound_wire_snoc(ment.take(i as int), ment[i as int]);
                        assert(ment.take(i as int).push(ment[i as int]) =~= ment.take(i + 1));
                    }
                }
                let entry = &entries[i];
                let name_size = match size_string(entry.0.as_str()) {
                    Ok(n) => n,
                    Err(e) => {
                        return Err(e);
                    },
                };
                size = sat_add(size, sat_add(name_size, 1));
                match size_tag(&entry.1) {
                    Ok(n) => {
                        size = sat_add(size, n);
                        i = i + 1;
                    },
                    Err(e) => {
                        return Err(e);
                    },
                }
            }
            proof {
                if hyp {
                    assert(ment.take(entries@.len() as int) =~= ment);
                }
            }
            Ok(sat_add(size, 1))
        },
        Tag::TagIntArray(v) => {
            proof {
                lemma_i32_run_wire_len(v@);
            }
            let n = v.len();
            if n <= (usize::MAX - 4) / 4 {
                Ok(4 + 4 * n)
            } else {
                Ok(usize::MAX)
            }
        },
        Tag::TagLongArray(v) => {
            proof {
                lemma_i64_run_wire_len(v@);
            }
            let n = v.len();
            if n <= (usize::MAX - 4) / 8 {
                Ok(4 + 8 * n)
            } else {
                Ok(usize::MAX)
            }
        },
    }
}


/// Reads one tag payload of kind `bit` at nesting depth `depth`, exactly as
/// [`spec_tag_parse`] states: every kind first debits its per-node weight
/// from the accountant, lists and compounds fail with the depth-guard error
/// beyond 512 levels, and unrecognized kind bytes are rejected.
#[verifier::loop_isolation(false)]
#[verifier::rlimit(100)]
pub fn load_tag(read: &mut ByteReader, bit: u8, depth: i32, accounter: &mut NbtAccounter) -> (r:
    DraxResult<Tag>)
    ensures
        final(read).data_seq() == old(read).data_seq(),
        old(read).position() <= final(read).position() <= old(read).data_seq().len(),
        final(accounter).limit() == old(accounter).limit(),
        match r {
            Ok(t) => spec_tag_parse(
                old(read).remaining(),
                bit,
                depth,
                old(accounter).limit(),
                old(accounter).current(),
            ) == Ok::<_, TransportError>(
                (
                    tag_model(t),
                    final(read).position() - old(read).position(),
                    final(accounter).current(),
                ),
            ),
            Err(e) => spec_tag_parse(
                old(read).remaining(),
                bit,
                depth,
                old(accounter).limit(),
                old(accounter).current(),
            ) == Err::<(TagModel, int, u64), _>(e),
        },
    decreases read.remaining().len(),
{
    proof {
        use_type_invariant(&*read);
    }
    let ghost s0 = old(read).remaining();
    let ghost p0 = old(read).position();
    let ghost lim = old(accounter).limit();
    let ghost cur0 = old(accounter).current();
    if bit == 0 {
        match accounter.account_bytes(8) {
            Ok(()) => Ok(Tag::TagEnd),
            Err(e) => Err(e),
        }
    } else if bit == 1 {
        match accounter.account_bytes(9) {
            Ok(()) => {},
            Err(e) => {
                return Err(e);
            },
        }
        match read.read_u8() {
            Ok(b) => Ok(Tag::TagByte(b)),
            Err(e) => Err(e),
        }
    } else if bit == 2 {
        match accounter.account_bytes(10) {
            Ok(()) => {},
            Err(e) => {
                return Err(e);
            },
        }
        match read_u16_be(read) {
            Ok(x) => Ok(Tag::TagShort(x)),
            Err(e) => Err(e),
        }
    } else if bit == 3 {
        match accounter.account_bytes(12) {
            Ok(()) => {},
            Err(e) => {
                return Err(e);
            },
        }
        match crate::delegate::primitive::read_u32_be(read) {
            Ok(x) => Ok(Tag::TagInt(#[verifier::truncate] (x as i32))),
            Err(e) => Err(e),
        }
    } else if bit == 4 {
        match accounter.account_bytes(16) {
            Ok(()) => {},
            Err(e) => {
                return Err(e);
            },
        }
        match crate::delegate::primitive::read_u64_be(read) {
            Ok(x) => Ok(Tag::TagLong(#[verifier::truncate] (x as i64))),
            Err(e) => Err(e),
        }
    } else if bit == 5 {
        match accounter.account_bytes(12) {
            Ok(()) => {},
            Err(e) => {
                return Err(e);
            },
        }
        match crate::delegate::primitive::read_u32_be(read) {
            Ok(x) => Ok(Tag::TagFloat(x)),
            Err(e) => Err(e),
        }
    } else if bit == 6 {
        match accounter.account_bytes(16) {
            Ok(()) => {},
            Err(e) => {
                return Err(e);
            },
        }
        match crate::delegate::primitive::read_u64_be(read) {
            Ok(x) => Ok(Tag::TagDouble(x)),
            Err(e) => Err(e),
        }
    } else if bit == 7 {
        match accounter.account_bytes(24) {
            Ok(()) => {},
            Err(e) => {
                return Err(e);
            },
        }
        let len = match crate::delegate::primitive::read_u32_be(read) {
            Ok(x) => #[verifier::truncate] (x as i32),
            Err(e) => {
                return Err(e);
            },
        };
        match accounter.account_bytes(#[verifier::truncate] (len as u64)) {
            Ok(()) => {},
            Err(e) => {
                return Err(e);
            },
        }
        proof {
            crate::transport::lemma_skip_skip(old(read).data_seq(), p0, 4);
            assert(read.remaining() == s0.skip(4));
        }
        match read.read_exact(#[verifier::truncate] (len as usize)) {
            Ok(bytes) => Ok(Tag::TagByteArray(bytes)),
            Err(e) => Err(e),
        }
    } else if bit == 8 {
        match accounter.account_bytes(36) {
            Ok(()) => {},
            Err(e) => {
                return Err(e);
            },
        }
        match read_string(read, accounter) {
            Ok(text) => Ok(Tag::TagString(text)),
            Err(e) => Err(e),
        }
    } else if bit == 9 {
        match accounter.account_bytes(37) {
            Ok(()) => {},
            Err(e) => {
                return Err(e);
            },
        }
        if depth > 512 {
            return NbtError::complex_tag();
        }
        let k = match read.read_u8() {
            Ok(b) => b,
            Err(e) => {
                return Err(e);
            },
        };
        proof {
            crate::transport::lemma_skip_skip(old(read).data_seq(), p0, 1);
            assert(read.remaining() == s0.skip(1));
        }
        let length = match crate::delegate::primitive::read_u32_be(read) {
            Ok(x) => #[verifier::truncate] (x as i32),
            Err(e) => {
                return Err(e);
            },
        };
        match accounter.account_bytes(#[verifier::truncate] ((4i64 * (length as i64)) as u64)) {
            Ok(()) => {},
            Err(e) => {
                return Err(e);
            },
        }
        let next_depth = depth + 1;
        let ghost s5 = read.remaining();
        let ghost p5 = read.position();
        let ghost c3 = accounter.current();
        proof {
            crate::transport::lemma_skip_skip(old(read).data_seq(), p0, 5);
            assert(s5 == s0.skip(5));
            assert(s0.skip(1).take(4) =~= s0.subrange(1, 5));
            assert(s0.take(5).skip(1).take(4) =~= s0.subrange(1, 5));
        }
        let mut v: Vec<Tag> = Vec::new();
        let mut i: i32 = 0;
        proof {
            assert(tags_model(v@) =~= Seq::<TagModel>::empty());
            match spec_tag_run_parse(s5, k, length as int, next_depth, lim, c3) {
                Ok((t, n, c)) => {
                    assert(Seq::<TagModel>::empty() + t =~= t);
                },
                Err(_) => {},
            }
        }
        while i < length
            invariant
                read.data_seq() == old(read).data_seq(),
                accounter.limit() == lim,
                0 <= p5 <= read.position() <= read.data_seq().len(),
                s5 == old(read).data_seq().skip(p5),
                0 <= i,
                length >= 0 ==> i <= length,
                length < 0 ==> i == 0,
                v@.len() == i,
                spec_tag_run_parse(s5, k, length as int, next_depth, lim, c3) == (
                match spec_tag_run_parse(
                    read.remaining(),
                    k,
                    length - i,
                    next_depth,
                    lim,
                    accounter.current(),
                ) {
                    Ok((tail, n, c)) => Ok::<_, TransportError>(
                        (tags_model(v@) + tail, (read.position() - p5) + n, c),
                    ),
                    Err(e) => Err(e),
                }),
            decreases length - i,
        {
            let ghost r_i = read.remaining();
            let ghost pos_i = read.position();
            match load_tag(read, k, next_depth, accounter) {
                Ok(t) => {
                    proof {
                        let d = read.position() - pos_i;
                        assert(r_i == old(read).data_seq().skip(pos_i));
                        crate::transport::lemma_skip_skip(old(read).data_seq(), pos_i, d);
                        assert(read.remaining() == r_i.skip(d));
                        lemma_tags_model_index(v@);
                        lemma_tags_model_index(v@.push(t));
                        assert(tags_model(v@.push(t)) =~= tags_model(v@) + seq![tag_model(t)]);
                        match spec_tag_run_parse(
                            read.remaining(),
                            k,
                            length - i - 1,
                            next_depth,
                            lim,
                            accounter.current(),
                        ) {
                            Ok((t2, n2, cc)) => {
                                assert((tags_model(v@) + seq![tag_model(t)]) + t2 =~= tags_model(
                                    v@,
                                ) + (seq![tag_model(t)] + t2));
                            },
                            Err(_) => {},
                        }
                    }
                    v.push(t);
                    i = i + 1;
                },
                Err(e) => {
                    return Err(e);
                },
            }
        }
        proof {
            match spec_tag_run_parse(
                read.remaining(),
                k,
                length - i,
                next_depth,
                lim,
                accounter.current(),
            ) {
                Ok((tail, n, c)) => {
                    assert(tail =~= Seq::<TagModel>::empty());
                    assert(tags_model(v@) + tail =~= tags_model(v@));
                },
                Err(_) => {},
            }
        }
        Ok(Tag::TagList((k, v)))
    } else if bit == 10 {
        match accounter.account_bytes(48) {
            Ok(()) => {},
            Err(e) => {
                return Err(e);
            },
        }
        if depth > 512 {
            return NbtError::complex_tag();
        }
        let next_depth = depth + 1;
        let ghost c2 = accounter.current();
        let mut entries: Vec<(String, Tag)> = Vec::new();
        proof {
            assert(entries_model(entries@) =~= Seq::<(Seq<char>, TagModel)>::empty());
            match spec_compound_parse(s0, depth, lim, c2) {
                Ok((t, n, c)) => {
                    assert(Seq::<(Seq<char>, TagModel)>::empty() + t =~= t);
                },
                Err(_) => {},
            }
        }
        #[verifier::loop_isolation(true)]
        loop
            invariant_except_break
                bit == 10,
                depth <= 512,
                p0 == old(read).position(),
                lim == old(accounter).limit(),
                cur0 == old(accounter).current(),
                spec_account(lim, cur0, 48) == Ok::<u64, TransportError>(c2),
                read.data_seq() == old(read).data_seq(),
                accounter.limit() == lim,
                0 <= p0 <= read.position() <= read.data_seq().len(),
                s0 == old(read).data_seq().skip(p0),
                s0 == old(read).remaining(),
                next_depth == depth + 1,
                spec_compound_parse(s0, depth, lim, c2) == (match spec_compound_parse(
                    read.remaining(),
                    depth,
                    lim,
                    accounter.current(),
                ) {
                    Ok((tail, n, c)) => Ok::<_, TransportError>(
                        (
                            entries_model(entries@) + tail,
                            (read.position() - p0) + n,
                            c,
                        ),
                    ),
                    Err(e) => Err(e),
                }),
            ensures
                bit == 10,
                depth <= 512,
                p0 == old(read).position(),
                lim == old(accounter).limit(),
                cur0 == old(accounter).current(),
                spec_account(lim, cur0, 48) == Ok::<u64, TransportError>(c2),
                read.data_seq() == old(read).data_seq(),
                accounter.limit() == lim,
                0 <= p0 <= read.position() <= read.data_seq().len(),
                s0 == old(read).remaining(),
                spec_compound_parse(s0, depth, lim, c2) == Ok::<_, TransportError>(
                    (
                        entries_model(entries@),
                        read.position() - p0,
                        accounter.current(),
                    ),
                ),
            decreases read.remaining().len(),
        {
            let ghost r_i = read.remaining();
            let ghost pos_i = read.position();
            let ghost cur_i = accounter.current();
            let tag_byte = match read.read_u8() {
                Ok(b) => b,
                Err(e) => {
                    return Err(e);
                },
            };
            if tag_byte == 0 {
                proof {
                    match spec_compound_parse(r_i, depth, lim, cur_i) {
                        Ok((tail, n, c)) => {
                            assert(tail =~= Seq::<(Seq<char>, TagModel)>::empty());
                            assert(entries_model(entries@) + tail =~= entries_model(entries@));
                        },
                        Err(_) => {},
                    }
                }
                break ;
            }
            match accounter.account_bytes(28) {
                Ok(()) => {},
                Err(e) => {
                    return Err(e);
                },
            }
            proof {
                assert(r_i == old(read).data_seq().skip(pos_i));
                crate::transport::lemma_skip_skip(old(read).data_seq(), pos_i, 1);
                assert(read.remaining() == r_i.skip(1));
            }
            let ghost pos_name = read.position();
            let key = match read_string(read, accounter) {
                Ok(s) => s,
                Err(e) => {
                    return Err(e);
                },
            };
            let ghost n1 = read.position() - pos_name;
            proof {
                crate::transport::lemma_skip_skip(old(read).data_seq(), pos_i, 1 + n1);
                assert(read.remaining() == r_i.skip(1 + n1));
            }
            let data = match load_tag(read, tag_byte, next_depth, accounter) {
                Ok(t) => t,
                Err(e) => {
                    return Err(e);
                },
            };
            let ghost n2 = read.position() - pos_name - n1;
            proof {
                crate::transport::lemma_skip_skip(old(read).data_seq(), pos_i, 1 + n1 + n2);
                assert(read.remaining() == r_i.skip(1 + n1 + n2));
            }
            match accounter.account_bytes(36) {
                Ok(()) => {},
                Err(e) => {
                    return Err(e);
                },
            }
            proof {
                lemma_entries_model_index(entries@);
                lemma_entries_model_index(entries@.push((key, data)));
                assert(entries_model(entries@.push((key, data))) =~= entries_model(entries@)
                    + seq![(key@, tag_model(data))]);
                match spec_compound_parse(
                    read.remaining(),
                    depth,
                    lim,
                    accounter.current(),
                ) {
                    Ok((t2, n3, cc)) => {
                        assert((entries_model(entries@) + seq![(key@, tag_model(data))]) + t2
                            =~= entries_model(entries@) + (seq![(key@, tag_model(data))] + t2));
                    },
                    Err(_) => {},
                }
            }
            entries.push((key, data));
        }
        Ok(Tag::CompoundTag(entries))
    } else if bit == 11 {
        match accounter.account_bytes(24) {
            Ok(()) => {},
            Err(e) => {
                return Err(e);
            },
        }
        let len = match crate::delegate::primitive::read_u32_be(read) {
            Ok(x) => #[verifier::truncate] (x as i32),
            Err(e) => {
                return Err(e);
            },
        };
        match accounter.account_bytes(#[verifier::truncate] ((4i64 * (len as i64)) as u64)) {
            Ok(()) => {},
            Err(e) => {
                return Err(e);
            },
        }
        let ghost s4 = read.remaining();
        let ghost p4 = read.position();
        proof {
            crate::transport::lemma_skip_skip(old(read).data_seq(), p0, 4);
            assert(s4 == s0.skip(4));
        }
        let mut v: Vec<i32> = Vec::new();
        let mut i: i32 = 0;
        proof {
            match spec_i32_run_parse(s4, len as int) {
                Ok((t, n)) => {
                    assert(Seq::<i32>::empty() + t =~= t);
                    assert(v@ =~= Seq::<i32>::empty());
                },
                Err(_) => {},
            }
        }
        while i < len
            invariant
                read.data_seq() == old(read).data_seq(),
                accounter.limit() == lim,
                0 <= p4 <= read.position() <= read.data_seq().len(),
                s4 == old(read).data_seq().skip(p4),
                0 <= i,
                len >= 0 ==> i <= len,
                len < 0 ==> i == 0,
                v@.len() == i,
                spec_i32_run_parse(s4, len as int) == (match spec_i32_run_parse(
                    read.remaining(),
                    len - i,
                ) {
                    Ok((tail, n)) => Ok::<_, TransportError>(
                        (v@ + tail, (read.position() - p4) + n),
                    ),
                    Err(e) => Err(e),
                }),
            decreases len - i,
        {
            let ghost r_i = read.remaining();
            let ghost pos_i = read.position();
            match crate::delegate::primitive::read_u32_be(read) {
                Ok(x) => {
                    proof {
                        assert(r_i == old(read).data_seq().skip(pos_i));
                        crate::transport::lemma_skip_skip(old(read).data_seq(), pos_i, 4);
                        assert(read.remaining() == r_i.skip(4));
                        assert(v@.push((x as i32) as i32) =~= v@ + seq![(x as i32) as i32]);
                        match spec_i32_run_parse(read.remaining(), len - i - 1) {
                            Ok((t2, n2)) => {
                                assert((v@ + seq![(x as i32) as i32]) + t2 =~= v@ + (seq![
                                    (x as i32) as i32,
                                ] + t2));
                            },
                            Err(_) => {},
                        }
                    }
                    v.push(#[verifier::truncate] (x as i32));
                    i = i + 1;
                },
                Err(e) => {
                    return Err(e);
                },
            }
        }
        proof {
            match spec_i32_run_parse(read.remaining(), len - i) {
                Ok((tail, n)) => {
                    assert(tail =~= Seq::<i32>::empty());
                    assert(v@ + tail =~= v@);
                },
                Err(_) => {},
            }
        }
        Ok(Tag::TagIntArray(v))
    } else if bit == 12 {
        match accounter.account_bytes(24) {
            Ok(()) => {},
            Err(e) => {
                return Err(e);
            },
        }
        let len = match crate::delegate::primitive::read_u32_be(read) {
            Ok(x) => #[verifier::truncate] (x as i32),
            Err(e) => {
                return Err(e);
            },
        };
        match accounter.account_bytes(#[verifier::truncate] ((8i64 * (len as i64)) as u64)) {
            Ok(()) => {},
            Err(e) => {
                return Err(e);
            },
        }
        let ghost s4 = read.remaining();
        let ghost p4 = read.position();
        proof {
            crate::transport::lemma_skip_skip(old(read).data_seq(), p0, 4);
            assert(s4 == s0.skip(4));
        }
        let mut v: Vec<i64> = Vec::new();
        let mut i: i32 = 0;
        proof {
            match spec_i64_run_parse(s4, len as int) {
                Ok((t, n)) => {
                    assert(Seq::<i64>::empty() + t =~= t);
                    assert(v@ =~= Seq::<i64>::empty());
                },
                Err(_) => {},
            }
        }
        while i < len
            invariant
                read.data_seq() == old(read).data_seq(),
                accounter.limit() == lim,
                0 <= p4 <= read.position() <= read.data_seq().len(),
                s4 == old(read).data_seq().skip(p4),
                0 <= i,
                len >= 0 ==> i <= len,
                len < 0 ==> i == 0,
                v@.len() == i,
                spec_i64_run_parse(s4, len as int) == (match spec_i64_run_parse(
                    read.remaining(),
                    len - i,
                ) {
                    Ok((tail, n)) => Ok::<_, TransportError>(
                        (v@ + tail, (read.position() - p4) + n),
                    ),
                    Err(e) => Err(e),
                }),
            decreases len - i,
        {
            let ghost r_i = read.remaining();
            let ghost pos_i = read.position();
            match crate::delegate::primitive::read_u64_be(read) {
                Ok(x) => {
                    proof {
                        assert(r_i == old(read).data_seq().skip(pos_i));
                        crate::transport::lemma_skip_skip(old(read).data_seq(), pos_i, 8);
                        assert(read.remaining() == r_i.skip(8));
                        assert(v@.push((x as i64) as i64) =~= v@ + seq![(x as i64) as i64]);
                        match spec_i64_run_parse(read.remaining(), len - i - 1) {
                            Ok((t2, n2)) => {
                                assert((v@ + seq![(x as i64) as i64]) + t2 =~= v@ + (seq![
                                    (x as i64) as i64,
                                ] + t2));
                            },
                            Err(_) => {},
                        }
                    }
                    v.push(#[verifier::truncate] (x as i64));
                    i = i + 1;
                },
                Err(e) => {
                    return Err(e);
                },
            }
        }
        proof {
            match spec_i64_run_parse(read.remaining(), len - i) {
                Ok((tail, n)) => {
                    assert(tail =~= Seq::<i64>::empty());
                    assert(v@ + tail =~= v@);
                },
                Err(_) => {},
            }
        }
        Ok(Tag::TagLongArray(v))
    } else {
        NbtError::invalid_tag_bit(bit)
    }
}


/// The larger of two counts.
pub open spec fn nat_max(a: nat, b: nat) -> nat {
    if a >= b {
        a
    } else {
        b
    }
}

/// The structural conditions a tag must meet for its encoding to decode
/// back to it: texts must survive the modified-UTF-8 codec, list members
/// must match their declared kind, and compounds must not carry the
/// termination sentinel as a value.
pub open spec fn spec_tag_valid(m: TagModel) -> bool
    decreases m,
{
    match m {
        TagModel::Text(text) => cesu8_faithful(text),
        TagModel::List(k, elems) => spec_tag_run_valid(elems, k),
        TagModel::Compound(entries) => spec_compound_valid(entries),
        _ => true,
    }
}

/// Whether every member of a run is valid and has the declared kind.
pub open spec fn spec_tag_run_valid(elems: Seq<TagModel>, k: u8) -> bool
    decreases elems,
{
    elems.len() == 0 || (spec_tag_bit(elems[0]) == k && spec_tag_valid(elems[0])
        && spec_tag_run_valid(elems.drop_first(), k))
}

/// Whether every entry of a compound is valid: a faithful name and a valid
/// value that is not the termination sentinel.
pub open spec fn spec_compound_valid(entries: Seq<(Seq<char>, TagModel)>) -> bool
    decreases entries,
{
    entries.len() == 0 || (spec_tag_bit(entries[0].1) != 0 && cesu8_faithful(entries[0].0)
        && spec_tag_valid(entries[0].1) && spec_compound_valid(entries.drop_first()))
}

/// The nesting height of a tag: how many list or compound levels it adds.
pub open spec fn spec_tag_height(m: TagModel) -> nat
    decreases m,
{
    match m {
        TagModel::List(k, elems) => 1 + spec_tag_run_height(elems),
        TagModel::Compound(entries) => 1 + spec_compound_height(entries),
        _ => 0,
    }
}

/// The greatest height among a run's members.
pub open spec fn spec_tag_run_height(elems: Seq<TagModel>) -> nat
    decreases elems,
{
    if elems.len() == 0 {
        0
    } else {
        nat_max(spec_tag_height(elems[0]), spec_tag_run_height(elems.drop_first()))
    }
}

/// The greatest height among a compound's values.
pub open spec fn spec_compound_height(entries: Seq<(Seq<char>, TagModel)>) -> nat
    decreases entries,
{
    if entries.len() == 0 {
        0
    } else {
        nat_max(spec_tag_height(entries[0].1), spec_compound_height(entries.drop_first()))
    }
}

/// The in-memory byte length the accountant debits for a decoded text.
pub open spec fn spec_text_weight(text: Seq<char>) -> u64 {
    ((encode_utf8(text).len() as usize) as u64)
}

/// The total budget a tag debits while being decoded: the per-node weights
/// plus the variable payload weights, in debit order.
pub open spec fn spec_tag_cost(m: TagModel) -> nat
    decreases m,
{
    match m {
        TagModel::End => 8,
        TagModel::Byte(..) => 9,
        TagModel::Short(..) => 10,
        TagModel::Int(..) => 12,
        TagModel::Long(..) => 16,
        TagModel::Float(..) => 12,
        TagModel::Double(..) => 16,
        TagModel::ByteArray(v) => (24 + v.len()) as nat,
        TagModel::Text(text) => (36 + spec_text_weight(text)) as nat,
        TagModel::List(k, elems) => (37 + 4 * elems.len() + spec_tag_run_cost(elems)) as nat,
        TagModel::Compound(entries) => (48 + spec_compound_cost(entries)) as nat,
        TagModel::IntArray(v) => (24 + 4 * v.len()) as nat,
        TagModel::LongArray(v) => (24 + 8 * v.len()) as nat,
    }
}

/// The total budget a run's members debit.
pub open spec fn spec_tag_run_cost(elems: Seq<TagModel>) -> nat
    decreases elems,
{
    if elems.len() == 0 {
        0
    } else {
        spec_tag_cost(elems[0]) + spec_tag_run_cost(elems.drop_first())
    }
}

/// The total budget a compound's entries debit: for each entry the entry
/// weights, the decoded name's byte length, and the value's cost.
pub open spec fn spec_compound_cost(entries: Seq<(Seq<char>, TagModel)>) -> nat
    decreases entries,
{
    if entries.len() == 0 {
        0
    } else {
        (64 + spec_text_weight(entries[0].0) + spec_tag_cost(entries[0].1) + spec_compound_cost(
            entries.drop_first(),
        )) as nat
    }
}

/// The running total after debiting `cost`: unchanged when the guard is
/// disabled.
pub open spec fn spec_after(limit: u64, cur: u64, cost: nat) -> u64 {
    if limit == 0 {
        cur
    } else {
        (cur + cost) as u64
    }
}

/// A successful text parse consumes at least its two length bytes and no
/// more than the input.
pub proof fn lemma_nbt_string_parse_bounds(s: Seq<u8>, limit: u64, cur: u64)
    ensures
        spec_nbt_string_parse(s, limit, cur) matches Ok((text, n, c)) ==> 2 <= n <= s.len(),
{
}

/// Round trip for a 32-bit run: decoding its bytes yields the values back,
/// whatever bytes follow.
pub proof fn lemma_i32_run_round_trip(v: Seq<i32>, rest: Seq<u8>)
    ensures
        spec_i32_run_parse(spec_i32_run_wire(v) + rest, v.len() as int) == Ok::<
            (Seq<i32>, int),
            TransportError,
        >((v, spec_i32_run_wire(v).len() as int)),
    decreases v.len(),
{
    lemma_i32_run_wire_len(v);
    if v.len() == 0 {
        assert(v =~= Seq::<i32>::empty());
    } else {
        let x = v[0];
        let w0 = spec_i32_be(x);
        let wt = spec_i32_run_wire(v.drop_first());
        let st = (w0 + wt) + rest;
        assert(st =~= w0 + (wt + rest));
        assert(st.take(4) =~= crate::delegate::primitive::spec_u32_be(x as u32));
        crate::delegate::primitive::lemma_u32_be_round_trip(x as u32);
        crate::delegate::primitive::lemma_i32_cast_round_trip(x);
        assert(st.skip(4) =~= wt + rest);
        lemma_i32_run_round_trip(v.drop_first(), rest);
        assert(seq![x] + v.drop_first() =~= v);
    }
}

/// Round trip for a 64-bit run: decoding its bytes yields the values back,
/// whatever bytes follow.
pub proof fn lemma_i64_run_round_trip(v: Seq<i64>, rest: Seq<u8>)
    ensures
        spec_i64_run_parse(spec_i64_run_wire(v) + rest, v.len() as int) == Ok::<
            (Seq<i64>, int),
            TransportError,
        >((v, spec_i64_run_wire(v).len() as int)),
    decreases v.len(),
{
    lemma_i64_run_wire_len(v);
    if v.len() == 0 {
        assert(v =~= Seq::<i64>::empty());
    } else {
        let x = v[0];
        let w0 = spec_i64_be(x);
        let wt = spec_i64_run_wire(v.drop_first());
        let st = (w0 + wt) + rest;
        assert(st =~= w0 + (wt + rest));
        assert(st.take(8) =~= crate::delegate::primitive::spec_u64_be(x as u64));
        crate::delegate::primitive::lemma_u64_be_round_trip(x as u64);
        crate::delegate::primitive::lemma_i64_cast_round_trip(x);
        assert(st.skip(8) =~= wt + rest);
        lemma_i64_run_round_trip(v.drop_first(), rest);
        assert(seq![x] + v.drop_first() =~= v);
    }
}


/// A successful 32-bit run parse consumes no more bytes than the input.
pub proof fn lemma_i32_run_parse_bounds(s: Seq<u8>, n: int)
    ensures
        spec_i32_run_parse(s, n) matches Ok((v, m)) ==> 0 <= m <= s.len(),
    decreases n,
{
    if n > 0 && s.len() >= 4 {
        lemma_i32_run_parse_bounds(s.skip(4), n - 1);
    }
}

/// A successful 64-bit run parse consumes no more bytes than the input.
pub proof fn lemma_i64_run_parse_bounds(s: Seq<u8>, n: int)
    ensures
        spec_i64_run_parse(s, n) matches Ok((v, m)) ==> 0 <= m <= s.len(),
    decreases n,
{
    if n > 0 && s.len() >= 8 {
        lemma_i64_run_parse_bounds(s.skip(8), n - 1);
    }
}

/// A successful tag parse consumes no more bytes than the input.
pub proof fn lemma_tag_parse_bounds(s: Seq<u8>, bit: u8, depth: i32, limit: u64, cur: u64)
    ensures
        spec_tag_parse(s, bit, depth, limit, cur) matches Ok((m, n, c)) ==> 0 <= n <= s.len(),
    decreases s.len(), 2int, 0int,
{
    if bit == 8 {
        match spec_account(limit, cur, 36) {
            Ok(c2) => {
                lemma_nbt_string_parse_bounds(s, limit, c2);
            },
            Err(_) => {},
        }
    } else if bit == 9 {
        match spec_account(limit, cur, 37) {
            Ok(c2) => {
                if depth <= 512 && s.len() >= 5 {
                    let count = crate::delegate::primitive::spec_u32_from_be(
                        s.skip(1).take(4),
                    ) as i32;
                    match spec_account(limit, c2, (4 * (count as i64)) as u64) {
                        Ok(c3) => {
                            lemma_tag_run_parse_bounds(
                                s.skip(5),
                                s[0],
                                count as int,
                                (depth + 1) as i32,
                                limit,
                                c3,
                            );
                        },
                        Err(_) => {},
                    }
                }
            },
            Err(_) => {},
        }
    } else if bit == 10 {
        match spec_account(limit, cur, 48) {
            Ok(c2) => {
                if depth <= 512 {
                    lemma_compound_parse_bounds(s, depth, limit, c2);
                }
            },
            Err(_) => {},
        }
    } else if bit == 11 {
        if s.len() >= 4 {
            let len = crate::delegate::primitive::spec_u32_from_be(s.take(4)) as i32;
            lemma_i32_run_parse_bounds(s.skip(4), len as int);
        }
    } else if bit == 12 {
        if s.len() >= 4 {
            let len = crate::delegate::primitive::spec_u32_from_be(s.take(4)) as i32;
            lemma_i64_run_parse_bounds(s.skip(4), len as int);
        }
    }
}

/// A successful run parse consumes no more bytes than the input.
pub proof fn lemma_tag_run_parse_bounds(
    s: Seq<u8>,
    bit: u8,
    n: int,
    depth: i32,
    limit: u64,
    cur: u64,
)
    ensures
        spec_tag_run_parse(s, bit, n, depth, limit, cur) matches Ok((v, m, c)) ==> 0 <= m
            <= s.len(),
    decreases s.len(), 3int, n,
{
    if n > 0 {
        lemma_tag_parse_bounds(s, bit, depth, limit, cur);
        match spec_tag_parse(s, bit, depth, limit, cur) {
            Ok((x, k, c2)) => {
                if 0 <= k && k <= s.len() {
                    lemma_tag_run_parse_bounds(s.skip(k), bit, n - 1, depth, limit, c2);
                }
            },
            Err(_) => {},
        }
    }
}

/// A successful compound parse consumes no more bytes than the input.
pub proof fn lemma_compound_parse_bounds(s: Seq<u8>, depth: i32, limit: u64, cur: u64)
    ensures
        spec_compound_parse(s, depth, limit, cur) matches Ok((v, m, c)) ==> 1 <= m <= s.len(),
    decreases s.len(), 1int, 0int,
{
    if s.len() >= 1 && s[0] != 0 {
        match spec_account(limit, cur, 28) {
            Ok(c2) => {
                lemma_nbt_string_parse_bounds(s.skip(1), limit, c2);
                match spec_nbt_string_parse(s.skip(1), limit, c2) {
                    Ok((name, n1, c3)) => {
                        if 0 <= n1 && 1 + n1 <= s.len() {
                            lemma_tag_parse_bounds(
                                s.skip(1 + n1),
                                s[0],
                                (depth + 1) as i32,
                                limit,
                                c3,
                            );
                            match spec_tag_parse(s.skip(1 + n1), s[0], (depth + 1) as i32, limit, c3) {
                                Ok((value, n2, c4)) => {
                                    if 0 <= n2 && 1 + n1 + n2 <= s.len() {
                                        match spec_account(limit, c4, 36) {
                                            Ok(c5) => {
                                                lemma_compound_parse_bounds(
                                                    s.skip(1 + n1 + n2),
                                                    depth,
                                                    limit,
                                                    c5,
                                                );
                                            },
                                            Err(_) => {},
                                        }
                                    }
                                },
                                Err(_) => {},
                            }
                        }
                    },
                    Err(_) => {},
                }
            },
            Err(_) => {},
        }
    }
}


/// Round trip for one tag: parsing the wire form of a valid, encodable tag
/// at an admissible depth and within budget yields the tag back, consuming
/// exactly its wire form and debiting exactly its cost, whatever bytes
/// follow. With the budget guard disabled (a zero limit) the premise on the
/// running total is vacuous: no document can fail the budget.
#[verifier::rlimit(100)]
pub proof fn lemma_tag_round_trip(m: TagModel, rest: Seq<u8>, depth: i32, limit: u64, cur: u64)
    requires
        spec_tag_encode_ok(m),
        spec_tag_valid(m),
        0 <= depth,
        depth + spec_tag_height(m) <= 513,
        limit != 0 ==> cur + spec_tag_cost(m) <= limit,
    ensures
        spec_tag_parse(spec_tag_wire(m) + rest, spec_tag_bit(m), depth, limit, cur) == Ok::<
            (TagModel, int, u64),
            TransportError,
        >((m, spec_tag_wire(m).len() as int, spec_after(limit, cur, spec_tag_cost(m)))),
    decreases m,
{
    let w = spec_tag_wire(m);
    let s = w + rest;
    match m {
        TagModel::End => {
            assert(w.len() == 0);
        },
        TagModel::Byte(b) => {
            assert(s[0] == b);
        },
        TagModel::Short(x) => {
            assert(s.take(2) =~= spec_u16_be(x));
            lemma_u16_be_round_trip(x);
        },
        TagModel::Int(x) => {
            assert(s.take(4) =~= crate::delegate::primitive::spec_u32_be(x as u32));
            crate::delegate::primitive::lemma_u32_be_round_trip(x as u32);
            crate::delegate::primitive::lemma_i32_cast_round_trip(x);
        },
        TagModel::Long(x) => {
            assert(s.take(8) =~= crate::delegate::primitive::spec_u64_be(x as u64));
            crate::delegate::primitive::lemma_u64_be_round_trip(x as u64);
            crate::delegate::primitive::lemma_i64_cast_round_trip(x);
        },
        TagModel::Float(x) => {
            assert(s.take(4) =~= crate::delegate::primitive::spec_u32_be(x));
            crate::delegate::primitive::lemma_u32_be_round_trip(x);
        },
        TagModel::Double(x) => {
            assert(s.take(8) =~= crate::delegate::primitive::spec_u64_be(x));
            crate::delegate::primitive::lemma_u64_be_round_trip(x);
        },
        TagModel::ByteArray(v) => {
            let len32 = v.len() as i32;
            assert(s.take(4) =~= crate::delegate::primitive::spec_u32_be(len32 as u32));
            crate::delegate::primitive::lemma_u32_be_round_trip(len32 as u32);
            crate::delegate::primitive::lemma_i32_cast_round_trip(len32);
            assert(s.skip(4) =~= v + rest);
            assert((v + rest).take(v.len() as int) =~= v);
        },
        TagModel::Text(text) => {
            match spec_account(limit, cur, 36) {
                Ok(c2) => {
                    lemma_nbt_string_round_trip(text, rest, limit, c2);
                },
                Err(e) => {
                    assert(false);
                },
            }
        },
        TagModel::List(k, elems) => {
            let len32 = elems.len() as i32;
            let wrun = spec_tag_run_wire(elems);
            assert(s[0] == k);
            assert(s.skip(1).take(4) =~= crate::delegate::primitive::spec_u32_be(len32 as u32));
            crate::delegate::primitive::lemma_u32_be_round_trip(len32 as u32);
            crate::delegate::primitive::lemma_i32_cast_round_trip(len32);
            assert(s.skip(5) =~= wrun + rest);
            assert(s.len() >= 5);
            match spec_account(limit, cur, 37) {
                Ok(c2) => {
                    match spec_account(limit, c2, (4 * (len32 as i64)) as u64) {
                        Ok(c3) => {
                            lemma_tag_run_round_trip(
                                elems,
                                k,
                                rest,
                                (depth + 1) as i32,
                                limit,
                                c3,
                            );
                        },
                        Err(e) => {
                            assert(false);
                        },
                    }
                },
                Err(e) => {
                    assert(false);
                },
            }
        },
        TagModel::Compound(entries) => {
            let wc = spec_compound_wire(entries);
            assert(s =~= wc + seq![0u8] + rest);
            match spec_account(limit, cur, 48) {
                Ok(c2) => {
                    lemma_compound_round_trip(entries, rest, depth, limit, c2);
                },
                Err(e) => {
                    assert(false);
                },
            }
        },
        TagModel::IntArray(v) => {
            let len32 = v.len() as i32;
            assert(s.take(4) =~= crate::delegate::primitive::spec_u32_be(len32 as u32));
            crate::delegate::primitive::lemma_u32_be_round_trip(len32 as u32);
            crate::delegate::primitive::lemma_i32_cast_round_trip(len32);
            assert(s.skip(4) =~= spec_i32_run_wire(v) + rest);
            lemma_i32_run_round_trip(v, rest);
            lemma_i32_run_wire_len(v);
        },
        TagModel::LongArray(v) => {
            let len32 = v.len() as i32;
            assert(s.take(4) =~= crate::delegate::primitive::spec_u32_be(len32 as u32));
            crate::delegate::primitive::lemma_u32_be_round_trip(len32 as u32);
            crate::delegate::primitive::lemma_i32_cast_round_trip(len32);
            assert(s.skip(4) =~= spec_i64_run_wire(v) + rest);
            lemma_i64_run_round_trip(v, rest);
            lemma_i64_run_wire_len(v);
        },
    }
}

/// Round trip for a run of same-kind tags, threading the budget through the
/// members in order.
#[verifier::rlimit(100)]
pub proof fn lemma_tag_run_round_trip(
    elems: Seq<TagModel>,
    k: u8,
    rest: Seq<u8>,
    depth: i32,
    limit: u64,
    cur: u64,
)
    requires
        spec_tag_run_encode_ok(elems),
        spec_tag_run_valid(elems, k),
        0 <= depth,
        depth + spec_tag_run_height(elems) <= 513,
        limit != 0 ==> cur + spec_tag_run_cost(elems) <= limit,
    ensures
        spec_tag_run_parse(spec_tag_run_wire(elems) + rest, k, elems.len() as int, depth, limit, cur)
            == Ok::<(Seq<TagModel>, int, u64), TransportError>(
            (
                elems,
                spec_tag_run_wire(elems).len() as int,
                spec_after(limit, cur, spec_tag_run_cost(elems)),
            ),
        ),
    decreases elems,
{
    if elems.len() == 0 {
        assert(elems =~= Seq::<TagModel>::empty());
        assert(spec_tag_run_wire(elems).len() == 0);
    } else {
        let e0 = elems[0];
        let tail = elems.drop_first();
        let w0 = spec_tag_wire(e0);
        let wt = spec_tag_run_wire(tail);
        let st = (w0 + wt) + rest;
        assert(st =~= w0 + (wt + rest));
        lemma_tag_round_trip(e0, wt + rest, depth, limit, cur);
        let c1 = spec_after(limit, cur, spec_tag_cost(e0));
        assert(st.skip(w0.len() as int) =~= wt + rest);
        lemma_tag_run_round_trip(tail, k, rest, depth, limit, c1);
        assert(seq![e0] + tail =~= elems);
        assert(spec_after(limit, c1, spec_tag_run_cost(tail)) == spec_after(
            limit,
            cur,
            spec_tag_run_cost(elems),
        ));
    }
}

/// Round trip for a compound's entries up to and including the terminating
/// zero byte, threading the budget through the entries in order.
#[verifier::rlimit(100)]
pub proof fn lemma_compound_round_trip(
    entries: Seq<(Seq<char>, TagModel)>,
    rest: Seq<u8>,
    depth: i32,
    limit: u64,
    cur: u64,
)
    requires
        spec_compound_encode_ok(entries),
        spec_compound_valid(entries),
        0 <= depth <= 512,
        depth + 1 + spec_compound_height(entries) <= 513,
        limit != 0 ==> cur + spec_compound_cost(entries) <= limit,
    ensures
        spec_compound_parse(spec_compound_wire(entries) + seq![0u8] + rest, depth, limit, cur)
            == Ok::<(Seq<(Seq<char>, TagModel)>, int, u64), TransportError>(
            (
                entries,
                spec_compound_wire(entries).len() + 1int,
                spec_after(limit, cur, spec_compound_cost(entries)),
            ),
        ),
    decreases entries,
{
    let s = spec_compound_wire(entries) + seq![0u8] + rest;
    if entries.len() == 0 {
        assert(entries =~= Seq::<(Seq<char>, TagModel)>::empty());
        assert(spec_compound_wire(entries).len() == 0);
        assert(s[0] == 0);
    } else {
        let e0 = entries[0];
        let tail = entries.drop_first();
        let kb = spec_tag_bit(e0.1);
        let wname = spec_nbt_string_wire(e0.0);
        let wval = spec_tag_wire(e0.1);
        let wtail = spec_compound_wire(tail);
        assert(s[0] == kb);
        assert(kb != 0);
        match spec_account(limit, cur, 28) {
            Ok(c2) => {
                assert(s.skip(1) =~= wname + (wval + (wtail + seq![0u8] + rest)));
                lemma_nbt_string_round_trip(
                    e0.0,
                    wval + (wtail + seq![0u8] + rest),
                    limit,
                    c2,
                );
                let n1 = wname.len() as int;
                let c3 = spec_after(limit, c2, spec_text_weight(e0.0) as nat);
                assert(1 + n1 <= s.len());
                assert(s.skip(1 + n1) =~= wval + (wtail + seq![0u8] + rest));
                assert(spec_tag_height(e0.1) <= spec_compound_height(entries));
                lemma_tag_round_trip(e0.1, wtail + seq![0u8] + rest, (depth + 1) as i32, limit, c3);
                let n2 = wval.len() as int;
                let c4 = spec_after(limit, c3, spec_tag_cost(e0.1));
                assert(1 + n1 + n2 <= s.len());
                match spec_account(limit, c4, 36) {
                    Ok(c5) => {
                        assert(s.skip(1 + n1 + n2) =~= wtail + seq![0u8] + rest);
                        lemma_compound_round_trip(tail, rest, depth, limit, c5);
                        assert(seq![(e0.0, e0.1)] + tail =~= entries);
                        assert(spec_after(limit, c5, spec_compound_cost(tail)) == spec_after(
                            limit,
                            cur,
                            spec_compound_cost(entries),
                        ));
                    },
                    Err(e) => {
                        assert(false);
                    },
                }
            },
            Err(e) => {
                assert(false);
            },
        }
    }
}


impl Tag {
    /// Builds a text tag from a string slice.
    pub fn string(into: &str) -> (r: Tag)
        ensures
            tag_model(r) == TagModel::Text(into@),
    {
        Tag::TagString(into.to_owned())
    }

    /// Builds a compound tag from named values, in the given order.
    pub fn compound_tag(data: Vec<(String, Tag)>) -> (r: Tag)
        ensures
            tag_model(r) == TagModel::Compound(entries_model(data@)),
    {
        Tag::CompoundTag(data)
    }
}

/// The document delegate: an optional compound tree framed as one tag-kind
/// byte (zero for absent, the compound kind for present), an always-empty
/// root name, and the compound payload. Decoding wires a fresh accountant
/// with ceiling `LIMIT` to bound the decoded document's in-memory size; a
/// `LIMIT` of zero disables the guard.
pub struct EnsuredCompoundTag<const LIMIT: u64>;

impl<C, const LIMIT: u64> PacketComponent<C> for EnsuredCompoundTag<LIMIT> {
    type ComponentType = Option<Tag>;

    type Model = Option<TagModel>;

    open spec fn model(v: Option<Tag>) -> Option<TagModel> {
        match v {
            Some(t) => Some(tag_model(t)),
            None => None,
        }
    }

    open spec fn wire(m: Option<TagModel>, c: C) -> Seq<u8> {
        match m {
            Some(t) => seq![10u8] + spec_nbt_string_wire(Seq::<char>::empty()) + spec_tag_wire(t),
            None => seq![0u8],
        }
    }

    open spec fn parse(s: Seq<u8>, c: C) -> Result<(Option<TagModel>, int), TransportError> {
        if s.len() == 0 {
            Err(TransportError::EOF)
        } else if s[0] == 0 {
            Ok((None, 1))
        } else if s[0] != 10 {
            Err(TransportError::NbtError(NbtError::InvalidTagBit(s[0])))
        } else {
            match spec_nbt_string_parse(s.skip(1), LIMIT, 0) {
                Ok((name, n1, c1)) => match spec_tag_parse(s.skip(1 + n1), 10, 0, LIMIT, c1) {
                    Ok((t, n2, c2)) => Ok((Some(t), 1 + n1 + n2)),
                    Err(e) => Err(e),
                },
                Err(e) => Err(e),
            }
        }
    }

    open spec fn encode_ok(m: Option<TagModel>, c: C) -> bool {
        match m {
            Some(t) => spec_tag_encode_ok(t) && spec_nbt_string_encode_ok(Seq::<char>::empty()),
            None => true,
        }
    }

    open spec fn encodable(m: Option<TagModel>, c: C) -> bool {
        match m {
            Some(t) => spec_tag_encode_ok(t) && spec_tag_valid(t) && spec_tag_bit(t) == 10
                && spec_tag_height(t) <= 513 && (LIMIT != 0 ==> spec_tag_cost(t) <= LIMIT)
                && spec_nbt_string_encode_ok(Seq::<char>::empty()) && cesu8_faithful(
                Seq::<char>::empty(),
            ),
            None => true,
        }
    }

    open spec fn size_constant(m: Option<TagModel>, c: C) -> bool {
        m is None
    }

    fn decode(context: &mut C, read: &mut ByteReader) -> (res: DraxResult<Option<Tag>>) {
        proof {
            use_type_invariant(&*read);
        }
        let b = match read.read_u8() {
            Ok(b) => b,
            Err(e) => {
                return Err(e);
            },
        };
        if b == 0 {
            return Ok(None);
        }
        if b != 10 {
            return NbtError::invalid_tag_bit(b);
        }
        let mut accounter = NbtAccounter::new(LIMIT);
        proof {
            crate::transport::lemma_skip_skip(
                old(read).data_seq(),
                old(read).position(),
                1,
            );
            assert(read.remaining() == old(read).remaining().skip(1));
        }
        let ghost pos_name = read.position();
        let name = match read_string(read, &mut accounter) {
            Ok(s) => s,
            Err(e) => {
                return Err(e);
            },
        };
        let ghost n1 = read.position() - pos_name;
        proof {
            crate::transport::lemma_skip_skip(
                old(read).data_seq(),
                old(read).position(),
                1 + n1,
            );
            assert(read.remaining() == old(read).remaining().skip(1 + n1));
        }
        let tag = match load_tag(read, b, 0, &mut accounter) {
            Ok(t) => t,
            Err(e) => {
                return Err(e);
            },
        };
        Ok(Some(tag))
    }

    fn encode(component_ref: &Option<Tag>, context: &mut C, write: &mut Vec<u8>) -> (res:
        DraxResult<()>)
    {
        match component_ref {
            Some(tag) => {
                write.push(10);
                proof {
                    reveal_strlit("");
                    assert(""@ =~= Seq::<char>::empty());
                }
                match write_string(write, "") {
                    Ok(()) => {},
                    Err(e) => {
                        proof {
                            assert(false);
                        }
                        return Err(e);
                    },
                }
                match write_tag(write, tag) {
                    Ok(()) => {
                        proof {
                            assert(final(write)@ =~= old(write)@ + Self::wire(
                                <Self as PacketComponent<C>>::model(*component_ref),
                                *old(context),
                            ));
                        }
                        Ok(())
                    },
                    Err(e) => {
                        proof {
                            assert(final(write)@.take(old(write)@.len() as int) =~= old(write)@);
                        }
                        Err(e)
                    },
                }
            },
            None => {
                write.push(0);
                proof {
                    assert(final(write)@ =~= old(write)@ + seq![0u8]);
                }
                Ok(())
            },
        }
    }

    fn size(input: &Option<Tag>, context: &mut C) -> (res: DraxResult<Size>) {
        match input {
            Some(tag) => {
                proof {
                    reveal_strlit("");
                    assert(""@ =~= Seq::<char>::empty());
                }
                let name_size = match size_string("") {
                    Ok(n) => n,
                    Err(e) => {
                        return Err(e);
                    },
                };
                let tag_size = match size_tag(tag) {
                    Ok(n) => n,
                    Err(e) => {
                        return Err(e);
                    },
                };
                Ok(Size::Dynamic(sat_add(1, name_size)).add_bytes(tag_size))
            },
            None => Ok(Size::Constant(1)),
        }
    }

    proof fn lemma_parse_bounds(s: Seq<u8>, c: C) {
        if s.len() > 0 && s[0] == 10 {
            lemma_nbt_string_parse_bounds(s.skip(1), LIMIT, 0);
            match spec_nbt_string_parse(s.skip(1), LIMIT, 0) {
                Ok((name, n1, c1)) => {
                    lemma_tag_parse_bounds(s.skip(1 + n1), 10, 0, LIMIT, c1);
                },
                Err(_) => {},
            }
        }
    }

    proof fn lemma_round_trip(m: Option<TagModel>, c: C) {
        match m {
            Some(t) => {
                let wname = spec_nbt_string_wire(Seq::<char>::empty());
                let wt = spec_tag_wire(t);
                let w = Self::wire(m, c);
                assert(w =~= seq![10u8] + wname + wt);
                assert(w[0] == 10);
                assert(encode_utf8(Seq::<char>::empty()) =~= Seq::<u8>::empty());
                assert(spec_account(LIMIT, 0, 0) == Ok::<u64, TransportError>(0u64));
                assert(w.skip(1) =~= wname + wt);
                lemma_nbt_string_round_trip(Seq::<char>::empty(), wt, LIMIT, 0);
                assert(w.skip(1 + wname.len() as int) =~= wt + Seq::<u8>::empty());
                assert(wt + Seq::<u8>::empty() =~= wt);
                lemma_tag_round_trip(t, Seq::<u8>::empty(), 0, LIMIT, 0);
            },
            None => {},
        }
    }

    proof fn lemma_round_trip_prefix(m: Option<TagModel>, c: C, rest: Seq<u8>) {
        match m {
            Some(t) => {
                let wname = spec_nbt_string_wire(Seq::<char>::empty());
                let wt = spec_tag_wire(t);
                let w = Self::wire(m, c);
                let s = w + rest;
                assert(s[0] == 10);
                assert(encode_utf8(Seq::<char>::empty()) =~= Seq::<u8>::empty());
                assert(spec_account(LIMIT, 0, 0) == Ok::<u64, TransportError>(0u64));
                assert(s.skip(1) =~= wname + (wt + rest));
                lemma_nbt_string_round_trip(Seq::<char>::empty(), wt + rest, LIMIT, 0);
                assert(s.skip(1 + wname.len() as int) =~= wt + rest);
                lemma_tag_round_trip(t, rest, 0, LIMIT, 0);
                assert(w.len() == 1 + wname.len() + wt.len());
            },
            None => {
                let s = Self::wire(m, c) + rest;
                assert(s[0] == 0);
            },
        }
    }
}


/// A zero limit disables the byte-budget guard: debiting any amount always
/// succeeds and leaves the running total unchanged, so no document can fail
/// the budget.
pub proof fn lemma_unlimited_budget(cur: u64, bytes: u64)
    ensures
        spec_account(0, cur, bytes) == Ok::<u64, TransportError>(cur),
{
}

/// The recursion depth guard: a list or compound node past 512 levels of
/// nesting fails to decode with the tree-complexity error, right after its
/// per-node weight is debited and before any of its bytes are consumed.
pub proof fn lemma_depth_guard(s: Seq<u8>, bit: u8, depth: i32, limit: u64, cur: u64)
    requires
        bit == 9 || bit == 10,
        depth > 512,
    ensures
        spec_tag_parse(s, bit, depth, limit, cur) == (match spec_account(
            limit,
            cur,
            if bit == 9 {
                37u64
            } else {
                48u64
            },
        ) {
            Ok(c2) => Err::<(TagModel, int, u64), TransportError>(
                TransportError::NbtError(NbtError::ComplexTag),
            ),
            Err(e) => Err(e),
        }),
{
}

} // verus!
