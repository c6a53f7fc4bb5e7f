//! The variable-length integer codec: 32- and 64-bit signed integers in
//! 7-bits-per-byte continuation-flagged form, least-significant bits first.
//!
//! Both directions are built as resumable state machines that take or emit
//! one byte per step and keep their partial accumulator and bit offset
//! between steps, so a caller may suspend between any two byte transfers
//! (for instance when each scheduling turn delivers a single byte) without
//! losing progress. [`read_var_int`] and [`write_var_int`] are the loop
//! drivers over an in-memory buffer.

use vstd::prelude::*;

use crate::error::{DraxResult, TransportError};
use crate::transport::{add_consumed, ByteReader};

verus! {

/// The bytes a 32-bit value encodes to: low seven bits per byte, high bit
/// set while nonzero bits remain.
pub open spec fn spec_var32_wire_u(u: u32) -> Seq<u8>
    decreases u,
        via spec_var32_wire_u_decreases
{
    if u & 0xffff_ff80u32 == 0 {
        seq![u as u8]
    } else {
        seq![((u & 0x7f) | 0x80) as u8] + spec_var32_wire_u(u >> 7)
    }
}

#[via_fn]
proof fn spec_var32_wire_u_decreases(u: u32) {
    assert(u & 0xffff_ff80u32 != 0 ==> u >> 7 < u) by (bit_vector);
}

/// The bytes a 32-bit signed value encodes to, via its unsigned
/// reinterpretation.
pub open spec fn spec_var32_wire(v: i32) -> Seq<u8> {
    spec_var32_wire_u(v as u32)
}

/// The outcome of decoding a 32-bit variable-length integer from `s`, with
/// the partial accumulator `acc` and bit offset `offset` carried so far:
/// the value and consumed byte count, or the error.
pub open spec fn spec_var32_parse_at(s: Seq<u8>, acc: u32, offset: u32) -> Result<
    (i32, int),
    TransportError,
>
    decreases 42 - offset,
{
    if offset >= 35 {
        Err(TransportError::VarNumTooLarge)
    } else if s.len() == 0 {
        Err(TransportError::EOF)
    } else {
        let b = s[0];
        let acc2 = (acc | (((b & 0x7f) as u32) << offset)) as u32;
        if b & 0x80 == 0 {
            Ok((acc2 as i32, 1))
        } else {
            add_consumed(spec_var32_parse_at(s.skip(1), acc2, (offset + 7) as u32), 1)
        }
    }
}

/// The outcome of decoding a 32-bit variable-length integer from the start
/// of `s`.
pub open spec fn spec_var32_parse(s: Seq<u8>) -> Result<(i32, int), TransportError> {
    spec_var32_parse_at(s, 0, 0)
}

/// A successful parse consumes between one byte and all of the input.
pub proof fn lemma_var32_parse_bounds(s: Seq<u8>, acc: u32, offset: u32)
    ensures
        spec_var32_parse_at(s, acc, offset) matches Ok((v, n)) ==> 1 <= n <= s.len(),
    decreases 42 - offset,
{
    if offset < 35 && s.len() > 0 {
        let b = s[0];
        if b & 0x80 != 0 {
            let acc2 = (acc | (((b & 0x7f) as u32) << offset)) as u32;
            lemma_var32_parse_bounds(s.skip(1), acc2, (offset + 7) as u32);
        }
    }
}

/// The encoding of a 32-bit value is one to five bytes long.
pub proof fn lemma_var32_wire_len(u: u32)
    ensures
        1 <= spec_var32_wire_u(u).len() <= 5,
{
    let u1 = u >> 7;
    let u2 = u1 >> 7;
    let u3 = u2 >> 7;
    let u4 = u3 >> 7;
    assert((((u >> 7) >> 7) >> 7) >> 7 == u >> 28 && (u >> 28) & 0xffff_ff80u32 == 0) by (
    bit_vector);
    assert(spec_var32_wire_u(u4).len() == 1);
    assert(spec_var32_wire_u(u3).len() <= 2);
    assert(spec_var32_wire_u(u2).len() <= 3);
    assert(spec_var32_wire_u(u1).len() <= 4);
    assert(spec_var32_wire_u(u).len() <= 5);
}

/// Decoding an encoding with the accumulator and offset carried so far
/// yields the encoded bits placed at that offset, consuming the whole
/// encoding, whatever bytes follow.
proof fn lemma_var32_round_trip_at(u: u32, acc: u32, offset: u32, rest: Seq<u8>)
    requires
        offset == 0 || offset == 7 || offset == 14 || offset == 21 || offset == 28,
        u <= 0xffff_ffffu32 >> offset,
    ensures
        spec_var32_parse_at(spec_var32_wire_u(u) + rest, acc, offset) == Ok::<
            (i32, int),
            TransportError,
        >(((acc | (u << offset)) as i32, spec_var32_wire_u(u).len() as int)),
    decreases u,
{
    let s = spec_var32_wire_u(u) + rest;
    if u & 0xffff_ff80u32 == 0 {
        let b = u as u8;
        assert(b & 0x80 == 0 && ((b & 0x7f) as u32) == u) by (bit_vector)
            requires
                u & 0xffff_ff80u32 == 0 && b == u as u8,
        ;
        assert(s[0] == b);
    } else {
        let b = ((u & 0x7f) | 0x80) as u8;
        let u2 = u >> 7;
        let off2 = (offset + 7) as u32;
        assert(b & 0x80 != 0 && ((b & 0x7f) as u32) == (u & 0x7f) && (u >> 7) <= 0xffff_ffffu32
            >> off2 && (off2 == 7 || off2 == 14 || off2 == 21 || off2 == 28) && offset <= 21 && (u
            >> 7) < u) by (
        bit_vector)
            requires
                u & 0xffff_ff80u32 != 0,
                b == ((u & 0x7f) | 0x80) as u8,
                offset == 0 || offset == 7 || offset == 14 || offset == 21 || offset == 28,
                off2 == (offset + 7) as u32,
                u <= 0xffff_ffffu32 >> offset,
        ;
        let acc2 = (acc | (((b & 0x7f) as u32) << offset)) as u32;
        assert(s.skip(1) =~= spec_var32_wire_u(u2) + rest);
        lemma_var32_round_trip_at(u2, acc2, off2, rest);
        assert((acc2 | (u2 << off2)) == (acc | (u << offset)) as u32) by (bit_vector)
            requires
                acc2 == (acc | (((u & 0x7f) as u32) << offset)) as u32,
                u2 == u >> 7,
                offset <= 21,
                off2 == (offset + 7) as u32,
        ;
    }
}

/// Round trip: decoding the encoding of a 32-bit signed value yields the
/// value back, consuming exactly the encoding, whatever bytes follow.
pub proof fn lemma_var32_round_trip(v: i32, rest: Seq<u8>)
    ensures
        spec_var32_parse(spec_var32_wire(v) + rest) == Ok::<(i32, int), TransportError>(
            (v, spec_var32_wire(v).len() as int),
        ),
{
    let u = v as u32;
    assert(u <= 0xffff_ffffu32 >> 0u32) by (bit_vector);
    lemma_var32_round_trip_at(u, 0, 0, rest);
    assert((0u32 | (u << 0u32)) as i32 == v) by (bit_vector)
        requires
            u == v as u32,
    ;
    assert(spec_var32_parse(spec_var32_wire(v) + rest) == spec_var32_parse_at(
        spec_var32_wire_u(u) + rest,
        0,
        0,
    ));
}

/// The suspendable 32-bit decoding state machine: the partial accumulator
/// and the bit offset, both preserved across steps.
pub struct VarIntDecoder {
    value: u32,
    bit_offset: u32,
}

impl VarIntDecoder {
    /// The bits accumulated so far.
    pub closed spec fn acc(self) -> u32 {
        self.value
    }

    /// The bit offset the next byte's payload will be placed at.
    pub closed spec fn offset(self) -> u32 {
        self.bit_offset
    }

    /// A fresh state: nothing accumulated.
    pub fn new() -> (r: VarIntDecoder)
        ensures
            r.acc() == 0,
            r.offset() == 0,
    {
        VarIntDecoder { value: 0, bit_offset: 0 }
    }

    /// Whether the offset has reached the 35-bit ceiling: decoding must then
    /// fail with `VarNumTooLarge` before consuming another byte.
    pub fn exhausted(&self) -> (r: bool)
        ensures
            r == (self.offset() >= 35),
    {
        self.bit_offset >= 35
    }

    /// Feeds one byte. Returns the decoded value if this byte terminates the
    /// integer; otherwise the accumulator and offset advance and the next
    /// byte may be fed later — the outcome of the whole decode is preserved
    /// across the suspension, whatever bytes follow.
    pub fn step(&mut self, byte: u8) -> (r: Option<i32>)
        requires
            old(self).offset() < 32,
        ensures
            match r {
                Some(v) => forall|rest: Seq<u8>|
                    #[trigger] spec_var32_parse_at(seq![byte] + rest, old(self).acc(), old(self).offset())
                        == Ok::<(i32, int), TransportError>((v, 1)),
                None => final(self).offset() == old(self).offset() + 7 && forall|rest: Seq<u8>|
                    #[trigger] spec_var32_parse_at(seq![byte] + rest, old(self).acc(), old(self).offset())
                        == add_consumed(
                        spec_var32_parse_at(rest, final(self).acc(), final(self).offset()),
                        1,
                    ),
            },
    {
        let low: u32 = (byte & 0x7f) as u32;
        self.value = self.value | (low << self.bit_offset);
        let done = byte & 0x80 == 0;
        let result = if done {
            Some(#[verifier::truncate] (self.value as i32))
        } else {
            self.bit_offset = self.bit_offset + 7;
            None
        };
        proof {
            assert forall|rest: Seq<u8>| (seq![byte] + rest).skip(1) =~= rest by {}
            assert forall|rest: Seq<u8>| (seq![byte] + rest).len() > 0 && (seq![byte] + rest)[0]
                == byte by {}
        }
        result
    }
}

/// The suspendable 32-bit encoding state machine: the bits not yet written,
/// preserved across steps.
pub struct VarIntEncoder {
    value: u32,
}

impl VarIntEncoder {
    /// The bits not yet emitted.
    pub closed spec fn pending(self) -> u32 {
        self.value
    }

    /// Starts encoding `v`, reinterpreted as unsigned.
    pub fn new(v: i32) -> (r: VarIntEncoder)
        ensures
            r.pending() == v as u32,
    {
        VarIntEncoder { value: #[verifier::truncate] (v as u32) }
    }

    /// Produces the next byte to write. When the returned flag is true this
    /// byte terminates the encoding; otherwise the remaining bits are kept
    /// for later steps, and the bytes already emitted stay a prefix of the
    /// full encoding across the suspension.
    pub fn step(&mut self) -> (r: (u8, bool))
        ensures
            r.1 ==> spec_var32_wire_u(old(self).pending()) == seq![r.0],
            !r.1 ==> spec_var32_wire_u(old(self).pending()) == seq![r.0] + spec_var32_wire_u(
                final(self).pending(),
            ) && final(self).pending() < old(self).pending(),
    {
        if self.value & 0xffff_ff80u32 == 0 {
            let b = #[verifier::truncate] (self.value as u8);
            (b, true)
        } else {
            let b = #[verifier::truncate] (((self.value & 0x7f) | 0x80) as u8);
            proof {
                let v = self.value;
                assert((v & 0xffff_ff80u32 != 0) ==> (v >> 7) < v) by (bit_vector);
            }
            self.value = self.value >> 7;
            (b, false)
        }
    }
}

/// Reads one 32-bit variable-length integer from the stream, as
/// [`spec_var32_parse`] states: the value on success, `VarNumTooLarge` when
/// the bit offset reaches 35 first, `EOF` when the stream ends first.
pub fn read_var_int(read: &mut ByteReader) -> (r: DraxResult<i32>)
    ensures
        final(read).data_seq() == old(read).data_seq(),
        old(read).position() <= final(read).position() <= old(read).data_seq().len(),
        match r {
            Ok(v) => spec_var32_parse(old(read).remaining()) == Ok::<(i32, int), TransportError>(
                (v, final(read).position() - old(read).position()),
            ),
            Err(e) => spec_var32_parse(old(read).remaining()) == Err::<(i32, int), TransportError>(
                e,
            ),
        },
{
    proof {
        use_type_invariant(&*read);
    }
    let ghost s0 = old(read).remaining();
    let ghost p0 = old(read).position();
    let mut dec = VarIntDecoder::new();
    loop
        invariant
            read.cursor_in_bounds(),
            read.data_seq() == old(read).data_seq(),
            p0 == old(read).position(),
            s0 == old(read).remaining(),
            p0 <= read.position() <= read.data_seq().len(),
            dec.offset() <= 42,
            dec.offset() % 7 == 0,
            spec_var32_parse_at(s0, 0, 0) == add_consumed(
                spec_var32_parse_at(read.remaining(), dec.acc(), dec.offset()),
                read.position() - p0,
            ),
        decreases 42 - dec.offset(),
    {
        if dec.exhausted() {
            return Err(TransportError::VarNumTooLarge);
        }
        let byte = match read.read_u8() {
            Ok(b) => b,
            Err(e) => {
                return Err(e);
            },
        };
        let ghost rem_before = seq![byte] + read.remaining();
        proof {
            assert(rem_before =~= old(read).data_seq().skip(read.position() - 1));
        }
        match dec.step(byte) {
            Some(v) => {
                return Ok(v);
            },
            None => {},
        }
    }
}

/// Writes one 32-bit variable-length integer to the sink, appending exactly
/// [`spec_var32_wire`]`(value)`.
pub fn write_var_int(write: &mut Vec<u8>, value: i32)
    ensures
        final(write)@ == old(write)@ + spec_var32_wire(value),
{
    let mut enc = VarIntEncoder::new(value);
    loop
        invariant
            old(write)@ + spec_var32_wire(value) == write@ + spec_var32_wire_u(enc.pending()),
        decreases enc.pending(),
    {
        let (b, done) = enc.step();
        write.push(b);
        if done {
            proof {
                assert(final(write)@ =~= old(write)@ + spec_var32_wire(value));
            }
            return ;
        }
        proof {
            assert(old(write)@ + spec_var32_wire(value) =~= write@ + spec_var32_wire_u(
                enc.pending(),
            ));
        }
    }
}

/// Returns the number of bytes [`write_var_int`] produces for `var_num`.
pub fn size_var_int(var_num: i32) -> (r: usize)
    ensures
        r == spec_var32_wire(var_num).len(),
{
    proof {
        lemma_var32_wire_len(var_num as u32);
    }
    let mut enc = VarIntEncoder::new(var_num);
    let mut size: usize = 0;
    loop
        invariant
            size + spec_var32_wire_u(enc.pending()).len() == spec_var32_wire(var_num).len(),
            spec_var32_wire(var_num).len() <= 5,
        decreases enc.pending(),
    {
        let (_b, done) = enc.step();
        size = size + 1;
        if done {
            return size;
        }
    }
}

/// The bytes a 64-bit value encodes to: low seven bits per byte, high bit
/// set while nonzero bits remain.
pub open spec fn spec_var64_wire_u(u: u64) -> Seq<u8>
    decreases u,
        via spec_var64_wire_u_decreases
{
    if u & 0xffff_ffff_ffff_ff80u64 == 0 {
        seq![u as u8]
    } else {
        seq![((u & 0x7f) | 0x80) as u8] + spec_var64_wire_u(u >> 7)
    }
}

#[via_fn]
proof fn spec_var64_wire_u_decreases(u: u64) {
    assert(u & 0xffff_ffff_ffff_ff80u64 != 0 ==> u >> 7 < u) by (bit_vector);
}

/// The bytes a 64-bit signed value encodes to, via its unsigned
/// reinterpretation.
pub open spec fn spec_var64_wire(v: i64) -> Seq<u8> {
    spec_var64_wire_u(v as u64)
}

/// The outcome of decoding a 64-bit variable-length integer from `s`, with
/// the partial accumulator `acc` and bit offset `offset` carried so far:
/// the value and consumed byte count, or the error.
pub open spec fn spec_var64_parse_at(s: Seq<u8>, acc: u64, offset: u64) -> Result<
    (i64, int),
    TransportError,
>
    decreases 77 - offset,
{
    if offset >= 70 {
        Err(TransportError::VarNumTooLarge)
    } else if s.len() == 0 {
        Err(TransportError::EOF)
    } else {
        let b = s[0];
        let acc2 = (acc | (((b & 0x7f) as u64) << offset)) as u64;
        if b & 0x80 == 0 {
            Ok((acc2 as i64, 1))
        } else {
            add_consumed(spec_var64_parse_at(s.skip(1), acc2, (offset + 7) as u64), 1)
        }
    }
}

/// The outcome of decoding a 64-bit variable-length integer from the start
/// of `s`.
pub open spec fn spec_var64_parse(s: Seq<u8>) -> Result<(i64, int), TransportError> {
    spec_var64_parse_at(s, 0, 0)
}

/// A successful parse consumes between one byte and all of the input.
pub proof fn lemma_var64_parse_bounds(s: Seq<u8>, acc: u64, offset: u64)
    ensures
        spec_var64_parse_at(s, acc, offset) matches Ok((v, n)) ==> 1 <= n <= s.len(),
    decreases 77 - offset,
{
    if offset < 70 && s.len() > 0 {
        let b = s[0];
        if b & 0x80 != 0 {
            let acc2 = (acc | (((b & 0x7f) as u64) << offset)) as u64;
            lemma_var64_parse_bounds(s.skip(1), acc2, (offset + 7) as u64);
        }
    }
}

/// The encoding of a 64-bit value is one to ten bytes long.
pub proof fn lemma_var64_wire_len(u: u64)
    ensures
        1 <= spec_var64_wire_u(u).len() <= 10,
{
    let u1 = u >> 7;
    let u2 = u1 >> 7;
    let u3 = u2 >> 7;
    let u4 = u3 >> 7;
    let u5 = u4 >> 7;
    let u6 = u5 >> 7;
    let u7 = u6 >> 7;
    let u8v = u7 >> 7;
    let u9 = u8v >> 7;
    assert((((((((((u >> 7) >> 7) >> 7) >> 7) >> 7) >> 7) >> 7) >> 7) >> 7) == u >> 63 && (u >> 63)
        & 0xffff_ffff_ffff_ff80u64 == 0) by (bit_vector);
    assert(spec_var64_wire_u(u9).len() == 1);
    assert(spec_var64_wire_u(u8v).len() <= 2);
    assert(spec_var64_wire_u(u7).len() <= 3);
    assert(spec_var64_wire_u(u6).len() <= 4);
    assert(spec_var64_wire_u(u5).len() <= 5);
    assert(spec_var64_wire_u(u4).len() <= 6);
    assert(spec_var64_wire_u(u3).len() <= 7);
    assert(spec_var64_wire_u(u2).len() <= 8);
    assert(spec_var64_wire_u(u1).len() <= 9);
    assert(spec_var64_wire_u(u).len() <= 10);
}

/// Decoding an encoding with the accumulator and offset carried so far
/// yields the encoded bits placed at that offset, consuming the whole
/// encoding, whatever bytes follow.
proof fn lemma_var64_round_trip_at(u: u64, acc: u64, offset: u64, rest: Seq<u8>)
    requires
        offset == 0 || offset == 7 || offset == 14 || offset == 21 || offset == 28 || offset
            == 35 || offset == 42 || offset == 49 || offset == 56 || offset == 63,
        u <= 0xffff_ffff_ffff_ffffu64 >> offset,
    ensures
        spec_var64_parse_at(spec_var64_wire_u(u) + rest, acc, offset) == Ok::<
            (i64, int),
            TransportError,
        >(((acc | (u << offset)) as i64, spec_var64_wire_u(u).len() as int)),
    decreases u,
{
    let s = spec_var64_wire_u(u) + rest;
    if u & 0xffff_ffff_ffff_ff80u64 == 0 {
        let b = u as u8;
        assert(b & 0x80 == 0 && ((b & 0x7f) as u64) == u) by (bit_vector)
            requires
                u & 0xffff_ffff_ffff_ff80u64 == 0 && b == u as u8,
        ;
        assert(s[0] == b);
    } else {
        let b = ((u & 0x7f) | 0x80) as u8;
        let u2 = u >> 7;
        let off2 = (offset + 7) as u64;
        assert(b & 0x80 != 0 && ((b & 0x7f) as u64) == (u & 0x7f) && (u >> 7) <= 0xffff_ffff_ffff_ffffu64
            >> off2 && (off2 == 7 || off2 == 14 || off2 == 21 || off2 == 28 || off2 == 35 || off2 == 42
            || off2 == 49 || off2 == 56 || off2 == 63) && offset <= 56 && (u
            >> 7) < u) by (
        bit_vector)
            requires
                u & 0xffff_ffff_ffff_ff80u64 != 0,
                b == ((u & 0x7f) | 0x80) as u8,
                offset == 0 || offset == 7 || offset == 14 || offset == 21 || offset == 28 || offset
            == 35 || offset == 42 || offset == 49 || offset == 56 || offset == 63,
                off2 == (offset + 7) as u64,
                u <= 0xffff_ffff_ffff_ffffu64 >> offset,
        ;
        let acc2 = (acc | (((b & 0x7f) as u64) << offset)) as u64;
        assert(s.skip(1) =~= spec_var64_wire_u(u2) + rest);
        lemma_var64_round_trip_at(u2, acc2, off2, rest);
        assert((acc2 | (u2 << off2)) == (acc | (u << offset)) as u64) by (bit_vector)
            requires
                acc2 == (acc | (((u & 0x7f) as u64) << offset)) as u64,
                u2 == u >> 7,
                offset <= 56,
                off2 == (offset + 7) as u64,
        ;
    }
}

/// Round trip: decoding the encoding of a 64-bit signed value yields the
/// value back, consuming exactly the encoding, whatever bytes follow.
pub proof fn lemma_var64_round_trip(v: i64, rest: Seq<u8>)
    ensures
        spec_var64_parse(spec_var64_wire(v) + rest) == Ok::<(i64, int), TransportError>(
            (v, spec_var64_wire(v).len() as int),
        ),
{
    let u = v as u64;
    assert(u <= 0xffff_ffff_ffff_ffffu64 >> 0u64) by (bit_vector);
    lemma_var64_round_trip_at(u, 0, 0, rest);
    assert((0u64 | (u << 0u64)) as i64 == v) by (bit_vector)
        requires
            u == v as u64,
    ;
    assert(spec_var64_parse(spec_var64_wire(v) + rest) == spec_var64_parse_at(
        spec_var64_wire_u(u) + rest,
        0,
        0,
    ));
}

/// The suspendable 64-bit decoding state machine: the partial accumulator
/// and the bit offset, both preserved across steps.
pub struct VarLongDecoder {
    value: u64,
    bit_offset: u64,
}

impl VarLongDecoder {
    /// The bits accumulated so far.
    pub closed spec fn acc(self) -> u64 {
        self.value
    }

    /// The bit offset the next byte's payload will be placed at.
    pub closed spec fn offset(self) -> u64 {
        self.bit_offset
    }

    /// A fresh state: nothing accumulated.
    pub fn new() -> (r: VarLongDecoder)
        ensures
            r.acc() == 0,
            r.offset() == 0,
    {
        VarLongDecoder { value: 0, bit_offset: 0 }
    }

    /// Whether the offset has reached the 70-bit ceiling: decoding must then
    /// fail with `VarNumTooLarge` before consuming another byte.
    pub fn exhausted(&self) -> (r: bool)
        ensures
            r == (self.offset() >= 70),
    {
        self.bit_offset >= 70
    }

    /// Feeds one byte. Returns the decoded value if this byte terminates the
    /// integer; otherwise the accumulator and offset advance and the next
    /// byte may be fed later — the outcome of the whole decode is preserved
    /// across the suspension, whatever bytes follow.
    pub fn step(&mut self, byte: u8) -> (r: Option<i64>)
        requires
            old(self).offset() < 64,
        ensures
            match r {
                Some(v) => forall|rest: Seq<u8>|
                    #[trigger] spec_var64_parse_at(seq![byte] + rest, old(self).acc(), old(self).offset())
                        == Ok::<(i64, int), TransportError>((v, 1)),
                None => final(self).offset() == old(self).offset() + 7 && forall|rest: Seq<u8>|
                    #[trigger] spec_var64_parse_at(seq![byte] + rest, old(self).acc(), old(self).offset())
                        == add_consumed(
                        spec_var64_parse_at(rest, final(self).acc(), final(self).offset()),
                        1,
                    ),
            },
    {
        let low: u64 = (byte & 0x7f) as u64;
        self.value = self.value | (low << self.bit_offset);
        let done = byte & 0x80 == 0;
        let result = if done {
            Some(#[verifier::truncate] (self.value as i64))
        } else {
            self.bit_offset = self.bit_offset + 7;
            None
        };
        proof {
            assert forall|rest: Seq<u8>| (seq![byte] + rest).skip(1) =~= rest by {}
            assert forall|rest: Seq<u8>| (seq![byte] + rest).len() > 0 && (seq![byte] + rest)[0]
                == byte by {}
        }
        result
    }
}

/// The suspendable 64-bit encoding state machine: the bits not yet written,
/// preserved across steps.
pub struct VarLongEncoder {
    value: u64,
}

impl VarLongEncoder {
    /// The bits not yet emitted.
    pub closed spec fn pending(self) -> u64 {
        self.value
    }

    /// Starts encoding `v`, reinterpreted as unsigned.
    pub fn new(v: i64) -> (r: VarLongEncoder)
        ensures
            r.pending() == v as u64,
    {
        VarLongEncoder { value: #[verifier::truncate] (v as u64) }
    }

    /// Produces the next byte to write. When the returned flag is true this
    /// byte terminates the encoding; otherwise the remaining bits are kept
    /// for later steps, and the bytes already emitted stay a prefix of the
    /// full encoding across the suspension.
    pub fn step(&mut self) -> (r: (u8, bool))
        ensures
            r.1 ==> spec_var64_wire_u(old(self).pending()) == seq![r.0],
            !r.1 ==> spec_var64_wire_u(old(self).pending()) == seq![r.0] + spec_var64_wire_u(
                final(self).pending(),
            ) && final(self).pending() < old(self).pending(),
    {
        if self.value & 0xffff_ffff_ffff_ff80u64 == 0 {
            let b = #[verifier::truncate] (self.value as u8);
            (b, true)
        } else {
            let b = #[verifier::truncate] (((self.value & 0x7f) | 0x80) as u8);
            proof {
                let v = self.value;
                assert((v & 0xffff_ffff_ffff_ff80u64 != 0) ==> (v >> 7) < v) by (bit_vector);
            }
            self.value = self.value >> 7;
            (b, false)
        }
    }
}

/// Reads one 64-bit variable-length integer from the stream, as
/// [`spec_var64_parse`] states: the value on success, `VarNumTooLarge` when
/// the bit offset reaches 70 first, `EOF` when the stream ends first.
pub fn read_var_long(read: &mut ByteReader) -> (r: DraxResult<i64>)
    ensures
        final(read).data_seq() == old(read).data_seq(),
        old(read).position() <= final(read).position() <= old(read).data_seq().len(),
        match r {
            Ok(v) => spec_var64_parse(old(read).remaining()) == Ok::<(i64, int), TransportError>(
                (v, final(read).position() - old(read).position()),
            ),
            Err(e) => spec_var64_parse(old(read).remaining()) == Err::<(i64, int), TransportError>(
                e,
            ),
        },
{
    proof {
        use_type_invariant(&*read);
    }
    let ghost s0 = old(read).remaining();
    let ghost p0 = old(read).position();
    let mut dec = VarLongDecoder::new();
    loop
        invariant
            read.cursor_in_bounds(),
            read.data_seq() == old(read).data_seq(),
            p0 == old(read).position(),
            s0 == old(read).remaining(),
            p0 <= read.position() <= read.data_seq().len(),
            dec.offset() <= 70,
            dec.offset() % 7 == 0,
            spec_var64_parse_at(s0, 0, 0) == add_consumed(
                spec_var64_parse_at(read.remaining(), dec.acc(), dec.offset()),
                read.position() - p0,
            ),
        decreases 77 - dec.offset(),
    {
        if dec.exhausted() {
            return Err(TransportError::VarNumTooLarge);
        }
        let byte = match read.read_u8() {
            Ok(b) => b,
            Err(e) => {
                return Err(e);
            },
        };
        let ghost rem_before = seq![byte] + read.remaining();
        proof {
            assert(rem_before =~= old(read).data_seq().skip(read.position() - 1));
        }
        match dec.step(byte) {
            Some(v) => {
                return Ok(v);
            },
            None => {},
        }
    }
}

/// Writes one 64-bit variable-length integer to the sink, appending exactly
/// [`spec_var64_wire`]`(value)`.
pub fn write_var_long(write: &mut Vec<u8>, value: i64)
    ensures
        final(write)@ == old(write)@ + spec_var64_wire(value),
{
    let mut enc = VarLongEncoder::new(value);
    loop
        invariant
            old(write)@ + spec_var64_wire(value) == write@ + spec_var64_wire_u(enc.pending()),
        decreases enc.pending(),
    {
        let (b, done) = enc.step();
        write.push(b);
        if done {
            proof {
                assert(final(write)@ =~= old(write)@ + spec_var64_wire(value));
            }
            return ;
        }
        proof {
            assert(old(write)@ + spec_var64_wire(value) =~= write@ + spec_var64_wire_u(
                enc.pending(),
            ));
        }
    }
}

/// Returns the number of bytes [`write_var_long`] produces for `var_num`.
pub fn size_var_long(var_num: i64) -> (r: usize)
    ensures
        r == spec_var64_wire(var_num).len(),
{
    proof {
        lemma_var64_wire_len(var_num as u64);
    }
    let mut enc = VarLongEncoder::new(var_num);
    let mut size: usize = 0;
    loop
        invariant
            size + spec_var64_wire_u(enc.pending()).len() == spec_var64_wire(var_num).len(),
            spec_var64_wire(var_num).len() <= 10,
        decreases enc.pending(),
    {
        let (_b, done) = enc.step();
        size = size + 1;
        if done {
            return size;
        }
    }
}


} // verus!
