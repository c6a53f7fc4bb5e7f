//! Direct big-endian codecs for the fixed-width numerics, boolean and unit,
//! and the 16-byte codec for 128-bit unique identifiers.

use vstd::prelude::*;

use crate::delegate::var_num::{
    lemma_var32_parse_bounds, lemma_var32_round_trip, lemma_var64_parse_bounds,
    lemma_var64_round_trip, read_var_int, read_var_long, size_var_int, size_var_long,
    spec_var32_parse, spec_var32_wire, spec_var64_parse, spec_var64_wire, write_var_int,
    write_var_long,
};
use crate::error::{DraxResult, TransportError};
use crate::size::Size;
use crate::transport::{ByteReader, PacketComponent};

verus! {

/// The two big-endian bytes of `x`, most significant first.
pub open spec fn spec_u16_be(x: u16) -> Seq<u8> {
    seq![(x >> 8) as u8, x as u8]
}

/// The `u16` read back from two big-endian bytes.
pub open spec fn spec_u16_from_be(s: Seq<u8>) -> u16
    recommends
        s.len() == 2,
{
    (((s[0] as u16) << 8) | (s[1] as u16)) as u16
}

/// Writing a `u16` big-endian and reading it back yields the value.
pub proof fn lemma_u16_be_round_trip(x: u16)
    ensures
        spec_u16_from_be(spec_u16_be(x)) == x,
{
    assert(((((x >> 8) as u8) as u16) << 8 | ((x as u8) as u16)) as u16 == x) by (bit_vector);
}

/// Appends the two big-endian bytes of `x` to the sink.
pub fn write_u16_be(write: &mut Vec<u8>, x: u16)
    ensures
        final(write)@ == old(write)@ + spec_u16_be(x),
{
    write.push(#[verifier::truncate] ((x >> 8) as u8));
    write.push(#[verifier::truncate] (x as u8));
    proof {
        assert(final(write)@ =~= old(write)@ + spec_u16_be(x));
    }
}

/// Consumes two bytes and reads them back as a big-endian `u16`; fails with
/// `EOF` when fewer than two bytes are left.
pub fn read_u16_be(read: &mut ByteReader) -> (r: DraxResult<u16>)
    ensures
        final(read).data_seq() == old(read).data_seq(),
        old(read).remaining().len() >= 2 ==> r == Ok::<u16, TransportError>(
            spec_u16_from_be(old(read).remaining().take(2)),
        ) && final(read).position() == old(read).position() + 2,
        old(read).remaining().len() < 2 ==> r == Err::<u16, TransportError>(TransportError::EOF)
            && final(read).position() == old(read).position(),
{
    let bytes = match read.read_exact(2) {
        Ok(b) => b,
        Err(e) => {
            return Err(e);
        },
    };
    let x = ((bytes[0] as u16) << 8) | (bytes[1] as u16);
    Ok(x)
}

impl<C> PacketComponent<C> for u16 {
    type ComponentType = u16;

    type Model = u16;

    open spec fn model(v: u16) -> u16 {
        v
    }

    open spec fn wire(v: u16, c: C) -> Seq<u8> {
        spec_u16_be(v)
    }

    open spec fn parse(s: Seq<u8>, c: C) -> Result<(u16, int), TransportError> {
        if s.len() < 2 {
            Err(TransportError::EOF)
        } else {
            Ok((spec_u16_from_be(s.take(2)), 2))
        }
    }

    open spec fn encode_ok(v: u16, c: C) -> bool {
        true
    }

    open spec fn encodable(v: u16, c: C) -> bool {
        true
    }

    open spec fn size_constant(v: u16, c: C) -> bool {
        true
    }

    fn decode(context: &mut C, read: &mut ByteReader) -> (res: DraxResult<u16>) {
        proof {
            use_type_invariant(&*read);
        }
        read_u16_be(read)
    }

    fn encode(component_ref: &u16, context: &mut C, write: &mut Vec<u8>) -> (res: DraxResult<()>) {
        write_u16_be(write, *component_ref);
        Ok(())
    }

    fn size(input: &u16, context: &mut C) -> (res: DraxResult<Size>) {
        Ok(Size::Constant(2))
    }

    proof fn lemma_parse_bounds(s: Seq<u8>, c: C) {
    }

    proof fn lemma_round_trip(v: u16, c: C) {
        lemma_u16_be_round_trip(v);
        assert(spec_u16_be(v).take(2) =~= spec_u16_be(v));
    }

    proof fn lemma_round_trip_prefix(v: u16, c: C, rest: Seq<u8>) {
        lemma_u16_be_round_trip(v);
        assert((spec_u16_be(v) + rest).take(2) =~= spec_u16_be(v));
    }
}

impl<C> PacketComponent<C> for u8 {
    type ComponentType = u8;

    type Model = u8;

    open spec fn model(v: u8) -> u8 {
        v
    }

    open spec fn wire(v: u8, c: C) -> Seq<u8> {
        seq![v]
    }

    open spec fn parse(s: Seq<u8>, c: C) -> Result<(u8, int), TransportError> {
        if s.len() < 1 {
            Err(TransportError::EOF)
        } else {
            Ok((s[0], 1))
        }
    }

    open spec fn encode_ok(v: u8, c: C) -> bool {
        true
    }

    open spec fn encodable(v: u8, c: C) -> bool {
        true
    }

    open spec fn size_constant(v: u8, c: C) -> bool {
        true
    }

    fn decode(context: &mut C, read: &mut ByteReader) -> (res: DraxResult<u8>) {
        proof {
            use_type_invariant(&*read);
        }
        read.read_u8()
    }

    fn encode(component_ref: &u8, context: &mut C, write: &mut Vec<u8>) -> (res: DraxResult<()>) {
        write.push(*component_ref);
        proof {
            assert(final(write)@ =~= old(write)@ + seq![*component_ref]);
        }
        Ok(())
    }

    fn size(input: &u8, context: &mut C) -> (res: DraxResult<Size>) {
        Ok(Size::Constant(1))
    }

    proof fn lemma_parse_bounds(s: Seq<u8>, c: C) {
    }

    proof fn lemma_round_trip(v: u8, c: C) {
    }

    proof fn lemma_round_trip_prefix(v: u8, c: C, rest: Seq<u8>) {
    }
}

impl<C> PacketComponent<C> for bool {
    type ComponentType = bool;

    type Model = bool;

    open spec fn model(v: bool) -> bool {
        v
    }

    open spec fn wire(v: bool, c: C) -> Seq<u8> {
        if v {
            seq![1u8]
        } else {
            seq![0u8]
        }
    }

    open spec fn parse(s: Seq<u8>, c: C) -> Result<(bool, int), TransportError> {
        if s.len() < 1 {
            Err(TransportError::EOF)
        } else {
            Ok((s[0] != 0, 1))
        }
    }

    open spec fn encode_ok(v: bool, c: C) -> bool {
        true
    }

    open spec fn encodable(v: bool, c: C) -> bool {
        true
    }

    open spec fn size_constant(v: bool, c: C) -> bool {
        true
    }

    fn decode(context: &mut C, read: &mut ByteReader) -> (res: DraxResult<bool>) {
        proof {
            use_type_invariant(&*read);
        }
        match read.read_u8() {
            Ok(b) => Ok(b != 0),
            Err(e) => Err(e),
        }
    }

    fn encode(component_ref: &bool, context: &mut C, write: &mut Vec<u8>) -> (res: DraxResult<
        (),
    >) {
        let b: u8 = if *component_ref {
            1
        } else {
            0
        };
        write.push(b);
        proof {
            assert(final(write)@ =~= old(write)@ + Self::wire(*component_ref, *old(context)));
        }
        Ok(())
    }

    fn size(input: &bool, context: &mut C) -> (res: DraxResult<Size>) {
        Ok(Size::Constant(1))
    }

    proof fn lemma_parse_bounds(s: Seq<u8>, c: C) {
    }

    proof fn lemma_round_trip(v: bool, c: C) {
    }

    proof fn lemma_round_trip_prefix(v: bool, c: C, rest: Seq<u8>) {
    }
}

impl<C> PacketComponent<C> for () {
    type ComponentType = ();

    type Model = ();

    open spec fn model(v: ()) -> () {
        v
    }

    open spec fn wire(v: (), c: C) -> Seq<u8> {
        Seq::empty()
    }

    open spec fn parse(s: Seq<u8>, c: C) -> Result<((), int), TransportError> {
        Ok(((), 0))
    }

    open spec fn encode_ok(v: (), c: C) -> bool {
        true
    }

    open spec fn encodable(v: (), c: C) -> bool {
        true
    }

    open spec fn size_constant(v: (), c: C) -> bool {
        true
    }

    fn decode(context: &mut C, read: &mut ByteReader) -> (res: DraxResult<()>) {
        proof {
            use_type_invariant(&*read);
        }
        Ok(())
    }

    fn encode(component_ref: &(), context: &mut C, write: &mut Vec<u8>) -> (res: DraxResult<()>) {
        proof {
            assert(final(write)@ =~= old(write)@ + Seq::<u8>::empty());
        }
        Ok(())
    }

    fn size(input: &(), context: &mut C) -> (res: DraxResult<Size>) {
        Ok(Size::Constant(0))
    }

    proof fn lemma_parse_bounds(s: Seq<u8>, c: C) {
    }

    proof fn lemma_round_trip(v: (), c: C) {
        assert(Self::wire(v, c).len() == 0);
    }

    proof fn lemma_round_trip_prefix(v: (), c: C, rest: Seq<u8>) {
        assert(Self::wire(v, c) + rest =~= rest);
    }
}


/// The four big-endian bytes of `x`, most significant first.
pub open spec fn spec_u32_be(x: u32) -> Seq<u8> {
    seq![(x >> 24) as u8, (x >> 16) as u8, (x >> 8) as u8, x as u8]
}

/// The `u32` read back from four big-endian bytes.
pub open spec fn spec_u32_from_be(s: Seq<u8>) -> u32
    recommends
        s.len() == 4,
{
    ((s[0] as u32) << 24) | ((s[1] as u32) << 16) | ((s[2] as u32) << 8) | (s[3] as u32)
}

/// Writing a `u32` big-endian and reading it back yields the value.
pub proof fn lemma_u32_be_round_trip(x: u32)
    ensures
        spec_u32_from_be(spec_u32_be(x)) == x,
{
    assert(((((x >> 24) as u8) as u32) << 24) | ((((x >> 16) as u8) as u32) << 16) | ((((x
        >> 8) as u8) as u32) << 8) | (((x as u8) as u32)) == x) by (bit_vector);
}

/// Appends the four big-endian bytes of `x` to the sink.
pub fn write_u32_be(write: &mut Vec<u8>, x: u32)
    ensures
        final(write)@ == old(write)@ + spec_u32_be(x),
{
    write.push(#[verifier::truncate] ((x >> 24) as u8));
    write.push(#[verifier::truncate] ((x >> 16) as u8));
    write.push(#[verifier::truncate] ((x >> 8) as u8));
    write.push(#[verifier::truncate] (x as u8));
    proof {
        assert(final(write)@ =~= old(write)@ + spec_u32_be(x));
    }
}

/// Consumes four bytes and reads them back as a big-endian `u32`; fails with
/// `EOF` when fewer than four bytes are left.
pub fn read_u32_be(read: &mut ByteReader) -> (r: DraxResult<u32>)
    ensures
        final(read).data_seq() == old(read).data_seq(),
        old(read).remaining().len() >= 4 ==> r == Ok::<u32, TransportError>(
            spec_u32_from_be(old(read).remaining().take(4)),
        ) && final(read).position() == old(read).position() + 4,
        old(read).remaining().len() < 4 ==> r == Err::<u32, TransportError>(TransportError::EOF)
            && final(read).position() == old(read).position(),
{
    let bytes = match read.read_exact(4) {
        Ok(b) => b,
        Err(e) => {
            return Err(e);
        },
    };
    let x = ((bytes[0] as u32) << 24) | ((bytes[1] as u32) << 16) | ((bytes[2] as u32) << 8) | (
    bytes[3] as u32);
    Ok(x)
}

/// The eight big-endian bytes of `x`, most significant first.
pub open spec fn spec_u64_be(x: u64) -> Seq<u8> {
    seq![
        (x >> 56) as u8,
        (x >> 48) as u8,
        (x >> 40) as u8,
        (x >> 32) as u8,
        (x >> 24) as u8,
        (x >> 16) as u8,
        (x >> 8) as u8,
        x as u8,
    ]
}

/// The `u64` read back from eight big-endian bytes.
pub open spec fn spec_u64_from_be(s: Seq<u8>) -> u64
    recommends
        s.len() == 8,
{
    ((s[0] as u64) << 56) | ((s[1] as u64) << 48) | ((s[2] as u64) << 40) | ((s[3] as u64) << 32)
        | ((s[4] as u64) << 24) | ((s[5] as u64) << 16) | ((s[6] as u64) << 8) | (s[7] as u64)
}

/// Writing a `u64` big-endian and reading it back yields the value.
pub proof fn lemma_u64_be_round_trip(x: u64)
    ensures
        spec_u64_from_be(spec_u64_be(x)) == x,
{
    assert(((((x >> 56) as u8) as u64) << 56) | ((((x >> 48) as u8) as u64) << 48) | ((((x
        >> 40) as u8) as u64) << 40) | ((((x >> 32) as u8) as u64) << 32) | ((((x
        >> 24) as u8) as u64) << 24) | ((((x >> 16) as u8) as u64) << 16) | ((((x
        >> 8) as u8) as u64) << 8) | (((x as u8) as u64)) == x) by (bit_vector);
}

/// Appends the eight big-endian bytes of `x` to the sink.
pub fn write_u64_be(write: &mut Vec<u8>, x: u64)
    ensures
        final(write)@ == old(write)@ + spec_u64_be(x),
{
    write.push(#[verifier::truncate] ((x >> 56) as u8));
    write.push(#[verifier::truncate] ((x >> 48) as u8));
    write.push(#[verifier::truncate] ((x >> 40) as u8));
    write.push(#[verifier::truncate] ((x >> 32) as u8));
    write.push(#[verifier::truncate] ((x >> 24) as u8));
    write.push(#[verifier::truncate] ((x >> 16) as u8));
    write.push(#[verifier::truncate] ((x >> 8) as u8));
    write.push(#[verifier::truncate] (x as u8));
    proof {
        assert(final(write)@ =~= old(write)@ + spec_u64_be(x));
    }
}

/// Consumes eight bytes and reads them back as a big-endian `u64`; fails with
/// `EOF` when fewer than eight bytes are left.
pub fn read_u64_be(read: &mut ByteReader) -> (r: DraxResult<u64>)
    ensures
        final(read).data_seq() == old(read).data_seq(),
        old(read).remaining().len() >= 8 ==> r == Ok::<u64, TransportError>(
            spec_u64_from_be(old(read).remaining().take(8)),
        ) && final(read).position() == old(read).position() + 8,
        old(read).remaining().len() < 8 ==> r == Err::<u64, TransportError>(TransportError::EOF)
            && final(read).position() == old(read).position(),
{
    let bytes = match read.read_exact(8) {
        Ok(b) => b,
        Err(e) => {
            return Err(e);
        },
    };
    let x = ((bytes[0] as u64) << 56) | ((bytes[1] as u64) << 48) | ((bytes[2] as u64) << 40) | ((
    bytes[3] as u64) << 32) | ((bytes[4] as u64) << 24) | ((bytes[5] as u64) << 16) | ((
    bytes[6] as u64) << 8) | (bytes[7] as u64);
    Ok(x)
}

/// The sixteen big-endian bytes of `x`, most significant first.
pub open spec fn spec_u128_be(x: u128) -> Seq<u8> {
    spec_u64_be((x >> 64) as u64) + spec_u64_be(x as u64)
}

/// The `u128` read back from sixteen big-endian bytes.
pub open spec fn spec_u128_from_be(s: Seq<u8>) -> u128
    recommends
        s.len() == 16,
{
    ((spec_u64_from_be(s.take(8)) as u128) << 64) | (spec_u64_from_be(s.skip(8)) as u128)
}

/// Writing a `u128` big-endian and reading it back yields the value.
pub proof fn lemma_u128_be_round_trip(x: u128)
    ensures
        spec_u128_from_be(spec_u128_be(x)) == x,
{
    let hi = (x >> 64) as u64;
    let lo = x as u64;
    lemma_u64_be_round_trip(hi);
    lemma_u64_be_round_trip(lo);
    assert(spec_u128_be(x).take(8) =~= spec_u64_be(hi));
    assert(spec_u128_be(x).skip(8) =~= spec_u64_be(lo));
    assert(((((x >> 64) as u64) as u128) << 64) | ((x as u64) as u128) == x) by (bit_vector);
}

/// Appends the sixteen big-endian bytes of `x` to the sink.
pub fn write_u128_be(write: &mut Vec<u8>, x: u128)
    ensures
        final(write)@ == old(write)@ + spec_u128_be(x),
{
    write_u64_be(write, #[verifier::truncate] ((x >> 64) as u64));
    write_u64_be(write, #[verifier::truncate] (x as u64));
    proof {
        assert(final(write)@ =~= old(write)@ + spec_u128_be(x));
    }
}

/// Consumes sixteen bytes and reads them back as a big-endian `u128`; fails
/// with `EOF` when fewer than sixteen bytes are left.
pub fn read_u128_be(read: &mut ByteReader) -> (r: DraxResult<u128>)
    ensures
        final(read).data_seq() == old(read).data_seq(),
        old(read).remaining().len() >= 16 ==> r == Ok::<u128, TransportError>(
            spec_u128_from_be(old(read).remaining().take(16)),
        ) && final(read).position() == old(read).position() + 16,
        old(read).remaining().len() < 16 ==> r == Err::<u128, TransportError>(TransportError::EOF)
            && final(read).position() == old(read).position(),
{
    let bytes = match read.read_exact(16) {
        Ok(b) => b,
        Err(e) => {
            return Err(e);
        },
    };
    let hi = ((bytes[0] as u64) << 56) | ((bytes[1] as u64) << 48) | ((bytes[2] as u64) << 40) | ((
    bytes[3] as u64) << 32) | ((bytes[4] as u64) << 24) | ((bytes[5] as u64) << 16) | ((
    bytes[6] as u64) << 8) | (bytes[7] as u64);
    let lo = ((bytes[8] as u64) << 56) | ((bytes[9] as u64) << 48) | ((bytes[10] as u64) << 40) | ((
    bytes[11] as u64) << 32) | ((bytes[12] as u64) << 24) | ((bytes[13] as u64) << 16) | ((
    bytes[14] as u64) << 8) | (bytes[15] as u64);
    let x = ((hi as u128) << 64) | (lo as u128);
    proof {
        let t = old(read).remaining().take(16);
        assert(t.take(8) =~= bytes@.take(8));
        assert(t.skip(8) =~= bytes@.skip(8));
        assert(hi == spec_u64_from_be(bytes@.take(8)));
        assert(lo == spec_u64_from_be(bytes@.skip(8)));
    }
    Ok(x)
}


impl<C> PacketComponent<C> for u32 {
    type ComponentType = u32;

    type Model = u32;

    open spec fn model(v: u32) -> u32 {
        v
    }

    open spec fn wire(v: u32, c: C) -> Seq<u8> {
        spec_u32_be(v)
    }

    open spec fn parse(s: Seq<u8>, c: C) -> Result<(u32, int), TransportError> {
        if s.len() < 4 {
            Err(TransportError::EOF)
        } else {
            Ok((spec_u32_from_be(s.take(4)), 4))
        }
    }

    open spec fn encode_ok(v: u32, c: C) -> bool {
        true
    }

    open spec fn encodable(v: u32, c: C) -> bool {
        true
    }

    open spec fn size_constant(v: u32, c: C) -> bool {
        true
    }

    fn decode(context: &mut C, read: &mut ByteReader) -> (res: DraxResult<u32>) {
        proof {
            use_type_invariant(&*read);
        }
        read_u32_be(read)
    }

    fn encode(component_ref: &u32, context: &mut C, write: &mut Vec<u8>) -> (res: DraxResult<
        (),
    >) {
        write_u32_be(write, *component_ref);
        Ok(())
    }

    fn size(input: &u32, context: &mut C) -> (res: DraxResult<Size>) {
        Ok(Size::Constant(4))
    }

    proof fn lemma_parse_bounds(s: Seq<u8>, c: C) {
    }

    proof fn lemma_round_trip(v: u32, c: C) {
        lemma_u32_be_round_trip(v);
        assert(spec_u32_be(v).take(4) =~= spec_u32_be(v));
    }

    proof fn lemma_round_trip_prefix(v: u32, c: C, rest: Seq<u8>) {
        lemma_u32_be_round_trip(v);
        assert((spec_u32_be(v) + rest).take(4) =~= spec_u32_be(v));
    }
}

impl<C> PacketComponent<C> for u64 {
    type ComponentType = u64;

    type Model = u64;

    open spec fn model(v: u64) -> u64 {
        v
    }

    open spec fn wire(v: u64, c: C) -> Seq<u8> {
        spec_u64_be(v)
    }

    open spec fn parse(s: Seq<u8>, c: C) -> Result<(u64, int), TransportError> {
        if s.len() < 8 {
            Err(TransportError::EOF)
        } else {
            Ok((spec_u64_from_be(s.take(8)), 8))
        }
    }

    open spec fn encode_ok(v: u64, c: C) -> bool {
        true
    }

    open spec fn encodable(v: u64, c: C) -> bool {
        true
    }

    open spec fn size_constant(v: u64, c: C) -> bool {
        true
    }

    fn decode(context: &mut C, read: &mut ByteReader) -> (res: DraxResult<u64>) {
        proof {
            use_type_invariant(&*read);
        }
        read_u64_be(read)
    }

    fn encode(component_ref: &u64, context: &mut C, write: &mut Vec<u8>) -> (res: DraxResult<
        (),
    >) {
        write_u64_be(write, *component_ref);
        Ok(())
    }

    fn size(input: &u64, context: &mut C) -> (res: DraxResult<Size>) {
        Ok(Size::Constant(8))
    }

    proof fn lemma_parse_bounds(s: Seq<u8>, c: C) {
    }

    proof fn lemma_round_trip(v: u64, c: C) {
        lemma_u64_be_round_trip(v);
        assert(spec_u64_be(v).take(8) =~= spec_u64_be(v));
    }

    proof fn lemma_round_trip_prefix(v: u64, c: C, rest: Seq<u8>) {
        lemma_u64_be_round_trip(v);
        assert((spec_u64_be(v) + rest).take(8) =~= spec_u64_be(v));
    }
}

impl<C> PacketComponent<C> for u128 {
    type ComponentType = u128;

    type Model = u128;

    open spec fn model(v: u128) -> u128 {
        v
    }

    open spec fn wire(v: u128, c: C) -> Seq<u8> {
        spec_u128_be(v)
    }

    open spec fn parse(s: Seq<u8>, c: C) -> Result<(u128, int), TransportError> {
        if s.len() < 16 {
            Err(TransportError::EOF)
        } else {
            Ok((spec_u128_from_be(s.take(16)), 16))
        }
    }

    open spec fn encode_ok(v: u128, c: C) -> bool {
        true
    }

    open spec fn encodable(v: u128, c: C) -> bool {
        true
    }

    open spec fn size_constant(v: u128, c: C) -> bool {
        true
    }

    fn decode(context: &mut C, read: &mut ByteReader) -> (res: DraxResult<u128>) {
        proof {
            use_type_invariant(&*read);
        }
        read_u128_be(read)
    }

    fn encode(component_ref: &u128, context: &mut C, write: &mut Vec<u8>) -> (res: DraxResult<
        (),
    >) {
        write_u128_be(write, *component_ref);
        Ok(())
    }

    fn size(input: &u128, context: &mut C) -> (res: DraxResult<Size>) {
        Ok(Size::Constant(16))
    }

    proof fn lemma_parse_bounds(s: Seq<u8>, c: C) {
    }

    proof fn lemma_round_trip(v: u128, c: C) {
        lemma_u128_be_round_trip(v);
        assert(spec_u128_be(v).take(16) =~= spec_u128_be(v));
    }

    proof fn lemma_round_trip_prefix(v: u128, c: C, rest: Seq<u8>) {
        lemma_u128_be_round_trip(v);
        assert((spec_u128_be(v) + rest).take(16) =~= spec_u128_be(v));
    }
}

/// Reinterpreting an `i8` as `u8` and back yields the value.
pub proof fn lemma_i8_cast_round_trip(x: i8)
    ensures
        ((x as u8) as i8) == x,
{
    assert(((x as u8) as i8) == x) by (bit_vector);
}

impl<C> PacketComponent<C> for i8 {
    type ComponentType = i8;

    type Model = i8;

    open spec fn model(v: i8) -> i8 {
        v
    }

    open spec fn wire(v: i8, c: C) -> Seq<u8> {
        seq![v as u8]
    }

    open spec fn parse(s: Seq<u8>, c: C) -> Result<(i8, int), TransportError> {
        if s.len() < 1 {
            Err(TransportError::EOF)
        } else {
            Ok((s[0] as i8, 1))
        }
    }

    open spec fn encode_ok(v: i8, c: C) -> bool {
        true
    }

    open spec fn encodable(v: i8, c: C) -> bool {
        true
    }

    open spec fn size_constant(v: i8, c: C) -> bool {
        true
    }

    fn decode(context: &mut C, read: &mut ByteReader) -> (res: DraxResult<i8>) {
        proof {
            use_type_invariant(&*read);
        }
        match read.read_u8() {
            Ok(b) => Ok(#[verifier::truncate] (b as i8)),
            Err(e) => Err(e),
        }
    }

    fn encode(component_ref: &i8, context: &mut C, write: &mut Vec<u8>) -> (res: DraxResult<()>) {
        write.push(#[verifier::truncate] (*component_ref as u8));
        proof {
            assert(final(write)@ =~= old(write)@ + seq![*component_ref as u8]);
        }
        Ok(())
    }

    fn size(input: &i8, context: &mut C) -> (res: DraxResult<Size>) {
        Ok(Size::Constant(1))
    }

    proof fn lemma_parse_bounds(s: Seq<u8>, c: C) {
    }

    proof fn lemma_round_trip(v: i8, c: C) {
        lemma_i8_cast_round_trip(v);
    }

    proof fn lemma_round_trip_prefix(v: i8, c: C, rest: Seq<u8>) {
        lemma_i8_cast_round_trip(v);
    }
}

/// Reinterpreting a `i16` as `u16` and back yields the value.
pub proof fn lemma_i16_cast_round_trip(x: i16)
    ensures
        ((x as u16) as i16) == x,
{
    assert(((x as u16) as i16) == x) by (bit_vector);
}

impl<C> PacketComponent<C> for i16 {
    type ComponentType = i16;

    type Model = i16;

    open spec fn model(v: i16) -> i16 {
        v
    }

    open spec fn wire(v: i16, c: C) -> Seq<u8> {
        spec_u16_be(v as u16)
    }

    open spec fn parse(s: Seq<u8>, c: C) -> Result<(i16, int), TransportError> {
        if s.len() < 2 {
            Err(TransportError::EOF)
        } else {
            Ok((spec_u16_from_be(s.take(2)) as i16, 2))
        }
    }

    open spec fn encode_ok(v: i16, c: C) -> bool {
        true
    }

    open spec fn encodable(v: i16, c: C) -> bool {
        true
    }

    open spec fn size_constant(v: i16, c: C) -> bool {
        true
    }

    fn decode(context: &mut C, read: &mut ByteReader) -> (res: DraxResult<i16>) {
        proof {
            use_type_invariant(&*read);
        }
        match read_u16_be(read) {
            Ok(x) => Ok(#[verifier::truncate] (x as i16)),
            Err(e) => Err(e),
        }
    }

    fn encode(component_ref: &i16, context: &mut C, write: &mut Vec<u8>) -> (res: DraxResult<
        (),
    >) {
        write_u16_be(write, #[verifier::truncate] (*component_ref as u16));
        Ok(())
    }

    fn size(input: &i16, context: &mut C) -> (res: DraxResult<Size>) {
        Ok(Size::Constant(2))
    }

    proof fn lemma_parse_bounds(s: Seq<u8>, c: C) {
    }

    proof fn lemma_round_trip(v: i16, c: C) {
        lemma_u16_be_round_trip(v as u16);
        lemma_i16_cast_round_trip(v);
        assert(spec_u16_be(v as u16).take(2) =~= spec_u16_be(v as u16));
    }

    proof fn lemma_round_trip_prefix(v: i16, c: C, rest: Seq<u8>) {
        lemma_u16_be_round_trip(v as u16);
        lemma_i16_cast_round_trip(v);
        assert((spec_u16_be(v as u16) + rest).take(2) =~= spec_u16_be(v as u16));
    }
}

/// Reinterpreting a `i32` as `u32` and back yields the value.
pub proof fn lemma_i32_cast_round_trip(x: i32)
    ensures
        ((x as u32) as i32) == x,
{
    assert(((x as u32) as i32) == x) by (bit_vector);
}

impl<C> PacketComponent<C> for i32 {
    type ComponentType = i32;

    type Model = i32;

    open spec fn model(v: i32) -> i32 {
        v
    }

    open spec fn wire(v: i32, c: C) -> Seq<u8> {
        spec_u32_be(v as u32)
    }

    open spec fn parse(s: Seq<u8>, c: C) -> Result<(i32, int), TransportError> {
        if s.len() < 4 {
            Err(TransportError::EOF)
        } else {
            Ok((spec_u32_from_be(s.take(4)) as i32, 4))
        }
    }

    open spec fn encode_ok(v: i32, c: C) -> bool {
        true
    }

    open spec fn encodable(v: i32, c: C) -> bool {
        true
    }

    open spec fn size_constant(v: i32, c: C) -> bool {
        true
    }

    fn decode(context: &mut C, read: &mut ByteReader) -> (res: DraxResult<i32>) {
        proof {
            use_type_invariant(&*read);
        }
        match read_u32_be(read) {
            Ok(x) => Ok(#[verifier::truncate] (x as i32)),
            Err(e) => Err(e),
        }
    }

    fn encode(component_ref: &i32, context: &mut C, write: &mut Vec<u8>) -> (res: DraxResult<
        (),
    >) {
        write_u32_be(write, #[verifier::truncate] (*component_ref as u32));
        Ok(())
    }

    fn size(input: &i32, context: &mut C) -> (res: DraxResult<Size>) {
        Ok(Size::Constant(4))
    }

    proof fn lemma_parse_bounds(s: Seq<u8>, c: C) {
    }

    proof fn lemma_round_trip(v: i32, c: C) {
        lemma_u32_be_round_trip(v as u32);
        lemma_i32_cast_round_trip(v);
        assert(spec_u32_be(v as u32).take(4) =~= spec_u32_be(v as u32));
    }

    proof fn lemma_round_trip_prefix(v: i32, c: C, rest: Seq<u8>) {
        lemma_u32_be_round_trip(v as u32);
        lemma_i32_cast_round_trip(v);
        assert((spec_u32_be(v as u32) + rest).take(4) =~= spec_u32_be(v as u32));
    }
}

/// Reinterpreting a `i64` as `u64` and back yields the value.
pub proof fn lemma_i64_cast_round_trip(x: i64)
    ensures
        ((x as u64) as i64) == x,
{
    assert(((x as u64) as i64) == x) by (bit_vector);
}

impl<C> PacketComponent<C> for i64 {
    type ComponentType = i64;

    type Model = i64;

    open spec fn model(v: i64) -> i64 {
        v
    }

    open spec fn wire(v: i64, c: C) -> Seq<u8> {
        spec_u64_be(v as u64)
    }

    open spec fn parse(s: Seq<u8>, c: C) -> Result<(i64, int), TransportError> {
        if s.len() < 8 {
            Err(TransportError::EOF)
        } else {
            Ok((spec_u64_from_be(s.take(8)) as i64, 8))
        }
    }

    open spec fn encode_ok(v: i64, c: C) -> bool {
        true
    }

    open spec fn encodable(v: i64, c: C) -> bool {
        true
    }

    open spec fn size_constant(v: i64, c: C) -> bool {
        true
    }

    fn decode(context: &mut C, read: &mut ByteReader) -> (res: DraxResult<i64>) {
        proof {
            use_type_invariant(&*read);
        }
        match read_u64_be(read) {
            Ok(x) => Ok(#[verifier::truncate] (x as i64)),
            Err(e) => Err(e),
        }
    }

    fn encode(component_ref: &i64, context: &mut C, write: &mut Vec<u8>) -> (res: DraxResult<
        (),
    >) {
        write_u64_be(write, #[verifier::truncate] (*component_ref as u64));
        Ok(())
    }

    fn size(input: &i64, context: &mut C) -> (res: DraxResult<Size>) {
        Ok(Size::Constant(8))
    }

    proof fn lemma_parse_bounds(s: Seq<u8>, c: C) {
    }

    proof fn lemma_round_trip(v: i64, c: C) {
        lemma_u64_be_round_trip(v as u64);
        lemma_i64_cast_round_trip(v);
        assert(spec_u64_be(v as u64).take(8) =~= spec_u64_be(v as u64));
    }

    proof fn lemma_round_trip_prefix(v: i64, c: C, rest: Seq<u8>) {
        lemma_u64_be_round_trip(v as u64);
        lemma_i64_cast_round_trip(v);
        assert((spec_u64_be(v as u64) + rest).take(8) =~= spec_u64_be(v as u64));
    }
}


/// A delegate struct which encodes and decodes an `i32` type.
///
/// This delegate encodes the integer using the smallest possible number of
/// bytes: seven payload bits per byte, with the high bit of each byte
/// flagging whether more bytes follow.
pub struct VarInt;

impl<C> PacketComponent<C> for VarInt {
    type ComponentType = i32;

    type Model = i32;

    open spec fn model(v: i32) -> i32 {
        v
    }

    open spec fn wire(v: i32, c: C) -> Seq<u8> {
        spec_var32_wire(v)
    }

    open spec fn parse(s: Seq<u8>, c: C) -> Result<(i32, int), TransportError> {
        spec_var32_parse(s)
    }

    open spec fn encode_ok(v: i32, c: C) -> bool {
        true
    }

    open spec fn encodable(v: i32, c: C) -> bool {
        true
    }

    open spec fn size_constant(v: i32, c: C) -> bool {
        false
    }

    fn decode(context: &mut C, read: &mut ByteReader) -> (res: DraxResult<i32>) {
        read_var_int(read)
    }

    fn encode(component_ref: &i32, context: &mut C, write: &mut Vec<u8>) -> (res: DraxResult<
        (),
    >) {
        write_var_int(write, *component_ref);
        Ok(())
    }

    fn size(input: &i32, context: &mut C) -> (res: DraxResult<Size>) {
        Ok(Size::Dynamic(size_var_int(*input)))
    }

    proof fn lemma_parse_bounds(s: Seq<u8>, c: C) {
        lemma_var32_parse_bounds(s, 0, 0);
    }

    proof fn lemma_round_trip(v: i32, c: C) {
        lemma_var32_round_trip(v, Seq::empty());
        assert(spec_var32_wire(v) + Seq::<u8>::empty() =~= spec_var32_wire(v));
    }

    proof fn lemma_round_trip_prefix(v: i32, c: C, rest: Seq<u8>) {
        lemma_var32_round_trip(v, rest);
    }
}

/// A delegate struct which encodes and decodes an `i64` type.
///
/// This delegate encodes the integer using the smallest possible number of
/// bytes: seven payload bits per byte, with the high bit of each byte
/// flagging whether more bytes follow.
pub struct VarLong;

impl<C> PacketComponent<C> for VarLong {
    type ComponentType = i64;

    type Model = i64;

    open spec fn model(v: i64) -> i64 {
        v
    }

    open spec fn wire(v: i64, c: C) -> Seq<u8> {
        spec_var64_wire(v)
    }

    open spec fn parse(s: Seq<u8>, c: C) -> Result<(i64, int), TransportError> {
        spec_var64_parse(s)
    }

    open spec fn encode_ok(v: i64, c: C) -> bool {
        true
    }

    open spec fn encodable(v: i64, c: C) -> bool {
        true
    }

    open spec fn size_constant(v: i64, c: C) -> bool {
        false
    }

    fn decode(context: &mut C, read: &mut ByteReader) -> (res: DraxResult<i64>) {
        read_var_long(read)
    }

    fn encode(component_ref: &i64, context: &mut C, write: &mut Vec<u8>) -> (res: DraxResult<
        (),
    >) {
        write_var_long(write, *component_ref);
        Ok(())
    }

    fn size(input: &i64, context: &mut C) -> (res: DraxResult<Size>) {
        Ok(Size::Dynamic(size_var_long(*input)))
    }

    proof fn lemma_parse_bounds(s: Seq<u8>, c: C) {
        lemma_var64_parse_bounds(s, 0, 0);
    }

    proof fn lemma_round_trip(v: i64, c: C) {
        lemma_var64_round_trip(v, Seq::empty());
        assert(spec_var64_wire(v) + Seq::<u8>::empty() =~= spec_var64_wire(v));
    }

    proof fn lemma_round_trip_prefix(v: i64, c: C, rest: Seq<u8>) {
        lemma_var64_round_trip(v, rest);
    }
}

} // verus!
