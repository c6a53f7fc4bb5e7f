//! Text delegates: length-prefixed UTF-8 strings with an upper bound on the
//! byte length, checked on both sides before the payload is touched.

use vstd::prelude::*;
use vstd::string::StringSliceAdditionalSpecFns;
use vstd::string::StrSliceExecFns;
use vstd::utf8::{decode_utf8, encode_utf8, encode_utf8_decode_utf8, encode_utf8_valid_utf8,
    valid_utf8};

use crate::delegate::var_num::{
    lemma_var32_parse_bounds, lemma_var32_round_trip, read_var_int, size_var_int,
    spec_var32_parse, spec_var32_wire, write_var_int,
};
use crate::delegate::vec::append_bytes;
use crate::error::{saturate_i32, spec_saturate_i32, DraxResult, TransportError};
use crate::size::Size;
use crate::transport::{ByteReader, PacketComponent};

verus! {

/// The default cap on a string's byte length, in both directions.
pub const STRING_DEFAULT_CAP: i32 = 32767 * 4;

/// Relies on `String::from_utf8`: it succeeds exactly on valid UTF-8 input,
/// and the returned string's bytes are the input bytes.
#[verifier::external_body]
fn string_from_utf8(bytes: Vec<u8>) -> (r: Result<String, TransportError>)
    ensures
        match r {
            Ok(s) => valid_utf8(bytes@) && encode_utf8(s@) == bytes@,
            Err(e) => !valid_utf8(bytes@) && e == TransportError::Utf8Error,
        },
{
    match String::from_utf8(bytes) {
        Ok(s) => Ok(s),
        Err(_) => Err(TransportError::Utf8Error),
    }
}

/// Text encodes as a variable-length-integer byte-length prefix followed by
/// that many UTF-8 bytes; both directions reject a byte length above
/// [`STRING_DEFAULT_CAP`] before touching the payload.
impl<C> PacketComponent<C> for String {
    type ComponentType = String;

    type Model = Seq<char>;

    open spec fn model(v: String) -> Seq<char> {
        v@
    }

    open spec fn wire(m: Seq<char>, c: C) -> Seq<u8> {
        spec_var32_wire(encode_utf8(m).len() as i32) + encode_utf8(m)
    }

    open spec fn parse(s: Seq<u8>, c: C) -> Result<(Seq<char>, int), TransportError> {
        match spec_var32_parse(s) {
            Ok((len, k)) => {
                if len > STRING_DEFAULT_CAP {
                    Err(TransportError::LimitExceeded(STRING_DEFAULT_CAP, len, "decoding string"))
                } else {
                    let n = len as usize;
                    if s.skip(k).len() < n {
                        Err(TransportError::EOF)
                    } else {
                        let bytes = s.skip(k).take(n as int);
                        if valid_utf8(bytes) {
                            Ok((decode_utf8(bytes), k + n))
                        } else {
                            Err(TransportError::Utf8Error)
                        }
                    }
                }
            },
            Err(e) => Err(e),
        }
    }

    open spec fn encode_ok(m: Seq<char>, c: C) -> bool {
        encode_utf8(m).len() <= STRING_DEFAULT_CAP
    }

    open spec fn encodable(m: Seq<char>, c: C) -> bool {
        encode_utf8(m).len() <= STRING_DEFAULT_CAP
    }

    open spec fn size_constant(m: Seq<char>, c: C) -> bool {
        false
    }

    fn decode(context: &mut C, read: &mut ByteReader) -> (res: DraxResult<String>) {
        proof {
            use_type_invariant(&*read);
        }
        let len = match read_var_int(read) {
            Ok(l) => l,
            Err(e) => {
                return Err(e);
            },
        };
        if len > STRING_DEFAULT_CAP {
            return TransportError::limit_exceeded(STRING_DEFAULT_CAP, len, "decoding string");
        }
        let ghost k = read.position() - old(read).position();
        proof {
            crate::transport::lemma_skip_skip(old(read).data_seq(), old(read).position(), k);
            assert(read.remaining() == old(read).remaining().skip(k));
        }
        let n: usize = #[verifier::truncate] (len as usize);
        let bytes = match read.read_exact(n) {
            Ok(b) => b,
            Err(e) => {
                return Err(e);
            },
        };
        match string_from_utf8(bytes) {
            Ok(s) => {
                proof {
                    encode_utf8_decode_utf8(s@);
                }
                Ok(s)
            },
            Err(e) => Err(e),
        }
    }

    fn encode(component_ref: &String, context: &mut C, write: &mut Vec<u8>) -> (res: DraxResult<
        (),
    >)
        ensures
            (encode_utf8(component_ref@).len() as usize) > STRING_DEFAULT_CAP ==> res == Err::<
                (),
                TransportError,
            >(
                TransportError::LimitExceeded(
                    STRING_DEFAULT_CAP,
                    spec_saturate_i32((encode_utf8(component_ref@).len() as usize) as int),
                    "encoding string",
                ),
            ),
    {
        let bytes = component_ref.as_str().as_bytes_vec();
        if bytes.len() > 131068usize {
            proof {
                assert(final(write)@.take(old(write)@.len() as int) =~= old(write)@);
            }
            return TransportError::limit_exceeded(
                STRING_DEFAULT_CAP,
                saturate_i32(bytes.len()),
                "encoding string",
            );
        }
        write_var_int(write, bytes.len() as i32);
        append_bytes(write, &bytes);
        proof {
            assert(final(write)@ =~= old(write)@ + Self::wire(component_ref@, *old(context)));
        }
        Ok(())
    }

    fn size(input: &String, context: &mut C) -> (res: DraxResult<Size>) {
        let n = input.as_str().len();
        let prefix = size_var_int(#[verifier::truncate] (n as i32));
        Ok(Size::Dynamic(prefix).add_bytes(n))
    }

    proof fn lemma_parse_bounds(s: Seq<u8>, c: C) {
        lemma_var32_parse_bounds(s, 0, 0);
    }

    proof fn lemma_round_trip(m: Seq<char>, c: C) {
        let bytes = encode_utf8(m);
        lemma_var32_round_trip(bytes.len() as i32, bytes);
        let wn = spec_var32_wire(bytes.len() as i32);
        assert((wn + bytes).skip(wn.len() as int) =~= bytes);
        assert(bytes.take(bytes.len() as int) =~= bytes);
        encode_utf8_valid_utf8(m);
        encode_utf8_decode_utf8(m);
    }

    proof fn lemma_round_trip_prefix(m: Seq<char>, c: C, rest: Seq<u8>) {
        let bytes = encode_utf8(m);
        lemma_var32_round_trip(bytes.len() as i32, bytes + rest);
        let wn = spec_var32_wire(bytes.len() as i32);
        assert(Self::wire(m, c) + rest =~= wn + (bytes + rest));
        assert((wn + (bytes + rest)).skip(wn.len() as int) =~= bytes + rest);
        assert((bytes + rest).take(bytes.len() as int) =~= bytes);
        assert(Self::wire(m, c).len() == wn.len() + bytes.len());
        encode_utf8_valid_utf8(m);
        encode_utf8_decode_utf8(m);
    }
}

/// A delegate struct which constricts the byte length of a `String` to the
/// given constant limit.
///
/// Both directions compare the byte length against `N` before any payload
/// work: a declared length beyond the limit is rejected right after the
/// length prefix, with no payload bytes consumed.
pub struct LimitedString<const N: usize>;

impl<C, const N: usize> PacketComponent<C> for LimitedString<N> {
    type ComponentType = String;

    type Model = Seq<char>;

    open spec fn model(v: String) -> Seq<char> {
        v@
    }

    open spec fn wire(m: Seq<char>, c: C) -> Seq<u8> {
        spec_var32_wire(encode_utf8(m).len() as i32) + encode_utf8(m)
    }

    open spec fn parse(s: Seq<u8>, c: C) -> Result<(Seq<char>, int), TransportError> {
        match spec_var32_parse(s) {
            Ok((len, k)) => {
                if len as int > N as int {
                    Err(
                        TransportError::LimitExceeded(
                            spec_saturate_i32(N as int),
                            len,
                            "decoding string",
                        ),
                    )
                } else {
                    let n = len as usize;
                    if s.skip(k).len() < n {
                        Err(TransportError::EOF)
                    } else {
                        let bytes = s.skip(k).take(n as int);
                        if valid_utf8(bytes) {
                            Ok((decode_utf8(bytes), k + n))
                        } else {
                            Err(TransportError::Utf8Error)
                        }
                    }
                }
            },
            Err(e) => Err(e),
        }
    }

    open spec fn encode_ok(m: Seq<char>, c: C) -> bool {
        encode_utf8(m).len() <= N && encode_utf8(m).len() <= STRING_DEFAULT_CAP
    }

    open spec fn encodable(m: Seq<char>, c: C) -> bool {
        encode_utf8(m).len() <= N && encode_utf8(m).len() <= STRING_DEFAULT_CAP
    }

    open spec fn size_constant(m: Seq<char>, c: C) -> bool {
        false
    }

    fn decode(context: &mut C, read: &mut ByteReader) -> (res: DraxResult<String>)
        ensures
            match spec_var32_parse(old(read).remaining()) {
                Ok((len, k)) => len as int > N as int ==> final(read).position() == old(
                    read,
                ).position() + k,
                Err(_) => true,
            },
    {
        proof {
            use_type_invariant(&*read);
        }
        let len = match read_var_int(read) {
            Ok(l) => l,
            Err(e) => {
                return Err(e);
            },
        };
        if len > 0 && (len as usize) > N {
            return TransportError::limit_exceeded(saturate_i32(N), len, "decoding string");
        }
        proof {
            assert(!(len as int > N as int));
        }
        let ghost k = read.position() - old(read).position();
        proof {
            crate::transport::lemma_skip_skip(old(read).data_seq(), old(read).position(), k);
            assert(read.remaining() == old(read).remaining().skip(k));
        }
        let n: usize = #[verifier::truncate] (len as usize);
        let bytes = match read.read_exact(n) {
            Ok(b) => b,
            Err(e) => {
                return Err(e);
            },
        };
        match string_from_utf8(bytes) {
            Ok(s) => {
                proof {
                    encode_utf8_decode_utf8(s@);
                }
                Ok(s)
            },
            Err(e) => Err(e),
        }
    }

    fn encode(component_ref: &String, context: &mut C, write: &mut Vec<u8>) -> (res: DraxResult<
        (),
    >)
        ensures
            (encode_utf8(component_ref@).len() as usize) > N ==> res == Err::<(), TransportError>(
                TransportError::LimitExceeded(
                    spec_saturate_i32(N as int),
                    spec_saturate_i32((encode_utf8(component_ref@).len() as usize) as int),
                    "encoding string",
                ),
            ) && final(write)@ == old(write)@,
    {
        let byte_len = component_ref.as_str().len();
        if byte_len > N {
            proof {
                assert(final(write)@.take(old(write)@.len() as int) =~= old(write)@);
            }
            return TransportError::limit_exceeded(
                saturate_i32(N),
                saturate_i32(byte_len),
                "encoding string",
            );
        }
        <String as PacketComponent<C>>::encode(component_ref, context, write)
    }

    fn size(input: &String, context: &mut C) -> (res: DraxResult<Size>) {
        <String as PacketComponent<C>>::size(input, context)
    }

    proof fn lemma_parse_bounds(s: Seq<u8>, c: C) {
        lemma_var32_parse_bounds(s, 0, 0);
    }

    proof fn lemma_round_trip(m: Seq<char>, c: C) {
        let bytes = encode_utf8(m);
        lemma_var32_round_trip(bytes.len() as i32, bytes);
        let wn = spec_var32_wire(bytes.len() as i32);
        assert((wn + bytes).skip(wn.len() as int) =~= bytes);
        assert(bytes.take(bytes.len() as int) =~= bytes);
        encode_utf8_valid_utf8(m);
        encode_utf8_decode_utf8(m);
    }

    proof fn lemma_round_trip_prefix(m: Seq<char>, c: C, rest: Seq<u8>) {
        let bytes = encode_utf8(m);
        lemma_var32_round_trip(bytes.len() as i32, bytes + rest);
        let wn = spec_var32_wire(bytes.len() as i32);
        assert(Self::wire(m, c) + rest =~= wn + (bytes + rest));
        assert((wn + (bytes + rest)).skip(wn.len() as int) =~= bytes + rest);
        assert((bytes + rest).take(bytes.len() as int) =~= bytes);
        assert(Self::wire(m, c).len() == wn.len() + bytes.len());
        encode_utf8_valid_utf8(m);
        encode_utf8_decode_utf8(m);
    }
}

} // verus!
