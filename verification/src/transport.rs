//! The component contract: the interface every encodable, decodable and
//! sizeable shape implements, together with the in-memory byte source that
//! decoding consumes.

use vstd::prelude::*;

use crate::error::{DraxResult, TransportError};
use crate::size::Size;

verus! {

/// A readable byte source: a buffer of bytes and a cursor that only moves
/// forward. Decoders consume bytes from the front of [`ByteReader::remaining`].
pub struct ByteReader {
    data: Vec<u8>,
    pos: usize,
}

impl ByteReader {
    /// The full underlying byte sequence.
    pub closed spec fn data_seq(self) -> Seq<u8> {
        self.data@
    }

    /// The cursor position: how many bytes have been consumed.
    pub closed spec fn position(self) -> int {
        self.pos as int
    }

    /// The bytes not yet consumed.
    pub open spec fn remaining(self) -> Seq<u8> {
        self.data_seq().skip(self.position())
    }

    /// The cursor never passes the end of the buffer.
    #[verifier::type_invariant]
    pub open spec fn cursor_in_bounds(self) -> bool {
        0 <= self.position() <= self.data_seq().len()
    }

    /// Wraps a buffer as a byte source positioned at its start.
    pub fn new(data: Vec<u8>) -> (r: ByteReader)
        ensures
            r.data_seq() == data@,
            r.position() == 0,
    {
        ByteReader { data, pos: 0 }
    }

    /// Returns how many bytes are left to consume.
    pub fn remaining_len(&self) -> (r: usize)
        ensures
            r == self.remaining().len(),
    {
        proof {
            use_type_invariant(self);
        }
        self.data.len() - self.pos
    }

    /// Consumes and returns the next byte, or fails with `EOF` when no byte
    /// is left (the cursor then does not move).
    pub fn read_u8(&mut self) -> (r: DraxResult<u8>)
        ensures
            final(self).data_seq() == old(self).data_seq(),
            old(self).remaining().len() > 0 ==> r == Ok::<u8, TransportError>(
                old(self).remaining()[0],
            ) && final(self).position() == old(self).position() + 1,
            old(self).remaining().len() == 0 ==> r == Err::<u8, TransportError>(
                TransportError::EOF,
            ) && final(self).position() == old(self).position(),
    {
        proof {
            use_type_invariant(&*self);
        }
        if self.pos < self.data.len() {
            let b = self.data[self.pos];
            self.pos = self.pos + 1;
            Ok(b)
        } else {
            Err(TransportError::EOF)
        }
    }

    /// Consumes and returns exactly `n` bytes, or fails with `EOF` when fewer
    /// than `n` are left (the cursor then does not move).
    pub fn read_exact(&mut self, n: usize) -> (r: DraxResult<Vec<u8>>)
        ensures
            final(self).data_seq() == old(self).data_seq(),
            n <= old(self).remaining().len() ==> (r matches Ok(v) && v@ == old(
                self,
            ).remaining().take(n as int) && final(self).position() == old(self).position() + n),
            n > old(self).remaining().len() ==> r == Err::<Vec<u8>, TransportError>(
                TransportError::EOF,
            ) && final(self).position() == old(self).position(),
    {
        proof {
            use_type_invariant(&*self);
        }
        if n > self.data.len() - self.pos {
            return Err(TransportError::EOF);
        }
        let s = vstd::slice::slice_subrange(self.data.as_slice(), self.pos, self.pos + n);
        let v = vstd::slice::slice_to_vec(s);
        self.pos = self.pos + n;
        proof {
            assert(v@ =~= old(self).remaining().take(n as int));
        }
        Ok(v)
    }

    /// Consumes and returns all bytes that are left.
    pub fn read_to_end(&mut self) -> (r: Vec<u8>)
        ensures
            final(self).data_seq() == old(self).data_seq(),
            r@ == old(self).remaining(),
            final(self).position() == old(self).data_seq().len(),
            final(self).remaining().len() == 0,
    {
        proof {
            use_type_invariant(&*self);
        }
        let s = vstd::slice::slice_subrange(self.data.as_slice(), self.pos, self.data.len());
        let v = vstd::slice::slice_to_vec(s);
        self.pos = self.data.len();
        proof {
            assert(v@ =~= old(self).remaining());
        }
        v
    }
}

/// Splitting a suffix twice is the same as splitting it once by the sum:
/// consuming `a` bytes and then `b` bytes leaves the bytes after `a + b`.
pub proof fn lemma_skip_skip(s: Seq<u8>, a: int, b: int)
    requires
        0 <= a,
        0 <= b,
        a + b <= s.len(),
    ensures
        s.skip(a).skip(b) == s.skip(a + b),
{
    assert(s.skip(a).skip(b) =~= s.skip(a + b));
}

/// Shifts the consumed-byte count of a parse outcome by `k`: the outcome of
/// parsing a suffix, seen from `k` bytes earlier in the stream.
pub open spec fn add_consumed<T>(r: Result<(T, int), TransportError>, k: int) -> Result<
    (T, int),
    TransportError,
> {
    match r {
        Ok((v, n)) => Ok((v, n + k)),
        Err(e) => Err(e),
    }
}

/// Defines a structure that can be encoded and decoded.
///
/// The wire format of each implementation is pinned down by two
/// specification functions: [`PacketComponent::wire`] gives the exact bytes a
/// value encodes to, and [`PacketComponent::parse`] gives the exact outcome
/// of decoding any byte sequence — the value, the count of consumed bytes,
/// or the error. Every implementation proves that the two agree: parsing an
/// encoding yields the encoded value ([`PacketComponent::lemma_round_trip`]).
///
/// The context parameter `C` is a caller-owned value threaded by reference
/// through every call of a value's component tree; no operation of this
/// library retains or changes it.
pub trait PacketComponent<C> {
    /// The type which the packet component is responsible for representing
    /// during reading and writing.
    type ComponentType;

    /// The mathematical value a `ComponentType` stands for: the contracts
    /// below speak of represented values through this type.
    type Model;

    /// The mathematical value `v` stands for.
    spec fn model(v: Self::ComponentType) -> Self::Model;

    /// The exact bytes a value with model `m` encodes to under context `c`.
    spec fn wire(m: Self::Model, c: C) -> Seq<u8>;

    /// The exact outcome of decoding the byte sequence `s` under context
    /// `c`: `Ok((m, n))` when the first `n` bytes of `s` decode to a value
    /// with model `m`, and the error otherwise.
    spec fn parse(s: Seq<u8>, c: C) -> Result<(Self::Model, int), TransportError>;

    /// Exactly when [`PacketComponent::encode`] succeeds on a value with
    /// model `m`.
    spec fn encode_ok(m: Self::Model, c: C) -> bool;

    /// The models whose encoding decodes back to them. This refines
    /// [`PacketComponent::encode_ok`] with the structural conditions the
    /// wire format cannot record (such as list homogeneity in the tree
    /// codec).
    spec fn encodable(m: Self::Model, c: C) -> bool;

    /// Whether `size` reports a `Constant` size for a value with model `m`.
    spec fn size_constant(m: Self::Model, c: C) -> bool;

    /// Whether this format can be followed by further bytes without
    /// disturbing its decoding. Formats that consume the whole rest of the
    /// stream declare `false` here.
    open spec fn non_tail() -> bool {
        true
    }

    /// Decodes one value from the stream, consuming exactly the bytes that
    /// represent it, as [`PacketComponent::parse`] states.
    fn decode(context: &mut C, read: &mut ByteReader) -> (res: DraxResult<Self::ComponentType>)
        ensures
            *final(context) == *old(context),
            final(read).data_seq() == old(read).data_seq(),
            old(read).position() <= final(read).position() <= old(read).data_seq().len(),
            match res {
                Ok(v) => Self::parse(old(read).remaining(), *old(context)) == Ok::<
                    _,
                    TransportError,
                >((Self::model(v), final(read).position() - old(read).position())),
                Err(e) => Self::parse(old(read).remaining(), *old(context)) == Err::<
                    (Self::Model, int),
                    _,
                >(e),
            },
    ;

    /// Encodes `component_ref`, appending exactly
    /// [`PacketComponent::wire`]`(model(v), c)` to the sink on success.
    fn encode(component_ref: &Self::ComponentType, context: &mut C, write: &mut Vec<u8>) -> (res:
        DraxResult<()>)
        ensures
            *final(context) == *old(context),
            res is Ok <==> Self::encode_ok(Self::model(*component_ref), *old(context)),
            res is Ok ==> final(write)@ == old(write)@ + Self::wire(
                Self::model(*component_ref),
                *old(context),
            ),
            res is Err ==> final(write)@.len() >= old(write)@.len() && final(write)@.take(
                old(write)@.len() as int,
            ) == old(write)@,
    ;

    /// Computes the byte count `encode` would produce, without writing.
    fn size(input: &Self::ComponentType, context: &mut C) -> (res: DraxResult<Size>)
        ensures
            *final(context) == *old(context),
            Self::encode_ok(Self::model(*input), *old(context)) && Self::wire(
                Self::model(*input),
                *old(context),
            ).len() <= usize::MAX ==> (res matches Ok(sz) && sz.spec_count() == Self::wire(
                Self::model(*input),
                *old(context),
            ).len() && (sz is Constant <==> Self::size_constant(
                Self::model(*input),
                *old(context),
            ))),
    ;

    /// A successful parse never consumes more bytes than the input holds.
    proof fn lemma_parse_bounds(s: Seq<u8>, c: C)
        ensures
            Self::parse(s, c) matches Ok((m, n)) ==> 0 <= n <= s.len(),
    ;

    /// Round trip: decoding the encoding of any encodable value yields that
    /// value back, consuming the whole encoding.
    proof fn lemma_round_trip(m: Self::Model, c: C)
        requires
            Self::encodable(m, c),
        ensures
            Self::encode_ok(m, c),
            Self::parse(Self::wire(m, c), c) == Ok::<_, TransportError>(
                (m, Self::wire(m, c).len() as int),
            ),
    ;

    /// Round trip under a continuation: for formats that do not consume the
    /// rest of the stream, trailing bytes do not disturb the decoding.
    proof fn lemma_round_trip_prefix(m: Self::Model, c: C, rest: Seq<u8>)
        requires
            Self::encodable(m, c),
            Self::non_tail(),
        ensures
            Self::parse(Self::wire(m, c) + rest, c) == Ok::<_, TransportError>(
                (m, Self::wire(m, c).len() as int),
            ),
    ;
}

} // verus!
