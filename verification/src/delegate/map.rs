//! Mapping delegates: key/value pairs under the same count-prefixed framing
//! as sequences. The represented value is a vector of pairs in insertion
//! order; duplicate keys are not rejected, so which entry a consumer takes
//! for a repeated key is the consumer's choice.

use vstd::prelude::*;

use crate::delegate::var_num::{
    lemma_var32_parse_bounds, lemma_var32_round_trip, read_var_int, spec_var32_parse,
    spec_var32_wire,
};
use crate::delegate::vec::{
    decode_elements, lemma_seq_parse_bounds, lemma_seq_round_trip, lemma_seq_round_trip_prefix,
    seq_model, seq_parse, seq_wire,
};
use crate::error::{saturate_i32, spec_saturate_i32, DraxResult, TransportError};
use crate::size::Size;
use crate::transport::{ByteReader, PacketComponent};

verus! {

/// A pair encodes as the first component's encoding followed by the
/// second's.
impl<C, K: PacketComponent<C>, V: PacketComponent<C>> PacketComponent<C> for (K, V) {
    type ComponentType = (K::ComponentType, V::ComponentType);

    type Model = (K::Model, V::Model);

    open spec fn model(v: (K::ComponentType, V::ComponentType)) -> (K::Model, V::Model) {
        (K::model(v.0), V::model(v.1))
    }

    open spec fn wire(m: (K::Model, V::Model), c: C) -> Seq<u8> {
        K::wire(m.0, c) + V::wire(m.1, c)
    }

    open spec fn parse(s: Seq<u8>, c: C) -> Result<((K::Model, V::Model), int), TransportError> {
        match K::parse(s, c) {
            Ok((k, n1)) => match V::parse(s.skip(n1), c) {
                Ok((v, n2)) => Ok(((k, v), n1 + n2)),
                Err(e) => Err(e),
            },
            Err(e) => Err(e),
        }
    }

    open spec fn encode_ok(m: (K::Model, V::Model), c: C) -> bool {
        K::encode_ok(m.0, c) && V::encode_ok(m.1, c)
    }

    open spec fn encodable(m: (K::Model, V::Model), c: C) -> bool {
        K::encodable(m.0, c) && V::encodable(m.1, c) && K::non_tail()
    }

    open spec fn size_constant(m: (K::Model, V::Model), c: C) -> bool {
        K::size_constant(m.0, c) && V::size_constant(m.1, c)
    }

    open spec fn non_tail() -> bool {
        V::non_tail()
    }

    fn decode(context: &mut C, read: &mut ByteReader) -> (res: DraxResult<
        (K::ComponentType, V::ComponentType),
    >) {
        proof {
            use_type_invariant(&*read);
        }
        let k = match K::decode(context, read) {
            Ok(k) => k,
            Err(e) => {
                return Err(e);
            },
        };
        let ghost n1 = read.position() - old(read).position();
        proof {
            crate::transport::lemma_skip_skip(old(read).data_seq(), old(read).position(), n1);
            assert(read.remaining() == old(read).remaining().skip(n1));
        }
        let v = match V::decode(context, read) {
            Ok(v) => v,
            Err(e) => {
                return Err(e);
            },
        };
        Ok((k, v))
    }

    fn encode(
        component_ref: &(K::ComponentType, V::ComponentType),
        context: &mut C,
        write: &mut Vec<u8>,
    ) -> (res: DraxResult<()>) {
        match K::encode(&component_ref.0, context, write) {
            Ok(()) => {},
            Err(e) => {
                return Err(e);
            },
        }
        match V::encode(&component_ref.1, context, write) {
            Ok(()) => {
                proof {
                    assert(final(write)@ =~= old(write)@ + Self::wire(
                        Self::model(*component_ref),
                        *old(context),
                    ));
                }
                Ok(())
            },
            Err(e) => {
                proof {
                    assert(final(write)@.take(old(write)@.len() as int) =~= old(write)@);
                }
                Err(e)
            },
        }
    }

    fn size(
        input: &(K::ComponentType, V::ComponentType),
        context: &mut C,
    ) -> (res: DraxResult<Size>) {
        let ks = match K::size(&input.0, context) {
            Ok(ks) => ks,
            Err(e) => {
                return Err(e);
            },
        };
        let vs = match V::size(&input.1, context) {
            Ok(vs) => vs,
            Err(e) => {
                return Err(e);
            },
        };
        Ok(ks.combine(vs))
    }

    proof fn lemma_parse_bounds(s: Seq<u8>, c: C) {
        K::lemma_parse_bounds(s, c);
        match K::parse(s, c) {
            Ok((k, n1)) => {
                V::lemma_parse_bounds(s.skip(n1), c);
            },
            Err(_) => {},
        }
    }

    proof fn lemma_round_trip(m: (K::Model, V::Model), c: C) {
        let wk = K::wire(m.0, c);
        let wv = V::wire(m.1, c);
        K::lemma_round_trip_prefix(m.0, c, wv);
        V::lemma_round_trip(m.1, c);
        K::lemma_round_trip(m.0, c);
        V::lemma_round_trip(m.1, c);
        assert((wk + wv).skip(wk.len() as int) =~= wv);
    }

    proof fn lemma_round_trip_prefix(m: (K::Model, V::Model), c: C, rest: Seq<u8>) {
        let wk = K::wire(m.0, c);
        let wv = V::wire(m.1, c);
        K::lemma_round_trip_prefix(m.0, c, wv + rest);
        V::lemma_round_trip_prefix(m.1, c, rest);
        assert((wk + wv) + rest =~= wk + (wv + rest));
        assert((wk + (wv + rest)).skip(wk.len() as int) =~= wv + rest);
    }
}

/// A delegate struct which encodes and decodes a mapping as a count-prefixed
/// run of key/value pairs, in insertion order.
pub struct MapDelegate<K, V> {
    _phantom_kv: core::marker::PhantomData<(K, V)>,
}

impl<C, K: PacketComponent<C>, V: PacketComponent<C>> PacketComponent<C> for MapDelegate<K, V> {
    type ComponentType = Vec<(K::ComponentType, V::ComponentType)>;

    type Model = Seq<(K::Model, V::Model)>;

    open spec fn model(v: Vec<(K::ComponentType, V::ComponentType)>) -> Seq<(K::Model, V::Model)> {
        seq_model::<C, (K, V)>(v@)
    }

    open spec fn wire(m: Seq<(K::Model, V::Model)>, c: C) -> Seq<u8> {
        <Vec<(K, V)> as PacketComponent<C>>::wire(m, c)
    }

    open spec fn parse(s: Seq<u8>, c: C) -> Result<(Seq<(K::Model, V::Model)>, int),
        TransportError,
    > {
        <Vec<(K, V)> as PacketComponent<C>>::parse(s, c)
    }

    open spec fn encode_ok(m: Seq<(K::Model, V::Model)>, c: C) -> bool {
        <Vec<(K, V)> as PacketComponent<C>>::encode_ok(m, c)
    }

    open spec fn encodable(m: Seq<(K::Model, V::Model)>, c: C) -> bool {
        <Vec<(K, V)> as PacketComponent<C>>::encodable(m, c)
    }

    open spec fn size_constant(m: Seq<(K::Model, V::Model)>, c: C) -> bool {
        false
    }

    open spec fn non_tail() -> bool {
        V::non_tail()
    }

    fn decode(context: &mut C, read: &mut ByteReader) -> (res: DraxResult<
        Vec<(K::ComponentType, V::ComponentType)>,
    >) {
        <Vec<(K, V)> as PacketComponent<C>>::decode(context, read)
    }

    fn encode(
        component_ref: &Vec<(K::ComponentType, V::ComponentType)>,
        context: &mut C,
        write: &mut Vec<u8>,
    ) -> (res: DraxResult<()>) {
        <Vec<(K, V)> as PacketComponent<C>>::encode(component_ref, context, write)
    }

    fn size(
        input: &Vec<(K::ComponentType, V::ComponentType)>,
        context: &mut C,
    ) -> (res: DraxResult<Size>) {
        <Vec<(K, V)> as PacketComponent<C>>::size(input, context)
    }

    proof fn lemma_parse_bounds(s: Seq<u8>, c: C) {
        <Vec<(K, V)> as PacketComponent<C>>::lemma_parse_bounds(s, c);
    }

    proof fn lemma_round_trip(m: Seq<(K::Model, V::Model)>, c: C) {
        <Vec<(K, V)> as PacketComponent<C>>::lemma_round_trip(m, c);
    }

    proof fn lemma_round_trip_prefix(m: Seq<(K::Model, V::Model)>, c: C, rest: Seq<u8>) {
        <Vec<(K, V)> as PacketComponent<C>>::lemma_round_trip_prefix(m, c, rest);
    }
}

/// A delegate struct which limits the size of a mapping when encoding or
/// decoding to the given constant limit.
///
/// Both directions compare the entry count against `N` before any entry is
/// processed: a declared count beyond the limit is rejected right after the
/// count prefix, with no entry bytes consumed.
pub struct LimitedMap<K, V, const N: usize> {
    _phantom_kv: core::marker::PhantomData<(K, V)>,
}

impl<C, K: PacketComponent<C>, V: PacketComponent<C>, const N: usize> PacketComponent<C>
    for LimitedMap<K, V, N> {
    type ComponentType = Vec<(K::ComponentType, V::ComponentType)>;

    type Model = Seq<(K::Model, V::Model)>;

    open spec fn model(v: Vec<(K::ComponentType, V::ComponentType)>) -> Seq<(K::Model, V::Model)> {
        seq_model::<C, (K, V)>(v@)
    }

    open spec fn wire(m: Seq<(K::Model, V::Model)>, c: C) -> Seq<u8> {
        <Vec<(K, V)> as PacketComponent<C>>::wire(m, c)
    }

    open spec fn parse(s: Seq<u8>, c: C) -> Result<(Seq<(K::Model, V::Model)>, int),
        TransportError,
    > {
        match spec_var32_parse(s) {
            Ok((len, k)) => {
                if len as int > N as int {
                    Err(
                        TransportError::LimitExceeded(
                            spec_saturate_i32(N as int),
                            len,
                            "decoding map",
                        ),
                    )
                } else {
                    match seq_parse::<C, (K, V)>(s.skip(k), c, len as int) {
                        Ok((elems, m)) => Ok((elems, k + m)),
                        Err(e) => Err(e),
                    }
                }
            },
            Err(e) => Err(e),
        }
    }

    open spec fn encode_ok(m: Seq<(K::Model, V::Model)>, c: C) -> bool {
        m.len() <= N && <Vec<(K, V)> as PacketComponent<C>>::encode_ok(m, c)
    }

    open spec fn encodable(m: Seq<(K::Model, V::Model)>, c: C) -> bool {
        m.len() <= N && <Vec<(K, V)> as PacketComponent<C>>::encodable(m, c)
    }

    open spec fn size_constant(m: Seq<(K::Model, V::Model)>, c: C) -> bool {
        false
    }

    open spec fn non_tail() -> bool {
        V::non_tail()
    }

    fn decode(context: &mut C, read: &mut ByteReader) -> (res: DraxResult<
        Vec<(K::ComponentType, V::ComponentType)>,
    >)
        ensures
            match spec_var32_parse(old(read).remaining()) {
                Ok((len, k)) => len as int > N as int ==> final(read).position() == old(
                    read,
                ).position() + k,
                Err(_) => true,
            },
    {
        proof {
            use_type_invariant(&*read);
        }
        let len = match read_var_int(read) {
            Ok(l) => l,
            Err(e) => {
                return Err(e);
            },
        };
        if len > 0 && (len as usize) > N {
            return TransportError::limit_exceeded(saturate_i32(N), len, "decoding map");
        }
        let ghost k = read.position() - old(read).position();
        proof {
            crate::transport::lemma_skip_skip(old(read).data_seq(), old(read).position(), k);
            assert(read.remaining() == old(read).remaining().skip(k));
        }
        let count: usize = if len < 0 {
            0
        } else {
            len as usize
        };
        let res = decode_elements::<C, (K, V)>(count, context, read);
        res
    }

    fn encode(
        component_ref: &Vec<(K::ComponentType, V::ComponentType)>,
        context: &mut C,
        write: &mut Vec<u8>,
    ) -> (res: DraxResult<()>)
        ensures
            component_ref@.len() > N ==> res == Err::<(), TransportError>(
                TransportError::LimitExceeded(
                    spec_saturate_i32(N as int),
                    spec_saturate_i32(component_ref@.len() as int),
                    "encoding map",
                ),
            ) && final(write)@ == old(write)@,
    {
        let ghost m = Self::model(*component_ref);
        proof {
            assert(m.len() == component_ref@.len());
        }
        if component_ref.len() > N {
            proof {
                assert(final(write)@.take(old(write)@.len() as int) =~= old(write)@);
            }
            return TransportError::limit_exceeded(
                saturate_i32(N),
                saturate_i32(component_ref.len()),
                "encoding map",
            );
        }
        <Vec<(K, V)> as PacketComponent<C>>::encode(component_ref, context, write)
    }

    fn size(
        input: &Vec<(K::ComponentType, V::ComponentType)>,
        context: &mut C,
    ) -> (res: DraxResult<Size>) {
        <Vec<(K, V)> as PacketComponent<C>>::size(input, context)
    }

    proof fn lemma_parse_bounds(s: Seq<u8>, c: C) {
        lemma_var32_parse_bounds(s, 0, 0);
        match spec_var32_parse(s) {
            Ok((len, k)) => {
                lemma_seq_parse_bounds::<C, (K, V)>(s.skip(k), c, len as int);
            },
            Err(_) => {},
        }
    }

    proof fn lemma_round_trip(m: Seq<(K::Model, V::Model)>, c: C) {
        <Vec<(K, V)> as PacketComponent<C>>::lemma_round_trip(m, c);
        let len_i32 = m.len() as i32;
        let wn = spec_var32_wire(len_i32);
        let we = seq_wire::<C, (K, V)>(m, c);
        lemma_var32_round_trip(len_i32, we);
        assert(Self::wire(m, c) == wn + we);
        assert((wn + we).skip(wn.len() as int) =~= we);
        lemma_seq_round_trip::<C, (K, V)>(m, c);
    }

    proof fn lemma_round_trip_prefix(m: Seq<(K::Model, V::Model)>, c: C, rest: Seq<u8>) {
        let len_i32 = m.len() as i32;
        let wn = spec_var32_wire(len_i32);
        let we = seq_wire::<C, (K, V)>(m, c);
        lemma_var32_round_trip(len_i32, we + rest);
        assert(Self::wire(m, c) + rest =~= wn + (we + rest));
        assert((wn + (we + rest)).skip(wn.len() as int) =~= we + rest);
        lemma_seq_round_trip_prefix::<C, (K, V)>(m, c, rest);
        assert(Self::wire(m, c).len() == wn.len() + we.len());
    }
}

} // verus!
