//! Sequence delegates: the length-prefixed `Vec<T>` encoding, and the shared
//! specification machinery for runs of encoded elements that the mapping and
//! size-limited delegates reuse.

use vstd::prelude::*;

use crate::delegate::var_num::{
    lemma_var32_parse_bounds, lemma_var32_round_trip, read_var_int, size_var_int,
    spec_var32_parse, spec_var32_wire, write_var_int,
};
use crate::error::{saturate_i32, spec_saturate_i32, DraxResult, TransportError};
use crate::size::Size;
use crate::transport::{ByteReader, PacketComponent};

verus! {

/// The models of a sequence of represented values.
pub open spec fn seq_model<C, T: PacketComponent<C>>(v: Seq<T::ComponentType>) -> Seq<T::Model> {
    v.map_values(|x: T::ComponentType| T::model(x))
}

/// The bytes a run of elements encodes to: each element's encoding in order.
pub open spec fn seq_wire<C, T: PacketComponent<C>>(elems: Seq<T::Model>, c: C) -> Seq<u8>
    decreases elems.len(),
{
    if elems.len() == 0 {
        Seq::empty()
    } else {
        T::wire(elems[0], c) + seq_wire::<C, T>(elems.drop_first(), c)
    }
}

/// The outcome of decoding `n` consecutive elements from `s`: the element
/// models and the consumed byte count, or the first error. A count of zero
/// or less decodes no elements.
pub open spec fn seq_parse<C, T: PacketComponent<C>>(s: Seq<u8>, c: C, n: int) -> Result<
    (Seq<T::Model>, int),
    TransportError,
>
    decreases n,
{
    if n <= 0 {
        Ok((Seq::empty(), 0))
    } else {
        match T::parse(s, c) {
            Ok((x, k)) => match seq_parse::<C, T>(s.skip(k), c, n - 1) {
                Ok((tail, m)) => Ok((seq![x] + tail, k + m)),
                Err(e) => Err(e),
            },
            Err(e) => Err(e),
        }
    }
}

/// Whether every element of the run encodes successfully.
pub open spec fn seq_encode_ok<C, T: PacketComponent<C>>(elems: Seq<T::Model>, c: C) -> bool {
    forall|i: int| 0 <= i < elems.len() ==> T::encode_ok(#[trigger] elems[i], c)
}

/// Whether every element of the run round-trips.
pub open spec fn seq_encodable<C, T: PacketComponent<C>>(elems: Seq<T::Model>, c: C) -> bool {
    forall|i: int| 0 <= i < elems.len() ==> T::encodable(#[trigger] elems[i], c)
}

/// A successful run parse consumes no more bytes than the input holds and
/// yields exactly the asked-for number of elements.
pub proof fn lemma_seq_parse_bounds<C, T: PacketComponent<C>>(s: Seq<u8>, c: C, n: int)
    ensures
        seq_parse::<C, T>(s, c, n) matches Ok((v, m)) ==> 0 <= m <= s.len() && v.len() == (if n
            <= 0 {
            0int
        } else {
            n
        }),
    decreases n,
{
    if n > 0 {
        T::lemma_parse_bounds(s, c);
        match T::parse(s, c) {
            Ok((x, k)) => {
                lemma_seq_parse_bounds::<C, T>(s.skip(k), c, n - 1);
            },
            Err(_) => {},
        }
    }
}

/// Appending one element to a run appends its encoding to the run's bytes.
pub proof fn lemma_seq_wire_snoc<C, T: PacketComponent<C>>(elems: Seq<T::Model>, x: T::Model, c: C)
    ensures
        seq_wire::<C, T>(elems.push(x), c) == seq_wire::<C, T>(elems, c) + T::wire(x, c),
    decreases elems.len(),
{
    if elems.len() == 0 {
        assert(elems.push(x).drop_first() =~= Seq::<T::Model>::empty());
        assert(elems.push(x)[0] == x);
        assert(seq_wire::<C, T>(Seq::<T::Model>::empty(), c) == Seq::<u8>::empty());
        assert(seq_wire::<C, T>(elems.push(x), c) == T::wire(x, c) + Seq::<u8>::empty());
        assert(T::wire(x, c) + Seq::<u8>::empty() =~= Seq::<u8>::empty() + T::wire(x, c));
    } else {
        assert(elems.push(x).drop_first() =~= elems.drop_first().push(x));
        assert(elems.push(x)[0] == elems[0]);
        lemma_seq_wire_snoc::<C, T>(elems.drop_first(), x, c);
        assert(seq_wire::<C, T>(elems.push(x), c) == T::wire(elems[0], c) + (seq_wire::<C, T>(
            elems.drop_first(),
            c,
        ) + T::wire(x, c)));
        assert(T::wire(elems[0], c) + (seq_wire::<C, T>(elems.drop_first(), c) + T::wire(x, c))
            =~= (T::wire(elems[0], c) + seq_wire::<C, T>(elems.drop_first(), c)) + T::wire(x, c));
    }
}

/// Each element's encoding is no longer than the whole run's bytes.
pub proof fn lemma_seq_wire_elem_bound<C, T: PacketComponent<C>>(elems: Seq<T::Model>, c: C, i: int)
    requires
        0 <= i < elems.len(),
    ensures
        T::wire(elems[i], c).len() <= seq_wire::<C, T>(elems, c).len(),
    decreases elems.len(),
{
    if i > 0 {
        lemma_seq_wire_elem_bound::<C, T>(elems.drop_first(), c, i - 1);
    }
}

/// Round trip for a run of elements under a continuation: decoding the run's
/// bytes yields the elements back, whatever bytes follow.
pub proof fn lemma_seq_round_trip_prefix<C, T: PacketComponent<C>>(
    elems: Seq<T::Model>,
    c: C,
    rest: Seq<u8>,
)
    requires
        seq_encodable::<C, T>(elems, c),
        T::non_tail(),
    ensures
        seq_parse::<C, T>(seq_wire::<C, T>(elems, c) + rest, c, elems.len() as int) == Ok::<
            _,
            TransportError,
        >((elems, seq_wire::<C, T>(elems, c).len() as int)),
    decreases elems.len(),
{
    if elems.len() == 0 {
        assert(seq_wire::<C, T>(elems, c) + rest =~= rest);
        assert(elems =~= Seq::<T::Model>::empty());
    } else {
        let e0 = elems[0];
        let tail = elems.drop_first();
        let w0 = T::wire(e0, c);
        let wt = seq_wire::<C, T>(tail, c);
        T::lemma_round_trip_prefix(e0, c, wt + rest);
        assert((w0 + wt) + rest =~= w0 + (wt + rest));
        assert((w0 + (wt + rest)).skip(w0.len() as int) =~= wt + rest);
        assert forall|i: int| 0 <= i < tail.len() implies T::encodable(#[trigger] tail[i], c) by {
            assert(tail[i] == elems[i + 1]);
        }
        lemma_seq_round_trip_prefix::<C, T>(tail, c, rest);
        assert(seq![e0] + tail =~= elems);
    }
}

/// Round trip for a run of elements that ends the stream. A run of a single
/// element tolerates a tail-format element; longer runs need elements that
/// tolerate continuations.
pub proof fn lemma_seq_round_trip<C, T: PacketComponent<C>>(elems: Seq<T::Model>, c: C)
    requires
        seq_encodable::<C, T>(elems, c),
        elems.len() >= 2 ==> T::non_tail(),
    ensures
        seq_parse::<C, T>(seq_wire::<C, T>(elems, c), c, elems.len() as int) == Ok::<
            _,
            TransportError,
        >((elems, seq_wire::<C, T>(elems, c).len() as int)),
    decreases elems.len(),
{
    let w = seq_wire::<C, T>(elems, c);
    if elems.len() == 0 {
        assert(elems =~= Seq::<T::Model>::empty());
        assert(w == Seq::<u8>::empty());
    } else {
        let e0 = elems[0];
        let tail = elems.drop_first();
        let w0 = T::wire(e0, c);
        let wt = seq_wire::<C, T>(tail, c);
        assert(w == w0 + wt);
        assert forall|i: int| 0 <= i < tail.len() implies T::encodable(#[trigger] tail[i], c) by {
            assert(tail[i] == elems[i + 1]);
        }
        if elems.len() == 1 {
            T::lemma_round_trip(e0, c);
            assert(tail =~= Seq::<T::Model>::empty());
            assert(wt == Seq::<u8>::empty());
            assert(w =~= w0);
            assert(w.skip(w0.len() as int) =~= Seq::<u8>::empty());
            assert(seq_parse::<C, T>(w.skip(w0.len() as int), c, 0) == Ok::<_, TransportError>(
                (Seq::<T::Model>::empty(), 0int),
            ));
            assert(seq![e0] + tail =~= elems);
        } else {
            T::lemma_round_trip_prefix(e0, c, wt);
            assert(w.skip(w0.len() as int) =~= wt);
            lemma_seq_round_trip::<C, T>(tail, c);
            assert(seq![e0] + tail =~= elems);
        }
    }
}

/// The identity glue for run parsing: nothing collected, nothing consumed.
proof fn lemma_seq_parse_glue_init<C, T: PacketComponent<C>>(
    r: Result<(Seq<T::Model>, int), TransportError>,
)
    ensures
        (match r {
            Ok((t, m)) => Ok::<_, TransportError>((Seq::<T::Model>::empty() + t, 0 + m)),
            Err(e) => Err(e),
        }) == r,
{
    match r {
        Ok((t, m)) => {
            assert(Seq::<T::Model>::empty() + t =~= t);
        },
        Err(_) => {},
    }
}

/// Decodes `count` elements, appending them to fresh storage: the loop
/// driver shared by the sequence and mapping delegates.
pub fn decode_elements<C, T: PacketComponent<C>>(
    count: usize,
    context: &mut C,
    read: &mut ByteReader,
) -> (res: DraxResult<Vec<T::ComponentType>>)
    ensures
        *final(context) == *old(context),
        final(read).data_seq() == old(read).data_seq(),
        old(read).position() <= final(read).position() <= old(read).data_seq().len(),
        match res {
            Ok(v) => seq_parse::<C, T>(old(read).remaining(), *old(context), count as int) == Ok::<
                _,
                TransportError,
            >(
                (
                    seq_model::<C, T>(v@),
                    final(read).position() - old(read).position(),
                ),
            ),
            Err(e) => seq_parse::<C, T>(old(read).remaining(), *old(context), count as int)
                == Err::<(Seq<T::Model>, int), _>(e),
        },
{
    proof {
        use_type_invariant(&*read);
    }
    let ghost s1 = old(read).remaining();
    let ghost p1 = old(read).position();
    let ghost c0 = *old(context);
    let mut out: Vec<T::ComponentType> = Vec::new();
    let mut i: usize = 0;
    proof {
        lemma_seq_parse_glue_init::<C, T>(seq_parse::<C, T>(s1, c0, count as int));
        assert(seq_model::<C, T>(out@) =~= Seq::<T::Model>::empty());
    }
    while i < count
        invariant
            *context == c0,
            c0 == *old(context),
            read.data_seq() == old(read).data_seq(),
            s1 == old(read).remaining(),
            p1 == old(read).position(),
            0 <= p1 <= read.position() <= read.data_seq().len(),
            0 <= i <= count,
            out@.len() == i,
            read.remaining() == old(read).data_seq().skip(read.position()),
            seq_parse::<C, T>(s1, c0, count as int) == (match seq_parse::<C, T>(
                read.remaining(),
                c0,
                count - i,
            ) {
                Ok((tail, m)) => Ok::<_, TransportError>(
                    (seq_model::<C, T>(out@) + tail, (read.position() - p1) + m),
                ),
                Err(e) => Err(e),
            }),
        decreases count - i,
    {
        let ghost r_i = read.remaining();
        let ghost pos_i = read.position();
        match T::decode(context, read) {
            Ok(x) => {
                proof {
                    let mx = T::model(x);
                    let d = read.position() - pos_i;
                    assert(r_i == old(read).data_seq().skip(pos_i));
                    crate::transport::lemma_skip_skip(old(read).data_seq(), pos_i, d);
                    assert(read.remaining() == r_i.skip(d));
                    let prev = seq_model::<C, T>(out@);
                    assert(seq_model::<C, T>(out@.push(x)) =~= prev + seq![mx]);
                    match seq_parse::<C, T>(read.remaining(), c0, count - i - 1) {
                        Ok((tail2, m2)) => {
                            assert((prev + seq![mx]) + tail2 =~= prev + (seq![mx] + tail2));
                        },
                        Err(_) => {},
                    }
                }
                out.push(x);
                i = i + 1;
            },
            Err(e) => {
                return Err(e);
            },
        }
    }
    proof {
        match seq_parse::<C, T>(read.remaining(), c0, count - i) {
            Ok((tail, m)) => {
                assert(tail =~= Seq::<T::Model>::empty());
                assert(seq_model::<C, T>(out@) + tail =~= seq_model::<C, T>(out@));
            },
            Err(_) => {},
        }
    }
    Ok(out)
}

/// Encodes every element of `items` in order: the loop driver shared by the
/// sequence and mapping delegates.
pub fn encode_elements<C, T: PacketComponent<C>>(
    items: &Vec<T::ComponentType>,
    context: &mut C,
    write: &mut Vec<u8>,
) -> (res: DraxResult<()>)
    ensures
        *final(context) == *old(context),
        res is Ok <==> seq_encode_ok::<C, T>(seq_model::<C, T>(items@), *old(context)),
        res is Ok ==> final(write)@ == old(write)@ + seq_wire::<C, T>(
            seq_model::<C, T>(items@),
            *old(context),
        ),
        res is Err ==> final(write)@.len() >= old(write)@.len() && final(write)@.take(
            old(write)@.len() as int,
        ) == old(write)@,
{
    let ghost c0 = *old(context);
    let ghost m = seq_model::<C, T>(items@);
    let mut i: usize = 0;
    proof {
        assert(seq_wire::<C, T>(m.take(0), c0) =~= Seq::<u8>::empty());
        assert(write@ =~= old(write)@ + Seq::<u8>::empty());
    }
    while i < items.len()
        invariant
            *context == c0,
            c0 == *old(context),
            m == seq_model::<C, T>(items@),
            0 <= i <= items.len(),
            m.len() == items@.len(),
            write@ == old(write)@ + seq_wire::<C, T>(m.take(i as int), c0),
            forall|j: int| 0 <= j < i ==> T::encode_ok(#[trigger] m[j], c0),
        decreases items.len() - i,
    {
        let ghost w_i = write@;
        match T::encode(&items[i], context, write) {
            Ok(()) => {
                proof {
                    assert(m[i as int] == T::model(items@[i as int]));
                    lemma_seq_wire_snoc::<C, T>(m.take(i as int), m[i as int], c0);
                    assert(m.take(i as int).push(m[i as int]) =~= m.take(i + 1));
                    assert(write@ =~= old(write)@ + seq_wire::<C, T>(m.take(i + 1), c0));
                }
                i = i + 1;
            },
            Err(e) => {
                proof {
                    assert(m[i as int] == T::model(items@[i as int]));
                    assert(!seq_encode_ok::<C, T>(m, c0));
                    assert(final(write)@.take(old(write)@.len() as int) =~= old(write)@);
                }
                return Err(e);
            },
        }
    }
    proof {
        assert(m.take(items@.len() as int) =~= m);
    }
    Ok(())
}


/// Element runs encode piecewise: the bytes of a concatenation are the
/// concatenated bytes.
pub proof fn lemma_seq_wire_concat<C, T: PacketComponent<C>>(a: Seq<T::Model>, b: Seq<T::Model>, c: C)
    ensures
        seq_wire::<C, T>(a + b, c) == seq_wire::<C, T>(a, c) + seq_wire::<C, T>(b, c),
    decreases a.len(),
{
    if a.len() == 0 {
        assert(a + b =~= b);
        assert(seq_wire::<C, T>(a, c) + seq_wire::<C, T>(b, c) =~= seq_wire::<C, T>(b, c));
    } else {
        assert((a + b)[0] == a[0]);
        assert((a + b).drop_first() =~= a.drop_first() + b);
        lemma_seq_wire_concat::<C, T>(a.drop_first(), b, c);
        assert(T::wire(a[0], c) + (seq_wire::<C, T>(a.drop_first(), c) + seq_wire::<C, T>(b, c))
            =~= (T::wire(a[0], c) + seq_wire::<C, T>(a.drop_first(), c)) + seq_wire::<C, T>(b, c));
    }
}

/// A sequence encodes as a variable-length-integer count prefix followed by
/// that many element encodings in order. A negative decoded count yields an
/// empty sequence.
impl<C, T: PacketComponent<C>> PacketComponent<C> for Vec<T> {
    type ComponentType = Vec<T::ComponentType>;

    type Model = Seq<T::Model>;

    open spec fn model(v: Vec<T::ComponentType>) -> Seq<T::Model> {
        seq_model::<C, T>(v@)
    }

    open spec fn wire(m: Seq<T::Model>, c: C) -> Seq<u8> {
        spec_var32_wire(m.len() as i32) + seq_wire::<C, T>(m, c)
    }

    open spec fn parse(s: Seq<u8>, c: C) -> Result<(Seq<T::Model>, int), TransportError> {
        match spec_var32_parse(s) {
            Ok((len, k)) => match seq_parse::<C, T>(s.skip(k), c, len as int) {
                Ok((elems, m)) => Ok((elems, k + m)),
                Err(e) => Err(e),
            },
            Err(e) => Err(e),
        }
    }

    open spec fn encode_ok(m: Seq<T::Model>, c: C) -> bool {
        m.len() <= i32::MAX && seq_encode_ok::<C, T>(m, c)
    }

    open spec fn encodable(m: Seq<T::Model>, c: C) -> bool {
        m.len() <= i32::MAX && seq_encodable::<C, T>(m, c) && (m.len() >= 2 ==> T::non_tail())
    }

    open spec fn size_constant(m: Seq<T::Model>, c: C) -> bool {
        false
    }

    open spec fn non_tail() -> bool {
        T::non_tail()
    }

    fn decode(context: &mut C, read: &mut ByteReader) -> (res: DraxResult<Vec<T::ComponentType>>) {
        proof {
            use_type_invariant(&*read);
        }
        let len = match read_var_int(read) {
            Ok(l) => l,
            Err(e) => {
                return Err(e);
            },
        };
        let ghost k = read.position() - old(read).position();
        let ghost mid_rem = read.remaining();
        proof {
            crate::transport::lemma_skip_skip(old(read).data_seq(), old(read).position(), k);
            assert(old(read).remaining().skip(k) == mid_rem);
        }
        let count: usize = if len < 0 {
            0
        } else {
            len as usize
        };
        let res = decode_elements::<C, T>(count, context, read);
        res
    }

    fn encode(component_ref: &Vec<T::ComponentType>, context: &mut C, write: &mut Vec<u8>) -> (res:
        DraxResult<()>)
        ensures
            component_ref@.len() > i32::MAX ==> res == Err::<(), TransportError>(
                TransportError::LimitExceeded(0x7fff_ffff, 0x7fff_ffff, "encoding vec"),
            ),
    {
        let ghost m = Self::model(*component_ref);
        if component_ref.len() > 0x7fff_ffffusize {
            proof {
                assert(m.len() == component_ref@.len());
                assert(final(write)@.take(old(write)@.len() as int) =~= old(write)@);
            }
            return TransportError::limit_exceeded(0x7fff_ffff, 0x7fff_ffff, "encoding vec");
        }
        let len_i32: i32 = component_ref.len() as i32;
        write_var_int(write, len_i32);
        let ghost w1 = write@;
        let res = encode_elements::<C, T>(component_ref, context, write);
        proof {
            assert(m.len() == component_ref@.len());
            match res {
                Ok(()) => {
                    assert(final(write)@ =~= old(write)@ + Self::wire(m, *old(context)));
                },
                Err(_) => {
                    assert(final(write)@.take(old(write)@.len() as int) =~= old(write)@);
                },
            }
        }
        res
    }

    fn size(input: &Vec<T::ComponentType>, context: &mut C) -> (res: DraxResult<Size>) {
        let ghost m = Self::model(*input);
        let ghost c0 = *old(context);
        let ghost hyp = Self::encode_ok(m, c0) && Self::wire(m, c0).len() <= usize::MAX;
        proof {
            assert(m.len() == input@.len());
        }
        let len_i32: i32 = #[verifier::truncate] (input.len() as i32);
        let mut sz = Size::Dynamic(size_var_int(len_i32));
        let ghost prefix_len = spec_var32_wire(len_i32).len();
        proof {
            assert(seq_wire::<C, T>(m.take(0), c0) =~= Seq::<u8>::empty());
        }
        let mut i: usize = 0;
        while i < input.len()
            invariant
                *context == c0,
                c0 == *old(context),
                m == Self::model(*input),
                m.len() == input@.len(),
                hyp == (Self::encode_ok(m, c0) && Self::wire(m, c0).len() <= usize::MAX),
                prefix_len == spec_var32_wire(len_i32).len(),
                hyp ==> len_i32 == m.len() as i32,
                0 <= i <= input.len(),
                sz is Dynamic,
                hyp ==> sz.spec_count() == prefix_len + seq_wire::<C, T>(m.take(i as int), c0).len(),
            decreases input.len() - i,
        {
            proof {
                if hyp {
                    assert(T::encode_ok(m[i as int], c0));
                    lemma_seq_wire_elem_bound::<C, T>(m, c0, i as int);
                    assert(Self::wire(m, c0).len() == prefix_len + seq_wire::<C, T>(m, c0).len());
                    assert(m =~= m.take(i + 1) + m.skip(i + 1));
                    lemma_seq_wire_concat::<C, T>(m.take(i + 1), m.skip(i + 1), c0);
                    lemma_seq_wire_snoc::<C, T>(m.take(i as int), m[i as int], c0);
                    assert(m.take(i as int).push(m[i as int]) =~= m.take(i + 1));
                }
            }
            match T::size(&input[i], context) {
                Ok(elem_sz) => {
                    sz = sz.combine(elem_sz);
                    i = i + 1;
                },
                Err(e) => {
                    return Err(e);
                },
            }
        }
        proof {
            if hyp {
                assert(m.take(input@.len() as int) =~= m);
            }
        }
        Ok(sz)
    }

    proof fn lemma_parse_bounds(s: Seq<u8>, c: C) {
        lemma_var32_parse_bounds(s, 0, 0);
        match spec_var32_parse(s) {
            Ok((len, k)) => {
                lemma_seq_parse_bounds::<C, T>(s.skip(k), c, len as int);
            },
            Err(_) => {},
        }
    }

    proof fn lemma_round_trip(m: Seq<T::Model>, c: C) {
        assert forall|i: int| 0 <= i < m.len() implies T::encode_ok(#[trigger] m[i], c) by {
            T::lemma_round_trip(m[i], c);
        }
        let len_i32 = m.len() as i32;
        let wn = spec_var32_wire(len_i32);
        let we = seq_wire::<C, T>(m, c);
        lemma_var32_round_trip(len_i32, we);
        assert(Self::wire(m, c) == wn + we);
        assert((wn + we).skip(wn.len() as int) =~= we);
        lemma_seq_round_trip::<C, T>(m, c);
    }

    proof fn lemma_round_trip_prefix(m: Seq<T::Model>, c: C, rest: Seq<u8>) {
        let len_i32 = m.len() as i32;
        let wn = spec_var32_wire(len_i32);
        let we = seq_wire::<C, T>(m, c);
        lemma_var32_round_trip(len_i32, we + rest);
        assert(Self::wire(m, c) + rest =~= wn + (we + rest));
        assert((wn + (we + rest)).skip(wn.len() as int) =~= we + rest);
        lemma_seq_round_trip_prefix::<C, T>(m, c, rest);
        assert(Self::wire(m, c).len() == wn.len() + we.len());
    }
}


/// Appends every byte of `bytes` to the sink.
pub fn append_bytes(write: &mut Vec<u8>, bytes: &Vec<u8>)
    ensures
        final(write)@ == old(write)@ + bytes@,
{
    let mut i: usize = 0;
    proof {
        assert(write@ =~= old(write)@ + bytes@.take(0));
    }
    while i < bytes.len()
        invariant
            0 <= i <= bytes.len(),
            write@ == old(write)@ + bytes@.take(i as int),
        decreases bytes.len() - i,
    {
        write.push(bytes[i]);
        proof {
            assert(bytes@.take(i as int).push(bytes@[i as int]) =~= bytes@.take(i + 1));
            assert(write@ =~= old(write)@ + bytes@.take(i + 1));
        }
        i = i + 1;
    }
    proof {
        assert(bytes@.take(bytes@.len() as int) =~= bytes@);
    }
}

/// A delegate struct which encodes and decodes a `Vec<u8>` type.
///
/// This delegate instructs the reader to read the entirety of the remaining
/// bytes into the `Vec<u8>` type; no length prefix frames the bytes, so it
/// belongs only where the surrounding framing already bounds the stream.
pub struct ByteDrain;

impl<C> PacketComponent<C> for ByteDrain {
    type ComponentType = Vec<u8>;

    type Model = Seq<u8>;

    open spec fn model(v: Vec<u8>) -> Seq<u8> {
        v@
    }

    open spec fn wire(m: Seq<u8>, c: C) -> Seq<u8> {
        m
    }

    open spec fn parse(s: Seq<u8>, c: C) -> Result<(Seq<u8>, int), TransportError> {
        Ok((s, s.len() as int))
    }

    open spec fn encode_ok(m: Seq<u8>, c: C) -> bool {
        true
    }

    open spec fn encodable(m: Seq<u8>, c: C) -> bool {
        true
    }

    open spec fn size_constant(m: Seq<u8>, c: C) -> bool {
        false
    }

    open spec fn non_tail() -> bool {
        false
    }

    fn decode(context: &mut C, read: &mut ByteReader) -> (res: DraxResult<Vec<u8>>) {
        proof {
            use_type_invariant(&*read);
        }
        let bytes = read.read_to_end();
        Ok(bytes)
    }

    fn encode(component_ref: &Vec<u8>, context: &mut C, write: &mut Vec<u8>) -> (res: DraxResult<
        (),
    >) {
        append_bytes(write, component_ref);
        Ok(())
    }

    fn size(input: &Vec<u8>, context: &mut C) -> (res: DraxResult<Size>) {
        Ok(Size::Dynamic(input.len()))
    }

    proof fn lemma_parse_bounds(s: Seq<u8>, c: C) {
    }

    proof fn lemma_round_trip(m: Seq<u8>, c: C) {
    }

    proof fn lemma_round_trip_prefix(m: Seq<u8>, c: C, rest: Seq<u8>) {
    }
}

/// A delegate struct which encodes and decodes a `Vec<u8>` type.
///
/// The bytes are framed by a variable-length-integer count prefix and copied
/// raw, without per-element work.
pub struct VecU8;

impl<C> PacketComponent<C> for VecU8 {
    type ComponentType = Vec<u8>;

    type Model = Seq<u8>;

    open spec fn model(v: Vec<u8>) -> Seq<u8> {
        v@
    }

    open spec fn wire(m: Seq<u8>, c: C) -> Seq<u8> {
        spec_var32_wire(m.len() as i32) + m
    }

    open spec fn parse(s: Seq<u8>, c: C) -> Result<(Seq<u8>, int), TransportError> {
        match spec_var32_parse(s) {
            Ok((len, k)) => {
                let n = len as usize;
                if s.skip(k).len() < n {
                    Err(TransportError::EOF)
                } else {
                    Ok((s.skip(k).take(n as int), k + n))
                }
            },
            Err(e) => Err(e),
        }
    }

    open spec fn encode_ok(m: Seq<u8>, c: C) -> bool {
        m.len() <= i32::MAX
    }

    open spec fn encodable(m: Seq<u8>, c: C) -> bool {
        m.len() <= i32::MAX
    }

    open spec fn size_constant(m: Seq<u8>, c: C) -> bool {
        false
    }

    fn decode(context: &mut C, read: &mut ByteReader) -> (res: DraxResult<Vec<u8>>) {
        proof {
            use_type_invariant(&*read);
        }
        let len = match read_var_int(read) {
            Ok(l) => l,
            Err(e) => {
                return Err(e);
            },
        };
        let ghost k = read.position() - old(read).position();
        proof {
            crate::transport::lemma_skip_skip(old(read).data_seq(), old(read).position(), k);
            assert(read.remaining() == old(read).remaining().skip(k));
        }
        let n: usize = #[verifier::truncate] (len as usize);
        match read.read_exact(n) {
            Ok(bytes) => Ok(bytes),
            Err(e) => Err(e),
        }
    }

    fn encode(component_ref: &Vec<u8>, context: &mut C, write: &mut Vec<u8>) -> (res: DraxResult<
        (),
    >)
        ensures
            component_ref@.len() > i32::MAX ==> res == Err::<(), TransportError>(
                TransportError::LimitExceeded(0x7fff_ffff, 0x7fff_ffff, "encoding vec"),
            ),
    {
        if component_ref.len() > 0x7fff_ffffusize {
            proof {
                assert(final(write)@.take(old(write)@.len() as int) =~= old(write)@);
            }
            return TransportError::limit_exceeded(0x7fff_ffff, 0x7fff_ffff, "encoding vec");
        }
        write_var_int(write, component_ref.len() as i32);
        append_bytes(write, component_ref);
        proof {
            assert(final(write)@ =~= old(write)@ + Self::wire(component_ref@, *old(context)));
        }
        Ok(())
    }

    fn size(input: &Vec<u8>, context: &mut C) -> (res: DraxResult<Size>) {
        let prefix = size_var_int(#[verifier::truncate] (input.len() as i32));
        Ok(Size::Dynamic(prefix).add_bytes(input.len()))
    }

    proof fn lemma_parse_bounds(s: Seq<u8>, c: C) {
        lemma_var32_parse_bounds(s, 0, 0);
    }

    proof fn lemma_round_trip(m: Seq<u8>, c: C) {
        lemma_var32_round_trip(m.len() as i32, m);
        let wn = spec_var32_wire(m.len() as i32);
        assert((wn + m).skip(wn.len() as int) =~= m);
        assert(m.take(m.len() as int) =~= m);
    }

    proof fn lemma_round_trip_prefix(m: Seq<u8>, c: C, rest: Seq<u8>) {
        lemma_var32_round_trip(m.len() as i32, m + rest);
        let wn = spec_var32_wire(m.len() as i32);
        assert(Self::wire(m, c) + rest =~= wn + (m + rest));
        assert((wn + (m + rest)).skip(wn.len() as int) =~= m + rest);
        assert((m + rest).take(m.len() as int) =~= m);
        assert(Self::wire(m, c).len() == wn.len() + m.len());
    }
}

/// A delegate struct which encodes and decodes a byte array of a fixed
/// compile-time length.
///
/// Exactly `N` raw bytes cross the wire, with no length prefix: the length
/// is known to both sides ahead of time. The represented value is a byte
/// vector whose length must equal `N`.
pub struct SliceU8<const N: usize>;

impl<C, const N: usize> PacketComponent<C> for SliceU8<N> {
    type ComponentType = Vec<u8>;

    type Model = Seq<u8>;

    open spec fn model(v: Vec<u8>) -> Seq<u8> {
        v@
    }

    open spec fn wire(m: Seq<u8>, c: C) -> Seq<u8> {
        m
    }

    open spec fn parse(s: Seq<u8>, c: C) -> Result<(Seq<u8>, int), TransportError> {
        if s.len() < N {
            Err(TransportError::EOF)
        } else {
            Ok((s.take(N as int), N as int))
        }
    }

    open spec fn encode_ok(m: Seq<u8>, c: C) -> bool {
        m.len() == N
    }

    open spec fn encodable(m: Seq<u8>, c: C) -> bool {
        m.len() == N
    }

    open spec fn size_constant(m: Seq<u8>, c: C) -> bool {
        true
    }

    fn decode(context: &mut C, read: &mut ByteReader) -> (res: DraxResult<Vec<u8>>) {
        proof {
            use_type_invariant(&*read);
        }
        read.read_exact(N)
    }

    fn encode(component_ref: &Vec<u8>, context: &mut C, write: &mut Vec<u8>) -> (res: DraxResult<
        (),
    >) {
        if component_ref.len() != N {
            proof {
                assert(final(write)@.take(old(write)@.len() as int) =~= old(write)@);
            }
            return TransportError::limit_exceeded(
                saturate_i32(N),
                saturate_i32(component_ref.len()),
                "encoding slice",
            );
        }
        append_bytes(write, component_ref);
        Ok(())
    }

    fn size(input: &Vec<u8>, context: &mut C) -> (res: DraxResult<Size>) {
        Ok(Size::Constant(N))
    }

    proof fn lemma_parse_bounds(s: Seq<u8>, c: C) {
    }

    proof fn lemma_round_trip(m: Seq<u8>, c: C) {
        assert(m.take(N as int) =~= m);
    }

    proof fn lemma_round_trip_prefix(m: Seq<u8>, c: C, rest: Seq<u8>) {
        assert((m + rest).take(N as int) =~= m);
    }
}


/// A delegate struct which limits the size of a `Vec<T>` when encoding or
/// decoding to the given constant limit.
///
/// Both directions compare the element count against `N` before any
/// element-level work: a declared count beyond the limit is rejected right
/// after the count prefix, with no element bytes consumed.
pub struct LimitedVec<T, const N: usize> {
    _phantom_t: core::marker::PhantomData<T>,
}

impl<C, T: PacketComponent<C>, const N: usize> PacketComponent<C> for LimitedVec<T, N> {
    type ComponentType = Vec<T::ComponentType>;

    type Model = Seq<T::Model>;

    open spec fn model(v: Vec<T::ComponentType>) -> Seq<T::Model> {
        seq_model::<C, T>(v@)
    }

    open spec fn wire(m: Seq<T::Model>, c: C) -> Seq<u8> {
        spec_var32_wire(m.len() as i32) + seq_wire::<C, T>(m, c)
    }

    open spec fn parse(s: Seq<u8>, c: C) -> Result<(Seq<T::Model>, int), TransportError> {
        match spec_var32_parse(s) {
            Ok((len, k)) => {
                if len as int > N as int {
                    Err(
                        TransportError::LimitExceeded(
                            spec_saturate_i32(N as int),
                            len,
                            "decoding vec",
                        ),
                    )
                } else {
                    match seq_parse::<C, T>(s.skip(k), c, len as int) {
                        Ok((elems, m)) => Ok((elems, k + m)),
                        Err(e) => Err(e),
                    }
                }
            },
            Err(e) => Err(e),
        }
    }

    open spec fn encode_ok(m: Seq<T::Model>, c: C) -> bool {
        m.len() <= N && m.len() <= i32::MAX && seq_encode_ok::<C, T>(m, c)
    }

    open spec fn encodable(m: Seq<T::Model>, c: C) -> bool {
        m.len() <= N && m.len() <= i32::MAX && seq_encodable::<C, T>(m, c) && (m.len() >= 2
            ==> T::non_tail())
    }

    open spec fn size_constant(m: Seq<T::Model>, c: C) -> bool {
        false
    }

    open spec fn non_tail() -> bool {
        T::non_tail()
    }

    fn decode(context: &mut C, read: &mut ByteReader) -> (res: DraxResult<Vec<T::ComponentType>>)
        ensures
            match spec_var32_parse(old(read).remaining()) {
                Ok((len, k)) => len as int > N as int ==> final(read).position() == old(
                    read,
                ).position() + k,
                Err(_) => true,
            },
    {
        proof {
            use_type_invariant(&*read);
        }
        let len = match read_var_int(read) {
            Ok(l) => l,
            Err(e) => {
                return Err(e);
            },
        };
        if len > 0 && (len as usize) > N {
            return TransportError::limit_exceeded(saturate_i32(N), len, "decoding vec");
        }
        let ghost k = read.position() - old(read).position();
        proof {
            crate::transport::lemma_skip_skip(old(read).data_seq(), old(read).position(), k);
            assert(read.remaining() == old(read).remaining().skip(k));
        }
        let count: usize = if len < 0 {
            0
        } else {
            len as usize
        };
        let res = decode_elements::<C, T>(count, context, read);
        res
    }

    fn encode(component_ref: &Vec<T::ComponentType>, context: &mut C, write: &mut Vec<u8>) -> (res:
        DraxResult<()>)
        ensures
            component_ref@.len() > N ==> res == Err::<(), TransportError>(
                TransportError::LimitExceeded(
                    spec_saturate_i32(N as int),
                    spec_saturate_i32(component_ref@.len() as int),
                    "encoding vec",
                ),
            ) && final(write)@ == old(write)@,
    {
        let ghost m = Self::model(*component_ref);
        proof {
            assert(m.len() == component_ref@.len());
        }
        if component_ref.len() > N {
            proof {
                assert(final(write)@.take(old(write)@.len() as int) =~= old(write)@);
            }
            return TransportError::limit_exceeded(
                saturate_i32(N),
                saturate_i32(component_ref.len()),
                "encoding vec",
            );
        }
        <Vec<T> as PacketComponent<C>>::encode(component_ref, context, write)
    }

    fn size(input: &Vec<T::ComponentType>, context: &mut C) -> (res: DraxResult<Size>) {
        <Vec<T> as PacketComponent<C>>::size(input, context)
    }

    proof fn lemma_parse_bounds(s: Seq<u8>, c: C) {
        lemma_var32_parse_bounds(s, 0, 0);
        match spec_var32_parse(s) {
            Ok((len, k)) => {
                lemma_seq_parse_bounds::<C, T>(s.skip(k), c, len as int);
            },
            Err(_) => {},
        }
    }

    proof fn lemma_round_trip(m: Seq<T::Model>, c: C) {
        assert forall|i: int| 0 <= i < m.len() implies T::encode_ok(#[trigger] m[i], c) by {
            T::lemma_round_trip(m[i], c);
        }
        let len_i32 = m.len() as i32;
        let wn = spec_var32_wire(len_i32);
        let we = seq_wire::<C, T>(m, c);
        lemma_var32_round_trip(len_i32, we);
        assert(Self::wire(m, c) == wn + we);
        assert((wn + we).skip(wn.len() as int) =~= we);
        lemma_seq_round_trip::<C, T>(m, c);
    }

    proof fn lemma_round_trip_prefix(m: Seq<T::Model>, c: C, rest: Seq<u8>) {
        let len_i32 = m.len() as i32;
        let wn = spec_var32_wire(len_i32);
        let we = seq_wire::<C, T>(m, c);
        lemma_var32_round_trip(len_i32, we + rest);
        assert(Self::wire(m, c) + rest =~= wn + (we + rest));
        assert((wn + (we + rest)).skip(wn.len() as int) =~= we + rest);
        lemma_seq_round_trip_prefix::<C, T>(m, c, rest);
        assert(Self::wire(m, c).len() == wn.len() + we.len());
    }
}

/// A delegate struct which encodes and decodes a fixed-count run of
/// elements.
///
/// No count prefix crosses the wire: exactly `N` elements are encoded and
/// decoded in order, and the represented vector's length must equal `N`.
/// The computed size is `Constant` exactly when every element reports a
/// constant size.
pub struct FixedArray<T, const N: usize> {
    _phantom_t: core::marker::PhantomData<T>,
}

impl<C, T: PacketComponent<C>, const N: usize> PacketComponent<C> for FixedArray<T, N> {
    type ComponentType = Vec<T::ComponentType>;

    type Model = Seq<T::Model>;

    open spec fn model(v: Vec<T::ComponentType>) -> Seq<T::Model> {
        seq_model::<C, T>(v@)
    }

    open spec fn wire(m: Seq<T::Model>, c: C) -> Seq<u8> {
        seq_wire::<C, T>(m, c)
    }

    open spec fn parse(s: Seq<u8>, c: C) -> Result<(Seq<T::Model>, int), TransportError> {
        seq_parse::<C, T>(s, c, N as int)
    }

    open spec fn encode_ok(m: Seq<T::Model>, c: C) -> bool {
        m.len() == N && seq_encode_ok::<C, T>(m, c)
    }

    open spec fn encodable(m: Seq<T::Model>, c: C) -> bool {
        m.len() == N && seq_encodable::<C, T>(m, c) && (m.len() >= 2 ==> T::non_tail())
    }

    open spec fn size_constant(m: Seq<T::Model>, c: C) -> bool {
        forall|i: int| 0 <= i < m.len() ==> T::size_constant(#[trigger] m[i], c)
    }

    open spec fn non_tail() -> bool {
        T::non_tail()
    }

    fn decode(context: &mut C, read: &mut ByteReader) -> (res: DraxResult<Vec<T::ComponentType>>) {
        decode_elements::<C, T>(N, context, read)
    }

    fn encode(component_ref: &Vec<T::ComponentType>, context: &mut C, write: &mut Vec<u8>) -> (res:
        DraxResult<()>)
    {
        let ghost m = Self::model(*component_ref);
        proof {
            assert(m.len() == component_ref@.len());
        }
        if component_ref.len() != N {
            proof {
                assert(final(write)@.take(old(write)@.len() as int) =~= old(write)@);
            }
            return TransportError::limit_exceeded(
                saturate_i32(N),
                saturate_i32(component_ref.len()),
                "encoding array",
            );
        }
        encode_elements::<C, T>(component_ref, context, write)
    }

    fn size(input: &Vec<T::ComponentType>, context: &mut C) -> (res: DraxResult<Size>) {
        let ghost m = Self::model(*input);
        let ghost c0 = *old(context);
        let ghost hyp = Self::encode_ok(m, c0) && Self::wire(m, c0).len() <= usize::MAX;
        proof {
            assert(m.len() == input@.len());
            assert(seq_wire::<C, T>(m.take(0), c0) =~= Seq::<u8>::empty());
        }
        let mut sz = Size::Constant(0);
        let mut i: usize = 0;
        while i < input.len()
            invariant
                *context == c0,
                c0 == *old(context),
                m == Self::model(*input),
                m.len() == input@.len(),
                hyp == (Self::encode_ok(m, c0) && Self::wire(m, c0).len() <= usize::MAX),
                0 <= i <= input.len(),
                hyp ==> (sz is Constant <==> (forall|j: int|
                    0 <= j < i ==> T::size_constant(#[trigger] m[j], c0))),
                hyp ==> sz.spec_count() == seq_wire::<C, T>(m.take(i as int), c0).len(),
            decreases input.len() - i,
        {
            proof {
                if hyp {
                    assert(T::encode_ok(m[i as int], c0));
                    lemma_seq_wire_elem_bound::<C, T>(m, c0, i as int);
                    assert(m =~= m.take(i + 1) + m.skip(i + 1));
                    lemma_seq_wire_concat::<C, T>(m.take(i + 1), m.skip(i + 1), c0);
                    lemma_seq_wire_snoc::<C, T>(m.take(i as int), m[i as int], c0);
                    assert(m.take(i as int).push(m[i as int]) =~= m.take(i + 1));
                }
            }
            match T::size(&input[i], context) {
                Ok(elem_sz) => {
                    sz = sz.combine(elem_sz);
                    i = i + 1;
                },
                Err(e) => {
                    return Err(e);
                },
            }
        }
        proof {
            if hyp {
                assert(m.take(input@.len() as int) =~= m);
            }
        }
        Ok(sz)
    }

    proof fn lemma_parse_bounds(s: Seq<u8>, c: C) {
        lemma_seq_parse_bounds::<C, T>(s, c, N as int);
    }

    proof fn lemma_round_trip(m: Seq<T::Model>, c: C) {
        assert forall|i: int| 0 <= i < m.len() implies T::encode_ok(#[trigger] m[i], c) by {
            T::lemma_round_trip(m[i], c);
        }
        lemma_seq_round_trip::<C, T>(m, c);
    }

    proof fn lemma_round_trip_prefix(m: Seq<T::Model>, c: C, rest: Seq<u8>) {
        lemma_seq_round_trip_prefix::<C, T>(m, c, rest);
    }
}

} // verus!
