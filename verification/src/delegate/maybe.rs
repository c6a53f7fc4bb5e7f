//! The optional-value delegate: one presence byte, then the inner value's
//! encoding if present.

use vstd::prelude::*;

use crate::error::{DraxResult, TransportError};
use crate::size::Size;
use crate::transport::{ByteReader, PacketComponent};

verus! {

/// A delegate struct which encodes and decodes an `Option<T>` type.
///
/// This delegate encodes the existence of an `Option<T>` as a single byte
/// which is either `0x0` or `0x1`; a present value's encoding follows its
/// presence byte. Decoding accepts any nonzero presence byte.
pub struct Maybe<T> {
    _phantom_t: core::marker::PhantomData<T>,
}

impl<C, T: PacketComponent<C>> PacketComponent<C> for Maybe<T> {
    type ComponentType = Option<T::ComponentType>;

    type Model = Option<T::Model>;

    open spec fn model(v: Option<T::ComponentType>) -> Option<T::Model> {
        match v {
            Some(x) => Some(T::model(x)),
            None => None,
        }
    }

    open spec fn wire(v: Option<T::Model>, c: C) -> Seq<u8> {
        match v {
            Some(x) => seq![1u8] + T::wire(x, c),
            None => seq![0u8],
        }
    }

    open spec fn parse(s: Seq<u8>, c: C) -> Result<(Option<T::Model>, int), TransportError> {
        if s.len() == 0 {
            Err(TransportError::EOF)
        } else if s[0] == 0 {
            Ok((None, 1))
        } else {
            match T::parse(s.skip(1), c) {
                Ok((x, n)) => Ok((Some(x), n + 1)),
                Err(e) => Err(e),
            }
        }
    }

    open spec fn encode_ok(v: Option<T::Model>, c: C) -> bool {
        match v {
            Some(x) => T::encode_ok(x, c),
            None => true,
        }
    }

    open spec fn encodable(v: Option<T::Model>, c: C) -> bool {
        match v {
            Some(x) => T::encodable(x, c),
            None => true,
        }
    }

    open spec fn size_constant(v: Option<T::Model>, c: C) -> bool {
        match v {
            Some(x) => T::size_constant(x, c),
            None => true,
        }
    }

    open spec fn non_tail() -> bool {
        T::non_tail()
    }

    fn decode(context: &mut C, read: &mut ByteReader) -> (res: DraxResult<
        Option<T::ComponentType>,
    >) {
        proof {
            use_type_invariant(&*read);
        }
        let b = match read.read_u8() {
            Ok(b) => b,
            Err(e) => {
                return Err(e);
            },
        };
        if b == 0 {
            Ok(None)
        } else {
            proof {
                assert(read.remaining() =~= old(read).remaining().skip(1));
            }
            match T::decode(context, read) {
                Ok(x) => Ok(Some(x)),
                Err(e) => Err(e),
            }
        }
    }

    fn encode(component_ref: &Option<T::ComponentType>, context: &mut C, write: &mut Vec<u8>) -> (
        res: DraxResult<()>)
    {
        match component_ref {
            Some(x) => {
                write.push(1);
                let ghost mid = write@;
                match T::encode(x, context, write) {
                    Ok(()) => {
                        proof {
                            assert(final(write)@ =~= old(write)@ + Self::wire(
                                Self::model(*component_ref),
                                *old(context),
                            ));
                        }
                        Ok(())
                    },
                    Err(e) => {
                        proof {
                            assert(final(write)@.take(old(write)@.len() as int) =~= old(write)@);
                        }
                        Err(e)
                    },
                }
            },
            None => {
                write.push(0);
                proof {
                    assert(final(write)@ =~= old(write)@ + seq![0u8]);
                }
                Ok(())
            },
        }
    }

    fn size(input: &Option<T::ComponentType>, context: &mut C) -> (res: DraxResult<Size>) {
        match input {
            Some(x) => {
                match T::size(x, context) {
                    Ok(sz) => Ok(Size::Constant(1).combine(sz)),
                    Err(e) => Err(e),
                }
            },
            None => Ok(Size::Constant(1)),
        }
    }

    proof fn lemma_parse_bounds(s: Seq<u8>, c: C) {
        if s.len() > 0 && s[0] != 0 {
            T::lemma_parse_bounds(s.skip(1), c);
        }
    }

    proof fn lemma_round_trip(v: Option<T::Model>, c: C) {
        match v {
            Some(x) => {
                T::lemma_round_trip(x, c);
                let w = Self::wire(v, c);
                assert(w[0] == 1);
                assert(w.skip(1) =~= T::wire(x, c));
            },
            None => {},
        }
    }

    proof fn lemma_round_trip_prefix(v: Option<T::Model>, c: C, rest: Seq<u8>) {
        let w = Self::wire(v, c) + rest;
        match v {
            Some(x) => {
                T::lemma_round_trip_prefix(x, c, rest);
                assert(w[0] == 1);
                assert(w.skip(1) =~= T::wire(x, c) + rest);
            },
            None => {
                assert(w[0] == 0);
            },
        }
    }
}


/// An absent value decodes from its single zero presence byte alone: the
/// trailing bytes play no part.
pub proof fn lemma_maybe_absent_ignores_trailing<C, T: PacketComponent<C>>(rest: Seq<u8>, c: C)
    ensures
        <Maybe<T> as PacketComponent<C>>::parse(seq![0u8] + rest, c) == Ok::<
            (Option<T::Model>, int),
            TransportError,
        >((None, 1)),
{
    let s = seq![0u8] + rest;
    assert(s[0] == 0);
}

} // verus!
