//! Indirection delegates: exclusively-owned and shared-ownership wrappers
//! forward every operation unchanged to the contained type's contract and
//! add no wire format of their own.

use std::sync::Arc;

use vstd::prelude::*;

use crate::error::{DraxResult, TransportError};
use crate::size::Size;
use crate::transport::{ByteReader, PacketComponent};

verus! {

impl<C, T: PacketComponent<C>> PacketComponent<C> for Box<T> {
    type ComponentType = Box<T::ComponentType>;

    type Model = T::Model;

    open spec fn model(v: Box<T::ComponentType>) -> T::Model {
        T::model(*v)
    }

    open spec fn wire(m: T::Model, c: C) -> Seq<u8> {
        T::wire(m, c)
    }

    open spec fn parse(s: Seq<u8>, c: C) -> Result<(T::Model, int), TransportError> {
        T::parse(s, c)
    }

    open spec fn encode_ok(m: T::Model, c: C) -> bool {
        T::encode_ok(m, c)
    }

    open spec fn encodable(m: T::Model, c: C) -> bool {
        T::encodable(m, c)
    }

    open spec fn size_constant(m: T::Model, c: C) -> bool {
        T::size_constant(m, c)
    }

    open spec fn non_tail() -> bool {
        T::non_tail()
    }

    fn decode(context: &mut C, read: &mut ByteReader) -> (res: DraxResult<Box<T::ComponentType>>) {
        match T::decode(context, read) {
            Ok(component) => Ok(Box::new(component)),
            Err(e) => Err(e),
        }
    }

    fn encode(component_ref: &Box<T::ComponentType>, context: &mut C, write: &mut Vec<u8>) -> (res:
        DraxResult<()>)
    {
        T::encode(&**component_ref, context, write)
    }

    fn size(input: &Box<T::ComponentType>, context: &mut C) -> (res: DraxResult<Size>) {
        T::size(&**input, context)
    }

    proof fn lemma_parse_bounds(s: Seq<u8>, c: C) {
        T::lemma_parse_bounds(s, c);
    }

    proof fn lemma_round_trip(m: T::Model, c: C) {
        T::lemma_round_trip(m, c);
    }

    proof fn lemma_round_trip_prefix(m: T::Model, c: C, rest: Seq<u8>) {
        T::lemma_round_trip_prefix(m, c, rest);
    }
}

impl<C, T: PacketComponent<C>> PacketComponent<C> for Arc<T> {
    type ComponentType = Arc<T::ComponentType>;

    type Model = T::Model;

    open spec fn model(v: Arc<T::ComponentType>) -> T::Model {
        T::model(*v)
    }

    open spec fn wire(m: T::Model, c: C) -> Seq<u8> {
        T::wire(m, c)
    }

    open spec fn parse(s: Seq<u8>, c: C) -> Result<(T::Model, int), TransportError> {
        T::parse(s, c)
    }

    open spec fn encode_ok(m: T::Model, c: C) -> bool {
        T::encode_ok(m, c)
    }

    open spec fn encodable(m: T::Model, c: C) -> bool {
        T::encodable(m, c)
    }

    open spec fn size_constant(m: T::Model, c: C) -> bool {
        T::size_constant(m, c)
    }

    open spec fn non_tail() -> bool {
        T::non_tail()
    }

    fn decode(context: &mut C, read: &mut ByteReader) -> (res: DraxResult<Arc<T::ComponentType>>) {
        match T::decode(context, read) {
            Ok(component) => Ok(Arc::new(component)),
            Err(e) => Err(e),
        }
    }

    fn encode(component_ref: &Arc<T::ComponentType>, context: &mut C, write: &mut Vec<u8>) -> (res:
        DraxResult<()>)
    {
        T::encode(&**component_ref, context, write)
    }

    fn size(input: &Arc<T::ComponentType>, context: &mut C) -> (res: DraxResult<Size>) {
        T::size(&**input, context)
    }

    proof fn lemma_parse_bounds(s: Seq<u8>, c: C) {
        T::lemma_parse_bounds(s, c);
    }

    proof fn lemma_round_trip(m: T::Model, c: C) {
        T::lemma_round_trip(m, c);
    }

    proof fn lemma_round_trip_prefix(m: T::Model, c: C, rest: Seq<u8>) {
        T::lemma_round_trip_prefix(m, c, rest);
    }
}

} // verus!
