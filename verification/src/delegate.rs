//! Packet component implementations for common shapes: primitives,
//! variable-length integers, containers, strings, and the recursive tree
//! (tag) format.

pub mod map;
pub mod maybe;
pub mod nbt;
pub mod primitive;
pub mod referenced;
pub mod text;
pub mod var_num;
pub mod vec;
