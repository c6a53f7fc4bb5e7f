//! A composable binary codec framework for length-framed protocols.
//!
//! Every value shape is described by a delegate implementing
//! [`transport::PacketComponent`]: it can encode itself to bytes, decode
//! itself back, and report the exact number of bytes its encoding takes.
//! The wire formats (variable-length integers, big-endian primitives,
//! length-prefixed containers and strings, and a recursive tagged tree
//! format with depth and byte-budget guards) are pinned down by
//! specification functions, and every delegate is proved to round-trip.

pub mod error;
pub mod size;
pub mod transport;
pub mod delegate;
