//! Error types for encoding and decoding failures.

use vstd::prelude::*;

verus! {

/// Errors raised by the tree (tag) codec.
#[derive(Debug, Clone, PartialEq)]
pub enum NbtError {
    /// The recursion depth guard tripped: nesting surpassed 512 levels.
    ComplexTag,
    /// An unrecognized tag-kind discriminant was read while decoding a tree.
    InvalidTagBit(u8),
    /// The cumulative byte budget was exceeded: expected limit, running total.
    TagTooBig(u64, u64),
    /// The byte-budget accumulator overflowed.
    AccounterOverflow,
    /// Bytes were not valid modified UTF-8.
    Cesu8DecodingError,
}

/// Errors which can occur during transport layer operations.
#[derive(Debug, Clone, PartialEq)]
pub enum TransportError {
    /// The stream ended before a value was fully read.
    EOF,
    /// A variable-length integer did not terminate within its byte ceiling.
    VarNumTooLarge,
    /// Bytes were not valid UTF-8.
    Utf8Error,
    /// A limit was exceeded: expected cap, received amount, operation label.
    LimitExceeded(i32, i32, &'static str),
    /// A tree codec error.
    NbtError(NbtError),
}

/// Result type alias for transport errors.
pub type DraxResult<T> = Result<T, TransportError>;

impl TransportError {
    /// Builds the limit failure an operation reports when a length or count
    /// exceeds its configured cap.
    pub fn limit_exceeded<T>(expected: i32, received: i32, context: &'static str) -> (r: DraxResult<
        T,
    >)
        ensures
            r == Err::<T, TransportError>(TransportError::LimitExceeded(
                expected,
                received,
                context,
            )),
    {
        Err(TransportError::LimitExceeded(expected, received, context))
    }
}

impl NbtError {
    /// The failure reported when the tree depth guard trips.
    pub fn complex_tag<T>() -> (r: DraxResult<T>)
        ensures
            r == Err::<T, TransportError>(TransportError::NbtError(NbtError::ComplexTag)),
    {
        Err(TransportError::NbtError(NbtError::ComplexTag))
    }

    /// The failure reported for an unrecognized tag-kind byte.
    pub fn invalid_tag_bit<T>(bit: u8) -> (r: DraxResult<T>)
        ensures
            r == Err::<T, TransportError>(TransportError::NbtError(NbtError::InvalidTagBit(bit))),
    {
        Err(TransportError::NbtError(NbtError::InvalidTagBit(bit)))
    }

    /// The failure reported when the byte budget is exceeded.
    pub fn tag_too_big<T>(expected: u64, received: u64) -> (r: DraxResult<T>)
        ensures
            r == Err::<T, TransportError>(TransportError::NbtError(NbtError::TagTooBig(
                expected,
                received,
            ))),
    {
        Err(TransportError::NbtError(NbtError::TagTooBig(expected, received)))
    }

    /// The failure reported when the byte-budget accumulator overflows.
    pub fn accounter_overflow<T>() -> (r: DraxResult<T>)
        ensures
            r == Err::<T, TransportError>(TransportError::NbtError(NbtError::AccounterOverflow)),
    {
        Err(TransportError::NbtError(NbtError::AccounterOverflow))
    }
}


/// A count as it is reported inside a `LimitExceeded` failure: counts beyond
/// `i32::MAX` saturate to it.
pub open spec fn spec_saturate_i32(n: int) -> i32 {
    if n > i32::MAX {
        i32::MAX
    } else {
        n as i32
    }
}

/// Returns `n` saturated to `i32::MAX`, for reporting inside a
/// `LimitExceeded` failure.
pub fn saturate_i32(n: usize) -> (r: i32)
    ensures
        r == spec_saturate_i32(n as int),
{
    if n > 0x7fff_ffffusize {
        0x7fff_ffff
    } else {
        n as i32
    }
}

} // verus!
