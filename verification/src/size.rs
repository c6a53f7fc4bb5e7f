//! The size-accounting algebra: a computed byte length tagged by whether it
//! is the same for every instance of its type.

use vstd::prelude::*;

verus! {

/// Declares the size in bytes of a packet component.
#[derive(Clone, Copy, Debug, Eq, PartialEq, Structural)]
pub enum Size {
    /// The size of the packet is dynamic and cannot be optimized, the size
    /// must be calculated for each packet.
    Dynamic(usize),
    /// The size of the packet is constant and can be optimized by caching
    /// the size of the packet type.
    Constant(usize),
}

impl Size {
    /// The byte count carried by this size, whichever variant holds it.
    pub open spec fn spec_count(self) -> int {
        match self {
            Size::Dynamic(x) => x as int,
            Size::Constant(x) => x as int,
        }
    }

    /// Returns the byte count carried by this size.
    pub fn count(self) -> (r: usize)
        ensures
            r as int == self.spec_count(),
    {
        match self {
            Size::Dynamic(x) => x,
            Size::Constant(x) => x,
        }
    }

    /// Combines two sizes: the counts always sum; the result is `Constant`
    /// exactly when both operands are `Constant`. When the sum does not fit
    /// in `usize` the count saturates.
    pub fn combine(self, rhs: Size) -> (r: Size)
        ensures
            r is Constant <==> (self is Constant && rhs is Constant),
            self.spec_count() + rhs.spec_count() <= usize::MAX ==> r.spec_count()
                == self.spec_count() + rhs.spec_count(),
    {
        let x = self.count();
        let y = rhs.count();
        let sum: usize = if x <= usize::MAX - y {
            x + y
        } else {
            usize::MAX
        };
        match (self, rhs) {
            (Size::Constant(_), Size::Constant(_)) => Size::Constant(sum),
            _ => Size::Dynamic(sum),
        }
    }

    /// Adds a raw byte count; the result is always `Dynamic`. When the sum
    /// does not fit in `usize` the count saturates.
    pub fn add_bytes(self, rhs: usize) -> (r: Size)
        ensures
            r is Dynamic,
            self.spec_count() + rhs <= usize::MAX ==> r.spec_count() == self.spec_count() + rhs,
    {
        let x = self.count();
        let sum: usize = if x <= usize::MAX - rhs {
            x + rhs
        } else {
            usize::MAX
        };
        Size::Dynamic(sum)
    }
}

} // verus!
