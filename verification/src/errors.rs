//! The error kinds that allocator operations can report.

use vstd::prelude::*;

verus! {

/// Every failure an allocator operation can report.
///
/// Each operation's contract states exactly which inputs produce which
/// variant; none of these conditions is silently recovered.
#[derive(Clone, Copy, Debug, PartialEq, Eq, Structural)]
pub enum VallocError {
    /// An allocation or reallocation of zero bytes was requested.
    ZeroSizeRequest,
    /// No free chunk is large enough for the requested size.
    OutOfMemory,
    /// The given location is not the base of any tracked chunk.
    InvalidPointer,
    /// The chunk at the given base is already free.
    DoubleFree,
    /// A NULL handle was passed where a live one is required.
    NullPointerDereference,
    /// A read or write touched bytes outside every in-use chunk.
    InvalidAddress,
    /// A reallocation target exceeds the arena capacity.
    CapacityExceeded,
}

} // verus!
