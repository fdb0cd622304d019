//! The error type shared by the layers of the memory system.

use vstd::prelude::*;

verus! {

/// Why a free request was refused.
///
/// Exhaustion is reported by `None` results of the allocation functions;
/// this type covers the contract violations that the allocator detects on
/// the free path.  Each variant carries the offending address, and
/// `OutOfRange` also carries the three bounds of the managed range so a
/// caller can report a full diagnostic.
#[derive(Clone, Copy, Debug, PartialEq, Eq, Structural)]
pub enum MemError {
    /// The address lies outside both the kernel and the user region.
    OutOfRange { addr: usize, kernel_start: usize, user_start: usize, memory_end: usize },
    /// The address lies in a region, but no pool of that region contains it.
    NotContained { addr: usize },
    /// The containing pool's bitmap bit for this slot was already clear.
    DoubleFree { addr: usize },
}

} // verus!
