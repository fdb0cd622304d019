//! A two-layer bare-metal memory allocator.
//!
//! The managed physical range is modelled as an arena of bytes owned by the
//! page layer.  The page layer carves the range into fixed-size frames and
//! serves multi-frame contiguous requests; the heap layer sits on top of it
//! and serves arbitrary byte-sized requests from slab pools of power-of-two
//! size classes, each pool backed by a run of page frames and tracked by a
//! bitmap.  A manager facade dispatches frees to the kernel or the user
//! region by address.

mod bitmap;
mod heap;
mod manager;
mod page;
mod require;

pub use heap::Heap;
pub use heap::MemoryPool;
pub use manager::MemoryManager;
pub use page::Page;
pub use page::PageBit;
pub use page::PageManager;
pub use require::MemError;
