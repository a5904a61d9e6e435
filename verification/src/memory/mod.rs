pub mod allocator;
pub mod block;
pub mod layout;

pub use allocator::{AllocationStrategy, MemoryAllocator};
