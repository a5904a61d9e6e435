pub mod page_table;
pub mod paging;
pub mod replacement;

pub use paging::{VMState, VirtualMemory};
pub use replacement::PageReplacementPolicy;

use vstd::prelude::*;

verus! {

/// Bytes per page and per frame.
pub const PAGE_SIZE: usize = 4096;

} // verus!
