pub mod cache;
pub mod level;

pub use cache::{Cache, CacheLine, CacheSet};
pub use level::CacheLevel;

use vstd::prelude::*;

verus! {

/// Which line of a full set a miss evicts: the one filled earliest (FIFO) or the one
/// used least recently (LRU).
#[derive(Clone, Copy, Debug, PartialEq, Eq, Structural)]
pub enum ReplacementPolicy {
    FIFO,
    LRU,
}

} // verus!
