use vstd::prelude::*;

verus! {

/// Which resident page a fault evicts when every frame is taken.
#[derive(Clone, Copy, Debug, PartialEq, Eq, Structural)]
pub enum PageReplacementPolicy {
    /// The page used least recently.
    LRU,
}

} // verus!
