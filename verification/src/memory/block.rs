use vstd::prelude::*;

verus! {

/// A region of the simulated heap, either free or owned by an allocation id.
#[derive(Clone)]
pub struct Block {
    pub id: Option<u32>,
    pub start: usize,
    pub size: usize,
    pub allocated: bool,
}

impl Block {
    /// A free block covering `size` bytes from `start`.
    pub fn new_free(start: usize, size: usize) -> (b: Self)
        ensures
            b.id is None,
            b.start == start,
            b.size == size,
            !b.allocated,
    {
        Block { id: None, start, size, allocated: false }
    }

    /// A block of `size` bytes from `start`, owned by allocation `id`.
    pub fn new_alloc(start: usize, size: usize, id: u32) -> (b: Self)
        ensures
            b.id == Some(id),
            b.start == start,
            b.size == size,
            b.allocated,
    {
        Block { id: Some(id), start, size, allocated: true }
    }
}

} // verus!
