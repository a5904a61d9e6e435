use vstd::prelude::*;

verus! {

/// Where a virtual page lives, if it is resident, and when it was last used.
#[derive(Clone)]
pub struct PageTableEntry {
    pub valid: bool,
    pub frame: usize,
    pub last_used: u64,
}

/// One entry per virtual page.
pub struct PageTable {
    pub entries: Vec<PageTableEntry>,
}

impl PageTableEntry {
    /// The entry of a page that is not resident.
    pub open spec fn unmapped() -> PageTableEntry {
        PageTableEntry { valid: false, frame: 0, last_used: 0 }
    }
}

impl PageTable {
    /// A table of `num_pages` entries, none resident.
    pub fn new(num_pages: usize) -> (t: Self)
        ensures
            t.entries@ == Seq::new(num_pages as nat, |i: int| PageTableEntry::unmapped()),
    {
        let mut entries: Vec<PageTableEntry> = Vec::new();
        let mut i: usize = 0;
        while i < num_pages
            invariant
                i <= num_pages,
                entries@ == Seq::new(i as nat, |k: int| PageTableEntry::unmapped()),
            decreases num_pages - i,
        {
            entries.push(PageTableEntry { valid: false, frame: 0, last_used: 0 });
            i += 1;
            assert(entries@ =~= Seq::new(i as nat, |k: int| PageTableEntry::unmapped()));
        }
        Self { entries }
    }
}

} // verus!
