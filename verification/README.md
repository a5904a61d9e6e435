# Memory system simulator, verified

A simulator of three memory mechanisms, written in Verus with every function of
the library proved against its contract:

- `memory`: a free-list heap allocator (first, best and worst fit) that splits
  blocks on allocation and merges free neighbours on release. `layout` holds the
  model of the heap as a sequence of blocks and the lemmas about it.
- `cache`: set-associative caches with FIFO or LRU replacement, and an
  inclusive L1/L2 pair: a block evicted from L2 is dropped from L1 too.
- `vm`: virtual addresses split into page number and offset, and demand paging
  over a fixed set of frames with LRU replacement; an evicted page is no longer
  resident.
- `cli`: the command language of the interactive shell (`init`,
  `set_allocator`, `malloc`, `free`, `dump`, `stats`, `vm_init`, `vm_access`,
  `vm_stats`, `cache_init`, `cache_access`, `cache_stats`) and the shell's
  reaction to each command; `vm_access` sends the physical address on to the
  caches.

`app/` is the executable around the library: the prompt loop on standard
input and output, and the printing of replies and statistics.
