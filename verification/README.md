# simple_allocator2

A size-class page allocator whose bookkeeping is verified with Verus.

- `src/cal_tools.rs`: the bit arithmetic of a page's free list (`cal_position`,
  `decal_position`, `power_int`) and the choice of a size class (`find_block`).
- `src/page_list.rs`: pages and the lists that hold them: taking and giving
  back blocks, adding and removing pages.
- `src/lib.rs`: the statistics (`Count`) and the allocator's state
  (`SimpleAllocator`), with one decision function per kind of request; each
  names the step its caller is to take with the memory.
- `app/main.rs`: the global allocator that holds the state for each thread,
  obtains page memory from the system allocator and prints the figures.
