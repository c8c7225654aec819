# lintsomax (verified core)

The logic of a small aarch64 microkernel for QEMU `virt`, written in Verus
and proved against its contracts, with the hardware-facing code around it.

- `src/mm.rs` — the bump frame allocator over `__kernel_end .. RAM_END`:
  frames are aligned, consecutive and never handed out twice; exhaustion is
  permanent.
- `src/paging.rs` — the four-level page tables (4 KiB granule, 48-bit VA)
  held as the frames the allocator handed out, the software walk
  (`translate`), and the identity mapping built at boot. The proof shows
  that every address of the MMIO gigabyte and of RAM translates to itself,
  that the leaf descriptor that maps it carries the attribute bits of its
  section (only `.text` executable, `.text` and `.rodata` read-only), that
  every table descriptor on the way is exactly the next table's address
  with the type bits, so no table-level bit narrows those permissions, that
  gaps stay unmapped, and that the build takes exactly the frames
  `identity_frames_needed` counts, all of them identity-mapped read-write.
  The view `TableMemory` says where each table lives: the frame at
  `base + 4096 * k` holds words `512 * k ..` of `table_words()`. Also the
  MAIR/TCR/SCTLR values for switching the MMU on.
- `src/exceptions.rs` — exception classes and fault status names, and the
  single-shot recovery decision: only an armed, synchronous data abort
  taken at the current EL is skipped; arming is consumed by whatever
  exception comes next.
- `src/uart.rs`, `src/semihost.rs`, `src/cpu.rs` — the PL011 register map,
  set-up writes and CRLF line endings, the semihosting exit block, and
  decoding CurrentEL.
- `app/` — boot assembly, the vector table, MMIO and system-register access,
  the MMU switch and the fault demo; everything it writes to the hardware
  comes from the library.
- `tests/` — concrete scenarios for each module.

The library keeps its page tables in a `Vec`; `app/heap.rs` is the heap
behind it, a bump allocator over a static buffer, since the tables are built
once and never freed. The library itself is built against `std` (as `vstd`
is); linking it into the bare-metal image needs those built for the
`alloc`-only target, which this layout does not set up.
