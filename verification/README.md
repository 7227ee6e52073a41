# ftl

A flash translation layer for a multi-channel NAND device, written in Verus.

- `src/device/address.rs`: physical page and block addresses and their packing into a
  single page index.
- `src/utils/ring_buffer.rs`: the fixed-capacity FIFO used for every block list.
- `src/logical_physical_address/mapper.rs`: the logical/physical page tables.
- `src/bad_block_table/table.rs`: per-channel block status, factory initialisation and
  restoring the table at boot.
- `src/provisioner/provisioner.rs`: round-robin allocation of free blocks and pages.
- `src/provisioner/invariants.rs`: what every block and page request keeps: listed blocks are
  good, distinct and never lost, no page is handed out twice, and consecutive blocks
  come from different LUNs while others have free blocks.
- `src/page_provisioner/provisioner.rs`: a provisioner that checks the bad block table
  before offering a block.
- `src/page_provisioner/invariants.rs`: no page of it is handed out twice.
- `src/ftl.rs`: the translation layer tying these together over a `MediaManager`.
- `app/`: the multi-hart bring-up program and the UART output.

Each module states its behaviour as `requires`/`ensures` over a mathematical model
(sequences and maps), and the laws that relate operations are proof functions next
to the code they speak of.
