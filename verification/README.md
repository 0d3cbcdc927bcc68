# sillos

The logic of the SillOS hobby kernel for x86-64, as a Verus-verified
library, with the kernel glue around it.

- `src/` is the verified library:
  - `memory/`: physical and virtual addresses, the bitmap frame and page
    allocators, x86-64 page tables and the mapper, and the kernel address
    space that ties them together;
  - `kmem/`: the linked-list heap, the buddy allocator, the boot-time frame
    allocator and the memory-map summary;
  - `acpi.rs`: checking the RSDP, XSDT and FADT and deciding how to reboot;
  - `fb.rs`, `font.rs`, `console.rs`: the framebuffer backbuffer, PSF2 fonts
    and the text console;
  - `shell.rs`, `term.rs`, `text.rs`: decoding command lines;
  - `fs/`: the in-memory file system;
  - `test.rs`: test outcomes and the exit code reported to QEMU.
- `tests/` runs the library on concrete values.
- `app/` is the kernel itself: the Limine entry point, serial port, interrupt
  controllers, descriptor tables, the global heap, and the code that reads
  ACPI tables and copies the backbuffer to the screen.

The mapper works on its own copy of the page tables. Physical memory is
read and written in `app/paging.rs`: before an operation on an address the
kernel loads each table that `Mapper::first_unloaded` names, and afterwards
it writes back the tables that `Mapper::take_changed` hands out and flushes
the TLB entries of the pages concerned.
