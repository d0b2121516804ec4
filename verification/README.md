# ros_kernel

The verified core of a small Raspberry Pi kernel for AArch64 and ARMv7a,
written in Verus.

- `mm::page_allocator`: the buddy page allocator, with its free lists, buddy
  flags and list nodes modelled at page granularity; `mm::pager` keeps one
  allocator per physical memory range.
- `arch::aarch64::mm` and `arch::armv7::mm`: construction of the kernel's
  translation tables in a modelled physical memory area;
  `arch::aarch64::translate` and `arch::armv7::translate` walk the tables as
  the MMU does and prove that a page-aligned range mapped within one
  top-level table's span translates to its physical addresses, also through
  tables that earlier maps built (when those are well formed, `tree_ok`),
  and that the map changes only the entries it writes and its new tables, so
  the translations its walk does not touch stay as they were. The `try_`
  variants of the map and init functions take any input and return `None`
  exactly when a table would fall outside the modelled memory or an address
  would overflow.
- `arch::arm::cpu`, `arch::arm::soc`, `peripherals::soc` and
  `peripherals::memory`: CPU, SoC mapping and memory layout discovery from
  decoded device tree nodes (`support::dtb`).
- `peripherals` and `early`: GPIO, mini UART and mailbox register
  computations; `drivers::framebuffer`: the framebuffer request and
  response.
- `arch::*::bits` and `support::bits`: bit and alignment utilities.

Register accesses, device polling and other hardware work live in `app/`,
which performs the operations the library computes.
