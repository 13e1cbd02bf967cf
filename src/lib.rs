//! Memory and scheduling core of a small SMP kernel: a frame bitmap, a
//! frame allocator, a four-level page-table editor, a slab-style heap, a
//! FIFO ready queue, per-CPU slots, kernel threads and a round-robin
//! scheduler, plus the text console's grid and the usable-RAM computation
//! from the boot information. Each is an executable model with proved
//! contracts; the machine itself (page-table frames, TLB, interrupt
//! controller, context switch) is driven by the caller from what these
//! functions return. Exclusive `&mut` access stands in for the locks and
//! atomic operations that make the kernel's shared state safe across CPUs.
use vstd::prelude::*;

pub mod bitmap;
pub mod frame;
pub mod paging;
pub mod heap;
pub mod queue;
pub mod cpu_local;
pub mod threads;
pub mod scheduler;
pub mod vga;
pub mod boot;
