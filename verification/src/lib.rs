//! Core runtime services of a small x86_64 kernel, stated over plain values
//! and verified: heap allocators for a fixed virtual address range (bump,
//! free list, segregated fixed-size blocks), a cooperative task executor,
//! and the interrupt-safe scancode stream that carries keyboard input from
//! interrupt context to an asynchronous consumer task.
//!
//! Hardware access (page mapping, `sti; hlt`, port I/O) stays outside this
//! crate; the allocators hand out addresses inside the heap range, the
//! executor decides which task runs next, and everything either does is
//! pinned down by contracts.

pub mod allocator;
pub mod bump;
pub mod executor;
pub mod keyboard;
pub mod queue;
pub mod task;
pub mod fixed_size_block;
pub mod linked_list;
