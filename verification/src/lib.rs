//! Verified core of a small preemptive multitasking kernel for a RISC-V
//! supervisor-mode environment: the on-disk file system layout with its
//! block store, the allocators, the task/process model with its scheduler
//! transitions, the sleep-timer queue, and the trap/syscall decoding.
//!
//! Hardware access (CSRs, SBI calls, the raw block device) stays outside
//! the library; everything here works on plain values and is verified.

pub mod allocators;
pub mod bitmap;
pub mod disk;
pub mod kernel;
pub mod layout;
pub mod mm;
pub mod process;
pub mod sync;
pub mod syscall;
pub mod task;
pub mod trap;
pub mod timer;

use vstd::prelude::*;

verus! {

/// Size in bytes of one disk block / sector.
pub const BLOCK_SZ: usize = 512;

} // verus!
