//! Layout constants of the kernel: page geometry, stack sizes, the fixed
//! high-half virtual addresses shared by every address space, and the
//! placement of per-task kernel stacks.
//!
//! The machine is a 64-bit RISC-V hart, so addresses, page numbers and page
//! table entries are carried as `u64` throughout the model.
use vstd::prelude::*;

verus! {

/// Size of one page / physical frame in bytes.
pub const PAGE_SIZE: u64 = 0x1000;
/// log2 of `PAGE_SIZE`.
pub const PAGE_SIZE_BITS: u64 = 0xc;
/// Number of 64-bit words held by one page.
pub const WORDS_PER_PAGE: usize = 512;

/// Size of each user stack in bytes.
pub const USER_STACK_SIZE: u64 = 4096 * 2;
/// Size of each per-task kernel stack in bytes.
pub const KERNEL_STACK_SIZE: u64 = 4096 * 2;
/// Size of the kernel heap in bytes.
pub const KERNEL_HEAP_SIZE: u64 = 0x30_0000;
/// First physical address past the usable physical memory.
pub const MEMORY_END: u64 = 0x80800000;
/// Timer ticks per second of the platform clock.
pub const CLOCK_FREQ: u64 = 10_000_000;
/// Timer interrupts per second programmed by the kernel.
pub const TICKS_PER_SEC: u64 = 100;
/// Milliseconds per second.
pub const MSEC_PER_SEC: u64 = 1000;
/// Microseconds per second.
pub const MICRO_PER_SEC: u64 = 1_000_000;

/// Virtual address of the trampoline page: the very top page of the address
/// space, written in its sign-extended 64-bit form.
pub const TRAMPOLINE: u64 = u64::MAX - PAGE_SIZE + 1;
/// Virtual address of each task's trap-context page, directly below the
/// trampoline.
pub const TRAP_CONTEXT: u64 = TRAMPOLINE - PAGE_SIZE;

/// Return `(bottom, top)` of the kernel stack of task `app_id` in kernel
/// space: stacks grow down from just below the trampoline, each separated
/// from its neighbour by one unmapped guard page.
pub fn kernel_stack_position(app_id: u64) -> (r: (u64, u64))
    requires
        app_id * (KERNEL_STACK_SIZE + PAGE_SIZE) + KERNEL_STACK_SIZE < TRAMPOLINE,
    ensures
        r.1 == TRAMPOLINE - app_id * (KERNEL_STACK_SIZE + PAGE_SIZE),
        r.0 == r.1 - KERNEL_STACK_SIZE,
        r.0 < r.1 <= TRAMPOLINE,
{
    let top: u64 = TRAMPOLINE - app_id * (KERNEL_STACK_SIZE + PAGE_SIZE);
    let bottom: u64 = top - KERNEL_STACK_SIZE;
    (bottom, top)
}

} // verus!
