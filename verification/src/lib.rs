//! A verified model of a small RISC-V SV39 supervisor kernel: physical frame
//! allocation, three-level page tables kept bit-for-bit in modelled physical
//! memory, per-address-space map areas, task control blocks, a round-robin
//! scheduler, and the system-call gate that ties them together.
//!
//! Hardware effects (CSR writes, SBI calls, the trampoline assembly) are kept
//! out of the model; every place the kernel would touch the machine is a
//! plain value in, plain value out decision that is stated and proved here.
pub mod address;
pub mod config;
pub mod cpu;
pub mod elf;
pub mod frame_allocator;
pub mod kernel;
pub mod memory_set;
pub mod page_table;
pub mod phys_mem;
pub mod task;
pub mod task_manager;
pub mod timer;
pub mod trap_context;
