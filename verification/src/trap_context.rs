//! The trap context: the 37-word register image that the trampoline saves
//! and restores at the fixed virtual address `TRAP_CONTEXT` of every user
//! space. Words 0..=31 are the general-purpose registers, word 32 the saved
//! `sstatus`, word 33 the saved `sepc`, and words 34..=36 the auxiliary
//! values the kernel plants: its own `satp`, the task's kernel stack top,
//! and the trap handler's address.
use vstd::prelude::*;

use crate::config::WORDS_PER_PAGE;
use crate::phys_mem::PhysMem;

verus! {

/// Number of 64-bit words in a trap context.
pub const TRAP_CX_WORDS: usize = 37;
/// The `sstatus` bit that selects the privilege `sret` returns to; clear
/// means user mode.
pub const SSTATUS_SPP: u64 = 0x100;

/// The register image saved at trap entry and consumed by `sret`.
pub struct TrapContext {
    /// General-purpose registers x0..=x31; x0 is hard-wired zero.
    pub x: Vec<u64>,
    /// Saved `sstatus`.
    pub sstatus: u64,
    /// Saved `sepc`: where `sret` will resume.
    pub sepc: u64,
    /// The kernel page table token, read by the trampoline on trap entry.
    pub kernel_satp: u64,
    /// The task's kernel stack top, loaded on trap entry.
    pub kernel_sp: u64,
    /// The trap handler's address, jumped to on trap entry.
    pub trap_handler: u64,
}

impl TrapContext {
    /// A trap context always carries exactly 32 register slots.
    pub open spec fn wf(self) -> bool {
        self.x@.len() == 32
    }

    /// Word `i` of the context's fixed binary layout.
    pub open spec fn word(self, i: int) -> u64 {
        if 0 <= i < 32 {
            self.x@[i]
        } else if i == 32 {
            self.sstatus
        } else if i == 33 {
            self.sepc
        } else if i == 34 {
            self.kernel_satp
        } else if i == 35 {
            self.kernel_sp
        } else if i == 36 {
            self.trap_handler
        } else {
            0
        }
    }

    /// The context a task starts from: every register zero but the user
    /// stack pointer in x2, `sepc` at the entry point, and `sstatus` with
    /// SPP clear so that `sret` drops to user mode.
    pub fn app_init_context(entry: u64, sp: u64, kernel_satp: u64, kernel_sp: u64, trap_handler: u64) -> (r: TrapContext)
        ensures
            r.wf(),
            forall|i: int| 0 <= i < 32 && i != 2 ==> r.x@[i] == 0,
            r.x@[2] == sp,
            r.sstatus == 0,
            r.sstatus & SSTATUS_SPP == 0,
            r.sepc == entry,
            r.kernel_satp == kernel_satp,
            r.kernel_sp == kernel_sp,
            r.trap_handler == trap_handler,
    {
        let mut x: Vec<u64> = Vec::new();
        let mut i: usize = 0;
        while i < 32
            invariant
                i <= 32,
                x@.len() == i,
                forall|j: int| 0 <= j < i ==> x@[j] == 0,
            decreases 32 - i,
        {
            x.push(0);
            i = i + 1;
        }
        x.set(2, sp);
        proof {
            assert(0u64 & SSTATUS_SPP == 0) by (bit_vector);
        }
        TrapContext { x, sstatus: 0, sepc: entry, kernel_satp, kernel_sp, trap_handler }
    }
}

/// Write the 37 words of a trap context into frame `ppn`, leaving the rest
/// of the frame and every other frame unchanged.
pub fn store_trap_context(mem: &mut PhysMem, ppn: u64, cx: &TrapContext)
    requires
        old(mem).wf(),
        old(mem).contains_ppn(ppn),
        cx.wf(),
    ensures
        final(mem).wf(),
        final(mem).first_ppn == old(mem).first_ppn,
        final(mem).pages@.len() == old(mem).pages@.len(),
        forall|i: int| 0 <= i < TRAP_CX_WORDS ==> #[trigger] final(mem).word_at(ppn, i) == cx.word(i),
        forall|i: int|
            TRAP_CX_WORDS <= i ==> #[trigger] final(mem).word_at(ppn, i) == old(mem).word_at(
                ppn,
                i,
            ),
        forall|p: u64, i: int|
            p != ppn ==> #[trigger] final(mem).word_at(p, i) == old(mem).word_at(p, i),
{
    let mut i: usize = 0;
    while i < 32
        invariant
            mem.wf(),
            mem.first_ppn == old(mem).first_ppn,
            mem.pages@.len() == old(mem).pages@.len(),
            mem.contains_ppn(ppn),
            cx.wf(),
            i <= 32,
            forall|j: int| 0 <= j < i ==> #[trigger] mem.word_at(ppn, j) == cx.word(j),
            forall|j: int| i <= j ==> #[trigger] mem.word_at(ppn, j) == old(mem).word_at(ppn, j),
            forall|p: u64, j: int|
                p != ppn ==> #[trigger] mem.word_at(p, j) == old(mem).word_at(p, j),
        decreases 32 - i,
    {
        mem.write_word(ppn, i, cx.x[i]);
        i = i + 1;
    }
    mem.write_word(ppn, 32, cx.sstatus);
    mem.write_word(ppn, 33, cx.sepc);
    mem.write_word(ppn, 34, cx.kernel_satp);
    mem.write_word(ppn, 35, cx.kernel_sp);
    mem.write_word(ppn, 36, cx.trap_handler);
}

/// Read the 37 words of a trap context back out of frame `ppn`.
pub fn load_trap_context(mem: &PhysMem, ppn: u64) -> (r: TrapContext)
    requires
        mem.wf(),
        mem.contains_ppn(ppn),
    ensures
        r.wf(),
        forall|i: int| 0 <= i < TRAP_CX_WORDS ==> #[trigger] r.word(i) == mem.word_at(ppn, i),
{
    let mut x: Vec<u64> = Vec::new();
    let mut i: usize = 0;
    while i < 32
        invariant
            mem.wf(),
            mem.contains_ppn(ppn),
            i <= 32,
            x@.len() == i,
            forall|j: int| 0 <= j < i ==> x@[j] == mem.word_at(ppn, j),
        decreases 32 - i,
    {
        x.push(mem.read_word(ppn, i));
        i = i + 1;
    }
    TrapContext {
        x,
        sstatus: mem.read_word(ppn, 32),
        sepc: mem.read_word(ppn, 33),
        kernel_satp: mem.read_word(ppn, 34),
        kernel_sp: mem.read_word(ppn, 35),
        trap_handler: mem.read_word(ppn, 36),
    }
}

} // verus!
