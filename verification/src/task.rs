//! Per-task state: the scheduling status, the saved kernel-side context
//! used by the switch routine, the task's address space, and the physical
//! frame of its trap context.
use vstd::prelude::*;

use crate::address::{PhysPageNum, VirtAddr, VPN_BOUND};
use crate::config::{KERNEL_STACK_SIZE, PAGE_SIZE, TRAMPOLINE, TRAP_CONTEXT, USER_STACK_SIZE};
use crate::frame_allocator::StackFrameAllocator;
use crate::memory_set::{lemma_ms_inv_agree, MemorySet, TRAMP_VPN};
use crate::page_table::{pte_ppn_of, satp_token, spec_leaf, spec_mapped};
use crate::phys_mem::PhysMem;
use crate::trap_context::{load_trap_context, store_trap_context, TrapContext, TRAP_CX_WORDS};

verus! {

/// The scheduling state of a task. A task is always in exactly one of
/// these states; it never leaves `Exited`.
#[derive(Clone, Copy, Debug, PartialEq, Eq, Structural)]
pub enum TaskStatus {
    /// Runnable, waiting for the scheduler.
    Ready,
    /// Currently on the hart.
    Running,
    /// Finished; never scheduled again.
    Exited,
}

/// Highest system-call number the per-call counters cover.
pub const MAX_SYSCALL_NUM: usize = 500;

/// What the optional task-information call reports: the task's state, its
/// per-system-call counters, and its running time in milliseconds.
pub struct TaskInfo {
    /// The task's scheduling state.
    pub status: TaskStatus,
    /// How often each system call was made, indexed by call number.
    pub syscall_times: Vec<u32>,
    /// Wall time since the task first ran, in milliseconds.
    pub time: u64,
}

impl TaskInfo {
    /// A blank report: ready state, no calls, no time.
    pub fn new() -> (r: TaskInfo)
        ensures
            r.status is Ready,
            r.syscall_times@.len() == MAX_SYSCALL_NUM,
            forall|i: int| 0 <= i < MAX_SYSCALL_NUM ==> r.syscall_times@[i] == 0,
            r.time == 0,
    {
        let mut syscall_times: Vec<u32> = Vec::new();
        let mut i: usize = 0;
        while i < MAX_SYSCALL_NUM
            invariant
                i <= MAX_SYSCALL_NUM,
                syscall_times@.len() == i,
                forall|j: int| 0 <= j < i ==> syscall_times@[j] == 0,
            decreases MAX_SYSCALL_NUM - i,
        {
            syscall_times.push(0);
            i = i + 1;
        }
        TaskInfo { status: TaskStatus::Ready, syscall_times, time: 0 }
    }
}

/// The callee-saved register image the kernel-side switch routine saves
/// and restores: return address, stack pointer, s0..=s11.
pub struct TaskContext {
    /// Where the switch routine returns to.
    pub ra: u64,
    /// The kernel stack pointer.
    pub sp: u64,
    /// The callee-saved registers s0..=s11.
    pub s: Vec<u64>,
}

impl TaskContext {
    /// A task context always carries exactly 12 callee-saved slots.
    pub open spec fn wf(self) -> bool {
        self.s@.len() == 12
    }

    /// The all-zero context used as the discarded previous context when
    /// the first task is launched.
    pub fn zero_init() -> (r: TaskContext)
        ensures
            r.wf(),
            r.ra == 0 && r.sp == 0,
            forall|j: int| 0 <= j < 12 ==> r.s@[j] == 0,
    {
        let mut s: Vec<u64> = Vec::new();
        let mut i: usize = 0;
        while i < 12
            invariant
                i <= 12,
                s@.len() == i,
                forall|j: int| 0 <= j < i ==> s@[j] == 0,
            decreases 12 - i,
        {
            s.push(0);
            i = i + 1;
        }
        TaskContext { ra: 0, sp: 0, s }
    }

    /// The context a fresh task is given: a switch into it lands at the
    /// trap-return routine with the task's kernel stack installed.
    pub fn goto_trap_return(kstack_ptr: u64, trap_return_va: u64) -> (r: TaskContext)
        ensures
            r.wf(),
            r.ra == trap_return_va,
            r.sp == kstack_ptr,
            forall|j: int| 0 <= j < 12 ==> r.s@[j] == 0,
    {
        let mut r = TaskContext::zero_init();
        r.ra = trap_return_va;
        r.sp = kstack_ptr;
        r
    }
}

/// The task control block: status, saved kernel-side context, the task's
/// address space, the frame of its trap context, and the initial user
/// stack top kept as bookkeeping.
pub struct TaskControlBlock {
    /// The scheduling state.
    pub task_status: TaskStatus,
    /// The saved kernel-side context for the switch routine.
    pub task_cx: TaskContext,
    /// The task's address space.
    pub memory_set: MemorySet,
    /// The physical frame holding the task's trap context; a non-owning
    /// back-reference, ownership rests with the trap-context map area.
    pub trap_cx_ppn: u64,
    /// The user stack top as initially set.
    pub base_size: u64,
}

impl TaskControlBlock {
    /// Build the control block of task `app_id` from its ELF image: build
    /// the user space, resolve the trap-context frame, insert the task's
    /// kernel stack into the kernel space, point the saved context at the
    /// trap-return routine, and write the initial trap context so that
    /// the first `sret` lands at the entry point on the user stack in
    /// user mode. Returns none when the image cannot be loaded or the
    /// frames run out.
    #[verifier::rlimit(100)]
    #[verifier::spinoff_prover]
    pub fn new(
        elf_data: &[u8],
        app_id: usize,
        kernel_space: &mut MemorySet,
        mem: &mut PhysMem,
        alloc: &mut StackFrameAllocator,
        strampoline: PhysPageNum,
        kernel_token: u64,
        trap_return_va: u64,
        trap_handler_va: u64,
    ) -> (r: Option<TaskControlBlock>)
        requires
            old(mem).wf(),
            old(alloc).wf(),
            old(kernel_space).inv(*old(mem)),
            strampoline.0 < old(alloc).start@,
            old(mem).first_ppn <= old(alloc).start@,
            old(alloc).end <= old(mem).first_ppn + old(mem).pages@.len(),
            forall|p: u64| #[trigger] old(kernel_space).owns(p) ==> old(alloc).live@.contains(p),
            app_id < 0x10_0000,
        ensures
            final(mem).wf(),
            final(alloc).wf(),
            final(mem).first_ppn == old(mem).first_ppn,
            final(mem).pages@.len() == old(mem).pages@.len(),
            final(alloc).end == old(alloc).end,
            final(alloc).start@ == old(alloc).start@,
            final(kernel_space).inv(*final(mem)),
            final(kernel_space).root() == old(kernel_space).root(),
            final(kernel_space).trampoline_ppn == old(kernel_space).trampoline_ppn,
            !(crate::elf::spec_elf_parses(elf_data@) && crate::elf::elf_segs_of(elf_data@).len()
                <= crate::elf::MAX_LOAD_SEGMENTS && crate::elf::spec_segs_ok(
                crate::elf::elf_segs_of(elf_data@),
                elf_data@.len() as int,
            ) && old(alloc).free_count() >= crate::elf::spec_build_budget(
                crate::elf::elf_segs_of(elf_data@),
            )) ==> r is None,
            match r {
                Some(tcb) => {
                    &&& tcb.task_status is Ready
                    &&& crate::elf::spec_elf_parses(elf_data@)
                    &&& tcb.base_size == (crate::elf::segs_end(crate::elf::elf_segs_of(elf_data@))
                        + 1 + USER_STACK_SIZE / PAGE_SIZE) * (PAGE_SIZE as int)
                    &&& final(mem).word_at(tcb.trap_cx_ppn, 33) == crate::elf::elf_entry_of(
                        elf_data@,
                    )
                    &&& tcb.task_cx.wf()
                    &&& tcb.task_cx.ra == trap_return_va
                    &&& tcb.memory_set.inv(*final(mem))
                    &&& tcb.memory_set.trampoline_ppn == Some(strampoline.0)
                    &&& forall|a: int|
                        0 <= a < tcb.memory_set.areas@.len() ==> (
                        #[trigger] tcb.memory_set.areas@[a]).map_type is Framed
                    &&& spec_mapped(
                        *final(mem),
                        tcb.memory_set.root(),
                        (TRAMP_VPN - 1) as u64,
                    )
                    &&& tcb.trap_cx_ppn == pte_ppn_of(
                        spec_leaf(*final(mem), tcb.memory_set.root(), (TRAMP_VPN - 1) as u64),
                    )
                    &&& final(mem).contains_ppn(tcb.trap_cx_ppn)
                    &&& tcb.memory_set.owns_data_frame(tcb.trap_cx_ppn)
                    &&& tcb.task_cx.sp == TRAMPOLINE - (app_id as int) * ((KERNEL_STACK_SIZE
                        + PAGE_SIZE) as int)
                    &&& forall|i: int|
                        0 <= i < 32 && i != 2 ==> #[trigger] final(mem).word_at(
                            tcb.trap_cx_ppn,
                            i,
                        ) == 0
                    &&& final(mem).word_at(tcb.trap_cx_ppn, 2) == tcb.base_size
                    &&& final(mem).word_at(tcb.trap_cx_ppn, 32) == 0
                    &&& final(mem).word_at(tcb.trap_cx_ppn, 32)
                        & crate::trap_context::SSTATUS_SPP == 0
                    &&& final(mem).word_at(tcb.trap_cx_ppn, 34) == kernel_token
                    &&& final(mem).word_at(tcb.trap_cx_ppn, 35) == TRAMPOLINE - (app_id as int) * ((
                    KERNEL_STACK_SIZE + PAGE_SIZE) as int)
                    &&& final(mem).word_at(tcb.trap_cx_ppn, 36) == trap_handler_va
                    &&& forall|p: u64| #[trigger]
                        tcb.memory_set.owns(p) ==> !old(alloc).live@.contains(p)
                    &&& forall|p: u64| #[trigger]
                        tcb.memory_set.owns(p) ==> final(alloc).live@.contains(p)
                    &&& forall|p: u64| #[trigger]
                        final(kernel_space).owns(p) ==> final(alloc).live@.contains(p)
                    &&& forall|p: u64| #[trigger]
                        final(kernel_space).owns(p) ==> old(kernel_space).owns(p) || !old(
                            alloc,
                        ).live@.contains(p)
                    &&& forall|p: u64|
                        !(#[trigger] tcb.memory_set.owns(p) && final(kernel_space).owns(p))
                    &&& forall|p: u64|
                        old(alloc).live@.contains(p) ==> #[trigger] final(alloc).live@.contains(
                            p,
                        )
                    &&& forall|p: u64| #[trigger]
                        final(alloc).live@.contains(p) ==> old(alloc).live@.contains(p)
                            || tcb.memory_set.owns(p) || final(kernel_space).owns(p)
                    &&& forall|p: u64, i: int|
                        !tcb.memory_set.owns(p) && !final(kernel_space).owns(p)
                            ==> #[trigger] final(mem).word_at(p, i) == old(mem).word_at(p, i)
                    &&& final(kernel_space).areas@.len() == old(kernel_space).areas@.len() + 1
                    &&& forall|a: int|
                        0 <= a < old(kernel_space).areas@.len()
                            ==> #[trigger] final(kernel_space).areas@[a] == old(
                            kernel_space,
                        ).areas@[a]
                    &&& final(kernel_space).areas@[old(kernel_space).areas@.len() as int].start()
                        == TRAMP_VPN - 3 * (app_id as int) - 2
                    &&& final(kernel_space).areas@[old(kernel_space).areas@.len() as int].end_vpn()
                        == TRAMP_VPN - 3 * (app_id as int)
                    &&& final(kernel_space).areas@[old(
                        kernel_space,
                    ).areas@.len() as int].map_type is Framed
                    &&& final(kernel_space).areas@[old(kernel_space).areas@.len() as int].map_perm
                        == (crate::memory_set::MAP_PERM_R | crate::memory_set::MAP_PERM_W)
                },
                None => true,
            },
    {
        let (memory_set, user_sp, entry_point) = match MemorySet::from_elf(
            elf_data,
            strampoline,
            mem,
            alloc,
        ) {
            Some(r) => r,
            None => {
                return None;
            },
        };
        let ghost live_a = alloc.live@;
        let ghost mem_a = *mem;
        proof {
            // The kernel space's tables are untouched by building the user
            // space: its frames were live before, the new ones were not.
            assert forall|p: u64, i: int|
                kernel_space.page_table.owns(p) implies #[trigger] mem.word_at(p, i) == old(
                mem,
            ).word_at(p, i) by {
                assert(kernel_space.owns(p));
                assert(old(alloc).live@.contains(p));
                assert(!memory_set.owns(p));
            }
            lemma_ms_inv_agree(*kernel_space, *old(mem), *mem);
        }
        // Resolve the physical frame behind the trap-context page.
        let trap_vpn = VirtAddr::from_raw(TRAP_CONTEXT).floor();
        proof {
            assert(0xffff_ffff_ffff_e000u64 % 0x80_0000_0000u64 == 0x7f_ffff_e000u64)
                by (bit_vector);
            assert(TRAP_CONTEXT == 0xffff_ffff_ffff_e000u64);
            assert(trap_vpn.0 == TRAMP_VPN - 1);
            let last = memory_set.areas@.len() - 1;
            assert(memory_set.areas@[last].covers((TRAMP_VPN - 1) as u64));
            assert(spec_mapped(*mem, memory_set.root(), (TRAMP_VPN - 1) as u64));
        }
        let trap_cx_ppn = match memory_set.translate(mem, trap_vpn) {
            Some(pte) => pte.ppn().0,
            None => {
                proof {
                    assert(false);
                }
                return None;
            },
        };
        proof {
            crate::memory_set::lemma_mapped_frames_owned(
                memory_set,
                *mem,
                (TRAMP_VPN - 1) as u64,
            );
            assert(memory_set.owns_data_frame(trap_cx_ppn)) by {
                let a = choose|a: int|
                    0 <= a < memory_set.areas@.len() && (#[trigger] memory_set.areas@[a]).covers(
                        (TRAMP_VPN - 1) as u64,
                    ) && pte_ppn_of(
                        spec_leaf(*mem, memory_set.root(), (TRAMP_VPN - 1) as u64),
                    ) == memory_set.areas@[a].area_ppn((TRAMP_VPN - 1) as u64) && (
                    memory_set.areas@[a].map_type is Framed ==> memory_set.areas@[a].owns_frame(
                        memory_set.areas@[a].area_ppn((TRAMP_VPN - 1) as u64),
                    ));
                assert(memory_set.areas@[a].owns_frame(trap_cx_ppn));
            }
        }
        // Insert the new task's kernel stack into the kernel space.
        let aid: u64 = app_id as u64;
        proof {
            assert(aid * (KERNEL_STACK_SIZE + PAGE_SIZE) <= 0x10_0000 * 0x3000)
                by (nonlinear_arith)
                requires
                    aid < 0x10_0000,
                    KERNEL_STACK_SIZE == 0x2000,
                    PAGE_SIZE == 0x1000,
            {}
        }
        let kernel_stack_top: u64 = TRAMPOLINE - aid * (KERNEL_STACK_SIZE + PAGE_SIZE);
        let kernel_stack_bottom: u64 = kernel_stack_top - KERNEL_STACK_SIZE;
        let ksb_va = VirtAddr::from_raw(kernel_stack_bottom);
        let kst_va = VirtAddr::from_raw(kernel_stack_top);
        proof {
            let b = ksb_va.0;
            let t = kst_va.0;
            let kst = kernel_stack_top;
            let ksb = kernel_stack_bottom;
            assert(b / 0x1000 == 0x7ff_ffffu64 - 3 * aid - 2 && (t + 0x1000 - 1) / 0x1000
                == 0x7ff_ffffu64 - 3 * aid && b <= t && t <= 0x80_0000_0000u64) by (bit_vector)
                requires
                    kst == 0xffff_ffff_ffff_f000u64 - aid * 0x3000,
                    ksb == kst - 0x2000,
                    t == kst % 0x80_0000_0000,
                    b == ksb % 0x80_0000_0000,
                    aid < 0x100_0000,
            ;
        }
        if !alloc.has_free(6) {
            return None;
        }
        // The stack range must be free in the kernel space.
        let bottom_vpn: u64 = ksb_va.0 / PAGE_SIZE;
        let top_vpn: u64 = (kst_va.0 + (PAGE_SIZE - 1)) / PAGE_SIZE;
        let mut a: usize = 0;
        let ka = kernel_space.areas.len();
        while a < ka
            invariant
                ka == kernel_space.areas@.len(),
                0 <= a <= ka,
                *kernel_space == *old(kernel_space),
                mem.wf(),
                alloc.wf(),
                mem.first_ppn == old(mem).first_ppn,
                mem.pages@.len() == old(mem).pages@.len(),
                alloc.end == old(alloc).end,
                alloc.start@ == old(alloc).start@,
                kernel_space.inv(*mem),
                forall|q: int|
                    0 <= q < a ==> (#[trigger] kernel_space.areas@[q]).end_vpn() <= bottom_vpn
                        || kernel_space.areas@[q].start() >= top_vpn,
            decreases ka - a,
        {
            let s_vpn = kernel_space.areas[a].vpn_interval.start();
            let e_vpn = kernel_space.areas[a].vpn_interval.end();
            if !(e_vpn.0 <= bottom_vpn || s_vpn.0 >= top_vpn) {
                return None;
            }
            a = a + 1;
        }
        let ghost ks_b = *kernel_space;
        let ghost mem_b = *mem;
        kernel_space.insert_framed_area(
            mem,
            alloc,
            ksb_va,
            kst_va,
            crate::memory_set::MAP_PERM_R | crate::memory_set::MAP_PERM_W,
        );
        proof {
            // The user space's walks survive the kernel-stack insertion:
            // its table frames are untouched.
            assert forall|p: u64, i: int|
                memory_set.page_table.owns(p) implies #[trigger] mem.word_at(p, i)
                == mem_b.word_at(p, i) by {
                assert(memory_set.owns(p));
                assert(!ks_b.owns(p) && alloc.live@.contains(p) || true);
                assert(!kernel_space.owns(p));
            }
            lemma_ms_inv_agree(memory_set, mem_b, *mem);
        }
        // The saved kernel-side context lands the first switch at the
        // trap-return routine on the new task's kernel stack.
        let task_cx = TaskContext::goto_trap_return(kernel_stack_top, trap_return_va);
        // Plant the initial trap context.
        let cx = TrapContext::app_init_context(
            entry_point,
            user_sp,
            kernel_token,
            kernel_stack_top,
            trap_handler_va,
        );
        let ghost mem_c = *mem;
        store_trap_context(mem, trap_cx_ppn, &cx);
        proof {
            assert forall|p: u64, i: int|
                memory_set.page_table.owns(p) implies #[trigger] mem.word_at(p, i)
                == mem_c.word_at(p, i) by {
                assert(memory_set.owns(p));
                assert(!memory_set.page_table.owns(trap_cx_ppn));
            }
            lemma_ms_inv_agree(memory_set, mem_c, *mem);
            assert forall|p: u64, i: int|
                kernel_space.page_table.owns(p) implies #[trigger] mem.word_at(p, i)
                == mem_c.word_at(p, i) by {
                assert(kernel_space.owns(p));
                assert(p != trap_cx_ppn) by {
                    assert(memory_set.owns(trap_cx_ppn));
                }
            }
            lemma_ms_inv_agree(*kernel_space, mem_c, *mem);
        }
        Some(
            TaskControlBlock {
                task_status: TaskStatus::Ready,
                task_cx,
                memory_set,
                trap_cx_ppn,
                base_size: user_sp,
            },
        )
    }

    /// Read the task's trap context out of its frame.
    pub fn get_trap_cx(&self, mem: &PhysMem) -> (r: TrapContext)
        requires
            mem.wf(),
            mem.contains_ppn(self.trap_cx_ppn),
        ensures
            r.wf(),
            forall|i: int|
                0 <= i < crate::trap_context::TRAP_CX_WORDS ==> #[trigger] r.word(i)
                    == mem.word_at(self.trap_cx_ppn, i),
    {
        load_trap_context(mem, self.trap_cx_ppn)
    }

    /// The `satp` token of the task's address space.
    pub fn get_user_token(&self, mem: &PhysMem) -> (r: u64)
        requires
            self.memory_set.inv(*mem),
            mem.wf(),
        ensures
            r == satp_token(self.memory_set.root()),
    {
        self.memory_set.token(mem)
    }
}

} // verus!
