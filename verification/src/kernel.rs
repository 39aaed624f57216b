//! The composed kernel state and the system-call/trap gate: physical
//! memory, the frame allocator, the kernel address space and the task
//! table, with the dispatcher that the trap path drives. Hardware actions
//! (console output, programming the timer, shutting down, the actual
//! context switch) are returned as values for the platform layer to
//! perform.
use vstd::prelude::*;

use crate::address::{PhysPageNum, VirtAddr, VA_BOUND, VPN_BOUND};
use crate::config::PAGE_SIZE;
use crate::frame_allocator::StackFrameAllocator;
use crate::memory_set::{lemma_ms_inv_agree, MemorySet, TRAMP_VPN};
use crate::page_table::{
    flat_bytes, pte_ppn_of, satp_token, spec_buffer_mapped, spec_byte_ok, spec_leaf, spec_mapped,
    spec_user_bytes, translated_byte_buffer, va_vpn,
};
use crate::phys_mem::PhysMem;
use crate::task_manager::TaskManager;
use crate::trap_context::{load_trap_context, store_trap_context, TrapContext, TRAP_CX_WORDS};

verus! {

broadcast use vstd::set::group_set_axioms, vstd::map::group_map_axioms;

/// Syscall number of `write`.
pub const SYSCALL_WRITE: u64 = 64;
/// Syscall number of `exit`.
pub const SYSCALL_EXIT: u64 = 93;
/// Syscall number of `yield`.
pub const SYSCALL_YIELD: u64 = 124;
/// Syscall number of `gettimeofday`.
pub const SYSCALL_GET_TIME: u64 = 169;

/// What the scheduler decided after a gate call.
#[derive(Clone, Copy, Debug, PartialEq, Eq, Structural)]
pub enum Schedule {
    /// Keep running the current task.
    Continue,
    /// Switch to the named task.
    SwitchTo(usize),
    /// Every task has exited; shut the machine down with success.
    Shutdown,
}

/// Everything a gate call asks the platform to do.
pub struct GateOutput {
    /// The value to place in the task's x10.
    pub ret: i64,
    /// Bytes for the console.
    pub console: Vec<u8>,
    /// The scheduling decision.
    pub schedule: Schedule,
    /// A deadline to program into the firmware timer, if any.
    pub set_timer: Option<u64>,
}

/// The kernel's composed state.
pub struct Kernel {
    /// The modelled physical memory.
    pub mem: PhysMem,
    /// The physical frame allocator.
    pub alloc: StackFrameAllocator,
    /// The kernel address space.
    pub kernel_space: MemorySet,
    /// The task table and scheduler.
    pub task_manager: TaskManager,
}

impl Kernel {
    /// The address space of task `t`.
    pub open spec fn task_ms(self, t: int) -> MemorySet {
        self.task_manager.tasks@[t].memory_set
    }

    /// Number of tasks.
    pub open spec fn task_count(self) -> int {
        self.task_manager.tasks@.len() as int
    }

    /// The current task's index.
    pub open spec fn cur(self) -> int {
        self.task_manager.current_task as int
    }

    /// Word `i` of task `t`'s saved trap context.
    pub open spec fn trap_word(self, t: int, i: int) -> u64 {
        self.mem.word_at(self.task_manager.tasks@[t].trap_cx_ppn, i)
    }

    /// The success condition of the `gettimeofday` call: the record pointer
    /// is eight-byte aligned, the record lies inside the 39-bit space, and
    /// both of its words lie on mapped pages backed by modelled frames.
    pub open spec fn time_ptr_ok(self, ts_ptr: u64) -> bool {
        &&& ts_ptr % 8 == 0
        &&& ts_ptr + 16 <= VA_BOUND
        &&& spec_mapped(self.mem, self.task_ms(self.cur()).root(), va_vpn(ts_ptr as int))
        &&& self.mem.contains_ppn(
            pte_ppn_of(
                spec_leaf(self.mem, self.task_ms(self.cur()).root(), va_vpn(ts_ptr as int)),
            ),
        )
        &&& spec_mapped(self.mem, self.task_ms(self.cur()).root(), va_vpn(ts_ptr as int + 8))
        &&& self.mem.contains_ppn(
            pte_ppn_of(
                spec_leaf(self.mem, self.task_ms(self.cur()).root(), va_vpn(ts_ptr as int + 8)),
            ),
        )
    }

    /// The two words of the caller's record hold the seconds and
    /// microseconds of the tick reading, at the frames and offsets the
    /// pre-call walk of `pre` gives the record's two halves.
    pub open spec fn timeval_written(self, pre: Kernel, ts_ptr: u64, now_ticks: u64) -> bool {
        &&& self.mem.word_at(
            pte_ppn_of(
                spec_leaf(pre.mem, pre.task_ms(pre.cur()).root(), va_vpn(ts_ptr as int)),
            ),
            (ts_ptr as int % (PAGE_SIZE as int)) / 8,
        ) == now_ticks / (crate::config::CLOCK_FREQ / crate::config::MICRO_PER_SEC) / 1_000_000
        &&& self.mem.word_at(
            pte_ppn_of(
                spec_leaf(pre.mem, pre.task_ms(pre.cur()).root(), va_vpn(ts_ptr as int + 8)),
            ),
            ((ts_ptr + 8) as int % (PAGE_SIZE as int)) / 8,
        ) == now_ticks / (crate::config::CLOCK_FREQ / crate::config::MICRO_PER_SEC) % 1_000_000
    }

    /// The kernel invariant: every component well formed, every owned
    /// frame accounted to the allocator, ownership pairwise disjoint
    /// between the kernel space and every task space, each task's trap
    /// context on a framed page of its own space just below the
    /// trampoline, and the shared trampoline frame outside the allocator's
    /// reach.
    pub open spec fn inv(self) -> bool {
        &&& self.mem.wf()
        &&& self.alloc.wf()
        &&& self.mem.first_ppn <= self.alloc.start@
        &&& self.alloc.end <= self.mem.first_ppn + self.mem.pages@.len()
        &&& self.kernel_space.inv(self.mem)
        &&& self.task_manager.sched_inv()
        &&& match self.kernel_space.trampoline_ppn {
            Some(p) => p < self.alloc.start@,
            None => false,
        }
        &&& forall|p: u64| #[trigger]
            self.kernel_space.owns(p) ==> self.alloc.live@.contains(p)
        &&& forall|t: int|
            0 <= t < self.task_count() ==> (#[trigger] self.task_ms(t)).inv(self.mem)
        &&& forall|t: int, p: u64|
            0 <= t < self.task_count() && #[trigger] self.task_ms(t).owns(p)
                ==> self.alloc.live@.contains(p)
        &&& forall|t: int, p: u64|
            0 <= t < self.task_count() ==> !(#[trigger] self.task_ms(t).owns(p)
                && self.kernel_space.owns(p))
        &&& forall|t1: int, t2: int, p: u64|
            0 <= t1 < self.task_count() && 0 <= t2 < self.task_count() && t1 != t2 ==> !(
            #[trigger] self.task_ms(t1).owns(p) && #[trigger] self.task_ms(t2).owns(p))
        &&& forall|t: int|
            0 <= t < self.task_count() ==> match (#[trigger] self.task_ms(t)).trampoline_ppn {
                Some(p) => p < self.alloc.start@,
                None => false,
            }
        &&& forall|t: int|
            0 <= t < self.task_count() ==> spec_mapped(
                self.mem,
                (#[trigger] self.task_ms(t)).root(),
                ((TRAMP_VPN - 1) as u64) as u64,
            ) && self.task_manager.tasks@[t].trap_cx_ppn == pte_ppn_of(
                spec_leaf(self.mem, self.task_ms(t).root(), (TRAMP_VPN - 1) as u64),
            ) && self.mem.contains_ppn(self.task_manager.tasks@[t].trap_cx_ppn)
                && self.task_ms(t).owns_data_frame(self.task_manager.tasks@[t].trap_cx_ppn)
        &&& forall|t: int|
            0 <= t < self.task_count() ==> (#[trigger] self.task_manager.tasks@[t].task_cx).wf()
        &&& forall|t: int, a: int|
            0 <= t < self.task_count() && 0 <= a < self.task_ms(t).areas@.len() ==> (
            #[trigger] self.task_ms(t).areas@[a]).map_type is Framed
    }

    /// The `satp` token of the current task's space.
    pub fn current_user_token(&self) -> (r: u64)
        requires
            self.inv(),
        ensures
            r == satp_token(self.task_ms(self.cur()).root()),
    {
        let cur = self.task_manager.current_task;
        proof {
            let ms = self.task_ms(self.cur());
            assert(ms.inv(self.mem));
        }
        self.task_manager.tasks[cur].memory_set.token(&self.mem)
    }

    /// A copy of the current task's trap context.
    pub fn current_trap_cx(&self) -> (r: TrapContext)
        requires
            self.inv(),
        ensures
            r.wf(),
            forall|i: int|
                0 <= i < TRAP_CX_WORDS ==> #[trigger] r.word(i) == self.mem.word_at(
                    self.task_manager.tasks@[self.cur()].trap_cx_ppn,
                    i,
                ),
    {
        let cur = self.task_manager.current_task;
        proof {
            let ms = self.task_ms(self.cur());
            assert(self.mem.contains_ppn(self.task_manager.tasks@[self.cur()].trap_cx_ppn));
        }
        load_trap_context(&self.mem, self.task_manager.tasks[cur].trap_cx_ppn)
    }

    /// Store a trap context into the current task's trap-context frame.
    /// Only that one frame changes, so every address space keeps its
    /// invariant and its walks.
    pub fn store_current_trap_cx(&mut self, cx: &TrapContext)
        requires
            old(self).inv(),
            cx.wf(),
        ensures
            final(self).inv(),
            final(self).task_manager == old(self).task_manager,
            final(self).alloc == old(self).alloc,
            final(self).kernel_space == old(self).kernel_space,
            final(self).mem.first_ppn == old(self).mem.first_ppn,
            final(self).mem.pages@.len() == old(self).mem.pages@.len(),
            forall|i: int|
                0 <= i < TRAP_CX_WORDS ==> #[trigger] final(self).mem.word_at(
                    old(self).task_manager.tasks@[old(self).cur()].trap_cx_ppn,
                    i,
                ) == cx.word(i),
            forall|p: u64, i: int|
                p != old(self).task_manager.tasks@[old(self).cur()].trap_cx_ppn
                    ==> #[trigger] final(self).mem.word_at(p, i) == old(self).mem.word_at(p, i),
    {
        let cur = self.task_manager.current_task;
        let ppn = self.task_manager.tasks[cur].trap_cx_ppn;
        proof {
            let ms = self.task_ms(self.cur());
            assert(self.mem.contains_ppn(ppn));
            assert(self.task_ms(self.cur()).owns_data_frame(ppn));
        }
        store_trap_context(&mut self.mem, ppn, cx);
        proof {
            assert(old(self).task_ms(old(self).cur()).owns_data_frame(ppn));
            self.lemma_data_write_preserves_inv(*old(self), ppn);
        }
    }

    /// Store a trap context into task `t`'s trap-context frame. Only that
    /// one frame changes, so every address space keeps its invariant and
    /// its walks.
    pub fn store_trap_cx_at(&mut self, t: usize, cx: &TrapContext)
        requires
            old(self).inv(),
            t < old(self).task_count(),
            cx.wf(),
        ensures
            final(self).inv(),
            final(self).task_manager == old(self).task_manager,
            final(self).alloc == old(self).alloc,
            final(self).kernel_space == old(self).kernel_space,
            final(self).mem.first_ppn == old(self).mem.first_ppn,
            final(self).mem.pages@.len() == old(self).mem.pages@.len(),
            forall|i: int|
                0 <= i < TRAP_CX_WORDS ==> #[trigger] final(self).mem.word_at(
                    old(self).task_manager.tasks@[t as int].trap_cx_ppn,
                    i,
                ) == cx.word(i),
            forall|p: u64, i: int|
                p != old(self).task_manager.tasks@[t as int].trap_cx_ppn
                    ==> #[trigger] final(self).mem.word_at(p, i) == old(self).mem.word_at(p, i),
    {
        let ppn = self.task_manager.tasks[t].trap_cx_ppn;
        proof {
            let ms = self.task_ms(t as int);
            assert(self.mem.contains_ppn(ppn));
            assert(self.task_ms(t as int).owns_data_frame(ppn));
        }
        store_trap_context(&mut self.mem, ppn, cx);
        proof {
            assert(old(self).task_ms(t as int).owns_data_frame(ppn));
            self.lemma_data_write_preserves_inv(*old(self), ppn);
        }
    }

    /// One task space keeps its invariant and its walks when a data frame
    /// of task `owner` is the only frame written.
    proof fn lemma_one_space_agree(self, pre: Kernel, f: u64, owner: int, t: int)
        requires
            pre.inv(),
            self.task_manager == pre.task_manager,
            self.mem.wf(),
            self.mem.first_ppn == pre.mem.first_ppn,
            self.mem.pages@.len() == pre.mem.pages@.len(),
            0 <= owner < pre.task_count(),
            pre.task_ms(owner).owns_data_frame(f),
            0 <= t < pre.task_count(),
            forall|p: u64, i: int|
                p != f ==> #[trigger] self.mem.word_at(p, i) == pre.mem.word_at(p, i),
        ensures
            pre.task_ms(t).inv(self.mem),
            forall|v: u64|
                #[trigger] spec_mapped(self.mem, pre.task_ms(t).root(), v) == spec_mapped(
                    pre.mem,
                    pre.task_ms(t).root(),
                    v,
                ),
            forall|v: u64|
                #[trigger] spec_leaf(self.mem, pre.task_ms(t).root(), v) == spec_leaf(
                    pre.mem,
                    pre.task_ms(t).root(),
                    v,
                ),
    {
        let a = choose|a: int|
            0 <= a < pre.task_ms(owner).areas@.len() && (#[trigger] pre.task_ms(
                owner,
            ).areas@[a]).owns_frame(f);
        assert(pre.task_ms(owner).owns(f));
        assert forall|p: u64, i: int|
            pre.task_ms(t).page_table.owns(p) implies #[trigger] self.mem.word_at(p, i)
            == pre.mem.word_at(p, i) by {
            assert(pre.task_ms(t).owns(p));
            if t == owner {
                assert(!pre.task_ms(t).page_table.owns(f));
            } else {
                assert(!(pre.task_ms(t).owns(f) && pre.task_ms(owner).owns(f)));
            }
        }
        lemma_ms_inv_agree(pre.task_ms(t), pre.mem, self.mem);
    }

    /// After a write that touched only one frame owned as data by some
    /// task space, every space's invariant and walks still hold.
    proof fn lemma_data_write_preserves_inv(self, pre: Kernel, f: u64)
        requires
            pre.inv(),
            self.alloc == pre.alloc,
            self.kernel_space == pre.kernel_space,
            self.task_manager == pre.task_manager,
            self.mem.wf(),
            self.mem.first_ppn == pre.mem.first_ppn,
            self.mem.pages@.len() == pre.mem.pages@.len(),
            exists|t: int|
                0 <= t < pre.task_count() && (#[trigger] pre.task_ms(t)).owns_data_frame(f),
            forall|p: u64, i: int|
                p != f ==> #[trigger] self.mem.word_at(p, i) == pre.mem.word_at(p, i),
        ensures
            self.inv(),
            forall|t: int, v: u64|
                0 <= t < pre.task_count() ==> #[trigger] spec_mapped(
                    self.mem,
                    pre.task_ms(t).root(),
                    v,
                ) == spec_mapped(pre.mem, pre.task_ms(t).root(), v),
            forall|t: int, v: u64|
                0 <= t < pre.task_count() ==> #[trigger] spec_leaf(
                    self.mem,
                    pre.task_ms(t).root(),
                    v,
                ) == spec_leaf(pre.mem, pre.task_ms(t).root(), v),
            forall|v: u64|
                #[trigger] spec_mapped(self.mem, pre.kernel_space.root(), v) == spec_mapped(
                    pre.mem,
                    pre.kernel_space.root(),
                    v,
                ),
    {
        let owner = choose|t: int|
            0 <= t < pre.task_count() && (#[trigger] pre.task_ms(t)).owns_data_frame(f);
        let a = choose|a: int|
            0 <= a < pre.task_ms(owner).areas@.len() && (#[trigger] pre.task_ms(
                owner,
            ).areas@[a]).owns_frame(f);
        assert(pre.task_ms(owner).owns(f));
        assert(!pre.kernel_space.owns(f));
        assert forall|p: u64, i: int|
            pre.kernel_space.page_table.owns(p) implies #[trigger] self.mem.word_at(p, i)
            == pre.mem.word_at(p, i) by {
            assert(pre.kernel_space.owns(p));
        }
        lemma_ms_inv_agree(pre.kernel_space, pre.mem, self.mem);
        assert forall|t: int| 0 <= t < pre.task_count() implies (#[trigger] self.task_ms(t)).inv(
            self.mem,
        ) by {
            self.lemma_one_space_agree(pre, f, owner, t);
        }
        assert forall|t: int, v: u64|
            0 <= t < pre.task_count() implies #[trigger] spec_mapped(
            self.mem,
            pre.task_ms(t).root(),
            v,
        ) == spec_mapped(pre.mem, pre.task_ms(t).root(), v) by {
            self.lemma_one_space_agree(pre, f, owner, t);
        }
        assert forall|t: int, v: u64|
            0 <= t < pre.task_count() implies #[trigger] spec_leaf(
            self.mem,
            pre.task_ms(t).root(),
            v,
        ) == spec_leaf(pre.mem, pre.task_ms(t).root(), v) by {
            self.lemma_one_space_agree(pre, f, owner, t);
        }
        assert forall|t: int| 0 <= t < self.task_count() implies spec_mapped(
            self.mem,
            (#[trigger] self.task_ms(t)).root(),
            ((TRAMP_VPN - 1) as u64) as u64,
        ) && self.task_manager.tasks@[t].trap_cx_ppn == pte_ppn_of(
            spec_leaf(self.mem, self.task_ms(t).root(), (TRAMP_VPN - 1) as u64),
        ) by {
            assert(spec_mapped(self.mem, pre.task_ms(t).root(), (TRAMP_VPN - 1) as u64) == spec_mapped(
                pre.mem,
                pre.task_ms(t).root(),
                ((TRAMP_VPN - 1) as u64) as u64,
            ));
            assert(spec_leaf(self.mem, pre.task_ms(t).root(), (TRAMP_VPN - 1) as u64) == spec_leaf(
                pre.mem,
                pre.task_ms(t).root(),
                ((TRAMP_VPN - 1) as u64) as u64,
            ));
        }
        assert forall|p: u64| #[trigger]
            self.kernel_space.owns(p) implies self.alloc.live@.contains(p) by {
            assert(pre.kernel_space.owns(p));
        }
        assert forall|t: int, p: u64|
            0 <= t < self.task_count() && #[trigger] self.task_ms(t).owns(
                p,
            ) implies self.alloc.live@.contains(p) by {
            assert(pre.task_ms(t).owns(p));
        }
        assert forall|t: int, p: u64|
            0 <= t < self.task_count() implies !(#[trigger] self.task_ms(t).owns(p)
                && self.kernel_space.owns(p)) by {
            assert(self.task_ms(t) == pre.task_ms(t));
        }
        assert forall|t1: int, t2: int, p: u64|
            0 <= t1 < self.task_count() && 0 <= t2 < self.task_count() && t1 != t2 implies !(
        #[trigger] self.task_ms(t1).owns(p) && #[trigger] self.task_ms(t2).owns(p)) by {
            assert(self.task_ms(t1) == pre.task_ms(t1));
            assert(self.task_ms(t2) == pre.task_ms(t2));
        }
        assert forall|t: int|
            0 <= t < self.task_count() implies match (#[trigger] self.task_ms(
                t,
            )).trampoline_ppn {
            Some(p) => p < self.alloc.start@,
            None => false,
        } by {
            assert(self.task_ms(t) == pre.task_ms(t));
        }
        assert forall|t: int|
            0 <= t < self.task_count() implies self.mem.contains_ppn(
            (#[trigger] self.task_manager.tasks@[t]).trap_cx_ppn,
        ) && self.task_ms(t).owns_data_frame(self.task_manager.tasks@[t].trap_cx_ppn) by {
            assert(pre.mem.contains_ppn(pre.task_manager.tasks@[t].trap_cx_ppn));
            assert(pre.task_ms(t).owns_data_frame(pre.task_manager.tasks@[t].trap_cx_ppn));
        }
        assert forall|t: int|
            0 <= t < self.task_count() implies (
        #[trigger] self.task_manager.tasks@[t].task_cx).wf() by {
            assert(pre.task_manager.tasks@[t].task_cx.wf());
        }
        assert forall|t: int, a: int|
            0 <= t < self.task_count() && 0 <= a < self.task_ms(t).areas@.len() implies (
        #[trigger] self.task_ms(t).areas@[a]).map_type is Framed by {
            assert(self.task_ms(t) == pre.task_ms(t));
        }
    }

    /// The `write` system call: with file descriptor one, translate the
    /// user buffer through the current task's page table and hand the
    /// bytes to the console; any other descriptor, or a buffer that is
    /// not fully mapped, is refused with minus one.
    pub fn sys_write(&self, fd: u64, buf: u64, len: u64) -> (r: (i64, Vec<u8>))
        requires
            self.inv(),
        ensures
            fd != 1 ==> r.0 == -1 && r.1@ == Seq::<u8>::empty(),
            fd == 1 && buf + len <= VA_BOUND && spec_buffer_mapped(
                self.mem,
                self.task_ms(self.cur()).root(),
                buf,
                len,
            ) ==> r.0 == len && r.1@ == spec_user_bytes(
                self.mem,
                self.task_ms(self.cur()).root(),
                buf,
                len,
            ),
            fd == 1 && !(buf + len <= VA_BOUND && spec_buffer_mapped(
                self.mem,
                self.task_ms(self.cur()).root(),
                buf,
                len,
            )) ==> r.0 == -1 && r.1@ == Seq::<u8>::empty(),
    {
        if fd != 1 {
            return (-1, Vec::new());
        }
        let token = self.current_user_token();
        proof {
            crate::page_table::lemma_satp_roundtrip(self.task_ms(self.cur()).root());
            assert(self.task_ms(self.cur()).page_table.owns(self.task_ms(self.cur()).root()));
            let i = choose|i: int|
                0 <= i < self.task_ms(self.cur()).page_table.frames@.len() && self.task_ms(
                    self.cur(),
                ).page_table.frames@[i].ppn.0 == self.task_ms(self.cur()).root();
            assert(self.mem.contains_ppn(
                self.task_ms(self.cur()).page_table.frames@[i].ppn.0,
            ));
        }
        match translated_byte_buffer(&self.mem, token, buf, len) {
            Some(chunks) => {
                let mut out: Vec<u8> = Vec::new();
                let mut c: usize = 0;
                proof {
                    assert(flat_bytes(chunks@.take(0)) =~= Seq::<u8>::empty()) by {
                        assert(chunks@.take(0) =~= Seq::<Vec<u8>>::empty());
                        assert(Seq::<Vec<u8>>::empty().map_values(|x: Vec<u8>| x@)
                            =~= Seq::<Seq<u8>>::empty());
                    }
                }
                while c < chunks.len()
                    invariant
                        0 <= c <= chunks@.len(),
                        out@ =~= flat_bytes(chunks@.take(c as int)),
                    decreases chunks@.len() - c,
                {
                    let chunk = &chunks[c];
                    let mut b: usize = 0;
                    while b < chunk.len()
                        invariant
                            0 <= b <= chunk@.len(),
                            chunk == &chunks[c as int],
                            0 <= c < chunks@.len(),
                            out@ =~= flat_bytes(chunks@.take(c as int)) + chunk@.take(b as int),
                        decreases chunk@.len() - b,
                    {
                        out.push(chunk[b]);
                        b = b + 1;
                    }
                    proof {
                        assert(chunk@.take(chunk@.len() as int) =~= chunk@);
                        crate::page_table::lemma_flat_bytes_push(
                            chunks@.take(c as int),
                            chunks@[c as int],
                        );
                        assert(chunks@.take(c as int).push(chunks@[c as int]) =~= chunks@.take(
                            c as int + 1,
                        ));
                    }
                    c = c + 1;
                }
                proof {
                    assert(chunks@.take(chunks@.len() as int) =~= chunks@);
                }
                (len as i64, out)
            },
            None => (-1, Vec::new()),
        }
    }

    /// The `yield` system call: the current task goes back to `Ready` and
    /// the nearest `Ready` task after it in scan order is scheduled — the
    /// suspended caller itself only when no other task is `Ready`. Returns
    /// zero to the caller.
    pub fn sys_yield(&mut self) -> (r: (i64, usize))
        requires
            old(self).inv(),
            old(self).task_manager.status(old(self).cur()) is Running || old(
                self,
            ).task_manager.status(old(self).cur()) is Ready,
        ensures
            final(self).inv(),
            final(self).mem == old(self).mem,
            final(self).alloc == old(self).alloc,
            final(self).kernel_space == old(self).kernel_space,
            final(self).task_count() == old(self).task_count(),
            r.0 == 0,
            r.1 < final(self).task_count(),
            final(self).cur() == r.1,
            final(self).task_manager.status(r.1 as int) is Running,
            r.1 != old(self).cur() ==> final(self).task_manager.status(
                old(self).cur(),
            ) is Ready && old(self).task_manager.status(r.1 as int) is Ready,
            exists|k: int|
                1 <= k <= old(self).task_manager.num_app && r.1 == old(
                    self,
                ).task_manager.scan_slot(k) && #[trigger] old(self).task_manager.ready_or_current_at(
                    k,
                ) && (forall|j: int|
                    1 <= j < k ==> !(#[trigger] old(self).task_manager.ready_or_current_at(j))),
            forall|i: int|
                0 <= i < old(self).task_count() && i != old(self).cur() && i != r.1
                    ==> final(self).task_manager.tasks@[i] == old(self).task_manager.tasks@[i],
            forall|t: int|
                0 <= t < old(self).task_count()
                    ==> (#[trigger] final(self).task_manager.tasks@[t]).trap_cx_ppn == old(
                    self,
                ).task_manager.tasks@[t].trap_cx_ppn
                    && final(self).task_manager.tasks@[t].memory_set == old(
                    self,
                ).task_manager.tasks@[t].memory_set,
    {
        let r = crate::task_manager::suspend_current_and_run_next(&mut self.task_manager);
        let id = match r {
            Some(id) => id,
            None => {
                proof {
                    assert(false);
                }
                0
            },
        };
        proof {
            assert forall|t: int| 0 <= t < old(self).task_count() implies (
            #[trigger] self.task_manager.tasks@[t]).memory_set == old(
                self,
            ).task_manager.tasks@[t].memory_set && self.task_manager.tasks@[t].trap_cx_ppn == old(
                self,
            ).task_manager.tasks@[t].trap_cx_ppn && self.task_manager.tasks@[t].task_cx.wf() by {
                assert(old(self).task_manager.tasks@[t].task_cx.wf());
            }
            self.lemma_tm_update_preserves_inv(*old(self));
        }
        (0, id)
    }

    /// The `exit` system call: the current task becomes `Exited` and the
    /// nearest remaining `Ready` task after it in scan order is scheduled;
    /// when none is left the machine is to shut down with success.
    pub fn sys_exit(&mut self) -> (r: Schedule)
        requires
            old(self).inv(),
        ensures
            final(self).inv(),
            final(self).mem == old(self).mem,
            final(self).alloc == old(self).alloc,
            final(self).kernel_space == old(self).kernel_space,
            final(self).task_count() == old(self).task_count(),
            final(self).task_manager.status(old(self).cur()) is Exited,
            match r {
                Schedule::SwitchTo(id) => {
                    &&& id < final(self).task_count()
                    &&& final(self).cur() == id
                    &&& final(self).task_manager.status(id as int) is Running
                    &&& id != old(self).cur()
                    &&& old(self).task_manager.status(id as int) is Ready
                    &&& exists|k: int|
                        1 <= k <= old(self).task_manager.num_app && id == old(
                            self,
                        ).task_manager.scan_slot(k)
                            && #[trigger] old(self).task_manager.ready_besides_current_at(k) && (
                        forall|j: int|
                            1 <= j < k ==> !(#[trigger] old(
                                self,
                            ).task_manager.ready_besides_current_at(j)))
                    &&& forall|i: int|
                        0 <= i < old(self).task_count() && i != old(self).cur() && i != id
                            ==> final(self).task_manager.tasks@[i] == old(
                            self,
                        ).task_manager.tasks@[i]
                },
                Schedule::Shutdown => (forall|i: int|
                    0 <= i < final(self).task_count()
                        ==> !(#[trigger] final(self).task_manager.status(i) is Ready)) && (
                forall|i: int|
                    0 <= i < old(self).task_count() && i != old(self).cur() ==> !(#[trigger] old(
                        self,
                    ).task_manager.status(i) is Ready)) && (forall|i: int|
                    0 <= i < old(self).task_count() && i != old(self).cur()
                        ==> final(self).task_manager.tasks@[i] == old(self).task_manager.tasks@[i]),
                Schedule::Continue => false,
            },
            forall|t: int|
                0 <= t < old(self).task_count()
                    ==> (#[trigger] final(self).task_manager.tasks@[t]).trap_cx_ppn == old(
                    self,
                ).task_manager.tasks@[t].trap_cx_ppn
                    && final(self).task_manager.tasks@[t].memory_set == old(
                    self,
                ).task_manager.tasks@[t].memory_set,
    {
        let r = crate::task_manager::exit_current_and_run_next(&mut self.task_manager);
        proof {
            assert forall|t: int| 0 <= t < old(self).task_count() implies (
            #[trigger] self.task_manager.tasks@[t]).memory_set == old(
                self,
            ).task_manager.tasks@[t].memory_set && self.task_manager.tasks@[t].trap_cx_ppn == old(
                self,
            ).task_manager.tasks@[t].trap_cx_ppn && self.task_manager.tasks@[t].task_cx.wf() by {
                assert(old(self).task_manager.tasks@[t].task_cx.wf());
            }
            self.lemma_tm_update_preserves_inv(*old(self));
        }
        match r {
            Some(id) => Schedule::SwitchTo(id),
            None => Schedule::Shutdown,
        }
    }

    /// Scheduling updates touch only task statuses and the current index;
    /// memory, spaces and frames are untouched, so the invariant carries
    /// over.
    proof fn lemma_tm_update_preserves_inv(self, pre: Kernel)
        requires
            pre.inv(),
            self.mem == pre.mem,
            self.alloc == pre.alloc,
            self.kernel_space == pre.kernel_space,
            self.task_manager.sched_inv(),
            self.task_manager.tasks@.len() == pre.task_manager.tasks@.len(),
            forall|t: int|
                0 <= t < pre.task_count() ==> (#[trigger] self.task_manager.tasks@[t]).memory_set
                    == pre.task_manager.tasks@[t].memory_set
                    && self.task_manager.tasks@[t].trap_cx_ppn
                    == pre.task_manager.tasks@[t].trap_cx_ppn
                    && self.task_manager.tasks@[t].task_cx.wf(),
        ensures
            self.inv(),
    {
        assert forall|t: int| 0 <= t < self.task_count() implies (#[trigger] self.task_ms(
            t,
        )).inv(self.mem) by {
            assert(self.task_ms(t) == pre.task_ms(t));
        }
        assert forall|t: int, p: u64|
            0 <= t < self.task_count() && #[trigger] self.task_ms(t).owns(
                p,
            ) implies self.alloc.live@.contains(p) by {
            assert(pre.task_ms(t).owns(p));
        }
        assert forall|t: int, p: u64|
            0 <= t < self.task_count() implies !(#[trigger] self.task_ms(t).owns(p)
                && self.kernel_space.owns(p)) by {
            assert(self.task_ms(t) == pre.task_ms(t));
        }
        assert forall|t1: int, t2: int, p: u64|
            0 <= t1 < self.task_count() && 0 <= t2 < self.task_count() && t1 != t2 implies !(
        #[trigger] self.task_ms(t1).owns(p) && #[trigger] self.task_ms(t2).owns(p)) by {
            assert(self.task_ms(t1) == pre.task_ms(t1));
            assert(self.task_ms(t2) == pre.task_ms(t2));
        }
        assert forall|t: int|
            0 <= t < self.task_count() implies match (#[trigger] self.task_ms(
                t,
            )).trampoline_ppn {
            Some(p) => p < self.alloc.start@,
            None => false,
        } by {
            assert(self.task_ms(t) == pre.task_ms(t));
        }
        assert forall|t: int| 0 <= t < self.task_count() implies spec_mapped(
            self.mem,
            (#[trigger] self.task_ms(t)).root(),
            (TRAMP_VPN - 1) as u64,
        ) && self.task_manager.tasks@[t].trap_cx_ppn == pte_ppn_of(
            spec_leaf(self.mem, self.task_ms(t).root(), (TRAMP_VPN - 1) as u64),
        ) && self.mem.contains_ppn(self.task_manager.tasks@[t].trap_cx_ppn) && self.task_ms(
            t,
        ).owns_data_frame(self.task_manager.tasks@[t].trap_cx_ppn) by {
            assert(self.task_ms(t) == pre.task_ms(t));
            assert(pre.task_ms(t).owns_data_frame(pre.task_manager.tasks@[t].trap_cx_ppn));
        }
        assert forall|t: int, a: int|
            0 <= t < self.task_count() && 0 <= a < self.task_ms(t).areas@.len() implies (
        #[trigger] self.task_ms(t).areas@[a]).map_type is Framed by {
            assert(self.task_ms(t) == pre.task_ms(t));
        }
    }
}

impl Kernel {
    /// Two distinct pages of a task space never map to the same frame: a
    /// framed area backs each page with its own frame, frames are
    /// disjoint across areas, and the trampoline frame lies below every
    /// allocated one.
    proof fn lemma_task_leaf_frames_distinct(self, t: int, v1: u64, v2: u64)
        requires
            self.inv(),
            0 <= t < self.task_count(),
            v1 < VPN_BOUND,
            v2 < VPN_BOUND,
            v1 != v2,
            spec_mapped(self.mem, self.task_ms(t).root(), v1),
            spec_mapped(self.mem, self.task_ms(t).root(), v2),
        ensures
            pte_ppn_of(spec_leaf(self.mem, self.task_ms(t).root(), v1)) != pte_ppn_of(
                spec_leaf(self.mem, self.task_ms(t).root(), v2),
            ),
    {
        let ms = self.task_ms(t);
        crate::memory_set::lemma_mapped_frames_owned(ms, self.mem, v1);
        crate::memory_set::lemma_mapped_frames_owned(ms, self.mem, v2);
        let f1 = pte_ppn_of(spec_leaf(self.mem, ms.root(), v1));
        let f2 = pte_ppn_of(spec_leaf(self.mem, ms.root(), v2));
        if v1 == TRAMP_VPN {
            let a2 = choose|a: int|
                0 <= a < ms.areas@.len() && (#[trigger] ms.areas@[a]).covers(v2) && f2
                    == ms.areas@[a].area_ppn(v2) && (ms.areas@[a].map_type is Framed
                    ==> ms.areas@[a].owns_frame(f2));
            assert(ms.areas@[a2].map_type is Framed);
            assert(ms.owns(f2));
            assert(self.alloc.live@.contains(f2));
            assert(f1 < self.alloc.start@);
        } else if v2 == TRAMP_VPN {
            let a1 = choose|a: int|
                0 <= a < ms.areas@.len() && (#[trigger] ms.areas@[a]).covers(v1) && f1
                    == ms.areas@[a].area_ppn(v1) && (ms.areas@[a].map_type is Framed
                    ==> ms.areas@[a].owns_frame(f1));
            assert(ms.areas@[a1].map_type is Framed);
            assert(ms.owns(f1));
            assert(self.alloc.live@.contains(f1));
            assert(f2 < self.alloc.start@);
        } else {
            let a1 = choose|a: int|
                0 <= a < ms.areas@.len() && (#[trigger] ms.areas@[a]).covers(v1) && f1
                    == ms.areas@[a].area_ppn(v1) && (ms.areas@[a].map_type is Framed
                    ==> ms.areas@[a].owns_frame(f1));
            let a2 = choose|a: int|
                0 <= a < ms.areas@.len() && (#[trigger] ms.areas@[a]).covers(v2) && f2
                    == ms.areas@[a].area_ppn(v2) && (ms.areas@[a].map_type is Framed
                    ==> ms.areas@[a].owns_frame(f2));
            assert(ms.areas@[a1].map_type is Framed);
            assert(ms.areas@[a2].map_type is Framed);
            if a1 == a2 {
                let ar = ms.areas@[a1];
                assert(f1 == ar.data_frames@[v1 - ar.start()].ppn.0);
                assert(f2 == ar.data_frames@[v2 - ar.start()].ppn.0);
                assert(ar.area_wf());
                if f1 == f2 {
                    let i1 = v1 - ar.start();
                    let i2 = v2 - ar.start();
                    assert(i1 != i2);
                    assert(ar.data_frames@[i1 as int].ppn.0 != ar.data_frames@[i2 as int].ppn.0);
                }
            } else {
                if f1 == f2 {
                    assert(ms.areas@[a1].owns_frame(f1) && ms.areas@[a2].owns_frame(f1));
                }
            }
        }
    }

    /// The `gettimeofday` system call: convert the tick reading to
    /// seconds and microseconds and store them as the two words of the
    /// caller's record, translated through the current task's page table.
    /// Returns zero on success, minus one when the pointer is unaligned,
    /// out of range, or not fully mapped.
    pub fn sys_get_time(&mut self, ts_ptr: u64, now_ticks: u64) -> (r: i64)
        requires
            old(self).inv(),
        ensures
            final(self).inv(),
            final(self).task_manager == old(self).task_manager,
            final(self).alloc == old(self).alloc,
            final(self).kernel_space == old(self).kernel_space,
            final(self).mem.first_ppn == old(self).mem.first_ppn,
            final(self).mem.pages@.len() == old(self).mem.pages@.len(),
            r == 0 || r == -1,
            r == 0 <==> old(self).time_ptr_ok(ts_ptr),
            r == -1 ==> *final(self) == *old(self),
            r == 0 ==> final(self).timeval_written(*old(self), ts_ptr, now_ticks),
    {
        if ts_ptr % 8 != 0 || ts_ptr >= VA_BOUND || 16 > VA_BOUND - ts_ptr {
            return -1;
        }
        let tv = crate::timer::TimeVal::from_ticks(now_ticks);
        let sec: u64 = tv.sec;
        let usec: u64 = tv.usec;
        let cur = self.task_manager.current_task;
        proof {
            let ms = self.task_ms(self.cur());
            assert(ms.inv(self.mem));
        }
        let ms_ref = &self.task_manager.tasks[cur].memory_set;
        let vpn1 = VirtAddr(ts_ptr).floor();
        let vpn2 = VirtAddr(ts_ptr + 8).floor();
        let pte1 = match ms_ref.translate(&self.mem, vpn1) {
            Some(pte) => pte,
            None => {
                return -1;
            },
        };
        if !pte1.is_valid() {
            return -1;
        }
        let f1 = pte1.ppn().0;
        if !self.mem.contains(f1) {
            return -1;
        }
        let pte2 = match ms_ref.translate(&self.mem, vpn2) {
            Some(pte) => pte,
            None => {
                return -1;
            },
        };
        if !pte2.is_valid() {
            return -1;
        }
        let f2 = pte2.ppn().0;
        if !self.mem.contains(f2) {
            return -1;
        }
        let i1 = ((ts_ptr % PAGE_SIZE) / 8) as usize;
        let i2 = (((ts_ptr + 8) % PAGE_SIZE) / 8) as usize;
        proof {
            assert(va_vpn(ts_ptr as int) == vpn1.0);
            assert(va_vpn(ts_ptr as int + 8) == vpn2.0);
            assert(spec_leaf(self.mem, self.task_ms(self.cur()).root(), vpn1.0) == pte1.bits);
            assert(spec_leaf(self.mem, self.task_ms(self.cur()).root(), vpn2.0) == pte2.bits);
            if vpn1.0 == vpn2.0 {
                assert(i1 != i2);
            } else {
                self.lemma_task_leaf_frames_distinct(self.cur(), vpn1.0, vpn2.0);
                assert(f1 != f2);
            }
            crate::memory_set::lemma_mapped_frames_owned(
                self.task_ms(self.cur()),
                self.mem,
                vpn1.0,
            );
            crate::memory_set::lemma_mapped_frames_owned(
                self.task_ms(self.cur()),
                self.mem,
                vpn2.0,
            );
        }
        let ghost pre = *self;
        self.mem.write_word(f1, i1, sec);
        proof {
            self.lemma_user_frame_write_preserves_inv(pre, f1, vpn1.0);
        }
        let ghost mid = *self;
        self.mem.write_word(f2, i2, usec);
        proof {
            assert(spec_mapped(mid.mem, mid.task_ms(mid.cur()).root(), vpn2.0));
            assert(spec_leaf(mid.mem, mid.task_ms(mid.cur()).root(), vpn2.0) == pte2.bits);
            self.lemma_user_frame_write_preserves_inv(mid, f2, vpn2.0);
            assert(self.mem.word_at(f2, i2 as int) == usec);
            assert(self.mem.word_at(f1, i1 as int) == sec) by {
                if f1 == f2 {
                    assert(i1 != i2);
                } else {
                }
            }
        }
        0
    }

    /// A write into the frame that backs a mapped page of some task's
    /// space disturbs no page table: the frame is a data frame of that
    /// space or the shared trampoline frame, both outside every table.
    proof fn lemma_user_frame_write_preserves_inv(self, pre: Kernel, f: u64, v: u64)
        requires
            pre.inv(),
            self.alloc == pre.alloc,
            self.kernel_space == pre.kernel_space,
            self.task_manager == pre.task_manager,
            self.mem.wf(),
            self.mem.first_ppn == pre.mem.first_ppn,
            self.mem.pages@.len() == pre.mem.pages@.len(),
            v < VPN_BOUND,
            spec_mapped(pre.mem, pre.task_ms(pre.cur()).root(), v),
            f == pte_ppn_of(spec_leaf(pre.mem, pre.task_ms(pre.cur()).root(), v)),
            forall|p: u64, i: int|
                p != f ==> #[trigger] self.mem.word_at(p, i) == pre.mem.word_at(p, i),
        ensures
            self.inv(),
            forall|t: int, v2: u64|
                0 <= t < pre.task_count() ==> #[trigger] spec_mapped(
                    self.mem,
                    pre.task_ms(t).root(),
                    v2,
                ) == spec_mapped(pre.mem, pre.task_ms(t).root(), v2),
            forall|t: int, v2: u64|
                0 <= t < pre.task_count() ==> #[trigger] spec_leaf(
                    self.mem,
                    pre.task_ms(t).root(),
                    v2,
                ) == spec_leaf(pre.mem, pre.task_ms(t).root(), v2),
            forall|v2: u64|
                #[trigger] spec_mapped(self.mem, pre.kernel_space.root(), v2) == spec_mapped(
                    pre.mem,
                    pre.kernel_space.root(),
                    v2,
                ),
    {
        crate::memory_set::lemma_mapped_frames_owned(pre.task_ms(pre.cur()), pre.mem, v);
        if v == TRAMP_VPN {
            assert(f < pre.alloc.start@);
            assert forall|p: u64| pre.alloc.live@.contains(p) implies p != f by {}
            assert(!pre.kernel_space.owns(f)) by {
                if pre.kernel_space.owns(f) {
                    assert(pre.alloc.live@.contains(f));
                }
            }
            self.lemma_data_write_preserves_inv_general(pre, f);
        } else {
            let a = choose|a: int|
                0 <= a < pre.task_ms(pre.cur()).areas@.len() && (#[trigger] pre.task_ms(
                    pre.cur(),
                ).areas@[a]).covers(v) && pte_ppn_of(
                    spec_leaf(pre.mem, pre.task_ms(pre.cur()).root(), v),
                ) == pre.task_ms(pre.cur()).areas@[a].area_ppn(v) && (pre.task_ms(
                    pre.cur(),
                ).areas@[a].map_type is Framed ==> pre.task_ms(pre.cur()).areas@[a].owns_frame(
                    pte_ppn_of(spec_leaf(pre.mem, pre.task_ms(pre.cur()).root(), v)),
                ));
            assert(pre.task_ms(pre.cur()).areas@[a].map_type is Framed);
            assert(pre.task_ms(pre.cur()).owns_data_frame(f));
            self.lemma_data_write_preserves_inv(pre, f);
        }
    }

    /// Like the data-frame write lemma, for a frame below the allocator's
    /// reach (the trampoline frame): no table can sit there either.
    proof fn lemma_data_write_preserves_inv_general(self, pre: Kernel, f: u64)
        requires
            pre.inv(),
            self.alloc == pre.alloc,
            self.kernel_space == pre.kernel_space,
            self.task_manager == pre.task_manager,
            self.mem.wf(),
            self.mem.first_ppn == pre.mem.first_ppn,
            self.mem.pages@.len() == pre.mem.pages@.len(),
            f < pre.alloc.start@,
            forall|p: u64, i: int|
                p != f ==> #[trigger] self.mem.word_at(p, i) == pre.mem.word_at(p, i),
        ensures
            self.inv(),
            forall|t: int, v2: u64|
                0 <= t < pre.task_count() ==> #[trigger] spec_mapped(
                    self.mem,
                    pre.task_ms(t).root(),
                    v2,
                ) == spec_mapped(pre.mem, pre.task_ms(t).root(), v2),
            forall|t: int, v2: u64|
                0 <= t < pre.task_count() ==> #[trigger] spec_leaf(
                    self.mem,
                    pre.task_ms(t).root(),
                    v2,
                ) == spec_leaf(pre.mem, pre.task_ms(t).root(), v2),
            forall|v2: u64|
                #[trigger] spec_mapped(self.mem, pre.kernel_space.root(), v2) == spec_mapped(
                    pre.mem,
                    pre.kernel_space.root(),
                    v2,
                ),
    {
        assert forall|p: u64, i: int|
            pre.kernel_space.page_table.owns(p) implies #[trigger] self.mem.word_at(p, i)
            == pre.mem.word_at(p, i) by {
            assert(pre.kernel_space.owns(p));
            assert(pre.alloc.live@.contains(p));
        }
        lemma_ms_inv_agree(pre.kernel_space, pre.mem, self.mem);
        assert forall|t: int| 0 <= t < pre.task_count() implies (#[trigger] self.task_ms(t)).inv(
            self.mem,
        ) by {
            assert forall|p: u64, i: int|
                pre.task_ms(t).page_table.owns(p) implies #[trigger] self.mem.word_at(p, i)
                == pre.mem.word_at(p, i) by {
                assert(pre.task_ms(t).owns(p));
                assert(pre.alloc.live@.contains(p));
            }
            lemma_ms_inv_agree(pre.task_ms(t), pre.mem, self.mem);
        }
        assert forall|t: int, v2: u64|
            0 <= t < pre.task_count() implies #[trigger] spec_mapped(
            self.mem,
            pre.task_ms(t).root(),
            v2,
        ) == spec_mapped(pre.mem, pre.task_ms(t).root(), v2) by {
            assert forall|p: u64, i: int|
                pre.task_ms(t).page_table.owns(p) implies #[trigger] self.mem.word_at(p, i)
                == pre.mem.word_at(p, i) by {
                assert(pre.task_ms(t).owns(p));
                assert(pre.alloc.live@.contains(p));
            }
            lemma_ms_inv_agree(pre.task_ms(t), pre.mem, self.mem);
        }
        assert forall|t: int, v2: u64|
            0 <= t < pre.task_count() implies #[trigger] spec_leaf(
            self.mem,
            pre.task_ms(t).root(),
            v2,
        ) == spec_leaf(pre.mem, pre.task_ms(t).root(), v2) by {
            assert forall|p: u64, i: int|
                pre.task_ms(t).page_table.owns(p) implies #[trigger] self.mem.word_at(p, i)
                == pre.mem.word_at(p, i) by {
                assert(pre.task_ms(t).owns(p));
                assert(pre.alloc.live@.contains(p));
            }
            lemma_ms_inv_agree(pre.task_ms(t), pre.mem, self.mem);
        }
        assert forall|t: int| 0 <= t < self.task_count() implies spec_mapped(
            self.mem,
            (#[trigger] self.task_ms(t)).root(),
            (TRAMP_VPN - 1) as u64,
        ) && self.task_manager.tasks@[t].trap_cx_ppn == pte_ppn_of(
            spec_leaf(self.mem, self.task_ms(t).root(), (TRAMP_VPN - 1) as u64),
        ) by {
            assert(spec_mapped(self.mem, pre.task_ms(t).root(), (TRAMP_VPN - 1) as u64)
                == spec_mapped(pre.mem, pre.task_ms(t).root(), (TRAMP_VPN - 1) as u64));
            assert(spec_leaf(self.mem, pre.task_ms(t).root(), (TRAMP_VPN - 1) as u64)
                == spec_leaf(pre.mem, pre.task_ms(t).root(), (TRAMP_VPN - 1) as u64));
        }
        assert forall|p: u64| #[trigger]
            self.kernel_space.owns(p) implies self.alloc.live@.contains(p) by {
            assert(pre.kernel_space.owns(p));
        }
        assert forall|t: int, p: u64|
            0 <= t < self.task_count() && #[trigger] self.task_ms(t).owns(
                p,
            ) implies self.alloc.live@.contains(p) by {
            assert(pre.task_ms(t).owns(p));
        }
        assert forall|t: int, p: u64|
            0 <= t < self.task_count() implies !(#[trigger] self.task_ms(t).owns(p)
                && self.kernel_space.owns(p)) by {
            assert(self.task_ms(t) == pre.task_ms(t));
        }
        assert forall|t1: int, t2: int, p: u64|
            0 <= t1 < self.task_count() && 0 <= t2 < self.task_count() && t1 != t2 implies !(
        #[trigger] self.task_ms(t1).owns(p) && #[trigger] self.task_ms(t2).owns(p)) by {
            assert(self.task_ms(t1) == pre.task_ms(t1));
            assert(self.task_ms(t2) == pre.task_ms(t2));
        }
        assert forall|t: int|
            0 <= t < self.task_count() implies match (#[trigger] self.task_ms(
                t,
            )).trampoline_ppn {
            Some(p) => p < self.alloc.start@,
            None => false,
        } by {
            assert(self.task_ms(t) == pre.task_ms(t));
        }
        assert forall|t: int|
            0 <= t < self.task_count() implies self.mem.contains_ppn(
            (#[trigger] self.task_manager.tasks@[t]).trap_cx_ppn,
        ) && self.task_ms(t).owns_data_frame(self.task_manager.tasks@[t].trap_cx_ppn) by {
            assert(pre.mem.contains_ppn(pre.task_manager.tasks@[t].trap_cx_ppn));
            assert(pre.task_ms(t).owns_data_frame(pre.task_manager.tasks@[t].trap_cx_ppn));
        }
        assert forall|t: int|
            0 <= t < self.task_count() implies (
        #[trigger] self.task_manager.tasks@[t].task_cx).wf() by {
            assert(pre.task_manager.tasks@[t].task_cx.wf());
        }
        assert forall|t: int, a: int|
            0 <= t < self.task_count() && 0 <= a < self.task_ms(t).areas@.len() implies (
        #[trigger] self.task_ms(t).areas@[a]).map_type is Framed by {
            assert(self.task_ms(t) == pre.task_ms(t));
        }
    }
}

/// The program counter stepped over one four-byte instruction, with the
/// RV64 wrap-around.
pub open spec fn sepc_step(x: u64) -> u64 {
    ((x + 4) % 0x1_0000_0000_0000_0000) as u64
}

/// The trap causes the kernel handles; any other cause is fatal and is the
/// platform layer's panic.
#[derive(Clone, Copy, Debug, PartialEq, Eq, Structural)]
pub enum TrapCause {
    /// An `ecall` from user mode.
    UserEnvCall,
    /// A store access fault.
    StoreFault,
    /// A store page fault.
    StorePageFault,
    /// A load access fault.
    LoadFault,
    /// A load page fault.
    LoadPageFault,
    /// An illegal instruction.
    IllegalInstruction,
    /// The supervisor timer fired.
    SupervisorTimer,
}

impl Kernel {
    /// The system-call dispatcher: route by number, as the ABI places it
    /// in x17, with the arguments from x10..x12. An unknown number is
    /// refused with minus one.
    pub fn syscall(&mut self, id: u64, arg0: u64, arg1: u64, arg2: u64, now_ticks: u64) -> (r:
        GateOutput)
        requires
            old(self).inv(),
            old(self).task_manager.status(old(self).cur()) is Running,
        ensures
            final(self).inv(),
            final(self).task_count() == old(self).task_count(),
            id == SYSCALL_WRITE ==> final(self).task_manager == old(self).task_manager
                && final(self).mem == old(self).mem && r.schedule is Continue && (arg0 != 1
                ==> r.ret == -1) && (
            arg0 == 1 && arg1 + arg2 <= VA_BOUND && spec_buffer_mapped(
                old(self).mem,
                old(self).task_ms(old(self).cur()).root(),
                arg1,
                arg2,
            ) ==> r.ret == arg2 && r.console@ == spec_user_bytes(
                old(self).mem,
                old(self).task_ms(old(self).cur()).root(),
                arg1,
                arg2,
            )),
            id == SYSCALL_EXIT ==> r.ret == 0 && final(self).task_manager.status(
                old(self).cur(),
            ) is Exited && match r.schedule {
                Schedule::SwitchTo(next) => {
                    &&& next < final(self).task_count()
                    &&& final(self).cur() == next
                    &&& final(self).task_manager.status(next as int) is Running
                    &&& next != old(self).cur()
                    &&& old(self).task_manager.status(next as int) is Ready
                    &&& exists|k: int|
                        1 <= k <= old(self).task_manager.num_app && next == old(
                            self,
                        ).task_manager.scan_slot(k)
                            && #[trigger] old(self).task_manager.ready_besides_current_at(k) && (
                        forall|j: int|
                            1 <= j < k ==> !(#[trigger] old(
                                self,
                            ).task_manager.ready_besides_current_at(j)))
                    &&& forall|i: int|
                        0 <= i < old(self).task_count() && i != old(self).cur() && i != next
                            ==> final(self).task_manager.tasks@[i] == old(
                            self,
                        ).task_manager.tasks@[i]
                },
                Schedule::Shutdown => forall|i: int|
                    0 <= i < old(self).task_count() && i != old(self).cur() ==> !(#[trigger] old(
                        self,
                    ).task_manager.status(i) is Ready) && final(self).task_manager.tasks@[i] == old(
                        self,
                    ).task_manager.tasks@[i],
                Schedule::Continue => false,
            },
            id == SYSCALL_YIELD ==> r.ret == 0 && final(self).mem == old(self).mem && match r.schedule {
                Schedule::SwitchTo(next) => {
                    &&& next < final(self).task_count()
                    &&& final(self).cur() == next
                    &&& final(self).task_manager.status(next as int) is Running
                    &&& (next != old(self).cur() ==> final(self).task_manager.status(
                        old(self).cur(),
                    ) is Ready && old(self).task_manager.status(next as int) is Ready)
                    &&& exists|k: int|
                        1 <= k <= old(self).task_manager.num_app && next == old(
                            self,
                        ).task_manager.scan_slot(k)
                            && #[trigger] old(self).task_manager.ready_or_current_at(k) && (
                        forall|j: int|
                            1 <= j < k ==> !(#[trigger] old(self).task_manager.ready_or_current_at(
                                j,
                            )))
                    &&& forall|i: int|
                        0 <= i < old(self).task_count() && i != old(self).cur() && i != next
                            ==> final(self).task_manager.tasks@[i] == old(
                            self,
                        ).task_manager.tasks@[i]
                },
                _ => false,
            },
            id == SYSCALL_GET_TIME ==> r.schedule is Continue && (r.ret == 0 || r.ret == -1)
                && final(self).task_manager == old(self).task_manager && (r.ret == 0 <==> old(
                self,
            ).time_ptr_ok(arg0)) && (r.ret == 0 ==> final(self).timeval_written(
                *old(self),
                arg0,
                now_ticks,
            )) && (r.ret == -1 ==> *final(self) == *old(self)),
            id != SYSCALL_WRITE && id != SYSCALL_EXIT && id != SYSCALL_YIELD && id
                != SYSCALL_GET_TIME ==> r.ret == -1 && *final(self) == *old(self)
                && r.schedule is Continue,
            id != SYSCALL_GET_TIME ==> final(self).mem == old(self).mem,
            id == SYSCALL_EXIT ==> final(self).mem == old(self).mem,
            r.set_timer is None,
            forall|t: int|
                0 <= t < old(self).task_count()
                    ==> (#[trigger] final(self).task_manager.tasks@[t]).trap_cx_ppn == old(
                    self,
                ).task_manager.tasks@[t].trap_cx_ppn
                    && final(self).task_manager.tasks@[t].memory_set == old(
                    self,
                ).task_manager.tasks@[t].memory_set,
    {
        if id == SYSCALL_WRITE {
            let (ret, console) = self.sys_write(arg0, arg1, arg2);
            GateOutput { ret, console, schedule: Schedule::Continue, set_timer: None }
        } else if id == SYSCALL_EXIT {
            let schedule = self.sys_exit();
            GateOutput { ret: 0, console: Vec::new(), schedule, set_timer: None }
        } else if id == SYSCALL_YIELD {
            let (ret, next) = self.sys_yield();
            GateOutput {
                ret,
                console: Vec::new(),
                schedule: Schedule::SwitchTo(next),
                set_timer: None,
            }
        } else if id == SYSCALL_GET_TIME {
            let ret = self.sys_get_time(arg0, now_ticks);
            GateOutput { ret, console: Vec::new(), schedule: Schedule::Continue, set_timer: None }
        } else {
            GateOutput { ret: -1, console: Vec::new(), schedule: Schedule::Continue, set_timer: None }
        }
    }

    /// Storing into the current task's trap-context frame disturbs no user
    /// buffer that lies below the trap-context page: the walks are
    /// unchanged, and every buffer byte sits in a frame other than the one
    /// written, because distinct pages of one space map to distinct frames.
    proof fn lemma_trap_store_preserves_buffer(self, k1: Kernel, ppn0: u64, va: u64, len: u64)
        requires
            self.inv(),
            k1.alloc == self.alloc,
            k1.kernel_space == self.kernel_space,
            k1.task_manager == self.task_manager,
            k1.mem.wf(),
            k1.mem.first_ppn == self.mem.first_ppn,
            k1.mem.pages@.len() == self.mem.pages@.len(),
            ppn0 == self.task_manager.tasks@[self.cur()].trap_cx_ppn,
            forall|p: u64, i: int|
                p != ppn0 ==> #[trigger] k1.mem.word_at(p, i) == self.mem.word_at(p, i),
            va + len <= VA_BOUND - 2 * PAGE_SIZE,
            spec_buffer_mapped(self.mem, self.task_ms(self.cur()).root(), va, len),
        ensures
            spec_buffer_mapped(k1.mem, self.task_ms(self.cur()).root(), va, len),
            spec_user_bytes(k1.mem, self.task_ms(self.cur()).root(), va, len) == spec_user_bytes(
                self.mem,
                self.task_ms(self.cur()).root(),
                va,
                len,
            ),
    {
        let root = self.task_ms(self.cur()).root();
        assert(self.task_ms(self.cur()).owns_data_frame(ppn0));
        k1.lemma_data_write_preserves_inv(self, ppn0);
        assert forall|k: int| 0 <= k < len implies #[trigger] spec_byte_ok(
            k1.mem,
            root,
            va,
            k,
        ) by {
            assert(spec_byte_ok(self.mem, root, va, k));
            assert(spec_mapped(k1.mem, root, va_vpn(va + k)) == spec_mapped(
                self.mem,
                root,
                va_vpn(va + k),
            ));
            assert(spec_leaf(k1.mem, root, va_vpn(va + k)) == spec_leaf(
                self.mem,
                root,
                va_vpn(va + k),
            ));
        }
        assert forall|k: int|
            0 <= k < len implies #[trigger] spec_user_bytes(k1.mem, root, va, len)[k]
            == spec_user_bytes(self.mem, root, va, len)[k] by {
            let v = va_vpn(va + k);
            assert(spec_byte_ok(self.mem, root, va, k));
            assert(v < TRAMP_VPN - 1) by (nonlinear_arith)
                requires
                    v == (va + k) / (PAGE_SIZE as int),
                    0 <= va + k < VA_BOUND - 2 * PAGE_SIZE,
                    PAGE_SIZE == 0x1000,
                    VA_BOUND == 0x80_0000_0000,
                    TRAMP_VPN == 0x7ff_ffff,
            {}
            assert(spec_mapped(self.mem, root, (TRAMP_VPN - 1) as u64));
            assert(ppn0 == pte_ppn_of(spec_leaf(self.mem, root, (TRAMP_VPN - 1) as u64)));
            self.lemma_task_leaf_frames_distinct(self.cur(), v, (TRAMP_VPN - 1) as u64);
            let f = pte_ppn_of(spec_leaf(self.mem, root, v));
            assert(f != ppn0);
            assert(spec_leaf(k1.mem, root, v) == spec_leaf(self.mem, root, v));
            assert(k1.mem.word_at(f, ((va + k) % (PAGE_SIZE as int)) / 8) == self.mem.word_at(
                f,
                ((va + k) % (PAGE_SIZE as int)) / 8,
            ));
        }
        assert(spec_user_bytes(k1.mem, root, va, len) =~= spec_user_bytes(
            self.mem,
            root,
            va,
            len,
        ));
    }

    /// The trap handler: on a user environment call, step `sepc` over the
    /// `ecall`, dispatch the system call and write its return value into
    /// the task's x10; on a user fault, report and kill the offending
    /// task and schedule the next one; on a timer tick, program the next
    /// deadline and hand the hart to the nearest `Ready` task.
    pub fn trap_handler(&mut self, cause: TrapCause, stval: u64, now_ticks: u64) -> (r: GateOutput)
        requires
            old(self).inv(),
            old(self).task_manager.status(old(self).cur()) is Running,
            now_ticks + crate::config::CLOCK_FREQ / crate::config::TICKS_PER_SEC <= u64::MAX,
        ensures
            final(self).inv(),
            final(self).task_count() == old(self).task_count(),
            forall|t: int|
                0 <= t < old(self).task_count()
                    ==> (#[trigger] final(self).task_manager.tasks@[t]).trap_cx_ppn == old(
                    self,
                ).task_manager.tasks@[t].trap_cx_ppn
                    && final(self).task_manager.tasks@[t].memory_set == old(
                    self,
                ).task_manager.tasks@[t].memory_set,
            // A user fault kills the offender alone: every other task and
            // all of memory are untouched, the nearest remaining `Ready`
            // task runs, and the machine shuts down exactly when none is
            // left.
            cause is StoreFault || cause is StorePageFault || cause is LoadFault || cause
                is LoadPageFault || cause is IllegalInstruction ==> final(self).mem == old(
                self,
            ).mem && r.set_timer is None && final(self).task_manager.status(
                old(self).cur(),
            ) is Exited && match r.schedule {
                Schedule::SwitchTo(next) => {
                    &&& next < final(self).task_count()
                    &&& final(self).cur() == next
                    &&& final(self).task_manager.status(next as int) is Running
                    &&& next != old(self).cur()
                    &&& old(self).task_manager.status(next as int) is Ready
                    &&& exists|k: int|
                        1 <= k <= old(self).task_manager.num_app && next == old(
                            self,
                        ).task_manager.scan_slot(k)
                            && #[trigger] old(self).task_manager.ready_besides_current_at(k) && (
                        forall|j: int|
                            1 <= j < k ==> !(#[trigger] old(
                                self,
                            ).task_manager.ready_besides_current_at(j)))
                    &&& forall|i: int|
                        0 <= i < old(self).task_count() && i != old(self).cur() && i != next
                            ==> final(self).task_manager.tasks@[i] == old(
                            self,
                        ).task_manager.tasks@[i]
                },
                Schedule::Shutdown => forall|i: int|
                    0 <= i < old(self).task_count() && i != old(self).cur() ==> !(#[trigger] old(
                        self,
                    ).task_manager.status(i) is Ready) && final(self).task_manager.tasks@[i] == old(
                        self,
                    ).task_manager.tasks@[i],
                Schedule::Continue => false,
            },
            // A timer tick programs the next deadline, suspends the
            // interrupted task to `Ready`, hands the hart to the nearest
            // `Ready` task, and leaves memory — so every saved trap
            // context — untouched.
            cause is SupervisorTimer ==> r.set_timer == Some(
                (now_ticks + crate::config::CLOCK_FREQ / crate::config::TICKS_PER_SEC) as u64,
            ) && final(self).mem == old(self).mem && match r.schedule {
                Schedule::SwitchTo(next) => {
                    &&& next < final(self).task_count()
                    &&& final(self).cur() == next
                    &&& final(self).task_manager.status(next as int) is Running
                    &&& (next != old(self).cur() ==> final(self).task_manager.status(
                        old(self).cur(),
                    ) is Ready && old(self).task_manager.status(next as int) is Ready)
                    &&& exists|k: int|
                        1 <= k <= old(self).task_manager.num_app && next == old(
                            self,
                        ).task_manager.scan_slot(k)
                            && #[trigger] old(self).task_manager.ready_or_current_at(k) && (
                        forall|j: int|
                            1 <= j < k ==> !(#[trigger] old(self).task_manager.ready_or_current_at(
                                j,
                            )))
                    &&& forall|i: int|
                        0 <= i < old(self).task_count() && i != old(self).cur() && i != next
                            ==> final(self).task_manager.tasks@[i] == old(
                            self,
                        ).task_manager.tasks@[i]
                },
                _ => false,
            },
            // An environment call steps `sepc` over the `ecall`, dispatches
            // by the number in x17, and writes the call's return value into
            // the saved x10; no other word of the trap context and no other
            // frame changes, unless the call itself is the one that writes
            // user memory.
            cause is UserEnvCall ==> r.set_timer is None && final(self).trap_word(
                old(self).cur(),
                10,
            ) == r.ret as u64,
            cause is UserEnvCall && old(self).trap_word(old(self).cur(), 17) != SYSCALL_GET_TIME
                ==> final(self).trap_word(old(self).cur(), 33) == sepc_step(
                old(self).trap_word(old(self).cur(), 33),
            ) && (forall|i: int|
                0 <= i < TRAP_CX_WORDS as int && i != 10 && i != 33
                    ==> #[trigger] final(self).trap_word(old(self).cur(), i) == old(
                    self,
                ).trap_word(old(self).cur(), i)) && (forall|p: u64, i: int|
                p != old(self).task_manager.tasks@[old(self).cur()].trap_cx_ppn
                    ==> #[trigger] final(self).mem.word_at(p, i) == old(self).mem.word_at(p, i)),
            cause is UserEnvCall && old(self).trap_word(old(self).cur(), 17) == SYSCALL_WRITE
                ==> r.schedule is Continue && final(self).task_manager == old(self).task_manager
                && (old(self).trap_word(old(self).cur(), 10) != 1 ==> r.ret == -1) && (old(
                self,
            ).trap_word(old(self).cur(), 10) == 1 && old(self).trap_word(old(self).cur(), 11)
                + old(self).trap_word(old(self).cur(), 12) <= VA_BOUND - 2 * PAGE_SIZE
                && spec_buffer_mapped(
                old(self).mem,
                old(self).task_ms(old(self).cur()).root(),
                old(self).trap_word(old(self).cur(), 11),
                old(self).trap_word(old(self).cur(), 12),
            ) ==> r.ret == old(self).trap_word(old(self).cur(), 12) && r.console@
                == spec_user_bytes(
                old(self).mem,
                old(self).task_ms(old(self).cur()).root(),
                old(self).trap_word(old(self).cur(), 11),
                old(self).trap_word(old(self).cur(), 12),
            )),
            cause is UserEnvCall && old(self).trap_word(old(self).cur(), 17) == SYSCALL_EXIT
                ==> r.ret == 0 && final(self).task_manager.status(old(self).cur()) is Exited
                && match r.schedule {
                Schedule::SwitchTo(next) => {
                    &&& next < final(self).task_count()
                    &&& final(self).cur() == next
                    &&& final(self).task_manager.status(next as int) is Running
                    &&& next != old(self).cur()
                    &&& old(self).task_manager.status(next as int) is Ready
                    &&& exists|k: int|
                        1 <= k <= old(self).task_manager.num_app && next == old(
                            self,
                        ).task_manager.scan_slot(k)
                            && #[trigger] old(self).task_manager.ready_besides_current_at(k) && (
                        forall|j: int|
                            1 <= j < k ==> !(#[trigger] old(
                                self,
                            ).task_manager.ready_besides_current_at(j)))
                },
                Schedule::Shutdown => forall|i: int|
                    0 <= i < old(self).task_count() && i != old(self).cur() ==> !(#[trigger] old(
                        self,
                    ).task_manager.status(i) is Ready),
                Schedule::Continue => false,
            },
            cause is UserEnvCall && old(self).trap_word(old(self).cur(), 17) == SYSCALL_YIELD
                ==> r.ret == 0 && match r.schedule {
                Schedule::SwitchTo(next) => {
                    &&& next < final(self).task_count()
                    &&& final(self).cur() == next
                    &&& final(self).task_manager.status(next as int) is Running
                    &&& (next != old(self).cur() ==> final(self).task_manager.status(
                        old(self).cur(),
                    ) is Ready && old(self).task_manager.status(next as int) is Ready)
                    &&& exists|k: int|
                        1 <= k <= old(self).task_manager.num_app && next == old(
                            self,
                        ).task_manager.scan_slot(k)
                            && #[trigger] old(self).task_manager.ready_or_current_at(k) && (
                        forall|j: int|
                            1 <= j < k ==> !(#[trigger] old(self).task_manager.ready_or_current_at(
                                j,
                            )))
                },
                _ => false,
            },
            cause is UserEnvCall && old(self).trap_word(old(self).cur(), 17) == SYSCALL_GET_TIME
                ==> r.schedule is Continue && (r.ret == 0 || r.ret == -1) && final(self).task_manager == old(self).task_manager
                && (r.ret == 0 <==> old(self).time_ptr_ok(old(self).trap_word(old(self).cur(), 10))),
            cause is UserEnvCall && old(self).trap_word(old(self).cur(), 17) != SYSCALL_WRITE
                && old(self).trap_word(old(self).cur(), 17) != SYSCALL_EXIT && old(
                self,
            ).trap_word(old(self).cur(), 17) != SYSCALL_YIELD && old(self).trap_word(
                old(self).cur(),
                17,
            ) != SYSCALL_GET_TIME ==> r.ret == -1 && r.schedule is Continue && final(self).task_manager == old(self).task_manager,
    {
        match cause {
            TrapCause::UserEnvCall => {
                let caller = self.task_manager.current_task;
                let ppn0 = self.task_manager.tasks[caller].trap_cx_ppn;
                let mut cx = self.current_trap_cx();
                let ghost cx0 = cx;
                let id = cx.x[17];
                let a0 = cx.x[10];
                let a1 = cx.x[11];
                let a2 = cx.x[12];
                cx.sepc = if cx.sepc <= u64::MAX - 4 {
                    cx.sepc + 4
                } else {
                    cx.sepc - (u64::MAX - 3)
                };
                proof {
                    assert(cx0.word(33) == old(self).mem.word_at(ppn0 as u64, 33));
                    assert(cx0.word(17) == old(self).mem.word_at(ppn0 as u64, 17));
                    assert(cx0.word(10) == old(self).mem.word_at(ppn0 as u64, 10));
                    assert(cx0.word(11) == old(self).mem.word_at(ppn0 as u64, 11));
                    assert(cx0.word(12) == old(self).mem.word_at(ppn0 as u64, 12));
                    assert(cx.sepc == sepc_step(cx0.sepc));
                }
                self.store_current_trap_cx(&cx);
                let ghost k1 = *self;
                proof {
                    assert(old(self).task_ms(old(self).cur()).owns_data_frame(ppn0));
                    self.lemma_data_write_preserves_inv(*old(self), ppn0);
                    if id == SYSCALL_WRITE && a0 == 1 && a1 + a2 <= VA_BOUND - 2 * PAGE_SIZE
                        && spec_buffer_mapped(
                        old(self).mem,
                        old(self).task_ms(old(self).cur()).root(),
                        a1,
                        a2,
                    ) {
                        old(self).lemma_trap_store_preserves_buffer(k1, ppn0, a1, a2);
                    }
                    if id == SYSCALL_GET_TIME {
                        // The record's success condition reads only walks
                        // and frame bounds, which the trap-frame store left
                        // alone.
                        let root = old(self).task_ms(old(self).cur()).root();
                        assert(spec_mapped(k1.mem, root, va_vpn(a0 as int)) == spec_mapped(
                            old(self).mem,
                            root,
                            va_vpn(a0 as int),
                        ));
                        assert(spec_leaf(k1.mem, root, va_vpn(a0 as int)) == spec_leaf(
                            old(self).mem,
                            root,
                            va_vpn(a0 as int),
                        ));
                        assert(spec_mapped(k1.mem, root, va_vpn(a0 as int + 8)) == spec_mapped(
                            old(self).mem,
                            root,
                            va_vpn(a0 as int + 8),
                        ));
                        assert(spec_leaf(k1.mem, root, va_vpn(a0 as int + 8)) == spec_leaf(
                            old(self).mem,
                            root,
                            va_vpn(a0 as int + 8),
                        ));
                        assert(k1.time_ptr_ok(a0) == old(self).time_ptr_ok(a0));
                    }
                }
                let out = self.syscall(id, a0, a1, a2, now_ticks);
                let ghost k2 = *self;
                proof {
                    let ms = self.task_ms(caller as int);
                    assert(self.mem.contains_ppn(ppn0));
                }
                let mut cx2 = load_trap_context(&self.mem, ppn0);
                let ghost cx2l = cx2;
                cx2.x.set(10, out.ret as u64);
                proof {
                    assert(cx2.word(33) == cx2l.word(33));
                    if id != SYSCALL_GET_TIME {
                        assert(k2.mem == k1.mem);
                        assert(cx2l.word(33) == k1.mem.word_at(ppn0 as u64, 33));
                        assert(cx2.word(33) == sepc_step(cx0.sepc));
                        assert forall|i: int|
                            0 <= i < TRAP_CX_WORDS as int && i != 10 && i != 33 implies cx2.word(i)
                            == old(self).mem.word_at(ppn0 as u64, i) by {
                            assert(cx2l.word(i) == k1.mem.word_at(ppn0 as u64, i));
                            assert(k1.mem.word_at(ppn0 as u64, i) == cx.word(i));
                            assert(cx.word(i) == cx0.word(i));
                        }
                    }
                }
                self.store_trap_cx_at(caller, &cx2);
                proof {
                    assert(self.mem.word_at(ppn0 as u64, 10) == cx2.word(10));
                    if id != SYSCALL_GET_TIME {
                        assert(self.mem.word_at(ppn0 as u64, 33) == cx2.word(33));
                        assert forall|p: u64, i: int| p != ppn0 implies #[trigger] self.mem.word_at(
                            p,
                            i,
                        ) == old(self).mem.word_at(p, i) by {
                            assert(self.mem.word_at(p, i) == k2.mem.word_at(p, i));
                            assert(k2.mem.word_at(p, i) == k1.mem.word_at(p, i));
                            assert(k1.mem.word_at(p, i) == old(self).mem.word_at(p, i));
                        }
                    }
                }
                out
            },
            TrapCause::StoreFault | TrapCause::StorePageFault | TrapCause::LoadFault
                | TrapCause::LoadPageFault | TrapCause::IllegalInstruction => {
                let schedule = self.sys_exit();
                GateOutput { ret: 0, console: Vec::new(), schedule, set_timer: None }
            },
            TrapCause::SupervisorTimer => {
                let deadline = crate::timer::set_next_trigger(now_ticks);
                let (_z, next) = self.sys_yield();
                GateOutput {
                    ret: 0,
                    console: Vec::new(),
                    schedule: Schedule::SwitchTo(next),
                    set_timer: Some(deadline),
                }
            },
        }
    }
}

impl Kernel {
    /// Boot the kernel: model the physical memory from the end of the
    /// kernel image to the end of memory, hand that range to the frame
    /// allocator, build the kernel address space, then one task per
    /// application image, every task `Ready` with task zero current.
    /// Returns none when the layout is unacceptable, an image does not
    /// load, or the frames run out.
    #[verifier::rlimit(100)]
    #[verifier::spinoff_prover]
    pub fn boot(
        stext: u64,
        etext: u64,
        srodata: u64,
        erodata: u64,
        sdata: u64,
        edata: u64,
        sbss_with_stack: u64,
        ebss: u64,
        ekernel: u64,
        memory_end: u64,
        mmio: &Vec<(u64, u64)>,
        strampoline: PhysPageNum,
        apps: &Vec<Vec<u8>>,
        trap_return_va: u64,
        trap_handler_va: u64,
    ) -> (r: Option<Kernel>)
        ensures
            match r {
                Some(k) => {
                    &&& k.inv()
                    &&& k.task_count() == apps@.len()
                    &&& k.cur() == 0
                    &&& forall|t: int|
                        0 <= t < k.task_count() ==> (#[trigger] k.task_manager.status(t)) is Ready
                    &&& forall|t: int|
                        0 <= t < k.task_count() ==> crate::elf::spec_elf_parses(
                            (#[trigger] apps@[t])@,
                        ) && k.trap_word(t, 33) == crate::elf::elf_entry_of(apps@[t]@)
                },
                None => true,
            },
    {
        let n = apps.len();
        if n == 0 || n > 0x1000 {
            return None;
        }
        if mmio.len() > 0x1000 {
            return None;
        }
        if ekernel == 0 || ekernel > memory_end || memory_end >= VA_BOUND {
            return None;
        }
        let l: u64 = (ekernel - 1) / PAGE_SIZE + 1;
        let r_ppn: u64 = memory_end / PAGE_SIZE;
        if l >= r_ppn {
            return None;
        }
        if strampoline.0 >= l {
            return None;
        }
        let mut mem = PhysMem::new_zeroed(l, (r_ppn - l) as usize);
        let mut alloc = StackFrameAllocator::new();
        alloc.init(PhysPageNum(l), PhysPageNum(r_ppn));
        let mut kernel_space = match MemorySet::new_kernel(
            stext,
            etext,
            srodata,
            erodata,
            sdata,
            edata,
            sbss_with_stack,
            ebss,
            ekernel,
            memory_end,
            mmio,
            strampoline,
            &mut mem,
            &mut alloc,
        ) {
            Some(ks) => ks,
            None => {
                return None;
            },
        };
        let kernel_token = kernel_space.token(&mem);
        let mut tasks: Vec<crate::task::TaskControlBlock> = Vec::new();
        let mut i: usize = 0;
        while i < n
            invariant
                n == apps@.len(),
                0 < n <= 0x1000,
                0 <= i <= n,
                tasks@.len() == i,
                mem.wf(),
                alloc.wf(),
                mem.first_ppn <= alloc.start@,
                alloc.end <= mem.first_ppn + mem.pages@.len(),
                strampoline.0 < alloc.start@,
                kernel_space.inv(mem),
                match kernel_space.trampoline_ppn {
                    Some(p) => p < alloc.start@,
                    None => false,
                },
                forall|p: u64| #[trigger] kernel_space.owns(p) ==> alloc.live@.contains(p),
                forall|t: int|
                    0 <= t < i ==> (#[trigger] tasks@[t]).task_status is Ready
                        && tasks@[t].task_cx.wf() && tasks@[t].memory_set.inv(mem),
                forall|t: int|
                    0 <= t < i ==> match (#[trigger] tasks@[t]).memory_set.trampoline_ppn {
                        Some(p) => p < alloc.start@,
                        None => false,
                    },
                forall|t: int, p: u64|
                    0 <= t < i && #[trigger] tasks@[t].memory_set.owns(p)
                        ==> alloc.live@.contains(p),
                forall|t: int, p: u64|
                    0 <= t < i ==> !(#[trigger] tasks@[t].memory_set.owns(p)
                        && kernel_space.owns(p)),
                forall|t1: int, t2: int, p: u64|
                    0 <= t1 < i && 0 <= t2 < i && t1 != t2 ==> !(
                    #[trigger] tasks@[t1].memory_set.owns(p)
                        && #[trigger] tasks@[t2].memory_set.owns(p)),
                forall|t: int|
                    0 <= t < i ==> spec_mapped(
                        mem,
                        (#[trigger] tasks@[t]).memory_set.root(),
                        (TRAMP_VPN - 1) as u64,
                    ) && tasks@[t].trap_cx_ppn == pte_ppn_of(
                        spec_leaf(mem, tasks@[t].memory_set.root(), (TRAMP_VPN - 1) as u64),
                    ) && mem.contains_ppn(tasks@[t].trap_cx_ppn)
                        && tasks@[t].memory_set.owns_data_frame(tasks@[t].trap_cx_ppn),
                forall|t: int, a: int|
                    0 <= t < i && 0 <= a < tasks@[t].memory_set.areas@.len() ==> (
                    #[trigger] tasks@[t].memory_set.areas@[a]).map_type is Framed,
                forall|t: int|
                    0 <= t < i ==> crate::elf::spec_elf_parses((#[trigger] apps@[t])@)
                        && mem.word_at(tasks@[t].trap_cx_ppn, 33) == crate::elf::elf_entry_of(
                        apps@[t]@,
                    ),
            decreases n - i,
        {
            let ghost live_pre = alloc.live@;
            let ghost ks_pre = kernel_space;
            let ghost mem_pre = mem;
            let ghost tasks_pre = tasks@;
            let tcb = match crate::task::TaskControlBlock::new(
                apps[i].as_slice(),
                i,
                &mut kernel_space,
                &mut mem,
                &mut alloc,
                strampoline,
                kernel_token,
                trap_return_va,
                trap_handler_va,
            ) {
                Some(tcb) => tcb,
                None => {
                    return None;
                },
            };
            proof {
                // Earlier task spaces are untouched: their frames were
                // live before the new task was built.
                assert forall|t: int| 0 <= t < i implies (
                #[trigger] tasks@[t]).memory_set.inv(mem) && spec_mapped(
                    mem,
                    tasks@[t].memory_set.root(),
                    (TRAMP_VPN - 1) as u64,
                ) && tasks@[t].trap_cx_ppn == pte_ppn_of(
                    spec_leaf(mem, tasks@[t].memory_set.root(), (TRAMP_VPN - 1) as u64),
                ) by {
                    assert forall|p: u64, q: int|
                        tasks@[t].memory_set.page_table.owns(p) implies #[trigger] mem.word_at(
                        p,
                        q,
                    ) == mem_pre.word_at(p, q) by {
                        assert(tasks@[t].memory_set.owns(p));
                        assert(live_pre.contains(p));
                        assert(!tcb.memory_set.owns(p));
                        assert(!kernel_space.owns(p)) by {
                            if kernel_space.owns(p) {
                                assert(ks_pre.owns(p) || !live_pre.contains(p));
                                assert(!(tasks@[t].memory_set.owns(p) && ks_pre.owns(p)));
                            }
                        }
                    }
                    crate::memory_set::lemma_ms_inv_agree(tasks@[t].memory_set, mem_pre, mem);
                }
            }
            tasks.push(tcb);
            i = i + 1;
            proof {
                assert(tasks@.drop_last() =~= tasks_pre);
                assert(tasks@[i - 1] == tcb);
                // Earlier tasks' planted entry points survive: their trap
                // frames are neither in the new space nor in the grown
                // kernel space.
                assert forall|t: int|
                    0 <= t < i implies crate::elf::spec_elf_parses((#[trigger] apps@[t])@)
                    && mem.word_at(tasks@[t].trap_cx_ppn, 33) == crate::elf::elf_entry_of(
                    apps@[t]@,
                ) by {
                    if t < i - 1 {
                        let p = tasks_pre[t].trap_cx_ppn;
                        assert(tasks_pre[t].memory_set.owns_data_frame(p));
                        let a = choose|a: int|
                            0 <= a < tasks_pre[t].memory_set.areas@.len() && (
                            #[trigger] tasks_pre[t].memory_set.areas@[a]).owns_frame(p);
                        assert(tasks_pre[t].memory_set.owns(p));
                        assert(live_pre.contains(p));
                        assert(!tcb.memory_set.owns(p));
                        assert(!kernel_space.owns(p)) by {
                            if kernel_space.owns(p) {
                                assert(ks_pre.owns(p) || !live_pre.contains(p));
                                assert(!(tasks_pre[t].memory_set.owns(p) && ks_pre.owns(p)));
                            }
                        }
                        assert(mem.word_at(p, 33) == mem_pre.word_at(p, 33));
                    }
                }
                assert forall|t: int, p: u64|
                    0 <= t < i && #[trigger] tasks@[t].memory_set.owns(
                        p,
                    ) implies alloc.live@.contains(p) by {
                    if t < i - 1 {
                        assert(tasks_pre[t].memory_set.owns(p));
                        assert(live_pre.contains(p));
                    }
                }
                assert forall|t: int, p: u64|
                    0 <= t < i implies !(#[trigger] tasks@[t].memory_set.owns(p)
                        && kernel_space.owns(p)) by {
                    if t < i - 1 {
                        if tasks@[t].memory_set.owns(p) && kernel_space.owns(p) {
                            assert(tasks_pre[t].memory_set.owns(p));
                            assert(live_pre.contains(p));
                            assert(ks_pre.owns(p) || !live_pre.contains(p));
                            assert(!(tasks_pre[t].memory_set.owns(p) && ks_pre.owns(p)));
                        }
                    }
                }
                assert forall|t1: int, t2: int, p: u64|
                    0 <= t1 < i && 0 <= t2 < i && t1 != t2 implies !(
                #[trigger] tasks@[t1].memory_set.owns(p) && #[trigger] tasks@[t2].memory_set.owns(
                    p,
                )) by {
                    if t1 < i - 1 && t2 < i - 1 {
                        assert(!(tasks_pre[t1].memory_set.owns(p)
                            && tasks_pre[t2].memory_set.owns(p)));
                    } else if t1 == i - 1 && t2 < i - 1 {
                        if tasks@[t1].memory_set.owns(p) && tasks@[t2].memory_set.owns(p) {
                            assert(tasks_pre[t2].memory_set.owns(p));
                            assert(live_pre.contains(p));
                            assert(!live_pre.contains(p));
                        }
                    } else if t2 == i - 1 && t1 < i - 1 {
                        if tasks@[t1].memory_set.owns(p) && tasks@[t2].memory_set.owns(p) {
                            assert(tasks_pre[t1].memory_set.owns(p));
                            assert(live_pre.contains(p));
                            assert(!live_pre.contains(p));
                        }
                    }
                }
            }
        }
        let task_manager = TaskManager { num_app: n, tasks, current_task: 0 };
        let k = Kernel { mem, alloc, kernel_space, task_manager };
        proof {
            assert(k.task_manager.sched_inv());
            assert(k.inv());
        }
        Some(k)
    }

    /// Launch the first task: mark it running and hand its saved context
    /// to the switch routine.
    pub fn run_first_task(&mut self) -> (r: crate::task::TaskContext)
        requires
            old(self).inv(),
            old(self).cur() == 0,
            forall|t: int|
                0 <= t < old(self).task_count() ==> (#[trigger] old(self).task_manager.status(
                    t,
                )) is Ready,
        ensures
            final(self).inv(),
            final(self).task_manager.status(0) is Running,
            r.wf(),
    {
        let r = self.task_manager.run_first_task();
        proof {
            self.lemma_tm_update_preserves_inv(*old(self));
        }
        r
    }
}

/// Point the trap vector at the trap-entry code; called once at boot with
/// the address of the assembly entry label.
pub fn init(cpu: &mut crate::cpu::Cpu, alltraps_va: u64)
    ensures
        final(cpu).stvec == alltraps_va,
        final(cpu).satp == old(cpu).satp,
        final(cpu).sie_stimer == old(cpu).sie_stimer,
        final(cpu).tlb@ == old(cpu).tlb@,
{
    cpu.write_stvec(alltraps_va);
}

/// While the kernel runs, a trap from kernel mode must not re-enter the
/// user trampoline: point the vector at the kernel-fault stub instead.
pub fn set_kernel_trap_entry(cpu: &mut crate::cpu::Cpu, trap_from_kernel_va: u64)
    ensures
        final(cpu).stvec == trap_from_kernel_va,
        final(cpu).satp == old(cpu).satp,
        final(cpu).sie_stimer == old(cpu).sie_stimer,
        final(cpu).tlb@ == old(cpu).tlb@,
{
    cpu.write_stvec(trap_from_kernel_va);
}

/// On the way back to user mode the vector goes to the trampoline's high
/// alias, the only address at which user traps can be taken.
pub fn set_user_trap_entry(cpu: &mut crate::cpu::Cpu)
    ensures
        final(cpu).stvec == crate::config::TRAMPOLINE,
        final(cpu).satp == old(cpu).satp,
        final(cpu).sie_stimer == old(cpu).sie_stimer,
        final(cpu).tlb@ == old(cpu).tlb@,
{
    cpu.write_stvec(crate::config::TRAMPOLINE);
}

/// Enable the supervisor-timer interrupt; called once at boot.
pub fn enable_timer_interrupt(cpu: &mut crate::cpu::Cpu)
    ensures
        final(cpu).sie_stimer,
        final(cpu).satp == old(cpu).satp,
        final(cpu).stvec == old(cpu).stvec,
        final(cpu).tlb@ == old(cpu).tlb@,
{
    cpu.enable_timer_interrupt();
}

/// What the jump through the trampoline's restore code needs.
#[derive(Clone, Copy, Debug, PartialEq, Eq, Structural)]
pub struct TrapReturn {
    /// The restore label's address under the trampoline's high alias.
    pub restore_va: u64,
    /// First argument: the trap context's fixed user virtual address.
    pub a0: u64,
    /// Second argument: the user space's `satp` token.
    pub a1: u64,
}

impl Kernel {
    /// Prepare the return to user mode: point the trap vector back at the
    /// trampoline and compute the jump target inside it from the restore
    /// label's offset, with the trap-context address and the user token
    /// as its arguments.
    pub fn trap_return(&self, cpu: &mut crate::cpu::Cpu, restore_offset: u64) -> (r: TrapReturn)
        requires
            self.inv(),
            restore_offset < PAGE_SIZE,
        ensures
            final(cpu).stvec == crate::config::TRAMPOLINE,
            r.restore_va == crate::config::TRAMPOLINE + restore_offset,
            r.a0 == crate::config::TRAP_CONTEXT,
            r.a1 == satp_token(self.task_ms(self.cur()).root()),
    {
        set_user_trap_entry(cpu);
        let user_satp = self.current_user_token();
        TrapReturn {
            restore_va: crate::config::TRAMPOLINE + restore_offset,
            a0: crate::config::TRAP_CONTEXT,
            a1: user_satp,
        }
    }
}

} // verus!
