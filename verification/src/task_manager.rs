//! The round-robin scheduler: a fixed vector of tasks and the index of the
//! current one. At most one task is ever `Running`, and the next task
//! chosen is always the nearest `Ready` task after the current one in
//! increasing order modulo the task count.
use vstd::prelude::*;

use crate::task::{TaskContext, TaskControlBlock, TaskStatus};

verus! {

/// The task table and the current index.
pub struct TaskManager {
    /// Total number of tasks, fixed at boot.
    pub num_app: usize,
    /// The task control blocks.
    pub tasks: Vec<TaskControlBlock>,
    /// Index of the task now on the hart.
    pub current_task: usize,
}

impl TaskManager {
    /// The status of task `i`.
    pub open spec fn status(self, i: int) -> TaskStatus {
        self.tasks@[i].task_status
    }

    /// True iff `id` is the current index.
    pub open spec fn cur_is(self, id: usize) -> bool {
        self.current_task == id
    }

    /// The task index at distance `k` after the current one, wrapping
    /// around the table.
    pub open spec fn scan_slot(self, k: int) -> int {
        (self.current_task + k) % (self.num_app as int)
    }

    /// Whether the task at distance `k` after the current one is `Ready`.
    pub open spec fn ready_at(self, k: int) -> bool {
        self.status(self.scan_slot(k)) is Ready
    }

    /// Whether the task at distance `k` after the current one is `Ready`,
    /// or is the current one itself, which a suspension sends back to
    /// `Ready`.
    pub open spec fn ready_or_current_at(self, k: int) -> bool {
        self.scan_slot(k) == self.current_task || self.ready_at(k)
    }

    /// Whether the task at distance `k` after the current one is `Ready`
    /// and is not the current one, which an exit takes out of the running.
    pub open spec fn ready_besides_current_at(self, k: int) -> bool {
        self.scan_slot(k) != self.current_task && self.ready_at(k)
    }

    /// The scheduling invariant: the count matches the table, the current
    /// index is in range, and no task other than the current one is
    /// `Running`.
    pub open spec fn sched_inv(self) -> bool {
        &&& self.num_app == self.tasks@.len()
        &&& 0 < self.num_app <= 0x7fff_ffff
        &&& self.current_task < self.num_app
        &&& forall|i: int|
            0 <= i < self.num_app && i != self.current_task ==> !(#[trigger] self.status(
                i,
            ) is Running)
    }

    /// Mark the current task `Ready`; it gave the hart up voluntarily or
    /// was preempted. Only a `Running` or `Ready` task may be suspended: a
    /// task never leaves `Exited`.
    pub fn mark_current_suspended(&mut self)
        requires
            old(self).sched_inv(),
            old(self).status(old(self).current_task as int) is Running || old(self).status(
                old(self).current_task as int,
            ) is Ready,
        ensures
            final(self).sched_inv(),
            final(self).num_app == old(self).num_app,
            final(self).current_task == old(self).current_task,
            final(self).status(old(self).current_task as int) is Ready,
            forall|i: int|
                0 <= i < old(self).num_app && i != old(self).current_task
                    ==> final(self).tasks@[i] == old(self).tasks@[i],
            final(self).tasks@[old(self).current_task as int].task_cx == old(
                self,
            ).tasks@[old(self).current_task as int].task_cx,
            final(self).tasks@[old(self).current_task as int].memory_set == old(
                self,
            ).tasks@[old(self).current_task as int].memory_set,
            final(self).tasks@[old(self).current_task as int].trap_cx_ppn == old(
                self,
            ).tasks@[old(self).current_task as int].trap_cx_ppn,
    {
        let current = self.current_task;
        let mut tcb = self.tasks.remove(current);
        tcb.task_status = TaskStatus::Ready;
        let ghost t2 = tcb;
        self.tasks.insert(current, tcb);
        proof {
            assert(self.tasks@ =~= old(self).tasks@.update(current as int, t2));
            assert forall|i: int|
                0 <= i < self.num_app && i != self.current_task implies !(#[trigger] self.status(
                i,
            ) is Running) by {
                assert(!(old(self).status(i) is Running));
            }
        }
    }

    /// Mark the current task `Exited`; it finished or was killed.
    pub fn mark_current_exited(&mut self)
        requires
            old(self).sched_inv(),
        ensures
            final(self).sched_inv(),
            final(self).num_app == old(self).num_app,
            final(self).current_task == old(self).current_task,
            final(self).status(old(self).current_task as int) is Exited,
            forall|i: int|
                0 <= i < old(self).num_app && i != old(self).current_task
                    ==> final(self).tasks@[i] == old(self).tasks@[i],
            final(self).tasks@[old(self).current_task as int].task_cx == old(
                self,
            ).tasks@[old(self).current_task as int].task_cx,
            final(self).tasks@[old(self).current_task as int].memory_set == old(
                self,
            ).tasks@[old(self).current_task as int].memory_set,
            final(self).tasks@[old(self).current_task as int].trap_cx_ppn == old(
                self,
            ).tasks@[old(self).current_task as int].trap_cx_ppn,
    {
        let current = self.current_task;
        let mut tcb = self.tasks.remove(current);
        tcb.task_status = TaskStatus::Exited;
        let ghost t2 = tcb;
        self.tasks.insert(current, tcb);
        proof {
            assert(self.tasks@ =~= old(self).tasks@.update(current as int, t2));
            assert forall|i: int|
                0 <= i < self.num_app && i != self.current_task implies !(#[trigger] self.status(
                i,
            ) is Running) by {
                assert(!(old(self).status(i) is Running));
            }
        }
    }

    /// Find the next task to run: scan `current + 1 ..= current + num_app`
    /// modulo the task count and pick the first `Ready` task. Returns none
    /// exactly when no task is `Ready`.
    pub fn find_next_task(&self) -> (r: Option<usize>)
        requires
            self.sched_inv(),
        ensures
            match r {
                Some(id) => {
                    &&& id < self.num_app
                    &&& self.status(id as int) is Ready
                    &&& exists|k: int|
                        1 <= k <= self.num_app && id == self.scan_slot(k) && #[trigger] self.ready_at(
                            k,
                        ) && (forall|j: int| 1 <= j < k ==> !(#[trigger] self.ready_at(j)))
                },
                None => forall|j: int| 1 <= j <= self.num_app ==> !(#[trigger] self.ready_at(j)),
            },
    {
        let n = self.num_app;
        let mut k: usize = 1;
        while k <= n
            invariant
                self.sched_inv(),
                n == self.num_app,
                1 <= k <= n + 1,
                forall|j: int| 1 <= j < k ==> !(#[trigger] self.ready_at(j)),
            decreases n + 1 - k,
        {
            let id = (self.current_task + k) % n;
            proof {
                assert(id == self.scan_slot(k as int));
            }
            if matches!(self.tasks[id].task_status, TaskStatus::Ready) {
                proof {
                    assert(self.status(id as int) is Ready);
                    assert(self.ready_at(k as int));
                }
                return Some(id);
            }
            proof {
                assert(!self.ready_at(k as int));
            }
            k = k + 1;
        }
        None
    }

    /// Launch the first task: mark task zero `Running` and hand its saved
    /// context to the switch routine. Called once at boot, when every task
    /// is `Ready`.
    pub fn run_first_task(&mut self) -> (r: TaskContext)
        requires
            old(self).sched_inv(),
            old(self).current_task == 0,
            forall|i: int| 0 <= i < old(self).num_app ==> (#[trigger] old(self).status(i)) is Ready,
            forall|i: int|
                0 <= i < old(self).num_app ==> (#[trigger] old(self).tasks@[i].task_cx).wf(),
        ensures
            final(self).sched_inv(),
            final(self).num_app == old(self).num_app,
            final(self).current_task == 0,
            final(self).status(0) is Running,
            forall|i: int|
                1 <= i < old(self).num_app ==> final(self).tasks@[i] == old(self).tasks@[i],
            final(self).tasks@[0].task_cx == old(self).tasks@[0].task_cx,
            final(self).tasks@[0].memory_set == old(self).tasks@[0].memory_set,
            final(self).tasks@[0].trap_cx_ppn == old(self).tasks@[0].trap_cx_ppn,
            r.wf(),
            r.ra == old(self).tasks@[0].task_cx.ra,
            r.sp == old(self).tasks@[0].task_cx.sp,
            r.s@ == old(self).tasks@[0].task_cx.s@,
    {
        let mut tcb = self.tasks.remove(0);
        tcb.task_status = TaskStatus::Running;
        let r = TaskContext { ra: tcb.task_cx.ra, sp: tcb.task_cx.sp, s: tcb.task_cx.s.clone() };
        let ghost t2 = tcb;
        self.tasks.insert(0, tcb);
        proof {
            assert(self.tasks@ =~= old(self).tasks@.update(0, t2));
            assert(r.s@ =~= old(self).tasks@[0].task_cx.s@);
            assert forall|i: int|
                0 <= i < self.num_app && i != self.current_task implies !(#[trigger] self.status(
                i,
            ) is Running) by {
                assert(!(old(self).status(i) is Running));
            }
        }
        r
    }

    /// Pick the next `Ready` task, mark it `Running`, and move the current
    /// index to it, returning its id; or report that no task is `Ready`,
    /// in which case every application has completed and the machine is to
    /// be shut down. The caller has already marked the current task
    /// `Ready` or `Exited`.
    pub fn run_next_task(&mut self) -> (r: Option<usize>)
        requires
            old(self).sched_inv(),
            !(old(self).status(old(self).current_task as int) is Running),
        ensures
            final(self).sched_inv(),
            final(self).num_app == old(self).num_app,
            match r {
                Some(id) => {
                    &&& id < old(self).num_app
                    &&& old(self).status(id as int) is Ready
                    &&& final(self).current_task == id
                    &&& final(self).status(id as int) is Running
                    &&& forall|i: int|
                        0 <= i < old(self).num_app && i != id ==> final(self).tasks@[i] == old(
                            self,
                        ).tasks@[i]
                    &&& final(self).tasks@[id as int].task_cx == old(self).tasks@[id as int].task_cx
                    &&& final(self).tasks@[id as int].memory_set == old(
                        self,
                    ).tasks@[id as int].memory_set
                    &&& final(self).tasks@[id as int].trap_cx_ppn == old(
                        self,
                    ).tasks@[id as int].trap_cx_ppn
                    &&& exists|k: int|
                        1 <= k <= old(self).num_app && id == old(self).scan_slot(k)
                            && #[trigger] old(self).ready_at(k) && (forall|j: int|
                            1 <= j < k ==> !(#[trigger] old(self).ready_at(j)))
                },
                None => {
                    &&& *final(self) == *old(self)
                    &&& forall|i: int|
                        0 <= i < old(self).num_app ==> !(#[trigger] old(self).status(i) is Ready)
                },
            },
    {
        match self.find_next_task() {
            Some(next) => {
                let mut tcb = self.tasks.remove(next);
                tcb.task_status = TaskStatus::Running;
                let ghost t2 = tcb;
                self.tasks.insert(next, tcb);
                self.current_task = next;
                proof {
                    assert(self.tasks@ =~= old(self).tasks@.update(next as int, t2));
                    assert forall|i: int|
                        0 <= i < self.num_app && i != self.current_task implies !(
                    #[trigger] self.status(i) is Running) by {
                        if i != old(self).current_task {
                            assert(!(old(self).status(i) is Running));
                        } else {
                            assert(!(old(self).status(i) is Running));
                        }
                    }
                }
                Some(next)
            },
            None => {
                proof {
                    let n = self.num_app as int;
                    let cur = self.current_task as int;
                    assert forall|i: int| 0 <= i < n implies !(#[trigger] self.status(
                        i,
                    ) is Ready) by {
                        let j = if i > cur {
                            i - cur
                        } else {
                            i + n - cur
                        };
                        assert(1 <= j <= n);
                        assert(i == (cur + j) % n) by (nonlinear_arith)
                            requires
                                0 <= i < n,
                                0 <= cur < n,
                                j == if i > cur {
                                    i - cur
                                } else {
                                    i + n - cur
                                },
                                1 <= j <= n,
                        {}
                        assert(!self.ready_at(j));
                        assert(self.scan_slot(j) == i);
                    }
                }
                None
            },
        }
    }
}

/// No two distinct tasks are ever `Running` at once: the scheduling
/// invariant pins `Running` to the current task alone. Each task is,
/// by construction of its status, in exactly one of the three states.
pub proof fn lemma_at_most_one_running(tm: TaskManager, i: int, j: int)
    requires
        tm.sched_inv(),
        0 <= i < tm.num_app,
        0 <= j < tm.num_app,
        tm.status(i) is Running,
        tm.status(j) is Running,
    ensures
        i == j,
        i == tm.current_task,
{
}

/// Mark the current task `Ready` and schedule the nearest `Ready` task:
/// the first task after the current one, in scan order wrapping around the
/// table, that was `Ready` before the call or is the suspended current one
/// itself.
pub fn suspend_current_and_run_next(tm: &mut TaskManager) -> (r: Option<usize>)
    requires
        old(tm).sched_inv(),
        old(tm).status(old(tm).current_task as int) is Running || old(tm).status(
            old(tm).current_task as int,
        ) is Ready,
    ensures
        final(tm).sched_inv(),
        final(tm).num_app == old(tm).num_app,
        r is Some,
        final(tm).cur_is(r->Some_0),
        final(tm).status(r->Some_0 as int) is Running,
        r->Some_0 != old(tm).current_task ==> final(tm).status(
            old(tm).current_task as int,
        ) is Ready && old(tm).status(r->Some_0 as int) is Ready,
        exists|k: int|
            1 <= k <= old(tm).num_app && r->Some_0 == old(tm).scan_slot(k) && #[trigger] old(
                tm,
            ).ready_or_current_at(k) && (forall|j: int|
                1 <= j < k ==> !(#[trigger] old(tm).ready_or_current_at(j))),
        forall|i: int|
            0 <= i < old(tm).num_app && i != old(tm).current_task && i != r->Some_0
                ==> final(tm).tasks@[i] == old(tm).tasks@[i],
        forall|i: int|
            0 <= i < old(tm).num_app ==> (#[trigger] final(tm).tasks@[i]).task_cx == old(
                tm,
            ).tasks@[i].task_cx && final(tm).tasks@[i].memory_set == old(tm).tasks@[i].memory_set
                && final(tm).tasks@[i].trap_cx_ppn == old(tm).tasks@[i].trap_cx_ppn,
{
    tm.mark_current_suspended();
    let ghost mid = *tm;
    let r = tm.run_next_task();
    proof {
        assert(tm.status(old(tm).current_task as int) is Ready || r is Some);
        let id = r->Some_0;
        let k = choose|k: int|
            1 <= k <= mid.num_app && id == mid.scan_slot(k) && #[trigger] mid.ready_at(k) && (
            forall|j: int| 1 <= j < k ==> !(#[trigger] mid.ready_at(j)));
        assert forall|j: int| 1 <= j <= mid.num_app implies #[trigger] old(tm).ready_or_current_at(
            j,
        ) == mid.ready_at(j) by {
            assert(mid.scan_slot(j) == old(tm).scan_slot(j));
            if mid.scan_slot(j) != old(tm).current_task {
                assert(mid.status(mid.scan_slot(j)) == old(tm).status(old(tm).scan_slot(j)));
            }
        }
        assert(mid.ready_at(k));
        assert(old(tm).ready_or_current_at(k));
        assert forall|j: int| 1 <= j < k implies !(#[trigger] old(tm).ready_or_current_at(j)) by {
            assert(!mid.ready_at(j));
        }
        assert(1 <= k <= old(tm).num_app && id == old(tm).scan_slot(k) && old(
            tm,
        ).ready_or_current_at(k) && (forall|j: int|
            1 <= j < k ==> !(#[trigger] old(tm).ready_or_current_at(j))));
    }
    r
}

/// Mark the current task `Exited` and schedule the nearest remaining
/// `Ready` task in scan order after the current one, or report completion
/// when none is left.
pub fn exit_current_and_run_next(tm: &mut TaskManager) -> (r: Option<usize>)
    requires
        old(tm).sched_inv(),
    ensures
        final(tm).sched_inv(),
        final(tm).num_app == old(tm).num_app,
        final(tm).status(old(tm).current_task as int) is Exited,
        r is None ==> forall|i: int|
            0 <= i < final(tm).num_app ==> !(#[trigger] final(tm).status(i) is Ready),
        r is None ==> forall|i: int|
            0 <= i < old(tm).num_app && i != old(tm).current_task ==> !(#[trigger] old(tm).status(
                i,
            ) is Ready),
        r is Some ==> final(tm).cur_is(r->Some_0) && final(tm).status(
            r->Some_0 as int,
        ) is Running && r->Some_0 != old(tm).current_task && old(tm).status(
            r->Some_0 as int,
        ) is Ready,
        r matches Some(id) ==> exists|k: int|
            1 <= k <= old(tm).num_app && id == old(tm).scan_slot(k) && #[trigger] old(
                tm,
            ).ready_besides_current_at(k) && (forall|j: int|
                1 <= j < k ==> !(#[trigger] old(tm).ready_besides_current_at(j))),
        forall|i: int|
            0 <= i < old(tm).num_app && i != old(tm).current_task && (r is None || i
                != r->Some_0) ==> final(tm).tasks@[i] == old(tm).tasks@[i],
        forall|i: int|
            0 <= i < old(tm).num_app ==> (#[trigger] final(tm).tasks@[i]).task_cx == old(
                tm,
            ).tasks@[i].task_cx && final(tm).tasks@[i].memory_set == old(tm).tasks@[i].memory_set
                && final(tm).tasks@[i].trap_cx_ppn == old(tm).tasks@[i].trap_cx_ppn,
{
    tm.mark_current_exited();
    let ghost mid = *tm;
    let r = tm.run_next_task();
    proof {
        assert forall|j: int|
            1 <= j <= mid.num_app implies #[trigger] old(tm).ready_besides_current_at(j)
            == mid.ready_at(j) by {
            assert(mid.scan_slot(j) == old(tm).scan_slot(j));
            if mid.scan_slot(j) != old(tm).current_task {
                assert(mid.status(mid.scan_slot(j)) == old(tm).status(old(tm).scan_slot(j)));
            } else {
                assert(mid.status(mid.scan_slot(j)) is Exited);
            }
        }
        if r is Some {
            let id = r->Some_0;
            let k = choose|k: int|
                1 <= k <= mid.num_app && id == mid.scan_slot(k) && #[trigger] mid.ready_at(k) && (
                forall|j: int| 1 <= j < k ==> !(#[trigger] mid.ready_at(j)));
            assert(id != old(tm).current_task) by {
                assert(mid.status(old(tm).current_task as int) is Exited);
            }
            assert(old(tm).status(id as int) == mid.status(id as int));
            assert(mid.ready_at(k));
            assert(old(tm).ready_besides_current_at(k));
            assert forall|j: int|
                1 <= j < k implies !(#[trigger] old(tm).ready_besides_current_at(j)) by {
                assert(!mid.ready_at(j));
            }
            assert(1 <= k <= old(tm).num_app && id == old(tm).scan_slot(k) && old(
                tm,
            ).ready_besides_current_at(k) && (forall|j: int|
                1 <= j < k ==> !(#[trigger] old(tm).ready_besides_current_at(j))));
        } else {
            assert forall|i: int|
                0 <= i < old(tm).num_app && i != old(tm).current_task implies !(#[trigger] old(
                tm,
            ).status(i) is Ready) by {
                assert(!(mid.status(i) is Ready));
                assert(mid.status(i) == old(tm).status(i));
            }
        }
    }
    r
}

} // verus!
