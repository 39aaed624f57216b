//! The physical frame allocator: a stack allocator over the interval of
//! frames handed to `init`, with an explicit recycling list. Ghost state
//! tracks the set of frames that are out on live handles, so that frame
//! ownership is a proved partition: every managed frame is exactly one of
//! unissued, recycled, or live.
use vstd::prelude::*;

use crate::address::PhysPageNum;
use crate::phys_mem::PhysMem;

verus! {

broadcast use vstd::set::group_set_axioms;

/// Stack-style physical frame allocator.
pub struct StackFrameAllocator {
    /// First frame that has never been issued.
    pub current: u64,
    /// One past the last frame this allocator manages.
    pub end: u64,
    /// Frames that were issued and have been returned.
    pub recycled: Vec<u64>,
    /// First frame handed to `init`; ghost bookkeeping only.
    pub start: Ghost<u64>,
    /// Frames currently out on live handles; ghost bookkeeping only.
    pub live: Ghost<Set<u64>>,
}

impl StackFrameAllocator {
    /// The recycled frames, as a set.
    pub open spec fn recycled_set(self) -> Set<u64> {
        self.recycled@.to_set()
    }

    /// The frames this allocator has never issued.
    pub open spec fn unissued(self) -> Set<u64> {
        Set::new(|p: u64| self.current <= p < self.end)
    }

    /// Frames still available, counting both recycled and unissued ones.
    pub open spec fn free_count(self) -> int {
        self.recycled@.len() + self.end - self.current
    }

    /// The allocator's invariant: the recycled list holds issued frames
    /// without duplicates, live handles hold issued frames, the two are
    /// disjoint, and together they account for every issued frame.
    pub open spec fn wf(self) -> bool {
        &&& self.start@ <= self.current <= self.end
        &&& self.recycled@.no_duplicates()
        &&& forall|i: int|
            0 <= i < self.recycled@.len() ==> self.start@ <= #[trigger] self.recycled@[i]
                < self.current
        &&& self.live@.finite()
        &&& forall|p: u64| #[trigger] self.live@.contains(p) ==> self.start@ <= p < self.current
        &&& forall|i: int|
            0 <= i < self.recycled@.len() ==> !self.live@.contains(#[trigger] self.recycled@[i])
        &&& forall|p: u64|
            self.start@ <= p < self.current ==> self.live@.contains(p) || self.recycled@.contains(
                p,
            )
    }

    /// A fresh allocator that manages nothing until `init` is called.
    pub fn new() -> (r: StackFrameAllocator)
        ensures
            r.wf(),
            r.current == 0 && r.end == 0,
            r.recycled@.len() == 0,
            r.live@ == Set::<u64>::empty(),
            r.start@ == 0,
    {
        StackFrameAllocator {
            current: 0,
            end: 0,
            recycled: Vec::new(),
            start: Ghost(0),
            live: Ghost(Set::empty()),
        }
    }

    /// Hand the allocator the frame interval `[l, r)`. Called once at boot,
    /// before any frame is issued.
    pub fn init(&mut self, l: PhysPageNum, r: PhysPageNum)
        requires
            old(self).live@ == Set::<u64>::empty(),
            old(self).recycled@.len() == 0,
            l.0 <= r.0,
        ensures
            final(self).wf(),
            final(self).current == l.0,
            final(self).end == r.0,
            final(self).start@ == l.0,
            final(self).live@ == Set::<u64>::empty(),
            final(self).recycled@.len() == 0,
            final(self).free_count() == r.0 - l.0,
    {
        self.current = l.0;
        self.end = r.0;
        self.start = Ghost(l.0);
    }

    /// Issue one frame: the most recently recycled frame if any exists,
    /// else the next unissued frame, else none. The frame issued was not
    /// live before and is live afterwards.
    pub fn alloc_frame(&mut self) -> (r: Option<PhysPageNum>)
        requires
            old(self).wf(),
        ensures
            final(self).wf(),
            final(self).end == old(self).end,
            final(self).start@ == old(self).start@,
            match r {
                Some(p) => {
                    &&& old(self).free_count() > 0
                    &&& !old(self).live@.contains(p.0)
                    &&& final(self).live@ == old(self).live@.insert(p.0)
                    &&& old(self).start@ <= p.0 < old(self).end
                    &&& final(self).free_count() == old(self).free_count() - 1
                    &&& old(self).recycled@.len() > 0 ==> p.0 == old(self).recycled@.last()
                        && final(self).recycled@ == old(self).recycled@.drop_last()
                        && final(self).current == old(self).current
                    &&& old(self).recycled@.len() == 0 ==> p.0 == old(self).current
                        && final(self).current == old(self).current + 1
                        && final(self).recycled@ == old(self).recycled@
                },
                None => {
                    &&& old(self).free_count() == 0
                    &&& *final(self) == *old(self)
                },
            },
    {
        if self.recycled.len() > 0 {
            let ppn = self.recycled.pop().unwrap();
            proof {
                let rec_old = old(self).recycled@;
                assert(rec_old[rec_old.len() - 1] == ppn);
                assert(self.start@ <= ppn < self.current);
                assert(!self.live@.contains(ppn));
            }
            self.live = Ghost(self.live@.insert(ppn));
            proof {
                let rec_old = old(self).recycled@;
                assert forall|p: u64|
                    self.start@ <= p < self.current && !self.live@.contains(
                        p,
                    ) implies self.recycled@.contains(p) by {
                    assert(old(self).live@.contains(p) || rec_old.contains(p));
                    assert(!old(self).live@.contains(p));
                    let i = choose|i: int| 0 <= i < rec_old.len() && rec_old[i] == p;
                    assert(i != rec_old.len() - 1);
                    assert(self.recycled@[i] == p);
                }
            }
            Some(PhysPageNum(ppn))
        } else if self.current == self.end {
            None
        } else {
            let ppn = self.current;
            self.current = self.current + 1;
            self.live = Ghost(self.live@.insert(ppn));
            Some(PhysPageNum(ppn))
        }
    }

    /// Decide whether at least `needed` frames are still available,
    /// without materialising the count.
    pub fn has_free(&self, needed: u64) -> (r: bool)
        requires
            self.wf(),
        ensures
            r == (self.free_count() >= needed),
    {
        let unissued = self.end - self.current;
        if unissued >= needed {
            true
        } else {
            self.recycled.len() as u64 >= needed - unissued
        }
    }

    /// Return a live frame to the recycled list. The precondition rules a
    /// double free out statically: only a frame that is actually out on a
    /// live handle may come back.
    pub fn dealloc(&mut self, ppn: PhysPageNum)
        requires
            old(self).wf(),
            old(self).live@.contains(ppn.0),
        ensures
            final(self).wf(),
            final(self).end == old(self).end,
            final(self).current == old(self).current,
            final(self).start@ == old(self).start@,
            final(self).live@ == old(self).live@.remove(ppn.0),
            final(self).recycled@ == old(self).recycled@.push(ppn.0),
            final(self).free_count() == old(self).free_count() + 1,
    {
        proof {
            assert forall|i: int| 0 <= i < self.recycled@.len() implies self.recycled@[i]
                != ppn.0 by {
                assert(!self.live@.contains(self.recycled@[i]));
            }
            assert(!self.recycled@.contains(ppn.0));
        }
        self.recycled.push(ppn.0);
        self.live = Ghost(self.live@.remove(ppn.0));
        proof {
            assert(self.recycled@[self.recycled@.len() - 1] == ppn.0);
            assert forall|p: u64|
                self.start@ <= p < self.current && !self.live@.contains(
                    p,
                ) implies self.recycled@.contains(p) by {
                if p == ppn.0 {
                    assert(self.recycled@[self.recycled@.len() - 1] == p);
                } else {
                    assert(old(self).live@.contains(p) || old(self).recycled@.contains(p));
                    if old(self).recycled@.contains(p) {
                        let i = choose|i: int|
                            0 <= i < old(self).recycled@.len() && old(self).recycled@[i] == p;
                        assert(self.recycled@[i] == p);
                    }
                }
            }
        }
    }
}

/// Frame ownership is a partition: for every frame of the managed interval,
/// the frame is exactly one of unissued, recycled, or owned by a live
/// handle, and no frame outside the interval is any of the three.
pub proof fn lemma_frame_ownership_partition(a: StackFrameAllocator)
    requires
        a.wf(),
    ensures
        forall|p: u64| !(a.live@.contains(p) && a.recycled_set().contains(p)),
        forall|p: u64| !(a.live@.contains(p) && a.unissued().contains(p)),
        forall|p: u64| !(a.recycled_set().contains(p) && a.unissued().contains(p)),
        forall|p: u64|
            a.start@ <= p < a.end <==> (a.live@.contains(p) || a.recycled_set().contains(p)
                || a.unissued().contains(p)),
{
}

/// An owning handle to one issued physical frame.
#[derive(Debug)]
pub struct FrameTracker {
    /// The frame owned by this handle.
    pub ppn: PhysPageNum,
}

/// Issue one frame and zero its contents; the returned handle owns it.
/// Returns none exactly when no frame is left.
pub fn frame_alloc(alloc: &mut StackFrameAllocator, mem: &mut PhysMem) -> (r: Option<FrameTracker>)
    requires
        old(alloc).wf(),
        old(mem).wf(),
        old(mem).first_ppn <= old(alloc).start@,
        old(alloc).end <= old(mem).first_ppn + old(mem).pages@.len(),
    ensures
        final(alloc).wf(),
        final(mem).wf(),
        final(alloc).end == old(alloc).end,
        final(alloc).start@ == old(alloc).start@,
        final(mem).first_ppn == old(mem).first_ppn,
        final(mem).pages@.len() == old(mem).pages@.len(),
        match r {
            Some(ft) => {
                &&& old(alloc).free_count() > 0
                &&& !old(alloc).live@.contains(ft.ppn.0)
                &&& final(alloc).live@ == old(alloc).live@.insert(ft.ppn.0)
                &&& final(alloc).free_count() == old(alloc).free_count() - 1
                &&& old(alloc).recycled@.len() > 0 ==> ft.ppn.0 == old(alloc).recycled@.last()
                    && final(alloc).recycled@ == old(alloc).recycled@.drop_last()
                    && final(alloc).current == old(alloc).current
                &&& old(alloc).recycled@.len() == 0 ==> ft.ppn.0 == old(alloc).current
                    && final(alloc).current == old(alloc).current + 1
                    && final(alloc).recycled@ == old(alloc).recycled@
                &&& old(mem).contains_ppn(ft.ppn.0)
                &&& forall|i: int| #[trigger] final(mem).word_at(ft.ppn.0, i) == 0
                &&& forall|p: u64, i: int|
                    p != ft.ppn.0 ==> #[trigger] final(mem).word_at(p, i) == old(mem).word_at(p, i)
            },
            None => {
                &&& old(alloc).free_count() == 0
                &&& *final(alloc) == *old(alloc)
                &&& *final(mem) == *old(mem)
            },
        },
{
    match alloc.alloc_frame() {
        Some(ppn) => {
            mem.zero_page(ppn.0);
            Some(FrameTracker { ppn })
        },
        None => None,
    }
}

/// Return the frame owned by `ft` to the allocator; the handle is consumed.
pub fn frame_dealloc(alloc: &mut StackFrameAllocator, ft: FrameTracker)
    requires
        old(alloc).wf(),
        old(alloc).live@.contains(ft.ppn.0),
    ensures
        final(alloc).wf(),
        final(alloc).live@ == old(alloc).live@.remove(ft.ppn.0),
        final(alloc).free_count() == old(alloc).free_count() + 1,
        final(alloc).end == old(alloc).end,
        final(alloc).current == old(alloc).current,
        final(alloc).start@ == old(alloc).start@,
{
    alloc.dealloc(ft.ppn);
}

} // verus!
