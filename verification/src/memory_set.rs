//! Map areas and address spaces. A map area is a contiguous half-open run
//! of virtual pages with one mapping mode and one permission set; an
//! address space is a page table together with the areas installed in it.
use vstd::prelude::*;

use crate::address::{
    PhysPageNum, SimpleInterval, VirtAddr, VirtPageNum, PPN_BOUND, VA_BOUND, VPN_BOUND,
};
use crate::config::{PAGE_SIZE, WORDS_PER_PAGE};
use crate::frame_allocator::{frame_alloc, FrameTracker, StackFrameAllocator};
use crate::page_table::{
    pte_pack, pte_ppn_of, pte_valid, satp_root, satp_token, spec_leaf, spec_mapped, walk_spec,
    PageTable, PageTableEntry, PTE_V,
};
use crate::cpu::{activate_post, Cpu};
use crate::phys_mem::PhysMem;

verus! {

broadcast use vstd::set::group_set_axioms, vstd::map::group_map_axioms;

/// Area permission: readable.
pub const MAP_PERM_R: u8 = 2;
/// Area permission: writable.
pub const MAP_PERM_W: u8 = 4;
/// Area permission: executable.
pub const MAP_PERM_X: u8 = 8;
/// Area permission: accessible in user mode.
pub const MAP_PERM_U: u8 = 16;

/// How an area's virtual pages find their physical frames.
#[derive(Clone, Copy, Debug, PartialEq, Eq, Structural)]
pub enum MapType {
    /// Virtual page `n` maps to physical frame `n`; no frame is owned.
    Identical,
    /// Each virtual page owns a freshly allocated frame.
    Framed,
}

/// A contiguous run of virtual pages, its mapping mode and its permission
/// bits, plus the frames it owns when the mode is `Framed` (one handle per
/// page, in page order).
pub struct MapArea {
    /// The half-open run of virtual page numbers.
    pub vpn_interval: SimpleInterval,
    /// In `Framed` mode, the owned frame of each page, in page order.
    pub data_frames: Vec<FrameTracker>,
    /// The mapping mode.
    pub map_type: MapType,
    /// The permission bits given to every leaf entry of the area.
    pub map_perm: u8,
}

impl MapArea {
    /// First page of the area.
    pub open spec fn start(self) -> u64 {
        self.vpn_interval.start.0
    }

    /// One past the last page of the area.
    pub open spec fn end_vpn(self) -> u64 {
        self.vpn_interval.end.0
    }

    /// True iff the area covers page `v`.
    pub open spec fn covers(self, v: u64) -> bool {
        self.start() <= v < self.end_vpn()
    }

    /// The frame backing page `v` of a framed area.
    pub open spec fn frame_for(self, v: u64) -> u64 {
        self.data_frames@[v - self.start()].ppn.0
    }

    /// The frame a leaf entry of page `v` must name: the page itself under
    /// identical mapping, the owned frame under framed mapping.
    pub open spec fn area_ppn(self, v: u64) -> u64 {
        if self.map_type is Identical {
            v
        } else {
            self.frame_for(v)
        }
    }

    /// True iff the area owns frame `p`.
    pub open spec fn owns_frame(self, p: u64) -> bool {
        exists|i: int|
            0 <= i < self.data_frames@.len() && (#[trigger] self.data_frames@[i]).ppn.0 == p
    }

    /// Shape of the area: ordered page bounds inside the 27-bit space, and
    /// an identical area owns nothing.
    pub open spec fn area_wf(self) -> bool {
        &&& self.start() <= self.end_vpn() <= VPN_BOUND
        &&& self.map_type is Identical ==> self.data_frames@.len() == 0
        &&& forall|i: int, j: int|
            0 <= i < j < self.data_frames@.len() ==> (#[trigger] self.data_frames@[i]).ppn.0 != (
            #[trigger] self.data_frames@[j]).ppn.0
    }

    /// True when the area is fully installed: it holds one frame per page
    /// in framed mode, and none in identical mode.
    pub open spec fn installed(self) -> bool {
        self.map_type is Framed ==> self.data_frames@.len() == self.end_vpn() - self.start()
    }

    /// Build an area over `[floor(start_va), ceil(end_va))` with no frames
    /// yet.
    pub fn new(start_va: VirtAddr, end_va: VirtAddr, map_type: MapType, map_perm: u8) -> (r:
        MapArea)
        requires
            start_va.0 <= end_va.0,
            end_va.0 <= VA_BOUND,
        ensures
            r.start() == start_va.0 / PAGE_SIZE,
            r.end_vpn() == (end_va.0 + PAGE_SIZE - 1) / (PAGE_SIZE as int),
            r.map_type == map_type,
            r.map_perm == map_perm,
            r.data_frames@.len() == 0,
            r.area_wf(),
    {
        let start_vpn = start_va.floor();
        let end_vpn = end_va.ceil();
        proof {
            assert(start_va.0 / PAGE_SIZE <= (end_va.0 + PAGE_SIZE - 1) / (PAGE_SIZE as int));
            assert((end_va.0 + PAGE_SIZE - 1) / (PAGE_SIZE as int) <= VPN_BOUND);
        }
        MapArea {
            vpn_interval: SimpleInterval::new(start_vpn, end_vpn),
            data_frames: Vec::new(),
            map_type,
            map_perm,
        }
    }

    /// Install one page of the area into the host page table: allocate its
    /// frame first in framed mode, then write the leaf entry. Framed pages
    /// are installed in page order.
    pub fn map_one(
        &mut self,
        page_table: &mut PageTable,
        mem: &mut PhysMem,
        alloc: &mut StackFrameAllocator,
        vpn: VirtPageNum,
    )
        requires
            old(page_table).wf(*old(mem)),
            old(mem).wf(),
            old(alloc).wf(),
            old(self).area_wf(),
            old(self).covers(vpn.0),
            old(self).map_type is Framed ==> vpn.0 == old(self).start() + old(
                self,
            ).data_frames@.len(),
            !spec_mapped(*old(mem), old(page_table).root_ppn, vpn.0),
            old(alloc).free_count() >= 3,
            forall|p: u64| old(page_table).owns(p) ==> old(alloc).live@.contains(p),
            forall|p: u64| old(self).owns_frame(p) ==> old(alloc).live@.contains(p),
            forall|p: u64| old(self).owns_frame(p) ==> !old(page_table).owns(p),
            forall|j: int|
                0 <= j < old(self).data_frames@.len() ==> old(mem).contains_ppn(
                    (#[trigger] old(self).data_frames@[j]).ppn.0,
                ),
            old(mem).first_ppn <= old(alloc).start@,
            old(alloc).end <= old(mem).first_ppn + old(mem).pages@.len(),
        ensures
            final(page_table).wf(*final(mem)),
            final(mem).wf(),
            final(alloc).wf(),
            final(page_table).root_ppn == old(page_table).root_ppn,
            final(mem).first_ppn == old(mem).first_ppn,
            final(mem).pages@.len() == old(mem).pages@.len(),
            final(alloc).end == old(alloc).end,
            final(alloc).start@ == old(alloc).start@,
            final(alloc).free_count() >= old(alloc).free_count() - 3,
            final(self).vpn_interval == old(self).vpn_interval,
            final(self).map_type == old(self).map_type,
            final(self).map_perm == old(self).map_perm,
            final(self).area_wf(),
            forall|j: int|
                0 <= j < final(self).data_frames@.len() ==> final(mem).contains_ppn(
                    (#[trigger] final(self).data_frames@[j]).ppn.0,
                ),
            old(self).map_type is Framed ==> final(self).data_frames@.len() == old(
                self,
            ).data_frames@.len() + 1 && forall|j: int|
                0 <= j < old(self).data_frames@.len() ==> final(self).data_frames@[j] == old(
                    self,
                ).data_frames@[j],
            old(self).map_type is Identical ==> *final(self) == *old(self),
            spec_mapped(*final(mem), final(page_table).root_ppn, vpn.0),
            spec_leaf(*final(mem), final(page_table).root_ppn, vpn.0) == pte_pack(
                final(self).area_ppn(vpn.0),
                old(self).map_perm | 1,
            ),
            forall|v: u64|
                v != vpn.0 && v < VPN_BOUND ==> #[trigger] spec_mapped(
                    *final(mem),
                    final(page_table).root_ppn,
                    v,
                ) == spec_mapped(*old(mem), old(page_table).root_ppn, v),
            forall|v: u64|
                v != vpn.0 && v < VPN_BOUND ==> #[trigger] spec_leaf(
                    *final(mem),
                    final(page_table).root_ppn,
                    v,
                ) == spec_leaf(*old(mem), old(page_table).root_ppn, v),
            forall|p: u64| old(page_table).owns(p) ==> final(page_table).owns(p),
            forall|p: u64| #[trigger]
                final(page_table).owns(p) ==> old(page_table).owns(p) || !old(
                    alloc,
                ).live@.contains(p),
            forall|p: u64| #[trigger]
                final(self).owns_frame(p) ==> old(self).owns_frame(p) || !old(
                    alloc,
                ).live@.contains(p),
            forall|p: u64| #[trigger] final(page_table).owns(p) ==> final(alloc).live@.contains(p),
            forall|p: u64| #[trigger]
                final(self).owns_frame(p) ==> final(alloc).live@.contains(p),
            forall|p: u64| #[trigger] final(self).owns_frame(p) ==> !final(page_table).owns(p),
            forall|p: u64|
                old(alloc).live@.contains(p) ==> #[trigger] final(alloc).live@.contains(p),
            forall|p: u64| #[trigger]
                final(alloc).live@.contains(p) ==> old(alloc).live@.contains(p)
                    || final(page_table).owns(p) || final(self).owns_frame(p),
            forall|p: u64, i: int|
                !final(page_table).owns(p) && !final(self).owns_frame(p)
                    ==> #[trigger] final(mem).word_at(p, i) == old(mem).word_at(p, i),
            forall|j: int, i: int|
                old(self).data_frames@.len() <= j < final(self).data_frames@.len()
                    ==> #[trigger] final(mem).word_at(final(self).data_frames@[j].ppn.0, i) == 0,
            forall|p: u64, i: int|
                old(self).owns_frame(p) ==> #[trigger] final(mem).word_at(p, i) == old(
                    mem,
                ).word_at(p, i),
    {
        let ppn: PhysPageNum;
        match self.map_type {
            MapType::Identical => {
                ppn = PhysPageNum(vpn.0);
            },
            MapType::Framed => {
                let ft = frame_alloc(alloc, mem).unwrap();
                ppn = ft.ppn;
                proof {
                    // The fresh frame is distinct from every frame already
                    // owned here, and zeroing it disturbs no walk.
                    assert forall|p: u64| old(self).owns_frame(p) implies p != ppn.0 by {
                        assert(old(alloc).live@.contains(p));
                    }
                    assert forall|p: u64, i: int|
                        page_table.owns(p) implies #[trigger] mem.word_at(p, i) == old(
                        mem,
                    ).word_at(p, i) by {
                        assert(old(alloc).live@.contains(p));
                    }
                    crate::page_table::lemma_pt_agree(*page_table, *old(mem), *mem);
                }
                self.data_frames.push(ft);
                proof {
                    let s2 = *self;
                    let s0 = *old(self);
                    assert(s2.data_frames@ == s0.data_frames@.push(ft));
                    assert(s2.data_frames@[s2.data_frames@.len() - 1].ppn.0 == ppn.0);
                    assert forall|p: u64| #[trigger]
                        s2.owns_frame(p) implies s0.owns_frame(p) || p == ppn.0 by {
                        let i = choose|i: int|
                            0 <= i < s2.data_frames@.len() && s2.data_frames@[i].ppn.0 == p;
                        if i < s0.data_frames@.len() {
                            assert(s0.data_frames@[i].ppn.0 == p);
                        }
                    }
                    assert forall|p: u64| s0.owns_frame(p) implies s2.owns_frame(p) by {
                        let i = choose|i: int|
                            0 <= i < s0.data_frames@.len() && s0.data_frames@[i].ppn.0 == p;
                        assert(s2.data_frames@[i].ppn.0 == p);
                    }
                    assert forall|i: int, j: int|
                        0 <= i < j < s2.data_frames@.len() implies (
                        #[trigger] s2.data_frames@[i]).ppn.0 != (
                        #[trigger] s2.data_frames@[j]).ppn.0 by {
                        if j == s2.data_frames@.len() - 1 {
                            assert(s0.owns_frame(s0.data_frames@[i].ppn.0));
                            assert(old(alloc).live@.contains(s0.data_frames@[i].ppn.0));
                        }
                    }
                }
            },
        }
        page_table.map(mem, alloc, vpn, ppn, self.map_perm);
        proof {
            assert forall|p: u64, i: int| old(self).owns_frame(p) implies #[trigger] mem.word_at(
                p,
                i,
            ) == old(mem).word_at(p, i) by {
                assert(old(alloc).live@.contains(p));
                assert(!old(page_table).owns(p));
                assert(!page_table.owns(p));
            }
            if self.map_type is Framed {
                let s2 = *self;
                let newp = s2.data_frames@[s2.data_frames@.len() - 1].ppn.0;
                assert(s2.owns_frame(newp));
                assert forall|p: u64| #[trigger]
                    s2.owns_frame(p) implies !page_table.owns(p) by {
                    if p == newp {
                        assert(alloc.live@.contains(p) || true);
                    } else {
                        assert(old(self).owns_frame(p));
                        assert(old(alloc).live@.contains(p));
                    }
                }
                assert forall|j: int, i: int|
                    old(self).data_frames@.len() <= j < s2.data_frames@.len() implies #[trigger] mem.word_at(
                    s2.data_frames@[j].ppn.0,
                    i,
                ) == 0 by {
                    assert(j == s2.data_frames@.len() - 1);
                    assert(!page_table.owns(newp));
                    assert(!old(page_table).owns(newp));
                }
            }
        }
    }

    /// Install every page of the area into the host page table, in page
    /// order. Afterwards every page of the range walks to a valid leaf
    /// naming the area's frame with the area's permissions, framed frames
    /// are freshly allocated and zeroed, and no other page changed.
    pub fn map(
        &mut self,
        page_table: &mut PageTable,
        mem: &mut PhysMem,
        alloc: &mut StackFrameAllocator,
    )
        requires
            old(page_table).wf(*old(mem)),
            old(mem).wf(),
            old(alloc).wf(),
            old(self).area_wf(),
            old(self).data_frames@.len() == 0,
            forall|v: u64| old(self).covers(v) ==> !spec_mapped(
                *old(mem),
                old(page_table).root_ppn,
                v,
            ),
            old(alloc).free_count() >= 3 * (old(self).end_vpn() - old(self).start()),
            forall|p: u64| old(page_table).owns(p) ==> old(alloc).live@.contains(p),
            old(mem).first_ppn <= old(alloc).start@,
            old(alloc).end <= old(mem).first_ppn + old(mem).pages@.len(),
        ensures
            final(page_table).wf(*final(mem)),
            final(mem).wf(),
            final(alloc).wf(),
            final(page_table).root_ppn == old(page_table).root_ppn,
            final(mem).first_ppn == old(mem).first_ppn,
            final(mem).pages@.len() == old(mem).pages@.len(),
            final(alloc).end == old(alloc).end,
            final(alloc).start@ == old(alloc).start@,
            final(alloc).free_count() >= old(alloc).free_count() - 3 * (old(self).end_vpn() - old(
                self,
            ).start()),
            final(self).vpn_interval == old(self).vpn_interval,
            final(self).map_type == old(self).map_type,
            final(self).map_perm == old(self).map_perm,
            final(self).area_wf(),
            final(self).installed(),
            forall|j: int|
                0 <= j < final(self).data_frames@.len() ==> final(mem).contains_ppn(
                    (#[trigger] final(self).data_frames@[j]).ppn.0,
                ),
            forall|v: u64|
                final(self).covers(v) ==> #[trigger] spec_mapped(
                    *final(mem),
                    final(page_table).root_ppn,
                    v,
                ),
            forall|v: u64|
                final(self).covers(v) ==> #[trigger] spec_leaf(
                    *final(mem),
                    final(page_table).root_ppn,
                    v,
                ) == pte_pack(final(self).area_ppn(v), final(self).map_perm | 1),
            forall|v: u64|
                !final(self).covers(v) && v < VPN_BOUND ==> #[trigger] spec_mapped(
                    *final(mem),
                    final(page_table).root_ppn,
                    v,
                ) == spec_mapped(*old(mem), old(page_table).root_ppn, v),
            forall|v: u64|
                !final(self).covers(v) && v < VPN_BOUND ==> #[trigger] spec_leaf(
                    *final(mem),
                    final(page_table).root_ppn,
                    v,
                ) == spec_leaf(*old(mem), old(page_table).root_ppn, v),
            forall|p: u64| old(page_table).owns(p) ==> final(page_table).owns(p),
            forall|p: u64| #[trigger]
                final(page_table).owns(p) ==> old(page_table).owns(p) || !old(
                    alloc,
                ).live@.contains(p),
            forall|p: u64| #[trigger]
                final(self).owns_frame(p) ==> !old(alloc).live@.contains(p),
            forall|p: u64| #[trigger] final(page_table).owns(p) ==> final(alloc).live@.contains(p),
            forall|p: u64| #[trigger]
                final(self).owns_frame(p) ==> final(alloc).live@.contains(p),
            forall|p: u64| #[trigger] final(self).owns_frame(p) ==> !final(page_table).owns(p),
            forall|p: u64|
                old(alloc).live@.contains(p) ==> #[trigger] final(alloc).live@.contains(p),
            forall|p: u64| #[trigger]
                final(alloc).live@.contains(p) ==> old(alloc).live@.contains(p)
                    || final(page_table).owns(p) || final(self).owns_frame(p),
            forall|p: u64, i: int|
                !final(page_table).owns(p) && !final(self).owns_frame(p)
                    ==> #[trigger] final(mem).word_at(p, i) == old(mem).word_at(p, i),
            forall|j: int, i: int|
                0 <= j < final(self).data_frames@.len() ==> #[trigger] final(mem).word_at(
                    final(self).data_frames@[j].ppn.0,
                    i,
                ) == 0,
    {
        let start = self.vpn_interval.start();
        let end = self.vpn_interval.end();
        let count = end.0 - start.0;
        let mut k: u64 = 0;
        while k < count
            invariant
                page_table.wf(*mem),
                mem.wf(),
                alloc.wf(),
                page_table.root_ppn == old(page_table).root_ppn,
                mem.first_ppn == old(mem).first_ppn,
                mem.pages@.len() == old(mem).pages@.len(),
                alloc.end == old(alloc).end,
                alloc.start@ == old(alloc).start@,
                mem.first_ppn <= alloc.start@,
                alloc.end <= mem.first_ppn + mem.pages@.len(),
                self.vpn_interval == old(self).vpn_interval,
                self.map_type == old(self).map_type,
                self.map_perm == old(self).map_perm,
                self.area_wf(),
                start.0 == old(self).start(),
                end.0 == old(self).end_vpn(),
                count == end.0 - start.0,
                0 <= k <= count,
                old(alloc).free_count() >= 3 * count,
                self.map_type is Framed ==> self.data_frames@.len() == k,
                self.map_type is Identical ==> self.data_frames@.len() == 0,
                alloc.free_count() >= old(alloc).free_count() - 3 * k,
                forall|v: u64|
                    start.0 <= v < start.0 + k ==> #[trigger] spec_mapped(
                        *mem,
                        page_table.root_ppn,
                        v,
                    ),
                forall|v: u64|
                    start.0 <= v < start.0 + k ==> #[trigger] spec_leaf(
                        *mem,
                        page_table.root_ppn,
                        v,
                    ) == pte_pack(self.area_ppn(v), self.map_perm | 1),
                forall|v: u64|
                    !(start.0 <= v < start.0 + k) && v < VPN_BOUND ==> #[trigger] spec_mapped(
                        *mem,
                        page_table.root_ppn,
                        v,
                    ) == spec_mapped(*old(mem), old(page_table).root_ppn, v),
                forall|v: u64|
                    !(start.0 <= v < start.0 + k) && v < VPN_BOUND ==> #[trigger] spec_leaf(
                        *mem,
                        page_table.root_ppn,
                        v,
                    ) == spec_leaf(*old(mem), old(page_table).root_ppn, v),
                forall|v: u64| old(self).covers(v) ==> !spec_mapped(
                    *old(mem),
                    old(page_table).root_ppn,
                    v,
                ),
                forall|p: u64| old(page_table).owns(p) ==> page_table.owns(p),
                forall|p: u64| #[trigger]
                    page_table.owns(p) ==> old(page_table).owns(p) || !old(
                        alloc,
                    ).live@.contains(p),
                forall|p: u64| #[trigger]
                    self.owns_frame(p) ==> !old(alloc).live@.contains(p),
                forall|p: u64| #[trigger] page_table.owns(p) ==> alloc.live@.contains(p),
                forall|p: u64| #[trigger] self.owns_frame(p) ==> alloc.live@.contains(p),
                forall|p: u64| #[trigger] self.owns_frame(p) ==> !page_table.owns(p),
                forall|p: u64|
                    old(alloc).live@.contains(p) ==> #[trigger] alloc.live@.contains(p),
                forall|p: u64| #[trigger]
                    alloc.live@.contains(p) ==> old(alloc).live@.contains(p)
                        || page_table.owns(p) || self.owns_frame(p),
                forall|p: u64, i: int|
                    !page_table.owns(p) && !self.owns_frame(p) ==> #[trigger] mem.word_at(p, i)
                        == old(mem).word_at(p, i),
                forall|j: int, i: int|
                    0 <= j < self.data_frames@.len() ==> #[trigger] mem.word_at(
                        self.data_frames@[j].ppn.0,
                        i,
                    ) == 0,
                forall|j: int|
                    0 <= j < self.data_frames@.len() ==> mem.contains_ppn(
                        (#[trigger] self.data_frames@[j]).ppn.0,
                    ),
            decreases count - k,
        {
            let vpn = VirtPageNum(start.0 + k);
            proof {
                assert(vpn.0 < VPN_BOUND);
                assert(old(self).covers(vpn.0));
                assert(spec_mapped(*mem, page_table.root_ppn, vpn.0) == spec_mapped(
                    *old(mem),
                    old(page_table).root_ppn,
                    vpn.0,
                ));
                assert(!spec_mapped(*old(mem), old(page_table).root_ppn, vpn.0));
            }
            let ghost pre_self = *self;
            let ghost pre_pt = *page_table;
            let ghost pre_mem = *mem;
            let ghost pre_alloc = *alloc;
            self.map_one(page_table, mem, alloc, vpn);
            k = k + 1;
            proof {
                assert forall|v: u64|
                    start.0 <= v < start.0 + k implies #[trigger] spec_mapped(
                    *mem,
                    page_table.root_ppn,
                    v,
                ) by {
                    if v != vpn.0 {
                        assert(spec_mapped(pre_mem, pre_pt.root_ppn, v));
                    }
                }
                assert forall|v: u64|
                    start.0 <= v < start.0 + k implies #[trigger] spec_leaf(
                    *mem,
                    page_table.root_ppn,
                    v,
                ) == pte_pack(self.area_ppn(v), self.map_perm | 1) by {
                    if v != vpn.0 {
                        assert(spec_leaf(*mem, page_table.root_ppn, v) == spec_leaf(
                            pre_mem,
                            pre_pt.root_ppn,
                            v,
                        ));
                        assert(pre_self.area_ppn(v) == self.area_ppn(v));
                    }
                }
                assert forall|j: int, i: int|
                    0 <= j < self.data_frames@.len() implies #[trigger] mem.word_at(
                    self.data_frames@[j].ppn.0,
                    i,
                ) == 0 by {
                    if j < pre_self.data_frames@.len() {
                        let p = pre_self.data_frames@[j].ppn.0;
                        assert(pre_self.owns_frame(p));
                        assert(mem.word_at(p, i) == pre_mem.word_at(p, i));
                    }
                }
            }
        }
    }

    /// Install every page of the area like `map`, but check the frame
    /// supply page by page instead of demanding a budget up front. On
    /// exhaustion it stops and reports failure; the pages installed so
    /// far stay behind, so the caller must discard the whole space.
    pub fn try_map(
        &mut self,
        page_table: &mut PageTable,
        mem: &mut PhysMem,
        alloc: &mut StackFrameAllocator,
    ) -> (ok: bool)
        requires
            old(page_table).wf(*old(mem)),
            old(mem).wf(),
            old(alloc).wf(),
            old(self).area_wf(),
            old(self).data_frames@.len() == 0,
            forall|v: u64| old(self).covers(v) ==> !spec_mapped(
                *old(mem),
                old(page_table).root_ppn,
                v,
            ),
            forall|p: u64| old(page_table).owns(p) ==> old(alloc).live@.contains(p),
            old(mem).first_ppn <= old(alloc).start@,
            old(alloc).end <= old(mem).first_ppn + old(mem).pages@.len(),
        ensures
            final(mem).wf(),
            final(alloc).wf(),
            final(mem).first_ppn == old(mem).first_ppn,
            final(mem).pages@.len() == old(mem).pages@.len(),
            final(alloc).end == old(alloc).end,
            final(alloc).start@ == old(alloc).start@,
            ok ==> {
                &&& final(page_table).wf(*final(mem))
                &&& final(page_table).root_ppn == old(page_table).root_ppn
                &&& final(self).vpn_interval == old(self).vpn_interval
                &&& final(self).map_type == old(self).map_type
                &&& final(self).map_perm == old(self).map_perm
                &&& final(self).area_wf()
                &&& final(self).installed()
                &&& forall|j: int|
                    0 <= j < final(self).data_frames@.len() ==> final(mem).contains_ppn(
                        (#[trigger] final(self).data_frames@[j]).ppn.0,
                    )
                &&& forall|v: u64|
                    final(self).covers(v) ==> #[trigger] spec_mapped(
                        *final(mem),
                        final(page_table).root_ppn,
                        v,
                    )
                &&& forall|v: u64|
                    final(self).covers(v) ==> #[trigger] spec_leaf(
                        *final(mem),
                        final(page_table).root_ppn,
                        v,
                    ) == pte_pack(final(self).area_ppn(v), final(self).map_perm | 1)
                &&& forall|v: u64|
                    !final(self).covers(v) && v < VPN_BOUND ==> #[trigger] spec_mapped(
                        *final(mem),
                        final(page_table).root_ppn,
                        v,
                    ) == spec_mapped(*old(mem), old(page_table).root_ppn, v)
                &&& forall|v: u64|
                    !final(self).covers(v) && v < VPN_BOUND ==> #[trigger] spec_leaf(
                        *final(mem),
                        final(page_table).root_ppn,
                        v,
                    ) == spec_leaf(*old(mem), old(page_table).root_ppn, v)
                &&& forall|p: u64| old(page_table).owns(p) ==> final(page_table).owns(p)
                &&& forall|p: u64| #[trigger]
                    final(page_table).owns(p) ==> old(page_table).owns(p) || !old(
                        alloc,
                    ).live@.contains(p)
                &&& forall|p: u64| #[trigger]
                    final(self).owns_frame(p) ==> !old(alloc).live@.contains(p)
                &&& forall|p: u64| #[trigger]
                    final(page_table).owns(p) ==> final(alloc).live@.contains(p)
                &&& forall|p: u64| #[trigger]
                    final(self).owns_frame(p) ==> final(alloc).live@.contains(p)
                &&& forall|p: u64| #[trigger]
                    final(self).owns_frame(p) ==> !final(page_table).owns(p)
                &&& forall|p: u64|
                    old(alloc).live@.contains(p) ==> #[trigger] final(alloc).live@.contains(p)
                &&& forall|p: u64| #[trigger]
                    final(alloc).live@.contains(p) ==> old(alloc).live@.contains(p)
                        || final(page_table).owns(p) || final(self).owns_frame(p)
                &&& forall|p: u64, i: int|
                    !final(page_table).owns(p) && !final(self).owns_frame(p)
                        ==> #[trigger] final(mem).word_at(p, i) == old(mem).word_at(p, i)
                &&& forall|j: int, i: int|
                    0 <= j < final(self).data_frames@.len() ==> #[trigger] final(mem).word_at(
                        final(self).data_frames@[j].ppn.0,
                        i,
                    ) == 0
            },
    {
        let start = self.vpn_interval.start();
        let end = self.vpn_interval.end();
        let count = end.0 - start.0;
        let mut k: u64 = 0;
        while k < count
            invariant
                page_table.wf(*mem),
                mem.wf(),
                alloc.wf(),
                page_table.root_ppn == old(page_table).root_ppn,
                mem.first_ppn == old(mem).first_ppn,
                mem.pages@.len() == old(mem).pages@.len(),
                alloc.end == old(alloc).end,
                alloc.start@ == old(alloc).start@,
                mem.first_ppn <= alloc.start@,
                alloc.end <= mem.first_ppn + mem.pages@.len(),
                self.vpn_interval == old(self).vpn_interval,
                self.map_type == old(self).map_type,
                self.map_perm == old(self).map_perm,
                self.area_wf(),
                start.0 == old(self).start(),
                end.0 == old(self).end_vpn(),
                count == end.0 - start.0,
                0 <= k <= count,
                self.map_type is Framed ==> self.data_frames@.len() == k,
                self.map_type is Identical ==> self.data_frames@.len() == 0,
                forall|v: u64|
                    start.0 <= v < start.0 + k ==> #[trigger] spec_mapped(
                        *mem,
                        page_table.root_ppn,
                        v,
                    ),
                forall|v: u64|
                    start.0 <= v < start.0 + k ==> #[trigger] spec_leaf(
                        *mem,
                        page_table.root_ppn,
                        v,
                    ) == pte_pack(self.area_ppn(v), self.map_perm | 1),
                forall|v: u64|
                    !(start.0 <= v < start.0 + k) && v < VPN_BOUND ==> #[trigger] spec_mapped(
                        *mem,
                        page_table.root_ppn,
                        v,
                    ) == spec_mapped(*old(mem), old(page_table).root_ppn, v),
                forall|v: u64|
                    !(start.0 <= v < start.0 + k) && v < VPN_BOUND ==> #[trigger] spec_leaf(
                        *mem,
                        page_table.root_ppn,
                        v,
                    ) == spec_leaf(*old(mem), old(page_table).root_ppn, v),
                forall|v: u64| old(self).covers(v) ==> !spec_mapped(
                    *old(mem),
                    old(page_table).root_ppn,
                    v,
                ),
                forall|p: u64| old(page_table).owns(p) ==> page_table.owns(p),
                forall|p: u64| #[trigger]
                    page_table.owns(p) ==> old(page_table).owns(p) || !old(
                        alloc,
                    ).live@.contains(p),
                forall|p: u64| #[trigger]
                    self.owns_frame(p) ==> !old(alloc).live@.contains(p),
                forall|p: u64| #[trigger] page_table.owns(p) ==> alloc.live@.contains(p),
                forall|p: u64| #[trigger] self.owns_frame(p) ==> alloc.live@.contains(p),
                forall|p: u64| #[trigger] self.owns_frame(p) ==> !page_table.owns(p),
                forall|p: u64|
                    old(alloc).live@.contains(p) ==> #[trigger] alloc.live@.contains(p),
                forall|p: u64| #[trigger]
                    alloc.live@.contains(p) ==> old(alloc).live@.contains(p)
                        || page_table.owns(p) || self.owns_frame(p),
                forall|p: u64, i: int|
                    !page_table.owns(p) && !self.owns_frame(p) ==> #[trigger] mem.word_at(p, i)
                        == old(mem).word_at(p, i),
                forall|j: int, i: int|
                    0 <= j < self.data_frames@.len() ==> #[trigger] mem.word_at(
                        self.data_frames@[j].ppn.0,
                        i,
                    ) == 0,
                forall|j: int|
                    0 <= j < self.data_frames@.len() ==> mem.contains_ppn(
                        (#[trigger] self.data_frames@[j]).ppn.0,
                    ),
            decreases count - k,
        {
            if !alloc.has_free(3) {
                return false;
            }
            let vpn = VirtPageNum(start.0 + k);
            proof {
                assert(vpn.0 < VPN_BOUND);
                assert(old(self).covers(vpn.0));
                assert(spec_mapped(*mem, page_table.root_ppn, vpn.0) == spec_mapped(
                    *old(mem),
                    old(page_table).root_ppn,
                    vpn.0,
                ));
                assert(!spec_mapped(*old(mem), old(page_table).root_ppn, vpn.0));
            }
            let ghost pre_self = *self;
            let ghost pre_pt = *page_table;
            let ghost pre_mem = *mem;
            let ghost pre_alloc = *alloc;
            self.map_one(page_table, mem, alloc, vpn);
            k = k + 1;
            proof {
                assert forall|v: u64|
                    start.0 <= v < start.0 + k implies #[trigger] spec_mapped(
                    *mem,
                    page_table.root_ppn,
                    v,
                ) by {
                    if v != vpn.0 {
                        assert(spec_mapped(pre_mem, pre_pt.root_ppn, v));
                    }
                }
                assert forall|v: u64|
                    start.0 <= v < start.0 + k implies #[trigger] spec_leaf(
                    *mem,
                    page_table.root_ppn,
                    v,
                ) == pte_pack(self.area_ppn(v), self.map_perm | 1) by {
                    if v != vpn.0 {
                        assert(spec_leaf(*mem, page_table.root_ppn, v) == spec_leaf(
                            pre_mem,
                            pre_pt.root_ppn,
                            v,
                        ));
                        assert(pre_self.area_ppn(v) == self.area_ppn(v));
                    }
                }
                assert forall|j: int, i: int|
                    0 <= j < self.data_frames@.len() implies #[trigger] mem.word_at(
                    self.data_frames@[j].ppn.0,
                    i,
                ) == 0 by {
                    if j < pre_self.data_frames@.len() {
                        let p = pre_self.data_frames@[j].ppn.0;
                        assert(pre_self.owns_frame(p));
                        assert(mem.word_at(p, i) == pre_mem.word_at(p, i));
                    }
                }
            }
        }
        true
    }

    /// Remove the first page of the area from the host page table,
    /// returning its frame to the allocator in framed mode; the area
    /// shrinks by one page at the front.
    pub fn unmap_one(
        &mut self,
        page_table: &mut PageTable,
        mem: &mut PhysMem,
        alloc: &mut StackFrameAllocator,
        vpn: VirtPageNum,
    )
        requires
            old(page_table).wf(*old(mem)),
            old(mem).wf(),
            old(alloc).wf(),
            old(self).area_wf(),
            old(self).installed(),
            old(self).start() < old(self).end_vpn(),
            vpn.0 == old(self).start(),
            spec_mapped(*old(mem), old(page_table).root_ppn, vpn.0),
            forall|p: u64| old(self).owns_frame(p) ==> old(alloc).live@.contains(p),
        ensures
            final(page_table).wf(*final(mem)),
            final(mem).wf(),
            final(alloc).wf(),
            final(page_table).root_ppn == old(page_table).root_ppn,
            final(mem).first_ppn == old(mem).first_ppn,
            final(mem).pages@.len() == old(mem).pages@.len(),
            *final(page_table) == *old(page_table),
            final(self).area_wf(),
            final(self).installed(),
            final(self).start() == old(self).start() + 1,
            final(self).end_vpn() == old(self).end_vpn(),
            final(self).map_type == old(self).map_type,
            final(self).map_perm == old(self).map_perm,
            !spec_mapped(*final(mem), final(page_table).root_ppn, vpn.0),
            forall|v: u64|
                v != vpn.0 && v < VPN_BOUND ==> #[trigger] spec_mapped(
                    *final(mem),
                    final(page_table).root_ppn,
                    v,
                ) == spec_mapped(*old(mem), old(page_table).root_ppn, v),
            forall|v: u64|
                v != vpn.0 && v < VPN_BOUND ==> #[trigger] spec_leaf(
                    *final(mem),
                    final(page_table).root_ppn,
                    v,
                ) == spec_leaf(*old(mem), old(page_table).root_ppn, v),
            forall|p: u64, i: int|
                !final(page_table).owns(p) ==> #[trigger] final(mem).word_at(p, i) == old(
                    mem,
                ).word_at(p, i),
            forall|p: u64| #[trigger] final(self).owns_frame(p) ==> old(self).owns_frame(p),
            final(alloc).end == old(alloc).end,
            final(alloc).current == old(alloc).current,
            final(alloc).start@ == old(alloc).start@,
            old(self).map_type is Framed ==> final(alloc).free_count() == old(
                alloc,
            ).free_count() + 1 && final(alloc).live@ == old(alloc).live@.remove(
                old(self).frame_for(vpn.0),
            ) && old(self).frame_for(vpn.0) == old(self).data_frames@[0].ppn.0
                && final(self).data_frames@ == old(self).data_frames@.subrange(
                1,
                old(self).data_frames@.len() as int,
            ),
            old(self).map_type is Identical ==> *final(alloc) == *old(alloc),
    {
        proof {
            assert(vpn.0 < VPN_BOUND);
        }
        page_table.unmap(mem, vpn);
        let start = self.vpn_interval.start();
        let end_vpn = self.vpn_interval.end();
        self.vpn_interval = SimpleInterval::new(VirtPageNum(start.0 + 1), end_vpn);
        match self.map_type {
            MapType::Framed => {
                let ghost frames0 = self.data_frames@;
                let ft = self.data_frames.remove(0);
                proof {
                    assert(frames0[0] == ft);
                    assert(ft.ppn.0 == old(self).frame_for(vpn.0));
                    assert(old(self).owns_frame(ft.ppn.0));
                    assert forall|p: u64| #[trigger]
                        self.owns_frame(p) implies old(self).owns_frame(p) by {
                        let j = choose|j: int|
                            0 <= j < self.data_frames@.len() && self.data_frames@[j].ppn.0 == p;
                        assert(frames0[j + 1].ppn.0 == p);
                    }
                }
                crate::frame_allocator::frame_dealloc(alloc, ft);
            },
            MapType::Identical => {
            },
        }
    }

    /// Remove every page of the area from the host page table, front to
    /// back, returning the framed frames to the allocator; the area ends
    /// up empty.
    pub fn unmap(
        &mut self,
        page_table: &mut PageTable,
        mem: &mut PhysMem,
        alloc: &mut StackFrameAllocator,
    )
        requires
            old(page_table).wf(*old(mem)),
            old(mem).wf(),
            old(alloc).wf(),
            old(self).area_wf(),
            old(self).installed(),
            forall|v: u64| old(self).covers(v) ==> #[trigger] spec_mapped(
                *old(mem),
                old(page_table).root_ppn,
                v,
            ),
            forall|p: u64| old(self).owns_frame(p) ==> old(alloc).live@.contains(p),
        ensures
            final(page_table).wf(*final(mem)),
            final(mem).wf(),
            final(alloc).wf(),
            *final(page_table) == *old(page_table),
            final(mem).first_ppn == old(mem).first_ppn,
            final(mem).pages@.len() == old(mem).pages@.len(),
            final(self).area_wf(),
            final(self).start() == final(self).end_vpn(),
            final(self).data_frames@.len() == 0,
            forall|v: u64|
                old(self).covers(v) ==> !spec_mapped(
                    *final(mem),
                    final(page_table).root_ppn,
                    v,
                ),
            forall|v: u64|
                !old(self).covers(v) && v < VPN_BOUND ==> #[trigger] spec_mapped(
                    *final(mem),
                    final(page_table).root_ppn,
                    v,
                ) == spec_mapped(*old(mem), old(page_table).root_ppn, v),
            forall|p: u64, i: int|
                !final(page_table).owns(p) ==> #[trigger] final(mem).word_at(p, i) == old(
                    mem,
                ).word_at(p, i),
            final(alloc).end == old(alloc).end,
            final(alloc).current == old(alloc).current,
            final(alloc).start@ == old(alloc).start@,
            old(self).map_type is Identical ==> *final(alloc) == *old(alloc),
            old(self).map_type is Framed ==> final(alloc).free_count() == old(
                alloc,
            ).free_count() + old(self).data_frames@.len(),
            forall|p: u64| #[trigger] final(alloc).live@.contains(p) ==> old(alloc).live@.contains(
                p,
            ),
            forall|p: u64|
                old(alloc).live@.contains(p) && !old(self).owns_frame(p) ==> #[trigger] final(alloc).live@.contains(p),
            old(self).map_type is Framed ==> forall|p: u64| #[trigger]
                old(self).owns_frame(p) ==> !final(alloc).live@.contains(p),
    {
        let start0 = self.vpn_interval.start();
        let end0 = self.vpn_interval.end();
        let count = end0.0 - start0.0;
        let mut k: u64 = 0;
        while k < count
            invariant
                page_table.wf(*mem),
                mem.wf(),
                alloc.wf(),
                *page_table == *old(page_table),
                mem.first_ppn == old(mem).first_ppn,
                mem.pages@.len() == old(mem).pages@.len(),
                self.area_wf(),
                self.installed(),
                self.map_type == old(self).map_type,
                self.map_perm == old(self).map_perm,
                start0.0 == old(self).start(),
                end0.0 == old(self).end_vpn(),
                count == end0.0 - start0.0,
                0 <= k <= count,
                self.start() == start0.0 + k,
                self.end_vpn() == end0.0,
                forall|v: u64|
                    start0.0 <= v < start0.0 + k ==> !spec_mapped(
                        *mem,
                        page_table.root_ppn,
                        v,
                    ),
                forall|v: u64|
                    !(start0.0 <= v < start0.0 + k) && v < VPN_BOUND ==> #[trigger] spec_mapped(
                        *mem,
                        page_table.root_ppn,
                        v,
                    ) == spec_mapped(*old(mem), old(page_table).root_ppn, v),
                forall|v: u64|
                    old(self).covers(v) ==> #[trigger] spec_mapped(
                        *old(mem),
                        old(page_table).root_ppn,
                        v,
                    ),
                forall|p: u64| #[trigger] self.owns_frame(p) ==> old(self).owns_frame(p),
                forall|p: u64| #[trigger] self.owns_frame(p) ==> alloc.live@.contains(p),
                forall|p: u64, i: int|
                    !page_table.owns(p) ==> #[trigger] mem.word_at(p, i) == old(mem).word_at(
                        p,
                        i,
                    ),
                alloc.end == old(alloc).end,
                alloc.current == old(alloc).current,
                alloc.start@ == old(alloc).start@,
                self.map_type is Identical ==> *alloc == *old(alloc),
                self.map_type is Framed ==> alloc.free_count() == old(alloc).free_count() + k,
                forall|p: u64| #[trigger]
                    alloc.live@.contains(p) ==> old(alloc).live@.contains(p),
                forall|p: u64|
                    old(alloc).live@.contains(p) && !old(self).owns_frame(p)
                        ==> #[trigger] alloc.live@.contains(p),
                forall|p: u64|
                    old(self).owns_frame(p) && !self.owns_frame(p) ==> !(
                    #[trigger] alloc.live@.contains(p)),
            decreases count - k,
        {
            let vpn = self.vpn_interval.start();
            proof {
                assert(self.covers(vpn.0));
                assert(old(self).covers(vpn.0));
                assert(spec_mapped(*mem, page_table.root_ppn, vpn.0));
            }
            let ghost pre_mem = *mem;
            let ghost pre_self = *self;
            let ghost pre_alloc = *alloc;
            self.unmap_one(page_table, mem, alloc, vpn);
            k = k + 1;
            proof {
                assert forall|v: u64|
                    start0.0 <= v < start0.0 + k implies !spec_mapped(
                    *mem,
                    page_table.root_ppn,
                    v,
                ) by {
                    if v != vpn.0 {
                        assert(spec_mapped(*mem, page_table.root_ppn, v) == spec_mapped(
                            pre_mem,
                            page_table.root_ppn,
                            v,
                        ));
                    }
                }
                assert forall|p: u64| #[trigger]
                    self.owns_frame(p) implies alloc.live@.contains(p) by {
                    assert(pre_self.owns_frame(p));
                    assert(pre_alloc.live@.contains(p));
                    if pre_self.map_type is Framed {
                        let j = choose|j: int|
                            0 <= j < self.data_frames@.len() && self.data_frames@[j].ppn.0 == p;
                        assert(pre_self.data_frames@[j + 1].ppn.0 == p);
                        assert(pre_self.data_frames@[0].ppn.0 != p);
                    }
                }
                assert forall|p: u64|
                    old(alloc).live@.contains(p) && !old(self).owns_frame(p) implies #[trigger] alloc.live@.contains(
                    p,
                ) by {
                    assert(pre_alloc.live@.contains(p));
                    if self.map_type is Framed {
                        let f = pre_self.data_frames@[0].ppn.0;
                        assert(pre_self.owns_frame(f)) by {
                            assert(pre_self.data_frames@[0].ppn.0 == f);
                        }
                        assert(old(self).owns_frame(f));
                        assert(p != f);
                        assert(alloc.live@ == pre_alloc.live@.remove(f));
                    }
                }
                assert forall|p: u64|
                    old(self).owns_frame(p) && !self.owns_frame(p) implies !(
                #[trigger] alloc.live@.contains(p)) by {
                    if pre_self.owns_frame(p) {
                        if self.map_type is Framed {
                            // The one frame this step gave back is exactly
                            // the head of the previous frame list.
                            assert(p == pre_self.data_frames@[0].ppn.0) by {
                                let j = choose|j: int|
                                    0 <= j < pre_self.data_frames@.len()
                                        && pre_self.data_frames@[j].ppn.0 == p;
                                if j > 0 {
                                    assert(self.data_frames@[j - 1].ppn.0 == p);
                                }
                            }
                            assert(!alloc.live@.contains(p));
                        }
                    } else {
                        assert(!pre_alloc.live@.contains(p));
                        if self.map_type is Framed {
                            assert(alloc.live@ == pre_alloc.live@.remove(
                                pre_self.data_frames@[0].ppn.0,
                            ));
                        }
                    }
                }
            }
        }
    }

    /// Copy `data` into the frames of an installed framed area, going
    /// through the host page table to find each page's frame, exactly as
    /// the kernel does before it hands the area to user code. `data` may be
    /// shorter than the area; the trailing bytes of the area's frames are
    /// left untouched.
    #[verifier::rlimit(60)]
    pub fn copy_data(&self, page_table: &PageTable, mem: &mut PhysMem, data: &[u8])
        requires
            old(mem).wf(),
            page_table.wf(*old(mem)),
            self.area_wf(),
            self.map_type is Framed,
            self.installed(),
            data@.len() <= (self.end_vpn() - self.start()) * (PAGE_SIZE as int),
            forall|j: int|
                0 <= j < self.data_frames@.len() ==> old(mem).contains_ppn(
                    (#[trigger] self.data_frames@[j]).ppn.0,
                ),
            forall|v: u64|
                self.covers(v) ==> #[trigger] spec_mapped(*old(mem), page_table.root_ppn, v),
            forall|v: u64|
                self.covers(v) ==> #[trigger] spec_leaf(*old(mem), page_table.root_ppn, v)
                    == pte_pack(self.area_ppn(v), self.map_perm | 1),
            forall|p: u64| self.owns_frame(p) ==> !page_table.owns(p),
        ensures
            final(mem).wf(),
            final(mem).first_ppn == old(mem).first_ppn,
            final(mem).pages@.len() == old(mem).pages@.len(),
            page_table.wf(*final(mem)),
            forall|p: u64, i: int|
                !self.owns_frame(p) ==> #[trigger] final(mem).word_at(p, i) == old(mem).word_at(
                    p,
                    i,
                ),
            forall|k: int|
                0 <= k < data@.len() ==> #[trigger] final(mem).byte_at(
                    self.frame_for((self.start() + k / (PAGE_SIZE as int)) as u64),
                    k % (PAGE_SIZE as int),
                ) == data@[k],
            forall|j: int, o: int|
                0 <= j < self.data_frames@.len() && 0 <= o < PAGE_SIZE && j * (PAGE_SIZE as int)
                    + o >= data@.len() ==> #[trigger] final(mem).byte_at(
                    self.data_frames@[j].ppn.0,
                    o,
                ) == old(mem).byte_at(self.data_frames@[j].ppn.0, o),
            forall|v: u64|
                #[trigger] spec_mapped(*final(mem), page_table.root_ppn, v) == spec_mapped(
                    *old(mem),
                    page_table.root_ppn,
                    v,
                ),
            forall|v: u64|
                #[trigger] spec_leaf(*final(mem), page_table.root_ppn, v) == spec_leaf(
                    *old(mem),
                    page_table.root_ppn,
                    v,
                ),
    {
        let len = data.len();
        let start_vpn = self.vpn_interval.start();
        let mut k: usize = 0;
        while k < len
            invariant
                mem.wf(),
                mem.first_ppn == old(mem).first_ppn,
                mem.pages@.len() == old(mem).pages@.len(),
                page_table.wf(*mem),
                self.area_wf(),
                self.map_type is Framed,
                self.installed(),
                start_vpn.0 == self.start(),
                len == data@.len(),
                0 <= k <= len,
                data@.len() <= (self.end_vpn() - self.start()) * (PAGE_SIZE as int),
                forall|j: int|
                    0 <= j < self.data_frames@.len() ==> mem.contains_ppn(
                        (#[trigger] self.data_frames@[j]).ppn.0,
                    ),
                forall|v: u64|
                    #[trigger] spec_mapped(*mem, page_table.root_ppn, v) == spec_mapped(
                        *old(mem),
                        page_table.root_ppn,
                        v,
                    ),
                forall|v: u64|
                    #[trigger] spec_leaf(*mem, page_table.root_ppn, v) == spec_leaf(
                        *old(mem),
                        page_table.root_ppn,
                        v,
                    ),
                forall|v: u64|
                    self.covers(v) ==> #[trigger] spec_mapped(
                        *old(mem),
                        page_table.root_ppn,
                        v,
                    ),
                forall|v: u64|
                    self.covers(v) ==> #[trigger] spec_leaf(*old(mem), page_table.root_ppn, v)
                        == pte_pack(self.area_ppn(v), self.map_perm | 1),
                forall|p: u64| self.owns_frame(p) ==> !page_table.owns(p),
                forall|p: u64, i: int|
                    !self.owns_frame(p) ==> #[trigger] mem.word_at(p, i) == old(mem).word_at(
                        p,
                        i,
                    ),
                forall|kk: int|
                    0 <= kk < k ==> #[trigger] mem.byte_at(
                        self.frame_for((self.start() + kk / (PAGE_SIZE as int)) as u64),
                        kk % (PAGE_SIZE as int),
                    ) == data@[kk],
                forall|j: int, o: int|
                    0 <= j < self.data_frames@.len() && 0 <= o < PAGE_SIZE && j * (
                    PAGE_SIZE as int) + o >= k ==> #[trigger] mem.byte_at(
                        self.data_frames@[j].ppn.0,
                        o,
                    ) == old(mem).byte_at(self.data_frames@[j].ppn.0, o),
            decreases len - k,
        {
            let page_idx: usize = k / (PAGE_SIZE as usize);
            let off: usize = k % (PAGE_SIZE as usize);
            let vpn = VirtPageNum(start_vpn.0 + page_idx as u64);
            proof {
                assert(page_idx * (PAGE_SIZE as int) + off == k);
                assert(page_idx < self.data_frames@.len()) by (nonlinear_arith)
                    requires
                        page_idx == k as int / (PAGE_SIZE as int),
                        k < data@.len(),
                        data@.len() <= self.data_frames@.len() * (PAGE_SIZE as int),
                        PAGE_SIZE == 0x1000,
                {}
                assert(self.covers(vpn.0));
                assert(self.frame_for(vpn.0) == self.data_frames@[page_idx as int].ppn.0);
                assert(self.data_frames@[page_idx as int].ppn.0 < PPN_BOUND);
                crate::page_table::lemma_pte_pack(self.frame_for(vpn.0), self.map_perm | 1);
                assert(spec_mapped(*mem, page_table.root_ppn, vpn.0));
            }
            let pte = match page_table.translate(mem, vpn) {
                Some(pte) => pte,
                None => {
                    proof {
                        assert(false);
                    }
                    return ;
                },
            };
            let ppn = pte.ppn().0;
            proof {
                assert(spec_leaf(*mem, page_table.root_ppn, vpn.0) == pte.bits);
                assert(spec_leaf(*mem, page_table.root_ppn, vpn.0) == spec_leaf(
                    *old(mem),
                    page_table.root_ppn,
                    vpn.0,
                ));
                assert(spec_leaf(*old(mem), page_table.root_ppn, vpn.0) == pte_pack(
                    self.area_ppn(vpn.0),
                    self.map_perm | 1,
                ));
                assert(ppn == self.frame_for(vpn.0));
                assert(self.owns_frame(ppn)) by {
                    assert(self.data_frames@[page_idx as int].ppn.0 == ppn);
                }
            }
            let ghost pre_mem = *mem;
            mem.write_byte(ppn, off, data[k]);
            proof {
                assert forall|p: u64, i: int|
                    page_table.owns(p) implies #[trigger] mem.word_at(p, i) == pre_mem.word_at(
                    p,
                    i,
                ) by {
                    assert(p != ppn);
                }
                crate::page_table::lemma_pt_agree(*page_table, pre_mem, *mem);
                assert forall|kk: int|
                    0 <= kk < k + 1 implies #[trigger] mem.byte_at(
                    self.frame_for((self.start() + kk / (PAGE_SIZE as int)) as u64),
                    kk % (PAGE_SIZE as int),
                ) == data@[kk] by {
                    let jj = kk / (PAGE_SIZE as int);
                    let oo = kk % (PAGE_SIZE as int);
                    assert(0 <= jj < self.data_frames@.len()) by (nonlinear_arith)
                        requires
                            jj == kk / (PAGE_SIZE as int),
                            0 <= kk < data@.len(),
                            data@.len() <= self.data_frames@.len() * (PAGE_SIZE as int),
                            PAGE_SIZE == 0x1000,
                    {}
                    let fj = self.frame_for((self.start() + jj) as u64);
                    assert(fj == self.data_frames@[jj].ppn.0);
                    if kk == k {
                        assert(jj == page_idx as int);
                        assert(oo == off as int);
                        assert(fj == ppn);
                        assert(mem.byte_at(ppn, off as int) == data@[k as int]);
                    } else {
                        assert(pre_mem.byte_at(
                            self.frame_for((self.start() + kk / (PAGE_SIZE as int)) as u64),
                            kk % (PAGE_SIZE as int),
                        ) == data@[kk]);
                        if fj == ppn {
                            assert(self.data_frames@[jj].ppn.0 == self.data_frames@[page_idx as int].ppn.0);
                            assert(jj == page_idx as int);
                            assert(oo != off);
                            assert(mem.byte_at(fj, oo) == pre_mem.byte_at(fj, oo));
                        } else {
                            assert(mem.word_at(fj, oo / 8) == pre_mem.word_at(fj, oo / 8));
                            assert(mem.byte_at(fj, oo) == pre_mem.byte_at(fj, oo));
                        }
                    }
                }
                assert forall|j: int, o: int|
                    0 <= j < self.data_frames@.len() && 0 <= o < PAGE_SIZE && j * (
                    PAGE_SIZE as int) + o >= k + 1 implies #[trigger] mem.byte_at(
                    self.data_frames@[j].ppn.0,
                    o,
                ) == old(mem).byte_at(self.data_frames@[j].ppn.0, o) by {
                    let fj = self.data_frames@[j].ppn.0;
                    assert(pre_mem.byte_at(self.data_frames@[j].ppn.0, o) == old(mem).byte_at(
                        self.data_frames@[j].ppn.0,
                        o,
                    ));
                    if fj == ppn {
                        assert(j == page_idx as int);
                        assert(o != off) by (nonlinear_arith)
                            requires
                                j == page_idx as int,
                                j * (PAGE_SIZE as int) + o >= k + 1,
                                page_idx * (PAGE_SIZE as int) + off == k,
                                0 <= o < PAGE_SIZE,
                                0 <= off < PAGE_SIZE,
                                PAGE_SIZE == 0x1000,
                        {}
                        assert(mem.byte_at(fj, o) == pre_mem.byte_at(fj, o));
                    } else {
                        assert(mem.word_at(fj, o / 8) == pre_mem.word_at(fj, o / 8));
                        assert(mem.byte_at(fj, o) == pre_mem.byte_at(fj, o));
                    }
                }
            }
            k = k + 1;
        }
    }
}

/// The virtual page number of the trampoline: the top page of the 39-bit
/// space, shared by every address space.
pub const TRAMP_VPN: u64 = VPN_BOUND - 1;

/// An address space: one page table plus the map areas installed in it.
/// The trampoline page is mapped in the table but, as in the layout this
/// models, is not collected by any area.
pub struct MemorySet {
    /// The space's own page table.
    pub page_table: PageTable,
    /// The areas installed, in installation order.
    pub areas: Vec<MapArea>,
    /// The physical frame of the trampoline page, once it is mapped.
    pub trampoline_ppn: Option<u64>,
}

impl MemorySet {
    /// Root frame of the space's page table.
    pub open spec fn root(self) -> u64 {
        self.page_table.root_ppn
    }

    /// True iff the space owns frame `p`, through its page table or
    /// through one of its framed areas.
    pub open spec fn owns(self, p: u64) -> bool {
        self.page_table.owns(p) || exists|a: int|
            0 <= a < self.areas@.len() && (#[trigger] self.areas@[a]).owns_frame(p)
    }

    /// The address-space invariant.
    ///
    /// The page table is well formed; every area is well formed, fully
    /// installed, disjoint from its peers and from the trampoline page;
    /// framed frames sit in the modelled memory, are disjoint from the
    /// table's node frames and from other areas' frames; every page an
    /// area covers walks to a valid leaf carrying the area's frame and
    /// permissions; every valid leaf belongs to an area or is the
    /// trampoline; and the trampoline leaf, once mapped, is read-execute.
    pub open spec fn inv(self, mem: PhysMem) -> bool {
        &&& self.page_table.wf(mem)
        &&& forall|a: int|
            0 <= a < self.areas@.len() ==> (#[trigger] self.areas@[a]).area_wf()
                && self.areas@[a].installed()
        &&& forall|a: int, b: int|
            #![trigger self.areas@[a], self.areas@[b]]
            0 <= a < b < self.areas@.len() ==> self.areas@[a].end_vpn() <= self.areas@[b].start()
                || self.areas@[b].end_vpn() <= self.areas@[a].start()
        &&& forall|a: int| 0 <= a < self.areas@.len() ==> !(#[trigger] self.areas@[a]).covers(
            TRAMP_VPN,
        )
        &&& forall|a: int, j: int|
            0 <= a < self.areas@.len() && 0 <= j < self.areas@[a].data_frames@.len()
                ==> mem.contains_ppn((#[trigger] self.areas@[a].data_frames@[j]).ppn.0)
        &&& forall|a: int, p: u64|
            0 <= a < self.areas@.len() && #[trigger] self.areas@[a].owns_frame(p)
                ==> !self.page_table.owns(p)
        &&& forall|a: int, b: int, p: u64|
            0 <= a < self.areas@.len() && 0 <= b < self.areas@.len() && a != b ==> !(
            #[trigger] self.areas@[a].owns_frame(p) && #[trigger] self.areas@[b].owns_frame(p))
        &&& forall|a: int, v: u64|
            0 <= a < self.areas@.len() && #[trigger] self.areas@[a].covers(v) ==> spec_mapped(
                mem,
                self.root(),
                v,
            )
        &&& forall|a: int, v: u64|
            0 <= a < self.areas@.len() && #[trigger] self.areas@[a].covers(v) ==> spec_leaf(
                mem,
                self.root(),
                v,
            ) == pte_pack(self.areas@[a].area_ppn(v), self.areas@[a].map_perm | 1)
        &&& forall|v: u64|
            v < VPN_BOUND && v != TRAMP_VPN && #[trigger] spec_mapped(mem, self.root(), v)
                ==> exists|a: int|
                0 <= a < self.areas@.len() && (#[trigger] self.areas@[a]).covers(v)
        &&& match self.trampoline_ppn {
            Some(p) => p < PPN_BOUND && spec_mapped(mem, self.root(), TRAMP_VPN) && spec_leaf(
                mem,
                self.root(),
                TRAMP_VPN,
            ) == pte_pack(p, MAP_PERM_R | MAP_PERM_X | 1),
            None => !spec_mapped(mem, self.root(), TRAMP_VPN),
        }
    }

    /// A new empty address space: a fresh page table, no areas, no
    /// trampoline, nothing mapped.
    pub fn new_bare(mem: &mut PhysMem, alloc: &mut StackFrameAllocator) -> (r: MemorySet)
        requires
            old(mem).wf(),
            old(alloc).wf(),
            old(alloc).free_count() >= 1,
            old(mem).first_ppn <= old(alloc).start@,
            old(alloc).end <= old(mem).first_ppn + old(mem).pages@.len(),
        ensures
            final(mem).wf(),
            final(alloc).wf(),
            final(mem).first_ppn == old(mem).first_ppn,
            final(mem).pages@.len() == old(mem).pages@.len(),
            final(alloc).end == old(alloc).end,
            final(alloc).start@ == old(alloc).start@,
            final(alloc).free_count() == old(alloc).free_count() - 1,
            r.inv(*final(mem)),
            r.areas@.len() == 0,
            r.trampoline_ppn is None,
            forall|v: u64| !spec_mapped(*final(mem), r.root(), v),
            forall|p: u64| #[trigger] r.owns(p) <==> p == r.root(),
            !old(alloc).live@.contains(r.root()),
            final(alloc).live@ == old(alloc).live@.insert(r.root()),
            forall|p: u64, i: int|
                p != r.root() ==> #[trigger] final(mem).word_at(p, i) == old(mem).word_at(p, i),
    {
        let page_table = PageTable::new(mem, alloc);
        let r = MemorySet { page_table, areas: Vec::new(), trampoline_ppn: None };
        proof {
            assert forall|p: u64| #[trigger] r.owns(p) <==> p == r.root() by {
                if r.owns(p) && p != r.root() {
                    assert(r.page_table.owns(p) ==> p == r.root());
                }
            }
        }
        r
    }

    /// Map the trampoline page read-execute at the top of the space. The
    /// trampoline is deliberately not collected by any area.
    pub fn map_trampoline(
        &mut self,
        mem: &mut PhysMem,
        alloc: &mut StackFrameAllocator,
        strampoline: PhysPageNum,
    )
        requires
            old(self).inv(*old(mem)),
            old(mem).wf(),
            old(alloc).wf(),
            old(self).trampoline_ppn is None,
            strampoline.0 < PPN_BOUND,
            old(alloc).free_count() >= 2,
            forall|p: u64| old(self).owns(p) ==> old(alloc).live@.contains(p),
            old(mem).first_ppn <= old(alloc).start@,
            old(alloc).end <= old(mem).first_ppn + old(mem).pages@.len(),
        ensures
            final(self).inv(*final(mem)),
            final(mem).wf(),
            final(alloc).wf(),
            final(mem).first_ppn == old(mem).first_ppn,
            final(mem).pages@.len() == old(mem).pages@.len(),
            final(alloc).end == old(alloc).end,
            final(alloc).start@ == old(alloc).start@,
            final(alloc).free_count() >= old(alloc).free_count() - 2,
            final(self).root() == old(self).root(),
            final(self).areas@ == old(self).areas@,
            final(self).trampoline_ppn == Some(strampoline.0),
            forall|v: u64|
                v != TRAMP_VPN && v < VPN_BOUND ==> #[trigger] spec_mapped(
                    *final(mem),
                    final(self).root(),
                    v,
                ) == spec_mapped(*old(mem), old(self).root(), v),
            forall|v: u64|
                v != TRAMP_VPN && v < VPN_BOUND ==> #[trigger] spec_leaf(
                    *final(mem),
                    final(self).root(),
                    v,
                ) == spec_leaf(*old(mem), old(self).root(), v),
            forall|p: u64| old(self).owns(p) ==> final(self).owns(p),
            forall|p: u64| #[trigger]
                final(self).owns(p) ==> old(self).owns(p) || !old(alloc).live@.contains(p),
            forall|p: u64| #[trigger] final(self).owns(p) ==> final(alloc).live@.contains(p),
            forall|p: u64|
                old(alloc).live@.contains(p) ==> #[trigger] final(alloc).live@.contains(p),
            forall|p: u64| #[trigger]
                final(alloc).live@.contains(p) ==> old(alloc).live@.contains(p)
                    || final(self).owns(p),
            forall|p: u64, i: int|
                !final(self).owns(p) ==> #[trigger] final(mem).word_at(p, i) == old(mem).word_at(
                    p,
                    i,
                ),
    {
        proof {
            assert forall|p: u64| self.page_table.owns(p) implies old(alloc).live@.contains(
                p,
            ) by {
                assert(old(self).owns(p));
            }
            assert(!spec_mapped(*mem, self.page_table.root_ppn, TRAMP_VPN));
        }
        self.page_table.map(
            mem,
            alloc,
            VirtPageNum(TRAMP_VPN),
            strampoline,
            MAP_PERM_R | MAP_PERM_X,
        );
        self.trampoline_ppn = Some(strampoline.0);
        proof {
            let s0 = *old(self);
            let s2 = *self;
            let m0 = *old(mem);
            let m2 = *mem;
            assert forall|p: u64| #[trigger]
                s2.owns(p) implies s0.owns(p) || !old(alloc).live@.contains(p) by {
                if s2.page_table.owns(p) {
                    if old(self).page_table.owns(p) {
                        assert(s0.owns(p));
                    }
                } else {
                    let a = choose|a: int|
                        0 <= a < s2.areas@.len() && (#[trigger] s2.areas@[a]).owns_frame(p);
                    assert(s0.areas@[a].owns_frame(p));
                    assert(s0.owns(p));
                }
            }
            assert forall|p: u64| s0.owns(p) implies s2.owns(p) by {
                if !s0.page_table.owns(p) {
                    let a = choose|a: int|
                        0 <= a < s0.areas@.len() && (#[trigger] s0.areas@[a]).owns_frame(p);
                    assert(s2.areas@[a].owns_frame(p));
                }
            }
            assert forall|p: u64| #[trigger] s2.owns(p) implies alloc.live@.contains(p) by {
                if !s2.page_table.owns(p) {
                    let a = choose|a: int|
                        0 <= a < s2.areas@.len() && (#[trigger] s2.areas@[a]).owns_frame(p);
                    assert(s0.owns(p));
                    assert(old(alloc).live@.contains(p));
                }
            }
            assert forall|p: u64, i: int| !s2.owns(p) implies #[trigger] m2.word_at(p, i)
                == m0.word_at(p, i) by {
                assert(!s2.page_table.owns(p));
            }
            assert(s2.inv(m2)) by {
                assert forall|a: int, p: u64|
                    0 <= a < s2.areas@.len() && #[trigger] s2.areas@[a].owns_frame(
                        p,
                    ) implies !s2.page_table.owns(p) by {
                    assert(s0.areas@[a].owns_frame(p));
                    assert(s0.owns(p));
                    assert(old(alloc).live@.contains(p));
                    assert(!s0.page_table.owns(p));
                }
                assert forall|a: int, v: u64|
                    0 <= a < s2.areas@.len() && #[trigger] s2.areas@[a].covers(
                        v,
                    ) implies spec_mapped(m2, s2.root(), v) && spec_leaf(m2, s2.root(), v)
                    == pte_pack(s2.areas@[a].area_ppn(v), s2.areas@[a].map_perm | 1) by {
                    assert(s0.areas@[a].covers(v));
                    assert(v != TRAMP_VPN);
                    assert(v < VPN_BOUND);
                    assert(spec_mapped(m0, s0.root(), v));
                }
                assert forall|v: u64|
                    v < VPN_BOUND && v != TRAMP_VPN && #[trigger] spec_mapped(
                        m2,
                        s2.root(),
                        v,
                    ) implies exists|a: int|
                    0 <= a < s2.areas@.len() && (#[trigger] s2.areas@[a]).covers(v) by {
                    assert(spec_mapped(m0, s0.root(), v));
                    let a = choose|a: int|
                        0 <= a < s0.areas@.len() && (#[trigger] s0.areas@[a]).covers(v);
                    assert((s2.areas@[a]).covers(v));
                }
            }
        }
    }
}

impl MemorySet {
    /// Install a fresh area into this space and record it: map every page,
    /// copy the initial bytes into a framed area when given, and append
    /// the area to the list. The area must be disjoint from every area
    /// already installed and from the trampoline page.
    pub fn push(
        &mut self,
        mem: &mut PhysMem,
        alloc: &mut StackFrameAllocator,
        area: MapArea,
        data: Option<&[u8]>,
    )
        requires
            old(self).inv(*old(mem)),
            old(mem).wf(),
            old(alloc).wf(),
            area.area_wf(),
            area.data_frames@.len() == 0,
            forall|a: int|
                0 <= a < old(self).areas@.len() ==> area.end_vpn() <= (
                #[trigger] old(self).areas@[a]).start() || old(self).areas@[a].end_vpn()
                    <= area.start(),
            !area.covers(TRAMP_VPN),
            old(alloc).free_count() >= 3 * (area.end_vpn() - area.start()),
            forall|p: u64| old(self).owns(p) ==> old(alloc).live@.contains(p),
            match data {
                Some(d) => area.map_type is Framed && d@.len() <= (area.end_vpn() - area.start())
                    * (PAGE_SIZE as int),
                None => true,
            },
            old(mem).first_ppn <= old(alloc).start@,
            old(alloc).end <= old(mem).first_ppn + old(mem).pages@.len(),
        ensures
            final(self).inv(*final(mem)),
            final(mem).wf(),
            final(alloc).wf(),
            final(mem).first_ppn == old(mem).first_ppn,
            final(mem).pages@.len() == old(mem).pages@.len(),
            final(alloc).end == old(alloc).end,
            final(alloc).start@ == old(alloc).start@,
            final(alloc).free_count() >= old(alloc).free_count() - 3 * (area.end_vpn()
                - area.start()),
            final(self).root() == old(self).root(),
            final(self).trampoline_ppn == old(self).trampoline_ppn,
            final(self).areas@.len() == old(self).areas@.len() + 1,
            forall|a: int|
                0 <= a < old(self).areas@.len() ==> final(self).areas@[a] == old(self).areas@[a],
            final(self).areas@[old(self).areas@.len() as int].vpn_interval == area.vpn_interval,
            final(self).areas@[old(self).areas@.len() as int].map_type == area.map_type,
            final(self).areas@[old(self).areas@.len() as int].map_perm == area.map_perm,
            forall|v: u64|
                v < VPN_BOUND && !area.covers(v) ==> #[trigger] spec_mapped(
                    *final(mem),
                    final(self).root(),
                    v,
                ) == spec_mapped(*old(mem), old(self).root(), v),
            forall|v: u64|
                v < VPN_BOUND && !area.covers(v) ==> #[trigger] spec_leaf(
                    *final(mem),
                    final(self).root(),
                    v,
                ) == spec_leaf(*old(mem), old(self).root(), v),
            forall|p: u64| old(self).owns(p) ==> final(self).owns(p),
            forall|p: u64| #[trigger]
                final(self).owns(p) ==> old(self).owns(p) || !old(alloc).live@.contains(p),
            forall|p: u64| #[trigger] final(self).owns(p) ==> final(alloc).live@.contains(p),
            forall|p: u64|
                old(alloc).live@.contains(p) ==> #[trigger] final(alloc).live@.contains(p),
            forall|p: u64| #[trigger]
                final(alloc).live@.contains(p) ==> old(alloc).live@.contains(p)
                    || final(self).owns(p),
            forall|p: u64, i: int|
                !final(self).owns(p) ==> #[trigger] final(mem).word_at(p, i) == old(mem).word_at(
                    p,
                    i,
                ),
            forall|a: int, j: int, i: int|
                0 <= a < old(self).areas@.len() && 0 <= j < old(
                    self,
                ).areas@[a].data_frames@.len() ==> #[trigger] final(mem).word_at(
                    old(self).areas@[a].data_frames@[j].ppn.0,
                    i,
                ) == old(mem).word_at(old(self).areas@[a].data_frames@[j].ppn.0, i),
            match data {
                Some(d) => forall|k: int|
                    0 <= k < d@.len() ==> #[trigger] final(mem).byte_at(
                        final(self).areas@[old(self).areas@.len() as int].frame_for(
                            (area.start() + k / (PAGE_SIZE as int)) as u64,
                        ),
                        k % (PAGE_SIZE as int),
                    ) == d@[k],
                None => forall|j: int, i: int|
                    0 <= j < final(self).areas@[old(self).areas@.len() as int].data_frames@.len()
                        ==> #[trigger] final(mem).word_at(
                        final(self).areas@[old(self).areas@.len() as int].data_frames@[j].ppn.0,
                        i,
                    ) == 0,
            },
    {
        let mut map_area = area;
        proof {
            assert forall|p: u64| self.page_table.owns(p) implies old(alloc).live@.contains(
                p,
            ) by {
                assert(old(self).owns(p));
            }
            assert forall|v: u64| map_area.covers(v) implies !spec_mapped(
                *mem,
                self.page_table.root_ppn,
                v,
            ) by {
                if spec_mapped(*mem, self.page_table.root_ppn, v) {
                    assert(v < VPN_BOUND);
                    assert(v != TRAMP_VPN);
                    let a = choose|a: int|
                        0 <= a < old(self).areas@.len() && (#[trigger] old(
                            self,
                        ).areas@[a]).covers(v);
                    assert(area.end_vpn() <= old(self).areas@[a].start() || old(
                        self,
                    ).areas@[a].end_vpn() <= area.start());
                }
            }
        }
        map_area.map(&mut self.page_table, mem, alloc);
        let ghost mid_mem = *mem;
        let ghost mid_pt = self.page_table;
        let ghost mid_area = map_area;
        match data {
            Some(d) => {
                proof {
                    assert forall|v: u64| map_area.covers(v) implies #[trigger] spec_mapped(
                        *mem,
                        self.page_table.root_ppn,
                        v,
                    ) && spec_leaf(*mem, self.page_table.root_ppn, v) == pte_pack(
                        map_area.area_ppn(v),
                        map_area.map_perm | 1,
                    ) by {}
                }
                map_area.copy_data(&self.page_table, mem, d);
            },
            None => {},
        }
        self.areas.push(map_area);
        proof {
            let s0 = *old(self);
            let s2 = *self;
            let m0 = *old(mem);
            let m2 = *mem;
            let n0 = s0.areas@.len() as int;
            assert(s2.areas@ == s0.areas@.push(map_area));
            assert(s2.areas@[n0] == map_area);
            assert(s2.page_table == mid_pt);
            // Ownership of the grown space.
            assert forall|p: u64| s0.owns(p) implies s2.owns(p) by {
                if !s0.page_table.owns(p) {
                    let a = choose|a: int|
                        0 <= a < s0.areas@.len() && (#[trigger] s0.areas@[a]).owns_frame(p);
                    assert(s2.areas@[a].owns_frame(p));
                }
            }
            assert forall|p: u64| #[trigger]
                s2.owns(p) implies s0.owns(p) || !old(alloc).live@.contains(p) by {
                if s2.page_table.owns(p) {
                    if s0.page_table.owns(p) {
                        assert(s0.owns(p));
                    }
                } else {
                    let a = choose|a: int|
                        0 <= a < s2.areas@.len() && (#[trigger] s2.areas@[a]).owns_frame(p);
                    if a < n0 {
                        assert(s0.areas@[a].owns_frame(p));
                        assert(s0.owns(p));
                    } else {
                        assert(map_area.owns_frame(p));
                    }
                }
            }
            assert forall|p: u64| #[trigger] s2.owns(p) implies alloc.live@.contains(p) by {
                if !s2.page_table.owns(p) {
                    let a = choose|a: int|
                        0 <= a < s2.areas@.len() && (#[trigger] s2.areas@[a]).owns_frame(p);
                    if a < n0 {
                        assert(s0.areas@[a].owns_frame(p));
                        assert(s0.owns(p));
                        assert(old(alloc).live@.contains(p));
                    } else {
                        assert(map_area.owns_frame(p));
                    }
                }
            }
            assert forall|p: u64, i: int| !s2.owns(p) implies #[trigger] m2.word_at(p, i)
                == m0.word_at(p, i) by {
                assert(!s2.page_table.owns(p));
                assert(!map_area.owns_frame(p));
                assert(m2.word_at(p, i) == mid_mem.word_at(p, i));
                assert(mid_mem.word_at(p, i) == m0.word_at(p, i));
            }
            assert forall|a: int, j: int, i: int|
                0 <= a < n0 && 0 <= j < s0.areas@[a].data_frames@.len() implies #[trigger] m2.word_at(
                s0.areas@[a].data_frames@[j].ppn.0,
                i,
            ) == m0.word_at(s0.areas@[a].data_frames@[j].ppn.0, i) by {
                let p = s0.areas@[a].data_frames@[j].ppn.0;
                assert(s0.areas@[a].owns_frame(p));
                assert(s0.owns(p));
                assert(old(alloc).live@.contains(p));
                assert(!s0.page_table.owns(p));
                assert(!mid_pt.owns(p));
                assert(!mid_area.owns_frame(p));
                assert(mid_mem.word_at(p, i) == m0.word_at(p, i));
                assert(m2.word_at(p, i) == mid_mem.word_at(p, i));
            }
            // The invariant of the grown space.
            assert(s2.inv(m2)) by {
                assert(s2.page_table.wf(m2));
                assert forall|a: int, p: u64|
                    0 <= a < s2.areas@.len() && #[trigger] s2.areas@[a].owns_frame(
                        p,
                    ) implies !s2.page_table.owns(p) by {
                    if a < n0 {
                        assert(s0.areas@[a].owns_frame(p));
                        assert(s0.owns(p));
                        assert(old(alloc).live@.contains(p));
                        assert(!s0.page_table.owns(p));
                    }
                }
                assert forall|a: int, b: int, p: u64|
                    0 <= a < s2.areas@.len() && 0 <= b < s2.areas@.len() && a != b implies !(
                #[trigger] s2.areas@[a].owns_frame(p) && #[trigger] s2.areas@[b].owns_frame(
                    p,
                )) by {
                    if s2.areas@[a].owns_frame(p) && s2.areas@[b].owns_frame(p) {
                        if a < n0 && b < n0 {
                            assert(s0.areas@[a].owns_frame(p) && s0.areas@[b].owns_frame(p));
                        } else if a < n0 {
                            assert(s0.areas@[a].owns_frame(p));
                            assert(s0.owns(p));
                            assert(old(alloc).live@.contains(p));
                            assert(map_area.owns_frame(p));
                        } else {
                            assert(s0.areas@[b].owns_frame(p));
                            assert(s0.owns(p));
                            assert(old(alloc).live@.contains(p));
                            assert(map_area.owns_frame(p));
                        }
                    }
                }
                assert forall|a: int, j: int|
                    0 <= a < s2.areas@.len() && 0 <= j
                        < s2.areas@[a].data_frames@.len() implies m2.contains_ppn(
                    (#[trigger] s2.areas@[a].data_frames@[j]).ppn.0,
                ) by {
                    if a < n0 {
                        assert(m0.contains_ppn((s0.areas@[a].data_frames@[j]).ppn.0));
                    }
                }
                assert forall|a: int, v: u64|
                    0 <= a < s2.areas@.len() && #[trigger] s2.areas@[a].covers(
                        v,
                    ) implies spec_mapped(m2, s2.root(), v) && spec_leaf(m2, s2.root(), v)
                    == pte_pack(s2.areas@[a].area_ppn(v), s2.areas@[a].map_perm | 1) by {
                    if a < n0 {
                        assert(s0.areas@[a].covers(v));
                        assert(v < VPN_BOUND && v != TRAMP_VPN);
                        assert(!map_area.covers(v));
                        assert(spec_mapped(m0, s0.root(), v));
                        assert(spec_mapped(mid_mem, s0.root(), v) == spec_mapped(
                            m0,
                            s0.root(),
                            v,
                        ));
                        assert(spec_mapped(m2, s0.root(), v) == spec_mapped(
                            mid_mem,
                            s0.root(),
                            v,
                        ));
                        assert(spec_leaf(mid_mem, s0.root(), v) == spec_leaf(m0, s0.root(), v));
                        assert(spec_leaf(m2, s0.root(), v) == spec_leaf(mid_mem, s0.root(), v));
                    } else {
                        assert(map_area.covers(v));
                        assert(spec_mapped(mid_mem, s0.root(), v));
                        assert(spec_leaf(mid_mem, s0.root(), v) == pte_pack(
                            map_area.area_ppn(v),
                            map_area.map_perm | 1,
                        ));
                        assert(spec_mapped(m2, s0.root(), v) == spec_mapped(
                            mid_mem,
                            s0.root(),
                            v,
                        ));
                        assert(spec_leaf(m2, s0.root(), v) == spec_leaf(mid_mem, s0.root(), v));
                    }
                }
                assert forall|v: u64|
                    v < VPN_BOUND && v != TRAMP_VPN && #[trigger] spec_mapped(
                        m2,
                        s2.root(),
                        v,
                    ) implies exists|a: int|
                    0 <= a < s2.areas@.len() && (#[trigger] s2.areas@[a]).covers(v) by {
                    assert(spec_mapped(mid_mem, s0.root(), v) == spec_mapped(m2, s0.root(), v));
                    if map_area.covers(v) {
                        assert((s2.areas@[n0]).covers(v));
                    } else {
                        assert(spec_mapped(m0, s0.root(), v) == spec_mapped(
                            mid_mem,
                            s0.root(),
                            v,
                        ));
                        let a = choose|a: int|
                            0 <= a < s0.areas@.len() && (#[trigger] s0.areas@[a]).covers(v);
                        assert((s2.areas@[a]).covers(v));
                    }
                }
                assert(TRAMP_VPN < VPN_BOUND && !map_area.covers(TRAMP_VPN));
                assert(spec_mapped(m2, s2.root(), TRAMP_VPN) == spec_mapped(
                    m0,
                    s0.root(),
                    TRAMP_VPN,
                ));
                assert(spec_leaf(m2, s2.root(), TRAMP_VPN) == spec_leaf(m0, s0.root(), TRAMP_VPN));
            }
        }
    }

    /// Install a fresh area like `push`, but check the frame supply page
    /// by page. On exhaustion it reports failure and the space must be
    /// discarded by the caller.
    pub fn try_push(
        &mut self,
        mem: &mut PhysMem,
        alloc: &mut StackFrameAllocator,
        area: MapArea,
    ) -> (ok: bool)
        requires
            old(self).inv(*old(mem)),
            old(mem).wf(),
            old(alloc).wf(),
            area.area_wf(),
            area.data_frames@.len() == 0,
            forall|a: int|
                0 <= a < old(self).areas@.len() ==> area.end_vpn() <= (
                #[trigger] old(self).areas@[a]).start() || old(self).areas@[a].end_vpn()
                    <= area.start(),
            !area.covers(TRAMP_VPN),
            forall|p: u64| old(self).owns(p) ==> old(alloc).live@.contains(p),
            old(mem).first_ppn <= old(alloc).start@,
            old(alloc).end <= old(mem).first_ppn + old(mem).pages@.len(),
        ensures
            final(mem).wf(),
            final(alloc).wf(),
            final(mem).first_ppn == old(mem).first_ppn,
            final(mem).pages@.len() == old(mem).pages@.len(),
            final(alloc).end == old(alloc).end,
            final(alloc).start@ == old(alloc).start@,
            ok ==> {
                &&& final(self).inv(*final(mem))
                &&& final(self).root() == old(self).root()
                &&& final(self).trampoline_ppn == old(self).trampoline_ppn
                &&& final(self).areas@.len() == old(self).areas@.len() + 1
                &&& (forall|a: int|
                    0 <= a < old(self).areas@.len() ==> final(self).areas@[a] == old(
                        self,
                    ).areas@[a])
                &&& final(self).areas@[old(self).areas@.len() as int].vpn_interval
                    == area.vpn_interval
                &&& final(self).areas@[old(self).areas@.len() as int].map_type == area.map_type
                &&& final(self).areas@[old(self).areas@.len() as int].map_perm == area.map_perm
                &&& (forall|v: u64|
                    v < VPN_BOUND && !area.covers(v) ==> #[trigger] spec_mapped(
                        *final(mem),
                        final(self).root(),
                        v,
                    ) == spec_mapped(*old(mem), old(self).root(), v))
                &&& (forall|p: u64| old(self).owns(p) ==> final(self).owns(p))
                &&& (forall|p: u64| #[trigger]
                    final(self).owns(p) ==> old(self).owns(p) || !old(alloc).live@.contains(p))
                &&& (forall|p: u64| #[trigger]
                    final(self).owns(p) ==> final(alloc).live@.contains(p))
                &&& (forall|p: u64|
                    old(alloc).live@.contains(p) ==> #[trigger] final(alloc).live@.contains(p))
                &&& (forall|p: u64| #[trigger]
                    final(alloc).live@.contains(p) ==> old(alloc).live@.contains(p)
                        || final(self).owns(p))
                &&& (forall|p: u64, i: int|
                    !final(self).owns(p) ==> #[trigger] final(mem).word_at(p, i) == old(
                        mem,
                    ).word_at(p, i))
            },
    {
        let mut map_area = area;
        proof {
            assert forall|p: u64| self.page_table.owns(p) implies old(alloc).live@.contains(
                p,
            ) by {
                assert(old(self).owns(p));
            }
            assert forall|v: u64| map_area.covers(v) implies !spec_mapped(
                *mem,
                self.page_table.root_ppn,
                v,
            ) by {
                if spec_mapped(*mem, self.page_table.root_ppn, v) {
                    assert(v < VPN_BOUND);
                    assert(v != TRAMP_VPN);
                    let a = choose|a: int|
                        0 <= a < old(self).areas@.len() && (#[trigger] old(
                            self,
                        ).areas@[a]).covers(v);
                    assert(area.end_vpn() <= old(self).areas@[a].start() || old(
                        self,
                    ).areas@[a].end_vpn() <= area.start());
                }
            }
        }
        let ok = map_area.try_map(&mut self.page_table, mem, alloc);
        if !ok {
            return false;
        }
        self.areas.push(map_area);
        proof {
            let s0 = *old(self);
            let s2 = *self;
            let m0 = *old(mem);
            let m2 = *mem;
            let n0 = s0.areas@.len() as int;
            assert(s2.areas@ == s0.areas@.push(map_area));
            assert(s2.areas@[n0] == map_area);
            assert forall|p: u64| s0.owns(p) implies s2.owns(p) by {
                if !s0.page_table.owns(p) {
                    let a = choose|a: int|
                        0 <= a < s0.areas@.len() && (#[trigger] s0.areas@[a]).owns_frame(p);
                    assert(s2.areas@[a].owns_frame(p));
                }
            }
            assert forall|p: u64| #[trigger]
                s2.owns(p) implies s0.owns(p) || !old(alloc).live@.contains(p) by {
                if s2.page_table.owns(p) {
                    if s0.page_table.owns(p) {
                        assert(s0.owns(p));
                    }
                } else {
                    let a = choose|a: int|
                        0 <= a < s2.areas@.len() && (#[trigger] s2.areas@[a]).owns_frame(p);
                    if a < n0 {
                        assert(s0.areas@[a].owns_frame(p));
                        assert(s0.owns(p));
                    } else {
                        assert(map_area.owns_frame(p));
                    }
                }
            }
            assert forall|p: u64| #[trigger] s2.owns(p) implies alloc.live@.contains(p) by {
                if !s2.page_table.owns(p) {
                    let a = choose|a: int|
                        0 <= a < s2.areas@.len() && (#[trigger] s2.areas@[a]).owns_frame(p);
                    if a < n0 {
                        assert(s0.areas@[a].owns_frame(p));
                        assert(s0.owns(p));
                        assert(old(alloc).live@.contains(p));
                    } else {
                        assert(map_area.owns_frame(p));
                    }
                }
            }
            assert forall|p: u64, i: int| !s2.owns(p) implies #[trigger] m2.word_at(p, i)
                == m0.word_at(p, i) by {
                assert(!s2.page_table.owns(p));
                assert(!map_area.owns_frame(p));
            }
            assert(s2.inv(m2)) by {
                assert(s2.page_table.wf(m2));
                assert forall|a: int, p: u64|
                    0 <= a < s2.areas@.len() && #[trigger] s2.areas@[a].owns_frame(
                        p,
                    ) implies !s2.page_table.owns(p) by {
                    if a < n0 {
                        assert(s0.areas@[a].owns_frame(p));
                        assert(s0.owns(p));
                        assert(old(alloc).live@.contains(p));
                        assert(!s0.page_table.owns(p));
                    }
                }
                assert forall|a: int, b: int, p: u64|
                    0 <= a < s2.areas@.len() && 0 <= b < s2.areas@.len() && a != b implies !(
                #[trigger] s2.areas@[a].owns_frame(p) && #[trigger] s2.areas@[b].owns_frame(
                    p,
                )) by {
                    if s2.areas@[a].owns_frame(p) && s2.areas@[b].owns_frame(p) {
                        if a < n0 && b < n0 {
                            assert(s0.areas@[a].owns_frame(p) && s0.areas@[b].owns_frame(p));
                        } else if a < n0 {
                            assert(s0.areas@[a].owns_frame(p));
                            assert(s0.owns(p));
                            assert(old(alloc).live@.contains(p));
                            assert(map_area.owns_frame(p));
                        } else {
                            assert(s0.areas@[b].owns_frame(p));
                            assert(s0.owns(p));
                            assert(old(alloc).live@.contains(p));
                            assert(map_area.owns_frame(p));
                        }
                    }
                }
                assert forall|a: int, j: int|
                    0 <= a < s2.areas@.len() && 0 <= j
                        < s2.areas@[a].data_frames@.len() implies m2.contains_ppn(
                    (#[trigger] s2.areas@[a].data_frames@[j]).ppn.0,
                ) by {
                    if a < n0 {
                        assert(m0.contains_ppn((s0.areas@[a].data_frames@[j]).ppn.0));
                    }
                }
                assert forall|a: int, v: u64|
                    0 <= a < s2.areas@.len() && #[trigger] s2.areas@[a].covers(
                        v,
                    ) implies spec_mapped(m2, s2.root(), v) && spec_leaf(m2, s2.root(), v)
                    == pte_pack(s2.areas@[a].area_ppn(v), s2.areas@[a].map_perm | 1) by {
                    if a < n0 {
                        assert(s0.areas@[a].covers(v));
                        assert(v < VPN_BOUND && v != TRAMP_VPN);
                        assert(!map_area.covers(v));
                        assert(spec_mapped(m0, s0.root(), v));
                    } else {
                        assert(map_area.covers(v));
                    }
                }
                assert forall|v: u64|
                    v < VPN_BOUND && v != TRAMP_VPN && #[trigger] spec_mapped(
                        m2,
                        s2.root(),
                        v,
                    ) implies exists|a: int|
                    0 <= a < s2.areas@.len() && (#[trigger] s2.areas@[a]).covers(v) by {
                    if map_area.covers(v) {
                        assert((s2.areas@[n0]).covers(v));
                    } else {
                        assert(spec_mapped(m0, s0.root(), v) == spec_mapped(m2, s0.root(), v));
                        let a = choose|a: int|
                            0 <= a < s0.areas@.len() && (#[trigger] s0.areas@[a]).covers(v);
                        assert((s2.areas@[a]).covers(v));
                    }
                }
                assert(TRAMP_VPN < VPN_BOUND && !map_area.covers(TRAMP_VPN));
                assert(spec_mapped(m2, s2.root(), TRAMP_VPN) == spec_mapped(
                    m0,
                    s0.root(),
                    TRAMP_VPN,
                ));
                assert(spec_leaf(m2, s2.root(), TRAMP_VPN) == spec_leaf(m0, s0.root(), TRAMP_VPN));
            }
        }
        true
    }

    /// Insert a framed area over `[start_va, end_va)` with the given
    /// permissions; used for the per-task kernel stacks.
    pub fn insert_framed_area(
        &mut self,
        mem: &mut PhysMem,
        alloc: &mut StackFrameAllocator,
        start_va: VirtAddr,
        end_va: VirtAddr,
        permission: u8,
    )
        requires
            old(self).inv(*old(mem)),
            old(mem).wf(),
            old(alloc).wf(),
            start_va.0 <= end_va.0,
            end_va.0 <= VA_BOUND,
            forall|a: int|
                0 <= a < old(self).areas@.len() ==> (end_va.0 + PAGE_SIZE - 1) / (
                PAGE_SIZE as int) <= (#[trigger] old(self).areas@[a]).start() || old(
                    self,
                ).areas@[a].end_vpn() <= start_va.0 / PAGE_SIZE,
            !(start_va.0 / PAGE_SIZE <= TRAMP_VPN < (end_va.0 + PAGE_SIZE - 1) / (
            PAGE_SIZE as int)),
            old(alloc).free_count() >= 3 * ((end_va.0 + PAGE_SIZE - 1) / (PAGE_SIZE as int)
                - start_va.0 / PAGE_SIZE),
            forall|p: u64| old(self).owns(p) ==> old(alloc).live@.contains(p),
            old(mem).first_ppn <= old(alloc).start@,
            old(alloc).end <= old(mem).first_ppn + old(mem).pages@.len(),
        ensures
            final(self).inv(*final(mem)),
            final(mem).wf(),
            final(alloc).wf(),
            final(mem).first_ppn == old(mem).first_ppn,
            final(mem).pages@.len() == old(mem).pages@.len(),
            final(alloc).end == old(alloc).end,
            final(alloc).start@ == old(alloc).start@,
            final(self).root() == old(self).root(),
            final(self).trampoline_ppn == old(self).trampoline_ppn,
            final(self).areas@.len() == old(self).areas@.len() + 1,
            forall|a: int|
                0 <= a < old(self).areas@.len() ==> final(self).areas@[a] == old(self).areas@[a],
            final(self).areas@[old(self).areas@.len() as int].start() == start_va.0 / PAGE_SIZE,
            final(self).areas@[old(self).areas@.len() as int].end_vpn() == (end_va.0 + PAGE_SIZE
                - 1) / (PAGE_SIZE as int),
            final(self).areas@[old(self).areas@.len() as int].map_type == MapType::Framed,
            final(self).areas@[old(self).areas@.len() as int].map_perm == permission,
            forall|v: u64|
                v < VPN_BOUND && !(start_va.0 / PAGE_SIZE <= v < (end_va.0 + PAGE_SIZE - 1) / (
                PAGE_SIZE as int)) ==> #[trigger] spec_mapped(
                    *final(mem),
                    final(self).root(),
                    v,
                ) == spec_mapped(*old(mem), old(self).root(), v),
            forall|p: u64| old(self).owns(p) ==> final(self).owns(p),
            forall|p: u64| #[trigger]
                final(self).owns(p) ==> old(self).owns(p) || !old(alloc).live@.contains(p),
            forall|p: u64| #[trigger] final(self).owns(p) ==> final(alloc).live@.contains(p),
            forall|p: u64|
                old(alloc).live@.contains(p) ==> #[trigger] final(alloc).live@.contains(p),
            forall|p: u64| #[trigger]
                final(alloc).live@.contains(p) ==> old(alloc).live@.contains(p)
                    || final(self).owns(p),
            forall|p: u64, i: int|
                !final(self).owns(p) ==> #[trigger] final(mem).word_at(p, i) == old(mem).word_at(
                    p,
                    i,
                ),
    {
        let area = MapArea::new(start_va, end_va, MapType::Framed, permission);
        self.push(mem, alloc, area, None);
    }

    /// Walk `vpn` in this space's page table and return a copy of its leaf
    /// entry.
    pub fn translate(&self, mem: &PhysMem, vpn: VirtPageNum) -> (r: Option<PageTableEntry>)
        requires
            mem.wf(),
        ensures
            match walk_spec(*mem, self.root(), vpn.0) {
                Some(e) => r == Some(PageTableEntry { bits: e }),
                None => r is None,
            },
    {
        self.page_table.translate(mem, vpn)
    }

    /// The `satp` value selecting this space.
    pub fn token(&self, mem: &PhysMem) -> (r: u64)
        requires
            self.inv(*mem),
            mem.wf(),
        ensures
            r == satp_token(self.root()),
            satp_root(r) == self.root(),
    {
        proof {
            assert(self.page_table.owns(self.root()));
            let i = choose|i: int|
                0 <= i < self.page_table.frames@.len() && self.page_table.frames@[i].ppn.0
                    == self.root();
            assert(mem.contains_ppn(self.page_table.frames@[i].ppn.0));
        }
        self.page_table.token(mem)
    }
}

/// Every valid leaf of a well-formed address space names a frame the space
/// accounts for: the trampoline page maps the trampoline frame, a page of
/// a framed area maps a frame that area owns, and a page of an identical
/// area maps the frame with the page's own number.
pub proof fn lemma_mapped_frames_owned(s: MemorySet, mem: PhysMem, v: u64)
    requires
        s.inv(mem),
        mem.wf(),
        v < VPN_BOUND,
        spec_mapped(mem, s.root(), v),
    ensures
        v == TRAMP_VPN ==> s.trampoline_ppn == Some(pte_ppn_of(spec_leaf(mem, s.root(), v))),
        v != TRAMP_VPN ==> exists|a: int|
            0 <= a < s.areas@.len() && (#[trigger] s.areas@[a]).covers(v) && pte_ppn_of(
                spec_leaf(mem, s.root(), v),
            ) == s.areas@[a].area_ppn(v) && (s.areas@[a].map_type is Framed
                ==> s.areas@[a].owns_frame(s.areas@[a].area_ppn(v))),
{
    if v == TRAMP_VPN {
        let p = s.trampoline_ppn->Some_0;
        crate::page_table::lemma_pte_pack(p, MAP_PERM_R | MAP_PERM_X | 1);
    } else {
        let a = choose|a: int| 0 <= a < s.areas@.len() && (#[trigger] s.areas@[a]).covers(v);
        let ar = s.areas@[a];
        assert(spec_leaf(mem, s.root(), v) == pte_pack(ar.area_ppn(v), ar.map_perm | 1));
        if ar.map_type is Framed {
            let j = v - ar.start();
            assert(ar.data_frames@[j].ppn.0 == ar.area_ppn(v));
            assert(mem.contains_ppn(ar.data_frames@[j].ppn.0));
            crate::page_table::lemma_pte_pack(ar.area_ppn(v), ar.map_perm | 1);
            assert(ar.owns_frame(ar.area_ppn(v)));
        } else {
            crate::page_table::lemma_pte_pack(v, ar.map_perm | 1);
        }
    }
}

impl MemorySet {
    /// Install this space on the hart: write its token to `satp` and
    /// fence, after which no stale translation survives.
    pub fn activate(&self, mem: &PhysMem, cpu: &mut Cpu)
        requires
            self.inv(*mem),
            mem.wf(),
        ensures
            activate_post(*old(cpu), *final(cpu), satp_token(self.root())),
    {
        let satp = self.token(mem);
        cpu.write_satp_and_fence(satp);
    }
}

/// First page of a kernel section `(start, end, perm)`.
pub open spec fn sec_floor(s: (u64, u64, u8)) -> int {
    s.0 as int / (PAGE_SIZE as int)
}

/// One past the last page of a kernel section.
pub open spec fn sec_ceil(s: (u64, u64, u8)) -> int {
    (s.1 + PAGE_SIZE - 1) / (PAGE_SIZE as int)
}

/// A kernel section is acceptable: ordered bounds inside the 39-bit
/// space, staying below the trampoline page.
pub open spec fn spec_sec_ok(s: (u64, u64, u8)) -> bool {
    &&& s.0 <= s.1 <= VA_BOUND
    &&& sec_ceil(s) <= TRAMP_VPN
}

/// Two by two, the sections' page ranges do not overlap.
pub open spec fn spec_secs_disjoint(secs: Seq<(u64, u64, u8)>) -> bool {
    forall|i: int, j: int|
        #![trigger secs[i], secs[j]]
        0 <= i < j < secs.len() ==> sec_ceil(secs[i]) <= sec_floor(secs[j]) || sec_ceil(secs[j])
            <= sec_floor(secs[i])
}

/// Total pages of a run of sections.
pub open spec fn total_sec_pages(secs: Seq<(u64, u64, u8)>) -> int
    decreases secs.len(),
{
    if secs.len() == 0 {
        0
    } else {
        total_sec_pages(secs.drop_last()) + (sec_ceil(secs.last()) - sec_floor(secs.last()))
    }
}

/// Any prefix of a run of sections has at most the run's pages.
proof fn lemma_total_sec_pages_prefix(secs: Seq<(u64, u64, u8)>, i: int)
    requires
        0 <= i <= secs.len(),
        forall|j: int|
            0 <= j < secs.len() ==> sec_floor(#[trigger] secs[j]) <= sec_ceil(secs[j]),
    ensures
        total_sec_pages(secs.take(i)) <= total_sec_pages(secs),
    decreases secs.len() - i,
{
    if i == secs.len() {
        assert(secs.take(i) =~= secs);
    } else {
        lemma_total_sec_pages_prefix(secs, i + 1);
        assert(secs.take(i + 1).drop_last() =~= secs.take(i));
        assert(secs.take(i + 1).last() == secs[i]);
    }
}

/// The kernel's identity-mapped section list: text read-execute, rodata
/// read-only, data and bss read-write, the free physical memory
/// read-write, then each MMIO window read-write.
pub open spec fn spec_kernel_sections(
    stext: u64,
    etext: u64,
    srodata: u64,
    erodata: u64,
    sdata: u64,
    edata: u64,
    sbss_with_stack: u64,
    ebss: u64,
    ekernel: u64,
    memory_end: u64,
    mmio: Seq<(u64, u64)>,
) -> Seq<(u64, u64, u8)> {
    seq![
        (stext, etext, MAP_PERM_R | MAP_PERM_X),
        (srodata, erodata, MAP_PERM_R),
        (sdata, edata, MAP_PERM_R | MAP_PERM_W),
        (sbss_with_stack, ebss, MAP_PERM_R | MAP_PERM_W),
        (ekernel, memory_end, MAP_PERM_R | MAP_PERM_W),
    ] + mmio.map_values(|w: (u64, u64)| (w.0, (w.0 + w.1) as u64, MAP_PERM_R | MAP_PERM_W))
}

/// Install a list of identity-mapped areas into a space that so far holds
/// only the trampoline, checking the frame supply as it goes. On
/// exhaustion it reports failure and the space must be discarded.
#[verifier::rlimit(100)]
#[verifier::spinoff_prover]
fn push_identical_areas(
    ms: &mut MemorySet,
    sections: &Vec<(u64, u64, u8)>,
    mem: &mut PhysMem,
    alloc: &mut StackFrameAllocator,
    Ghost(live0): Ghost<Set<u64>>,
) -> (ok: bool)
    requires
        old(ms).inv(*old(mem)),
        old(ms).areas@.len() == 0,
        old(mem).wf(),
        old(alloc).wf(),
        forall|j: int| 0 <= j < sections@.len() ==> spec_sec_ok(#[trigger] sections@[j]),
        spec_secs_disjoint(sections@),
        sections@.len() <= 0x10_0000,
        forall|p: u64| #[trigger] old(ms).owns(p) ==> !live0.contains(p),
        forall|p: u64| #[trigger] old(ms).owns(p) ==> old(alloc).live@.contains(p),
        forall|p: u64| live0.contains(p) ==> #[trigger] old(alloc).live@.contains(p),
        forall|p: u64| #[trigger]
            old(alloc).live@.contains(p) ==> live0.contains(p) || old(ms).owns(p),
        old(mem).first_ppn <= old(alloc).start@,
        old(alloc).end <= old(mem).first_ppn + old(mem).pages@.len(),
    ensures
        final(mem).wf(),
        final(alloc).wf(),
        final(mem).first_ppn == old(mem).first_ppn,
        final(mem).pages@.len() == old(mem).pages@.len(),
        final(alloc).end == old(alloc).end,
        final(alloc).start@ == old(alloc).start@,
        ok ==> {
            &&& final(ms).inv(*final(mem))
            &&& final(ms).root() == old(ms).root()
            &&& final(ms).trampoline_ppn == old(ms).trampoline_ppn
            &&& final(ms).areas@.len() == sections@.len()
            &&& (forall|j: int|
                0 <= j < sections@.len() ==> (#[trigger] final(ms).areas@[j]).start()
                    == sec_floor(sections@[j]) && final(ms).areas@[j].end_vpn() == sec_ceil(
                    sections@[j],
                ) && final(ms).areas@[j].map_type is Identical && final(ms).areas@[j].map_perm
                    == sections@[j].2)
            &&& (forall|p: u64| old(ms).owns(p) ==> #[trigger] final(ms).owns(p))
            &&& (forall|p: u64| #[trigger] final(ms).owns(p) ==> !live0.contains(p))
            &&& (forall|p: u64| #[trigger]
                final(ms).owns(p) ==> final(alloc).live@.contains(p))
            &&& (forall|p: u64|
                live0.contains(p) ==> #[trigger] final(alloc).live@.contains(p))
            &&& (forall|p: u64| #[trigger]
                final(alloc).live@.contains(p) ==> live0.contains(p) || final(ms).owns(p))
            &&& (forall|p: u64, q: int|
                !final(ms).owns(p) ==> #[trigger] final(mem).word_at(p, q) == old(mem).word_at(
                    p,
                    q,
                ))
        },
{
    let n = sections.len();
    let mut i: usize = 0;
    while i < n
        invariant
            mem.wf(),
            alloc.wf(),
            mem.first_ppn == old(mem).first_ppn,
            mem.pages@.len() == old(mem).pages@.len(),
            alloc.end == old(alloc).end,
            alloc.start@ == old(alloc).start@,
            mem.first_ppn <= alloc.start@,
            alloc.end <= mem.first_ppn + mem.pages@.len(),
            n == sections@.len(),
            n <= 0x10_0000,
            0 <= i <= n,
            forall|j: int| 0 <= j < sections@.len() ==> spec_sec_ok(#[trigger] sections@[j]),
            spec_secs_disjoint(sections@),
            forall|j: int|
                0 <= j < sections@.len() ==> sec_floor(#[trigger] sections@[j]) <= sec_ceil(
                    sections@[j],
                ),
            ms.inv(*mem),
            ms.root() == old(ms).root(),
            ms.trampoline_ppn == old(ms).trampoline_ppn,
            ms.areas@.len() == i,
            forall|j: int|
                0 <= j < i ==> (#[trigger] ms.areas@[j]).start() == sec_floor(sections@[j])
                    && ms.areas@[j].end_vpn() == sec_ceil(sections@[j])
                    && ms.areas@[j].map_type is Identical && ms.areas@[j].map_perm
                    == sections@[j].2,
            forall|p: u64| old(ms).owns(p) ==> #[trigger] ms.owns(p),
            forall|p: u64| #[trigger] ms.owns(p) ==> !live0.contains(p),
            forall|p: u64| #[trigger] ms.owns(p) ==> alloc.live@.contains(p),
            forall|p: u64| live0.contains(p) ==> #[trigger] alloc.live@.contains(p),
            forall|p: u64| #[trigger]
                alloc.live@.contains(p) ==> live0.contains(p) || ms.owns(p),
            forall|p: u64, q: int|
                !ms.owns(p) ==> #[trigger] mem.word_at(p, q) == old(mem).word_at(p, q),
        decreases n - i,
    {
        let sct = sections[i];
        proof {
            assert(spec_sec_ok(sections@[i as int]));
        }
        let area = MapArea::new(VirtAddr(sct.0), VirtAddr(sct.1), MapType::Identical, sct.2);
        proof {
            assert forall|a: int|
                0 <= a < ms.areas@.len() implies area.end_vpn() <= (
            #[trigger] ms.areas@[a]).start() || ms.areas@[a].end_vpn() <= area.start() by {
                assert(sections@[a] == sections@[a]);
                assert(sec_ceil(sections@[a]) <= sec_floor(sections@[i as int]) || sec_ceil(
                    sections@[i as int],
                ) <= sec_floor(sections@[a]));
            }
            assert(!area.covers(TRAMP_VPN));
        }
        let ok = ms.try_push(mem, alloc, area);
        if !ok {
            return false;
        }
        i = i + 1;
    }
    true
}

impl MemorySet {
    /// Build the kernel address space: the trampoline at the top, then the
    /// five kernel sections and every MMIO window identity-mapped with
    /// their permissions. The per-task kernel stacks are inserted later,
    /// one per task. Succeeds exactly when the sections are acceptable,
    /// pairwise page-disjoint and the frames suffice.
    #[verifier::rlimit(100)]
    #[verifier::spinoff_prover]
    pub fn new_kernel(
        stext: u64,
        etext: u64,
        srodata: u64,
        erodata: u64,
        sdata: u64,
        edata: u64,
        sbss_with_stack: u64,
        ebss: u64,
        ekernel: u64,
        memory_end: u64,
        mmio: &Vec<(u64, u64)>,
        strampoline: PhysPageNum,
        mem: &mut PhysMem,
        alloc: &mut StackFrameAllocator,
    ) -> (r: Option<MemorySet>)
        requires
            old(mem).wf(),
            old(alloc).wf(),
            strampoline.0 < PPN_BOUND,
            old(mem).first_ppn <= old(alloc).start@,
            old(alloc).end <= old(mem).first_ppn + old(mem).pages@.len(),
            mmio@.len() <= 0x1000,
        ensures
            final(mem).wf(),
            final(alloc).wf(),
            final(mem).first_ppn == old(mem).first_ppn,
            final(mem).pages@.len() == old(mem).pages@.len(),
            final(alloc).end == old(alloc).end,
            final(alloc).start@ == old(alloc).start@,
            match r {
                Some(ms) => {
                    &&& ms.inv(*final(mem))
                    &&& ms.trampoline_ppn == Some(strampoline.0)
                    &&& ms.areas@.len() == 5 + mmio@.len()
                    &&& forall|j: int|
                        0 <= j < ms.areas@.len() ==> (#[trigger] ms.areas@[j]).start()
                            == sec_floor(
                            spec_kernel_sections(
                                stext,
                                etext,
                                srodata,
                                erodata,
                                sdata,
                                edata,
                                sbss_with_stack,
                                ebss,
                                ekernel,
                                memory_end,
                                mmio@,
                            )[j],
                        ) && ms.areas@[j].end_vpn() == sec_ceil(
                            spec_kernel_sections(
                                stext,
                                etext,
                                srodata,
                                erodata,
                                sdata,
                                edata,
                                sbss_with_stack,
                                ebss,
                                ekernel,
                                memory_end,
                                mmio@,
                            )[j],
                        ) && ms.areas@[j].map_type is Identical && ms.areas@[j].map_perm
                            == spec_kernel_sections(
                            stext,
                            etext,
                            srodata,
                            erodata,
                            sdata,
                            edata,
                            sbss_with_stack,
                            ebss,
                            ekernel,
                            memory_end,
                            mmio@,
                        )[j].2
                    &&& forall|p: u64| #[trigger] ms.owns(p) ==> !old(alloc).live@.contains(p)
                    &&& forall|p: u64| #[trigger] ms.owns(p) ==> final(alloc).live@.contains(p)
                    &&& forall|p: u64|
                        old(alloc).live@.contains(p) ==> #[trigger] final(alloc).live@.contains(
                            p,
                        )
                    &&& forall|p: u64| #[trigger]
                        final(alloc).live@.contains(p) ==> old(alloc).live@.contains(p)
                            || ms.owns(p)
                    &&& forall|p: u64, i: int|
                        !ms.owns(p) ==> #[trigger] final(mem).word_at(p, i) == old(
                            mem,
                        ).word_at(p, i)
                },
                None => true,
            },
    {
        let ghost secs_spec = spec_kernel_sections(
            stext,
            etext,
            srodata,
            erodata,
            sdata,
            edata,
            sbss_with_stack,
            ebss,
            ekernel,
            memory_end,
            mmio@,
        );
        let mut sections: Vec<(u64, u64, u8)> = Vec::new();
        sections.push((stext, etext, MAP_PERM_R | MAP_PERM_X));
        sections.push((srodata, erodata, MAP_PERM_R));
        sections.push((sdata, edata, MAP_PERM_R | MAP_PERM_W));
        sections.push((sbss_with_stack, ebss, MAP_PERM_R | MAP_PERM_W));
        sections.push((ekernel, memory_end, MAP_PERM_R | MAP_PERM_W));
        let mut m: usize = 0;
        while m < mmio.len()
            invariant
                *mem == *old(mem),
                *alloc == *old(alloc),
                old(mem).wf(),
                old(alloc).wf(),
                0 <= m <= mmio@.len(),
                mmio@.len() <= 0x1000,
                sections@.len() == 5 + m,
                forall|j: int| 0 <= j < 5 + m ==> sections@[j] == secs_spec[j],
                secs_spec == spec_kernel_sections(
                    stext,
                    etext,
                    srodata,
                    erodata,
                    sdata,
                    edata,
                    sbss_with_stack,
                    ebss,
                    ekernel,
                    memory_end,
                    mmio@,
                ),
            decreases mmio@.len() - m,
        {
            let w = mmio[m];
            if w.1 > u64::MAX - w.0 {
                return None;
            }
            sections.push((w.0, w.0 + w.1, MAP_PERM_R | MAP_PERM_W));
            m = m + 1;
        }
        proof {
            assert(sections@ =~= secs_spec);
        }
        // Validate: every section acceptable, all pairs page-disjoint.
        let n = sections.len();
        let mut total: u64 = 0;
        let mut i: usize = 0;
        while i < n
            invariant
                *mem == *old(mem),
                *alloc == *old(alloc),
                old(mem).wf(),
                old(alloc).wf(),
                n == sections@.len(),
                n <= 5 + 0x1000,
                0 <= i <= n,
                total == total_sec_pages(sections@.take(i as int)),
                total <= i * 0x800_0000,
                forall|j: int| 0 <= j < i ==> spec_sec_ok(#[trigger] sections@[j]),
            decreases n - i,
        {
            let s = sections[i];
            if s.0 > s.1 || s.1 > VA_BOUND {
                return None;
            }
            let ce: u64 = (s.1 + (PAGE_SIZE - 1)) / PAGE_SIZE;
            if ce > TRAMP_VPN {
                return None;
            }
            proof {
                assert(sections@.take(i + 1).drop_last() =~= sections@.take(i as int));
                assert(sections@.take(i + 1).last() == sections@[i as int]);
            }
            total = total + (ce - s.0 / PAGE_SIZE);
            i = i + 1;
        }
        proof {
            assert(sections@.take(n as int) =~= sections@);
        }
        let mut i: usize = 0;
        while i < n
            invariant
                *mem == *old(mem),
                *alloc == *old(alloc),
                old(mem).wf(),
                old(alloc).wf(),
                n == sections@.len(),
                0 <= i <= n,
                forall|j: int| 0 <= j < n ==> spec_sec_ok(#[trigger] sections@[j]),
                forall|a: int, b: int|
                    #![trigger sections@[a], sections@[b]]
                    0 <= a < b < n && a < i ==> sec_ceil(sections@[a]) <= sec_floor(sections@[b])
                        || sec_ceil(sections@[b]) <= sec_floor(sections@[a]),
            decreases n - i,
        {
            let mut j: usize = i + 1;
            while j < n
                invariant
                    *mem == *old(mem),
                    *alloc == *old(alloc),
                    old(mem).wf(),
                    old(alloc).wf(),
                    n == sections@.len(),
                    0 <= i < n,
                    i < j <= n,
                    forall|q: int| 0 <= q < n ==> spec_sec_ok(#[trigger] sections@[q]),
                    forall|b: int|
                        i < b < j ==> sec_ceil(#[trigger] sections@[b]) <= sec_floor(
                            sections@[i as int],
                        ) || sec_ceil(sections@[i as int]) <= sec_floor(sections@[b]),
                decreases n - j,
            {
                let a = sections[i];
                let b = sections[j];
                let a_ce: u64 = (a.1 + (PAGE_SIZE - 1)) / PAGE_SIZE;
                let b_ce: u64 = (b.1 + (PAGE_SIZE - 1)) / PAGE_SIZE;
                if !(a_ce <= b.0 / PAGE_SIZE || b_ce <= a.0 / PAGE_SIZE) {
                    return None;
                }
                j = j + 1;
            }
            i = i + 1;
        }
        if !alloc.has_free(3) {
            return None;
        }
        let ghost live0 = alloc.live@;
        let mut ms = MemorySet::new_bare(mem, alloc);
        let ghost ms_z = ms;
        let ghost mem_z = *mem;
        ms.map_trampoline(mem, alloc, strampoline);
        let ghost ms_a = ms;
        let ghost mem_a = *mem;
        let ok = push_identical_areas(&mut ms, &sections, mem, alloc, Ghost(live0));
        if !ok {
            return None;
        }
        proof {
            assert forall|p: u64, q: int| !ms.owns(p) implies #[trigger] mem.word_at(p, q) == old(
                mem,
            ).word_at(p, q) by {
                assert(!ms_a.owns(p));
                assert(!ms_z.owns(p));
                assert(p != ms_z.root());
                assert(mem.word_at(p, q) == mem_a.word_at(p, q));
                assert(mem_a.word_at(p, q) == mem_z.word_at(p, q));
                assert(mem_z.word_at(p, q) == old(mem).word_at(p, q));
            }
        }
        Some(ms)
    }
}

impl MemorySet {
    /// True iff frame `p` backs one of the space's framed areas.
    pub open spec fn owns_data_frame(self, p: u64) -> bool {
        exists|a: int| 0 <= a < self.areas@.len() && (#[trigger] self.areas@[a]).owns_frame(p)
    }
}

/// An address space reads only the words of its page-table node frames:
/// two memories that agree there satisfy the same invariant and give the
/// same walks.
pub proof fn lemma_ms_inv_agree(ms: MemorySet, m1: PhysMem, m2: PhysMem)
    requires
        ms.inv(m1),
        m1.wf(),
        m2.wf(),
        m2.first_ppn == m1.first_ppn,
        m2.pages@.len() == m1.pages@.len(),
        forall|p: u64, i: int|
            ms.page_table.owns(p) ==> #[trigger] m2.word_at(p, i) == m1.word_at(p, i),
    ensures
        ms.inv(m2),
        forall|v: u64| #[trigger] spec_mapped(m2, ms.root(), v) == spec_mapped(m1, ms.root(), v),
        forall|v: u64| #[trigger] spec_leaf(m2, ms.root(), v) == spec_leaf(m1, ms.root(), v),
{
    crate::page_table::lemma_pt_agree(ms.page_table, m1, m2);
    assert forall|a: int, j: int|
        0 <= a < ms.areas@.len() && 0 <= j < ms.areas@[a].data_frames@.len() implies m2.contains_ppn(
        (#[trigger] ms.areas@[a].data_frames@[j]).ppn.0,
    ) by {
        assert(m1.contains_ppn(ms.areas@[a].data_frames@[j].ppn.0));
    }
    assert forall|a: int, v: u64|
        0 <= a < ms.areas@.len() && #[trigger] ms.areas@[a].covers(v) implies spec_mapped(
        m2,
        ms.root(),
        v,
    ) && spec_leaf(m2, ms.root(), v) == pte_pack(
        ms.areas@[a].area_ppn(v),
        ms.areas@[a].map_perm | 1,
    ) by {
        assert(spec_mapped(m1, ms.root(), v));
    }
    assert forall|v: u64|
        v < VPN_BOUND && v != TRAMP_VPN && #[trigger] spec_mapped(m2, ms.root(), v) implies exists|
            a: int,
        | 0 <= a < ms.areas@.len() && (#[trigger] ms.areas@[a]).covers(v) by {
        assert(spec_mapped(m1, ms.root(), v));
    }
}

} // verus!
