//! The SV39 three-level page table. Tables live bit-for-bit in the modelled
//! physical memory: the root frame and every interior frame hold 512
//! 64-bit entries, `[53:10]` the frame number and `[7:0]` the flag bits.
//!
//! The table owns the frames of every node it has created. Ghost maps record
//! which frame serves as the level-1 table of each root index and as the
//! level-0 table of each `(root, level-1)` index pair; the invariant ties
//! those maps to the actual entry words, which is what makes the walk
//! functional and lets `map` and `unmap` carry exact framing contracts.
use vstd::prelude::*;

use crate::address::{PhysPageNum, VirtAddr, VirtPageNum, vpn_idx0, vpn_idx1, vpn_idx2, PPN_BOUND, VA_BOUND, VPN_BOUND};
use crate::config::PAGE_SIZE;
use crate::frame_allocator::{frame_alloc, FrameTracker, StackFrameAllocator};
use crate::phys_mem::PhysMem;

verus! {

broadcast use vstd::set::group_set_axioms, vstd::map::group_map_axioms;

/// Entry flag: valid.
pub const PTE_V: u8 = 1;
/// Entry flag: readable.
pub const PTE_R: u8 = 2;
/// Entry flag: writable.
pub const PTE_W: u8 = 4;
/// Entry flag: executable.
pub const PTE_X: u8 = 8;
/// Entry flag: accessible in user mode.
pub const PTE_U: u8 = 16;
/// Entry flag: global mapping.
pub const PTE_G: u8 = 32;
/// Entry flag: accessed.
pub const PTE_A: u8 = 64;
/// Entry flag: dirty.
pub const PTE_D: u8 = 128;

/// An entry is valid iff its V bit is set.
pub open spec fn pte_valid(e: u64) -> bool {
    e & 1 == 1
}

/// The frame number carried by an entry: bits `[53:10]`.
pub open spec fn pte_ppn_of(e: u64) -> u64 {
    (e >> 10) & 0xfff_ffff_ffff
}

/// The flag byte carried by an entry: bits `[7:0]`.
pub open spec fn pte_flags_of(e: u64) -> u8 {
    (e & 0xff) as u8
}

/// The 64-bit entry holding frame number `ppn` and flag byte `flags`.
pub open spec fn pte_pack(ppn: u64, flags: u8) -> u64 {
    (ppn << 10) | (flags as u64)
}

/// Packing a frame number and flags into an entry and reading the fields
/// back loses nothing; the entry is valid exactly when the V flag is set.
pub proof fn lemma_pte_pack(ppn: u64, flags: u8)
    by (bit_vector)
    requires
        ppn < 0x1000_0000_0000,
    ensures
        pte_ppn_of(pte_pack(ppn, flags)) == ppn,
        pte_flags_of(pte_pack(ppn, flags)) == flags,
        pte_valid(pte_pack(ppn, flags)) == (flags & 1 == 1),
{
}

/// The `satp` value selecting SV39 paging with root frame `root`.
pub open spec fn satp_token(root: u64) -> u64 {
    (8u64 << 60) | root
}

/// The root frame number carried by a `satp` value.
pub open spec fn satp_root(satp: u64) -> u64 {
    satp & 0xfff_ffff_ffff
}

/// A 44-bit root frame number survives the round trip through `satp`.
pub proof fn lemma_satp_roundtrip(root: u64)
    by (bit_vector)
    requires
        root < 0x1000_0000_0000,
    ensures
        satp_root(satp_token(root)) == root,
{
}

/// One page table entry.
#[derive(Clone, Copy, Debug, PartialEq, Eq, Structural)]
pub struct PageTableEntry {
    /// The raw 64-bit entry.
    pub bits: u64,
}

impl PageTableEntry {
    /// Build the entry holding `ppn` and `flags`.
    pub fn new(ppn: PhysPageNum, flags: u8) -> (r: PageTableEntry)
        requires
            ppn.0 < PPN_BOUND,
        ensures
            r.bits == pte_pack(ppn.0, flags),
            pte_ppn_of(r.bits) == ppn.0,
            pte_flags_of(r.bits) == flags,
            pte_valid(r.bits) == (flags & 1 == 1),
    {
        proof {
            lemma_pte_pack(ppn.0, flags);
        }
        PageTableEntry { bits: (ppn.0 << 10) | (flags as u64) }
    }

    /// The all-zero entry, which is invalid.
    pub fn empty() -> (r: PageTableEntry)
        ensures
            r.bits == 0,
            !pte_valid(r.bits),
    {
        proof {
            assert(!pte_valid(0)) by (bit_vector);
        }
        PageTableEntry { bits: 0 }
    }

    /// The frame number this entry points at.
    pub fn ppn(&self) -> (r: PhysPageNum)
        ensures
            r.0 == pte_ppn_of(self.bits),
            r.0 < PPN_BOUND,
    {
        proof {
            let b = self.bits;
            assert((b >> 10) & 0xfff_ffff_ffff < 0x1000_0000_0000) by (bit_vector);
        }
        PhysPageNum((self.bits >> 10) & 0xfff_ffff_ffff)
    }

    /// The flag byte of this entry.
    pub fn flags(&self) -> (r: u8)
        ensures
            r == pte_flags_of(self.bits),
    {
        (self.bits & 0xff) as u8
    }

    /// True iff the V bit is set.
    pub fn is_valid(&self) -> (r: bool)
        ensures
            r == pte_valid(self.bits),
    {
        self.bits & 1 == 1
    }

    /// True iff the R bit is set.
    pub fn readable(&self) -> (r: bool)
        ensures
            r == (self.bits & 2 == 2),
    {
        self.bits & 2 == 2
    }

    /// True iff the W bit is set.
    pub fn writable(&self) -> (r: bool)
        ensures
            r == (self.bits & 4 == 4),
    {
        self.bits & 4 == 4
    }

    /// True iff the X bit is set.
    pub fn executable(&self) -> (r: bool)
        ensures
            r == (self.bits & 8 == 8),
    {
        self.bits & 8 == 8
    }
}

/// The three-level walk of `vpn` from root frame `root` in memory `mem`,
/// returning a copy of the leaf entry. The walk stops with none on an
/// invalid branch or on a frame outside the modelled memory, exactly as the
/// executable walker refuses to read there.
pub open spec fn walk_spec(mem: PhysMem, root: u64, vpn: u64) -> Option<u64> {
    if !mem.contains_ppn(root) {
        None
    } else {
        let e2 = mem.word_at(root, vpn_idx2(vpn) as int);
        if !pte_valid(e2) {
            None
        } else {
            let p1 = pte_ppn_of(e2);
            if !mem.contains_ppn(p1) {
                None
            } else {
                let e1 = mem.word_at(p1, vpn_idx1(vpn) as int);
                if !pte_valid(e1) {
                    None
                } else {
                    let p0 = pte_ppn_of(e1);
                    if !mem.contains_ppn(p0) {
                        None
                    } else {
                        Some(mem.word_at(p0, vpn_idx0(vpn) as int))
                    }
                }
            }
        }
    }
}

/// True iff the walk of `vpn` reaches a valid leaf entry.
pub open spec fn spec_mapped(mem: PhysMem, root: u64, vpn: u64) -> bool {
    match walk_spec(mem, root, vpn) {
        Some(e) => pte_valid(e),
        None => false,
    }
}

/// The leaf entry of a mapped page, zero otherwise.
pub open spec fn spec_leaf(mem: PhysMem, root: u64, vpn: u64) -> u64 {
    match walk_spec(mem, root, vpn) {
        Some(e) => e,
        None => 0,
    }
}

/// After a level-1 table is grown under one root index of a table whose
/// branch there was invalid, every page keeps its mapped-or-not state and
/// its leaf entry: the only new path dies in the zeroed child.
proof fn lemma_l1_grow_walk(
    s0: PageTable,
    m0: PhysMem,
    s2: PageTable,
    m2: PhysMem,
    i2: u64,
    p1: u64,
    v: u64,
)
    requires
        s0.wf(m0),
        s2.wf(m2),
        m0.wf(),
        m2.wf(),
        s2.root_ppn == s0.root_ppn,
        m0.contains_ppn(s0.root_ppn),
        m2.contains_ppn(s0.root_ppn),
        i2 < 512,
        !s0.l1@.dom().contains(i2),
        s2.l1@ == s0.l1@.insert(i2, p1),
        s2.l0@ == s0.l0@,
        !s0.owns(p1),
        forall|p: u64| s0.owns(p) ==> s2.owns(p),
        forall|p: u64, i: int|
            p != p1 && !(p == s0.root_ppn && i == i2) ==> #[trigger] m2.word_at(p, i)
                == m0.word_at(p, i),
        forall|i: int| #[trigger] m2.word_at(p1, i) == 0,
    ensures
        spec_mapped(m2, s0.root_ppn, v) == spec_mapped(m0, s0.root_ppn, v),
        spec_leaf(m2, s0.root_ppn, v) == spec_leaf(m0, s0.root_ppn, v),
{
    let root = s0.root_ppn;
    s0.lemma_walk_shape(m0, v);
    s2.lemma_walk_shape(m2, v);
    let v2 = vpn_idx2(v);
    let v1 = vpn_idx1(v);
    if v2 == i2 {
        assert(!s0.l1@.dom().contains(v2));
        if s2.l0@.dom().contains((v2, v1)) {
            assert(s0.l1@.dom().contains(v2));
        }
        assert(walk_spec(m0, root, v) is None);
        assert(walk_spec(m2, root, v) is None);
    } else {
        if s0.l0@.dom().contains((v2, v1)) {
            let p0 = s0.l0@[(v2, v1)];
            assert(s0.owns(p0));
            assert(p0 != p1 && p0 != root);
            assert(m2.word_at(p0, vpn_idx0(v) as int) == m0.word_at(p0, vpn_idx0(v) as int));
        } else {
            assert(walk_spec(m0, root, v) is None);
            assert(walk_spec(m2, root, v) is None);
        }
    }
}

/// After a level-0 table is grown under an index pair whose level-1 branch
/// was invalid, every page keeps its mapped-or-not state and its leaf
/// entry: the only new path ends on a zero leaf, which is invalid.
proof fn lemma_l0_grow_walk(
    s0: PageTable,
    m0: PhysMem,
    s2: PageTable,
    m2: PhysMem,
    i2: u64,
    i1: u64,
    p0: u64,
    v: u64,
)
    requires
        s0.wf(m0),
        s2.wf(m2),
        m0.wf(),
        m2.wf(),
        s2.root_ppn == s0.root_ppn,
        m0.contains_ppn(s0.root_ppn),
        m2.contains_ppn(s0.root_ppn),
        i1 < 512,
        s0.l1@.dom().contains(i2),
        !s0.l0@.dom().contains((i2, i1)),
        s2.l1@ == s0.l1@,
        s2.l0@ == s0.l0@.insert((i2, i1), p0),
        !s0.owns(p0),
        forall|p: u64, i: int|
            p != p0 && !(p == s0.l1@[i2] && i == i1) ==> #[trigger] m2.word_at(p, i)
                == m0.word_at(p, i),
        forall|i: int| #[trigger] m2.word_at(p0, i) == 0,
    ensures
        spec_mapped(m2, s0.root_ppn, v) == spec_mapped(m0, s0.root_ppn, v),
        spec_leaf(m2, s0.root_ppn, v) == spec_leaf(m0, s0.root_ppn, v),
{
    let root = s0.root_ppn;
    let t1 = s0.l1@[i2];
    s0.lemma_walk_shape(m0, v);
    s2.lemma_walk_shape(m2, v);
    let v2 = vpn_idx2(v);
    let v1 = vpn_idx1(v);
    assert(!pte_valid(0)) by (bit_vector);
    assert(s0.owns(t1));
    if v2 == i2 && v1 == i1 {
        assert(walk_spec(m0, root, v) is None);
        assert(walk_spec(m2, root, v) == Some(m2.word_at(p0, vpn_idx0(v) as int)));
        assert(m2.word_at(p0, vpn_idx0(v) as int) == 0);
    } else {
        if s0.l0@.dom().contains((v2, v1)) {
            let pv = s0.l0@[(v2, v1)];
            assert(s0.owns(pv));
            assert(pv != p0);
            assert(pv != t1);
            assert(m2.word_at(pv, vpn_idx0(v) as int) == m0.word_at(pv, vpn_idx0(v) as int));
        } else {
            assert(!s2.l0@.dom().contains((v2, v1)));
            assert(walk_spec(m0, root, v) is None);
            assert(walk_spec(m2, root, v) is None);
        }
    }
}

/// Writing one leaf word leaves the table's structure intact.
proof fn lemma_wf_after_leaf_write(s: PageTable, m2: PhysMem, m3: PhysMem, i2: u64, i1: u64, i0: u64)
    requires
        s.wf(m2),
        m2.wf(),
        m3.wf(),
        m3.first_ppn == m2.first_ppn,
        m3.pages@.len() == m2.pages@.len(),
        s.l0@.dom().contains((i2, i1)),
        forall|p: u64, i: int|
            !(p == s.l0@[(i2, i1)] && i == i0) ==> #[trigger] m3.word_at(p, i) == m2.word_at(p, i),
    ensures
        s.wf(m3),
{
    let p0 = s.l0@[(i2, i1)];
    assert(s.owns(p0));
    assert forall|i2x: u64| i2x < 512 implies (pte_valid(
        #[trigger] m3.word_at(s.root_ppn, i2x as int),
    ) <==> s.l1@.dom().contains(i2x)) by {
        assert(m3.word_at(s.root_ppn, i2x as int) == m2.word_at(s.root_ppn, i2x as int));
    }
    assert forall|i2x: u64| #[trigger] s.l1@.dom().contains(i2x) implies m3.word_at(
        s.root_ppn,
        i2x as int,
    ) == pte_pack(s.l1@[i2x], 1) by {
        assert(m3.word_at(s.root_ppn, i2x as int) == m2.word_at(s.root_ppn, i2x as int));
    }
    assert forall|i2x: u64, i1x: u64| s.l1@.dom().contains(i2x) && i1x < 512 implies (pte_valid(
        #[trigger] m3.word_at(s.l1@[i2x], i1x as int),
    ) <==> s.l0@.dom().contains((i2x, i1x))) by {
        assert(s.l1@[i2x] != p0);
        assert(m3.word_at(s.l1@[i2x], i1x as int) == m2.word_at(s.l1@[i2x], i1x as int));
    }
    assert forall|i2x: u64, i1x: u64| #[trigger]
        s.l0@.dom().contains((i2x, i1x)) implies m3.word_at(s.l1@[i2x], i1x as int) == pte_pack(
        s.l0@[(i2x, i1x)],
        1,
    ) by {
        assert(s.l1@[i2x] != p0);
        assert(m3.word_at(s.l1@[i2x], i1x as int) == m2.word_at(s.l1@[i2x], i1x as int));
    }
}

/// How the walk of any page reads after one leaf word is written: the page
/// whose three indices name the written slot sees the new word, every other
/// page walks exactly as before.
proof fn lemma_leaf_write_walk(
    s: PageTable,
    m2: PhysMem,
    m3: PhysMem,
    i2: u64,
    i1: u64,
    i0: u64,
    v: u64,
)
    requires
        s.wf(m2),
        m2.wf(),
        m3.wf(),
        m3.first_ppn == m2.first_ppn,
        m3.pages@.len() == m2.pages@.len(),
        m2.contains_ppn(s.root_ppn),
        s.l0@.dom().contains((i2, i1)),
        forall|p: u64, i: int|
            !(p == s.l0@[(i2, i1)] && i == i0) ==> #[trigger] m3.word_at(p, i) == m2.word_at(p, i),
    ensures
        vpn_idx2(v) != i2 || vpn_idx1(v) != i1 || vpn_idx0(v) != i0 ==> walk_spec(
            m3,
            s.root_ppn,
            v,
        ) == walk_spec(m2, s.root_ppn, v),
        vpn_idx2(v) == i2 && vpn_idx1(v) == i1 && vpn_idx0(v) == i0 ==> walk_spec(
            m3,
            s.root_ppn,
            v,
        ) == Some(m3.word_at(s.l0@[(i2, i1)], i0 as int)),
{
    let root = s.root_ppn;
    let p0 = s.l0@[(i2, i1)];
    assert(s.owns(p0));
    lemma_wf_after_leaf_write(s, m2, m3, i2, i1, i0);
    s.lemma_walk_shape(m2, v);
    s.lemma_walk_shape(m3, v);
    let v2 = vpn_idx2(v);
    let v1 = vpn_idx1(v);
    let v0 = vpn_idx0(v);
    if s.l0@.dom().contains((v2, v1)) {
        let pv = s.l0@[(v2, v1)];
        if v2 == i2 && v1 == i1 {
            assert(pv == p0);
            if v0 != i0 {
                assert(m3.word_at(p0, v0 as int) == m2.word_at(p0, v0 as int));
            }
        } else {
            assert(pv != p0);
            assert(m3.word_at(pv, v0 as int) == m2.word_at(pv, v0 as int));
        }
    } else {
        assert(walk_spec(m2, root, v) is None);
        assert(walk_spec(m3, root, v) is None);
    }
}

/// An SV39 page table: the root frame number, the owned node frames
/// (`frames[0]` is the root), and the ghost shape of the tree.
pub struct PageTable {
    /// Frame number of the root node.
    pub root_ppn: u64,
    /// Handles of every node frame this table has created, root included.
    pub frames: Vec<FrameTracker>,
    /// Which owned frame is the level-1 table under each root index.
    pub l1: Ghost<Map<u64, u64>>,
    /// Which owned frame is the level-0 table under each index pair.
    pub l0: Ghost<Map<(u64, u64), u64>>,
}

impl PageTable {
    /// True iff frame `p` is one of the node frames this table owns.
    pub open spec fn owns(self, p: u64) -> bool {
        exists|i: int| 0 <= i < self.frames@.len() && (#[trigger] self.frames@[i]).ppn.0 == p
    }

    /// The owned node frames, as a set.
    pub open spec fn owned_ppns(self) -> Set<u64> {
        Set::new(|p: u64| self.owns(p))
    }

    /// Whether the walk of `vpn` reaches a valid leaf in this table.
    pub open spec fn mapped(self, mem: PhysMem, vpn: u64) -> bool {
        spec_mapped(mem, self.root_ppn, vpn)
    }

    /// The leaf entry of a mapped page of this table.
    pub open spec fn leaf(self, mem: PhysMem, vpn: u64) -> u64 {
        spec_leaf(mem, self.root_ppn, vpn)
    }

    /// The table's invariant against the memory holding its nodes.
    ///
    /// The node frames are distinct and inside the modelled memory; the
    /// ghost level maps name disjoint owned frames, pairwise distinct and
    /// distinct from the root; and each branch word of the root and of the
    /// level-1 tables is valid exactly where the ghost maps say a child
    /// exists, pointing at that child with the bare V flag.
    pub open spec fn wf(self, mem: PhysMem) -> bool {
        &&& self.frames@.len() >= 1
        &&& self.frames@[0].ppn.0 == self.root_ppn
        &&& forall|i: int, j: int|
            0 <= i < j < self.frames@.len() ==> (#[trigger] self.frames@[i]).ppn.0 != (
            #[trigger] self.frames@[j]).ppn.0
        &&& forall|i: int|
            0 <= i < self.frames@.len() ==> mem.contains_ppn((#[trigger] self.frames@[i]).ppn.0)
        &&& forall|i2: u64|
            #[trigger] self.l1@.dom().contains(i2) ==> i2 < 512 && self.owns(self.l1@[i2])
                && self.l1@[i2] != self.root_ppn
        &&& forall|i2: u64, j2: u64|
            self.l1@.dom().contains(i2) && self.l1@.dom().contains(j2) && i2 != j2 ==> #[trigger] self.l1@[i2]
                != #[trigger] self.l1@[j2]
        &&& forall|i2: u64|
            i2 < 512 ==> (pte_valid(#[trigger] mem.word_at(self.root_ppn, i2 as int))
                <==> self.l1@.dom().contains(i2))
        &&& forall|i2: u64|
            #[trigger] self.l1@.dom().contains(i2) ==> mem.word_at(self.root_ppn, i2 as int)
                == pte_pack(self.l1@[i2], 1)
        &&& forall|k: (u64, u64)|
            #[trigger] self.l0@.dom().contains(k) ==> self.l1@.dom().contains(k.0) && k.1 < 512
                && self.owns(self.l0@[k]) && self.l0@[k] != self.root_ppn
        &&& forall|k: (u64, u64), k2: (u64, u64)|
            self.l0@.dom().contains(k) && self.l0@.dom().contains(k2) && k != k2 ==> #[trigger] self.l0@[k]
                != #[trigger] self.l0@[k2]
        &&& forall|k: (u64, u64), i2: u64|
            self.l0@.dom().contains(k) && self.l1@.dom().contains(i2) ==> #[trigger] self.l0@[k]
                != #[trigger] self.l1@[i2]
        &&& forall|i2: u64, i1: u64|
            self.l1@.dom().contains(i2) && i1 < 512 ==> (pte_valid(
                #[trigger] mem.word_at(self.l1@[i2], i1 as int),
            ) <==> self.l0@.dom().contains((i2, i1)))
        &&& forall|i2: u64, i1: u64|
            #[trigger] self.l0@.dom().contains((i2, i1)) ==> mem.word_at(
                self.l1@[i2],
                i1 as int,
            ) == pte_pack(self.l0@[(i2, i1)], 1)
    }

    /// Build a table around a freshly allocated, zeroed root frame. No page
    /// is mapped in the new table.
    pub fn new(mem: &mut PhysMem, alloc: &mut StackFrameAllocator) -> (r: PageTable)
        requires
            old(mem).wf(),
            old(alloc).wf(),
            old(alloc).free_count() >= 1,
            old(mem).first_ppn <= old(alloc).start@,
            old(alloc).end <= old(mem).first_ppn + old(mem).pages@.len(),
        ensures
            final(mem).wf(),
            final(alloc).wf(),
            final(mem).first_ppn == old(mem).first_ppn,
            final(mem).pages@.len() == old(mem).pages@.len(),
            final(alloc).end == old(alloc).end,
            final(alloc).start@ == old(alloc).start@,
            final(alloc).free_count() == old(alloc).free_count() - 1,
            r.wf(*final(mem)),
            !old(alloc).live@.contains(r.root_ppn),
            final(alloc).live@ == old(alloc).live@.insert(r.root_ppn),
            forall|p: u64| r.owns(p) <==> p == r.root_ppn,
            final(mem).contains_ppn(r.root_ppn),
            forall|i: int| #[trigger] final(mem).word_at(r.root_ppn, i) == 0,
            forall|v: u64| !r.mapped(*final(mem), v),
            forall|p: u64, i: int|
                p != r.root_ppn ==> #[trigger] final(mem).word_at(p, i) == old(mem).word_at(p, i),
    {
        let ft = frame_alloc(alloc, mem).unwrap();
        let root_ppn = ft.ppn.0;
        let mut frames: Vec<FrameTracker> = Vec::new();
        frames.push(ft);
        let r = PageTable { root_ppn, frames, l1: Ghost(Map::empty()), l0: Ghost(Map::empty()) };
        proof {
            assert(!pte_valid(0)) by (bit_vector);
            assert(r.frames@[0].ppn.0 == root_ppn);
            assert forall|v: u64| !r.mapped(*mem, v) by {
                assert(mem.word_at(root_ppn, vpn_idx2(v) as int) == 0);
            }
            assert forall|i2: u64| i2 < 512 implies !pte_valid(
                #[trigger] mem.word_at(r.root_ppn, i2 as int),
            ) by {
                assert(mem.word_at(root_ppn, i2 as int) == 0);
            }
        }
        r
    }

    /// A non-owning view of the table rooted where `satp` points; used only
    /// to read another address space. It owns no frame and must never map
    /// or unmap.
    pub fn from_token(satp: u64) -> (r: PageTable)
        ensures
            r.root_ppn == satp_root(satp),
            r.frames@.len() == 0,
    {
        PageTable {
            root_ppn: satp & 0xfff_ffff_ffff,
            frames: Vec::new(),
            l1: Ghost(Map::empty()),
            l0: Ghost(Map::empty()),
        }
    }

    /// The `satp` value that selects this table under SV39.
    pub fn token(&self, mem: &PhysMem) -> (r: u64)
        requires
            mem.contains_ppn(self.root_ppn),
            mem.wf(),
        ensures
            r == satp_token(self.root_ppn),
            satp_root(r) == self.root_ppn,
    {
        proof {
            lemma_satp_roundtrip(self.root_ppn);
        }
        (8u64 << 60) | self.root_ppn
    }

    /// The walk of any page, characterized by the ghost shape: it dies at
    /// the level whose ghost map lacks the page's index, and otherwise
    /// reads the leaf word out of the level-0 table the shape names.
    pub proof fn lemma_walk_shape(self, mem: PhysMem, v: u64)
        requires
            self.wf(mem),
            mem.wf(),
            mem.contains_ppn(self.root_ppn),
        ensures
            !self.l1@.dom().contains(vpn_idx2(v)) ==> walk_spec(mem, self.root_ppn, v) is None,
            self.l1@.dom().contains(vpn_idx2(v)) && !self.l0@.dom().contains(
                (vpn_idx2(v), vpn_idx1(v)),
            ) ==> walk_spec(mem, self.root_ppn, v) is None,
            self.l0@.dom().contains((vpn_idx2(v), vpn_idx1(v))) ==> walk_spec(
                mem,
                self.root_ppn,
                v,
            ) == Some(
                mem.word_at(self.l0@[(vpn_idx2(v), vpn_idx1(v))], vpn_idx0(v) as int),
            ),
    {
        let i2 = vpn_idx2(v);
        let i1 = vpn_idx1(v);
        assert(1u8 & 1 == 1) by (bit_vector);
        if self.l1@.dom().contains(i2) {
            let p1 = self.l1@[i2];
            assert(mem.word_at(self.root_ppn, i2 as int) == pte_pack(p1, 1));
            assert(self.owns(p1));
            let i = choose|i: int| 0 <= i < self.frames@.len() && self.frames@[i].ppn.0 == p1;
            assert(mem.contains_ppn(self.frames@[i].ppn.0));
            lemma_pte_pack(p1, 1);
            if self.l0@.dom().contains((i2, i1)) {
                let p0 = self.l0@[(i2, i1)];
                assert(mem.word_at(p1, i1 as int) == pte_pack(p0, 1));
                assert(self.owns(p0));
                let j = choose|j: int| 0 <= j < self.frames@.len() && self.frames@[j].ppn.0 == p0;
                assert(mem.contains_ppn(self.frames@[j].ppn.0));
                lemma_pte_pack(p0, 1);
            } else {
                assert(!pte_valid(mem.word_at(p1, i1 as int)));
            }
        } else {
            assert(!pte_valid(mem.word_at(self.root_ppn, i2 as int)));
        }
    }

    /// Make sure a level-1 table exists under root index `i2`, allocating
    /// and installing a zeroed frame when the branch is still invalid.
    /// No page becomes mapped or unmapped by this.
    fn ensure_l1(&mut self, mem: &mut PhysMem, alloc: &mut StackFrameAllocator, i2: usize) -> (p1:
        u64)
        requires
            old(self).wf(*old(mem)),
            old(mem).wf(),
            old(alloc).wf(),
            i2 < 512,
            old(alloc).free_count() >= 1,
            forall|p: u64| old(self).owns(p) ==> old(alloc).live@.contains(p),
            old(mem).first_ppn <= old(alloc).start@,
            old(alloc).end <= old(mem).first_ppn + old(mem).pages@.len(),
            old(mem).contains_ppn(old(self).root_ppn),
        ensures
            final(self).wf(*final(mem)),
            final(mem).wf(),
            final(alloc).wf(),
            final(self).root_ppn == old(self).root_ppn,
            final(mem).first_ppn == old(mem).first_ppn,
            final(mem).pages@.len() == old(mem).pages@.len(),
            final(alloc).end == old(alloc).end,
            final(alloc).start@ == old(alloc).start@,
            final(alloc).free_count() >= old(alloc).free_count() - 1,
            final(self).l1@.dom().contains(i2 as u64),
            final(self).l1@[i2 as u64] == p1,
            forall|j: u64|
                j != i2 ==> ((#[trigger] final(self).l1@.dom().contains(j) <==> old(
                    self,
                ).l1@.dom().contains(j)) && (old(self).l1@.dom().contains(j) ==> final(self).l1@[j]
                    == old(self).l1@[j])),
            final(self).l0@ == old(self).l0@,
            forall|p: u64| old(self).owns(p) ==> final(self).owns(p),
            forall|p: u64| #[trigger]
                final(self).owns(p) ==> old(self).owns(p) || !old(alloc).live@.contains(p),
            forall|p: u64| #[trigger] final(self).owns(p) ==> final(alloc).live@.contains(p),
            forall|p: u64|
                old(alloc).live@.contains(p) ==> #[trigger] final(alloc).live@.contains(p),
            forall|p: u64| #[trigger]
                final(alloc).live@.contains(p) ==> old(alloc).live@.contains(p)
                    || final(self).owns(p),
            forall|p: u64, i: int|
                !final(self).owns(p) ==> #[trigger] final(mem).word_at(p, i) == old(mem).word_at(
                    p,
                    i,
                ),
            forall|v: u64|
                #[trigger] spec_mapped(*final(mem), final(self).root_ppn, v) == spec_mapped(
                    *old(mem),
                    old(self).root_ppn,
                    v,
                ),
            forall|v: u64|
                #[trigger] spec_leaf(*final(mem), final(self).root_ppn, v) == spec_leaf(
                    *old(mem),
                    old(self).root_ppn,
                    v,
                ),
    {
        let root = self.root_ppn;
        let e2 = PageTableEntry { bits: mem.read_word(root, i2) };
        if e2.is_valid() {
            proof {
                assert(self.l1@.dom().contains(i2 as u64));
                let p1g = self.l1@[i2 as u64];
                assert(e2.bits == pte_pack(p1g, 1));
                assert(self.owns(p1g));
                let i = choose|i: int| 0 <= i < self.frames@.len() && self.frames@[i].ppn.0 == p1g;
                assert(mem.contains_ppn(self.frames@[i].ppn.0));
                lemma_pte_pack(p1g, 1);
            }
            e2.ppn().0
        } else {
            proof {
                assert(!self.l1@.dom().contains(i2 as u64));
            }
            let ft = frame_alloc(alloc, mem).unwrap();
            let p1 = ft.ppn.0;
            proof {
                assert forall|p: u64| old(self).owns(p) implies p != p1 by {
                    assert(old(alloc).live@.contains(p));
                }
                assert(old(self).owns(old(self).root_ppn));
            }
            let pte = PageTableEntry::new(ft.ppn, PTE_V);
            mem.write_word(root, i2, pte.bits);
            self.frames.push(ft);
            self.l1 = Ghost(self.l1@.insert(i2 as u64, p1));
            proof {
                let m0 = *old(mem);
                let m2 = *mem;
                let s0 = *old(self);
                let s2 = *self;
                assert(1u8 & 1 == 1) by (bit_vector);
                // Where memory changed: all of frame p1 (now zero) and the
                // one branch word of the root.
                assert(m2.word_at(root, i2 as int) == pte_pack(p1, 1));
                assert forall|p: u64, i: int|
                    p != p1 && !(p == root && i == i2) implies #[trigger] m2.word_at(p, i)
                    == m0.word_at(p, i) by {}
                assert forall|i: int| #[trigger] m2.word_at(p1, i) == 0 by {}
                // The new frame list: the old frames plus the new node.
                assert(s2.frames@ == s0.frames@.push(ft));
                assert(s2.frames@[0].ppn.0 == root);
                assert forall|p: u64| s0.owns(p) implies s2.owns(p) by {
                    let i = choose|i: int|
                        0 <= i < s0.frames@.len() && s0.frames@[i].ppn.0 == p;
                    assert(s2.frames@[i].ppn.0 == p);
                }
                assert(s2.frames@[s2.frames@.len() - 1].ppn.0 == p1);
                assert(s2.owns(p1));
                assert forall|p: u64| #[trigger] s2.owns(p) implies s0.owns(p) || p == p1 by {
                    let i = choose|i: int|
                        0 <= i < s2.frames@.len() && s2.frames@[i].ppn.0 == p;
                    if i < s0.frames@.len() {
                        assert(s0.frames@[i].ppn.0 == p);
                    }
                }
                // The invariant of the grown table.
                assert(s2.wf(m2)) by {
                    assert forall|i: int| 0 <= i < s0.frames@.len() implies s0.frames@[i].ppn.0
                        != p1 by {
                        assert(s0.owns(s0.frames@[i].ppn.0));
                    }
                    assert forall|i: int, j: int|
                        0 <= i < j < s2.frames@.len() implies s2.frames@[i].ppn.0
                        != s2.frames@[j].ppn.0 by {
                        if j == s2.frames@.len() - 1 {
                            assert(s2.frames@[i].ppn.0 == s0.frames@[i].ppn.0);
                        }
                    }
                    assert forall|i2x: u64| #[trigger]
                        s2.l1@.dom().contains(i2x) implies i2x < 512 && s2.owns(s2.l1@[i2x])
                        && s2.l1@[i2x] != root by {
                        if i2x != i2 as u64 {
                            assert(s0.owns(s0.l1@[i2x]));
                        }
                    }
                    assert forall|i2x: u64, j2x: u64|
                        s2.l1@.dom().contains(i2x) && s2.l1@.dom().contains(j2x) && i2x
                            != j2x implies #[trigger] s2.l1@[i2x] != #[trigger] s2.l1@[j2x] by {
                        if i2x == i2 as u64 {
                            assert(s0.owns(s0.l1@[j2x]));
                        } else if j2x == i2 as u64 {
                            assert(s0.owns(s0.l1@[i2x]));
                        }
                    }
                    assert forall|k: (u64, u64)| #[trigger]
                        s2.l0@.dom().contains(k) implies s2.l1@.dom().contains(k.0) && k.1 < 512
                        && s2.owns(s2.l0@[k]) && s2.l0@[k] != root by {
                        assert(s0.owns(s0.l0@[k]));
                    }
                    assert forall|k: (u64, u64), i2x: u64|
                        s2.l0@.dom().contains(k) && s2.l1@.dom().contains(i2x) implies #[trigger] s2.l0@[k]
                        != #[trigger] s2.l1@[i2x] by {
                        if i2x == i2 as u64 {
                            assert(s0.owns(s0.l0@[k]));
                        }
                    }
                    assert forall|i2x: u64| i2x < 512 implies (pte_valid(
                        #[trigger] m2.word_at(root, i2x as int),
                    ) <==> s2.l1@.dom().contains(i2x)) by {
                        if i2x == i2 as u64 {
                            lemma_pte_pack(p1, 1);
                        } else {
                            assert(m2.word_at(root, i2x as int) == m0.word_at(root, i2x as int));
                        }
                    }
                    assert forall|i2x: u64| #[trigger]
                        s2.l1@.dom().contains(i2x) implies m2.word_at(root, i2x as int)
                        == pte_pack(s2.l1@[i2x], 1) by {
                        if i2x != i2 as u64 {
                            assert(s0.l1@[i2x] != p1 && s0.l1@[i2x] != root);
                        }
                    }
                    assert forall|i2x: u64, i1x: u64|
                        s2.l1@.dom().contains(i2x) && i1x < 512 implies (pte_valid(
                        #[trigger] m2.word_at(s2.l1@[i2x], i1x as int),
                    ) <==> s2.l0@.dom().contains((i2x, i1x))) by {
                        if i2x == i2 as u64 {
                            assert(m2.word_at(p1, i1x as int) == 0);
                            assert(!pte_valid(0)) by (bit_vector);
                            if s2.l0@.dom().contains((i2x, i1x)) {
                                assert(s0.l1@.dom().contains(i2x));
                            }
                        } else {
                            let t = s0.l1@[i2x];
                            assert(t != p1 && t != root);
                            assert(m2.word_at(t, i1x as int) == m0.word_at(t, i1x as int));
                        }
                    }
                    assert forall|k: (u64, u64)| #[trigger]
                        s2.l0@.dom().contains(k) implies m2.word_at(s2.l1@[k.0], k.1 as int)
                        == pte_pack(s2.l0@[k], 1) by {
                        assert(s0.l1@.dom().contains(k.0));
                        assert(k.0 != i2 as u64);
                        let t = s0.l1@[k.0];
                        assert(t != p1 && t != root);
                        assert(m2.word_at(t, k.1 as int) == m0.word_at(t, k.1 as int));
                    }
                }
                // No page became mapped or unmapped, and no leaf changed.
                assert forall|v: u64| #[trigger]
                    spec_mapped(m2, root, v) == spec_mapped(m0, root, v) by {
                    lemma_l1_grow_walk(s0, m0, s2, m2, i2 as u64, p1, v);
                }
                assert forall|v: u64| #[trigger] spec_leaf(m2, root, v) == spec_leaf(
                    m0,
                    root,
                    v,
                ) by {
                    lemma_l1_grow_walk(s0, m0, s2, m2, i2 as u64, p1, v);
                }
            }
            p1
        }
    }

    /// Make sure a level-0 table exists under the index pair `(i2, i1)`,
    /// allocating and installing a zeroed frame when the level-1 branch is
    /// still invalid. No page becomes mapped or unmapped by this.
    fn ensure_l0(&mut self, mem: &mut PhysMem, alloc: &mut StackFrameAllocator, i2: usize, i1: usize) -> (p0:
        u64)
        requires
            old(self).wf(*old(mem)),
            old(mem).wf(),
            old(alloc).wf(),
            i2 < 512,
            i1 < 512,
            old(self).l1@.dom().contains(i2 as u64),
            old(alloc).free_count() >= 1,
            forall|p: u64| old(self).owns(p) ==> old(alloc).live@.contains(p),
            old(mem).first_ppn <= old(alloc).start@,
            old(alloc).end <= old(mem).first_ppn + old(mem).pages@.len(),
            old(mem).contains_ppn(old(self).root_ppn),
        ensures
            final(self).wf(*final(mem)),
            final(mem).wf(),
            final(alloc).wf(),
            final(self).root_ppn == old(self).root_ppn,
            final(mem).first_ppn == old(mem).first_ppn,
            final(mem).pages@.len() == old(mem).pages@.len(),
            final(alloc).end == old(alloc).end,
            final(alloc).start@ == old(alloc).start@,
            final(alloc).free_count() >= old(alloc).free_count() - 1,
            final(self).l1@ == old(self).l1@,
            final(self).l0@.dom().contains((i2 as u64, i1 as u64)),
            final(self).l0@[(i2 as u64, i1 as u64)] == p0,
            forall|p: u64| old(self).owns(p) ==> final(self).owns(p),
            forall|p: u64| #[trigger]
                final(self).owns(p) ==> old(self).owns(p) || !old(alloc).live@.contains(p),
            forall|p: u64| #[trigger] final(self).owns(p) ==> final(alloc).live@.contains(p),
            forall|p: u64|
                old(alloc).live@.contains(p) ==> #[trigger] final(alloc).live@.contains(p),
            forall|p: u64| #[trigger]
                final(alloc).live@.contains(p) ==> old(alloc).live@.contains(p)
                    || final(self).owns(p),
            forall|p: u64, i: int|
                !final(self).owns(p) ==> #[trigger] final(mem).word_at(p, i) == old(mem).word_at(
                    p,
                    i,
                ),
            forall|v: u64|
                #[trigger] spec_mapped(*final(mem), final(self).root_ppn, v) == spec_mapped(
                    *old(mem),
                    old(self).root_ppn,
                    v,
                ),
            forall|v: u64|
                #[trigger] spec_leaf(*final(mem), final(self).root_ppn, v) == spec_leaf(
                    *old(mem),
                    old(self).root_ppn,
                    v,
                ),
    {
        let root = self.root_ppn;
        let ghost i2g = i2 as u64;
        let ghost i1g = i1 as u64;
        let e2 = PageTableEntry { bits: mem.read_word(root, i2) };
        proof {
            assert(e2.bits == pte_pack(old(self).l1@[i2g], 1));
            assert(self.owns(self.l1@[i2g]));
            let i = choose|i: int|
                0 <= i < self.frames@.len() && self.frames@[i].ppn.0 == self.l1@[i2g];
            assert(mem.contains_ppn(self.frames@[i].ppn.0));
            lemma_pte_pack(old(self).l1@[i2g], 1);
        }
        let t1 = e2.ppn().0;
        let e1 = PageTableEntry { bits: mem.read_word(t1, i1) };
        if e1.is_valid() {
            proof {
                assert(self.l0@.dom().contains((i2g, i1g)));
                let p0g = self.l0@[(i2g, i1g)];
                assert(e1.bits == pte_pack(p0g, 1));
                assert(self.owns(p0g));
                let j = choose|j: int|
                    0 <= j < self.frames@.len() && self.frames@[j].ppn.0 == p0g;
                assert(mem.contains_ppn(self.frames@[j].ppn.0));
                lemma_pte_pack(p0g, 1);
            }
            e1.ppn().0
        } else {
            proof {
                assert(!self.l0@.dom().contains((i2g, i1g)));
            }
            let ft = frame_alloc(alloc, mem).unwrap();
            let p0 = ft.ppn.0;
            proof {
                assert forall|p: u64| old(self).owns(p) implies p != p0 by {
                    assert(old(alloc).live@.contains(p));
                }
                assert(old(self).owns(old(self).root_ppn));
                assert(old(self).owns(old(self).l1@[i2g]));
            }
            let pte = PageTableEntry::new(ft.ppn, PTE_V);
            mem.write_word(t1, i1, pte.bits);
            self.frames.push(ft);
            self.l0 = Ghost(self.l0@.insert((i2g, i1g), p0));
            proof {
                let m0 = *old(mem);
                let m2 = *mem;
                let s0 = *old(self);
                let s2 = *self;
                assert(1u8 & 1 == 1) by (bit_vector);
                assert(m2.word_at(t1, i1 as int) == pte_pack(p0, 1));
                assert forall|p: u64, i: int|
                    p != p0 && !(p == t1 && i == i1) implies #[trigger] m2.word_at(p, i)
                    == m0.word_at(p, i) by {}
                assert forall|i: int| #[trigger] m2.word_at(p0, i) == 0 by {}
                assert(s2.frames@ == s0.frames@.push(ft));
                assert forall|p: u64| s0.owns(p) implies s2.owns(p) by {
                    let i = choose|i: int|
                        0 <= i < s0.frames@.len() && s0.frames@[i].ppn.0 == p;
                    assert(s2.frames@[i].ppn.0 == p);
                }
                assert(s2.frames@[s2.frames@.len() - 1].ppn.0 == p0);
                assert(s2.owns(p0));
                assert forall|p: u64| #[trigger] s2.owns(p) implies s0.owns(p) || p == p0 by {
                    let i = choose|i: int|
                        0 <= i < s2.frames@.len() && s2.frames@[i].ppn.0 == p;
                    if i < s0.frames@.len() {
                        assert(s0.frames@[i].ppn.0 == p);
                    }
                }
                assert(s2.wf(m2)) by {
                    assert forall|i: int| 0 <= i < s0.frames@.len() implies s0.frames@[i].ppn.0
                        != p0 by {
                        assert(s0.owns(s0.frames@[i].ppn.0));
                    }
                    assert forall|i: int, j: int|
                        0 <= i < j < s2.frames@.len() implies s2.frames@[i].ppn.0
                        != s2.frames@[j].ppn.0 by {
                        if j == s2.frames@.len() - 1 {
                            assert(s2.frames@[i].ppn.0 == s0.frames@[i].ppn.0);
                        }
                    }
                    assert forall|i2x: u64| #[trigger]
                        s2.l1@.dom().contains(i2x) implies i2x < 512 && s2.owns(s2.l1@[i2x])
                        && s2.l1@[i2x] != root by {
                        assert(s0.owns(s0.l1@[i2x]));
                    }
                    assert forall|k: (u64, u64)| #[trigger]
                        s2.l0@.dom().contains(k) implies s2.l1@.dom().contains(k.0) && k.1 < 512
                        && s2.owns(s2.l0@[k]) && s2.l0@[k] != root by {
                        if k != (i2g, i1g) {
                            assert(s0.owns(s0.l0@[k]));
                        }
                    }
                    assert forall|k: (u64, u64), k2: (u64, u64)|
                        s2.l0@.dom().contains(k) && s2.l0@.dom().contains(k2) && k
                            != k2 implies #[trigger] s2.l0@[k] != #[trigger] s2.l0@[k2] by {
                        if k == (i2g, i1g) {
                            assert(s0.owns(s0.l0@[k2]));
                        } else if k2 == (i2g, i1g) {
                            assert(s0.owns(s0.l0@[k]));
                        }
                    }
                    assert forall|k: (u64, u64), i2x: u64|
                        s2.l0@.dom().contains(k) && s2.l1@.dom().contains(i2x) implies #[trigger] s2.l0@[k]
                        != #[trigger] s2.l1@[i2x] by {
                        if k == (i2g, i1g) {
                            assert(s0.owns(s0.l1@[i2x]));
                        } else {
                            assert(s0.owns(s0.l0@[k]));
                        }
                    }
                    assert forall|i2x: u64| i2x < 512 implies (pte_valid(
                        #[trigger] m2.word_at(root, i2x as int),
                    ) <==> s2.l1@.dom().contains(i2x)) by {
                        assert(root != p0 && root != t1);
                        assert(m2.word_at(root, i2x as int) == m0.word_at(root, i2x as int));
                    }
                    assert forall|i2x: u64| #[trigger]
                        s2.l1@.dom().contains(i2x) implies m2.word_at(root, i2x as int)
                        == pte_pack(s2.l1@[i2x], 1) by {
                        assert(root != p0 && root != t1);
                        assert(m2.word_at(root, i2x as int) == m0.word_at(root, i2x as int));
                    }
                    assert forall|i2x: u64, i1x: u64|
                        s2.l1@.dom().contains(i2x) && i1x < 512 implies (pte_valid(
                        #[trigger] m2.word_at(s2.l1@[i2x], i1x as int),
                    ) <==> s2.l0@.dom().contains((i2x, i1x))) by {
                        let tx = s0.l1@[i2x];
                        assert(tx != p0);
                        if tx == t1 {
                            assert(i2x == i2g);
                            if i1x == i1g {
                                lemma_pte_pack(p0, 1);
                            } else {
                                assert(m2.word_at(tx, i1x as int) == m0.word_at(tx, i1x as int));
                                if s2.l0@.dom().contains((i2x, i1x)) {
                                    assert(s0.l0@.dom().contains((i2x, i1x)));
                                }
                            }
                        } else {
                            assert(m2.word_at(tx, i1x as int) == m0.word_at(tx, i1x as int));
                            if s2.l0@.dom().contains((i2x, i1x)) {
                                assert(s0.l0@.dom().contains((i2x, i1x)));
                            }
                        }
                    }
                    assert forall|i2x: u64, i1x: u64| #[trigger]
                        s2.l0@.dom().contains((i2x, i1x)) implies m2.word_at(
                        s2.l1@[i2x],
                        i1x as int,
                    ) == pte_pack(s2.l0@[(i2x, i1x)], 1) by {
                        let tx = s0.l1@[i2x];
                        assert(tx != p0);
                        if i2x == i2g && i1x == i1g {
                        } else {
                            if tx == t1 {
                                assert(i2x == i2g && i1x != i1g);
                                assert(m2.word_at(tx, i1x as int) == m0.word_at(tx, i1x as int));
                            } else {
                                assert(m2.word_at(tx, i1x as int) == m0.word_at(tx, i1x as int));
                            }
                        }
                    }
                }
                assert forall|v: u64| #[trigger]
                    spec_mapped(m2, root, v) == spec_mapped(m0, root, v) by {
                    lemma_l0_grow_walk(s0, m0, s2, m2, i2g, i1g, p0, v);
                }
                assert forall|v: u64| #[trigger] spec_leaf(m2, root, v) == spec_leaf(
                    m0,
                    root,
                    v,
                ) by {
                    lemma_l0_grow_walk(s0, m0, s2, m2, i2g, i1g, p0, v);
                }
            }
            p0
        }
    }

    /// Install the mapping `vpn -> ppn` with `flags | V` in the leaf entry,
    /// creating the missing interior tables on the way down. The page must
    /// not be mapped yet, and up to two frames may be consumed for new
    /// tables. Every other page keeps its mapped-or-not state and its leaf.
    pub fn map(
        &mut self,
        mem: &mut PhysMem,
        alloc: &mut StackFrameAllocator,
        vpn: VirtPageNum,
        ppn: PhysPageNum,
        flags: u8,
    )
        requires
            old(self).wf(*old(mem)),
            old(mem).wf(),
            old(alloc).wf(),
            vpn.0 < VPN_BOUND,
            ppn.0 < PPN_BOUND,
            !old(self).mapped(*old(mem), vpn.0),
            old(alloc).free_count() >= 2,
            forall|p: u64| old(self).owns(p) ==> old(alloc).live@.contains(p),
            old(mem).first_ppn <= old(alloc).start@,
            old(alloc).end <= old(mem).first_ppn + old(mem).pages@.len(),
        ensures
            final(self).wf(*final(mem)),
            final(mem).wf(),
            final(alloc).wf(),
            final(self).root_ppn == old(self).root_ppn,
            final(mem).first_ppn == old(mem).first_ppn,
            final(mem).pages@.len() == old(mem).pages@.len(),
            final(alloc).end == old(alloc).end,
            final(alloc).start@ == old(alloc).start@,
            final(alloc).free_count() >= old(alloc).free_count() - 2,
            final(self).mapped(*final(mem), vpn.0),
            final(self).leaf(*final(mem), vpn.0) == pte_pack(ppn.0, flags | 1),
            forall|v: u64|
                v != vpn.0 && v < VPN_BOUND ==> #[trigger] spec_mapped(
                    *final(mem),
                    final(self).root_ppn,
                    v,
                ) == spec_mapped(*old(mem), old(self).root_ppn, v),
            forall|v: u64|
                v != vpn.0 && v < VPN_BOUND ==> #[trigger] spec_leaf(
                    *final(mem),
                    final(self).root_ppn,
                    v,
                ) == spec_leaf(*old(mem), old(self).root_ppn, v),
            forall|p: u64| old(self).owns(p) ==> final(self).owns(p),
            forall|p: u64| #[trigger]
                final(self).owns(p) ==> old(self).owns(p) || !old(alloc).live@.contains(p),
            forall|p: u64| #[trigger] final(self).owns(p) ==> final(alloc).live@.contains(p),
            forall|p: u64|
                old(alloc).live@.contains(p) ==> #[trigger] final(alloc).live@.contains(p),
            forall|p: u64| #[trigger]
                final(alloc).live@.contains(p) ==> old(alloc).live@.contains(p)
                    || final(self).owns(p),
            forall|p: u64, i: int|
                !final(self).owns(p) ==> #[trigger] final(mem).word_at(p, i) == old(mem).word_at(
                    p,
                    i,
                ),
    {
        proof {
            assert(old(self).owns(old(self).root_ppn));
            let i = choose|i: int|
                0 <= i < old(self).frames@.len() && old(self).frames@[i].ppn.0 == old(
                    self,
                ).root_ppn;
            assert(old(mem).contains_ppn(old(self).frames@[i].ppn.0));
        }
        let idx = vpn.indexes();
        self.ensure_l1(mem, alloc, idx[0]);
        let ghost s1 = *self;
        let ghost m1 = *mem;
        let p0 = self.ensure_l0(mem, alloc, idx[0], idx[1]);
        let ghost s2 = *self;
        let ghost m2 = *mem;
        let pte = PageTableEntry::new(ppn, flags | PTE_V);
        proof {
            assert(self.owns(p0));
            let j = choose|j: int| 0 <= j < self.frames@.len() && self.frames@[j].ppn.0 == p0;
            assert(mem.contains_ppn(self.frames@[j].ppn.0));
            let f = flags;
            assert((f | 1) & 1 == 1) by (bit_vector);
        }
        mem.write_word(p0, idx[2], pte.bits);
        proof {
            let root = self.root_ppn;
            let m3 = *mem;
            let i2g = vpn_idx2(vpn.0);
            let i1g = vpn_idx1(vpn.0);
            let i0g = vpn_idx0(vpn.0);
            lemma_wf_after_leaf_write(s2, m2, m3, i2g, i1g, i0g);
            assert forall|v: u64|
                v != vpn.0 && v < VPN_BOUND implies #[trigger] spec_mapped(m3, root, v)
                == spec_mapped(*old(mem), root, v) by {
                lemma_leaf_write_walk(s2, m2, m3, i2g, i1g, i0g, v);
                if vpn_idx2(v) == i2g && vpn_idx1(v) == i1g && vpn_idx0(v) == i0g {
                    crate::address::lemma_vpn_indices_injective(v, vpn.0);
                }
                assert(spec_mapped(m3, root, v) == spec_mapped(m2, root, v));
                assert(spec_mapped(m2, root, v) == spec_mapped(m1, root, v));
                assert(spec_mapped(m1, root, v) == spec_mapped(*old(mem), root, v));
            }
            assert forall|v: u64|
                v != vpn.0 && v < VPN_BOUND implies #[trigger] spec_leaf(m3, root, v)
                == spec_leaf(*old(mem), root, v) by {
                lemma_leaf_write_walk(s2, m2, m3, i2g, i1g, i0g, v);
                if vpn_idx2(v) == i2g && vpn_idx1(v) == i1g && vpn_idx0(v) == i0g {
                    crate::address::lemma_vpn_indices_injective(v, vpn.0);
                }
                assert(spec_leaf(m3, root, v) == spec_leaf(m2, root, v));
                assert(spec_leaf(m2, root, v) == spec_leaf(m1, root, v));
                assert(spec_leaf(m1, root, v) == spec_leaf(*old(mem), root, v));
            }
            assert(walk_spec(m3, root, vpn.0) == Some(m3.word_at(p0, i0g as int))) by {
                lemma_leaf_write_walk(s2, m2, m3, i2g, i1g, i0g, vpn.0);
            }
            assert(m3.word_at(p0, i0g as int) == pte.bits);
        }
    }

    /// Remove the mapping of `vpn`, which must be mapped, by zeroing its
    /// leaf entry. Every other page keeps its mapped-or-not state and its
    /// leaf, and no frame changes hands.
    pub fn unmap(&mut self, mem: &mut PhysMem, vpn: VirtPageNum)
        requires
            old(self).wf(*old(mem)),
            old(mem).wf(),
            vpn.0 < VPN_BOUND,
            old(self).mapped(*old(mem), vpn.0),
        ensures
            final(self).wf(*final(mem)),
            final(mem).wf(),
            final(self).root_ppn == old(self).root_ppn,
            final(mem).first_ppn == old(mem).first_ppn,
            final(mem).pages@.len() == old(mem).pages@.len(),
            *final(self) == *old(self),
            !final(self).mapped(*final(mem), vpn.0),
            forall|v: u64|
                v != vpn.0 && v < VPN_BOUND ==> #[trigger] spec_mapped(
                    *final(mem),
                    final(self).root_ppn,
                    v,
                ) == spec_mapped(*old(mem), old(self).root_ppn, v),
            forall|v: u64|
                v != vpn.0 && v < VPN_BOUND ==> #[trigger] spec_leaf(
                    *final(mem),
                    final(self).root_ppn,
                    v,
                ) == spec_leaf(*old(mem), old(self).root_ppn, v),
            forall|p: u64, i: int|
                !final(self).owns(p) ==> #[trigger] final(mem).word_at(p, i) == old(mem).word_at(
                    p,
                    i,
                ),
    {
        let root = self.root_ppn;
        let ghost i2g = vpn_idx2(vpn.0);
        let ghost i1g = vpn_idx1(vpn.0);
        let ghost i0g = vpn_idx0(vpn.0);
        proof {
            assert(old(self).owns(old(self).root_ppn));
            let i = choose|i: int|
                0 <= i < old(self).frames@.len() && old(self).frames@[i].ppn.0 == old(
                    self,
                ).root_ppn;
            assert(old(mem).contains_ppn(old(self).frames@[i].ppn.0));
            self.lemma_walk_shape(*mem, vpn.0);
            assert(self.l0@.dom().contains((i2g, i1g)));
            assert(self.l1@.dom().contains(i2g));
            assert(self.owns(self.l1@[i2g]));
            let j = choose|j: int|
                0 <= j < self.frames@.len() && self.frames@[j].ppn.0 == self.l1@[i2g];
            assert(mem.contains_ppn(self.frames@[j].ppn.0));
            assert(self.owns(self.l0@[(i2g, i1g)]));
            let k = choose|k: int|
                0 <= k < self.frames@.len() && self.frames@[k].ppn.0 == self.l0@[(i2g, i1g)];
            assert(mem.contains_ppn(self.frames@[k].ppn.0));
            lemma_pte_pack(self.l1@[i2g], 1);
            lemma_pte_pack(self.l0@[(i2g, i1g)], 1);
        }
        let idx = vpn.indexes();
        let e2 = PageTableEntry { bits: mem.read_word(root, idx[0]) };
        let t1 = e2.ppn().0;
        let e1 = PageTableEntry { bits: mem.read_word(t1, idx[1]) };
        let p0 = e1.ppn().0;
        mem.write_word(p0, idx[2], 0);
        proof {
            let s0 = *old(self);
            let m0 = *old(mem);
            let m3 = *mem;
            assert(!pte_valid(0)) by (bit_vector);
            lemma_wf_after_leaf_write(s0, m0, m3, i2g, i1g, i0g);
            assert forall|v: u64|
                v != vpn.0 && v < VPN_BOUND implies #[trigger] spec_mapped(m3, root, v)
                == spec_mapped(m0, root, v) by {
                lemma_leaf_write_walk(s0, m0, m3, i2g, i1g, i0g, v);
                if vpn_idx2(v) == i2g && vpn_idx1(v) == i1g && vpn_idx0(v) == i0g {
                    crate::address::lemma_vpn_indices_injective(v, vpn.0);
                }
            }
            assert forall|v: u64|
                v != vpn.0 && v < VPN_BOUND implies #[trigger] spec_leaf(m3, root, v)
                == spec_leaf(m0, root, v) by {
                lemma_leaf_write_walk(s0, m0, m3, i2g, i1g, i0g, v);
                if vpn_idx2(v) == i2g && vpn_idx1(v) == i1g && vpn_idx0(v) == i0g {
                    crate::address::lemma_vpn_indices_injective(v, vpn.0);
                }
            }
            assert(walk_spec(m3, root, vpn.0) == Some(m3.word_at(p0, i0g as int))) by {
                lemma_leaf_write_walk(s0, m0, m3, i2g, i1g, i0g, vpn.0);
            }
            assert(m3.word_at(p0, i0g as int) == 0);
        }
    }

    /// Walk `vpn` and return a copy of its leaf entry, or none when the
    /// walk dies on an invalid branch or leaves the modelled memory.
    pub fn translate(&self, mem: &PhysMem, vpn: VirtPageNum) -> (r: Option<PageTableEntry>)
        requires
            mem.wf(),
        ensures
            match walk_spec(*mem, self.root_ppn, vpn.0) {
                Some(e) => r == Some(PageTableEntry { bits: e }),
                None => r is None,
            },
    {
        let idx = vpn.indexes();
        if !mem.contains(self.root_ppn) {
            return None;
        }
        let e2 = PageTableEntry { bits: mem.read_word(self.root_ppn, idx[0]) };
        if !e2.is_valid() {
            return None;
        }
        let p1 = e2.ppn().0;
        if !mem.contains(p1) {
            return None;
        }
        let e1 = PageTableEntry { bits: mem.read_word(p1, idx[1]) };
        if !e1.is_valid() {
            return None;
        }
        let p0 = e1.ppn().0;
        if !mem.contains(p0) {
            return None;
        }
        Some(PageTableEntry { bits: mem.read_word(p0, idx[2]) })
    }
}

/// A page table reads only the words of the frames it owns: two memories
/// that agree there give the same well-formedness, the same walks, and the
/// same leaves.
pub proof fn lemma_pt_agree(s: PageTable, m1: PhysMem, m2: PhysMem)
    requires
        s.wf(m1),
        m1.wf(),
        m2.wf(),
        m2.first_ppn == m1.first_ppn,
        m2.pages@.len() == m1.pages@.len(),
        forall|p: u64, i: int| s.owns(p) ==> #[trigger] m2.word_at(p, i) == m1.word_at(p, i),
    ensures
        s.wf(m2),
        forall|v: u64|
            #[trigger] spec_mapped(m2, s.root_ppn, v) == spec_mapped(m1, s.root_ppn, v),
        forall|v: u64| #[trigger] spec_leaf(m2, s.root_ppn, v) == spec_leaf(m1, s.root_ppn, v),
{
    let root = s.root_ppn;
    assert(s.owns(root));
    assert forall|i2x: u64| i2x < 512 implies (pte_valid(
        #[trigger] m2.word_at(root, i2x as int),
    ) <==> s.l1@.dom().contains(i2x)) by {
        assert(m2.word_at(root, i2x as int) == m1.word_at(root, i2x as int));
    }
    assert forall|i2x: u64| #[trigger] s.l1@.dom().contains(i2x) implies m2.word_at(
        root,
        i2x as int,
    ) == pte_pack(s.l1@[i2x], 1) by {
        assert(m2.word_at(root, i2x as int) == m1.word_at(root, i2x as int));
    }
    assert forall|i2x: u64, i1x: u64| s.l1@.dom().contains(i2x) && i1x < 512 implies (pte_valid(
        #[trigger] m2.word_at(s.l1@[i2x], i1x as int),
    ) <==> s.l0@.dom().contains((i2x, i1x))) by {
        assert(s.owns(s.l1@[i2x]));
        assert(m2.word_at(s.l1@[i2x], i1x as int) == m1.word_at(s.l1@[i2x], i1x as int));
    }
    assert forall|i2x: u64, i1x: u64| #[trigger] s.l0@.dom().contains((i2x, i1x)) implies m2.word_at(
        s.l1@[i2x],
        i1x as int,
    ) == pte_pack(s.l0@[(i2x, i1x)], 1) by {
        assert(s.owns(s.l1@[i2x]));
        assert(m2.word_at(s.l1@[i2x], i1x as int) == m1.word_at(s.l1@[i2x], i1x as int));
    }
    assert forall|i: int| 0 <= i < s.frames@.len() implies m2.contains_ppn(
        (#[trigger] s.frames@[i]).ppn.0,
    ) by {
        assert(m1.contains_ppn(s.frames@[i].ppn.0));
    }
    assert(s.wf(m2));
    assert forall|v: u64|
        #[trigger] spec_mapped(m2, root, v) == spec_mapped(m1, root, v) by {
        s.lemma_walk_shape(m1, v);
        s.lemma_walk_shape(m2, v);
        if s.l0@.dom().contains((vpn_idx2(v), vpn_idx1(v))) {
            let p0 = s.l0@[(vpn_idx2(v), vpn_idx1(v))];
            assert(s.owns(p0));
            assert(m2.word_at(p0, vpn_idx0(v) as int) == m1.word_at(p0, vpn_idx0(v) as int));
        }
    }
    assert forall|v: u64| #[trigger] spec_leaf(m2, root, v) == spec_leaf(m1, root, v) by {
        s.lemma_walk_shape(m1, v);
        s.lemma_walk_shape(m2, v);
        if s.l0@.dom().contains((vpn_idx2(v), vpn_idx1(v))) {
            let p0 = s.l0@[(vpn_idx2(v), vpn_idx1(v))];
            assert(s.owns(p0));
            assert(m2.word_at(p0, vpn_idx0(v) as int) == m1.word_at(p0, vpn_idx0(v) as int));
        }
    }
}

/// The virtual page number of byte address `va`.
pub open spec fn va_vpn(va: int) -> u64 {
    (va / (PAGE_SIZE as int)) as u64
}

/// Byte `va + k` lies on a page whose walk reaches a valid leaf, and the
/// frame that leaf names is part of the modelled memory.
pub open spec fn spec_byte_ok(mem: PhysMem, root: u64, va: u64, k: int) -> bool {
    &&& spec_mapped(mem, root, va_vpn(va + k))
    &&& mem.contains_ppn(pte_ppn_of(spec_leaf(mem, root, va_vpn(va + k))))
}

/// Every byte of `[va, va + len)` lies on a page whose walk reaches a valid
/// leaf, and the frame that leaf names is part of the modelled memory.
pub open spec fn spec_buffer_mapped(mem: PhysMem, root: u64, va: u64, len: u64) -> bool {
    forall|k: int| 0 <= k < len ==> #[trigger] spec_byte_ok(mem, root, va, k)
}

/// The concatenation of a sequence of byte runs, in order.
pub open spec fn flat_bytes(chunks: Seq<Vec<u8>>) -> Seq<u8> {
    chunks.map_values(|c: Vec<u8>| c@).flatten()
}

/// Appending one run to a sequence of runs appends its bytes to the
/// concatenation.
pub proof fn lemma_flat_bytes_push(s: Seq<Vec<u8>>, c: Vec<u8>)
    ensures
        flat_bytes(s.push(c)) =~= flat_bytes(s) + c@,
{
    broadcast use vstd::prelude::Seq::lemma_flatten_push;

    let f = |x: Vec<u8>| x@;
    assert(s.push(c).map_values(f) =~= s.map_values(f).push(c@));
}

/// The bytes of the user range `[va, va + len)`, read through the page
/// table rooted at `root`: byte `k` comes from the frame its page maps to,
/// at the byte's offset within the page.
pub open spec fn spec_user_bytes(mem: PhysMem, root: u64, va: u64, len: u64) -> Seq<u8> {
    Seq::new(
        len as nat,
        |k: int|
            mem.byte_at(
                pte_ppn_of(spec_leaf(mem, root, va_vpn(va + k))),
                (va + k) % (PAGE_SIZE as int),
            ),
    )
}

/// First byte address of run `c` of a translated buffer starting at `ptr`:
/// the buffer's own start for the first run, the start of the run's page
/// after that.
pub open spec fn spec_chunk_start(ptr: u64, c: int) -> int {
    if c == 0 {
        ptr as int
    } else {
        (va_vpn(ptr as int) + c) * (PAGE_SIZE as int)
    }
}

/// One past the last byte address of run `c` of a translated buffer: the
/// end of the run's page, or the buffer's own end on the last run.
pub open spec fn spec_chunk_end(ptr: u64, len: u64, c: int) -> int {
    let pe = (va_vpn(ptr as int) + c + 1) * (PAGE_SIZE as int);
    if pe < ptr + len {
        pe
    } else {
        (ptr + len) as int
    }
}

/// How many runs the buffer `[ptr, ptr + len)` splits into: one per page
/// it touches.
pub open spec fn spec_chunk_count(ptr: u64, len: u64) -> int {
    if len == 0 {
        0
    } else {
        va_vpn(ptr as int + len - 1) - va_vpn(ptr as int) + 1
    }
}

/// Translate the user buffer `[ptr, ptr + len)` through the page table the
/// token selects, one page at a time, copying out the kernel-visible byte
/// runs. Returns none exactly when the range leaves the 39-bit space or
/// touches a page that is unmapped or backed outside the modelled memory;
/// otherwise the returned runs, in order, are exactly the buffer's bytes,
/// one run per page touched, cut at the page boundaries: run `c` holds the
/// bytes of `[spec_chunk_start(ptr, c), spec_chunk_end(ptr, len, c))`, so
/// no run crosses a frame and the first starts at `ptr`'s offset within
/// its page.
#[verifier::rlimit(100)]
#[verifier::spinoff_prover]
pub fn translated_byte_buffer(mem: &PhysMem, token: u64, ptr: u64, len: u64) -> (r: Option<
    Vec<Vec<u8>>,
>)
    requires
        mem.wf(),
    ensures
        match r {
            Some(chunks) => {
                &&& ptr + len <= VA_BOUND
                &&& spec_buffer_mapped(*mem, satp_root(token), ptr, len)
                &&& flat_bytes(chunks@) == spec_user_bytes(*mem, satp_root(token), ptr, len)
                &&& chunks@.len() == spec_chunk_count(ptr, len)
                &&& forall|c: int|
                    0 <= c < chunks@.len() ==> (#[trigger] chunks@[c])@.len() == spec_chunk_end(
                        ptr,
                        len,
                        c,
                    ) - spec_chunk_start(ptr, c)
            },
            None => ptr + len > VA_BOUND || !spec_buffer_mapped(*mem, satp_root(token), ptr, len),
        },
{
    if len > VA_BOUND || ptr > VA_BOUND - len {
        return None;
    }
    let page_table = PageTable::from_token(token);
    let ghost root = satp_root(token);
    let end: u64 = ptr + len;
    let mut start: u64 = ptr;
    let mut v: Vec<Vec<u8>> = Vec::new();
    while start < end
        invariant
            mem.wf(),
            page_table.root_ppn == root,
            root == satp_root(token),
            ptr <= start <= end,
            end == ptr + len,
            end <= VA_BOUND,
            spec_buffer_mapped(*mem, root, ptr, (start - ptr) as u64),
            flat_bytes(v@) =~= spec_user_bytes(*mem, root, ptr, (start - ptr) as u64),
            v@.len() == 0 ==> start == ptr,
            v@.len() > 0 ==> start == spec_chunk_end(ptr, len, v@.len() - 1),
            v@.len() > 0 ==> spec_chunk_start(ptr, v@.len() - 1) < ptr + len,
            forall|c: int|
                0 <= c < v@.len() ==> (#[trigger] v@[c])@.len() == spec_chunk_end(ptr, len, c)
                    - spec_chunk_start(ptr, c),
            start < end || v@.len() == spec_chunk_count(ptr, len),
        decreases end - start,
    {
        let vpn = VirtAddr(start).floor();
        let pte = match page_table.translate(mem, vpn) {
            Some(pte) => pte,
            None => {
                proof {
                    assert(va_vpn(ptr + (start - ptr)) == vpn.0);
                    assert(!spec_byte_ok(*mem, root, ptr, start - ptr));
                    assert(!spec_buffer_mapped(*mem, root, ptr, len)) by {
                        if spec_buffer_mapped(*mem, root, ptr, len) {
                            assert(spec_byte_ok(*mem, root, ptr, start - ptr));
                        }
                    }
                }
                return None;
            },
        };
        if !pte.is_valid() {
            proof {
                assert(va_vpn(ptr + (start - ptr)) == vpn.0);
                assert(!spec_byte_ok(*mem, root, ptr, start - ptr));
                assert(!spec_buffer_mapped(*mem, root, ptr, len)) by {
                    if spec_buffer_mapped(*mem, root, ptr, len) {
                        assert(spec_byte_ok(*mem, root, ptr, start - ptr));
                    }
                }
            }
            return None;
        }
        let ppn = pte.ppn().0;
        if !mem.contains(ppn) {
            proof {
                assert(va_vpn(ptr + (start - ptr)) == vpn.0);
                assert(spec_leaf(*mem, root, va_vpn(ptr + (start - ptr))) == pte.bits);
                assert(!spec_byte_ok(*mem, root, ptr, start - ptr));
                assert(!spec_buffer_mapped(*mem, root, ptr, len)) by {
                    if spec_buffer_mapped(*mem, root, ptr, len) {
                        assert(spec_byte_ok(*mem, root, ptr, start - ptr));
                    }
                }
            }
            return None;
        }
        let page_end: u64 = (vpn.0 + 1) * PAGE_SIZE;
        let stop: u64 = if page_end < end {
            page_end
        } else {
            end
        };
        let ghost prev_flat = flat_bytes(v@);
        let mut chunk: Vec<u8> = Vec::new();
        let mut cur: u64 = start;
        while cur < stop
            invariant
                mem.wf(),
                mem.contains_ppn(ppn),
                start <= cur <= stop,
                vpn.0 * PAGE_SIZE <= start,
                stop <= vpn.0 * PAGE_SIZE + PAGE_SIZE,
                stop <= VA_BOUND,
                vpn.0 < VPN_BOUND,
                chunk@ =~= Seq::new(
                    (cur - start) as nat,
                    |j: int| mem.byte_at(ppn, (start + j) % (PAGE_SIZE as int)),
                ),
            decreases stop - cur,
        {
            let b = mem.read_byte(ppn, (cur % PAGE_SIZE) as usize);
            chunk.push(b);
            cur = cur + 1;
        }
        proof {
            // Every byte of this chunk lies on the page `vpn`, whose leaf
            // entry the walk just produced.
            assert forall|k: int|
                start - ptr <= k < stop - ptr implies va_vpn(ptr + k) == vpn.0
                    && #[trigger] spec_byte_ok(*mem, root, ptr, k) by {
                assert(vpn.0 * PAGE_SIZE <= ptr + k < vpn.0 * PAGE_SIZE + PAGE_SIZE);
                assert((ptr + k) / (PAGE_SIZE as int) == vpn.0) by (nonlinear_arith)
                    requires
                        vpn.0 * PAGE_SIZE <= ptr + k < vpn.0 * PAGE_SIZE + PAGE_SIZE,
                        PAGE_SIZE == 0x1000,
                {}
                assert(spec_leaf(*mem, root, vpn.0) == pte.bits);
            }
            assert(spec_buffer_mapped(*mem, root, ptr, (stop - ptr) as u64)) by {
                assert(ptr <= start <= stop);
                assert forall|k: int|
                    0 <= k < (stop - ptr) as u64 implies #[trigger] spec_byte_ok(
                    *mem,
                    root,
                    ptr,
                    k,
                ) by {
                    if k < start - ptr {
                        assert(0 <= k < (start - ptr) as u64);
                    }
                }
            }
            lemma_flat_bytes_push(v@, chunk);
            assert forall|k: int|
                0 <= k < stop - ptr implies #[trigger] spec_user_bytes(
                *mem,
                root,
                ptr,
                (stop - ptr) as u64,
            )[k] == if k < start - ptr {
                spec_user_bytes(*mem, root, ptr, (start - ptr) as u64)[k]
            } else {
                chunk@[k - (start - ptr)]
            } by {
                if k >= start - ptr {
                    assert(va_vpn(ptr + k) == vpn.0);
                    assert(spec_leaf(*mem, root, vpn.0) == pte.bits);
                    assert((ptr + k) % (PAGE_SIZE as int) == (start + (k - (start - ptr)) as int)
                        % (PAGE_SIZE as int));
                }
            }
            assert((prev_flat + chunk@) =~= spec_user_bytes(
                *mem,
                root,
                ptr,
                (stop - ptr) as u64,
            ));
            // This run covers exactly its page's overlap with the buffer.
            let c = v@.len() as int;
            let vpn0 = va_vpn(ptr as int);
            assert(va_vpn(ptr + (start - ptr)) == vpn0 + c && start == spec_chunk_start(ptr, c)) by {
                if c == 0 {
                    assert(va_vpn(ptr + (start - ptr)) == vpn.0);
                } else {
                    assert(start == spec_chunk_end(ptr, len, c - 1));
                    assert(start == (vpn0 + c) * (PAGE_SIZE as int));
                    assert(va_vpn(start as int) == vpn0 + c) by (nonlinear_arith)
                        requires
                            start == (vpn0 + c) * (PAGE_SIZE as int),
                            vpn0 + c >= 0,
                            PAGE_SIZE == 0x1000,
                    {}
                }
            }
            assert(vpn.0 == vpn0 + c) by {
                assert(va_vpn(ptr + (start - ptr)) == vpn.0);
            }
            assert(stop == spec_chunk_end(ptr, len, c));
            assert(chunk@.len() == spec_chunk_end(ptr, len, c) - spec_chunk_start(ptr, c));
            if stop == end {
                assert(c + 1 == spec_chunk_count(ptr, len)) by {
                    assert(spec_chunk_start(ptr, c) <= end - 1);
                    assert(end <= (vpn0 + c + 1) * (PAGE_SIZE as int));
                    assert((vpn0 + c) * (PAGE_SIZE as int) <= end - 1) by {
                        if c == 0 {
                            assert(vpn0 * (PAGE_SIZE as int) <= ptr as int) by (nonlinear_arith)
                                requires
                                    vpn0 == (ptr as int) / (PAGE_SIZE as int),
                                    PAGE_SIZE == 0x1000,
                                    ptr >= 0,
                            {}
                        }
                    }
                    assert(va_vpn(end - 1) == vpn0 + c) by (nonlinear_arith)
                        requires
                            (vpn0 + c) * (PAGE_SIZE as int) <= end - 1 < (vpn0 + c + 1) * (
                            PAGE_SIZE as int),
                            PAGE_SIZE == 0x1000,
                            vpn0 + c >= 0,
                    {}
                    assert(end - 1 == ptr as int + len - 1);
                }
            }
        }
        v.push(chunk);
        start = stop;
    }
    Some(v)
}

/// The translated-buffer round trip: byte runs whose concatenation is the
/// user range's byte sequence carry exactly `len` bytes, in the order the
/// user range holds them.
pub proof fn lemma_translated_buffer_round_trip(
    mem: PhysMem,
    root: u64,
    va: u64,
    len: u64,
    chunks: Seq<Vec<u8>>,
)
    requires
        flat_bytes(chunks) == spec_user_bytes(mem, root, va, len),
    ensures
        flat_bytes(chunks).len() == len,
        forall|k: int|
            0 <= k < len ==> flat_bytes(chunks)[k] == mem.byte_at(
                pte_ppn_of(spec_leaf(mem, root, va_vpn(va + k))),
                (va + k) % (PAGE_SIZE as int),
            ),
{
}

} // verus!
