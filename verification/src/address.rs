//! Typed physical/virtual addresses and page numbers with the SV39 bit
//! widths: 56-bit physical addresses (44-bit frame number), 39-bit virtual
//! addresses (27-bit page number), 4 KiB pages.
use vstd::prelude::*;

use crate::config::PAGE_SIZE;

verus! {

/// Exclusive upper bound of a physical address: `1 << 56`.
pub const PA_BOUND: u64 = 0x100_0000_0000_0000;
/// Exclusive upper bound of a virtual address: `1 << 39`.
pub const VA_BOUND: u64 = 0x80_0000_0000;
/// Exclusive upper bound of a physical page number: `1 << 44`.
pub const PPN_BOUND: u64 = 0x1000_0000_0000;
/// Exclusive upper bound of a virtual page number: `1 << 27`.
pub const VPN_BOUND: u64 = 0x800_0000;
/// A virtual address at or above `1 << 38` is in the high half and is
/// sign-extended when rendered as a 64-bit machine word.
pub const VA_SIGN_BIT: u64 = 0x40_0000_0000;

/// A physical address, restricted to 56 bits.
#[derive(Clone, Copy, Debug, PartialEq, Eq, Structural)]
pub struct PhysAddr(pub u64);

/// A virtual address, restricted to 39 bits.
#[derive(Clone, Copy, Debug, PartialEq, Eq, Structural)]
pub struct VirtAddr(pub u64);

/// A physical page number, restricted to 44 bits.
#[derive(Clone, Copy, Debug, PartialEq, Eq, Structural)]
pub struct PhysPageNum(pub u64);

/// A virtual page number, restricted to 27 bits.
#[derive(Clone, Copy, Debug, PartialEq, Eq, Structural)]
pub struct VirtPageNum(pub u64);

impl PhysAddr {
    /// Conversion from a raw integer truncates to the legal 56-bit width.
    pub fn from_raw(v: u64) -> (r: PhysAddr)
        ensures
            r.0 == v % PA_BOUND,
            r.0 < PA_BOUND,
    {
        PhysAddr(v % PA_BOUND)
    }

    /// Page number of the page this address lies in.
    pub fn floor(&self) -> (r: PhysPageNum)
        ensures
            r.0 == self.0 / PAGE_SIZE,
    {
        PhysPageNum(self.0 / PAGE_SIZE)
    }

    /// Page number of the first page boundary at or above this address.
    pub fn ceil(&self) -> (r: PhysPageNum)
        ensures
            r.0 == (self.0 + PAGE_SIZE - 1) / (PAGE_SIZE as int),
    {
        if self.0 == 0 {
            PhysPageNum(0)
        } else {
            PhysPageNum((self.0 - 1) / PAGE_SIZE + 1)
        }
    }

    /// Offset of this address within its page.
    pub fn page_offset(&self) -> (r: u64)
        ensures
            r == self.0 % PAGE_SIZE,
            r < PAGE_SIZE,
    {
        self.0 % PAGE_SIZE
    }

    /// True iff the address lies on a page boundary.
    pub fn aligned(&self) -> (r: bool)
        ensures
            r == (self.0 % PAGE_SIZE == 0),
    {
        self.page_offset() == 0
    }

    /// First address of the page `v`.
    pub fn from_ppn(v: PhysPageNum) -> (r: PhysAddr)
        requires
            v.0 < PPN_BOUND,
        ensures
            r.0 == v.0 * PAGE_SIZE,
    {
        PhysAddr(v.0 * PAGE_SIZE)
    }
}

impl VirtAddr {
    /// Conversion from a raw integer truncates to the legal 39-bit width.
    pub fn from_raw(v: u64) -> (r: VirtAddr)
        ensures
            r.0 == v % VA_BOUND,
            r.0 < VA_BOUND,
    {
        VirtAddr(v % VA_BOUND)
    }

    /// Page number of the page this address lies in.
    pub fn floor(&self) -> (r: VirtPageNum)
        ensures
            r.0 == self.0 / PAGE_SIZE,
    {
        VirtPageNum(self.0 / PAGE_SIZE)
    }

    /// Page number of the first page boundary at or above this address.
    pub fn ceil(&self) -> (r: VirtPageNum)
        ensures
            r.0 == (self.0 + PAGE_SIZE - 1) / (PAGE_SIZE as int),
    {
        if self.0 == 0 {
            VirtPageNum(0)
        } else {
            VirtPageNum((self.0 - 1) / PAGE_SIZE + 1)
        }
    }

    /// Offset of this address within its page.
    pub fn page_offset(&self) -> (r: u64)
        ensures
            r == self.0 % PAGE_SIZE,
            r < PAGE_SIZE,
    {
        self.0 % PAGE_SIZE
    }

    /// True iff the address lies on a page boundary.
    pub fn aligned(&self) -> (r: bool)
        ensures
            r == (self.0 % PAGE_SIZE == 0),
    {
        self.page_offset() == 0
    }

    /// First address of the page `v`.
    pub fn from_vpn(v: VirtPageNum) -> (r: VirtAddr)
        requires
            v.0 < VPN_BOUND,
        ensures
            r.0 == v.0 * PAGE_SIZE,
    {
        VirtAddr(v.0 * PAGE_SIZE)
    }

    /// Render the 39-bit address as the 64-bit machine word a RV64 hart
    /// carries: the value is sign-extended from bit 38, so high-half
    /// addresses come out as large values near `u64::MAX`.
    pub fn sign_extended(&self) -> (r: u64)
        requires
            self.0 < VA_BOUND,
        ensures
            r == spec_sign_extend(self.0),
    {
        if self.0 >= VA_SIGN_BIT {
            self.0 + (u64::MAX - VA_BOUND + 1)
        } else {
            self.0
        }
    }
}

/// The 64-bit rendering of a 39-bit virtual address: identity below bit 38,
/// high half shifted up next to `u64::MAX`.
pub open spec fn spec_sign_extend(va: u64) -> u64
    recommends
        va < VA_BOUND,
{
    if va >= VA_SIGN_BIT {
        (va + (u64::MAX - VA_BOUND + 1)) as u64
    } else {
        va
    }
}

/// Level-2 (root) index of the three-level SV39 walk.
pub open spec fn vpn_idx2(vpn: u64) -> u64 {
    (vpn / 0x40000) % 512
}

/// Level-1 index of the three-level SV39 walk.
pub open spec fn vpn_idx1(vpn: u64) -> u64 {
    (vpn / 0x200) % 512
}

/// Level-0 (leaf) index of the three-level SV39 walk.
pub open spec fn vpn_idx0(vpn: u64) -> u64 {
    vpn % 0x200
}

/// A virtual page number below `VPN_BOUND` is exactly its three 9-bit walk
/// indices in base 512.
pub proof fn lemma_vpn_decompose(v: u64)
    by (bit_vector)
    requires
        v < 0x800_0000,
    ensures
        ((v / 0x40000) % 512) * 0x40000 + ((v / 0x200) % 512) * 0x200 + (v % 0x200) == v,
{
}

/// Two virtual page numbers with the same three walk indices are the same
/// page: the walk loses no information.
pub proof fn lemma_vpn_indices_injective(v1: u64, v2: u64)
    requires
        v1 < VPN_BOUND,
        v2 < VPN_BOUND,
        vpn_idx2(v1) == vpn_idx2(v2),
        vpn_idx1(v1) == vpn_idx1(v2),
        vpn_idx0(v1) == vpn_idx0(v2),
    ensures
        v1 == v2,
{
    lemma_vpn_decompose(v1);
    lemma_vpn_decompose(v2);
}

impl VirtPageNum {
    /// The page number one.
    #[inline]
    pub fn one() -> (r: VirtPageNum)
        ensures
            r.0 == 1,
    {
        VirtPageNum(1)
    }

    /// The three 9-bit indices `[vpn2, vpn1, vpn0]` of the SV39 walk, from
    /// the root level down to the leaf level.
    pub fn indexes(&self) -> (r: [usize; 3])
        ensures
            r[0] == vpn_idx2(self.0),
            r[1] == vpn_idx1(self.0),
            r[2] == vpn_idx0(self.0),
            r[0] < 512 && r[1] < 512 && r[2] < 512,
    {
        [
            ((self.0 / 0x40000) % 512) as usize,
            ((self.0 / 0x200) % 512) as usize,
            (self.0 % 0x200) as usize,
        ]
    }

    /// Conversion from a raw integer truncates to the legal 27-bit width.
    pub fn from_raw(v: u64) -> (r: VirtPageNum)
        ensures
            r.0 == v % VPN_BOUND,
            r.0 < VPN_BOUND,
    {
        VirtPageNum(v % VPN_BOUND)
    }
}

impl PhysPageNum {
    /// Conversion from a raw integer truncates to the legal 44-bit width.
    pub fn from_raw(v: u64) -> (r: PhysPageNum)
        ensures
            r.0 == v % PPN_BOUND,
            r.0 < PPN_BOUND,
    {
        PhysPageNum(v % PPN_BOUND)
    }
}

/// Types whose values can step forward to their successor; virtual page
/// numbers implement it so that page ranges can be walked page by page.
pub trait StepByOne: Sized {
    /// The successor of `s` in this type's own order.
    spec fn next_spec(s: Self) -> Self;

    /// Step one forward.
    fn forward_one(start: Self) -> (r: Self)
        ensures
            r == Self::next_spec(start),
    ;
}

impl StepByOne for VirtPageNum {
    /// A virtual page number steps forward modulo the 27-bit width, exactly
    /// as conversion from a raw integer truncates.
    open spec fn next_spec(s: VirtPageNum) -> VirtPageNum {
        VirtPageNum(((s.0 % VPN_BOUND + 1) % (VPN_BOUND as int)) as u64)
    }

    fn forward_one(start: VirtPageNum) -> (r: VirtPageNum) {
        VirtPageNum((start.0 % VPN_BOUND + 1) % VPN_BOUND)
    }
}

/// A half-open interval `[start, end)` of virtual page numbers.
#[derive(Clone, Copy, Debug, PartialEq, Eq, Structural)]
pub struct SimpleInterval {
    pub start: VirtPageNum,
    pub end: VirtPageNum,
}

impl SimpleInterval {
    /// Build the interval `[start, end)`; the bounds must be ordered.
    pub fn new(start: VirtPageNum, end: VirtPageNum) -> (r: SimpleInterval)
        requires
            start.0 <= end.0,
        ensures
            r.start == start,
            r.end == end,
    {
        SimpleInterval { start, end }
    }

    /// Lower bound of the interval.
    pub fn start(&self) -> (r: VirtPageNum)
        ensures
            r == self.start,
    {
        self.start
    }

    /// Exclusive upper bound of the interval.
    pub fn end(&self) -> (r: VirtPageNum)
        ensures
            r == self.end,
    {
        self.end
    }

    /// A cursor that yields the pages of the interval in increasing order.
    pub fn pages(&self) -> (r: SimpleRange)
        ensures
            r.cursor() == self.start,
            r.stop() == self.end,
    {
        SimpleRange::new(self.start, self.end)
    }
}

/// A cursor over a `SimpleInterval`, yielding its pages in increasing order.
#[derive(Clone, Copy, Debug, PartialEq, Eq, Structural)]
pub struct SimpleRange {
    pub start: VirtPageNum,
    pub end: VirtPageNum,
}

impl SimpleRange {
    /// The next page the cursor will yield.
    pub open spec fn cursor(self) -> VirtPageNum {
        self.start
    }

    /// The page at which the cursor stops.
    pub open spec fn stop(self) -> VirtPageNum {
        self.end
    }

    /// Build a cursor that starts at `start` and stops at `end`.
    pub fn new(start: VirtPageNum, end: VirtPageNum) -> (r: SimpleRange)
        ensures
            r.cursor() == start,
            r.stop() == end,
    {
        SimpleRange { start, end }
    }

    /// Yield the page under the cursor and advance, or report exhaustion.
    pub fn next(&mut self) -> (r: Option<VirtPageNum>)
        requires
            old(self).cursor().0 <= old(self).stop().0,
            old(self).stop().0 < VPN_BOUND,
        ensures
            final(self).stop() == old(self).stop(),
            match r {
                Some(vpn) => {
                    &&& old(self).cursor().0 < old(self).stop().0
                    &&& vpn == old(self).cursor()
                    &&& final(self).cursor().0 == old(self).cursor().0 + 1
                },
                None => {
                    &&& old(self).cursor() == old(self).stop()
                    &&& *final(self) == *old(self)
                },
            },
    {
        if self.start.0 == self.end.0 {
            None
        } else {
            let cur = self.start;
            self.start = VirtPageNum::forward_one(cur);
            Some(cur)
        }
    }
}

} // verus!
