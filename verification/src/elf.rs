//! ELF loading. Parsing the image is delegated to the `xmas_elf` crate
//! through a small set of trusted declarations; everything the kernel then
//! does with the parsed values — validating the load segments, building
//! the user address space, copying the file bytes in — is verified code
//! over plain values.
use vstd::prelude::*;

use crate::address::{PhysPageNum, VirtAddr};
use crate::config::{PAGE_SIZE, TRAP_CONTEXT, USER_STACK_SIZE};
use crate::frame_allocator::StackFrameAllocator;
use crate::memory_set::{
    MapArea, MapType, MemorySet, MAP_PERM_R, MAP_PERM_U, MAP_PERM_W, MAP_PERM_X, TRAMP_VPN,
};
use crate::phys_mem::PhysMem;
use xmas_elf::program::Type;

verus! {

broadcast use vstd::set::group_set_axioms, vstd::map::group_map_axioms;

/// The kind of a program header, mirroring the header's `p_type` field
/// variant for variant.
#[derive(Clone, Copy, Debug, PartialEq, Eq, Structural)]
pub enum SegmentKind {
    /// An unused entry.
    Null,
    /// A loadable segment.
    Load,
    /// Dynamic linking tables.
    Dynamic,
    /// The interpreter path.
    Interp,
    /// Auxiliary notes.
    Note,
    /// Reserved.
    ShLib,
    /// The program-header table itself.
    Phdr,
    /// Thread-local storage.
    Tls,
    /// A read-only-after-relocation region.
    GnuRelro,
    /// An operating-system specific kind.
    OsSpecific(u32),
    /// A processor-specific kind.
    ProcessorSpecific(u32),
}

/// Whether `xmas_elf::ElfFile::new` accepts the image's bytes: the ELF
/// magic, a known class and a complete header. A function of the bytes
/// alone.
pub uninterp spec fn elf_wf(data: Seq<u8>) -> bool;

/// What `xmas_elf::header::HeaderPt2::entry_point` reads out of a parsed
/// image: the `e_entry` field.
pub uninterp spec fn elf_entry_of(data: Seq<u8>) -> u64;

/// What `xmas_elf::header::HeaderPt2::ph_count` reads out of a parsed
/// image: the `e_phnum` field.
pub uninterp spec fn elf_ph_count_of(data: Seq<u8>) -> u16;

/// Whether `xmas_elf::ElfFile::program_header` can return header `index`:
/// the table entry exists and lies within the image at an offset and size
/// its in-place reader accepts.
pub uninterp spec fn ph_ok_of(data: Seq<u8>, index: u16) -> bool;

/// What `xmas_elf::program::ProgramHeader::get_type` decodes for header
/// `index`, mirrored variant for variant; none when the `p_type` field
/// holds an unknown value.
pub uninterp spec fn ph_kind_of(data: Seq<u8>, index: u16) -> Option<SegmentKind>;

/// The `p_vaddr` field of header `index`, as
/// `xmas_elf::program::ProgramHeader::virtual_addr` reads it.
pub uninterp spec fn ph_vaddr_of(data: Seq<u8>, index: u16) -> u64;

/// The `p_memsz` field of header `index`, as
/// `xmas_elf::program::ProgramHeader::mem_size` reads it.
pub uninterp spec fn ph_mem_size_of(data: Seq<u8>, index: u16) -> u64;

/// The `p_filesz` field of header `index`, as
/// `xmas_elf::program::ProgramHeader::file_size` reads it.
pub uninterp spec fn ph_file_size_of(data: Seq<u8>, index: u16) -> u64;

/// The `p_offset` field of header `index`, as
/// `xmas_elf::program::ProgramHeader::offset` reads it.
pub uninterp spec fn ph_offset_of(data: Seq<u8>, index: u16) -> u64;

/// The `p_flags` field of header `index`, as
/// `xmas_elf::program::ProgramHeader::flags` reads it.
pub uninterp spec fn ph_flags_of(data: Seq<u8>, index: u16) -> u32;

/// Relies on `xmas_elf::ElfFile::new` and `HeaderPt2::ph_count`. The
/// parser reads the header in place and panics on a slice it cannot read
/// from where it sits, so the body first refuses such a slice; only
/// success therefore says anything about the bytes.
#[verifier::external_body]
fn elf_ph_count(data: &[u8]) -> (r: Option<u16>)
    ensures
        r matches Some(n) ==> elf_wf(data@) && n == elf_ph_count_of(data@),
{
    if data.as_ptr() as usize % 8 != 0 {
        return None;
    }
    xmas_elf::ElfFile::new(data).ok().map(|f| f.header.pt2.ph_count())
}

/// Relies on `xmas_elf::ElfFile::new` and `HeaderPt2::entry_point`, with
/// the same in-place guard as the other parser calls.
#[verifier::external_body]
fn elf_entry_point(data: &[u8]) -> (r: Option<u64>)
    ensures
        r matches Some(e) ==> elf_wf(data@) && e == elf_entry_of(data@),
{
    if data.as_ptr() as usize % 8 != 0 {
        return None;
    }
    xmas_elf::ElfFile::new(data).ok().map(|f| f.header.pt2.entry_point())
}

/// Relies on `xmas_elf::ElfFile::new` and the `HeaderPt2` getters
/// `ph_offset`, `ph_entry_size` and `ph_count`: whether the table entry of
/// header `index` lies within the image, at an offset and size that the
/// in-place reader behind `ElfFile::program_header` accepts — that reader
/// slices the image without a bounds check and asserts size and alignment,
/// so the header calls below are made only where this test passed.
#[verifier::external_body]
fn ph_entry_readable(data: &[u8], index: u16) -> (r: bool)
    ensures
        r ==> elf_wf(data@) && ph_ok_of(data@, index),
{
    if data.as_ptr() as usize % 8 != 0 {
        return false;
    }
    let f = match xmas_elf::ElfFile::new(data) {
        Ok(f) => f,
        Err(_) => {
            return false;
        },
    };
    let (off, esz) = (f.header.pt2.ph_offset(), f.header.pt2.ph_entry_size());
    let end = off as u128 + (index as u128 + 1) * esz as u128;
    index < f.header.pt2.ph_count() && off > 0 && esz >= 56 && off % 8 == 0 && esz % 8 == 0 && end
        <= data.len() as u128
}

/// Relies on `xmas_elf::ElfFile::new`, `ElfFile::program_header` and
/// `ProgramHeader::get_type`: whether header `index` decodes, and whether
/// it is a loadable segment. The caller has already checked, through
/// `ph_entry_readable`, that the entry can be read where it sits.
#[verifier::external_body]
fn ph_decodes(data: &[u8], index: u16) -> (r: Option<bool>)
    requires
        ph_ok_of(data@, index),
    ensures
        r matches Some(b) ==> elf_wf(data@) && ph_kind_of(data@, index) is Some && (b
            <==> ph_kind_of(data@, index) == Some(SegmentKind::Load)),
{
    if data.as_ptr() as usize % 8 != 0 {
        return None;
    }
    let f = xmas_elf::ElfFile::new(data).ok()?;
    match f.program_header(index).ok()?.get_type() {
        Ok(t) => Some(matches!(t, Type::Load)),
        Err(_) => None,
    }
}

/// Relies on `xmas_elf::ElfFile::new`, `ElfFile::program_header` and the
/// field getters `virtual_addr`, `mem_size`, `offset`, `file_size` and
/// `flags` of `xmas_elf::program::ProgramHeader`: the fields of header
/// `index` as plain values. The caller has already checked, through
/// `ph_entry_readable`, that the entry can be read where it sits.
#[verifier::external_body]
fn ph_fields(data: &[u8], index: u16) -> (r: Option<Segment>)
    requires
        ph_ok_of(data@, index),
    ensures
        r matches Some(s) ==> elf_wf(data@) && s.start_va == ph_vaddr_of(data@, index)
            && s.mem_size == ph_mem_size_of(data@, index) && s.offset == ph_offset_of(data@, index)
            && s.file_size == ph_file_size_of(data@, index) && s.flags == ph_flags_of(
            data@,
            index,
        ),
{
    if data.as_ptr() as usize % 8 != 0 {
        return None;
    }
    let f = xmas_elf::ElfFile::new(data).ok()?;
    let ph = f.program_header(index).ok()?;
    Some(
        Segment {
            start_va: ph.virtual_addr(),
            mem_size: ph.mem_size(),
            offset: ph.offset(),
            file_size: ph.file_size(),
            flags: ph.flags().0,
        },
    )
}

/// One loadable segment, as plain values.
#[derive(Clone, Copy, Debug, PartialEq, Eq, Structural)]
pub struct Segment {
    /// The segment's first virtual address.
    pub start_va: u64,
    /// Bytes of memory the segment occupies.
    pub mem_size: u64,
    /// Byte offset of the segment's image in the file.
    pub offset: u64,
    /// Bytes of file image backing the segment.
    pub file_size: u64,
    /// The raw `p_flags` word.
    pub flags: u32,
}

/// The flag bit marking a segment executable.
pub const PF_X: u32 = 1;
/// The flag bit marking a segment writable.
pub const PF_W: u32 = 2;
/// The flag bit marking a segment readable.
pub const PF_R: u32 = 4;

/// The area permissions a user segment gets: U always, plus R/W/X as the
/// segment's flag bits say.
pub open spec fn spec_perm_of_flags(f: u32) -> u8 {
    MAP_PERM_U | (if f & PF_R == PF_R {
        MAP_PERM_R
    } else {
        0
    }) | (if f & PF_W == PF_W {
        MAP_PERM_W
    } else {
        0
    }) | (if f & PF_X == PF_X {
        MAP_PERM_X
    } else {
        0
    })
}

/// Compute a user segment's area permissions from its flag word.
pub fn perm_of_flags(f: u32) -> (r: u8)
    ensures
        r == spec_perm_of_flags(f),
{
    let r_bit: u8 = if f & PF_R == PF_R {
        MAP_PERM_R
    } else {
        0
    };
    let w_bit: u8 = if f & PF_W == PF_W {
        MAP_PERM_W
    } else {
        0
    };
    let x_bit: u8 = if f & PF_X == PF_X {
        MAP_PERM_X
    } else {
        0
    };
    MAP_PERM_U | r_bit | w_bit | x_bit
}

/// The segment named by program header `index`, assembled from the named
/// field reads of the trusted parser.
pub open spec fn spec_segment_of(data: Seq<u8>, index: u16) -> Segment {
    Segment {
        start_va: ph_vaddr_of(data, index),
        mem_size: ph_mem_size_of(data, index),
        offset: ph_offset_of(data, index),
        file_size: ph_file_size_of(data, index),
        flags: ph_flags_of(data, index),
    }
}

/// The loadable segments among the first `n` program headers of the image,
/// in header order.
pub open spec fn spec_load_segments(data: Seq<u8>, n: int) -> Seq<Segment>
    decreases n,
{
    if n <= 0 {
        Seq::empty()
    } else if ph_kind_of(data, (n - 1) as u16) == Some(SegmentKind::Load) {
        spec_load_segments(data, n - 1).push(spec_segment_of(data, (n - 1) as u16))
    } else {
        spec_load_segments(data, n - 1)
    }
}

/// The loadable segments the whole image names.
pub open spec fn elf_segs_of(data: Seq<u8>) -> Seq<Segment> {
    spec_load_segments(data, elf_ph_count_of(data) as int)
}

/// The image parses in full: the header is acceptable and every program
/// header can be read in place and decoded.
pub open spec fn spec_elf_parses(data: Seq<u8>) -> bool {
    &&& elf_wf(data)
    &&& forall|i: u16|
        i < elf_ph_count_of(data) ==> #[trigger] ph_ok_of(data, i) && ph_kind_of(data, i) is Some
}

/// Read the image's loadable segments out through the trusted parser, in
/// program-header order. Returns the entry point and the segments, or none
/// when the image or one of its headers cannot be read where it sits or
/// does not decode; success pins both results to the image's named header
/// fields. The parser reads the image in place and refuses a slice it
/// cannot read from where it sits, so only success speaks of the bytes.
pub fn parse_load_segments(data: &[u8]) -> (r: Option<(u64, Vec<Segment>)>)
    ensures
        !spec_elf_parses(data@) ==> r is None,
        r matches Some((entry, segs)) ==> spec_elf_parses(data@) && entry == elf_entry_of(data@)
            && segs@ == elf_segs_of(data@),
{
    let ph_count = match elf_ph_count(data) {
        Some(c) => c,
        None => {
            return None;
        },
    };
    let entry = match elf_entry_point(data) {
        Some(e) => e,
        None => {
            return None;
        },
    };
    let mut segments: Vec<Segment> = Vec::new();
    let mut i: u16 = 0;
    while i < ph_count
        invariant
            ph_count == elf_ph_count_of(data@),
            elf_wf(data@),
            0 <= i <= ph_count,
            forall|j: u16| j < i ==> #[trigger] ph_ok_of(data@, j) && ph_kind_of(data@, j) is Some,
            segments@ == spec_load_segments(data@, i as int),
        decreases ph_count - i,
    {
        if !ph_entry_readable(data, i) {
            return None;
        }
        let is_load = match ph_decodes(data, i) {
            Some(b) => b,
            None => {
                return None;
            },
        };
        if is_load {
            let seg = match ph_fields(data, i) {
                Some(s) => s,
                None => {
                    return None;
                },
            };
            proof {
                assert(seg == spec_segment_of(data@, i));
            }
            segments.push(seg);
        }
        i = i + 1;
        proof {
            assert(segments@ == spec_load_segments(data@, i as int));
        }
    }
    Some((entry, segments))
}

/// First page of a segment.
pub open spec fn seg_floor(s: Segment) -> int {
    s.start_va as int / (PAGE_SIZE as int)
}

/// One past the last page of a segment.
pub open spec fn seg_ceil(s: Segment) -> int {
    (s.start_va + s.mem_size + PAGE_SIZE - 1) / (PAGE_SIZE as int)
}

/// Pages a segment occupies.
pub open spec fn seg_pages(s: Segment) -> int {
    seg_ceil(s) - seg_floor(s)
}

/// Total pages of a run of segments.
pub open spec fn total_seg_pages(segs: Seq<Segment>) -> int
    decreases segs.len(),
{
    if segs.len() == 0 {
        0
    } else {
        total_seg_pages(segs.drop_last()) + seg_pages(segs.last())
    }
}

/// One loadable segment is acceptable: page-aligned start, file image no
/// larger than its memory image and inside the file, and it ends low
/// enough to leave room for the guard page, the user stack and the trap
/// context below the trampoline.
pub open spec fn spec_seg_ok(s: Segment, data_len: int) -> bool {
    &&& s.start_va % PAGE_SIZE == 0
    &&& s.file_size <= s.mem_size
    &&& s.offset + s.file_size <= data_len
    &&& seg_ceil(s) <= TRAMP_VPN - 4
}

/// A run of segments is loadable: each acceptable, in ascending order and
/// page-disjoint from its successor.
pub open spec fn spec_segs_ok(segs: Seq<Segment>, data_len: int) -> bool {
    &&& forall|i: int| 0 <= i < segs.len() ==> spec_seg_ok(#[trigger] segs[i], data_len)
    &&& forall|i: int|
        0 <= i < segs.len() - 1 ==> seg_ceil(#[trigger] segs[i]) <= seg_floor(segs[i + 1])
}

/// Exclusive upper page bound of a run of ascending segments: the ceiling
/// of the last one, or zero when there is none.
pub open spec fn segs_end(segs: Seq<Segment>) -> int {
    if segs.len() == 0 {
        0
    } else {
        seg_ceil(segs.last())
    }
}

/// Frames that building a user space can consume: three per segment page
/// (frame plus up to two tables), the same for the two stack pages and
/// the trap-context page, one for the root, two for the trampoline.
pub open spec fn spec_build_budget(segs: Seq<Segment>) -> int {
    3 * total_seg_pages(segs) + 12
}

/// Largest segment count the builder accepts.
pub const MAX_LOAD_SEGMENTS: usize = 0x10_0000;

/// Validate a run of parsed segments: acceptable, ascending, not too
/// many. Returns the total page count exactly when they are loadable.
fn check_load_segments(segments: &Vec<Segment>, data: &[u8]) -> (r: Option<u64>)
    ensures
        match r {
            Some(total) => {
                &&& segments@.len() <= MAX_LOAD_SEGMENTS
                &&& spec_segs_ok(segments@, data@.len() as int)
                &&& total == total_seg_pages(segments@)
                &&& total <= MAX_LOAD_SEGMENTS * 0x800_0000
            },
            None => !(segments@.len() <= MAX_LOAD_SEGMENTS && spec_segs_ok(
                segments@,
                data@.len() as int,
            )),
        },
{
    let n = segments.len();
    if n > MAX_LOAD_SEGMENTS {
        return None;
    }
    let dlen = data.len();
    let mut total: u64 = 0;
    let mut i: usize = 0;
    while i < n
        invariant
            n == segments@.len(),
            n <= MAX_LOAD_SEGMENTS,
            dlen == data@.len(),
            0 <= i <= n,
            total == total_seg_pages(segments@.take(i as int)),
            total <= i * 0x800_0000,
            forall|j: int|
                0 <= j < i ==> spec_seg_ok(#[trigger] segments@[j], data@.len() as int),
            forall|j: int|
                0 <= j < i - 1 ==> seg_ceil(#[trigger] segments@[j]) <= seg_floor(
                    segments@[j + 1],
                ),
        decreases n - i,
    {
        let s = segments[i];
        if s.start_va % PAGE_SIZE != 0 || s.file_size > s.mem_size {
            return None;
        }
        if s.file_size > dlen as u64 || s.offset > dlen as u64 - s.file_size {
            return None;
        }
        if s.start_va >= crate::address::VA_BOUND || s.mem_size >= crate::address::VA_BOUND {
            proof {
                assert(seg_ceil(s) > TRAMP_VPN - 4);
            }
            return None;
        }
        let ce: u64 = (s.start_va + s.mem_size + (PAGE_SIZE - 1)) / PAGE_SIZE;
        if ce > TRAMP_VPN - 4 {
            return None;
        }
        if i > 0 {
            let prev = segments[i - 1];
            let prev_ce: u64 = (prev.start_va + prev.mem_size + (PAGE_SIZE - 1)) / PAGE_SIZE;
            if prev_ce > s.start_va / PAGE_SIZE {
                return None;
            }
        }
        proof {
            assert(segments@.take(i + 1).drop_last() =~= segments@.take(i as int));
            assert(segments@.take(i + 1).last() == segments@[i as int]);
        }
        total = total + (ce - s.start_va / PAGE_SIZE);
        i = i + 1;
    }
    proof {
        assert(segments@.take(n as int) =~= segments@);
    }
    Some(total)
}

/// Install every load segment into a freshly made user space and copy its
/// file bytes in.
#[verifier::rlimit(100)]
#[verifier::spinoff_prover]
fn push_segments(
    ms: &mut MemorySet,
    segments: &Vec<Segment>,
    data: &[u8],
    mem: &mut PhysMem,
    alloc: &mut StackFrameAllocator,
    Ghost(live0): Ghost<Set<u64>>,
)
    requires
        old(ms).inv(*old(mem)),
        old(ms).areas@.len() == 0,
        old(mem).wf(),
        old(alloc).wf(),
        spec_segs_ok(segments@, data@.len() as int),
        old(alloc).free_count() >= 3 * total_seg_pages(segments@) + 9,
        total_seg_pages(segments@) <= MAX_LOAD_SEGMENTS * 0x800_0000,
        forall|p: u64| #[trigger] old(ms).owns(p) ==> !live0.contains(p),
        forall|p: u64| #[trigger] old(ms).owns(p) ==> old(alloc).live@.contains(p),
        forall|p: u64| live0.contains(p) ==> #[trigger] old(alloc).live@.contains(p),
        forall|p: u64| #[trigger]
            old(alloc).live@.contains(p) ==> live0.contains(p) || old(ms).owns(p),
        old(mem).first_ppn <= old(alloc).start@,
        old(alloc).end <= old(mem).first_ppn + old(mem).pages@.len(),
    ensures
        final(ms).inv(*final(mem)),
        final(mem).wf(),
        final(alloc).wf(),
        final(mem).first_ppn == old(mem).first_ppn,
        final(mem).pages@.len() == old(mem).pages@.len(),
        final(alloc).end == old(alloc).end,
        final(alloc).start@ == old(alloc).start@,
        final(ms).root() == old(ms).root(),
        final(ms).trampoline_ppn == old(ms).trampoline_ppn,
        final(ms).areas@.len() == segments@.len(),
        final(alloc).free_count() >= old(alloc).free_count() - 3 * total_seg_pages(segments@),
        forall|j: int|
            0 <= j < segments@.len() ==> (#[trigger] final(ms).areas@[j]).start() == seg_floor(
                segments@[j],
            ) && final(ms).areas@[j].end_vpn() == seg_ceil(segments@[j])
                && final(ms).areas@[j].map_type is Framed && final(ms).areas@[j].map_perm == spec_perm_of_flags(
                segments@[j].flags,
            ),
        forall|j: int, k: int|
            0 <= j < segments@.len() && 0 <= k < segments@[j].file_size
                ==> #[trigger] final(mem).byte_at(
                final(ms).areas@[j].frame_for(
                    (seg_floor(segments@[j]) + k / (PAGE_SIZE as int)) as u64,
                ),
                k % (PAGE_SIZE as int),
            ) == data@[segments@[j].offset + k],
        forall|p: u64| old(ms).owns(p) ==> #[trigger] final(ms).owns(p),
        forall|p: u64| #[trigger] final(ms).owns(p) ==> !live0.contains(p),
        forall|p: u64| #[trigger] final(ms).owns(p) ==> final(alloc).live@.contains(p),
        forall|p: u64| live0.contains(p) ==> #[trigger] final(alloc).live@.contains(p),
        forall|p: u64| #[trigger]
            final(alloc).live@.contains(p) ==> live0.contains(p) || final(ms).owns(p),
        forall|p: u64, q: int|
            !final(ms).owns(p) ==> #[trigger] final(mem).word_at(p, q) == old(mem).word_at(p, q),
    decreases segments@.len(),
{
    let n = segments.len();
    let dlen = data.len();
    let ghost total = total_seg_pages(segments@);
    proof {
        assert forall|j: int| 0 <= j < segments@.len() implies seg_pages(
            #[trigger] segments@[j],
        ) >= 0 by {}
        lemma_total_seg_pages_prefix(segments@, 0);
        assert(segments@.take(0) =~= Seq::<Segment>::empty());
    }
    let mut done: u64 = 0;
    let mut i: usize = 0;
    while i < n
        invariant
            mem.wf(),
            alloc.wf(),
            mem.first_ppn == old(mem).first_ppn,
            mem.pages@.len() == old(mem).pages@.len(),
            alloc.end == old(alloc).end,
            alloc.start@ == old(alloc).start@,
            mem.first_ppn <= alloc.start@,
            alloc.end <= mem.first_ppn + mem.pages@.len(),
            n == segments@.len(),
            dlen == data@.len(),
            0 <= i <= n,
            spec_segs_ok(segments@, data@.len() as int),
            total == total_seg_pages(segments@),
            forall|j: int|
                0 <= j < segments@.len() ==> seg_pages(#[trigger] segments@[j]) >= 0,
            ms.inv(*mem),
            ms.root() == old(ms).root(),
            ms.trampoline_ppn == old(ms).trampoline_ppn,
            ms.areas@.len() == i,
            done == total_seg_pages(segments@.take(i as int)),
            done <= total,
            total <= MAX_LOAD_SEGMENTS * 0x800_0000,
            alloc.free_count() >= old(alloc).free_count() - 3 * done,
            old(alloc).free_count() >= 3 * total + 9,
            forall|j: int|
                0 <= j < i ==> (#[trigger] ms.areas@[j]).start() == seg_floor(segments@[j])
                    && ms.areas@[j].end_vpn() == seg_ceil(segments@[j])
                    && ms.areas@[j].map_type is Framed && ms.areas@[j].map_perm
                    == spec_perm_of_flags(segments@[j].flags),
            forall|j: int, k: int|
                0 <= j < i && 0 <= k < segments@[j].file_size ==> #[trigger] mem.byte_at(
                    ms.areas@[j].frame_for((seg_floor(segments@[j]) + k / (
                    PAGE_SIZE as int)) as u64),
                    k % (PAGE_SIZE as int),
                ) == data@[segments@[j].offset + k],
            forall|p: u64| old(ms).owns(p) ==> #[trigger] ms.owns(p),
            forall|p: u64| #[trigger] ms.owns(p) ==> !live0.contains(p),
            forall|p: u64| #[trigger] ms.owns(p) ==> alloc.live@.contains(p),
            forall|p: u64| live0.contains(p) ==> #[trigger] alloc.live@.contains(p),
            forall|p: u64| #[trigger]
                alloc.live@.contains(p) ==> live0.contains(p) || ms.owns(p),
            forall|p: u64, q: int|
                !ms.owns(p) ==> #[trigger] mem.word_at(p, q) == old(mem).word_at(p, q),
        decreases n - i,
    {
        let s = segments[i];
        proof {
            assert(spec_seg_ok(segments@[i as int], data@.len() as int));
            assert(segments@.take(i + 1).drop_last() =~= segments@.take(i as int));
            assert(segments@.take(i + 1).last() == segments@[i as int]);
            lemma_total_seg_pages_prefix(segments@, i + 1);
        }
        let area = MapArea::new(
            VirtAddr(s.start_va),
            VirtAddr(s.start_va + s.mem_size),
            MapType::Framed,
            perm_of_flags(s.flags),
        );
        let mut chunk: Vec<u8> = Vec::new();
        let mut k: u64 = 0;
        while k < s.file_size
            invariant
                s == segments@[i as int],
                n == segments@.len(),
                dlen == data@.len(),
                0 <= i < n,
                spec_seg_ok(segments@[i as int], data@.len() as int),
                0 <= k <= s.file_size,
                chunk@.len() == k,
                forall|q: int| 0 <= q < k ==> chunk@[q] == data@[s.offset + q],
            decreases s.file_size - k,
        {
            chunk.push(data[(s.offset + k) as usize]);
            k = k + 1;
        }
        let ghost pre_ms = *ms;
        let ghost pre_mem = *mem;
        proof {
            assert forall|a: int|
                0 <= a < ms.areas@.len() implies area.end_vpn() <= (
            #[trigger] ms.areas@[a]).start() || ms.areas@[a].end_vpn() <= area.start() by {
                if a < i {
                    lemma_seg_order(segments@, a, i as int);
                }
            }
        }
        ms.push(mem, alloc, area, Some(chunk.as_slice()));
        proof {
            let ni = i as int;
            assert forall|j: int, k2: int|
                0 <= j < ni + 1 && 0 <= k2 < segments@[j].file_size implies #[trigger] mem.byte_at(
                ms.areas@[j].frame_for((seg_floor(segments@[j]) + k2 / (PAGE_SIZE as int)) as u64),
                k2 % (PAGE_SIZE as int),
            ) == data@[segments@[j].offset + k2] by {
                if j < ni {
                    let fr = pre_ms.areas@[j].frame_for(
                        (seg_floor(segments@[j]) + k2 / (PAGE_SIZE as int)) as u64,
                    );
                    let fidx = (seg_floor(segments@[j]) + k2 / (PAGE_SIZE as int)) - seg_floor(
                        segments@[j],
                    );
                    assert(0 <= fidx < pre_ms.areas@[j].data_frames@.len()) by (nonlinear_arith)
                        requires
                            fidx == k2 / (PAGE_SIZE as int),
                            0 <= k2 < segments@[j].file_size,
                            segments@[j].file_size <= segments@[j].mem_size,
                            pre_ms.areas@[j].data_frames@.len() == seg_ceil(segments@[j])
                                - seg_floor(segments@[j]),
                            seg_ceil(segments@[j]) == (segments@[j].start_va + segments@[j].mem_size
                                + PAGE_SIZE - 1) / (PAGE_SIZE as int),
                            seg_floor(segments@[j]) == segments@[j].start_va as int / (
                            PAGE_SIZE as int),
                            segments@[j].start_va % PAGE_SIZE == 0,
                            PAGE_SIZE == 0x1000,
                    {}
                    assert(pre_ms.areas@[j].data_frames@[fidx].ppn.0 == fr);
                    assert(mem.word_at(fr, (k2 % (PAGE_SIZE as int)) / 8) == pre_mem.word_at(
                        fr,
                        (k2 % (PAGE_SIZE as int)) / 8,
                    ));
                    assert(mem.byte_at(fr, k2 % (PAGE_SIZE as int)) == pre_mem.byte_at(
                        fr,
                        k2 % (PAGE_SIZE as int),
                    ));
                } else {
                    assert(ms.areas@[j] == ms.areas@[ni]);
                }
            }
        }
        let ce: u64 = (s.start_va + s.mem_size + (PAGE_SIZE - 1)) / PAGE_SIZE;
        done = done + (ce - s.start_va / PAGE_SIZE);
        i = i + 1;
        proof {
            assert(segments@.take(i as int).drop_last() =~= segments@.take(i as int - 1));
            assert(segments@.take(i as int).last() == segments@[i as int - 1]);
            lemma_total_seg_pages_prefix(segments@, i as int);
        }
    }
}

/// Build a user address space from parsed load segments: trampoline at the
/// top, each segment as a framed user area loaded with its file bytes,
/// then a guard page, the user stack, and the trap-context page. Returns
/// the space, the initial user stack top and the entry point. Succeeds
/// exactly when the segments are loadable, not too many, and enough
/// frames are free.
#[verifier::rlimit(100)]
#[verifier::spinoff_prover]
pub fn build_user_space(
    segments: &Vec<Segment>,
    data: &[u8],
    entry: u64,
    strampoline: PhysPageNum,
    mem: &mut PhysMem,
    alloc: &mut StackFrameAllocator,
) -> (r: Option<(MemorySet, u64, u64)>)
    requires
        old(mem).wf(),
        old(alloc).wf(),
        strampoline.0 < crate::address::PPN_BOUND,
        old(mem).first_ppn <= old(alloc).start@,
        old(alloc).end <= old(mem).first_ppn + old(mem).pages@.len(),
    ensures
        final(mem).wf(),
        final(alloc).wf(),
        final(mem).first_ppn == old(mem).first_ppn,
        final(mem).pages@.len() == old(mem).pages@.len(),
        final(alloc).end == old(alloc).end,
        final(alloc).start@ == old(alloc).start@,
        r is Some <==> segments@.len() <= MAX_LOAD_SEGMENTS && spec_segs_ok(
            segments@,
            data@.len() as int,
        ) && old(alloc).free_count() >= spec_build_budget(segments@),
        match r {
            Some((ms, user_sp, e)) => {
                &&& ms.inv(*final(mem))
                &&& e == entry
                &&& ms.trampoline_ppn == Some(strampoline.0)
                &&& ms.areas@.len() == segments@.len() + 2
                &&& forall|i: int|
                    0 <= i < segments@.len() ==> (#[trigger] ms.areas@[i]).start() == seg_floor(
                        segments@[i],
                    ) && ms.areas@[i].end_vpn() == seg_ceil(segments@[i])
                        && ms.areas@[i].map_type is Framed && ms.areas@[i].map_perm
                        == spec_perm_of_flags(segments@[i].flags)
                &&& ms.areas@[segments@.len() as int].start() == segs_end(segments@) + 1
                &&& ms.areas@[segments@.len() as int].end_vpn() == segs_end(segments@) + 1
                    + USER_STACK_SIZE / PAGE_SIZE
                &&& ms.areas@[segments@.len() as int].map_type is Framed
                &&& ms.areas@[segments@.len() as int].map_perm == (MAP_PERM_R | MAP_PERM_W
                    | MAP_PERM_U)
                &&& ms.areas@[segments@.len() as int + 1].start() == TRAMP_VPN - 1
                &&& ms.areas@[segments@.len() as int + 1].end_vpn() == TRAMP_VPN
                &&& ms.areas@[segments@.len() as int + 1].map_type is Framed
                &&& ms.areas@[segments@.len() as int + 1].map_perm == (MAP_PERM_R | MAP_PERM_W)
                &&& user_sp == (segs_end(segments@) + 1 + USER_STACK_SIZE / PAGE_SIZE) * (
                PAGE_SIZE as int)
                &&& forall|i: int, k: int|
                    0 <= i < segments@.len() && 0 <= k < segments@[i].file_size
                        ==> #[trigger] final(mem).byte_at(
                        ms.areas@[i].frame_for((seg_floor(segments@[i]) + k / (
                        PAGE_SIZE as int)) as u64),
                        k % (PAGE_SIZE as int),
                    ) == data@[segments@[i].offset + k]
                &&& forall|p: u64| #[trigger] ms.owns(p) ==> !old(alloc).live@.contains(p)
                &&& forall|p: u64| #[trigger] ms.owns(p) ==> final(alloc).live@.contains(p)
                &&& forall|p: u64|
                    old(alloc).live@.contains(p) ==> #[trigger] final(alloc).live@.contains(p)
                &&& forall|p: u64| #[trigger]
                    final(alloc).live@.contains(p) ==> old(alloc).live@.contains(p) || ms.owns(p)
                &&& forall|p: u64, i: int|
                    !ms.owns(p) ==> #[trigger] final(mem).word_at(p, i) == old(mem).word_at(p, i)
            },
            None => *final(mem) == *old(mem) && *final(alloc) == *old(alloc),
        },
{
    let total = match check_load_segments(segments, data) {
        Some(total) => total,
        None => {
            return None;
        },
    };
    let needed: u64 = 3 * total + 12;
    if !alloc.has_free(needed) {
        return None;
    }
    let ghost live0 = alloc.live@;
    let mut ms = MemorySet::new_bare(mem, alloc);
    let ghost mem_z = *mem;
    let ghost ms_z = ms;
    ms.map_trampoline(mem, alloc, strampoline);
    let ghost ms_a = ms;
    let ghost mem_a = *mem;
    push_segments(&mut ms, segments, data, mem, alloc, Ghost(live0));
    let ghost ms_b = ms;
    let ghost mem_b = *mem;
    // Guard page, then the user stack.
    let n = segments.len();
    let max_end: u64 = if n > 0 {
        let last = segments[n - 1];
        (last.start_va + last.mem_size + (PAGE_SIZE - 1)) / PAGE_SIZE
    } else {
        0
    };
    proof {
        if n > 0 {
            assert(segments@[n - 1] == segments@.last());
        }
        assert(max_end == segs_end(segments@));
        assert forall|a: int| 0 <= a < ms.areas@.len() implies seg_ceil(
            #[trigger] segments@[a],
        ) <= segs_end(segments@) by {
            assert forall|q: int|
                0 <= q < segments@.len() implies seg_floor(#[trigger] segments@[q]) <= seg_ceil(
                segments@[q],
            ) by {}
            lemma_seg_below_end(segments@, a);
        }
    }
    let stack_bottom_vpn: u64 = max_end + 1;
    let user_stack_bottom: u64 = stack_bottom_vpn * PAGE_SIZE;
    let user_stack_top: u64 = user_stack_bottom + USER_STACK_SIZE;
    let stack_area = MapArea::new(
        VirtAddr(user_stack_bottom),
        VirtAddr(user_stack_top),
        MapType::Framed,
        MAP_PERM_R | MAP_PERM_W | MAP_PERM_U,
    );
    ms.push(mem, alloc, stack_area, None);
    let ghost ms_c = ms;
    let ghost mem_c = *mem;
    // The trap context page, just below the trampoline.
    let trap_area = MapArea::new(
        VirtAddr::from_raw(TRAP_CONTEXT),
        VirtAddr::from_raw(crate::config::TRAMPOLINE),
        MapType::Framed,
        MAP_PERM_R | MAP_PERM_W,
    );
    proof {
        assert(0xffff_ffff_ffff_e000u64 % 0x80_0000_0000u64 == 0x7f_ffff_e000u64) by (bit_vector);
        assert(0xffff_ffff_ffff_f000u64 % 0x80_0000_0000u64 == 0x7f_ffff_f000u64) by (bit_vector);
        assert(TRAP_CONTEXT == 0xffff_ffff_ffff_e000u64);
        assert(crate::config::TRAMPOLINE == 0xffff_ffff_ffff_f000u64);
    }
    ms.push(mem, alloc, trap_area, None);
    proof {
        let n0 = segments@.len() as int;
        // Frames of the loaded segments kept their bytes through the two
        // later pushes, and memory outside the space never changed.
        assert forall|p: u64, q: int| !ms.owns(p) implies #[trigger] mem.word_at(p, q) == old(
            mem,
        ).word_at(p, q) by {
            assert(!ms_c.owns(p));
            assert(!ms_b.owns(p));
            assert(!ms_a.owns(p));
            assert(!ms_z.owns(p));
            assert(p != ms_z.root());
            assert(mem.word_at(p, q) == mem_c.word_at(p, q));
            assert(mem_c.word_at(p, q) == mem_b.word_at(p, q));
            assert(mem_b.word_at(p, q) == mem_a.word_at(p, q));
            assert(mem_a.word_at(p, q) == mem_z.word_at(p, q));
            assert(mem_z.word_at(p, q) == old(mem).word_at(p, q));
        }
        assert forall|i: int, k: int|
            0 <= i < n0 && 0 <= k < segments@[i].file_size implies #[trigger] mem.byte_at(
            ms.areas@[i].frame_for((seg_floor(segments@[i]) + k / (PAGE_SIZE as int)) as u64),
            k % (PAGE_SIZE as int),
        ) == data@[segments@[i].offset + k] by {
            let vk = (seg_floor(segments@[i]) + k / (PAGE_SIZE as int)) as u64;
            let fr = ms_b.areas@[i].frame_for(vk);
            let fidx = vk - ms_b.areas@[i].start();
            assert(0 <= fidx < ms_b.areas@[i].data_frames@.len()) by (nonlinear_arith)
                requires
                    fidx == vk - ms_b.areas@[i].start(),
                    vk == seg_floor(segments@[i]) + k / (PAGE_SIZE as int),
                    ms_b.areas@[i].start() == seg_floor(segments@[i]),
                    0 <= k < segments@[i].file_size,
                    segments@[i].file_size <= segments@[i].mem_size,
                    ms_b.areas@[i].data_frames@.len() == seg_ceil(segments@[i]) - seg_floor(
                        segments@[i],
                    ),
                    seg_ceil(segments@[i]) == (segments@[i].start_va + segments@[i].mem_size
                        + PAGE_SIZE - 1) / (PAGE_SIZE as int),
                    seg_floor(segments@[i]) == segments@[i].start_va as int / (PAGE_SIZE as int),
                    segments@[i].start_va % PAGE_SIZE == 0,
                    PAGE_SIZE == 0x1000,
            {}
            assert(ms_b.areas@[i].data_frames@[fidx as int].ppn.0 == fr);
            assert(mem_c.word_at(fr, (k % (PAGE_SIZE as int)) / 8) == mem_b.word_at(
                fr,
                (k % (PAGE_SIZE as int)) / 8,
            ));
            assert(mem.word_at(fr, (k % (PAGE_SIZE as int)) / 8) == mem_c.word_at(
                fr,
                (k % (PAGE_SIZE as int)) / 8,
            ));
            assert(ms.areas@[i] == ms_b.areas@[i]);
            assert(mem.byte_at(fr, k % (PAGE_SIZE as int)) == mem_b.byte_at(
                fr,
                k % (PAGE_SIZE as int),
            ));
        }
    }
    Some((ms, user_stack_top, entry))
}

/// The total page count of a run of segments is at least that of any
/// prefix.
proof fn lemma_total_seg_pages_prefix(segs: Seq<Segment>, i: int)
    requires
        0 <= i <= segs.len(),
        forall|j: int| 0 <= j < segs.len() ==> seg_pages(#[trigger] segs[j]) >= 0,
    ensures
        total_seg_pages(segs.take(i)) <= total_seg_pages(segs),
    decreases segs.len() - i,
{
    if i == segs.len() {
        assert(segs.take(i) =~= segs);
    } else {
        lemma_total_seg_pages_prefix(segs, i + 1);
        assert(segs.take(i + 1).drop_last() =~= segs.take(i));
        assert(segs.take(i + 1).last() == segs[i]);
    }
}

/// In an ascending run, earlier segments end at or before later ones
/// start.
proof fn lemma_seg_order(segs: Seq<Segment>, a: int, b: int)
    requires
        0 <= a < b < segs.len(),
        forall|i: int| 0 <= i < segs.len() - 1 ==> seg_ceil(#[trigger] segs[i]) <= seg_floor(
            segs[i + 1],
        ),
        forall|i: int| 0 <= i < segs.len() ==> seg_floor(#[trigger] segs[i]) <= seg_ceil(segs[i]),
    ensures
        seg_ceil(segs[a]) <= seg_floor(segs[b]),
    decreases b - a,
{
    if a + 1 < b {
        lemma_seg_order(segs, a + 1, b);
    }
}

/// In an ascending run, every segment ends at or before the run's end.
proof fn lemma_seg_below_end(segs: Seq<Segment>, a: int)
    requires
        0 <= a < segs.len(),
        forall|i: int| 0 <= i < segs.len() - 1 ==> seg_ceil(#[trigger] segs[i]) <= seg_floor(
            segs[i + 1],
        ),
        forall|i: int| 0 <= i < segs.len() ==> seg_floor(#[trigger] segs[i]) <= seg_ceil(segs[i]),
    ensures
        seg_ceil(segs[a]) <= segs_end(segs),
    decreases segs.len() - a,
{
    if a < segs.len() - 1 {
        lemma_seg_below_end(segs, a + 1);
        lemma_seg_order(segs, a, a + 1);
    }
}

impl MemorySet {
    /// Build a user address space from an ELF image: parse the load
    /// segments through the trusted parser, then hand them to the verified
    /// builder. Returns the space, the initial user stack top and the
    /// entry point, or none when the image does not parse or cannot be
    /// read where it sits, its segments are not loadable, or the frames
    /// run out. Success pins the space to the image's named program
    /// headers: one framed area per load segment at its pages with its
    /// permission and its file bytes, then the user stack and the
    /// trap-context page; and an image whose named segments are not
    /// loadable, or that needs more frames than are free, is always
    /// refused.
    pub fn from_elf(
        data: &[u8],
        strampoline: PhysPageNum,
        mem: &mut PhysMem,
        alloc: &mut StackFrameAllocator,
    ) -> (r: Option<(MemorySet, u64, u64)>)
        requires
            old(mem).wf(),
            old(alloc).wf(),
            strampoline.0 < crate::address::PPN_BOUND,
            old(mem).first_ppn <= old(alloc).start@,
            old(alloc).end <= old(mem).first_ppn + old(mem).pages@.len(),
        ensures
            final(mem).wf(),
            final(alloc).wf(),
            final(mem).first_ppn == old(mem).first_ppn,
            final(mem).pages@.len() == old(mem).pages@.len(),
            final(alloc).end == old(alloc).end,
            final(alloc).start@ == old(alloc).start@,
            !(spec_elf_parses(data@) && elf_segs_of(data@).len() <= MAX_LOAD_SEGMENTS
                && spec_segs_ok(elf_segs_of(data@), data@.len() as int) && old(
                alloc,
            ).free_count() >= spec_build_budget(elf_segs_of(data@))) ==> r is None,
            match r {
                Some((ms, user_sp, e)) => {
                    &&& spec_elf_parses(data@)
                    &&& e == elf_entry_of(data@)
                    &&& elf_segs_of(data@).len() <= MAX_LOAD_SEGMENTS
                    &&& spec_segs_ok(elf_segs_of(data@), data@.len() as int)
                    &&& old(alloc).free_count() >= spec_build_budget(elf_segs_of(data@))
                    &&& ms.areas@.len() == elf_segs_of(data@).len() + 2
                    &&& forall|i: int|
                        0 <= i < elf_segs_of(data@).len() ==> (#[trigger] ms.areas@[i]).start()
                            == seg_floor(elf_segs_of(data@)[i]) && ms.areas@[i].end_vpn()
                            == seg_ceil(elf_segs_of(data@)[i]) && ms.areas@[i].map_perm
                            == spec_perm_of_flags(elf_segs_of(data@)[i].flags)
                    &&& user_sp == (segs_end(elf_segs_of(data@)) + 1 + USER_STACK_SIZE / PAGE_SIZE)
                        * (PAGE_SIZE as int)
                    &&& forall|i: int, k: int|
                        0 <= i < elf_segs_of(data@).len() && 0 <= k < elf_segs_of(
                            data@,
                        )[i].file_size ==> #[trigger] final(mem).byte_at(
                            ms.areas@[i].frame_for(
                                (seg_floor(elf_segs_of(data@)[i]) + k / (PAGE_SIZE as int)) as u64,
                            ),
                            k % (PAGE_SIZE as int),
                        ) == data@[elf_segs_of(data@)[i].offset + k]
                    &&& ms.inv(*final(mem))
                    &&& ms.trampoline_ppn == Some(strampoline.0)
                    &&& ms.areas@.len() >= 2
                    &&& ms.areas@[ms.areas@.len() - 1].start() == TRAMP_VPN - 1
                    &&& ms.areas@[ms.areas@.len() - 1].end_vpn() == TRAMP_VPN
                    &&& ms.areas@[ms.areas@.len() - 1].map_type is Framed
                    &&& ms.areas@[ms.areas@.len() - 1].map_perm == (MAP_PERM_R | MAP_PERM_W)
                    &&& ms.areas@[ms.areas@.len() - 2].map_type is Framed
                    &&& ms.areas@[ms.areas@.len() - 2].map_perm == (MAP_PERM_R | MAP_PERM_W
                        | MAP_PERM_U)
                    &&& forall|a: int|
                        0 <= a < ms.areas@.len() ==> (#[trigger] ms.areas@[a]).map_type is Framed
                    &&& user_sp == ms.areas@[ms.areas@.len() - 2].end_vpn() * (PAGE_SIZE as int)
                    &&& forall|p: u64| #[trigger] ms.owns(p) ==> !old(alloc).live@.contains(p)
                    &&& forall|p: u64| #[trigger] ms.owns(p) ==> final(alloc).live@.contains(p)
                    &&& forall|p: u64|
                        old(alloc).live@.contains(p) ==> #[trigger] final(alloc).live@.contains(
                            p,
                        )
                    &&& forall|p: u64| #[trigger]
                        final(alloc).live@.contains(p) ==> old(alloc).live@.contains(p)
                            || ms.owns(p)
                    &&& forall|p: u64, i: int|
                        !ms.owns(p) ==> #[trigger] final(mem).word_at(p, i) == old(
                            mem,
                        ).word_at(p, i)
                },
                None => *final(mem) == *old(mem) && *final(alloc) == *old(alloc),
            },
    {
        let parsed = match parse_load_segments(data) {
            Some(parsed) => parsed,
            None => {
                return None;
            },
        };
        let (entry, segments) = parsed;
        build_user_space(&segments, data, entry, strampoline, mem, alloc)
    }
}

} // verus!
