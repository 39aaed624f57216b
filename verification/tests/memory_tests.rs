use sv39os::address::{PhysPageNum, VirtAddr, VirtPageNum};
use sv39os::config::PAGE_SIZE;
use sv39os::frame_allocator::StackFrameAllocator;
use sv39os::memory_set::{MapArea, MapType, MemorySet, MAP_PERM_R, MAP_PERM_U, MAP_PERM_W, TRAMP_VPN};
use sv39os::page_table::{translated_byte_buffer, PageTable, PTE_R, PTE_V, PTE_W};
use sv39os::phys_mem::PhysMem;

fn small_world() -> (PhysMem, StackFrameAllocator) {
    let mem = PhysMem::new_zeroed(0x80204, 0x100);
    let mut alloc = StackFrameAllocator::new();
    alloc.init(PhysPageNum(0x80204), PhysPageNum(0x80304));
    (mem, alloc)
}

#[test]
fn phys_mem_words_and_bytes() {
    let mut mem = PhysMem::new_zeroed(0x10, 2);
    assert!(mem.contains(0x10));
    assert!(mem.contains(0x11));
    assert!(!mem.contains(0x12));
    mem.write_word(0x10, 3, 0x1122_3344_5566_7788);
    assert_eq!(mem.read_word(0x10, 3), 0x1122_3344_5566_7788);
    // Little-endian byte view of the same word.
    assert_eq!(mem.read_byte(0x10, 24), 0x88);
    assert_eq!(mem.read_byte(0x10, 31), 0x11);
    mem.write_byte(0x10, 24, 0xff);
    assert_eq!(mem.read_word(0x10, 3), 0x1122_3344_5566_77ff);
    // The neighbouring frame is untouched.
    assert_eq!(mem.read_word(0x11, 3), 0);
}

#[test]
fn page_table_map_translate_unmap() {
    let (mut mem, mut alloc) = small_world();
    let mut pt = PageTable::new(&mut mem, &mut alloc);
    let vpn = VirtPageNum(0x12345);
    assert!(pt.translate(&mem, vpn).is_none());
    pt.map(&mut mem, &mut alloc, vpn, PhysPageNum(0x80250), PTE_R | PTE_W);
    let pte = pt.translate(&mem, vpn).unwrap();
    assert!(pte.is_valid());
    assert!(pte.readable());
    assert!(pte.writable());
    assert_eq!(pte.ppn().0, 0x80250);
    // A neighbouring page stays unmapped: its leaf slot, if reachable,
    // is invalid.
    let neighbour = pt.translate(&mem, VirtPageNum(0x12346));
    assert!(neighbour.is_none() || !neighbour.unwrap().is_valid());
    pt.unmap(&mut mem, vpn);
    let after = pt.translate(&mem, vpn);
    assert!(after.is_none() || !after.unwrap().is_valid());
}

#[test]
fn page_table_token_round_trip() {
    let (mut mem, mut alloc) = small_world();
    let pt = PageTable::new(&mut mem, &mut alloc);
    let token = pt.token(&mem);
    assert_eq!(token >> 60, 8);
    let view = PageTable::from_token(token);
    assert_eq!(view.root_ppn, pt.root_ppn);
}

#[test]
fn translated_buffer_reads_across_pages() {
    let (mut mem, mut alloc) = small_world();
    let mut pt = PageTable::new(&mut mem, &mut alloc);
    // Map two consecutive virtual pages onto two frames and fill their
    // boundary with recognizable bytes.
    pt.map(&mut mem, &mut alloc, VirtPageNum(0x40), PhysPageNum(0x80260), PTE_R | PTE_V);
    pt.map(&mut mem, &mut alloc, VirtPageNum(0x41), PhysPageNum(0x80261), PTE_R | PTE_V);
    mem.write_byte(0x80260, 0xffe, b'a');
    mem.write_byte(0x80260, 0xfff, b'b');
    mem.write_byte(0x80261, 0x000, b'c');
    mem.write_byte(0x80261, 0x001, b'd');
    let token = pt.token(&mem);
    let va = 0x40u64 * PAGE_SIZE + 0xffe;
    let chunks = translated_byte_buffer(&mem, token, va, 4).unwrap();
    let flat: Vec<u8> = chunks.into_iter().flatten().collect();
    assert_eq!(flat, b"abcd");
    // An unmapped byte in the range refuses the whole buffer.
    assert!(translated_byte_buffer(&mem, token, 0x42 * PAGE_SIZE, 1).is_none());
    assert!(translated_byte_buffer(&mem, token, va, PAGE_SIZE * 3).is_none());
}

#[test]
fn memory_set_framed_area_with_data() {
    let (mut mem, mut alloc) = small_world();
    let mut ms = MemorySet::new_bare(&mut mem, &mut alloc);
    ms.map_trampoline(&mut mem, &mut alloc, PhysPageNum(0x80200));
    let area = MapArea::new(
        VirtAddr(0x5000),
        VirtAddr(0x7000),
        MapType::Framed,
        MAP_PERM_R | MAP_PERM_W | MAP_PERM_U,
    );
    let data: Vec<u8> = b"paged bytes".to_vec();
    ms.push(&mut mem, &mut alloc, area, Some(data.as_slice()));
    let token = ms.token(&mem);
    let chunks = translated_byte_buffer(&mem, token, 0x5000, data.len() as u64).unwrap();
    let flat: Vec<u8> = chunks.into_iter().flatten().collect();
    assert_eq!(flat, data);
    // Past the copied data the fresh frames read zero.
    let tail = translated_byte_buffer(&mem, token, 0x5000 + data.len() as u64, 4).unwrap();
    let flat_tail: Vec<u8> = tail.into_iter().flatten().collect();
    assert_eq!(flat_tail, vec![0, 0, 0, 0]);
}

#[test]
fn memory_set_unmap_returns_frames() {
    let (mut mem, mut alloc) = small_world();
    let mut pt = PageTable::new(&mut mem, &mut alloc);
    let before = {
        let mut n = 0u64;
        while alloc.has_free(n + 1) {
            n += 1;
        }
        n
    };
    let mut area = MapArea::new(VirtAddr(0x9000), VirtAddr(0xb000), MapType::Framed, MAP_PERM_R);
    area.map(&mut pt, &mut mem, &mut alloc);
    assert!(pt.translate(&mem, VirtPageNum(9)).unwrap().is_valid());
    area.unmap(&mut pt, &mut mem, &mut alloc);
    let gone = pt.translate(&mem, VirtPageNum(9));
    assert!(gone.is_none() || !gone.unwrap().is_valid());
    let after = {
        let mut n = 0u64;
        while alloc.has_free(n + 1) {
            n += 1;
        }
        n
    };
    // The two data frames came back; the node frames stay with the table.
    assert_eq!(after + 2, before);
}

#[test]
fn kernel_space_sections_and_permissions() {
    let (mut mem, mut alloc) = small_world();
    let mmio: Vec<(u64, u64)> = vec![(0x1000_0000, 0x1000)];
    let ms = MemorySet::new_kernel(
        0x8020_0000,
        0x8020_1000,
        0x8020_1000,
        0x8020_2000,
        0x8020_2000,
        0x8020_3000,
        0x8020_3000,
        0x8020_4000,
        0x8020_4000,
        0x8030_4000,
        &mmio,
        PhysPageNum(0x80200),
        &mut mem,
        &mut alloc,
    )
    .unwrap();
    // Mid-text is mapped read-execute but not writable; mid-data is
    // mapped read-write but not executable.
    let text = ms.translate(&mem, VirtAddr(0x8020_0800).floor()).unwrap();
    assert!(text.is_valid());
    assert!(!text.writable());
    assert!(text.executable());
    assert_eq!(text.ppn().0, 0x80200);
    let rodata = ms.translate(&mem, VirtAddr(0x8020_1800).floor()).unwrap();
    assert!(rodata.is_valid());
    assert!(!rodata.writable());
    let data = ms.translate(&mem, VirtAddr(0x8020_2800).floor()).unwrap();
    assert!(data.writable());
    assert!(!data.executable());
    let window = ms.translate(&mem, VirtAddr(0x1000_0000).floor()).unwrap();
    assert!(window.is_valid());
    assert!(window.writable());
    // The trampoline sits on the top page, read-execute.
    let tramp = ms.translate(&mem, VirtPageNum(TRAMP_VPN)).unwrap();
    assert!(tramp.is_valid());
    assert!(tramp.executable());
    assert_eq!(tramp.ppn().0, 0x80200);
}

#[test]
fn identical_area_maps_page_to_itself() {
    let (mut mem, mut alloc) = small_world();
    let mut pt = PageTable::new(&mut mem, &mut alloc);
    let mut area = MapArea::new(
        VirtAddr(0x80205000),
        VirtAddr(0x80206000),
        MapType::Identical,
        MAP_PERM_R | MAP_PERM_W,
    );
    area.map(&mut pt, &mut mem, &mut alloc);
    let pte = pt.translate(&mem, VirtPageNum(0x80205)).unwrap();
    assert!(pte.is_valid());
    assert_eq!(pte.ppn().0, 0x80205);
}
