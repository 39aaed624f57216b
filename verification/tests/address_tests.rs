use sv39os::address::{PhysAddr, PhysPageNum, SimpleInterval, SimpleRange, StepByOne, VirtAddr, VirtPageNum};
use sv39os::config::{kernel_stack_position, KERNEL_STACK_SIZE, PAGE_SIZE, TRAMPOLINE};
use sv39os::cpu::Cpu;
use sv39os::page_table::{PageTableEntry, PTE_R, PTE_V, PTE_W, PTE_X};
use sv39os::timer::{get_time_ms, get_time_us, set_next_trigger};

#[test]
fn phys_addr_floor_ceil() {
    assert_eq!(PhysAddr(0x80200000).floor().0, 0x80200);
    assert_eq!(PhysAddr(0x80200001).floor().0, 0x80200);
    assert_eq!(PhysAddr(0x80200000).ceil().0, 0x80200);
    assert_eq!(PhysAddr(0x80200001).ceil().0, 0x80201);
    assert_eq!(PhysAddr(0).ceil().0, 0);
    assert_eq!(PhysAddr(0x123).page_offset(), 0x123);
    assert!(PhysAddr(0x1000).aligned());
    assert!(!PhysAddr(0x1001).aligned());
}

#[test]
fn virt_addr_floor_ceil() {
    assert_eq!(VirtAddr(0x10000).floor().0, 0x10);
    assert_eq!(VirtAddr(0x10fff).floor().0, 0x10);
    assert_eq!(VirtAddr(0x10001).ceil().0, 0x11);
    assert_eq!(VirtAddr(0).ceil().0, 0);
    assert_eq!(VirtAddr(0xabc).page_offset(), 0xabc);
    assert!(VirtAddr(0x2000).aligned());
    assert!(!VirtAddr(0x2001).aligned());
}

#[test]
fn addr_truncation() {
    assert_eq!(VirtAddr::from_raw(u64::MAX).0, (1u64 << 39) - 1);
    assert_eq!(PhysAddr::from_raw(u64::MAX).0, (1u64 << 56) - 1);
    assert_eq!(VirtPageNum::from_raw(1 << 27).0, 0);
    assert_eq!(PhysPageNum::from_raw((1 << 44) + 5).0, 5);
}

#[test]
fn sign_extension() {
    // A high-half address comes out next to the top of the 64-bit space.
    let top_page = VirtAddr((1u64 << 39) - 0x1000);
    assert_eq!(top_page.sign_extended(), TRAMPOLINE);
    // A low address is unchanged.
    assert_eq!(VirtAddr(0x10000).sign_extended(), 0x10000);
}

#[test]
fn vpn_indexes() {
    let vpn = VirtPageNum((3 << 18) | (5 << 9) | 7);
    let idx = vpn.indexes();
    assert_eq!(idx, [3, 5, 7]);
    assert_eq!(VirtPageNum::one().0, 1);
}

#[test]
fn interval_iteration() {
    let iv = SimpleInterval::new(VirtPageNum(4), VirtPageNum(7));
    assert_eq!(iv.start().0, 4);
    assert_eq!(iv.end().0, 7);
    let mut cursor = iv.pages();
    let mut seen: Vec<u64> = Vec::new();
    while let Some(v) = cursor.next() {
        seen.push(v.0);
    }
    assert_eq!(seen, vec![4, 5, 6]);
    let mut empty = SimpleRange::new(VirtPageNum(9), VirtPageNum(9));
    assert!(empty.next().is_none());
    assert_eq!(VirtPageNum::forward_one(VirtPageNum(41)).0, 42);
}

#[test]
fn kernel_stack_positions_descend_with_guard_gaps() {
    let (b0, t0) = kernel_stack_position(0);
    let (b1, t1) = kernel_stack_position(1);
    assert_eq!(t0, TRAMPOLINE);
    assert_eq!(t0 - b0, KERNEL_STACK_SIZE);
    assert_eq!(b0 - t1, PAGE_SIZE);
    assert_eq!(t1 - b1, KERNEL_STACK_SIZE);
}

#[test]
fn pte_fields_round_trip() {
    let pte = PageTableEntry::new(PhysPageNum(0x80203), PTE_R | PTE_W | PTE_V);
    assert_eq!(pte.ppn().0, 0x80203);
    assert!(pte.is_valid());
    assert!(pte.readable());
    assert!(pte.writable());
    assert!(!pte.executable());
    let empty = PageTableEntry::empty();
    assert!(!empty.is_valid());
    let x = PageTableEntry::new(PhysPageNum(1), PTE_X);
    assert!(!x.is_valid());
    assert!(x.executable());
}

#[test]
fn timer_conversions() {
    // CLOCK_FREQ is ten million ticks a second.
    assert_eq!(get_time_ms(10_000_000), 1000);
    assert_eq!(get_time_us(10_000_000), 1_000_000);
    assert_eq!(get_time_ms(25_000), 2);
    assert_eq!(set_next_trigger(0), 100_000);
    assert_eq!(set_next_trigger(42), 100_042);
}

#[test]
fn cpu_activation_state() {
    let mut cpu = Cpu::boot();
    assert_eq!(cpu.satp, 0);
    cpu.write_satp_and_fence(0x8000_0000_0008_0200);
    assert_eq!(cpu.satp, 0x8000_0000_0008_0200);
    assert!(cpu.tlb.is_empty());
    // Writing the same token twice leaves the same translation state.
    let satp1 = cpu.satp;
    let tlb1 = cpu.tlb.len();
    cpu.write_satp_and_fence(0x8000_0000_0008_0200);
    assert_eq!(cpu.satp, satp1);
    assert_eq!(cpu.tlb.len(), tlb1);
    cpu.write_stvec(0x1234);
    assert_eq!(cpu.stvec, 0x1234);
    cpu.enable_timer_interrupt();
    assert!(cpu.sie_stimer);
}
