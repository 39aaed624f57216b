use sv39os::address::PhysPageNum;
use sv39os::frame_allocator::{frame_alloc, frame_dealloc, StackFrameAllocator};
use sv39os::phys_mem::PhysMem;

#[test]
fn alloc_issues_ascending_then_recycles() {
    let mut a = StackFrameAllocator::new();
    a.init(PhysPageNum(100), PhysPageNum(105));
    assert_eq!(a.alloc_frame().unwrap().0, 100);
    assert_eq!(a.alloc_frame().unwrap().0, 101);
    assert_eq!(a.alloc_frame().unwrap().0, 102);
    a.dealloc(PhysPageNum(101));
    // The recycled frame is handed out before any unissued one.
    assert_eq!(a.alloc_frame().unwrap().0, 101);
    assert_eq!(a.alloc_frame().unwrap().0, 103);
    assert_eq!(a.alloc_frame().unwrap().0, 104);
    assert!(a.alloc_frame().is_none());
}

#[test]
fn exhaustion_and_reuse() {
    let mut a = StackFrameAllocator::new();
    a.init(PhysPageNum(10), PhysPageNum(12));
    let f0 = a.alloc_frame().unwrap();
    let f1 = a.alloc_frame().unwrap();
    assert!(a.alloc_frame().is_none());
    a.dealloc(f1);
    a.dealloc(f0);
    // Last returned, first reissued.
    assert_eq!(a.alloc_frame().unwrap().0, 10);
    assert_eq!(a.alloc_frame().unwrap().0, 11);
}

#[test]
fn has_free_counts_recycled_and_unissued() {
    let mut a = StackFrameAllocator::new();
    a.init(PhysPageNum(0x200), PhysPageNum(0x204));
    assert!(a.has_free(4));
    assert!(!a.has_free(5));
    let f = a.alloc_frame().unwrap();
    assert!(a.has_free(3));
    assert!(!a.has_free(4));
    a.dealloc(f);
    assert!(a.has_free(4));
}

#[test]
fn frame_alloc_zeroes_the_frame() {
    let mut mem = PhysMem::new_zeroed(0x100, 8);
    let mut a = StackFrameAllocator::new();
    a.init(PhysPageNum(0x100), PhysPageNum(0x108));
    let ft = frame_alloc(&mut a, &mut mem).unwrap();
    // Scribble, free, and reallocate: the frame comes back zeroed.
    mem.write_word(ft.ppn.0, 7, 0xdead_beef);
    let ppn = ft.ppn.0;
    frame_dealloc(&mut a, ft);
    let mut got = None;
    loop {
        match frame_alloc(&mut a, &mut mem) {
            Some(f) => {
                if f.ppn.0 == ppn {
                    got = Some(f);
                    break;
                }
            },
            None => break,
        }
    }
    let f = got.expect("the recycled frame comes around again");
    assert_eq!(mem.read_word(f.ppn.0, 7), 0);
}

#[test]
fn alloc_after_exhaustion_keeps_failing() {
    let mut a = StackFrameAllocator::new();
    a.init(PhysPageNum(5), PhysPageNum(5));
    assert!(a.alloc_frame().is_none());
    assert!(a.alloc_frame().is_none());
}
