use sv39os::address::PhysPageNum;
use sv39os::config::{CLOCK_FREQ, TICKS_PER_SEC};
use sv39os::kernel::{Kernel, Schedule, TrapCause, SYSCALL_EXIT, SYSCALL_GET_TIME, SYSCALL_WRITE, SYSCALL_YIELD};
use sv39os::page_table::translated_byte_buffer;
use sv39os::task::TaskStatus;

fn push_u16(v: &mut Vec<u8>, x: u16) {
    v.extend_from_slice(&x.to_le_bytes());
}

fn push_u32(v: &mut Vec<u8>, x: u32) {
    v.extend_from_slice(&x.to_le_bytes());
}

fn push_u64(v: &mut Vec<u8>, x: u64) {
    v.extend_from_slice(&x.to_le_bytes());
}

/// A minimal 64-bit little-endian RISC-V ELF with one loadable segment.
fn build_elf(entry: u64, vaddr: u64, mem_size: u64, data: &[u8], flags: u32) -> Vec<u8> {
    let mut v: Vec<u8> = Vec::new();
    // e_ident
    v.extend_from_slice(&[0x7f, b'E', b'L', b'F', 2, 1, 1, 0, 0, 0, 0, 0, 0, 0, 0, 0]);
    push_u16(&mut v, 2); // e_type: executable
    push_u16(&mut v, 0xf3); // e_machine: RISC-V
    push_u32(&mut v, 1); // e_version
    push_u64(&mut v, entry);
    push_u64(&mut v, 64); // e_phoff
    push_u64(&mut v, 0); // e_shoff
    push_u32(&mut v, 0); // e_flags
    push_u16(&mut v, 64); // e_ehsize
    push_u16(&mut v, 56); // e_phentsize
    push_u16(&mut v, 1); // e_phnum
    push_u16(&mut v, 0); // e_shentsize
    push_u16(&mut v, 0); // e_shnum
    push_u16(&mut v, 0); // e_shstrndx
    // One program header at offset 64; file data at offset 120.
    push_u32(&mut v, 1); // p_type: load
    push_u32(&mut v, flags); // p_flags
    push_u64(&mut v, 120); // p_offset
    push_u64(&mut v, vaddr);
    push_u64(&mut v, vaddr); // p_paddr
    push_u64(&mut v, data.len() as u64); // p_filesz
    push_u64(&mut v, mem_size); // p_memsz
    push_u64(&mut v, 0x1000); // p_align
    v.extend_from_slice(data);
    v
}

fn boot_with(apps: Vec<Vec<u8>>) -> Kernel {
    let mmio: Vec<(u64, u64)> = Vec::new();
    Kernel::boot(
        0x8020_0000,
        0x8020_1000,
        0x8020_1000,
        0x8020_2000,
        0x8020_2000,
        0x8020_3000,
        0x8020_3000,
        0x8020_4000,
        0x8020_4000,
        0x8040_0000,
        &mmio,
        PhysPageNum(0x80200),
        &apps,
        0x8020_0100,
        0x8020_0200,
    )
    .expect("the layout and the images are acceptable")
}

fn hello_app(text: &[u8]) -> Vec<u8> {
    build_elf(0x10000, 0x10000, 0x1000, text, 7)
}

/// Drive one system call of the current task through the trap path.
fn ecall(k: &mut Kernel, id: u64, a0: u64, a1: u64, a2: u64, ticks: u64) -> sv39os::kernel::GateOutput {
    let mut cx = k.current_trap_cx();
    cx.x[17] = id;
    cx.x[10] = a0;
    cx.x[11] = a1;
    cx.x[12] = a2;
    k.store_current_trap_cx(&cx);
    k.trap_handler(TrapCause::UserEnvCall, 0, ticks)
}

#[test]
fn boot_builds_ready_tasks() {
    let k = boot_with(vec![hello_app(b"Hi"), hello_app(b"Yo")]);
    assert_eq!(k.task_manager.num_app, 2);
    assert_eq!(k.task_manager.current_task, 0);
    assert!(matches!(k.task_manager.tasks[0].task_status, TaskStatus::Ready));
    assert!(matches!(k.task_manager.tasks[1].task_status, TaskStatus::Ready));
    // The initial trap context: user stack in x2, entry in sepc, the
    // kernel's own satp and the handler address planted behind them.
    let cx = k.current_trap_cx();
    assert_eq!(cx.sepc, 0x10000);
    assert_eq!(cx.x[2], k.task_manager.tasks[0].base_size);
    assert_eq!(cx.trap_handler, 0x8020_0200);
    assert_eq!(cx.sstatus & sv39os::trap_context::SSTATUS_SPP, 0);
}

#[test]
fn write_to_stdout_delivers_bytes() {
    let mut k = boot_with(vec![hello_app(b"Hi")]);
    k.run_first_task();
    let out = ecall(&mut k, SYSCALL_WRITE, 1, 0x10000, 2, 0);
    assert_eq!(out.ret, 2);
    assert_eq!(out.console, b"Hi".to_vec());
    // The return value lands in the task's x10 and sepc stepped past the
    // ecall.
    let cx = k.current_trap_cx();
    assert_eq!(cx.x[10], 2);
    assert_eq!(cx.sepc, 0x10004);
}

#[test]
fn write_rejects_bad_fd_and_unmapped_buffer() {
    let mut k = boot_with(vec![hello_app(b"Hi")]);
    k.run_first_task();
    let bad_fd = ecall(&mut k, SYSCALL_WRITE, 2, 0x10000, 2, 0);
    assert_eq!(bad_fd.ret, -1);
    assert!(bad_fd.console.is_empty());
    // Page zero is unmapped in the user space.
    let bad_ptr = ecall(&mut k, SYSCALL_WRITE, 1, 0x0, 10, 0);
    assert_eq!(bad_ptr.ret, -1);
    assert!(bad_ptr.console.is_empty());
    // The task survives both refusals.
    assert!(matches!(
        k.task_manager.tasks[0].task_status,
        TaskStatus::Running
    ));
}

#[test]
fn three_tasks_yield_round_robin() {
    let mut k = boot_with(vec![hello_app(b"a"), hello_app(b"b"), hello_app(b"c")]);
    k.run_first_task();
    let mut order: Vec<usize> = Vec::new();
    for _ in 0..6 {
        let out = ecall(&mut k, SYSCALL_YIELD, 0, 0, 0, 0);
        assert_eq!(out.ret, 0);
        match out.schedule {
            Schedule::SwitchTo(next) => order.push(next),
            _ => panic!("yield always finds a ready task"),
        }
    }
    assert_eq!(order, vec![1, 2, 0, 1, 2, 0]);
}

#[test]
fn timer_preemption_preserves_registers() {
    let mut k = boot_with(vec![hello_app(b"a"), hello_app(b"b")]);
    k.run_first_task();
    let before = k.current_trap_cx();
    let now = 123_456;
    let out = k.trap_handler(TrapCause::SupervisorTimer, 0, now);
    assert_eq!(out.set_timer, Some(now + CLOCK_FREQ / TICKS_PER_SEC));
    assert!(matches!(out.schedule, Schedule::SwitchTo(1)));
    assert!(matches!(k.task_manager.tasks[0].task_status, TaskStatus::Ready));
    assert!(matches!(k.task_manager.tasks[1].task_status, TaskStatus::Running));
    // Come back around: the preempted task's registers and sepc are
    // bit-identical.
    let out2 = k.trap_handler(TrapCause::SupervisorTimer, 0, now * 2);
    assert!(matches!(out2.schedule, Schedule::SwitchTo(0)));
    let after = k.current_trap_cx();
    assert_eq!(after.sepc, before.sepc);
    assert_eq!(after.sstatus, before.sstatus);
    for i in 0..32 {
        assert_eq!(after.x[i], before.x[i]);
    }
}

#[test]
fn sleep_via_get_time() {
    let mut k = boot_with(vec![hello_app(b"a"), hello_app(b"b")]);
    k.run_first_task();
    // The task keeps its record on its own stack, below the stack top.
    let tv_ptr = k.task_manager.tasks[0].base_size - 16;
    let token = k.current_user_token();
    let read_ms = |k: &Kernel| -> u64 {
        let chunks = translated_byte_buffer(&k.mem, token, tv_ptr, 16).unwrap();
        let flat: Vec<u8> = chunks.into_iter().flatten().collect();
        let sec = u64::from_le_bytes(flat[0..8].try_into().unwrap());
        let usec = u64::from_le_bytes(flat[8..16].try_into().unwrap());
        sec * 1000 + usec / 1000
    };
    let tick_per_ms = CLOCK_FREQ / 1000;
    let out0 = ecall(&mut k, SYSCALL_GET_TIME, tv_ptr, 0, 0, 5 * tick_per_ms);
    assert_eq!(out0.ret, 0);
    let t0 = read_ms(&k);
    assert_eq!(t0, 5);
    // Yield until three seconds have passed.
    let mut now_ms = t0;
    let mut ticks = 5 * tick_per_ms;
    let mut rounds = 0u32;
    while now_ms < t0 + 3000 {
        let y = ecall(&mut k, SYSCALL_YIELD, 0, 0, 0, ticks);
        assert!(matches!(y.schedule, Schedule::SwitchTo(_)));
        // The other task yields straight back.
        let _ = ecall(&mut k, SYSCALL_YIELD, 0, 0, 0, ticks);
        ticks += 700 * tick_per_ms;
        let g = ecall(&mut k, SYSCALL_GET_TIME, tv_ptr, 0, 0, ticks);
        assert_eq!(g.ret, 0);
        now_ms = read_ms(&k);
        rounds += 1;
    }
    assert!(now_ms - t0 >= 3000);
    assert!(rounds >= 4);
}

#[test]
fn get_time_rejects_bad_pointer() {
    let mut k = boot_with(vec![hello_app(b"a")]);
    k.run_first_task();
    // Unaligned.
    let odd = ecall(&mut k, SYSCALL_GET_TIME, 0x10001, 0, 0, 0);
    assert_eq!(odd.ret, -1);
    // Unmapped.
    let unmapped = ecall(&mut k, SYSCALL_GET_TIME, 0x8000, 0, 0, 0);
    assert_eq!(unmapped.ret, -1);
}

#[test]
fn fault_kills_only_the_offender() {
    let mut k = boot_with(vec![hello_app(b"a"), hello_app(b"b")]);
    k.run_first_task();
    let out = k.trap_handler(TrapCause::LoadPageFault, 0xdead_0000, 0);
    assert!(matches!(out.schedule, Schedule::SwitchTo(1)));
    assert!(matches!(k.task_manager.tasks[0].task_status, TaskStatus::Exited));
    assert!(matches!(k.task_manager.tasks[1].task_status, TaskStatus::Running));
    // The survivor still works.
    let w = ecall(&mut k, SYSCALL_WRITE, 1, 0x10000, 1, 0);
    assert_eq!(w.ret, 1);
    assert_eq!(w.console, b"b".to_vec());
    // When the last task exits, the machine shuts down with success.
    let done = ecall(&mut k, SYSCALL_EXIT, 0, 0, 0, 0);
    assert!(matches!(done.schedule, Schedule::Shutdown));
}

#[test]
fn exit_schedules_the_next_ready_task() {
    let mut k = boot_with(vec![hello_app(b"a"), hello_app(b"b"), hello_app(b"c")]);
    k.run_first_task();
    let out = ecall(&mut k, SYSCALL_EXIT, 0, 0, 0, 0);
    assert!(matches!(out.schedule, Schedule::SwitchTo(1)));
    assert!(matches!(k.task_manager.tasks[0].task_status, TaskStatus::Exited));
    let out2 = ecall(&mut k, SYSCALL_EXIT, 0, 0, 0, 0);
    assert!(matches!(out2.schedule, Schedule::SwitchTo(2)));
    let out3 = ecall(&mut k, SYSCALL_EXIT, 0, 0, 0, 0);
    assert!(matches!(out3.schedule, Schedule::Shutdown));
}

#[test]
fn unknown_syscall_returns_minus_one() {
    let mut k = boot_with(vec![hello_app(b"a")]);
    k.run_first_task();
    let out = ecall(&mut k, 410, 0, 0, 0, 0);
    assert_eq!(out.ret, -1);
    assert!(matches!(out.schedule, Schedule::Continue));
}

#[test]
fn trap_return_targets_the_trampoline_alias() {
    let mut k = boot_with(vec![hello_app(b"a")]);
    k.run_first_task();
    let mut cpu = sv39os::cpu::Cpu::boot();
    let r = k.trap_return(&mut cpu, 0x40);
    assert_eq!(cpu.stvec, sv39os::config::TRAMPOLINE);
    assert_eq!(r.restore_va, sv39os::config::TRAMPOLINE + 0x40);
    assert_eq!(r.a0, sv39os::config::TRAP_CONTEXT);
    assert_eq!(r.a1, k.current_user_token());
}

#[test]
fn rejects_unparsable_image() {
    let mmio: Vec<(u64, u64)> = Vec::new();
    let bogus = vec![vec![1u8, 2, 3]];
    let r = Kernel::boot(
        0x8020_0000,
        0x8020_1000,
        0x8020_1000,
        0x8020_2000,
        0x8020_2000,
        0x8020_3000,
        0x8020_3000,
        0x8020_4000,
        0x8020_4000,
        0x8040_0000,
        &mmio,
        PhysPageNum(0x80200),
        &bogus,
        0x8020_0100,
        0x8020_0200,
    );
    assert!(r.is_none());
}

#[test]
fn parse_reads_the_named_header_fields() {
    let image = build_elf(0x10000, 0x10000, 0x1000, b"Hello", 5);
    let (entry, segs) = sv39os::elf::parse_load_segments(&image).unwrap();
    assert_eq!(entry, 0x10000);
    assert_eq!(segs.len(), 1);
    assert_eq!(segs[0].start_va, 0x10000);
    assert_eq!(segs[0].mem_size, 0x1000);
    assert_eq!(segs[0].offset, 120);
    assert_eq!(segs[0].file_size, 5);
    assert_eq!(segs[0].flags, 5);
}

#[test]
fn out_of_range_header_table_is_refused_not_fatal() {
    // Valid magic, class 64 and one declared program header, but the
    // table's offset points far outside the image.
    let mut image = build_elf(0x10000, 0x10000, 0x1000, b"x", 7);
    image[32..40].copy_from_slice(&0x10000u64.to_le_bytes());
    assert!(sv39os::elf::parse_load_segments(&image).is_none());
}

#[test]
fn oversized_entry_size_is_refused_not_fatal() {
    // An entry size that runs past the end of the image.
    let mut image = build_elf(0x10000, 0x10000, 0x1000, b"x", 7);
    image[54..56].copy_from_slice(&0x4000u16.to_le_bytes());
    assert!(sv39os::elf::parse_load_segments(&image).is_none());
}

#[test]
fn shifted_image_slice_is_handled_not_fatal() {
    // The same bytes viewed through a slice that starts one byte into a
    // larger buffer: the parser reads in place and may refuse the slice,
    // but must never panic on it.
    let image = build_elf(0x10000, 0x10000, 0x1000, b"Hello", 5);
    let mut shifted: Vec<u8> = vec![0u8];
    shifted.extend_from_slice(&image);
    if let Some((entry, segs)) = sv39os::elf::parse_load_segments(&shifted[1..]) {
        assert_eq!(entry, 0x10000);
        assert_eq!(segs.len(), 1);
    }
}

#[test]
fn yield_picks_the_nearest_ready_successor() {
    let apps = vec![hello_app(b"a"), hello_app(b"b"), hello_app(b"c")];
    let mut k = boot_with(apps);
    let _ = k.run_first_task();
    // Task 1 exits; the table is then Running(0)-free at 1; a yield from
    // task 0 must skip the exited task and land on task 2, the nearest
    // Ready successor in scan order.
    let out = ecall(&mut k, SYSCALL_YIELD, 0, 0, 0, 10);
    assert!(matches!(out.schedule, Schedule::SwitchTo(1)));
    let out = ecall(&mut k, SYSCALL_EXIT, 0, 0, 0, 20);
    assert!(matches!(out.schedule, Schedule::SwitchTo(2)));
    let out = ecall(&mut k, SYSCALL_YIELD, 0, 0, 0, 30);
    assert!(matches!(out.schedule, Schedule::SwitchTo(0)));
    let out = ecall(&mut k, SYSCALL_YIELD, 0, 0, 0, 40);
    assert!(matches!(out.schedule, Schedule::SwitchTo(2)));
}

#[test]
fn buffer_runs_are_cut_at_page_boundaries() {
    let text = b"0123456789abcdef";
    let apps = vec![build_elf(0x10000, 0x10000, 0x3000, text, 7)];
    let mut k = boot_with(apps);
    let _ = k.run_first_task();
    let token = k.current_user_token();
    // A read crossing one page boundary: two runs, the first ending at
    // the boundary, the second starting on it.
    let chunks = translated_byte_buffer(&k.mem, token, 0x10ffe, 6).unwrap();
    assert_eq!(chunks.len(), 2);
    assert_eq!(chunks[0].len(), 2);
    assert_eq!(chunks[1].len(), 4);
}
