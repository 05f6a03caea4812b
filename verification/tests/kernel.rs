//! Tests of the kernel side: frames, page tables, the process manager's
//! scheduling, killing, waiting, forking, semaphores, and the heap break.

use ysos::input::InputBuffer;
use ysos::proc::{ProcessContext, ProcessManager, ProgramStatus, Program, Segment, KERNEL_PID};
use ysos::procvm::{HEAP_START_PAGE, PAGE_SIZE, STACK_INIT_TOP};
use ysos::sem::{SemaphoreResult, SemaphoreSet};
use ysos::syscall::{dispatcher, syscall_from, Syscall, SyscallArgs};
use ysos::blockdev::{Block, BlockDevice, MemDisk};
use ysos::fat16::Fat16Impl;
use ysos::vm::{FrameAllocator, MemoryManager};

#[test]
fn frame_allocator_recycles() {
    let mut a = FrameAllocator::new(1, 10);
    assert_eq!(a.allocate(), Some(1));
    assert_eq!(a.allocate(), Some(2));
    assert!(a.deallocate(1));
    // A second give-back of the same frame is refused.
    assert!(!a.deallocate(1));
    // A frame that was never handed out is refused.
    assert!(!a.deallocate(7));
    assert_eq!(a.frames_used(), 2);
    assert_eq!(a.frames_recycled_count(), 1);
    // The recycled frame is handed out again first.
    assert_eq!(a.allocate(), Some(1));
    assert_eq!(a.allocate(), Some(3));
    assert_eq!(a.frames_used(), 4);
    assert_eq!(a.frames_total(), 9);
}

#[test]
fn map_unmap_returns_frames() {
    let mut mm = MemoryManager::new(1, 0x100);
    let id = mm.new_table();
    assert!(mm.map_range(id, 0x500, 4, true, true).is_ok());
    assert!(mm.translate(id, 0x500).is_some());
    assert!(mm.translate(id, 0x503).is_some());
    assert!(mm.translate(id, 0x504).is_none());
    // Mapping an already mapped page is refused.
    assert!(mm.map_range(id, 0x503, 1, true, true).is_err());
    let rc0 = mm.frames_recycled();
    assert!(mm.unmap_range(id, 0x500, 4, true).is_ok());
    // Every frame of the range went back: the recycled count rose by the
    // range's size.
    assert_eq!(mm.frames_recycled(), rc0 + 4);
    assert!(mm.translate(id, 0x500).is_none());
    // The round trip packaged as one call.
    let rc1 = mm.frames_recycled();
    assert!(mm.map_then_unmap(id, 0x600, 3).is_ok());
    assert_eq!(mm.frames_recycled(), rc1 + 3);
    // Unmapping a page that is not mapped is refused.
    assert!(mm.unmap_range(id, 0x700, 1, true).is_err());
}

#[test]
fn semaphore_fifo() {
    let mut s = SemaphoreSet::new();
    assert!(s.insert(1, 0));
    // The key exists already.
    assert!(!s.insert(1, 5));
    assert_eq!(s.wait(1, 10), SemaphoreResult::Block(10));
    assert_eq!(s.wait(1, 11), SemaphoreResult::Block(11));
    // Signals wake the waiters oldest first.
    assert_eq!(s.signal(1), SemaphoreResult::WakeUp(10));
    assert_eq!(s.signal(1), SemaphoreResult::WakeUp(11));
    // With nobody parked the count rises instead.
    assert_eq!(s.signal(1), SemaphoreResult::Done);
    assert_eq!(s.wait(1, 12), SemaphoreResult::Done);
    assert!(s.remove(1));
    assert!(!s.remove(1));
    assert_eq!(s.signal(1), SemaphoreResult::NotExist);
    assert_eq!(s.wait(1, 9), SemaphoreResult::NotExist);
}

#[test]
fn semaphore_buffer_bookkeeping() {
    // A producer and a consumer over a bounded shelf of four slots, at the
    // semaphore level: room starts at the capacity, stock at zero.
    let mut s = SemaphoreSet::new();
    assert!(s.insert(0x1000, 4)); // room
    assert!(s.insert(0x2000, 0)); // stock
    let mut produced = 0;
    let mut consumed = 0;
    for _ in 0..4 {
        assert_eq!(s.wait(0x1000, 1), SemaphoreResult::Done);
        produced += 1;
        assert_eq!(s.signal(0x2000), SemaphoreResult::Done);
    }
    // The shelf is full: the producer would park now.
    assert_eq!(s.wait(0x1000, 1), SemaphoreResult::Block(1));
    for _ in 0..4 {
        assert_eq!(s.wait(0x2000, 2), SemaphoreResult::Done);
        consumed += 1;
        // Each consumed cup frees a slot, waking the parked producer first.
        s.signal(0x1000);
    }
    assert_eq!(produced, 4);
    assert_eq!(consumed, 4);
    // The shelf is empty again: the consumer would park now.
    assert_eq!(s.wait(0x2000, 2), SemaphoreResult::Block(2));
}

fn boot() -> ProcessManager {
    ProcessManager::new(1, 0x10000).unwrap()
}

fn sh_program() -> Program {
    Program {
        entry: 0x40_0000,
        segments: vec![Segment { start_page: 0x400, pages: 2, writable: false }],
    }
}

#[test]
fn spawn_missing_app_returns_zero() {
    let mut m = boot();
    // Spawning with a name no program was registered under yields zero.
    assert_eq!(m.spawn(b"nosuch"), 0);
    assert_eq!(m.process_count(), 1);
}

#[test]
fn kill_kernel_is_noop() {
    let mut m = boot();
    let mut ctx = ProcessContext::new();
    m.kill(KERNEL_PID, 5, &mut ctx);
    assert_eq!(m.process_count(), 1);
    assert_eq!(m.get_status(KERNEL_PID), Some(ProgramStatus::Running));
    assert_eq!(m.get_exit_code(KERNEL_PID), None);
}

#[test]
fn spawn_and_switch() {
    let mut m = boot();
    m.register_app(b"sh".to_vec(), sh_program());
    let pid = m.spawn(b"sh");
    assert_eq!(pid, 2);
    assert_eq!(m.get_status(2), Some(ProgramStatus::Ready));
    assert_eq!(m.ready_len(), 1);

    let mut ctx = ProcessContext::new();
    m.switch(&mut ctx);
    // The spawned process runs, from its entry with a fresh stack.
    assert_eq!(m.get_pid(), 2);
    assert_eq!(m.get_status(2), Some(ProgramStatus::Running));
    assert_eq!(m.get_status(KERNEL_PID), Some(ProgramStatus::Ready));
    assert_eq!(ctx.rip, 0x40_0000);
    assert_eq!(ctx.rsp, STACK_INIT_TOP);
}

#[test]
fn wait_pid_on_exited_returns_code() {
    let mut m = boot();
    m.register_app(b"sh".to_vec(), sh_program());
    let a = m.spawn(b"sh");
    let b = m.spawn(b"sh");
    let mut ctx = ProcessContext::new();
    m.switch(&mut ctx);
    assert_eq!(m.get_pid(), a);
    // A sibling dies with a code.
    m.kill(b, 7, &mut ctx);
    assert_eq!(m.get_exit_code(b), Some(7));
    // Waiting on the already-exited process returns at once with its code.
    let immediate = m.wait_pid(b, &mut ctx);
    assert!(immediate);
    assert_eq!(ctx.rax, 7);
    assert_eq!(m.get_pid(), a);
}

#[test]
fn wait_pid_blocks_until_kill() {
    let mut m = boot();
    m.register_app(b"sh".to_vec(), sh_program());
    let a = m.spawn(b"sh");
    let b = m.spawn(b"sh");
    let mut ctx = ProcessContext::new();
    m.switch(&mut ctx);
    assert_eq!(m.get_pid(), a);
    // Waiting on a live process parks the caller and moves on.
    let immediate = m.wait_pid(b, &mut ctx);
    assert!(!immediate);
    assert_eq!(m.get_status(a), Some(ProgramStatus::Blocked));
    assert_ne!(m.get_pid(), a);
    // The death of the awaited process wakes the waiter with the code.
    m.kill(b, 9, &mut ctx);
    assert_eq!(m.get_status(a), Some(ProgramStatus::Ready));
    assert_eq!(m.get_status(b), Some(ProgramStatus::Dead));
}

#[test]
fn kill_self_switches_away() {
    let mut m = boot();
    m.register_app(b"sh".to_vec(), sh_program());
    let a = m.spawn(b"sh");
    let mut ctx = ProcessContext::new();
    m.switch(&mut ctx);
    assert_eq!(m.get_pid(), a);
    m.kill(a, 3, &mut ctx);
    assert_eq!(m.get_status(a), Some(ProgramStatus::Dead));
    assert_eq!(m.get_exit_code(a), Some(3));
    assert_ne!(m.get_pid(), a);
    assert_eq!(m.get_pid(), KERNEL_PID);
}

#[test]
fn vfork_creates_ready_child() {
    let mut m = boot();
    m.register_app(b"sh".to_vec(), sh_program());
    let a = m.spawn(b"sh");
    let mut ctx = ProcessContext::new();
    m.switch(&mut ctx);
    assert_eq!(m.get_pid(), a);
    let child = m.vfork(&mut ctx);
    assert_ne!(child, 0);
    // The parent reads the child's id; the child is ready to run.
    assert_eq!(ctx.rax, child as u64);
    assert_eq!(m.get_status(child), Some(ProgramStatus::Ready));
    assert_eq!(m.get_pid(), a);
}

#[test]
fn brk_reports_and_moves_the_break() {
    let mut m = boot();
    m.register_app(b"sh".to_vec(), sh_program());
    let _a = m.spawn(b"sh");
    let mut ctx = ProcessContext::new();
    m.switch(&mut ctx);

    let base = HEAP_START_PAGE * PAGE_SIZE;
    m.brk(None, &mut ctx);
    assert_eq!(ctx.rax, base);
    // Asking twice without moving it yields the same break both times.
    m.brk(None, &mut ctx);
    assert_eq!(ctx.rax, base);

    m.brk(Some(base + 0x2800), &mut ctx);
    assert_eq!(ctx.rax, base + 0x3000);
    m.brk(None, &mut ctx);
    assert_eq!(ctx.rax, base + 0x3000);
    // Shrinking frees the pages again.
    m.brk(Some(base), &mut ctx);
    assert_eq!(ctx.rax, base);
}

#[test]
fn page_fault_grows_the_stack() {
    let mut m = boot();
    m.register_app(b"sh".to_vec(), sh_program());
    let _a = m.spawn(b"sh");
    let mut ctx = ProcessContext::new();
    m.switch(&mut ctx);

    // Two pages below the mapped stack, still inside the slot.
    let fault = STACK_INIT_TOP - 3 * PAGE_SIZE;
    assert!(m.handle_page_fault(fault, false));
    // A protection violation is never handled.
    assert!(!m.handle_page_fault(fault, true));
    // An address outside the stack slot is refused.
    assert!(!m.handle_page_fault(0x1000, false));
}

#[test]
fn manager_semaphores() {
    let mut m = boot();
    m.register_app(b"sh".to_vec(), sh_program());
    let a = m.spawn(b"sh");
    let mut ctx = ProcessContext::new();
    m.switch(&mut ctx);
    assert_eq!(m.get_pid(), a);

    assert!(m.sem_new(0x42, 1));
    assert!(!m.sem_new(0x42, 1));
    // One unit is there: the wait returns at once.
    m.sem_wait(0x42, &mut ctx);
    assert_eq!(ctx.rax, 0);
    assert_eq!(m.get_pid(), a);
    assert!(m.sem_remove(0x42));
    assert!(!m.sem_remove(0x42));
    // A drained semaphore parks the caller and the CPU moves on.
    assert!(m.sem_new(0x43, 0));
    m.sem_wait(0x43, &mut ctx);
    assert_eq!(m.get_status(a), Some(ProgramStatus::Blocked));
    assert_eq!(m.get_pid(), KERNEL_PID);
    // The semaphore lives in the parked process's group, not the kernel's.
    assert!(!m.sem_remove(0x43));
}

#[test]
fn input_buffer_order_and_overflow() {
    let mut input = InputBuffer::new();
    assert_eq!(input.try_pop_key(), None);
    assert!(input.push_key(b'a'));
    assert!(input.push_key(b'b'));
    assert_eq!(input.pop_key(), Some(b'a'));
    assert_eq!(input.try_pop_key(), Some(b'b'));
    assert_eq!(input.try_pop_key(), None);
    for i in 0..128 {
        assert!(input.push_key(i as u8));
    }
    // The buffer is full: the key is dropped.
    assert!(!input.push_key(0xFF));
    assert_eq!(input.try_pop_key(), Some(0));
}

/// A 16-sector volume with `BOOT.CFG` (5 bytes, cluster 2).
fn make_fs() -> Fat16Impl<MemDisk> {
    let mut disk = MemDisk::new(16);
    let mut bpb = vec![0u8; 512];
    bpb[0x0C] = 0x02;
    bpb[0x0D] = 1;
    bpb[0x0E] = 1;
    bpb[0x10] = 1;
    bpb[0x11] = 16;
    bpb[0x13] = 16;
    bpb[0x16] = 1;
    bpb[510] = 0x55;
    bpb[511] = 0xAA;
    disk.write_block(0, &Block::from_vec(bpb)).unwrap();
    let mut fat = vec![0u8; 512];
    fat[0] = 0xF8;
    fat[1] = 0xFF;
    fat[2] = 0xFF;
    fat[3] = 0xFF;
    fat[4] = 0xFF;
    fat[5] = 0xFF;
    disk.write_block(1, &Block::from_vec(fat)).unwrap();
    let mut root = vec![0u8; 512];
    root[0..11].copy_from_slice(b"BOOT    CFG");
    root[11] = 0x20;
    root[26] = 2;
    root[28] = 5;
    disk.write_block(2, &Block::from_vec(root)).unwrap();
    let mut content = vec![0u8; 512];
    content[0..5].copy_from_slice(b"hello");
    disk.write_block(3, &Block::from_vec(content)).unwrap();
    Fat16Impl::new(disk).unwrap()
}

#[test]
fn dispatcher_round() {
    let mut m = boot();
    let fs = make_fs();
    m.register_app(b"sh".to_vec(), sh_program());
    let mut input = InputBuffer::new();
    let mut console: Vec<u8> = Vec::new();
    let mut ctx = ProcessContext::new();

    let spawn = SyscallArgs::new(syscall_from(59), 0, 2, 0);
    dispatcher(&mut m, &fs, &spawn, b"sh", &mut input, &mut console, &mut ctx);
    assert_eq!(ctx.rax, 2);

    m.switch(&mut ctx);
    let get_pid = SyscallArgs::new(syscall_from(39), 0, 0, 0);
    dispatcher(&mut m, &fs, &get_pid, &[], &mut input, &mut console, &mut ctx);
    assert_eq!(ctx.rax, 2);

    let write = SyscallArgs::new(syscall_from(1), 1, 0, 3);
    dispatcher(&mut m, &fs, &write, b"ok\n", &mut input, &mut console, &mut ctx);
    assert_eq!(ctx.rax, 3);
    assert_eq!(console, b"ok\n".to_vec());

    input.push_key(b'x');
    input.push_key(b'y');
    let read = SyscallArgs::new(syscall_from(0), 0, 0, 8);
    let got = dispatcher(&mut m, &fs, &read, &[], &mut input, &mut console, &mut ctx);
    // Console reads do not block: whatever keys are buffered come back.
    assert_eq!(got.bytes, b"xy".to_vec());
    assert_eq!(ctx.rax, 2);

    let exit = SyscallArgs::new(syscall_from(60), 4, 0, 0);
    dispatcher(&mut m, &fs, &exit, &[], &mut input, &mut console, &mut ctx);
    assert_eq!(m.get_exit_code(2), Some(4));
    assert_eq!(m.get_pid(), KERNEL_PID);

    // An unassigned number is no syscall at all.
    assert_eq!(syscall_from(12345), Syscall::Unknown);
}

#[test]
fn file_descriptors_round() {
    let mut m = boot();
    let fs = make_fs();
    let mut input = InputBuffer::new();
    let mut console: Vec<u8> = Vec::new();
    let mut ctx = ProcessContext::new();

    // Opening the stored file hands out a fresh descriptor.
    let open = SyscallArgs::new(syscall_from(14), 0, 8, 0);
    dispatcher(&mut m, &fs, &open, b"boot.cfg", &mut input, &mut console, &mut ctx);
    let fd = ctx.rax;
    assert_ne!(fd, u64::MAX);

    // Reading drains the file to its end, then reads zero bytes.
    let read = SyscallArgs::new(syscall_from(0), fd, 0, 3);
    let got = dispatcher(&mut m, &fs, &read, &[], &mut input, &mut console, &mut ctx);
    assert_eq!(got.bytes, b"hel".to_vec());
    assert_eq!(ctx.rax, 3);
    let got2 = dispatcher(&mut m, &fs, &read, &[], &mut input, &mut console, &mut ctx);
    assert_eq!(got2.bytes, b"lo".to_vec());
    assert_eq!(ctx.rax, 2);
    let got3 = dispatcher(&mut m, &fs, &read, &[], &mut input, &mut console, &mut ctx);
    assert_eq!(got3.bytes.len(), 0);
    assert_eq!(ctx.rax, 0);

    // Closing frees the descriptor; a second close is refused.
    let close = SyscallArgs::new(syscall_from(15), fd, 0, 0);
    dispatcher(&mut m, &fs, &close, &[], &mut input, &mut console, &mut ctx);
    assert_eq!(ctx.rax, 0);
    dispatcher(&mut m, &fs, &close, &[], &mut input, &mut console, &mut ctx);
    assert_eq!(ctx.rax, u64::MAX);

    // Opening a directory or a missing name is refused.
    dispatcher(&mut m, &fs, &open, b"nosuch.bin", &mut input, &mut console, &mut ctx);
    assert_eq!(ctx.rax, u64::MAX);

    // Listing the root succeeds; listing a file does not.
    let lsdir = SyscallArgs::new(syscall_from(16), 0, 0, 0);
    dispatcher(&mut m, &fs, &lsdir, &[], &mut input, &mut console, &mut ctx);
    assert_eq!(ctx.rax, 0);
    dispatcher(&mut m, &fs, &lsdir, b"boot.cfg", &mut input, &mut console, &mut ctx);
    assert_eq!(ctx.rax, 1);
}
