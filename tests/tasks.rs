use kernel_core::config::{KERNEL_STACK_SIZE, PAGE_SIZE, TRAMPOLINE};
use kernel_core::frame_allocator::StackFrameAllocator;
use kernel_core::loader::{LoadError, ProgramImage, ProgramSegment};
use kernel_core::manager::{Processor, TaskError, TaskManager, WaitError};
use kernel_core::memory_set::MapPermission;
use kernel_core::task::{kernel_stack_position, TaskStatus, REG_RET, REG_SP};

const ENTRY: usize = 0xffff_ffc0_8020_0000;

fn manager(frames: usize) -> TaskManager {
    let mut fa = StackFrameAllocator::new();
    fa.init(0x100, 0x100 + frames);
    TaskManager::new(fa, ENTRY)
}

fn image(byte: u8) -> ProgramImage {
    ProgramImage {
        entry: 0x10000,
        segments: vec![ProgramSegment {
            vaddr: 0x10000,
            mem_size: 4096,
            perm: MapPermission { r: true, w: true, x: false, u: false },
            data: vec![byte, byte, byte, byte],
        }],
    }
}

#[test]
fn spawn_builds_ready_task() {
    let mut tm = manager(64);
    let pid = tm.spawn(&image(1)).unwrap();
    assert_eq!(pid, 0);
    assert_eq!(tm.status(0), Some(TaskStatus::Ready));
    assert_eq!(tm.parent(0), None);
    let tf = tm.trap_cx(0).unwrap();
    assert_eq!(tf.sepc, 0x10000);
    assert_eq!(tf.regs[REG_SP], 20 * 4096);
    assert_eq!(tm.read_user_byte(0, 0x10003), Some(1));
    assert_eq!(tm.available_frames(), 64 - 6);
}

#[test]
fn spawn_reports_load_error_and_keeps_frames() {
    let mut tm = manager(64);
    let mut img = image(1);
    img.segments[0].vaddr = 0x10001;
    assert_eq!(tm.spawn(&img), Err(TaskError::Load(LoadError::Misaligned)));
    let mut tiny = manager(3);
    assert_eq!(tiny.spawn(&image(1)), Err(TaskError::Load(LoadError::NoMemory)));
    assert_eq!(tiny.available_frames(), 3);
    assert_eq!(tm.num_slots(), 0);
}

#[test]
fn fork_isolates_writable_memory() {
    let mut tm = manager(64);
    let a = tm.spawn(&image(1)).unwrap();
    let b = tm.spawn(&image(1)).unwrap();
    let a2 = tm.fork(a).unwrap();
    assert_eq!(tm.parent(a2), Some(a));
    assert!(tm.write_user_byte(a, 0x10000, 0xee));
    assert_eq!(tm.read_user_byte(a, 0x10000), Some(0xee));
    assert_eq!(tm.read_user_byte(a2, 0x10000), Some(1));
    assert_eq!(tm.read_user_byte(b, 0x10000), Some(1));
    assert!(tm.write_user_byte(a2, 0x10001, 0x77));
    assert_eq!(tm.read_user_byte(a, 0x10001), Some(1));
    assert_eq!(tm.read_user_byte(b, 0x10001), Some(1));
}

#[test]
fn fork_trap_frames_differ_only_in_return_value() {
    let mut tm = manager(64);
    let a = tm.spawn(&image(1)).unwrap();
    let before = tm.trap_cx(a).unwrap();
    let c = tm.fork(a).unwrap();
    assert_eq!(c, 1);
    let pa = tm.trap_cx(a).unwrap();
    let ch = tm.trap_cx(c).unwrap();
    assert_eq!(ch.regs[REG_RET], 0);
    assert_eq!(pa.regs[REG_RET], c);
    for i in 0..32 {
        if i != REG_RET {
            assert_eq!(ch.regs[i], before.regs[i]);
            assert_eq!(pa.regs[i], before.regs[i]);
        }
    }
    assert_eq!(ch.sepc, pa.sepc);
    assert_eq!(tm.status(c), Some(TaskStatus::Ready));
}

#[test]
fn fork_errors() {
    let mut tm = manager(12);
    assert_eq!(tm.fork(0), Err(TaskError::NoSuchTask));
    let a = tm.spawn(&image(1)).unwrap();
    assert_eq!(tm.fork(a), Ok(1));
    assert_eq!(tm.fork(a), Err(TaskError::NoMemory));
}

#[test]
fn round_robin_visits_every_task_once() {
    let mut tm = manager(64);
    for i in 0..3u8 {
        tm.spawn(&image(i)).unwrap();
    }
    let (first, _, _) = tm.run_next_task().unwrap();
    assert_eq!(first, 0);
    let mut seen = vec![first];
    for _ in 0..5 {
        let (next, _, _) = tm.suspend_current_and_run_next().unwrap();
        seen.push(next);
    }
    assert_eq!(seen, vec![0, 1, 2, 0, 1, 2]);
    assert_eq!(tm.status(2), Some(TaskStatus::Running));
    assert_eq!(tm.status(0), Some(TaskStatus::Ready));
}

#[test]
fn switch_hands_out_context_and_token() {
    let mut tm = manager(64);
    tm.spawn(&image(1)).unwrap();
    let (pid, cx, token) = tm.run_next_task().unwrap();
    assert_eq!(pid, 0);
    assert_eq!(cx.ra, ENTRY);
    assert_eq!(cx.sp, TRAMPOLINE);
    assert_eq!(tm.current_user_token(), Some(token));
    assert_eq!(tm.current_task(), Some(0));
    assert!(tm.run_next_task().is_none());
}

#[test]
fn exited_task_is_never_picked_again() {
    let mut tm = manager(64);
    tm.spawn(&image(1)).unwrap();
    tm.spawn(&image(2)).unwrap();
    tm.run_next_task().unwrap();
    let free_before = tm.available_frames();
    let (next, _, _) = tm.exit_current_and_run_next(7).unwrap();
    assert_eq!(next, 1);
    assert_eq!(tm.status(0), Some(TaskStatus::Zombie));
    assert_eq!(tm.exit_code(0), Some(7));
    assert_eq!(tm.available_frames(), free_before + 6);
    for _ in 0..4 {
        let (n, _, _) = tm.suspend_current_and_run_next().unwrap();
        assert_eq!(n, 1);
    }
    assert!(tm.exit_current_and_run_next(0).is_none());
    assert_eq!(tm.find_next_task(), None);
    assert_eq!(tm.current_task(), None);
}

#[test]
fn waitpid_reaps_zombie_children() {
    let mut tm = manager(64);
    let p = tm.spawn(&image(1)).unwrap();
    assert_eq!(tm.waitpid(p, None), Err(WaitError::NoChild));
    let c = tm.fork(p).unwrap();
    assert_eq!(tm.waitpid(p, None), Err(WaitError::NotExited));
    assert_eq!(tm.waitpid(p, Some(5)), Err(WaitError::NoChild));
    tm.run_next_task().unwrap();
    let (n, _, _) = tm.suspend_current_and_run_next().unwrap();
    assert_eq!(n, c);
    tm.exit_current(3);
    assert_eq!(tm.waitpid(p, Some(c)), Ok((c, 3)));
    assert_eq!(tm.status(c), None);
    assert_eq!(tm.waitpid(p, None), Err(WaitError::NoChild));
}

#[test]
fn exit_hands_children_to_grandparent() {
    let mut tm = manager(64);
    let g = tm.spawn(&image(1)).unwrap();
    let p = tm.fork(g).unwrap();
    let c = tm.fork(p).unwrap();
    tm.run_next_task().unwrap();
    let (n, _, _) = tm.suspend_current_and_run_next().unwrap();
    assert_eq!(n, p);
    assert!(tm.exit_current(0));
    assert_eq!(tm.parent(c), Some(g));
    assert_eq!(tm.parent(p), Some(g));
}

#[test]
fn exec_replaces_image_in_place() {
    let mut tm = manager(64);
    let p = tm.spawn(&image(1)).unwrap();
    let free = tm.available_frames();
    let img = ProgramImage {
        entry: 0x20000,
        segments: vec![ProgramSegment {
            vaddr: 0x20000,
            mem_size: 8,
            perm: MapPermission { r: true, w: false, x: true, u: false },
            data: vec![5],
        }],
    };
    assert_eq!(tm.exec(p, &img), Ok(()));
    assert_eq!(tm.available_frames(), free);
    assert_eq!(tm.read_user_byte(p, 0x20000), Some(5));
    assert_eq!(tm.read_user_byte(p, 0x10000), None);
    assert_eq!(tm.trap_cx(p).unwrap().sepc, 0x20000);
    let mut bad = image(1);
    bad.segments[0].data = vec![0; 5000];
    assert_eq!(tm.exec(p, &bad), Err(TaskError::Load(LoadError::DataTooLong)));
    assert_eq!(tm.read_user_byte(p, 0x20000), Some(5));
    assert_eq!(tm.exec(9, &img), Err(TaskError::NoSuchTask));
}

#[test]
fn kernel_stacks_stack_down_from_trampoline() {
    assert_eq!(kernel_stack_position(0), (TRAMPOLINE - KERNEL_STACK_SIZE, TRAMPOLINE));
    let step = KERNEL_STACK_SIZE + PAGE_SIZE;
    assert_eq!(
        kernel_stack_position(3),
        (TRAMPOLINE - 3 * step - KERNEL_STACK_SIZE, TRAMPOLINE - 3 * step)
    );
}

#[test]
fn processor_starts_idle() {
    let mut p = Processor::new();
    assert_eq!(p.current(), None);
    assert_eq!(p.take_current(), None);
    let cx = p.idle_task_cx();
    assert_eq!((cx.ra, cx.sp), (0, 0));
}

#[test]
fn yield_hands_out_next_context_and_token() {
    let mut tm = manager(64);
    tm.spawn(&image(1)).unwrap();
    tm.spawn(&image(2)).unwrap();
    tm.run_next_task().unwrap();
    let (pid, cx, token) = tm.suspend_current_and_run_next().unwrap();
    assert_eq!(pid, 1);
    assert_eq!(cx.ra, ENTRY);
    assert_eq!(cx.sp, kernel_stack_position(1).1);
    assert_eq!(tm.current_user_token(), Some(token));
    let (pid, cx, token) = tm.exit_current_and_run_next(4).unwrap();
    assert_eq!(pid, 0);
    assert_eq!(cx.sp, kernel_stack_position(0).1);
    assert_eq!(tm.current_user_token(), Some(token));
    assert_eq!(tm.exit_code(1), Some(4));
}
