use kernel_core::frame_allocator::{
    frame_alloc, frame_dealloc, init_frame_allocator, FrameError, StackFrameAllocator,
};

fn pool(l: usize, r: usize) -> StackFrameAllocator {
    let mut fa = StackFrameAllocator::new();
    fa.init(l, r);
    fa
}

#[test]
fn pool_of_four_reuses_freed_frame_then_exhausts() {
    let mut fa = pool(0, 4);
    assert_eq!(fa.alloc_frame(), Some(0));
    assert_eq!(fa.alloc_frame(), Some(1));
    assert_eq!(fa.alloc_frame(), Some(2));
    assert_eq!(fa.alloc_frame(), Some(3));
    fa.dealloc(1);
    assert_eq!(fa.alloc_frame(), Some(1));
    assert_eq!(fa.alloc_frame(), None);
}

#[test]
fn freed_frames_come_back_most_recent_first() {
    let mut fa = pool(10, 13);
    let a = fa.alloc_frame().unwrap();
    let b = fa.alloc_frame().unwrap();
    let c = fa.alloc_frame().unwrap();
    assert_eq!((a, b, c), (10, 11, 12));
    fa.dealloc(a);
    fa.dealloc(c);
    assert_eq!(fa.alloc_frame(), Some(12));
    assert_eq!(fa.alloc_frame(), Some(10));
    assert_eq!(fa.alloc_frame(), None);
}

#[test]
fn free_all_then_reallocate_same_set() {
    let n = 5;
    let mut fa = pool(100, 100 + n);
    let mut first = Vec::new();
    for _ in 0..n {
        first.push(fa.alloc_frame().unwrap());
    }
    for &p in &first {
        fa.dealloc(p);
    }
    let mut second = Vec::new();
    for _ in 0..n {
        second.push(fa.alloc_frame().unwrap());
    }
    assert_eq!(fa.alloc_frame(), None);
    let mut a = first.clone();
    let mut b = second.clone();
    a.sort();
    b.sort();
    assert_eq!(a, b);
    let mut dedup = b.clone();
    dedup.dedup();
    assert_eq!(dedup.len(), n);
}

#[test]
fn double_free_is_refused() {
    let mut fa = pool(0, 4);
    let p = fa.alloc_frame().unwrap();
    assert_eq!(frame_dealloc(&mut fa, p), Ok(()));
    assert_eq!(frame_dealloc(&mut fa, p), Err(FrameError::NotAllocated));
}

#[test]
fn free_of_never_allocated_frame_is_refused() {
    let mut fa = pool(8, 12);
    assert_eq!(frame_dealloc(&mut fa, 9), Err(FrameError::NotAllocated));
    assert_eq!(frame_dealloc(&mut fa, 3), Err(FrameError::NotAllocated));
    assert!(!fa.is_live(8));
    fa.alloc_frame();
    assert!(fa.is_live(8));
}

#[test]
fn contiguous_run_comes_from_the_tail() {
    let mut fa = pool(0, 10);
    let a = fa.alloc_frame().unwrap();
    fa.dealloc(a);
    let run = fa.alloc_contiguous(3).unwrap();
    assert_eq!(run, vec![1, 2, 3]);
    for w in run.windows(2) {
        assert_eq!(w[1], w[0] + 1);
    }
    // the recycled frame is still the next single allocation
    assert_eq!(fa.alloc_frame(), Some(0));
    assert_eq!(fa.alloc_contiguous(7), None);
    assert_eq!(fa.alloc_contiguous(6).unwrap(), vec![4, 5, 6, 7, 8, 9]);
    assert_eq!(fa.alloc_contiguous(0), Some(vec![]));
}

#[test]
fn new_frames_are_zero_filled() {
    let mut fa = pool(0, 2);
    let t = frame_alloc(&mut fa).unwrap();
    assert_eq!(t.ppn, 0);
    assert_eq!(t.data.len(), 4096);
    assert!(t.data.iter().all(|&b| b == 0));
}

#[test]
fn available_counts_tail_and_recycled() {
    let mut fa = pool(0, 4);
    assert_eq!(fa.available(), 4);
    let p = fa.alloc_frame().unwrap();
    fa.alloc_frame();
    assert_eq!(fa.available(), 2);
    fa.dealloc(p);
    assert_eq!(fa.available(), 3);
}

#[test]
fn init_from_memory_region() {
    let mut fa = StackFrameAllocator::new();
    assert!(init_frame_allocator(&mut fa, 0x8020_1234, 0x8000_0000, 0x8800_0000, 0));
    assert_eq!(fa.available(), 0x88000 - 0x80202);
    assert_eq!(fa.alloc_frame(), Some(0x80202));
}

#[test]
fn init_strips_virtual_offset() {
    let mut fa = StackFrameAllocator::new();
    let off = 0xffff_ffc0_0000_0000usize;
    assert!(init_frame_allocator(&mut fa, off | 0x8020_0000, off | 0x8000_0000, off | 0x8800_0000, off));
    assert_eq!(fa.alloc_frame(), Some(0x80200));
}

#[test]
fn init_skips_region_without_kernel_end() {
    let mut fa = StackFrameAllocator::new();
    assert!(!init_frame_allocator(&mut fa, 0x9000_0000, 0x8000_0000, 0x8800_0000, 0));
    assert_eq!(fa.available(), 0);
}

#[test]
fn free_all_in_reverse_then_reallocate_same_set() {
    let mut fa = pool(7, 9);
    let a = fa.alloc_frame().unwrap();
    let b = fa.alloc_frame().unwrap();
    fa.dealloc(b);
    fa.dealloc(a);
    let mut again = vec![fa.alloc_frame().unwrap(), fa.alloc_frame().unwrap()];
    assert_eq!(fa.alloc_frame(), None);
    again.sort();
    assert_eq!(again, vec![7, 8]);
}

#[test]
fn init_rounds_up_before_clearing_offset() {
    let mut fa = StackFrameAllocator::new();
    assert!(init_frame_allocator(&mut fa, 0x1001, 0, 0x10000, 0x1000));
    assert_eq!(fa.alloc_frame(), Some(2));
    assert_eq!(fa.available(), 16 - 3);
}

#[test]
fn init_refuses_kernel_end_that_cannot_round_up() {
    let mut fa = StackFrameAllocator::new();
    assert!(!init_frame_allocator(&mut fa, usize::MAX - 1, 0, usize::MAX, 0));
    assert_eq!(fa.available(), 0);
}
