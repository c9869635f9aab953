use kernel_core::frame_allocator::StackFrameAllocator;
use kernel_core::loader::{LoadError, ProgramImage, ProgramSegment, USER_LIMIT};
use kernel_core::memory_set::{MapError, MapPermission, MemorySet};

const RW: MapPermission = MapPermission { r: true, w: true, x: false, u: false };
const RX: MapPermission = MapPermission { r: true, w: false, x: true, u: false };

fn pool(n: usize) -> StackFrameAllocator {
    let mut fa = StackFrameAllocator::new();
    fa.init(0, n);
    fa
}

fn seg(vaddr: usize, mem_size: usize, perm: MapPermission, data: Vec<u8>) -> ProgramSegment {
    ProgramSegment { vaddr, mem_size, perm, data }
}

fn one_rw_image() -> ProgramImage {
    ProgramImage { entry: 0x10000, segments: vec![seg(0x10000, 4096, RW, vec![1, 2, 3, 4])] }
}

#[test]
fn image_layout_and_stack_pointer() {
    let mut fa = pool(64);
    let img = ProgramImage {
        entry: 0x10010,
        segments: vec![seg(0x10000, 0x1800, RX, vec![7; 0x1000 + 3]), seg(0x20000, 16, RW, vec![9])],
    };
    let (m, sp, entry) = MemorySet::from_program_image(&mut fa, &img).unwrap();
    assert_eq!(entry, 0x10010);
    // segments end at page 0x21; guard page 0x21; stack pages 0x22 and 0x23
    assert_eq!(sp, 0x24 * 4096);
    // 2 + 1 segment pages, 2 stack pages, trap context, trampoline
    assert_eq!(m.page_count(), 7);
    assert_eq!(fa.available(), 64 - 8);
    assert_eq!(m.translate(0x10).unwrap().1, MapPermission { r: true, w: false, x: true, u: true });
    assert_eq!(m.translate(0x20).unwrap().1, MapPermission { r: true, w: true, x: false, u: true });
    assert_eq!(m.translate(0x22).unwrap().1, MapPermission { r: true, w: true, x: false, u: true });
    assert!(m.translate(0x21).is_none());
    let trap = m.translate(usize::MAX / 4096 - 1).unwrap().1;
    assert!(!trap.u && trap.r && trap.w);
    let tramp = m.translate(usize::MAX / 4096).unwrap().1;
    assert!(!tramp.u && tramp.x);
    assert_eq!(m.read_byte(0x10000), Some(7));
    assert_eq!(m.read_byte(0x11002), Some(7));
    assert_eq!(m.read_byte(0x11003), Some(0));
    assert_eq!(m.read_byte(0x20000), Some(9));
    assert_eq!(m.read_byte(0x20001), Some(0));
    assert_eq!(m.read_byte(0x30000), None);
}

#[test]
fn load_errors() {
    let mut fa = pool(64);
    let bad = |segs: Vec<ProgramSegment>| ProgramImage { entry: 0, segments: segs };
    assert_eq!(
        MemorySet::from_program_image(&mut fa, &bad(vec![seg(0x10001, 8, RW, vec![])])).err(),
        Some(LoadError::Misaligned)
    );
    assert_eq!(
        MemorySet::from_program_image(&mut fa, &bad(vec![seg(0x10000, 2, RW, vec![1, 2, 3])])).err(),
        Some(LoadError::DataTooLong)
    );
    assert_eq!(
        MemorySet::from_program_image(&mut fa, &bad(vec![seg(USER_LIMIT, 1, RW, vec![])])).err(),
        Some(LoadError::OutOfRange)
    );
    assert_eq!(
        MemorySet::from_program_image(
            &mut fa,
            &bad(vec![seg(0x10000, 0x2000, RW, vec![]), seg(0x11000, 8, RW, vec![])])
        )
        .err(),
        Some(LoadError::Overlap)
    );
    // an overlap gives every frame back
    assert_eq!(fa.available(), 64);
    let mut small = pool(5);
    assert_eq!(
        MemorySet::from_program_image(&mut small, &one_rw_image()).err(),
        Some(LoadError::NoMemory)
    );
    assert_eq!(small.available(), 5);
}

#[test]
fn duplicate_copies_and_isolates() {
    let mut fa = pool(64);
    let (mut parent, _, _) = MemorySet::from_program_image(&mut fa, &one_rw_image()).unwrap();
    let mut child = parent.duplicate(&mut fa).unwrap();
    assert_eq!(child.page_count(), parent.page_count());
    assert_ne!(child.token(), parent.token());
    let (pp, _) = parent.translate(0x10).unwrap();
    let (cp, _) = child.translate(0x10).unwrap();
    assert_ne!(pp, cp);
    assert_eq!(child.read_byte(0x10002), Some(3));
    assert!(child.write_byte(0x10002, 0xaa));
    assert_eq!(child.read_byte(0x10002), Some(0xaa));
    assert_eq!(parent.read_byte(0x10002), Some(3));
    assert!(parent.write_byte(0x10000, 0x55));
    assert_eq!(child.read_byte(0x10000), Some(1));
    assert_eq!(parent.read_byte(0x10000), Some(0x55));
}

#[test]
fn duplicate_needs_frames() {
    let mut fa = pool(7);
    let (parent, _, _) = MemorySet::from_program_image(&mut fa, &one_rw_image()).unwrap();
    assert_eq!(fa.available(), 1);
    assert!(matches!(parent.duplicate(&mut fa), Err(MapError::NoMemory)));
    assert_eq!(fa.available(), 1);
}

#[test]
fn recycle_gives_frames_back() {
    let mut fa = pool(16);
    let (m, _, _) = MemorySet::from_program_image(&mut fa, &one_rw_image()).unwrap();
    assert_eq!(fa.available(), 10);
    let root = m.token();
    assert!(fa.is_live(root));
    m.recycle(&mut fa);
    assert_eq!(fa.available(), 16);
    assert!(!fa.is_live(root));
}

#[test]
fn linear_mapping_and_overlap() {
    let mut fa = pool(8);
    let mut m = MemorySet::new_bare(&mut fa).unwrap();
    assert_eq!(m.map_linear(0x100, 3, 0x5000, RW), Ok(()));
    assert_eq!(m.translate(0x102), Some((0x5002, RW)));
    assert_eq!(m.read_byte(0x100 * 4096), None);
    assert!(!m.write_byte(0x100 * 4096, 1));
    assert_eq!(m.map_linear(0x102, 2, 0x9000, RW), Err(MapError::Overlap));
    assert_eq!(m.map_linear(usize::MAX, 2, 0, RW), Err(MapError::BadRange));
    assert_eq!(m.page_count(), 3);
}

#[test]
fn new_bare_needs_a_frame() {
    let mut fa = pool(0);
    assert!(MemorySet::new_bare(&mut fa).is_none());
}
