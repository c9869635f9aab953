use kernel_core::config::PAGE_SIZE;
use kernel_core::console::{print, LogLevel, Logger};
use kernel_core::drivers::{cursor_from_bmp, cursor_image, encode_input_event, GpuDevice, PolyInput};
use kernel_core::frame_allocator::StackFrameAllocator;
use kernel_core::loader::{ProgramImage, ProgramSegment};
use kernel_core::memory_set::{MapPermission, MemorySet};
use kernel_core::stdio::{Stdin, Stdout};
use kernel_core::syscall::{
    sys_framebuffer, sys_framebuffer_flush, sys_read, sys_write, translated_byte_buffer,
    SyscallError, FB_VADDR,
};
use kernel_core::trap::{trap_action, TrapAction, TrapEvent};
use std::cell::Cell;

fn space() -> (StackFrameAllocator, MemorySet) {
    let mut fa = StackFrameAllocator::new();
    fa.init(0, 16);
    let img = ProgramImage {
        entry: 0x10000,
        segments: vec![ProgramSegment {
            vaddr: 0x10000,
            mem_size: 4096,
            perm: MapPermission { r: true, w: true, x: false, u: false },
            data: b"hello".to_vec(),
        }],
    };
    let (m, _, _) = MemorySet::from_program_image(&mut fa, &img).unwrap();
    (fa, m)
}

#[test]
fn print_emits_utf8_bytes() {
    assert_eq!(print("ok\n"), b"ok\n".to_vec());
    assert_eq!(print("é"), vec![0xc3, 0xa9]);
    assert_eq!(print(""), Vec::<u8>::new());
}

#[test]
fn log_colors() {
    assert_eq!(Logger::color_code(LogLevel::Error), 31);
    assert_eq!(Logger::color_code(LogLevel::Warn), 93);
    assert_eq!(Logger::color_code(LogLevel::Info), 34);
    assert_eq!(Logger::color_code(LogLevel::Debug), 32);
    assert_eq!(Logger::color_code(LogLevel::Trace), 90);
    assert!(Logger.enabled(LogLevel::Trace));
}

#[test]
fn input_event_packing() {
    assert_eq!(encode_input_event(1, 2, 3), (1u64 << 48) | (2u64 << 32) | 3);
    assert_eq!(encode_input_event(0xffff, 0xffff, 0xffff_ffff), u64::MAX);
    assert_eq!(encode_input_event(0, 0, 0), 0);
}

#[test]
fn poly_input_buffers_polled_bytes() {
    let mut input = PolyInput::new();
    assert!(input.is_empty());
    assert!(!input.read_buffer_is_empty(None));
    assert!(input.read_buffer_is_empty(Some(b'a')));
    assert!(input.read_buffer_is_empty(Some(b'b')));
    assert!(!input.is_empty());
    assert_eq!(input.next_char(Some(b'z')), Some(b'a'));
    assert_eq!(input.next_char(None), Some(b'b'));
    assert_eq!(input.next_char(None), Some(b'z'));
    assert!(input.is_empty());
    assert_eq!(input.next_char(None), None);
    assert_eq!(input.next_char(Some(b'y')), Some(b'y'));
    assert!(input.is_empty());
}

#[test]
fn stdio_directions() {
    assert!(Stdin.readable());
    assert!(!Stdin.writable());
    assert!(!Stdout.readable());
    assert!(Stdout.writable());
}

#[test]
fn write_reads_user_buffer() {
    let (_fa, m) = space();
    assert_eq!(translated_byte_buffer(&m, 0x10001, 3), Some(b"ell".to_vec()));
    assert_eq!(translated_byte_buffer(&m, 0x10ffe, 4), None);
    let (bytes, n) = sys_write(&m, 1, 0x10000, 5).unwrap();
    assert_eq!(bytes, b"hello".to_vec());
    assert_eq!(n, 5);
    assert_eq!(sys_write(&m, 2, 0x10000, 5).err(), Some(SyscallError::UnsupportedFd));
    assert_eq!(sys_write(&m, 1, 0x50000, 1).err(), Some(SyscallError::BadAddress));
}

#[test]
fn read_stores_console_byte() {
    let (_fa, mut m) = space();
    assert_eq!(sys_read(&mut m, 0, 0x10002, 1, b'X'), Ok(1));
    assert_eq!(m.read_byte(0x10002), Some(b'X'));
    assert_eq!(sys_read(&mut m, 1, 0x10002, 1, b'Y'), Err(SyscallError::UnsupportedFd));
    assert_eq!(sys_read(&mut m, 0, 0x10002, 2, b'Y'), Err(SyscallError::BadLength));
    assert_eq!(sys_read(&mut m, 0, 0x90000, 1, b'Y'), Err(SyscallError::BadAddress));
    assert_eq!(m.read_byte(0x10002), Some(b'X'));
}

#[test]
fn framebuffer_is_mapped_linearly() {
    let (_fa, mut m) = space();
    let before = m.page_count();
    assert_eq!(sys_framebuffer(&mut m, 0x8000_0000, 3 * PAGE_SIZE), FB_VADDR as isize);
    assert_eq!(m.page_count(), before + 3);
    let urwx = MapPermission { r: true, w: true, x: true, u: true };
    assert_eq!(m.translate(FB_VADDR / PAGE_SIZE + 2), Some((0x8000_0000 / PAGE_SIZE + 2, urwx)));
    assert_eq!(sys_framebuffer(&mut m, 0x8000_0000, PAGE_SIZE), -1);
    assert_eq!(m.page_count(), before + 3);
}

struct Screen {
    flushes: Cell<u32>,
}

impl GpuDevice for Screen {
    fn update_cursor(&self) {}
    fn get_framebuffer(&self) -> (usize, usize) {
        (0x8000_0000, 4096)
    }
    fn flush(&self) {
        self.flushes.set(self.flushes.get() + 1);
    }
}

#[test]
fn framebuffer_flush_reaches_device() {
    let gpu = Screen { flushes: Cell::new(0) };
    assert_eq!(sys_framebuffer_flush(&gpu), 0);
    assert_eq!(gpu.flushes.get(), 1);
}

#[test]
fn trap_actions() {
    assert_eq!(trap_action(TrapEvent::SysCall), TrapAction::Syscall);
    assert_eq!(trap_action(TrapEvent::PageFault(0x1234)), TrapAction::Kill(-2));
    assert_eq!(trap_action(TrapEvent::IllegalInstruction), TrapAction::Kill(-3));
    assert_eq!(trap_action(TrapEvent::Timer), TrapAction::Yield);
    assert_eq!(trap_action(TrapEvent::Unexpected), TrapAction::Fatal);
}

fn le32(v: u32) -> Vec<u8> {
    v.to_le_bytes().to_vec()
}

fn tiny_bmp() -> Vec<u8> {
    let mut f = b"BM".to_vec();
    f.extend(le32(62));
    f.extend(le32(0));
    f.extend(le32(54));
    f.extend(le32(40));
    f.extend(le32(2));
    f.extend(le32(1));
    f.extend(vec![1, 0, 24, 0]);
    f.extend(le32(0));
    f.extend(le32(8));
    f.extend(le32(2835));
    f.extend(le32(2835));
    f.extend(le32(0));
    f.extend(le32(0));
    f.extend(vec![255, 255, 255, 1, 2, 3, 0, 0]);
    f
}

#[test]
fn cursor_pixels_get_alpha() {
    assert_eq!(
        cursor_image(&vec![255, 255, 255, 10, 20, 30]),
        vec![255, 255, 255, 0, 10, 20, 30, 0xff]
    );
    assert_eq!(cursor_image(&vec![255, 255]), vec![255, 255, 0xff]);
    assert_eq!(cursor_image(&vec![]), Vec::<u8>::new());
}

#[test]
fn cursor_from_bmp_file() {
    let img = cursor_from_bmp(&tiny_bmp()).unwrap();
    assert_eq!(img, vec![255, 255, 255, 0, 1, 2, 3, 0xff, 0, 0, 0xff]);
    assert_eq!(cursor_from_bmp(b"not a bitmap"), None);
}
