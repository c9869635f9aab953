//! The system calls that act on a task's address space and devices. Each
//! takes what the platform read or will emit as plain values.
use vstd::prelude::*;

use crate::config::PAGE_SIZE;
use crate::drivers::GpuDevice;
use crate::memory_set::{maps_vpn, MapError, MapPermission, MemorySet, MemorySetView, PageView};

verus! {

/// File descriptor of standard input.
pub const FD_STDIN: usize = 0;

/// File descriptor of standard output.
pub const FD_STDOUT: usize = 1;

/// User virtual address the framebuffer is mapped at.
pub const FB_VADDR: usize = 0x1000_0000;

/// Why a system call failed.
#[derive(Debug, Clone, Copy, PartialEq, Eq, Structural)]
pub enum SyscallError {
    /// The call does not support this file descriptor.
    UnsupportedFd,
    /// Only one byte at a time can be read.
    BadLength,
    /// The buffer is not mapped in the task's address space.
    BadAddress,
}

/// The `len` bytes of the address space from `va` on, if a framed page
/// holds each of them.
pub open spec fn user_bytes(m: MemorySetView, va: usize, len: usize) -> Option<Seq<u8>> {
    if va + len <= usize::MAX + 1 && forall|i: int| 0 <= i < len ==> (#[trigger] m.byte_at((va + i) as usize)) is Some {
        Some(Seq::new(len as nat, |i: int| m.byte_at((va + i) as usize).unwrap()))
    } else {
        None
    }
}

/// Reads the `len` bytes at `va` of a task's address space.
pub fn translated_byte_buffer(ms: &MemorySet, va: usize, len: usize) -> (r: Option<Vec<u8>>)
    requires
        ms@.wf(),
    ensures
        r is Some <==> user_bytes(ms@, va, len) is Some,
        r matches Some(v) ==> Some(v@) == user_bytes(ms@, va, len),
{
    if len > 0 && va > usize::MAX - (len - 1) {
        return None;
    }
    let mut out: Vec<u8> = Vec::new();
    let mut i: usize = 0;
    while i < len
        invariant
            ms@.wf(),
            i <= len,
            len == 0 || va + (len - 1) <= usize::MAX,
            out@.len() == i,
            forall|k: int| 0 <= k < i ==> (#[trigger] ms@.byte_at((va + k) as usize)) is Some && out@[k]
                == ms@.byte_at((va + k) as usize).unwrap(),
        decreases len - i,
    {
        match ms.read_byte(va + i) {
            Some(b) => out.push(b),
            None => {
                return None;
            },
        }
        i += 1;
    }
    proof {
        assert(out@ =~= Seq::new(len as nat, |i: int| ms@.byte_at((va + i) as usize).unwrap()));
    }
    Some(out)
}

/// `write` to a file: only standard output is supported. Returns the bytes to
/// print and the count to hand back to the task.
pub fn sys_write(ms: &MemorySet, fd: usize, buf: usize, len: usize) -> (r: Result<(Vec<u8>, usize), SyscallError>)
    requires
        ms@.wf(),
    ensures
        fd != FD_STDOUT ==> r == Err::<(Vec<u8>, usize), SyscallError>(SyscallError::UnsupportedFd),
        fd == FD_STDOUT && user_bytes(ms@, buf, len) is None ==> r == Err::<(Vec<u8>, usize), SyscallError>(
            SyscallError::BadAddress,
        ),
        fd == FD_STDOUT && user_bytes(ms@, buf, len) is Some ==> r is Ok,
        r matches Ok(t) ==> Some(t.0@) == user_bytes(ms@, buf, len) && t.1 == len,
{
    if fd != FD_STDOUT {
        return Err(SyscallError::UnsupportedFd);
    }
    match translated_byte_buffer(ms, buf, len) {
        Some(bytes) => Ok((bytes, len)),
        None => Err(SyscallError::BadAddress),
    }
}

/// `read` from a file: only standard input, one byte at a time. `ch` is the
/// byte the console gave; it is stored at `buf` and 1 is returned.
pub fn sys_read(ms: &mut MemorySet, fd: usize, buf: usize, len: usize, ch: u8) -> (r: Result<usize, SyscallError>)
    requires
        old(ms)@.wf(),
    ensures
        final(ms)@.wf(),
        fd != FD_STDIN ==> r == Err::<usize, SyscallError>(SyscallError::UnsupportedFd),
        fd == FD_STDIN && len != 1 ==> r == Err::<usize, SyscallError>(SyscallError::BadLength),
        fd == FD_STDIN && len == 1 && old(ms)@.byte_at(buf) is None ==> r == Err::<usize, SyscallError>(
            SyscallError::BadAddress,
        ),
        fd == FD_STDIN && len == 1 && old(ms)@.byte_at(buf) is Some ==> r == Ok::<usize, SyscallError>(1),
        r is Ok ==> final(ms)@ == old(ms)@.written(buf, ch),
        r is Err ==> final(ms)@ == old(ms)@,
{
    if fd != FD_STDIN {
        return Err(SyscallError::UnsupportedFd);
    }
    if len != 1 {
        return Err(SyscallError::BadLength);
    }
    if ms.read_byte(buf).is_none() {
        return Err(SyscallError::BadAddress);
    }
    ms.write_byte(buf, ch);
    Ok(1)
}

/// The framebuffer's pages are free in the address space and its physical
/// pages are all numbered.
pub open spec fn fb_fits(m: MemorySetView, fb_paddr: usize, fb_len: usize) -> bool {
    &&& fb_paddr / PAGE_SIZE + fb_len / PAGE_SIZE <= usize::MAX
    &&& forall|k: int|
        0 <= k < fb_len / PAGE_SIZE ==> !#[trigger] maps_vpn(m.pages, (FB_VADDR / PAGE_SIZE + k) as usize)
}

/// Maps the framebuffer, `fb_len` bytes from the physical address `fb_paddr`,
/// into the task's address space at `FB_VADDR`, readable, writable and
/// executable from user mode. Returns `FB_VADDR`, or -1 when the pages do not
/// fit.
pub fn sys_framebuffer(ms: &mut MemorySet, fb_paddr: usize, fb_len: usize) -> (r: isize)
    requires
        old(ms)@.wf(),
    ensures
        final(ms)@.wf(),
        r == FB_VADDR || r == -1,
        r == -1 ==> final(ms)@ == old(ms)@,
        r == -1 <==> !fb_fits(old(ms)@, fb_paddr, fb_len),
        r == FB_VADDR ==> final(ms)@ == (MemorySetView {
            pages: old(ms)@.pages + Seq::new(
                (fb_len / PAGE_SIZE) as nat,
                |k: int|
                    PageView {
                        vpn: (FB_VADDR / PAGE_SIZE + k) as usize,
                        perm: MapPermission { r: true, w: true, x: true, u: true },
                        ppn: (fb_paddr / PAGE_SIZE + k) as usize,
                        framed: false,
                        data: Seq::empty(),
                    },
            ),
            ..old(ms)@
        }),
{
    let perm = MapPermission { r: true, w: true, x: true, u: true };
    let start_vpn = FB_VADDR / PAGE_SIZE;
    let npages = fb_len / PAGE_SIZE;
    let base = fb_paddr / PAGE_SIZE;
    let ghost before = ms@;
    assert(start_vpn + npages <= usize::MAX) by (nonlinear_arith)
        requires
            npages == fb_len / 4096,
            start_vpn == 0x1_0000,
            fb_len <= usize::MAX,
    ;
    match ms.map_linear(start_vpn, npages, base, perm) {
        Ok(()) => {
            assert(fb_fits(before, fb_paddr, fb_len));
            FB_VADDR as isize
        },
        Err(MapError::Overlap) => {
            proof {
                let k = choose|k: int| 0 <= k < npages && #[trigger] maps_vpn(before.pages, (start_vpn + k) as usize);
                assert(maps_vpn(before.pages, (FB_VADDR / PAGE_SIZE + k) as usize));
            }
            -1
        },
        Err(_) => -1,
    }
}

/// Pushes the framebuffer to the screen.
pub fn sys_framebuffer_flush<G: GpuDevice>(gpu: &G) -> (r: isize)
    ensures
        r == 0,
{
    gpu.flush();
    0
}

} // verus!
