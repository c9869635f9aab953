//! Building a task's address space from a program image: one region per
//! loadable segment, a user stack above them, and the kernel-only trap-context
//! and trampoline pages at the top.
use vstd::prelude::*;

use crate::config::{PAGE_SIZE, TRAMPOLINE, TRAP_CONTEXT, USER_STACK_SIZE};
use crate::frame_allocator::StackFrameAllocator;
use crate::memory_set::{
    free_frames, handed_out, layout_of, lemma_found_overlap, lemma_layout_distinct, lemma_pushed,
    lemma_rolled_back, page_bytes, stack_perm, trampoline_perm, trap_perm, MapPermission, MemorySet,
    PageLayout,
};

verus! {

/// Number of pages of a user stack.
pub const USER_STACK_PAGES: usize = USER_STACK_SIZE / PAGE_SIZE;

/// Segments end at or below this address, which leaves room for a guard page
/// and the user stack under the trap-context page.
pub const USER_LIMIT: usize = TRAP_CONTEXT - PAGE_SIZE - USER_STACK_SIZE;

/// One loadable segment of a program image.
pub struct ProgramSegment {
    /// Virtual address of its first byte; page aligned.
    pub vaddr: usize,
    /// Size it takes in memory; the part past `data` is zero.
    pub mem_size: usize,
    /// Its rights; user access is added when it is mapped.
    pub perm: MapPermission,
    /// Its initial bytes.
    pub data: Vec<u8>,
}

/// A loadable program: its segments and its entry address.
pub struct ProgramImage {
    pub entry: usize,
    pub segments: Vec<ProgramSegment>,
}

/// Why a program image could not be loaded.
#[derive(Debug, Clone, Copy, PartialEq, Eq, Structural)]
pub enum LoadError {
    /// A segment does not start on a page boundary.
    Misaligned,
    /// A segment has more initial bytes than its size in memory.
    DataTooLong,
    /// A segment runs past `USER_LIMIT`.
    OutOfRange,
    /// Two pages of the image's layout share a virtual page.
    Overlap,
    /// Not enough free frames.
    NoMemory,
}

/// What is wrong with one segment, checked in this order.
pub open spec fn seg_error(s: ProgramSegment) -> Option<LoadError> {
    if s.vaddr % PAGE_SIZE != 0 {
        Some(LoadError::Misaligned)
    } else if s.data@.len() > s.mem_size {
        Some(LoadError::DataTooLong)
    } else if s.vaddr + s.mem_size > USER_LIMIT {
        Some(LoadError::OutOfRange)
    } else {
        None
    }
}

/// The error of the first faulty segment among the first `n`.
pub open spec fn first_error(segs: Seq<ProgramSegment>, n: int) -> Option<LoadError>
    decreases n,
{
    if n <= 0 {
        None
    } else {
        match first_error(segs, n - 1) {
            Some(e) => Some(e),
            None => seg_error(segs[n - 1]),
        }
    }
}

/// Number of pages a segment covers.
pub open spec fn seg_pages(s: ProgramSegment) -> nat {
    ((s.mem_size + PAGE_SIZE - 1) / PAGE_SIZE as int) as nat
}

/// The pages of one segment.
pub open spec fn seg_layout(s: ProgramSegment) -> Seq<PageLayout> {
    Seq::new(
        seg_pages(s),
        |k: int|
            PageLayout {
                vpn: (s.vaddr as int / PAGE_SIZE as int + k) as usize,
                perm: s.perm.user_spec(),
                framed: true,
                data: page_bytes(s.data@, k * PAGE_SIZE),
            },
    )
}

/// The pages of the first `n` segments, in order.
pub open spec fn segs_layout(segs: Seq<ProgramSegment>, n: int) -> Seq<PageLayout>
    decreases n,
{
    if n <= 0 {
        Seq::empty()
    } else {
        segs_layout(segs, n - 1) + seg_layout(segs[n - 1])
    }
}

/// Number of pages of the first `n` segments.
pub open spec fn segs_frames(segs: Seq<ProgramSegment>, n: int) -> nat
    decreases n,
{
    if n <= 0 {
        0
    } else {
        segs_frames(segs, n - 1) + seg_pages(segs[n - 1])
    }
}

/// The first virtual page above every segment among the first `n`.
pub open spec fn max_end_vpn(segs: Seq<ProgramSegment>, n: int) -> int
    decreases n,
{
    if n <= 0 {
        0
    } else {
        let e = segs[n - 1].vaddr as int / PAGE_SIZE as int + seg_pages(segs[n - 1]);
        let m = max_end_vpn(segs, n - 1);
        if e > m {
            e
        } else {
            m
        }
    }
}

/// Lowest page of the user stack: one guard page above the segments.
pub open spec fn stack_bottom_vpn(img: ProgramImage) -> int {
    max_end_vpn(img.segments@, img.segments@.len() as int) + 1
}

/// Initial user stack pointer: the top of the user stack.
pub open spec fn user_stack_top(img: ProgramImage) -> int {
    (stack_bottom_vpn(img) + USER_STACK_PAGES) * PAGE_SIZE
}

/// A zero-filled framed page.
pub open spec fn zero_page(vpn: int, perm: MapPermission) -> PageLayout {
    PageLayout { vpn: vpn as usize, perm, framed: true, data: page_bytes(Seq::empty(), 0) }
}

/// The whole layout of the address space of an image: its segments, the user
/// stack, the trap-context page and the trampoline.
pub open spec fn image_layout(img: ProgramImage) -> Seq<PageLayout> {
    let segs = img.segments@;
    segs_layout(segs, segs.len() as int) + Seq::new(
        USER_STACK_PAGES as nat,
        |k: int| zero_page(stack_bottom_vpn(img) + k, stack_perm()),
    ) + seq![
        zero_page(TRAP_CONTEXT as int / PAGE_SIZE as int, trap_perm()),
        zero_page(TRAMPOLINE as int / PAGE_SIZE as int, trampoline_perm()),
    ]
}

/// Number of frames loading the image takes, the page-table root included.
pub open spec fn image_frames(img: ProgramImage) -> nat {
    (segs_frames(img.segments@, img.segments@.len() as int) + USER_STACK_PAGES + 3) as nat
}

/// The error loading `img` meets when `free` frames are free, if any.
pub open spec fn load_error(img: ProgramImage, free: int) -> Option<LoadError> {
    let segs = img.segments@;
    if first_error(segs, segs.len() as int) is Some {
        first_error(segs, segs.len() as int)
    } else if free < image_frames(img) {
        Some(LoadError::NoMemory)
    } else if !crate::memory_set::distinct_vpns(image_layout(img)) {
        Some(LoadError::Overlap)
    } else {
        None
    }
}

proof fn lemma_segs_layout_len(segs: Seq<ProgramSegment>, n: int)
    requires
        0 <= n,
    ensures
        segs_layout(segs, n).len() == segs_frames(segs, n),
    decreases n,
{
    if n > 0 {
        lemma_segs_layout_len(segs, n - 1);
    }
}

proof fn lemma_segs_frames_mono(segs: Seq<ProgramSegment>, a: int, b: int)
    requires
        0 <= a <= b,
    ensures
        segs_frames(segs, a) <= segs_frames(segs, b),
    decreases b - a,
{
    if a < b {
        lemma_segs_frames_mono(segs, a, b - 1);
    }
}

/// Page `k` of segment `i` stands at `segs_frames(segs, i) + k` in the layout.
proof fn lemma_segs_layout_index(segs: Seq<ProgramSegment>, n: int, i: int, k: int)
    requires
        0 <= i < n,
        0 <= k < seg_pages(segs[i]),
    ensures
        segs_layout(segs, n)[segs_frames(segs, i) + k] == seg_layout(segs[i])[k],
        segs_frames(segs, i) + k < segs_frames(segs, n),
    decreases n,
{
    lemma_segs_layout_len(segs, n - 1);
    if i < n - 1 {
        lemma_segs_layout_index(segs, n - 1, i, k);
    } else {
        assert(i == n - 1);
    }
}

proof fn lemma_first_error_some(segs: Seq<ProgramSegment>, a: int, n: int)
    requires
        0 <= a <= n,
        first_error(segs, a) is Some,
    ensures
        first_error(segs, n) == first_error(segs, a),
    decreases n - a,
{
    if a < n {
        lemma_first_error_some(segs, a, n - 1);
    }
}

proof fn lemma_first_error_none(segs: Seq<ProgramSegment>, n: int, i: int)
    requires
        0 <= i < n,
        first_error(segs, n) is None,
    ensures
        seg_error(segs[i]) is None,
    decreases n,
{
    if i < n - 1 {
        lemma_first_error_none(segs, n - 1, i);
    }
}

proof fn lemma_max_end(segs: Seq<ProgramSegment>, n: int, i: int)
    requires
        0 <= i < n,
    ensures
        segs[i].vaddr as int / PAGE_SIZE as int + seg_pages(segs[i]) <= max_end_vpn(segs, n),
    decreases n,
{
    if i < n - 1 {
        lemma_max_end(segs, n - 1, i);
    }
}

proof fn lemma_max_end_bound(segs: Seq<ProgramSegment>, n: int)
    requires
        0 <= n <= segs.len(),
        forall|i: int| 0 <= i < n ==> seg_error(#[trigger] segs[i]) is None,
    ensures
        0 <= max_end_vpn(segs, n) <= USER_LIMIT as int / PAGE_SIZE as int,
    decreases n,
{
    if n > 0 {
        lemma_max_end_bound(segs, n - 1);
        assert(seg_error(segs[n - 1]) is None);
    }
}

/// The error of one segment.
fn check_segment(s: &ProgramSegment) -> (r: Option<LoadError>)
    ensures
        r == seg_error(*s),
{
    if s.vaddr % PAGE_SIZE != 0 {
        Some(LoadError::Misaligned)
    } else if s.data.len() > s.mem_size {
        Some(LoadError::DataTooLong)
    } else if s.mem_size > USER_LIMIT || s.vaddr > USER_LIMIT - s.mem_size {
        Some(LoadError::OutOfRange)
    } else {
        None
    }
}

impl MemorySet {
    /// Builds the address space of a program image. Returns it with the
    /// initial user stack pointer and the entry address; on an error the
    /// allocator hands out the same frames as before.
    pub fn from_program_image(fa: &mut StackFrameAllocator, img: &ProgramImage) -> (r: Result<(MemorySet, usize, usize), LoadError>)
        requires
            old(fa).wf(),
        ensures
            final(fa).wf(),
            r is Err <==> load_error(*img, free_frames(old(fa)@)) is Some,
            r matches Err(e) ==> Some(e) == load_error(*img, free_frames(old(fa)@)),
            r is Err ==> forall|q: usize| #[trigger] final(fa)@.live(q) == old(fa)@.live(q),
            r matches Ok(t) ==> {
                &&& t.0@.wf()
                &&& layout_of(t.0@.pages) == image_layout(*img)
                &&& t.0@.live_in(final(fa)@)
                &&& handed_out(old(fa)@, final(fa)@, t.0@)
                &&& t.1 == user_stack_top(*img)
                &&& t.2 == img.entry
            },
    {
        let segs = &img.segments;
        let ghost sv = segs@;
        let n = segs.len();
        let mut i: usize = 0;
        while i < n
            invariant
                n == sv.len(),
                sv == segs@,
                i <= n,
                first_error(sv, i as int) is None,
                fa.wf(),
                fa@ == old(fa)@,
                sv == img.segments@,
            decreases n - i,
        {
            match check_segment(&segs[i]) {
                Some(e) => {
                    proof {
                        assert(first_error(sv, i as int + 1) == Some(e));
                        lemma_first_error_some(sv, i as int + 1, n as int);
                    }
                    return Err(e);
                },
                None => {},
            }
            i += 1;
        }
        proof {
            assert forall|i: int| 0 <= i < n implies seg_error(#[trigger] sv[i]) is None by {
                lemma_first_error_none(sv, n as int, i);
            };
            lemma_max_end_bound(sv, n as int);
        }
        // Count the frames needed and find the top of the segments.
        let avail = fa.available();
        let mut total: usize = 0;
        let mut max_end: usize = 0;
        let mut i: usize = 0;
        while i < n
            invariant
                n == sv.len(),
                sv == segs@,
                i <= n,
                forall|i: int| 0 <= i < n ==> seg_error(#[trigger] sv[i]) is None,
                total == segs_frames(sv, i as int),
                total <= avail,
                avail == free_frames(fa@),
                first_error(sv, n as int) is None,
                fa.wf(),
                fa@ == old(fa)@,
                sv == img.segments@,
                max_end == max_end_vpn(sv, i as int),
                max_end <= USER_LIMIT / PAGE_SIZE,
            decreases n - i,
        {
            let s = &segs[i];
            assert(seg_error(sv[i as int]) is None);
            let np = (s.mem_size + PAGE_SIZE - 1) / PAGE_SIZE;
            assert(np == seg_pages(sv[i as int]));
            if np > avail - total {
                proof {
                    lemma_segs_frames_mono(sv, i as int + 1, n as int);
                }
                return Err(LoadError::NoMemory);
            }
            total = total + np;
            let e = s.vaddr / PAGE_SIZE + np;
            if e > max_end {
                max_end = e;
            }
            i += 1;
        }
        if avail - total < USER_STACK_PAGES + 3 {
            return Err(LoadError::NoMemory);
        }
        let ghost fa0 = fa@;
        let ghost full = image_layout(*img);
        let mut m = match MemorySet::new_bare(fa) {
            Some(m) => m,
            None => {
                return Err(LoadError::NoMemory);
            },
        };
        proof {
            lemma_segs_layout_len(sv, n as int);
        }
        let empty: Vec<u8> = Vec::new();
        // The segments.
        let mut i: usize = 0;
        while i < n
            invariant
                n == sv.len(),
                sv == segs@,
                i <= n,
                forall|i: int| 0 <= i < n ==> seg_error(#[trigger] sv[i]) is None,
                fa.wf(),
                fa0.wf(),
                fa0 == old(fa)@,
                sv == img.segments@,
                first_error(sv, sv.len() as int) is None,
                free_frames(fa0) >= image_frames(*img),
                m@.wf(),
                m@.live_in(fa@),
                handed_out(fa0, fa@, m@),
                full == image_layout(*img),
                full.len() == segs_frames(sv, n as int) + USER_STACK_PAGES + 2,
                segs_layout(sv, n as int).len() == segs_frames(sv, n as int),
                m@.pages.len() == segs_frames(sv, i as int),
                layout_of(m@.pages) =~= full.take(m@.pages.len() as int),
                free_frames(fa@) >= segs_frames(sv, n as int) - segs_frames(sv, i as int) + USER_STACK_PAGES + 2,
                max_end == max_end_vpn(sv, n as int),
                max_end <= USER_LIMIT / PAGE_SIZE,
            decreases n - i,
        {
            let s = &segs[i];
            assert(seg_error(sv[i as int]) is None);
            let np = (s.mem_size + PAGE_SIZE - 1) / PAGE_SIZE;
            assert(np == seg_pages(sv[i as int]));
            proof {
                lemma_segs_frames_mono(sv, i as int + 1, n as int);
            }
            let first = s.vaddr / PAGE_SIZE;
            let perm = s.perm.user();
            let mut k: usize = 0;
            let mut off: usize = 0;
            while k < np
                invariant
                    n == sv.len(),
                    sv == segs@,
                    i < n,
                    *s == sv[i as int],
                    seg_error(sv[i as int]) is None,
                    np == seg_pages(sv[i as int]),
                    first == s.vaddr / PAGE_SIZE,
                    perm == s.perm.user_spec(),
                    k <= np,
                    off == k * PAGE_SIZE,
                    fa.wf(),
                    fa0.wf(),
                    fa0 == old(fa)@,
                    sv == img.segments@,
                    first_error(sv, sv.len() as int) is None,
                    free_frames(fa0) >= image_frames(*img),
                    segs_layout(sv, n as int).len() == segs_frames(sv, n as int),
                    m@.wf(),
                    m@.live_in(fa@),
                    handed_out(fa0, fa@, m@),
                    full == image_layout(*img),
                    full.len() == segs_frames(sv, n as int) + USER_STACK_PAGES + 2,
                segs_layout(sv, n as int).len() == segs_frames(sv, n as int),
                    m@.pages.len() == segs_frames(sv, i as int) + k,
                    layout_of(m@.pages) =~= full.take(m@.pages.len() as int),
                    free_frames(fa@) >= segs_frames(sv, n as int) - segs_frames(sv, i as int) - k + USER_STACK_PAGES + 2,
                    segs_frames(sv, i as int + 1) <= segs_frames(sv, n as int),
                decreases np - k,
            {
                proof {
                    lemma_segs_layout_index(sv, n as int, i as int, k as int);
                    let a = segs_layout(sv, n as int);
                    let idx = m@.pages.len() as int;
                    assert(idx < a.len());
                    assert(full[idx] == a[idx]);
                    assert(full[m@.pages.len() as int] == seg_layout(sv[i as int])[k as int]);
                }
                let vpn = first + k;
                if m.is_mapped(vpn) {
                    proof {
                        lemma_found_overlap(m@.pages, full, vpn);
                    }
                    let ghost fb = fa@;
                    let ghost mv = m@;
                    m.recycle(fa);
                    proof {
                        lemma_rolled_back(fa0, fb, fa@, mv);
                    }
                    return Err(LoadError::Overlap);
                }
                let ghost mb = m@;
                let ghost fb = fa@;
                let p = m.push_framed(fa, vpn, perm, &s.data, off);
                proof {
                    lemma_pushed(fa0, fb, fa@, mb, m@, p);
                    assert(layout_of(m@.pages) =~= full.take(m@.pages.len() as int));
                }
                k += 1;
                off += PAGE_SIZE;
            }
            i += 1;
        }
        // The user stack, one guard page above the segments.
        let bottom = max_end + 1;
        let mut k: usize = 0;
        while k < USER_STACK_PAGES
            invariant
                fa.wf(),
                fa0.wf(),
                fa0 == old(fa)@,
                sv == img.segments@,
                first_error(sv, sv.len() as int) is None,
                free_frames(fa0) >= image_frames(*img),
                m@.wf(),
                m@.live_in(fa@),
                handed_out(fa0, fa@, m@),
                full == image_layout(*img),
                full.len() == segs_frames(sv, n as int) + USER_STACK_PAGES + 2,
                segs_layout(sv, n as int).len() == segs_frames(sv, n as int),
                empty@ == Seq::<u8>::empty(),
                bottom == stack_bottom_vpn(*img),
                bottom <= USER_LIMIT / PAGE_SIZE + 1,
                k <= USER_STACK_PAGES,
                m@.pages.len() == segs_frames(sv, n as int) + k,
                layout_of(m@.pages) =~= full.take(m@.pages.len() as int),
                free_frames(fa@) >= USER_STACK_PAGES - k + 2,
            decreases USER_STACK_PAGES - k,
        {
            let vpn = bottom + k;
            proof {
                assert(full[m@.pages.len() as int] == zero_page(bottom + k, stack_perm()));
            }
            if m.is_mapped(vpn) {
                proof {
                    lemma_found_overlap(m@.pages, full, vpn);
                }
                let ghost fb = fa@;
                let ghost mv = m@;
                m.recycle(fa);
                proof {
                    lemma_rolled_back(fa0, fb, fa@, mv);
                }
                return Err(LoadError::Overlap);
            }
            let ghost mb = m@;
            let ghost fb = fa@;
            let p = m.push_framed(fa, vpn, MapPermission { r: true, w: true, x: false, u: true }, &empty, 0);
            proof {
                lemma_pushed(fa0, fb, fa@, mb, m@, p);
                assert(layout_of(m@.pages) =~= full.take(m@.pages.len() as int));
            }
            k += 1;
        }
        // The trap-context page and the trampoline, both kernel only.
        let top_vpns: [usize; 2] = [TRAP_CONTEXT / PAGE_SIZE, TRAMPOLINE / PAGE_SIZE];
        let top_perms: [MapPermission; 2] = [
            MapPermission { r: true, w: true, x: false, u: false },
            MapPermission { r: true, w: false, x: true, u: false },
        ];
        let mut k: usize = 0;
        while k < 2
            invariant
                fa.wf(),
                fa0.wf(),
                fa0 == old(fa)@,
                sv == img.segments@,
                first_error(sv, sv.len() as int) is None,
                free_frames(fa0) >= image_frames(*img),
                m@.wf(),
                m@.live_in(fa@),
                handed_out(fa0, fa@, m@),
                full == image_layout(*img),
                full.len() == segs_frames(sv, n as int) + USER_STACK_PAGES + 2,
                segs_layout(sv, n as int).len() == segs_frames(sv, n as int),
                k <= 2,
                empty@ == Seq::<u8>::empty(),
                top_vpns@ == seq![TRAP_CONTEXT / PAGE_SIZE, TRAMPOLINE / PAGE_SIZE],
                top_perms@ == seq![trap_perm(), trampoline_perm()],
                m@.pages.len() == segs_frames(sv, n as int) + USER_STACK_PAGES + k,
                layout_of(m@.pages) =~= full.take(m@.pages.len() as int),
                free_frames(fa@) >= 2 - k,
            decreases 2 - k,
        {
            let vpn = top_vpns[k];
            proof {
                assert(full[m@.pages.len() as int] == zero_page(vpn as int, top_perms@[k as int]));
            }
            if m.is_mapped(vpn) {
                proof {
                    lemma_found_overlap(m@.pages, full, vpn);
                }
                let ghost fb = fa@;
                let ghost mv = m@;
                m.recycle(fa);
                proof {
                    lemma_rolled_back(fa0, fb, fa@, mv);
                }
                return Err(LoadError::Overlap);
            }
            let ghost mb = m@;
            let ghost fb = fa@;
            let p = m.push_framed(fa, vpn, top_perms[k], &empty, 0);
            proof {
                lemma_pushed(fa0, fb, fa@, mb, m@, p);
                assert(layout_of(m@.pages) =~= full.take(m@.pages.len() as int));
            }
            k += 1;
        }
        proof {
            assert(full.take(full.len() as int) =~= full);
            lemma_layout_distinct(m@);
        }
        Ok((m, (bottom + USER_STACK_PAGES) * PAGE_SIZE, img.entry))
    }
}

} // verus!
