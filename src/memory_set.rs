//! Per-task address spaces: the pages a task maps, the frame behind each page
//! and its permissions, with the bytes of every frame the space owns.
use vstd::prelude::*;

use crate::config::PAGE_SIZE;
use crate::frame_allocator::{FrameAllocState, StackFrameAllocator};

verus! {

/// Access rights of a mapping.
#[derive(Debug, Clone, Copy, PartialEq, Eq, Structural)]
pub struct MapPermission {
    pub r: bool,
    pub w: bool,
    pub x: bool,
    /// Reachable from user mode.
    pub u: bool,
}

impl MapPermission {
    /// The same rights, reachable from user mode.
    pub open spec fn user_spec(self) -> MapPermission {
        MapPermission { u: true, ..self }
    }

    /// The same rights, reachable from user mode.
    pub fn user(self) -> (r: MapPermission)
        ensures
            r == self.user_spec(),
    {
        MapPermission { r: self.r, w: self.w, x: self.x, u: true }
    }
}

/// Rights of a user stack page.
pub open spec fn stack_perm() -> MapPermission {
    MapPermission { r: true, w: true, x: false, u: true }
}

/// Rights of the trap-context page: kernel only.
pub open spec fn trap_perm() -> MapPermission {
    MapPermission { r: true, w: true, x: false, u: false }
}

/// Rights of the trampoline page: kernel only.
pub open spec fn trampoline_perm() -> MapPermission {
    MapPermission { r: true, w: false, x: true, u: false }
}

/// One mapped virtual page.
pub struct MappedPage {
    pub vpn: usize,
    pub perm: MapPermission,
    /// The physical page behind it.
    pub ppn: usize,
    /// Whether the space owns the frame (and holds its bytes); otherwise the
    /// page maps a physical page owned elsewhere, such as a device buffer.
    pub framed: bool,
    /// The frame's bytes when `framed`, else empty.
    pub data: Vec<u8>,
}

/// A mapped page as a mathematical value.
pub struct PageView {
    pub vpn: usize,
    pub perm: MapPermission,
    pub ppn: usize,
    pub framed: bool,
    pub data: Seq<u8>,
}

/// A mapped page without the physical page behind it: what a copy of an
/// address space keeps.
pub struct PageLayout {
    pub vpn: usize,
    pub perm: MapPermission,
    pub framed: bool,
    pub data: Seq<u8>,
}

impl MappedPage {
    pub open spec fn view(&self) -> PageView {
        PageView {
            vpn: self.vpn,
            perm: self.perm,
            ppn: self.ppn,
            framed: self.framed,
            data: self.data@,
        }
    }
}

impl PageView {
    pub open spec fn layout(self) -> PageLayout {
        PageLayout { vpn: self.vpn, perm: self.perm, framed: self.framed, data: self.data }
    }
}

/// An address space as a mathematical value: the root of its page table and
/// its pages.
pub struct MemorySetView {
    pub root: usize,
    pub pages: Seq<PageView>,
}

/// The layout of a sequence of pages.
pub open spec fn layout_of(pages: Seq<PageView>) -> Seq<PageLayout> {
    pages.map_values(|p: PageView| p.layout())
}

/// Whether `vpn` is among the pages.
pub open spec fn maps_vpn(pages: Seq<PageView>, vpn: usize) -> bool {
    exists|i: int| 0 <= i < pages.len() && (#[trigger] pages[i]).vpn == vpn
}

/// No two entries of the layout share a virtual page.
pub open spec fn distinct_vpns(l: Seq<PageLayout>) -> bool {
    forall|i: int, j: int|
        0 <= i < l.len() && 0 <= j < l.len() && i != j ==> (#[trigger] l[i]).vpn != (#[trigger] l[j]).vpn
}

impl MemorySetView {
    /// The invariant of an address space.
    pub open spec fn wf(self) -> bool {
        &&& forall|i: int, j: int|
            0 <= i < self.pages.len() && 0 <= j < self.pages.len() && i != j
                ==> (#[trigger] self.pages[i]).vpn != (#[trigger] self.pages[j]).vpn
        &&& forall|i: int, j: int|
            0 <= i < self.pages.len() && 0 <= j < self.pages.len() && i != j
                && self.pages[i].framed && self.pages[j].framed
                ==> (#[trigger] self.pages[i]).ppn != (#[trigger] self.pages[j]).ppn
        &&& forall|i: int|
            0 <= i < self.pages.len() ==> {
                &&& (#[trigger] self.pages[i]).framed ==> self.pages[i].ppn != self.root
                &&& self.pages[i].framed ==> self.pages[i].data.len() == PAGE_SIZE
                &&& !self.pages[i].framed ==> self.pages[i].data.len() == 0
            }
    }

    /// The frames this space owns: its page-table root and its framed pages.
    pub open spec fn owns(self, ppn: usize) -> bool {
        ppn == self.root || exists|i: int|
            0 <= i < self.pages.len() && (#[trigger] self.pages[i]).framed && self.pages[i].ppn
                == ppn
    }

    /// Every frame this space owns is handed out by the allocator.
    pub open spec fn live_in(self, fa: FrameAllocState) -> bool {
        &&& fa.live(self.root)
        &&& forall|i: int|
            0 <= i < self.pages.len() && (#[trigger] self.pages[i]).framed ==> fa.live(
                self.pages[i].ppn,
            )
    }

    /// The byte at virtual address `va`, if a framed page holds it.
    pub open spec fn byte_at(self, va: usize) -> Option<u8> {
        let vpn = (va / PAGE_SIZE) as usize;
        if maps_vpn(self.pages, vpn) {
            let i = choose|i: int| 0 <= i < self.pages.len() && (#[trigger] self.pages[i]).vpn == vpn;
            if self.pages[i].framed {
                Some(self.pages[i].data[(va % PAGE_SIZE) as int])
            } else {
                None
            }
        } else {
            None
        }
    }

    /// The space after writing `b` at `va`.
    pub open spec fn written(self, va: usize, b: u8) -> MemorySetView {
        let vpn = (va / PAGE_SIZE) as usize;
        let i = choose|i: int| 0 <= i < self.pages.len() && (#[trigger] self.pages[i]).vpn == vpn;
        if maps_vpn(self.pages, vpn) && self.pages[i].framed {
            MemorySetView {
                pages: self.pages.update(
                    i,
                    PageView { data: self.pages[i].data.update((va % PAGE_SIZE) as int, b), ..self.pages[i] },
                ),
                ..self
            }
        } else {
            self
        }
    }
}

/// Liveness after a change that handed out exactly the frames `mine` owns.
pub open spec fn handed_out(before: FrameAllocState, after: FrameAllocState, mine: MemorySetView) -> bool {
    forall|q: usize|
        #![trigger after.live(q)]
        #![trigger mine.owns(q)]
        (after.live(q) <==> before.live(q) || mine.owns(q)) && (mine.owns(q) ==> !before.live(q))
}

/// Liveness after a change that gave back exactly the frames `mine` owned.
pub open spec fn given_back(before: FrameAllocState, after: FrameAllocState, mine: MemorySetView) -> bool {
    forall|q: usize|
        #![trigger after.live(q)]
        after.live(q) <==> before.live(q) && !mine.owns(q)
}

/// Number of frames the allocator can still hand out.
pub open spec fn free_frames(fa: FrameAllocState) -> int {
    fa.end - fa.current + fa.recycled.len()
}

/// Errors of building or changing an address space.
#[derive(Debug, Clone, Copy, PartialEq, Eq, Structural)]
pub enum MapError {
    /// A page of the new region is mapped already.
    Overlap,
    /// The virtual or the physical pages run past the last page number.
    BadRange,
    /// Not enough free frames.
    NoMemory,
}

/// An address space.
pub struct MemorySet {
    root: usize,
    pages: Vec<MappedPage>,
}

impl View for MemorySet {
    type V = MemorySetView;

    closed spec fn view(&self) -> MemorySetView {
        MemorySetView { root: self.root, pages: self.pages@.map_values(|p: MappedPage| p.view()) }
    }
}

/// The allocator hands out a frame whenever one is free.
pub(crate) proof fn lemma_alloc_succeeds(fa: FrameAllocState)
    requires
        fa.wf(),
        free_frames(fa) > 0,
    ensures
        fa.alloc_step().1 is Some,
        free_frames(fa.alloc_step().0) == free_frames(fa) - 1,
{
}

impl MemorySet {
    /// An address space with no page, whose page-table root is a new frame.
    pub fn new_bare(fa: &mut StackFrameAllocator) -> (r: Option<MemorySet>)
        requires
            old(fa).wf(),
        ensures
            final(fa).wf(),
            r is Some <==> free_frames(old(fa)@) > 0,
            r is None ==> final(fa)@ == old(fa)@,
            r matches Some(m) ==> {
                &&& m@.wf()
                &&& m@.pages.len() == 0
                &&& m@.live_in(final(fa)@)
                &&& handed_out(old(fa)@, final(fa)@, m@)
                &&& free_frames(final(fa)@) == free_frames(old(fa)@) - 1
            },
    {
        proof {
            if free_frames(fa@) > 0 {
                lemma_alloc_succeeds(fa@);
            }
        }
        match fa.alloc_frame() {
            Some(root) => {
                let m = MemorySet { root, pages: Vec::new() };
                assert(m@.pages =~= Seq::empty());
                Some(m)
            },
            None => None,
        }
    }

    /// The page-table root, the handle that activates this space.
    pub fn token(&self) -> (r: usize)
        ensures
            r == self@.root,
    {
        self.root
    }

    /// Number of mapped pages.
    pub fn page_count(&self) -> (r: usize)
        ensures
            r == self@.pages.len(),
    {
        self.pages.len()
    }

    /// Index of the page that maps `vpn`.
    fn find(&self, vpn: usize) -> (r: Option<usize>)
        requires
            self@.wf(),
        ensures
            r is Some <==> maps_vpn(self@.pages, vpn),
            r matches Some(i) ==> i < self@.pages.len() && self@.pages[i as int].vpn == vpn,
    {
        let mut i: usize = 0;
        while i < self.pages.len()
            invariant
                i <= self@.pages.len(),
                self@.pages.len() == self.pages@.len(),
                forall|j: int| 0 <= j < i ==> self@.pages[j].vpn != vpn,
            decreases self.pages@.len() - i,
        {
            if self.pages[i].vpn == vpn {
                assert(self@.pages[i as int].vpn == vpn);
                return Some(i);
            }
            i += 1;
        }
        None
    }

    /// Whether `vpn` is mapped.
    pub fn is_mapped(&self, vpn: usize) -> (r: bool)
        requires
            self@.wf(),
        ensures
            r == maps_vpn(self@.pages, vpn),
    {
        self.find(vpn).is_some()
    }

    /// The physical page and rights behind `vpn`.
    pub fn translate(&self, vpn: usize) -> (r: Option<(usize, MapPermission)>)
        requires
            self@.wf(),
        ensures
            r is Some <==> maps_vpn(self@.pages, vpn),
            r matches Some(t) ==> exists|i: int|
                0 <= i < self@.pages.len() && (#[trigger] self@.pages[i]).vpn == vpn && t == (
                self@.pages[i].ppn,
                self@.pages[i].perm,
            ),
    {
        match self.find(vpn) {
            Some(i) => Some((self.pages[i].ppn, self.pages[i].perm)),
            None => None,
        }
    }

    /// The byte at virtual address `va`, if a framed page holds it.
    pub fn read_byte(&self, va: usize) -> (r: Option<u8>)
        requires
            self@.wf(),
        ensures
            r == self@.byte_at(va),
    {
        match self.find(va / PAGE_SIZE) {
            Some(i) => {
                proof {
                    lemma_unique_index(self@, (va / PAGE_SIZE) as usize, i as int);
                }
                if self.pages[i].framed {
                    Some(self.pages[i].data[va % PAGE_SIZE])
                } else {
                    None
                }
            },
            None => None,
        }
    }

    /// Writes `b` at virtual address `va`; returns whether a framed page holds it.
    pub fn write_byte(&mut self, va: usize, b: u8) -> (r: bool)
        requires
            old(self)@.wf(),
        ensures
            final(self)@.wf(),
            final(self)@ == old(self)@.written(va, b),
            r == old(self)@.byte_at(va) is Some,
    {
        match self.find(va / PAGE_SIZE) {
            Some(i) => {
                proof {
                    lemma_unique_index(self@, (va / PAGE_SIZE) as usize, i as int);
                }
                if self.pages[i].framed {
                    let page = &mut self.pages[i];
                    page.data.set(va % PAGE_SIZE, b);
                    proof {
                        assert(self@.pages =~= old(self)@.written(va, b).pages);
                    }
                    true
                } else {
                    false
                }
            },
            None => false,
        }
    }

    /// Maps `npages` pages from `start_vpn` onto the physical pages from
    /// `ppn_base` on, which this space does not own (a device buffer, say).
    pub fn map_linear(&mut self, start_vpn: usize, npages: usize, ppn_base: usize, perm: MapPermission) -> (r: Result<(), MapError>)
        requires
            old(self)@.wf(),
        ensures
            final(self)@.wf(),
            r is Err ==> final(self)@ == old(self)@,
            r != Err::<(), MapError>(MapError::NoMemory),
            r == Err::<(), MapError>(MapError::BadRange) <==> (start_vpn + npages > usize::MAX
                || ppn_base + npages > usize::MAX),
            r == Err::<(), MapError>(MapError::Overlap) <==> !(start_vpn + npages > usize::MAX
                || ppn_base + npages > usize::MAX) && exists|k: int|
                0 <= k < npages && #[trigger] maps_vpn(old(self)@.pages, (start_vpn + k) as usize),
            r is Ok ==> final(self)@ == (MemorySetView {
                pages: old(self)@.pages + Seq::new(
                    npages as nat,
                    |k: int|
                        PageView {
                            vpn: (start_vpn + k) as usize,
                            perm,
                            ppn: (ppn_base + k) as usize,
                            framed: false,
                            data: Seq::empty(),
                        },
                ),
                ..old(self)@
            }),
    {
        if start_vpn > usize::MAX - npages || ppn_base > usize::MAX - npages {
            return Err(MapError::BadRange);
        }
        let mut k: usize = 0;
        while k < npages
            invariant
                k <= npages,
                start_vpn + npages <= usize::MAX,
                ppn_base + npages <= usize::MAX,
                self@ == old(self)@,
                self@.wf(),
                forall|j: int| 0 <= j < k ==> !#[trigger] maps_vpn(self@.pages, (start_vpn + j) as usize),
            decreases npages - k,
        {
            if self.find(start_vpn + k).is_some() {
                assert(maps_vpn(old(self)@.pages, (start_vpn + k) as usize));
                return Err(MapError::Overlap);
            }
            k += 1;
        }
        let ghost old_pages = self@.pages;
        let ghost added = Seq::new(
            npages as nat,
            |k: int|
                PageView {
                    vpn: (start_vpn + k) as usize,
                    perm,
                    ppn: (ppn_base + k) as usize,
                    framed: false,
                    data: Seq::empty(),
                },
        );
        let mut k: usize = 0;
        while k < npages
            invariant
                k <= npages,
                start_vpn + npages <= usize::MAX,
                ppn_base + npages <= usize::MAX,
                self.root == old(self)@.root,
                added == Seq::new(
                    npages as nat,
                    |k: int|
                        PageView {
                            vpn: (start_vpn + k) as usize,
                            perm,
                            ppn: (ppn_base + k) as usize,
                            framed: false,
                            data: Seq::empty(),
                        },
                ),
                self@.pages =~= old_pages + added.take(k as int),
                self@.wf(),
                forall|j: int| 0 <= j < npages ==> !#[trigger] maps_vpn(old_pages, (start_vpn + j) as usize),
                old_pages == old(self)@.pages,
            decreases npages - k,
        {
            let ghost before = self@;
            self.pages.push(
                MappedPage {
                    vpn: start_vpn + k,
                    perm,
                    ppn: ppn_base + k,
                    framed: false,
                    data: Vec::new(),
                },
            );
            proof {
                assert(added.take(k as int + 1) =~= added.take(k as int).push(added[k as int]));
                assert(self@.pages =~= before.pages.push(added[k as int]));
                assert forall|i: int| 0 <= i < before.pages.len() implies (#[trigger] before.pages[i]).vpn
                    != start_vpn + k by {
                    if i < old_pages.len() {
                        assert(old_pages[i] == before.pages[i]);
                        if before.pages[i].vpn == start_vpn + k {
                            assert(maps_vpn(old_pages, (start_vpn + k) as usize));
                        }
                    } else {
                        assert(before.pages[i] == added[i - old_pages.len()]);
                    }
                };
            }
            k += 1;
        }
        proof {
            assert(added.take(npages as int) =~= added);
        }
        Ok(())
    }
    /// Number of framed pages.
    fn count_framed(&self) -> (r: usize)
        ensures
            r == framed_in(self@.pages, self@.pages.len() as int),
    {
        let mut n: usize = 0;
        let mut i: usize = 0;
        while i < self.pages.len()
            invariant
                i <= self@.pages.len(),
                self@.pages.len() == self.pages@.len(),
                n == framed_in(self@.pages, i as int),
                n <= i,
            decreases self.pages@.len() - i,
        {
            if self.pages[i].framed {
                n += 1;
            }
            i += 1;
        }
        n
    }

    /// Maps `vpn` onto a new frame holding `page_bytes(src, from)`; returns the frame.
    pub(crate) fn push_framed(
        &mut self,
        fa: &mut StackFrameAllocator,
        vpn: usize,
        perm: MapPermission,
        src: &Vec<u8>,
        from: usize,
    ) -> (p: usize)
        requires
            old(self)@.wf(),
            old(fa).wf(),
            old(self)@.live_in(old(fa)@),
            free_frames(old(fa)@) > 0,
            !maps_vpn(old(self)@.pages, vpn),
        ensures
            final(fa).wf(),
            final(self)@.wf(),
            final(self)@ == (MemorySetView {
                pages: old(self)@.pages.push(
                    PageView { vpn, perm, ppn: p, framed: true, data: page_bytes(src@, from as int) },
                ),
                ..old(self)@
            }),
            !old(fa)@.live(p),
            forall|q: usize| #[trigger] final(fa)@.live(q) <==> old(fa)@.live(q) || q == p,
            free_frames(final(fa)@) == free_frames(old(fa)@) - 1,
            final(self)@.live_in(final(fa)@),
    {
        proof {
            lemma_alloc_succeeds(fa@);
        }
        let p = match fa.alloc_frame() {
            Some(p) => p,
            None => 0,
        };
        let mut data = vec![0u8; PAGE_SIZE];
        let n: usize = if from < src.len() {
            if src.len() - from < PAGE_SIZE {
                src.len() - from
            } else {
                PAGE_SIZE
            }
        } else {
            0
        };
        let src_len = src.len();
        let mut j: usize = 0;
        while j < PAGE_SIZE
            invariant
                j <= PAGE_SIZE,
                src_len == src@.len(),
                data@.len() == PAGE_SIZE,
                n <= PAGE_SIZE,
                from < src@.len() ==> n == (if src@.len() - from < PAGE_SIZE { src@.len() - from } else { PAGE_SIZE as int }),
                from >= src@.len() ==> n == 0,
                forall|t: int| 0 <= t < j ==> data@[t] == page_bytes(src@, from as int)[t],
                forall|t: int| j <= t < PAGE_SIZE ==> data@[t] == 0,
            decreases PAGE_SIZE - j,
        {
            if j < n {
                data.set(j, src[from + j]);
            }
            j += 1;
        }
        assert(data@ =~= page_bytes(src@, from as int));
        let ghost before = self@;
        self.pages.push(MappedPage { vpn, perm, ppn: p, framed: true, data });
        proof {
            let pv = PageView { vpn, perm, ppn: p, framed: true, data: page_bytes(src@, from as int) };
            assert(self@.pages =~= before.pages.push(pv));
            assert forall|i: int| 0 <= i < before.pages.len() implies (#[trigger] before.pages[i]).vpn
                != vpn by {
                if before.pages[i].vpn == vpn {
                    assert(maps_vpn(before.pages, vpn));
                }
            };
            assert forall|i: int| 0 <= i < before.pages.len() && (#[trigger] before.pages[i]).framed
                implies before.pages[i].ppn != p by {
                assert(old(fa)@.live(before.pages[i].ppn));
            };
        }
        p
    }

    /// Maps `vpn` onto the physical page `ppn`, which this space does not own.
    pub(crate) fn push_linear(&mut self, vpn: usize, perm: MapPermission, ppn: usize)
        requires
            old(self)@.wf(),
            !maps_vpn(old(self)@.pages, vpn),
        ensures
            final(self)@.wf(),
            final(self)@ == (MemorySetView {
                pages: old(self)@.pages.push(
                    PageView { vpn, perm, ppn, framed: false, data: Seq::empty() },
                ),
                ..old(self)@
            }),
    {
        let ghost before = self@;
        self.pages.push(MappedPage { vpn, perm, ppn, framed: false, data: Vec::new() });
        proof {
            let pv = PageView { vpn, perm, ppn, framed: false, data: Seq::empty() };
            assert(self@.pages =~= before.pages.push(pv));
            assert forall|i: int| 0 <= i < before.pages.len() implies (#[trigger] before.pages[i]).vpn
                != vpn by {
                if before.pages[i].vpn == vpn {
                    assert(maps_vpn(before.pages, vpn));
                }
            };
        }
    }

    /// A copy of this space with the same pages, rights and bytes: each owned
    /// frame is copied into a new frame, pages that map frames owned elsewhere
    /// map the same ones.
    pub fn duplicate(&self, fa: &mut StackFrameAllocator) -> (r: Result<MemorySet, MapError>)
        requires
            self@.wf(),
            old(fa).wf(),
            self@.live_in(old(fa)@),
        ensures
            final(fa).wf(),
            r is Err <==> free_frames(old(fa)@) < framed_in(self@.pages, self@.pages.len() as int) + 1,
            r matches Err(e) ==> e == MapError::NoMemory && final(fa)@ == old(fa)@,
            r matches Ok(m) ==> {
                &&& m@.wf()
                &&& layout_of(m@.pages) == layout_of(self@.pages)
                &&& forall|i: int|
                    0 <= i < self@.pages.len() && !(#[trigger] self@.pages[i]).framed
                        ==> m@.pages[i].ppn == self@.pages[i].ppn
                &&& m@.live_in(final(fa)@)
                &&& handed_out(old(fa)@, final(fa)@, m@)
            },
    {
        let need = self.count_framed();
        proof {
            lemma_framed_in_bound(self@.pages, self@.pages.len() as int);
        }
        if fa.available() <= need {
            return Err(MapError::NoMemory);
        }
        let ghost fa0 = fa@;
        let mut m = match MemorySet::new_bare(fa) {
            Some(m) => m,
            None => MemorySet { root: 0, pages: Vec::new() },
        };
        let mut i: usize = 0;
        while i < self.pages.len()
            invariant
                fa.wf(),
                self@.wf(),
                self@.live_in(fa0),
                fa0.wf(),
                i <= self@.pages.len(),
                self@.pages.len() == self.pages@.len(),
                m@.wf(),
                m@.pages.len() == i,
                layout_of(m@.pages) =~= layout_of(self@.pages).take(i as int),
                forall|k: int|
                    0 <= k < i && !(#[trigger] self@.pages[k]).framed ==> m@.pages[k].ppn
                        == self@.pages[k].ppn,
                m@.live_in(fa@),
                handed_out(fa0, fa@, m@),
                free_frames(fa@) == free_frames(fa0) - 1 - framed_in(self@.pages, i as int),
                free_frames(fa0) > framed_in(self@.pages, self@.pages.len() as int),
            decreases self.pages@.len() - i,
        {
            let ghost mb = m@;
            let ghost fb = fa@;
            proof {
                lemma_framed_in_mono(self@.pages, i as int + 1, self@.pages.len() as int);
                assert forall|k: int| 0 <= k < mb.pages.len() implies (#[trigger] mb.pages[k]).vpn
                    != self@.pages[i as int].vpn by {
                    assert(layout_of(mb.pages)[k] == layout_of(self@.pages)[k]);
                };
            }
            let page = &self.pages[i];
            if page.framed {
                let p = m.push_framed(fa, page.vpn, page.perm, &page.data, 0);
                proof {
                    assert(page_bytes(self@.pages[i as int].data, 0) =~= self@.pages[i as int].data);
                    assert(m@.pages[i as int].layout() == self@.pages[i as int].layout());
                    lemma_pushed(fa0, fb, fa@, mb, m@, p);
                }
            } else {
                m.push_linear(page.vpn, page.perm, page.ppn);
                proof {
                    assert(self@.pages[i as int].data =~= Seq::<u8>::empty());
                    assert(m@.pages[i as int].layout() == self@.pages[i as int].layout());
                    assert forall|q: usize| #![trigger fa@.live(q)] #![trigger m@.owns(q)]
                        (fa@.live(q) <==> fa0.live(q) || m@.owns(q)) && (m@.owns(q) ==> !fa0.live(q)) by {
                        if m@.owns(q) && q != m@.root {
                            let k = choose|k: int| 0 <= k < m@.pages.len() && (#[trigger] m@.pages[k]).framed && m@.pages[k].ppn == q;
                            assert(mb.pages[k].framed);
                            assert(mb.owns(q));
                        }
                        if mb.owns(q) && q != mb.root {
                            let k = choose|k: int| 0 <= k < mb.pages.len() && (#[trigger] mb.pages[k]).framed && mb.pages[k].ppn == q;
                            assert(m@.pages[k] == mb.pages[k]);
                        }
                    };
                }
            }
            proof {
                assert(layout_of(m@.pages) =~= layout_of(self@.pages).take(i as int + 1));
            }
            i += 1;
        }
        proof {
            assert(layout_of(self@.pages).take(self@.pages.len() as int) =~= layout_of(self@.pages));
        }
        Ok(m)
    }

    /// Gives every frame this space owns back to the allocator.
    pub fn recycle(self, fa: &mut StackFrameAllocator)
        requires
            self@.wf(),
            old(fa).wf(),
            self@.live_in(old(fa)@),
        ensures
            final(fa).wf(),
            given_back(old(fa)@, final(fa)@, self@),
    {
        let ghost fa0 = fa@;
        let ghost me = self@;
        let mut i: usize = 0;
        while i < self.pages.len()
            invariant
                fa.wf(),
                me == self@,
                me.wf(),
                me.live_in(fa0),
                i <= me.pages.len(),
                me.pages.len() == self.pages@.len(),
                forall|q: usize|
                    #[trigger] fa@.live(q) <==> fa0.live(q) && !(exists|k: int|
                        0 <= k < i && (#[trigger] me.pages[k]).framed && me.pages[k].ppn == q),
            decreases self.pages@.len() - i,
        {
            if self.pages[i].framed {
                let p = self.pages[i].ppn;
                proof {
                    assert(me.pages[i as int].framed);
                    assert forall|k: int| 0 <= k < i && (#[trigger] me.pages[k]).framed implies me.pages[k].ppn != p by {};
                }
                fa.dealloc(p);
            }
            proof {
                assert forall|q: usize|
                    #[trigger] fa@.live(q) <==> fa0.live(q) && !(exists|k: int|
                        0 <= k < i + 1 && (#[trigger] me.pages[k]).framed && me.pages[k].ppn == q) by {
                    if exists|k: int| 0 <= k < i + 1 && (#[trigger] me.pages[k]).framed && me.pages[k].ppn == q {
                        let k = choose|k: int| 0 <= k < i + 1 && (#[trigger] me.pages[k]).framed && me.pages[k].ppn == q;
                        if k < i {
                            assert(exists|k: int| 0 <= k < i && (#[trigger] me.pages[k]).framed && me.pages[k].ppn == q);
                        }
                    }
                };
            }
            i += 1;
        }
        proof {
            assert forall|k: int| 0 <= k < me.pages.len() && (#[trigger] me.pages[k]).framed implies me.pages[k].ppn != me.root by {};
        }
        fa.dealloc(self.root);
    }
}

/// A page whose virtual page is already among the pages laid out so far
/// makes the whole layout map one virtual page twice.
pub(crate) proof fn lemma_found_overlap(pages: Seq<PageView>, full: Seq<PageLayout>, vpn: usize)
    requires
        layout_of(pages) =~= full.take(pages.len() as int),
        pages.len() < full.len(),
        full[pages.len() as int].vpn == vpn,
        maps_vpn(pages, vpn),
    ensures
        !distinct_vpns(full),
{
    let j = choose|j: int| 0 <= j < pages.len() && (#[trigger] pages[j]).vpn == vpn;
    assert(layout_of(pages)[j] == full[j]);
    assert(full[j].vpn == full[pages.len() as int].vpn);
}

/// The layout of a well-formed space maps each virtual page once.
pub(crate) proof fn lemma_layout_distinct(m: MemorySetView)
    requires
        m.wf(),
    ensures
        distinct_vpns(layout_of(m.pages)),
{
    assert forall|i: int, j: int|
        0 <= i < m.pages.len() && 0 <= j < m.pages.len() && i != j implies (#[trigger] layout_of(m.pages)[i]).vpn
        != (#[trigger] layout_of(m.pages)[j]).vpn by {
        assert(m.pages[i].vpn != m.pages[j].vpn);
    };
}

/// Pushing a page on a new frame keeps the record of what was handed out.
pub(crate) proof fn lemma_pushed(
    fa0: FrameAllocState,
    fb: FrameAllocState,
    fa: FrameAllocState,
    mb: MemorySetView,
    m: MemorySetView,
    p: usize,
)
    requires
        handed_out(fa0, fb, mb),
        m.root == mb.root,
        m.pages.len() == mb.pages.len() + 1,
        forall|k: int| 0 <= k < mb.pages.len() ==> m.pages[k] == mb.pages[k],
        m.pages.last().framed,
        m.pages.last().ppn == p,
        !fb.live(p),
        forall|q: usize| #[trigger] fa.live(q) <==> fb.live(q) || q == p,
    ensures
        handed_out(fa0, fa, m),
{
    assert forall|q: usize| #![trigger fa.live(q)] #![trigger m.owns(q)]
        (fa.live(q) <==> fa0.live(q) || m.owns(q)) && (m.owns(q) ==> !fa0.live(q)) by {
        if m.owns(q) && q != p && q != m.root {
            let k = choose|k: int| 0 <= k < m.pages.len() && (#[trigger] m.pages[k]).framed && m.pages[k].ppn == q;
            assert(k < mb.pages.len());
            assert(mb.pages[k].framed);
            assert(mb.owns(q));
        }
        if mb.owns(q) && q != mb.root {
            let k = choose|k: int| 0 <= k < mb.pages.len() && (#[trigger] mb.pages[k]).framed && mb.pages[k].ppn == q;
            assert(m.pages[k] == mb.pages[k]);
        }
        if q == p {
            assert(m.pages[m.pages.len() - 1].framed);
        }
    };
}

/// Giving back what was handed out restores liveness.
pub(crate) proof fn lemma_rolled_back(
    fa0: FrameAllocState,
    fb: FrameAllocState,
    fa: FrameAllocState,
    m: MemorySetView,
)
    requires
        handed_out(fa0, fb, m),
        given_back(fb, fa, m),
    ensures
        forall|q: usize| #[trigger] fa.live(q) == fa0.live(q),
{
    assert forall|q: usize| #[trigger] fa.live(q) == fa0.live(q) by {
        assert(fb.live(q) <==> fa0.live(q) || m.owns(q));
    };
}

/// The bytes of one page taken from `src` at `from`, zero past its end.
pub open spec fn page_bytes(src: Seq<u8>, from: int) -> Seq<u8> {
    Seq::new(PAGE_SIZE as nat, |j: int| if 0 <= from + j < src.len() { src[from + j] } else { 0u8 })
}

/// Number of framed pages among the first `n`.
pub open spec fn framed_in(pages: Seq<PageView>, n: int) -> nat
    decreases n,
{
    if n <= 0 {
        0
    } else {
        framed_in(pages, n - 1) + if pages[n - 1].framed { 1nat } else { 0nat }
    }
}

proof fn lemma_framed_in_bound(pages: Seq<PageView>, n: int)
    requires
        0 <= n,
    ensures
        framed_in(pages, n) <= n,
    decreases n,
{
    if n > 0 {
        lemma_framed_in_bound(pages, n - 1);
    }
}

proof fn lemma_framed_in_mono(pages: Seq<PageView>, a: int, b: int)
    requires
        0 <= a <= b,
    ensures
        framed_in(pages, a) <= framed_in(pages, b),
    decreases b - a,
{
    if a < b {
        lemma_framed_in_mono(pages, a, b - 1);
    }
}

/// `vpn` is mapped at most once, so `i` is the page `choose` picks.
proof fn lemma_unique_index(m: MemorySetView, vpn: usize, i: int)
    requires
        m.wf(),
        0 <= i < m.pages.len(),
        m.pages[i].vpn == vpn,
    ensures
        maps_vpn(m.pages, vpn),
        (choose|j: int| 0 <= j < m.pages.len() && (#[trigger] m.pages[j]).vpn == vpn) == i,
{
    assert(maps_vpn(m.pages, vpn));
}

/// A copy made by `duplicate` is isolated from its source: the two own no
/// frame in common, every address reads the same byte in both, and writing a
/// byte into one changes that byte only, in that one, leaving the other as
/// it was (and the same holds the other way round).
pub proof fn lemma_duplicate_isolated(
    fa0: FrameAllocState,
    fa1: FrameAllocState,
    parent: MemorySetView,
    child: MemorySetView,
    va: usize,
    b: u8,
)
    requires
        parent.wf(),
        child.wf(),
        parent.live_in(fa0),
        handed_out(fa0, fa1, child),
        layout_of(child.pages) == layout_of(parent.pages),
    ensures
        forall|q: usize| #[trigger] parent.owns(q) ==> !child.owns(q),
        forall|x: usize| #[trigger] child.byte_at(x) == parent.byte_at(x),
        child.byte_at(va) is Some ==> child.written(va, b).byte_at(va) == Some(b),
        forall|x: usize| x != va ==> #[trigger] child.written(va, b).byte_at(x) == child.byte_at(x),
        parent.byte_at(va) is Some ==> parent.written(va, b).byte_at(va) == Some(b),
        forall|x: usize| x != va ==> #[trigger] parent.written(va, b).byte_at(x) == parent.byte_at(x),
{
    assert forall|q: usize| #[trigger] parent.owns(q) implies !child.owns(q) by {
        if q != parent.root {
            let k = choose|k: int| 0 <= k < parent.pages.len() && (#[trigger] parent.pages[k]).framed && parent.pages[k].ppn == q;
        }
    };
    assert(child.pages.len() == parent.pages.len()) by {
        assert(layout_of(child.pages).len() == child.pages.len());
        assert(layout_of(parent.pages).len() == parent.pages.len());
    };
    assert forall|x: usize| #[trigger] child.byte_at(x) == parent.byte_at(x) by {
        let vpn = (x / PAGE_SIZE) as usize;
        assert forall|i: int| 0 <= i < parent.pages.len() implies (#[trigger] child.pages[i]).vpn == parent.pages[i].vpn
            && child.pages[i].framed == parent.pages[i].framed && child.pages[i].data == parent.pages[i].data by {
            assert(layout_of(child.pages)[i] == child.pages[i].layout());
            assert(layout_of(parent.pages)[i] == parent.pages[i].layout());
        };
        if maps_vpn(parent.pages, vpn) {
            let i = choose|i: int| 0 <= i < parent.pages.len() && (#[trigger] parent.pages[i]).vpn == vpn;
            lemma_unique_index(parent, vpn, i);
            lemma_unique_index(child, vpn, i);
        } else {
            if maps_vpn(child.pages, vpn) {
                let i = choose|i: int| 0 <= i < child.pages.len() && (#[trigger] child.pages[i]).vpn == vpn;
                assert(parent.pages[i].vpn == vpn);
            }
        }
    };
    lemma_write_effect(child, va, b);
    lemma_write_effect(parent, va, b);
}

/// Writing a byte changes that byte only.
proof fn lemma_write_effect(m: MemorySetView, va: usize, b: u8)
    requires
        m.wf(),
    ensures
        m.byte_at(va) is Some ==> m.written(va, b).byte_at(va) == Some(b),
        forall|x: usize| x != va ==> #[trigger] m.written(va, b).byte_at(x) == m.byte_at(x),
{
    let vpn = (va / PAGE_SIZE) as usize;
    let w = m.written(va, b);
    if maps_vpn(m.pages, vpn) {
        let i = choose|i: int| 0 <= i < m.pages.len() && (#[trigger] m.pages[i]).vpn == vpn;
        lemma_unique_index(m, vpn, i);
        if m.pages[i].framed {
            assert(w.wf());
            lemma_unique_index(w, vpn, i);
            assert forall|x: usize| x != va implies #[trigger] w.byte_at(x) == m.byte_at(x) by {
                let xv = (x / PAGE_SIZE) as usize;
                if maps_vpn(m.pages, xv) {
                    let j = choose|j: int| 0 <= j < m.pages.len() && (#[trigger] m.pages[j]).vpn == xv;
                    lemma_unique_index(m, xv, j);
                    lemma_unique_index(w, xv, j);
                    if j == i {
                        assert(x % PAGE_SIZE != va % PAGE_SIZE);
                    }
                } else {
                    if maps_vpn(w.pages, xv) {
                        let j = choose|j: int| 0 <= j < w.pages.len() && (#[trigger] w.pages[j]).vpn == xv;
                        assert(m.pages[j].vpn == xv);
                    }
                }
            };
        }
    }
}

} // verus!
