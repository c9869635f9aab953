//! The physical frame allocator: a bump pointer over a range of page numbers,
//! with a LIFO stack of recycled frames.
use vstd::prelude::*;

use crate::config::PAGE_SIZE;

verus! {

/// What the allocator holds, as mathematical values.
pub struct FrameAllocState {
    /// First page number of the pool.
    pub start: nat,
    /// Next page number never handed out yet.
    pub current: nat,
    /// Exclusive upper bound of the pool.
    pub end: nat,
    /// Freed page numbers, the most recently freed last.
    pub recycled: Seq<usize>,
}

impl FrameAllocState {
    /// The invariant of the allocator.
    pub open spec fn wf(self) -> bool {
        &&& self.start <= self.current <= self.end
        &&& self.end <= usize::MAX
        &&& self.recycled.no_duplicates()
        &&& forall|i: int|
            0 <= i < self.recycled.len() ==> self.start <= #[trigger] self.recycled[i]
                < self.current
    }

    /// A frame that was handed out and not given back.
    pub open spec fn live(self, ppn: usize) -> bool {
        &&& self.start <= ppn < self.current
        &&& !self.recycled.contains(ppn)
    }

    /// The allocator right after `init(l, r)`.
    pub open spec fn fresh(l: nat, r: nat) -> FrameAllocState {
        FrameAllocState { start: l, current: l, end: r, recycled: Seq::empty() }
    }

    /// The state and result of one `alloc_frame`.
    pub open spec fn alloc_step(self) -> (FrameAllocState, Option<usize>) {
        if self.recycled.len() > 0 {
            (
                FrameAllocState { recycled: self.recycled.drop_last(), ..self },
                Some(self.recycled.last()),
            )
        } else if self.current == self.end {
            (self, None)
        } else {
            (FrameAllocState { current: self.current + 1, ..self }, Some(self.current as usize))
        }
    }

    /// The state after `dealloc(ppn)`.
    pub open spec fn dealloc_step(self, ppn: usize) -> FrameAllocState {
        FrameAllocState { recycled: self.recycled.push(ppn), ..self }
    }

    /// The state and result of `alloc_contiguous(n)`.
    pub open spec fn alloc_contiguous_step(self, n: nat) -> (FrameAllocState, Option<Seq<usize>>) {
        if self.current + n <= self.end {
            (
                FrameAllocState { current: self.current + n, ..self },
                Some(Seq::new(n, |i: int| (self.current + i) as usize)),
            )
        } else {
            (self, None)
        }
    }
}

/// The allocator of physical frames, by page number.
pub struct StackFrameAllocator {
    start: usize,
    current: usize,
    end: usize,
    recycled: Vec<usize>,
}

impl View for StackFrameAllocator {
    type V = FrameAllocState;

    closed spec fn view(&self) -> FrameAllocState {
        FrameAllocState {
            start: self.start as nat,
            current: self.current as nat,
            end: self.end as nat,
            recycled: self.recycled@,
        }
    }
}

impl StackFrameAllocator {
    /// The invariant of the allocator.
    pub open spec fn wf(&self) -> bool {
        self@.wf()
    }

    /// An allocator with an empty pool.
    pub fn new() -> (r: Self)
        ensures
            r.wf(),
            r@ == FrameAllocState::fresh(0, 0),
    {
        let r = StackFrameAllocator { start: 0, current: 0, end: 0, recycled: Vec::new() };
        assert(r@ =~= FrameAllocState::fresh(0, 0));
        r
    }

    /// Makes the pages `l .. r` the pool; nothing of it is handed out yet.
    pub fn init(&mut self, l: usize, r: usize)
        requires
            l <= r,
        ensures
            final(self).wf(),
            final(self)@ == FrameAllocState::fresh(l as nat, r as nat),
    {
        self.start = l;
        self.current = l;
        self.end = r;
        self.recycled = Vec::new();
        assert(self@ =~= FrameAllocState::fresh(l as nat, r as nat));
    }

    /// Number of frames that can still be handed out.
    pub fn available(&self) -> (r: usize)
        requires
            self.wf(),
        ensures
            r == self@.end - self@.current + self@.recycled.len(),
    {
        proof {
            lemma_recycled_len_bound(self@);
        }
        self.end - self.current + self.recycled.len()
    }

    /// Whether `ppn` is handed out and not given back.
    pub fn is_live(&self, ppn: usize) -> (r: bool)
        requires
            self.wf(),
        ensures
            r == self@.live(ppn),
    {
        if ppn < self.start || ppn >= self.current {
            return false;
        }
        let mut i: usize = 0;
        while i < self.recycled.len()
            invariant
                i <= self.recycled@.len(),
                forall|j: int| 0 <= j < i ==> self.recycled@[j] != ppn,
            decreases self.recycled@.len() - i,
        {
            if self.recycled[i] == ppn {
                return false;
            }
            i += 1;
        }
        true
    }

    /// Hands out the most recently freed frame, else the next frame of the
    /// untouched tail; `None` when both are exhausted.
    pub fn alloc_frame(&mut self) -> (r: Option<usize>)
        requires
            old(self).wf(),
        ensures
            final(self).wf(),
            (final(self)@, r) == old(self)@.alloc_step(),
            r matches Some(p) ==> !old(self)@.live(p) && final(self)@.live(p),
            forall|q: usize| r != Some(q) ==> final(self)@.live(q) == old(self)@.live(q),
    {
        proof {
            lemma_alloc_step(self@);
        }
        let ghost s = self@;
        if let Some(ppn) = self.recycled.pop() {
            assert(self.recycled@ =~= s.recycled.drop_last());
            Some(ppn)
        } else if self.current == self.end {
            None
        } else {
            self.current += 1;
            Some(self.current - 1)
        }
    }

    /// Hands out `n` frames with consecutive page numbers, taken from the
    /// untouched tail only; `None`, with nothing changed, when the tail is shorter.
    pub fn alloc_contiguous(&mut self, n: usize) -> (r: Option<Vec<usize>>)
        requires
            old(self).wf(),
        ensures
            final(self).wf(),
            final(self)@ == old(self)@.alloc_contiguous_step(n as nat).0,
            r is Some <==> old(self)@.alloc_contiguous_step(n as nat).1 is Some,
            r matches Some(v) ==> Some(v@) == old(self)@.alloc_contiguous_step(n as nat).1,
    {
        if self.end - self.current < n {
            return None;
        }
        let first = self.current;
        let mut v: Vec<usize> = Vec::new();
        let mut i: usize = 0;
        while i < n
            invariant
                i <= n,
                first + n <= self.end,
                v@ =~= Seq::new(i as nat, |k: int| (first + k) as usize),
            decreases n - i,
        {
            v.push(first + i);
            i += 1;
        }
        self.current = first + n;
        Some(v)
    }

    /// Gives back a frame that is handed out; it is the next one `alloc_frame` returns.
    pub fn dealloc(&mut self, ppn: usize)
        requires
            old(self).wf(),
            old(self)@.live(ppn),
        ensures
            final(self).wf(),
            final(self)@ == old(self)@.dealloc_step(ppn),
            !final(self)@.live(ppn),
            forall|q: usize| q != ppn ==> final(self)@.live(q) == old(self)@.live(q),
    {
        proof {
            lemma_dealloc_step(self@, ppn);
        }
        self.recycled.push(ppn);
    }
}

/// The recycled frames are distinct frames of the pool below `current`.
proof fn lemma_recycled_len_bound(s: FrameAllocState)
    requires
        s.wf(),
    ensures
        s.recycled.len() <= s.current - s.start,
{
    let rs = s.recycled.to_set();
    s.recycled.unique_seq_to_set();
    let range = Set::new(|x: usize| s.start <= x < s.current);
    assert(rs.subset_of(range));
    lemma_range_finite_len(s.start, s.current);
    vstd::set_lib::lemma_len_subset(rs, range);
}

/// The set of `usize` values in `lo .. hi` is finite with `hi - lo` elements.
proof fn lemma_range_finite_len(lo: nat, hi: nat)
    requires
        lo <= hi <= usize::MAX,
    ensures
        Set::new(|x: usize| lo <= x < hi).finite(),
        Set::new(|x: usize| lo <= x < hi).len() == hi - lo,
    decreases hi - lo,
{
    if lo == hi {
        assert(Set::new(|x: usize| lo <= x < hi) =~= Set::empty());
    } else {
        lemma_range_finite_len(lo, (hi - 1) as nat);
        let smaller = Set::new(|x: usize| lo <= x < hi - 1);
        assert(Set::new(|x: usize| lo <= x < hi) =~= smaller.insert((hi - 1) as usize));
    }
}

/// One frame owned by its holder, with the bytes it holds.
pub struct FrameTracker {
    /// Page number of the frame.
    pub ppn: usize,
    /// The frame's bytes.
    pub data: Vec<u8>,
}

impl FrameTracker {
    /// A tracker for `ppn` whose page is zero-filled.
    pub fn new(ppn: usize) -> (r: Self)
        ensures
            r.ppn == ppn,
            r.data@ == Seq::new(PAGE_SIZE as nat, |i: int| 0u8),
    {
        let data = vec![0u8; PAGE_SIZE];
        assert(data@ =~= Seq::new(PAGE_SIZE as nat, |i: int| 0u8));
        FrameTracker { ppn, data }
    }
}

/// Errors of the frame allocator.
#[derive(Debug, Clone, Copy, PartialEq, Eq, Structural)]
pub enum FrameError {
    /// The frame is not handed out: outside the pool, never allocated, or already freed.
    NotAllocated,
}

/// Allocates a frame and hands it out zero-filled.
pub fn frame_alloc(fa: &mut StackFrameAllocator) -> (r: Option<FrameTracker>)
    requires
        old(fa).wf(),
    ensures
        final(fa).wf(),
        final(fa)@ == old(fa)@.alloc_step().0,
        r is Some <==> old(fa)@.alloc_step().1 is Some,
        r matches Some(t) ==> Some(t.ppn) == old(fa)@.alloc_step().1,
        r matches Some(t) ==> t.data@ == Seq::new(PAGE_SIZE as nat, |i: int| 0u8),
{
    match fa.alloc_frame() {
        Some(ppn) => Some(FrameTracker::new(ppn)),
        None => None,
    }
}

/// Gives back a frame, refusing one that is not handed out (a double free).
pub fn frame_dealloc(fa: &mut StackFrameAllocator, ppn: usize) -> (r: Result<(), FrameError>)
    requires
        old(fa).wf(),
    ensures
        final(fa).wf(),
        r is Ok <==> old(fa)@.live(ppn),
        r is Ok ==> final(fa)@ == old(fa)@.dealloc_step(ppn),
        r is Err ==> r == Err::<(), FrameError>(FrameError::NotAllocated) && final(fa)@ == old(fa)@,
{
    if fa.is_live(ppn) {
        fa.dealloc(ppn);
        Ok(())
    } else {
        Err(FrameError::NotAllocated)
    }
}

/// Makes the pool the whole frames between the end of the kernel image and the
/// end of a memory region, when the kernel image ends inside that region.
/// The end of the kernel is rounded up to a page first; then addresses are
/// taken with the bits of `virt_start` cleared. Returns whether the region
/// was taken.
pub fn init_frame_allocator(
    fa: &mut StackFrameAllocator,
    kernel_end: usize,
    mm_start: usize,
    mm_end: usize,
    virt_start: usize,
) -> (r: bool)
    requires
        old(fa).wf(),
    ensures
        final(fa).wf(),
        r == (mm_start <= kernel_end < mm_end && kernel_end + (PAGE_SIZE - 1) <= usize::MAX
            && pool_start(kernel_end, virt_start) <= pool_end(mm_end, virt_start)),
        r ==> final(fa)@ == FrameAllocState::fresh(
            pool_start(kernel_end, virt_start),
            pool_end(mm_end, virt_start),
        ),
        !r ==> final(fa)@ == old(fa)@,
{
    if kernel_end < mm_start || kernel_end >= mm_end {
        return false;
    }
    if kernel_end > usize::MAX - (PAGE_SIZE - 1) {
        return false;
    }
    let rounded = (kernel_end + (PAGE_SIZE - 1)) / PAGE_SIZE * PAGE_SIZE;
    let l = (rounded & !virt_start) / PAGE_SIZE;
    let r = (mm_end & !virt_start) / PAGE_SIZE;
    if l > r {
        return false;
    }
    fa.init(l, r);
    true
}

/// First page of the pool: the end of the kernel image rounded up to a whole
/// page, then without the bits of `virt_start`.
pub open spec fn pool_start(kernel_end: usize, virt_start: usize) -> nat {
    let rounded = ((kernel_end + (PAGE_SIZE - 1)) / PAGE_SIZE as int * PAGE_SIZE) as usize;
    ((rounded & !virt_start) / PAGE_SIZE) as nat
}

/// End of the pool, as a page number, exclusive.
pub open spec fn pool_end(mm_end: usize, virt_start: usize) -> nat {
    ((mm_end & !virt_start) / PAGE_SIZE) as nat
}

/// One call on the allocator, for stating what holds over sequences of calls.
pub enum FrameOp {
    /// `alloc_frame`; a frame it returns joins the held frames.
    Alloc,
    /// `dealloc` of the held frame at this position, which leaves them.
    Dealloc(nat),
}

/// The allocator and the frames held after running `ops` from `s` with `held`.
/// A `Dealloc` of no held frame does nothing.
pub open spec fn run_ops(s: FrameAllocState, held: Seq<usize>, ops: Seq<FrameOp>) -> (FrameAllocState, Seq<usize>)
    decreases ops.len(),
{
    if ops.len() == 0 {
        (s, held)
    } else {
        let next = match ops[0] {
            FrameOp::Alloc => {
                let (s1, r) = s.alloc_step();
                (s1, match r { Some(p) => held.push(p), None => held })
            },
            FrameOp::Dealloc(i) => if i < held.len() {
                (s.dealloc_step(held[i as int]), held.remove(i as int))
            } else {
                (s, held)
            },
        };
        run_ops(next.0, next.1, ops.drop_first())
    }
}

/// The results of `k` calls of `alloc_frame` from `s`, and the state after them.
pub open spec fn allocs(s: FrameAllocState, k: nat) -> (FrameAllocState, Seq<Option<usize>>)
    decreases k,
{
    if k == 0 {
        (s, Seq::empty())
    } else {
        let (s1, r) = s.alloc_step();
        let (s2, rs) = allocs(s1, (k - 1) as nat);
        (s2, seq![r] + rs)
    }
}

/// The state after giving back the frames `ps`, in order.
pub open spec fn deallocs(s: FrameAllocState, ps: Seq<usize>) -> FrameAllocState {
    FrameAllocState { recycled: s.recycled + ps, ..s }
}

/// What one `alloc_frame` does to liveness.
pub proof fn lemma_alloc_step(s: FrameAllocState)
    requires
        s.wf(),
    ensures
        s.alloc_step().0.wf(),
        s.alloc_step().1 matches Some(p) ==> !s.live(p) && s.alloc_step().0.live(p),
        forall|q: usize| s.alloc_step().1 != Some(q) ==> #[trigger] s.alloc_step().0.live(q) == s.live(q),
        s.alloc_step().1 is None <==> s.current == s.end && s.recycled.len() == 0,
{
    if s.recycled.len() > 0 {
        let t = s.alloc_step().0;
        let ppn = s.recycled.last();
        assert(s.recycled[s.recycled.len() - 1] == ppn);
        assert forall|q: usize| #[trigger] t.recycled.contains(q) implies s.recycled.contains(q) && q != ppn by {
            let k = choose|k: int| 0 <= k < t.recycled.len() && t.recycled[k] == q;
            assert(s.recycled[k] == q);
        };
        assert forall|q: usize| s.recycled.contains(q) && q != ppn implies #[trigger] t.recycled.contains(q) by {
            let k = choose|k: int| 0 <= k < s.recycled.len() && s.recycled[k] == q;
            assert(k != s.recycled.len() - 1);
            assert(t.recycled[k] == q);
        };
        assert(s.recycled.contains(ppn));
    }
}

/// What one `dealloc` of a handed-out frame does to liveness.
pub proof fn lemma_dealloc_step(s: FrameAllocState, p: usize)
    requires
        s.wf(),
        s.live(p),
    ensures
        s.dealloc_step(p).wf(),
        !s.dealloc_step(p).live(p),
        forall|q: usize| q != p ==> #[trigger] s.dealloc_step(p).live(q) == s.live(q),
{
    let t = s.dealloc_step(p);
    assert(t.recycled[t.recycled.len() - 1] == p);
    assert forall|q: usize| q != p implies #[trigger] t.live(q) == s.live(q) by {
        if s.recycled.contains(q) {
            let k = choose|k: int| 0 <= k < s.recycled.len() && s.recycled[k] == q;
            assert(t.recycled[k] == q);
        }
        if t.recycled.contains(q) {
            let k = choose|k: int| 0 <= k < t.recycled.len() && t.recycled[k] == q;
            assert(s.recycled[k] == q);
        }
    };
}

/// Over any sequence of allocations and frees of held frames, the held
/// frames stay distinct and handed out: no two holders ever share a frame,
/// and a frame once freed is no longer handed out, so freeing it again is refused.
pub proof fn lemma_frames_never_shared(s: FrameAllocState, held: Seq<usize>, ops: Seq<FrameOp>)
    requires
        s.wf(),
        held.no_duplicates(),
        forall|i: int| 0 <= i < held.len() ==> s.live(#[trigger] held[i]),
    ensures
        run_ops(s, held, ops).0.wf(),
        run_ops(s, held, ops).1.no_duplicates(),
        forall|i: int|
            0 <= i < run_ops(s, held, ops).1.len() ==> run_ops(s, held, ops).0.live(
                #[trigger] run_ops(s, held, ops).1[i],
            ),
    decreases ops.len(),
{
    if ops.len() > 0 {
        match ops[0] {
            FrameOp::Alloc => {
                lemma_alloc_step(s);
                let (s1, r) = s.alloc_step();
                let h1 = match r {
                    Some(p) => held.push(p),
                    None => held,
                };
                if let Some(p) = r {
                    assert forall|i: int| 0 <= i < held.len() implies held[i] != p by {
                        assert(s.live(held[i]));
                    };
                }
                assert forall|i: int| 0 <= i < h1.len() implies s1.live(#[trigger] h1[i]) by {
                    if i < held.len() {
                        assert(s.live(held[i]));
                    }
                };
                lemma_frames_never_shared(s1, h1, ops.drop_first());
            },
            FrameOp::Dealloc(i) => {
                if i < held.len() {
                    let p = held[i as int];
                    lemma_dealloc_step(s, p);
                    let s1 = s.dealloc_step(p);
                    let h1 = held.remove(i as int);
                    assert forall|k: int| 0 <= k < h1.len() implies s1.live(#[trigger] h1[k]) by {
                        if k < i {
                            assert(h1[k] == held[k]);
                            assert(s.live(held[k]));
                        } else {
                            assert(h1[k] == held[k + 1]);
                            assert(s.live(held[k + 1]));
                        }
                    };
                    lemma_frames_never_shared(s1, h1, ops.drop_first());
                } else {
                    lemma_frames_never_shared(s, held, ops.drop_first());
                }
            },
        }
    }
}

/// `k` allocations from an untouched tail hand out its next `k` frames in order.
proof fn lemma_allocs_tail(s: FrameAllocState, k: nat)
    requires
        s.wf(),
        s.recycled.len() == 0,
        s.current + k <= s.end,
    ensures
        allocs(s, k).0 == (FrameAllocState { current: s.current + k, ..s }),
        allocs(s, k).1 == Seq::new(k, |i: int| Some((s.current + i) as usize)),
    decreases k,
{
    if k > 0 {
        let s1 = s.alloc_step().0;
        lemma_allocs_tail(s1, (k - 1) as nat);
        assert(allocs(s, k).1 =~= Seq::new(k, |i: int| Some((s.current + i) as usize)));
    }
}

/// With the tail used up, `k` allocations pop the `k` recycled frames, most
/// recently freed first.
proof fn lemma_allocs_recycled(s: FrameAllocState, k: nat)
    requires
        s.current == s.end,
        k <= s.recycled.len(),
    ensures
        allocs(s, k).0 == (FrameAllocState { recycled: s.recycled.take(s.recycled.len() - k), ..s }),
        allocs(s, k).1 == Seq::new(k, |i: int| Some(s.recycled[s.recycled.len() - 1 - i])),
    decreases k,
{
    if k > 0 {
        let s1 = s.alloc_step().0;
        assert(s1.recycled =~= s.recycled.take(s.recycled.len() - 1));
        lemma_allocs_recycled(s1, (k - 1) as nat);
        assert(s1.recycled.take(s1.recycled.len() - (k - 1)) =~= s.recycled.take(s.recycled.len() - k));
        assert(allocs(s, k).1 =~= Seq::new(k, |i: int| Some(s.recycled[s.recycled.len() - 1 - i])));
    } else {
        assert(s.recycled.take(s.recycled.len() as int) =~= s.recycled);
    }
}

/// In a pool of `n` frames, allocating all `n` hands out each page of the
/// pool once; freeing them all, in any order, lets `n` more allocations
/// succeed with the same frames, none twice, after which the pool is
/// exhausted.
pub proof fn lemma_reuse_after_free_all(l: nat, n: nat, order: Seq<usize>)
    requires
        l + n <= usize::MAX,
        order.len() == n,
        order.no_duplicates(),
        order.to_set() == Set::new(|x: usize| l <= x < l + n),
    ensures
        ({
            let s0 = FrameAllocState::fresh(l, l + n);
            let (s1, first) = allocs(s0, n);
            let (s2, second) = allocs(deallocs(s1, order), n);
            let got = first.map_values(|o: Option<usize>| o.unwrap());
            let again = second.map_values(|o: Option<usize>| o.unwrap());
            &&& forall|i: int| 0 <= i < n ==> (#[trigger] first[i]) is Some && (#[trigger] second[i]) is Some
            &&& got.to_set() == Set::new(|x: usize| l <= x < l + n)
            &&& again.to_set() == got.to_set()
            &&& again.no_duplicates()
            &&& s2.alloc_step().1 is None
        }),
{
    let range = Set::new(|x: usize| l <= x < l + n);
    let s0 = FrameAllocState::fresh(l, l + n);
    lemma_allocs_tail(s0, n);
    let (s1, first) = allocs(s0, n);
    let got = first.map_values(|o: Option<usize>| o.unwrap());
    assert forall|x: usize| got.to_set().contains(x) <==> range.contains(x) by {
        if got.to_set().contains(x) {
            let i = choose|i: int| 0 <= i < got.len() && got[i] == x;
        }
        if range.contains(x) {
            assert(got[x - l] == x);
        }
    };
    assert(got.to_set() =~= range);
    let s1d = deallocs(s1, order);
    assert(s1.recycled =~= Seq::empty());
    assert(s1d.recycled =~= order);
    lemma_allocs_recycled(s1d, n);
    let (s2, second) = allocs(s1d, n);
    let again = second.map_values(|o: Option<usize>| o.unwrap());
    assert forall|x: usize| again.to_set().contains(x) <==> order.to_set().contains(x) by {
        if again.to_set().contains(x) {
            let i = choose|i: int| 0 <= i < again.len() && again[i] == x;
            assert(order[n - 1 - i] == x);
        }
        if order.to_set().contains(x) {
            let i = choose|i: int| 0 <= i < order.len() && order[i] == x;
            assert(again[n - 1 - i] == x);
        }
    };
    assert(again.to_set() =~= got.to_set());
    assert forall|i: int, j: int| 0 <= i < again.len() && 0 <= j < again.len() && i != j implies again[i] != again[j] by {
        assert(again[i] == order[n - 1 - i]);
        assert(again[j] == order[n - 1 - j]);
    };
    assert(s2.recycled =~= Seq::empty());
}

/// `alloc_contiguous(k)` hands out a run of consecutive frames, strictly
/// increasing, all from the part of the pool never handed out before.
pub proof fn lemma_contiguous_run(s: FrameAllocState, k: nat)
    requires
        s.wf(),
    ensures
        s.alloc_contiguous_step(k).1 matches Some(v) ==> {
            &&& v.len() == k
            &&& forall|i: int| 0 <= i < k - 1 ==> #[trigger] v[i + 1] == v[i] + 1
            &&& forall|i: int| 0 <= i < k ==> s.current <= #[trigger] v[i] < s.end
            &&& forall|i: int| 0 <= i < k ==> !s.live(#[trigger] v[i]) && !s.recycled.contains(v[i])
            &&& forall|i: int| 0 <= i < k ==> s.alloc_contiguous_step(k).0.live(#[trigger] v[i])
        },
{
    if let Some(v) = s.alloc_contiguous_step(k).1 {
        assert forall|i: int| 0 <= i < k implies !s.recycled.contains(#[trigger] v[i]) by {
            if s.recycled.contains(v[i]) {
                let j = choose|j: int| 0 <= j < s.recycled.len() && s.recycled[j] == v[i];
            }
        };
    }
}

} // verus!
