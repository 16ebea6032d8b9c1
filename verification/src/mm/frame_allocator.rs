//! Physical frames: which of them are free, and what is in them.
use super::address::{PhysAddr, PhysPageNum, PPN_SPACE};
use crate::config::{MEMORY_END, PAGE_SIZE};
use vstd::prelude::*;

verus! {

/// Which frames are free: the ones from `current` up to `end`, and the ones that were
/// given back.
#[verifier::ext_equal]
pub struct FrameModel {
    pub current: int,
    pub end: int,
    pub recycled: Seq<usize>,
}

impl FrameModel {
    /// No frame is free twice, and the numbers are those of physical pages.
    pub open spec fn wf(self) -> bool {
        &&& 0 <= self.current <= self.end <= PPN_SPACE
        &&& self.end <= usize::MAX
        &&& self.recycled.no_duplicates()
        &&& forall|i: int| 0 <= i < self.recycled.len() ==> #[trigger] self.recycled[i] < self.current
    }

    /// The frame can be allocated.
    pub open spec fn is_free(self, p: int) -> bool {
        self.current <= p < self.end || (0 <= p <= usize::MAX && self.recycled.contains(p as usize))
    }

    /// How many frames can be allocated.
    pub open spec fn free_count(self) -> int {
        self.end - self.current + self.recycled.len()
    }

    /// The frame that the next allocation gives: the one that was given back last, or
    /// else the first one that was never allocated.
    pub open spec fn next(self) -> int {
        if self.recycled.len() > 0 {
            self.recycled.last() as int
        } else {
            self.current
        }
    }

    /// What is free after an allocation.
    pub open spec fn allocated(self) -> FrameModel {
        if self.recycled.len() > 0 {
            FrameModel { recycled: self.recycled.drop_last(), ..self }
        } else {
            FrameModel { current: self.current + 1, ..self }
        }
    }

    /// What is free after a frame was given back.
    pub open spec fn freed(self, p: int) -> FrameModel {
        FrameModel { recycled: self.recycled.push(p as usize), ..self }
    }
}

/// An allocation takes a frame that is free, and no other.
pub proof fn lemma_allocated(m: FrameModel)
    requires
        m.wf(),
        m.free_count() > 0,
    ensures
        m.allocated().wf(),
        m.is_free(m.next()),
        m.allocated().free_count() == m.free_count() - 1,
        forall|p: int| #[trigger] m.allocated().is_free(p) <==> m.is_free(p) && p != m.next(),
{
    let r = m.recycled;
    if r.len() > 0 {
        let r2 = r.drop_last();
        assert forall|p: int| #[trigger] m.allocated().is_free(p) <==> m.is_free(p) && p
            != m.next() by {
            if 0 <= p <= usize::MAX {
                let x = p as usize;
                if r2.contains(x) {
                    let i = choose|i: int| 0 <= i < r2.len() && r2[i] == x;
                    assert(r[i] == x);
                    assert(r[i] != r[r.len() - 1]);
                }
                if r.contains(x) && x != r.last() {
                    let i = choose|i: int| 0 <= i < r.len() && r[i] == x;
                    assert(r2[i] == x);
                }
            }
            assert(r.last() == r[r.len() - 1]);
            assert(r.last() < m.current);
        }
        assert forall|i: int, j: int| 0 <= i < r2.len() && 0 <= j < r2.len() && i != j implies r2[i]
            != r2[j] by {
            assert(r[i] != r[j]);
        }
        assert(r.contains(r[r.len() - 1]));
    }
}

/// A frame that is given back is free, and no other becomes so.
pub proof fn lemma_freed(m: FrameModel, p: int)
    requires
        m.wf(),
        0 <= p < m.current,
        !m.recycled.contains(p as usize),
    ensures
        m.freed(p).wf(),
        m.freed(p).free_count() == m.free_count() + 1,
        !m.is_free(p),
        forall|q: int| #[trigger] m.freed(p).is_free(q) <==> m.is_free(q) || q == p,
{
    let r = m.recycled;
    let r2 = r.push(p as usize);
    assert forall|i: int, j: int| 0 <= i < r2.len() && 0 <= j < r2.len() && i != j implies r2[i]
        != r2[j] by {
        if i < r.len() && j < r.len() {
            assert(r[i] != r[j]);
        } else if i < r.len() {
            assert(r.contains(r[i]));
        } else {
            assert(r.contains(r[j]));
        }
    }
    assert forall|q: int| #[trigger] m.freed(p).is_free(q) <==> m.is_free(q) || q == p by {
        if 0 <= q <= usize::MAX {
            let x = q as usize;
            if r2.contains(x) && x != p {
                let i = choose|i: int| 0 <= i < r2.len() && r2[i] == x;
                assert(r[i] == x);
            }
            if r.contains(x) {
                let i = choose|i: int| 0 <= i < r.len() && r[i] == x;
                assert(r2[i] == x);
            }
            assert(r2[r.len() as int] == p);
        }
    }
}

/// Hands out frames: first the ones that were given back, the last one first, then the
/// ones that were never used.
pub struct StackFrameAllocator {
    current: usize,
    end: usize,
    recycled: Vec<usize>,
}

impl View for StackFrameAllocator {
    type V = FrameModel;

    closed spec fn view(&self) -> FrameModel {
        FrameModel {
            current: self.current as int,
            end: self.end as int,
            recycled: self.recycled@,
        }
    }
}

impl StackFrameAllocator {
    /// An allocator without frames.
    pub fn new() -> (r: Self)
        ensures
            r@ == (FrameModel { current: 0, end: 0, recycled: Seq::empty() }),
            r@.wf(),
    {
        let r: StackFrameAllocator = StackFrameAllocator {
            current: 0,
            end: 0,
            recycled: Vec::new(),
        };
        assert(r@.recycled =~= Seq::empty());
        r
    }

    /// Give the allocator the frames from `l` up to but not including `r`.
    pub fn init(&mut self, l: PhysPageNum, r: PhysPageNum)
        ensures
            final(self)@ == (FrameModel {
                current: l.0 as int,
                end: r.0 as int,
                recycled: old(self)@.recycled,
            }),
    {
        self.current = l.0;
        self.end = r.0;
    }

    /// Allocate a frame.
    pub fn allocate(&mut self) -> (r: Option<PhysPageNum>)
        requires
            old(self)@.wf(),
        ensures
            final(self)@.wf(),
            match r {
                Some(p) => {
                    &&& old(self)@.free_count() > 0
                    &&& p.0 == old(self)@.next()
                    &&& final(self)@ == old(self)@.allocated()
                },
                None => old(self)@.free_count() == 0 && final(self)@ == old(self)@,
            },
    {
        proof {
            if self@.free_count() > 0 {
                lemma_allocated(self@);
            }
        }
        match self.recycled.pop() {
            Some(ppn) => {
                let ghost m = old(self)@;
                assert(ppn == m.recycled[m.recycled.len() - 1]);
                assert(self@.recycled =~= m.recycled.drop_last());
                Some(PhysPageNum::from(ppn))
            },
            None => {
                if self.current == self.end {
                    None
                } else {
                    self.current += 1;
                    Some(PhysPageNum::from(self.current - 1))
                }
            },
        }
    }

    /// Give a frame back that was allocated and not given back since.
    pub fn dealloc(&mut self, ppn: PhysPageNum)
        requires
            old(self)@.wf(),
            ppn.0 < old(self)@.current,
            !old(self)@.recycled.contains(ppn.0),
        ensures
            final(self)@.wf(),
            final(self)@ == old(self)@.freed(ppn.0 as int),
    {
        proof {
            lemma_freed(self@, ppn.0 as int);
        }
        self.recycled.push(ppn.0);
    }

    /// Whether a frame can be given back: it was allocated, and not given back since.
    pub fn can_dealloc(&self, ppn: PhysPageNum) -> (r: bool)
        ensures
            r == (ppn.0 < self@.current && !self@.recycled.contains(ppn.0)),
    {
        if ppn.0 >= self.current {
            return false;
        }
        let mut i: usize = 0;
        while i < self.recycled.len()
            invariant
                i <= self.recycled@.len(),
                self@.recycled == self.recycled@,
                forall|k: int| 0 <= k < i ==> self.recycled@[k] != ppn.0,
            decreases self.recycled@.len() - i,
        {
            if self.recycled[i] == ppn.0 {
                assert(self.recycled@.contains(ppn.0));
                return false;
            }
            i += 1;
        }
        true
    }
}

/// A frame that is in use. It has to be given back by `frame_dealloc`.
#[derive(Copy, Clone, Debug)]
pub struct FrameTracker {
    /// physical page number
    pub ppn: PhysPageNum,
}

/// A page of zero bytes.
pub open spec fn zero_page() -> Seq<u8> {
    Seq::new(PAGE_SIZE as nat, |i: int| 0u8)
}

/// The frames of the machine: which are free, and what is in them.
#[verifier::ext_equal]
pub struct MemoryModel {
    pub frames: FrameModel,
    /// The first frame.
    pub start: int,
    /// The bytes of every frame from the first on.
    pub pages: Seq<Seq<u8>>,
}

impl MemoryModel {
    /// There are bytes for every frame that can be allocated.
    pub open spec fn wf(self) -> bool {
        &&& self.frames.wf()
        &&& 0 <= self.start <= self.frames.current
        &&& self.start + self.pages.len() == self.frames.end
        &&& forall|i: int|
            0 <= i < self.frames.recycled.len() ==> self.start <= #[trigger] self.frames.recycled[i]
        &&& forall|i: int| 0 <= i < self.pages.len() ==> (#[trigger] self.pages[i]).len() == PAGE_SIZE
    }

    /// The bytes of a frame.
    pub open spec fn page(self, p: int) -> Seq<u8> {
        self.pages[p - self.start]
    }

    /// The frame is in use.
    pub open spec fn in_use(self, p: int) -> bool {
        self.start <= p < self.frames.current && !self.frames.recycled.contains(p as usize)
    }

    /// The memory after the bytes of a frame became `bytes`.
    pub open spec fn with_page(self, p: int, bytes: Seq<u8>) -> MemoryModel {
        MemoryModel { pages: self.pages.update(p - self.start, bytes), ..self }
    }

    /// The memory after a frame was allocated, which clears it.
    pub open spec fn with_alloc(self) -> MemoryModel {
        MemoryModel { frames: self.frames.allocated(), ..self.with_page(self.frames.next(), zero_page()) }
    }

    /// The memory after a frame was given back.
    pub open spec fn with_dealloc(self, p: int) -> MemoryModel {
        MemoryModel { frames: self.frames.freed(p), ..self }
    }
}

/// A frame in use is not free, and a frame of the memory is one or the other.
pub proof fn lemma_in_use(m: MemoryModel, p: int)
    requires
        m.wf(),
    ensures
        m.in_use(p) ==> !m.frames.is_free(p),
        m.start <= p < m.frames.end ==> (m.in_use(p) <==> !m.frames.is_free(p)),
        m.frames.is_free(p) ==> m.start <= p < m.frames.end,
{
    if 0 <= p <= usize::MAX && m.frames.recycled.contains(p as usize) {
        let i = choose|i: int| 0 <= i < m.frames.recycled.len() && m.frames.recycled[i] == p as usize;
        assert(m.frames.recycled[i] < m.frames.current);
    }
}

/// Allocating a frame makes it one in use and changes no other.
pub proof fn lemma_with_alloc(m: MemoryModel)
    requires
        m.wf(),
        m.frames.free_count() > 0,
    ensures
        m.with_alloc().wf(),
        !m.in_use(m.frames.next()),
        m.with_alloc().in_use(m.frames.next()),
        m.with_alloc().page(m.frames.next()) == zero_page(),
        m.start <= m.frames.next() < m.frames.end,
        forall|p: int|
            p != m.frames.next() ==> #[trigger] m.with_alloc().in_use(p) == m.in_use(p),
        forall|p: int|
            m.start <= p < m.frames.end && p != m.frames.next() ==> #[trigger] m.with_alloc().page(p)
                == m.page(p),
{
    let f = m.frames;
    let n = f.next();
    lemma_allocated(f);
    lemma_in_use(m, n);
    let m2 = m.with_alloc();
    assert(m2.wf()) by {
        assert forall|i: int| 0 <= i < m2.frames.recycled.len() implies m2.start
            <= #[trigger] m2.frames.recycled[i] by {
            assert(m2.frames.recycled[i] == f.recycled[i]);
        }
    }
    assert forall|p: int| #[trigger] m2.in_use(p) == (m.in_use(p) || p == n) by {
        lemma_in_use(m, p);
        lemma_in_use(m2, p);
        assert(m2.frames.is_free(p) <==> f.is_free(p) && p != n);
    }
}

/// Giving a frame back makes it free and changes no other.
pub proof fn lemma_with_dealloc(m: MemoryModel, p: int)
    requires
        m.wf(),
        m.in_use(p),
    ensures
        m.with_dealloc(p).wf(),
        !m.with_dealloc(p).in_use(p),
        m.with_dealloc(p).frames.free_count() == m.frames.free_count() + 1,
        forall|q: int| q != p ==> #[trigger] m.with_dealloc(p).in_use(q) == m.in_use(q),
        forall|q: int| #[trigger] m.with_dealloc(p).page(q) == m.page(q),
{
    let m2 = m.with_dealloc(p);
    lemma_freed(m.frames, p);
    assert(m2.wf()) by {
        assert forall|i: int| 0 <= i < m2.frames.recycled.len() implies m2.start
            <= #[trigger] m2.frames.recycled[i] by {
            if i < m.frames.recycled.len() {
                assert(m2.frames.recycled[i] == m.frames.recycled[i]);
            }
        }
    }
    assert forall|q: int| #[trigger] m2.in_use(q) == (m.in_use(q) && q != p) by {
        lemma_in_use(m, q);
        lemma_in_use(m2, q);
        assert(m2.frames.is_free(q) <==> m.frames.is_free(q) || q == p);
    }
}

/// The physical memory behind the kernel image, frame by frame.
pub struct FrameMemory {
    allocator: StackFrameAllocator,
    start: usize,
    pages: Vec<Vec<u8>>,
}

impl View for FrameMemory {
    type V = MemoryModel;

    closed spec fn view(&self) -> MemoryModel {
        MemoryModel {
            frames: self.allocator@,
            start: self.start as int,
            pages: Seq::new(self.pages@.len(), |i: int| self.pages@[i]@),
        }
    }
}

impl FrameMemory {
    /// The memory from the end of the kernel image up to the end of physical memory: the
    /// pages that lie in it as a whole, all of them free and zero.
    pub fn init_frame_allocator(ekernel: usize) -> (r: Self)
        requires
            ekernel <= MEMORY_END,
        ensures
            r@.wf(),
            r@.start == (ekernel + PAGE_SIZE - 1) / PAGE_SIZE as int,
            r@.frames == (FrameModel {
                current: r@.start,
                end: MEMORY_END as int / PAGE_SIZE as int,
                recycled: Seq::empty(),
            }),
            forall|i: int| 0 <= i < r@.pages.len() ==> #[trigger] r@.pages[i] == zero_page(),
    {
        let l: PhysPageNum = PhysAddr::from(ekernel).ceil();
        let e: PhysPageNum = PhysAddr::from(MEMORY_END).floor();
        let mut allocator: StackFrameAllocator = StackFrameAllocator::new();
        allocator.init(l, e);
        let mut pages: Vec<Vec<u8>> = Vec::new();
        let mut i: usize = l.0;
        while i < e.0
            invariant
                l.0 <= i <= e.0,
                pages@.len() == i - l.0,
                forall|k: int| 0 <= k < pages@.len() ==> (#[trigger] pages@[k])@ == zero_page(),
            decreases e.0 - i,
        {
            pages.push(cleared_page());
            i += 1;
        }
        let r: FrameMemory = FrameMemory { allocator, start: l.0, pages };
        assert(r@.frames.recycled =~= Seq::empty());
        r
    }

    /// Allocate a physical page frame, and clear it.
    pub fn frame_alloc(&mut self) -> (r: Option<FrameTracker>)
        requires
            old(self)@.wf(),
        ensures
            final(self)@.wf(),
            match r {
                Some(t) => {
                    &&& old(self)@.frames.free_count() > 0
                    &&& t.ppn.0 == old(self)@.frames.next()
                    &&& final(self)@ == old(self)@.with_alloc()
                },
                None => old(self)@.frames.free_count() == 0 && final(self)@ == old(self)@,
            },
    {
        proof {
            if self@.frames.free_count() > 0 {
                lemma_with_alloc(self@);
            }
        }
        match self.allocator.allocate() {
            Some(ppn) => {
                let page: Vec<u8> = cleared_page();
                self.pages.set(ppn.0 - self.start, page);
                assert(self@.pages =~= old(self)@.pages.update(ppn.0 - self.start, zero_page()));
                Some(FrameTracker { ppn })
            },
            None => {
                assert(self@ =~= old(self)@);
                None
            },
        }
    }

    /// Deallocate a physical page frame with a given ppn.
    pub fn frame_dealloc(&mut self, ppn: PhysPageNum)
        requires
            old(self)@.wf(),
            old(self)@.in_use(ppn.0 as int),
        ensures
            final(self)@.wf(),
            final(self)@ == old(self)@.with_dealloc(ppn.0 as int),
    {
        proof {
            lemma_with_dealloc(self@, ppn.0 as int);
        }
        self.allocator.dealloc(ppn);
        assert(self@.pages =~= old(self)@.pages);
    }

    /// The bytes of a frame.
    pub fn get_bytes_array(&self, ppn: PhysPageNum) -> (r: &Vec<u8>)
        requires
            self@.wf(),
            self@.start <= ppn.0 < self@.frames.end,
        ensures
            r@ == self@.page(ppn.0 as int),
            r@.len() == PAGE_SIZE,
    {
        assert(self@.pages[ppn.0 - self.start].len() == PAGE_SIZE);
        &self.pages[ppn.0 - self.start]
    }

    /// Copy the bytes of one frame to another.
    pub fn copy_page(&mut self, src: PhysPageNum, dst: PhysPageNum)
        requires
            old(self)@.wf(),
            old(self)@.start <= src.0 < old(self)@.frames.end,
            old(self)@.start <= dst.0 < old(self)@.frames.end,
        ensures
            final(self)@.wf(),
            final(self)@ == old(self)@.with_page(dst.0 as int, old(self)@.page(src.0 as int)),
    {
        let ghost m = self@;
        let from: usize = src.0 - self.start;
        let ghost bytes = m.pages[from as int];
        assert(bytes.len() == PAGE_SIZE);
        let mut page: Vec<u8> = Vec::new();
        let mut i: usize = 0;
        while i < PAGE_SIZE
            invariant
                i <= PAGE_SIZE,
                from < self.pages@.len(),
                bytes == self.pages@[from as int]@,
                bytes.len() == PAGE_SIZE,
                page@.len() == i,
                forall|k: int| 0 <= k < i ==> page@[k] == bytes[k],
            decreases PAGE_SIZE - i,
        {
            page.push(self.pages[from][i]);
            i += 1;
        }
        assert(page@ =~= bytes);
        self.pages.set(dst.0 - self.start, page);
        assert(self@.pages =~= m.pages.update(dst.0 - self.start, bytes));
    }

    /// Write one byte of a frame.
    pub fn write_byte(&mut self, ppn: PhysPageNum, offset: usize, byte: u8)
        requires
            old(self)@.wf(),
            old(self)@.start <= ppn.0 < old(self)@.frames.end,
            offset < PAGE_SIZE,
        ensures
            final(self)@.wf(),
            final(self)@ == old(self)@.with_page(
                ppn.0 as int,
                old(self)@.page(ppn.0 as int).update(offset as int, byte),
            ),
    {
        let ghost m = self@;
        let at: usize = ppn.0 - self.start;
        assert(m.pages[at as int].len() == PAGE_SIZE);
        self.pages[at].set(offset, byte);
        assert(self@.pages =~= m.pages.update(
            at as int,
            m.pages[at as int].update(offset as int, byte),
        ));
    }

    /// Write bytes into a frame.
    pub fn write_bytes(&mut self, ppn: PhysPageNum, offset: usize, data: &[u8], from: usize, len: usize)
        requires
            old(self)@.wf(),
            old(self)@.start <= ppn.0 < old(self)@.frames.end,
            offset + len <= PAGE_SIZE,
            from + len <= data@.len(),
        ensures
            final(self)@.wf(),
            final(self)@ == old(self)@.with_page(
                ppn.0 as int,
                old(self)@.page(ppn.0 as int).subrange(0, offset as int) + data@.subrange(
                    from as int,
                    from + len,
                ) + old(self)@.page(ppn.0 as int).subrange(offset + len, PAGE_SIZE as int),
            ),
    {
        let at: usize = ppn.0 - self.start;
        let n: usize = data.len();
        let ghost m = self@;
        let ghost old_page = self@.pages[at as int];
        assert(old_page.len() == PAGE_SIZE);
        let mut page: Vec<u8> = Vec::new();
        let mut i: usize = 0;
        while i < PAGE_SIZE
            invariant
                i <= PAGE_SIZE,
                m == self@,
                m.wf(),
                at < self.pages@.len(),
                old_page == self.pages@[at as int]@,
                old_page.len() == PAGE_SIZE,
                offset + len <= PAGE_SIZE,
                from + len <= n,
                n == data@.len(),
                page@.len() == i,
                forall|k: int|
                    0 <= k < i ==> #[trigger] page@[k] == if offset <= k < offset + len {
                        data@[from + k - offset]
                    } else {
                        old_page[k]
                    },
            decreases PAGE_SIZE - i,
        {
            let b: u8 = if offset <= i && i < offset + len {
                data[from + (i - offset)]
            } else {
                self.pages[at][i]
            };
            page.push(b);
            i += 1;
        }
        let ghost bytes = old_page.subrange(0, offset as int) + data@.subrange(
            from as int,
            from + len,
        ) + old_page.subrange(offset + len, PAGE_SIZE as int);
        assert(page@ =~= bytes);
        self.pages.set(at, page);
        assert(self@.pages =~= m.pages.update(at as int, bytes));
    }
}

/// A page of zero bytes.
fn cleared_page() -> (r: Vec<u8>)
    ensures
        r@ == zero_page(),
{
    let mut page: Vec<u8> = Vec::new();
    let mut i: usize = 0;
    while i < PAGE_SIZE
        invariant
            i <= PAGE_SIZE,
            page@.len() == i,
            forall|k: int| 0 <= k < i ==> page@[k] == 0,
        decreases PAGE_SIZE - i,
    {
        page.push(0);
        i += 1;
    }
    assert(page@ =~= zero_page());
    page
}

/// No frame is handed out twice: an allocation gives a frame that is not in use, and a
/// second one without a deallocation in between gives another.
pub proof fn law_frames_are_distinct(m: FrameModel)
    requires
        m.wf(),
        m.free_count() >= 2,
    ensures
        m.is_free(m.next()),
        m.allocated().next() != m.next(),
        !m.allocated().is_free(m.next()),
{
    lemma_allocated(m);
    lemma_allocated(m.allocated());
}

/// A frame that was given back is the next one to be allocated, and allocating it leaves
/// free what was free before.
pub proof fn law_recycled_first(m: FrameModel, p: int)
    requires
        m.wf(),
        0 <= p < m.current,
        !m.recycled.contains(p as usize),
    ensures
        m.freed(p).next() == p,
        m.freed(p).allocated() == m,
{
    assert(m.freed(p).recycled.drop_last() =~= m.recycled);
}

} // verus!
