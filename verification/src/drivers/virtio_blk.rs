//! The memory that the driver of the block device shares with the device.
use crate::config::PAGE_SIZE;
use crate::mm::address::{
    low, page_start, PhysAddr, PhysPageNum, StepByOne, VirtAddr, PA_SPACE, VA_SPACE,
};
use crate::mm::frame_allocator::{
    lemma_allocated, lemma_with_alloc, lemma_with_dealloc, FrameMemory, FrameTracker, MemoryModel,
};
use crate::mm::memory_set::MemorySet;
use vstd::prelude::*;

verus! {

/// What the driver of the block device needs of the kernel.
pub struct VirtioHal;

/// The memory after `n` frames were allocated.
pub open spec fn with_allocs(m: MemoryModel, n: int) -> MemoryModel
    decreases n,
{
    if n <= 0 {
        m
    } else {
        with_allocs(m, n - 1).with_alloc()
    }
}

/// The next `n` frames that are allocated follow each other.
pub open spec fn contiguous(m: MemoryModel, n: int) -> bool {
    forall|i: int|
        0 <= i < n ==> (#[trigger] with_allocs(m, i)).frames.next() == m.frames.next() + i
}

/// The memory after the `n` frames from `p` on were given back.
pub open spec fn with_deallocs(m: MemoryModel, p: int, n: int) -> MemoryModel
    decreases n,
{
    if n <= 0 {
        m
    } else {
        with_deallocs(m, p, n - 1).with_dealloc(p + n - 1)
    }
}

/// Frames that are given back one after the other were in use until then.
proof fn lemma_deallocs(m: MemoryModel, p: int, n: int)
    requires
        m.wf(),
        0 <= n,
        forall|q: int| p <= q < p + n ==> #[trigger] m.in_use(q),
    ensures
        with_deallocs(m, p, n).wf(),
        forall|q: int|
            #[trigger] with_deallocs(m, p, n).in_use(q) <==> m.in_use(q) && !(p <= q < p + n),
    decreases n,
{
    if n > 0 {
        lemma_deallocs(m, p, n - 1);
        let m1 = with_deallocs(m, p, n - 1);
        assert(m.in_use(p + n - 1));
        assert(m1.in_use(p + n - 1));
        lemma_with_dealloc(m1, p + n - 1);
    }
}

/// Frames that follow each other are taken from those that are not in use.
proof fn lemma_allocs(m: MemoryModel, n: int)
    requires
        m.wf(),
        0 <= n <= m.frames.free_count(),
        contiguous(m, n),
    ensures
        with_allocs(m, n).wf(),
        with_allocs(m, n).frames.free_count() == m.frames.free_count() - n,
        forall|q: int|
            #[trigger] with_allocs(m, n).in_use(q) <==> m.in_use(q) || m.frames.next() <= q
                < m.frames.next() + n,
        forall|q: int| m.frames.next() <= q < m.frames.next() + n ==> !#[trigger] m.in_use(q),
    decreases n,
{
    if n > 0 {
        assert(contiguous(m, n - 1));
        lemma_allocs(m, n - 1);
        let m1 = with_allocs(m, n - 1);
        assert(m1.frames.next() == m.frames.next() + (n - 1));
        lemma_with_alloc(m1);
        lemma_allocated(m1.frames);
        assert forall|q: int| m.frames.next() <= q < m.frames.next() + n implies !#[trigger] m.in_use(
            q,
        ) by {
            if q == m.frames.next() + n - 1 {
                assert(!m1.in_use(q));
            }
        }
    }
}

/// Frames that were allocated for the device and are given back again leave in use what was
/// in use before.
pub proof fn law_dma_round_trip(m: MemoryModel, n: int, q: int)
    requires
        m.wf(),
        0 <= n <= m.frames.free_count(),
        contiguous(m, n),
    ensures
        with_deallocs(with_allocs(m, n), m.frames.next(), n).in_use(q) <==> m.in_use(q),
{
    lemma_allocs(m, n);
    let m2 = with_allocs(m, n);
    let p = m.frames.next();
    assert forall|k: int| p <= k < p + n implies #[trigger] m2.in_use(k) by {}
    lemma_deallocs(m2, p, n);
    assert(p <= q < p + n ==> !m.in_use(q));
}

impl VirtioHal {
    /// Allocate frames that follow each other. Return the physical address of the first.
    pub fn dma_alloc(
        pages: usize,
        mem: &mut FrameMemory,
        queue_frames: &mut Vec<FrameTracker>,
    ) -> (r: usize)
        requires
            old(mem)@.wf(),
            pages <= old(mem)@.frames.free_count(),
            contiguous(old(mem)@, pages as int),
        ensures
            final(mem)@.wf(),
            final(mem)@ == with_allocs(old(mem)@, pages as int),
            r == if pages == 0 {
                0
            } else {
                page_start(old(mem)@.frames.next() as usize)
            },
            final(queue_frames)@.len() == old(queue_frames)@.len() + pages,
            forall|i: int|
                0 <= i < old(queue_frames)@.len() ==> #[trigger] final(queue_frames)@[i]
                    == old(queue_frames)@[i],
            forall|i: int|
                0 <= i < pages ==> (#[trigger] final(queue_frames)@[old(queue_frames)@.len()
                    + i]).ppn.0 == old(mem)@.frames.next() + i,
    {
        let ghost m = mem@;
        let ghost q = queue_frames@;
        let mut ppn_base: PhysPageNum = PhysPageNum(0);
        let mut i: usize = 0;
        while i < pages
            invariant
                i <= pages,
                m.wf(),
                mem@.wf(),
                contiguous(m, pages as int),
                mem@ == with_allocs(m, i as int),
                mem@.frames.free_count() == m.frames.free_count() - i,
                pages <= m.frames.free_count(),
                i > 0 ==> ppn_base.0 == m.frames.next(),
                i == 0 ==> ppn_base.0 == 0,
                queue_frames@.len() == q.len() + i,
                forall|k: int| 0 <= k < q.len() ==> #[trigger] queue_frames@[k] == q[k],
                forall|k: int|
                    0 <= k < i ==> (#[trigger] queue_frames@[q.len() + k]).ppn.0
                        == m.frames.next() + k,
            decreases pages - i,
        {
            proof {
                lemma_with_alloc(mem@);
                lemma_allocated(mem@.frames);
                assert(with_allocs(m, i as int).frames.next() == m.frames.next() + i);
            }
            let frame: FrameTracker = mem.frame_alloc().unwrap();
            if i == 0 {
                ppn_base = frame.ppn;
            }
            queue_frames.push(frame);
            i += 1;
        }
        let pa: PhysAddr = PhysAddr::from(ppn_base);
        proof {
            if pages == 0 {
                assert(0usize << 12usize == 0) by (bit_vector);
            }
        }
        pa.0
    }

    /// Give back frames that follow each other.
    pub fn dma_dealloc(pa: usize, pages: usize, mem: &mut FrameMemory) -> (r: i32)
        requires
            old(mem)@.wf(),
            low(pa, PA_SPACE) % PAGE_SIZE == 0,
            low(pa, PA_SPACE) / PAGE_SIZE + pages <= usize::MAX,
            ({
                let p = low(pa, PA_SPACE) as int / PAGE_SIZE as int;
                forall|q: int| p <= q < p + pages ==> #[trigger] old(mem)@.in_use(q)
            }),
        ensures
            r == 0,
            final(mem)@.wf(),
            final(mem)@ == with_deallocs(
                old(mem)@,
                low(pa, PA_SPACE) as int / PAGE_SIZE as int,
                pages as int,
            ),
    {
        let ghost m = mem@;
        let ghost p = low(pa, PA_SPACE) as int / PAGE_SIZE as int;
        let mut ppn_base: PhysPageNum = PhysAddr::from(pa).page();
        let mut i: usize = 0;
        while i < pages
            invariant
                i <= pages,
                m.wf(),
                p + pages <= usize::MAX,
                ppn_base.0 == p + i,
                forall|q: int| p <= q < p + pages ==> #[trigger] m.in_use(q),
                mem@ == with_deallocs(m, p, i as int),
            decreases pages - i,
        {
            proof {
                assert forall|q: int| p <= q < p + i implies #[trigger] m.in_use(q) by {}
                lemma_deallocs(m, p, i as int);
                assert(m.in_use(p + i));
                assert(mem@.in_use(p + i));
            }
            mem.frame_dealloc(ppn_base);
            ppn_base.step();
            i += 1;
        }
        proof {
            lemma_deallocs(m, p, pages as int);
        }
        0
    }

    /// The kernel maps the physical memory to itself.
    pub fn phys_to_virt(addr: usize) -> (r: usize)
        ensures
            r == addr,
    {
        addr
    }

    /// The physical address of an address of the kernel.
    pub fn virt_to_phys(vaddr: usize, kernel_space: &MemorySet) -> (r: usize)
        requires
            kernel_space@.table.contains_key((low(vaddr, VA_SPACE) / PAGE_SIZE) as usize),
            (kernel_space@.table[(low(vaddr, VA_SPACE) / PAGE_SIZE) as usize].ppn.0 + 1) * PAGE_SIZE
                <= usize::MAX,
        ensures
            r == kernel_space@.table[(low(vaddr, VA_SPACE) / PAGE_SIZE) as usize].ppn.0 * PAGE_SIZE
                + low(vaddr, VA_SPACE) % PAGE_SIZE,
    {
        let va: VirtAddr = VirtAddr::from(vaddr);
        let ppn: PhysPageNum = kernel_space.translate(va.floor()).unwrap().ppn();
        ppn.0 * PAGE_SIZE + va.page_offset()
    }
}

} // verus!
