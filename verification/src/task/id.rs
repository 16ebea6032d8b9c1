//! Task pid implementation.
//!
//! Assign PID to the process here. At the same time, the position of the application KernelStack
//! is determined according to the number of the stack.
use crate::config::{KERNEL_STACK_SIZE, MEMORY_END, PAGE_SIZE, TRAMPOLINE};
use crate::mm::address::{low, VirtAddr, VirtPageNum, VA_SPACE};
use crate::mm::frame_allocator::{FrameMemory, MemoryModel};
use crate::mm::map_area::{fresh_area, pages_unmapped, AreaModel, MapPermission, MapType, R, W};
use crate::mm::memory_set::{area_added, can_add, ceil_of, find_start, floor_of, MemorySet};
use crate::mm::space::{trampoline_page, SpaceModel};
use crate::mm::user::{range_reachable, with_bytes, write_user};
use vstd::prelude::*;

verus! {

/// Which numbers are in use: the ones below `current`, but for those that were given back.
#[verifier::ext_equal]
pub struct IdModel {
    pub current: int,
    pub recycled: Seq<usize>,
}

impl IdModel {
    /// No number was given back twice, and none that was never handed out.
    pub open spec fn wf(self) -> bool {
        &&& 0 <= self.current <= usize::MAX
        &&& self.recycled.no_duplicates()
        &&& forall|i: int| 0 <= i < self.recycled.len() ==> #[trigger] self.recycled[i] < self.current
    }

    /// The number was handed out and not given back since.
    pub open spec fn in_use(self, id: usize) -> bool {
        id < self.current && !self.recycled.contains(id)
    }

    /// There is a number to hand out.
    pub open spec fn can_alloc(self) -> bool {
        self.recycled.len() > 0 || self.current < usize::MAX
    }

    /// The number that is handed out next: the one that was given back last, or else the
    /// smallest that was never handed out.
    pub open spec fn next(self) -> usize {
        if self.recycled.len() > 0 {
            self.recycled.last()
        } else {
            self.current as usize
        }
    }

    /// The numbers in use after the next one was handed out.
    pub open spec fn allocated(self) -> IdModel {
        if self.recycled.len() > 0 {
            IdModel { recycled: self.recycled.drop_last(), ..self }
        } else {
            IdModel { current: self.current + 1, ..self }
        }
    }

    /// The numbers in use after one was given back.
    pub open spec fn freed(self, id: usize) -> IdModel {
        IdModel { recycled: self.recycled.push(id), ..self }
    }
}

/// Handing out a number makes it one in use, which it was not, and changes no other.
pub proof fn lemma_allocated(m: IdModel)
    requires
        m.wf(),
        m.can_alloc(),
    ensures
        m.allocated().wf(),
        !m.in_use(m.next()),
        forall|i: usize| #[trigger] m.allocated().in_use(i) <==> m.in_use(i) || i == m.next(),
{
    let r = m.recycled;
    if r.len() > 0 {
        let r2 = r.drop_last();
        assert(r[r.len() - 1] == r.last());
        assert(r.contains(r.last()));
        assert forall|i: usize| #[trigger] m.allocated().in_use(i) <==> m.in_use(i) || i
            == m.next() by {
            if r2.contains(i) {
                let k = choose|k: int| 0 <= k < r2.len() && r2[k] == i;
                assert(r[k] == i);
            }
            if r.contains(i) && i != r.last() {
                let k = choose|k: int| 0 <= k < r.len() && r[k] == i;
                assert(r2[k] == i);
            }
        }
        assert forall|i: int, j: int| 0 <= i < r2.len() && 0 <= j < r2.len() && i != j implies r2[i]
            != r2[j] by {
            assert(r[i] != r[j]);
        }
    } else {
        assert forall|i: usize| #[trigger] m.allocated().in_use(i) <==> m.in_use(i) || i
            == m.next() by {
            assert(!r.contains(i));
        }
    }
}

/// Giving a number back makes it one not in use, and changes no other.
pub proof fn lemma_freed(m: IdModel, id: usize)
    requires
        m.wf(),
        m.in_use(id),
    ensures
        m.freed(id).wf(),
        forall|i: usize| #[trigger] m.freed(id).in_use(i) <==> m.in_use(i) && i != id,
{
    let r = m.recycled;
    let r2 = r.push(id);
    assert forall|i: int, j: int| 0 <= i < r2.len() && 0 <= j < r2.len() && i != j implies r2[i]
        != r2[j] by {
        if i < r.len() && j < r.len() {
            assert(r[i] != r[j]);
        } else if i < r.len() {
            assert(r.contains(r[i]));
        } else {
            assert(r.contains(r[j]));
        }
    }
    assert forall|i: usize| #[trigger] m.freed(id).in_use(i) <==> m.in_use(i) && i != id by {
        if r2.contains(i) && i != id {
            let k = choose|k: int| 0 <= k < r2.len() && r2[k] == i;
            assert(r[k] == i);
        }
        if r.contains(i) {
            let k = choose|k: int| 0 <= k < r.len() && r[k] == i;
            assert(r2[k] == i);
        }
        assert(r2[r.len() as int] == id);
    }
}

/// A number that is handed out is not in use, so two holders never have the same one; and
/// a number that was given back is the next to be handed out.
pub proof fn law_ids_are_distinct(m: IdModel, id: usize)
    requires
        m.wf(),
        m.can_alloc(),
    ensures
        !m.in_use(m.next()),
        m.allocated().in_use(m.next()),
        m.allocated().can_alloc() ==> m.allocated().next() != m.next(),
        m.in_use(id) ==> m.freed(id).next() == id && m.freed(id).allocated() == m,
{
    lemma_allocated(m);
    if m.allocated().can_alloc() {
        lemma_allocated(m.allocated());
    }
    if m.in_use(id) {
        assert(m.freed(id).recycled.drop_last() =~= m.recycled);
    }
}

/// Hands out numbers, and takes them back.
pub struct RecycleAllocator {
    current: usize,
    recycled: Vec<usize>,
}

impl View for RecycleAllocator {
    type V = IdModel;

    closed spec fn view(&self) -> IdModel {
        IdModel { current: self.current as int, recycled: self.recycled@ }
    }
}

impl RecycleAllocator {
    /// An allocator that has handed out no number yet.
    pub fn new() -> (r: Self)
        ensures
            r@ == (IdModel { current: 0, recycled: Seq::empty() }),
            r@.wf(),
    {
        let r: RecycleAllocator = RecycleAllocator { current: 0, recycled: Vec::new() };
        assert(r@.recycled =~= Seq::empty());
        r
    }

    /// Hand out a number.
    pub fn allocate(&mut self) -> (r: usize)
        requires
            old(self)@.wf(),
            old(self)@.can_alloc(),
        ensures
            final(self)@.wf(),
            r == old(self)@.next(),
            final(self)@ == old(self)@.allocated(),
    {
        proof {
            lemma_allocated(self@);
        }
        match self.recycled.pop() {
            Some(id) => {
                assert(self@.recycled =~= old(self)@.recycled.drop_last());
                id
            },
            None => {
                self.current += 1;
                self.current - 1
            },
        }
    }

    /// Take a number back that is in use.
    pub fn dealloc(&mut self, id: usize)
        requires
            old(self)@.wf(),
            old(self)@.in_use(id),
        ensures
            final(self)@.wf(),
            final(self)@ == old(self)@.freed(id),
    {
        proof {
            lemma_freed(self@, id);
        }
        self.recycled.push(id);
    }
}

/// Abstract structure of PID
#[derive(Copy, Clone, PartialEq, Eq, Debug, Structural)]
pub struct PidHandle(pub usize);

/// Allocate a new PID
pub fn pid_alloc(pids: &mut RecycleAllocator) -> (r: PidHandle)
    requires
        old(pids)@.wf(),
        old(pids)@.can_alloc(),
    ensures
        final(pids)@.wf(),
        r.0 == old(pids)@.next(),
        final(pids)@ == old(pids)@.allocated(),
{
    PidHandle(pids.allocate())
}

impl PidHandle {
    /// Give the PID back.
    pub fn release(self, pids: &mut RecycleAllocator)
        requires
            old(pids)@.wf(),
            old(pids)@.in_use(self.0),
        ensures
            final(pids)@.wf(),
            final(pids)@ == old(pids)@.freed(self.0),
    {
        pids.dealloc(self.0);
    }
}

/// Where a kernel stack ends.
pub open spec fn stack_top(id: int) -> int {
    TRAMPOLINE - id * (KERNEL_STACK_SIZE + PAGE_SIZE)
}

/// Return (bottom, top) of a kernel stack in kernel space.
pub fn kernel_stack_position(app_id: usize) -> (r: (usize, usize))
    requires
        app_id * (KERNEL_STACK_SIZE + PAGE_SIZE) + KERNEL_STACK_SIZE <= TRAMPOLINE,
    ensures
        r.0 == stack_top(app_id as int) - KERNEL_STACK_SIZE,
        r.1 == stack_top(app_id as int),
{
    let top: usize = TRAMPOLINE - app_id * (KERNEL_STACK_SIZE + PAGE_SIZE);
    let bottom: usize = top - KERNEL_STACK_SIZE;
    (bottom, top)
}

/// A kernel stack lies between the physical memory, which the kernel maps as it is, and the
/// trampoline.
pub open spec fn stack_fits(id: usize) -> bool {
    MEMORY_END as int / PAGE_SIZE as int + 3 * id + 2 < trampoline_page()
}

/// The pages of a kernel stack, before they are mapped.
pub open spec fn stack_area(id: usize) -> AreaModel {
    fresh_area(
        trampoline_page() - 3 * id - 2,
        trampoline_page() - 3 * id,
        MapType::Framed,
        R | W,
    )
}

/// The addresses of a kernel stack are those of its pages.
pub proof fn lemma_stack(id: usize)
    requires
        stack_fits(id),
    ensures
        id * (KERNEL_STACK_SIZE + PAGE_SIZE) + KERNEL_STACK_SIZE <= TRAMPOLINE,
        ({
            let bottom = VirtAddr(
                low((stack_top(id as int) - KERNEL_STACK_SIZE) as usize, VA_SPACE),
            );
            let top = VirtAddr(low(stack_top(id as int) as usize, VA_SPACE));
            &&& bottom.0 % PAGE_SIZE == 0
            &&& floor_of(bottom) == stack_area(id).l
            &&& ceil_of(top) == stack_area(id).r
        }),
        0 < stack_area(id).l,
        stack_area(id).r <= usize::MAX,
{
    let tp = trampoline_page();
    let x = id * 12288;
    lemma_below_trampoline(x);
    lemma_below_trampoline(x + 8192);
    lemma_stack_pages(tp, id as int);
}

/// An address below the trampoline, without its upper bits.
proof fn lemma_below_trampoline(d: int)
    requires
        0 <= d < trampoline_page() * 4096,
    ensures
        trampoline_page() * 4096 <= TRAMPOLINE,
        low((TRAMPOLINE - d) as usize, VA_SPACE) == trampoline_page() * 4096 - d,
        0 < trampoline_page() <= usize::MAX,
{
    let t = low(TRAMPOLINE, VA_SPACE) as int;
    if usize::MAX == 0xffff_ffff {
        assert(t == 0xffff_f000);
        assert(t == TRAMPOLINE);
    } else {
        assert(t == 0x7f_ffff_f000);
        assert(TRAMPOLINE == 0xffff_ffff_ffff_f000int);
        assert(TRAMPOLINE - d == 0x1ff_ffff * 0x80_0000_0000 + (t - d));
    }
}

/// The pages of a kernel stack, counted from that of the trampoline.
proof fn lemma_stack_pages(tp: int, id: int)
    ensures
        (tp * 4096 - id * 12288 - 8192) % 4096 == 0,
        (tp * 4096 - id * 12288 - 8192) / 4096 == tp - 3 * id - 2,
        (tp * 4096 - id * 12288 + 4095) / 4096 == tp - 3 * id,
{
}

/// Kernel stacks of different processes have no page in common, and between two of them
/// there is a page that belongs to none.
pub proof fn law_kernel_stacks(a: usize, b: usize, v: int)
    requires
        a < b,
    ensures
        stack_area(b).r < stack_area(a).l,
        stack_area(a).covers(v) ==> !stack_area(b).covers(v),
        !stack_area(a).covers(trampoline_page()),
{
}

/// Kernel stack for a process(task)
#[derive(Copy, Clone, PartialEq, Eq, Debug, Structural)]
pub struct KernelStack(pub usize);

/// allocate a new kernel stack
pub fn kstack_alloc(
    kstacks: &mut RecycleAllocator,
    kernel_space: &mut MemorySet,
    mem: &mut FrameMemory,
) -> (r: KernelStack)
    requires
        old(kstacks)@.wf(),
        old(kstacks)@.can_alloc(),
        old(mem)@.wf(),
        old(kernel_space)@.wf(old(mem)@),
        stack_fits(old(kstacks)@.next()),
        can_add(old(kernel_space)@, old(mem)@, stack_area(old(kstacks)@.next())),
    ensures
        final(kstacks)@.wf(),
        r.0 == old(kstacks)@.next(),
        final(kstacks)@ == old(kstacks)@.allocated(),
        area_added(
            old(kernel_space)@,
            final(kernel_space)@,
            old(mem)@,
            final(mem)@,
            stack_area(r.0),
            Seq::empty(),
        ),
{
    let kstack_id: usize = kstacks.allocate();
    proof {
        lemma_stack(kstack_id);
    }
    let (kstack_bottom, kstack_top) = kernel_stack_position(kstack_id);
    kernel_space.insert_framed_area(
        VirtAddr::from(kstack_bottom),
        VirtAddr::from(kstack_top),
        MapPermission { bits: R | W },
        mem,
    );
    KernelStack(kstack_id)
}

/// A kernel stack was taken out of the kernel space.
pub open spec fn stack_removed(
    s: SpaceModel,
    s2: SpaceModel,
    m: MemoryModel,
    m2: MemoryModel,
    id: usize,
) -> bool {
    let i = find_start(s.areas, stack_area(id).l, 0);
    &&& m2.wf()
    &&& s2.wf(m2)
    &&& if i < s.areas.len() {
        let a = s.areas[i];
        &&& s2.areas == s.areas.remove(i)
        &&& s2.root == s.root
        &&& pages_unmapped(
            a,
            fresh_area(a.l, a.r, a.map_type, a.perm),
            s.table,
            s2.table,
            m,
            m2,
            a.l,
            a.r,
        )
    } else {
        s2 == s && m2 == m
    }
}

impl KernelStack {
    /// Give the stack back: its pages, and its number.
    pub fn release(
        self,
        kstacks: &mut RecycleAllocator,
        kernel_space: &mut MemorySet,
        mem: &mut FrameMemory,
    )
        requires
            old(kstacks)@.wf(),
            old(kstacks)@.in_use(self.0),
            old(mem)@.wf(),
            old(kernel_space)@.wf(old(mem)@),
            stack_fits(self.0),
        ensures
            final(kstacks)@.wf(),
            final(kstacks)@ == old(kstacks)@.freed(self.0),
            stack_removed(
                old(kernel_space)@,
                final(kernel_space)@,
                old(mem)@,
                final(mem)@,
                self.0,
            ),
    {
        proof {
            lemma_stack(self.0);
        }
        let (kernel_stack_bottom, _) = kernel_stack_position(self.0);
        let kernel_stack_bottom_va: VirtAddr = VirtAddr::from(kernel_stack_bottom);
        let page: VirtPageNum = kernel_stack_bottom_va.page();
        kernel_space.remove_area_with_start_vpn(page, mem);
        kstacks.dealloc(self.0);
    }

    /// Push a value, given by its bytes, into the top of the KernelStack and return its
    /// address. A value that was pushed before is overwritten.
    pub fn push_on_top(&self, value: &[u8], kernel_space: &MemorySet, mem: &mut FrameMemory) -> (r:
        usize)
        requires
            stack_fits(self.0),
            value@.len() <= KERNEL_STACK_SIZE,
            old(mem)@.wf(),
            range_reachable(
                kernel_space@,
                old(mem)@,
                stack_top(self.0 as int) - value@.len(),
                value@.len() as int,
            ),
        ensures
            r == stack_top(self.0 as int) - value@.len(),
            final(mem)@.wf(),
            final(mem)@ == with_bytes(kernel_space@, old(mem)@, r as int, value@),
    {
        proof {
            lemma_stack(self.0);
        }
        let kernel_stack_top: usize = self.get_top();
        let ptr: usize = kernel_stack_top - value.len();
        write_user(kernel_space, ptr, value, mem);
        ptr
    }

    /// Get the top of the KernelStack
    pub fn get_top(&self) -> (r: usize)
        requires
            self.0 * (KERNEL_STACK_SIZE + PAGE_SIZE) + KERNEL_STACK_SIZE <= TRAMPOLINE,
        ensures
            r == stack_top(self.0 as int),
    {
        let (_, kernel_stack_top) = kernel_stack_position(self.0);
        kernel_stack_top
    }
}

/// Where the kernel stacks lie: the first ends at the trampoline, each has two pages, and each
/// further one ends three pages below the one before. They can be read and written, but not
/// executed, and are not for user mode.
pub proof fn law_stack_place(id: usize)
    requires
        stack_fits(id),
    ensures
        stack_top(id as int) == TRAMPOLINE - 12288 * id,
        stack_area(id).r == trampoline_page() - 3 * id,
        stack_area(id).r - stack_area(id).l == 2,
        stack_area(id).map_type == MapType::Framed,
        stack_area(id).perm & 2 != 0,
        stack_area(id).perm & 4 != 0,
        stack_area(id).perm & 8 == 0,
        stack_area(id).perm & 16 == 0,
{
    assert((2u8 | 4) & 2 != 0 && (2u8 | 4) & 4 != 0 && (2u8 | 4) & 8 == 0 && (2u8 | 4) & 16 == 0)
        by (bit_vector);
}

} // verus!
