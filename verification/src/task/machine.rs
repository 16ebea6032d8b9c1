//! What all processes share: the physical memory, the address space of the kernel, and the
//! numbers of processes and kernel stacks.
use super::id::{
    kstack_alloc, lemma_allocated, lemma_freed, lemma_stack, stack_area, stack_fits, stack_removed,
    IdModel, KernelStack, RecycleAllocator,
};
use crate::config::{MEMORY_END, PAGE_SIZE};
use crate::mm::address::{low, PA_SPACE};
use crate::mm::frame_allocator::{FrameMemory, MemoryModel};
use crate::mm::map_area::{fresh_area, AreaModel};
use crate::mm::memory_set::{
    area_added, can_add, find_start, lemma_find_start, lemma_trampoline, MemorySet,
};
use crate::mm::owner::{changed_only, in_areas, lemma_added_only, lemma_unmapped_only};
use crate::mm::plan::{built, kernel_plan, layout_ok, plan_frames, planned_areas, KernelLayout};
use crate::mm::space::{lemma_area, trampoline_page, SpaceModel};
use vstd::prelude::*;

verus! {

/// The machine, as the processes share it.
pub struct Machine {
    pub mem: FrameMemory,
    pub kernel_space: MemorySet,
    pub pids: RecycleAllocator,
    pub kstacks: RecycleAllocator,
    /// The physical address of the trampoline.
    pub strampoline: usize,
    /// The address of the trap handler.
    pub trap_handler: usize,
    /// The address of the code that returns from a trap.
    pub trap_return: usize,
}

/// The values of a [`Machine`].
#[verifier::ext_equal]
pub struct MachineModel {
    pub mem: MemoryModel,
    pub kspace: SpaceModel,
    pub pids: IdModel,
    pub kstacks: IdModel,
    pub strampoline: usize,
    pub trap_handler: usize,
    pub trap_return: usize,
}

impl View for Machine {
    type V = MachineModel;

    open spec fn view(&self) -> MachineModel {
        MachineModel {
            mem: self.mem@,
            kspace: self.kernel_space@,
            pids: self.pids@,
            kstacks: self.kstacks@,
            strampoline: self.strampoline,
            trap_handler: self.trap_handler,
            trap_return: self.trap_return,
        }
    }
}

/// The kernel space has the pages of a kernel stack, as an area that is found by its start.
pub open spec fn has_stack(s: SpaceModel, id: usize) -> bool {
    let i = find_start(s.areas, stack_area(id).l, 0);
    &&& i < s.areas.len()
    &&& s.areas[i] == (AreaModel { frames: s.areas[i].frames, ..stack_area(id) })
}

/// The pages of a kernel stack are not mapped.
pub open spec fn stack_unmapped(s: SpaceModel, id: usize) -> bool {
    forall|k: usize| stack_area(id).covers(k as int) ==> !#[trigger] s.table.contains_key(k)
}

/// Exactly the kernel stacks that are in use are mapped.
#[verifier::opaque]
pub open spec fn stacks_ok(s: SpaceModel, ids: IdModel) -> bool {
    &&& forall|id: usize| #[trigger] ids.in_use(id) ==> stack_fits(id) && has_stack(s, id)
    &&& forall|id: usize|
        stack_fits(id) && !#[trigger] ids.in_use(id) ==> stack_unmapped(s, id)
    &&& forall|i: int|
        0 <= i < s.areas.len() ==> (#[trigger] s.areas[i]).r <= MEMORY_END as int
            / PAGE_SIZE as int || s.areas[i].l < s.areas[i].r
}

impl MachineModel {
    /// The machine is consistent.
    pub open spec fn wf(self) -> bool {
        &&& self.mem.wf()
        &&& self.kspace.wf(self.mem)
        &&& self.pids.wf()
        &&& self.kstacks.wf()
        &&& stacks_ok(self.kspace, self.kstacks)
        &&& low(self.strampoline, PA_SPACE) % PAGE_SIZE == 0
        &&& low(self.strampoline, PA_SPACE) / PAGE_SIZE < self.mem.start
    }

    /// A process can be given a number and a kernel stack.
    pub open spec fn can_start(self) -> bool {
        &&& self.pids.can_alloc()
        &&& self.kstacks.can_alloc()
        &&& stack_fits(self.kstacks.next())
    }
}

/// `find_start` finds the only area that starts at a page.
proof fn lemma_find_unique(areas: Seq<AreaModel>, v: int, k: int)
    requires
        0 <= k < areas.len(),
        areas[k].l == v,
        forall|j: int| 0 <= j < k ==> (#[trigger] areas[j]).l != v,
    ensures
        find_start(areas, v, 0) == k,
{
    lemma_find_start(areas, v, 0);
    let f = find_start(areas, v, 0);
    if f > k {
        assert(areas[k].l != v);
    } else if f < k {
        assert(areas[f].l != v);
    }
}

/// The pages of a new kernel stack can be mapped.
proof fn lemma_can_add_stack(s: MachineModel)
    requires
        s.wf(),
        s.kstacks.can_alloc(),
        stack_fits(s.kstacks.next()),
        s.mem.frames.free_count() >= 2,
    ensures
        can_add(s.kspace, s.mem, stack_area(s.kstacks.next())),
{
    reveal(stacks_ok);
    lemma_allocated(s.kstacks);
    lemma_stack(s.kstacks.next());
    assert(!s.kstacks.in_use(s.kstacks.next()));
    assert(stack_unmapped(s.kspace, s.kstacks.next()));
}

/// Mapping a kernel stack keeps the stacks in order.
proof fn lemma_stack_added(
    s: SpaceModel,
    s2: SpaceModel,
    m: MemoryModel,
    m2: MemoryModel,
    ids: IdModel,
)
    requires
        s.wf(m),
        ids.wf(),
        ids.can_alloc(),
        stack_fits(ids.next()),
        stacks_ok(s, ids),
        area_added(s, s2, m, m2, stack_area(ids.next()), Seq::empty()),
    ensures
        stacks_ok(s2, ids.allocated()),
{
    reveal(stacks_ok);
    lemma_allocated(ids);
    let id = ids.next();
    let n = s.areas.len() as int;
    let a = stack_area(id);
    assert(!ids.in_use(id));
    assert(stack_unmapped(s, id));
    assert forall|j: int| 0 <= j < n implies (#[trigger] s.areas[j]).l != a.l by {
        if s.areas[j].l == a.l {
            lemma_area(s, m, j);
            assert(s.areas[j].l < s.areas[j].r);
            lemma_stack(id);
            let k = a.l as usize;
            assert(s.areas[j].covers(k as int));
            assert(a.covers(k as int));
            assert(s.table.contains_key(k));
        }
    }
    assert forall|x: usize| #[trigger] ids.allocated().in_use(x) implies stack_fits(x) && has_stack(
        s2,
        x,
    ) by {
        if x == id {
            assert(s2.areas[n].l == a.l);
            lemma_find_unique(s2.areas, a.l, n);
        } else {
            assert(ids.in_use(x));
            let l = stack_area(x).l;
            lemma_find_start(s.areas, l, 0);
            lemma_find_unique(s2.areas, l, find_start(s.areas, l, 0));
        }
    }
    assert forall|x: usize| stack_fits(x) && !#[trigger] ids.allocated().in_use(x) implies stack_unmapped(
        s2,
        x,
    ) by {
        assert(!ids.in_use(x));
        assert(x != id);
        assert(stack_unmapped(s, x));
        assert forall|k: usize| stack_area(x).covers(k as int) implies !#[trigger] s2.table.contains_key(
            k,
        ) by {
            assert(!s.table.contains_key(k));
        }
    }
}

/// Taking a kernel stack out keeps the stacks in order.
proof fn lemma_stack_removed(
    s: SpaceModel,
    s2: SpaceModel,
    m: MemoryModel,
    m2: MemoryModel,
    ids: IdModel,
    id: usize,
)
    requires
        s.wf(m),
        ids.wf(),
        ids.in_use(id),
        stacks_ok(s, ids),
        stack_removed(s, s2, m, m2, id),
    ensures
        stacks_ok(s2, ids.freed(id)),
        changed_only(s, s2, m, m2),
{
    reveal(stacks_ok);
    lemma_freed(ids, id);
    assert(has_stack(s, id));
    let a = stack_area(id);
    let i = find_start(s.areas, a.l, 0);
    lemma_find_start(s.areas, a.l, 0);
    assert forall|x: usize| #[trigger] ids.freed(id).in_use(x) implies stack_fits(x) && has_stack(
        s2,
        x,
    ) by {
        assert(ids.in_use(x));
        let l = stack_area(x).l;
        let q = find_start(s.areas, l, 0);
        lemma_find_start(s.areas, l, 0);
        assert(q != i);
        let q2 = if q < i {
            q
        } else {
            q - 1
        };
        assert(s2.areas[q2] == s.areas[q]);
        assert forall|j: int| 0 <= j < q2 implies (#[trigger] s2.areas[j]).l != l by {
            let j0 = if j < i {
                j
            } else {
                j + 1
            };
            assert(s2.areas[j] == s.areas[j0]);
            if j0 >= q {
                assert(j0 < q);
            }
        }
        lemma_find_unique(s2.areas, l, q2);
    }
    assert forall|x: usize| stack_fits(x) && !#[trigger] ids.freed(id).in_use(x) implies stack_unmapped(
        s2,
        x,
    ) by {
        if x != id {
            assert(!ids.in_use(x));
            assert(stack_unmapped(s, x));
        }
        assert forall|k: usize| stack_area(x).covers(k as int) implies !#[trigger] s2.table.contains_key(
            k,
        ) by {
            if x != id {
                assert(!s.table.contains_key(k));
            }
        }
    }
    assert forall|j: int| 0 <= j < s2.areas.len() implies (#[trigger] s2.areas[j]).r
        <= MEMORY_END as int / PAGE_SIZE as int || s2.areas[j].l < s2.areas[j].r by {
        let j0 = if j < i {
            j
        } else {
            j + 1
        };
        assert(s2.areas[j] == s.areas[j0]);
    }
    assert forall|j: int, k: usize|
        0 <= j < s2.areas.len() && #[trigger] s2.areas[j].frames.contains_key(k) implies in_areas(
        s.areas,
        s2.areas[j].frames[k].ppn.0 as int,
    ) by {
        let j0 = if j < i {
            j
        } else {
            j + 1
        };
        assert(s2.areas[j] == s.areas[j0]);
        assert(s.areas[j0].frames.contains_key(k));
    }
    let ai = s.areas[i];
    lemma_unmapped_only(
        s,
        s2,
        m,
        m2,
        i,
        fresh_area(ai.l, ai.r, ai.map_type, ai.perm),
        ai.l,
        ai.r,
    );
}

impl Machine {
    /// The machine after it was booted: the kernel is mapped, the rest of the memory is
    /// free, and there is no process yet.
    pub fn new(l: &KernelLayout, trap_handler: usize, trap_return: usize) -> (r: Self)
        requires
            layout_ok(*l),
            l.ekernel <= MEMORY_END - PAGE_SIZE,
            low(l.strampoline, PA_SPACE) < l.ekernel,
        ensures
            r@.wf(),
            r@.pids == (IdModel { current: 0, recycled: Seq::empty() }),
            r@.kstacks == (IdModel { current: 0, recycled: Seq::empty() }),
            r@.strampoline == l.strampoline,
            r@.trap_handler == trap_handler,
            r@.trap_return == trap_return,
            exists|m: MemoryModel| #[trigger]
                built(kernel_plan(*l), r@.kspace, m, r@.mem, l.strampoline),
            r@.mem.start == (l.ekernel + PAGE_SIZE - 1) / PAGE_SIZE as int,
            r@.mem.frames.free_count() == MEMORY_END as int / PAGE_SIZE as int - r@.mem.start - 1,
    {
        let mut mem: FrameMemory = FrameMemory::init_frame_allocator(l.ekernel);
        let ghost m = mem@;
        let kernel_space: MemorySet = MemorySet::new_kernel(l, &mut mem);
        let r: Machine = Machine {
            mem,
            kernel_space,
            pids: RecycleAllocator::new(),
            kstacks: RecycleAllocator::new(),
            strampoline: l.strampoline,
            trap_handler,
            trap_return,
        };
        assert(built(kernel_plan(*l), r@.kspace, m, r@.mem, l.strampoline));
        proof {
            reveal(built);
            reveal(stacks_ok);
            let plan = kernel_plan(*l);
            let s = r@.kspace;
            lemma_trampoline();
            assert forall|i: int| 0 <= i < s.areas.len() implies (#[trigger] s.areas[i]).r
                <= MEMORY_END as int / PAGE_SIZE as int by {
                assert(s.areas[i] == (AreaModel { frames: s.areas[i].frames, ..plan[i].area }));
            }
            assert forall|id: usize|
                stack_fits(id) && !#[trigger] r@.kstacks.in_use(id) implies stack_unmapped(
                s,
                id,
            ) by {
                assert forall|k: usize|
                    stack_area(id).covers(k as int) implies !#[trigger] s.table.contains_key(k) by {
                    if s.table.contains_key(k) {
                        let p = planned_areas(plan);
                        assert(k != trampoline_page());
                        let i = choose|i: int| 0 <= i < p.len() && (#[trigger] p[i]).covers(k as int);
                        assert(s.areas[i].r <= MEMORY_END as int / PAGE_SIZE as int);
                    }
                }
            }
            assert(plan_frames(plan) == 0) by {
                reveal_with_fuel(plan_frames, 6);
                assert(plan.drop_last().drop_last().drop_last().drop_last().drop_last()
                    =~= Seq::empty());
            }
        }
        r
    }

    /// Allocate a kernel stack, and map it.
    pub fn alloc_stack(&mut self) -> (r: KernelStack)
        requires
            old(self)@.wf(),
            old(self)@.kstacks.can_alloc(),
            stack_fits(old(self)@.kstacks.next()),
            old(self)@.mem.frames.free_count() >= 2,
        ensures
            final(self)@.wf(),
            r.0 == old(self)@.kstacks.next(),
            final(self)@ == (MachineModel {
                mem: final(self)@.mem,
                kspace: final(self)@.kspace,
                kstacks: old(self)@.kstacks.allocated(),
                ..old(self)@
            }),
            area_added(
                old(self)@.kspace,
                final(self)@.kspace,
                old(self)@.mem,
                final(self)@.mem,
                stack_area(r.0),
                Seq::empty(),
            ),
            changed_only(
                old(self)@.kspace,
                final(self)@.kspace,
                old(self)@.mem,
                final(self)@.mem,
            ),
    {
        proof {
            lemma_can_add_stack(self@);
        }
        let r: KernelStack = kstack_alloc(
            &mut self.kstacks,
            &mut self.kernel_space,
            &mut self.mem,
        );
        proof {
            let o = old(self)@;
            lemma_added_only(o.kspace, self@.kspace, o.mem, self@.mem, stack_area(r.0), Seq::empty());
            lemma_stack_added(o.kspace, self@.kspace, o.mem, self@.mem, o.kstacks);
        }
        r
    }

    /// Unmap a kernel stack, and give it back.
    pub fn free_stack(&mut self, stack: KernelStack)
        requires
            old(self)@.wf(),
            old(self)@.kstacks.in_use(stack.0),
        ensures
            final(self)@.wf(),
            final(self)@ == (MachineModel {
                mem: final(self)@.mem,
                kspace: final(self)@.kspace,
                kstacks: old(self)@.kstacks.freed(stack.0),
                ..old(self)@
            }),
            stack_removed(
                old(self)@.kspace,
                final(self)@.kspace,
                old(self)@.mem,
                final(self)@.mem,
                stack.0,
            ),
            changed_only(
                old(self)@.kspace,
                final(self)@.kspace,
                old(self)@.mem,
                final(self)@.mem,
            ),
    {
        proof {
            reveal(stacks_ok);
            assert(stack_fits(stack.0));
        }
        stack.release(&mut self.kstacks, &mut self.kernel_space, &mut self.mem);
        proof {
            let o = old(self)@;
            lemma_stack_removed(o.kspace, self@.kspace, o.mem, self@.mem, o.kstacks, stack.0);
        }
    }
}

} // verus!
