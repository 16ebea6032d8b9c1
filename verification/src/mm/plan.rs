//! The address spaces of the kernel and of programs.
use super::address::{low, VirtAddr, PA_SPACE, VA_SPACE};
use super::frame_allocator::{
    lemma_allocated, lemma_with_alloc, zero_page, FrameMemory, FrameTracker, MemoryModel,
};
use super::map_area::{
    fresh_area, kept, page_with, AreaModel, MapArea, MapPermission, MapType, R, W, X,
};
use super::memory_set::{area_added, can_add, ceil_of, floor_of, lemma_trampoline, MemorySet};
use super::page_table::{valid_entry, PTE_V};
use super::space::{covered, lemma_area, trampoline_page, SpaceModel};
use crate::config::{MEMORY_END, PAGE_SIZE, TRAMPOLINE};
use vstd::prelude::*;

verus! {

/// An area that is to be mapped, and the data that it starts with.
#[verifier::ext_equal]
pub struct AreaPlan {
    pub area: AreaModel,
    pub data: Seq<u8>,
}

/// The areas of a plan.
pub open spec fn planned_areas(plan: Seq<AreaPlan>) -> Seq<AreaModel> {
    Seq::new(plan.len(), |i: int| plan[i].area)
}

/// The number of frames that a plan takes.
pub open spec fn plan_frames(plan: Seq<AreaPlan>) -> int
    decreases plan.len(),
{
    if plan.len() == 0 {
        0
    } else {
        plan_frames(plan.drop_last()) + (if plan.last().area.map_type == MapType::Framed {
            plan.last().area.r - plan.last().area.l
        } else {
            0
        })
    }
}

/// The areas of a plan have no page in common, none covers the trampoline, and the data
/// fits.
#[verifier::opaque]
pub open spec fn plan_ok(plan: Seq<AreaPlan>) -> bool {
    &&& forall|i: int|
        0 <= i < plan.len() ==> {
            let a = (#[trigger] plan[i]).area;
            &&& 0 <= a.l <= a.r <= usize::MAX
            &&& a.frames == Map::<usize, FrameTracker>::empty()
            &&& !a.covers(trampoline_page())
            &&& plan[i].data.len() <= PAGE_SIZE * (a.r - a.l)
        }
    &&& forall|i: int, j: int, v: int|
        0 <= i < plan.len() && 0 <= j < plan.len() && i != j && #[trigger] plan[i].area.covers(v)
            ==> !#[trigger] plan[j].area.covers(v)
}

/// An address space was built as planned: it has the trampoline and the areas of the plan,
/// in frames that were not in use before, with the planned data in them.
#[verifier::opaque]
pub open spec fn built(
    plan: Seq<AreaPlan>,
    s: SpaceModel,
    m: MemoryModel,
    m2: MemoryModel,
    strampoline: usize,
) -> bool {
    &&& m2.wf()
    &&& s.wf(m2)
    &&& s.root == m.frames.next()
    &&& kept(m, m2)
    &&& m2.frames.free_count() == m.frames.free_count() - 1 - plan_frames(plan)
    &&& s.areas.len() == plan.len()
    &&& forall|i: int|
        0 <= i < plan.len() ==> #[trigger] s.areas[i] == (AreaModel {
            frames: s.areas[i].frames,
            ..plan[i].area
        })
    &&& forall|k: usize|
        #[trigger] s.table.contains_key(k) <==> k == trampoline_page() || covered(
            planned_areas(plan),
            k as int,
        )
    &&& s.table[trampoline_page() as usize] == valid_entry(
        (low(strampoline, PA_SPACE) / PAGE_SIZE) as usize,
        R | X,
    )
    &&& forall|i: int, k: usize|
        0 <= i < plan.len() && #[trigger] plan[i].area.covers(k as int) ==> planned_page(
            plan[i],
            s,
            m,
            m2,
            k,
        )
}

/// A page is mapped as planned.
pub open spec fn planned_page(
    p: AreaPlan,
    s: SpaceModel,
    m: MemoryModel,
    m2: MemoryModel,
    k: usize,
) -> bool {
    &&& s.table[k].flags == p.area.perm | PTE_V
    &&& match p.area.map_type {
        MapType::Identical => s.table[k].ppn.0 == k,
        MapType::Framed => {
            let f = s.table[k].ppn.0 as int;
            &&& !m.in_use(f)
            &&& m2.in_use(f)
            &&& m2.page(f) == page_with(zero_page(), p.data, k - p.area.l)
        },
    }
}

/// The areas before the last one take no more frames than all of them.
proof fn lemma_plan_frames(plan: Seq<AreaPlan>, n: int)
    requires
        0 <= n <= plan.len(),
        forall|i: int| 0 <= i < plan.len() ==> (#[trigger] plan[i]).area.l <= plan[i].area.r,
    ensures
        0 <= plan_frames(plan.take(n)) <= plan_frames(plan),
    decreases plan.len() - n,
{
    if n == plan.len() {
        assert(plan.take(n) =~= plan);
        if n > 0 {
            lemma_plan_nonneg(plan);
        }
    } else {
        lemma_plan_frames(plan, n + 1);
        assert(plan.take(n + 1).drop_last() =~= plan.take(n));
        assert(plan.take(n + 1).last() == plan[n]);
        assert forall|i: int| 0 <= i < n implies (#[trigger] plan.take(n)[i]).area.l <= plan.take(
            n,
        )[i].area.r by {
            assert(plan.take(n)[i] == plan[i]);
        }
        lemma_plan_nonneg(plan.take(n));
    }
}

/// A plan takes no negative number of frames.
proof fn lemma_plan_nonneg(plan: Seq<AreaPlan>)
    requires
        forall|i: int| 0 <= i < plan.len() ==> (#[trigger] plan[i]).area.l <= plan[i].area.r,
    ensures
        0 <= plan_frames(plan),
    decreases plan.len(),
{
    if plan.len() > 0 {
        let rest = plan.drop_last();
        assert forall|i: int| 0 <= i < rest.len() implies (#[trigger] rest[i]).area.l
            <= rest[i].area.r by {
            assert(rest[i] == plan[i]);
        }
        assert(plan.last() == plan[plan.len() - 1]);
        lemma_plan_nonneg(rest);
    }
}

/// A plan that can be carried out takes no negative number of frames.
pub proof fn lemma_plan_ok(plan: Seq<AreaPlan>)
    requires
        plan_ok(plan),
    ensures
        0 <= plan_frames(plan),
{
    reveal(plan_ok);
    assert forall|i: int| 0 <= i < plan.len() implies (#[trigger] plan[i]).area.l
        <= plan[i].area.r by {}
    lemma_plan_nonneg(plan);
}

/// Which pages of an address space that was built as planned are mapped.
pub proof fn lemma_built_table(
    plan: Seq<AreaPlan>,
    s: SpaceModel,
    m: MemoryModel,
    m2: MemoryModel,
    strampoline: usize,
)
    requires
        built(plan, s, m, m2, strampoline),
    ensures
        forall|k: usize|
            #[trigger] s.table.contains_key(k) <==> k == trampoline_page() || covered(
                planned_areas(plan),
                k as int,
            ),
{
    reveal(built);
}

/// The next area of a plan can be mapped.
pub proof fn lemma_can_add(
    plan: Seq<AreaPlan>,
    n: int,
    s: SpaceModel,
    m: MemoryModel,
    m1: MemoryModel,
    strampoline: usize,
)
    requires
        plan_ok(plan),
        0 <= n < plan.len(),
        built(plan.take(n), s, m, m1, strampoline),
        plan_frames(plan) < m.frames.free_count(),
    ensures
        can_add(s, m1, plan[n].area),
        s.wf(m1),
        m1.wf(),
        plan[n].area.frames == Map::<usize, FrameTracker>::empty(),
        plan[n].data.len() <= PAGE_SIZE * (plan[n].area.r - plan[n].area.l),
{
    reveal(built);
    reveal(plan_ok);
    let a = plan[n].area;
    lemma_plan_frames(plan, n + 1);
    assert(plan.take(n + 1).drop_last() =~= plan.take(n));
    assert(plan.take(n + 1).last() == plan[n]);
    assert forall|k: usize| a.covers(k as int) implies !#[trigger] s.table.contains_key(k) by {
        let pa = planned_areas(plan.take(n));
        if covered(pa, k as int) {
            let i = choose|i: int| 0 <= i < pa.len() && (#[trigger] pa[i]).covers(k as int);
            assert(plan[i].area.covers(k as int));
            assert(plan[n].area.covers(k as int));
        }
    }
}

/// One more area of a plan was mapped.
pub proof fn lemma_built_step(
    plan: Seq<AreaPlan>,
    n: int,
    s: SpaceModel,
    s2: SpaceModel,
    m: MemoryModel,
    m1: MemoryModel,
    m2: MemoryModel,
    strampoline: usize,
)
    requires
        plan_ok(plan),
        0 <= n < plan.len(),
        built(plan.take(n), s, m, m1, strampoline),
        area_added(s, s2, m1, m2, plan[n].area, plan[n].data),
    ensures
        built(plan.take(n + 1), s2, m, m2, strampoline),
{
    reveal(built);
    reveal(plan_ok);
    let p0 = plan.take(n);
    let p1 = plan.take(n + 1);
    let a = plan[n].area;
    let a2 = s2.areas.last();
    assert(s2.areas[n] == a2);
    assert(p1.drop_last() =~= p0);
    assert(p1.last() == plan[n]);
    lemma_trampoline();
    let t = trampoline_page() as usize;
    assert(s.table.contains_key(t));
    assert(s2.table.contains_key(t));
    assert(kept(m, m2)) by {
        assert forall|p: int| #[trigger] m.in_use(p) implies m2.in_use(p) && m2.page(p) == m.page(
            p,
        ) by {
            assert(m1.in_use(p));
        }
    }
    assert forall|i: int| 0 <= i < p1.len() implies #[trigger] s2.areas[i] == (AreaModel {
        frames: s2.areas[i].frames,
        ..p1[i].area
    }) by {
        if i < n {
            assert(s2.areas[i] == s.areas[i]);
            assert(p1[i] == p0[i]);
        }
    }
    let c0 = planned_areas(p0);
    let c1 = planned_areas(p1);
    assert forall|k: usize|
        #[trigger] s2.table.contains_key(k) <==> k == trampoline_page() || covered(
            c1,
            k as int,
        ) by {
        assert(s.table.contains_key(k) <==> k == trampoline_page() || covered(c0, k as int));
        if covered(c1, k as int) {
            let i = choose|i: int| 0 <= i < c1.len() && (#[trigger] c1[i]).covers(k as int);
            if i < n {
                assert(c0[i].covers(k as int));
            }
        }
        if covered(c0, k as int) {
            let i = choose|i: int| 0 <= i < c0.len() && (#[trigger] c0[i]).covers(k as int);
            assert(c1[i].covers(k as int));
        }
        if a.covers(k as int) {
            assert(c1[n].covers(k as int));
        }
    }
    lemma_area(s2, m2, n);
    assert forall|i: int, k: usize|
        0 <= i < p1.len() && #[trigger] p1[i].area.covers(k as int) implies planned_page(
        p1[i],
        s2,
        m,
        m2,
        k,
    ) by {
        if i < n {
            assert(p1[i] == p0[i]);
            assert(p0[i].area.covers(k as int));
            assert(planned_page(p0[i], s, m, m1, k));
            assert(plan[i].area.covers(k as int));
            assert(!plan[n].area.covers(k as int));
            assert(c0[i].covers(k as int));
            assert(s.table.contains_key(k));
            assert(s2.table.contains_key(k));
            assert(s2.table[k] == s.table[k]);
            if p0[i].area.map_type == MapType::Framed {
                assert(m1.in_use(s.table[k].ppn.0 as int));
            }
        } else {
            assert(a2.covers(k as int));
            assert(s2.table.contains_key(k));
            assert(s2.table[k] == a2.entry(k));
            if a.map_type == MapType::Framed {
                assert(a2.frames.contains_key(k));
                let f = a2.frames[k];
                assert(m.in_use(f.ppn.0 as int) ==> m1.in_use(f.ppn.0 as int));
                assert(m2.in_use(f.ppn.0 as int));
            }
        }
    }
}

/// An address space with the trampoline only.
pub(crate) fn start_space(strampoline: usize, mem: &mut FrameMemory) -> (r: MemorySet)
    requires
        old(mem)@.wf(),
        old(mem)@.frames.free_count() > 0,
        low(strampoline, PA_SPACE) % PAGE_SIZE == 0,
    ensures
        built(Seq::empty(), r@, old(mem)@, final(mem)@, strampoline),
{
    proof {
        lemma_with_alloc(mem@);
        lemma_allocated(mem@.frames);
        lemma_trampoline();
    }
    let mut memory_set: MemorySet = MemorySet::new_bare(mem);
    memory_set.map_trampoline(strampoline, mem);
    proof {
        reveal(built);
        let c = planned_areas(Seq::<AreaPlan>::empty());
        assert forall|k: usize|
            #[trigger] memory_set@.table.contains_key(k) <==> k == trampoline_page() || covered(
                c,
                k as int,
            ) by {}
    }
    memory_set
}

/// Where the sections of the kernel image start and end.
#[derive(Copy, Clone, Debug)]
pub struct KernelLayout {
    pub stext: usize,
    pub etext: usize,
    pub srodata: usize,
    pub erodata: usize,
    pub sdata: usize,
    pub edata: usize,
    pub sbss_with_stack: usize,
    pub ebss: usize,
    pub ekernel: usize,
    pub strampoline: usize,
}

/// A section that is mapped to itself.
pub open spec fn section(start: usize, end: usize, perm: u8) -> AreaPlan {
    AreaPlan {
        area: fresh_area(
            floor_of(VirtAddr(start)),
            ceil_of(VirtAddr(end)),
            MapType::Identical,
            perm,
        ),
        data: Seq::empty(),
    }
}

/// How the kernel is mapped: the code can be executed and not written, the read-only data
/// neither, and the rest up to the end of physical memory written and not executed.
pub open spec fn kernel_plan(l: KernelLayout) -> Seq<AreaPlan> {
    seq![
        section(l.stext, l.etext, R | X),
        section(l.srodata, l.erodata, R),
        section(l.sdata, l.edata, R | W),
        section(l.sbss_with_stack, l.ebss, R | W),
        section(l.ekernel, MEMORY_END, R | W),
    ]
}

/// A section and the next one have no page in common.
pub open spec fn sections_in_order(start: usize, end: usize, next: usize) -> bool {
    &&& start <= end <= MEMORY_END
    &&& ceil_of(VirtAddr(end)) <= floor_of(VirtAddr(next))
}

/// The sections lie one behind the other in physical memory, on pages of their own, and
/// the trampoline starts a page.
pub open spec fn layout_ok(l: KernelLayout) -> bool {
    &&& sections_in_order(l.stext, l.etext, l.srodata)
    &&& sections_in_order(l.srodata, l.erodata, l.sdata)
    &&& sections_in_order(l.sdata, l.edata, l.sbss_with_stack)
    &&& sections_in_order(l.sbss_with_stack, l.ebss, l.ekernel)
    &&& l.ekernel <= MEMORY_END
    &&& low(l.strampoline, PA_SPACE) % PAGE_SIZE == 0
}

impl MemorySet {
    /// Map a section of the kernel to itself.
    fn push_section(
        &mut self,
        start: usize,
        end: usize,
        perm: u8,
        mem: &mut FrameMemory,
    )
        requires
            old(mem)@.wf(),
            old(self)@.wf(old(mem)@),
            end <= MEMORY_END,
            start <= MEMORY_END,
            can_add(old(self)@, old(mem)@, section(start, end, perm).area),
        ensures
            area_added(
                old(self)@,
                final(self)@,
                old(mem)@,
                final(mem)@,
                section(start, end, perm).area,
                Seq::empty(),
            ),
    {
        let area: MapArea = MapArea::new(
            VirtAddr::from(start),
            VirtAddr::from(end),
            MapType::Identical,
            MapPermission { bits: perm },
        );
        self.push(area, None, mem);
    }

    /// Without kernel stacks.
    pub fn new_kernel(l: &KernelLayout, mem: &mut FrameMemory) -> (r: Self)
        requires
            old(mem)@.wf(),
            old(mem)@.frames.free_count() > 0,
            layout_ok(*l),
        ensures
            built(kernel_plan(*l), r@, old(mem)@, final(mem)@, l.strampoline),
    {
        let ghost plan = kernel_plan(*l);
        let ghost m = mem@;
        let ghost t = l.strampoline;
        proof {
            lemma_kernel_plan(*l);
        }
        // map trampoline
        let mut memory_set: MemorySet = start_space(l.strampoline, mem);
        let ghost s0 = memory_set@;
        let ghost m0 = mem@;
        proof {
            assert(plan.take(0) =~= Seq::<AreaPlan>::empty());
            lemma_can_add(plan, 0, s0, m, m0, t);
        }
        // map kernel sections
        memory_set.push_section(l.stext, l.etext, R | X, mem);
        let ghost s1 = memory_set@;
        let ghost m1 = mem@;
        proof {
            lemma_built_step(plan, 0, s0, s1, m, m0, m1, t);
            lemma_can_add(plan, 1, s1, m, m1, t);
        }
        memory_set.push_section(l.srodata, l.erodata, R, mem);
        let ghost s2 = memory_set@;
        let ghost m2 = mem@;
        proof {
            lemma_built_step(plan, 1, s1, s2, m, m1, m2, t);
            lemma_can_add(plan, 2, s2, m, m2, t);
        }
        memory_set.push_section(l.sdata, l.edata, R | W, mem);
        let ghost s3 = memory_set@;
        let ghost m3 = mem@;
        proof {
            lemma_built_step(plan, 2, s2, s3, m, m2, m3, t);
            lemma_can_add(plan, 3, s3, m, m3, t);
        }
        memory_set.push_section(l.sbss_with_stack, l.ebss, R | W, mem);
        let ghost s4 = memory_set@;
        let ghost m4 = mem@;
        proof {
            lemma_built_step(plan, 3, s3, s4, m, m3, m4, t);
            lemma_can_add(plan, 4, s4, m, m4, t);
        }
        // map physical memory
        memory_set.push_section(l.ekernel, MEMORY_END, R | W, mem);
        proof {
            lemma_built_step(plan, 4, s4, memory_set@, m, m4, mem@, t);
            assert(plan.take(5) =~= plan);
        }
        memory_set
    }
}

/// The plan of the kernel can be carried out.
proof fn lemma_kernel_plan(l: KernelLayout)
    requires
        layout_ok(l),
    ensures
        plan_ok(kernel_plan(l)),
        plan_frames(kernel_plan(l)) == 0,
{
    reveal(plan_ok);
    let plan = kernel_plan(l);
    lemma_trampoline();
    assert(trampoline_page() > 0x88000) by {
        if usize::MAX == 0xffff_ffff {
            assert(low(TRAMPOLINE, VA_SPACE) == 0xffff_f000usize);
        } else {
            assert(low(TRAMPOLINE, VA_SPACE) == 0x7f_ffff_f000);
        }
    }
    reveal_with_fuel(plan_frames, 6);
    assert(plan.drop_last().drop_last().drop_last().drop_last().drop_last() =~= Seq::<
        AreaPlan,
    >::empty());
}

/// Check what the kernel can do with its own sections: the middle of the code and of the
/// read-only data cannot be written, and the middle of the data cannot be executed.
pub fn remap_test(kernel_space: &MemorySet, l: &KernelLayout) -> (r: bool)
    requires
        l.stext + l.etext <= usize::MAX,
        l.srodata + l.erodata <= usize::MAX,
        l.sdata + l.edata <= usize::MAX,
        kernel_space@.table.contains_key(mid_page(l.stext, l.etext)),
        kernel_space@.table.contains_key(mid_page(l.srodata, l.erodata)),
        kernel_space@.table.contains_key(mid_page(l.sdata, l.edata)),
    ensures
        r == {
            &&& kernel_space@.table[mid_page(l.stext, l.etext)].flags & W == 0
            &&& kernel_space@.table[mid_page(l.srodata, l.erodata)].flags & W == 0
            &&& kernel_space@.table[mid_page(l.sdata, l.edata)].flags & X == 0
        },
{
    let mid_text: VirtAddr = VirtAddr::from((l.stext + l.etext) / 2);
    let mid_rodata: VirtAddr = VirtAddr::from((l.srodata + l.erodata) / 2);
    let mid_data: VirtAddr = VirtAddr::from((l.sdata + l.edata) / 2);
    !kernel_space.translate(mid_text.floor()).unwrap().writable() && !kernel_space.translate(
        mid_rodata.floor(),
    ).unwrap().writable() && !kernel_space.translate(mid_data.floor()).unwrap().executable()
}

/// The page in the middle between two addresses.
pub open spec fn mid_page(start: usize, end: usize) -> usize {
    (low(((start + end) / 2) as usize, VA_SPACE) / PAGE_SIZE) as usize
}

/// In the address space of the kernel the sections have the permissions that the check
/// asks for.
pub proof fn law_kernel_sections(
    l: KernelLayout,
    s: SpaceModel,
    m: MemoryModel,
    m2: MemoryModel,
)
    requires
        layout_ok(l),
        l.stext < l.etext,
        l.srodata < l.erodata,
        l.sdata < l.edata,
        built(kernel_plan(l), s, m, m2, l.strampoline),
    ensures
        s.table.contains_key(mid_page(l.stext, l.etext)),
        s.table.contains_key(mid_page(l.srodata, l.erodata)),
        s.table.contains_key(mid_page(l.sdata, l.edata)),
        s.table[mid_page(l.stext, l.etext)].flags & W == 0,
        s.table[mid_page(l.srodata, l.erodata)].flags & W == 0,
        s.table[mid_page(l.sdata, l.edata)].flags & X == 0,
{
    reveal(built);
    let plan = kernel_plan(l);
    let t = mid_page(l.stext, l.etext);
    let r = mid_page(l.srodata, l.erodata);
    let d = mid_page(l.sdata, l.edata);
    assert(plan[0].area.covers(t as int));
    assert(plan[1].area.covers(r as int));
    assert(plan[2].area.covers(d as int));
    assert(planned_areas(plan)[0].covers(t as int));
    assert(planned_areas(plan)[1].covers(r as int));
    assert(planned_areas(plan)[2].covers(d as int));
    assert(planned_page(plan[0], s, m, m2, t));
    assert(planned_page(plan[1], s, m, m2, r));
    assert(planned_page(plan[2], s, m, m2, d));
    assert(((2u8 | 8u8) | 1u8) & 4u8 == 0 && (2u8 | 1u8) & 4u8 == 0 && ((2u8 | 4u8) | 1u8) & 8u8
        == 0) by (bit_vector);
}

} // verus!
