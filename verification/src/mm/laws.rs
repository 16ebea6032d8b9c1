//! What holds of memory and address spaces over several operations.
use super::address::{low, VirtAddr, PA_SPACE};
use super::frame_allocator::MemoryModel;
use super::map_area::{AreaModel, MapType};
use super::memory_set::{area_added, ceil_of, copied, floor_of, range_unmapped};
use super::page_table::{token_of, PTE_R, PTE_U, PTE_V, PTE_W, PTE_X};
use super::plan::{
    built, kernel_plan, layout_ok, planned_areas, planned_page, AreaPlan, KernelLayout,
};
use super::space::{covered, trampoline_page, SpaceModel};
use super::user::{latin, user_bytes};
use crate::config::MEMORY_END;
use vstd::prelude::*;

verus! {

/// A frame that is allocated was not in use and is in use then, and its bytes are zero. No
/// other frame comes into use or goes out of it, and none changes its bytes.
pub proof fn law_frame_allocated(m: MemoryModel, p: int)
    requires
        m.wf(),
        m.frames.free_count() > 0,
    ensures
        ({
            let m2 = m.with_alloc();
            let q = m.frames.next();
            &&& !m.in_use(q) && m2.in_use(q)
            &&& m2.page(q).len() == 4096
            &&& forall|j: int| 0 <= j < 4096 ==> #[trigger] m2.page(q)[j] == 0
            &&& p != q ==> (m2.in_use(p) <==> m.in_use(p))
            &&& p != q && m.in_use(p) ==> m2.page(p) == m.page(p)
            &&& m2.frames.free_count() == m.frames.free_count() - 1
        }),
{
    super::frame_allocator::lemma_with_alloc(m);
}

/// A page that was added to an address space is mapped with the permissions of its area, in a
/// frame that was not in use, and holds its piece of the data and zero bytes behind it. All
/// other pages are mapped as they were.
#[verifier::spinoff_prover]
#[verifier::rlimit(60)]
pub proof fn law_area_added(
    s: SpaceModel,
    s2: SpaceModel,
    m: MemoryModel,
    m2: MemoryModel,
    a: AreaModel,
    data: Seq<u8>,
    k: usize,
)
    requires
        area_added(s, s2, m, m2, a, data),
        a.map_type == MapType::Framed,
    ensures
        ({
            let e = s2.table[k];
            let p = e.ppn.0 as int;
            &&& a.l <= k < a.r ==> {
                &&& s2.table.contains_key(k)
                &&& e.flags == a.perm | PTE_V
                &&& !m.in_use(p)
                &&& forall|j: int|
                    0 <= j < 4096 ==> #[trigger] m2.page(p)[j] == if 4096 * (k - a.l) + j
                        < data.len() {
                        data[4096 * (k - a.l) + j]
                    } else {
                        0u8
                    }
            }
            &&& !(a.l <= k < a.r) ==> (s2.table.contains_key(k) <==> s.table.contains_key(k))
            &&& !(a.l <= k < a.r) && s.table.contains_key(k) ==> e == s.table[k]
        }),
{
    if a.l <= k < a.r {
        let a2 = s2.areas.last();
        assert(a.covers(k as int));
        assert(s2.table.contains_key(k));
        assert(s2.table[k] == a2.entry(k));
        assert(s2.table[k].ppn.0 == a2.frames[k].ppn.0);
    }
}

/// After a range of pages was unmapped, none of them is mapped but for the trampoline, and
/// their frames are free; every other page is mapped as it was.
#[verifier::spinoff_prover]
#[verifier::rlimit(60)]
pub proof fn law_range_unmapped(
    s: SpaceModel,
    s2: SpaceModel,
    m: MemoryModel,
    m2: MemoryModel,
    a: int,
    b: int,
    k: usize,
)
    requires
        s.wf(m),
        range_unmapped(s, s2, m, m2, s.areas.len() as int, a, b),
    ensures
        a <= k < b && k != trampoline_page() ==> !s2.table.contains_key(k),
        !(a <= k < b) || k == trampoline_page() ==> (s2.table.contains_key(k)
            <==> s.table.contains_key(k)),
        s2.table.contains_key(k) ==> s2.table[k] == s.table[k],
        forall|i: int|
            0 <= i < s.areas.len() && #[trigger] s.areas[i].frames.contains_key(k) && a <= k < b
                ==> !m2.in_use(s.areas[i].frames[k].ppn.0 as int),
        m2.pages == m.pages,
{
    reveal(SpaceModel::wf);
    assert(s.areas.take(s.areas.len() as int) =~= s.areas);
    if k == trampoline_page() {
        assert forall|i: int| 0 <= i < s.areas.len() implies !(#[trigger] s.areas[i]).covers(
            k as int,
        ) by {}
    }
}

/// How the kernel maps itself: every page from the start of its code up to the end of memory
/// that belongs to a section lies where it is mapped. The code can be read and executed, the
/// read-only data only read, and the rest read and written. Nothing of it is for user mode.
#[verifier::spinoff_prover]
#[verifier::rlimit(60)]
pub proof fn law_kernel_mapping(
    l: KernelLayout,
    s: SpaceModel,
    m: MemoryModel,
    m2: MemoryModel,
    i: int,
    k: usize,
)
    requires
        layout_ok(l),
        built(kernel_plan(l), s, m, m2, l.strampoline),
        0 <= i < 5,
        ({
            let start = if i == 0 {
                l.stext
            } else if i == 1 {
                l.srodata
            } else if i == 2 {
                l.sdata
            } else if i == 3 {
                l.sbss_with_stack
            } else {
                l.ekernel
            };
            let end = if i == 0 {
                l.etext
            } else if i == 1 {
                l.erodata
            } else if i == 2 {
                l.edata
            } else if i == 3 {
                l.ebss
            } else {
                MEMORY_END
            };
            start as int / 4096 <= k < (end + 4095) / 4096
        }),
    ensures
        ({
            let e = s.table[k];
            &&& s.table.contains_key(k)
            &&& e.ppn.0 == k
            &&& e.flags & PTE_V != 0
            &&& e.flags & PTE_U == 0
            &&& e.flags & PTE_R != 0
            &&& e.flags & PTE_W != 0 <==> i >= 2
            &&& e.flags & PTE_X != 0 <==> i == 0
        }),
{
    let plan = kernel_plan(l);
    reveal(built);
    assert(plan[i].area.covers(k as int));
    assert(planned_areas(plan)[i].covers(k as int));
    assert(covered(planned_areas(plan), k as int));
    assert(planned_page(plan[i], s, m, m2, k));
    assert({
        let f = (2u8 | 8) | 1;
        let g = 2u8 | 1;
        let h = (2u8 | 4) | 1;
        &&& f & 1 != 0 && f & 2 != 0 && f & 4 == 0 && f & 8 != 0 && f & 16 == 0
        &&& g & 1 != 0 && g & 2 != 0 && g & 4 == 0 && g & 8 == 0 && g & 16 == 0
        &&& h & 1 != 0 && h & 2 != 0 && h & 4 != 0 && h & 8 == 0 && h & 16 == 0
    }) by (bit_vector);
}

/// The characters of a string in the memory of a process are those with the numbers of its
/// bytes, one for one.
pub proof fn law_latin(bytes: Seq<u8>, i: int)
    requires
        0 <= i < bytes.len(),
    ensures
        latin(bytes).len() == bytes.len(),
        latin(bytes)[i] as u32 == bytes[i],
{
}

/// The token of a page table selects Sv39 paging and no address space number, and names the
/// frame of the root.
pub proof fn law_token(root: int)
    requires
        0 <= root < 0x1000_0000_0000,
        usize::BITS == 64,
    ensures
        token_of(root) as int / 0x1000_0000_0000_0000 == 8,
        token_of(root) as int % 0x1000_0000_0000_0000 == root,
{
    let r = root as u64;
    assert((8u64 << 60) | r == 0x8000_0000_0000_0000 + r) by (bit_vector)
        requires
            r < 0x1000_0000_0000u64,
    ;
}

/// Every address space that is built or copied has the trampoline in the same page, in the
/// frame where its code lies. It can be read and executed there, but neither written nor used
/// in user mode.
#[verifier::spinoff_prover]
#[verifier::rlimit(60)]
pub proof fn law_trampoline(
    plan: Seq<AreaPlan>,
    s: SpaceModel,
    c: SpaceModel,
    m: MemoryModel,
    m1: MemoryModel,
    m2: MemoryModel,
    n: int,
    strampoline: usize,
)
    requires
        built(plan, s, m, m1, strampoline),
        copied(s, c, m1, m2, n, strampoline),
    ensures
        ({
            let k = trampoline_page() as usize;
            let e = s.table[k];
            &&& s.table.contains_key(k)
            &&& e.ppn.0 == low(strampoline, PA_SPACE) / 4096
            &&& e.flags & PTE_V != 0
            &&& e.flags & PTE_R != 0
            &&& e.flags & PTE_X != 0
            &&& e.flags & PTE_W == 0
            &&& e.flags & PTE_U == 0
            &&& c.table.contains_key(k)
            &&& c.table[k] == e
        }),
{
    reveal(built);
    let k = trampoline_page() as usize;
    assert(s.table.contains_key(k));
    assert(c.table.contains_key(k));
    assert({
        let f = (2u8 | 8) | 1;
        f & 1 != 0 && f & 2 != 0 && f & 4 == 0 && f & 8 != 0 && f & 16 == 0
    }) by (bit_vector);
}

/// The pages from the floor of one address up to the ceiling of another are those that hold
/// an address between them.
pub proof fn law_pages_between(start: VirtAddr, end: VirtAddr, k: int)
    requires
        start.0 < end.0,
    ensures
        floor_of(start) <= k < ceil_of(end) <==> 4096 * k < end.0 && start.0 < 4096 * (k + 1),
{
}

/// The byte at an address is in the frame that its page is mapped to, at its offset in the
/// page.
pub proof fn law_user_byte(s: SpaceModel, m: MemoryModel, v: int, n: int, i: int)
    requires
        0 <= i < n,
        0 <= v,
        v + i < 0x80_0000_0000,
        v + i <= usize::MAX,
    ensures
        user_bytes(s, m, v, n).len() == n,
        user_bytes(s, m, v, n)[i] == m.page(s.table[((v + i) / 4096) as usize].ppn.0 as int)[(v
            + i) % 4096],
{
}

} // verus!
