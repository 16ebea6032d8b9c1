//! Loading programs.
use super::address::{low, page_start, sign_extended, VirtAddr, VirtPageNum, PA_SPACE, VA_SPACE};
use super::elf::{
    elf_header, elf_program_header, has_elf_ident, has_ph, header_complete, header_of, ph_complete,
    segment_of, ElfHeader, Segment, SegmentKind,
};
use super::frame_allocator::{FrameMemory, MemoryModel};
use super::map_area::{fresh_area, AreaModel, MapArea, MapPermission, MapType, R, U, W, X};
use super::memory_set::{ceil_of, floor_of, MemorySet};
use super::page_table::{PTE_R, PTE_U, PTE_V, PTE_W, PTE_X};
use super::plan::{
    built, lemma_built_step, lemma_built_table, lemma_can_add, lemma_plan_ok, plan_frames, plan_ok,
    planned_areas, planned_page, start_space, AreaPlan,
};
use super::space::{covered, trampoline_page, SpaceModel};
use crate::config::{PAGE_SIZE, TRAMPOLINE, TRAP_CONTEXT_BASE, USER_STACK_SIZE};
use vstd::prelude::*;

verus! {

/// The permissions of a segment: user mode, and those that its flags name.
pub open spec fn segment_perm(sg: Segment) -> u8 {
    let p0 = U;
    let p1 = if sg.is_read {
        p0 | R
    } else {
        p0
    };
    let p2 = if sg.is_write {
        p1 | W
    } else {
        p1
    };
    if sg.is_execute {
        p2 | X
    } else {
        p2
    }
}

/// An address as a virtual address.
pub open spec fn va(v: int) -> VirtAddr {
    VirtAddr(low(v as usize, VA_SPACE))
}

/// A framed area of the pages that hold the addresses from `start` up to `end`.
pub open spec fn framed(start: int, end: int, perm: u8) -> AreaPlan {
    AreaPlan {
        area: fresh_area(floor_of(va(start)), ceil_of(va(end)), MapType::Framed, perm),
        data: Seq::empty(),
    }
}

/// The area of a segment, with the piece of the file that it starts with.
pub open spec fn segment_plan(b: Seq<u8>, sg: Segment) -> AreaPlan {
    AreaPlan {
        data: b.subrange(sg.offset as int, sg.offset + sg.file_size),
        ..framed(
            sg.virtual_addr as int,
            sg.virtual_addr + sg.mem_size,
            segment_perm(sg),
        )
    }
}

/// The areas of the segments to be loaded among the first `n`.
pub open spec fn loads(b: Seq<u8>, n: int) -> Seq<AreaPlan>
    decreases n,
{
    if n <= 0 {
        Seq::empty()
    } else if segment_of(b, n - 1).kind == SegmentKind::Load {
        loads(b, n - 1).push(segment_plan(b, segment_of(b, n - 1)))
    } else {
        loads(b, n - 1)
    }
}

/// The page behind the last segment to be loaded.
pub open spec fn end_page(b: Seq<u8>, n: int) -> int {
    let l = loads(b, n);
    if l.len() == 0 {
        0
    } else {
        l.last().area.r
    }
}

/// Where the user stack starts: a guard page behind the last segment.
pub open spec fn user_stack_bottom(b: Seq<u8>) -> int {
    sign_extended(page_start(end_page(b, header_of(b).ph_count as int) as usize) as int) + PAGE_SIZE
}

/// Where the user stack ends and the heap starts.
pub open spec fn user_stack_top(b: Seq<u8>) -> int {
    user_stack_bottom(b) + USER_STACK_SIZE
}

/// The address space of a program: its segments, the user stack, the heap, which is empty
/// at first, and the page of the trap context.
pub open spec fn program_plan(b: Seq<u8>) -> Seq<AreaPlan> {
    loads(b, header_of(b).ph_count as int) + seq![
        framed(user_stack_bottom(b), user_stack_top(b), R | W | U),
        framed(user_stack_top(b), user_stack_top(b), R | W | U),
        framed(TRAP_CONTEXT_BASE as int, TRAMPOLINE as int, R | W),
    ]
}

/// The segment `i` can be loaded: its addresses can be rounded to pages, and its piece of the
/// file exists. If it has no page, the one at its start is mapped already.
pub open spec fn segment_ok(b: Seq<u8>, i: int) -> bool {
    let sg = segment_of(b, i);
    let l = floor_of(va(sg.virtual_addr as int));
    let r = ceil_of(va(sg.virtual_addr + sg.mem_size));
    &&& sg.virtual_addr + sg.mem_size <= usize::MAX
    &&& l <= r
    &&& l == r ==> l == trampoline_page() || covered(planned_areas(loads(b, i)), l)
    &&& sg.offset + sg.file_size <= b.len()
}

/// A file is a program that can be loaded.
pub open spec fn loadable(b: Seq<u8>) -> bool {
    &&& has_elf_ident(b)
    &&& header_complete(b)
    &&& forall|i: int|
        0 <= i < header_of(b).ph_count ==> {
            let sg = #[trigger] segment_of(b, i);
            &&& has_ph(b, i)
            &&& ph_complete(b, i)
            &&& sg.kind != SegmentKind::Invalid
            &&& sg.kind == SegmentKind::Load ==> segment_ok(b, i)
        }
    &&& user_stack_top(b) <= usize::MAX
    &&& plan_ok(program_plan(b))
}

/// The areas of the first segments are the first of all of them.
proof fn lemma_loads(b: Seq<u8>, i: int, n: int)
    requires
        0 <= i <= n,
    ensures
        loads(b, i).len() <= loads(b, n).len(),
        loads(b, i) == loads(b, n).take(loads(b, i).len() as int),
        i < n && segment_of(b, i).kind == SegmentKind::Load ==> loads(b, i).len() < loads(
            b,
            n,
        ).len() && loads(b, n)[loads(b, i).len() as int] == segment_plan(b, segment_of(b, i)),
    decreases n - i,
{
    if i == n {
        assert(loads(b, n).take(loads(b, n).len() as int) =~= loads(b, n));
    } else {
        lemma_loads(b, i + 1, n);
        let a = loads(b, i);
        let c = loads(b, i + 1);
        let all = loads(b, n);
        assert(a =~= all.take(a.len() as int)) by {
            assert(c =~= all.take(c.len() as int));
            assert forall|j: int| 0 <= j < a.len() implies a[j] == all[j] by {
                assert(a[j] == c[j]);
                assert(c[j] == all.take(c.len() as int)[j]);
            }
        }
        if segment_of(b, i).kind == SegmentKind::Load {
            assert(c[a.len() as int] == all.take(c.len() as int)[a.len() as int]);
        }
    }
}

/// The page of the trap context is the one before the trampoline.
proof fn lemma_trap_context()
    ensures
        va(TRAMPOLINE as int).0 >= 1,
        va(TRAMPOLINE as int).0 - 1 + PAGE_SIZE <= usize::MAX,
        floor_of(va(TRAP_CONTEXT_BASE as int)) <= ceil_of(va(TRAMPOLINE as int)),
{
    if usize::MAX == 0xffff_ffff {
        assert(low(TRAMPOLINE, VA_SPACE) == 0xffff_f000usize);
        assert(low(TRAP_CONTEXT_BASE, VA_SPACE) == 0xffff_e000usize);
    } else {
        assert(low(TRAMPOLINE, VA_SPACE) == 0x7f_ffff_f000);
        assert(low(TRAP_CONTEXT_BASE, VA_SPACE) == 0x7f_ffff_e000);
    }
}

impl MemorySet {
    /// Include sections in elf and trampoline and TrapContext and user stack,
    /// also returns user_sp_base and entry point.
    pub fn from_elf(elf_data: &[u8], strampoline: usize, mem: &mut FrameMemory) -> (r: (
        Self,
        usize,
        usize,
    ))
        requires
            old(mem)@.wf(),
            low(strampoline, PA_SPACE) % PAGE_SIZE == 0,
            loadable(elf_data@),
            plan_frames(program_plan(elf_data@)) < old(mem)@.frames.free_count(),
        ensures
            built(program_plan(elf_data@), r.0@, old(mem)@, final(mem)@, strampoline),
            r.1 == user_stack_top(elf_data@),
            r.2 == header_of(elf_data@).entry_point as usize,
    {
        let ghost b = elf_data@;
        let ghost plan = program_plan(b);
        let ghost m = mem@;
        let ghost t = strampoline;
        // map program headers of elf, with U flag
        let header: ElfHeader = elf_header(elf_data).unwrap();
        let ph_count: u16 = header.ph_count;
        let len: usize = elf_data.len();
        let ghost n = ph_count as int;
        proof {
            lemma_plan_ok(plan);
        }
        // map trampoline
        let mut memory_set: MemorySet = start_space(strampoline, mem);
        let mut max_end_vpn: VirtPageNum = VirtPageNum(0);
        let mut i: u16 = 0;
        assert(plan.take(0) =~= Seq::<AreaPlan>::empty());
        while i < ph_count
            invariant
                i <= ph_count,
                n == ph_count,
                n == header_of(b).ph_count,
                b == elf_data@,
                len == b.len(),
                plan == program_plan(b),
                loadable(b),
                plan_ok(plan),
                plan_frames(plan) < m.frames.free_count(),
                loads(b, i as int).len() <= loads(b, n).len(),
                built(
                    plan.take(loads(b, i as int).len() as int),
                    memory_set@,
                    m,
                    mem@,
                    t,
                ),
                max_end_vpn.0 == end_page(b, i as int),
            decreases ph_count - i,
        {
            let ghost c = loads(b, i as int).len() as int;
            let ghost s1 = memory_set@;
            let ghost m1 = mem@;
            proof {
                let sg = segment_of(b, i as int);
                assert(has_ph(b, i as int) && ph_complete(b, i as int));
                lemma_loads(b, i as int, n);
                lemma_loads(b, i + 1, n);
            }
            let ph: Segment = elf_program_header(elf_data, i).unwrap();
            assert(ph == segment_of(b, i as int));
            if ph.kind == SegmentKind::Load {
                assert(segment_ok(b, i as int));
                let start_va: VirtAddr = VirtAddr::from(ph.virtual_addr as usize);
                let end_va: VirtAddr = VirtAddr::from((ph.virtual_addr + ph.mem_size) as usize);
                let mut map_perm: u8 = U;
                if ph.is_read {
                    map_perm = map_perm | R;
                }
                if ph.is_write {
                    map_perm = map_perm | W;
                }
                if ph.is_execute {
                    map_perm = map_perm | X;
                }
                proof {
                    assert(map_perm == segment_perm(ph));
                    assert(plan[c] == segment_plan(b, ph));
                    lemma_can_add(plan, c, s1, m, m1, t);
                    assert(plan.take(c) =~= loads(b, i as int));
                    lemma_built_table(loads(b, i as int), s1, m, m1, t);
                }
                let map_area: MapArea = MapArea::new(
                    start_va,
                    end_va,
                    MapType::Framed,
                    MapPermission { bits: map_perm },
                );
                max_end_vpn = map_area.vpn_range.get_end();
                let data: &[u8] = vstd::slice::slice_subrange(
                    elf_data,
                    ph.offset as usize,
                    (ph.offset + ph.file_size) as usize,
                );
                assert(map_area@ == plan[c].area);
                memory_set.push(map_area, Some(data), mem);
                proof {
                    lemma_built_step(plan, c, s1, memory_set@, m, m1, mem@, t);
                }
            }
            i += 1;
        }
        // map user stack with U flags
        let ghost c = loads(b, n).len() as int;
        let max_end_va: VirtAddr = VirtAddr::from(max_end_vpn);
        let mut user_stack_bottom: usize = usize::from(max_end_va);
        proof {
            lemma_sign_extended(max_end_va.0);
        }
        // guard page
        user_stack_bottom += PAGE_SIZE;
        let user_stack_top: usize = user_stack_bottom + USER_STACK_SIZE;
        let ghost s1 = memory_set@;
        let ghost m1 = mem@;
        proof {
            assert(plan[c] == framed(user_stack_bottom as int, user_stack_top as int, R | W | U));
            assert(plan[c + 1] == framed(user_stack_top as int, user_stack_top as int, R | W | U));
            assert(plan[c + 2] == framed(TRAP_CONTEXT_BASE as int, TRAMPOLINE as int, R | W));
            lemma_can_add(plan, c, s1, m, m1, t);
        }
        memory_set.push(
            MapArea::new(
                VirtAddr::from(user_stack_bottom),
                VirtAddr::from(user_stack_top),
                MapType::Framed,
                MapPermission { bits: R | W | U },
            ),
            None,
            mem,
        );
        let ghost s2 = memory_set@;
        let ghost m2 = mem@;
        proof {
            lemma_built_step(plan, c, s1, s2, m, m1, m2, t);
            lemma_can_add(plan, c + 1, s2, m, m2, t);
        }
        // used in sbrk
        memory_set.push(
            MapArea::new(
                VirtAddr::from(user_stack_top),
                VirtAddr::from(user_stack_top),
                MapType::Framed,
                MapPermission { bits: R | W | U },
            ),
            None,
            mem,
        );
        let ghost s3 = memory_set@;
        let ghost m3 = mem@;
        proof {
            lemma_built_step(plan, c + 1, s2, s3, m, m2, m3, t);
            lemma_can_add(plan, c + 2, s3, m, m3, t);
            lemma_trap_context();
        }
        // map TrapContext
        memory_set.push(
            MapArea::new(
                VirtAddr::from(TRAP_CONTEXT_BASE),
                VirtAddr::from(TRAMPOLINE),
                MapType::Framed,
                MapPermission { bits: R | W },
            ),
            None,
            mem,
        );
        proof {
            lemma_built_step(plan, c + 2, s3, memory_set@, m, m3, mem@, t);
            assert(plan.take(c + 3) =~= plan);
        }
        (memory_set, user_stack_top, header.entry_point as usize)
    }
}

/// The machine can hold a virtual address in its full width.
proof fn lemma_sign_extended(v: usize)
    ensures
        0 <= sign_extended(v as int) <= usize::MAX,
{
}

/// What the flags of an entry allow, by the permissions that it was made with.
proof fn lemma_flags(sg: Segment)
    ensures
        ({
            let f = segment_perm(sg) | PTE_V;
            &&& f & PTE_V != 0
            &&& f & PTE_U != 0
            &&& f & PTE_R != 0 <==> sg.is_read
            &&& f & PTE_W != 0 <==> sg.is_write
            &&& f & PTE_X != 0 <==> sg.is_execute
        }),
{
    let r: u8 = if sg.is_read {
        2
    } else {
        0
    };
    let w: u8 = if sg.is_write {
        4
    } else {
        0
    };
    let x: u8 = if sg.is_execute {
        8
    } else {
        0
    };
    assert(forall|a: u8| #[trigger] (a | 0u8) == a) by (bit_vector);
    assert(segment_perm(sg) == ((16u8 | r) | w) | x);
    let f = (((16u8 | r) | w) | x) | 1u8;
    assert(f & 1 != 0 && f & 16 != 0 && (f & 2 != 0 <==> r != 0) && (f & 4 != 0 <==> w != 0) && (f
        & 8 != 0 <==> x != 0)) by (bit_vector)
        requires
            f == (((16u8 | r) | w) | x) | 1u8,
            r == 0 || r == 2,
            w == 0 || w == 4,
            x == 0 || x == 8,
    ;
}

/// Loading a segment: each of its pages is mapped, for user mode, and can be read exactly if
/// the segment can, written exactly if it can, and executed exactly if it can. The pages lie
/// in frames that were not in use, and hold the bytes of its piece of the file, one behind the
/// other from the first page on, and zero bytes behind them.
#[verifier::spinoff_prover]
#[verifier::rlimit(60)]
pub proof fn law_segment_loaded(
    b: Seq<u8>,
    s: SpaceModel,
    m: MemoryModel,
    m2: MemoryModel,
    strampoline: usize,
    i: int,
    k: usize,
)
    requires
        loadable(b),
        built(program_plan(b), s, m, m2, strampoline),
        0 <= i < header_of(b).ph_count,
        segment_of(b, i).kind == SegmentKind::Load,
        ({
            let sg = segment_of(b, i);
            let l = sg.virtual_addr as int % VA_SPACE as int / 4096;
            let r = ((sg.virtual_addr + sg.mem_size) % VA_SPACE as int + 4095) / 4096;
            l <= k < r
        }),
    ensures
        ({
            let sg = segment_of(b, i);
            let l = sg.virtual_addr as int % VA_SPACE as int / 4096;
            let e = s.table[k];
            let p = e.ppn.0 as int;
            &&& s.table.contains_key(k)
            &&& e.flags & PTE_V != 0
            &&& e.flags & PTE_U != 0
            &&& e.flags & PTE_R != 0 <==> sg.is_read
            &&& e.flags & PTE_W != 0 <==> sg.is_write
            &&& e.flags & PTE_X != 0 <==> sg.is_execute
            &&& m2.in_use(p) && !m.in_use(p)
            &&& forall|j: int|
                0 <= j < 4096 ==> #[trigger] m2.page(p)[j] == if 4096 * (k - l) + j < sg.file_size {
                    b[sg.offset + 4096 * (k - l) + j]
                } else {
                    0u8
                }
        }),
{
    let n = header_of(b).ph_count as int;
    let plan = program_plan(b);
    let sg = segment_of(b, i);
    lemma_loads(b, i, n);
    let c = loads(b, i).len() as int;
    assert(segment_ok(b, i));
    assert(plan[c] == segment_plan(b, sg));
    let a = plan[c].area;
    assert(a.covers(k as int));
    lemma_flags(sg);
    assert(planned_areas(plan)[c] == a);
    assert(s.table.contains_key(k) && planned_page(plan[c], s, m, m2, k)) by {
        reveal(built);
        assert(covered(planned_areas(plan), k as int));
    }
}

/// Where the stack of a program lies: behind the last of its segments, if that ends in the
/// lower half of the addresses, there is a page that the stack does not use, and then its two
/// pages.
#[verifier::spinoff_prover]
#[verifier::rlimit(60)]
pub proof fn law_stack_place(b: Seq<u8>, i: int)
    requires
        loadable(b),
        0 <= i < header_of(b).ph_count,
        segment_of(b, i).kind == SegmentKind::Load,
        forall|j: int|
            i < j < header_of(b).ph_count ==> (#[trigger] segment_of(b, j)).kind
                != SegmentKind::Load,
        segment_of(b, i).virtual_addr + segment_of(b, i).mem_size < VA_SPACE / 2 - 4096,
        segment_of(b, i).virtual_addr + segment_of(b, i).mem_size + 4096 <= usize::MAX,
    ensures
        ({
            let sg = segment_of(b, i);
            let r = (sg.virtual_addr + sg.mem_size + 4095) / 4096;
            user_stack_top(b) == 4096 * r + 4096 + 8192
        }),
{
    let n = header_of(b).ph_count as int;
    let sg = segment_of(b, i);
    let end = sg.virtual_addr + sg.mem_size;
    lemma_last_load(b, i, n);
    assert(segment_ok(b, i));
    let e = end_page(b, n);
    assert(e == (end + 4095) / 4096);
    let x = e as usize;
    assert(x << 12usize == x * 4096) by (bit_vector)
        requires
            x <= 0x400_0000,
            x <= 0xf_ffff || usize::BITS == 64,
    ;
}

/// The last segment that is loaded is the last of the areas.
proof fn lemma_last_load(b: Seq<u8>, i: int, n: int)
    requires
        0 <= i < n,
        segment_of(b, i).kind == SegmentKind::Load,
        forall|j: int|
            i < j < n ==> (#[trigger] segment_of(b, j)).kind != SegmentKind::Load,
    ensures
        loads(b, n).len() > 0,
        loads(b, n).last() == segment_plan(b, segment_of(b, i)),
    decreases n,
{
    if n - 1 > i {
        assert(segment_of(b, n - 1).kind != SegmentKind::Load);
        lemma_last_load(b, i, n - 1);
    }
}

/// The pages of a program besides its segments: those of the stack, from the guard page behind
/// the segments up to the top, can be read and written in user mode and not executed, and hold
/// zero bytes; the one of the trap context can be read and written by the kernel alone; and the
/// trampoline can be read and executed by the kernel alone, and lies where it lies in memory.
#[verifier::spinoff_prover]
#[verifier::rlimit(60)]
pub proof fn law_program_pages(
    b: Seq<u8>,
    s: SpaceModel,
    m: MemoryModel,
    m2: MemoryModel,
    strampoline: usize,
    k: usize,
)
    requires
        loadable(b),
        built(program_plan(b), s, m, m2, strampoline),
    ensures
        ({
            let top = user_stack_top(b);
            let l = (top - 8192) % VA_SPACE as int / 4096;
            let r = (top % VA_SPACE as int + 4095) / 4096;
            let e = s.table[k];
            let p = e.ppn.0 as int;
            l <= k < r ==> {
                &&& s.table.contains_key(k)
                &&& e.flags & PTE_V != 0 && e.flags & PTE_U != 0
                &&& e.flags & PTE_R != 0 && e.flags & PTE_W != 0 && e.flags & PTE_X == 0
                &&& m2.in_use(p) && !m.in_use(p)
                &&& forall|j: int| 0 <= j < 4096 ==> #[trigger] m2.page(p)[j] == 0
            }
        }),
        ({
            let e = s.table[k];
            k == low(TRAP_CONTEXT_BASE, VA_SPACE) / 4096 ==> {
                &&& s.table.contains_key(k)
                &&& e.flags & PTE_V != 0 && e.flags & PTE_U == 0
                &&& e.flags & PTE_R != 0 && e.flags & PTE_W != 0 && e.flags & PTE_X == 0
                &&& m2.in_use(e.ppn.0 as int) && !m.in_use(e.ppn.0 as int)
            }
        }),
        ({
            let e = s.table[k];
            k == low(TRAMPOLINE, VA_SPACE) / 4096 ==> {
                &&& s.table.contains_key(k)
                &&& e.flags & PTE_V != 0 && e.flags & PTE_U == 0
                &&& e.flags & PTE_R != 0 && e.flags & PTE_W == 0 && e.flags & PTE_X != 0
                &&& e.ppn.0 == low(strampoline, PA_SPACE) / 4096
            }
        }),
{
    let plan = program_plan(b);
    let c = loads(b, header_of(b).ph_count as int).len() as int;
    let top = user_stack_top(b);
    assert(plan[c] == framed(user_stack_bottom(b), top, R | W | U));
    assert(plan[c + 2] == framed(TRAP_CONTEXT_BASE as int, TRAMPOLINE as int, R | W));
    lemma_trap_context();
    assert({
        let f = ((2u8 | 4) | 16) | 1;
        let g = (2u8 | 4) | 1;
        let h = (2u8 | 8) | 1;
        &&& f & 1 != 0 && f & 2 != 0 && f & 4 != 0 && f & 8 == 0 && f & 16 != 0
        &&& g & 1 != 0 && g & 2 != 0 && g & 4 != 0 && g & 8 == 0 && g & 16 == 0
        &&& h & 1 != 0 && h & 2 != 0 && h & 4 == 0 && h & 8 != 0 && h & 16 == 0
    }) by (bit_vector);
    reveal(built);
    assert(planned_areas(plan)[c] == plan[c].area);
    assert(planned_areas(plan)[c + 2] == plan[c + 2].area);
    if plan[c].area.covers(k as int) {
        assert(covered(planned_areas(plan), k as int));
        assert(planned_page(plan[c], s, m, m2, k));
    }
    if plan[c + 2].area.covers(k as int) {
        assert(covered(planned_areas(plan), k as int));
        assert(planned_page(plan[c + 2], s, m, m2, k));
    }
    if usize::MAX == 0xffff_ffff {
        assert(low(TRAMPOLINE, VA_SPACE) == 0xffff_f000usize);
        assert(low(TRAP_CONTEXT_BASE, VA_SPACE) == 0xffff_e000usize);
    } else {
        assert(low(TRAMPOLINE, VA_SPACE) == 0x7f_ffff_f000);
        assert(low(TRAP_CONTEXT_BASE, VA_SPACE) == 0x7f_ffff_e000);
    }
}

/// No other page of a program is mapped: each is the trampoline, the page of the trap context,
/// one of the stack, or one of a segment that is loaded.
#[verifier::spinoff_prover]
#[verifier::rlimit(60)]
pub proof fn law_no_other_pages(
    b: Seq<u8>,
    s: SpaceModel,
    m: MemoryModel,
    m2: MemoryModel,
    strampoline: usize,
    k: usize,
)
    requires
        loadable(b),
        built(program_plan(b), s, m, m2, strampoline),
        s.table.contains_key(k),
        k != low(TRAMPOLINE, VA_SPACE) / 4096,
        k != low(TRAP_CONTEXT_BASE, VA_SPACE) / 4096,
        !((user_stack_top(b) - 8192) % VA_SPACE as int / 4096 <= k < (user_stack_top(b)
            % VA_SPACE as int + 4095) / 4096),
    ensures
        exists|i: int|
            0 <= i < header_of(b).ph_count && {
                let sg = #[trigger] segment_of(b, i);
                &&& sg.kind == SegmentKind::Load
                &&& sg.virtual_addr as int % VA_SPACE as int / 4096 <= k < ((sg.virtual_addr
                    + sg.mem_size) % VA_SPACE as int + 4095) / 4096
            },
{
    let plan = program_plan(b);
    let n = header_of(b).ph_count as int;
    let l = loads(b, n);
    let c = l.len() as int;
    lemma_built_table(plan, s, m, m2, strampoline);
    let pa = planned_areas(plan);
    assert(covered(pa, k as int));
    let x = choose|x: int| 0 <= x < pa.len() && (#[trigger] pa[x]).covers(k as int);
    assert(pa[x] == plan[x].area);
    lemma_fixed_areas(b);
    assert(x < c);
    assert(plan[x] == l[x]);
    lemma_load_of(b, n, x);
    let i = choose|i: int|
        0 <= i < n && segment_of(b, i).kind == SegmentKind::Load && l[x] == #[trigger] segment_plan(
            b,
            segment_of(b, i),
        );
    assert(segment_ok(b, i));
}

/// The areas of a program behind its segments: the stack, the heap, which is empty, and the
/// page of the trap context.
#[verifier::spinoff_prover]
#[verifier::rlimit(60)]
proof fn lemma_fixed_areas(b: Seq<u8>)
    requires
        loadable(b),
    ensures
        ({
            let plan = program_plan(b);
            let c = loads(b, header_of(b).ph_count as int).len() as int;
            let top = user_stack_top(b);
            &&& plan.len() == c + 3
            &&& plan[c].area.l == (top - 8192) % VA_SPACE as int / 4096
            &&& plan[c].area.r == (top % VA_SPACE as int + 4095) / 4096
            &&& plan[c + 1].area.l == plan[c + 1].area.r
            &&& plan[c + 2].area.l == low(TRAP_CONTEXT_BASE, VA_SPACE) as int / 4096
            &&& plan[c + 2].area.r == plan[c + 2].area.l + 1
        }),
{
    let plan = program_plan(b);
    let n = header_of(b).ph_count as int;
    let c = loads(b, n).len() as int;
    let top = user_stack_top(b);
    assert(plan[c] == framed(user_stack_bottom(b), top, R | W | U));
    assert(plan[c + 1] == framed(top, top, R | W | U));
    assert(plan[c + 2] == framed(TRAP_CONTEXT_BASE as int, TRAMPOLINE as int, R | W));
    let e = end_page(b, n) as usize;
    assert(top % 4096 == 0) by {
        lemma_page_start(e);
    }
    assert(0 <= top - 8192) by {
        lemma_sign_extended(page_start(e));
    }
    lemma_areas_at(top);
    lemma_trap_pages();
}

/// A page starts at a multiple of its size, in the full width of an address too.
proof fn lemma_page_start(e: usize)
    ensures
        sign_extended(page_start(e) as int) % 4096 == 0,
{
    let v = page_start(e) as int;
    assert((e << 12usize) % 0x1000 == 0) by (bit_vector);
    let q = v / VA_SPACE as int;
    let r = v % VA_SPACE as int;
    assert(v == q * 0x80_0000_0000 + r);
    assert(r % 4096 == 0);
}

/// The pages of a stack that ends at the start of a page, and of a heap that starts there.
proof fn lemma_areas_at(top: int)
    requires
        top % 4096 == 0,
        0 <= top - 8192,
        top <= usize::MAX,
    ensures
        floor_of(va(top - 8192)) == (top - 8192) % VA_SPACE as int / 4096,
        ceil_of(va(top)) == (top % VA_SPACE as int + 4095) / 4096,
        floor_of(va(top)) == ceil_of(va(top)),
{
    let q = top / VA_SPACE as int;
    let r = top % VA_SPACE as int;
    assert(top == q * 0x80_0000_0000 + r);
    assert(r % 4096 == 0);
}

/// The page of the trap context, and the one behind it.
#[verifier::spinoff_prover]
#[verifier::rlimit(60)]
proof fn lemma_trap_pages()
    ensures
        floor_of(va(TRAP_CONTEXT_BASE as int)) == low(TRAP_CONTEXT_BASE, VA_SPACE) as int / 4096,
        ceil_of(va(TRAMPOLINE as int)) == low(TRAP_CONTEXT_BASE, VA_SPACE) as int / 4096 + 1,
{
    if usize::MAX == 0xffff_ffff {
        assert(low(TRAMPOLINE, VA_SPACE) == 0xffff_f000usize);
        assert(low(TRAP_CONTEXT_BASE, VA_SPACE) == 0xffff_e000usize);
    } else {
        assert(low(TRAMPOLINE, VA_SPACE) == 0x7f_ffff_f000);
        assert(low(TRAP_CONTEXT_BASE, VA_SPACE) == 0x7f_ffff_e000);
    }
}

/// Every area of the segments is that of one of them.
proof fn lemma_load_of(b: Seq<u8>, n: int, x: int)
    requires
        0 <= x < loads(b, n).len(),
    ensures
        exists|i: int|
            0 <= i < n && segment_of(b, i).kind == SegmentKind::Load && loads(b, n)[x]
                == #[trigger] segment_plan(b, segment_of(b, i)),
    decreases n,
{
    if n > 0 {
        if segment_of(b, n - 1).kind == SegmentKind::Load && x == loads(b, n).len() - 1 {
            assert(loads(b, n)[x] == segment_plan(b, segment_of(b, n - 1)));
        } else {
            lemma_load_of(b, n - 1, x);
            let i = choose|i: int|
                0 <= i < n - 1 && segment_of(b, i).kind == SegmentKind::Load && loads(b, n - 1)[x]
                    == #[trigger] segment_plan(b, segment_of(b, i));
            assert(loads(b, n)[x] == segment_plan(b, segment_of(b, i)));
        }
    }
}

/// The heap of a program that was loaded starts where its stack ends and has no page yet. Its
/// pages are to be readable and writable in user mode, but not executable.
#[verifier::spinoff_prover]
#[verifier::rlimit(60)]
pub proof fn law_heap_area(
    b: Seq<u8>,
    s: SpaceModel,
    m: MemoryModel,
    m2: MemoryModel,
    strampoline: usize,
)
    requires
        loadable(b),
        built(program_plan(b), s, m, m2, strampoline),
    ensures
        s.areas.len() >= 3,
        ({
            let a = s.areas[s.areas.len() - 2];
            let top = user_stack_top(b) % VA_SPACE as int;
            &&& a.l == top / 4096
            &&& a.r == (top + 4095) / 4096
            &&& a.map_type == MapType::Framed
            &&& a.perm & PTE_U != 0
            &&& a.perm & PTE_R != 0
            &&& a.perm & PTE_W != 0
            &&& a.perm & PTE_X == 0
        }),
{
    let plan = program_plan(b);
    let c = loads(b, header_of(b).ph_count as int).len() as int;
    let top = user_stack_top(b);
    reveal(built);
    assert(plan.len() == c + 3);
    assert(plan[c + 1] == framed(top, top, R | W | U));
    assert(s.areas[c + 1] == (AreaModel { frames: s.areas[c + 1].frames, ..plan[c + 1].area }));
    assert({
        let f = (2u8 | 4) | 16;
        f & 2 != 0 && f & 4 != 0 && f & 8 == 0 && f & 16 != 0
    }) by (bit_vector);
}

} // verus!
