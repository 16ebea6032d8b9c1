//! Replacing the program of a process.
use super::id::stack_top;
use super::machine::{Machine, MachineModel};
use super::task::{
    lemma_one_page, lemma_program, lemma_trap_page, trap_page, TaskControlBlock, TaskModel,
};
use crate::config::{KERNEL_STACK_SIZE, PAGE_SIZE, TRAMPOLINE, TRAP_CONTEXT_BASE, USER_STACK_SIZE};
use crate::easy_fs::bytes::{le64, le64_bytes, lemma_le64_of_bytes};
use crate::mm::address::{PhysPageNum, VirtAddr, VA_SPACE};
use crate::mm::elf::header_of;
use crate::mm::frame_allocator::{lemma_with_dealloc, FrameMemory, MemoryModel};
use crate::mm::load::{framed, loadable, loads, program_plan, user_stack_bottom, user_stack_top, va};
use crate::mm::map_area::{R, U, W};
use crate::mm::memory_set::{areas_released, ceil_of, floor_of, MemorySet};
use crate::mm::owner::{
    all_framed, apart, born, changed_only, holds, law_no_alias, lemma_born_apart, lemma_born_trans,
    lemma_changed_trans, lemma_holds, lemma_page_only, lemma_reachable_owned, lemma_released_only,
    lemma_still_wf, lemma_written_only, owns, trampoline_outside,
};
use crate::mm::page_table::token_of;
use crate::mm::plan::{built, lemma_plan_ok, plan_frames, plan_ok, planned_areas, planned_page};
use crate::mm::space::{trampoline_page, SpaceModel};
use crate::mm::user::{
    frame_of, law_user_read_after_write, lemma_bytes_elsewhere, no_alias, page_of, range_reachable,
    reachable, user_byte, user_bytes, with_bytes, write_user, write_user_byte, write_user_word,
};
use crate::trap::context::{initial_context, with_context, TrapContext, TrapModel};
use vstd::prelude::*;
use vstd::utf8::encode_utf8;

verus! {

/// The bytes of the arguments of a program.
pub open spec fn arg_bytes(args: Seq<String>) -> Seq<Seq<u8>> {
    Seq::new(args.len(), |i: int| encode_utf8(args[i]@))
}

/// How many bytes the first `n` arguments take, each with a zero byte behind it.
pub open spec fn args_len(args: Seq<Seq<u8>>, n: int) -> int
    decreases n,
{
    if n <= 0 {
        0
    } else {
        args_len(args, n - 1) + args[n - 1].len() + 1
    }
}

/// How many bytes of the stack the arguments take: a pointer to each of them, a null
/// pointer, and the arguments themselves.
pub open spec fn args_size(args: Seq<Seq<u8>>) -> int {
    8 * (args.len() + 1) + args_len(args, args.len() as int)
}

/// Where the pointers to the arguments start.
pub open spec fn argv_start(top: int, args: Seq<Seq<u8>>) -> int {
    top - 8 * (args.len() + 1)
}

/// Where an argument starts.
pub open spec fn arg_start(base: int, args: Seq<Seq<u8>>, i: int) -> int {
    base - args_len(args, i + 1)
}

/// The memory after the null pointer and the first `n` arguments, each with the pointer to
/// it, were written.
pub open spec fn with_args(
    s: SpaceModel,
    m: MemoryModel,
    base: int,
    args: Seq<Seq<u8>>,
    n: int,
) -> MemoryModel
    decreases n,
{
    if n <= 0 {
        with_bytes(s, m, base + 8 * args.len(), le64_bytes(0))
    } else {
        let a = arg_start(base, args, n - 1);
        let m1 = with_args(s, m, base, args, n - 1);
        let m2 = with_bytes(s, m1, base + 8 * (n - 1), le64_bytes(a as u64));
        with_bytes(s, m2, a, args[n - 1].push(0))
    }
}

/// The number of bytes of the first arguments is at most that of all of them.
proof fn lemma_args_len(args: Seq<Seq<u8>>, i: int, n: int)
    requires
        0 <= i <= n,
    ensures
        0 <= args_len(args, i) <= args_len(args, n),
    decreases n,
{
    if i < n {
        lemma_args_len(args, i, n - 1);
    } else if n > 0 {
        lemma_args_len(args, n - 1, n - 1);
    }
}

/// The addresses of the user stack are mapped when a program was loaded.
proof fn lemma_stack_reachable(
    b: Seq<u8>,
    s: SpaceModel,
    m: MemoryModel,
    m2: MemoryModel,
    t: usize,
    v: int,
)
    requires
        loadable(b),
        built(program_plan(b), s, m, m2, t),
        user_stack_top(b) - USER_STACK_SIZE <= v < user_stack_top(b),
    ensures
        reachable(s, m2, v),
{
    let plan = program_plan(b);
    let n = loads(b, header_of(b).ph_count as int).len() as int;
    let bottom = user_stack_bottom(b);
    let top = user_stack_top(b);
    assert(plan[n] == framed(bottom, top, R | W | U));
    let a = plan[n].area;
    assert(a.l <= a.r) by {
        reveal(plan_ok);
    }
    lemma_low_range(bottom, v);
    let k = page_of(v);
    assert(a.covers(k as int));
    assert(planned_areas(plan)[n].covers(k as int));
    assert(s.table.contains_key(k) && m2.in_use(s.table[k].ppn.0 as int)) by {
        reveal(built);
        assert(plan[n].area.covers(k as int));
        assert(planned_page(plan[n], s, m, m2, k));
    }
}

/// The addresses of a stack do not wrap around, and lie in its pages.
proof fn lemma_low_range(bottom: int, v: int)
    requires
        0 <= bottom <= v < bottom + USER_STACK_SIZE,
        bottom + USER_STACK_SIZE <= usize::MAX,
        floor_of(va(bottom)) <= ceil_of(va(bottom + USER_STACK_SIZE)),
    ensures
        floor_of(va(bottom)) <= page_of(v) < ceil_of(va(bottom + USER_STACK_SIZE)),
{
    let lb = bottom % VA_SPACE as int;
    let lt = (bottom + USER_STACK_SIZE) % VA_SPACE as int;
    let lv = v % VA_SPACE as int;
    assert(lt == lb + USER_STACK_SIZE || lt == lb + USER_STACK_SIZE - VA_SPACE);
    assert(lt == lb + USER_STACK_SIZE);
    assert(lv == lb + (v - bottom));
}

/// Writing arguments onto the stack changes only the address space.
proof fn lemma_with_args(
    s: SpaceModel,
    m: MemoryModel,
    top: int,
    args: Seq<Seq<u8>>,
    n: int,
)
    requires
        m.wf(),
        s.wf(m),
        all_framed(s),
        trampoline_outside(s, m),
        0 <= n <= args.len(),
        forall|v: int| top - args_size(args) <= v < top ==> #[trigger] reachable(s, m, v),
    ensures
        ({
            let m2 = with_args(s, m, argv_start(top, args), args, n);
            &&& m2.wf()
            &&& s.wf(m2)
            &&& m2.frames == m.frames
            &&& m2.start == m.start
            &&& changed_only(s, s, m, m2)
            &&& forall|v: int| top - args_size(args) <= v < top ==> #[trigger] reachable(s, m2, v)
        }),
    decreases n,
{
    let base = argv_start(top, args);
    let len = args.len() as int;
    lemma_args_len(args, 0, len);
    if n == 0 {
        let v = base + 8 * len;
        lemma_le64_of_bytes(0);
        assert(range_reachable(s, m, v, 8));
        lemma_written_only(s, m, v, le64_bytes(0));
        let m2 = with_bytes(s, m, v, le64_bytes(0));
        assert forall|v: int| top - args_size(args) <= v < top implies #[trigger] reachable(
            s,
            m2,
            v,
        ) by {
            assert(reachable(s, m, v));
        }
    } else {
        lemma_with_args(s, m, top, args, n - 1);
        lemma_args_len(args, n, len);
        lemma_args_len(args, n - 1, n);
        let a = arg_start(base, args, n - 1);
        let m1 = with_args(s, m, base, args, n - 1);
        let v = base + 8 * (n - 1);
        lemma_le64_of_bytes(a as u64);
        assert(range_reachable(s, m1, v, 8));
        lemma_written_only(s, m1, v, le64_bytes(a as u64));
        let m2 = with_bytes(s, m1, v, le64_bytes(a as u64));
        assert forall|v: int| top - args_size(args) <= v < top implies #[trigger] reachable(
            s,
            m2,
            v,
        ) by {
            assert(reachable(s, m1, v));
        }
        let data = args[n - 1].push(0);
        assert(range_reachable(s, m2, a, data.len() as int));
        lemma_written_only(s, m2, a, data);
        let m3 = with_bytes(s, m2, a, data);
        assert forall|v: int| top - args_size(args) <= v < top implies #[trigger] reachable(
            s,
            m3,
            v,
        ) by {
            assert(reachable(s, m2, v));
        }
        lemma_changed_trans(s, s, s, m, m1, m2);
        lemma_changed_trans(s, s, s, m, m2, m3);
    }
}

/// Push the arguments of a program on its stack. Return where the pointers to them start,
/// and where the stack ends then.
fn push_args(memory_set: &MemorySet, user_sp: usize, args: &Vec<String>, mem: &mut FrameMemory) -> (r:
    (usize, usize))
    requires
        old(mem)@.wf(),
        memory_set@.wf(old(mem)@),
        all_framed(memory_set@),
        trampoline_outside(memory_set@, old(mem)@),
        args_size(arg_bytes(args@)) <= user_sp,
        forall|v: int|
            user_sp - args_size(arg_bytes(args@)) <= v < user_sp ==> #[trigger] reachable(
                memory_set@,
                old(mem)@,
                v,
            ),
    ensures
        ({
            let b = arg_bytes(args@);
            let base = argv_start(user_sp as int, b);
            let sp = base - args_len(b, b.len() as int);
            &&& r.0 == base
            &&& r.1 == sp - sp % 8
            &&& final(mem)@ == with_args(memory_set@, old(mem)@, base, b, b.len() as int)
        }),
{
    let ghost b = arg_bytes(args@);
    let ghost m = mem@;
    let ghost s = memory_set@;
    let ghost top = user_sp as int;
    let n: usize = args.len();
    proof {
        lemma_args_len(b, 0, n as int);
        lemma_le64_of_bytes(0);
    }
    // push arguments on user stack
    let argv_base: usize = user_sp - (n + 1) * 8;
    proof {
        assert(range_reachable(s, m, argv_base + 8 * n, 8));
    }
    write_user_word(memory_set, argv_base + n * 8, 0, mem);
    let mut sp: usize = argv_base;
    let mut i: usize = 0;
    while i < n
        invariant
            i <= n,
            n == args@.len(),
            b == arg_bytes(args@),
            s == memory_set@,
            m.wf(),
            s.wf(m),
            all_framed(s),
            trampoline_outside(s, m),
            top == user_sp,
            args_size(b) <= top,
            forall|v: int| top - args_size(b) <= v < top ==> #[trigger] reachable(s, m, v),
            argv_base == argv_start(top, b),
            sp == argv_base - args_len(b, i as int),
            mem@.wf(),
            mem@ == with_args(s, m, argv_base as int, b, i as int),
        decreases n - i,
    {
        proof {
            lemma_with_args(s, m, top, b, i as int);
            lemma_args_len(b, i + 1, n as int);
            lemma_args_len(b, i as int, i + 1);
        }
        let ghost m1 = mem@;
        let arg: &[u8] = args[i].as_str().as_bytes();
        let len: usize = arg.len();
        assert(arg@ == b[i as int]);
        sp -= len + 1;
        proof {
            lemma_le64_of_bytes(sp as u64);
            assert(range_reachable(s, m1, argv_base + 8 * i, 8));
            lemma_written_only(s, m1, argv_base + 8 * i, le64_bytes(sp as u64));
        }
        write_user_word(memory_set, argv_base + i * 8, sp, mem);
        let ghost m2 = mem@;
        proof {
            assert forall|k: int| sp <= k < sp + len + 1 implies #[trigger] reachable(s, m2, k) by {
                assert(reachable(s, m1, k));
            }
            assert(range_reachable(s, m2, sp as int, len as int));
            lemma_written_only(s, m2, sp as int, arg@);
        }
        write_user(memory_set, sp, arg, mem);
        proof {
            assert(reachable(s, m2, sp + len));
            assert(reachable(s, mem@, sp + len));
            assert(arg@.push(0).drop_last() =~= arg@);
        }
        write_user_byte(memory_set, sp + len, 0, mem);
        i += 1;
    }
    // make the user_sp aligned to 8B for k210 platform
    (argv_base, sp - sp % 8)
}

/// A process was given another program: it has the address space of the program, with the
/// arguments on the stack, and its trap context is at the entry point. The frames that it
/// had before were given back. `m1` is the memory when the address space was built.
pub open spec fn executed(
    b: Seq<u8>,
    args: Seq<Seq<u8>>,
    t: TaskModel,
    t2: TaskModel,
    o: MachineModel,
    n: MachineModel,
    m1: MemoryModel,
    sstatus: usize,
) -> bool {
    let p = t2.trap_cx_ppn as int;
    let base = argv_start(user_stack_top(b), args);
    let sp = base - args_len(args, args.len() as int);
    let m2 = with_args(t2.space, m1, base, args, args.len() as int);
    let cx = initial_context(
        header_of(b).entry_point as usize,
        (sp - sp % 8) as usize,
        token_of(o.kspace.root),
        stack_top(t.kernel_stack as int) as usize,
        o.trap_handler,
        sstatus,
    ).with_x(10, args.len() as usize).with_x(11, base as usize);
    &&& built(program_plan(b), t2.space, o.mem, m1, o.strampoline)
    &&& t2 == (TaskModel {
        space: t2.space,
        trap_cx_ppn: t2.space.table[trap_page()].ppn.0,
        ..t
    })
    &&& n == (MachineModel { mem: n.mem, ..o })
    &&& forall|q: int| #[trigger] owns(t.space, q) ==> !n.mem.in_use(q)
    &&& forall|q: int|
        m1.in_use(q) && !owns(t.space, q) ==> #[trigger] n.mem.in_use(q) && n.mem.page(q) == if q
            == p {
            with_context(m2.page(q), cx)
        } else {
            m2.page(q)
        }
}

/// Giving back an address space leaves all others as they are.
proof fn lemma_old_released(
    old_space: SpaceModel,
    s: SpaceModel,
    k: SpaceModel,
    m: MemoryModel,
    m2: MemoryModel,
    m3: MemoryModel,
    m4: MemoryModel,
)
    requires
        m2.wf(),
        m3.wf(),
        old_space.wf(m2),
        born(s, m, m2),
        holds(old_space, m),
        holds(k, m),
        apart(old_space, k),
        apart(old_space, s),
        areas_released(old_space.areas, m2, m3, old_space.areas.len() as int),
        m4 == m3.with_dealloc(old_space.root),
    ensures
        m3.in_use(old_space.root),
        m4.wf(),
        m4.start == m.start,
        holds(s, m4),
        holds(k, m4),
        forall|q: int| #[trigger] owns(old_space, q) ==> !m4.in_use(q),
        forall|q: int|
            m2.in_use(q) && !owns(old_space, q) ==> #[trigger] m4.in_use(q) && m4.page(q)
                == m2.page(q),
        forall|q: int| m.in_use(q) && !owns(old_space, q) ==> #[trigger] m4.in_use(q) && m4.page(q)
            == m.page(q),
{
    let gone = SpaceModel { areas: Seq::empty(), ..old_space };
    lemma_released_only(old_space, gone, m2, m3);
    lemma_with_dealloc(m3, old_space.root);
    assert forall|q: int| #[trigger] owns(old_space, q) implies !m4.in_use(q) by {
        if q != old_space.root {
            let (i, j) = choose|i: int, j: usize|
                0 <= i < old_space.areas.len() && #[trigger] old_space.areas[i].frames.contains_key(j)
                    && old_space.areas[i].frames[j].ppn.0 == q;
            assert(old_space.areas[i].frames.contains_key(j));
            assert(!m3.in_use(q));
        }
    }
    assert forall|q: int| m2.in_use(q) && !owns(old_space, q) implies #[trigger] m4.in_use(q)
        && m4.page(q) == m2.page(q) by {
        assert(m3.in_use(q));
    }
    assert forall|q: int| m.in_use(q) && !owns(old_space, q) implies #[trigger] m4.in_use(q)
        && m4.page(q) == m.page(q) by {
        assert(m2.in_use(q));
    }
    assert forall|q: int| #[trigger] owns(s, q) implies m4.in_use(q) by {
        if owns(old_space, q) {
            assert(!owns(s, q));
        }
        assert(m2.in_use(q));
    }
    assert forall|q: int| #[trigger] owns(k, q) implies m4.in_use(q) by {
        if owns(old_space, q) {
            assert(!owns(k, q));
        }
        assert(m.in_use(q));
        assert(m2.in_use(q));
    }
}

/// An address space was built for a program, and the arguments were put on its stack.
/// `m1` is the memory before the arguments.
#[verifier::opaque]
spec fn loaded(
    b: Seq<u8>,
    args: Seq<Seq<u8>>,
    s: SpaceModel,
    o: MachineModel,
    m1: MemoryModel,
    m2: MemoryModel,
) -> bool {
    &&& built(program_plan(b), s, o.mem, m1, o.strampoline)
    &&& m2 == with_args(
        s,
        m1,
        argv_start(user_stack_top(b), args),
        args,
        args.len() as int,
    )
    &&& m2.wf()
    &&& s.wf(m2)
    &&& all_framed(s)
    &&& m2.start == o.mem.start
    &&& trampoline_outside(s, m2)
    &&& born(s, o.mem, m2)
    &&& s.table.contains_key(trap_page())
    &&& owns(s, s.table[trap_page()].ppn.0 as int)
    &&& forall|q: int| #[trigger] m1.in_use(q) ==> m2.in_use(q)
}

/// Build the address space of a program, and put its arguments on its stack. Return the
/// address space, the frame of its trap context, the entry point, where the pointers to
/// the arguments start, and where the stack ends.
fn load_program(elf_data: &[u8], args: &Vec<String>, machine: &mut Machine) -> (r: (
    MemorySet,
    PhysPageNum,
    usize,
    usize,
    usize,
    Ghost<MemoryModel>,
))
    requires
        old(machine)@.wf(),
        loadable(elf_data@),
        plan_frames(program_plan(elf_data@)) < old(machine)@.mem.frames.free_count(),
        args_size(arg_bytes(args@)) <= USER_STACK_SIZE,
    ensures
        final(machine)@ == (MachineModel { mem: final(machine)@.mem, ..old(machine)@ }),
        loaded(
            elf_data@,
            arg_bytes(args@),
            r.0@,
            old(machine)@,
            r.5@,
            final(machine)@.mem,
        ),
        r.1.0 == r.0@.table[trap_page()].ppn.0,
        r.2 == header_of(elf_data@).entry_point as usize,
        ({
            let b = arg_bytes(args@);
            let base = argv_start(user_stack_top(elf_data@), b);
            let sp = base - args_len(b, b.len() as int);
            r.3 == base && r.4 == sp - sp % 8
        }),
{
    let ghost o = machine@;
    let ghost b = elf_data@;
    let ghost ab = arg_bytes(args@);
    proof {
        lemma_plan_ok(program_plan(b));
        lemma_args_len(ab, 0, ab.len() as int);
    }
    // memory_set with elf program headers/trampoline/trap context/user stack
    let (memory_set, user_sp, entry_point) = MemorySet::from_elf(
        elf_data,
        machine.strampoline,
        &mut machine.mem,
    );
    let ghost m1 = machine@.mem;
    let ghost s = memory_set@;
    proof {
        lemma_program(b, s, o.mem, m1, o.strampoline);
        lemma_trap_page();
        assert(0 <= user_stack_bottom(b));
        assert forall|v: int| user_sp - args_size(ab) <= v < user_sp implies #[trigger] reachable(
            s,
            m1,
            v,
        ) by {
            lemma_stack_reachable(b, s, o.mem, m1, o.strampoline, v);
        }
    }
    let trap_cx_ppn: PhysPageNum = memory_set.translate(
        VirtAddr::from(TRAP_CONTEXT_BASE).floor(),
    ).unwrap().ppn();
    let (argv_base, sp) = push_args(&memory_set, user_sp, args, &mut machine.mem);
    proof {
        let m2 = machine@.mem;
        lemma_with_args(s, m1, user_sp as int, ab, ab.len() as int);
        lemma_born_trans(s, s, o.mem, m1, m2);
        reveal(loaded);
    }
    (memory_set, trap_cx_ppn, entry_point, argv_base, sp, Ghost(m1))
}

/// The steps of replacing a program together.
proof fn lemma_executed(
    b: Seq<u8>,
    args: Seq<Seq<u8>>,
    t: TaskModel,
    t2: TaskModel,
    o: MachineModel,
    n: MachineModel,
    m1: MemoryModel,
    m2: MemoryModel,
    m4: MemoryModel,
    sstatus: usize,
    cx: TrapModel,
)
    requires
        loaded(b, args, t2.space, o, m1, m2),
        holds(t.space, o.mem),
        t2 == (TaskModel {
            space: t2.space,
            trap_cx_ppn: t2.space.table[trap_page()].ppn.0,
            ..t
        }),
        m4.wf(),
        m4.start == o.mem.start,
        m4.frames.end == o.mem.frames.end,
        holds(t2.space, m4),
        n == (MachineModel {
            mem: m4.with_page(
                t2.trap_cx_ppn as int,
                with_context(m4.page(t2.trap_cx_ppn as int), cx),
            ),
            ..o
        }),
        forall|q: int| #[trigger] owns(t.space, q) ==> !m4.in_use(q),
        forall|q: int|
            m2.in_use(q) && !owns(t.space, q) ==> #[trigger] m4.in_use(q) && m4.page(q)
                == m2.page(q),
        forall|q: int|
            o.mem.in_use(q) && !owns(t.space, q) ==> #[trigger] m4.in_use(q) && m4.page(q)
                == o.mem.page(q),
        ({
            let base = argv_start(user_stack_top(b), args);
            let sp = base - args_len(args, args.len() as int);
            cx == initial_context(
                header_of(b).entry_point as usize,
                (sp - sp % 8) as usize,
                token_of(o.kspace.root),
                stack_top(t.kernel_stack as int) as usize,
                o.trap_handler,
                sstatus,
            ).with_x(10, args.len() as usize).with_x(11, base as usize)
        }),
    ensures
        executed(b, args, t, t2, o, n, m1, sstatus),
        changed_only(t.space, t2.space, o.mem, n.mem),
{
    reveal(loaded);
    let p = t2.trap_cx_ppn as int;
    lemma_page_only(t2.space, m4, p, with_context(m4.page(p), cx));
    assert(m2.in_use(p));
    assert(!o.mem.in_use(p));
    if owns(t.space, p) {
        assert(o.mem.in_use(p));
    }
    assert forall|q: int| m1.in_use(q) && !owns(t.space, q) implies #[trigger] n.mem.in_use(q)
        && n.mem.page(q) == if q == p {
        with_context(m2.page(q), cx)
    } else {
        m2.page(q)
    } by {
        assert(m2.in_use(q));
        assert(m4.in_use(q));
    }
    assert forall|q: int| #[trigger] o.mem.in_use(q) && !owns(t.space, q) implies n.mem.in_use(q)
        && n.mem.page(q) == o.mem.page(q) by {
        assert(m4.in_use(q));
        assert(q != p);
    }
    assert forall|q: int| #[trigger] owns(t2.space, q) implies n.mem.in_use(q) && (owns(
        t.space,
        q,
    ) || !o.mem.in_use(q)) by {
        assert(m4.in_use(q));
    }
}

impl TaskControlBlock {
    /// Give the process another address space, and give back the frames of the one that it
    /// had.
    fn replace_space(&mut self, memory_set: MemorySet, machine: &mut Machine, Ghost(m): Ghost<MemoryModel>)
        requires
            m.wf(),
            old(machine)@.mem.wf(),
            old(self)@.space.wf(m),
            old(machine)@.kspace.wf(m),
            apart(old(self)@.space, old(machine)@.kspace),
            born(memory_set@, m, old(machine)@.mem),
        ensures
            final(self)@ == (TaskModel { space: memory_set@, ..old(self)@ }),
            final(machine)@ == (MachineModel { mem: final(machine)@.mem, ..old(machine)@ }),
            final(machine)@.mem.wf(),
            final(machine)@.mem.start == m.start,
            final(machine)@.mem.frames.end == m.frames.end,
            holds(memory_set@, final(machine)@.mem),
            holds(old(machine)@.kspace, final(machine)@.mem),
            forall|q: int| #[trigger]
                owns(old(self)@.space, q) ==> !final(machine)@.mem.in_use(q),
            forall|q: int|
                old(machine)@.mem.in_use(q) && !owns(old(self)@.space, q)
                    ==> #[trigger] final(machine)@.mem.in_use(q) && final(machine)@.mem.page(q)
                    == old(machine)@.mem.page(q),
            forall|q: int|
                m.in_use(q) && !owns(old(self)@.space, q)
                    ==> #[trigger] final(machine)@.mem.in_use(q) && final(machine)@.mem.page(q)
                    == m.page(q),
    {
        let ghost t = self@.space;
        let ghost s = memory_set@;
        let ghost k = machine@.kspace;
        let ghost m2 = machine@.mem;
        proof {
            lemma_holds(t, m);
            lemma_holds(k, m);
            lemma_born_apart(t, s, m, m2);
            lemma_still_wf(t, m, m2);
        }
        let mut old_set: MemorySet = memory_set;
        std::mem::swap(&mut self.inner.memory_set, &mut old_set);
        old_set.recycle_data_pages(&mut machine.mem);
        let ghost m3 = machine@.mem;
        proof {
            lemma_old_released(t, s, k, m, m2, m3, m3.with_dealloc(t.root));
        }
        machine.mem.frame_dealloc(old_set.root_ppn());
    }

    /// Load a new elf to replace the original application address space and start execution
    pub fn exec(
        &mut self,
        elf_data: &[u8],
        args: Vec<String>,
        sstatus: usize,
        machine: &mut Machine,
    )
        requires
            old(machine)@.wf(),
            old(self)@.space_ok(old(machine)@.mem),
            apart(old(self)@.space, old(machine)@.kspace),
            old(self)@.kernel_stack * (KERNEL_STACK_SIZE + PAGE_SIZE) + KERNEL_STACK_SIZE
                <= TRAMPOLINE,
            loadable(elf_data@),
            plan_frames(program_plan(elf_data@)) < old(machine)@.mem.frames.free_count(),
            args_size(arg_bytes(args@)) <= USER_STACK_SIZE,
        ensures
            final(machine)@.wf(),
            final(self)@.space_ok(final(machine)@.mem),
            exists|m1: MemoryModel| #[trigger]
                executed(
                    elf_data@,
                    arg_bytes(args@),
                    old(self)@,
                    final(self)@,
                    old(machine)@,
                    final(machine)@,
                    m1,
                    sstatus,
                ),
            changed_only(
                old(self)@.space,
                final(self)@.space,
                old(machine)@.mem,
                final(machine)@.mem,
            ),
    {
        let ghost o = machine@;
        let ghost t = self@;
        let ghost b = elf_data@;
        let ghost ab = arg_bytes(args@);
        let (memory_set, trap_cx_ppn, entry_point, argv_base, sp, Ghost(m1)) = load_program(
            elf_data,
            &args,
            machine,
        );
        let ghost m2 = machine@.mem;
        let ghost s = memory_set@;
        proof {
            reveal(loaded);
        }
        // substitute memory_set
        self.replace_space(memory_set, machine, Ghost(o.mem));
        let ghost m4 = machine@.mem;
        // update trap_cx ppn
        self.inner.trap_cx_ppn = trap_cx_ppn;
        // initialize trap_cx
        let mut trap_cx: TrapContext = TrapContext::app_init_context(
            entry_point,
            sp,
            machine.kernel_space.token(),
            self.kernel_stack.get_top(),
            machine.trap_handler,
            sstatus,
        );
        trap_cx.set_x(10, args.len());
        trap_cx.set_x(11, argv_base);
        let ghost p = trap_cx_ppn.0 as int;
        proof {
            lemma_page_only(s, m4, p, with_context(m4.page(p), trap_cx@));
        }
        trap_cx.store(trap_cx_ppn, &mut machine.mem);
        proof {
            let m5 = machine@.mem;
            lemma_still_wf(s, m2, m5);
            assert forall|q: int| #[trigger] owns(o.kspace, q) implies m5.in_use(q) by {
                assert(m4.in_use(q));
            }
            lemma_still_wf(o.kspace, o.mem, m5);
            lemma_holds(t.space, o.mem);
            assert(machine@.wf());
            lemma_executed(b, ab, t, self@, o, machine@, m1, m2, m4, sstatus, trap_cx@);
        }
    }
}

/// The first `n` arguments can be read: the pointers lead to them, each with a zero byte
/// behind it, and behind all pointers there is a null pointer.
pub open spec fn args_readable(
    s: SpaceModel,
    m: MemoryModel,
    base: int,
    args: Seq<Seq<u8>>,
    n: int,
) -> bool {
    &&& user_bytes(s, m, base + 8 * args.len(), 8) == le64_bytes(0)
    &&& forall|i: int| 0 <= i < n ==> #[trigger] arg_readable(s, m, base, args, i)
}

/// One argument can be read.
pub open spec fn arg_readable(
    s: SpaceModel,
    m: MemoryModel,
    base: int,
    args: Seq<Seq<u8>>,
    i: int,
) -> bool {
    let a = arg_start(base, args, i);
    &&& user_bytes(s, m, base + 8 * i, 8) == le64_bytes(a as u64)
    &&& user_bytes(s, m, a, (args[i].len() + 1) as int) == args[i].push(0)
}

/// What was written elsewhere is not seen in a range of addresses.
proof fn lemma_range_elsewhere(
    s: SpaceModel,
    m: MemoryModel,
    v: int,
    data: Seq<u8>,
    w: int,
    len: int,
    lo: int,
    n: int,
)
    requires
        m.wf(),
        range_reachable(s, m, lo, n),
        no_alias(s, lo, n),
        lo <= v,
        v + data.len() <= lo + n,
        lo <= w,
        0 <= len,
        w + len <= lo + n,
        w + len <= v || v + data.len() <= w,
    ensures
        user_bytes(s, with_bytes(s, m, v, data), w, len) == user_bytes(s, m, w, len),
{
    let x = user_bytes(s, with_bytes(s, m, v, data), w, len);
    let y = user_bytes(s, m, w, len);
    assert forall|i: int| 0 <= i < len implies x[i] == y[i] by {
        lemma_bytes_elsewhere(s, m, v, data, w + i, lo, n);
    }
    assert(x =~= y);
}

/// A program finds its arguments: what was put on its stack is what it reads there.
pub proof fn law_args_readable(s: SpaceModel, m: MemoryModel, top: int, args: Seq<Seq<u8>>, n: int)
    requires
        m.wf(),
        s.wf(m),
        all_framed(s),
        trampoline_outside(s, m),
        0 <= n <= args.len(),
        args_size(args) <= USER_STACK_SIZE,
        forall|v: int| top - args_size(args) <= v < top ==> #[trigger] reachable(s, m, v),
    ensures
        args_readable(
            s,
            with_args(s, m, argv_start(top, args), args, n),
            argv_start(top, args),
            args,
            n,
        ),
    decreases n,
{
    let base = argv_start(top, args);
    let len = args.len() as int;
    let lo = top - args_size(args);
    let size = args_size(args);
    lemma_args_len(args, 0, len);
    assert(range_reachable(s, m, lo, size));
    law_no_alias(s, m, lo, size);
    lemma_with_args(s, m, top, args, n);
    let m3 = with_args(s, m, base, args, n);
    if n == 0 {
        lemma_le64_of_bytes(0);
        let v = base + 8 * len;
        assert(range_reachable(s, m, v, 8));
        assert(no_alias(s, v, 8));
        law_user_read_after_write(s, m, v, le64_bytes(0));
    } else {
        law_args_readable(s, m, top, args, n - 1);
        lemma_with_args(s, m, top, args, n - 1);
        let m1 = with_args(s, m, base, args, n - 1);
        let a = arg_start(base, args, n - 1);
        let slot = base + 8 * (n - 1);
        let word = le64_bytes(a as u64);
        let data = args[n - 1].push(0);
        lemma_args_len(args, n, len);
        lemma_args_len(args, n - 1, n);
        lemma_le64_of_bytes(a as u64);
        assert(range_reachable(s, m1, lo, size));
        assert(range_reachable(s, m1, slot, 8));
        lemma_written_only(s, m1, slot, word);
        let m2 = with_bytes(s, m1, slot, word);
        assert forall|v: int| lo <= v < lo + size implies #[trigger] reachable(s, m2, v) by {
            assert(reachable(s, m1, v));
        }
        assert(range_reachable(s, m2, lo, size));
        assert(range_reachable(s, m2, a, data.len() as int));
        assert(no_alias(s, slot, 8));
        assert(no_alias(s, a, data.len() as int));
        law_user_read_after_write(s, m1, slot, word);
        law_user_read_after_write(s, m2, a, data);
        lemma_range_elsewhere(s, m2, a, data, slot, 8, lo, size);
        lemma_range_elsewhere(s, m1, slot, word, base + 8 * len, 8, lo, size);
        lemma_range_elsewhere(s, m2, a, data, base + 8 * len, 8, lo, size);
        assert forall|i: int| 0 <= i < n implies #[trigger] arg_readable(s, m3, base, args, i) by {
            if i < n - 1 {
                assert(arg_readable(s, m1, base, args, i));
                let b = arg_start(base, args, i);
                lemma_args_len(args, i, i + 1);
                lemma_args_len(args, i + 1, n - 1);
                let l = (args[i].len() + 1) as int;
                lemma_range_elsewhere(s, m1, slot, word, base + 8 * i, 8, lo, size);
                lemma_range_elsewhere(s, m2, a, data, base + 8 * i, 8, lo, size);
                lemma_range_elsewhere(s, m1, slot, word, b, l, lo, size);
                lemma_range_elsewhere(s, m2, a, data, b, l, lo, size);
            }
        }
    }
}

/// A process that was given another program finds its arguments: right below the top of its
/// stack there are as many pointers as arguments and a null pointer, and each pointer leads to
/// the bytes of its argument with a zero byte behind them.
pub proof fn law_exec_args(
    b: Seq<u8>,
    args: Seq<Seq<u8>>,
    t: TaskModel,
    t2: TaskModel,
    o: MachineModel,
    n: MachineModel,
    m1: MemoryModel,
    sstatus: usize,
    i: int,
)
    requires
        o.wf(),
        o.mem.frames.free_count() > 0,
        holds(t.space, o.mem),
        loadable(b),
        args_size(args) <= USER_STACK_SIZE,
        executed(b, args, t, t2, o, n, m1, sstatus),
        0 <= i < args.len(),
    ensures
        ({
            let base = user_stack_top(b) - 8 * (args.len() + 1);
            let a = le64(user_bytes(t2.space, n.mem, base + 8 * i, 8), 0) as int;
            &&& le64(user_bytes(t2.space, n.mem, base + 8 * args.len(), 8), 0) == 0
            &&& user_bytes(t2.space, n.mem, a, (args[i].len() + 1) as int) == args[i].push(0u8)
        }),
{
    let s = t2.space;
    let top = user_stack_top(b);
    let base = argv_start(top, args);
    let len = args.len() as int;
    let size = args_size(args);
    lemma_args_len(args, 0, len);
    lemma_program(b, s, o.mem, m1, o.strampoline);
    assert forall|v: int| top - size <= v < top implies #[trigger] reachable(s, m1, v) by {
        lemma_stack_reachable(b, s, o.mem, m1, o.strampoline, v);
    }
    law_args_readable(s, m1, top, args, len);
    let m2 = with_args(s, m1, base, args, len);
    assert(arg_readable(s, m2, base, args, i));
    let a = arg_start(base, args, i);
    lemma_args_len(args, i, i + 1);
    lemma_args_len(args, i + 1, len);
    let w = args[i].len() + 1;
    assert forall|v: int| top - size <= v < top implies user_byte(s, n.mem, v) == #[trigger] user_byte(
        s,
        m2,
        v,
    ) by {
        lemma_stack_frame(b, t, s, o, m1, v);
        assert(n.mem.in_use(frame_of(s, v)));
    }
    lemma_same_bytes(s, n.mem, m2, base + 8 * i, 8);
    lemma_same_bytes(s, n.mem, m2, base + 8 * len, 8);
    lemma_same_bytes(s, n.mem, m2, a, w as int);
    lemma_le64_of_bytes(a as u64);
    lemma_le64_of_bytes(0);
    assert(reachable(s, m1, a));
}

/// Bytes that are the same one by one are the same.
proof fn lemma_same_bytes(s: SpaceModel, m: MemoryModel, m2: MemoryModel, v: int, n: int)
    requires
        0 <= n,
        forall|w: int| v <= w < v + n ==> user_byte(s, m, w) == #[trigger] user_byte(s, m2, w),
    ensures
        user_bytes(s, m, v, n) == user_bytes(s, m2, v, n),
{
    let x = user_bytes(s, m, v, n);
    let y = user_bytes(s, m2, v, n);
    assert forall|j: int| 0 <= j < x.len() implies x[j] == y[j] by {
        assert(user_byte(s, m, v + j) == user_byte(s, m2, v + j));
    }
    assert(x =~= y);
}

/// An address of the stack of a new program lies in a frame that is in use, that was not in use
/// before, and that is not the one of the trap context.
proof fn lemma_stack_frame(
    b: Seq<u8>,
    t: TaskModel,
    s: SpaceModel,
    o: MachineModel,
    m1: MemoryModel,
    v: int,
)
    requires
        o.wf(),
        o.mem.frames.free_count() > 0,
        holds(t.space, o.mem),
        loadable(b),
        built(program_plan(b), s, o.mem, m1, o.strampoline),
        user_stack_top(b) - USER_STACK_SIZE <= v < user_stack_top(b),
    ensures
        m1.in_use(frame_of(s, v)),
        !owns(t.space, frame_of(s, v)),
        frame_of(s, v) != s.table[trap_page()].ppn.0,
{
    lemma_program(b, s, o.mem, m1, o.strampoline);
    lemma_stack_reachable(b, s, o.mem, m1, o.strampoline, v);
    lemma_reachable_owned(s, m1, v);
    lemma_trap_page();
    let q = frame_of(s, v);
    assert(!o.mem.in_use(q));
    if owns(t.space, q) {
        assert(o.mem.in_use(q));
    }
    let plan = program_plan(b);
    let c = loads(b, header_of(b).ph_count as int).len() as int;
    let bottom = user_stack_bottom(b);
    let top = user_stack_top(b);
    assert(plan[c] == framed(bottom, top, R | W | U));
    assert(plan[c + 2] == framed(TRAP_CONTEXT_BASE as int, TRAMPOLINE as int, R | W));
    assert(plan[c].area.l <= plan[c].area.r && !plan[c].area.covers(trampoline_page())) by {
        reveal(plan_ok);
    }
    lemma_low_range(bottom, v);
    let k = page_of(v);
    assert(plan[c].area.covers(k as int));
    assert(k != trap_page()) by {
        reveal(plan_ok);
        if k == trap_page() {
            assert(plan[c + 2].area.covers(k as int));
        }
    }
    lemma_one_page(s, m1, k, trap_page());
}

} // verus!
