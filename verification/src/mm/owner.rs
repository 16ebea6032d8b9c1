//! Which frames belong to which address space, and that no other space is touched when one
//! is changed.
use super::address::{low, VA_SPACE};
use super::frame_allocator::{lemma_with_alloc, MemoryModel};
use super::map_area::{kept, pages_mapped, pages_unmapped, AreaModel, MapType};
use super::memory_set::{area_added, areas_released, copied};
use super::plan::{built, planned_page, AreaPlan};
use super::space::{lemma_area, trampoline_page, SpaceModel};
use super::user::{
    frame_of, lemma_with_bytes, no_alias, page_of, range_reachable, reachable, user_byte,
    user_bytes, with_bytes,
};
use crate::config::PAGE_SIZE;
use vstd::prelude::*;

verus! {

/// The frame belongs to one of the areas.
pub open spec fn in_areas(areas: Seq<AreaModel>, p: int) -> bool {
    exists|i: int, k: usize|
        0 <= i < areas.len() && #[trigger] areas[i].frames.contains_key(k)
            && areas[i].frames[k].ppn.0 == p
}

/// The frame belongs to the address space: it is the root of its page table, or holds one
/// of its pages.
pub open spec fn owns(s: SpaceModel, p: int) -> bool {
    p == s.root || in_areas(s.areas, p)
}

/// The frames of the address space are in use.
pub open spec fn holds(s: SpaceModel, m: MemoryModel) -> bool {
    forall|p: int| #[trigger] owns(s, p) ==> m.in_use(p)
}

/// No frame belongs to both address spaces.
pub open spec fn apart(a: SpaceModel, b: SpaceModel) -> bool {
    forall|p: int| #[trigger] owns(a, p) ==> !owns(b, p)
}

/// All that changed is an address space, which became another one: frames that were not
/// its own are as they were, and those that it got were not in use.
pub open spec fn changed_only(
    s: SpaceModel,
    s2: SpaceModel,
    m: MemoryModel,
    m2: MemoryModel,
) -> bool {
    &&& m2.start == m.start
    &&& m2.frames.end == m.frames.end
    &&& forall|p: int| #[trigger]
        m.in_use(p) && !owns(s, p) ==> m2.in_use(p) && m2.page(p) == m.page(p)
    &&& forall|p: int| #[trigger] owns(s2, p) ==> m2.in_use(p) && (owns(s, p) || !m.in_use(p))
}

/// A new address space was made of frames that were not in use, and nothing else changed.
pub open spec fn born(s: SpaceModel, m: MemoryModel, m2: MemoryModel) -> bool {
    &&& kept(m, m2)
    &&& forall|p: int| #[trigger] owns(s, p) ==> m2.in_use(p) && !m.in_use(p)
}

/// A consistent address space has its frames in use.
pub proof fn lemma_holds(s: SpaceModel, m: MemoryModel)
    requires
        s.wf(m),
    ensures
        holds(s, m),
{
    reveal(SpaceModel::wf);
    assert forall|p: int| #[trigger] owns(s, p) implies m.in_use(p) by {
        if p != s.root {
            let (i, k) = choose|i: int, k: usize|
                0 <= i < s.areas.len() && #[trigger] s.areas[i].frames.contains_key(k)
                    && s.areas[i].frames[k].ppn.0 == p;
            assert(s.areas[i].frames.contains_key(k));
        }
    }
}

/// An address space stays consistent as long as its frames are in use.
pub proof fn lemma_still_wf(s: SpaceModel, m: MemoryModel, m2: MemoryModel)
    requires
        s.wf(m),
        holds(s, m2),
    ensures
        s.wf(m2),
{
    reveal(SpaceModel::wf);
    assert(owns(s, s.root));
    assert forall|i: int, k: usize|
        0 <= i < s.areas.len() && #[trigger] s.areas[i].frames.contains_key(k) implies m2.in_use(
        s.areas[i].frames[k].ppn.0 as int,
    ) && s.areas[i].frames[k].ppn.0 != s.root by {
        assert(owns(s, s.areas[i].frames[k].ppn.0 as int));
    }
}

/// Processes are isolated from each other: changing one address space touches no frame of
/// another one, and takes none from it.
pub proof fn law_isolation(
    o: SpaceModel,
    s: SpaceModel,
    s2: SpaceModel,
    m: MemoryModel,
    m2: MemoryModel,
)
    requires
        holds(o, m),
        apart(o, s),
        changed_only(s, s2, m, m2),
    ensures
        holds(o, m2),
        apart(o, s2),
        forall|p: int| #[trigger] owns(o, p) ==> m2.page(p) == m.page(p),
{
    assert forall|p: int| #[trigger] owns(o, p) implies m2.in_use(p) && m2.page(p) == m.page(p)
        && !owns(s2, p) by {
        assert(m.in_use(p) && !owns(s, p));
    }
}

/// A new address space has no frame in common with one that was there before, and that one
/// is as it was.
pub proof fn lemma_born_apart(o: SpaceModel, s: SpaceModel, m: MemoryModel, m2: MemoryModel)
    requires
        holds(o, m),
        born(s, m, m2),
    ensures
        holds(o, m2),
        apart(o, s),
        apart(s, o),
{
    assert forall|p: int| #[trigger] owns(o, p) implies m2.in_use(p) && !owns(s, p) by {
        assert(m.in_use(p));
    }
    assert forall|p: int| #[trigger] owns(s, p) implies !owns(o, p) by {
        assert(!m.in_use(p));
    }
}

/// Two changes of the same address space are one.
pub proof fn lemma_changed_trans(
    s: SpaceModel,
    s2: SpaceModel,
    s3: SpaceModel,
    m: MemoryModel,
    m2: MemoryModel,
    m3: MemoryModel,
)
    requires
        changed_only(s, s2, m, m2),
        changed_only(s2, s3, m2, m3),
    ensures
        changed_only(s, s3, m, m3),
{
    assert forall|p: int| #[trigger] m.in_use(p) && !owns(s, p) implies m3.in_use(p) && m3.page(p)
        == m.page(p) by {
        assert(m2.in_use(p));
        assert(!owns(s2, p));
    }
    assert forall|p: int| #[trigger] owns(s3, p) implies m3.in_use(p) && (owns(s, p)
        || !m.in_use(p)) by {
        if !owns(s2, p) && m.in_use(p) && !owns(s, p) {
            assert(m2.in_use(p));
        }
    }
}

/// Two new address spaces, one after the other, or a new one and changes of it.
pub proof fn lemma_born_trans(
    s: SpaceModel,
    s2: SpaceModel,
    m: MemoryModel,
    m2: MemoryModel,
    m3: MemoryModel,
)
    requires
        born(s, m, m2),
        changed_only(s, s2, m2, m3),
    ensures
        born(s2, m, m3),
{
    assert forall|p: int| #[trigger] m.in_use(p) implies m3.in_use(p) && m3.page(p) == m.page(
        p,
    ) by {
        assert(m2.in_use(p));
        assert(!owns(s, p));
    }
    assert forall|p: int| #[trigger] owns(s2, p) implies m3.in_use(p) && !m.in_use(p) by {
        if !owns(s, p) && m.in_use(p) {
            assert(m2.in_use(p));
        }
    }
}

/// An address space that is as it was, in a memory where nothing was lost, is not changed.
pub proof fn lemma_kept_same(s: SpaceModel, m: MemoryModel, m2: MemoryModel)
    requires
        holds(s, m),
        kept(m, m2),
    ensures
        changed_only(s, s, m, m2),
        holds(s, m2),
{
    assert forall|p: int| #[trigger] owns(s, p) implies m2.in_use(p) by {
        assert(m.in_use(p));
    }
}

/// An address space that was built as planned is a new one.
pub proof fn lemma_built_born(
    plan: Seq<AreaPlan>,
    s: SpaceModel,
    m: MemoryModel,
    m2: MemoryModel,
    strampoline: usize,
)
    requires
        m.wf(),
        m.frames.free_count() > 0,
        built(plan, s, m, m2, strampoline),
        forall|i: int| 0 <= i < plan.len() ==> (#[trigger] plan[i]).area.map_type == MapType::Framed,
    ensures
        born(s, m, m2),
        s.wf(m2),
        m2.wf(),
        kept(m, m2),
{
    reveal(built);
    lemma_with_alloc(m);
    lemma_holds(s, m2);
    assert forall|p: int| #[trigger] owns(s, p) implies m2.in_use(p) && !m.in_use(p) by {
        if p != s.root {
            let (i, k) = choose|i: int, k: usize|
                0 <= i < s.areas.len() && #[trigger] s.areas[i].frames.contains_key(k)
                    && s.areas[i].frames[k].ppn.0 == p;
            lemma_area(s, m2, i);
            assert(s.areas[i] == (AreaModel { frames: s.areas[i].frames, ..plan[i].area }));
            assert(s.areas[i].covers(k as int));
            assert(plan[i].area.covers(k as int));
            assert(planned_page(plan[i], s, m, m2, k));
            assert(s.table.contains_key(k) && s.table[k] == s.areas[i].entry(k));
        }
    }
}

/// The copy of an address space is a new one.
pub proof fn lemma_copied_born(
    s: SpaceModel,
    c: SpaceModel,
    m: MemoryModel,
    m2: MemoryModel,
    strampoline: usize,
)
    requires
        m.wf(),
        m.frames.free_count() > 0,
        kept(m, m2),
        copied(s, c, m, m2, s.areas.len() as int, strampoline),
        c.root == m.frames.next(),
        forall|i: int| 0 <= i < s.areas.len() ==> (#[trigger] s.areas[i]).map_type == MapType::Framed,
    ensures
        born(c, m, m2),
{
    lemma_with_alloc(m);
    lemma_holds(c, m2);
    assert forall|p: int| #[trigger] owns(c, p) implies m2.in_use(p) && !m.in_use(p) by {
        if p != c.root {
            let (i, k) = choose|i: int, k: usize|
                0 <= i < c.areas.len() && #[trigger] c.areas[i].frames.contains_key(k)
                    && c.areas[i].frames[k].ppn.0 == p;
            lemma_area(c, m2, i);
            assert(c.areas[i].map_type == s.areas[i].map_type);
            assert(c.areas[i].covers(k as int));
            assert(c.table.contains_key(k) && c.table[k] == c.areas[i].entry(k));
        }
    }
}

/// Adding an area changes only the address space.
pub proof fn lemma_added_only(
    s: SpaceModel,
    s2: SpaceModel,
    m: MemoryModel,
    m2: MemoryModel,
    a: AreaModel,
    data: Seq<u8>,
)
    requires
        s.wf(m),
        area_added(s, s2, m, m2, a, data),
        a.map_type == MapType::Framed,
    ensures
        changed_only(s, s2, m, m2),
        s2.wf(m2),
        m2.wf(),
{
    lemma_holds(s2, m2);
    let n = s.areas.len() as int;
    assert forall|p: int| #[trigger] owns(s2, p) implies m2.in_use(p) && (owns(s, p) || !m.in_use(
        p,
    )) by {
        if p != s2.root {
            let (i, k) = choose|i: int, k: usize|
                0 <= i < s2.areas.len() && #[trigger] s2.areas[i].frames.contains_key(k)
                    && s2.areas[i].frames[k].ppn.0 == p;
            if i < n {
                assert(s.areas[i].frames.contains_key(k));
                assert(owns(s, p));
            } else {
                assert(a.covers(k as int));
                assert(!m.in_use(s2.areas.last().frames[k].ppn.0 as int));
            }
        }
    }
}

/// Taking out pages of one area, and maybe the area, changes only the address space.
pub proof fn lemma_unmapped_only(
    s: SpaceModel,
    s2: SpaceModel,
    m: MemoryModel,
    m2: MemoryModel,
    i: int,
    a2: AreaModel,
    from: int,
    to: int,
)
    requires
        s.wf(m),
        s2.wf(m2),
        0 <= i < s.areas.len(),
        s2.root == s.root,
        pages_unmapped(s.areas[i], a2, s.table, s2.table, m, m2, from, to),
        forall|j: int, k: usize|
            0 <= j < s2.areas.len() && #[trigger] s2.areas[j].frames.contains_key(k) ==> in_areas(
                s.areas,
                s2.areas[j].frames[k].ppn.0 as int,
            ),
    ensures
        changed_only(s, s2, m, m2),
{
    lemma_holds(s2, m2);
    let a = s.areas[i];
    assert forall|p: int| #[trigger] m.in_use(p) && !owns(s, p) implies m2.in_use(p) && m2.page(p)
        == m.page(p) by {
        assert forall|k: usize|
            from <= k < to && #[trigger] a.frames.contains_key(k) implies a.frames[k].ppn.0 != p by {
            assert(s.areas[i].frames.contains_key(k));
        }
    }
    assert forall|p: int| #[trigger] owns(s2, p) implies m2.in_use(p) && (owns(s, p) || !m.in_use(
        p,
    )) by {
        if p != s2.root {
            let (j, k) = choose|j: int, k: usize|
                0 <= j < s2.areas.len() && #[trigger] s2.areas[j].frames.contains_key(k)
                    && s2.areas[j].frames[k].ppn.0 == p;
            assert(in_areas(s.areas, s2.areas[j].frames[k].ppn.0 as int));
        }
    }
}

/// Giving back the frames of all areas changes only the address space, which keeps its
/// root.
pub proof fn lemma_released_only(s: SpaceModel, s2: SpaceModel, m: MemoryModel, m2: MemoryModel)
    requires
        s.wf(m),
        areas_released(s.areas, m, m2, s.areas.len() as int),
        s2 == (SpaceModel { areas: Seq::empty(), ..s }),
    ensures
        changed_only(s, s2, m, m2),
        holds(s2, m2),
        m2.in_use(s.root),
{
    lemma_holds(s, m);
    assert(owns(s, s.root));
    assert forall|i: int, k: usize|
        0 <= i < s.areas.len() && #[trigger] s.areas[i].frames.contains_key(k) implies s.areas[i].frames[k].ppn.0
        != s.root by {
        reveal(SpaceModel::wf);
    }
    assert forall|p: int| #[trigger] m.in_use(p) && !owns(s, p) implies m2.in_use(p) && m2.page(p)
        == m.page(p) by {
        assert forall|i: int, k: usize|
            0 <= i < s.areas.len() && #[trigger] s.areas[i].frames.contains_key(k) implies s.areas[i].frames[k].ppn.0
            != p by {
            assert(s.areas[i].frames.contains_key(k));
        }
    }
    assert forall|p: int| #[trigger] owns(s2, p) implies m2.in_use(p) && (owns(s, p) || !m.in_use(
        p,
    )) by {
        assert(p == s.root);
    }
}

/// Changing the bytes of a frame of an address space changes only this space.
pub proof fn lemma_page_only(s: SpaceModel, m: MemoryModel, p: int, bytes: Seq<u8>)
    requires
        m.wf(),
        holds(s, m),
        owns(s, p),
        bytes.len() == PAGE_SIZE,
    ensures
        changed_only(s, s, m, m.with_page(p, bytes)),
        m.with_page(p, bytes).wf(),
        holds(s, m.with_page(p, bytes)),
        m.with_page(p, bytes).page(p) == bytes,
        forall|q: int|
            q != p && m.in_use(q) ==> #[trigger] m.with_page(p, bytes).page(q) == m.page(q),
        forall|q: int| #[trigger] m.with_page(p, bytes).in_use(q) == m.in_use(q),
{
    assert(m.in_use(p));
    let m2 = m.with_page(p, bytes);
    assert forall|i: int| 0 <= i < m2.pages.len() implies (#[trigger] m2.pages[i]).len()
        == PAGE_SIZE by {
        if i != p - m.start {
            assert(m2.pages[i] == m.pages[i]);
        }
    }
    assert forall|q: int| #[trigger] m.in_use(q) && !owns(s, q) implies m2.in_use(q) && m2.page(q)
        == m.page(q) by {
        assert(q != p);
    }
}

/// The trampoline is not in the memory that is handed out.
pub open spec fn trampoline_outside(s: SpaceModel, m: MemoryModel) -> bool {
    s.table.contains_key(trampoline_page() as usize) ==> s.table[trampoline_page() as usize].ppn.0
        < m.start
}

/// All pages of the address space have frames of their own.
pub open spec fn all_framed(s: SpaceModel) -> bool {
    forall|i: int| 0 <= i < s.areas.len() ==> (#[trigger] s.areas[i]).map_type == MapType::Framed
}

/// An address that a process can use lies in a frame of its own.
pub proof fn lemma_reachable_owned(s: SpaceModel, m: MemoryModel, v: int)
    requires
        s.wf(m),
        all_framed(s),
        trampoline_outside(s, m),
        reachable(s, m, v),
    ensures
        owns(s, frame_of(s, v)),
{
    let k = page_of(v);
    reveal(SpaceModel::wf);
    assert(s.table.contains_key(k));
    assert(k != trampoline_page());
    let i = choose|i: int| 0 <= i < s.areas.len() && (#[trigger] s.areas[i]).covers(k as int);
    assert(s.areas[i].map_type == MapType::Framed);
    assert(s.areas[i].covers(k as int));
    assert(s.areas[i].frames.contains_key(k));
}

/// Writing to the memory of a process changes only its address space.
pub proof fn lemma_written_only(s: SpaceModel, m: MemoryModel, v: int, data: Seq<u8>)
    requires
        m.wf(),
        s.wf(m),
        all_framed(s),
        trampoline_outside(s, m),
        range_reachable(s, m, v, data.len() as int),
    ensures
        changed_only(s, s, m, with_bytes(s, m, v, data)),
        with_bytes(s, m, v, data).wf(),
        s.wf(with_bytes(s, m, v, data)),
        with_bytes(s, m, v, data).frames == m.frames,
        with_bytes(s, m, v, data).start == m.start,
{
    let m2 = with_bytes(s, m, v, data);
    lemma_with_bytes(s, m, v, data);
    lemma_holds(s, m);
    assert forall|p: int| #[trigger] m.in_use(p) && !owns(s, p) implies m2.in_use(p) && m2.page(p)
        == m.page(p) by {
        assert forall|k: int| v <= k < v + data.len() implies #[trigger] frame_of(s, k) != p by {
            assert(reachable(s, m, k));
            lemma_reachable_owned(s, m, k);
        }
    }
    assert forall|p: int| #[trigger] owns(s, p) implies m2.in_use(p) by {
        assert(m.in_use(p));
    }
    lemma_still_wf(s, m, m2);
}

/// Mapping more pages of an area changes only the address space.
pub proof fn lemma_extended_only(
    s: SpaceModel,
    s2: SpaceModel,
    m: MemoryModel,
    m2: MemoryModel,
    i: int,
    from: int,
    to: int,
)
    requires
        s.wf(m),
        s2.wf(m2),
        0 <= i < s.areas.len(),
        s2.root == s.root,
        s2.areas == s.areas.update(i, s2.areas[i]),
        s.areas[i].map_type == MapType::Framed,
        pages_mapped(
            s.areas[i],
            AreaModel { r: s.areas[i].r, ..s2.areas[i] },
            s.table,
            s2.table,
            m,
            m2,
            from,
            to,
        ),
    ensures
        changed_only(s, s2, m, m2),
{
    lemma_holds(s2, m2);
    assert forall|p: int| #[trigger] owns(s2, p) implies m2.in_use(p) && (owns(s, p) || !m.in_use(
        p,
    )) by {
        if p != s2.root {
            let (j, k) = choose|j: int, k: usize|
                0 <= j < s2.areas.len() && #[trigger] s2.areas[j].frames.contains_key(k)
                    && s2.areas[j].frames[k].ppn.0 == p;
            if j != i {
                assert(s.areas[j].frames.contains_key(k));
                assert(owns(s, p));
            } else if !(from <= k < to) {
                assert(s2.areas[i].frames[k] == s.areas[i].frames[k]);
                assert(s.areas[i].frames.contains_key(k));
                assert(owns(s, p));
            } else {
                assert(!m.in_use(s2.areas[i].frames[k].ppn.0 as int));
            }
        }
    }
}

/// Different addresses of a process lie at different places of the memory.
pub proof fn law_no_alias(s: SpaceModel, m: MemoryModel, v: int, n: int)
    requires
        s.wf(m),
        all_framed(s),
        trampoline_outside(s, m),
        range_reachable(s, m, v, n),
        n <= VA_SPACE,
    ensures
        no_alias(s, v, n),
{
    assert forall|i: int, j: int|
        v <= i < j < v + n && i % PAGE_SIZE as int == j % PAGE_SIZE as int implies #[trigger] frame_of(
        s,
        i,
    ) != #[trigger] frame_of(s, j) by {
        assert(reachable(s, m, i));
        assert(reachable(s, m, j));
        assert(i % VA_SPACE as int != j % VA_SPACE as int);
        lemma_two_addresses(s, m, i, j);
    }
}

/// Two addresses of a process with the same page offset that differ in the bits that the
/// machine looks at lie in different frames.
proof fn lemma_two_addresses(s: SpaceModel, m: MemoryModel, i: int, j: int)
    requires
        s.wf(m),
        all_framed(s),
        trampoline_outside(s, m),
        reachable(s, m, i),
        reachable(s, m, j),
        i % VA_SPACE as int != j % VA_SPACE as int,
        i % PAGE_SIZE as int == j % PAGE_SIZE as int,
    ensures
        frame_of(s, i) != frame_of(s, j),
{
    lemma_place(i);
    lemma_place(j);
    lemma_two_pages(s, m, page_of(i), page_of(j));
}

/// The bits of an address that the machine looks at are its page and its offset.
proof fn lemma_place(v: int)
    requires
        0 <= v <= usize::MAX,
    ensures
        v % VA_SPACE as int == page_of(v) * PAGE_SIZE + v % PAGE_SIZE as int,
{
    let l = v % VA_SPACE as int;
    let q = v / VA_SPACE as int;
    assert(low(v as usize, VA_SPACE) == l);
    assert(v == q * 0x80_0000_0000 + l);
    assert(l % 0x1000 == v % 0x1000);
    assert(l / 0x1000 <= usize::MAX);
}

/// Two pages of a process lie in different frames.
proof fn lemma_two_pages(s: SpaceModel, m: MemoryModel, a: usize, b: usize)
    requires
        s.wf(m),
        all_framed(s),
        trampoline_outside(s, m),
        s.table.contains_key(a),
        s.table.contains_key(b),
        m.in_use(s.table[a].ppn.0 as int),
        m.in_use(s.table[b].ppn.0 as int),
        a != b,
    ensures
        s.table[a].ppn.0 != s.table[b].ppn.0,
{
    reveal(SpaceModel::wf);
    let x = choose|x: int| 0 <= x < s.areas.len() && (#[trigger] s.areas[x]).covers(a as int);
    let y = choose|y: int| 0 <= y < s.areas.len() && (#[trigger] s.areas[y]).covers(b as int);
    assert(a != trampoline_page() && b != trampoline_page());
    assert(s.areas[x].covers(a as int) && s.areas[y].covers(b as int));
    assert(s.areas[x].map_type == MapType::Framed && s.areas[y].map_type == MapType::Framed);
    assert(s.areas[x].frames.contains_key(a));
    assert(s.areas[y].frames.contains_key(b));
}

/// No address of the `n` from `v` on is one of the `l` from `w` on, as far as the machine
/// tells addresses apart.
pub open spec fn ranges_apart(v: int, n: int, w: int, l: int) -> bool {
    forall|i: int, j: int|
        v <= i < v + n && w <= j < w + l ==> #[trigger] (i % VA_SPACE as int) != #[trigger] (j
            % VA_SPACE as int)
}

/// Writing to the memory of a process leaves the bytes at other addresses as they are.
pub proof fn law_write_elsewhere(
    s: SpaceModel,
    m: MemoryModel,
    v: int,
    data: Seq<u8>,
    w: int,
    l: int,
)
    requires
        m.wf(),
        s.wf(m),
        all_framed(s),
        trampoline_outside(s, m),
        range_reachable(s, m, v, data.len() as int),
        0 <= l,
        range_reachable(s, m, w, l),
        ranges_apart(v, data.len() as int, w, l),
    ensures
        user_bytes(s, with_bytes(s, m, v, data), w, l) == user_bytes(s, m, w, l),
    decreases data.len(),
{
    if data.len() > 0 {
        let d = data.drop_last();
        let a = v + data.len() - 1;
        assert(range_reachable(s, m, v, d.len() as int));
        law_write_elsewhere(s, m, v, d, w, l);
        lemma_with_bytes(s, m, v, d);
        let m1 = with_bytes(s, m, v, d);
        let m2 = with_bytes(s, m, v, data);
        assert(reachable(s, m, a));
        assert(m1.in_use(frame_of(s, a)));
        assert(m1.pages[frame_of(s, a) - m1.start].len() == PAGE_SIZE);
        assert forall|j: int| w <= j < w + l implies #[trigger] user_byte(s, m2, j) == user_byte(
            s,
            m1,
            j,
        ) by {
            assert(reachable(s, m, j));
            assert(m1.in_use(frame_of(s, j)));
            assert(a % VA_SPACE as int != j % VA_SPACE as int);
            if a % PAGE_SIZE as int == j % PAGE_SIZE as int {
                lemma_two_addresses(s, m, a, j);
            }
        }
        assert(user_bytes(s, m2, w, l) =~= user_bytes(s, m1, w, l)) by {
            assert forall|i: int| 0 <= i < l implies user_bytes(s, m2, w, l)[i] == user_bytes(
                s,
                m1,
                w,
                l,
            )[i] by {
                assert(user_byte(s, m2, w + i) == user_byte(s, m1, w + i));
            }
        }
    }
}

} // verus!
