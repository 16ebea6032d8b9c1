//! Address spaces.
use super::address::{
    low, PhysAddr, PhysPageNum, SimpleRange, VPNRange, VirtAddr, VirtPageNum, PA_SPACE, VA_SPACE,
};
use super::frame_allocator::{lemma_with_alloc, zero_page, FrameMemory, FrameTracker, MemoryModel};
use super::map_area::{
    frames_ok, frames_released, fresh_area, kept, keys_below, only_freed, page_with, pages_mapped,
    pages_unmapped, split_off, unmapped_on, AreaModel, MapArea, MapPermission, MapType, R, X,
};
use super::page_table::{token_of, valid_entry, PageTable, PageTableEntry, PTE_V};
use super::space::{
    covered, lemma_area, lemma_cut, lemma_extend, lemma_push, lemma_remove_empty, lemma_same_use,
    pages_free, piece_of, trampoline_page, SpaceModel,
};
use crate::config::{PAGE_SIZE, TRAMPOLINE};
use std::collections::BTreeMap;
use vstd::prelude::*;

verus! {

/// address space
pub struct MemorySet {
    page_table: PageTable,
    areas: Vec<MapArea>,
}

/// What the areas of a list are.
pub open spec fn models(areas: Seq<MapArea>) -> Seq<AreaModel> {
    Seq::new(areas.len(), |i: int| areas[i]@)
}

impl View for MemorySet {
    type V = SpaceModel;

    closed spec fn view(&self) -> SpaceModel {
        SpaceModel {
            table: self.page_table@,
            areas: models(self.areas@),
            root: self.page_table.root(),
        }
    }
}

/// The page that an address lies in.
pub open spec fn floor_of(va: VirtAddr) -> int {
    va.0 as int / PAGE_SIZE as int
}

/// The first page behind all addresses before `va`.
pub open spec fn ceil_of(va: VirtAddr) -> int {
    (va.0 + PAGE_SIZE - 1) / PAGE_SIZE as int
}

/// An area was mapped into an address space, and the data copied to its front. All that
/// was there before is as it was.
pub open spec fn area_added(
    s: SpaceModel,
    s2: SpaceModel,
    m: MemoryModel,
    m2: MemoryModel,
    a: AreaModel,
    data: Seq<u8>,
) -> bool {
    let a2 = s2.areas.last();
    &&& s2.wf(m2)
    &&& s2.root == s.root
    &&& s2.areas == s.areas.push(a2)
    &&& a2 == (AreaModel { frames: a2.frames, ..a })
    &&& a2.wf()
    &&& super::map_area::mapped_on(s.table, s2.table, a2, a.l, a.r)
    &&& kept(m, m2)
    &&& m2.wf()
    &&& a.map_type == MapType::Identical ==> m2 == m
    &&& a.map_type == MapType::Framed ==> {
        &&& m2.frames.free_count() == m.frames.free_count() - (a.r - a.l)
        &&& forall|k: usize|
            a.covers(k as int) ==> {
                let p = (#[trigger] a2.frames[k]).ppn.0 as int;
                !m.in_use(p) && m2.page(p) == page_with(zero_page(), data, k - a.l)
            }
    }
}

/// The address space has room for an area, and the memory has frames for it.
pub open spec fn can_add(s: SpaceModel, m: MemoryModel, a: AreaModel) -> bool {
    &&& 0 <= a.l <= a.r <= usize::MAX
    &&& !a.covers(trampoline_page())
    &&& forall|k: usize| a.covers(k as int) ==> !#[trigger] s.table.contains_key(k)
    &&& a.map_type == MapType::Framed ==> a.r - a.l <= m.frames.free_count()
}

/// The index, from `i` on, of the first area that starts at page `v`, or the number of
/// areas if there is none.
pub open spec fn find_start(areas: Seq<AreaModel>, v: int, i: int) -> int
    decreases areas.len() - i,
{
    if i < 0 || i >= areas.len() || areas[i].l == v {
        i
    } else {
        find_start(areas, v, i + 1)
    }
}

/// `find_start` stops at an area that starts there.
pub proof fn lemma_find_start(areas: Seq<AreaModel>, v: int, i: int)
    requires
        0 <= i <= areas.len(),
    ensures
        i <= find_start(areas, v, i) <= areas.len(),
        find_start(areas, v, i) < areas.len() ==> areas[find_start(areas, v, i)].l == v,
        forall|j: int| i <= j < find_start(areas, v, i) ==> (#[trigger] areas[j]).l != v,
    decreases areas.len() - i,
{
    if i < areas.len() && areas[i].l != v {
        lemma_find_start(areas, v, i + 1);
    }
}

impl MemorySet {
    /// Create a new empty `MemorySet`.
    pub fn new_bare(mem: &mut FrameMemory) -> (r: Self)
        requires
            old(mem)@.wf(),
            old(mem)@.frames.free_count() > 0,
        ensures
            final(mem)@.wf(),
            final(mem)@ == old(mem)@.with_alloc(),
            kept(old(mem)@, final(mem)@),
            r@ == (SpaceModel {
                table: Map::empty(),
                areas: Seq::empty(),
                root: old(mem)@.frames.next(),
            }),
            r@.wf(final(mem)@),
    {
        proof {
            lemma_with_alloc(mem@);
        }
        let r: MemorySet = MemorySet { page_table: PageTable::new(mem), areas: Vec::new() };
        proof {
            assert(r@.areas =~= Seq::empty());
            assert(r@.wf(mem@)) by {
                reveal(SpaceModel::wf);
            }
        }
        r
    }

    /// The frame of the root of the page table.
    pub fn root_ppn(&self) -> (r: PhysPageNum)
        ensures
            r.0 == self@.root,
    {
        self.page_table.root_ppn()
    }

    /// Get the page table token
    pub fn token(&self) -> (r: usize)
        ensures
            r == token_of(self@.root),
    {
        self.page_table.token()
    }

    /// Translate a virtual page number to a page table entry
    pub fn translate(&self, vpn: VirtPageNum) -> (r: Option<PageTableEntry>)
        ensures
            r == if self@.table.contains_key(vpn.0) {
                Some(self@.table[vpn.0])
            } else {
                None
            },
    {
        self.page_table.translate(vpn)
    }

    /// Add a new MapArea into this MemorySet, and copy data to its front.
    /// Assuming that there are no conflicts in the virtual address
    /// space.
    pub(crate) fn push(&mut self, map_area: MapArea, data: Option<&[u8]>, mem: &mut FrameMemory)
        requires
            old(mem)@.wf(),
            old(self)@.wf(old(mem)@),
            map_area@.frames == Map::<usize, FrameTracker>::empty(),
            can_add(old(self)@, old(mem)@, map_area@),
            data is Some ==> {
                &&& map_area@.map_type == MapType::Framed
                &&& map_area@.l < map_area@.r || old(self)@.table.contains_key(
                    map_area@.l as usize,
                )
                &&& data->0@.len() <= PAGE_SIZE * (map_area@.r - map_area@.l)
            },
        ensures
            area_added(
                old(self)@,
                final(self)@,
                old(mem)@,
                final(mem)@,
                map_area@,
                match data {
                    Some(d) => d@,
                    None => Seq::empty(),
                },
            ),
    {
        let ghost s = self@;
        let ghost m = mem@;
        let ghost a = map_area@;
        let mut map_area: MapArea = map_area;
        assert(s.table == self.page_table@);
        map_area.map(&mut self.page_table, mem);
        let ghost a2 = map_area@;
        let ghost m1 = mem@;
        let ghost s2 = SpaceModel {
            table: self.page_table@,
            areas: s.areas.push(a2),
            root: s.root,
        };
        proof {
            lemma_push(s, s2, m, m1, a, a2);
            lemma_area(s2, m1, s.areas.len() as int);
            assert(s2.areas[s.areas.len() as int] == a2);
            if a.map_type == MapType::Framed {
                assert forall|k: usize| a.covers(k as int) implies m1.page(
                    (#[trigger] a2.frames[k]).ppn.0 as int,
                ) == page_with(zero_page(), Seq::empty(), k - a.l) by {
                    assert(zero_page() =~= page_with(zero_page(), Seq::empty(), k - a.l));
                }
            }
        }
        match data {
            Some(d) => {
                map_area.copy_data(&self.page_table, d, mem);
                proof {
                    let m2 = mem@;
                    assert forall|p: int| #[trigger] m1.in_use(p) == m2.in_use(p) by {}
                    lemma_same_use(s2, m1, m2);
                    assert forall|p: int| #[trigger] m.in_use(p) implies m2.in_use(p) && m2.page(p)
                        == m.page(p) by {
                        assert(m1.in_use(p));
                        assert forall|k: usize| a.l <= k < a.r implies (
                        #[trigger] a2.frames[k]).ppn.0 != p by {}
                    }
                    assert forall|k: usize| a.covers(k as int) implies {
                        let p = (#[trigger] a2.frames[k]).ppn.0 as int;
                        !m.in_use(p) && m2.page(p) == page_with(zero_page(), d@, k - a.l)
                    } by {
                        let p = a2.frames[k].ppn.0 as int;
                        assert(m1.page(p) == zero_page());
                    }
                }
            },
            None => {},
        }
        self.areas.push(map_area);
        proof {
            assert(self@.areas =~= s.areas.push(a2));
            assert(self@ =~= s2);
        }
    }

    /// Assume that no conflicts.
    pub fn insert_framed_area(
        &mut self,
        start_va: VirtAddr,
        end_va: VirtAddr,
        permission: MapPermission,
        mem: &mut FrameMemory,
    )
        requires
            old(mem)@.wf(),
            old(self)@.wf(old(mem)@),
            can_add(
                old(self)@,
                old(mem)@,
                fresh_area(floor_of(start_va), ceil_of(end_va), MapType::Framed, permission.bits),
            ),
        ensures
            area_added(
                old(self)@,
                final(self)@,
                old(mem)@,
                final(mem)@,
                fresh_area(floor_of(start_va), ceil_of(end_va), MapType::Framed, permission.bits),
                Seq::empty(),
            ),
    {
        self.push(MapArea::new(start_va, end_va, MapType::Framed, permission), None, mem);
    }

    /// The index of the first area that starts at a page.
    fn find_area(&self, start_vpn: VirtPageNum) -> (r: Option<usize>)
        ensures
            match r {
                Some(i) => i == find_start(self@.areas, start_vpn.0 as int, 0) && i
                    < self@.areas.len(),
                None => find_start(self@.areas, start_vpn.0 as int, 0) == self@.areas.len(),
            },
    {
        let mut i: usize = 0;
        while i < self.areas.len()
            invariant
                i <= self.areas@.len(),
                self@.areas == models(self.areas@),
                find_start(self@.areas, start_vpn.0 as int, 0) == find_start(
                    self@.areas,
                    start_vpn.0 as int,
                    i as int,
                ),
            decreases self.areas@.len() - i,
        {
            assert(self@.areas[i as int] == self.areas@[i as int]@);
            if self.areas[i].vpn_range.get_start().0 == start_vpn.0 {
                return Some(i);
            }
            i += 1;
        }
        None
    }

    /// remove a area
    pub fn remove_area_with_start_vpn(&mut self, start_vpn: VirtPageNum, mem: &mut FrameMemory)
        requires
            old(mem)@.wf(),
            old(self)@.wf(old(mem)@),
        ensures
            final(mem)@.wf(),
            final(self)@.wf(final(mem)@),
            ({
                let s = old(self)@;
                let i = find_start(s.areas, start_vpn.0 as int, 0);
                if i < s.areas.len() {
                    &&& final(self)@.areas == s.areas.remove(i)
                    &&& final(self)@.root == s.root
                    &&& pages_unmapped(
                        s.areas[i],
                        fresh_area(
                            s.areas[i].l,
                            s.areas[i].r,
                            s.areas[i].map_type,
                            s.areas[i].perm,
                        ),
                        s.table,
                        final(self)@.table,
                        old(mem)@,
                        final(mem)@,
                        s.areas[i].l,
                        s.areas[i].r,
                    )
                } else {
                    final(self)@ == s && final(mem)@ == old(mem)@
                }
            }),
    {
        let ghost s = self@;
        let ghost m = mem@;
        match self.find_area(start_vpn) {
            Some(idx) => {
                let ghost a = s.areas[idx as int];
                proof {
                    lemma_area(s, m, idx as int);
                    assert(self.areas@[idx as int]@ == a);
                    assert(s.table == self.page_table@);
                }
                self.areas[idx].unmap(&mut self.page_table, mem);
                proof {
                    let a2 = self.areas@[idx as int]@;
                    assert(a2.frames =~= Map::<usize, FrameTracker>::empty());
                    let left = AreaModel { r: a.l, ..a2 };
                    let s1 = SpaceModel {
                        table: self.page_table@,
                        areas: s.areas.update(idx as int, left),
                        root: s.root,
                    };
                    lemma_cut(s, s1, m, mem@, idx as int, a.l, a.r, left, left, false);
                    let s2 = SpaceModel { areas: s.areas.remove(idx as int), ..s1 };
                    assert(s1.areas.remove(idx as int) =~= s.areas.remove(idx as int));
                    lemma_remove_empty(s1, s2, mem@, idx as int);
                }
                self.areas.remove(idx);
                assert(self@.areas =~= s.areas.remove(idx as int));
            },
            None => {},
        }
    }

    /// shrink the area to new_end
    pub fn shrink_to(&mut self, start: VirtAddr, new_end: VirtAddr, mem: &mut FrameMemory) -> (r: bool)
        requires
            old(mem)@.wf(),
            old(self)@.wf(old(mem)@),
            ({
                let s = old(self)@;
                let i = find_start(s.areas, floor_of(start), 0);
                i < s.areas.len() ==> s.areas[i].l <= ceil_of(new_end) <= s.areas[i].r
            }),
        ensures
            final(mem)@.wf(),
            final(self)@.wf(final(mem)@),
            ({
                let s = old(self)@;
                let i = find_start(s.areas, floor_of(start), 0);
                let a2 = final(self)@.areas[i];
                &&& r == (i < s.areas.len())
                &&& r ==> {
                    &&& final(self)@.areas == s.areas.update(i, a2)
                    &&& final(self)@.root == s.root
                    &&& a2.r == ceil_of(new_end)
                    &&& pages_unmapped(
                        s.areas[i],
                        AreaModel { r: s.areas[i].r, ..a2 },
                        s.table,
                        final(self)@.table,
                        old(mem)@,
                        final(mem)@,
                        ceil_of(new_end),
                        s.areas[i].r,
                    )
                }
                &&& !r ==> final(self)@ == s && final(mem)@ == old(mem)@
            }),
    {
        let ghost s = self@;
        let ghost m = mem@;
        match self.find_area(start.floor()) {
            Some(i) => {
                let ghost a = s.areas[i as int];
                proof {
                    lemma_area(s, m, i as int);
                    assert(self.areas@[i as int]@ == a);
                    assert(s.table == self.page_table@);
                }
                self.areas[i].shrink_to(&mut self.page_table, new_end.ceil(), mem);
                proof {
                    let a2 = self.areas@[i as int]@;
                    assert(self@.areas =~= s.areas.update(i as int, a2));
                    lemma_cut(
                        s,
                        self@,
                        m,
                        mem@,
                        i as int,
                        ceil_of(new_end),
                        a.r,
                        a2,
                        a2,
                        false,
                    );
                }
                true
            },
            None => false,
        }
    }

    /// append the area to new_end
    pub fn append_to(&mut self, start: VirtAddr, new_end: VirtAddr, mem: &mut FrameMemory) -> (r: bool)
        requires
            old(mem)@.wf(),
            old(self)@.wf(old(mem)@),
            ({
                let s = old(self)@;
                let i = find_start(s.areas, floor_of(start), 0);
                i < s.areas.len() ==> {
                    &&& s.areas[i].r <= ceil_of(new_end)
                    &&& pages_free(s, s.areas[i].r, ceil_of(new_end))
                    &&& s.areas[i].map_type == MapType::Framed ==> ceil_of(new_end) - s.areas[i].r
                        <= old(mem)@.frames.free_count()
                }
            }),
        ensures
            final(mem)@.wf(),
            final(self)@.wf(final(mem)@),
            ({
                let s = old(self)@;
                let i = find_start(s.areas, floor_of(start), 0);
                let a2 = final(self)@.areas[i];
                &&& r == (i < s.areas.len())
                &&& r ==> {
                    &&& final(self)@.areas == s.areas.update(i, a2)
                    &&& final(self)@.root == s.root
                    &&& a2.r == ceil_of(new_end)
                    &&& pages_mapped(
                        s.areas[i],
                        AreaModel { r: s.areas[i].r, ..a2 },
                        s.table,
                        final(self)@.table,
                        old(mem)@,
                        final(mem)@,
                        s.areas[i].r,
                        ceil_of(new_end),
                    )
                }
                &&& !r ==> final(self)@ == s && final(mem)@ == old(mem)@
            }),
    {
        let ghost s = self@;
        let ghost m = mem@;
        match self.find_area(start.floor()) {
            Some(i) => {
                proof {
                    lemma_area(s, m, i as int);
                    assert(self.areas@[i as int]@ == s.areas[i as int]);
                    assert(s.table == self.page_table@);
                }
                self.areas[i].append_to(&mut self.page_table, new_end.ceil(), mem);
                proof {
                    let a2 = self.areas@[i as int]@;
                    assert(self@.areas =~= s.areas.update(i as int, a2));
                    lemma_extend(s, self@, m, mem@, i as int, a2, ceil_of(new_end));
                }
                true
            },
            None => false,
        }
    }

    /// Whether some area meets the pages that hold the addresses from `start_va` up to
    /// `end_va`.
    pub fn overlap(&self, start_va: VirtAddr, end_va: VirtAddr) -> (r: bool)
        ensures
            r == exists|i: int|
                0 <= i < self@.areas.len() && (#[trigger] self@.areas[i]).l < ceil_of(end_va)
                    && self@.areas[i].r > floor_of(start_va),
    {
        let start_vpn: VirtPageNum = start_va.floor();
        let end_vpn: VirtPageNum = end_va.ceil();
        let mut i: usize = 0;
        while i < self.areas.len()
            invariant
                i <= self.areas@.len(),
                self@.areas == models(self.areas@),
                start_vpn.0 == floor_of(start_va),
                end_vpn.0 == ceil_of(end_va),
                forall|j: int|
                    0 <= j < i ==> !((#[trigger] self@.areas[j]).l < ceil_of(end_va)
                        && self@.areas[j].r > floor_of(start_va)),
            decreases self.areas@.len() - i,
        {
            let area_l: VirtPageNum = self.areas[i].vpn_range.get_start();
            let area_r: VirtPageNum = self.areas[i].vpn_range.get_end();
            assert(self@.areas[i as int] == self.areas@[i as int]@);
            if !(area_l.0 >= end_vpn.0 || area_r.0 <= start_vpn.0) {
                return true;
            }
            i += 1;
        }
        false
    }

    /// Whether all of the pages that hold the addresses from `start_va` up to `end_va` are
    /// mapped.
    pub fn full_mapped(&self, start_va: VirtAddr, end_va: VirtAddr) -> (r: bool)
        requires
            floor_of(start_va) <= ceil_of(end_va),
        ensures
            r == forall|k: usize|
                floor_of(start_va) <= k < ceil_of(end_va) ==> #[trigger] self@.table.contains_key(k)
                    && self@.table[k].flags & PTE_V != 0,
    {
        let start_vpn: VirtPageNum = start_va.floor();
        let end_vpn: VirtPageNum = end_va.ceil();
        let mut vpn: usize = start_vpn.0;
        while vpn < end_vpn.0
            invariant
                start_vpn.0 <= vpn <= end_vpn.0,
                start_vpn.0 == floor_of(start_va),
                end_vpn.0 == ceil_of(end_va),
                forall|k: usize|
                    start_vpn.0 <= k < vpn ==> #[trigger] self@.table.contains_key(k)
                        && self@.table[k].flags & PTE_V != 0,
            decreases end_vpn.0 - vpn,
        {
            let pte: Option<PageTableEntry> = self.translate(VirtPageNum(vpn));
            let mapped: bool = match pte {
                Some(e) => e.is_valid(),
                None => false,
            };
            if !mapped {
                assert(!(self@.table.contains_key(vpn) && self@.table[vpn].flags & PTE_V != 0));
                return false;
            }
            let ghost t = self@.table;
            assert forall|k: usize| start_vpn.0 <= k <= vpn implies #[trigger] t.contains_key(k)
                && t[k].flags & PTE_V != 0 by {
                if k < vpn {
                    assert(self@.table.contains_key(k));
                } else {
                    assert(k == vpn);
                }
            }
            vpn += 1;
        }
        true
    }
}

/// The pages of area `i` from `lo` to `hi` were unmapped, and what is left of the area
/// are the pieces before and behind them: the first that has pages, or an empty piece,
/// in its place, and the second, if both have pages, at the end.
pub open spec fn area_cut(
    s: SpaceModel,
    s2: SpaceModel,
    m: MemoryModel,
    m2: MemoryModel,
    i: int,
    lo: int,
    hi: int,
) -> bool {
    let a = s.areas[i];
    let left = s2.areas[i];
    let split = a.l < lo && hi < a.r;
    &&& s2.wf(m2)
    &&& s2.root == s.root
    &&& piece_of(left, a)
    &&& if a.l < lo {
        left.l == a.l && left.r == lo
    } else if hi < a.r {
        left.l == hi && left.r == a.r
    } else {
        left.l == a.l && left.r == a.l
    }
    &&& split ==> {
        let right = s2.areas.last();
        &&& piece_of(right, a)
        &&& right.l == hi
        &&& right.r == a.r
        &&& s2.areas == s.areas.update(i, left).push(right)
    }
    &&& !split ==> s2.areas == s.areas.update(i, left)
    &&& unmapped_on(s.table, s2.table, lo, hi)
    &&& frames_released(a.frames, m, m2, lo, hi)
}

/// The part of an area that lies between the pages `a` and `b`.
pub open spec fn meet(area: AreaModel, a: int, b: int) -> (int, int) {
    if area.l >= b || area.r <= a {
        (area.l, area.l)
    } else {
        (
            if area.l >= a {
                area.l
            } else {
                a
            },
            if area.r <= b {
                area.r
            } else {
                b
            },
        )
    }
}

/// No area has pages both before `b` and from `a` on.
pub open spec fn none_meets(areas: Seq<AreaModel>, a: int, b: int) -> bool {
    forall|i: int| 0 <= i < areas.len() ==> (#[trigger] areas[i]).l >= b || areas[i].r <= a
}

/// The piece of an area from page `l` to page `r`.
pub open spec fn piece(area: AreaModel, l: int, r: int) -> AreaModel {
    AreaModel { l, r, frames: area.frames.restrict(Set::new(|k: usize| l <= k < r)), ..area }
}

/// What stands in the place of an area when its pages from `a` to `b` are gone: the piece
/// before them, or if there is none the piece behind them.
pub open spec fn placed(area: AreaModel, a: int, b: int) -> AreaModel {
    let (lo, hi) = meet(area, a, b);
    if lo >= hi {
        area
    } else if area.l < lo {
        piece(area, area.l, lo)
    } else if hi < area.r {
        piece(area, hi, area.r)
    } else {
        piece(area, area.l, area.l)
    }
}

/// Nothing is left of the area.
pub open spec fn gone(area: AreaModel, a: int, b: int) -> bool {
    area.l < area.r && meet(area, a, b) == (area.l, area.r)
}

/// There are pages of the area before and behind those that are gone.
pub open spec fn cut_in_two(area: AreaModel, a: int, b: int) -> bool {
    let (lo, hi) = meet(area, a, b);
    area.l < lo < hi < area.r
}

/// What is left of the areas from `i` on, in their places.
pub open spec fn left_from(areas: Seq<AreaModel>, a: int, b: int, i: int) -> Seq<AreaModel>
    decreases areas.len() - i,
{
    if i >= areas.len() {
        Seq::empty()
    } else if gone(areas[i], a, b) {
        left_from(areas, a, b, i + 1)
    } else {
        seq![placed(areas[i], a, b)] + left_from(areas, a, b, i + 1)
    }
}

/// The second pieces of those of the first `n` areas that are cut in two.
pub open spec fn behind(areas: Seq<AreaModel>, a: int, b: int, n: int) -> Seq<AreaModel>
    decreases n,
{
    if n <= 0 {
        Seq::empty()
    } else if cut_in_two(areas[n - 1], a, b) {
        behind(areas, a, b, n - 1).push(
            piece(areas[n - 1], meet(areas[n - 1], a, b).1, areas[n - 1].r),
        )
    } else {
        behind(areas, a, b, n - 1)
    }
}

/// The areas after the first `n` were cut, with those of which nothing is left still in
/// their places.
spec fn places(areas: Seq<AreaModel>, a: int, b: int, n: int) -> Seq<AreaModel> {
    Seq::new(
        areas.len(),
        |j: int|
            if j < n {
                placed(areas[j], a, b)
            } else {
                areas[j]
            },
    )
}

/// Where nothing is gone, all places are left.
proof fn lemma_left_from(areas: Seq<AreaModel>, a: int, b: int, i: int, j: int)
    requires
        0 <= i <= j <= areas.len(),
        forall|x: int| i <= x < j ==> !gone(#[trigger] areas[x], a, b),
    ensures
        left_from(areas, a, b, i) == places(areas, a, b, areas.len() as int).subrange(i, j)
            + left_from(areas, a, b, j),
    decreases j - i,
{
    let ps = places(areas, a, b, areas.len() as int);
    if i < j {
        lemma_left_from(areas, a, b, i + 1, j);
        assert(!gone(areas[i], a, b));
        assert(seq![placed(areas[i], a, b)] + (ps.subrange(i + 1, j) + left_from(areas, a, b, j))
            =~= ps.subrange(i, j) + left_from(areas, a, b, j));
    } else {
        assert(ps.subrange(i, j) + left_from(areas, a, b, j) =~= left_from(areas, a, b, j));
    }
}

/// A piece is known by the pages that it has.
proof fn lemma_piece_of(p: AreaModel, area: AreaModel)
    requires
        piece_of(p, area),
    ensures
        p == piece(area, p.l, p.r),
{
    assert(p.frames =~= piece(area, p.l, p.r).frames);
}

/// The pages from `a` to `b` that belong to the first `n` areas were unmapped, and their
/// frames given back, and no others.
pub open spec fn range_unmapped(
    s: SpaceModel,
    s2: SpaceModel,
    m: MemoryModel,
    m2: MemoryModel,
    n: int,
    a: int,
    b: int,
) -> bool {
    &&& s2.wf(m2)
    &&& m2.wf()
    &&& s2.root == s.root
    &&& forall|k: usize|
        #[trigger] s2.table.contains_key(k) <==> s.table.contains_key(k) && !(a <= k < b && covered(
            s.areas.take(n),
            k as int,
        ))
    &&& forall|k: usize| #[trigger] s2.table.contains_key(k) ==> s2.table[k] == s.table[k]
    &&& only_freed(m, m2)
    &&& forall|i: int, k: usize|
        0 <= i < n && a <= k < b && #[trigger] s.areas[i].frames.contains_key(k) ==> !m2.in_use(
            s.areas[i].frames[k].ppn.0 as int,
        )
    &&& forall|p: int|
        #[trigger] m.in_use(p) && (forall|i: int, k: usize|
            0 <= i < n && a <= k < b && #[trigger] s.areas[i].frames.contains_key(k)
                ==> s.areas[i].frames[k].ppn.0 != p) ==> m2.in_use(p)
}

/// Unmapping a part of one more area.
proof fn lemma_range_step(
    s: SpaceModel,
    s1: SpaceModel,
    s2: SpaceModel,
    m: MemoryModel,
    m1: MemoryModel,
    m2: MemoryModel,
    i: int,
    a: int,
    b: int,
)
    requires
        s.wf(m),
        0 <= i < s.areas.len(),
        range_unmapped(s, s1, m, m1, i, a, b),
        i < s1.areas.len(),
        s1.areas[i] == s.areas[i],
        m2.wf(),
        s2.wf(m2),
        ({
            let (lo, hi) = meet(s.areas[i], a, b);
            &&& lo < hi ==> s2.root == s1.root && unmapped_on(s1.table, s2.table, lo, hi)
                && frames_released(s.areas[i].frames, m1, m2, lo, hi)
            &&& lo >= hi ==> s2.root == s1.root && s2.table == s1.table && m2 == m1
        }),
    ensures
        range_unmapped(s, s2, m, m2, i + 1, a, b),
{
    reveal(SpaceModel::wf);
    let (lo, hi) = meet(s.areas[i], a, b);
    let ai = s.areas[i];
    assert(ai.wf());
    assert forall|v: int| ai.covers(v) && a <= v < b <==> lo <= v < hi by {}
    assert forall|v: int| covered(s.areas.take(i + 1), v) <==> covered(s.areas.take(i), v)
        || ai.covers(v) by {
        if covered(s.areas.take(i + 1), v) {
            let j = choose|j: int|
                0 <= j < s.areas.take(i + 1).len() && (#[trigger] s.areas.take(i + 1)[j]).covers(v);
            if j < i {
                assert(s.areas.take(i)[j].covers(v));
            }
        }
        if covered(s.areas.take(i), v) {
            let j = choose|j: int|
                0 <= j < s.areas.take(i).len() && (#[trigger] s.areas.take(i)[j]).covers(v);
            assert(s.areas.take(i + 1)[j].covers(v));
        }
        if ai.covers(v) {
            assert(s.areas.take(i + 1)[i].covers(v));
        }
    }
    assert forall|k: usize|
        #[trigger] s2.table.contains_key(k) <==> s.table.contains_key(k) && !(a <= k < b && covered(
            s.areas.take(i + 1),
            k as int,
        )) by {
        assert(s1.table.contains_key(k) <==> s.table.contains_key(k) && !(a <= k < b && covered(
            s.areas.take(i),
            k as int,
        )));
        assert(covered(s.areas.take(i + 1), k as int) <==> covered(s.areas.take(i), k as int)
            || ai.covers(k as int));
    }
    assert forall|k: usize| #[trigger] s2.table.contains_key(k) implies s2.table[k]
        == s.table[k] by {
        assert(s1.table.contains_key(k));
    }
    assert forall|j: int, k: usize|
        0 <= j < i + 1 && a <= k < b && #[trigger] s.areas[j].frames.contains_key(k) implies !m2.in_use(
        s.areas[j].frames[k].ppn.0 as int,
    ) by {
        let p = s.areas[j].frames[k].ppn.0 as int;
        if j < i {
            assert(!m1.in_use(p));
        } else {
            assert(ai.covers(k as int));
            assert(lo <= k < hi);
        }
    }
    assert forall|p: int|
        #[trigger] m.in_use(p) && (forall|j: int, k: usize|
            0 <= j < i + 1 && a <= k < b && #[trigger] s.areas[j].frames.contains_key(k)
                ==> s.areas[j].frames[k].ppn.0 != p) implies m2.in_use(p) by {
        assert(m1.in_use(p));
        assert forall|k: usize| lo <= k < hi && #[trigger] ai.frames.contains_key(k) implies ai.frames[k].ppn.0
            != p by {
            assert(s.areas[i].frames.contains_key(k));
        }
    }
}

impl MemorySet {
    /// Unmap the pages of an area from `lo` to `hi`. An area of which nothing is left stays
    /// without pages.
    fn cut_area(&mut self, i: usize, lo: usize, hi: usize, mem: &mut FrameMemory)
        requires
            old(mem)@.wf(),
            old(self)@.wf(old(mem)@),
            i < old(self)@.areas.len(),
            old(self)@.areas[i as int].l <= lo < hi <= old(self)@.areas[i as int].r,
        ensures
            final(mem)@.wf(),
            area_cut(
                old(self)@,
                final(self)@,
                old(mem)@,
                final(mem)@,
                i as int,
                lo as int,
                hi as int,
            ),
    {
        let ghost s = self@;
        let ghost m = mem@;
        let ghost a = s.areas[i as int];
        proof {
            lemma_area(s, m, i as int);
            assert(self.areas@[i as int]@ == a);
            assert(s.table == self.page_table@);
        }
        let area_l: VirtPageNum = self.areas[i].vpn_range.get_start();
        let area_r: VirtPageNum = self.areas[i].vpn_range.get_end();
        if area_l.0 == lo && area_r.0 == hi {
            // the whole area
            self.areas[i].unmap(&mut self.page_table, mem);
            self.areas[i].vpn_range = SimpleRange::new(area_l, area_l);
            proof {
                let left = self.areas@[i as int]@;
                assert(left.frames =~= Map::<usize, FrameTracker>::empty());
                assert(self@.areas =~= s.areas.update(i as int, left));
                lemma_cut(s, self@, m, mem@, i as int, a.l, a.r, left, left, false);
            }
        } else if area_l.0 == lo {
            // the front
            self.areas[i].unmap_pages(&mut self.page_table, lo, hi, mem);
            self.areas[i].vpn_range = SimpleRange::new(VirtPageNum(hi), area_r);
            proof {
                let left = self.areas@[i as int]@;
                assert(self@.areas =~= s.areas.update(i as int, left));
                lemma_cut(s, self@, m, mem@, i as int, lo as int, hi as int, left, left, false);
            }
        } else if area_r.0 == hi {
            // the back
            self.areas[i].shrink_to(&mut self.page_table, VirtPageNum(lo), mem);
            proof {
                let left = self.areas@[i as int]@;
                assert(self@.areas =~= s.areas.update(i as int, left));
                lemma_cut(s, self@, m, mem@, i as int, lo as int, hi as int, left, left, false);
            }
        } else {
            // the middle
            let right_data_frames: BTreeMap<usize, FrameTracker> = split_off(
                &mut self.areas[i].data_frames,
                hi,
            );
            let ghost rest = self.areas@[i as int]@;
            proof {
                assert(rest == (AreaModel { frames: keys_below(a.frames, hi), ..a }));
                assert(frames_ok(a.frames, m, lo as int, hi as int));
                assert(frames_ok(rest.frames, m, lo as int, hi as int)) by {
                    assert forall|k: usize| #[trigger] rest.frames.contains_key(k) implies a.frames.contains_key(
                        k,
                    ) && rest.frames[k] == a.frames[k] by {}
                }
            }
            self.areas[i].unmap_pages(&mut self.page_table, lo, hi, mem);
            self.areas[i].vpn_range = SimpleRange::new(area_l, VirtPageNum(lo));
            let map_type: MapType = self.areas[i].map_type;
            let map_perm: MapPermission = self.areas[i].map_perm;
            let ghost left = self.areas@[i as int]@;
            let right_area: MapArea = MapArea {
                vpn_range: SimpleRange::new(VirtPageNum(hi), area_r),
                data_frames: right_data_frames,
                map_type,
                map_perm,
            };
            let ghost right = right_area@;
            self.areas.push(right_area);
            proof {
                assert(self@.areas =~= s.areas.update(i as int, left).push(right));
                assert forall|k: usize|
                    lo <= k < hi && #[trigger] a.frames.contains_key(k) implies rest.frames.contains_key(
                    k,
                ) && rest.frames[k] == a.frames[k] by {}
                assert forall|p: int|
                    #[trigger] m.in_use(p) && (forall|k: usize|
                        lo <= k < hi && #[trigger] a.frames.contains_key(k) ==> a.frames[k].ppn.0
                            != p) implies mem@.in_use(p) by {
                    assert forall|k: usize|
                        lo <= k < hi && #[trigger] rest.frames.contains_key(k) implies rest.frames[k].ppn.0
                        != p by {
                        assert(a.frames.contains_key(k));
                    }
                }
                if a.map_type == MapType::Identical {
                    assert(left.frames =~= Map::<usize, FrameTracker>::empty());
                    assert(right.frames =~= Map::<usize, FrameTracker>::empty());
                }
                lemma_cut(s, self@, m, mem@, i as int, lo as int, hi as int, left, right, true);
            }
        }
    }

    /// Unmap the pages that hold the addresses from `start_va` up to `end_va`, as far as
    /// they belong to areas. An area that is cut in two goes on as two areas.
    pub fn unmap(&mut self, start_va: VirtAddr, end_va: VirtAddr, mem: &mut FrameMemory)
        requires
            old(mem)@.wf(),
            old(self)@.wf(old(mem)@),
            floor_of(start_va) <= ceil_of(end_va) || none_meets(
                old(self)@.areas,
                floor_of(start_va),
                ceil_of(end_va),
            ),
        ensures
            range_unmapped(
                old(self)@,
                final(self)@,
                old(mem)@,
                final(mem)@,
                old(self)@.areas.len() as int,
                floor_of(start_va),
                ceil_of(end_va),
            ),
            final(self)@.areas == left_from(
                old(self)@.areas,
                floor_of(start_va),
                ceil_of(end_va),
                0,
            ) + behind(
                old(self)@.areas,
                floor_of(start_va),
                ceil_of(end_va),
                old(self)@.areas.len() as int,
            ),
    {
        let ghost s = self@;
        let ghost m = mem@;
        let start_vpn: VirtPageNum = start_va.floor();
        let end_vpn: VirtPageNum = end_va.ceil();
        let ghost a = floor_of(start_va);
        let ghost b = ceil_of(end_va);
        let n: usize = self.areas.len();
        // the part of each area that has to go
        let mut v: Vec<VPNRange> = Vec::new();
        let mut i: usize = 0;
        while i < n
            invariant
                i <= n,
                n == s.areas.len(),
                self@ == s,
                mem@ == m,
                s.wf(m),
                start_vpn.0 == a,
                end_vpn.0 == b,
                a <= b || none_meets(s.areas, a, b),
                v@.len() == i,
                forall|j: int|
                    0 <= j < i ==> {
                        &&& (#[trigger] v@[j]).l.0 == meet(s.areas[j], a, b).0
                        &&& v@[j].r.0 == meet(s.areas[j], a, b).1
                    },
            decreases n - i,
        {
            let area_l: VirtPageNum = self.areas[i].vpn_range.get_start();
            let area_r: VirtPageNum = self.areas[i].vpn_range.get_end();
            proof {
                assert(s.areas[i as int] == self.areas@[i as int]@);
                lemma_area(s, m, i as int);
            }
            if area_l.0 >= end_vpn.0 || area_r.0 <= start_vpn.0 {
                // no overlap
                v.push(SimpleRange::new(area_l, area_l));
            } else if area_l.0 >= start_vpn.0 && area_r.0 <= end_vpn.0 {
                // all of it
                v.push(SimpleRange::new(area_l, area_r));
            } else if area_l.0 >= start_vpn.0 && area_r.0 > end_vpn.0 {
                // the front
                v.push(SimpleRange::new(area_l, end_vpn));
            } else if area_l.0 < start_vpn.0 && area_r.0 <= end_vpn.0 {
                // the back
                v.push(SimpleRange::new(start_vpn, area_r));
            } else {
                // the middle
                v.push(SimpleRange::new(start_vpn, end_vpn));
            }
            i += 1;
        }
        // unmap the parts, and note which areas are gone
        let mut delete_indices: Vec<usize> = Vec::new();
        i = 0;
        proof {
            assert(range_unmapped(s, self@, m, mem@, 0, a, b)) by {
                assert(s.areas.take(0) =~= Seq::<AreaModel>::empty());
            }
            assert(self@.areas =~= places(s.areas, a, b, 0) + behind(s.areas, a, b, 0));
        }
        while i < n
            invariant
                i <= n,
                n == s.areas.len(),
                a <= b || none_meets(s.areas, a, b),
                s.wf(m),
                mem@.wf(),
                self@.wf(mem@),
                v@.len() == n,
                forall|j: int|
                    0 <= j < n ==> {
                        &&& (#[trigger] v@[j]).l.0 == meet(s.areas[j], a, b).0
                        &&& v@[j].r.0 == meet(s.areas[j], a, b).1
                    },
                range_unmapped(s, self@, m, mem@, i as int, a, b),
                self@.areas == places(s.areas, a, b, i as int) + behind(s.areas, a, b, i as int),
                forall|x: int, y: int|
                    0 <= x < y < delete_indices@.len() ==> #[trigger] delete_indices@[x]
                        < #[trigger] delete_indices@[y],
                forall|x: int|
                    0 <= x < delete_indices@.len() ==> (#[trigger] delete_indices@[x]) < i && gone(
                        s.areas[delete_indices@[x] as int],
                        a,
                        b,
                    ),
                forall|j: int|
                    0 <= j < i && gone(#[trigger] s.areas[j], a, b) ==> delete_indices@.contains(
                        j as usize,
                    ),
            decreases n - i,
        {
            let new_l: VirtPageNum = v[i].get_start();
            let new_r: VirtPageNum = v[i].get_end();
            let ghost s1 = self@;
            let ghost m1 = mem@;
            let ghost d0 = delete_indices@;
            let ghost (lo, hi) = meet(s.areas[i as int], a, b);
            proof {
                lemma_area(s, m, i as int);
                assert(s1.areas[i as int] == s.areas[i as int]);
                assert(self.areas@.len() == s1.areas.len());
            }
            if new_l.0 < new_r.0 {
                let area_l: usize = self.areas[i].vpn_range.get_start().0;
                let area_r: usize = self.areas[i].vpn_range.get_end().0;
                proof {
                    assert(s1.areas[i as int] == self.areas@[i as int]@);
                }
                self.cut_area(i, new_l.0, new_r.0, mem);
                if area_l == new_l.0 && area_r == new_r.0 {
                    delete_indices.push(i);
                }
                proof {
                    let s2 = self@;
                    lemma_range_step(s, s1, s2, m, m1, mem@, i as int, a, b);
                    lemma_piece_of(s2.areas[i as int], s.areas[i as int]);
                    assert(s2.areas[i as int] == placed(s.areas[i as int], a, b));
                    if cut_in_two(s.areas[i as int], a, b) {
                        lemma_piece_of(s2.areas.last(), s.areas[i as int]);
                    }
                }
            } else {
                proof {
                    lemma_range_step(s, s1, s1, m, m1, m1, i as int, a, b);
                }
            }
            proof {
                assert(self@.areas =~= places(s.areas, a, b, i + 1) + behind(s.areas, a, b, i + 1));
                assert forall|j: int|
                    0 <= j < i + 1 && gone(
                        #[trigger] s.areas[j],
                        a,
                        b,
                    ) implies delete_indices@.contains(j as usize) by {
                    if j < i {
                        let x = choose|x: int| 0 <= x < d0.len() && d0[x] == j as usize;
                        assert(delete_indices@[x] == j as usize);
                    } else {
                        assert(delete_indices@.last() == i);
                    }
                }
            }
            i += 1;
        }
        // remove the areas that are gone, from the back to the front
        let ghost ps = places(s.areas, a, b, n as int);
        let ghost tail = behind(s.areas, a, b, n as int);
        let ghost mut bound: int = n as int;
        let mut q: usize = delete_indices.len();
        assert(self@.areas =~= ps.take(bound) + left_from(s.areas, a, b, bound) + tail);
        let ghost whole = self@;
        while q > 0
            invariant
                q <= delete_indices@.len(),
                mem@.wf(),
                self@.wf(mem@),
                n == s.areas.len(),
                self@.table == whole.table,
                self@.root == whole.root,
                ps == places(s.areas, a, b, n as int),
                bound == if q < delete_indices@.len() {
                    delete_indices@[q as int] as int
                } else {
                    n as int
                },
                bound <= n,
                self@.areas == ps.take(bound) + left_from(s.areas, a, b, bound) + tail,
                forall|x: int, y: int|
                    0 <= x < y < delete_indices@.len() ==> #[trigger] delete_indices@[x]
                        < #[trigger] delete_indices@[y],
                forall|x: int|
                    0 <= x < delete_indices@.len() ==> (#[trigger] delete_indices@[x]) < n && gone(
                        s.areas[delete_indices@[x] as int],
                        a,
                        b,
                    ),
                forall|j: int|
                    0 <= j < n && gone(#[trigger] s.areas[j], a, b) ==> delete_indices@.contains(
                        j as usize,
                    ),
            decreases q,
        {
            q -= 1;
            let d: usize = delete_indices[q];
            let ghost s1 = self@;
            proof {
                if q + 1 < delete_indices@.len() {
                    assert(delete_indices@[q as int] < delete_indices@[q + 1]);
                }
                assert(s1.areas[d as int] == ps[d as int]);
                assert(self.areas@.len() == s1.areas.len());
            }
            self.areas.remove(d);
            proof {
                assert(self@.areas =~= s1.areas.remove(d as int));
                lemma_remove_empty(s1, self@, mem@, d as int);
                assert forall|x: int| d + 1 <= x < bound implies !gone(
                    #[trigger] s.areas[x],
                    a,
                    b,
                ) by {
                    if gone(s.areas[x], a, b) {
                        let y = choose|y: int|
                            0 <= y < delete_indices@.len() && delete_indices@[y] == x as usize;
                        assert(y > q) by {
                            if y < q {
                                assert(delete_indices@[y] < delete_indices@[q as int]);
                            }
                        }
                        if q + 1 < y {
                            assert(delete_indices@[q + 1] < delete_indices@[y]);
                        }
                    }
                }
                lemma_left_from(s.areas, a, b, d + 1, bound);
                assert(self@.areas =~= ps.take(d as int) + left_from(s.areas, a, b, d as int)
                    + tail);
                bound = d as int;
            }
        }
        proof {
            assert(range_unmapped(s, self@, m, mem@, n as int, a, b));
            assert forall|x: int| 0 <= x < bound implies !gone(#[trigger] s.areas[x], a, b) by {
                if gone(s.areas[x], a, b) {
                    let y = choose|y: int|
                        0 <= y < delete_indices@.len() && delete_indices@[y] == x as usize;
                    if 0 < y {
                        assert(delete_indices@[0] < delete_indices@[y]);
                    }
                }
            }
            lemma_left_from(s.areas, a, b, 0, bound);
            assert(self@.areas =~= left_from(s.areas, a, b, 0) + tail);
        }
    }
}

/// After a range was unmapped, no area has a page in it.
pub proof fn law_unmapped_is_free(areas: Seq<AreaModel>, a: int, b: int)
    requires
        a <= b,
        forall|i: int| 0 <= i < areas.len() ==> (#[trigger] areas[i]).l <= areas[i].r,
    ensures
        ({
            let areas2 = left_from(areas, a, b, 0) + behind(areas, a, b, areas.len() as int);
            forall|j: int, v: int|
                0 <= j < areas2.len() && a <= v < b ==> !(#[trigger] areas2[j].covers(v))
        }),
{
    lemma_left_free(areas, a, b, 0);
    lemma_behind_free(areas, a, b, areas.len() as int);
}

/// What is left in the places has no page in the range.
proof fn lemma_left_free(areas: Seq<AreaModel>, a: int, b: int, i: int)
    requires
        a <= b,
        0 <= i <= areas.len(),
        forall|x: int| 0 <= x < areas.len() ==> (#[trigger] areas[x]).l <= areas[x].r,
    ensures
        forall|j: int, v: int|
            0 <= j < left_from(areas, a, b, i).len() && a <= v < b ==> !(#[trigger] left_from(
                areas,
                a,
                b,
                i,
            )[j].covers(v)),
    decreases areas.len() - i,
{
    if i < areas.len() {
        lemma_left_free(areas, a, b, i + 1);
        let rest = left_from(areas, a, b, i + 1);
        assert forall|j: int, v: int|
            0 <= j < left_from(areas, a, b, i).len() && a <= v < b implies !(
        #[trigger] left_from(areas, a, b, i)[j].covers(v)) by {
            assert(areas[i].l <= areas[i].r);
            if !gone(areas[i], a, b) && j > 0 {
                assert(left_from(areas, a, b, i)[j] == rest[j - 1]);
                assert(!rest[j - 1].covers(v));
            } else if gone(areas[i], a, b) {
                assert(!rest[j].covers(v));
            }
        }
    }
}

/// The second pieces have no page in the range.
proof fn lemma_behind_free(areas: Seq<AreaModel>, a: int, b: int, n: int)
    requires
        a <= b,
        0 <= n <= areas.len(),
    ensures
        forall|j: int, v: int|
            0 <= j < behind(areas, a, b, n).len() && a <= v < b ==> !(#[trigger] behind(
                areas,
                a,
                b,
                n,
            )[j].covers(v)),
    decreases n,
{
    if n > 0 {
        lemma_behind_free(areas, a, b, n - 1);
        let rest = behind(areas, a, b, n - 1);
        assert forall|j: int, v: int|
            0 <= j < behind(areas, a, b, n).len() && a <= v < b implies !(#[trigger] behind(
            areas,
            a,
            b,
            n,
        )[j].covers(v)) by {
            if j < rest.len() {
                assert(behind(areas, a, b, n)[j] == rest[j]);
                assert(!rest[j].covers(v));
            }
        }
    }
}

/// The frames of the first `n` areas were given back, and no others.
pub open spec fn areas_released(
    areas: Seq<AreaModel>,
    m: MemoryModel,
    m2: MemoryModel,
    n: int,
) -> bool {
    &&& only_freed(m, m2)
    &&& forall|i: int, k: usize|
        0 <= i < n && #[trigger] areas[i].frames.contains_key(k) ==> !m2.in_use(
            areas[i].frames[k].ppn.0 as int,
        )
    &&& forall|p: int|
        #[trigger] m.in_use(p) && (forall|i: int, k: usize|
            0 <= i < n && #[trigger] areas[i].frames.contains_key(k) ==> areas[i].frames[k].ppn.0
                != p) ==> m2.in_use(p)
}

/// The frames of an area are in use as long as only frames of the areas before it were
/// given back.
proof fn lemma_release_step(
    s: SpaceModel,
    m: MemoryModel,
    m1: MemoryModel,
    m2: MemoryModel,
    i: int,
)
    requires
        s.wf(m),
        0 <= i < s.areas.len(),
        areas_released(s.areas, m, m1, i),
    ensures
        s.areas[i].wf(),
        frames_ok(s.areas[i].frames, m1, s.areas[i].l, s.areas[i].r),
        frames_released(s.areas[i].frames, m1, m2, s.areas[i].l, s.areas[i].r) ==> areas_released(
            s.areas,
            m,
            m2,
            i + 1,
        ),
{
    reveal(SpaceModel::wf);
    let f = s.areas[i].frames;
    assert(s.areas[i].wf());
    assert forall|k: usize| #[trigger] f.contains_key(k) implies m1.in_use(f[k].ppn.0 as int) by {
        assert(s.areas[i].frames.contains_key(k));
        assert(m.in_use(f[k].ppn.0 as int));
        assert forall|j: int, h: usize|
            0 <= j < i && #[trigger] s.areas[j].frames.contains_key(h) implies s.areas[j].frames[h].ppn.0
            != f[k].ppn.0 by {
            assert(s.areas[i].frames.contains_key(k));
        }
    }
    assert forall|k: usize, j: usize|
        k != j && #[trigger] f.contains_key(k) && #[trigger] f.contains_key(j) implies f[k].ppn.0
        != f[j].ppn.0 by {
        assert(s.areas[i].frames.contains_key(k));
        assert(s.areas[i].frames.contains_key(j));
    }
    if frames_released(f, m1, m2, s.areas[i].l, s.areas[i].r) {
        assert forall|j: int, k: usize|
            0 <= j < i + 1 && #[trigger] s.areas[j].frames.contains_key(k) implies !m2.in_use(
            s.areas[j].frames[k].ppn.0 as int,
        ) by {
            if j < i {
                assert(!m1.in_use(s.areas[j].frames[k].ppn.0 as int));
            } else {
                assert(f.contains_key(k));
            }
        }
        assert forall|p: int|
            #[trigger] m.in_use(p) && (forall|j: int, k: usize|
                0 <= j < i + 1 && #[trigger] s.areas[j].frames.contains_key(k)
                    ==> s.areas[j].frames[k].ppn.0 != p) implies m2.in_use(p) by {
            assert(m1.in_use(p));
            assert forall|k: usize|
                s.areas[i].l <= k < s.areas[i].r && #[trigger] f.contains_key(k) implies f[k].ppn.0
                != p by {
                assert(s.areas[i].frames.contains_key(k));
            }
        }
    }
}

impl MemorySet {
    /// Remove all `MapArea`s and give their frames back. The page table stays as it is.
    pub fn recycle_data_pages(&mut self, mem: &mut FrameMemory)
        requires
            old(mem)@.wf(),
            old(self)@.wf(old(mem)@),
        ensures
            final(mem)@.wf(),
            final(self)@ == (SpaceModel { areas: Seq::empty(), ..old(self)@ }),
            areas_released(
                old(self)@.areas,
                old(mem)@,
                final(mem)@,
                old(self)@.areas.len() as int,
            ),
    {
        let ghost s = self@;
        let ghost m = mem@;
        let n: usize = self.areas.len();
        let mut i: usize = 0;
        while i < n
            invariant
                i <= n,
                n == s.areas.len(),
                self.areas@.len() == n,
                self.page_table@ == s.table,
                self.page_table.root() == s.root,
                mem@.wf(),
                s.wf(m),
                areas_released(s.areas, m, mem@, i as int),
                forall|j: int| i <= j < n ==> (#[trigger] self.areas@[j])@ == s.areas[j],
            decreases n - i,
        {
            let ghost m1 = mem@;
            proof {
                lemma_release_step(s, m, m1, m1, i as int);
                assert(self.areas@[i as int]@ == s.areas[i as int]);
            }
            self.areas[i].release(mem);
            proof {
                lemma_release_step(s, m, m1, mem@, i as int);
            }
            i += 1;
        }
        self.areas.clear();
        assert(self@.areas =~= Seq::empty());
    }

    /// Mention that trampoline is not collected by areas.
    pub(crate) fn map_trampoline(&mut self, strampoline: usize, mem: &FrameMemory)
        requires
            old(self)@.wf(mem@),
            low(strampoline, PA_SPACE) % PAGE_SIZE == 0,
            !old(self)@.table.contains_key(trampoline_page() as usize),
        ensures
            final(self)@ == with_trampoline(old(self)@, strampoline),
            final(self)@.wf(mem@),
    {
        let ghost s = self@;
        let va: VirtAddr = VirtAddr::from(TRAMPOLINE);
        proof {
            lemma_trampoline();
        }
        self.page_table.map(va.page(), PhysAddr::from(strampoline).page(), R | X);
        proof {
            let s2 = self@;
            reveal(SpaceModel::wf);
            assert(s2.areas == s.areas);
            let t = trampoline_page() as usize;
            assert forall|i: int, k: usize|
                0 <= i < s2.areas.len() && #[trigger] s2.areas[i].covers(k as int) implies s2.table.contains_key(
                k,
            ) && s2.table[k] == s2.areas[i].entry(k) by {
                assert(s.areas[i].covers(k as int));
                assert(!s.areas[i].covers(trampoline_page()));
            }
        }
    }
}

/// The trampoline is the last page of the virtual address space.
pub proof fn lemma_trampoline()
    ensures
        low(TRAMPOLINE, VA_SPACE) % PAGE_SIZE == 0,
        0 <= trampoline_page() <= usize::MAX,
        trampoline_page() * PAGE_SIZE == low(TRAMPOLINE, VA_SPACE),
        trampoline_page() >= 1,
{
    let t = TRAMPOLINE;
    if usize::MAX == 0xffff_ffff {
        assert(low(t, VA_SPACE) == 0xffff_f000usize);
    } else {
        assert(usize::MAX == 0xffff_ffff_ffff_ffff);
        assert(low(t, VA_SPACE) == 0x7f_ffff_f000);
    }
}

/// An address space with the trampoline mapped.
pub open spec fn with_trampoline(s: SpaceModel, strampoline: usize) -> SpaceModel {
    SpaceModel {
        table: s.table.insert(
            trampoline_page() as usize,
            valid_entry((low(strampoline, PA_SPACE) / PAGE_SIZE) as usize, R | X),
        ),
        ..s
    }
}

/// The number of pages of the areas.
pub open spec fn total_pages(areas: Seq<AreaModel>) -> int
    decreases areas.len(),
{
    if areas.len() == 0 {
        0
    } else {
        total_pages(areas.drop_last()) + (areas.last().r - areas.last().l)
    }
}

/// The first areas have no more pages than all of them.
proof fn lemma_total_pages(areas: Seq<AreaModel>, n: int)
    requires
        0 <= n <= areas.len(),
        forall|i: int| 0 <= i < areas.len() ==> (#[trigger] areas[i]).l <= areas[i].r,
    ensures
        0 <= total_pages(areas.take(n)) <= total_pages(areas),
        n < areas.len() ==> total_pages(areas.take(n + 1)) == total_pages(areas.take(n)) + (
        areas[n].r - areas[n].l) && total_pages(areas.take(n + 1)) <= total_pages(areas),
    decreases areas.len(),
{
    if areas.len() == 0 {
        assert(areas.take(n) =~= areas);
    } else {
        let rest = areas.drop_last();
        assert forall|i: int| 0 <= i < rest.len() implies (#[trigger] rest[i]).l <= rest[i].r by {
            assert(rest[i] == areas[i]);
        }
        assert(areas.last() == areas[areas.len() - 1]);
        if n < areas.len() {
            lemma_total_pages(rest, n);
            assert(areas.take(n) =~= rest.take(n));
            assert(areas.take(n + 1).drop_last() =~= areas.take(n));
            assert(areas.take(n + 1).last() == areas[n]);
            if n + 1 < areas.len() {
                assert(areas.take(n + 1) =~= rest.take(n + 1));
            } else {
                assert(areas.take(n + 1) =~= areas);
                assert(rest.take(n) =~= rest);
            }
        } else {
            lemma_total_pages(rest, n - 1);
            assert(rest.take(n - 1) =~= rest);
            assert(areas.take(n) =~= areas);
        }
    }
}

/// The first `n` areas of an address space were copied to another one, which has nothing
/// else but the trampoline: the same pages with the same permissions, in frames of their
/// own, with the same bytes.
pub open spec fn copied(
    s: SpaceModel,
    c: SpaceModel,
    m: MemoryModel,
    m2: MemoryModel,
    n: int,
    strampoline: usize,
) -> bool {
    &&& c.wf(m2)
    &&& c.areas.len() == n
    &&& forall|i: int|
        0 <= i < n ==> {
            &&& (#[trigger] c.areas[i]).l == s.areas[i].l
            &&& c.areas[i].r == s.areas[i].r
            &&& c.areas[i].map_type == s.areas[i].map_type
            &&& c.areas[i].perm == s.areas[i].perm
        }
    &&& forall|k: usize|
        #[trigger] c.table.contains_key(k) <==> k == trampoline_page() || covered(
            s.areas.take(n),
            k as int,
        )
    &&& c.table[trampoline_page() as usize] == valid_entry(
        (low(strampoline, PA_SPACE) / PAGE_SIZE) as usize,
        R | X,
    )
    &&& forall|i: int, k: usize|
        0 <= i < n && #[trigger] c.areas[i].covers(k as int) ==> {
            let p = c.table[k].ppn.0 as int;
            &&& !m.in_use(p)
            &&& m2.page(p) == m.page(s.table[k].ppn.0 as int)
        }
}

/// A page of area `i` has a frame of its own that was not in use before.
pub open spec fn own_page(
    c: SpaceModel,
    m: MemoryModel,
    m2: MemoryModel,
    i: int,
    k: usize,
) -> bool {
    &&& c.table.contains_key(k)
    &&& c.areas[i].frames.contains_key(k)
    &&& c.table[k].ppn == c.areas[i].frames[k].ppn
    &&& !m.in_use(c.table[k].ppn.0 as int)
    &&& m2.in_use(c.table[k].ppn.0 as int)
}

/// One more area was copied.
proof fn lemma_copied_step(
    s: SpaceModel,
    c: SpaceModel,
    c2: SpaceModel,
    m: MemoryModel,
    m1: MemoryModel,
    m2: MemoryModel,
    i: int,
    strampoline: usize,
)
    requires
        s.wf(m),
        0 <= i < s.areas.len(),
        copied(s, c, m, m1, i, strampoline),
        kept(m, m1),
        area_added(
            c,
            c2,
            m1,
            m2,
            fresh_area(s.areas[i].l, s.areas[i].r, s.areas[i].map_type, s.areas[i].perm),
            Seq::empty(),
        ),
        forall|j: int| 0 <= j <= i ==> (#[trigger] s.areas[j]).map_type == MapType::Framed,
    ensures
        kept(m, m2),
        forall|k: usize|
            #[trigger] c2.table.contains_key(k) <==> k == trampoline_page() || covered(
                s.areas.take(i + 1),
                k as int,
            ),
        c2.table[trampoline_page() as usize] == c.table[trampoline_page() as usize],
        forall|j: int| 0 <= j < i ==> #[trigger] c2.areas[j] == c.areas[j],
        forall|j: int, k: usize|
            0 <= j < i && #[trigger] c2.areas[j].covers(k as int) ==> {
                let p = c2.table[k].ppn.0 as int;
                &&& m1.in_use(p)
                &&& !m.in_use(p)
                &&& m2.page(p) == m.page(s.table[k].ppn.0 as int)
            },
        forall|k: usize| #[trigger] s.areas[i].covers(k as int) ==> own_page(c2, m1, m2, i, k),
{
    let a = s.areas[i];
    let a2 = c2.areas.last();
    assert(c2.areas[i] == a2);
    lemma_area(s, m, i);
    assert forall|v: int| covered(s.areas.take(i + 1), v) <==> covered(s.areas.take(i), v)
        || a.covers(v) by {
        if covered(s.areas.take(i + 1), v) {
            let j = choose|j: int|
                0 <= j < s.areas.take(i + 1).len() && (#[trigger] s.areas.take(i + 1)[j]).covers(v);
            if j < i {
                assert(s.areas.take(i)[j].covers(v));
            }
        }
        if covered(s.areas.take(i), v) {
            let j = choose|j: int|
                0 <= j < s.areas.take(i).len() && (#[trigger] s.areas.take(i)[j]).covers(v);
            assert(s.areas.take(i + 1)[j].covers(v));
        }
        if a.covers(v) {
            assert(s.areas.take(i + 1)[i].covers(v));
        }
    }
    assert forall|k: usize|
        #[trigger] c2.table.contains_key(k) <==> k == trampoline_page() || covered(
            s.areas.take(i + 1),
            k as int,
        ) by {
        assert(c.table.contains_key(k) <==> k == trampoline_page() || covered(
            s.areas.take(i),
            k as int,
        ));
        assert(covered(s.areas.take(i + 1), k as int) <==> covered(s.areas.take(i), k as int)
            || a.covers(k as int));
    }
    lemma_trampoline();
    assert(c.table.contains_key(trampoline_page() as usize));
    assert(c2.table.contains_key(trampoline_page() as usize));
    assert forall|p: int| #[trigger] m.in_use(p) implies m2.in_use(p) && m2.page(p) == m.page(
        p,
    ) by {
        assert(m1.in_use(p));
    }
    assert forall|j: int, k: usize| 0 <= j < i && #[trigger] c2.areas[j].covers(k as int) implies {
        let p = c2.table[k].ppn.0 as int;
        &&& m1.in_use(p)
        &&& !m.in_use(p)
        &&& m2.page(p) == m.page(s.table[k].ppn.0 as int)
    } by {
        assert(c2.areas[j] == c.areas[j]);
        assert(c.areas[j].covers(k as int));
        lemma_area(c, m1, j);
        assert(c.table.contains_key(k));
        assert(c2.table.contains_key(k));
        assert(!a.covers(k as int)) by {
            lemma_disjoint_areas(s, m, i, j, k as int);
        }
        assert(c.areas[j].frames.contains_key(k)) by {
            lemma_framed(s, c, m, m1, i, strampoline, j);
        }
        assert(m1.in_use(c.areas[j].frames[k].ppn.0 as int));
    }
    lemma_area(c2, m2, i);
    assert forall|k: usize| #[trigger] s.areas[i].covers(k as int) implies own_page(
        c2,
        m1,
        m2,
        i,
        k,
    ) by {
        assert(c2.areas[i].covers(k as int));
        assert(c2.table.contains_key(k));
        assert(c2.areas[i].frames.contains_key(k));
        let f = a2.frames[k];
        assert(a2.map_type == MapType::Framed);
        assert(fresh_area(a.l, a.r, a.map_type, a.perm).covers(k as int));
        assert(!m1.in_use(f.ppn.0 as int));
    }
}

/// A page belongs to no two areas.
proof fn lemma_disjoint_areas(s: SpaceModel, m: MemoryModel, i: int, j: int, v: int)
    requires
        s.wf(m),
        0 <= i < s.areas.len(),
        0 <= j < s.areas.len(),
        i != j,
        s.areas[j].covers(v),
    ensures
        !s.areas[i].covers(v),
{
    reveal(SpaceModel::wf);
}

/// Copies of framed areas are framed.
proof fn lemma_framed(
    s: SpaceModel,
    c: SpaceModel,
    m: MemoryModel,
    m1: MemoryModel,
    n: int,
    strampoline: usize,
    j: int,
)
    requires
        copied(s, c, m, m1, n, strampoline),
        0 <= j < n,
        s.areas[j].map_type == MapType::Framed,
    ensures
        forall|k: usize|
            c.areas[j].covers(k as int) ==> #[trigger] c.areas[j].frames.contains_key(k),
{
    lemma_area(c, m1, j);
    assert(c.areas[j].l == s.areas[j].l);
}

impl MemorySet {
    /// Create a new address space by copying code and data from the address space of
    /// another process.
    pub fn from_existed_user(user_space: &Self, strampoline: usize, mem: &mut FrameMemory) -> (r:
        Self)
        requires
            old(mem)@.wf(),
            user_space@.wf(old(mem)@),
            low(strampoline, PA_SPACE) % PAGE_SIZE == 0,
            forall|i: int|
                0 <= i < user_space@.areas.len() ==> (#[trigger] user_space@.areas[i]).map_type
                    == MapType::Framed,
            total_pages(user_space@.areas) < old(mem)@.frames.free_count(),
        ensures
            final(mem)@.wf(),
            kept(old(mem)@, final(mem)@),
            user_space@.wf(final(mem)@),
            copied(
                user_space@,
                r@,
                old(mem)@,
                final(mem)@,
                user_space@.areas.len() as int,
                strampoline,
            ),
            r@.root == old(mem)@.frames.next(),
            final(mem)@.frames.free_count() == old(mem)@.frames.free_count() - 1 - total_pages(
                user_space@.areas,
            ),
    {
        let ghost s = user_space@;
        let ghost m0 = mem@;
        let n: usize = user_space.areas.len();
        proof {
            assert forall|j: int| 0 <= j < n implies (#[trigger] s.areas[j]).l <= s.areas[j].r by {
                lemma_area(s, m0, j);
            }
            lemma_total_pages(s.areas, 0);
            lemma_with_alloc(m0);
            super::frame_allocator::lemma_allocated(m0.frames);
            lemma_trampoline();
        }
        let mut memory_set: MemorySet = MemorySet::new_bare(mem);
        // map trampoline
        memory_set.map_trampoline(strampoline, mem);
        // copy data sections/trap_context/user_stack
        let mut i: usize = 0;
        proof {
            assert forall|j: int| 0 <= j < n implies (#[trigger] s.areas[j]).l <= s.areas[j].r by {
                lemma_area(s, m0, j);
            }
            assert(s.areas.take(0) =~= Seq::<AreaModel>::empty());
            assert forall|k: usize|
                #[trigger] memory_set@.table.contains_key(k) <==> k == trampoline_page() || covered(
                    s.areas.take(0),
                    k as int,
                ) by {}
        }
        while i < n
            invariant
                i <= n,
                n == user_space.areas@.len(),
                s == user_space@,
                n == s.areas.len(),
                mem@.wf(),
                s.wf(m0),
                kept(m0, mem@),
                copied(s, memory_set@, m0, mem@, i as int, strampoline),
                memory_set@.root == m0.frames.next(),
                mem@.frames.free_count() == m0.frames.free_count() - 1 - total_pages(
                    s.areas.take(i as int),
                ),
                total_pages(s.areas) < m0.frames.free_count(),
                forall|j: int| 0 <= j < n ==> (#[trigger] s.areas[j]).l <= s.areas[j].r,
                forall|j: int|
                    0 <= j < n ==> (#[trigger] s.areas[j]).map_type == MapType::Framed,
            decreases n - i,
        {
            let ghost c = memory_set@;
            let ghost m1 = mem@;
            let ghost a = s.areas[i as int];
            proof {
                lemma_area(s, m0, i as int);
                lemma_total_pages(s.areas, i as int);
                assert(user_space.areas@[i as int]@ == a);
                assert forall|k: usize| a.covers(k as int) implies !#[trigger] c.table.contains_key(
                    k,
                ) by {
                    if covered(s.areas.take(i as int), k as int) {
                        let j = choose|j: int|
                            0 <= j < s.areas.take(i as int).len() && (#[trigger] s.areas.take(
                                i as int,
                            )[j]).covers(k as int);
                        assert(s.areas[j].covers(k as int));
                        lemma_disjoint_areas(s, m0, i as int, j, k as int);
                    }
                }
            }
            let new_area: MapArea = MapArea::from_another(&user_space.areas[i]);
            memory_set.push(new_area, None, mem);
            let ghost c2 = memory_set@;
            let ghost m2 = mem@;
            proof {
                lemma_copied_step(s, c, c2, m0, m1, m2, i as int, strampoline);
                lemma_same_use(s, m0, m2);
                lemma_area(s, m2, i as int);
            }
            // copy data from another space
            let end: usize = user_space.areas[i].vpn_range.get_end().0;
            let mut vpn: usize = user_space.areas[i].vpn_range.get_start().0;
            while vpn < end
                invariant
                    a.l <= vpn <= end,
                    end == a.r,
                    i < n,
                    n == s.areas.len(),
                    s == user_space@,
                    a == s.areas[i as int],
                    a.map_type == MapType::Framed,
                    c2 == memory_set@,
                    mem@.wf(),
                    m2.wf(),
                    s.wf(m0),
                    s.wf(m2),
                    c2.wf(m2),
                    i < c2.areas.len(),
                    kept(m0, m2),
                    kept(m0, m1),
                    kept(m1, m2),
                    kept(m0, mem@),
                    mem@.frames == m2.frames,
                    mem@.start == m2.start,
                    forall|k: usize|
                        #[trigger] a.covers(k as int) ==> own_page(c2, m1, m2, i as int, k),
                    forall|k: usize|
                        a.l <= k < vpn ==> mem@.page((#[trigger] c2.table[k]).ppn.0 as int)
                            == m0.page(s.table[k].ppn.0 as int),
                    forall|p: int|
                        #[trigger] m1.in_use(p) ==> mem@.page(p) == m2.page(p),
                decreases end - vpn,
            {
                proof {
                    lemma_area(s, m0, i as int);
                    assert(a.covers(vpn as int));
                    assert(s.table.contains_key(vpn));
                    assert(a.frames.contains_key(vpn));
                    assert(m0.in_use(s.table[vpn].ppn.0 as int));
                    assert(mem@.in_use(s.table[vpn].ppn.0 as int));
                    assert(own_page(c2, m1, m2, i as int, vpn));
                    assert(mem@.in_use(c2.table[vpn].ppn.0 as int));
                }
                let ghost m3 = mem@;
                let src_ppn: PhysPageNum = user_space.translate(
                    VirtPageNum(vpn),
                ).unwrap().ppn();
                let dst_ppn: PhysPageNum = memory_set.translate(
                    VirtPageNum(vpn),
                ).unwrap().ppn();
                mem.copy_page(src_ppn, dst_ppn);
                proof {
                    let m4 = mem@;
                    let d = dst_ppn.0 as int;
                    assert forall|p: int| #[trigger] m4.in_use(p) == m3.in_use(p) by {}
                    assert forall|p: int| #[trigger] m0.in_use(p) implies m4.in_use(p) && m4.page(p)
                        == m0.page(p) by {
                        assert(m1.in_use(p));
                        assert(p != d);
                        assert(m3.in_use(p));
                    }
                    assert forall|k: usize| a.l <= k <= vpn implies m4.page(
                        (#[trigger] c2.table[k]).ppn.0 as int,
                    ) == m0.page(s.table[k].ppn.0 as int) by {
                        if k < vpn {
                            assert(a.covers(k as int));
                            assert(own_page(c2, m1, m2, i as int, k));
                            lemma_area(c2, m2, i as int);
                            assert(frames_ok(
                                c2.areas[i as int].frames,
                                m2,
                                k as int,
                                vpn + 1,
                            ));
                            assert(c2.table[k].ppn.0 != c2.table[vpn].ppn.0);
                        }
                    }
                    assert forall|p: int| #[trigger] m1.in_use(p) implies m4.page(p) == m2.page(
                        p,
                    ) by {
                        assert(p != d);
                        assert(m3.page(p) == m2.page(p));
                    }
                }
                vpn += 1;
            }
            proof {
                let m4 = mem@;
                assert forall|p: int| #[trigger] m2.in_use(p) implies m4.in_use(p) by {}
                lemma_same_use(c2, m2, m4);
                assert forall|j: int, k: usize|
                    0 <= j < i + 1 && #[trigger] c2.areas[j].covers(k as int) implies {
                    let p = c2.table[k].ppn.0 as int;
                    &&& !m0.in_use(p)
                    &&& m4.page(p) == m0.page(s.table[k].ppn.0 as int)
                } by {
                    if j < i {
                        assert(m1.in_use(c2.table[k].ppn.0 as int));
                    } else {
                        assert(a.covers(k as int));
                        assert(own_page(c2, m1, m2, i as int, k));
                        let p = c2.table[k].ppn.0 as int;
                        assert(m0.in_use(p) ==> m1.in_use(p));
                    }
                }
            }
            i += 1;
        }
        proof {
            lemma_same_use(s, m0, mem@);
            assert(s.areas.take(n as int) =~= s.areas);
        }
        memory_set
    }
}

} // verus!
