//! Contiguous pieces of virtual memory.
use super::address::{PhysPageNum, SimpleRange, VPNRange, VirtAddr, VirtPageNum};
use super::frame_allocator::{
    lemma_in_use, lemma_with_alloc, lemma_with_dealloc, zero_page, FrameMemory, FrameTracker,
    MemoryModel,
};
use super::page_table::{valid_entry, PageTable, PageTableEntry};
use crate::config::PAGE_SIZE;
use std::collections::BTreeMap;
use vstd::prelude::*;

verus! {

/// map type for memory set: identical or framed
#[derive(Copy, Clone, PartialEq, Eq, Debug, Structural)]
pub enum MapType {
    /// A page lies in the frame with its own number.
    Identical,
    /// A page lies in a frame that was allocated for it.
    Framed,
}

/// The pages can be read.
pub const R: u8 = 2;

/// The pages can be written.
pub const W: u8 = 4;

/// The pages can be executed.
pub const X: u8 = 8;

/// The pages can be used in user mode.
pub const U: u8 = 16;

/// map permission corresponding to that in pte: `R W X U`
#[derive(Copy, Clone, PartialEq, Eq, Debug, Structural)]
pub struct MapPermission {
    pub bits: u8,
}

/// What an area is: its pages, from `l` up to but not including `r`, and the frames that
/// were allocated for them.
#[verifier::ext_equal]
pub struct AreaModel {
    pub l: int,
    pub r: int,
    pub map_type: MapType,
    pub perm: u8,
    pub frames: Map<usize, FrameTracker>,
}

impl AreaModel {
    /// The page belongs to the area.
    pub open spec fn covers(self, v: int) -> bool {
        self.l <= v < self.r
    }

    /// A framed area has a frame for every page, and an identical one has none.
    pub open spec fn wf(self) -> bool {
        &&& 0 <= self.l <= self.r <= usize::MAX
        &&& forall|k: usize|
            #[trigger] self.frames.contains_key(k) <==> self.map_type == MapType::Framed
                && self.covers(k as int)
    }

    /// The page table entry of a page of the area.
    pub open spec fn entry(self, v: usize) -> PageTableEntry {
        match self.map_type {
            MapType::Identical => valid_entry(v, self.perm),
            MapType::Framed => valid_entry(self.frames[v].ppn.0, self.perm),
        }
    }
}

/// Every frame that was in use still is, with the same bytes.
pub open spec fn kept(m: MemoryModel, m2: MemoryModel) -> bool {
    &&& m2.start == m.start
    &&& m2.frames.end == m.frames.end
    &&& forall|p: int| #[trigger] m.in_use(p) ==> m2.in_use(p) && m2.page(p) == m.page(p)
}

/// Frames were only given back, and no byte was changed.
pub open spec fn only_freed(m: MemoryModel, m2: MemoryModel) -> bool {
    &&& m2.start == m.start
    &&& m2.frames.end == m.frames.end
    &&& m2.pages == m.pages
    &&& forall|p: int| #[trigger] m2.in_use(p) ==> m.in_use(p)
}

/// The frames of the pages from `a` to `b` are in use, and no two pages share one.
pub open spec fn frames_ok(f: Map<usize, FrameTracker>, m: MemoryModel, a: int, b: int) -> bool {
    &&& forall|k: usize|
        a <= k < b && #[trigger] f.contains_key(k) ==> m.in_use(f[k].ppn.0 as int)
    &&& forall|k: usize, j: usize|
        a <= k < b && a <= j < b && k != j && #[trigger] f.contains_key(k)
            && #[trigger] f.contains_key(j) ==> f[k].ppn.0 != f[j].ppn.0
}

/// Pages from `a` to `b` were mapped: the entries are those of the area, and all other
/// entries are as before.
pub open spec fn mapped_on(
    t: Map<usize, PageTableEntry>,
    t2: Map<usize, PageTableEntry>,
    area: AreaModel,
    a: int,
    b: int,
) -> bool {
    &&& forall|k: usize| #[trigger] t2.contains_key(k) <==> t.contains_key(k) || a <= k < b
    &&& forall|k: usize|
        #[trigger] t2.contains_key(k) ==> t2[k] == if a <= k < b {
            area.entry(k)
        } else {
            t[k]
        }
}

/// Pages from `a` to `b` were unmapped, and all other entries are as before.
pub open spec fn unmapped_on(
    t: Map<usize, PageTableEntry>,
    t2: Map<usize, PageTableEntry>,
    a: int,
    b: int,
) -> bool {
    &&& forall|k: usize| #[trigger] t2.contains_key(k) <==> t.contains_key(k) && !(a <= k < b)
    &&& forall|k: usize| #[trigger] t2.contains_key(k) ==> t2[k] == t[k]
}

/// map area structure, controls a contiguous piece of virtual memory
pub struct MapArea {
    pub vpn_range: VPNRange,
    pub data_frames: BTreeMap<usize, FrameTracker>,
    pub map_type: MapType,
    pub map_perm: MapPermission,
}

impl View for MapArea {
    type V = AreaModel;

    open spec fn view(&self) -> AreaModel {
        AreaModel {
            l: self.vpn_range.l.0 as int,
            r: self.vpn_range.r.0 as int,
            map_type: self.map_type,
            perm: self.map_perm.bits,
            frames: self.data_frames@,
        }
    }
}

/// `BTreeMap::split_off`: the entries with keys from `at` on leave the map and are
/// returned, the others stay.
#[verifier::external_body]
pub(crate) fn split_off(
    m: &mut BTreeMap<usize, FrameTracker>,
    at: usize,
) -> (r: BTreeMap<usize, FrameTracker>)
    ensures
        final(m)@ == keys_below(old(m)@, at),
        r@ == keys_from(old(m)@, at),
{
    m.split_off(&at)
}

/// The entries with keys below `at`.
pub open spec fn keys_below(m: Map<usize, FrameTracker>, at: usize) -> Map<usize, FrameTracker> {
    Map::new(|k: usize| m.contains_key(k) && k < at, |k: usize| m[k])
}

/// The entries with keys from `at` on.
pub open spec fn keys_from(m: Map<usize, FrameTracker>, at: usize) -> Map<usize, FrameTracker> {
    Map::new(|k: usize| m.contains_key(k) && k >= at, |k: usize| m[k])
}

impl MapArea {
    /// An area of the pages that hold the addresses from `start_va` up to `end_va`. It is
    /// not mapped yet.
    pub fn new(
        start_va: VirtAddr,
        end_va: VirtAddr,
        map_type: MapType,
        map_perm: MapPermission,
    ) -> (r: Self)
        requires
            start_va.0 as int / PAGE_SIZE as int <= (end_va.0 + PAGE_SIZE - 1) / PAGE_SIZE as int,
        ensures
            r@ == fresh_area(
                start_va.0 as int / PAGE_SIZE as int,
                (end_va.0 + PAGE_SIZE - 1) / PAGE_SIZE as int,
                map_type,
                map_perm.bits,
            ),
    {
        let start_vpn: VirtPageNum = start_va.floor();
        let end_vpn: VirtPageNum = end_va.ceil();
        MapArea {
            vpn_range: SimpleRange::new(start_vpn, end_vpn),
            data_frames: BTreeMap::new(),
            map_type,
            map_perm,
        }
    }

    /// An area like another one, not mapped yet.
    pub fn from_another(another: &Self) -> (r: Self)
        requires
            another@.l <= another@.r,
        ensures
            r@ == fresh_area(another@.l, another@.r, another@.map_type, another@.perm),
    {
        MapArea {
            vpn_range: SimpleRange::new(another.vpn_range.get_start(), another.vpn_range.get_end()),
            data_frames: BTreeMap::new(),
            map_type: another.map_type,
            map_perm: another.map_perm,
        }
    }

    /// Map one page.
    pub fn map_one(&mut self, page_table: &mut PageTable, vpn: VirtPageNum, mem: &mut FrameMemory)
        requires
            old(mem)@.wf(),
            !old(page_table)@.contains_key(vpn.0),
            old(self)@.map_type == MapType::Framed ==> old(mem)@.frames.free_count() > 0,
        ensures
            final(mem)@.wf(),
            final(page_table).root() == old(page_table).root(),
            match old(self)@.map_type {
                MapType::Identical => {
                    &&& final(self)@ == old(self)@
                    &&& final(mem)@ == old(mem)@
                },
                MapType::Framed => {
                    &&& final(mem)@ == old(mem)@.with_alloc()
                    &&& final(self)@ == (AreaModel {
                        frames: old(self)@.frames.insert(
                            vpn.0,
                            FrameTracker { ppn: PhysPageNum(old(mem)@.frames.next() as usize) },
                        ),
                        ..old(self)@
                    })
                },
            },
            final(page_table)@ == old(page_table)@.insert(vpn.0, final(self)@.entry(vpn.0)),
    {
        let ppn: PhysPageNum;
        match self.map_type {
            MapType::Identical => {
                ppn = PhysPageNum(vpn.0);
            },
            MapType::Framed => {
                proof {
                    lemma_with_alloc(mem@);
                }
                let frame: FrameTracker = mem.frame_alloc().unwrap();
                ppn = frame.ppn;
                self.data_frames.insert(vpn.0, frame);
            },
        }
        page_table.map(vpn, ppn, self.map_perm.bits);
    }

    /// Unmap one page, and give its frame back.
    pub fn unmap_one(&mut self, page_table: &mut PageTable, vpn: VirtPageNum, mem: &mut FrameMemory)
        requires
            old(mem)@.wf(),
            old(page_table)@.contains_key(vpn.0),
            old(self)@.map_type == MapType::Framed && old(self)@.frames.contains_key(vpn.0)
                ==> old(mem)@.in_use(old(self)@.frames[vpn.0].ppn.0 as int),
        ensures
            final(mem)@.wf(),
            final(page_table).root() == old(page_table).root(),
            final(page_table)@ == old(page_table)@.remove(vpn.0),
            if old(self)@.map_type == MapType::Framed {
                &&& final(self)@ == (AreaModel {
                    frames: old(self)@.frames.remove(vpn.0),
                    ..old(self)@
                })
                &&& final(mem)@ == if old(self)@.frames.contains_key(vpn.0) {
                    old(mem)@.with_dealloc(old(self)@.frames[vpn.0].ppn.0 as int)
                } else {
                    old(mem)@
                }
            } else {
                &&& final(self)@ == old(self)@
                &&& final(mem)@ == old(mem)@
            },
    {
        if self.map_type == MapType::Framed {
            let removed: Option<FrameTracker> = self.data_frames.remove(&vpn.0);
            match removed {
                Some(frame) => {
                    mem.frame_dealloc(frame.ppn);
                },
                None => {
                    assert(self.data_frames@ =~= old(self).data_frames@.remove(vpn.0));
                },
            }
        }
        page_table.unmap(vpn);
    }

    /// Map the pages from `from` up to `to`.
    fn map_pages(
        &mut self,
        page_table: &mut PageTable,
        from: usize,
        to: usize,
        mem: &mut FrameMemory,
    )
        requires
            old(mem)@.wf(),
            from <= to,
            forall|k: usize| from <= k < to ==> !#[trigger] old(page_table)@.contains_key(k),
            old(self)@.map_type == MapType::Framed ==> to - from
                <= old(mem)@.frames.free_count(),
        ensures
            final(mem)@.wf(),
            final(page_table).root() == old(page_table).root(),
            pages_mapped(
                old(self)@,
                final(self)@,
                old(page_table)@,
                final(page_table)@,
                old(mem)@,
                final(mem)@,
                from as int,
                to as int,
            ),
    {
        let ghost a0 = self@;
        let ghost t0 = page_table@;
        let ghost m0 = mem@;
        let mut vpn: usize = from;
        while vpn < to
            invariant
                from <= vpn <= to,
                mem@.wf(),
                page_table.root() == old(page_table).root(),
                forall|k: usize| from <= k < to ==> !#[trigger] t0.contains_key(k),
                a0.map_type == MapType::Framed ==> to - from <= m0.frames.free_count(),
                pages_mapped(a0, self@, t0, page_table@, m0, mem@, from as int, vpn as int),
            decreases to - vpn,
        {
            let ghost a1 = self@;
            let ghost m1 = mem@;
            assert(!page_table@.contains_key(vpn));
            self.map_one(page_table, VirtPageNum(vpn), mem);
            proof {
                if a0.map_type == MapType::Framed {
                    lemma_with_alloc(m1);
                    let p = m1.frames.next();
                    lemma_in_use(m1, p);
                    super::frame_allocator::lemma_allocated(m1.frames);
                    assert(self@.frames[vpn].ppn.0 == p);
                    assert(kept(m0, mem@)) by {
                        assert forall|q: int| #[trigger] m0.in_use(q) implies mem@.in_use(q)
                            && mem@.page(q) == m0.page(q) by {
                            assert(m1.in_use(q));
                        }
                    }
                    assert forall|k: usize| from <= k <= vpn implies {
                        let q = (#[trigger] self@.frames[k]).ppn.0 as int;
                        !m0.in_use(q) && mem@.in_use(q) && mem@.page(q) == zero_page()
                    } by {
                        if k < vpn {
                            assert(self@.frames[k] == a1.frames[k]);
                            assert(m1.in_use(a1.frames[k].ppn.0 as int));
                        } else {
                            assert(m0.in_use(p) ==> m1.in_use(p));
                        }
                    }
                    assert forall|k: usize, j: usize| from <= k < j <= vpn implies (
                    #[trigger] self@.frames[k]).ppn.0 != (#[trigger] self@.frames[j]).ppn.0 by {
                        assert(self@.frames[k] == a1.frames[k]);
                        assert(m1.in_use(a1.frames[k].ppn.0 as int));
                        if j < vpn {
                            assert(self@.frames[j] == a1.frames[j]);
                        }
                    }
                }
                assert forall|k: usize|
                    #[trigger] page_table@.contains_key(k) implies page_table@[k] == (if from <= k
                    < vpn + 1 {
                    self@.entry(k)
                } else {
                    t0[k]
                }) by {
                    if from <= k < vpn {
                        assert(a0.map_type == MapType::Framed ==> self@.frames[k] == a1.frames[k]);
                    }
                }
            }
            vpn += 1;
        }
    }

    /// Unmap the pages from `from` up to `to`, and give their frames back.
    pub(crate) fn unmap_pages(
        &mut self,
        page_table: &mut PageTable,
        from: usize,
        to: usize,
        mem: &mut FrameMemory,
    )
        requires
            old(mem)@.wf(),
            from <= to,
            forall|k: usize| from <= k < to ==> #[trigger] old(page_table)@.contains_key(k),
            old(self)@.map_type == MapType::Framed ==> frames_ok(
                old(self)@.frames,
                old(mem)@,
                from as int,
                to as int,
            ),
        ensures
            final(mem)@.wf(),
            final(page_table).root() == old(page_table).root(),
            pages_unmapped(
                old(self)@,
                final(self)@,
                old(page_table)@,
                final(page_table)@,
                old(mem)@,
                final(mem)@,
                from as int,
                to as int,
            ),
    {
        let ghost a0 = self@;
        let ghost t0 = page_table@;
        let ghost m0 = mem@;
        let mut vpn: usize = from;
        while vpn < to
            invariant
                from <= vpn <= to,
                mem@.wf(),
                page_table.root() == old(page_table).root(),
                forall|k: usize| from <= k < to ==> #[trigger] t0.contains_key(k),
                a0.map_type == MapType::Framed ==> frames_ok(
                    a0.frames,
                    m0,
                    from as int,
                    to as int,
                ),
                pages_unmapped(a0, self@, t0, page_table@, m0, mem@, from as int, vpn as int),
            decreases to - vpn,
        {
            let ghost a1 = self@;
            let ghost m1 = mem@;
            proof {
                assert(t0.contains_key(vpn));
                if a0.map_type == MapType::Framed && a1.frames.contains_key(vpn) {
                    assert(a0.frames.contains_key(vpn));
                    let q = a0.frames[vpn].ppn.0 as int;
                    assert(m0.in_use(q));
                    assert forall|k: usize|
                        from <= k < vpn && #[trigger] a0.frames.contains_key(k) implies a0.frames[k].ppn.0
                        != q by {
                        assert(a0.frames.contains_key(vpn));
                    }
                    assert(m1.in_use(q));
                }
            }
            self.unmap_one(page_table, VirtPageNum(vpn), mem);
            proof {
                if a0.map_type == MapType::Framed && a1.frames.contains_key(vpn) {
                    let q = a0.frames[vpn].ppn.0 as int;
                    lemma_with_dealloc(m1, q);
                    assert forall|k: usize|
                        from <= k <= vpn && #[trigger] a0.frames.contains_key(k) implies !mem@.in_use(
                        a0.frames[k].ppn.0 as int,
                    ) by {
                        if k < vpn {
                            assert(!m1.in_use(a0.frames[k].ppn.0 as int));
                        }
                    }
                    assert forall|p: int|
                        #[trigger] m0.in_use(p) && (forall|k: usize|
                            from <= k <= vpn && #[trigger] a0.frames.contains_key(k)
                                ==> a0.frames[k].ppn.0 != p) implies mem@.in_use(p) by {
                        assert(a0.frames.contains_key(vpn));
                        assert(m1.in_use(p));
                    }
                }
            }
            vpn += 1;
        }
    }

    /// Map every page of the area.
    pub fn map(&mut self, page_table: &mut PageTable, mem: &mut FrameMemory)
        requires
            old(mem)@.wf(),
            old(self)@.l <= old(self)@.r,
            forall|k: usize|
                old(self)@.covers(k as int) ==> !#[trigger] old(page_table)@.contains_key(k),
            old(self)@.map_type == MapType::Framed ==> old(self)@.r - old(self)@.l
                <= old(mem)@.frames.free_count(),
        ensures
            final(mem)@.wf(),
            final(page_table).root() == old(page_table).root(),
            pages_mapped(
                old(self)@,
                final(self)@,
                old(page_table)@,
                final(page_table)@,
                old(mem)@,
                final(mem)@,
                old(self)@.l,
                old(self)@.r,
            ),
    {
        self.map_pages(
            page_table,
            self.vpn_range.get_start().0,
            self.vpn_range.get_end().0,
            mem,
        );
    }

    /// Unmap every page of the area.
    pub fn unmap(&mut self, page_table: &mut PageTable, mem: &mut FrameMemory)
        requires
            old(mem)@.wf(),
            old(self)@.l <= old(self)@.r,
            forall|k: usize|
                old(self)@.covers(k as int) ==> #[trigger] old(page_table)@.contains_key(k),
            old(self)@.map_type == MapType::Framed ==> frames_ok(
                old(self)@.frames,
                old(mem)@,
                old(self)@.l,
                old(self)@.r,
            ),
        ensures
            final(mem)@.wf(),
            final(page_table).root() == old(page_table).root(),
            pages_unmapped(
                old(self)@,
                final(self)@,
                old(page_table)@,
                final(page_table)@,
                old(mem)@,
                final(mem)@,
                old(self)@.l,
                old(self)@.r,
            ),
    {
        self.unmap_pages(
            page_table,
            self.vpn_range.get_start().0,
            self.vpn_range.get_end().0,
            mem,
        );
    }

    /// Unmap the pages from `new_end` on.
    pub fn shrink_to(
        &mut self,
        page_table: &mut PageTable,
        new_end: VirtPageNum,
        mem: &mut FrameMemory,
    )
        requires
            old(mem)@.wf(),
            old(self)@.l <= new_end.0 <= old(self)@.r,
            forall|k: usize|
                new_end.0 <= k < old(self)@.r ==> #[trigger] old(page_table)@.contains_key(k),
            old(self)@.map_type == MapType::Framed ==> frames_ok(
                old(self)@.frames,
                old(mem)@,
                new_end.0 as int,
                old(self)@.r,
            ),
        ensures
            final(mem)@.wf(),
            final(page_table).root() == old(page_table).root(),
            pages_unmapped(
                old(self)@,
                AreaModel { r: old(self)@.r, ..final(self)@ },
                old(page_table)@,
                final(page_table)@,
                old(mem)@,
                final(mem)@,
                new_end.0 as int,
                old(self)@.r,
            ),
            final(self)@.r == new_end.0,
    {
        self.unmap_pages(page_table, new_end.0, self.vpn_range.get_end().0, mem);
        self.vpn_range = SimpleRange::new(self.vpn_range.get_start(), new_end);
    }

    /// Map more pages behind the end, up to `new_end`.
    pub fn append_to(
        &mut self,
        page_table: &mut PageTable,
        new_end: VirtPageNum,
        mem: &mut FrameMemory,
    )
        requires
            old(mem)@.wf(),
            old(self)@.l <= old(self)@.r <= new_end.0,
            forall|k: usize|
                old(self)@.r <= k < new_end.0 ==> !#[trigger] old(page_table)@.contains_key(k),
            old(self)@.map_type == MapType::Framed ==> new_end.0 - old(self)@.r
                <= old(mem)@.frames.free_count(),
        ensures
            final(mem)@.wf(),
            final(page_table).root() == old(page_table).root(),
            pages_mapped(
                old(self)@,
                AreaModel { r: old(self)@.r, ..final(self)@ },
                old(page_table)@,
                final(page_table)@,
                old(mem)@,
                final(mem)@,
                old(self)@.r,
                new_end.0 as int,
            ),
            final(self)@.r == new_end.0,
    {
        self.map_pages(page_table, self.vpn_range.get_end().0, new_end.0, mem);
        self.vpn_range = SimpleRange::new(self.vpn_range.get_start(), new_end);
    }
}

/// The frames of the pages from `lo` to `hi` were given back, and no others.
pub open spec fn frames_released(
    f: Map<usize, FrameTracker>,
    m: MemoryModel,
    m2: MemoryModel,
    lo: int,
    hi: int,
) -> bool {
    &&& only_freed(m, m2)
    &&& forall|k: usize|
        lo <= k < hi && #[trigger] f.contains_key(k) ==> !m2.in_use(f[k].ppn.0 as int)
    &&& forall|p: int|
        #[trigger] m.in_use(p) && (forall|k: usize|
            lo <= k < hi && #[trigger] f.contains_key(k) ==> f[k].ppn.0 != p) ==> m2.in_use(p)
}

impl MapArea {
    /// Give back the frames of the area. The page table is not changed.
    pub(crate) fn release(&mut self, mem: &mut FrameMemory)
        requires
            old(mem)@.wf(),
            old(self)@.wf(),
            frames_ok(old(self)@.frames, old(mem)@, old(self)@.l, old(self)@.r),
        ensures
            final(mem)@.wf(),
            frames_released(
                old(self)@.frames,
                old(mem)@,
                final(mem)@,
                old(self)@.l,
                old(self)@.r,
            ),
    {
        let ghost f = self@.frames;
        let ghost m = mem@;
        let ghost l = self@.l;
        let ghost r = self@.r;
        let end: usize = self.vpn_range.get_end().0;
        let mut vpn: usize = self.vpn_range.get_start().0;
        while vpn < end
            invariant
                l <= vpn <= end,
                end == r,
                mem@.wf(),
                frames_ok(f, m, l, r),
                forall|k: usize|
                    #[trigger] self@.frames.contains_key(k) <==> f.contains_key(k) && !(l <= k < vpn),
                forall|k: usize| #[trigger] self@.frames.contains_key(k) ==> self@.frames[k] == f[k],
                frames_released(f, m, mem@, l, vpn as int),
            decreases end - vpn,
        {
            let ghost m1 = mem@;
            let ghost f1 = self@.frames;
            let removed: Option<FrameTracker> = self.data_frames.remove(&vpn);
            match removed {
                Some(frame) => {
                    proof {
                        assert(f1.contains_key(vpn));
                        assert(f.contains_key(vpn));
                        assert(m.in_use(f[vpn].ppn.0 as int));
                        assert(m1.in_use(frame.ppn.0 as int)) by {
                            assert forall|k: usize|
                                l <= k < vpn && #[trigger] f.contains_key(k) implies f[k].ppn.0
                                != frame.ppn.0 by {}
                        }
                        lemma_with_dealloc(m1, frame.ppn.0 as int);
                    }
                    mem.frame_dealloc(frame.ppn);
                    proof {
                        assert forall|k: usize|
                            l <= k <= vpn && #[trigger] f.contains_key(k) implies !mem@.in_use(
                            f[k].ppn.0 as int,
                        ) by {
                            if k < vpn {
                                assert(!m1.in_use(f[k].ppn.0 as int));
                            }
                        }
                        assert forall|p: int|
                            #[trigger] m.in_use(p) && (forall|k: usize|
                                l <= k <= vpn && #[trigger] f.contains_key(k) ==> f[k].ppn.0 != p) implies mem@.in_use(
                            p,
                        ) by {
                            assert(m1.in_use(p));
                            assert(f[vpn].ppn.0 != p);
                        }
                    }
                },
                None => {
                    assert(!f1.contains_key(vpn));
                    assert(!f.contains_key(vpn));
                },
            }
            vpn += 1;
        }
    }
}

/// A page after the `i`-th piece of some data was copied to its front.
pub open spec fn page_with(page: Seq<u8>, data: Seq<u8>, i: int) -> Seq<u8> {
    Seq::new(
        PAGE_SIZE as nat,
        |j: int|
            if PAGE_SIZE * i + j < data.len() {
                data[PAGE_SIZE * i + j]
            } else {
                page[j]
            },
    )
}

/// Data was copied to the pages of an area, the first piece to the page `l`, and no other
/// frame was changed.
pub open spec fn data_copied(
    f: Map<usize, FrameTracker>,
    m: MemoryModel,
    m2: MemoryModel,
    l: int,
    r: int,
    data: Seq<u8>,
) -> bool {
    &&& m2.frames == m.frames
    &&& m2.start == m.start
    &&& m2.pages.len() == m.pages.len()
    &&& forall|k: usize|
        l <= k < r ==> m2.page((#[trigger] f[k]).ppn.0 as int) == page_with(
            m.page(f[k].ppn.0 as int),
            data,
            k - l,
        )
    &&& forall|p: int|
        m.start <= p < m.frames.end && (forall|k: usize|
            l <= k < r ==> (#[trigger] f[k]).ppn.0 != p) ==> #[trigger] m2.page(p) == m.page(p)
}

impl MapArea {
    /// data: start-aligned but maybe with shorter length
    /// assume that all frames were cleared before
    pub fn copy_data(&self, page_table: &PageTable, data: &[u8], mem: &mut FrameMemory)
        requires
            old(mem)@.wf(),
            self@.wf(),
            self@.map_type == MapType::Framed,
            page_table@.contains_key(self@.l as usize),
            data@.len() <= PAGE_SIZE * (self@.r - self@.l),
            forall|k: usize|
                self@.covers(k as int) ==> #[trigger] page_table@.contains_key(k) && page_table@[k]
                    == self@.entry(k),
            frames_ok(self@.frames, old(mem)@, self@.l, self@.r),
        ensures
            final(mem)@.wf(),
            data_copied(self@.frames, old(mem)@, final(mem)@, self@.l, self@.r, data@),
    {
        let ghost f = self@.frames;
        let ghost l = self@.l;
        let ghost r = self@.r;
        let ghost m0 = mem@;
        let mut start: usize = 0;
        let mut current_vpn: VirtPageNum = self.vpn_range.get_start();
        let len: usize = data.len();
        proof {
            assert forall|k: usize| l <= k < r implies #[trigger] f.contains_key(k) by {}
        }
        if len == 0 {
            proof {
                assert forall|k: usize| l <= k < r implies mem@.page(
                    (#[trigger] f[k]).ppn.0 as int,
                ) == page_with(m0.page(f[k].ppn.0 as int), data@, k - l) by {
                    let q = f[k].ppn.0 as int;
                    assert(f.contains_key(k));
                    assert(m0.in_use(q));
                    assert(m0.pages[q - m0.start].len() == PAGE_SIZE);
                    assert(m0.page(q) =~= page_with(m0.page(q), data@, k - l));
                }
            }
            return;
        }
        assert(l < r);
        loop
            invariant_except_break
                current_vpn.0 == l + start / PAGE_SIZE,
                start % PAGE_SIZE == 0,
                start < len,
                forall|k: usize|
                    l <= k < r ==> mem@.page((#[trigger] f[k]).ppn.0 as int) == if k
                        < current_vpn.0 {
                        page_with(m0.page(f[k].ppn.0 as int), data@, k - l)
                    } else {
                        m0.page(f[k].ppn.0 as int)
                    },
            invariant
                mem@.wf(),
                m0.wf(),
                self@.wf(),
                self@.map_type == MapType::Framed,
                f == self@.frames,
                l == self@.l,
                r == self@.r,
                l < r,
                len == data@.len(),
                len <= PAGE_SIZE * (r - l),
                forall|k: usize|
                    l <= k < r ==> #[trigger] page_table@.contains_key(k) && page_table@[k]
                        == self@.entry(k),
                forall|k: usize| l <= k < r ==> #[trigger] f.contains_key(k),
                frames_ok(f, m0, l, r),
                mem@.frames == m0.frames,
                mem@.start == m0.start,
                mem@.pages.len() == m0.pages.len(),
                forall|p: int|
                    m0.start <= p < m0.frames.end && (forall|k: usize|
                        l <= k < r ==> (#[trigger] f[k]).ppn.0 != p) ==> #[trigger] mem@.page(p)
                        == m0.page(p),
            ensures
                forall|k: usize|
                    l <= k < r ==> mem@.page((#[trigger] f[k]).ppn.0 as int) == page_with(
                        m0.page(f[k].ppn.0 as int),
                        data@,
                        k - l,
                    ),
            decreases len - start,
        {
            let src_len: usize = if len - start < PAGE_SIZE {
                len - start
            } else {
                PAGE_SIZE
            };
            let ghost i = (start / PAGE_SIZE) as int;
            let ghost c = current_vpn.0;
            let ghost m1 = mem@;
            proof {
                assert(l <= c < r);
                assert(page_table@.contains_key(c));
                assert(f.contains_key(c));
                assert(m0.in_use(f[c].ppn.0 as int));
            }
            let ppn: PhysPageNum = page_table.translate(current_vpn).unwrap().ppn();
            mem.write_bytes(ppn, 0, data, start, src_len);
            proof {
                let pc = f[c].ppn.0 as int;
                assert(ppn.0 == pc);
                assert(m0.page(pc).len() == PAGE_SIZE) by {
                    assert(m0.pages[pc - m0.start].len() == PAGE_SIZE);
                }
                assert(m1.page(pc) == m0.page(pc)) by {
                    assert(m1.page(f[c].ppn.0 as int) == m0.page(f[c].ppn.0 as int));
                }
                assert(mem@.page(pc) =~= page_with(m0.page(pc), data@, c - l));
                assert forall|k: usize| l <= k < r implies mem@.page(
                    (#[trigger] f[k]).ppn.0 as int,
                ) == (if k <= c {
                    page_with(m0.page(f[k].ppn.0 as int), data@, k - l)
                } else {
                    m0.page(f[k].ppn.0 as int)
                }) by {
                    assert(f.contains_key(k));
                    assert(m0.in_use(f[k].ppn.0 as int));
                    if k != c {
                        assert(f[k].ppn.0 != f[c].ppn.0);
                        assert(mem@.page(f[k].ppn.0 as int) == m1.page(f[k].ppn.0 as int));
                    }
                }
                assert forall|p: int|
                    m0.start <= p < m0.frames.end && (forall|k: usize|
                        l <= k < r ==> (#[trigger] f[k]).ppn.0 != p) implies #[trigger] mem@.page(p)
                    == m0.page(p) by {
                    assert(f[c].ppn.0 != p);
                    assert(m1.page(p) == m0.page(p));
                }
                if len - start <= PAGE_SIZE {
                    assert forall|k: usize| l <= k < r implies mem@.page(
                        (#[trigger] f[k]).ppn.0 as int,
                    ) == page_with(m0.page(f[k].ppn.0 as int), data@, k - l) by {
                        if k > c {
                            let q = f[k].ppn.0 as int;
                            assert(f.contains_key(k));
                            assert(m0.in_use(q));
                            assert(m0.pages[q - m0.start].len() == PAGE_SIZE);
                            assert(PAGE_SIZE * (k - l) >= len) by {
                                assert(k - l >= i + 1);
                            }
                            assert(m0.page(q) =~= page_with(m0.page(q), data@, k - l));
                        }
                    }
                }
            }
            if len - start <= PAGE_SIZE {
                break;
            }
            start += PAGE_SIZE;
            current_vpn = VirtPageNum(current_vpn.0 + 1);
        }
    }
}

/// An area that is not mapped.
pub open spec fn fresh_area(l: int, r: int, map_type: MapType, perm: u8) -> AreaModel {
    AreaModel { l, r, map_type, perm, frames: Map::empty() }
}

/// The pages from `from` up to `to` were mapped. For a framed area each of them got a
/// cleared frame that was not in use before, and no two the same.
pub open spec fn pages_mapped(
    a: AreaModel,
    a2: AreaModel,
    t: Map<usize, PageTableEntry>,
    t2: Map<usize, PageTableEntry>,
    m: MemoryModel,
    m2: MemoryModel,
    from: int,
    to: int,
) -> bool {
    &&& a2 == (AreaModel { frames: a2.frames, ..a })
    &&& mapped_on(t, t2, a2, from, to)
    &&& kept(m, m2)
    &&& a.map_type == MapType::Identical ==> a2.frames == a.frames && m2 == m
    &&& a.map_type == MapType::Framed ==> {
        &&& m2.frames.free_count() == m.frames.free_count() - (to - from)
        &&& forall|k: usize|
            #[trigger] a2.frames.contains_key(k) <==> a.frames.contains_key(k) || from <= k < to
        &&& forall|k: usize|
            a.frames.contains_key(k) && !(from <= k < to) ==> #[trigger] a2.frames[k] == a.frames[k]
        &&& forall|k: usize|
            from <= k < to ==> {
                let p = (#[trigger] a2.frames[k]).ppn.0 as int;
                !m.in_use(p) && m2.in_use(p) && m2.page(p) == zero_page()
            }
        &&& forall|k: usize, j: usize|
            from <= k < j < to ==> (#[trigger] a2.frames[k]).ppn.0 != (
            #[trigger] a2.frames[j]).ppn.0
    }
}

/// The pages from `from` up to `to` were unmapped, and the frames of a framed area were
/// given back for them, and no others.
pub open spec fn pages_unmapped(
    a: AreaModel,
    a2: AreaModel,
    t: Map<usize, PageTableEntry>,
    t2: Map<usize, PageTableEntry>,
    m: MemoryModel,
    m2: MemoryModel,
    from: int,
    to: int,
) -> bool {
    &&& a2 == (AreaModel { frames: a2.frames, ..a })
    &&& unmapped_on(t, t2, from, to)
    &&& only_freed(m, m2)
    &&& a.map_type == MapType::Identical ==> a2.frames == a.frames && m2 == m
    &&& a.map_type == MapType::Framed ==> {
        &&& forall|k: usize|
            #[trigger] a2.frames.contains_key(k) <==> a.frames.contains_key(k) && !(from <= k < to)
        &&& forall|k: usize| #[trigger] a2.frames.contains_key(k) ==> a2.frames[k] == a.frames[k]
        &&& forall|k: usize|
            from <= k < to && #[trigger] a.frames.contains_key(k) ==> !m2.in_use(
                a.frames[k].ppn.0 as int,
            )
        &&& forall|p: int|
            #[trigger] m.in_use(p) && (forall|k: usize|
                from <= k < to && #[trigger] a.frames.contains_key(k) ==> a.frames[k].ppn.0 != p)
                ==> m2.in_use(p)
    }
}

} // verus!
