//! Page tables, as the map from virtual pages to frames that they stand for.
use super::address::{PhysAddr, PhysPageNum, VirtAddr, VirtPageNum};
use super::frame_allocator::{FrameMemory, FrameTracker};
use crate::config::PAGE_SIZE;
use std::collections::BTreeMap;
use vstd::prelude::*;

verus! {

/// The entry is valid.
pub const PTE_V: u8 = 1;

/// The page can be read.
pub const PTE_R: u8 = 2;

/// The page can be written.
pub const PTE_W: u8 = 4;

/// The page can be executed.
pub const PTE_X: u8 = 8;

/// The page can be used in user mode.
pub const PTE_U: u8 = 16;

/// An entry of a page table: the frame that a page lies in, and what may be done with it.
#[derive(Copy, Clone, Debug)]
pub struct PageTableEntry {
    pub ppn: PhysPageNum,
    pub flags: u8,
}

impl PageTableEntry {
    /// The frame.
    pub fn ppn(&self) -> (r: PhysPageNum)
        ensures
            r == self.ppn,
    {
        self.ppn
    }

    /// Whether the entry is valid.
    pub fn is_valid(&self) -> (r: bool)
        ensures
            r == (self.flags & PTE_V != 0),
    {
        self.flags & PTE_V != 0
    }

    /// Whether the page can be read.
    pub fn readable(&self) -> (r: bool)
        ensures
            r == (self.flags & PTE_R != 0),
    {
        self.flags & PTE_R != 0
    }

    /// Whether the page can be written.
    pub fn writable(&self) -> (r: bool)
        ensures
            r == (self.flags & PTE_W != 0),
    {
        self.flags & PTE_W != 0
    }

    /// Whether the page can be executed.
    pub fn executable(&self) -> (r: bool)
        ensures
            r == (self.flags & PTE_X != 0),
    {
        self.flags & PTE_X != 0
    }
}

/// The entry for a frame with the given permissions.
pub open spec fn valid_entry(ppn: usize, perm: u8) -> PageTableEntry {
    PageTableEntry { ppn: PhysPageNum(ppn), flags: perm | PTE_V }
}

/// A page table: a root frame and the valid entries.
pub struct PageTable {
    root_ppn: PhysPageNum,
    entries: BTreeMap<usize, PageTableEntry>,
}

impl View for PageTable {
    type V = Map<usize, PageTableEntry>;

    closed spec fn view(&self) -> Map<usize, PageTableEntry> {
        self.entries@
    }
}

impl PageTable {
    /// The frame of the root.
    pub closed spec fn root(&self) -> int {
        self.root_ppn.0 as int
    }

    /// A page table without entries. Its root takes a frame.
    pub fn new(mem: &mut FrameMemory) -> (r: Self)
        requires
            old(mem)@.wf(),
            old(mem)@.frames.free_count() > 0,
        ensures
            final(mem)@.wf(),
            final(mem)@ == old(mem)@.with_alloc(),
            r@ == Map::<usize, PageTableEntry>::empty(),
            r.root() == old(mem)@.frames.next(),
    {
        let frame: FrameTracker = mem.frame_alloc().unwrap();
        PageTable { root_ppn: frame.ppn, entries: BTreeMap::new() }
    }

    /// The number that selects this page table: Sv39 mode and the frame of the root.
    pub fn token(&self) -> (r: usize)
        ensures
            r == token_of(self.root()),
    {
        ((8u64 << 60) | self.root_ppn.0 as u64) as usize
    }

    /// The frame of the root.
    pub fn root_ppn(&self) -> (r: PhysPageNum)
        ensures
            r.0 == self.root(),
    {
        self.root_ppn
    }

    /// Map a page to a frame.
    pub fn map(&mut self, vpn: VirtPageNum, ppn: PhysPageNum, perm: u8)
        requires
            !old(self)@.contains_key(vpn.0),
        ensures
            final(self)@ == old(self)@.insert(vpn.0, valid_entry(ppn.0, perm)),
            final(self).root() == old(self).root(),
    {
        self.entries.insert(vpn.0, PageTableEntry { ppn, flags: perm | PTE_V });
    }

    /// Take the mapping of a page away.
    pub fn unmap(&mut self, vpn: VirtPageNum)
        requires
            old(self)@.contains_key(vpn.0),
        ensures
            final(self)@ == old(self)@.remove(vpn.0),
            final(self).root() == old(self).root(),
    {
        self.entries.remove(&vpn.0);
    }

    /// The entry of a page.
    pub fn translate(&self, vpn: VirtPageNum) -> (r: Option<PageTableEntry>)
        ensures
            r == if self@.contains_key(vpn.0) {
                Some(self@[vpn.0])
            } else {
                None
            },
    {
        match self.entries.get(&vpn.0) {
            Some(e) => Some(*e),
            None => None,
        }
    }

    /// The physical address of a virtual address.
    pub fn translate_va(&self, va: VirtAddr) -> (r: Option<PhysAddr>)
        requires
            forall|k: usize|
                #[trigger] self@.contains_key(k) ==> (self@[k].ppn.0 + 1) * PAGE_SIZE <= usize::MAX,
        ensures
            r == if self@.contains_key((va.0 / PAGE_SIZE) as usize) {
                Some(
                    PhysAddr(
                        (self@[(va.0 / PAGE_SIZE) as usize].ppn.0 * PAGE_SIZE + va.0 % PAGE_SIZE)
                            as usize,
                    ),
                )
            } else {
                None
            },
    {
        match self.translate(va.floor()) {
            Some(e) => {
                assert(self@.contains_key((va.0 / PAGE_SIZE) as usize));
                Some(PhysAddr(e.ppn.0 * PAGE_SIZE + va.page_offset()))
            },
            None => None,
        }
    }
}

/// The token of a page table with its root in the given frame.
pub open spec fn token_of(root: int) -> usize {
    ((8u64 << 60) | root as u64) as usize
}

} // verus!
