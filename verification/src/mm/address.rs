//! Physical and virtual addresses and page numbers of the Sv39 scheme.
use crate::config::{PAGE_SIZE, PAGE_SIZE_BITS};
use vstd::prelude::*;

verus! {

/// The number of physical addresses.
pub const PA_SPACE: u64 = 0x100_0000_0000_0000;

/// The number of virtual addresses.
pub const VA_SPACE: u64 = 0x80_0000_0000;

/// The number of physical pages.
pub const PPN_SPACE: u64 = 0x1000_0000_0000;

/// The number of virtual pages.
pub const VPN_SPACE: u64 = 0x800_0000;

/// physical address
#[derive(Copy, Clone, PartialEq, Eq, PartialOrd, Ord, Debug, Structural)]
pub struct PhysAddr(pub usize);

/// virtual address
#[derive(Copy, Clone, PartialEq, Eq, PartialOrd, Ord, Debug, Structural)]
pub struct VirtAddr(pub usize);

/// physical page number
#[derive(Copy, Clone, PartialEq, Eq, PartialOrd, Ord, Debug, Structural)]
pub struct PhysPageNum(pub usize);

/// virtual page number
#[derive(Copy, Clone, PartialEq, Eq, PartialOrd, Ord, Debug, Structural)]
pub struct VirtPageNum(pub usize);

/// A number without the bits that do not fit into a space of `space` numbers.
pub open spec fn low(v: usize, space: u64) -> usize {
    (v as int % space as int) as usize
}

/// The low bits of a number are its remainder.
proof fn lemma_low(v: u64)
    ensures
        v & 0xff_ffff_ffff_ffff == v % PA_SPACE,
        v & 0x7f_ffff_ffff == v % VA_SPACE,
        v & 0xfff_ffff_ffff == v % PPN_SPACE,
        v & 0x7ff_ffff == v % VPN_SPACE,
{
    assert(v & 0xff_ffff_ffff_ffff == v % 0x100_0000_0000_0000) by (bit_vector);
    assert(v & 0x7f_ffff_ffff == v % 0x80_0000_0000) by (bit_vector);
    assert(v & 0xfff_ffff_ffff == v % 0x1000_0000_0000) by (bit_vector);
    assert(v & 0x7ff_ffff == v % 0x800_0000) by (bit_vector);
}

impl From<usize> for PhysAddr {
    fn from(v: usize) -> (r: PhysAddr) {
        proof {
            lemma_low(v as u64);
        }
        PhysAddr(((v as u64) & (PA_SPACE - 1)) as usize)
    }
}

impl vstd::std_specs::convert::FromSpecImpl<usize> for PhysAddr {
    open spec fn obeys_from_spec() -> bool {
        true
    }

    open spec fn from_spec(v: usize) -> PhysAddr {
        PhysAddr(low(v, PA_SPACE))
    }
}

impl From<usize> for PhysPageNum {
    fn from(v: usize) -> (r: PhysPageNum) {
        proof {
            lemma_low(v as u64);
        }
        PhysPageNum(((v as u64) & (PPN_SPACE - 1)) as usize)
    }
}

impl vstd::std_specs::convert::FromSpecImpl<usize> for PhysPageNum {
    open spec fn obeys_from_spec() -> bool {
        true
    }

    open spec fn from_spec(v: usize) -> PhysPageNum {
        PhysPageNum(low(v, PPN_SPACE))
    }
}

impl From<usize> for VirtAddr {
    fn from(v: usize) -> (r: VirtAddr) {
        proof {
            lemma_low(v as u64);
        }
        VirtAddr(((v as u64) & (VA_SPACE - 1)) as usize)
    }
}

impl vstd::std_specs::convert::FromSpecImpl<usize> for VirtAddr {
    open spec fn obeys_from_spec() -> bool {
        true
    }

    open spec fn from_spec(v: usize) -> VirtAddr {
        VirtAddr(low(v, VA_SPACE))
    }
}

impl From<usize> for VirtPageNum {
    fn from(v: usize) -> (r: VirtPageNum) {
        proof {
            lemma_low(v as u64);
        }
        VirtPageNum(((v as u64) & (VPN_SPACE - 1)) as usize)
    }
}

impl vstd::std_specs::convert::FromSpecImpl<usize> for VirtPageNum {
    open spec fn obeys_from_spec() -> bool {
        true
    }

    open spec fn from_spec(v: usize) -> VirtPageNum {
        VirtPageNum(low(v, VPN_SPACE))
    }
}

impl From<PhysAddr> for usize {
    fn from(v: PhysAddr) -> (r: usize) {
        v.0
    }
}

impl vstd::std_specs::convert::FromSpecImpl<PhysAddr> for usize {
    open spec fn obeys_from_spec() -> bool {
        true
    }

    open spec fn from_spec(v: PhysAddr) -> usize {
        v.0
    }
}

impl From<PhysPageNum> for usize {
    fn from(v: PhysPageNum) -> (r: usize) {
        v.0
    }
}

impl vstd::std_specs::convert::FromSpecImpl<PhysPageNum> for usize {
    open spec fn obeys_from_spec() -> bool {
        true
    }

    open spec fn from_spec(v: PhysPageNum) -> usize {
        v.0
    }
}

impl From<VirtPageNum> for usize {
    fn from(v: VirtPageNum) -> (r: usize) {
        v.0
    }
}

impl vstd::std_specs::convert::FromSpecImpl<VirtPageNum> for usize {
    open spec fn obeys_from_spec() -> bool {
        true
    }

    open spec fn from_spec(v: VirtPageNum) -> usize {
        v.0
    }
}

/// A virtual address as the machine takes it: an address of the upper half has all of
/// its upper bits set.
pub open spec fn sign_extended(v: int) -> int {
    if v >= VA_SPACE as int / 2 {
        v % (VA_SPACE as int) + (0x1_0000_0000_0000_0000 - VA_SPACE)
    } else {
        v
    }
}

impl From<VirtAddr> for usize {
    fn from(v: VirtAddr) -> (r: usize) {
        if v.0 as u64 >= VA_SPACE / 2 {
            proof {
                let x = v.0 as u64;
                assert(x | !0x7f_ffff_ffffu64 == x % 0x80_0000_0000 + 0xffff_ff80_0000_0000)
                    by (bit_vector);
            }
            ((v.0 as u64) | (!(VA_SPACE - 1))) as usize
        } else {
            v.0
        }
    }
}

impl vstd::std_specs::convert::FromSpecImpl<VirtAddr> for usize {
    open spec fn obeys_from_spec() -> bool {
        true
    }

    open spec fn from_spec(v: VirtAddr) -> usize {
        sign_extended(v.0 as int) as usize
    }
}

/// The offset in a page is the remainder of an address.
proof fn lemma_page_offset(v: usize)
    ensures
        v & 0xfff == v % 0x1000,
{
    assert(v & 0xfff == v % 0x1000) by (bit_vector);
}

impl VirtAddr {
    /// Get the (floor) virtual page number
    pub fn floor(&self) -> (r: VirtPageNum)
        ensures
            r.0 == self.0 / PAGE_SIZE,
    {
        VirtPageNum(self.0 / PAGE_SIZE)
    }

    /// Get the (ceil) virtual page number
    pub fn ceil(&self) -> (r: VirtPageNum)
        ensures
            r.0 == (self.0 + PAGE_SIZE - 1) / PAGE_SIZE as int,
    {
        if self.0 == 0 {
            VirtPageNum(0)
        } else {
            VirtPageNum((self.0 - 1) / PAGE_SIZE + 1)
        }
    }

    /// Get the page offset of virtual address
    pub fn page_offset(&self) -> (r: usize)
        ensures
            r == self.0 % PAGE_SIZE,
    {
        proof {
            lemma_page_offset(self.0);
        }
        self.0 & (PAGE_SIZE - 1)
    }

    /// Check if the virtual address is aligned by page size
    pub fn aligned(&self) -> (r: bool)
        ensures
            r == (self.0 % PAGE_SIZE == 0),
    {
        self.page_offset() == 0
    }

    /// The page that starts at the address.
    pub fn page(&self) -> (r: VirtPageNum)
        requires
            self.0 % PAGE_SIZE == 0,
        ensures
            r.0 == self.0 / PAGE_SIZE,
            r.0 * PAGE_SIZE == self.0,
    {
        self.floor()
    }
}

impl PhysAddr {
    /// Get the (floor) physical page number
    pub fn floor(&self) -> (r: PhysPageNum)
        ensures
            r.0 == self.0 / PAGE_SIZE,
    {
        PhysPageNum(self.0 / PAGE_SIZE)
    }

    /// Get the (ceil) physical page number
    pub fn ceil(&self) -> (r: PhysPageNum)
        ensures
            r.0 == (self.0 + PAGE_SIZE - 1) / PAGE_SIZE as int,
    {
        if self.0 == 0 {
            PhysPageNum(0)
        } else {
            PhysPageNum((self.0 - 1) / PAGE_SIZE + 1)
        }
    }

    /// Get the page offset of physical address
    pub fn page_offset(&self) -> (r: usize)
        ensures
            r == self.0 % PAGE_SIZE,
    {
        proof {
            lemma_page_offset(self.0);
        }
        self.0 & (PAGE_SIZE - 1)
    }

    /// Check if the physical address is aligned by page size
    pub fn aligned(&self) -> (r: bool)
        ensures
            r == (self.0 % PAGE_SIZE == 0),
    {
        self.page_offset() == 0
    }

    /// The page that starts at the address.
    pub fn page(&self) -> (r: PhysPageNum)
        requires
            self.0 % PAGE_SIZE == 0,
        ensures
            r.0 == self.0 / PAGE_SIZE,
            r.0 * PAGE_SIZE == self.0,
    {
        self.floor()
    }
}

/// Where a page starts.
pub open spec fn page_start(n: usize) -> usize {
    n << 12usize
}

impl From<VirtPageNum> for VirtAddr {
    fn from(v: VirtPageNum) -> (r: VirtAddr) {
        VirtAddr(v.0 << PAGE_SIZE_BITS)
    }
}

impl vstd::std_specs::convert::FromSpecImpl<VirtPageNum> for VirtAddr {
    open spec fn obeys_from_spec() -> bool {
        true
    }

    open spec fn from_spec(v: VirtPageNum) -> VirtAddr {
        VirtAddr(page_start(v.0))
    }
}

impl From<PhysPageNum> for PhysAddr {
    fn from(v: PhysPageNum) -> (r: PhysAddr) {
        PhysAddr(v.0 << PAGE_SIZE_BITS)
    }
}

impl vstd::std_specs::convert::FromSpecImpl<PhysPageNum> for PhysAddr {
    open spec fn obeys_from_spec() -> bool {
        true
    }

    open spec fn from_spec(v: PhysPageNum) -> PhysAddr {
        PhysAddr(page_start(v.0))
    }
}

impl VirtPageNum {
    /// Get the indexes of the page table entry
    pub fn indexes(&self) -> (r: [usize; 3])
        ensures
            r@ == seq![
                (self.0 as int / 262144 % 512) as usize,
                (self.0 as int / 512 % 512) as usize,
                (self.0 as int % 512) as usize,
            ],
    {
        let mut vpn: usize = self.0;
        let mut idx: [usize; 3] = [0usize; 3];
        let mut i: usize = 3;
        proof {
            let v = self.0;
            assert(v & 511 == v % 512) by (bit_vector);
            assert((v >> 9usize) & 511 == v / 512 % 512) by (bit_vector);
            assert(((v >> 9usize) >> 9usize) & 511 == v / 262144 % 512) by (bit_vector);
        }
        while i > 0
            invariant
                i <= 3,
                i == 3 ==> vpn == self.0,
                i == 2 ==> vpn == self.0 >> 9usize && idx@[2] == self.0 & 511,
                i == 1 ==> vpn == (self.0 >> 9usize) >> 9usize && idx@[2] == self.0 & 511
                    && idx@[1] == (self.0 >> 9usize) & 511,
                i == 0 ==> idx@[2] == self.0 & 511 && idx@[1] == (self.0 >> 9usize) & 511
                    && idx@[0] == ((self.0 >> 9usize) >> 9usize) & 511,
            decreases i,
        {
            i -= 1;
            idx[i] = vpn & 511;
            vpn = vpn >> 9usize;
        }
        assert(idx@ =~= seq![
            (self.0 as int / 262144 % 512) as usize,
            (self.0 as int / 512 % 512) as usize,
            (self.0 as int % 512) as usize,
        ]);
        idx
    }
}

/// What can be counted on one by one.
pub trait StepByOne: Sized {
    /// The number that is counted.
    spec fn number(&self) -> int;

    /// The largest number.
    spec fn max_number() -> int;

    /// step by one element(page number)
    fn step(&mut self)
        requires
            old(self).number() < Self::max_number(),
        ensures
            final(self).number() == old(self).number() + 1,
    ;

    /// Whether two numbers are the same.
    fn same(&self, other: &Self) -> (r: bool)
        ensures
            r == (self.number() == other.number()),
    ;
}

impl StepByOne for VirtPageNum {
    open spec fn number(&self) -> int {
        self.0 as int
    }

    open spec fn max_number() -> int {
        usize::MAX as int
    }

    fn step(&mut self) {
        self.0 += 1;
    }

    fn same(&self, other: &Self) -> (r: bool) {
        self.0 == other.0
    }
}

impl StepByOne for PhysPageNum {
    open spec fn number(&self) -> int {
        self.0 as int
    }

    open spec fn max_number() -> int {
        usize::MAX as int
    }

    fn step(&mut self) {
        self.0 += 1;
    }

    fn same(&self, other: &Self) -> (r: bool) {
        self.0 == other.0
    }
}

/// a simple range structure for type T
pub struct SimpleRange<T: StepByOne + Copy> {
    pub l: T,
    pub r: T,
}

impl<T: StepByOne + Copy> Copy for SimpleRange<T> {

}

impl<T: StepByOne + Copy> Clone for SimpleRange<T> {
    fn clone(&self) -> (r: Self)
        ensures
            r == *self,
    {
        *self
    }
}

impl<T: StepByOne + Copy> SimpleRange<T> {
    /// The numbers from `start` up to but not including `end`.
    pub fn new(start: T, end: T) -> (r: Self)
        requires
            start.number() <= end.number(),
        ensures
            r == (SimpleRange { l: start, r: end }),
    {
        SimpleRange { l: start, r: end }
    }

    /// The first number.
    pub fn get_start(&self) -> (r: T)
        ensures
            r == self.l,
    {
        self.l
    }

    /// The number behind the last.
    pub fn get_end(&self) -> (r: T)
        ensures
            r == self.r,
    {
        self.r
    }

    /// Count through the range.
    pub fn into_iter(self) -> (r: SimpleRangeIterator<T>)
        ensures
            r == (SimpleRangeIterator { current: self.l, end: self.r }),
    {
        SimpleRangeIterator::new(self.l, self.r)
    }
}

/// iterator for the simple range structure
pub struct SimpleRangeIterator<T: StepByOne + Copy> {
    pub current: T,
    pub end: T,
}

impl<T: StepByOne + Copy> SimpleRangeIterator<T> {
    /// Count from `l` up to but not including `r`.
    pub fn new(l: T, r: T) -> (s: Self)
        ensures
            s == (SimpleRangeIterator { current: l, end: r }),
    {
        SimpleRangeIterator { current: l, end: r }
    }

    /// The next number, if there is one.
    pub fn next(&mut self) -> (r: Option<T>)
        requires
            old(self).current.number() <= old(self).end.number() <= T::max_number(),
        ensures
            final(self).end == old(self).end,
            match r {
                None => {
                    &&& old(self).current.number() == old(self).end.number()
                    &&& final(self).current == old(self).current
                },
                Some(t) => {
                    &&& old(self).current.number() < old(self).end.number()
                    &&& t == old(self).current
                    &&& final(self).current.number() == old(self).current.number() + 1
                },
            },
    {
        if self.current.same(&self.end) {
            None
        } else {
            let t: T = self.current;
            self.current.step();
            Some(t)
        }
    }
}

/// a simple range structure for virtual page number
pub type VPNRange = SimpleRange<VirtPageNum>;

/// An address lies in the page that its page number gives, at its page offset.
pub proof fn law_page_and_offset(v: usize)
    ensures
        v == (v / PAGE_SIZE) * PAGE_SIZE + v % PAGE_SIZE,
        v % PAGE_SIZE < PAGE_SIZE,
{
}

/// Rounding an address up and down gives the same page exactly if it is aligned, and
/// otherwise two pages next to each other.
pub proof fn law_floor_ceil(v: usize)
    ensures
        ({
            let floor = v as int / PAGE_SIZE as int;
            let ceil = (v + PAGE_SIZE - 1) / PAGE_SIZE as int;
            ceil == if v % PAGE_SIZE == 0 {
                floor
            } else {
                floor + 1
            }
        }),
{
}

/// The three indexes of a virtual page number give it back.
pub proof fn law_indexes(v: usize)
    requires
        v < VPN_SPACE,
    ensures
        (v as int / 262144 % 512) * 262144 + (v as int / 512 % 512) * 512 + v as int % 512 == v,
{
}

/// A virtual address that was taken from a number of the machine and turned back is the
/// number, if the number is one that Sv39 can address: its upper bits are all equal.
pub proof fn law_canonical(v: usize)
    requires
        (v as int) < VA_SPACE as int / 2 || v >= 0x1_0000_0000_0000_0000 - VA_SPACE as int / 2,
    ensures
        sign_extended(low(v, VA_SPACE) as int) == v,
{
}

} // verus!
