use rcore::config::{MEMORY_END, PAGE_SIZE, TRAMPOLINE, TRAP_CONTEXT_BASE};
use rcore::drivers::virtio_blk::VirtioHal;
use rcore::mm::address::{PhysAddr, PhysPageNum, SimpleRange, StepByOne, VirtAddr, VirtPageNum};
use rcore::mm::frame_allocator::{FrameMemory, FrameTracker, StackFrameAllocator};
use rcore::mm::map_area::{MapPermission, R, U, W, X};
use rcore::mm::memory_set::MemorySet;
use rcore::mm::plan::{remap_test, KernelLayout};
use rcore::mm::user::{
    read_user, read_user_word, translated_byte_buffer, translated_str, write_user, write_user_word,
};

const TRAMP: usize = 0x80202000;

fn memory(pages: usize) -> FrameMemory {
    FrameMemory::init_frame_allocator(MEMORY_END - pages * PAGE_SIZE)
}

fn layout(pages: usize) -> KernelLayout {
    KernelLayout {
        stext: 0x80200000,
        etext: 0x80203000,
        srodata: 0x80203000,
        erodata: 0x80205000,
        sdata: 0x80205000,
        edata: 0x80207000,
        sbss_with_stack: 0x80207000,
        ebss: 0x80209000,
        ekernel: MEMORY_END - pages * PAGE_SIZE,
        strampoline: TRAMP,
    }
}

fn user(bits: u8) -> MapPermission {
    MapPermission { bits: bits | U }
}

/// A program of one segment at `vaddr`, with `data` in the file and `mem_size` bytes in
/// memory.
fn elf(vaddr: u64, data: &[u8], mem_size: u64, flags: u32, entry: u64) -> Vec<u8> {
    let mut v: Vec<u8> = vec![0x7f, b'E', b'L', b'F', 2, 1, 1, 0, 0, 0, 0, 0, 0, 0, 0, 0];
    v.extend_from_slice(&2u16.to_le_bytes());
    v.extend_from_slice(&243u16.to_le_bytes());
    v.extend_from_slice(&1u32.to_le_bytes());
    v.extend_from_slice(&entry.to_le_bytes());
    v.extend_from_slice(&64u64.to_le_bytes());
    v.extend_from_slice(&0u64.to_le_bytes());
    v.extend_from_slice(&0u32.to_le_bytes());
    for x in [64u16, 56, 1, 64, 0, 0] {
        v.extend_from_slice(&x.to_le_bytes());
    }
    v.extend_from_slice(&1u32.to_le_bytes());
    v.extend_from_slice(&flags.to_le_bytes());
    for x in [120u64, vaddr, vaddr, data.len() as u64, mem_size, 4096] {
        v.extend_from_slice(&x.to_le_bytes());
    }
    v.extend_from_slice(data);
    v
}

#[test]
fn addresses_and_pages() {
    assert_eq!(VirtAddr::from(0x1234usize).floor(), VirtPageNum(1));
    assert_eq!(VirtAddr::from(0x1234usize).ceil(), VirtPageNum(2));
    assert_eq!(VirtAddr::from(0x2000usize).ceil(), VirtPageNum(2));
    assert_eq!(VirtAddr::from(0usize).ceil(), VirtPageNum(0));
    assert_eq!(PhysAddr::from(0usize).ceil(), PhysPageNum(0));
    assert_eq!(PhysAddr::from(1usize).ceil(), PhysPageNum(1));
    assert_eq!(VirtAddr::from(0x1234usize).page_offset(), 0x234);
    assert!(VirtAddr::from(0x3000usize).aligned());
    assert_eq!(usize::from(VirtAddr::from(0x40_0000_0000usize)), 0xffff_ffc0_0000_0000);
    assert_eq!(usize::from(VirtAddr::from(TRAMPOLINE)), TRAMPOLINE);
    assert_eq!(PhysAddr::from(PhysPageNum(3)).0, 0x3000);
    assert_eq!(VirtPageNum(0x7ff_ffff).indexes(), [511, 511, 511]);
    assert_eq!(VirtPageNum((2 << 18) + (3 << 9) + 4).indexes(), [2, 3, 4]);
}

#[test]
fn ranges_step_by_one() {
    let range = SimpleRange::new(VirtPageNum(3), VirtPageNum(6));
    let mut it = range.into_iter();
    let mut v = Vec::new();
    while let Some(p) = it.next() {
        v.push(p.0);
    }
    assert_eq!(v, vec![3, 4, 5]);
    let mut p = PhysPageNum(7);
    p.step();
    assert_eq!(p, PhysPageNum(8));
}

#[test]
fn frames_are_recycled() {
    let mut a = StackFrameAllocator::new();
    a.init(PhysPageNum(10), PhysPageNum(12));
    assert_eq!(a.allocate(), Some(PhysPageNum(10)));
    assert_eq!(a.allocate(), Some(PhysPageNum(11)));
    assert_eq!(a.allocate(), None);
    assert!(a.can_dealloc(PhysPageNum(10)));
    a.dealloc(PhysPageNum(10));
    assert!(!a.can_dealloc(PhysPageNum(10)));
    assert_eq!(a.allocate(), Some(PhysPageNum(10)));
}

#[test]
fn frame_allocator_test() {
    let mut mem = memory(16);
    let mut v: Vec<FrameTracker> = Vec::new();
    for _ in 0..5 {
        v.push(mem.frame_alloc().unwrap());
    }
    for f in v.iter().rev() {
        mem.frame_dealloc(f.ppn);
    }
    for i in 0..5 {
        assert_eq!(mem.frame_alloc().unwrap().ppn, v[i].ppn);
    }
}

#[test]
fn frames_are_cleared() {
    let mut mem = memory(4);
    let f = mem.frame_alloc().unwrap();
    mem.write_bytes(f.ppn, 100, b"xyz", 0, 3);
    assert_eq!(&mem.get_bytes_array(f.ppn)[99..104], b"\0xyz\0");
    mem.frame_dealloc(f.ppn);
    let g = mem.frame_alloc().unwrap();
    assert_eq!(g.ppn, f.ppn);
    assert!(mem.get_bytes_array(g.ppn).iter().all(|b| *b == 0));
}

#[test]
fn kernel_sections_have_their_permissions() {
    let l = layout(16);
    let mut mem = memory(16);
    let kernel = MemorySet::new_kernel(&l, &mut mem);
    assert!(remap_test(&kernel, &l));
    let text = kernel.translate(VirtPageNum(0x80200)).unwrap();
    assert_eq!(text.ppn(), PhysPageNum(0x80200));
    assert!(text.executable() && text.readable() && !text.writable());
    let data = kernel.translate(VirtPageNum(0x80205)).unwrap();
    assert!(!data.executable() && data.readable() && data.writable());
    let tramp = kernel.translate(VirtAddr::from(TRAMPOLINE).floor()).unwrap();
    assert_eq!(tramp.ppn(), PhysPageNum(TRAMP / PAGE_SIZE));
    assert!(kernel.translate(VirtPageNum(0x1234)).is_none());
    assert_eq!(kernel.token() >> 60, 8);
    assert_eq!(VirtioHal::virt_to_phys(0x80205123, &kernel), 0x80205123);
    assert_eq!(VirtioHal::phys_to_virt(77), 77);
}

#[test]
fn areas_grow_and_shrink() {
    let mut mem = memory(32);
    let mut s = MemorySet::new_bare(&mut mem);
    let start = VirtAddr::from(0x10000usize);
    s.insert_framed_area(start, VirtAddr::from(0x12000usize), user(R | W), &mut mem);
    assert!(s.translate(VirtPageNum(0x11)).is_some());
    assert!(s.translate(VirtPageNum(0x12)).is_none());
    assert!(s.append_to(start, VirtAddr::from(0x13800usize), &mut mem));
    assert!(s.translate(VirtPageNum(0x13)).is_some());
    assert!(s.shrink_to(start, VirtAddr::from(0x11000usize), &mut mem));
    assert!(s.translate(VirtPageNum(0x10)).is_some());
    assert!(s.translate(VirtPageNum(0x11)).is_none());
    assert!(!s.append_to(VirtAddr::from(0x20000usize), VirtAddr::from(0x21000usize), &mut mem));
    s.remove_area_with_start_vpn(VirtPageNum(0x10), &mut mem);
    assert!(s.translate(VirtPageNum(0x10)).is_none());
}

#[test]
fn unmapping_splits_an_area() {
    let mut mem = memory(32);
    let mut s = MemorySet::new_bare(&mut mem);
    let start = VirtAddr::from(0x10000usize);
    let end = VirtAddr::from(0x15000usize);
    s.insert_framed_area(start, end, user(R | W), &mut mem);
    let kept = s.translate(VirtPageNum(0x14)).unwrap().ppn();
    assert!(s.full_mapped(start, end));
    assert!(s.overlap(VirtAddr::from(0x14fffusize), VirtAddr::from(0x16000usize)));
    assert!(!s.overlap(VirtAddr::from(0x15000usize), VirtAddr::from(0x16000usize)));
    s.unmap(VirtAddr::from(0x11000usize), VirtAddr::from(0x13000usize), &mut mem);
    assert!(!s.full_mapped(start, end));
    assert!(s.translate(VirtPageNum(0x10)).is_some());
    assert!(s.translate(VirtPageNum(0x11)).is_none());
    assert!(s.translate(VirtPageNum(0x12)).is_none());
    assert_eq!(s.translate(VirtPageNum(0x13)).is_some(), true);
    assert_eq!(s.translate(VirtPageNum(0x14)).unwrap().ppn(), kept);
    // the second piece is an area of its own
    s.remove_area_with_start_vpn(VirtPageNum(0x13), &mut mem);
    assert!(s.translate(VirtPageNum(0x14)).is_none());
    assert!(s.translate(VirtPageNum(0x10)).is_some());
}

#[test]
fn unmapping_takes_the_front_the_back_or_all() {
    let mut mem = memory(32);
    let mut s = MemorySet::new_bare(&mut mem);
    for start in [0x10000usize, 0x20000, 0x30000] {
        let end = VirtAddr::from(start + 0x3000);
        s.insert_framed_area(VirtAddr::from(start), end, user(R | W), &mut mem);
    }
    // the back of the first, all of the second, the front of the third
    s.unmap(VirtAddr::from(0x12000usize), VirtAddr::from(0x31000usize), &mut mem);
    let mapped: Vec<usize> =
        (0x10..0x40).filter(|v| s.translate(VirtPageNum(*v)).is_some()).collect();
    assert_eq!(mapped, vec![0x10, 0x11, 0x31, 0x32]);
    s.remove_area_with_start_vpn(VirtPageNum(0x20), &mut mem);
    s.remove_area_with_start_vpn(VirtPageNum(0x31), &mut mem);
    assert!(s.translate(VirtPageNum(0x32)).is_none());
    assert!(!s.overlap(VirtAddr::from(0x12000usize), VirtAddr::from(0x40000usize)));
    // the first is still an area that starts where it did
    assert!(s.append_to(VirtAddr::from(0x10000usize), VirtAddr::from(0x14000usize), &mut mem));
    assert!(s.translate(VirtPageNum(0x13)).is_some());
}

#[test]
fn programs_are_loaded() {
    let mut mem = memory(64);
    let data: Vec<u8> = (0..5000u32).map(|i| (i % 251) as u8).collect();
    let image = elf(0x10000, &data, 6000, 5, 0x10040);
    let (s, top, entry) = MemorySet::from_elf(&image, TRAMP, &mut mem);
    assert_eq!(entry, 0x10040);
    // two pages of the segment, a guard page, and two pages of stack
    assert_eq!(top, 0x12000 + 0x1000 + 0x2000);
    let text = s.translate(VirtPageNum(0x10)).unwrap();
    assert!(text.readable() && text.executable() && !text.writable());
    assert!(s.translate(VirtPageNum(0x12)).is_none());
    let stack = s.translate(VirtPageNum(0x13)).unwrap();
    assert!(stack.readable() && stack.writable() && !stack.executable());
    assert!(s.translate(VirtPageNum(0x15)).is_none());
    assert!(s.translate(VirtAddr::from(TRAP_CONTEXT_BASE).floor()).is_some());
    assert_eq!(read_user(&s, 0x10000, 5000, &mem), data);
    assert_eq!(read_user(&s, 0x10000 + 5000, 1000, &mem), vec![0u8; 1000]);
}

#[test]
fn a_copied_space_has_frames_of_its_own() {
    let mut mem = memory(64);
    let image = elf(0x10000, b"parent", 6, 6, 0x10000);
    let (s, _, _) = MemorySet::from_elf(&image, TRAMP, &mut mem);
    let c = MemorySet::from_existed_user(&s, TRAMP, &mut mem);
    assert_eq!(read_user(&c, 0x10000, 6, &mem), b"parent".to_vec());
    write_user(&c, 0x10000, b"child!", &mut mem);
    assert_eq!(read_user(&c, 0x10000, 6, &mem), b"child!".to_vec());
    assert_eq!(read_user(&s, 0x10000, 6, &mem), b"parent".to_vec());
    let page = VirtPageNum(0x10);
    assert_ne!(s.translate(page).unwrap().ppn(), c.translate(page).unwrap().ppn());
    assert_ne!(s.token(), c.token());
}

#[test]
fn recycled_pages_are_free_again() {
    let mut mem = memory(32);
    let image = elf(0x10000, b"x", 1, 6, 0x10000);
    for _ in 0..20 {
        let (mut s, _, _) = MemorySet::from_elf(&image, TRAMP, &mut mem);
        s.recycle_data_pages(&mut mem);
        mem.frame_dealloc(s.root_ppn());
    }
    assert!(mem.frame_alloc().is_some());
}

#[test]
fn user_memory_is_read_and_written() {
    let mut mem = memory(64);
    let image = elf(0x10000, b"path\0\xe9t\xe9\0", 8192, 6, 0x10000);
    let (s, top, _) = MemorySet::from_elf(&image, TRAMP, &mut mem);
    assert_eq!(translated_str(&s, 0x10000, &mem), "path");
    assert_eq!(translated_str(&s, 0x10005, &mem), "été");
    write_user_word(&s, 0x10100, 0x1122334455667788, &mut mem);
    assert_eq!(read_user_word(&s, 0x10100, &mem), 0x1122334455667788);
    assert_eq!(read_user(&s, 0x10100, 2, &mem), vec![0x88, 0x77]);
    // over the end of a page
    write_user(&s, 0x10ffe, b"abcd", &mut mem);
    let buf = translated_byte_buffer(&s, 0x10ffe, 4, &mem);
    assert_eq!(buf.buffers, vec![b"ab".to_vec(), b"cd".to_vec()]);
    assert_eq!(buf.len(), 4);
    assert_eq!(buf.bytes(), b"abcd".to_vec());
    assert_eq!(read_user(&s, top - 8192, 3, &mem), vec![0, 0, 0]);
}

#[test]
fn dma_frames_follow_each_other() {
    let mut mem = memory(16);
    let mut queue = Vec::new();
    let pa = VirtioHal::dma_alloc(3, &mut mem, &mut queue);
    assert_eq!(pa, MEMORY_END - 16 * PAGE_SIZE);
    assert_eq!(queue.len(), 3);
    assert_eq!(queue[2].ppn.0, pa / PAGE_SIZE + 2);
    assert_eq!(VirtioHal::dma_dealloc(pa, 3, &mut mem), 0);
    assert_eq!(mem.frame_alloc().unwrap().ppn.0, pa / PAGE_SIZE + 2);
    assert_eq!(VirtioHal::dma_alloc(0, &mut mem, &mut queue), 0);
}

#[test]
fn segments_can_be_executable() {
    let mut mem = memory(32);
    let image = elf(0x10000, b"code", 4, 7, 0x10000);
    let (s, _, _) = MemorySet::from_elf(&image, TRAMP, &mut mem);
    let e = s.translate(VirtPageNum(0x10)).unwrap();
    assert!(e.readable() && e.writable() && e.executable() && e.is_valid());
    assert_eq!(e.flags & (R | W | X | U), R | W | X | U);
}

#[test]
fn a_kernel_that_fills_the_memory_leaves_no_frame() {
    let mut mem = FrameMemory::init_frame_allocator(MEMORY_END);
    assert!(mem.frame_alloc().is_none());
    // a part of a page is no frame
    let mut mem = FrameMemory::init_frame_allocator(MEMORY_END - PAGE_SIZE + 1);
    assert!(mem.frame_alloc().is_none());
    let mut mem = memory(1);
    assert_eq!(mem.frame_alloc().unwrap().ppn.0, MEMORY_END / PAGE_SIZE - 1);
    assert!(mem.frame_alloc().is_none());
}

#[test]
fn an_empty_segment_may_lie_in_an_earlier_one() {
    let mut mem = memory(64);
    let mut image = elf(0x10000, b"first", 5, 6, 0x10000);
    // a second program header behind the first, without bytes
    image[56..58].copy_from_slice(&2u16.to_le_bytes());
    image[72..80].copy_from_slice(&176u64.to_le_bytes());
    let mut second: Vec<u8> = Vec::new();
    second.extend_from_slice(&1u32.to_le_bytes());
    second.extend_from_slice(&4u32.to_le_bytes());
    for x in [176u64, 0x10000, 0x10000, 0, 0, 4096] {
        second.extend_from_slice(&x.to_le_bytes());
    }
    image.splice(120..120, second);
    let (s, top, _) = MemorySet::from_elf(&image, TRAMP, &mut mem);
    // the stack lies behind the end of the last segment
    assert_eq!(top, 0x10000 + 0x1000 + 0x2000);
    assert_eq!(read_user(&s, 0x10000, 6, &mem), b"first\0".to_vec());
    assert!(s.translate(VirtPageNum(0x10)).unwrap().writable());
}
