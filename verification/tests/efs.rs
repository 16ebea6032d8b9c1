use rcore::easy_fs::block_dev::{BlockDevice, BLOCK_SZ};
use rcore::easy_fs::efs::EasyFileSystem;
use rcore::easy_fs::layout::{DirEntry, DiskInode, DiskInodeType};
use rcore::easy_fs::store::BlockStore;
use rcore::easy_fs::vfs::Inode;
use rcore::pack::pack_app;

/// A block device in memory.
struct MemDisk {
    blocks: Vec<[u8; BLOCK_SZ]>,
}

impl MemDisk {
    fn new(n: usize) -> Self {
        MemDisk { blocks: vec![[0u8; BLOCK_SZ]; n] }
    }
}

impl BlockDevice for MemDisk {
    fn read_block(&self, block_id: usize, buf: &mut [u8]) {
        buf.copy_from_slice(&self.blocks[block_id]);
    }

    fn write_block(&mut self, block_id: usize, buf: &[u8]) {
        self.blocks[block_id].copy_from_slice(buf);
    }
}

fn fresh() -> (EasyFileSystem<MemDisk>, Inode) {
    let efs = EasyFileSystem::create(MemDisk::new(8192), 4096, 1);
    let root = efs.root_inode();
    (efs, root)
}

fn read_all(inode: &Inode, efs: &mut EasyFileSystem<MemDisk>) -> Vec<u8> {
    let mut read_buffer = [0u8; 127];
    let mut offset = 0usize;
    let mut v = Vec::new();
    loop {
        let len = inode.read_at(offset, &mut read_buffer, efs);
        if len == 0 {
            break;
        }
        offset += len;
        v.extend_from_slice(&read_buffer[..len]);
    }
    v
}

#[test]
fn efs_test() {
    let efs = EasyFileSystem::create(MemDisk::new(8192), 4096, 1);
    let mut efs = EasyFileSystem::open(efs.block_device.into_device());
    let root_inode = efs.root_inode();
    root_inode.create("filea", &mut efs);
    root_inode.create("fileb", &mut efs);
    for name in root_inode.ls(&mut efs) {
        println!("{}", name);
    }
    let filea = root_inode.find("filea", &mut efs).unwrap();
    let greet_str = "Hello, world!";
    filea.write_at(0, greet_str.as_bytes(), &mut efs);
    let mut buffer = [0u8; 233];
    let len = filea.read_at(0, &mut buffer, &mut efs);
    assert_eq!(greet_str, core::str::from_utf8(&buffer[..len]).unwrap());

    let mut random_str_test = |len: usize| {
        filea.clear(&mut efs);
        assert_eq!(filea.read_at(0, &mut buffer, &mut efs), 0);
        let mut str = String::new();
        // random digit
        for _ in 0..len {
            str.push(char::from('0' as u8 + rand::random::<u8>() % 10));
        }
        filea.write_at(0, str.as_bytes(), &mut efs);
        let mut read_buffer = [0u8; 127];
        let mut offset = 0usize;
        let mut read_str = String::new();
        loop {
            let len = filea.read_at(offset, &mut read_buffer, &mut efs);
            if len == 0 {
                break;
            }
            offset += len;
            read_str.push_str(core::str::from_utf8(&read_buffer[..len]).unwrap());
        }
        assert_eq!(str, read_str);
    };

    random_str_test(4 * BLOCK_SZ);
    random_str_test(8 * BLOCK_SZ + BLOCK_SZ / 2);
    random_str_test(100 * BLOCK_SZ);
    random_str_test(70 * BLOCK_SZ + BLOCK_SZ / 7);
    random_str_test((12 + 128) * BLOCK_SZ);
    random_str_test(400 * BLOCK_SZ);
    random_str_test(1000 * BLOCK_SZ);
    random_str_test(2000 * BLOCK_SZ);
}

#[test]
fn names_are_listed_in_order() {
    let (mut efs, root) = fresh();
    assert_eq!(root.ls(&mut efs), Vec::<String>::new());
    root.create("filea", &mut efs).unwrap();
    root.create("fileb", &mut efs).unwrap();
    assert_eq!(root.ls(&mut efs), vec!["filea".to_string(), "fileb".to_string()]);
    assert!(root.find("filec", &mut efs).is_none());
    assert_eq!(root.find("fileb", &mut efs).unwrap().inode_id(), 2);
}

#[test]
fn a_name_is_created_once() {
    let (mut efs, root) = fresh();
    let a = root.create("filea", &mut efs).unwrap();
    assert_eq!(a.inode_id(), 1);
    assert!(a.is_file(&mut efs));
    assert!(!a.is_dir(&mut efs));
    assert!(root.is_dir(&mut efs));
    assert!(root.create("filea", &mut efs).is_none());
    assert_eq!(root.ls(&mut efs).len(), 1);
}

#[test]
fn writes_survive_reopening() {
    let (mut efs, root) = fresh();
    let a = root.create("filea", &mut efs).unwrap();
    a.write_at(0, b"persistent", &mut efs);
    let mut efs = EasyFileSystem::open(efs.block_device.into_device());
    let root = efs.root_inode();
    let a = root.find("filea", &mut efs).unwrap();
    assert_eq!(read_all(&a, &mut efs), b"persistent".to_vec());
}

#[test]
fn a_gap_reads_as_zero() {
    let (mut efs, root) = fresh();
    let a = root.create("filea", &mut efs).unwrap();
    a.write_at(0, b"ab", &mut efs);
    a.write_at(1000, b"cd", &mut efs);
    let mut expected = vec![0u8; 1002];
    expected[0] = b'a';
    expected[1] = b'b';
    expected[1000] = b'c';
    expected[1001] = b'd';
    assert_eq!(read_all(&a, &mut efs), expected);
    // in the middle
    a.write_at(1, b"xyz", &mut efs);
    expected[1..4].copy_from_slice(b"xyz");
    assert_eq!(read_all(&a, &mut efs), expected);
}

#[test]
fn cleared_files_give_their_blocks_back() {
    let (mut efs, root) = fresh();
    let a = root.create("filea", &mut efs).unwrap();
    a.write_at(0, &vec![7u8; 200 * BLOCK_SZ], &mut efs);
    a.clear(&mut efs);
    assert_eq!(read_all(&a, &mut efs), Vec::<u8>::new());
    // far more than fits without giving blocks back
    for _ in 0..30 {
        a.write_at(0, &vec![9u8; 200 * BLOCK_SZ], &mut efs);
        a.clear(&mut efs);
    }
    let b = root.create("fileb", &mut efs).unwrap();
    b.write_at(0, b"still works", &mut efs);
    assert_eq!(read_all(&b, &mut efs), b"still works".to_vec());
}

#[test]
fn links_share_a_file() {
    let (mut efs, root) = fresh();
    let a = root.create("filea", &mut efs).unwrap();
    a.write_at(0, b"shared", &mut efs);
    assert_eq!(a.get_nlink(&mut efs), 1);
    assert!(root.link("filea", "fileb", &mut efs));
    assert_eq!(a.get_nlink(&mut efs), 2);
    assert!(!root.link("missing", "filec", &mut efs));
    assert!(root.unlink("filea", &mut efs));
    assert!(root.find("filea", &mut efs).is_none());
    let b = root.find("fileb", &mut efs).unwrap();
    assert_eq!(b.get_nlink(&mut efs), 1);
    assert_eq!(read_all(&b, &mut efs), b"shared".to_vec());
    assert!(root.unlink("fileb", &mut efs));
    assert!(!root.unlink("fileb", &mut efs));
    assert_eq!(root.ls(&mut efs), Vec::<String>::new());
}

#[test]
fn entries_are_found_by_index() {
    let (mut efs, root) = fresh();
    for name in ["a", "b", "c"] {
        root.create(name, &mut efs).unwrap();
    }
    assert!(root.unlink("a", &mut efs));
    assert!(root.find("b", &mut efs).is_some());
    assert!(root.find("c", &mut efs).is_some());
    assert_eq!(root.ls(&mut efs).len(), 2);
}

#[test]
fn data_blocks_are_handed_out_once() {
    let (mut efs, _) = fresh();
    let a = efs.alloc_data();
    let b = efs.alloc_data();
    assert_eq!(b, a + 1);
    efs.dealloc_data(a);
    assert_eq!(efs.alloc_data(), a);
    assert_eq!(efs.alloc_inode(), 1);
    assert_eq!(efs.get_disk_inode_pos(1), (2, 132));
    assert_eq!(efs.get_disk_inode_pos(4), (3, 132));
}

#[test]
fn directory_entries_hold_names() {
    let e = DirEntry::new("initproc", 5);
    assert_eq!(e.name(), "initproc");
    assert_eq!(e.inode_id(), 5);
    let bytes = e.as_bytes();
    assert_eq!(bytes.len(), 32);
    assert_eq!(&bytes[..9], b"initproc\0");
    assert_eq!(&bytes[28..], &[5, 0, 0, 0]);
    assert_eq!(DirEntry::empty().name(), "");
    // a name that is not ASCII
    assert_eq!(DirEntry::new("häß", 1).name(), "häß");
}

#[test]
fn files_take_blocks_for_their_indexes() {
    assert_eq!(DiskInode::total_blocks(0), 0);
    assert_eq!(DiskInode::total_blocks(1), 1);
    assert_eq!(DiskInode::total_blocks(512), 1);
    assert_eq!(DiskInode::total_blocks(513), 2);
}

#[test]
fn programs_are_packed_by_name() {
    let (mut efs, root) = fresh();
    pack_app("ch2b_hello", b"elf one", &mut efs);
    pack_app("ch3b_yield", b"elf two", &mut efs);
    assert_eq!(root.ls(&mut efs), vec!["ch2b_hello".to_string(), "ch3b_yield".to_string()]);
    let f = root.find("ch2b_hello", &mut efs).unwrap();
    assert_eq!(read_all(&f, &mut efs), b"elf one".to_vec());
    let f = root.find("ch3b_yield", &mut efs).unwrap();
    assert_eq!(read_all(&f, &mut efs), b"elf two".to_vec());
}

#[test]
fn every_inode_of_the_bitmap_has_a_place() {
    let (mut efs, _) = fresh();
    // the super block, the bitmap of the inodes, and three inodes to a block
    let data_bitmap = 2 + 1366;
    assert_eq!(efs.get_disk_inode_pos(4095), (data_bitmap - 1, 0));
    assert_eq!(efs.get_data_block_id(0), data_bitmap + 1);
    for id in 1..4096 {
        assert_eq!(efs.alloc_inode(), id);
    }
    assert_eq!(efs.alloc_data(), data_bitmap + 1);
}

#[test]
fn many_files_lie_apart() {
    let (mut efs, root) = fresh();
    for _ in 1..3200 {
        efs.alloc_inode();
    }
    let a = root.create("late", &mut efs).unwrap();
    assert_eq!(a.inode_id(), 3200);
    a.write_at(0, b"far back", &mut efs);
    let b = root.create("later", &mut efs).unwrap();
    b.write_at(0, &vec![5u8; 3 * BLOCK_SZ], &mut efs);
    assert_eq!(read_all(&a, &mut efs), b"far back".to_vec());
    assert_eq!(read_all(&b, &mut efs), vec![5u8; 3 * BLOCK_SZ]);
}

#[test]
fn a_freed_block_is_zero_and_comes_next() {
    let (mut efs, _) = fresh();
    let a = efs.alloc_data();
    let b = efs.alloc_data();
    efs.block_device.write_bytes(a as usize, 0, &[7u8; BLOCK_SZ], 0, BLOCK_SZ);
    efs.dealloc_data(a);
    let mut buf = [1u8; BLOCK_SZ];
    efs.block_device.read_bytes(a as usize, 0, &mut buf, 0, BLOCK_SZ);
    assert_eq!(buf, [0u8; BLOCK_SZ]);
    assert_eq!(efs.alloc_data(), a);
    assert_eq!(efs.alloc_data(), b + 1);
}

fn empty_disk_inode() -> DiskInode {
    DiskInode {
        size: 0,
        direct: [0; 28],
        indirect1: 0,
        indirect2: 0,
        type_: DiskInodeType::File,
        nlink: 1,
    }
}

#[test]
fn growing_in_steps_is_growing_at_once() {
    let blocks = |n: u32| (100..100 + n).collect::<Vec<u32>>();
    let size = (40 * BLOCK_SZ) as u32;
    let mut once = empty_disk_inode();
    let mut store = BlockStore::new(MemDisk::new(200));
    let n = once.blocks_num_needed(size);
    // one block more for the index
    assert_eq!(n, 41);
    once.increase_size(size, blocks(n), &mut store);

    let mut twice = empty_disk_inode();
    let mut store2 = BlockStore::new(MemDisk::new(200));
    twice.increase_size(3 * BLOCK_SZ as u32, blocks(3), &mut store2);
    assert_eq!(twice.direct[..4], [100, 101, 102, 0]);
    assert_eq!((twice.indirect1, twice.indirect2), (0, 0));
    let rest = twice.blocks_num_needed(size);
    assert_eq!(rest, 38);
    twice.increase_size(size, (103..103 + rest).collect(), &mut store2);
    assert_eq!(once.size, twice.size);
    assert_eq!(once.direct, twice.direct);
    assert_eq!((once.indirect1, once.indirect2), (twice.indirect1, twice.indirect2));
    for i in 0..40 {
        assert_eq!(once.get_block_id(i, &mut store), twice.get_block_id(i, &mut store2));
    }

    // cleared, it has the blocks to give back and no index left
    let freed = once.clear_size(&mut store);
    assert_eq!(freed.len(), 41);
    assert_eq!(once.size, 0);
    assert_eq!(once.direct, [0; 28]);
    assert_eq!((once.indirect1, once.indirect2), (0, 0));
}

#[test]
fn unlinking_takes_a_link_back() {
    let (mut efs, root) = fresh();
    let a = root.create("filea", &mut efs).unwrap();
    root.create("fileb", &mut efs).unwrap();
    a.write_at(0, b"content", &mut efs);
    let before = root.ls(&mut efs);
    assert!(root.link("filea", "again", &mut efs));
    assert_eq!(root.ls(&mut efs).len(), 3);
    assert!(root.unlink("again", &mut efs));
    assert_eq!(root.ls(&mut efs), before);
    assert_eq!(a.get_nlink(&mut efs), 1);
    assert_eq!(read_all(&a, &mut efs), b"content".to_vec());
}

#[test]
fn devices_keep_their_blocks_apart() {
    let mut one = BlockStore::new(MemDisk::new(40));
    let mut two = BlockStore::new(MemDisk::new(40));
    for b in 0..40 {
        one.write_bytes(b, 0, &[1, b as u8], 0, 2);
        two.write_bytes(b, 0, &[2, b as u8], 0, 2);
    }
    let mut buf = [0u8; 2];
    for b in 0..40 {
        one.read_bytes(b, 0, &mut buf, 0, 2);
        assert_eq!(buf, [1, b as u8]);
        two.read_bytes(b, 0, &mut buf, 0, 2);
        assert_eq!(buf, [2, b as u8]);
    }
    let (one, two) = (one.into_device(), two.into_device());
    for b in 0..40 {
        assert_eq!(one.blocks[b][..2], [1, b as u8]);
        assert_eq!(two.blocks[b][..2], [2, b as u8]);
    }
}

#[test]
fn a_name_has_at_most_27_bytes() {
    let name = "abcdefghijklmnopqrstuvwxyz0";
    assert_eq!(name.len(), 27);
    let e = DirEntry::new(name, 9);
    assert_eq!(e.name(), name);
    assert_eq!(e.as_bytes()[27], 0);
    let (mut efs, root) = fresh();
    root.create(name, &mut efs).unwrap();
    assert_eq!(root.ls(&mut efs), vec![name.to_string()]);
}
