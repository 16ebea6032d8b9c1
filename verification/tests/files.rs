use rcore::easy_fs::block_dev::{BlockDevice, BLOCK_SZ};
use rcore::easy_fs::efs::EasyFileSystem;
use rcore::fs::file::{File, Stat, StatMode, UserBuffer, STAT_FILE};
use rcore::fs::inode::{open_file, OpenFlags, CREATE, RDONLY, RDWR, TRUNC, WRONLY};
use rcore::fs::pipe::{make_pipe, Pipe, PipeRingBuffer, PipeStep};
use rcore::fs::stdio::{Stdin, Stdout};

struct RamDisk {
    blocks: Vec<[u8; BLOCK_SZ]>,
}

impl BlockDevice for RamDisk {
    fn read_block(&self, block_id: usize, buf: &mut [u8]) {
        buf.copy_from_slice(&self.blocks[block_id]);
    }

    fn write_block(&mut self, block_id: usize, buf: &[u8]) {
        self.blocks[block_id].copy_from_slice(buf);
    }
}

fn fresh() -> EasyFileSystem<RamDisk> {
    EasyFileSystem::create(RamDisk { blocks: vec![[0u8; BLOCK_SZ]; 4096] }, 2048, 1)
}

fn flags(bits: u32) -> OpenFlags {
    OpenFlags::from_bits(bits).unwrap()
}

#[test]
fn flags_say_what_may_be_done() {
    assert_eq!(flags(RDONLY).read_write(), (true, false));
    assert_eq!(flags(WRONLY).read_write(), (false, true));
    assert_eq!(flags(RDWR).read_write(), (true, true));
    assert_eq!(flags(CREATE).read_write(), (true, true));
    assert_eq!(flags(CREATE | WRONLY).read_write(), (false, true));
    assert!(flags(CREATE | TRUNC).contains(TRUNC));
    assert!(!flags(CREATE).contains(TRUNC));
    assert_eq!(OpenFlags::from_bits(4), None);
}

#[test]
fn pieces_are_written_and_read_in_order() {
    let mut fs = fresh();
    let mut f = open_file("data", flags(CREATE | RDWR), &mut fs).unwrap();
    assert!(f.readable() && f.writable());
    let buf = UserBuffer::new(vec![b"one ".to_vec(), b"two ".to_vec(), b"three".to_vec()]);
    assert_eq!(f.write(&buf, &mut fs), 13);
    assert_eq!(f.offset, 13);
    f.offset = 4;
    let mut back = UserBuffer::new(vec![vec![0; 3], vec![0; 3], vec![7; 8]]);
    assert_eq!(f.read(&mut back, &mut fs), 9);
    assert_eq!(back.buffers, vec![b"two".to_vec(), b" th".to_vec(), b"ree\x07\x07\x07\x07\x07".to_vec()]);
    assert_eq!(f.read(&mut back, &mut fs), 0);
}

#[test]
fn a_whole_file_is_read() {
    let mut fs = fresh();
    let data: Vec<u8> = (0..2000u32).map(|i| (i % 253) as u8).collect();
    let mut f = open_file("big", flags(CREATE), &mut fs).unwrap();
    f.write(&UserBuffer::new(vec![data.clone()]), &mut fs);
    let mut g = open_file("big", flags(RDONLY), &mut fs).unwrap();
    assert_eq!(g.read_all(&mut fs), data);
    assert_eq!(g.read_all(&mut fs), Vec::<u8>::new());
}

#[test]
fn opening_creates_or_truncates() {
    let mut fs = fresh();
    assert!(open_file("x", flags(RDWR), &mut fs).is_none());
    let mut f = open_file("x", flags(CREATE), &mut fs).unwrap();
    f.write(&UserBuffer::new(vec![b"text".to_vec()]), &mut fs);
    assert_eq!(open_file("x", flags(RDWR), &mut fs).unwrap().read_all(&mut fs), b"text".to_vec());
    assert!(open_file("x", flags(TRUNC), &mut fs).unwrap().read_all(&mut fs).is_empty());
    f.offset = 0;
    f.write(&UserBuffer::new(vec![b"again".to_vec()]), &mut fs);
    assert!(open_file("x", flags(CREATE), &mut fs).unwrap().read_all(&mut fs).is_empty());
}

#[test]
fn a_ring_holds_thirty_two_bytes() {
    let mut ring = PipeRingBuffer::new();
    assert_eq!(ring.available_read(), 0);
    assert_eq!(ring.available_write(), 32);
    for i in 0..32 {
        ring.write_byte(i);
    }
    assert_eq!(ring.available_read(), 32);
    assert_eq!(ring.available_write(), 0);
    for i in 0..20 {
        assert_eq!(ring.read_byte(), i);
    }
    for i in 0..20 {
        ring.write_byte(100 + i);
    }
    assert_eq!(ring.available_write(), 0);
    for i in 20..32 {
        assert_eq!(ring.read_byte(), i);
    }
    for i in 0..20 {
        assert_eq!(ring.read_byte(), 100 + i);
    }
    assert_eq!(ring.available_read(), 0);
}

#[test]
fn pipe_ends_read_and_write() {
    let (r, w, mut ring) = make_pipe(3);
    assert_eq!(r, Pipe { readable: true, writable: false, buffer: 3 });
    assert_eq!(w, Pipe { readable: false, writable: true, buffer: 3 });
    assert!(r.readable() && !r.writable() && w.writable());
    assert!(!ring.all_write_ends_closed(true));
    assert!(ring.all_write_ends_closed(false));
    assert_eq!(w.write(&mut ring, b"hello", 1), (5, PipeStep::Done(5)));
    let mut buf = Vec::new();
    assert_eq!(r.read(&mut ring, &mut buf, 2, true), PipeStep::Done(2));
    assert_eq!(r.read(&mut ring, &mut buf, 9, true), PipeStep::Wait);
    assert_eq!(buf, b"ello".to_vec());
    assert_eq!(r.read(&mut ring, &mut buf, 9, false), PipeStep::Done(4));
}

#[test]
fn standard_streams_go_one_way() {
    assert!(Stdin.readable() && !Stdin.writable());
    assert!(!Stdout.readable() && Stdout.writable());
    assert_eq!(Stdin.read(0), None);
    assert_eq!(Stdin.read(0x41), Some(0x41));
    let buf = UserBuffer::new(vec![b"ab".to_vec(), "\u{20ac}".as_bytes().to_vec()]);
    assert_eq!(Stdout.write(&buf), (vec!["ab".to_string(), "\u{20ac}".to_string()], 5));
}

#[test]
fn a_stat_keeps_its_values() {
    let s = Stat::new(7, StatMode { bits: STAT_FILE }, 2);
    assert_eq!((s.dev, s.ino, s.mode.bits, s.nlink), (0, 7, 0o100000, 2));
}
