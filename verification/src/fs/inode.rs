//! Open files of the file system.
use super::file::{
    joined, lemma_joined_len, lemma_pieces_monotonic, pieces, pieces_len, File, UserBuffer,
};
use crate::easy_fs::block_dev::BlockDevice;
use crate::easy_fs::bytes::splice;
use crate::easy_fs::disk::{
    file, free_data, inode, inode_exists, lemma_disk_ok, lemma_others_same_trans, live, others_same,
    owned, same_file,
};
use crate::easy_fs::efs::EasyFileSystem;
use crate::easy_fs::laws::law_read_after_write;
use crate::easy_fs::layout::{
    cleared, empty_inode, growth, padded_name, transfer_len, DiskInodeType, EntryModel, DIRENT_SZ,
    NAME_LENGTH_LIMIT,
};
use crate::easy_fs::model::{data_blocks_of, lemma_total_monotonic};
use crate::easy_fs::tree::{entries, file_ok, find_from, has_name, lemma_find_from, tree_ok};
use crate::easy_fs::vfs::{larger, room, Inode};
use vstd::prelude::*;
use vstd::utf8::encode_utf8;

verus! {

/// readonly
pub const RDONLY: u32 = 0;

/// writeonly
pub const WRONLY: u32 = 0x1;

/// read and write
pub const RDWR: u32 = 0x2;

/// create new file
pub const CREATE: u32 = 0x200;

/// truncate file size to 0
pub const TRUNC: u32 = 0x400;

/// All flags together.
pub const ALL_FLAGS: u32 = 0x603;

/// The flags argument to the open() system call is constructed by ORing together zero or
/// more of the values above.
#[derive(Copy, Clone, PartialEq, Eq, Debug, Structural)]
pub struct OpenFlags {
    pub bits: u32,
}

impl OpenFlags {
    /// The flags with the given bits, if there are no other bits among them.
    pub fn from_bits(bits: u32) -> (r: Option<Self>)
        ensures
            r == if bits & !ALL_FLAGS == 0 {
                Some(OpenFlags { bits })
            } else {
                None
            },
    {
        if bits & !ALL_FLAGS == 0 {
            Some(OpenFlags { bits })
        } else {
            None
        }
    }

    /// Whether all of the given flags are set.
    pub fn contains(&self, other: u32) -> (r: bool)
        ensures
            r == has_flags(*self, other),
    {
        self.bits & other == other
    }

    /// Do not check validity for simplicity
    /// Return (readable, writable)
    pub fn read_write(&self) -> (r: (bool, bool))
        ensures
            r == access_of(*self),
    {
        if self.bits == 0 {
            (true, false)
        } else if self.contains(WRONLY) {
            (false, true)
        } else {
            (true, true)
        }
    }
}

/// All of the given flags are set.
pub open spec fn has_flags(flags: OpenFlags, other: u32) -> bool {
    flags.bits & other == other
}

/// Whether a file that was opened with the flags can be read and written.
pub open spec fn access_of(flags: OpenFlags) -> (bool, bool) {
    if flags.bits == 0 {
        (true, false)
    } else if has_flags(flags, WRONLY) {
        (false, true)
    } else {
        (true, true)
    }
}

/// What the flags allow, bit by bit: a file can be written exactly if some flag is set, so
/// opening it for writing only (bit 0) or for reading and writing (bit 1) is enough, whatever
/// else is set; and it can be read exactly if it was not opened for writing only.
pub proof fn law_access(flags: OpenFlags)
    ensures
        access_of(flags).0 <==> flags.bits & 1 == 0,
        access_of(flags).1 <==> flags.bits != 0,
        flags.bits & 1 == 1 || flags.bits & 2 == 2 ==> access_of(flags).1,
{
    let b = flags.bits;
    assert((b & 1 == 0 || b & 1 == 1) && (b == 0 ==> b & 1 == 0 && b & 2 == 0)) by (bit_vector);
}

/// A file after data was written at `off`: it is as long as need be, and where it had no
/// bytes and none were written it has zero bytes.
pub open spec fn written(f: Seq<u8>, off: int, data: Seq<u8>) -> Seq<u8> {
    Seq::new(
        larger(f.len() as int, off + data.len()) as nat,
        |k: int|
            if off <= k < off + data.len() {
                data[k - off]
            } else if k < f.len() {
                f[k]
            } else {
                0u8
            },
    )
}

/// Two writes one behind the other are one write of both pieces.
pub proof fn law_written_pieces(f: Seq<u8>, off: int, a: Seq<u8>, b: Seq<u8>)
    requires
        0 <= off,
    ensures
        written(written(f, off, a), off + a.len(), b) == written(f, off, a + b),
{
    assert(written(written(f, off, a), off + a.len(), b) =~= written(f, off, a + b));
}

/// How many bytes a read into pieces gets of a file of `size` bytes, from the `i`-th piece
/// on: it stops at the first piece that gets none.
pub open spec fn read_total(size: int, off: int, bufs: Seq<Seq<u8>>, i: int) -> int
    decreases bufs.len() - i,
{
    if i < 0 || i >= bufs.len() {
        0
    } else {
        let n = transfer_len(off, bufs[i].len() as int, size);
        if n <= 0 {
            0
        } else {
            n + read_total(size, off + n, bufs, i + 1)
        }
    }
}

/// A piece after bytes of a file were read to its front.
pub open spec fn filled_piece(f: Seq<u8>, off: int, buf: Seq<u8>) -> Seq<u8> {
    Seq::new(
        buf.len(),
        |k: int|
            if k < transfer_len(off, buf.len() as int, f.len() as int) {
                f[off + k]
            } else {
                buf[k]
            },
    )
}

/// The pieces after a read into them, from the `i`-th piece on.
pub open spec fn read_pieces(f: Seq<u8>, off: int, bufs: Seq<Seq<u8>>, i: int) -> Seq<Seq<u8>>
    decreases bufs.len() - i,
{
    if i < 0 || i >= bufs.len() {
        bufs
    } else {
        let n = transfer_len(off, bufs[i].len() as int, f.len() as int);
        if n <= 0 {
            bufs
        } else {
            read_pieces(f, off + n, bufs.update(i, filled_piece(f, off, bufs[i])), i + 1)
        }
    }
}

/// What a read gets of the later pieces does not depend on what the earlier ones hold.
proof fn lemma_read_total(size: int, off: int, a: Seq<Seq<u8>>, b: Seq<Seq<u8>>, i: int)
    requires
        a.len() == b.len(),
        forall|k: int| 0 <= k < a.len() ==> (#[trigger] a[k]).len() == b[k].len(),
    ensures
        read_total(size, off, a, i) == read_total(size, off, b, i),
    decreases a.len() - i,
{
    if 0 <= i < a.len() {
        assert(a[i].len() == b[i].len());
        let n = transfer_len(off, a[i].len() as int, size);
        lemma_read_total(size, off + n, a, b, i + 1);
    }
}

/// A read gets no more than there is.
proof fn lemma_read_total_bound(size: int, off: int, bufs: Seq<Seq<u8>>, i: int)
    requires
        0 <= off,
        0 <= size,
    ensures
        0 <= read_total(size, off, bufs, i),
        off + read_total(size, off, bufs, i) <= larger(off, size),
    decreases bufs.len() - i,
{
    if 0 <= i < bufs.len() {
        let n = transfer_len(off, bufs[i].len() as int, size);
        if n > 0 {
            lemma_read_total_bound(size, off + n, bufs, i + 1);
        }
    }
}

/// The bytes of pieces after one of them was replaced by one of the same length.
proof fn lemma_joined_update(b: Seq<Seq<u8>>, i: int, q: Seq<u8>, n: int)
    requires
        0 <= i < b.len(),
        0 <= n <= b.len(),
        q.len() == b[i].len(),
    ensures
        pieces_len(b.update(i, q), n) == pieces_len(b, n),
        n <= i ==> joined(b.update(i, q), n) == joined(b, n),
        n > i ==> joined(b.update(i, q), n) == splice(joined(b, n), pieces_len(b, i), q),
    decreases n,
{
    let b2 = b.update(i, q);
    lemma_joined_len(b, n);
    lemma_joined_len(b2, n);
    lemma_joined_len(b, i);
    if n > 0 {
        lemma_joined_update(b, i, q, n - 1);
        lemma_joined_len(b, n - 1);
        lemma_joined_len(b2, n - 1);
        if n - 1 == i {
            assert(joined(b2, n) =~= splice(joined(b, n), pieces_len(b, i), q));
        } else if n - 1 > i {
            lemma_pieces_monotonic(b, i + 1, n - 1);
            assert(joined(b2, n) =~= splice(joined(b, n), pieces_len(b, i), q));
        }
    }
}

/// A read into pieces from the `i`-th on, none of which is empty, gets the bytes of the file
/// from the offset on, as many as there are and fit, and puts them one behind the other.
pub proof fn law_read_pieces(f: Seq<u8>, off: int, b: Seq<Seq<u8>>, i: int)
    requires
        0 <= off,
        0 <= i <= b.len(),
        forall|k: int| 0 <= k < b.len() ==> (#[trigger] b[k]).len() > 0,
    ensures
        ({
            let all = b.len() as int;
            let from = pieces_len(b, i);
            let n = transfer_len(off, pieces_len(b, all) - from, f.len() as int);
            let got = if n > 0 {
                f.subrange(off, off + n)
            } else {
                Seq::empty()
            };
            &&& read_total(f.len() as int, off, b, i) == got.len()
            &&& read_pieces(f, off, b, i).len() == all
            &&& joined(read_pieces(f, off, b, i), all) == splice(joined(b, all), from, got)
            &&& pieces_len(read_pieces(f, off, b, i), all) == pieces_len(b, all)
        }),
    decreases b.len() - i,
{
    let all = b.len() as int;
    let from = pieces_len(b, i);
    let n = transfer_len(off, pieces_len(b, all) - from, f.len() as int);
    lemma_joined_len(b, all);
    lemma_joined_len(b, i);
    lemma_pieces_monotonic(b, i, all);
    if i == all {
        assert(splice(joined(b, all), from, Seq::empty()) =~= joined(b, all));
    } else {
        let n1 = transfer_len(off, b[i].len() as int, f.len() as int);
        lemma_pieces_monotonic(b, i + 1, all);
        if n1 <= 0 {
            assert(n <= 0);
            assert(splice(joined(b, all), from, Seq::empty()) =~= joined(b, all));
        } else {
            let q = filled_piece(f, off, b[i]);
            let b2 = b.update(i, q);
            assert forall|k: int| 0 <= k < b2.len() implies (#[trigger] b2[k]).len() > 0 by {
                assert(b[k].len() > 0);
            }
            law_read_pieces(f, off + n1, b2, i + 1);
            lemma_read_total(f.len() as int, off + n1, b, b2, i + 1);
            lemma_joined_update(b, i, q, all);
            lemma_joined_update(b, i, q, i + 1);
            let j1 = joined(b, all);
            let j2 = joined(b2, all);
            let rest = transfer_len(
                off + n1,
                pieces_len(b, all) - pieces_len(b, i + 1),
                f.len() as int,
            );
            let got2 = if rest > 0 {
                f.subrange(off + n1, off + n1 + rest)
            } else {
                Seq::empty()
            };
            let got = f.subrange(off, off + n);
            lemma_joined_len(b, i + 1);
            assert(pieces_len(b, i + 1) == from + b[i].len());
            if n1 < b[i].len() {
                assert(rest <= 0);
                assert(n == n1);
            }
            assert(b[i] == j1.subrange(from, from + b[i].len())) by {
                let j = joined(b, i + 1);
                assert(j == joined(b, i) + b[i]);
                assert(j == j1.take(pieces_len(b, i + 1)));
                assert forall|x: int| 0 <= x < b[i].len() implies b[i][x] == j1[from + x] by {
                    assert(j[from + x] == b[i][x]);
                    assert(j1.take(pieces_len(b, i + 1))[from + x] == j1[from + x]);
                }
                assert(b[i] =~= j1.subrange(from, from + b[i].len()));
            }
            assert(splice(j2, from + b[i].len(), got2) =~= splice(j1, from, got));
        }
    }
}

/// inode in memory
/// A wrapper around a filesystem inode
/// to implement File trait atop
pub struct OSInode {
    pub readable: bool,
    pub writable: bool,
    /// Where the next read or write starts.
    pub offset: usize,
    pub inode: Inode,
}

impl File for OSInode {
    open spec fn can_read(&self) -> bool {
        self.readable
    }

    open spec fn can_write(&self) -> bool {
        self.writable
    }

    fn readable(&self) -> (r: bool) {
        self.readable
    }

    fn writable(&self) -> (r: bool) {
        self.writable
    }
}

impl OSInode {
    /// create a new inode in memory
    pub fn new(readable: bool, writable: bool, inode: Inode) -> (r: Self)
        ensures
            r == (OSInode { readable, writable, offset: 0, inode }),
    {
        OSInode { readable, writable, offset: 0, inode }
    }

    /// read all data from the inode
    pub fn read_all<D: BlockDevice>(&mut self, fs: &mut EasyFileSystem<D>) -> (r: Vec<u8>)
        requires
            old(fs).wf(),
            old(self).inode.on(old(fs)),
            old(self).offset + 512 <= usize::MAX,
            file(old(fs)@, old(self).inode.id()).len() + 512 <= usize::MAX,
        ensures
            final(fs).wf(),
            final(fs)@ == old(fs)@,
            final(fs).same_layout(old(fs)),
            ({
                let f = file(old(fs)@, old(self).inode.id());
                &&& *final(self) == (OSInode {
                    offset: larger(old(self).offset as int, f.len() as int) as usize,
                    ..*old(self)
                })
                &&& r@ == if old(self).offset <= f.len() {
                    f.skip(old(self).offset as int)
                } else {
                    Seq::empty()
                }
            }),
    {
        let ghost d = fs@;
        let ghost fs0 = *fs;
        let ghost f = file(d, self.inode.id());
        let ghost off = self.offset as int;
        let mut buffer: Vec<u8> = Vec::new();
        let mut n: usize = 0;
        while n < 512
            invariant
                n <= 512,
                buffer@.len() == n,
            decreases 512 - n,
        {
            buffer.push(0);
            n += 1;
        }
        let mut v: Vec<u8> = Vec::new();
        proof {
            assert(v@ =~= if off <= f.len() {
                f.subrange(off, off)
            } else {
                Seq::<u8>::empty()
            });
        }
        loop
            invariant
                fs.wf(),
                fs@ == d,
                fs.same_layout(&fs0),
                *self == (OSInode { offset: self.offset, ..*old(self) }),
                self.inode.on(fs),
                f == file(d, self.inode.id()),
                off == old(self).offset,
                off <= self.offset,
                off <= f.len() ==> self.offset <= f.len(),
                off > f.len() ==> self.offset == off,
                off + 512 <= usize::MAX,
                f.len() + 512 <= usize::MAX,
                buffer@.len() == 512,
                v@ == if off <= f.len() {
                    f.subrange(off, self.offset as int)
                } else {
                    Seq::<u8>::empty()
                },
            ensures
                off <= f.len() ==> self.offset == f.len(),
            decreases larger(off, f.len() as int) - self.offset,
        {
            let len: usize = self.inode.read_at(self.offset, buffer.as_mut_slice(), fs);
            if len == 0 {
                break;
            }
            let ghost v0 = v@;
            let ghost o = self.offset as int;
            let mut i: usize = 0;
            while i < len
                invariant
                    i <= len <= 512,
                    buffer@.len() == 512,
                    v@ == v0 + buffer@.take(i as int),
                decreases len - i,
            {
                v.push(buffer[i]);
                proof {
                    assert(v0 + buffer@.take(i + 1) =~= (v0 + buffer@.take(i as int)).push(
                        buffer@[i as int],
                    ));
                }
                i += 1;
            }
            self.offset += len;
            proof {
                assert(buffer@.take(len as int) =~= f.subrange(o, o + len));
                assert(v@ =~= f.subrange(off, o + len));
            }
        }
        proof {
            if off <= f.len() {
                assert(v@ =~= f.skip(off));
            }
        }
        v
    }

    /// Read from the file into the pieces of a buffer, from the offset on, and move the
    /// offset. Return the number of bytes read.
    pub fn read<D: BlockDevice>(&mut self, buf: &mut UserBuffer, fs: &mut EasyFileSystem<D>) -> (r:
        usize)
        requires
            old(fs).wf(),
            old(self).inode.on(old(fs)),
            old(self).offset + pieces_len(old(buf)@, old(buf)@.len() as int) + file(
                old(fs)@,
                old(self).inode.id(),
            ).len() <= usize::MAX,
        ensures
            final(fs).wf(),
            final(fs)@ == old(fs)@,
            final(fs).same_layout(old(fs)),
            ({
                let f = file(old(fs)@, old(self).inode.id());
                let off = old(self).offset as int;
                &&& r == read_total(f.len() as int, off, old(buf)@, 0)
                &&& final(buf)@ == read_pieces(f, off, old(buf)@, 0)
                &&& *final(self) == (OSInode { offset: (off + r) as usize, ..*old(self) })
            }),
    {
        let ghost d = fs@;
        let ghost fs0 = *fs;
        let ghost f = file(d, self.inode.id());
        let ghost off = self.offset as int;
        let ghost b0 = buf@;
        let mut total_read_size: usize = 0;
        let mut i: usize = 0;
        proof {
            lemma_read_total_bound(f.len() as int, off, b0, 0);
        }
        while i < buf.buffers.len()
            invariant_except_break
                read_total(f.len() as int, off, b0, 0) == total_read_size + read_total(
                    f.len() as int,
                    off + total_read_size,
                    buf@,
                    i as int,
                ),
                read_pieces(f, off, b0, 0) == read_pieces(f, off + total_read_size, buf@, i as int),
            invariant
                i <= buf.buffers@.len(),
                fs.wf(),
                fs@ == d,
                fs.same_layout(&fs0),
                *self == (OSInode { offset: (off + total_read_size) as usize, ..*old(self) }),
                off == old(self).offset,
                self.offset == off + total_read_size,
                self.inode.on(fs),
                f == file(d, self.inode.id()),
                0 <= off,
                buf@.len() == b0.len(),
                off + pieces_len(b0, b0.len() as int) + f.len() <= usize::MAX,
                off + total_read_size <= larger(off, f.len() as int),
                forall|k: int| 0 <= k < b0.len() ==> (#[trigger] buf@[k]).len() == b0[k].len(),
            ensures
                total_read_size == read_total(f.len() as int, off, b0, 0),
                buf@ == read_pieces(f, off, b0, 0),
            decreases buf.buffers@.len() - i,
        {
            let ghost b1 = buf@;
            let ghost o = self.offset as int;
            proof {
                assert(b1[i as int] == buf.buffers@[i as int]@);
                lemma_pieces_monotonic(b0, i as int + 1, b0.len() as int);
                lemma_joined_len(b0, i as int);
                assert(b1[i as int].len() == b0[i as int].len());
            }
            let read_size: usize = self.inode.read_at(
                self.offset,
                buf.buffers[i].as_mut_slice(),
                fs,
            );
            proof {
                let n = transfer_len(o, b1[i as int].len() as int, f.len() as int);
                assert(buf.buffers@[i as int]@ =~= filled_piece(f, o, b1[i as int]));
                assert(buf@ =~= b1.update(i as int, filled_piece(f, o, b1[i as int])));
                if read_size == 0 {
                    assert(filled_piece(f, o, b1[i as int]) =~= b1[i as int]);
                    assert(buf@ =~= b1);
                } else {
                    lemma_read_total(f.len() as int, o + n, b1, buf@, i + 1);
                }
            }
            if read_size == 0 {
                break;
            }
            self.offset += read_size;
            total_read_size += read_size;
            i += 1;
        }
        total_read_size
    }

    /// Write the pieces of a buffer to the file, from the offset on, and move the offset.
    /// Return the number of bytes written.
    pub fn write<D: BlockDevice>(&mut self, buf: &UserBuffer, fs: &mut EasyFileSystem<D>) -> (r:
        usize)
        requires
            old(fs).wf(),
            tree_ok(old(fs)@),
            old(self).inode.on(old(fs)),
            old(self).inode.id() != 0,
            ({
                let end = old(self).offset + pieces_len(buf@, buf@.len() as int);
                let f = file(old(fs)@, old(self).inode.id());
                &&& end <= u32::MAX
                &&& buf@.len() > 0 && end >= f.len() ==> room(
                    old(fs)@,
                    old(self).inode.id(),
                    end,
                )
            }),
        ensures
            final(fs).wf(),
            tree_ok(final(fs)@),
            final(fs).same_layout(old(fs)),
            others_same(old(fs)@, final(fs)@, old(self).inode.id()),
            live(final(fs)@, old(self).inode.id()),
            ({
                let f = file(old(fs)@, old(self).inode.id());
                let data = joined(buf@, buf@.len() as int);
                &&& r == data.len()
                &&& *final(self) == (OSInode {
                    offset: (old(self).offset + data.len()) as usize,
                    ..*old(self)
                })
                &&& file(final(fs)@, old(self).inode.id()) == if buf@.len() == 0 {
                    f
                } else {
                    written(f, old(self).offset as int, data)
                }
            }),
    {
        let ghost d = fs@;
        let ghost fs0 = *fs;
        let ghost id = self.inode.id();
        let ghost f = file(d, id);
        let ghost off = self.offset as int;
        let ghost b = buf@;
        let ghost n = b.len() as int;
        let ghost end = off + pieces_len(b, n);
        let mut total_write_size: usize = 0;
        let mut i: usize = 0;
        proof {
            lemma_joined_len(b, n);
            lemma_disk_ok(d, id);
            assert(inode(d, id).size == f.len()) by {
                reveal(file);
            }
        }
        while i < buf.buffers.len()
            invariant
                i <= buf.buffers@.len(),
                b == pieces(buf.buffers@),
                n == b.len(),
                fs.wf(),
                tree_ok(fs@),
                fs.same_layout(&fs0),
                d == old(fs)@,
                id == old(self).inode.id(),
                id == self.inode.id(),
                id != 0,
                self.inode.on(fs),
                others_same(d, fs@, id),
                live(fs@, id),
                *self == (OSInode { offset: (off + total_write_size) as usize, ..*old(self) }),
                self.offset == off + total_write_size,
                off == old(self).offset,
                0 <= off,
                total_write_size == pieces_len(b, i as int),
                end == off + pieces_len(b, n),
                end <= u32::MAX,
                inode(fs@, id).size == file(fs@, id).len(),
                i == 0 ==> fs@ == d,
                i > 0 ==> file(fs@, id) == written(f, off, joined(b, i as int)),
                f == file(d, id),
                end >= f.len() && n > 0 ==> room(d, id, end),
                inode(d, id).size == f.len(),
                free_data(fs@) == free_data(d) - growth(inode(d, id), file(fs@, id).len() as int),
            decreases buf.buffers@.len() - i,
        {
            let ghost d1 = fs@;
            let ghost f1 = file(d1, id);
            let ghost o = self.offset as int;
            let ghost piece = b[i as int];
            let ghost mid = larger(f1.len() as int, o + piece.len());
            proof {
                assert(piece == buf.buffers@[i as int]@);
                lemma_pieces_monotonic(b, i as int + 1, n);
                lemma_joined_len(b, i as int);
                lemma_joined_len(b, i + 1);
                assert(o + piece.len() <= end);
                if o + piece.len() >= f1.len() {
                    if i > 0 {
                        assert(f1.len() >= f.len());
                    }
                    lemma_total_monotonic(
                        data_blocks_of(o + piece.len()),
                        data_blocks_of(end),
                    );
                    assert(room(d1, id, o + piece.len()));
                }
                assert(file_ok(d1, id));
            }
            let write_size: usize = self.inode.write_at(
                self.offset,
                buf.buffers[i].as_slice(),
                fs,
            );
            proof {
                law_read_after_write(d1, fs@, id, o, piece);
                assert(file(fs@, id) =~= written(f1, o, piece));
                lemma_others_same_trans(d, d1, fs@, id, id);
                if i > 0 {
                    law_written_pieces(f, off, joined(b, i as int), piece);
                } else {
                    assert(joined(b, 1) =~= piece) by {
                        assert(joined(b, 0) =~= Seq::<u8>::empty());
                    }
                }
                assert(inode(fs@, id).size == file(fs@, id).len()) by {
                    reveal(file);
                }
            }
            self.offset += write_size;
            total_write_size += write_size;
            i += 1;
        }
        total_write_size
    }
}

/// What opening a file by name does to the disk, and which inode it opens.
pub open spec fn opened(
    d: Seq<Seq<u8>>,
    d2: Seq<Seq<u8>>,
    name: Seq<u8>,
    flags: OpenFlags,
    r: Option<int>,
) -> bool {
    let es = entries(d, 0);
    let k = find_from(es, name, 0);
    if k < es.len() {
        let id = es[k].inode_id as int;
        &&& r == Some(id)
        &&& if has_flags(flags, CREATE) || has_flags(flags, TRUNC) {
            &&& others_same(d, d2, id)
            &&& live(d2, id)
            &&& inode(d2, id) == cleared(inode(d, id))
            &&& file(d2, id) == Seq::<u8>::empty()
            &&& free_data(d2) == free_data(d) + owned(d, id).len()
        } else {
            d2 == d
        }
    } else if has_flags(flags, CREATE) {
        &&& r matches Some(id)
        &&& inode_exists(d, id) && !live(d, id)
        &&& forall|j: int| 0 <= j < id ==> #[trigger] live(d, j)
        &&& inode(d2, id) == empty_inode(DiskInodeType::File)
        &&& file(d2, id) == Seq::<u8>::empty()
        &&& entries(d2, 0) == es.push(
            EntryModel { name: padded_name(name), inode_id: id as u32 },
        )
        &&& forall|j: int| j != id ==> (#[trigger] live(d2, j) <==> live(d, j))
        &&& forall|j: int| j != 0 && live(d, j) ==> #[trigger] same_file(d, d2, j)
        &&& free_data(d2) == free_data(d) - growth(inode(d, 0), file(d, 0).len() + DIRENT_SZ)
    } else {
        r is None && d2 == d
    }
}

/// Open a file
pub fn open_file<D: BlockDevice>(
    name: &str,
    flags: OpenFlags,
    fs: &mut EasyFileSystem<D>,
) -> (r: Option<OSInode>)
    requires
        old(fs).wf(),
        tree_ok(old(fs)@),
        has_flags(flags, CREATE) && !has_name(entries(old(fs)@, 0), encode_utf8(name@)) ==> {
            &&& encode_utf8(name@).len() <= NAME_LENGTH_LIMIT
            &&& room(old(fs)@, 0, file(old(fs)@, 0).len() + DIRENT_SZ)
            &&& exists|k: int| #[trigger] inode_exists(old(fs)@, k) && !live(old(fs)@, k)
        },
    ensures
        final(fs).wf(),
        final(fs).same_layout(old(fs)),
        tree_ok(final(fs)@),
        opened(
            old(fs)@,
            final(fs)@,
            encode_utf8(name@),
            flags,
            match r {
                Some(f) => Some(f.inode.id()),
                None => None,
            },
        ),
        r matches Some(f) ==> f.inode.on(final(fs)) && f.offset == 0 && (f.readable, f.writable)
            == access_of(flags),
{
    let (readable, writable) = flags.read_write();
    let root: Inode = fs.root_inode();
    let ghost d = fs@;
    let ghost es = entries(d, 0);
    let ghost k = find_from(es, encode_utf8(name@), 0);
    proof {
        lemma_find_from(es, encode_utf8(name@), 0);
    }
    if flags.contains(CREATE) {
        if let Some(inode) = root.find(name, fs) {
            // clear size
            inode.clear(fs);
            Some(OSInode::new(readable, writable, inode))
        } else {
            // create file
            match root.create(name, fs) {
                Some(inode) => Some(OSInode::new(readable, writable, inode)),
                None => None,
            }
        }
    } else {
        match root.find(name, fs) {
            Some(inode) => {
                if flags.contains(TRUNC) {
                    inode.clear(fs);
                }
                Some(OSInode::new(readable, writable, inode))
            },
            None => None,
        }
    }
}

/// A file that was opened with the truncating or the creating flag is empty, and one that
/// was opened without either reads as it did.
pub proof fn law_open_truncates(
    d: Seq<Seq<u8>>,
    d2: Seq<Seq<u8>>,
    name: Seq<u8>,
    flags: OpenFlags,
    id: int,
)
    requires
        opened(d, d2, name, flags, Some(id)),
    ensures
        has_flags(flags, CREATE) || has_flags(flags, TRUNC) ==> file(d2, id) == Seq::<u8>::empty(),
        !has_flags(flags, CREATE) && !has_flags(flags, TRUNC) ==> file(d2, id) == file(d, id),
{
}

} // verus!
