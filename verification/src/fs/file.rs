//! What all files have in common.
use vstd::prelude::*;

verus! {

/// What a file can be used for.
pub trait File {
    /// The file can be read.
    spec fn can_read(&self) -> bool;

    /// The file can be written.
    spec fn can_write(&self) -> bool;

    /// the file readable?
    fn readable(&self) -> (r: bool)
        ensures
            r == self.can_read(),
    ;

    /// the file writable?
    fn writable(&self) -> (r: bool)
        ensures
            r == self.can_write(),
    ;
}

/// null
pub const STAT_NULL: u32 = 0;

/// directory
pub const STAT_DIR: u32 = 0o040000;

/// ordinary regular file
pub const STAT_FILE: u32 = 0o100000;

/// The mode of a inode
/// whether a directory or a file
#[derive(Copy, Clone, PartialEq, Eq, Debug, Structural)]
pub struct StatMode {
    pub bits: u32,
}

/// The stat of a inode
#[derive(Debug)]
pub struct Stat {
    /// ID of device containing file
    pub dev: u64,
    /// inode number
    pub ino: u64,
    /// file type and mode
    pub mode: StatMode,
    /// number of hard links
    pub nlink: u32,
    /// unused pad
    pub pad: [u64; 7],
}

impl Stat {
    /// The stat of an inode on the one device there is.
    pub fn new(ino: u64, mode: StatMode, nlink: u32) -> (r: Self)
        ensures
            r.dev == 0,
            r.ino == ino,
            r.mode == mode,
            r.nlink == nlink,
            r.pad@ == Seq::new(7, |i: int| 0u64),
    {
        let pad: [u64; 7] = [0u64; 7];
        assert(pad@ =~= Seq::new(7, |i: int| 0u64));
        Stat { dev: 0, ino, mode, nlink, pad }
    }
}

/// A buffer of a process: the pieces of it that lie in different pages.
pub struct UserBuffer {
    pub buffers: Vec<Vec<u8>>,
}

/// The bytes of each piece.
pub open spec fn pieces(b: Seq<Vec<u8>>) -> Seq<Seq<u8>> {
    Seq::new(b.len(), |i: int| b[i]@)
}

/// The number of bytes of the first `n` pieces.
pub open spec fn pieces_len(b: Seq<Seq<u8>>, n: int) -> int
    decreases n,
{
    if n <= 0 {
        0
    } else {
        pieces_len(b, n - 1) + b[n - 1].len()
    }
}

/// The bytes of the first `n` pieces, one behind the other.
pub open spec fn joined(b: Seq<Seq<u8>>, n: int) -> Seq<u8>
    decreases n,
{
    if n <= 0 {
        Seq::empty()
    } else {
        joined(b, n - 1) + b[n - 1]
    }
}

/// Joining the pieces keeps every byte.
pub proof fn lemma_joined_len(b: Seq<Seq<u8>>, n: int)
    ensures
        joined(b, n).len() == pieces_len(b, n),
        pieces_len(b, n) >= 0,
    decreases n,
{
    if n > 0 {
        lemma_joined_len(b, n - 1);
    }
}

/// The first pieces have no more bytes than all of them.
pub proof fn lemma_pieces_monotonic(b: Seq<Seq<u8>>, i: int, n: int)
    requires
        0 <= i <= n,
    ensures
        pieces_len(b, i) <= pieces_len(b, n),
        joined(b, i) == joined(b, n).take(pieces_len(b, i)),
    decreases n - i,
{
    lemma_joined_len(b, i);
    lemma_joined_len(b, n);
    if i < n {
        lemma_pieces_monotonic(b, i, n - 1);
        lemma_joined_len(b, n - 1);
        assert(joined(b, n).take(pieces_len(b, i)) =~= joined(b, n - 1).take(pieces_len(b, i)));
    } else {
        assert(joined(b, n).take(pieces_len(b, i)) =~= joined(b, n));
    }
}

impl View for UserBuffer {
    type V = Seq<Seq<u8>>;

    open spec fn view(&self) -> Seq<Seq<u8>> {
        pieces(self.buffers@)
    }
}

impl UserBuffer {
    /// A buffer of the given pieces.
    pub fn new(buffers: Vec<Vec<u8>>) -> (r: Self)
        ensures
            r@ == pieces(buffers@),
    {
        UserBuffer { buffers }
    }

    /// The bytes of the buffer, one piece behind the other.
    pub fn bytes(&self) -> (r: Vec<u8>)
        ensures
            r@ == joined(self@, self@.len() as int),
    {
        let mut data: Vec<u8> = Vec::new();
        let mut i: usize = 0;
        while i < self.buffers.len()
            invariant
                i <= self.buffers@.len(),
                self@ == pieces(self.buffers@),
                data@ == joined(self@, i as int),
            decreases self.buffers@.len() - i,
        {
            let ghost d0 = data@;
            let piece: &Vec<u8> = &self.buffers[i];
            let mut j: usize = 0;
            assert(d0 + piece@.take(0) =~= d0);
            while j < piece.len()
                invariant
                    j <= piece@.len(),
                    data@ == d0 + piece@.take(j as int),
                decreases piece@.len() - j,
            {
                data.push(piece[j]);
                assert(d0 + piece@.take(j + 1) =~= (d0 + piece@.take(j as int)).push(
                    piece@[j as int],
                ));
                j += 1;
            }
            assert(piece@.take(j as int) =~= self@[i as int]);
            i += 1;
        }
        data
    }

    /// The number of bytes of the buffer.
    pub fn len(&self) -> (r: usize)
        requires
            pieces_len(self@, self@.len() as int) <= usize::MAX,
        ensures
            r == pieces_len(self@, self@.len() as int),
    {
        let mut total: usize = 0;
        let mut i: usize = 0;
        while i < self.buffers.len()
            invariant
                i <= self.buffers@.len(),
                self@ == pieces(self.buffers@),
                pieces_len(self@, self@.len() as int) <= usize::MAX,
                total == pieces_len(self@, i as int),
            decreases self.buffers@.len() - i,
        {
            proof {
                lemma_pieces_monotonic(self@, i + 1, self@.len() as int);
            }
            total += self.buffers[i].len();
            i += 1;
        }
        total
    }
}

} // verus!
