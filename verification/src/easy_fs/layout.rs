//! The structures that lie on the disk.
use super::block_dev::{full_blocks, BlockDevice, BLOCK_SZ};
use super::bytes::{
    get_u32, le32, le32_bytes, lemma_le32_of_bytes, lemma_le32_subrange, push_u32, splice, word,
    Record,
};
use super::model::{
    data_blocks_of, entry, filled, is_index_pos, lemma_block_of, lemma_fill_entry, lemma_pos,
    lemma_pos_injective, lemma_total_monotonic, pos_of, same_but_index, set_entry, total_blocks_of,
    InodeModel, INDIRECT1_BOUND, INDIRECT2_BOUND, INODE_DIRECT_COUNT, INODE_INDIRECT1_COUNT,
};
use super::store::BlockStore;
use vstd::prelude::*;
use vstd::utf8::{
    decode_utf8, encode_utf8, is_char_boundary_iff_not_is_continuation_byte, valid_utf8,
    valid_utf8_split,
};

verus! {

/// Magic number for sanity check.
pub const EFS_MAGIC: u32 = 0x3b800001;

/// The max length of inode name.
pub const NAME_LENGTH_LIMIT: usize = 27;

/// Size of a directory entry.
pub const DIRENT_SZ: usize = 32;

/// Size of a disk inode.
pub const DISK_INODE_SZ: usize = 132;

/// The bytes of a sequence of words.
pub open spec fn words_bytes(w: Seq<u32>) -> Seq<u8> {
    Seq::new(4 * w.len(), |i: int| le32_bytes(w[i / 4])[i % 4])
}

/// Each word is read back from its place.
pub proof fn lemma_words(w: Seq<u32>)
    ensures
        words_bytes(w).len() == 4 * w.len(),
        forall|i: int| 0 <= i < w.len() ==> #[trigger] word(words_bytes(w), i) == w[i],
{
    let b = words_bytes(w);
    assert forall|i: int| 0 <= i < w.len() implies #[trigger] word(b, i) == w[i] by {
        lemma_le32_of_bytes(w[i]);
        let s = le32_bytes(w[i]);
        assert(b[4 * i] == s[0] && b[4 * i + 1] == s[1] && b[4 * i + 2] == s[2] && b[4 * i + 3]
            == s[3]);
    }
}

/// One word more is four bytes more.
pub proof fn lemma_words_push(w: Seq<u32>, x: u32)
    ensures
        words_bytes(w.push(x)) == words_bytes(w) + le32_bytes(x),
{
    let l = words_bytes(w.push(x));
    let r = words_bytes(w) + le32_bytes(x);
    assert(l.len() == r.len());
    assert forall|i: int| 0 <= i < l.len() implies l[i] == r[i] by {
        if i < 4 * w.len() {
            assert(w.push(x)[i / 4] == w[i / 4]);
        } else {
            assert(i / 4 == w.len());
        }
    }
    assert(l =~= r);
}

/// Super block of a filesystem.
#[derive(Clone, Copy)]
pub struct SuperBlock {
    pub magic: u32,
    pub total_blocks: u32,
    pub inode_bitmap_blocks: u32,
    pub inode_area_blocks: u32,
    pub data_bitmap_blocks: u32,
    pub data_area_blocks: u32,
}

impl View for SuperBlock {
    type V = SuperBlock;

    open spec fn view(&self) -> SuperBlock {
        *self
    }
}

impl SuperBlock {
    /// Initialize a super block.
    pub fn initialize(
        &mut self,
        total_blocks: u32,
        inode_bitmap_blocks: u32,
        inode_area_blocks: u32,
        data_bitmap_blocks: u32,
        data_area_blocks: u32,
    )
        ensures
            *final(self) == (SuperBlock {
                magic: EFS_MAGIC,
                total_blocks,
                inode_bitmap_blocks,
                inode_area_blocks,
                data_bitmap_blocks,
                data_area_blocks,
            }),
    {
        *self = SuperBlock {
            magic: EFS_MAGIC,
            total_blocks,
            inode_bitmap_blocks,
            inode_area_blocks,
            data_bitmap_blocks,
            data_area_blocks,
        };
    }

    /// Check if a super block is valid using efs magic.
    pub fn is_valid(&self) -> (r: bool)
        ensures
            r == (self.magic == EFS_MAGIC),
    {
        self.magic == EFS_MAGIC
    }
}

impl Record for SuperBlock {
    open spec fn record_size() -> nat {
        24
    }

    open spec fn decode(bytes: Seq<u8>) -> SuperBlock {
        SuperBlock {
            magic: le32(bytes, 0),
            total_blocks: le32(bytes, 4),
            inode_bitmap_blocks: le32(bytes, 8),
            inode_area_blocks: le32(bytes, 12),
            data_bitmap_blocks: le32(bytes, 16),
            data_area_blocks: le32(bytes, 20),
        }
    }

    open spec fn encode(v: SuperBlock) -> Seq<u8> {
        words_bytes(
            seq![
                v.magic,
                v.total_blocks,
                v.inode_bitmap_blocks,
                v.inode_area_blocks,
                v.data_bitmap_blocks,
                v.data_area_blocks,
            ],
        )
    }

    fn size() -> (r: usize) {
        24
    }

    fn from_bytes(bytes: &[u8]) -> (r: SuperBlock) {
        SuperBlock {
            magic: get_u32(bytes, 0),
            total_blocks: get_u32(bytes, 4),
            inode_bitmap_blocks: get_u32(bytes, 8),
            inode_area_blocks: get_u32(bytes, 12),
            data_bitmap_blocks: get_u32(bytes, 16),
            data_area_blocks: get_u32(bytes, 20),
        }
    }

    fn to_bytes(&self) -> (r: Vec<u8>) {
        let words: [u32; 6] = [
            self.magic,
            self.total_blocks,
            self.inode_bitmap_blocks,
            self.inode_area_blocks,
            self.data_bitmap_blocks,
            self.data_area_blocks,
        ];
        let v: Vec<u8> = bytes_of_words(&words);
        proof {
            let w = seq![
                self.magic,
                self.total_blocks,
                self.inode_bitmap_blocks,
                self.inode_area_blocks,
                self.data_bitmap_blocks,
                self.data_area_blocks,
            ];
            assert(words@ =~= w);
            lemma_words(w);
            assert(word(v@, 0) == w[0]);
            assert(word(v@, 1) == w[1]);
            assert(word(v@, 2) == w[2]);
            assert(word(v@, 3) == w[3]);
            assert(word(v@, 4) == w[4]);
            assert(word(v@, 5) == w[5]);
        }
        v
    }
}

/// The bytes of a sequence of words.
fn bytes_of_words(words: &[u32]) -> (r: Vec<u8>)
    ensures
        r@ == words_bytes(words@),
{
    let mut v: Vec<u8> = Vec::new();
    let mut i: usize = 0;
    assert(v@ =~= words_bytes(words@.take(0)));
    while i < words.len()
        invariant
            i <= words@.len(),
            v@ == words_bytes(words@.take(i as int)),
        decreases words@.len() - i,
    {
        push_u32(&mut v, words[i]);
        proof {
            lemma_words_push(words@.take(i as int), words@[i as int]);
            assert(words@.take(i as int).push(words@[i as int]) =~= words@.take(i + 1));
        }
        i = i + 1;
    }
    assert(words@.take(i as int) =~= words@);
    v
}

/// Type of a disk inode.
#[derive(Clone, Copy, PartialEq, Eq, Structural)]
pub enum DiskInodeType {
    File,
    Directory,
}

/// A disk inode.
#[derive(Clone, Copy)]
pub struct DiskInode {
    pub size: u32,
    pub direct: [u32; INODE_DIRECT_COUNT],
    pub indirect1: u32,
    pub indirect2: u32,
    pub type_: DiskInodeType,
    pub nlink: u32,
}

impl View for DiskInode {
    type V = InodeModel;

    open spec fn view(&self) -> InodeModel {
        InodeModel {
            size: self.size,
            direct: self.direct@,
            indirect1: self.indirect1,
            indirect2: self.indirect2,
            kind: self.type_,
            nlink: self.nlink,
        }
    }
}

/// The words of a disk inode. The type takes one byte, and three zero bytes follow.
pub open spec fn inode_words(m: InodeModel) -> Seq<u32> {
    seq![m.size] + m.direct + seq![
        m.indirect1,
        m.indirect2,
        match m.kind {
            DiskInodeType::File => 0u32,
            DiskInodeType::Directory => 1u32,
        },
        m.nlink,
    ]
}

impl Record for DiskInode {
    open spec fn record_size() -> nat {
        132
    }

    open spec fn decode(bytes: Seq<u8>) -> InodeModel {
        InodeModel {
            size: le32(bytes, 0),
            direct: Seq::new(INODE_DIRECT_COUNT as nat, |i: int| le32(bytes, 4 + 4 * i)),
            indirect1: le32(bytes, 116),
            indirect2: le32(bytes, 120),
            kind: if bytes[124] == 0 {
                DiskInodeType::File
            } else {
                DiskInodeType::Directory
            },
            nlink: le32(bytes, 128),
        }
    }

    open spec fn encode(v: InodeModel) -> Seq<u8> {
        words_bytes(inode_words(v))
    }

    fn size() -> (r: usize) {
        DISK_INODE_SZ
    }

    fn from_bytes(bytes: &[u8]) -> (r: DiskInode) {
        let mut direct: [u32; INODE_DIRECT_COUNT] = [0u32; INODE_DIRECT_COUNT];
        let mut i: usize = 0;
        while i < INODE_DIRECT_COUNT
            invariant
                i <= INODE_DIRECT_COUNT,
                bytes@.len() == 132,
                forall|j: int| 0 <= j < i ==> direct@[j] == le32(bytes@, 4 + 4 * j),
            decreases INODE_DIRECT_COUNT - i,
        {
            direct[i] = get_u32(bytes, 4 + 4 * i);
            i = i + 1;
        }
        let r: DiskInode = DiskInode {
            size: get_u32(bytes, 0),
            direct,
            indirect1: get_u32(bytes, 116),
            indirect2: get_u32(bytes, 120),
            type_: if bytes[124] == 0 {
                DiskInodeType::File
            } else {
                DiskInodeType::Directory
            },
            nlink: get_u32(bytes, 128),
        };
        assert(r@.direct =~= DiskInode::decode(bytes@).direct);
        r
    }

    fn to_bytes(&self) -> (r: Vec<u8>) {
        let mut words: [u32; 33] = [0u32; 33];
        words[0] = self.size;
        let mut i: usize = 0;
        while i < INODE_DIRECT_COUNT
            invariant
                i <= INODE_DIRECT_COUNT,
                words@[0] == self.size,
                forall|j: int| 0 <= j < i ==> words@[1 + j] == self.direct@[j],
            decreases INODE_DIRECT_COUNT - i,
        {
            words[1 + i] = self.direct[i];
            i = i + 1;
        }
        words[29] = self.indirect1;
        words[30] = self.indirect2;
        words[31] = match self.type_ {
            DiskInodeType::File => 0u32,
            DiskInodeType::Directory => 1u32,
        };
        words[32] = self.nlink;
        let v: Vec<u8> = bytes_of_words(&words);
        proof {
            let w = inode_words(self@);
            assert forall|k: int| 0 <= k < 33 implies words@[k] == w[k] by {
                if 1 <= k < 29 {
                    assert(words@[1 + (k - 1)] == self.direct@[k - 1]);
                }
            }
            assert(words@ =~= w);
            lemma_words(w);
            lemma_inode_decode(self@, v@);
        }
        v
    }
}

/// A disk inode is what its words decode to.
proof fn lemma_inode_decode(m: InodeModel, v: Seq<u8>)
    requires
        m.direct.len() == INODE_DIRECT_COUNT,
        v == words_bytes(inode_words(m)),
    ensures
        DiskInode::decode(v) == m,
{
    let w = inode_words(m);
    lemma_words(w);
    assert(word(v, 0) == w[0]);
    assert(word(v, 29) == w[29]);
    assert(word(v, 30) == w[30]);
    assert(word(v, 31) == w[31]);
    assert(word(v, 32) == w[32]);
    assert(v[124] == le32_bytes(w[31])[0]);
    assert forall|i: int| 0 <= i < 28 implies le32(v, 4 + 4 * i) == m.direct[i] by {
        assert(word(v, 1 + i) == w[1 + i]);
    }
    assert(DiskInode::decode(v).direct =~= m.direct);
}

/// How many bytes a read or a write at `offset` moves in a file of `size` bytes.
pub open spec fn transfer_len(offset: int, len: int, size: int) -> int {
    let end = if offset + len <= size {
        offset + len
    } else {
        size
    };
    if offset < end {
        end - offset
    } else {
        0
    }
}

/// The blocks after `data` was written at byte `off` of the file of inode `m`.
pub open spec fn wrote(
    m: InodeModel,
    d: Seq<Seq<u8>>,
    d2: Seq<Seq<u8>>,
    off: int,
    data: Seq<u8>,
) -> bool {
    &&& d2.len() == d.len()
    &&& full_blocks(d2)
    &&& forall|i: int, k: int|
        0 <= i < m.blocks() && 0 <= k < 512 ==> #[trigger] d2[m.block_of(d, i) as int][k] == if off
            <= 512 * i + k < off + data.len() {
            data[512 * i + k - off]
        } else {
            d[m.block_of(d, i) as int][k]
        }
    &&& forall|b: int|
        0 <= b < d.len() && (forall|i: int|
            0 <= i < m.blocks() ==> #[trigger] m.block_of(d, i) != b) ==> #[trigger] d2[b] == d[b]
}

impl DiskInode {
    /// Initialize a disk inode, as well as all direct inodes under it.
    /// indirect1 and indirect2 block are allocated only when they are needed.
    pub fn initialize(&mut self, type_: DiskInodeType)
        ensures
            final(self)@ == empty_inode(type_),
    {
        self.size = 0;
        let mut i: usize = 0;
        while i < INODE_DIRECT_COUNT
            invariant
                i <= INODE_DIRECT_COUNT,
                self.size == 0,
                forall|j: int| 0 <= j < i ==> self.direct@[j] == 0,
            decreases INODE_DIRECT_COUNT - i,
        {
            self.direct[i] = 0;
            i = i + 1;
        }
        self.indirect1 = 0;
        self.indirect2 = 0;
        self.type_ = type_;
        self.nlink = 1;
        assert(self@.direct =~= empty_inode(type_).direct);
    }

    /// Whether this inode is a directory.
    pub fn is_dir(&self) -> (r: bool)
        ensures
            r == (self@.kind == DiskInodeType::Directory),
    {
        self.type_ == DiskInodeType::Directory
    }

    /// Whether this inode is a file.
    pub fn is_file(&self) -> (r: bool)
        ensures
            r == (self@.kind == DiskInodeType::File),
    {
        self.type_ == DiskInodeType::File
    }

    /// Return block number correspond to size.
    pub fn data_blocks(&self) -> (r: u32)
        requires
            self.size + BLOCK_SZ <= u32::MAX,
        ensures
            r == self@.blocks(),
    {
        Self::_data_blocks(self.size)
    }

    fn _data_blocks(size: u32) -> (r: u32)
        requires
            size + BLOCK_SZ <= u32::MAX,
        ensures
            r == data_blocks_of(size as int),
    {
        (size + BLOCK_SZ as u32 - 1) / BLOCK_SZ as u32
    }

    /// Return number of blocks needed include indirect1/2.
    pub fn total_blocks(size: u32) -> (r: u32)
        requires
            size + BLOCK_SZ <= u32::MAX,
        ensures
            r == total_blocks_of(data_blocks_of(size as int)),
    {
        let data_blocks: usize = Self::_data_blocks(size) as usize;
        let mut total: usize = data_blocks;
        // indirect1
        if data_blocks > INODE_DIRECT_COUNT {
            total += 1;
        }
        // indirect2

        if data_blocks > INDIRECT1_BOUND {
            total += 1;
            // sub indirect1
            total += (data_blocks - INDIRECT1_BOUND + INODE_INDIRECT1_COUNT - 1)
                / INODE_INDIRECT1_COUNT;
        }
        total as u32
    }

    /// Get the number of data blocks that have to be allocated given the new size of data.
    pub fn blocks_num_needed(&self, new_size: u32) -> (r: u32)
        requires
            new_size >= self.size,
            new_size + BLOCK_SZ <= u32::MAX,
        ensures
            r == total_blocks_of(data_blocks_of(new_size as int)) - total_blocks_of(self@.blocks()),
    {
        proof {
            lemma_total_monotonic(self@.blocks(), data_blocks_of(new_size as int));
        }
        Self::total_blocks(new_size) - Self::total_blocks(self.size)
    }

    /// Modify the number of links.
    pub fn set_nlink(&mut self, nlink: u32)
        ensures
            final(self)@ == (InodeModel { nlink, ..old(self)@ }),
    {
        self.nlink = nlink;
    }

    /// Get the number of links.
    pub fn nlink(&self) -> (r: u32)
        ensures
            r == self@.nlink,
    {
        self.nlink
    }

    /// Decrease the size.
    pub fn decrease_size(&mut self, new_size: u32)
        requires
            new_size <= old(self).size,
        ensures
            final(self)@ == (InodeModel { size: new_size, ..old(self)@ }),
    {
        self.size = new_size;
    }
}

/// A new inode: nothing in it, and one link to it.
pub open spec fn empty_inode(kind: DiskInodeType) -> InodeModel {
    InodeModel {
        size: 0,
        direct: Seq::new(INODE_DIRECT_COUNT as nat, |i: int| 0u32),
        indirect1: 0,
        indirect2: 0,
        kind,
        nlink: 1,
    }
}

/// The blocks that lead to a block of data exist, and so does it.
pub proof fn lemma_data_block(m: InodeModel, d: Seq<Seq<u8>>, i: int)
    requires
        m.wf(d),
        0 <= i < m.blocks(),
    ensures
        (m.block_of(d, i) as int) < d.len(),
        m.block_of(d, i) == m.owned(d)[pos_of(i)],
        0 <= pos_of(i) < m.owned(d).len(),
        !is_index_pos(pos_of(i)),
        i >= 28 ==> (m.indirect1 as int) < d.len(),
        i >= 156 ==> (m.indirect2 as int) < d.len(),
        i >= 156 ==> (entry(d, m.indirect2, (i - 156) / 128) as int) < d.len(),
{
    lemma_pos(i, m.blocks());
    lemma_block_of(m, d, i);
    assert(m.owned(d)[pos_of(i)] == m.block_of(d, i));
    if i >= 28 {
        assert(m.owned(d)[28] == m.indirect1);
    }
    if i >= 156 {
        assert(m.owned(d)[157] == m.indirect2);
        let a = (i - 156) / 128;
        let ps = 158 + 129 * a;
        assert(ps < pos_of(i));
        assert((ps - 158) % 129 == 0);
        assert((ps - 158) / 129 == a);
        assert(m.owned(d)[ps] == entry(d, m.indirect2, a));
    }
}

/// If the index blocks of a file stay as they are, so does the list of its blocks.
pub proof fn lemma_same_index(m: InodeModel, d: Seq<Seq<u8>>, d2: Seq<Seq<u8>>)
    requires
        m.wf(d),
        d2.len() == d.len(),
        full_blocks(d2),
        forall|q: int|
            0 <= q < m.owned(d).len() && is_index_pos(q) ==> d2[#[trigger] m.owned(d)[q] as int]
                == d[m.owned(d)[q] as int],
    ensures
        m.owned(d2) == m.owned(d),
        m.wf(d2),
        forall|i: int| 0 <= i < m.blocks() ==> #[trigger] m.block_of(d2, i) == m.block_of(d, i),
{
    let s = m.owned(d);
    assert forall|p: int| 0 <= p < s.len() implies #[trigger] m.owned_at(d2, p) == s[p] by {
        assert(s[p] == m.owned_at(d, p));
        if 29 <= p < 157 {
            assert(s[28] == m.indirect1);
        } else if p >= 158 {
            assert(s[157] == m.indirect2);
            let a = (p - 158) / 129;
            let ps = 158 + 129 * a;
            assert((ps - 158) % 129 == 0);
            assert((ps - 158) / 129 == a);
            assert(s[ps] == entry(d, m.indirect2, a));
        }
    }
    assert(m.owned(d2) =~= s);
    assert forall|i: int| 0 <= i < m.blocks() implies #[trigger] m.block_of(d2, i) == m.block_of(
        d,
        i,
    ) by {
        lemma_pos(i, m.blocks());
        lemma_block_of(m, d, i);
        lemma_block_of(m, d2, i);
    }
}

/// Writing data leaves the list of blocks as it is.
pub proof fn lemma_wrote(
    m: InodeModel,
    d: Seq<Seq<u8>>,
    d2: Seq<Seq<u8>>,
    off: int,
    data: Seq<u8>,
)
    requires
        m.wf(d),
        wrote(m, d, d2, off, data),
    ensures
        m.owned(d2) == m.owned(d),
        m.wf(d2),
        forall|i: int| 0 <= i < m.blocks() ==> #[trigger] m.block_of(d2, i) == m.block_of(d, i),
        forall|k: int|
            0 <= k < 512 * m.blocks() ==> #[trigger] m.raw_at(d2, k) == if off <= k < off
                + data.len() {
                data[k - off]
            } else {
                m.raw_at(d, k)
            },
{
    let s = m.owned(d);
    assert forall|q: int| 0 <= q < s.len() && is_index_pos(q) implies d2[#[trigger] s[q] as int]
        == d[s[q] as int] by {
        assert forall|i: int| 0 <= i < m.blocks() implies #[trigger] m.block_of(d, i)
            != s[q] as int by {
            lemma_data_block(m, d, i);
            assert(pos_of(i) != q);
        }
    }
    lemma_same_index(m, d, d2);
    assert forall|k: int| 0 <= k < 512 * m.blocks() implies #[trigger] m.raw_at(d2, k) == (if off
        <= k < off + data.len() {
        data[k - off]
    } else {
        m.raw_at(d, k)
    }) by {
        let i = k / 512;
        assert(m.block_of(d2, i) == m.block_of(d, i));
        assert(512 * i + k % 512 == k);
        assert(d2[m.block_of(d, i) as int][k % 512] == d2[m.block_of(d, i) as int][k % 512]);
    }
}

impl DiskInode {
    /// Get id of block given inner id.
    pub fn get_block_id<D: BlockDevice>(
        &self,
        inner_id: u32,
        block_device: &mut BlockStore<D>,
    ) -> (r: u32)
        requires
            old(block_device).inv(),
            inner_id < INDIRECT2_BOUND,
            28 <= inner_id < 156 ==> (self.indirect1 as int) < old(block_device)@.len(),
            inner_id >= 156 ==> (self.indirect2 as int) < old(block_device)@.len(),
            inner_id >= 156 ==> (entry(
                old(block_device)@,
                self.indirect2,
                (inner_id - 156) / 128,
            ) as int) < old(block_device)@.len(),
        ensures
            final(block_device).inv(),
            final(block_device)@ == old(block_device)@,
            r == self@.block_of(old(block_device)@, inner_id as int),
    {
        let inner_id: usize = inner_id as usize;
        if inner_id < INODE_DIRECT_COUNT {
            self.direct[inner_id]
        } else if inner_id < INDIRECT1_BOUND {
            read_entry(block_device, self.indirect1, inner_id - INODE_DIRECT_COUNT)
        } else {
            let last: usize = inner_id - INDIRECT1_BOUND;
            let indirect1: u32 = read_entry(
                block_device,
                self.indirect2,
                last / INODE_INDIRECT1_COUNT,
            );
            read_entry(block_device, indirect1, last % INODE_INDIRECT1_COUNT)
        }
    }

    /// Read data from current disk inode.
    pub fn read_at<D: BlockDevice>(
        &self,
        offset: usize,
        buf: &mut [u8],
        block_device: &mut BlockStore<D>,
    ) -> (r: usize)
        requires
            old(block_device).inv(),
            self@.wf(old(block_device)@),
            offset + old(buf)@.len() <= usize::MAX,
        ensures
            final(block_device).inv(),
            final(block_device)@ == old(block_device)@,
            r == transfer_len(offset as int, old(buf)@.len() as int, self.size as int),
            final(buf)@ == Seq::new(
                old(buf)@.len(),
                |i: int|
                    if i < r {
                        self@.content(old(block_device)@)[offset + i]
                    } else {
                        old(buf)@[i]
                    },
            ),
    {
        let ghost d = block_device@;
        let ghost b0 = buf@;
        let ghost c = self@.content(d);
        let n: usize = buf.len();
        let mut start: usize = offset;
        let end: usize = if offset + n <= self.size as usize {
            offset + n
        } else {
            self.size as usize
        };
        if start >= end {
            assert(buf@ =~= Seq::new(
                b0.len(),
                |i: int|
                    if i < 0 {
                        c[offset + i]
                    } else {
                        b0[i]
                    },
            ));
            return 0;
        }
        let mut start_block: usize = start / BLOCK_SZ;
        let mut read_size: usize = 0;
        assert(buf@ =~= Seq::new(
            b0.len(),
            |i: int|
                if i < read_size {
                    c[offset + i]
                } else {
                    b0[i]
                },
        ));
        loop
            invariant_except_break
                start == offset + read_size,
                offset <= start < end,
                start_block == start / BLOCK_SZ,
            invariant
                block_device.inv(),
                block_device@ == d,
                self@.wf(d),
                c == self@.content(d),
                end <= self.size,
                end <= offset + n,
                offset < end,
                n == b0.len(),
                n <= usize::MAX,
                read_size <= end - offset,
                buf@ == Seq::new(
                    b0.len(),
                    |i: int|
                        if i < read_size {
                            c[offset + i]
                        } else {
                            b0[i]
                        },
                ),
            ensures
                read_size == end - offset,
            decreases end - start,
        {
            // calculate end of current block
            let mut end_current_block: usize = (start / BLOCK_SZ + 1) * BLOCK_SZ;
            if end_current_block > end {
                end_current_block = end;
            }
            // read and update read size

            let block_read_size: usize = end_current_block - start;
            proof {
                lemma_data_block(self@, d, start_block as int);
            }
            let block_id: u32 = self.get_block_id(start_block as u32, block_device);
            let ghost before = buf@;
            block_device.read_bytes(
                block_id as usize,
                start % BLOCK_SZ,
                buf,
                read_size,
                block_read_size,
            );
            proof {
                let src = d[block_id as int].subrange(
                    start as int % 512,
                    start as int % 512 + block_read_size,
                );
                assert forall|i: int| 0 <= i < n implies buf@[i] == (if i < read_size
                    + block_read_size {
                    c[offset + i]
                } else {
                    b0[i]
                }) by {
                    if read_size <= i < read_size + block_read_size {
                        let t = i - read_size;
                        assert(buf@[i] == src[t]);
                        let k = start + t;
                        assert(k / 512 == start as int / 512);
                        assert(k % 512 == start as int % 512 + t);
                        assert(c[offset + i] == self@.raw_at(d, k));
                    } else {
                        assert(buf@[i] == before[i]);
                    }
                }
                assert(buf@ =~= Seq::new(
                    b0.len(),
                    |i: int|
                        if i < read_size + block_read_size {
                            c[offset + i]
                        } else {
                            b0[i]
                        },
                ));
            }
            read_size += block_read_size;
            // move to next block
            if end_current_block == end {
                break;
            }
            start_block += 1;
            start = end_current_block;
        }
        read_size
    }

    /// Write data into current disk inode.
    /// Size must be adjusted properly beforehand.
    pub fn write_at<D: BlockDevice>(
        &mut self,
        offset: usize,
        buf: &[u8],
        block_device: &mut BlockStore<D>,
    ) -> (r: usize)
        requires
            old(block_device).inv(),
            old(self)@.wf(old(block_device)@),
            offset + buf@.len() <= usize::MAX,
            offset <= old(self).size,
        ensures
            final(block_device).inv(),
            *final(self) == *old(self),
            r == transfer_len(offset as int, buf@.len() as int, old(self).size as int),
            wrote(
                old(self)@,
                old(block_device)@,
                final(block_device)@,
                offset as int,
                buf@.take(r as int),
            ),
    {
        let ghost d = block_device@;
        let ghost m = self@;
        let n: usize = buf.len();
        let mut start: usize = offset;
        let end: usize = if offset + n <= self.size as usize {
            offset + n
        } else {
            self.size as usize
        };
        if start == end {
            return 0;
        }
        let mut start_block: usize = start / BLOCK_SZ;
        let mut write_size: usize = 0;
        loop
            invariant_except_break
                start == offset + write_size,
                offset <= start < end,
                start_block == start / BLOCK_SZ,
            invariant
                block_device.inv(),
                *self == *old(self),
                m == self@,
                m.wf(d),
                end <= self.size,
                end <= offset + n,
                offset < end,
                n == buf@.len(),
                n <= usize::MAX,
                write_size <= end - offset,
                wrote(m, d, block_device@, offset as int, buf@.take(write_size as int)),
            ensures
                write_size == end - offset,
            decreases end - start,
        {
            // calculate end of current block
            let mut end_current_block: usize = (start / BLOCK_SZ + 1) * BLOCK_SZ;
            if end_current_block > end {
                end_current_block = end;
            }
            // write and update write size

            let block_write_size: usize = end_current_block - start;
            let ghost d1 = block_device@;
            proof {
                lemma_wrote(m, d, d1, offset as int, buf@.take(write_size as int));
                lemma_data_block(m, d, start_block as int);
                lemma_data_block(m, d1, start_block as int);
            }
            let block_id: u32 = self.get_block_id(start_block as u32, block_device);
            block_device.write_bytes(
                block_id as usize,
                start % BLOCK_SZ,
                buf,
                write_size,
                block_write_size,
            );
            proof {
                let d2 = block_device@;
                let off = start as int % 512;
                let src = buf@.subrange(write_size as int, write_size + block_write_size);
                let w1 = buf@.take(write_size as int);
                let w2 = buf@.take(write_size + block_write_size);
                assert(block_id == m.block_of(d, start_block as int));
                assert(d2 == d1.update(block_id as int, splice(d1[block_id as int], off, src)));
                assert forall|i: int, k: int|
                    0 <= i < m.blocks() && 0 <= k < 512 implies #[trigger] d2[m.block_of(
                    d,
                    i,
                ) as int][k] == (if offset <= 512 * i + k < offset + w2.len() {
                    w2[512 * i + k - offset]
                } else {
                    d[m.block_of(d, i) as int][k]
                }) by {
                    let b = m.block_of(d, i);
                    lemma_data_block(m, d, i);
                    assert(d1[b as int][k] == if offset <= 512 * i + k < offset + w1.len() {
                        w1[512 * i + k - offset]
                    } else {
                        d[b as int][k]
                    });
                    if i == start_block {
                        if off <= k < off + block_write_size {
                            assert(512 * i + off == start);
                            assert(d2[b as int][k] == src[k - off]);
                        }
                    } else {
                        lemma_data_block(m, d, start_block as int);
                        if pos_of(i) == pos_of(start_block as int) {
                            lemma_pos_injective(i, start_block as int);
                        }
                        assert(b != block_id);
                        assert(d2[b as int] == d1[b as int]);
                    }
                }
                assert forall|b: int|
                    0 <= b < d.len() && (forall|i: int|
                        0 <= i < m.blocks() ==> #[trigger] m.block_of(d, i)
                            != b) implies #[trigger] d2[b] == d[b] by {
                    assert(m.block_of(d, start_block as int) != b);
                    assert(d1[b] == d[b]);
                }
                assert(wrote(m, d, d2, offset as int, w2));
            }
            write_size += block_write_size;
            // move to next block
            if end_current_block == end {
                break;
            }
            start_block += 1;
            start = end_current_block;
        }
        write_size
    }
}

/// Read a block number out of an index block.
fn read_entry<D: BlockDevice>(block_device: &mut BlockStore<D>, b: u32, j: usize) -> (r: u32)
    requires
        old(block_device).inv(),
        (b as int) < old(block_device)@.len(),
        j < 128,
    ensures
        final(block_device).inv(),
        final(block_device)@ == old(block_device)@,
        r == entry(old(block_device)@, b, j as int),
{
    proof {
        block_device.lemma_full_blocks();
        lemma_le32_subrange(block_device@[b as int], 4 * j as int, 4 * j + 4, 0);
    }
    block_device.read::<u32>(b as usize, 4 * j)
}

/// Write a block number into an index block.
fn write_entry<D: BlockDevice>(block_device: &mut BlockStore<D>, b: u32, j: usize, v: u32)
    requires
        old(block_device).inv(),
        (b as int) < old(block_device)@.len(),
        j < 128,
    ensures
        final(block_device).inv(),
        final(block_device)@ == set_entry(old(block_device)@, b, j as int, v),
{
    block_device.write::<u32>(b as usize, 4 * j, &v);
}

impl DiskInode {
    /// Increase the size of current disk inode. The blocks that it takes for that
    /// come in order from `new_blocks`.
    pub fn increase_size<D: BlockDevice>(
        &mut self,
        new_size: u32,
        new_blocks: Vec<u32>,
        block_device: &mut BlockStore<D>,
    )
        requires
            old(block_device).inv(),
            old(self)@.wf(old(block_device)@),
            old(self).size <= new_size,
            data_blocks_of(new_size as int) <= INDIRECT2_BOUND,
            new_blocks@.len() >= growth(old(self)@, new_size as int),
            (old(self)@.owned(old(block_device)@) + new_blocks@.take(
                growth(old(self)@, new_size as int),
            )).no_duplicates(),
            forall|i: int|
                0 <= i < growth(old(self)@, new_size as int) ==> (#[trigger] new_blocks@[i] as int)
                    < old(block_device)@.len(),
        ensures
            final(block_device).inv(),
            final(self)@.wf(final(block_device)@),
            grown(
                old(self)@,
                final(self)@,
                old(block_device)@,
                final(block_device)@,
                new_size,
                new_blocks@.take(growth(old(self)@, new_size as int)),
            ),
    {
        let ghost d0 = block_device@;
        let ghost m0 = self@;
        let ghost n0 = self@.blocks();
        let ghost n1 = data_blocks_of(new_size as int);
        let ghost needed = growth(m0, new_size as int);
        let ghost plan = m0.owned(d0) + new_blocks@.take(needed);
        let ghost t0 = m0.owned(d0).len() as int;
        proof {
            lemma_total_monotonic(n0, n1);
            assert(plan.len() == total_blocks_of(n1));
            assert forall|q: int| 0 <= q < plan.len() implies (#[trigger] plan[q] as int)
                < d0.len() by {
                if q < t0 {
                    assert(plan[q] == m0.owned(d0)[q]);
                } else {
                    assert(plan[q] == new_blocks@[q - t0]);
                }
            }
            assert forall|q: int| 0 <= q < t0 implies #[trigger] m0.owned_at(d0, q) == plan[q] by {
                assert(plan[q] == m0.owned(d0)[q]);
            }
        }
        let mut current_blocks: u32 = self.data_blocks();
        self.size = new_size;
        let mut total_blocks: u32 = self.data_blocks();
        let mut next: usize = 0;
        proof {
            assert forall|q: int| 0 <= q < t0 implies #[trigger] self@.owned_at(d0, q)
                == plan[q] by {
                assert(m0.owned_at(d0, q) == plan[q]);
            }
        }
        // fill direct
        while current_blocks < total_blocks && current_blocks < INODE_DIRECT_COUNT as u32
            invariant
                n0 <= current_blocks,
                current_blocks <= total_blocks || n0 == current_blocks,
                current_blocks <= 28 || next == 0,
                total_blocks == n1,
                n0 <= n1 <= INDIRECT2_BOUND,
                t0 == total_blocks_of(n0),
                plan.len() == total_blocks_of(n1),
                plan == m0.owned(d0) + new_blocks@.take(needed),
                t0 == m0.owned(d0).len(),
                needed == plan.len() - t0,
                needed <= new_blocks@.len(),
                next == current_blocks - n0,
                block_device.inv(),
                block_device@ == d0,
                self.size == new_size,
                self@.kind == m0.kind,
                self@.nlink == m0.nlink,
                filled(self@, d0, plan, t0 + next),
                n0 > 28 ==> self@ == (InodeModel { size: new_size, ..m0 }),
                slots_kept(m0, self@, n1),
                self@.indirect1 == m0.indirect1,
                self@.indirect2 == m0.indirect2,
            decreases total_blocks - current_blocks,
        {
            let ghost before = self@;
            self.direct[current_blocks as usize] = new_blocks[next];
            proof {
                lemma_total_monotonic(current_blocks + 1, n1);
                assert(t0 == n0);
                let p = t0 + next;
                assert(p == current_blocks);
                assert(plan[p] == new_blocks@[next as int]);
                assert forall|q: int| 0 <= q < p + 1 implies #[trigger] self@.owned_at(d0, q)
                    == plan[q] by {
                    if q < p {
                        assert(before.owned_at(d0, q) == plan[q]);
                    }
                }
            }
            current_blocks += 1;
            next += 1;
        }
        // alloc indirect1
        if total_blocks > INODE_DIRECT_COUNT as u32 {
            if current_blocks == INODE_DIRECT_COUNT as u32 {
                let ghost before = self@;
                self.indirect1 = new_blocks[next];
                proof {
                    assert(t0 + next == 28);
                    assert(plan[28] == new_blocks@[next as int]);
                    assert forall|q: int| 0 <= q < 29 implies #[trigger] self@.owned_at(d0, q)
                        == plan[q] by {
                        if q < 28 {
                            assert(before.owned_at(d0, q) == plan[q]);
                        }
                    }
                }
                next += 1;
            }
            current_blocks -= INODE_DIRECT_COUNT as u32;
            total_blocks -= INODE_DIRECT_COUNT as u32;
        } else {
            proof {
                lemma_grown(*self, d0, d0, plan);
            }
            return ;
        }
        // fill indirect1
        let indirect1: u32 = self.indirect1;
        proof {
            assert(self@.owned_at(d0, 28) == plan[28]);
            assert(n0 <= 28 ==> t0 + next == 29);
            assert(28 < n0 <= 156 ==> t0 + next == n0 + 1);
        }
        while current_blocks < total_blocks && current_blocks < INODE_INDIRECT1_COUNT as u32
            invariant
                total_blocks == n1 - 28,
                0 <= n0 <= n1 <= INDIRECT2_BOUND,
                n1 > 28,
                current_blocks + 28 >= n0,
                current_blocks <= total_blocks || current_blocks + 28 == n0,
                n0 <= 156 ==> current_blocks <= 128,
                n0 <= 156 ==> t0 + next == current_blocks + 29,
                n0 > 156 ==> next == 0 && current_blocks + 28 == n0,
                t0 == total_blocks_of(n0),
                plan.len() == total_blocks_of(n1),
                plan == m0.owned(d0) + new_blocks@.take(needed),
                plan.no_duplicates(),
                t0 == m0.owned(d0).len(),
                needed == plan.len() - t0,
                needed <= new_blocks@.len(),
                forall|q: int| 0 <= q < plan.len() ==> (#[trigger] plan[q] as int) < d0.len(),
                block_device.inv(),
                self.size == new_size,
                self@.kind == m0.kind,
                self@.nlink == m0.nlink,
                indirect1 == plan[28],
                slots_kept(m0, self@, n1),
                self@.indirect2 == m0.indirect2,
                filled(self@, block_device@, plan, t0 + next),
                same_but_index(d0, block_device@, plan, t0 + next),
            decreases total_blocks - current_blocks,
        {
            let ghost d = block_device@;
            proof {
                lemma_total_monotonic(current_blocks + 28 + 1, n1);
            }
            write_entry(block_device, indirect1, current_blocks as usize, new_blocks[next]);
            proof {
                let p = t0 + next;
                assert(plan[p] == new_blocks@[next as int]);
                lemma_fill_entry(self@, d0, d, plan, p, 28, current_blocks as int);
            }
            current_blocks += 1;
            next += 1;
        }
        // alloc indirect2
        if total_blocks > INODE_INDIRECT1_COUNT as u32 {
            if current_blocks == INODE_INDIRECT1_COUNT as u32 {
                let ghost before = self@;
                self.indirect2 = new_blocks[next];
                proof {
                    let d = block_device@;
                    assert(t0 + next == 157);
                    assert(plan[157] == new_blocks@[next as int]);
                    assert forall|q: int| 0 <= q < 158 implies #[trigger] self@.owned_at(d, q)
                        == plan[q] by {
                        if q < 157 {
                            assert(before.owned_at(d, q) == plan[q]);
                        }
                    }
                    assert(same_but_index(d0, d, plan, 158)) by {
                        assert forall|x: int| 0 <= x < 157 && is_index_pos(x) implies #[trigger] plan[x]
                            != plan[157] by {}
                        assert(d[plan[157] as int] == d0[plan[157] as int]);
                    }
                }
                next += 1;
            }
            current_blocks -= INODE_INDIRECT1_COUNT as u32;
            total_blocks -= INODE_INDIRECT1_COUNT as u32;
        } else {
            proof {
                lemma_grown(*self, d0, block_device@, plan);
            }
            return ;
        }
        // fill indirect2 from (a0, b0) -> (a1, b1)
        let mut a0: usize = current_blocks as usize / INODE_INDIRECT1_COUNT;
        let mut b0: usize = current_blocks as usize % INODE_INDIRECT1_COUNT;
        let a1: usize = total_blocks as usize / INODE_INDIRECT1_COUNT;
        let b1: usize = total_blocks as usize % INODE_INDIRECT1_COUNT;
        let indirect2: u32 = self.indirect2;
        // alloc low-level indirect1
        proof {
            assert(self@.owned_at(block_device@, 157) == plan[157]);
            assert(128 * a0 + b0 == current_blocks);
            assert(t0 + next == 158 + 129 * a0 + (if b0 == 0 {
                0int
            } else {
                b0 + 1
            }));
        }
        while (a0 < a1) || (a0 == a1 && b0 < b1)
            invariant
                n1 - 156 == 128 * a1 + b1,
                b1 < 128,
                a1 <= 128,
                a1 == 128 ==> b1 == 0,
                n1 > 156,
                128 * a0 + b0 <= n1 - 156,
                0 <= n0 <= n1 <= INDIRECT2_BOUND,
                b0 < 128,
                t0 + next == 158 + 129 * a0 + (if b0 == 0 {
                    0int
                } else {
                    b0 + 1
                }),
                plan.len() == total_blocks_of(n1),
                plan == m0.owned(d0) + new_blocks@.take(needed),
                plan.no_duplicates(),
                t0 == m0.owned(d0).len(),
                needed == plan.len() - t0,
                needed <= new_blocks@.len(),
                forall|q: int| 0 <= q < plan.len() ==> (#[trigger] plan[q] as int) < d0.len(),
                block_device.inv(),
                self.size == new_size,
                self@.kind == m0.kind,
                self@.nlink == m0.nlink,
                indirect2 == plan[157],
                self.indirect2 == indirect2,
                slots_kept(m0, self@, n1),
                filled(self@, block_device@, plan, t0 + next),
                same_but_index(d0, block_device@, plan, t0 + next),
            decreases n1 - 156 - (128 * a0 + b0),
        {
            let ghost ps: int = 158 + 129 * a0;
            proof {
                assert(total_blocks_of(n1) == n1 + 2 + (n1 - 156 + 127) / 128);
                assert(a0 < 128);
                assert(ps + b0 + 1 < plan.len());
                assert((ps - 158) % 129 == 0);
                assert((ps - 158) / 129 == a0);
            }
            if b0 == 0 {
                let ghost d = block_device@;
                write_entry(block_device, indirect2, a0, new_blocks[next]);
                proof {
                    assert(plan[t0 + next] == new_blocks@[next as int]);
                    lemma_fill_entry(self@, d0, d, plan, ps, 157, a0 as int);
                }
                next += 1;
            }
            // fill current

            assert(self@.owned_at(block_device@, ps) == plan[ps]);
            let sub: u32 = read_entry(block_device, indirect2, a0);
            let ghost d = block_device@;
            write_entry(block_device, sub, b0, new_blocks[next]);
            proof {
                assert(t0 + next == ps + b0 + 1);
                assert(plan[t0 + next] == new_blocks@[next as int]);
                lemma_fill_entry(self@, d0, d, plan, t0 + next, ps, b0 as int);
            }
            next += 1;
            // move to next
            b0 += 1;
            if b0 == INODE_INDIRECT1_COUNT {
                b0 = 0;
                a0 += 1;
            }
        }
        proof {
            assert(a0 == a1 && b0 == b1);
            assert(total_blocks_of(n1) == n1 + 2 + (n1 - 156 + 127) / 128);
            assert(t0 + next == plan.len());
            lemma_grown(*self, d0, block_device@, plan);
        }
    }

    /// Clear size to zero and return blocks that should be deallocated.
    /// We will clear the block contents to zero later.
    pub fn clear_size<D: BlockDevice>(&mut self, block_device: &mut BlockStore<D>) -> (v: Vec<u32>)
        requires
            old(block_device).inv(),
            old(self)@.wf(old(block_device)@),
        ensures
            final(block_device).inv(),
            final(block_device)@ == old(block_device)@,
            v@ == old(self)@.owned(old(block_device)@),
            final(self)@ == cleared(old(self)@),
    {
        let ghost d = block_device@;
        let ghost m = self@;
        let ghost n = m.blocks();
        let ghost s = m.owned(d);
        let mut v: Vec<u32> = Vec::new();
        let mut data_blocks: usize = self.data_blocks() as usize;
        self.size = 0;
        let mut current_blocks: usize = 0;
        // direct
        while current_blocks < data_blocks && current_blocks < INODE_DIRECT_COUNT
            invariant
                current_blocks <= data_blocks,
                current_blocks <= 28,
                data_blocks == n,
                n == m.blocks(),
                s == m.owned(d),
                m.direct.len() == 28,
                v@.len() == current_blocks,
                forall|q: int| 0 <= q < current_blocks ==> v@[q] == #[trigger] m.owned_at(d, q),
                self@ == (InodeModel { size: 0, direct: self.direct@, ..m }),
                forall|q: int|
                    0 <= q < 28 ==> #[trigger] self.direct@[q] == if q < current_blocks {
                        0
                    } else {
                        m.direct[q]
                    },
            decreases 28 - current_blocks,
        {
            v.push(self.direct[current_blocks]);
            self.direct[current_blocks] = 0;
            current_blocks += 1;
        }
        // indirect1 block
        if data_blocks > INODE_DIRECT_COUNT {
            v.push(self.indirect1);
            data_blocks -= INODE_DIRECT_COUNT;
            current_blocks = 0;
        } else {
            assert(v@ =~= s);
            assert(self@ =~= cleared(m));
            return v;
        }
        proof {
            lemma_data_block(m, d, 28);
        }
        // indirect1
        let indirect1: u32 = self.indirect1;
        while current_blocks < data_blocks && current_blocks < INODE_INDIRECT1_COUNT
            invariant
                current_blocks <= data_blocks,
                current_blocks <= 128,
                data_blocks == n - 28,
                n == m.blocks(),
                block_device.inv(),
                block_device@ == d,
                (indirect1 as int) < d.len(),
                indirect1 == m.indirect1,
                v@.len() == 29 + current_blocks,
                forall|q: int| 0 <= q < v@.len() ==> v@[q] == #[trigger] m.owned_at(d, q),
            decreases 128 - current_blocks,
        {
            let e: u32 = read_entry(block_device, indirect1, current_blocks);
            v.push(e);
            current_blocks += 1;
        }
        self.indirect1 = 0;
        // indirect2 block
        if data_blocks > INODE_INDIRECT1_COUNT {
            v.push(self.indirect2);
            data_blocks -= INODE_INDIRECT1_COUNT;
        } else {
            assert(v@ =~= s);
            assert(self@ =~= cleared(m));
            return v;
        }
        proof {
            lemma_data_block(m, d, 156);
        }
        // indirect2
        let a1: usize = data_blocks / INODE_INDIRECT1_COUNT;
        let b1: usize = data_blocks % INODE_INDIRECT1_COUNT;
        let indirect2: u32 = self.indirect2;
        let mut a: usize = 0;
        assert(v@.len() == 158);
        // full indirect1 blocks, then the last one as far as it is used
        while a < a1 || (a == a1 && b1 > 0)
            invariant
                a <= a1 + 1,
                a == a1 + 1 ==> b1 > 0,
                a1 <= 128,
                b1 < 128,
                128 * a1 + b1 == n - 156,
                n > 156,
                n == m.blocks(),
                n <= INDIRECT2_BOUND,
                m.wf(d),
                block_device.inv(),
                block_device@ == d,
                indirect2 == m.indirect2,
                (indirect2 as int) < d.len(),
                v@.len() == if a <= a1 {
                    158 + 129 * a
                } else {
                    158 + 129 * a1 + 1 + b1
                },
                forall|q: int| 0 <= q < v@.len() ==> v@[q] == #[trigger] m.owned_at(d, q),
            decreases a1 + 1 - a,
        {
            let take: usize = if a < a1 {
                INODE_INDIRECT1_COUNT
            } else {
                b1
            };
            let ghost ps: int = 158 + 129 * a;
            proof {
                lemma_data_block(m, d, 156 + 128 * a);
                assert((ps - 158) % 129 == 0);
                assert((ps - 158) / 129 == a);
            }
            let sub: u32 = read_entry(block_device, indirect2, a);
            v.push(sub);
            let mut j: usize = 0;
            while j < take
                invariant
                    j <= take <= 128,
                    ps == 158 + 129 * a,
                    v@.len() == ps + 1 + j,
                    sub == entry(d, m.indirect2, a as int),
                    (sub as int) < d.len(),
                    block_device.inv(),
                    block_device@ == d,
                    forall|q: int| 0 <= q < v@.len() ==> v@[q] == #[trigger] m.owned_at(d, q),
                decreases take - j,
            {
                let e: u32 = read_entry(block_device, sub, j);
                proof {
                    let p = ps + 1 + j;
                    assert((p - 158) % 129 == 1 + j);
                    assert((p - 158) / 129 == a);
                }
                v.push(e);
                j += 1;
            }
            a += 1;
        }
        self.indirect2 = 0;
        proof {
            assert(total_blocks_of(n) == n + 2 + (n - 156 + 127) / 128);
            assert(v@.len() == s.len());
            assert(v@ =~= s);
            assert(self@ =~= cleared(m));
        }
        v
    }
}

/// How many blocks an inode has to take to reach a size.
pub open spec fn growth(m: InodeModel, new_size: int) -> int {
    total_blocks_of(data_blocks_of(new_size)) - total_blocks_of(m.blocks())
}

/// The slots that a file with `n` blocks of data does not use are as they were.
pub open spec fn slots_kept(m: InodeModel, m2: InodeModel, n: int) -> bool {
    &&& m2.direct.len() == m.direct.len()
    &&& forall|i: int| n <= i < INODE_DIRECT_COUNT ==> #[trigger] m2.direct[i] == m.direct[i]
    &&& n <= INODE_DIRECT_COUNT ==> m2.indirect1 == m.indirect1
    &&& n <= INDIRECT1_BOUND ==> m2.indirect2 == m.indirect2
}

/// An inode was grown: it owns the given blocks behind those that it had, and nothing else
/// changed, neither in the inode nor on the disk.
pub open spec fn grown(
    m: InodeModel,
    m2: InodeModel,
    d: Seq<Seq<u8>>,
    d2: Seq<Seq<u8>>,
    new_size: u32,
    blocks: Seq<u32>,
) -> bool {
    &&& m2.size == new_size
    &&& m2.kind == m.kind
    &&& m2.nlink == m.nlink
    &&& m2.owned(d2) == m.owned(d) + blocks
    &&& slots_kept(m, m2, data_blocks_of(new_size as int))
    &&& same_but_index(d, d2, m2.owned(d2), m2.owned(d2).len() as int)
}

/// An inode after all of its blocks were taken from it.
pub open spec fn cleared(m: InodeModel) -> InodeModel {
    InodeModel {
        size: 0,
        direct: Seq::new(
            INODE_DIRECT_COUNT as nat,
            |i: int|
                if i < m.blocks() {
                    0
                } else {
                    m.direct[i]
                },
        ),
        indirect1: if m.blocks() > INODE_DIRECT_COUNT {
            0
        } else {
            m.indirect1
        },
        indirect2: if m.blocks() > INDIRECT1_BOUND {
            0
        } else {
            m.indirect2
        },
        ..m
    }
}

/// A grown inode whose positions are filled as planned is well formed.
proof fn lemma_grown(i: DiskInode, d0: Seq<Seq<u8>>, d: Seq<Seq<u8>>, plan: Seq<u32>)
    requires
        filled(i@, d, plan, plan.len() as int),
        plan.len() == total_blocks_of(i@.blocks()),
        plan.no_duplicates(),
        i@.blocks() <= INDIRECT2_BOUND,
        full_blocks(d),
        forall|q: int| 0 <= q < plan.len() ==> (#[trigger] plan[q] as int) < d.len(),
    ensures
        i@.owned(d) == plan,
        i@.wf(d),
{
    assert forall|p: int| 0 <= p < plan.len() implies i@.owned(d)[p] == plan[p] by {
        assert(i@.owned_at(d, p) == plan[p]);
    }
    assert(i@.owned(d) =~= plan);
}

/// A directory entry.
#[derive(Clone, Copy)]
pub struct DirEntry {
    pub name: [u8; 28],
    pub inode_id: u32,
}

/// What a directory entry holds: the bytes of its name field, and an inode number.
#[verifier::ext_equal]
pub struct EntryModel {
    pub name: Seq<u8>,
    pub inode_id: u32,
}

impl View for DirEntry {
    type V = EntryModel;

    open spec fn view(&self) -> EntryModel {
        EntryModel { name: self.name@, inode_id: self.inode_id }
    }
}

/// The first position from `i` on at which a zero byte stands.
pub open spec fn zero_from(s: Seq<u8>, i: int) -> int
    decreases s.len() - i,
{
    if i < 0 || i >= s.len() || s[i] == 0 {
        i
    } else {
        zero_from(s, i + 1)
    }
}

/// The bytes before the first zero byte.
pub open spec fn cstr(s: Seq<u8>) -> Seq<u8> {
    s.take(zero_from(s, 0))
}

/// A name and zero bytes up to the width of the name field.
pub open spec fn padded_name(name: Seq<u8>) -> Seq<u8> {
    Seq::new(
        28,
        |i: int|
            if i < name.len() {
                name[i]
            } else {
                0u8
            },
    )
}

/// `zero_from` stops at the first zero byte.
pub proof fn lemma_zero_from(s: Seq<u8>, i: int)
    requires
        0 <= i <= s.len(),
    ensures
        i <= zero_from(s, i) <= s.len(),
        forall|k: int| i <= k < zero_from(s, i) ==> s[k] != 0,
        zero_from(s, i) < s.len() ==> s[zero_from(s, i)] == 0,
    decreases s.len() - i,
{
    if i < s.len() && s[i] != 0 {
        lemma_zero_from(s, i + 1);
    }
}

/// The name field gives back a name up to its first zero byte, and that part of a
/// string is a string.
pub proof fn lemma_padded_name(name: Seq<u8>)
    requires
        name.len() <= NAME_LENGTH_LIMIT,
    ensures
        cstr(padded_name(name)) == cstr(name),
        zero_from(padded_name(name), 0) == cstr(name).len(),
        cstr(name).len() <= NAME_LENGTH_LIMIT,
        (forall|i: int| 0 <= i < name.len() ==> name[i] != 0) ==> cstr(name) == name,
        valid_utf8(name) ==> valid_utf8(cstr(name)),
{
    let s = padded_name(name);
    lemma_zero_from(s, 0);
    lemma_zero_from(name, 0);
    let z = zero_from(s, 0);
    let y = zero_from(name, 0);
    assert(z <= name.len()) by {
        assert(s[name.len() as int] == 0);
    }
    if z < y {
        assert(s[z] == name[z]);
    } else if y < z {
        assert(s[y] == name[y]);
    }
    assert(s.take(z) =~= name.take(y));
    if forall|i: int| 0 <= i < name.len() ==> name[i] != 0 {
        assert(name.take(y) =~= name);
    }
    if valid_utf8(name) {
        if y < name.len() {
            is_char_boundary_iff_not_is_continuation_byte(name, y);
            valid_utf8_split(name, y);
            assert(name.subrange(0, y) == name.take(y));
        } else {
            assert(name.take(y) =~= name);
        }
    }
}

/// `core::str::from_utf8`: the string that the bytes encode, if they are valid UTF-8.
#[verifier::external_body]
pub(crate) fn str_from_utf8(v: &[u8]) -> (r: Option<&str>)
    ensures
        r is Some <==> valid_utf8(v@),
        r is Some ==> r->0@ == decode_utf8(v@),
{
    core::str::from_utf8(v).ok()
}

impl DirEntry {
    /// Create an empty directory entry.
    pub fn empty() -> (r: Self)
        ensures
            r@ == (EntryModel { name: padded_name(Seq::empty()), inode_id: 0 }),
    {
        let r: DirEntry = DirEntry { name: [0u8; 28], inode_id: 0 };
        assert(r@.name =~= padded_name(Seq::empty()));
        r
    }

    /// Create a directory entry from name and inode number.
    pub fn new(name: &str, inode_id: u32) -> (r: Self)
        requires
            encode_utf8(name@).len() <= NAME_LENGTH_LIMIT,
        ensures
            r@ == (EntryModel { name: padded_name(encode_utf8(name@)), inode_id }),
    {
        let mut bytes: [u8; 28] = [0u8; 28];
        let src: &[u8] = name.as_bytes();
        let ghost s = encode_utf8(name@);
        let mut i: usize = 0;
        while i < src.len()
            invariant
                i <= src@.len() <= 28,
                src@ == s,
                forall|k: int|
                    0 <= k < 28 ==> #[trigger] bytes@[k] == if k < i {
                        s[k]
                    } else {
                        0
                    },
            decreases src@.len() - i,
        {
            bytes[i] = src[i];
            i += 1;
        }
        assert(bytes@ =~= padded_name(s));
        DirEntry { name: bytes, inode_id }
    }

    /// Serialize into bytes.
    pub fn as_bytes(&self) -> (r: Vec<u8>)
        ensures
            r@ == DirEntry::encode(self@),
            r@.len() == DIRENT_SZ,
            DirEntry::decode(r@) == self@,
    {
        self.to_bytes()
    }

    /// Get name of the entry.
    pub fn name(&self) -> (r: &str)
        requires
            zero_from(self@.name, 0) < self@.name.len(),
            valid_utf8(cstr(self@.name)),
        ensures
            r@ == decode_utf8(cstr(self@.name)),
    {
        let mut len: usize = 0;
        proof {
            lemma_zero_from(self@.name, 0);
        }
        while self.name[len] != 0
            invariant
                0 <= len <= zero_from(self@.name, 0) < 28,
                zero_from(self@.name, 0) == zero_from(self@.name, len as int),
                self@.name[zero_from(self@.name, 0)] == 0,
            decreases 28 - len,
        {
            len += 1;
        }
        let whole: &[u8] = &self.name;
        let bytes: &[u8] = vstd::slice::slice_subrange(whole, 0, len);
        assert(bytes@ =~= cstr(self@.name));
        str_from_utf8(bytes).unwrap()
    }

    /// Get inode number of the entry.
    pub fn inode_id(&self) -> (r: u32)
        ensures
            r == self@.inode_id,
    {
        self.inode_id
    }
}

impl Record for DirEntry {
    open spec fn record_size() -> nat {
        32
    }

    open spec fn decode(bytes: Seq<u8>) -> EntryModel {
        EntryModel { name: bytes.take(28), inode_id: le32(bytes, 28) }
    }

    open spec fn encode(v: EntryModel) -> Seq<u8> {
        v.name + le32_bytes(v.inode_id)
    }

    fn size() -> (r: usize) {
        DIRENT_SZ
    }

    fn from_bytes(bytes: &[u8]) -> (r: DirEntry) {
        let mut name: [u8; 28] = [0u8; 28];
        let mut i: usize = 0;
        while i < 28
            invariant
                i <= 28,
                bytes@.len() == 32,
                forall|k: int| 0 <= k < i ==> #[trigger] name@[k] == bytes@[k],
            decreases 28 - i,
        {
            name[i] = bytes[i];
            i += 1;
        }
        assert(name@ =~= bytes@.take(28));
        DirEntry { name, inode_id: get_u32(bytes, 28) }
    }

    fn to_bytes(&self) -> (r: Vec<u8>) {
        let mut v: Vec<u8> = Vec::new();
        let mut i: usize = 0;
        while i < 28
            invariant
                i <= 28,
                v@ == self.name@.take(i as int),
            decreases 28 - i,
        {
            v.push(self.name[i]);
            i += 1;
            assert(v@ =~= self.name@.take(i as int));
        }
        push_u32(&mut v, self.inode_id);
        proof {
            assert(self.name@.take(28) =~= self.name@);
            lemma_le32_of_bytes(self.inode_id);
            assert(v@.subrange(28, 32) =~= le32_bytes(self.inode_id));
            lemma_le32_subrange(v@, 28, 32, 0);
            assert(v@.take(28) =~= self.name@);
        }
        v
    }
}

} // verus!
