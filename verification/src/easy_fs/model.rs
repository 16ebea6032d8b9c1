//! What a disk inode means: which blocks belong to it, and in which of them each
//! byte of its file lies.
use super::block_dev::{full_blocks, BLOCK_SZ};
use super::bytes::{le32, le32_bytes, lemma_le32_of_bytes, lemma_le32_subrange, splice, word};
use super::layout::DiskInodeType;
use vstd::prelude::*;

verus! {

/// The max number of direct blocks.
pub const INODE_DIRECT_COUNT: usize = 28;

/// The max number of blocks under one index block.
pub const INODE_INDIRECT1_COUNT: usize = BLOCK_SZ / 4;

/// The max number of blocks under the doubly indirect block.
pub const INODE_INDIRECT2_COUNT: usize = 16384;

/// The upper bound of direct block indexes.
pub const DIRECT_BOUND: usize = INODE_DIRECT_COUNT;

/// The upper bound of singly indirect block indexes.
pub const INDIRECT1_BOUND: usize = DIRECT_BOUND + INODE_INDIRECT1_COUNT;

/// The upper bound of doubly indirect block indexes.
pub const INDIRECT2_BOUND: usize = INDIRECT1_BOUND + INODE_INDIRECT2_COUNT;

/// The number of blocks that `size` bytes fill.
pub open spec fn data_blocks_of(size: int) -> int {
    (size + BLOCK_SZ - 1) / (BLOCK_SZ as int)
}

/// The number of blocks, index blocks included, of a file with `n` blocks of data.
pub open spec fn total_blocks_of(n: int) -> int {
    n + (if n > INODE_DIRECT_COUNT {
        1int
    } else {
        0
    }) + (if n > INDIRECT1_BOUND {
        1 + (n - INDIRECT1_BOUND + INODE_INDIRECT1_COUNT - 1) / (INODE_INDIRECT1_COUNT as int)
    } else {
        0
    })
}

/// Where the `i`-th block of data stands among all the blocks of a file, when these
/// are listed in the order in which a growing file takes them.
pub open spec fn pos_of(i: int) -> int {
    if i < INODE_DIRECT_COUNT {
        i
    } else if i < INDIRECT1_BOUND {
        i + 1
    } else {
        159 + (i - INDIRECT1_BOUND) / 128 * 129 + (i - INDIRECT1_BOUND) % 128
    }
}

/// The block at position `p` of that list holds block numbers, not data.
pub open spec fn is_index_pos(p: int) -> bool {
    p == 28 || p == 157 || (p >= 158 && (p - 158) % 129 == 0)
}

/// The `j`-th block number in index block `b`.
pub open spec fn entry(d: Seq<Seq<u8>>, b: u32, j: int) -> u32 {
    word(d[b as int], j)
}

/// The blocks after the `j`-th block number in index block `b` became `v`.
pub open spec fn set_entry(d: Seq<Seq<u8>>, b: u32, j: int, v: u32) -> Seq<Seq<u8>> {
    d.update(b as int, splice(d[b as int], 4 * j, le32_bytes(v)))
}

/// What a disk inode holds.
#[verifier::ext_equal]
pub struct InodeModel {
    pub size: u32,
    pub direct: Seq<u32>,
    pub indirect1: u32,
    pub indirect2: u32,
    pub kind: DiskInodeType,
    pub nlink: u32,
}

impl InodeModel {
    /// The number of blocks of data.
    pub open spec fn blocks(self) -> int {
        data_blocks_of(self.size as int)
    }

    /// The block that holds the `i`-th block of data.
    pub open spec fn block_of(self, d: Seq<Seq<u8>>, i: int) -> u32 {
        if i < INODE_DIRECT_COUNT {
            self.direct[i]
        } else if i < INDIRECT1_BOUND {
            entry(d, self.indirect1, i - INODE_DIRECT_COUNT)
        } else {
            entry(
                d,
                entry(d, self.indirect2, (i - INDIRECT1_BOUND) / 128),
                (i - INDIRECT1_BOUND) % 128,
            )
        }
    }

    /// The `p`-th block of the file, index blocks included.
    pub open spec fn owned_at(self, d: Seq<Seq<u8>>, p: int) -> u32 {
        if p < 28 {
            self.direct[p]
        } else if p == 28 {
            self.indirect1
        } else if p < 157 {
            entry(d, self.indirect1, p - 29)
        } else if p == 157 {
            self.indirect2
        } else if (p - 158) % 129 == 0 {
            entry(d, self.indirect2, (p - 158) / 129)
        } else {
            entry(d, entry(d, self.indirect2, (p - 158) / 129), (p - 158) % 129 - 1)
        }
    }

    /// The blocks of the file, in the order in which a growing file takes them.
    pub open spec fn owned(self, d: Seq<Seq<u8>>) -> Seq<u32> {
        Seq::new(total_blocks_of(self.blocks()) as nat, |p: int| self.owned_at(d, p))
    }

    /// The file is not too large, and its blocks exist and are all different.
    pub open spec fn wf(self, d: Seq<Seq<u8>>) -> bool {
        &&& self.direct.len() == INODE_DIRECT_COUNT
        &&& self.blocks() <= INDIRECT2_BOUND
        &&& full_blocks(d)
        &&& forall|p: int|
            0 <= p < self.owned(d).len() ==> (#[trigger] self.owned(d)[p] as int) < d.len()
        &&& self.owned(d).no_duplicates()
    }

    /// Byte `k` of the blocks of data.
    pub open spec fn raw_at(self, d: Seq<Seq<u8>>, k: int) -> u8 {
        d[self.block_of(d, k / 512) as int][k % 512]
    }

    /// The bytes of the file.
    pub open spec fn content(self, d: Seq<Seq<u8>>) -> Seq<u8> {
        Seq::new(self.size as nat, |k: int| self.raw_at(d, k))
    }

    /// Past its end the last block of the file holds zero bytes.
    pub open spec fn tail_zero(self, d: Seq<Seq<u8>>) -> bool {
        forall|k: int|
            self.size <= k < 512 * self.blocks() ==> #[trigger] self.raw_at(d, k) == 0
    }
}

/// The first positions of the list are filled as planned.
pub open spec fn filled(m: InodeModel, d: Seq<Seq<u8>>, plan: Seq<u32>, p: int) -> bool {
    forall|q: int| 0 <= q < p ==> #[trigger] m.owned_at(d, q) == plan[q]
}

/// Only index blocks among the first `p` planned blocks may differ, and in those only the
/// entries that stand for one of these blocks.
pub open spec fn same_but_index(
    d0: Seq<Seq<u8>>,
    d: Seq<Seq<u8>>,
    plan: Seq<u32>,
    p: int,
) -> bool {
    &&& d.len() == d0.len()
    &&& full_blocks(d)
    &&& forall|b: int|
        0 <= b < d0.len() && (forall|q: int|
            0 <= q < p && is_index_pos(q) ==> #[trigger] plan[q] != b) ==> #[trigger] d[b] == d0[b]
    &&& forall|q: int, j: int|
        0 <= q < p && is_index_pos(q) && 0 <= j < 128 && child_pos(q, j) >= p
            ==> #[trigger] entry(d, plan[q], j) == entry(d0, plan[q], j)
}

/// The position that the `j`-th block number of the index block at position `px`
/// stands for.
pub open spec fn child_pos(px: int, j: int) -> int {
    if px == 28 {
        29 + j
    } else if px == 157 {
        158 + 129 * j
    } else {
        px + 1 + j
    }
}

/// Positions and block indexes fit together.
pub proof fn lemma_pos(i: int, n: int)
    requires
        0 <= i < n,
    ensures
        0 <= pos_of(i) < total_blocks_of(n),
        !is_index_pos(pos_of(i)),
        i <= pos_of(i),
        i >= 156 ==> (pos_of(i) - 158) / 129 == (i - 156) / 128 && (pos_of(i) - 158) % 129 == (i
            - 156) % 128 + 1,
{
    if i >= 156 {
        let a = (i - 156) / 128;
        let r = (i - 156) % 128;
        assert(pos_of(i) - 158 == a * 129 + r + 1);
        let m = (n - 156 + 127) / 128;
        assert(a < m);
    }
}

/// Different blocks of data stand at different positions.
pub proof fn lemma_pos_injective(i: int, j: int)
    requires
        0 <= i,
        0 <= j,
        pos_of(i) == pos_of(j),
    ensures
        i == j,
{
    lemma_pos(i, i + 1);
    lemma_pos(j, j + 1);
}

/// A block of data is the block at its position.
pub proof fn lemma_block_of(m: InodeModel, d: Seq<Seq<u8>>, i: int)
    requires
        0 <= i,
    ensures
        m.block_of(d, i) == m.owned_at(d, pos_of(i)),
{
    lemma_pos(i, i + 1);
}

/// More data never takes fewer blocks.
pub proof fn lemma_total_monotonic(n: int, k: int)
    requires
        0 <= n <= k,
    ensures
        total_blocks_of(n) <= total_blocks_of(k),
        n <= total_blocks_of(n),
        total_blocks_of(n) <= 2 * n + 2,
{
}

/// A block number that was written is read back, and the others stay.
pub proof fn lemma_set_entry(d: Seq<Seq<u8>>, b: u32, j: int, v: u32)
    requires
        full_blocks(d),
        (b as int) < d.len(),
        0 <= j < 128,
    ensures
        full_blocks(set_entry(d, b, j, v)),
        entry(set_entry(d, b, j, v), b, j) == v,
        forall|c: u32, k: int|
            (c as int) < d.len() && 0 <= k < 128 && (c != b || k != j) ==> #[trigger] entry(
                set_entry(d, b, j, v),
                c,
                k,
            ) == entry(d, c, k),
{
    let s = le32_bytes(v);
    let b0 = d[b as int];
    let b1 = splice(b0, 4 * j, s);
    lemma_le32_of_bytes(v);
    assert(b1.subrange(4 * j, 4 * j + 4) =~= s);
    lemma_le32_subrange(b1, 4 * j, 4 * j + 4, 0);
    assert(le32(b1, 4 * j) == v);
    assert forall|c: u32, k: int|
        (c as int) < d.len() && 0 <= k < 128 && (c != b || k != j) implies #[trigger] entry(
        set_entry(d, b, j, v),
        c,
        k,
    ) == entry(d, c, k) by {
        if c == b {
            assert(b1[4 * k] == b0[4 * k]);
            assert(b1[4 * k + 1] == b0[4 * k + 1]);
            assert(b1[4 * k + 2] == b0[4 * k + 2]);
            assert(b1[4 * k + 3] == b0[4 * k + 3]);
        }
    }
}

/// Writing the number of the next block into the index block that is to hold it
/// fills the next position, and disturbs none before it.
pub proof fn lemma_fill_entry(
    m: InodeModel,
    d0: Seq<Seq<u8>>,
    d: Seq<Seq<u8>>,
    plan: Seq<u32>,
    p: int,
    px: int,
    j: int,
)
    requires
        filled(m, d, plan, p),
        same_but_index(d0, d, plan, p),
        plan.no_duplicates(),
        0 <= px < p < plan.len(),
        is_index_pos(px),
        0 <= j < 128,
        child_pos(px, j) == p,
        forall|q: int| 0 <= q < plan.len() ==> (#[trigger] plan[q] as int) < d.len(),
    ensures
        filled(m, set_entry(d, plan[px], j, plan[p]), plan, p + 1),
        same_but_index(d0, set_entry(d, plan[px], j, plan[p]), plan, p + 1),
{
    let b = plan[px];
    let v = plan[p];
    let d2 = set_entry(d, b, j, v);
    lemma_set_entry(d, b, j, v);
    assert(m.owned_at(d, px) == b);
    assert forall|q: int| 0 <= q < p + 1 implies #[trigger] m.owned_at(d2, q) == plan[q] by {
        if q < p {
            assert(m.owned_at(d, q) == plan[q]);
        }
        if 29 <= q < 157 {
            assert(m.owned_at(d, 28) == plan[28]);
            if px != 28 {
                assert(plan[px] != plan[28]);
            }
        } else if q >= 158 {
            let a = (q - 158) / 129;
            let r = (q - 158) % 129;
            let ps = 158 + 129 * a;
            assert(m.owned_at(d, 157) == plan[157]);
            if px != 157 {
                assert(plan[px] != plan[157]);
            }
            if r == 0 {
                assert(q == ps);
                if px == 157 && q < p {
                    assert(a != j);
                }
            } else {
                assert(ps < q);
                assert(ps < p);
                assert((ps - 158) % 129 == 0);
                assert((ps - 158) / 129 == a);
                assert(m.owned_at(d, ps) == plan[ps]);
                if px == 157 {
                    assert(a != j);
                    assert(plan[px] != plan[ps]);
                } else if px != ps {
                    assert(plan[px] != plan[ps]);
                } else if q < p {
                    assert(r - 1 != j);
                }
            }
        }
    }
    assert forall|c: int|
        0 <= c < d0.len() && (forall|q: int|
            0 <= q < p + 1 && is_index_pos(q) ==> #[trigger] plan[q] != c) implies #[trigger] d2[c]
        == d0[c] by {
        assert(plan[px] != c);
        assert(d[c] == d0[c]);
    }
    assert forall|q: int, k: int|
        0 <= q < p + 1 && is_index_pos(q) && 0 <= k < 128 && child_pos(q, k) >= p
            + 1 implies #[trigger] entry(d2, plan[q], k) == entry(d0, plan[q], k) by {
        if q == px {
            assert(k != j);
        } else {
            assert(plan[q] != plan[px]);
        }
        assert(entry(d2, plan[q], k) == entry(d, plan[q], k));
        if q < p {
            assert(entry(d, plan[q], k) == entry(d0, plan[q], k));
        } else {
            assert forall|x: int| 0 <= x < p && is_index_pos(x) implies #[trigger] plan[x]
                != plan[p] by {}
            assert(d[plan[p] as int] == d0[plan[p] as int]);
        }
    }
}

} // verus!
