//! Bitmaps that lie on the disk and record what is allocated.
use super::block_dev::{full_blocks, BlockDevice, BLOCK_SZ};
use super::bytes::{
    le64, le64_bytes, lemma_le32_subrange, lemma_le64_of_bytes, lemma_splice_disjoint,
    lemma_splice_same, splice,
};
use super::store::BlockStore;
use vstd::prelude::*;

verus! {

/// Number of bits in a block.
pub const BLOCK_BITS: usize = BLOCK_SZ * 8;

/// A bitmap: which blocks of the disk it takes.
pub struct Bitmap {
    pub start_block_id: usize,
    pub blocks: usize,
}

/// Bit `i` of a word.
pub open spec fn word_bit(w: u64, i: int) -> bool {
    (w >> (i as u64)) & 1 == 1
}

/// The word at position `q` of block `b`.
pub open spec fn word64(d: Seq<Seq<u8>>, b: int, q: int) -> u64 {
    le64(d[b], 8 * q)
}

/// Bit `k` of the bitmap that starts at block `start`.
pub open spec fn bit(d: Seq<Seq<u8>>, start: int, k: int) -> bool {
    word_bit(word64(d, start + k / 4096, (k % 4096) / 64), k % 64)
}

/// The blocks after the word at position `q` of block `b` became `w`.
pub open spec fn set_word64(d: Seq<Seq<u8>>, b: int, q: int, w: u64) -> Seq<Seq<u8>> {
    d.update(b, splice(d[b], 8 * q, le64_bytes(w)))
}

/// The word with bit `i` set or cleared.
pub open spec fn word_with(w: u64, i: int, v: bool) -> u64 {
    if v {
        w | (1u64 << (i as u64))
    } else {
        w & !(1u64 << (i as u64))
    }
}

/// The blocks after bit `k` of the bitmap that starts at block `start` became `v`.
pub open spec fn with_bit(d: Seq<Seq<u8>>, start: int, k: int, v: bool) -> Seq<Seq<u8>> {
    set_word64(
        d,
        start + k / 4096,
        (k % 4096) / 64,
        word_with(word64(d, start + k / 4096, (k % 4096) / 64), k % 64, v),
    )
}

/// Setting or clearing a bit of a word changes that bit alone.
pub proof fn lemma_word_with(w: u64, i: int, v: bool, j: int)
    requires
        0 <= i < 64,
        0 <= j < 64,
    ensures
        word_bit(word_with(w, i, v), j) == if i == j {
            v
        } else {
            word_bit(w, j)
        },
{
    let a = i as u64;
    let b = j as u64;
    assert(((w | (1u64 << a)) >> b) & 1 == if a == b {
        1
    } else {
        (w >> b) & 1
    }) by (bit_vector)
        requires
            a < 64,
            b < 64,
    ;
    assert(((w & !(1u64 << a)) >> b) & 1 == if a == b {
        0
    } else {
        (w >> b) & 1
    }) by (bit_vector)
        requires
            a < 64,
            b < 64,
    ;
}

/// A word that was written is read back, and the others stay.
pub proof fn lemma_set_word64(d: Seq<Seq<u8>>, b: int, q: int, w: u64)
    requires
        full_blocks(d),
        0 <= b < d.len(),
        0 <= q < 64,
    ensures
        full_blocks(set_word64(d, b, q, w)),
        word64(set_word64(d, b, q, w), b, q) == w,
        forall|c: int, r: int|
            0 <= c < d.len() && 0 <= r < 64 && (c != b || r != q) ==> #[trigger] word64(
                set_word64(d, b, q, w),
                c,
                r,
            ) == word64(d, c, r),
{
    let d2 = set_word64(d, b, q, w);
    let s = le64_bytes(w);
    lemma_le64_of_bytes(w);
    lemma_splice_same(d[b], 8 * q, s);
    let x = d2[b].subrange(8 * q, 8 * q + 8);
    assert(x == s);
    lemma_le32_subrange(d2[b], 8 * q, 8 * q + 8, 0);
    lemma_le32_subrange(d2[b], 8 * q, 8 * q + 8, 4);
    assert forall|c: int, r: int|
        0 <= c < d.len() && 0 <= r < 64 && (c != b || r != q) implies #[trigger] word64(d2, c, r)
        == word64(d, c, r) by {
        if c == b {
            lemma_splice_disjoint(d[b], 8 * q, s, 8 * r, 8 * r + 8);
            lemma_le32_subrange(d2[b], 8 * r, 8 * r + 8, 0);
            lemma_le32_subrange(d2[b], 8 * r, 8 * r + 8, 4);
            lemma_le32_subrange(d[b], 8 * r, 8 * r + 8, 0);
            lemma_le32_subrange(d[b], 8 * r, 8 * r + 8, 4);
        }
    }
}

/// Setting or clearing a bit changes that bit of the bitmap alone, and only the
/// block that holds it.
pub proof fn lemma_with_bit(d: Seq<Seq<u8>>, start: int, k: int, v: bool)
    requires
        full_blocks(d),
        0 <= start,
        0 <= k,
        start + k / 4096 < d.len(),
    ensures
        full_blocks(with_bit(d, start, k, v)),
        with_bit(d, start, k, v).len() == d.len(),
        forall|j: int|
            0 <= j && start + j / 4096 < d.len() ==> #[trigger] bit(
                with_bit(d, start, k, v),
                start,
                j,
            ) == if j == k {
                v
            } else {
                bit(d, start, j)
            },
        forall|b: int|
            0 <= b < d.len() && b != start + k / 4096 ==> #[trigger] with_bit(d, start, k, v)[b]
                == d[b],
{
    let d2 = with_bit(d, start, k, v);
    let b = start + k / 4096;
    let q = (k % 4096) / 64;
    let w = word64(d, b, q);
    lemma_set_word64(d, b, q, word_with(w, k % 64, v));
    assert forall|j: int| 0 <= j && start + j / 4096 < d.len() implies #[trigger] bit(d2, start, j)
        == (if j == k {
        v
    } else {
        bit(d, start, j)
    }) by {
        let c = start + j / 4096;
        let r = (j % 4096) / 64;
        if c == b && r == q {
            lemma_word_with(w, k % 64, v, j % 64);
            if k % 64 == j % 64 {
                assert(j == k);
            }
        }
    }
}

/// Decompose bits into (block_pos, bits64_pos, inner_pos).
pub fn decomposition(bit: usize) -> (r: (usize, usize, usize))
    ensures
        r.0 == bit / BLOCK_BITS,
        r.1 == (bit % BLOCK_BITS) / 64,
        r.2 == bit % 64,
        r.1 < 64,
        r.2 < 64,
        r.0 * BLOCK_BITS + r.1 * 64 + r.2 == bit,
{
    let block_pos: usize = bit / BLOCK_BITS;
    let rest: usize = bit % BLOCK_BITS;
    (block_pos, rest / 64, rest % 64)
}

impl Bitmap {
    /// The blocks of the bitmap are blocks of the disk.
    pub open spec fn wf(&self, d: Seq<Seq<u8>>) -> bool {
        &&& self.start_block_id + self.blocks <= d.len()
        &&& self.start_block_id + self.blocks <= usize::MAX
        &&& self.blocks * BLOCK_BITS <= usize::MAX
    }

    /// Bit `k` is set.
    pub open spec fn is_set(&self, d: Seq<Seq<u8>>, k: int) -> bool {
        bit(d, self.start_block_id as int, k)
    }

    /// A new bitmap from start block id and number of blocks.
    pub fn new(start_block_id: usize, blocks: usize) -> (r: Self)
        ensures
            r == (Bitmap { start_block_id, blocks }),
    {
        Bitmap { start_block_id, blocks }
    }

    /// Allocate the first free bit.
    pub fn allocate<D: BlockDevice>(&self, block_device: &mut BlockStore<D>) -> (r: Option<usize>)
        requires
            old(block_device).inv(),
            self.wf(old(block_device)@),
        ensures
            final(block_device).inv(),
            match r {
                Some(k) => {
                    &&& k < self.blocks * BLOCK_BITS
                    &&& !self.is_set(old(block_device)@, k as int)
                    &&& forall|j: int|
                        0 <= j < k ==> #[trigger] self.is_set(old(block_device)@, j)
                    &&& final(block_device)@ == with_bit(
                        old(block_device)@,
                        self.start_block_id as int,
                        k as int,
                        true,
                    )
                },
                None => {
                    &&& forall|j: int|
                        0 <= j < self.blocks * BLOCK_BITS ==> #[trigger] self.is_set(
                            old(block_device)@,
                            j,
                        )
                    &&& final(block_device)@ == old(block_device)@
                },
            },
    {
        let ghost d = block_device@;
        let mut block_id: usize = 0;
        while block_id < self.blocks
            invariant
                block_id <= self.blocks,
                block_device.inv(),
                block_device@ == d,
                d == old(block_device)@,
                self.wf(d),
                forall|j: int| 0 <= j < block_id * 4096 ==> #[trigger] self.is_set(d, j),
            decreases self.blocks - block_id,
        {
            let b: usize = block_id + self.start_block_id;
            let mut q: usize = 0;
            while q < 64
                invariant
                    q <= 64,
                    block_id < self.blocks,
                    b == block_id + self.start_block_id,
                    block_device.inv(),
                    block_device@ == d,
                    d == old(block_device)@,
                    self.wf(d),
                    forall|j: int| 0 <= j < block_id * 4096 + q * 64 ==> #[trigger] self.is_set(d, j),
                decreases 64 - q,
            {
                proof {
                    block_device.lemma_full_blocks();
                    lemma_le32_subrange(d[b as int], 8 * q as int, 8 * q + 8, 0);
                    lemma_le32_subrange(d[b as int], 8 * q as int, 8 * q + 8, 4);
                }
                let bits64: u64 = block_device.read::<u64>(b, 8 * q);
                assert(bits64 == word64(d, b as int, q as int));
                let inner_pos: u32 = bits64.trailing_ones();
                proof {
                    vstd::std_specs::bits::axiom_u64_trailing_ones(bits64);
                    let base = block_id * 4096 + q * 64;
                    assert forall|i: int| 0 <= i < inner_pos implies #[trigger] self.is_set(
                        d,
                        base + i,
                    ) by {
                        let k = base + i;
                        assert(k / 4096 == block_id);
                        assert((k % 4096) / 64 == q);
                        assert(k % 64 == i);
                        let iu = i as u64;
                        assert((bits64 >> iu) & 1u64 == 1u64);
                    }
                    assert forall|j: int| 0 <= j < base + inner_pos implies #[trigger] self.is_set(
                        d,
                        j,
                    ) by {
                        if j >= base {
                            assert(self.is_set(d, base + (j - base)));
                        }
                    }
                }
                if bits64 != u64::MAX {
                    // modify cache
                    let new_bits: u64 = bits64 | (1u64 << (inner_pos as u64));
                    let k: usize = block_id * BLOCK_BITS + q * 64 + inner_pos as usize;
                    proof {
                        assert(block_id * 4096 + 4096 <= self.blocks * 4096);
                        assert(k as int / 4096 == block_id);
                        assert((k as int % 4096) / 64 == q);
                        assert(k as int % 64 == inner_pos);
                        assert((k as int % 64) as u64 == inner_pos as u64);
                        let iu = inner_pos as u64;
                        assert((bits64 >> iu) & 1u64 == 0u64);
                        assert(!self.is_set(d, k as int));
                        assert(new_bits == word_with(bits64, k as int % 64, true));
                    }
                    block_device.write::<u64>(b, 8 * q, &new_bits);
                    return Some(k);
                }
                q += 1;
            }
            block_id += 1;
        }
        None
    }

    /// Deallocate a bit.
    pub fn dealloc<D: BlockDevice>(&self, block_device: &mut BlockStore<D>, bit: usize)
        requires
            old(block_device).inv(),
            self.start_block_id + bit / BLOCK_BITS < old(block_device)@.len(),
            self.start_block_id + bit / BLOCK_BITS <= usize::MAX,
            self.is_set(old(block_device)@, bit as int),
        ensures
            final(block_device).inv(),
            final(block_device)@ == with_bit(
                old(block_device)@,
                self.start_block_id as int,
                bit as int,
                false,
            ),
    {
        let ghost d = block_device@;
        let (block_pos, bits64_pos, inner_pos) = decomposition(bit);
        let b: usize = block_pos + self.start_block_id;
        proof {
            block_device.lemma_full_blocks();
            lemma_le32_subrange(d[b as int], 8 * bits64_pos as int, 8 * bits64_pos + 8, 0);
            lemma_le32_subrange(d[b as int], 8 * bits64_pos as int, 8 * bits64_pos + 8, 4);
        }
        let w: u64 = block_device.read::<u64>(b, 8 * bits64_pos);
        let i: u64 = inner_pos as u64;
        proof {
            assert(w == word64(d, b as int, bits64_pos as int));
            assert((w >> i) & 1 == 1);
            assert((w >> i) & 1 == 1 ==> w >= (1u64 << i) && w - (1u64 << i) == (w & !(1u64 << i)))
                by (bit_vector)
                requires
                    i < 64,
            ;
        }
        let new_bits: u64 = w - (1u64 << i);
        block_device.write::<u64>(b, 8 * bits64_pos, &new_bits);
    }

    /// Get the max number of allocatable blocks.
    pub fn maximum(&self) -> (r: usize)
        requires
            self.blocks * BLOCK_BITS <= usize::MAX,
        ensures
            r == self.blocks * BLOCK_BITS,
    {
        self.blocks * BLOCK_BITS
    }
}

} // verus!
