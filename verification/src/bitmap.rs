//! Allocation bitmaps: one block of bits, a set bit meaning "in use".
use vstd::prelude::*;
use crate::block_cache::BlockCacheManager;
use crate::block_dev::BlockDevice;

use crate::config::BLOCK_SIZE;

verus! {

/// Bits in one bitmap block.
pub const BLOCK_BITS: usize = 32768;

/// Whether bit `k` of the byte `b` is set.
pub open spec fn byte_bit(b: u8, k: u8) -> bool {
    (b >> k) & 1u8 == 1u8
}

/// Whether bit `i` of the bitmap `block` is set: bit `i % 8` of byte `i / 8`.
pub open spec fn bit(block: Seq<u8>, i: int) -> bool {
    byte_bit(block[i / 8], (i % 8) as u8)
}

/// Number of set bits among the first `n` of `block`.
pub open spec fn count_set(block: Seq<u8>, n: nat) -> nat
    decreases n,
{
    if n == 0 {
        0
    } else {
        count_set(block, (n - 1) as nat) + if bit(block, n - 1) {
            1nat
        } else {
            0nat
        }
    }
}

/// Every bit of the bitmap block is set.
pub open spec fn full(block: Seq<u8>) -> bool {
    forall|j: int| 0 <= j < BLOCK_BITS ==> bit(block, j)
}

/// Number of clear bits in a bitmap block.
pub open spec fn count_free(block: Seq<u8>) -> nat {
    (BLOCK_BITS - count_set(block, BLOCK_BITS as nat)) as nat
}

/// `after` is `before` with the bits from `lo` up to `hi` set.
pub open spec fn bits_set(before: Seq<u8>, after: Seq<u8>, lo: int, hi: int) -> bool {
    &&& after.len() == before.len()
    &&& forall|j: int|
        0 <= j < before.len() * 8 ==> #[trigger] bit(after, j) == (lo <= j < hi || bit(before, j))
}

/// `after` is `before` with bit `i` cleared.
pub open spec fn bit_cleared(before: Seq<u8>, after: Seq<u8>, i: int) -> bool {
    &&& after.len() == before.len()
    &&& forall|j: int| 0 <= j < before.len() * 8 ==> #[trigger] bit(after, j) == (j != i && bit(before, j))
}

/// Setting bit `k` of a byte sets that bit and leaves the others.
pub proof fn lemma_byte_set(b: u8, k: u8, j: u8)
    requires
        k < 8,
        j < 8,
    ensures
        byte_bit(b | (1u8 << k), j) == (j == k || byte_bit(b, j)),
{
    assert(k < 8 && j < 8 ==> ((((b | (1u8 << k)) >> j) & 1u8 == 1u8) == (j == k || ((b >> j) & 1u8
        == 1u8)))) by (bit_vector);
}

/// Clearing bit `k` of a byte clears that bit and leaves the others.
pub proof fn lemma_byte_clear(b: u8, k: u8, j: u8)
    requires
        k < 8,
        j < 8,
    ensures
        byte_bit(b & !(1u8 << k), j) == (j != k && byte_bit(b, j)),
{
    assert(k < 8 && j < 8 ==> ((((b & !(1u8 << k)) >> j) & 1u8 == 1u8) == (j != k && ((b >> j) & 1u8
        == 1u8)))) by (bit_vector);
}

/// A byte is 255 exactly where every bit of it is set.
pub proof fn lemma_byte_full(b: u8)
    ensures
        b == 0xffu8 <==> forall|k: u8| k < 8 ==> byte_bit(b, k),
{
    if b == 0xffu8 {
        assert forall|k: u8| k < 8 implies byte_bit(b, k) by {
            assert(k < 8 ==> (0xffu8 >> k) & 1u8 == 1u8) by (bit_vector);
        }
    }
    if forall|k: u8| k < 8 ==> byte_bit(b, k) {
        assert(byte_bit(b, 0) && byte_bit(b, 1) && byte_bit(b, 2) && byte_bit(b, 3) && byte_bit(b, 4)
            && byte_bit(b, 5) && byte_bit(b, 6) && byte_bit(b, 7));
        assert(((b >> 0u8) & 1u8 == 1u8) && ((b >> 1u8) & 1u8 == 1u8) && ((b >> 2u8) & 1u8 == 1u8) && ((b
            >> 3u8) & 1u8 == 1u8) && ((b >> 4u8) & 1u8 == 1u8) && ((b >> 5u8) & 1u8 == 1u8) && ((b >> 6u8)
            & 1u8 == 1u8) && ((b >> 7u8) & 1u8 == 1u8) ==> b == 0xffu8) by (bit_vector);
    }
}

/// Changing one byte changes the eight bits of that byte alone.
pub proof fn lemma_bit_update(block: Seq<u8>, idx: int, v: u8, j: int)
    requires
        0 <= idx < block.len(),
        0 <= j < block.len() * 8,
    ensures
        bit(block.update(idx, v), j) == if j / 8 == idx {
            byte_bit(v, (j % 8) as u8)
        } else {
            bit(block, j)
        },
{
}

/// Setting bits raises the count of set bits by the number of those that
/// were clear; here, for one bit.
pub proof fn lemma_count_set_one(before: Seq<u8>, after: Seq<u8>, i: int, n: nat)
    requires
        0 <= i,
        n <= before.len() * 8,
        after.len() == before.len(),
        !bit(before, i),
        forall|j: int| 0 <= j < n ==> #[trigger] bit(after, j) == (j == i || bit(before, j)),
    ensures
        count_set(after, n) == count_set(before, n) + if i < n {
            1nat
        } else {
            0nat
        },
    decreases n,
{
    if n > 0 {
        lemma_count_set_one(before, after, i, (n - 1) as nat);
        assert(bit(after, n - 1) == (n - 1 == i || bit(before, n - 1)));
    }
}

/// Clearing one set bit lowers the count of set bits by one.
pub proof fn lemma_count_clear_one(before: Seq<u8>, after: Seq<u8>, i: int, n: nat)
    requires
        0 <= i,
        n <= before.len() * 8,
        after.len() == before.len(),
        bit(before, i),
        forall|j: int| 0 <= j < n ==> #[trigger] bit(after, j) == (j != i && bit(before, j)),
    ensures
        count_set(before, n) == count_set(after, n) + if i < n {
            1nat
        } else {
            0nat
        },
    decreases n,
{
    if n > 0 {
        lemma_count_clear_one(before, after, i, (n - 1) as nat);
        assert(bit(after, n - 1) == (n - 1 != i && bit(before, n - 1)));
    }
}

/// No more bits are set than there are.
pub proof fn lemma_count_bound(block: Seq<u8>, n: nat)
    ensures
        count_set(block, n) <= n,
    decreases n,
{
    if n > 0 {
        lemma_count_bound(block, (n - 1) as nat);
    }
}

/// Where all of the first `n` bits are set, the count is `n`; where one is
/// clear, it is less.
pub proof fn lemma_count_full(block: Seq<u8>, n: nat)
    ensures
        (forall|j: int| 0 <= j < n ==> bit(block, j)) <==> count_set(block, n) == n,
    decreases n,
{
    if n > 0 {
        lemma_count_full(block, (n - 1) as nat);
        lemma_count_bound(block, (n - 1) as nat);
        if count_set(block, n) == n {
            assert(bit(block, n - 1));
            assert forall|j: int| 0 <= j < n implies bit(block, j) by {
                if j < n - 1 {
                }
            }
        }
    }
}

/// A bitmap: the block that holds the bits, and the number that its first
/// bit stands for.
#[derive(Clone, Copy, Debug)]
pub struct Bitmap {
    pub block_id: usize,
    pub base: usize,
}

impl Bitmap {
    /// The bitmap in block `block_id` whose first bit stands for `base`.
    pub fn new(block_id: usize, base: usize) -> (bitmap: Bitmap)
        ensures
            bitmap.block_id == block_id,
            bitmap.base == base,
    {
        Bitmap { block_id, base }
    }

    /// Takes the lowest clear bit: sets it and returns its number. Returns
    /// `None`, and changes nothing, where every bit is set.
    pub fn allocate<D: BlockDevice>(&self, cache: &mut BlockCacheManager<D>) -> (r: Option<usize>)
        requires
            old(cache).ready(),
            self.block_id < old(cache).view().len(),
            self.base + BLOCK_BITS <= usize::MAX,
        ensures
            final(cache).ready(),
            final(cache).max_cache == old(cache).max_cache,
            final(cache).view().len() == old(cache).view().len(),
            forall|b: int|
                0 <= b < old(cache).view().len() && b != self.block_id ==> #[trigger] final(cache).view()[b]
                    == old(cache).view()[b],
            match r {
                None => {
                    &&& full(old(cache).view()[self.block_id as int])
                    &&& final(cache).view() == old(cache).view()
                },
                Some(id) => {
                    let i = id - self.base;
                    &&& 0 <= i < BLOCK_BITS
                    &&& !bit(old(cache).view()[self.block_id as int], i)
                    &&& forall|j: int| 0 <= j < i ==> bit(old(cache).view()[self.block_id as int], j)
                    &&& bits_set(
                        old(cache).view()[self.block_id as int],
                        final(cache).view()[self.block_id as int],
                        i,
                        i + 1,
                    )
                },
            },
    {
        proof {
            cache.model().lemma_view_len();
        }
        let block = cache.read_bytes(self.block_id, 0, BLOCK_SIZE);
        let ghost before = old(cache).view()[self.block_id as int];
        assert(block@ =~= before);
        let mut idx: usize = 0;
        while idx < BLOCK_SIZE && block[idx] == 0xff
            invariant
                idx <= BLOCK_SIZE,
                block@.len() == BLOCK_SIZE,
                forall|m: int| 0 <= m < idx ==> block@[m] == 0xffu8,
            decreases BLOCK_SIZE - idx,
        {
            idx += 1;
        }
        if idx == BLOCK_SIZE {
            proof {
                assert forall|j: int| 0 <= j < BLOCK_BITS implies bit(before, j) by {
                    lemma_byte_full(before[j / 8]);
                }
            }
            return None;
        }
        let byte = block[idx];
        let mut k: u8 = 0;
        while k < 8 && (byte >> k) & 1u8 != 0u8
            invariant
                k <= 8,
                forall|j: u8| j < k ==> byte_bit(byte, j),
            decreases 8 - k,
        {
            assert(byte_bit(byte, k)) by {
                assert((byte >> k) & 1u8 != 0u8 ==> (byte >> k) & 1u8 == 1u8) by (bit_vector);
            }
            k += 1;
        }
        proof {
            if k == 8 {
                lemma_byte_full(byte);
            }
        }
        let fresh = byte | (1u8 << k);
        let one: [u8; 1] = [fresh];
        cache.write_bytes(self.block_id, idx, one.as_slice());
        let i = idx * 8 + k as usize;
        proof {
            let after = cache.view()[self.block_id as int];
            assert(after =~= before.update(idx as int, fresh));
            assert(!byte_bit(byte, k)) by {
                assert((byte >> k) & 1u8 == 0u8 ==> !((byte >> k) & 1u8 == 1u8)) by (bit_vector);
            }
            assert forall|j: int| 0 <= j < i implies bit(before, j) by {
                if j / 8 < idx {
                    lemma_byte_full(before[j / 8]);
                } else {
                    assert(byte_bit(byte, (j % 8) as u8));
                }
            }
            assert forall|j: int| 0 <= j < before.len() * 8 implies #[trigger] bit(after, j) == (i <= j < i + 1
                || bit(before, j)) by {
                lemma_bit_update(before, idx as int, fresh, j);
                if j / 8 == idx {
                    lemma_byte_set(byte, k, (j % 8) as u8);
                }
            }
        }
        Some(self.base + i)
    }

    /// Clears the bit for `id` and tells whether it was set. A bit that was
    /// clear stays so.
    pub fn dealloc<D: BlockDevice>(&self, cache: &mut BlockCacheManager<D>, id: usize) -> (was_set: bool)
        requires
            old(cache).ready(),
            self.block_id < old(cache).view().len(),
            self.base <= id < self.base + BLOCK_BITS,
        ensures
            final(cache).ready(),
            final(cache).max_cache == old(cache).max_cache,
            final(cache).view().len() == old(cache).view().len(),
            forall|b: int|
                0 <= b < old(cache).view().len() && b != self.block_id ==> #[trigger] final(cache).view()[b]
                    == old(cache).view()[b],
            was_set == bit(old(cache).view()[self.block_id as int], id - self.base),
            was_set ==> bit_cleared(
                old(cache).view()[self.block_id as int],
                final(cache).view()[self.block_id as int],
                id - self.base,
            ),
            !was_set ==> final(cache).view() == old(cache).view(),
    {
        proof {
            cache.model().lemma_view_len();
        }
        let i = id - self.base;
        let idx = i / 8;
        let k = (i % 8) as u8;
        let ghost before = old(cache).view()[self.block_id as int];
        let cur = cache.read_bytes(self.block_id, idx, 1);
        let byte = cur[0];
        assert(byte == before[idx as int]);
        if (byte >> k) & 1u8 == 0u8 {
            assert(!byte_bit(byte, k)) by {
                assert((byte >> k) & 1u8 == 0u8 ==> !((byte >> k) & 1u8 == 1u8)) by (bit_vector);
            }
            return false;
        }
        assert(byte_bit(byte, k)) by {
            assert((byte >> k) & 1u8 != 0u8 ==> (byte >> k) & 1u8 == 1u8) by (bit_vector);
        }
        let fresh = byte & !(1u8 << k);
        let one: [u8; 1] = [fresh];
        cache.write_bytes(self.block_id, idx, one.as_slice());
        proof {
            let after = cache.view()[self.block_id as int];
            assert(after =~= before.update(idx as int, fresh));
            assert forall|j: int| 0 <= j < before.len() * 8 implies #[trigger] bit(after, j) == (j != i && bit(
                before,
                j,
            )) by {
                lemma_bit_update(before, idx as int, fresh, j);
                if j / 8 == idx {
                    lemma_byte_clear(byte, k, (j % 8) as u8);
                }
            }
        }
        true
    }

    /// Sets the bits for the numbers from `from` up to `to`.
    pub fn range_alloc<D: BlockDevice>(&self, cache: &mut BlockCacheManager<D>, from: usize, to: usize)
        requires
            old(cache).ready(),
            self.block_id < old(cache).view().len(),
            self.base <= from <= to <= self.base + BLOCK_BITS,
        ensures
            final(cache).ready(),
            final(cache).max_cache == old(cache).max_cache,
            final(cache).view().len() == old(cache).view().len(),
            forall|b: int|
                0 <= b < old(cache).view().len() && b != self.block_id ==> #[trigger] final(cache).view()[b]
                    == old(cache).view()[b],
            bits_set(
                old(cache).view()[self.block_id as int],
                final(cache).view()[self.block_id as int],
                from - self.base,
                to - self.base,
            ),
    {
        proof {
            cache.model().lemma_view_len();
        }
        let ghost before = old(cache).view()[self.block_id as int];
        let mut block = cache.read_bytes(self.block_id, 0, BLOCK_SIZE);
        assert(block@ =~= before);
        let lo = from - self.base;
        let hi = to - self.base;
        let mut i: usize = lo;
        while i < hi
            invariant
                lo <= i <= hi <= BLOCK_BITS,
                block@.len() == BLOCK_SIZE,
                before.len() == BLOCK_SIZE,
                forall|j: int| 0 <= j < BLOCK_BITS ==> #[trigger] bit(block@, j) == (lo <= j < i || bit(before, j)),
            decreases hi - i,
        {
            let idx = i / 8;
            let k = (i % 8) as u8;
            let byte = block[idx];
            let ghost prev = block@;
            block[idx] = byte | (1u8 << k);
            proof {
                assert forall|j: int| 0 <= j < BLOCK_BITS implies #[trigger] bit(block@, j) == (lo <= j < i + 1
                    || bit(before, j)) by {
                    lemma_bit_update(prev, idx as int, byte | (1u8 << k), j);
                    if j / 8 == idx {
                        lemma_byte_set(byte, k, (j % 8) as u8);
                    }
                    assert(bit(prev, j) == (lo <= j < i || bit(before, j)));
                }
            }
            i += 1;
        }
        cache.write_bytes(self.block_id, 0, block.as_slice());
        proof {
            let after = cache.view()[self.block_id as int];
            assert(after =~= block@);
        }
    }
}

} // verus!
