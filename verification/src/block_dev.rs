//! The device under the file system, and one that lives in memory.
use vstd::prelude::*;
use crate::config::BLOCK_SIZE;
use crate::codec::{zeroed, zeros, put_bytes, get_bytes};

verus! {

/// A device that stores a fixed number of blocks of `BLOCK_SIZE` bytes.
///
/// The file system is proved against what this trait promises; of a device
/// written elsewhere it holds as far as that device keeps the promises.
pub trait BlockDevice {
    /// What the device holds: one byte sequence per block.
    spec fn blocks(&self) -> Seq<Seq<u8>>;

    /// What the device needs to hold of itself in order to work.
    spec fn inv(&self) -> bool;

    /// Every block of a valid device has `BLOCK_SIZE` bytes.
    proof fn lemma_block_size(&self)
        requires
            self.inv(),
        ensures
            forall|i: int| 0 <= i < self.blocks().len() ==> (#[trigger] self.blocks()[i]).len() == BLOCK_SIZE,
    ;

    /// Fills `buf` with block `block_id`.
    fn read_block(&self, block_id: usize, buf: &mut Vec<u8>)
        requires
            self.inv(),
            block_id < self.blocks().len(),
            old(buf)@.len() == BLOCK_SIZE,
        ensures
            final(buf)@ == self.blocks()[block_id as int],
    ;

    /// Stores `buf` as block `block_id`.
    fn write_block(&mut self, block_id: usize, buf: &[u8])
        requires
            old(self).inv(),
            block_id < old(self).blocks().len(),
            buf@.len() == BLOCK_SIZE,
        ensures
            final(self).inv(),
            final(self).blocks() == old(self).blocks().update(block_id as int, buf@),
    ;

    /// Number of blocks.
    fn block_num(&self) -> (n: usize)
        requires
            self.inv(),
        ensures
            n == self.blocks().len(),
    ;

    /// Bytes per block.
    fn block_size(&self) -> (n: usize)
        ensures
            n == BLOCK_SIZE,
    ;
}

/// A block device kept in memory.
pub struct RamDisk {
    pub data: Vec<Vec<u8>>,
}

impl RamDisk {
    /// A device of `num_blocks` blocks, all zero.
    pub fn new(num_blocks: usize) -> (disk: RamDisk)
        ensures
            disk.inv(),
            disk.blocks().len() == num_blocks,
            forall|i: int| 0 <= i < num_blocks ==> #[trigger] disk.blocks()[i] == zeros(BLOCK_SIZE as nat),
    {
        let mut data: Vec<Vec<u8>> = Vec::new();
        let mut i: usize = 0;
        while i < num_blocks
            invariant
                i <= num_blocks,
                data@.len() == i,
                forall|j: int| 0 <= j < i ==> (#[trigger] data@[j])@ == zeros(BLOCK_SIZE as nat),
            decreases num_blocks - i,
        {
            data.push(zeroed(BLOCK_SIZE));
            i += 1;
        }
        RamDisk { data }
    }

    /// A device that holds `bytes`, cut into blocks; a last block that
    /// `bytes` does not fill is left out.
    pub fn from_bytes(bytes: &[u8]) -> (disk: RamDisk)
        ensures
            disk.inv(),
            disk.blocks().len() == bytes@.len() / BLOCK_SIZE as nat,
            forall|i: int| 0 <= i < disk.blocks().len() ==> #[trigger] disk.blocks()[i]
                == bytes@.subrange(i * BLOCK_SIZE as int, (i + 1) * BLOCK_SIZE as int),
    {
        let total = bytes.len();
        let n = total / BLOCK_SIZE;
        let mut data: Vec<Vec<u8>> = Vec::new();
        let mut i: usize = 0;
        while i < n
            invariant
                total == bytes@.len(),
                n == bytes@.len() / BLOCK_SIZE as nat,
                i <= n,
                data@.len() == i,
                forall|j: int| 0 <= j < i ==> (#[trigger] data@[j])@ == bytes@.subrange(
                        j * BLOCK_SIZE as int, (j + 1) * BLOCK_SIZE as int),
            decreases n - i,
        {
            data.push(get_bytes(bytes, i * BLOCK_SIZE, BLOCK_SIZE));
            i += 1;
        }
        RamDisk { data }
    }
}

impl BlockDevice for RamDisk {
    open spec fn blocks(&self) -> Seq<Seq<u8>> {
        Seq::new(self.data@.len(), |i: int| self.data@[i]@)
    }

    open spec fn inv(&self) -> bool {
        forall|i: int| 0 <= i < self.data@.len() ==> (#[trigger] self.data@[i])@.len() == BLOCK_SIZE
    }

    proof fn lemma_block_size(&self) {
    }

    fn read_block(&self, block_id: usize, buf: &mut Vec<u8>) {
        put_bytes(buf, 0, self.data[block_id].as_slice());
        assert(buf@ =~= self.blocks()[block_id as int]);
    }

    fn write_block(&mut self, block_id: usize, buf: &[u8]) {
        let mut block = zeroed(BLOCK_SIZE);
        put_bytes(&mut block, 0, buf);
        assert(block@ =~= buf@);
        self.data[block_id] = block;
        assert(self.blocks() =~= old(self).blocks().update(block_id as int, buf@));
    }

    fn block_num(&self) -> (n: usize) {
        self.data.len()
    }

    fn block_size(&self) -> (n: usize) {
        BLOCK_SIZE
    }
}

} // verus!
