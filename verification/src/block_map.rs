//! The block map of a file: from the number of a block inside the file to
//! the block of the disk that holds it, through the pointers in the inode
//! and in the indirect blocks.
use vstd::prelude::*;
use vstd::bytes::{spec_u32_to_le_bytes, u32_to_le_bytes};
use crate::block_dev::BlockDevice;
use crate::codec::{le32, put_bytes};
use crate::config::{BLOCK_SIZE, EXT2_GOOD_OLD_INODE_SIZE};
use crate::efs::{Ext2FileSystem, FsView};
use crate::error::Ext2Error;
use crate::layout::INODE_BLOCK_MAP_OFFSET;
use crate::sound::{
    byte_at, growing, grown, holder, hop, hop_off, index_of, lemma_blocks_added, lemma_counted_refl,
    lemma_counted_trans, lemma_data_written, lemma_gave_counted, lemma_growing_done,
    lemma_growing_start, lemma_growing_step, lemma_new_off, lemma_on_way, lemma_shared_sound,
    lemma_shrinking_done, lemma_shrinking_start, lemma_shrinking_step, lemma_sound_found,
    lemma_stepped_refl, lemma_stepped_trans, lemma_still_used, lemma_took_counted,
    lemma_written_counted, lemma_written_stepped, level_of, on_path, only_blocks_counted, same_ways,
    shared_hops, shrinking, shrunk, sound, sound_place, stepped, Fresh,
};

verus! {

/// More blocks than a file can have.
pub const MAX_FILE_BLOCKS: usize = 1074791436;

/// Blocks that a file of the greatest size has.
pub const MAX_SIZE_BLOCKS: usize = 1048576;

/// Data blocks that a pointer reaches through `level` indirect blocks.
pub open spec fn span(level: int) -> int {
    if level <= 0 {
        1
    } else if level == 1 {
        1024
    } else if level == 2 {
        1048576
    } else {
        1073741824
    }
}

/// Where block `n` of a file hangs: which of the fifteen pointers of the
/// inode leads to it, through how many indirect blocks, and as which of the
/// blocks that this pointer reaches.
pub open spec fn map_slot(n: int) -> (int, int, int) {
    if n < 12 {
        (n, 0, 0)
    } else if n < 1036 {
        (12, 1, n - 12)
    } else if n < 1049612 {
        (13, 2, n - 1036)
    } else {
        (14, 3, n - 1049612)
    }
}

/// Blocks that a file of `size` bytes has.
pub open spec fn blocks_for(size: int) -> int {
    (size + BLOCK_SIZE - 1) / BLOCK_SIZE as int
}

/// Indirect blocks on the way to the block of index `idx` under a pointer of
/// `level` levels that this block is the first to hang under.
pub open spec fn nodes_added(level: int, idx: int) -> int
    decreases level,
{
    if level <= 0 {
        0
    } else {
        nodes_added(level - 1, idx) + if idx % span(level) == 0 {
            1int
        } else {
            0int
        }
    }
}

/// Blocks that block `n` brings into a file that ends before it: the block
/// itself and every indirect block that it is the first to hang under.
pub open spec fn blocks_added(n: int) -> int {
    1 + nodes_added(map_slot(n).1, map_slot(n).2)
}

/// Blocks, data and indirect, that a file takes in when it grows from
/// `from` to `to` blocks.
pub open spec fn blocks_between(from: int, to: int) -> int
    decreases to - from,
{
    if from >= to {
        0
    } else {
        blocks_between(from, to - 1) + blocks_added(to - 1)
    }
}

/// The block that the pointer at byte `off` of block `block` leads to
/// through `level` indirect blocks, as the one of index `idx` among those
/// it reaches; `None` where a pointer on the way is not one to a block for
/// data.
pub open spec fn descend(v: FsView, block: int, off: int, level: nat, idx: int) -> Option<int>
    decreases level,
{
    let p = le32(v.disk[block], off) as int;
    if !v.is_data(p) {
        None
    } else if level == 0 {
        Some(p)
    } else {
        descend(v, p, 4 * (idx / span(level - 1)), (level - 1) as nat, idx % span(level - 1))
    }
}

/// A place where an inode is stored: a block and a byte inside it.
pub struct InodePos {
    pub block: int,
    pub off: int,
}

/// The disk block that holds block `n` of the file whose inode is stored at
/// `pos`.
pub open spec fn file_block(v: FsView, pos: InodePos, n: int) -> Option<int> {
    let (k, level, idx) = map_slot(n);
    descend(v, pos.block, pos.off + INODE_BLOCK_MAP_OFFSET + 4 * k, level as nat, idx)
}

/// Byte `i` of the file whose inode is stored at `pos`.
pub open spec fn file_byte(v: FsView, pos: InodePos, i: int) -> u8 {
    v.disk[file_block(v, pos, i / BLOCK_SIZE as int).unwrap()][i % BLOCK_SIZE as int]
}

/// The bytes of the file whose inode is stored at `pos`, from `from` up to
/// `to`.
pub open spec fn file_bytes(v: FsView, pos: InodePos, from: int, to: int) -> Seq<u8> {
    Seq::new((to - from) as nat, |i: int| file_byte(v, pos, from + i))
}

/// Every block of the file from `from` up to `to` can be found.
pub open spec fn blocks_mapped(v: FsView, pos: InodePos, from: int, to: int) -> bool {
    forall|n: int| from <= n < to ==> (#[trigger] file_block(v, pos, n)) is Some
}

/// The block behind the last one that `n` bytes from `offset` on touch.
pub open spec fn end_block(offset: int, n: int) -> int {
    if n <= 0 {
        offset / BLOCK_SIZE as int
    } else {
        blocks_for(offset + n)
    }
}

/// Between `v` and `w` nothing changed but blocks for data, bitmaps, and the
/// block pointers of the inode stored at `pos`.
pub open spec fn only_map_changed(v: FsView, w: FsView, pos: InodePos) -> bool {
    &&& forall|b: int|
        0 <= b < v.disk.len() && !v.is_data(b) && !v.is_bitmap(b) && b != pos.block ==> #[trigger] w.disk[b]
            == v.disk[b]
    &&& forall|j: int|
        0 <= j < BLOCK_SIZE && !(pos.off + INODE_BLOCK_MAP_OFFSET <= j < pos.off + INODE_BLOCK_MAP_OFFSET + 60)
            ==> #[trigger] w.disk[pos.block][j] == v.disk[pos.block][j]
}

/// Between `v` and `w` nothing changed but blocks for data.
pub open spec fn only_data_changed(v: FsView, w: FsView) -> bool {
    forall|b: int| 0 <= b < v.disk.len() && !v.is_data(b) ==> #[trigger] w.disk[b] == v.disk[b]
}

/// Nothing has changed between a file system and itself.
pub proof fn lemma_only_map_changed_refl(v: FsView, pos: InodePos)
    ensures
        only_map_changed(v, v, pos),
{
}

/// Taking a block and writing a pointer on the way to a new block, which
/// stands among the pointers of the inode or in a block for data, changes
/// nothing but the block map.
pub proof fn lemma_step_map_changed(
    v: FsView,
    cur: FsView,
    mid: FsView,
    next: FsView,
    pos: InodePos,
    holder: int,
    at: int,
    q: u32,
    n: int,
    s: int,
)
    requires
        v.wf(),
        cur.wf(),
        mid.wf(),
        v.same_geometry(cur),
        only_map_changed(v, cur, pos),
        cur.took_block(mid, q as int),
        next == mid.written(holder, at, spec_u32_to_le_bytes(q)),
        sound_place(v, pos),
        0 <= n < MAX_SIZE_BLOCKS,
        0 <= s <= level_of(n),
        0 <= holder < v.disk.len(),
        at == hop_off(pos, n, s + 1),
        if s == 0 {
            holder == pos.block
        } else {
            v.is_data(holder)
        },
    ensures
        only_map_changed(v, next, pos),
{
    v.lemma_blocks();
    cur.lemma_blocks();
    mid.lemma_blocks();
    v.lemma_same_geometry(cur);
    cur.lemma_same_geometry(mid);
    vstd::bytes::lemma_auto_spec_u32_to_from_le_bytes();
    assert(on_path(n, s + 1));
    crate::sound::lemma_hop_off(pos, n, s + 1);
    assert forall|b: int|
        0 <= b < v.disk.len() && !v.is_data(b) && !v.is_bitmap(b) && b != pos.block implies #[trigger] next.disk[b]
        == v.disk[b] by {
        assert(cur.disk[b] == v.disk[b]);
        assert(mid.disk[b] == cur.disk[b]);
    }
    assert forall|j: int|
        0 <= j < BLOCK_SIZE && !(pos.off + INODE_BLOCK_MAP_OFFSET <= j < pos.off + INODE_BLOCK_MAP_OFFSET
            + 60) implies #[trigger] next.disk[pos.block][j] == v.disk[pos.block][j] by {
        assert(cur.disk[pos.block][j] == v.disk[pos.block][j]);
        assert(mid.disk[pos.block] == cur.disk[pos.block]);
    }
}

/// Giving a data block back changes nothing but the block map.
pub proof fn lemma_gave_map_changed(v: FsView, cur: FsView, next: FsView, pos: InodePos, q: int)
    requires
        v.wf(),
        v.same_geometry(cur),
        only_map_changed(v, cur, pos),
        cur.gave_block(next, q),
        sound_place(v, pos),
    ensures
        only_map_changed(v, next, pos),
{
    v.lemma_same_geometry(cur);
    assert forall|b: int|
        0 <= b < v.disk.len() && !v.is_data(b) && !v.is_bitmap(b) && b != pos.block implies #[trigger] next.disk[b]
        == v.disk[b] by {
        assert(cur.disk[b] == v.disk[b]);
    }
    assert forall|j: int|
        0 <= j < BLOCK_SIZE && !(pos.off + INODE_BLOCK_MAP_OFFSET <= j < pos.off + INODE_BLOCK_MAP_OFFSET
            + 60) implies #[trigger] next.disk[pos.block][j] == v.disk[pos.block][j] by {
        assert(cur.disk[pos.block][j] == v.disk[pos.block][j]);
        assert(next.disk[pos.block] == cur.disk[pos.block]);
    }
}

/// Writing a pointer on the way to a block, which stands among the
/// pointers of the inode or in a block for data, changes nothing but the
/// block map.
pub proof fn lemma_ptr_map_changed(
    v: FsView,
    cur: FsView,
    next: FsView,
    pos: InodePos,
    holder: int,
    at: int,
    q: u32,
    n: int,
    s: int,
)
    requires
        v.wf(),
        cur.wf(),
        v.same_geometry(cur),
        only_map_changed(v, cur, pos),
        next == cur.written(holder, at, spec_u32_to_le_bytes(q)),
        sound_place(v, pos),
        0 <= n < MAX_SIZE_BLOCKS,
        0 <= s <= level_of(n),
        0 <= holder < v.disk.len(),
        at == hop_off(pos, n, s + 1),
        if s == 0 {
            holder == pos.block
        } else {
            v.is_data(holder)
        },
    ensures
        only_map_changed(v, next, pos),
{
    v.lemma_blocks();
    cur.lemma_blocks();
    v.lemma_same_geometry(cur);
    vstd::bytes::lemma_auto_spec_u32_to_from_le_bytes();
    assert(on_path(n, s + 1));
    crate::sound::lemma_hop_off(pos, n, s + 1);
    assert forall|b: int|
        0 <= b < v.disk.len() && !v.is_data(b) && !v.is_bitmap(b) && b != pos.block implies #[trigger] next.disk[b]
        == v.disk[b] by {
        assert(cur.disk[b] == v.disk[b]);
    }
    assert forall|j: int|
        0 <= j < BLOCK_SIZE && !(pos.off + INODE_BLOCK_MAP_OFFSET <= j < pos.off + INODE_BLOCK_MAP_OFFSET
            + 60) implies #[trigger] next.disk[pos.block][j] == v.disk[pos.block][j] by {
        assert(cur.disk[pos.block][j] == v.disk[pos.block][j]);
    }
}

/// The relation is kept by one more step of such change.
pub proof fn lemma_only_map_changed_trans(u: FsView, v: FsView, w: FsView, pos: InodePos)
    requires
        u.wf(),
        u.same_geometry(v),
        only_map_changed(u, v, pos),
        only_map_changed(v, w, pos),
    ensures
        only_map_changed(u, w, pos),
{
    u.lemma_same_geometry(v);
    assert forall|b: int|
        0 <= b < u.disk.len() && !u.is_data(b) && !u.is_bitmap(b) && b != pos.block implies #[trigger] w.disk[b]
        == u.disk[b] by {
        assert(v.disk[b] == u.disk[b]);
    }
    assert forall|j: int|
        0 <= j < BLOCK_SIZE && !(pos.off + INODE_BLOCK_MAP_OFFSET <= j < pos.off + INODE_BLOCK_MAP_OFFSET
            + 60) implies #[trigger] w.disk[pos.block][j] == u.disk[pos.block][j] by {
        assert(v.disk[pos.block][j] == u.disk[pos.block][j]);
    }
}

/// How many bytes a read of `want` bytes at `offset` gives in a file of
/// `size` bytes.
pub open spec fn read_len(size: int, offset: int, want: int) -> int {
    if offset >= size {
        0
    } else if want <= size - offset {
        want
    } else {
        size - offset
    }
}

/// Blocks that one pointer of the given level reaches.
pub fn span_of(level: usize) -> (s: usize)
    requires
        level <= 3,
    ensures
        s == span(level as int),
{
    if level == 0 {
        1
    } else if level == 1 {
        1024
    } else if level == 2 {
        1048576
    } else {
        1073741824
    }
}

/// Where block `n` of a file hangs.
pub fn locate(n: usize) -> (slot: (usize, usize, usize))
    requires
        n < MAX_FILE_BLOCKS,
    ensures
        (slot.0 as int, slot.1 as int, slot.2 as int) == map_slot(n as int),
        slot.0 < 15,
        slot.1 <= 3,
        slot.2 < span(slot.1 as int),
{
    if n < 12 {
        (n, 0, 0)
    } else if n < 1036 {
        (12, 1, n - 12)
    } else if n < 1049612 {
        (13, 2, n - 1036)
    } else {
        (14, 3, n - 1049612)
    }
}

/// Blocks that block `n` brings into a file that ends before it.
pub fn blocks_added_by(n: usize) -> (c: u32)
    requires
        n < MAX_FILE_BLOCKS,
    ensures
        c == blocks_added(n as int),
        1 <= c <= 4,
{
    let (k, level, idx) = locate(n);
    let mut c: u32 = 1;
    if level >= 1 && idx % 1024 == 0 {
        c += 1;
    }
    if level >= 2 && idx % 1048576 == 0 {
        c += 1;
    }
    if level >= 3 && idx % 1073741824 == 0 {
        c += 1;
    }
    proof {
        reveal_with_fuel(nodes_added, 4);
    }
    c
}

/// One level down there are at most 1024 pointers to choose from, and the
/// index below the chosen one is inside what that pointer reaches.
pub proof fn lemma_span_step(level: int, idx: int)
    requires
        1 <= level <= 3,
        0 <= idx < span(level),
    ensures
        0 <= idx / span(level - 1) < 1024,
        0 <= idx % span(level - 1) < span(level - 1),
{
}

/// A file that grows takes at most four blocks for each block of data
/// that it gains.
pub proof fn lemma_blocks_between_bound(from: int, to: int)
    requires
        0 <= from <= to,
    ensures
        0 <= blocks_between(from, to) <= 4 * (to - from),
    decreases to - from,
{
    reveal_with_fuel(nodes_added, 4);
    if from < to {
        lemma_blocks_between_bound(from, to - 1);
    }
}

/// Blocks, data and indirect, that a file takes in when it grows from
/// `from` to `to` blocks.
pub fn blocks_needed(from: usize, to: usize) -> (c: usize)
    requires
        from <= to <= MAX_SIZE_BLOCKS,
    ensures
        c == blocks_between(from as int, to as int),
{
    let mut c: usize = 0;
    let mut n: usize = from;
    while n < to
        invariant
            from <= n <= to <= MAX_SIZE_BLOCKS,
            c == blocks_between(from as int, n as int),
            c <= 4 * (n - from),
        decreases to - n,
    {
        c = c + blocks_added_by(n) as usize;
        n += 1;
    }
    c
}

impl<D: BlockDevice> Ext2FileSystem<D> {
    /// The disk block that holds block `n` of the file whose inode is
    /// stored at byte `off` of block `block`; `None` where a pointer on the
    /// way is not one to a block for data.
    pub fn get_block_id(&mut self, block: usize, off: usize, n: usize) -> (r: Option<u32>)
        requires
            old(self).wf(),
            block < old(self)@.disk.len(),
            off + EXT2_GOOD_OLD_INODE_SIZE <= BLOCK_SIZE,
            n < MAX_FILE_BLOCKS,
        ensures
            final(self).wf(),
            final(self)@ == old(self)@,
            match r {
                Some(p) => file_block(old(self)@, InodePos { block: block as int, off: off as int }, n as int)
                    == Some(p as int) && old(self)@.is_data(p as int),
                None => file_block(old(self)@, InodePos { block: block as int, off: off as int }, n as int)
                    is None,
            },
    {
        let (k, level, idx) = locate(n);
        let mut cur = block;
        let mut at = off + INODE_BLOCK_MAP_OFFSET + 4 * k;
        let mut lvl = level;
        let mut rem = idx;
        let ghost v = self@;
        let ghost goal = descend(v, cur as int, at as int, lvl as nat, rem as int);
        while lvl > 0
            invariant
                self.wf(),
                self@ == v,
                v == old(self)@,
                goal == file_block(v, InodePos { block: block as int, off: off as int }, n as int),
                lvl <= 3,
                rem < span(lvl as int),
                cur < v.disk.len(),
                at + 4 <= BLOCK_SIZE,
                goal == descend(v, cur as int, at as int, lvl as nat, rem as int),
            decreases lvl,
        {
            let p = self.read_u32(cur, at);
            if !self.is_data_block(p) {
                return None;
            }
            proof {
                v.lemma_data_block(p as int);
            }
            let s = span_of(lvl - 1);
            proof {
                lemma_span_step(lvl as int, rem as int);
            }
            cur = p as usize;
            at = 4 * (rem / s);
            rem = rem % s;
            lvl = lvl - 1;
        }
        let p = self.read_u32(cur, at);
        if !self.is_data_block(p) {
            None
        } else {
            Some(p)
        }
    }

    /// Reads from the file whose inode is stored at byte `off` of block
    /// `block` and has `size` bytes: fills the front of `buf` with the bytes
    /// from `offset` on, as far as the file and `buf` go, and returns their
    /// number. Fails with `Corruption` where a block of the file cannot be
    /// found.
    pub fn read_data(&mut self, block: usize, off: usize, size: usize, offset: usize, buf: &mut Vec<u8>) -> (r:
        Result<usize, Ext2Error>)
        requires
            old(self).wf(),
            block < old(self)@.disk.len(),
            off + EXT2_GOOD_OLD_INODE_SIZE <= BLOCK_SIZE,
            size <= u32::MAX,
        ensures
            final(self).wf(),
            final(self)@ == old(self)@,
            final(buf)@.len() == old(buf)@.len(),
            ({
                let v = old(self)@;
                let pos = InodePos { block: block as int, off: off as int };
                let n = read_len(size as int, offset as int, old(buf)@.len() as int);
                &&& r is Ok <==> blocks_mapped(v, pos, offset as int / BLOCK_SIZE as int, end_block(offset as int, n))
                &&& match r {
                    Ok(k) => {
                        &&& k == n
                        &&& final(buf)@.subrange(0, n) == file_bytes(v, pos, offset as int, offset + n)
                        &&& final(buf)@.subrange(n, old(buf)@.len() as int) == old(buf)@.subrange(
                            n,
                            old(buf)@.len() as int,
                        )
                    },
                    Err(e) => e == Ext2Error::Corruption,
                }
            }),
    {
        let ghost v = self@;
        let ghost pos = InodePos { block: block as int, off: off as int };
        let want = buf.len();
        if offset >= size {
            assert(buf@.subrange(0, 0) =~= file_bytes(v, pos, offset as int, offset as int));
            return Ok(0);
        }
        let n = if want <= size - offset {
            want
        } else {
            size - offset
        };
        let mut done: usize = 0;
        while done < n
            invariant
                self.wf(),
                self@ == v,
                v == old(self)@,
                block < v.disk.len(),
                off + EXT2_GOOD_OLD_INODE_SIZE <= BLOCK_SIZE,
                done <= n,
                n <= want,
                want == buf@.len(),
                want == old(buf)@.len(),
                offset + n <= size,
                size <= u32::MAX,
                pos == (InodePos { block: block as int, off: off as int }),
                done < n ==> (offset + done) % BLOCK_SIZE as int == 0 || done == 0,
                blocks_mapped(v, pos, offset as int / BLOCK_SIZE as int, end_block(offset as int, done as int)),
                buf@.subrange(0, done as int) == file_bytes(v, pos, offset as int, offset + done),
                buf@.subrange(done as int, want as int) == old(buf)@.subrange(done as int, want as int),
            decreases n - done,
        {
            let at = offset + done;
            let b = at / BLOCK_SIZE;
            let start = at % BLOCK_SIZE;
            let chunk = if BLOCK_SIZE - start <= n - done {
                BLOCK_SIZE - start
            } else {
                n - done
            };
            match self.get_block_id(block, off, b) {
                None => {
                    proof {
                        assert(file_block(v, pos, b as int) is None);
                        assert(offset as int / BLOCK_SIZE as int <= b < end_block(offset as int, n as int));
                    }
                    return Err(Ext2Error::Corruption);
                },
                Some(p) => {
                    proof {
                        v.lemma_data_block(p as int);
                    }
                    let bytes = self.manager.read_bytes(p as usize, start, chunk);
                    let ghost before = buf@;
                    put_bytes(buf, done, bytes.as_slice());
                    proof {
                        assert forall|m: int| offset as int / BLOCK_SIZE as int <= m < end_block(
                            offset as int,
                            done + chunk,
                        ) implies (#[trigger] file_block(v, pos, m)) is Some by {
                            if m >= end_block(offset as int, done as int) {
                                assert(m == b);
                            }
                        }
                        assert(buf@.subrange(0, done + chunk) =~= file_bytes(
                            v,
                            pos,
                            offset as int,
                            offset + done + chunk,
                        )) by {
                            assert forall|i: int| 0 <= i < done + chunk implies buf@[i] == file_byte(
                                v,
                                pos,
                                offset + i,
                            ) by {
                                if i < done {
                                    assert(buf@[i] == before.subrange(0, done as int)[i]);
                                } else {
                                    assert((offset + i) / BLOCK_SIZE as int == b);
                                    assert((offset + i) % BLOCK_SIZE as int == start + (i - done));
                                }
                            }
                        }
                        assert(buf@.subrange(done + chunk, want as int) =~= old(buf)@.subrange(
                            done + chunk,
                            want as int,
                        )) by {
                            assert forall|i: int| done + chunk <= i < want implies buf@[i] == old(buf)@[i] by {
                                assert(before.subrange(done as int, want as int)[i - done] == before[i]);
                            }
                        }
                    }
                    done = done + chunk;
                },
            }
        }
        Ok(n)
    }

    /// Writes the block pointer `p` at byte `at` of block `cur`, which is
    /// no bitmap.
    pub fn write_ptr(&mut self, cur: usize, at: usize, p: u32)
        requires
            old(self).wf(),
            cur < old(self)@.disk.len(),
            !old(self)@.is_bitmap(cur as int),
            at + 4 <= BLOCK_SIZE,
        ensures
            final(self).wf(),
            final(self)@ == old(self)@.written(cur as int, at as int, spec_u32_to_le_bytes(p)),
            le32(final(self)@.disk[cur as int], at as int) == p,
            old(self)@.same_geometry(final(self)@),
    {
        let bytes = u32_to_le_bytes(p);
        self.write_block_bytes(cur, at, bytes.as_slice());
        proof {
            crate::codec::lemma_le32_patch(old(self)@.disk[cur as int], at as int, p);
        }
    }

    /// Gives the file whose inode is stored at byte `off` of block `block`
    /// its block `n`; the file must end before it. Takes a free block for
    /// the data and one for every indirect block that is missing on the
    /// way, and returns their number. Fails, and changes nothing, with
    /// `NoSpace` where fewer blocks are free than that, and else with
    /// `Corruption` where a pointer on the way is not one to a block for
    /// data, which does not happen where the block map is sound.
    pub fn add_block(&mut self, block: usize, off: usize, n: usize) -> (r: Result<u32, Ext2Error>)
        requires
            old(self).wf(),
            sound_place(old(self)@, InodePos { block: block as int, off: off as int }),
            n < MAX_SIZE_BLOCKS,
        ensures
            final(self).wf(),
            old(self)@.same_geometry(final(self)@),
            only_blocks_counted(old(self)@, final(self)@),
            only_map_changed(old(self)@, final(self)@, InodePos { block: block as int, off: off as int }),
            match r {
                Ok(c) => {
                    &&& c == blocks_added(n as int)
                    &&& final(self)@.super_block.s_free_blocks_count == old(self)@.super_block.s_free_blocks_count
                        - c
                    &&& sound(old(self)@, InodePos { block: block as int, off: off as int }, n as int)
                        ==> exists|f: Fresh|
                        grown(old(self)@, final(self)@, InodePos { block: block as int, off: off as int }, n as int, f)
                },
                Err(e) => {
                    &&& final(self)@ == old(self)@
                    &&& e == Ext2Error::NoSpace || e == Ext2Error::Corruption
                    &&& e == Ext2Error::NoSpace <==> old(self)@.super_block.s_free_blocks_count < blocks_added(
                        n as int,
                    )
                    &&& sound(old(self)@, InodePos { block: block as int, off: off as int }, n as int) ==> e
                        == Ext2Error::NoSpace
                },
            },
    {
        let ghost pos = InodePos { block: block as int, off: off as int };
        let ghost v0 = self@;
        let need = blocks_added_by(n);
        if self.super_block.s_free_blocks_count < need {
            proof {
                lemma_only_map_changed_refl(v0, pos);
            }
            return Err(Ext2Error::NoSpace);
        }
        let (k, level, idx) = locate(n);
        let mut cell = block;
        let mut at = off + INODE_BLOCK_MAP_OFFSET + 4 * k;
        let mut lvl = level;
        let mut rem = idx;
        let mut s: usize = 0;
        proof {
            v0.lemma_blocks();
            lemma_blocks_added(n as int);
        }
        // The pointers that the block shares with the one before it.
        while lvl > 0 && rem != 0
            invariant
                self.wf(),
                self@ == v0,
                v0 == old(self)@,
                pos == (InodePos { block: block as int, off: off as int }),
                sound_place(v0, pos),
                n < MAX_SIZE_BLOCKS,
                level == level_of(n as int),
                idx == index_of(n as int),
                s + lvl == level,
                lvl <= 2,
                s <= shared_hops(n as int),
                (lvl > 0 && rem != 0) <==> s < shared_hops(n as int),
                rem as int == if s == 0 {
                    idx as int
                } else if s == 1 && level == 2 {
                    idx as int % 1024
                } else {
                    0int
                },
                cell == hop(v0, pos, n as int, s as int),
                at == hop_off(pos, n as int, s + 1),
                cell < v0.disk.len(),
                at + 4 <= BLOCK_SIZE,
                s >= 1 ==> v0.is_data(cell as int),
                need == blocks_added(n as int),
                v0.super_block.s_free_blocks_count >= need,
            decreases lvl,
        {
            let p = self.read_u32(cell, at);
            assert(p == hop(v0, pos, n as int, s + 1));
            if !self.is_data_block(p) {
                proof {
                    lemma_only_map_changed_refl(v0, pos);
                    if sound(v0, pos, n as int) {
                        lemma_shared_sound(v0, pos, n as int, s + 1);
                    }
                }
                return Err(Ext2Error::Corruption);
            }
            proof {
                v0.lemma_data_block(p as int);
                lemma_span_step(lvl as int, rem as int);
            }
            let sp = span_of(lvl - 1);
            cell = p as usize;
            at = 4 * (rem / sp);
            rem = rem % sp;
            lvl = lvl - 1;
            s = s + 1;
        }
        // From here on everything on the way is new.
        let ghost mut f = Fresh { q1: 0, q2: 0, q3: 0 };
        proof {
            lemma_growing_start(v0, pos, n as int, f);
            lemma_only_map_changed_refl(v0, pos);
        }
        while s <= level
            invariant
                self.wf(),
                v0 == old(self)@,
                v0.wf(),
                pos == (InodePos { block: block as int, off: off as int }),
                sound_place(v0, pos),
                n < MAX_SIZE_BLOCKS,
                level == level_of(n as int),
                level <= 2,
                shared_hops(n as int) <= s <= level + 1,
                v0.same_geometry(self@),
                only_blocks_counted(v0, self@),
                only_map_changed(v0, self@, pos),
                need == blocks_added(n as int),
                need == level + 1 - shared_hops(n as int),
                v0.super_block.s_free_blocks_count >= need,
                self@.super_block.s_free_blocks_count == v0.super_block.s_free_blocks_count - (s - shared_hops(
                    n as int,
                )),
                s <= level ==> cell < v0.disk.len() && at + 4 <= BLOCK_SIZE && at == hop_off(pos, n as int, s + 1),
                s <= level ==> (if s == 0 {
                    cell == block
                } else {
                    v0.is_data(cell as int)
                }),
                sound(v0, pos, n as int) ==> s <= level ==> cell == holder(v0, pos, n as int, f, s as int),
                sound(v0, pos, n as int) ==> growing(v0, self@, pos, n as int, f, s as int),
            decreases level + 1 - s,
        {
            let ghost cur = self@;
            match self.alloc_data() {
                Some(q) => {
                    let ghost mid = self@;
                    proof {
                        v0.lemma_same_geometry(cur);
                        cur.lemma_same_geometry(mid);
                        if s >= 1 {
                            v0.lemma_data_block(cell as int);
                        }
                    }
                    self.write_ptr(cell, at, q);
                    proof {
                        let next = self@;
                        lemma_took_counted(cur, mid, q as int);
                        lemma_counted_trans(v0, cur, mid);
                        lemma_written_counted(mid, cell as int, at as int, spec_u32_to_le_bytes(q));
                        lemma_counted_trans(v0, mid, next);
                        lemma_step_map_changed(v0, cur, mid, next, pos, cell as int, at as int, q, n as int, s as int);
                        if sound(v0, pos, n as int) {
                            if shared_hops(n as int) >= 1 {
                                lemma_shared_sound(v0, pos, n as int, shared_hops(n as int));
                            }
                            lemma_growing_step(v0, cur, mid, next, pos, n as int, f, s as int, q);
                        }
                        f = f.with(s + 1, q);
                        if s + 1 <= level {
                            lemma_new_off(pos, n as int, s + 2);
                        }
                        v0.lemma_data_block(q as int);
                    }
                    cell = q as usize;
                    at = 0;
                    s = s + 1;
                },
                None => {
                    proof {
                        assert(false);
                    }
                    return Err(Ext2Error::Corruption);
                },
            }
        }
        proof {
            if sound(v0, pos, n as int) {
                lemma_growing_done(v0, self@, pos, n as int, f);
            }
        }
        Ok(need)
    }

    /// Takes block `n`, its last, from the file whose inode is stored at
    /// byte `off` of block `block`: gives back the data block and every
    /// indirect block that only led to it, and sets the pointer to the
    /// first of them to zero. Returns the number of blocks given back.
    /// Fails with `Corruption` where a pointer on the way is not one to a
    /// block for data, or a block to give back is not marked as used;
    /// neither happens where the block map is sound.
    pub fn remove_block(&mut self, block: usize, off: usize, n: usize) -> (r: Result<u32, Ext2Error>)
        requires
            old(self).wf(),
            sound_place(old(self)@, InodePos { block: block as int, off: off as int }),
            n < MAX_SIZE_BLOCKS,
        ensures
            final(self).wf(),
            old(self)@.same_geometry(final(self)@),
            only_blocks_counted(old(self)@, final(self)@),
            only_map_changed(old(self)@, final(self)@, InodePos { block: block as int, off: off as int }),
            match r {
                Ok(c) => {
                    &&& c == blocks_added(n as int)
                    &&& final(self)@.super_block.s_free_blocks_count == old(self)@.super_block.s_free_blocks_count
                        + c
                    &&& sound(old(self)@, InodePos { block: block as int, off: off as int }, n + 1) ==> shrunk(
                        old(self)@,
                        final(self)@,
                        InodePos { block: block as int, off: off as int },
                        n as int,
                    )
                },
                Err(e) => {
                    &&& e == Ext2Error::Corruption
                    &&& !sound(old(self)@, InodePos { block: block as int, off: off as int }, n + 1)
                },
            },
    {
        let ghost pos = InodePos { block: block as int, off: off as int };
        let ghost v0 = self@;
        let (k, level, idx) = locate(n);
        let mut cell = block;
        let mut at = off + INODE_BLOCK_MAP_OFFSET + 4 * k;
        let mut lvl = level;
        let mut rem = idx;
        let mut s: usize = 0;
        proof {
            v0.lemma_blocks();
            lemma_blocks_added(n as int);
            lemma_only_map_changed_refl(v0, pos);
            lemma_counted_refl(v0);
        }
        // The pointers that the block shares with the one before it.
        while lvl > 0 && rem != 0
            invariant
                self.wf(),
                self@ == v0,
                v0 == old(self)@,
                pos == (InodePos { block: block as int, off: off as int }),
                sound_place(v0, pos),
                n < MAX_SIZE_BLOCKS,
                level == level_of(n as int),
                idx == index_of(n as int),
                s + lvl == level,
                lvl <= 2,
                s <= shared_hops(n as int),
                (lvl > 0 && rem != 0) <==> s < shared_hops(n as int),
                rem as int == if s == 0 {
                    idx as int
                } else if s == 1 && level == 2 {
                    idx as int % 1024
                } else {
                    0int
                },
                cell == hop(v0, pos, n as int, s as int),
                at == hop_off(pos, n as int, s + 1),
                cell < v0.disk.len(),
                at + 4 <= BLOCK_SIZE,
                s >= 1 ==> v0.is_data(cell as int),
            decreases lvl,
        {
            let p = self.read_u32(cell, at);
            assert(p == hop(v0, pos, n as int, s + 1));
            if !self.is_data_block(p) {
                proof {
                    if sound(v0, pos, n + 1) {
                        assert(on_path(n as int, s + 1));
                        lemma_on_way(v0, pos, n + 1, n as int, s + 1);
                    }
                }
                return Err(Ext2Error::Corruption);
            }
            proof {
                v0.lemma_data_block(p as int);
                lemma_span_step(lvl as int, rem as int);
            }
            let sp = span_of(lvl - 1);
            cell = p as usize;
            at = 4 * (rem / sp);
            rem = rem % sp;
            lvl = lvl - 1;
            s = s + 1;
        }
        // What the pointers from here on name only leads to the block.
        let keep = s;
        let keep_cell = cell;
        let keep_at = at;
        let mut ptrs: Vec<u32> = Vec::new();
        while s <= level
            invariant
                self.wf(),
                self@ == v0,
                v0 == old(self)@,
                pos == (InodePos { block: block as int, off: off as int }),
                sound_place(v0, pos),
                n < MAX_SIZE_BLOCKS,
                level == level_of(n as int),
                level <= 2,
                keep == shared_hops(n as int),
                keep <= s <= level + 1,
                ptrs@.len() == s - keep,
                forall|j: int| 0 <= j < ptrs@.len() ==> #[trigger] ptrs@[j] == hop(v0, pos, n as int, keep + 1 + j),
                forall|j: int| 0 <= j < ptrs@.len() ==> v0.is_data(#[trigger] ptrs@[j] as int),
                s <= level ==> cell == hop(v0, pos, n as int, s as int) && at == hop_off(pos, n as int, s + 1)
                    && cell < v0.disk.len() && at + 4 <= BLOCK_SIZE,
            decreases level + 1 - s,
        {
            let p = self.read_u32(cell, at);
            assert(p == hop(v0, pos, n as int, s + 1));
            if !self.is_data_block(p) {
                proof {
                    if sound(v0, pos, n + 1) {
                        assert(on_path(n as int, s + 1));
                        lemma_on_way(v0, pos, n + 1, n as int, s + 1);
                    }
                }
                return Err(Ext2Error::Corruption);
            }
            proof {
                v0.lemma_data_block(p as int);
                if s + 1 <= level {
                    lemma_new_off(pos, n as int, s + 2);
                }
            }
            ptrs.push(p);
            cell = p as usize;
            at = 0;
            s = s + 1;
        }
        // Give them back, the data block first.
        let mut from = level + 1;
        proof {
            lemma_shrinking_start(v0, pos, n as int);
        }
        while from > keep
            invariant
                self.wf(),
                v0 == old(self)@,
                v0.wf(),
                pos == (InodePos { block: block as int, off: off as int }),
                sound_place(v0, pos),
                n < MAX_SIZE_BLOCKS,
                level == level_of(n as int),
                level <= 2,
                keep == shared_hops(n as int),
                keep <= from <= level + 1,
                ptrs@.len() == level + 1 - keep,
                forall|j: int| 0 <= j < ptrs@.len() ==> #[trigger] ptrs@[j] == hop(v0, pos, n as int, keep + 1 + j),
                forall|j: int| 0 <= j < ptrs@.len() ==> v0.is_data(#[trigger] ptrs@[j] as int),
                v0.same_geometry(self@),
                only_blocks_counted(v0, self@),
                only_map_changed(v0, self@, pos),
                self@.super_block.s_free_blocks_count == v0.super_block.s_free_blocks_count + (level + 1 - from),
                sound(v0, pos, n + 1) ==> shrinking(v0, self@, pos, n as int, from as int),
            decreases from,
        {
            let ghost cur = self@;
            let q = ptrs[from - 1 - keep];
            assert(q == hop(v0, pos, n as int, from as int));
            match self.dealloc_block(q) {
                Ok(_) => {},
                Err(e) => {
                    proof {
                        if sound(v0, pos, n + 1) {
                            v0.lemma_same_geometry(cur);
                            assert(on_path(n as int, from as int));
                            lemma_still_used(v0, cur, pos, n as int, from as int);
                        }
                    }
                    return Err(Ext2Error::Corruption);
                },
            }
            proof {
                let next = self@;
                lemma_gave_counted(cur, next, q as int);
                lemma_counted_trans(v0, cur, next);
                lemma_gave_map_changed(v0, cur, next, pos, q as int);
                if sound(v0, pos, n + 1) {
                    lemma_shrinking_step(v0, cur, next, pos, n as int, from as int);
                }
            }
            from = from - 1;
        }
        let ghost cur = self@;
        proof {
            v0.lemma_same_geometry(cur);
            if keep >= 1 {
                v0.lemma_data_block(keep_cell as int);
            }
        }
        self.write_ptr(keep_cell, keep_at, 0);
        proof {
            let next = self@;
            lemma_written_counted(cur, keep_cell as int, keep_at as int, spec_u32_to_le_bytes(0));
            lemma_counted_trans(v0, cur, next);
            lemma_ptr_map_changed(v0, cur, next, pos, keep_cell as int, keep_at as int, 0, n as int, keep as int);
            if sound(v0, pos, n + 1) {
                lemma_shrinking_done(v0, cur, next, pos, n as int);
            }
        }
        Ok((level + 1 - keep) as u32)
    }

    /// Writes `src` into the file whose inode is stored at byte `off` of
    /// block `block` and has `size` bytes, from byte `offset` of the file
    /// on; the file must reach as far as is written. Fails with
    /// `Corruption` where a block of the file cannot be found, which does
    /// not happen where the block map is sound.
    pub fn write_data(&mut self, block: usize, off: usize, size: usize, offset: usize, src: &[u8]) -> (r: Result<
        (),
        Ext2Error,
    >)
        requires
            old(self).wf(),
            block < old(self)@.disk.len(),
            off + EXT2_GOOD_OLD_INODE_SIZE <= BLOCK_SIZE,
            offset + src@.len() <= size <= u32::MAX,
        ensures
            final(self).wf(),
            old(self)@.same_geometry(final(self)@),
            final(self)@.super_block == old(self)@.super_block,
            final(self)@.groups == old(self)@.groups,
            final(self)@.time == old(self)@.time,
            only_blocks_counted(old(self)@, final(self)@),
            only_data_changed(old(self)@, final(self)@),
            r matches Err(e) ==> e == Ext2Error::Corruption,
            sound(old(self)@, InodePos { block: block as int, off: off as int }, blocks_for(size as int)) ==> {
                let pos = InodePos { block: block as int, off: off as int };
                let nb = blocks_for(size as int);
                &&& r is Ok
                &&& sound(final(self)@, pos, nb)
                &&& same_ways(old(self)@, final(self)@, pos, nb)
                &&& stepped(old(self)@, final(self)@, pos, nb, nb)
                &&& forall|i: int|
                    0 <= i < nb * BLOCK_SIZE ==> #[trigger] byte_at(final(self)@, pos, i) == if offset <= i < offset
                        + src@.len() {
                        src@[i - offset]
                    } else {
                        byte_at(old(self)@, pos, i)
                    }
            },
    {
        let n = src.len();
        let ghost v0 = self@;
        let ghost pos = InodePos { block: block as int, off: off as int };
        let ghost nb = blocks_for(size as int);
        let mut done: usize = 0;
        proof {
            lemma_counted_refl(v0);
            lemma_stepped_refl(v0, pos, nb);
        }
        while done < n
            invariant
                self.wf(),
                v0 == old(self)@,
                v0.wf(),
                v0.same_geometry(self@),
                self@.super_block == v0.super_block,
                self@.groups == v0.groups,
                self@.time == v0.time,
                only_blocks_counted(v0, self@),
                only_data_changed(v0, self@),
                block < v0.disk.len(),
                off + EXT2_GOOD_OLD_INODE_SIZE <= BLOCK_SIZE,
                done <= n,
                n == src@.len(),
                offset + n <= size <= u32::MAX,
                pos == (InodePos { block: block as int, off: off as int }),
                nb == blocks_for(size as int),
                sound(v0, pos, nb) ==> {
                    &&& sound(self@, pos, nb)
                    &&& same_ways(v0, self@, pos, nb)
                    &&& stepped(v0, self@, pos, nb, nb)
                    &&& forall|i: int|
                        0 <= i < nb * BLOCK_SIZE ==> #[trigger] byte_at(self@, pos, i) == if offset <= i < offset
                            + done {
                            src@[i - offset]
                        } else {
                            byte_at(v0, pos, i)
                        }
                },
            decreases n - done,
        {
            let at = offset + done;
            let b = at / BLOCK_SIZE;
            let start = at % BLOCK_SIZE;
            let chunk = if BLOCK_SIZE - start <= n - done {
                BLOCK_SIZE - start
            } else {
                n - done
            };
            let ghost cur = self@;
            proof {
                if sound(v0, pos, nb) {
                    lemma_sound_found(cur, pos, nb, b as int);
                }
            }
            match self.get_block_id(block, off, b) {
                None => {
                    return Err(Ext2Error::Corruption);
                },
                Some(p) => {
                    let part = vstd::slice::slice_subrange(src, done, done + chunk);
                    proof {
                        cur.lemma_data_block(p as int);
                        v0.lemma_same_geometry(cur);
                        lemma_written_counted(cur, p as int, start as int, part@);
                        lemma_counted_trans(v0, cur, cur.written(p as int, start as int, part@));
                    }
                    self.write_block_bytes(p as usize, start, part);
                    proof {
                        if sound(v0, pos, nb) {
                            lemma_data_written(cur, pos, nb, b as int, start as int, part@);
                            lemma_written_stepped(cur, pos, nb, b as int, start as int, part@);
                            let next = self@;
                            lemma_stepped_trans(v0, cur, next, pos, nb, nb, nb);
                            assert forall|i: int| 0 <= i < nb * BLOCK_SIZE implies #[trigger] byte_at(next, pos, i)
                                == if offset <= i < offset + done + chunk {
                                src@[i - offset]
                            } else {
                                byte_at(v0, pos, i)
                            } by {
                                assert(byte_at(cur, pos, i) == if offset <= i < offset + done {
                                    src@[i - offset]
                                } else {
                                    byte_at(v0, pos, i)
                                });
                                assert(b * BLOCK_SIZE + start == offset + done);
                                if offset + done <= i < offset + done + chunk {
                                    assert(part@[i - offset - done] == src@[i - offset]);
                                }
                            }
                            assert(same_ways(v0, next, pos, nb)) by {
                                assert forall|m: int, t: int| 0 <= m < nb && on_path(m, t) implies #[trigger] hop(
                                    next,
                                    pos,
                                    m,
                                    t,
                                ) == hop(v0, pos, m, t) by {
                                    assert(hop(cur, pos, m, t) == hop(v0, pos, m, t));
                                }
                            }
                        }
                    }
                    done = done + chunk;
                },
            }
        }
        Ok(())
    }
}

} // verus!
