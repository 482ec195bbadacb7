//! When the block map of a file is sound: every block on the way to a block
//! of the file is a block for data that is marked as used, and no block is
//! reached on two different ways. On a sound map, growing the file, writing
//! into it and cutting it down do what they should.
use vstd::prelude::*;
use vstd::bytes::spec_u32_to_le_bytes;
use crate::block_map::{descend, file_block, map_slot, span, InodePos, MAX_SIZE_BLOCKS};
use crate::codec::{le32, lemma_le32_patch, lemma_patch_frame, patch};
use crate::config::{BLOCK_SIZE, BLOCKS_PER_GRP};
use crate::efs::FsView;
use crate::layout::{BlockGroupDesc, DiskInode, SuperBlock};
use crate::layout::INODE_BLOCK_MAP_OFFSET;

verus! {

/// Which pointer of the inode leads to block `n` of a file.
pub open spec fn slot_of(n: int) -> int {
    map_slot(n).0
}

/// Through how many indirect blocks the way to block `n` leads.
pub open spec fn level_of(n: int) -> int {
    map_slot(n).1
}

/// The index of block `n` among the blocks under its pointer of the inode.
pub open spec fn index_of(n: int) -> int {
    map_slot(n).2
}

/// The way to block `n` has a `s`-th pointer: the first stands in the
/// inode, the last leads to the data.
pub open spec fn on_path(n: int, s: int) -> bool {
    0 <= n < MAX_SIZE_BLOCKS && 1 <= s <= level_of(n) + 1
}

/// Where, inside the block that holds it, the `s`-th pointer on the way to
/// block `n` stands.
pub open spec fn hop_off(pos: InodePos, n: int, s: int) -> int {
    if s <= 1 {
        pos.off + INODE_BLOCK_MAP_OFFSET + 4 * slot_of(n)
    } else if s == 2 {
        4 * (if level_of(n) == 2 {
            index_of(n) / 1024
        } else {
            index_of(n)
        })
    } else {
        4 * (index_of(n) % 1024)
    }
}

/// The block that the first pointer on the way to block `n` names.
pub open spec fn hop1(v: FsView, pos: InodePos, n: int) -> int {
    le32(v.disk[pos.block], hop_off(pos, n, 1)) as int
}

/// The block that the second pointer on the way to block `n` names.
pub open spec fn hop2(v: FsView, pos: InodePos, n: int) -> int {
    le32(v.disk[hop1(v, pos, n)], hop_off(pos, n, 2)) as int
}

/// The block that the third pointer on the way to block `n` names.
pub open spec fn hop3(v: FsView, pos: InodePos, n: int) -> int {
    le32(v.disk[hop2(v, pos, n)], hop_off(pos, n, 3)) as int
}

/// The block that the `s`-th pointer on the way to block `n` names; for
/// `s` zero, the block that holds the inode.
pub open spec fn hop(v: FsView, pos: InodePos, n: int, s: int) -> int {
    if s <= 0 {
        pos.block
    } else if s == 1 {
        hop1(v, pos, n)
    } else if s == 2 {
        hop2(v, pos, n)
    } else {
        hop3(v, pos, n)
    }
}

/// The place in the tree of a file that the `s`-th pointer on the way to
/// block `n` leads to. Two ways that lead to the same place read the same
/// pointers.
pub open spec fn place(n: int, s: int) -> (int, int, int) {
    (
        slot_of(n),
        s,
        if s <= 1 {
            0
        } else if s == 2 && level_of(n) == 2 {
            index_of(n) / 1024
        } else {
            index_of(n)
        },
    )
}

/// The block map of the file whose inode is stored at `pos` is sound for
/// the first `nb` blocks of the file.
#[verifier::opaque]
pub open spec fn sound(v: FsView, pos: InodePos, nb: int) -> bool {
    &&& 0 <= nb <= MAX_SIZE_BLOCKS
    &&& pos.off % 4 == 0
    &&& 0 <= pos.off
    &&& pos.off + 128 <= BLOCK_SIZE
    &&& 0 <= pos.block < v.disk.len()
    &&& !v.is_data(pos.block)
    &&& !v.is_bitmap(pos.block)
    &&& forall|n: int, s: int|
        0 <= n < nb && on_path(n, s) ==> v.is_data(#[trigger] hop(v, pos, n, s)) && v.block_used(
            hop(v, pos, n, s),
        )
    &&& forall|n: int, s: int, m: int, t: int|
        #![trigger hop(v, pos, n, s), hop(v, pos, m, t)]
        0 <= n < nb && 0 <= m < nb && on_path(n, s) && on_path(m, t) && hop(v, pos, n, s) == hop(v, pos, m, t)
            ==> place(n, s) == place(m, t)
}

/// The data block of block `n` of the file.
pub open spec fn data_block(v: FsView, pos: InodePos, n: int) -> int {
    hop(v, pos, n, level_of(n) + 1)
}

/// Two ways that lead to the same place lead to the same block.
pub proof fn lemma_same_place(v: FsView, pos: InodePos, n: int, m: int, s: int)
    requires
        on_path(n, s),
        on_path(m, s),
        place(n, s) == place(m, s),
    ensures
        hop(v, pos, n, s) == hop(v, pos, m, s),
{
}

/// The block of a file is found exactly where every pointer on the way to
/// it names a block for data, and then it is the block that the last
/// pointer names.
pub proof fn lemma_file_block(v: FsView, pos: InodePos, n: int)
    requires
        0 <= n < MAX_SIZE_BLOCKS,
    ensures
        file_block(v, pos, n) == if forall|s: int| on_path(n, s) ==> v.is_data(#[trigger] hop(v, pos, n, s)) {
            Some(data_block(v, pos, n))
        } else {
            None
        },
{
    reveal_with_fuel(descend, 4);
    let l = level_of(n);
    if forall|s: int| on_path(n, s) ==> v.is_data(#[trigger] hop(v, pos, n, s)) {
        assert(on_path(n, 1));
        assert(v.is_data(hop(v, pos, n, 1)));
        if l >= 1 {
            assert(on_path(n, 2));
            assert(v.is_data(hop(v, pos, n, 2)));
        }
        if l >= 2 {
            assert(on_path(n, 3));
            assert(v.is_data(hop(v, pos, n, 3)));
        }
    } else {
        let s = choose|s: int| on_path(n, s) && !v.is_data(#[trigger] hop(v, pos, n, s));
        assert(s == 1 || s == 2 || s == 3);
    }
}

/// On a sound map every block of the file is found.
pub proof fn lemma_sound_found(v: FsView, pos: InodePos, nb: int, n: int)
    requires
        sound(v, pos, nb),
        0 <= n < nb,
    ensures
        file_block(v, pos, n) == Some(data_block(v, pos, n)),
        v.is_data(data_block(v, pos, n)),
        v.block_used(data_block(v, pos, n)),
{
    reveal(sound);
    lemma_file_block(v, pos, n);
    assert(on_path(n, level_of(n) + 1));
    assert forall|s: int| on_path(n, s) implies v.is_data(#[trigger] hop(v, pos, n, s)) by {}
}

/// A pointer that is patched into a block is read back, and every other
/// pointer of the block reads as before.
pub proof fn lemma_cell(d: Seq<u8>, o: int, q: u32, o2: int)
    requires
        0 <= o,
        o + 4 <= d.len(),
        o % 4 == 0,
        0 <= o2,
        o2 + 4 <= d.len(),
        o2 % 4 == 0,
    ensures
        le32(patch(d, o, spec_u32_to_le_bytes(q)), o2) == if o2 == o {
            q
        } else {
            le32(d, o2)
        },
{
    vstd::bytes::lemma_auto_spec_u32_to_from_le_bytes();
    if o2 == o {
        lemma_le32_patch(d, o, q);
    } else {
        lemma_patch_frame(d, o, spec_u32_to_le_bytes(q), o2, o2 + 4);
    }
}

/// How many of the pointers on the way to block `n` a file has already
/// when it ends before that block: those that lead to indirect blocks
/// which block `n` shares with the block before it.
pub open spec fn shared_hops(n: int) -> int {
    if level_of(n) == 0 || index_of(n) == 0 {
        0
    } else if level_of(n) == 1 || index_of(n) % 1024 == 0 {
        1
    } else {
        2
    }
}

/// The blocks that are taken for a new block of a file: `q1` for what the
/// first pointer on the way names, `q2` for the second, `q3` for the third,
/// as far as these are new.
pub struct Fresh {
    pub q1: u32,
    pub q2: u32,
    pub q3: u32,
}

impl Fresh {
    /// The block taken for what the `s`-th pointer names.
    pub open spec fn at(self, s: int) -> u32 {
        if s <= 1 {
            self.q1
        } else if s == 2 {
            self.q2
        } else {
            self.q3
        }
    }

    /// The `s`-th pointer on the way to block `n` is new.
    pub open spec fn is_new(n: int, s: int) -> bool {
        shared_hops(n) < s <= level_of(n) + 1
    }

    /// Block `p` is one of those taken for block `n`.
    pub open spec fn has(self, n: int, p: int) -> bool {
        ||| Self::is_new(n, 1) && p == self.q1
        ||| Self::is_new(n, 2) && p == self.q2
        ||| Self::is_new(n, 3) && p == self.q3
    }

    /// Block `p` is one of those taken for block `n` that hold a pointer.
    pub open spec fn has_node(self, n: int, p: int) -> bool {
        ||| Self::is_new(n, 1) && 1 <= level_of(n) && p == self.q1
        ||| Self::is_new(n, 2) && 2 <= level_of(n) && p == self.q2
    }
}

/// The block that holds the `s + 1`-th pointer on the way to the new block
/// `n`: what the `s`-th pointer names, before or after the file has grown.
pub open spec fn holder(v: FsView, pos: InodePos, n: int, f: Fresh, s: int) -> int {
    if s <= shared_hops(n) {
        hop(v, pos, n, s)
    } else {
        f.at(s) as int
    }
}

/// `w` is `v` after the file whose inode is stored at `pos`, and which had
/// `n` blocks, was given block `n` with the blocks `f`: these were free and
/// are marked as used now, and each new pointer on the way names its
/// block. Nothing else has changed but free counts and bitmaps.
#[verifier::opaque]
pub open spec fn grown(v: FsView, w: FsView, pos: InodePos, n: int, f: Fresh) -> bool {
    &&& v.same_geometry(w)
    &&& only_blocks_counted(v, w)
    &&& forall|s: int| #![trigger f.at(s)] Fresh::is_new(n, s) ==> v.is_data(f.at(s) as int) && !v.block_used(f.at(s) as int)
    &&& forall|s: int, t: int| #![trigger f.at(s), f.at(t)] Fresh::is_new(n, s) && Fresh::is_new(n, t) && s != t ==> f.at(s) != f.at(t)
    &&& forall|p: int|
        0 <= p < v.groups.len() * BLOCKS_PER_GRP ==> #[trigger] w.block_used(p) == (v.block_used(p) || f.has(n, p))
    &&& forall|b: int|
        0 <= b < v.disk.len() && !v.is_bitmap(b) && b != holder(v, pos, n, f, shared_hops(n)) && !f.has_node(n, b)
            ==> #[trigger] w.disk[b] == v.disk[b]
    &&& forall|s: int|
        shared_hops(n) <= s <= level_of(n) ==> #[trigger] w.disk[holder(v, pos, n, f, s)] == patch(
            v.disk[holder(v, pos, n, f, s)],
            hop_off(pos, n, s + 1),
            spec_u32_to_le_bytes(f.at(s + 1)),
        )
}

/// The pointers on the way to a block stand inside their blocks, at
/// multiples of four.
pub proof fn lemma_hop_off(pos: InodePos, n: int, s: int)
    requires
        on_path(n, s),
        0 <= pos.off,
        pos.off % 4 == 0,
        pos.off + 128 <= BLOCK_SIZE,
    ensures
        0 <= hop_off(pos, n, s),
        hop_off(pos, n, s) + 4 <= BLOCK_SIZE,
        hop_off(pos, n, s) % 4 == 0,
        0 <= slot_of(n) < 15,
        0 <= level_of(n) <= 2,
        0 <= index_of(n) < span(level_of(n)),
{
}

/// The block before a block that shares pointers with it leads to the same
/// places as far as the pointers are shared.
pub proof fn lemma_shared(n: int, s: int)
    requires
        0 <= n < MAX_SIZE_BLOCKS,
        1 <= s <= shared_hops(n),
    ensures
        on_path(n, s),
        on_path(n - 1, s),
        place(n - 1, s) == place(n, s),
        s <= level_of(n),
{
}

/// When a file has grown by a block, the way to each of its old blocks is
/// as it was.
pub proof fn lemma_grown_keeps(v: FsView, w: FsView, pos: InodePos, n: int, f: Fresh, m: int)
    requires
        v.wf(),
        sound(v, pos, n),
        0 <= n < MAX_SIZE_BLOCKS,
        grown(v, w, pos, n, f),
        0 <= m < n,
    ensures
        forall|t: int| on_path(m, t) ==> #[trigger] hop(w, pos, m, t) == hop(v, pos, m, t),
{
    reveal(sound);
    reveal(grown);
    v.lemma_blocks();
    let s0 = shared_hops(n);
    let l = level_of(m);
    assert(on_path(m, 1));
    lemma_hop_off(pos, m, 1);
    lemma_hop_off(pos, n, 1);
    let h0 = pos.block;
    assert(!f.has_node(n, h0)) by {
        assert(Fresh::is_new(n, 1) ==> v.is_data(f.at(1) as int));
        assert(Fresh::is_new(n, 2) ==> v.is_data(f.at(2) as int));
    }
    if s0 == 0 {
        assert(holder(v, pos, n, f, 0) == h0);
        assert(slot_of(m) != slot_of(n));
        assert(w.disk[holder(v, pos, n, f, 0)] == patch(
            v.disk[holder(v, pos, n, f, 0)],
            hop_off(pos, n, 1),
            spec_u32_to_le_bytes(f.at(1)),
        ));
        lemma_cell(v.disk[h0], hop_off(pos, n, 1), f.at(1), hop_off(pos, m, 1));
    } else {
        lemma_shared(n, s0);
        assert(v.is_data(hop(v, pos, n - 1, s0)));
        lemma_same_place(v, pos, n - 1, n, s0);
        assert(holder(v, pos, n, f, s0) != h0);
        assert(w.disk[h0] == v.disk[h0]);
    }
    assert(hop(w, pos, m, 1) == hop(v, pos, m, 1));
    if l >= 1 {
        assert(on_path(m, 2));
        lemma_hop_off(pos, m, 2);
        let x = hop(v, pos, m, 1);
        assert(v.is_data(x) && v.block_used(x));
        v.lemma_data_block(x);
        assert(!f.has_node(n, x)) by {
            assert(Fresh::is_new(n, 1) ==> !v.block_used(f.at(1) as int));
            assert(Fresh::is_new(n, 2) ==> !v.block_used(f.at(2) as int));
        }
        if x == holder(v, pos, n, f, s0) {
            if s0 == 0 {
                assert(false);
            } else {
                lemma_shared(n, s0);
                lemma_same_place(v, pos, n - 1, n, s0);
                assert(hop(v, pos, m, 1) == hop(v, pos, n - 1, s0));
                assert(place(m, 1) == place(n - 1, s0));
                assert(s0 == 1);
                assert(on_path(n, 2));
                lemma_hop_off(pos, n, 2);
                assert(hop_off(pos, m, 2) != hop_off(pos, n, 2));
                assert(w.disk[holder(v, pos, n, f, 1)] == patch(
                    v.disk[holder(v, pos, n, f, 1)],
                    hop_off(pos, n, 2),
                    spec_u32_to_le_bytes(f.at(2)),
                ));
                lemma_cell(v.disk[x], hop_off(pos, n, 2), f.at(2), hop_off(pos, m, 2));
            }
        } else {
            assert(w.disk[x] == v.disk[x]);
        }
        assert(hop(w, pos, m, 2) == hop(v, pos, m, 2));
    }
    if l >= 2 {
        assert(on_path(m, 3));
        lemma_hop_off(pos, m, 3);
        let y = hop(v, pos, m, 2);
        assert(v.is_data(y) && v.block_used(y));
        v.lemma_data_block(y);
        assert(!f.has_node(n, y)) by {
            assert(Fresh::is_new(n, 1) ==> !v.block_used(f.at(1) as int));
            assert(Fresh::is_new(n, 2) ==> !v.block_used(f.at(2) as int));
        }
        if y == holder(v, pos, n, f, s0) {
            if s0 == 0 {
                assert(false);
            } else {
                lemma_shared(n, s0);
                lemma_same_place(v, pos, n - 1, n, s0);
                assert(hop(v, pos, m, 2) == hop(v, pos, n - 1, s0));
                assert(place(m, 2) == place(n - 1, s0));
                assert(s0 == 2);
                assert(on_path(n, 3));
                lemma_hop_off(pos, n, 3);
                assert(hop_off(pos, m, 3) != hop_off(pos, n, 3));
                assert(w.disk[holder(v, pos, n, f, 2)] == patch(
                    v.disk[holder(v, pos, n, f, 2)],
                    hop_off(pos, n, 3),
                    spec_u32_to_le_bytes(f.at(3)),
                ));
                lemma_cell(v.disk[y], hop_off(pos, n, 3), f.at(3), hop_off(pos, m, 3));
            }
        } else {
            assert(w.disk[y] == v.disk[y]);
        }
        assert(hop(w, pos, m, 3) == hop(v, pos, m, 3));
    }
}

/// When a file has grown by a block, the pointers on the way to the new
/// block name the old blocks as far as they are shared, and the new blocks
/// from there on.
pub proof fn lemma_grown_new(v: FsView, w: FsView, pos: InodePos, n: int, f: Fresh)
    requires
        v.wf(),
        sound(v, pos, n),
        0 <= n < MAX_SIZE_BLOCKS,
        grown(v, w, pos, n, f),
    ensures
        forall|s: int| on_path(n, s) ==> #[trigger] hop(w, pos, n, s) == holder(v, pos, n, f, s),
        forall|s: int| 1 <= s <= shared_hops(n) ==> v.is_data(#[trigger] hop(v, pos, n, s)) && v.block_used(hop(v, pos, n, s)),
{
    reveal(sound);
    reveal(grown);
    v.lemma_blocks();
    let s0 = shared_hops(n);
    let l = level_of(n);
    lemma_hop_off(pos, n, 1);
    if s0 >= 1 {
        lemma_grown_keeps(v, w, pos, n, f, n - 1);
        lemma_shared(n, 1);
        lemma_same_place(v, pos, n - 1, n, 1);
        lemma_same_place(w, pos, n - 1, n, 1);
        assert(hop(w, pos, n - 1, 1) == hop(v, pos, n - 1, 1));
        assert(v.is_data(hop(v, pos, n - 1, 1)) && v.block_used(hop(v, pos, n - 1, 1)));
    }
    if s0 >= 2 {
        lemma_shared(n, 2);
        lemma_same_place(v, pos, n - 1, n, 2);
        lemma_same_place(w, pos, n - 1, n, 2);
        assert(hop(w, pos, n - 1, 2) == hop(v, pos, n - 1, 2));
        assert(v.is_data(hop(v, pos, n - 1, 2)) && v.block_used(hop(v, pos, n - 1, 2)));
    }
    assert forall|s: int| on_path(n, s) implies #[trigger] hop(w, pos, n, s) == holder(v, pos, n, f, s) by {
        lemma_hop_off(pos, n, s);
        // what the pointers before this one name
        if s >= 2 {
            lemma_hop_off(pos, n, 1);
        }
        if s >= 3 {
            lemma_hop_off(pos, n, 2);
        }
        let h1 = holder(v, pos, n, f, 1);
        let h2 = holder(v, pos, n, f, 2);
        // the first pointer
        if s0 == 0 {
            assert(w.disk[holder(v, pos, n, f, 0)] == patch(
                v.disk[holder(v, pos, n, f, 0)],
                hop_off(pos, n, 1),
                spec_u32_to_le_bytes(f.at(1)),
            ));
            lemma_cell(v.disk[pos.block], hop_off(pos, n, 1), f.at(1), hop_off(pos, n, 1));
        }
        assert(hop(w, pos, n, 1) == h1);
        if s >= 2 {
            assert(v.is_data(h1)) by {
                if s0 < 1 {
                    assert(Fresh::is_new(n, 1));
                    assert(v.is_data(f.at(1) as int));
                }
            }
            v.lemma_data_block(h1);
            if s0 <= 1 {
                assert(w.disk[holder(v, pos, n, f, 1)] == patch(
                    v.disk[holder(v, pos, n, f, 1)],
                    hop_off(pos, n, 2),
                    spec_u32_to_le_bytes(f.at(2)),
                ));
                lemma_cell(v.disk[h1], hop_off(pos, n, 2), f.at(2), hop_off(pos, n, 2));
            }
            assert(hop(w, pos, n, 2) == h2);
        }
        if s >= 3 {
            assert(v.is_data(h2)) by {
                if s0 < 2 {
                    assert(Fresh::is_new(n, 2));
                    assert(v.is_data(f.at(2) as int));
                }
            }
            v.lemma_data_block(h2);
            assert(w.disk[holder(v, pos, n, f, 2)] == patch(
                v.disk[holder(v, pos, n, f, 2)],
                hop_off(pos, n, 3),
                spec_u32_to_le_bytes(f.at(3)),
            ));
            lemma_cell(v.disk[h2], hop_off(pos, n, 3), f.at(3), hop_off(pos, n, 3));
            assert(hop(w, pos, n, 3) == holder(v, pos, n, f, 3));
        }
    }
}

/// Growing by a block keeps a sound block map sound, keeps the way to every
/// old block of the file, and leaves the old blocks as they were.
pub proof fn lemma_grown(v: FsView, w: FsView, pos: InodePos, n: int, f: Fresh)
    requires
        v.wf(),
        sound(v, pos, n),
        0 <= n < MAX_SIZE_BLOCKS,
        grown(v, w, pos, n, f),
    ensures
        sound(w, pos, n + 1),
        forall|m: int, t: int| 0 <= m < n && on_path(m, t) ==> #[trigger] hop(w, pos, m, t) == hop(v, pos, m, t),
        forall|s: int| on_path(n, s) ==> #[trigger] hop(w, pos, n, s) == holder(v, pos, n, f, s),
        forall|m: int| 0 <= m < n ==> #[trigger] w.disk[data_block(v, pos, m)] == v.disk[data_block(v, pos, m)],
        w.disk[data_block(w, pos, n)] == v.disk[data_block(w, pos, n)],
{
    reveal(sound);
    reveal(grown);
    v.lemma_blocks();
    v.lemma_same_geometry(w);
    let s0 = shared_hops(n);
    lemma_grown_new(v, w, pos, n, f);
    assert forall|m: int, t: int| 0 <= m < n && on_path(m, t) implies #[trigger] hop(w, pos, m, t) == hop(
        v,
        pos,
        m,
        t,
    ) by {
        lemma_grown_keeps(v, w, pos, n, f, m);
    }
    // every block on a way is for data and marked
    assert forall|m: int, t: int| 0 <= m < n + 1 && on_path(m, t) implies w.is_data(#[trigger] hop(w, pos, m, t))
        && w.block_used(hop(w, pos, m, t)) by {
        if m < n {
            let b = hop(v, pos, m, t);
            assert(v.is_data(b) && v.block_used(b));
            v.lemma_in_groups(b);
        } else {
            let b = holder(v, pos, n, f, t);
            assert(hop(w, pos, n, t) == b);
            if t <= s0 {
                assert(v.is_data(hop(v, pos, n, t)) && v.block_used(hop(v, pos, n, t)));
            } else {
                assert(Fresh::is_new(n, t));
                assert(v.is_data(f.at(t) as int));
                assert(f.has(n, b));
            }
            v.lemma_in_groups(b);
        }
    }
    // no block is reached on two ways
    assert forall|a: int, s: int, m: int, t: int|
        #![trigger hop(w, pos, a, s), hop(w, pos, m, t)]
        0 <= a < n + 1 && 0 <= m < n + 1 && on_path(a, s) && on_path(m, t) && hop(w, pos, a, s) == hop(
            w,
            pos,
            m,
            t,
        ) implies place(a, s) == place(m, t) by {
        lemma_two_ways(v, w, pos, n, f, a, s, m, t);
    }
    assert forall|m: int| 0 <= m < n implies #[trigger] w.disk[data_block(v, pos, m)] == v.disk[data_block(
        v,
        pos,
        m,
    )] by {
        let b = data_block(v, pos, m);
        assert(on_path(m, level_of(m) + 1));
        assert(v.is_data(hop(v, pos, m, level_of(m) + 1)) && v.block_used(hop(v, pos, m, level_of(m) + 1)));
        v.lemma_data_block(b);
        assert(!f.has_node(n, b)) by {
            assert(Fresh::is_new(n, 1) ==> !v.block_used(f.at(1) as int));
            assert(Fresh::is_new(n, 2) ==> !v.block_used(f.at(2) as int));
        }
        if s0 >= 1 && b == holder(v, pos, n, f, s0) {
            lemma_shared(n, s0);
            lemma_same_place(v, pos, n - 1, n, s0);
            assert(hop(v, pos, m, level_of(m) + 1) == hop(v, pos, n - 1, s0));
            assert(place(m, level_of(m) + 1) == place(n - 1, s0));
            assert(false);
        }
    }
    // the new data block holds what it held
    let d = data_block(w, pos, n);
    let l = level_of(n);
    assert(on_path(n, l + 1));
    assert(hop(w, pos, n, l + 1) == holder(v, pos, n, f, l + 1));
    assert(Fresh::is_new(n, l + 1));
    assert(d == f.at(l + 1));
    assert(v.is_data(f.at(l + 1) as int) && !v.block_used(f.at(l + 1) as int));
    v.lemma_data_block(d);
    assert(!f.has_node(n, d)) by {
        assert(Fresh::is_new(n, 1) && Fresh::is_new(n, l + 1) && 1 != l + 1 ==> f.at(1) != f.at(l + 1));
        assert(Fresh::is_new(n, 2) && Fresh::is_new(n, l + 1) && 2 != l + 1 ==> f.at(2) != f.at(l + 1));
    }
    if s0 >= 1 {
        assert(v.block_used(hop(v, pos, n, s0)));
    }
    assert(d != holder(v, pos, n, f, s0));
}

/// After a file has grown by a block, two ways that lead to the same block
/// lead to the same place.
pub proof fn lemma_two_ways(v: FsView, w: FsView, pos: InodePos, n: int, f: Fresh, a: int, s: int, m: int, t: int)
    requires
        v.wf(),
        sound(v, pos, n),
        0 <= n < MAX_SIZE_BLOCKS,
        grown(v, w, pos, n, f),
        0 <= a < n + 1,
        0 <= m < n + 1,
        on_path(a, s),
        on_path(m, t),
        hop(w, pos, a, s) == hop(w, pos, m, t),
    ensures
        place(a, s) == place(m, t),
{
    reveal(sound);
    reveal(grown);
    let s0 = shared_hops(n);
    lemma_grown_new(v, w, pos, n, f);
    if a < n {
        lemma_grown_keeps(v, w, pos, n, f, a);
        assert(hop(w, pos, a, s) == hop(v, pos, a, s));
        assert(v.is_data(hop(v, pos, a, s)) && v.block_used(hop(v, pos, a, s)));
    }
    if m < n {
        lemma_grown_keeps(v, w, pos, n, f, m);
        assert(hop(w, pos, m, t) == hop(v, pos, m, t));
        assert(v.is_data(hop(v, pos, m, t)) && v.block_used(hop(v, pos, m, t)));
    }
    if a == n {
        assert(hop(w, pos, n, s) == holder(v, pos, n, f, s));
        if s <= s0 {
            lemma_shared(n, s);
            lemma_same_place(v, pos, n - 1, n, s);
        } else {
            assert(Fresh::is_new(n, s));
            assert(!v.block_used(f.at(s) as int));
        }
    }
    if m == n {
        assert(hop(w, pos, n, t) == holder(v, pos, n, f, t));
        if t <= s0 {
            lemma_shared(n, t);
            lemma_same_place(v, pos, n - 1, n, t);
        } else {
            assert(Fresh::is_new(n, t));
            assert(!v.block_used(f.at(t) as int));
        }
    }
    // both ways, as far as they are old, are ways of blocks before `n`
    let a0 = if a == n { n - 1 } else { a };
    let m0 = if m == n { n - 1 } else { m };
    let a_old = a < n || s <= s0;
    let m_old = m < n || t <= s0;
    if a_old && m_old {
        assert(hop(v, pos, a0, s) == hop(v, pos, m0, t));
        assert(place(a0, s) == place(m0, t));
    } else if !a_old && !m_old {
        assert(f.at(s) == f.at(t));
        assert(s == t);
    } else {
        assert(false);
    }
}

/// Between `v` and `w` the time, the superblock and the descriptors are the
/// same but for the counts of free blocks, and the same inodes are marked
/// as used.
pub open spec fn only_blocks_counted(v: FsView, w: FsView) -> bool {
    &&& w.time == v.time
    &&& w.groups.len() == v.groups.len()
    &&& w.super_block == (SuperBlock {
        s_free_blocks_count: w.super_block.s_free_blocks_count,
        ..v.super_block
    })
    &&& forall|g: int|
        0 <= g < v.groups.len() ==> #[trigger] w.groups[g] == (BlockGroupDesc {
            bg_free_blocks_count: w.groups[g].bg_free_blocks_count,
            ..v.groups[g]
        })
    &&& forall|i: int| 1 <= i <= v.super_block.s_inodes_count ==> #[trigger] w.inode_used(i) == v.inode_used(i)
}

impl Fresh {
    /// Block `p` is one of those taken for the pointers up to the
    /// `upto`-th on the way to block `n`.
    pub open spec fn has_upto(self, n: int, p: int, upto: int) -> bool {
        ||| shared_hops(n) < 1 <= upto && p == self.q1
        ||| shared_hops(n) < 2 <= upto && p == self.q2
        ||| shared_hops(n) < 3 <= upto && p == self.q3
    }

    /// Block `p` is one of those taken for the pointers before the
    /// `upto`-th on the way to block `n`.
    pub open spec fn node_upto(self, n: int, p: int, upto: int) -> bool {
        ||| shared_hops(n) < 1 < upto && p == self.q1
        ||| shared_hops(n) < 2 < upto && p == self.q2
    }

    /// These blocks with `q` for what the `s`-th pointer names.
    pub open spec fn with(self, s: int, q: u32) -> Fresh {
        if s <= 1 {
            Fresh { q1: q, ..self }
        } else if s == 2 {
            Fresh { q2: q, ..self }
        } else {
            Fresh { q3: q, ..self }
        }
    }
}

/// `w` is `v` on the way to giving the file whose inode is stored at `pos`
/// its block `n`: the new pointers up to the `upto`-th on the way are
/// written and name their blocks.
#[verifier::opaque]
pub open spec fn growing(v: FsView, w: FsView, pos: InodePos, n: int, f: Fresh, upto: int) -> bool {
    &&& shared_hops(n) <= upto <= level_of(n) + 1
    &&& v.same_geometry(w)
    &&& only_blocks_counted(v, w)
    &&& forall|s: int|
        #![trigger f.at(s)]
        shared_hops(n) < s <= upto ==> v.is_data(f.at(s) as int) && !v.block_used(f.at(s) as int)
    &&& forall|s: int, t: int|
        #![trigger f.at(s), f.at(t)]
        shared_hops(n) < s <= upto && shared_hops(n) < t <= upto && s != t ==> f.at(s) != f.at(t)
    &&& forall|p: int|
        0 <= p < v.groups.len() * BLOCKS_PER_GRP ==> #[trigger] w.block_used(p) == (v.block_used(p) || f.has_upto(
            n,
            p,
            upto,
        ))
    &&& forall|b: int|
        0 <= b < v.disk.len() && !v.is_bitmap(b) && (upto == shared_hops(n) || b != holder(
            v,
            pos,
            n,
            f,
            shared_hops(n),
        )) && !f.node_upto(n, b, upto) ==> #[trigger] w.disk[b] == v.disk[b]
    &&& forall|s: int|
        shared_hops(n) <= s < upto ==> #[trigger] w.disk[holder(v, pos, n, f, s)] == patch(
            v.disk[holder(v, pos, n, f, s)],
            hop_off(pos, n, s + 1),
            spec_u32_to_le_bytes(f.at(s + 1)),
        )
}

/// Before anything is done the file is on the way.
pub proof fn lemma_growing_start(v: FsView, pos: InodePos, n: int, f: Fresh)
    requires
        0 <= n < MAX_SIZE_BLOCKS,
    ensures
        growing(v, v, pos, n, f, shared_hops(n)),
{
    reveal(growing);
}

/// Once the last pointer is written the file has grown.
pub proof fn lemma_growing_done(v: FsView, w: FsView, pos: InodePos, n: int, f: Fresh)
    requires
        0 <= n < MAX_SIZE_BLOCKS,
        growing(v, w, pos, n, f, level_of(n) + 1),
    ensures
        grown(v, w, pos, n, f),
{
    reveal(grown);
    reveal(growing);
    let s0 = shared_hops(n);
    let l = level_of(n);
    assert forall|s: int| #![trigger f.at(s)] Fresh::is_new(n, s) implies v.is_data(f.at(s) as int)
        && !v.block_used(f.at(s) as int) by {}
    assert forall|p: int| 0 <= p < v.groups.len() * BLOCKS_PER_GRP implies #[trigger] w.block_used(p) == (
    v.block_used(p) || f.has(n, p)) by {
        assert(f.has(n, p) == f.has_upto(n, p, l + 1));
    }
    assert forall|b: int|
        0 <= b < v.disk.len() && !v.is_bitmap(b) && b != holder(v, pos, n, f, shared_hops(n)) && !f.has_node(
            n,
            b,
        ) implies #[trigger] w.disk[b] == v.disk[b] by {
        assert(f.has_node(n, b) == f.node_upto(n, b, l + 1));
    }
}

/// The pointers behind the first new one on the way to a new block are the
/// first of their blocks.
pub proof fn lemma_new_off(pos: InodePos, n: int, s: int)
    requires
        0 <= n < MAX_SIZE_BLOCKS,
        shared_hops(n) + 1 < s <= level_of(n) + 1,
    ensures
        hop_off(pos, n, s) == 0,
{
}

/// Taking a free block and writing the pointer to it where the next new
/// pointer on the way stands is a step on the way.
pub proof fn lemma_growing_step(
    v: FsView,
    cur: FsView,
    mid: FsView,
    next: FsView,
    pos: InodePos,
    n: int,
    f: Fresh,
    upto: int,
    q: u32,
)
    requires
        v.wf(),
        cur.wf(),
        0 <= n < MAX_SIZE_BLOCKS,
        sound_place(v, pos),
        growing(v, cur, pos, n, f, upto),
        upto <= level_of(n),
        cur.took_block(mid, q as int),
        mid.wf(),
        shared_hops(n) >= 1 ==> v.is_data(hop(v, pos, n, shared_hops(n))) && v.block_used(
            hop(v, pos, n, shared_hops(n)),
        ),
        next == mid.written(holder(v, pos, n, f, upto), hop_off(pos, n, upto + 1), spec_u32_to_le_bytes(q)),
    ensures
        growing(v, next, pos, n, f.with(upto + 1, q), upto + 1),
        holder(v, pos, n, f.with(upto + 1, q), upto + 1) == q,
{
    reveal(growing);
    let s0 = shared_hops(n);
    let g = f.with(upto + 1, q);
    let h = holder(v, pos, n, f, upto);
    v.lemma_blocks();
    v.lemma_same_geometry(cur);
    v.lemma_same_geometry(mid);
    cur.lemma_same_geometry(mid);
    assert(forall|s: int| 1 <= s <= upto ==> g.at(s) == f.at(s));
    assert(g.at(upto + 1) == q);
    assert(forall|s: int| s <= upto ==> holder(v, pos, n, g, s) == holder(v, pos, n, f, s));
    // the holder is a block of the device that is no bitmap
    if upto >= 1 {
        if upto > s0 {
            assert(v.is_data(f.at(upto) as int));
        }
        v.lemma_data_block(h);
    }
    assert(0 <= h < v.disk.len() && !v.is_bitmap(h));
    mid.lemma_written_marks(h, hop_off(pos, n, upto + 1), spec_u32_to_le_bytes(q));
    // the new block was free before the file began to grow
    v.lemma_in_groups(q as int);
    assert(!v.block_used(q as int)) by {
        assert(cur.block_used(q as int) == (v.block_used(q as int) || f.has_upto(n, q as int, upto)));
    }
    assert(!f.has_upto(n, q as int, upto)) by {
        assert(cur.block_used(q as int) == (v.block_used(q as int) || f.has_upto(n, q as int, upto)));
    }
    assert(q != h) by {
        if upto > s0 {
            assert(f.has_upto(n, h, upto));
        } else if upto >= 1 {
            assert(v.block_used(h));
        }
    }
    assert forall|s: int| #![trigger g.at(s)] s0 < s <= upto + 1 implies v.is_data(g.at(s) as int)
        && !v.block_used(g.at(s) as int) by {
        if s <= upto {
            assert(g.at(s) == f.at(s));
            assert(v.is_data(f.at(s) as int) && !v.block_used(f.at(s) as int));
        }
    }
    assert forall|s: int, t: int|
        #![trigger g.at(s), g.at(t)]
        s0 < s <= upto + 1 && s0 < t <= upto + 1 && s != t implies g.at(s) != g.at(t) by {
        if s <= upto && t <= upto {
            assert(f.at(s) != f.at(t));
        } else if s <= upto {
            assert(f.has_upto(n, f.at(s) as int, upto));
        } else {
            assert(f.has_upto(n, f.at(t) as int, upto));
        }
    }
    assert forall|p: int| 0 <= p < v.groups.len() * BLOCKS_PER_GRP implies #[trigger] next.block_used(p) == (
    v.block_used(p) || g.has_upto(n, p, upto + 1)) by {
        assert(next.block_used(p) == mid.block_used(p));
        assert(mid.block_used(p) == (p == q || cur.block_used(p)));
        assert(cur.block_used(p) == (v.block_used(p) || f.has_upto(n, p, upto)));
        assert(g.has_upto(n, p, upto + 1) == (f.has_upto(n, p, upto) || p == q));
    }
    assert forall|b: int|
        0 <= b < v.disk.len() && !v.is_bitmap(b) && b != holder(v, pos, n, g, s0) && !g.node_upto(n, b, upto + 1)
        implies #[trigger] next.disk[b] == v.disk[b] by {
        assert(mid.disk[b] == cur.disk[b]);
        assert(b != h) by {
            if upto > s0 {
                assert(g.node_upto(n, h, upto + 1));
            }
        }
        assert(next.disk[b] == mid.disk[b]);
        assert(!f.node_upto(n, b, upto));
        assert(cur.disk[b] == v.disk[b]);
    }
    assert forall|s: int| s0 <= s < upto + 1 implies #[trigger] next.disk[holder(v, pos, n, g, s)] == patch(
        v.disk[holder(v, pos, n, g, s)],
        hop_off(pos, n, s + 1),
        spec_u32_to_le_bytes(g.at(s + 1)),
    ) by {
        let hs = holder(v, pos, n, f, s);
        assert(holder(v, pos, n, g, s) == hs);
        if s < upto {
            assert(cur.disk[holder(v, pos, n, f, s)] == patch(
                v.disk[holder(v, pos, n, f, s)],
                hop_off(pos, n, s + 1),
                spec_u32_to_le_bytes(f.at(s + 1)),
            ));
            // an earlier holder is another block than this one
            assert(hs != h) by {
                if s == s0 {
                    if s0 >= 1 {
                        assert(v.block_used(hs));
                    }
                    assert(upto > s0);
                    assert(!v.block_used(f.at(upto) as int));
                    if s0 == 0 {
                        assert(v.is_data(f.at(upto) as int));
                    }
                } else {
                    assert(f.at(s) != f.at(upto));
                }
            }
            if s >= 1 {
                if s > s0 {
                    assert(v.is_data(f.at(s) as int));
                }
                v.lemma_data_block(hs);
            }
            assert(mid.disk[hs] == cur.disk[hs]);
            assert(next.disk[hs] == mid.disk[hs]);
            assert(g.at(s + 1) == f.at(s + 1));
        } else {
            // the holder itself was as at the start until now
            assert(cur.disk[h] == v.disk[h]) by {
                if upto == s0 {
                } else {
                    assert(!f.node_upto(n, h, upto)) by {
                        assert(forall|a: int, b: int|
                            #![trigger f.at(a), f.at(b)]
                            s0 < a <= upto && s0 < b <= upto && a != b ==> f.at(a) != f.at(b));
                        if s0 < 1 < upto {
                            assert(f.at(1) != f.at(upto));
                        }
                        if s0 < 2 < upto {
                            assert(f.at(2) != f.at(upto));
                        }
                    }
                    assert(h != holder(v, pos, n, f, s0)) by {
                        if s0 >= 1 {
                            assert(v.block_used(holder(v, pos, n, f, s0)));
                        } else {
                            assert(v.is_data(h));
                        }
                    }
                }
            }
            assert(mid.disk[h] == cur.disk[h]);
        }
    }
}

/// An inode can be stored at `pos`: in a block of the device that is no
/// bitmap and not for data, at a multiple of four.
pub open spec fn sound_place(v: FsView, pos: InodePos) -> bool {
    &&& pos.off % 4 == 0
    &&& 0 <= pos.off
    &&& pos.off + 128 <= BLOCK_SIZE
    &&& 0 <= pos.block < v.disk.len()
    &&& !v.is_data(pos.block)
    &&& !v.is_bitmap(pos.block)
}

/// On a sound block map the pointers that a new block shares with the
/// block before it name blocks for data that are marked as used.
pub proof fn lemma_shared_sound(v: FsView, pos: InodePos, n: int, s: int)
    requires
        sound(v, pos, n),
        0 <= n < MAX_SIZE_BLOCKS,
        1 <= s <= shared_hops(n),
    ensures
        v.is_data(hop(v, pos, n, s)),
        v.block_used(hop(v, pos, n, s)),
{
    reveal(sound);
    lemma_shared(n, s);
    lemma_same_place(v, pos, n - 1, n, s);
    assert(v.is_data(hop(v, pos, n - 1, s)) && v.block_used(hop(v, pos, n - 1, s)));
}

/// What has been counted since `a` is what was counted up to `b` and what
/// was counted from there on.
pub proof fn lemma_counted_trans(a: FsView, b: FsView, c: FsView)
    requires
        a.wf(),
        a.same_geometry(b),
        only_blocks_counted(a, b),
        only_blocks_counted(b, c),
    ensures
        only_blocks_counted(a, c),
{
    a.lemma_same_geometry(b);
    assert forall|g: int| 0 <= g < a.groups.len() implies #[trigger] c.groups[g] == (BlockGroupDesc {
        bg_free_blocks_count: c.groups[g].bg_free_blocks_count,
        ..a.groups[g]
    }) by {
        assert(b.groups[g] == (BlockGroupDesc {
            bg_free_blocks_count: b.groups[g].bg_free_blocks_count,
            ..a.groups[g]
        }));
    }
    assert forall|i: int| 1 <= i <= a.super_block.s_inodes_count implies #[trigger] c.inode_used(i) == a.inode_used(
        i,
    ) by {
        assert(b.inode_used(i) == a.inode_used(i));
    }
}

/// Nothing is counted between a file system and itself.
pub proof fn lemma_counted_refl(a: FsView)
    ensures
        only_blocks_counted(a, a),
{
}

/// Taking a block counts blocks alone.
pub proof fn lemma_took_counted(a: FsView, b: FsView, q: int)
    requires
        a.took_block(b, q),
    ensures
        only_blocks_counted(a, b),
{
}

/// Giving a block back counts blocks alone.
pub proof fn lemma_gave_counted(a: FsView, b: FsView, q: int)
    requires
        a.gave_block(b, q),
    ensures
        only_blocks_counted(a, b),
{
}

/// Writing into a block that is no bitmap counts nothing.
pub proof fn lemma_written_counted(a: FsView, block: int, off: int, bytes: Seq<u8>)
    requires
        a.wf(),
        0 <= block < a.disk.len(),
        !a.is_bitmap(block),
    ensures
        only_blocks_counted(a, a.written(block, off, bytes)),
{
    a.lemma_written_marks(block, off, bytes);
}

/// A new block brings as many blocks into a file as there are new pointers
/// on the way to it.
pub proof fn lemma_blocks_added(n: int)
    requires
        0 <= n < MAX_SIZE_BLOCKS,
    ensures
        crate::block_map::blocks_added(n) == level_of(n) + 1 - shared_hops(n),
{
    reveal_with_fuel(crate::block_map::nodes_added, 4);
}

/// Byte `i` of a file with a sound block map: byte `i % BLOCK_SIZE` of the
/// data block of block `i / BLOCK_SIZE`.
pub open spec fn byte_at(v: FsView, pos: InodePos, i: int) -> u8 {
    v.disk[data_block(v, pos, i / BLOCK_SIZE as int)][i % BLOCK_SIZE as int]
}

/// On a sound block map the bytes of the file are those of its data
/// blocks.
pub proof fn lemma_byte_at(v: FsView, pos: InodePos, nb: int, i: int)
    requires
        sound(v, pos, nb),
        0 <= i < nb * BLOCK_SIZE,
    ensures
        crate::block_map::file_byte(v, pos, i) == byte_at(v, pos, i),
{
    reveal(sound);
    lemma_sound_found(v, pos, nb, i / BLOCK_SIZE as int);
}

/// The ways to the blocks of a file are the same in `w` as in `v`.
pub open spec fn same_ways(v: FsView, w: FsView, pos: InodePos, nb: int) -> bool {
    forall|m: int, t: int| 0 <= m < nb && on_path(m, t) ==> #[trigger] hop(w, pos, m, t) == hop(v, pos, m, t)
}

/// The data block of a block of a file holds no pointer on the way to any
/// block of the file.
pub proof fn lemma_leaf(v: FsView, pos: InodePos, nb: int, t: int, m: int, s: int)
    requires
        sound(v, pos, nb),
        0 <= t < nb,
        0 <= m < nb,
        on_path(m, s),
        s <= level_of(m),
    ensures
        hop(v, pos, m, s) != data_block(v, pos, t),
{
    reveal(sound);
    assert(on_path(t, level_of(t) + 1));
    if hop(v, pos, m, s) == hop(v, pos, t, level_of(t) + 1) {
        assert(place(m, s) == place(t, level_of(t) + 1));
    }
}

/// A change of the disk that leaves every pointer on a way as it was, and
/// every block that was marked as used marked so, leaves the ways as they
/// were and the block map sound.
pub proof fn lemma_ways_kept(v: FsView, w: FsView, pos: InodePos, nb: int)
    requires
        v.wf(),
        sound(v, pos, nb),
        v.same_geometry(w),
        forall|m: int, s: int|
            0 <= m < nb && on_path(m, s) ==> le32(
                w.disk[#[trigger] hop(v, pos, m, s - 1)],
                hop_off(pos, m, s),
            ) == le32(v.disk[hop(v, pos, m, s - 1)], hop_off(pos, m, s)),
        forall|m: int, s: int|
            0 <= m < nb && on_path(m, s) ==> w.block_used(#[trigger] hop(v, pos, m, s)),
    ensures
        same_ways(v, w, pos, nb),
        sound(w, pos, nb),
{
    reveal(sound);
    v.lemma_blocks();
    v.lemma_same_geometry(w);
    assert forall|m: int, t: int| 0 <= m < nb && on_path(m, t) implies #[trigger] hop(w, pos, m, t) == hop(
        v,
        pos,
        m,
        t,
    ) by {
        assert(on_path(m, 1));
        assert(hop(v, pos, m, 1 - 1) == pos.block);
        assert(hop(w, pos, m, 1) == hop(v, pos, m, 1));
        if t >= 2 {
            assert(on_path(m, 2));
            assert(hop(v, pos, m, 2 - 1) == hop(v, pos, m, 1));
            assert(hop(w, pos, m, 2) == hop(v, pos, m, 2));
        }
        if t >= 3 {
            assert(on_path(m, 3));
            assert(hop(v, pos, m, 3 - 1) == hop(v, pos, m, 2));
            assert(hop(w, pos, m, 3) == hop(v, pos, m, 3));
        }
    }
    assert forall|m: int, t: int| 0 <= m < nb && on_path(m, t) implies w.is_data(#[trigger] hop(w, pos, m, t))
        && w.block_used(hop(w, pos, m, t)) by {
        let b = hop(v, pos, m, t);
        assert(v.is_data(b) && v.block_used(b));
        assert(w.block_used(hop(v, pos, m, t)));
    }
    assert forall|a: int, s: int, m: int, t: int|
        #![trigger hop(w, pos, a, s), hop(w, pos, m, t)]
        0 <= a < nb && 0 <= m < nb && on_path(a, s) && on_path(m, t) && hop(w, pos, a, s) == hop(w, pos, m, t)
        implies place(a, s) == place(m, t) by {
        assert(hop(v, pos, a, s) == hop(v, pos, m, t));
    }
}

/// Writing into the data block of a block of a file leaves the block map
/// sound and the ways as they were; of the bytes of the file it changes
/// those of that block that are written, and no others.
pub proof fn lemma_data_written(v: FsView, pos: InodePos, nb: int, t: int, start: int, bytes: Seq<u8>)
    requires
        v.wf(),
        sound(v, pos, nb),
        0 <= t < nb,
        0 <= start,
        start + bytes.len() <= BLOCK_SIZE,
    ensures
        ({
            let w = v.written(data_block(v, pos, t), start, bytes);
            &&& sound(w, pos, nb)
            &&& same_ways(v, w, pos, nb)
            &&& forall|i: int|
                0 <= i < nb * BLOCK_SIZE ==> #[trigger] byte_at(w, pos, i) == if t * BLOCK_SIZE + start <= i < t
                    * BLOCK_SIZE + start + bytes.len() {
                    bytes[i - t * BLOCK_SIZE - start]
                } else {
                    byte_at(v, pos, i)
                }
        }),
{
    reveal(sound);
    let d = data_block(v, pos, t);
    let w = v.written(d, start, bytes);
    v.lemma_blocks();
    lemma_sound_found(v, pos, nb, t);
    v.lemma_data_block(d);
    v.lemma_written_marks(d, start, bytes);
    assert forall|m: int, s: int| 0 <= m < nb && on_path(m, s) implies le32(
        w.disk[#[trigger] hop(v, pos, m, s - 1)],
        hop_off(pos, m, s),
    ) == le32(v.disk[hop(v, pos, m, s - 1)], hop_off(pos, m, s)) by {
        if s >= 2 {
            assert(on_path(m, s - 1));
            lemma_leaf(v, pos, nb, t, m, s - 1);
        }
    }
    assert forall|m: int, s: int| 0 <= m < nb && on_path(m, s) implies w.block_used(#[trigger] hop(v, pos, m, s)) by {
        assert(v.is_data(hop(v, pos, m, s)) && v.block_used(hop(v, pos, m, s)));
        v.lemma_in_groups(hop(v, pos, m, s));
    }
    lemma_ways_kept(v, w, pos, nb);
    assert forall|i: int| 0 <= i < nb * BLOCK_SIZE implies #[trigger] byte_at(w, pos, i) == if t * BLOCK_SIZE
        + start <= i < t * BLOCK_SIZE + start + bytes.len() {
        bytes[i - t * BLOCK_SIZE - start]
    } else {
        byte_at(v, pos, i)
    } by {
        let m = i / BLOCK_SIZE as int;
        assert(on_path(m, level_of(m) + 1));
        assert(hop(w, pos, m, level_of(m) + 1) == hop(v, pos, m, level_of(m) + 1));
        assert(on_path(t, level_of(t) + 1));
        if m != t {
            if data_block(v, pos, m) == d {
                assert(hop(v, pos, m, level_of(m) + 1) == hop(v, pos, t, level_of(t) + 1));
                assert(place(m, level_of(m) + 1) == place(t, level_of(t) + 1));
                assert(false);
            }
            lemma_sound_found(v, pos, nb, m);
            v.lemma_data_block(data_block(v, pos, m));
        }
    }
}

/// Block `p` is one of those that only lead to block `n` of a file, and
/// that among them which the `s`-th pointer or a later one names, for an
/// `s` greater than `from`.
pub open spec fn freed_from(v: FsView, pos: InodePos, n: int, p: int, from: int) -> bool {
    ||| from < 1 && shared_hops(n) < 1 && p == hop(v, pos, n, 1)
    ||| from < 2 && shared_hops(n) < 2 <= level_of(n) + 1 && p == hop(v, pos, n, 2)
    ||| from < 3 && shared_hops(n) < 3 <= level_of(n) + 1 && p == hop(v, pos, n, 3)
}

/// `w` is `v` on the way to taking block `n` from the file whose inode is
/// stored at `pos`: the blocks that only lead to block `n` are given back
/// as far as the pointers behind the `from`-th name them.
#[verifier::opaque]
pub open spec fn shrinking(v: FsView, w: FsView, pos: InodePos, n: int, from: int) -> bool {
    &&& shared_hops(n) <= from <= level_of(n) + 1
    &&& v.same_geometry(w)
    &&& only_blocks_counted(v, w)
    &&& forall|p: int|
        0 <= p < v.groups.len() * BLOCKS_PER_GRP ==> #[trigger] w.block_used(p) == (v.block_used(p) && !freed_from(
            v,
            pos,
            n,
            p,
            from,
        ))
    &&& forall|b: int|
        0 <= b < v.disk.len() && !v.is_bitmap(b) && !freed_from(v, pos, n, b, from) ==> #[trigger] w.disk[b]
            == v.disk[b]
}

/// `w` is `v` after block `n`, the last, was taken from the file whose
/// inode is stored at `pos`: the blocks that only led to it are given back,
/// and the pointer to the first of them is zero.
#[verifier::opaque]
pub open spec fn shrunk(v: FsView, w: FsView, pos: InodePos, n: int) -> bool {
    &&& v.same_geometry(w)
    &&& only_blocks_counted(v, w)
    &&& forall|p: int|
        0 <= p < v.groups.len() * BLOCKS_PER_GRP ==> #[trigger] w.block_used(p) == (v.block_used(p) && !freed_from(
            v,
            pos,
            n,
            p,
            shared_hops(n),
        ))
    &&& forall|b: int|
        0 <= b < v.disk.len() && !v.is_bitmap(b) && !freed_from(v, pos, n, b, shared_hops(n)) && b != hop(
            v,
            pos,
            n,
            shared_hops(n),
        ) ==> #[trigger] w.disk[b] == v.disk[b]
    &&& w.disk[hop(v, pos, n, shared_hops(n))] == patch(
        v.disk[hop(v, pos, n, shared_hops(n))],
        hop_off(pos, n, shared_hops(n) + 1),
        spec_u32_to_le_bytes(0),
    )
}

/// A place that is new with block `n` is a place of no block before it.
pub proof fn lemma_new_place(n: int, t: int, m: int, s: int)
    requires
        on_path(n, t),
        on_path(m, s),
        shared_hops(n) < t,
        place(m, s) == place(n, t),
    ensures
        m >= n,
{
}

/// Giving back the block that the `from`-th pointer on the way names is a
/// step on the way.
pub proof fn lemma_shrinking_step(v: FsView, cur: FsView, next: FsView, pos: InodePos, n: int, from: int)
    requires
        v.wf(),
        cur.wf(),
        0 <= n < MAX_SIZE_BLOCKS,
        sound(v, pos, n + 1),
        shrinking(v, cur, pos, n, from),
        from > shared_hops(n),
        cur.gave_block(next, hop(v, pos, n, from)),
    ensures
        shrinking(v, next, pos, n, from - 1),
{
    reveal(sound);
    reveal(shrinking);
    let q = hop(v, pos, n, from);
    v.lemma_same_geometry(cur);
    lemma_gave_counted(cur, next, q);
    lemma_counted_trans(v, cur, next);
    assert(on_path(n, from));
    assert forall|p: int| 0 <= p < v.groups.len() * BLOCKS_PER_GRP implies #[trigger] next.block_used(p) == (
    v.block_used(p) && !freed_from(v, pos, n, p, from - 1)) by {
        assert(next.block_used(p) == (p != q && cur.block_used(p)));
        assert(cur.block_used(p) == (v.block_used(p) && !freed_from(v, pos, n, p, from)));
        assert(freed_from(v, pos, n, p, from - 1) == (freed_from(v, pos, n, p, from) || p == q));
    }
    assert forall|b: int|
        0 <= b < v.disk.len() && !v.is_bitmap(b) && !freed_from(v, pos, n, b, from - 1) implies #[trigger] next.disk[b]
        == v.disk[b] by {
        assert(freed_from(v, pos, n, b, from - 1) == (freed_from(v, pos, n, b, from) || b == q));
        assert(cur.disk[b] == v.disk[b]);
    }
}

/// Once the blocks are given back and the pointer to the first of them is
/// set to zero, the file has lost its block.
pub proof fn lemma_shrinking_done(v: FsView, cur: FsView, next: FsView, pos: InodePos, n: int)
    requires
        v.wf(),
        cur.wf(),
        0 <= n < MAX_SIZE_BLOCKS,
        sound(v, pos, n + 1),
        shrinking(v, cur, pos, n, shared_hops(n)),
        next == cur.written(hop(v, pos, n, shared_hops(n)), hop_off(pos, n, shared_hops(n) + 1), spec_u32_to_le_bytes(0)),
    ensures
        shrunk(v, next, pos, n),
{
    reveal(sound);
    reveal(shrunk);
    reveal(shrinking);
    let s0 = shared_hops(n);
    let h = hop(v, pos, n, s0);
    v.lemma_blocks();
    v.lemma_same_geometry(cur);
    if s0 >= 1 {
        assert(on_path(n, s0));
        assert(v.is_data(hop(v, pos, n, s0)));
        v.lemma_data_block(h);
    }
    // the holder is none of the blocks that are given back
    assert(!freed_from(v, pos, n, h, s0)) by {
        if s0 >= 1 {
            if freed_from(v, pos, n, h, s0) {
                let t = if s0 < 2 && h == hop(v, pos, n, 2) && 2 <= level_of(n) + 1 {
                    2int
                } else {
                    3int
                };
                assert(on_path(n, t));
                assert(hop(v, pos, n, s0) == hop(v, pos, n, t));
                assert(place(n, s0) == place(n, t));
            }
        } else {
            assert(on_path(n, 1));
            assert(v.is_data(hop(v, pos, n, 1)));
            if level_of(n) >= 1 {
                assert(on_path(n, 2));
                assert(v.is_data(hop(v, pos, n, 2)));
            }
            if level_of(n) >= 2 {
                assert(on_path(n, 3));
                assert(v.is_data(hop(v, pos, n, 3)));
            }
        }
    }
    assert(cur.disk[h] == v.disk[h]);
    lemma_written_counted(cur, h, hop_off(pos, n, s0 + 1), spec_u32_to_le_bytes(0));
    lemma_counted_trans(v, cur, next);
    cur.lemma_written_marks(h, hop_off(pos, n, s0 + 1), spec_u32_to_le_bytes(0));
}

/// Taking the last block from a file keeps a sound block map sound, keeps
/// the way to every block that is left, and leaves those blocks as they
/// were.
pub proof fn lemma_shrunk(v: FsView, w: FsView, pos: InodePos, n: int)
    requires
        v.wf(),
        0 <= n < MAX_SIZE_BLOCKS,
        sound(v, pos, n + 1),
        shrunk(v, w, pos, n),
    ensures
        sound(w, pos, n),
        same_ways(v, w, pos, n),
        forall|i: int| 0 <= i < n * BLOCK_SIZE ==> #[trigger] byte_at(w, pos, i) == byte_at(v, pos, i),
{
    reveal(sound);
    reveal(shrunk);
    let s0 = shared_hops(n);
    let h = hop(v, pos, n, s0);
    v.lemma_blocks();
    v.lemma_same_geometry(w);
    if s0 >= 1 {
        assert(on_path(n, s0));
        assert(v.is_data(hop(v, pos, n, s0)));
        v.lemma_data_block(h);
    }
    // a block on a way that is left is none of those given back
    assert forall|m: int, s: int| 0 <= m < n && on_path(m, s) implies !freed_from(
        v,
        pos,
        n,
        #[trigger] hop(v, pos, m, s),
        s0,
    ) by {
        let b = hop(v, pos, m, s);
        if freed_from(v, pos, n, b, s0) {
            let t = if s0 < 1 && b == hop(v, pos, n, 1) {
                1int
            } else if s0 < 2 && b == hop(v, pos, n, 2) && 2 <= level_of(n) + 1 {
                2int
            } else {
                3int
            };
            assert(on_path(n, t));
            assert(hop(v, pos, m, s) == hop(v, pos, n, t));
            assert(place(m, s) == place(n, t));
            lemma_new_place(n, t, m, s);
        }
    }
    assert forall|m: int, s: int| 0 <= m < n && on_path(m, s) implies le32(
        w.disk[#[trigger] hop(v, pos, m, s - 1)],
        hop_off(pos, m, s),
    ) == le32(v.disk[hop(v, pos, m, s - 1)], hop_off(pos, m, s)) by {
        let x = hop(v, pos, m, s - 1);
        lemma_hop_off(pos, m, s);
        assert(on_path(n, s0 + 1));
        lemma_hop_off(pos, n, s0 + 1);
        if s >= 2 {
            assert(on_path(m, s - 1));
            assert(v.is_data(hop(v, pos, m, s - 1)));
            assert(!freed_from(v, pos, n, hop(v, pos, m, s - 1), s0));
            v.lemma_data_block(x);
        } else {
            assert(x == pos.block);
            assert(!freed_from(v, pos, n, pos.block, s0)) by {
                assert(on_path(n, 1));
                assert(v.is_data(hop(v, pos, n, 1)));
                if level_of(n) >= 1 {
                    assert(on_path(n, 2));
                    assert(v.is_data(hop(v, pos, n, 2)));
                }
                if level_of(n) >= 2 {
                    assert(on_path(n, 3));
                    assert(v.is_data(hop(v, pos, n, 3)));
                }
            }
        }
        if x == h {
            // the same block holds the pointer that is set to zero: it
            // stands elsewhere
            if s0 >= 1 {
                assert(s >= 2);
                assert(hop(v, pos, m, s - 1) == hop(v, pos, n, s0));
                assert(place(m, s - 1) == place(n, s0));
            }
            assert(hop_off(pos, m, s) != hop_off(pos, n, s0 + 1));
            lemma_cell(v.disk[h], hop_off(pos, n, s0 + 1), 0, hop_off(pos, m, s));
        } else {
            assert(w.disk[x] == v.disk[x]);
        }
    }
    assert forall|m: int, s: int| 0 <= m < n && on_path(m, s) implies w.block_used(#[trigger] hop(v, pos, m, s)) by {
        assert(v.is_data(hop(v, pos, m, s)) && v.block_used(hop(v, pos, m, s)));
        v.lemma_in_groups(hop(v, pos, m, s));
        assert(!freed_from(v, pos, n, hop(v, pos, m, s), s0));
    }
    lemma_sound_less(v, pos, n + 1, n);
    lemma_ways_kept(v, w, pos, n);
    assert forall|i: int| 0 <= i < n * BLOCK_SIZE implies #[trigger] byte_at(w, pos, i) == byte_at(v, pos, i) by {
        let m = i / BLOCK_SIZE as int;
        assert(on_path(m, level_of(m) + 1));
        let d = hop(v, pos, m, level_of(m) + 1);
        assert(hop(w, pos, m, level_of(m) + 1) == d);
        assert(v.is_data(d));
        v.lemma_data_block(d);
        assert(!freed_from(v, pos, n, hop(v, pos, m, level_of(m) + 1), s0));
        if d == h {
            if s0 >= 1 {
                assert(hop(v, pos, m, level_of(m) + 1) == hop(v, pos, n, s0));
                assert(place(m, level_of(m) + 1) == place(n, s0));
            }
            assert(false);
        }
    }
}

/// On a sound block map, what the `from`-th pointer on the way to the last
/// block names is none of the blocks that later pointers on that way name.
pub proof fn lemma_not_freed_yet(v: FsView, pos: InodePos, n: int, from: int)
    requires
        0 <= n < MAX_SIZE_BLOCKS,
        sound(v, pos, n + 1),
        on_path(n, from),
    ensures
        !freed_from(v, pos, n, hop(v, pos, n, from), from),
{
    reveal(sound);
    if freed_from(v, pos, n, hop(v, pos, n, from), from) {
        let t = if from < 2 && shared_hops(n) < 2 <= level_of(n) + 1 && hop(v, pos, n, from) == hop(v, pos, n, 2) {
            2int
        } else {
            3int
        };
        assert(on_path(n, t));
        assert(hop(v, pos, n, from) == hop(v, pos, n, t));
        assert(place(n, from) == place(n, t));
    }
}

/// A block map that is sound for some blocks is sound for fewer.
pub proof fn lemma_sound_less(v: FsView, pos: InodePos, nb: int, less: int)
    requires
        sound(v, pos, nb),
        0 <= less <= nb,
    ensures
        sound(v, pos, less),
{
    reveal(sound);
}

/// The bytes of the first `nb` blocks of a file are the same in `w` as in
/// `v`.
pub open spec fn same_bytes(v: FsView, w: FsView, pos: InodePos, nb: int) -> bool {
    forall|i: int| 0 <= i < nb * BLOCK_SIZE ==> #[trigger] byte_at(w, pos, i) == byte_at(v, pos, i)
}

/// Storing an inode, this file's or another's, leaves the block map of the
/// file sound, and its ways and bytes as they were.
pub proof fn lemma_inode_written(v: FsView, pos: InodePos, nb: int, block: int, off: int, inode: DiskInode)
    requires
        v.wf(),
        sound(v, pos, nb),
        0 <= block < v.disk.len(),
        !v.is_bitmap(block),
        !v.is_data(block),
        0 <= off,
        off % 128 == 0,
        off + 128 <= BLOCK_SIZE,
        pos.off % 128 == 0,
    ensures
        sound(v.inode_written(block, off, inode), pos, nb),
        same_ways(v, v.inode_written(block, off, inode), pos, nb),
        same_bytes(v, v.inode_written(block, off, inode), pos, nb),
{
    reveal(sound);
    let w = v.inode_written(block, off, inode);
    let region = v.disk[block].subrange(off, off + 128);
    let stored = inode.store(region);
    v.lemma_blocks();
    inode.lemma_store_parse(region);
    inode.lemma_store_keeps_block_map(region);
    v.lemma_written_marks(block, off, stored);
    assert forall|m: int, s: int| 0 <= m < nb && on_path(m, s) implies le32(
        w.disk[#[trigger] hop(v, pos, m, s - 1)],
        hop_off(pos, m, s),
    ) == le32(v.disk[hop(v, pos, m, s - 1)], hop_off(pos, m, s)) by {
        let x = hop(v, pos, m, s - 1);
        lemma_hop_off(pos, m, s);
        let o = hop_off(pos, m, s);
        if s >= 2 {
            assert(on_path(m, s - 1));
            assert(v.is_data(hop(v, pos, m, s - 1)));
        } else {
            assert(x == pos.block);
            if block == pos.block {
                assert(w.disk[block].subrange(o, o + 4) =~= v.disk[block].subrange(o, o + 4)) by {
                    if off == pos.off {
                        assert forall|j: int| o <= j < o + 4 implies w.disk[block][j] == v.disk[block][j] by {
                            assert(stored.subrange(40, 100)[j - off - 40] == region.subrange(40, 100)[j - off - 40]);
                        }
                    }
                }
            }
        }
    }
    assert forall|m: int, s: int| 0 <= m < nb && on_path(m, s) implies w.block_used(#[trigger] hop(v, pos, m, s)) by {
        assert(v.is_data(hop(v, pos, m, s)) && v.block_used(hop(v, pos, m, s)));
        v.lemma_in_groups(hop(v, pos, m, s));
    }
    lemma_ways_kept(v, w, pos, nb);
    assert forall|i: int| 0 <= i < nb * BLOCK_SIZE implies #[trigger] byte_at(w, pos, i) == byte_at(v, pos, i) by {
        let m = i / BLOCK_SIZE as int;
        assert(on_path(m, level_of(m) + 1));
        assert(hop(w, pos, m, level_of(m) + 1) == hop(v, pos, m, level_of(m) + 1));
        assert(v.is_data(hop(v, pos, m, level_of(m) + 1)));
    }
}

/// The bytes of the file from `from` up to `to`, where the block map is
/// sound.
pub open spec fn bytes_of(v: FsView, pos: InodePos, from: int, to: int) -> Seq<u8> {
    Seq::new((to - from) as nat, |i: int| byte_at(v, pos, from + i))
}

/// On a sound block map the bytes of the file are those that reading
/// finds.
pub proof fn lemma_bytes_of(v: FsView, pos: InodePos, nb: int, from: int, to: int)
    requires
        sound(v, pos, nb),
        0 <= from <= to <= nb * BLOCK_SIZE,
    ensures
        crate::block_map::file_bytes(v, pos, from, to) == bytes_of(v, pos, from, to),
        crate::block_map::blocks_mapped(v, pos, 0, nb),
{
    reveal(sound);
    assert forall|j: int| from <= j < to implies crate::block_map::file_byte(v, pos, j) == #[trigger] byte_at(
        v,
        pos,
        j,
    ) by {
        lemma_byte_at(v, pos, nb, j);
    }
    assert(crate::block_map::file_bytes(v, pos, from, to) =~= bytes_of(v, pos, from, to));
    assert forall|n: int| 0 <= n < nb implies (#[trigger] crate::block_map::file_block(v, pos, n)) is Some by {
        lemma_sound_found(v, pos, nb, n);
    }
}

/// Growing by a block leaves the bytes of the old blocks as they were.
pub proof fn lemma_grown_bytes(v: FsView, w: FsView, pos: InodePos, n: int, f: Fresh)
    requires
        v.wf(),
        sound(v, pos, n),
        0 <= n < MAX_SIZE_BLOCKS,
        grown(v, w, pos, n, f),
    ensures
        sound(w, pos, n + 1),
        same_ways(v, w, pos, n),
        same_bytes(v, w, pos, n),
{
    reveal(sound);
    reveal(grown);
    lemma_grown(v, w, pos, n, f);
    assert forall|i: int| 0 <= i < n * BLOCK_SIZE implies #[trigger] byte_at(w, pos, i) == byte_at(v, pos, i) by {
        let m = i / BLOCK_SIZE as int;
        assert(on_path(m, level_of(m) + 1));
        assert(hop(w, pos, m, level_of(m) + 1) == hop(v, pos, m, level_of(m) + 1));
        assert(w.disk[data_block(v, pos, m)] == v.disk[data_block(v, pos, m)]);
    }
}

/// What is the same from `a` to `b` and from `b` to `c` is the same from
/// `a` to `c`.
pub proof fn lemma_same_trans(a: FsView, b: FsView, c: FsView, pos: InodePos, nb: int)
    requires
        same_ways(a, b, pos, nb),
        same_bytes(a, b, pos, nb),
        same_ways(b, c, pos, nb),
        same_bytes(b, c, pos, nb),
    ensures
        same_ways(a, c, pos, nb),
        same_bytes(a, c, pos, nb),
{
    assert forall|m: int, t: int| 0 <= m < nb && on_path(m, t) implies #[trigger] hop(c, pos, m, t) == hop(
        a,
        pos,
        m,
        t,
    ) by {
        assert(hop(b, pos, m, t) == hop(a, pos, m, t));
    }
    assert forall|i: int| 0 <= i < nb * BLOCK_SIZE implies #[trigger] byte_at(c, pos, i) == byte_at(a, pos, i) by {
        assert(byte_at(b, pos, i) == byte_at(a, pos, i));
    }
}

/// What is the same for some blocks is the same for fewer.
pub proof fn lemma_same_less(a: FsView, b: FsView, pos: InodePos, nb: int, less: int)
    requires
        same_ways(a, b, pos, nb),
        same_bytes(a, b, pos, nb),
        0 <= less <= nb,
    ensures
        same_ways(a, b, pos, less),
        same_bytes(a, b, pos, less),
{
    assert forall|i: int| 0 <= i < less * BLOCK_SIZE implies #[trigger] byte_at(b, pos, i) == byte_at(a, pos, i) by {
        assert(i < nb * BLOCK_SIZE) by (nonlinear_arith)
            requires
                i < less * BLOCK_SIZE,
                less <= nb,
        ;
    }
}

/// Block `b` is reached on a way to one of the first `nb` blocks of the
/// file.
pub open spec fn on_ways(v: FsView, pos: InodePos, nb: int, b: int) -> bool {
    exists|m: int, s: int| 0 <= m < nb && on_path(m, s) && #[trigger] hop(v, pos, m, s) == b
}

/// From `v` to `w` a file of `nb` blocks has kept to its own: every block
/// for data that was marked as used and is not reached on a way of the
/// file is as it was, and marked.
pub open spec fn own_blocks_only(v: FsView, w: FsView, pos: InodePos, nb: int) -> bool {
    forall|b: int|
        0 <= b < v.disk.len() && v.is_data(b) && v.block_used(b) && !on_ways(v, pos, nb, b) ==> #[trigger] kept(
            v,
            w,
            b,
        )
}

/// Block `b` is in `w` as it was in `v`, and marked as used.
pub open spec fn kept(v: FsView, w: FsView, b: int) -> bool {
    w.disk[b] == v.disk[b] && w.block_used(b)
}

/// Every block that is reached on a way of the file in `w`, where it has
/// `nw` blocks, was reached on a way of the file in `v`, where it had
/// `nv`, or was free there.
pub open spec fn ways_within(v: FsView, w: FsView, pos: InodePos, nv: int, nw: int) -> bool {
    forall|m: int, s: int|
        0 <= m < nw && on_path(m, s) ==> on_ways(v, pos, nv, #[trigger] hop(w, pos, m, s)) || !v.block_used(
            hop(w, pos, m, s),
        )
}

/// From `v`, where it had `nv` blocks, to `w`, where it has `nw`, the file
/// has kept to blocks of its own and to blocks that were free.
#[verifier::opaque]
pub open spec fn stepped(v: FsView, w: FsView, pos: InodePos, nv: int, nw: int) -> bool {
    own_blocks_only(v, w, pos, nv) && ways_within(v, w, pos, nv, nw)
}

/// A file that stays as it is keeps to its own.
pub proof fn lemma_stepped_refl(v: FsView, pos: InodePos, nb: int)
    ensures
        stepped(v, v, pos, nb, nb),
{
    reveal(stepped);
    assert forall|m: int, s: int| 0 <= m < nb && on_path(m, s) implies on_ways(v, pos, nb, #[trigger] hop(v, pos, m, s))
        || !v.block_used(hop(v, pos, m, s)) by {
        assert(hop(v, pos, m, s) == hop(v, pos, m, s));
    }
}

/// A file whose ways stay, and which changes no block for data but such as
/// are reached on its ways, keeps to its own.
pub proof fn lemma_same_ways_stepped(v: FsView, w: FsView, pos: InodePos, nb: int, less: int)
    requires
        same_ways(v, w, pos, less),
        0 <= less <= nb,
        own_blocks_only(v, w, pos, nb),
    ensures
        stepped(v, w, pos, nb, less),
{
    reveal(stepped);
    assert forall|m: int, s: int| 0 <= m < less && on_path(m, s) implies on_ways(
        v,
        pos,
        nb,
        #[trigger] hop(w, pos, m, s),
    ) || !v.block_used(hop(w, pos, m, s)) by {
        assert(hop(w, pos, m, s) == hop(v, pos, m, s));
    }
}

/// A sound file that grows by a block keeps to its own and to blocks that
/// were free.
pub proof fn lemma_grown_stepped(v: FsView, w: FsView, pos: InodePos, n: int, f: Fresh)
    requires
        v.wf(),
        sound(v, pos, n),
        0 <= n < MAX_SIZE_BLOCKS,
        grown(v, w, pos, n, f),
    ensures
        stepped(v, w, pos, n, n + 1),
{
    reveal(sound);
    reveal(grown);
    reveal(stepped);
    let s0 = shared_hops(n);
    lemma_grown(v, w, pos, n, f);
    assert forall|b: int|
        0 <= b < v.disk.len() && v.is_data(b) && v.block_used(b) && !on_ways(v, pos, n, b) implies #[trigger] kept(v, w, b) by {
        v.lemma_data_block(b);
        v.lemma_in_groups(b);
        assert(!f.has_node(n, b)) by {
            assert(Fresh::is_new(n, 1) ==> !v.block_used(f.at(1) as int));
            assert(Fresh::is_new(n, 2) ==> !v.block_used(f.at(2) as int));
        }
        if s0 >= 1 {
            lemma_shared(n, s0);
            lemma_same_place(v, pos, n - 1, n, s0);
            assert(hop(v, pos, n - 1, s0) == holder(v, pos, n, f, s0));
        }
        assert(b != holder(v, pos, n, f, s0));
    }
    assert forall|m: int, s: int| 0 <= m < n + 1 && on_path(m, s) implies on_ways(
        v,
        pos,
        n,
        #[trigger] hop(w, pos, m, s),
    ) || !v.block_used(hop(w, pos, m, s)) by {
        if m < n {
            assert(hop(w, pos, m, s) == hop(v, pos, m, s));
        } else {
            assert(hop(w, pos, n, s) == holder(v, pos, n, f, s));
            if s <= s0 {
                lemma_shared(n, s);
                lemma_same_place(v, pos, n - 1, n, s);
                assert(hop(v, pos, n - 1, s) == hop(w, pos, n, s));
            } else {
                assert(Fresh::is_new(n, s));
                assert(!v.block_used(f.at(s) as int));
            }
        }
    }
}

/// A sound file that loses its last block keeps to its own.
pub proof fn lemma_shrunk_stepped(v: FsView, w: FsView, pos: InodePos, n: int)
    requires
        v.wf(),
        0 <= n < MAX_SIZE_BLOCKS,
        sound(v, pos, n + 1),
        shrunk(v, w, pos, n),
    ensures
        stepped(v, w, pos, n + 1, n),
{
    reveal(sound);
    reveal(shrunk);
    reveal(stepped);
    let s0 = shared_hops(n);
    lemma_shrunk(v, w, pos, n);
    assert forall|b: int|
        0 <= b < v.disk.len() && v.is_data(b) && v.block_used(b) && !on_ways(v, pos, n + 1, b) implies #[trigger] kept(v, w, b) by {
        v.lemma_data_block(b);
        v.lemma_in_groups(b);
        assert(!freed_from(v, pos, n, b, s0)) by {
            if freed_from(v, pos, n, b, s0) {
                let t = if s0 < 1 && b == hop(v, pos, n, 1) {
                    1int
                } else if s0 < 2 && b == hop(v, pos, n, 2) && 2 <= level_of(n) + 1 {
                    2int
                } else {
                    3int
                };
                assert(on_path(n, t));
                assert(hop(v, pos, n, t) == b);
            }
        }
        if s0 >= 1 {
            assert(on_path(n, s0));
            assert(hop(v, pos, n, s0) == hop(v, pos, n, s0));
        }
        assert(b != hop(v, pos, n, s0));
    }
    assert forall|m: int, s: int| 0 <= m < n && on_path(m, s) implies on_ways(
        v,
        pos,
        n + 1,
        #[trigger] hop(w, pos, m, s),
    ) || !v.block_used(hop(w, pos, m, s)) by {
        assert(hop(w, pos, m, s) == hop(v, pos, m, s));
    }
}

/// Writing into a data block of a sound file keeps the file to its own.
pub proof fn lemma_written_stepped(v: FsView, pos: InodePos, nb: int, t: int, start: int, bytes: Seq<u8>)
    requires
        v.wf(),
        sound(v, pos, nb),
        0 <= t < nb,
        0 <= start,
        start + bytes.len() <= BLOCK_SIZE,
    ensures
        stepped(v, v.written(data_block(v, pos, t), start, bytes), pos, nb, nb),
{
    reveal(sound);
    reveal(stepped);
    let d = data_block(v, pos, t);
    let w = v.written(d, start, bytes);
    lemma_data_written(v, pos, nb, t, start, bytes);
    lemma_sound_found(v, pos, nb, t);
    v.lemma_data_block(d);
    v.lemma_written_marks(d, start, bytes);
    assert(on_path(t, level_of(t) + 1));
    assert forall|b: int|
        0 <= b < v.disk.len() && v.is_data(b) && v.block_used(b) && !on_ways(v, pos, nb, b) implies #[trigger] kept(v, w, b) by {
        v.lemma_in_groups(b);
        assert(hop(v, pos, t, level_of(t) + 1) == d);
    }
    lemma_same_ways_stepped(v, w, pos, nb, nb);
}

/// Writing into a block that is not for data and no bitmap keeps a sound
/// file, whose ways stay, to its own.
pub proof fn lemma_meta_stepped(v: FsView, w: FsView, pos: InodePos, nb: int)
    requires
        v.wf(),
        v.same_geometry(w),
        same_ways(v, w, pos, nb),
        forall|b: int| 0 <= b < v.disk.len() && v.is_data(b) ==> #[trigger] w.disk[b] == v.disk[b],
        forall|p: int| 0 <= p < v.groups.len() * BLOCKS_PER_GRP ==> #[trigger] w.block_used(p) == v.block_used(p),
        0 <= nb,
    ensures
        stepped(v, w, pos, nb, nb),
{
    reveal(stepped);
    assert forall|b: int|
        0 <= b < v.disk.len() && v.is_data(b) && v.block_used(b) && !on_ways(v, pos, nb, b) implies #[trigger] kept(v, w, b) by {
        v.lemma_in_groups(b);
    }
    lemma_same_ways_stepped(v, w, pos, nb, nb);
}

/// Two steps of a file that keeps to its own and to free blocks are one.
pub proof fn lemma_stepped_trans(a: FsView, b: FsView, c: FsView, pos: InodePos, na: int, nb: int, nc: int)
    requires
        a.wf(),
        a.same_geometry(b),
        stepped(a, b, pos, na, nb),
        stepped(b, c, pos, nb, nc),
        sound(c, pos, nc),
        a.same_geometry(c),
    ensures
        stepped(a, c, pos, na, nc),
{
    reveal(sound);
    reveal(stepped);
    a.lemma_same_geometry(b);
    a.lemma_same_geometry(c);
    assert forall|x: int|
        0 <= x < a.disk.len() && a.is_data(x) && a.block_used(x) && !on_ways(a, pos, na, x) implies #[trigger] kept(
        a,
        c,
        x,
    ) by {
        assert(kept(a, b, x));
        a.lemma_in_groups(x);
        if on_ways(b, pos, nb, x) {
            let (m, s) = choose|m: int, s: int| 0 <= m < nb && on_path(m, s) && #[trigger] hop(b, pos, m, s) == x;
            assert(on_ways(a, pos, na, hop(b, pos, m, s)) || !a.block_used(hop(b, pos, m, s)));
        }
        assert(kept(b, c, x));
    }
    assert forall|m: int, s: int| 0 <= m < nc && on_path(m, s) implies on_ways(
        a,
        pos,
        na,
        #[trigger] hop(c, pos, m, s),
    ) || !a.block_used(hop(c, pos, m, s)) by {
        let x = hop(c, pos, m, s);
        assert(c.is_data(hop(c, pos, m, s)));
        a.lemma_data_block(x);
        assert(on_ways(b, pos, nb, x) || !b.block_used(x));
        if on_ways(b, pos, nb, x) {
            let (mb, sb) = choose|mb: int, sb: int|
                0 <= mb < nb && on_path(mb, sb) && #[trigger] hop(b, pos, mb, sb) == x;
            assert(on_ways(a, pos, na, hop(b, pos, mb, sb)) || !a.block_used(hop(b, pos, mb, sb)));
        } else {
            if a.block_used(x) && !on_ways(a, pos, na, x) {
                assert(kept(a, b, x));
            }
        }
    }
}

/// No block is reached both on a way of the one file and on a way of the
/// other.
#[verifier::opaque]
pub open spec fn apart(v: FsView, a: InodePos, na: int, b: InodePos, nb: int) -> bool {
    forall|m: int, s: int, mb: int, sb: int|
        #![trigger hop(v, a, m, s), hop(v, b, mb, sb)]
        0 <= m < na && on_path(m, s) && 0 <= mb < nb && on_path(mb, sb) ==> hop(v, a, m, s) != hop(v, b, mb, sb)
}

/// What one file does to itself leaves another as it was: where the file
/// at `a` has kept to its own and to free blocks, and has left the inode
/// of the file at `b` alone, a sound block map of the file at `b`, whose
/// ways are apart from those of the file at `a`, is sound as before, with
/// the same bytes, and the ways of the two are apart as before.
pub proof fn lemma_other_file(v: FsView, w: FsView, a: InodePos, na: int, nw: int, b: InodePos, nb: int)
    requires
        v.wf(),
        v.same_geometry(w),
        stepped(v, w, a, na, nw),
        sound(v, b, nb),
        apart(v, a, na, b, nb),
        w.disk[b.block].len() == BLOCK_SIZE,
        forall|j: int|
            b.off + INODE_BLOCK_MAP_OFFSET <= j < b.off + INODE_BLOCK_MAP_OFFSET + 60 ==> #[trigger] w.disk[b.block][j]
                == v.disk[b.block][j],
    ensures
        sound(w, b, nb),
        same_ways(v, w, b, nb),
        same_bytes(v, w, b, nb),
        apart(w, a, nw, b, nb),
{
    reveal(sound);
    reveal(stepped);
    reveal(apart);
    v.lemma_blocks();
    assert forall|m: int, s: int| 0 <= m < nb && on_path(m, s) implies w.block_used(#[trigger] hop(v, b, m, s)) by {
        let y = hop(v, b, m, s);
        assert(v.is_data(y) && v.block_used(y));
        v.lemma_data_block(y);
        assert(!on_ways(v, a, na, y)) by {
            if on_ways(v, a, na, y) {
                let (ma, sa) = choose|ma: int, sa: int|
                    0 <= ma < na && on_path(ma, sa) && #[trigger] hop(v, a, ma, sa) == y;
                assert(hop(v, a, ma, sa) != hop(v, b, m, s));
            }
        }
        assert(kept(v, w, y));
    }
    assert forall|m: int, s: int| 0 <= m < nb && on_path(m, s) implies le32(
        w.disk[#[trigger] hop(v, b, m, s - 1)],
        hop_off(b, m, s),
    ) == le32(v.disk[hop(v, b, m, s - 1)], hop_off(b, m, s)) by {
        lemma_hop_off(b, m, s);
        let o = hop_off(b, m, s);
        if s >= 2 {
            assert(on_path(m, s - 1));
            let x = hop(v, b, m, s - 1);
            assert(v.is_data(x) && v.block_used(x));
            v.lemma_data_block(x);
            assert(!on_ways(v, a, na, x)) by {
                if on_ways(v, a, na, x) {
                    let (ma, sa) = choose|ma: int, sa: int|
                        0 <= ma < na && on_path(ma, sa) && #[trigger] hop(v, a, ma, sa) == x;
                    assert(hop(v, a, ma, sa) != hop(v, b, m, s - 1));
                }
            }
            assert(kept(v, w, x));
        } else {
            assert(hop(v, b, m, s - 1) == b.block);
            assert(w.disk[b.block].subrange(o, o + 4) =~= v.disk[b.block].subrange(o, o + 4)) by {
                assert(w.disk[b.block][o] == v.disk[b.block][o]);
                assert(w.disk[b.block][o + 1] == v.disk[b.block][o + 1]);
                assert(w.disk[b.block][o + 2] == v.disk[b.block][o + 2]);
                assert(w.disk[b.block][o + 3] == v.disk[b.block][o + 3]);
            }
        }
    }
    lemma_ways_kept(v, w, b, nb);
    assert forall|i: int| 0 <= i < nb * BLOCK_SIZE implies #[trigger] byte_at(w, b, i) == byte_at(v, b, i) by {
        let m = i / BLOCK_SIZE as int;
        assert(on_path(m, level_of(m) + 1));
        let d = hop(v, b, m, level_of(m) + 1);
        assert(hop(w, b, m, level_of(m) + 1) == d);
        assert(v.is_data(d) && v.block_used(d));
        v.lemma_data_block(d);
        assert(!on_ways(v, a, na, d)) by {
            if on_ways(v, a, na, d) {
                let (ma, sa) = choose|ma: int, sa: int|
                    0 <= ma < na && on_path(ma, sa) && #[trigger] hop(v, a, ma, sa) == d;
                assert(hop(v, a, ma, sa) != hop(v, b, m, level_of(m) + 1));
            }
        }
        assert(kept(v, w, d));
    }
    assert forall|m: int, s: int, mb: int, sb: int|
        #![trigger hop(w, a, m, s), hop(w, b, mb, sb)]
        0 <= m < nw && on_path(m, s) && 0 <= mb < nb && on_path(mb, sb) implies hop(w, a, m, s) != hop(
        w,
        b,
        mb,
        sb,
    ) by {
        let x = hop(w, a, m, s);
        assert(hop(w, b, mb, sb) == hop(v, b, mb, sb));
        assert(v.block_used(hop(v, b, mb, sb)));
        assert(on_ways(v, a, na, hop(w, a, m, s)) || !v.block_used(hop(w, a, m, s)));
        if on_ways(v, a, na, x) {
            let (ma, sa) = choose|ma: int, sa: int| 0 <= ma < na && on_path(ma, sa) && #[trigger] hop(v, a, ma, sa) == x;
            assert(hop(v, a, ma, sa) != hop(v, b, mb, sb));
        }
    }
}

/// From `v` to `w` the file whose inode is stored at `b`, with its `nb`
/// blocks, was left alone: the bytes of its inode are as they were, and so
/// is every block on its ways, which is marked as used as before.
#[verifier::opaque]
pub open spec fn quiet_for(v: FsView, w: FsView, b: InodePos, nb: int) -> bool {
    &&& v.same_geometry(w)
    &&& w.disk[b.block].len() == v.disk[b.block].len()
    &&& forall|j: int| b.off <= j < b.off + 128 ==> #[trigger] w.disk[b.block][j] == v.disk[b.block][j]
    &&& forall|m: int, s: int| 0 <= m < nb && on_path(m, s) ==> kept(v, w, #[trigger] hop(v, b, m, s))
}

/// A sound file that was left alone is sound as before, with the same ways
/// and bytes and the same inode.
pub proof fn lemma_quiet(v: FsView, w: FsView, b: InodePos, nb: int)
    requires
        v.wf(),
        sound(v, b, nb),
        quiet_for(v, w, b, nb),
    ensures
        sound(w, b, nb),
        same_ways(v, w, b, nb),
        same_bytes(v, w, b, nb),
        w.disk[b.block].subrange(b.off, b.off + 128) == v.disk[b.block].subrange(b.off, b.off + 128),
        v.same_geometry(w),
{
    reveal(sound);
    reveal(quiet_for);
    v.lemma_blocks();
    assert(w.disk[b.block].subrange(b.off, b.off + 128) =~= v.disk[b.block].subrange(b.off, b.off + 128));
    assert forall|m: int, s: int| 0 <= m < nb && on_path(m, s) implies w.block_used(#[trigger] hop(v, b, m, s)) by {
        assert(kept(v, w, hop(v, b, m, s)));
    }
    assert forall|m: int, s: int| 0 <= m < nb && on_path(m, s) implies le32(
        w.disk[#[trigger] hop(v, b, m, s - 1)],
        hop_off(b, m, s),
    ) == le32(v.disk[hop(v, b, m, s - 1)], hop_off(b, m, s)) by {
        lemma_hop_off(b, m, s);
        let o = hop_off(b, m, s);
        if s >= 2 {
            assert(on_path(m, s - 1));
            assert(kept(v, w, hop(v, b, m, s - 1)));
        } else {
            assert(hop(v, b, m, s - 1) == b.block);
            assert(w.disk[b.block].subrange(o, o + 4) =~= v.disk[b.block].subrange(o, o + 4)) by {
                assert(w.disk[b.block][o] == v.disk[b.block][o]);
                assert(w.disk[b.block][o + 1] == v.disk[b.block][o + 1]);
                assert(w.disk[b.block][o + 2] == v.disk[b.block][o + 2]);
                assert(w.disk[b.block][o + 3] == v.disk[b.block][o + 3]);
            }
        }
    }
    lemma_ways_kept(v, w, b, nb);
    assert forall|i: int| 0 <= i < nb * BLOCK_SIZE implies #[trigger] byte_at(w, b, i) == byte_at(v, b, i) by {
        let m = i / BLOCK_SIZE as int;
        assert(on_path(m, level_of(m) + 1));
        assert(hop(w, b, m, level_of(m) + 1) == hop(v, b, m, level_of(m) + 1));
        assert(kept(v, w, hop(v, b, m, level_of(m) + 1)));
    }
}

/// A file that was left alone from `a` to `b` and from `b` to `c` was left
/// alone from `a` to `c`.
pub proof fn lemma_quiet_trans(a: FsView, b: FsView, c: FsView, pos: InodePos, nb: int)
    requires
        a.wf(),
        sound(a, pos, nb),
        quiet_for(a, b, pos, nb),
        quiet_for(b, c, pos, nb),
    ensures
        quiet_for(a, c, pos, nb),
{
    reveal(sound);
    reveal(quiet_for);
    lemma_quiet(a, b, pos, nb);
    assert forall|j: int| pos.off <= j < pos.off + 128 implies #[trigger] c.disk[pos.block][j] == a.disk[pos.block][j] by {
        assert(b.disk[pos.block][j] == a.disk[pos.block][j]);
    }
    assert forall|m: int, s: int| 0 <= m < nb && on_path(m, s) implies kept(a, c, #[trigger] hop(a, pos, m, s)) by {
        assert(kept(a, b, hop(a, pos, m, s)));
        assert(hop(b, pos, m, s) == hop(a, pos, m, s));
        assert(kept(b, c, hop(b, pos, m, s)));
    }
    assert forall|g: int| 0 <= g < a.groups.len() implies {
        &&& (#[trigger] c.groups[g]).bg_block_bitmap == a.groups[g].bg_block_bitmap
        &&& c.groups[g].bg_inode_bitmap == a.groups[g].bg_inode_bitmap
        &&& c.groups[g].bg_inode_table == a.groups[g].bg_inode_table
    } by {
        assert(b.groups[g].bg_block_bitmap == a.groups[g].bg_block_bitmap);
    }
}

/// What one file does to itself leaves another alone: where the file at
/// `a` has kept to its own and to free blocks, and has changed no inode but
/// its own, the sound file at `b`, whose inode is another and whose ways
/// are apart from those of the file at `a`, was left alone.
pub proof fn lemma_other_quiet(v: FsView, w: FsView, a: InodePos, na: int, nw: int, b: InodePos, nb: int)
    requires
        v.wf(),
        w.wf(),
        v.same_geometry(w),
        stepped(v, w, a, na, nw),
        sound(v, b, nb),
        apart(v, a, na, b, nb),
        a.off % 128 == 0,
        b.off % 128 == 0,
        a.block != b.block || a.off != b.off,
        forall|j: int|
            0 <= j < BLOCK_SIZE && !(a.off <= j < a.off + 128) ==> #[trigger] w.disk[a.block][j] == v.disk[a.block][j],
        forall|x: int|
            0 <= x < v.disk.len() && !v.is_data(x) && !v.is_bitmap(x) && x != a.block ==> #[trigger] w.disk[x]
                == v.disk[x],
    ensures
        quiet_for(v, w, b, nb),
        apart(w, a, nw, b, nb),
{
    reveal(sound);
    reveal(stepped);
    reveal(quiet_for);
    reveal(apart);
    v.lemma_blocks();
    w.lemma_blocks();
    assert forall|j: int| b.off <= j < b.off + 128 implies #[trigger] w.disk[b.block][j] == v.disk[b.block][j] by {
        if b.block == a.block {
            assert(!(a.off <= j < a.off + 128));
        }
    }
    lemma_other_file(v, w, a, na, nw, b, nb);
    assert forall|m: int, s: int| 0 <= m < nb && on_path(m, s) implies kept(v, w, #[trigger] hop(v, b, m, s)) by {
        let y = hop(v, b, m, s);
        assert(v.is_data(y) && v.block_used(y));
        v.lemma_data_block(y);
        assert(!on_ways(v, a, na, y)) by {
            if on_ways(v, a, na, y) {
                let (ma, sa) = choose|ma: int, sa: int|
                    0 <= ma < na && on_path(ma, sa) && #[trigger] hop(v, a, ma, sa) == y;
                assert(hop(v, a, ma, sa) != hop(v, b, m, s));
            }
        }
        assert(kept(v, w, y));
    }
}

/// A change of the disk that changes no block for data and none that holds
/// an inode, and leaves the marks of the blocks as they were, leaves every
/// sound file alone.
pub proof fn lemma_meta_quiet(v: FsView, w: FsView, b: InodePos, nb: int)
    requires
        v.wf(),
        sound(v, b, nb),
        v.same_geometry(w),
        w.disk[b.block] == v.disk[b.block],
        forall|x: int| 0 <= x < v.disk.len() && v.is_data(x) ==> #[trigger] w.disk[x] == v.disk[x],
        forall|p: int| 0 <= p < v.groups.len() * BLOCKS_PER_GRP ==> #[trigger] w.block_used(p) == v.block_used(p),
    ensures
        quiet_for(v, w, b, nb),
{
    reveal(sound);
    reveal(quiet_for);
    assert forall|m: int, s: int| 0 <= m < nb && on_path(m, s) implies kept(v, w, #[trigger] hop(v, b, m, s)) by {
        let y = hop(v, b, m, s);
        assert(v.is_data(y) && v.block_used(y));
        v.lemma_data_block(y);
        v.lemma_in_groups(y);
    }
}

/// Writing into the place of one inode leaves the sound file of another
/// alone.
pub proof fn lemma_slot_quiet(v: FsView, block: int, off: int, at: int, bytes: Seq<u8>, b: InodePos, nb: int)
    requires
        v.wf(),
        sound(v, b, nb),
        0 <= block < v.disk.len(),
        !v.is_bitmap(block),
        !v.is_data(block),
        0 <= off,
        off % 128 == 0,
        off <= at,
        at + bytes.len() <= off + 128,
        off + 128 <= BLOCK_SIZE,
        b.off % 128 == 0,
        block != b.block || off != b.off,
    ensures
        quiet_for(v, v.written(block, at, bytes), b, nb),
{
    reveal(sound);
    reveal(quiet_for);
    let w = v.written(block, at, bytes);
    v.lemma_blocks();
    v.lemma_written_marks(block, at, bytes);
    assert forall|j: int| b.off <= j < b.off + 128 implies #[trigger] w.disk[b.block][j] == v.disk[b.block][j] by {
        if b.block == block {
            assert(!(off <= j < off + 128));
        }
    }
    assert forall|m: int, s: int| 0 <= m < nb && on_path(m, s) implies kept(v, w, #[trigger] hop(v, b, m, s)) by {
        let y = hop(v, b, m, s);
        assert(v.is_data(y) && v.block_used(y));
        v.lemma_data_block(y);
        v.lemma_in_groups(y);
    }
}

/// Writing the superblock and the descriptors leaves every sound file
/// alone.
pub proof fn lemma_low_quiet(v: FsView, w: FsView, b: InodePos, nb: int)
    requires
        v.wf(),
        sound(v, b, nb),
        v.same_geometry(w),
        w.super_block == v.super_block,
        w.groups == v.groups,
        forall|x: int|
            1 + crate::efs::desc_block_count(v.groups.len() as int) <= x < v.disk.len() ==> #[trigger] w.disk[x]
                == v.disk[x],
        b.block >= 1 + crate::efs::desc_block_count(v.groups.len() as int),
    ensures
        quiet_for(v, w, b, nb),
{
    reveal(sound);
    reveal(quiet_for);
    v.lemma_bitmaps_high();
    assert forall|p: int| 0 <= p < v.groups.len() * BLOCKS_PER_GRP implies #[trigger] w.block_used(p) == v.block_used(
        p,
    ) by {
        v.lemma_group_of(p);
    }
    assert forall|x: int| 0 <= x < v.disk.len() && v.is_data(x) implies #[trigger] w.disk[x] == v.disk[x] by {}
    lemma_meta_quiet(v, w, b, nb);
}

/// No two ways of two files being reached does not depend on which file is
/// named first.
pub proof fn lemma_apart_sym(v: FsView, a: InodePos, na: int, b: InodePos, nb: int)
    requires
        apart(v, a, na, b, nb),
    ensures
        apart(v, b, nb, a, na),
{
    reveal(apart);
    assert forall|m: int, s: int, mb: int, sb: int|
        #![trigger hop(v, b, m, s), hop(v, a, mb, sb)]
        0 <= m < nb && on_path(m, s) && 0 <= mb < na && on_path(mb, sb) implies hop(v, b, m, s) != hop(
        v,
        a,
        mb,
        sb,
    ) by {
        assert(hop(v, a, mb, sb) != hop(v, b, m, s));
    }
}

/// On a sound block map every block on a way is one for data that is
/// marked as used.
pub proof fn lemma_on_way(v: FsView, pos: InodePos, nb: int, n: int, s: int)
    requires
        sound(v, pos, nb),
        0 <= n < nb,
        on_path(n, s),
    ensures
        v.is_data(hop(v, pos, n, s)),
        v.block_used(hop(v, pos, n, s)),
{
    reveal(sound);
}

/// A file without blocks has a sound block map.
pub proof fn lemma_sound_empty(v: FsView, pos: InodePos)
    requires
        sound_place(v, pos),
    ensures
        sound(v, pos, 0),
{
    reveal(sound);
}

/// A sound block map is that of a file whose inode can be stored where it
/// is.
pub proof fn lemma_sound_place(v: FsView, pos: InodePos, nb: int)
    requires
        sound(v, pos, nb),
    ensures
        sound_place(v, pos),
        0 <= nb <= MAX_SIZE_BLOCKS,
{
    reveal(sound);
}

/// Before anything is given back the file is on the way.
pub proof fn lemma_shrinking_start(v: FsView, pos: InodePos, n: int)
    requires
        0 <= n < MAX_SIZE_BLOCKS,
    ensures
        shrinking(v, v, pos, n, level_of(n) + 1),
{
    reveal(shrinking);
}

/// On the way, what the `from`-th pointer names is still marked as used.
pub proof fn lemma_still_used(v: FsView, cur: FsView, pos: InodePos, n: int, from: int)
    requires
        v.wf(),
        0 <= n < MAX_SIZE_BLOCKS,
        sound(v, pos, n + 1),
        shrinking(v, cur, pos, n, from),
        on_path(n, from),
    ensures
        v.is_data(hop(v, pos, n, from)),
        cur.block_used(hop(v, pos, n, from)),
{
    reveal(sound);
    reveal(shrinking);
    lemma_not_freed_yet(v, pos, n, from);
    v.lemma_in_groups(hop(v, pos, n, from));
}

/// A file without blocks is apart from every file.
pub proof fn lemma_apart_empty(v: FsView, a: InodePos, b: InodePos, nb: int)
    ensures
        apart(v, a, 0, b, nb),
        apart(v, b, nb, a, 0),
{
    reveal(apart);
}

/// Two files that are apart and whose ways stay are apart as before.
pub proof fn lemma_apart_kept(v: FsView, w: FsView, a: InodePos, na: int, b: InodePos, nb: int)
    requires
        v.wf(),
        sound(v, a, na),
        sound(v, b, nb),
        apart(v, a, na, b, nb),
        quiet_for(v, w, a, na),
        quiet_for(v, w, b, nb),
    ensures
        apart(w, a, na, b, nb),
{
    lemma_quiet(v, w, a, na);
    lemma_quiet(v, w, b, nb);
    reveal(apart);
    assert forall|m: int, s: int, mb: int, sb: int|
        #![trigger hop(w, a, m, s), hop(w, b, mb, sb)]
        0 <= m < na && on_path(m, s) && 0 <= mb < nb && on_path(mb, sb) implies hop(w, a, m, s) != hop(
        w,
        b,
        mb,
        sb,
    ) by {
        assert(hop(w, a, m, s) == hop(v, a, m, s));
        assert(hop(w, b, mb, sb) == hop(v, b, mb, sb));
        assert(hop(v, a, m, s) != hop(v, b, mb, sb));
    }
}

/// Two files that were apart and whose ways are the same are apart.
pub proof fn lemma_apart_ways(v: FsView, w: FsView, a: InodePos, na: int, b: InodePos, nb: int)
    requires
        apart(v, a, na, b, nb),
        same_ways(v, w, a, na),
        same_ways(v, w, b, nb),
    ensures
        apart(w, a, na, b, nb),
{
    reveal(apart);
    assert forall|m: int, s: int, mb: int, sb: int|
        #![trigger hop(w, a, m, s), hop(w, b, mb, sb)]
        0 <= m < na && on_path(m, s) && 0 <= mb < nb && on_path(mb, sb) implies hop(w, a, m, s) != hop(
        w,
        b,
        mb,
        sb,
    ) by {
        assert(hop(w, a, m, s) == hop(v, a, m, s));
        assert(hop(w, b, mb, sb) == hop(v, b, mb, sb));
        assert(hop(v, a, m, s) != hop(v, b, mb, sb));
    }
}

} // verus!
