//! A bounded write-back cache of blocks over a block device.
//!
//! The manager keeps its entries in order of use, least recently used first,
//! and hands out a block by its number. A block that a caller holds is pinned
//! and stays; when room is needed the oldest entry that nobody holds is
//! written back, if it was modified, and reused.
use vstd::prelude::*;
use crate::block_dev::BlockDevice;
use crate::config::BLOCK_SIZE;
use crate::codec::{patch, zeros, zeroed, put_bytes, get_bytes};

verus! {

/// One cached block.
pub struct BlockCache {
    pub block_id: usize,
    /// Whether the bytes differ from what the device holds.
    pub modified: bool,
    pub cache: Vec<u8>,
    /// Handles held outside the manager.
    pub pins: usize,
}

/// What a cached block is, as plain values.
pub struct BlockCacheView {
    pub block_id: usize,
    pub modified: bool,
    pub data: Seq<u8>,
    pub pins: nat,
}

impl View for BlockCache {
    type V = BlockCacheView;

    open spec fn view(&self) -> BlockCacheView {
        BlockCacheView {
            block_id: self.block_id,
            modified: self.modified,
            data: self.cache@,
            pins: self.pins as nat,
        }
    }
}

impl BlockCacheView {
    /// This slot with `pins` users.
    pub open spec fn with_pins(self, pins: nat) -> BlockCacheView {
        BlockCacheView { pins, ..self }
    }

    /// This slot after it was written back.
    pub open spec fn cleaned(self) -> BlockCacheView {
        BlockCacheView { modified: false, ..self }
    }

    /// This slot after `bytes` were written into it at byte `off`.
    pub open spec fn patched(self, off: int, bytes: Seq<u8>) -> BlockCacheView {
        BlockCacheView { modified: true, data: patch(self.data, off, bytes), ..self }
    }
}

impl BlockCache {
    /// A clean, unpinned entry for `block_id` with `block_size` zero bytes.
    pub fn new(block_id: usize, block_size: usize) -> (r: Option<BlockCache>)
        ensures
            r matches Some(c) && c@ == (BlockCacheView {
                block_id,
                modified: false,
                data: zeros(block_size as nat),
                pins: 0,
            }),
    {
        Some(BlockCache { block_id, modified: false, cache: zeroed(block_size), pins: 0 })
    }

    /// The `len` bytes from `offset` on.
    pub fn get_ref(&self, offset: usize, len: usize) -> (r: &[u8])
        requires
            offset + len <= self.cache@.len(),
        ensures
            r@ == self.cache@.subrange(offset as int, offset + len),
    {
        let total = self.cache.len();
        vstd::slice::slice_subrange(self.cache.as_slice(), offset, offset + len)
    }

    /// Sets every byte to zero and marks the block modified.
    pub fn zero(&mut self)
        ensures
            final(self)@ == (BlockCacheView {
                modified: true,
                data: zeros(old(self).cache@.len()),
                ..old(self)@
            }),
    {
        self.modified = true;
        let n = self.cache.len();
        let mut i: usize = 0;
        while i < n
            invariant
                i <= n,
                n == self.cache@.len(),
                self.block_id == old(self).block_id,
                self.pins == old(self).pins,
                self.modified,
                forall|j: int| 0 <= j < i ==> self.cache@[j] == 0u8,
            decreases n - i,
        {
            self.cache[i] = 0u8;
            i += 1;
        }
        assert(self.cache@ =~= zeros(old(self).cache@.len()));
    }

    /// Bytes in the block.
    pub fn cache_size(&self) -> (n: usize)
        ensures
            n == self.cache@.len(),
    {
        self.cache.len()
    }

    /// A copy of the `len` bytes from `offset` on.
    pub fn read(&self, offset: usize, len: usize) -> (out: Vec<u8>)
        requires
            offset + len <= self.cache@.len(),
        ensures
            out@ == self.cache@.subrange(offset as int, offset + len),
    {
        get_bytes(self.cache.as_slice(), offset, len)
    }

    /// Writes `src` over the bytes from `offset` on and marks the block
    /// modified.
    pub fn modify(&mut self, offset: usize, src: &[u8])
        requires
            offset + src@.len() <= old(self).cache@.len(),
        ensures
            final(self)@ == old(self)@.patched(offset as int, src@),
    {
        self.modified = true;
        put_bytes(&mut self.cache, offset, src);
    }
}

/// What a cache manager is, as plain values: the device's blocks, the
/// entries from the least to the most recently used, and the bound on their
/// number.
pub struct CacheModel {
    pub device: Seq<Seq<u8>>,
    pub entries: Seq<BlockCacheView>,
    pub capacity: nat,
}

impl CacheModel {
    /// The cache holds no more slots than it may, no block twice, and
    /// blocks of the device only, a whole block in each slot; a slot that
    /// was not written to holds what the device holds.
    pub open spec fn wf(self) -> bool {
        &&& self.entries.len() <= self.capacity
        &&& self.device.len() <= usize::MAX
        &&& forall|b: int| 0 <= b < self.device.len() ==> (#[trigger] self.device[b]).len() == BLOCK_SIZE
        &&& forall|i: int|
            0 <= i < self.entries.len() ==> {
                &&& (#[trigger] self.entries[i]).block_id < self.device.len()
                &&& self.entries[i].data.len() == BLOCK_SIZE
                &&& !self.entries[i].modified ==> self.entries[i].data
                    == self.device[self.entries[i].block_id as int]
            }
        &&& forall|i: int, j: int|
            0 <= i < j < self.entries.len() ==> (#[trigger] self.entries[i]).block_id
                != (#[trigger] self.entries[j]).block_id
    }

    /// Whether block `b` is in the cache.
    pub open spec fn resident(self, b: int) -> bool {
        exists|i: int| 0 <= i < self.entries.len() && (#[trigger] self.entries[i]).block_id == b
    }

    /// Where block `b` stands among the entries, if it is in the cache.
    pub open spec fn slot(self, b: int) -> int {
        choose|i: int| 0 <= i < self.entries.len() && (#[trigger] self.entries[i]).block_id == b
    }

    /// Handles that are out for block `b`.
    pub open spec fn pins(self, b: int) -> nat {
        if self.resident(b) {
            self.entries[self.slot(b)].pins
        } else {
            0
        }
    }

    /// Nobody holds any block.
    pub open spec fn no_pins(self) -> bool {
        forall|i: int| 0 <= i < self.entries.len() ==> (#[trigger] self.entries[i]).pins == 0
    }

    /// What a reader of block `b` sees: the cached bytes if there are any,
    /// else the device's.
    pub open spec fn block(self, b: int) -> Seq<u8> {
        if self.resident(b) {
            self.entries[self.slot(b)].data
        } else {
            self.device[b]
        }
    }

    /// The disk as readers see it.
    pub open spec fn view(self) -> Seq<Seq<u8>> {
        Seq::new(self.device.len(), |b: int| self.block(b))
    }

    /// Entry `i` is the oldest that nobody holds.
    pub open spec fn is_victim(self, i: int) -> bool {
        &&& 0 <= i < self.entries.len()
        &&& self.entries[i].pins == 0
        &&& forall|j: int| 0 <= j < i ==> (#[trigger] self.entries[j]).pins != 0
    }

    /// Some slot can be given up.
    pub open spec fn evictable(self) -> bool {
        exists|i: int| self.is_victim(i)
    }

    /// A slot that can be given up.
    pub open spec fn victim(self) -> int {
        choose|i: int| self.is_victim(i)
    }

    /// Block `b` can be handed out: it is cached, or there is room, or an
    /// entry can be reused.
    pub open spec fn can_fetch(self, b: int) -> bool {
        self.resident(b) || self.entries.len() < self.capacity || self.evictable()
    }

    /// The device after entry `i` was written back.
    pub open spec fn device_after_write_back(self, i: int) -> Seq<Seq<u8>> {
        if self.entries[i].modified {
            self.device.update(self.entries[i].block_id as int, self.entries[i].data)
        } else {
            self.device
        }
    }

    /// Handing out block `b`: a cached block gets one more holder; a new one
    /// is read from the device into a fresh entry at the recent end while
    /// there is room, and else into the place of the victim, written back.
    pub open spec fn fetch(self, b: int) -> CacheModel {
        if self.resident(b) {
            let i = self.slot(b);
            CacheModel {
                entries: self.entries.update(i, self.entries[i].with_pins(self.entries[i].pins + 1)),
                ..self
            }
        } else if self.entries.len() < self.capacity {
            CacheModel {
                entries: self.entries.push(
                    BlockCacheView { block_id: b as usize, modified: false, data: self.device[b], pins: 1 },
                ),
                ..self
            }
        } else {
            let v = self.victim();
            let device = self.device_after_write_back(v);
            CacheModel {
                device,
                entries: self.entries.update(
                    v,
                    BlockCacheView { block_id: b as usize, modified: false, data: device[b], pins: 1 },
                ),
                ..self
            }
        }
    }

    /// Giving back a handle on block `b`: with the last one the entry moves
    /// to the recent end.
    pub open spec fn release(self, b: int) -> CacheModel {
        let i = self.slot(b);
        let e = self.entries[i].with_pins((self.entries[i].pins - 1) as nat);
        if e.pins == 0 {
            CacheModel { entries: self.entries.remove(i).push(e), ..self }
        } else {
            CacheModel { entries: self.entries.update(i, e), ..self }
        }
    }

    /// One more holder for block `b`, if it is in the cache.
    pub open spec fn pin(self, b: int) -> CacheModel {
        if self.resident(b) {
            let i = self.slot(b);
            CacheModel {
                entries: self.entries.update(i, self.entries[i].with_pins(self.entries[i].pins + 1)),
                ..self
            }
        } else {
            self
        }
    }

    /// One holder less for block `b`; the entry stays where it is.
    pub open spec fn unpin(self, b: int) -> CacheModel {
        let i = self.slot(b);
        CacheModel {
            entries: self.entries.update(i, self.entries[i].with_pins((self.entries[i].pins - 1) as nat)),
            ..self
        }
    }

    /// Writing `bytes` into the cached block `b` from `off` on.
    pub open spec fn modify(self, b: int, off: int, bytes: Seq<u8>) -> CacheModel {
        let i = self.slot(b);
        CacheModel { entries: self.entries.update(i, self.entries[i].patched(off, bytes)), ..self }
    }

    /// Writing the cached block `b` back to the device, if it was modified.
    pub open spec fn write_back(self, b: int) -> CacheModel {
        let i = self.slot(b);
        CacheModel {
            device: self.device_after_write_back(i),
            entries: self.entries.update(i, self.entries[i].cleaned()),
            ..self
        }
    }

    /// Writing every modified block back.
    pub open spec fn sync(self) -> CacheModel {
        CacheModel {
            device: self.view(),
            entries: Seq::new(self.entries.len(), |i: int| self.entries[i].cleaned()),
            ..self
        }
    }

    /// Readers see as many blocks as the device has, each of `BLOCK_SIZE`
    /// bytes.
    pub proof fn lemma_view_len(self)
        requires
            self.wf(),
        ensures
            self.view().len() == self.device.len(),
            forall|b: int| 0 <= b < self.view().len() ==> (#[trigger] self.view()[b]).len() == BLOCK_SIZE,
    {
        assert forall|b: int| 0 <= b < self.view().len() implies (#[trigger] self.view()[b]).len()
            == BLOCK_SIZE by {
            if self.resident(b) {
                let k = self.slot(b);
            }
        }
    }

    /// The entry at `i` is the one for its block.
    pub proof fn lemma_slot(self, i: int)
        requires
            self.wf(),
            0 <= i < self.entries.len(),
        ensures
            self.resident(self.entries[i].block_id as int),
            self.slot(self.entries[i].block_id as int) == i,
            self.block(self.entries[i].block_id as int) == self.entries[i].data,
            self.pins(self.entries[i].block_id as int) == self.entries[i].pins,
    {
        let b = self.entries[i].block_id as int;
        assert(self.resident(b));
        let k = self.slot(b);
        assert(0 <= k < self.entries.len() && self.entries[k].block_id == b);
        if k < i {
            assert(self.entries[k].block_id != self.entries[i].block_id);
        } else if i < k {
            assert(self.entries[i].block_id != self.entries[k].block_id);
        }
    }

    /// The first unpinned entry is the victim.
    pub proof fn lemma_victim(self, i: int)
        requires
            self.is_victim(i),
        ensures
            self.evictable(),
            self.victim() == i,
    {
        let v = self.victim();
        assert(self.is_victim(v));
        if v < i {
            assert(self.entries[v].pins != 0);
        } else if i < v {
            assert(self.entries[i].pins != 0);
        }
    }

    /// While nobody holds a block and the cache has room for one, every
    /// block can be handed out.
    pub proof fn lemma_no_pins_can_fetch(self, b: int)
        requires
            self.wf(),
            self.no_pins(),
            self.capacity >= 1,
        ensures
            self.can_fetch(b),
    {
        if self.entries.len() >= self.capacity {
            assert(self.entries[0].pins == 0);
            assert(self.is_victim(0));
        }
    }

    /// A view `v` that agrees with every entry, and with the device where
    /// there is none, is the view.
    pub proof fn lemma_view_is(self, v: Seq<Seq<u8>>)
        requires
            self.wf(),
            v.len() == self.device.len(),
            forall|i: int| 0 <= i < self.entries.len() ==> v[(#[trigger] self.entries[i]).block_id as int]
                == self.entries[i].data,
            forall|b: int| 0 <= b < self.device.len() && !self.resident(b) ==> #[trigger] v[b] == self.device[b],
        ensures
            self.view() == v,
    {
        assert forall|b: int| 0 <= b < self.device.len() implies self.view()[b] == v[b] by {
            if self.resident(b) {
                let i = self.slot(b);
                assert(self.entries[i].block_id == b);
            }
        }
        assert(self.view() =~= v);
    }

    /// Handing out a block keeps the cache valid and changes nothing that
    /// readers see, whether or not an entry had to give way.
    pub proof fn lemma_fetch(self, b: int)
        requires
            self.wf(),
            0 <= b < self.device.len(),
            self.can_fetch(b),
        ensures
            self.fetch(b).wf(),
            self.fetch(b).view() == self.view(),
            self.fetch(b).resident(b),
            self.fetch(b).pins(b) == self.pins(b) + 1,
            self.fetch(b).capacity == self.capacity,
            self.fetch(b).device.len() == self.device.len(),
            self.no_pins() ==> forall|i: int|
                0 <= i < self.fetch(b).entries.len() && (#[trigger] self.fetch(b).entries[i]).block_id != b
                    ==> self.fetch(b).entries[i].pins == 0,
    {
        let m = self.fetch(b);
        if self.resident(b) {
            let i = self.slot(b);
            assert(m.entries[i].block_id == b);
            assert forall|k: int| 0 <= k < m.entries.len() implies self.view()[(
            #[trigger] m.entries[k]).block_id as int] == m.entries[k].data by {
                self.lemma_slot(k);
            }
            assert forall|c: int| 0 <= c < m.device.len() && !m.resident(c) implies #[trigger] self.view()[c]
                == m.device[c] by {
                if self.resident(c) {
                    let k = self.slot(c);
                    assert(m.entries[k].block_id == c);
                }
            }
            m.lemma_view_is(self.view());
            m.lemma_slot(i);
        } else if self.entries.len() < self.capacity {
            let n = self.entries.len() as int;
            assert(m.entries[n].block_id == b);
            assert forall|i: int, j: int| 0 <= i < j < m.entries.len() implies (#[trigger] m.entries[i]).block_id
                != (#[trigger] m.entries[j]).block_id by {
                if j == n {
                    assert(self.entries[i].block_id != b);
                }
            }
            assert forall|k: int| 0 <= k < m.entries.len() implies self.view()[(
            #[trigger] m.entries[k]).block_id as int] == m.entries[k].data by {
                if k < n {
                    self.lemma_slot(k);
                }
            }
            assert forall|c: int| 0 <= c < m.device.len() && !m.resident(c) implies #[trigger] self.view()[c]
                == m.device[c] by {
                if self.resident(c) {
                    let k = self.slot(c);
                    assert(m.entries[k].block_id == c);
                }
            }
            m.lemma_view_is(self.view());
            m.lemma_slot(n);
        } else {
            let v = self.victim();
            assert(self.is_victim(v));
            let old_id = self.entries[v].block_id as int;
            assert(old_id != b);
            assert(m.entries[v].block_id == b);
            self.lemma_slot(v);
            assert forall|i: int| 0 <= i < m.entries.len() implies {
                &&& (#[trigger] m.entries[i]).block_id < m.device.len()
                &&& m.entries[i].data.len() == BLOCK_SIZE
                &&& !m.entries[i].modified ==> m.entries[i].data == m.device[m.entries[i].block_id as int]
            } by {
                if i != v {
                    self.lemma_slot(i);
                    if i < v {
                        assert(self.entries[i].block_id != self.entries[v].block_id);
                    } else {
                        assert(self.entries[v].block_id != self.entries[i].block_id);
                    }
                }
            }
            assert forall|i: int, j: int| 0 <= i < j < m.entries.len() implies (#[trigger] m.entries[i]).block_id
                != (#[trigger] m.entries[j]).block_id by {
                if i == v {
                    assert(self.entries[j].block_id != b);
                } else if j == v {
                    assert(self.entries[i].block_id != b);
                }
            }
            assert forall|k: int| 0 <= k < m.entries.len() implies self.view()[(
            #[trigger] m.entries[k]).block_id as int] == m.entries[k].data by {
                if k != v {
                    self.lemma_slot(k);
                }
            }
            assert forall|c: int| 0 <= c < m.device.len() && !m.resident(c) implies #[trigger] self.view()[c]
                == m.device[c] by {
                if self.resident(c) {
                    let k = self.slot(c);
                    if k != v {
                        assert(m.entries[k].block_id == c);
                    }
                }
            }
            m.lemma_view_is(self.view());
            m.lemma_slot(v);
        }
    }

    /// Giving a handle back keeps the cache valid and changes nothing that
    /// readers see.
    pub proof fn lemma_release(self, b: int)
        requires
            self.wf(),
            self.resident(b),
            self.pins(b) > 0,
        ensures
            self.release(b).wf(),
            self.release(b).view() == self.view(),
            self.release(b).device == self.device,
            self.release(b).capacity == self.capacity,
            self.release(b).resident(b),
            self.release(b).pins(b) == self.pins(b) - 1,
            (forall|i: int| 0 <= i < self.entries.len() && (#[trigger] self.entries[i]).block_id != b
                ==> self.entries[i].pins == 0) && self.pins(b) == 1 ==> self.release(b).no_pins(),
    {
        let m = self.release(b);
        let i = self.slot(b);
        let n = self.entries.len() as int;
        self.lemma_slot(i);
        if self.entries[i].pins == 1 {
            assert forall|k: int| 0 <= k < m.entries.len() implies (#[trigger] m.entries[k]).block_id == (if k
                < i {
                self.entries[k]
            } else if k < n - 1 {
                self.entries[k + 1]
            } else {
                self.entries[i]
            }).block_id by {}
            assert forall|k: int, j: int| 0 <= k < j < m.entries.len() implies (#[trigger] m.entries[k]).block_id
                != (#[trigger] m.entries[j]).block_id by {
                let k0 = if k < i { k } else if k < n - 1 { k + 1 } else { i };
                let j0 = if j < i { j } else if j < n - 1 { j + 1 } else { i };
                assert(m.entries[k].block_id == self.entries[k0].block_id);
                assert(m.entries[j].block_id == self.entries[j0].block_id);
                if k0 < j0 {
                    assert(self.entries[k0].block_id != self.entries[j0].block_id);
                } else {
                    assert(self.entries[j0].block_id != self.entries[k0].block_id);
                }
            }
            assert forall|k: int| 0 <= k < m.entries.len() implies {
                &&& (#[trigger] m.entries[k]).block_id < m.device.len()
                &&& m.entries[k].data.len() == BLOCK_SIZE
                &&& !m.entries[k].modified ==> m.entries[k].data == m.device[m.entries[k].block_id as int]
                &&& self.view()[m.entries[k].block_id as int] == m.entries[k].data
            } by {
                let k0 = if k < i { k } else if k < n - 1 { k + 1 } else { i };
                assert(m.entries[k].data == self.entries[k0].data);
                self.lemma_slot(k0);
            }
            assert forall|c: int| 0 <= c < m.device.len() && !m.resident(c) implies #[trigger] self.view()[c]
                == m.device[c] by {
                if self.resident(c) {
                    let k = self.slot(c);
                    let k1 = if k < i { k } else if k == i { n - 1 } else { k - 1 };
                    assert(m.entries[k1].block_id == c);
                }
            }
            m.lemma_view_is(self.view());
            assert(m.entries[n - 1].block_id == b);
            m.lemma_slot(n - 1);
        } else {
            assert(m.entries[i].block_id == b);
            assert forall|k: int| 0 <= k < m.entries.len() implies self.view()[(
            #[trigger] m.entries[k]).block_id as int] == m.entries[k].data by {
                self.lemma_slot(k);
            }
            assert forall|c: int| 0 <= c < m.device.len() && !m.resident(c) implies #[trigger] self.view()[c]
                == m.device[c] by {
                if self.resident(c) {
                    let k = self.slot(c);
                    assert(m.entries[k].block_id == c);
                }
            }
            m.lemma_view_is(self.view());
            m.lemma_slot(i);
        }
    }

    /// Writing into a cached block changes, of what readers see, that block
    /// alone, and the device not at all.
    pub proof fn lemma_modify(self, b: int, off: int, bytes: Seq<u8>)
        requires
            self.wf(),
            self.resident(b),
            0 <= off,
            off + bytes.len() <= BLOCK_SIZE,
        ensures
            self.modify(b, off, bytes).wf(),
            self.modify(b, off, bytes).view() == self.view().update(b, patch(self.view()[b], off, bytes)),
            self.modify(b, off, bytes).device == self.device,
            self.modify(b, off, bytes).capacity == self.capacity,
            self.modify(b, off, bytes).resident(b),
            self.modify(b, off, bytes).pins(b) == self.pins(b),
    {
        let m = self.modify(b, off, bytes);
        let i = self.slot(b);
        let v = self.view().update(b, patch(self.view()[b], off, bytes));
        self.lemma_slot(i);
        assert(m.entries[i].block_id == b);
        assert forall|k: int| 0 <= k < m.entries.len() implies v[(#[trigger] m.entries[k]).block_id as int]
            == m.entries[k].data by {
            self.lemma_slot(k);
        }
        assert forall|c: int| 0 <= c < m.device.len() && !m.resident(c) implies #[trigger] v[c] == m.device[c] by {
            if self.resident(c) {
                let k = self.slot(c);
                assert(m.entries[k].block_id == c);
            }
        }
        m.lemma_view_is(v);
        m.lemma_slot(i);
    }

    /// Writing back changes nothing that readers see; afterwards the device
    /// holds every block that was written back as readers see it.
    pub proof fn lemma_sync(self)
        requires
            self.wf(),
        ensures
            self.sync().wf(),
            self.sync().view() == self.view(),
            self.sync().device == self.view(),
            self.sync().no_pins() == self.no_pins(),
    {
        let m = self.sync();
        assert forall|i: int| 0 <= i < m.entries.len() implies {
            &&& (#[trigger] m.entries[i]).block_id < m.device.len()
            &&& m.entries[i].data.len() == BLOCK_SIZE
            &&& m.entries[i].data == m.device[m.entries[i].block_id as int]
        } by {
            self.lemma_slot(i);
        }
        assert forall|b: int| 0 <= b < m.device.len() implies (#[trigger] m.device[b]).len() == BLOCK_SIZE by {
            if self.resident(b) {
                let k = self.slot(b);
            }
        }
        assert forall|k: int| 0 <= k < m.entries.len() implies self.view()[(
        #[trigger] m.entries[k]).block_id as int] == m.entries[k].data by {
            self.lemma_slot(k);
        }
        m.lemma_view_is(self.view());
        if self.no_pins() {
            assert(m.no_pins());
        }
        if m.no_pins() {
            assert forall|i: int| 0 <= i < self.entries.len() implies (#[trigger] self.entries[i]).pins == 0 by {
                assert(m.entries[i].pins == 0);
            }
        }
    }

    /// Bytes written into a block are what a reader of that block finds
    /// after the handle was given back and any other block was handed out,
    /// whether or not the written block had to leave the cache for it.
    pub proof fn lemma_written_bytes_stay(self, b: int, off: int, bytes: Seq<u8>, c: int)
        requires
            self.wf(),
            self.resident(b),
            self.pins(b) > 0,
            0 <= off,
            off + bytes.len() <= BLOCK_SIZE,
            0 <= c < self.device.len(),
            self.modify(b, off, bytes).release(b).can_fetch(c),
        ensures
            self.modify(b, off, bytes).release(b).fetch(c).view()[b].subrange(off, off + bytes.len())
                == bytes,
    {
        let m1 = self.modify(b, off, bytes);
        self.lemma_modify(b, off, bytes);
        m1.lemma_release(b);
        let m2 = m1.release(b);
        m2.lemma_fetch(c);
        let i = self.slot(b);
        self.lemma_slot(i);
        crate::codec::lemma_patch_read(self.view()[b], off, bytes);
    }
}


/// The cache manager: a device and at most `max_cache` cached blocks of it,
/// the least recently used first.
pub struct BlockCacheManager<D: BlockDevice> {
    pub device: D,
    pub max_cache: usize,
    pub blocks: Vec<BlockCache>,
}

impl<D: BlockDevice> BlockCacheManager<D> {
    /// The cache as a model: the device, the slots in order of use, and
    /// the number of slots it may hold.
    pub open spec fn model(&self) -> CacheModel {
        CacheModel {
            device: self.device.blocks(),
            entries: Seq::new(self.blocks@.len(), |i: int| self.blocks@[i]@),
            capacity: self.max_cache as nat,
        }
    }

    /// The device is in order, and so is the cache over it.
    pub open spec fn wf(&self) -> bool {
        self.device.inv() && self.model().wf()
    }

    /// The disk as readers see it.
    pub open spec fn view(&self) -> Seq<Seq<u8>> {
        self.model().view()
    }

    /// Valid, with room for a block and no block held: the state between
    /// two operations of the file system.
    pub open spec fn ready(&self) -> bool {
        self.wf() && self.model().no_pins() && self.max_cache >= 1
    }

    /// An empty cache of at most `max_cache` blocks over `device`.
    pub fn new(device: D, max_cache: usize) -> (m: Self)
        requires
            device.inv(),
        ensures
            m.wf(),
            m.device == device,
            m.max_cache == max_cache,
            m.model().entries == Seq::<BlockCacheView>::empty(),
            m.view() == device.blocks(),
    {
        let n = device.block_num();
        let m = BlockCacheManager { device, max_cache, blocks: Vec::new() };
        proof {
            m.device.lemma_block_size();
            assert(m.model().entries =~= Seq::<BlockCacheView>::empty());
            m.model().lemma_view_is(m.device.blocks());
        }
        m
    }

    /// Starts over with `block_device` and a new bound; what the cache held
    /// is dropped without being written back.
    pub fn init(&mut self, block_device: D, max_cache: usize)
        requires
            block_device.inv(),
        ensures
            final(self).wf(),
            final(self).device == block_device,
            final(self).max_cache == max_cache,
            final(self).model().entries == Seq::<BlockCacheView>::empty(),
            final(self).view() == block_device.blocks(),
    {
        let n = block_device.block_num();
        self.device = block_device;
        self.max_cache = max_cache;
        self.blocks.clear();
        proof {
            self.device.lemma_block_size();
            assert(self.model().entries =~= Seq::<BlockCacheView>::empty());
            self.model().lemma_view_is(self.device.blocks());
        }
    }

    /// Number of blocks of the device.
    pub fn block_num(&self) -> (n: usize)
        requires
            self.wf(),
        ensures
            n == self.view().len(),
    {
        self.device.block_num()
    }

    fn find(&self, block_id: usize) -> (r: Option<usize>)
        requires
            self.wf(),
        ensures
            r is Some <==> self.model().resident(block_id as int),
            r matches Some(i) ==> i == self.model().slot(block_id as int) && i < self.blocks@.len()
                && self.blocks@[i as int].block_id == block_id,
    {
        let mut i: usize = 0;
        while i < self.blocks.len()
            invariant
                self.wf(),
                i <= self.blocks@.len(),
                forall|j: int| 0 <= j < i ==> (#[trigger] self.model().entries[j]).block_id != block_id,
            decreases self.blocks@.len() - i,
        {
            if self.blocks[i].block_id == block_id {
                proof {
                    assert(self.model().entries[i as int].block_id == block_id);
                    self.model().lemma_slot(i as int);
                }
                return Some(i);
            }
            i += 1;
        }
        None
    }

    fn find_victim(&self) -> (r: Option<usize>)
        ensures
            r is Some <==> self.model().evictable(),
            r matches Some(i) ==> i == self.model().victim() && i < self.blocks@.len(),
    {
        let mut i: usize = 0;
        while i < self.blocks.len()
            invariant
                i <= self.blocks@.len(),
                forall|j: int| 0 <= j < i ==> (#[trigger] self.model().entries[j]).pins != 0,
            decreases self.blocks@.len() - i,
        {
            if self.blocks[i].pins == 0 {
                proof {
                    assert(self.model().entries[i as int].pins == 0);
                    assert(self.model().is_victim(i as int));
                    self.model().lemma_victim(i as int);
                }
                return Some(i);
            }
            i += 1;
        }
        proof {
            if self.model().evictable() {
                let v = self.model().victim();
                assert(self.model().is_victim(v));
                assert(self.model().entries[v].pins != 0);
            }
        }
        None
    }

    /// Hands out block `block_id`: afterwards it is in the cache with one
    /// more holder. Readers see what they saw before.
    pub fn get_block_cache(&mut self, block_id: usize)
        requires
            old(self).wf(),
            block_id < old(self).view().len(),
            old(self).model().can_fetch(block_id as int),
            old(self).model().pins(block_id as int) < usize::MAX,
        ensures
            final(self).wf(),
            final(self).model() == old(self).model().fetch(block_id as int),
            final(self).view() == old(self).view(),
            final(self).max_cache == old(self).max_cache,
            final(self).model().resident(block_id as int),
    {
        proof {
            old(self).model().lemma_fetch(block_id as int);
        }
        match self.find(block_id) {
            Some(i) => {
                let p = self.blocks[i].pins;
                self.blocks[i].pins = p + 1;
                proof {
                    assert(self.model().entries =~= old(self).model().fetch(block_id as int).entries);
                }
            },
            None => {
                let mut buf = zeroed(BLOCK_SIZE);
                if self.blocks.len() < self.max_cache {
                    self.device.read_block(block_id, &mut buf);
                    self.blocks.push(BlockCache { block_id, modified: false, cache: buf, pins: 1 });
                    proof {
                        assert(self.model().entries =~= old(self).model().fetch(block_id as int).entries);
                    }
                } else {
                    match self.find_victim() {
                        Some(v) => {
                            if self.blocks[v].modified {
                                self.device.write_block(self.blocks[v].block_id, self.blocks[v].cache.as_slice());
                            }
                            self.device.read_block(block_id, &mut buf);
                            self.blocks[v] = BlockCache { block_id, modified: false, cache: buf, pins: 1 };
                            proof {
                                assert(self.model().device =~= old(self).model().fetch(block_id as int).device);
                                assert(self.model().entries =~= old(self).model().fetch(block_id as int).entries);
                            }
                        },
                        None => {
                            proof {
                                assert(false);
                            }
                        },
                    }
                }
            },
        }
    }

    /// Gives back a handle on block `block_id`; with the last one the block
    /// becomes the most recently used.
    pub fn release_block(&mut self, block_id: usize)
        requires
            old(self).wf(),
            old(self).model().resident(block_id as int),
            old(self).model().pins(block_id as int) > 0,
        ensures
            final(self).wf(),
            final(self).model() == old(self).model().release(block_id as int),
            final(self).view() == old(self).view(),
            final(self).max_cache == old(self).max_cache,
    {
        proof {
            old(self).model().lemma_release(block_id as int);
        }
        match self.find(block_id) {
            Some(i) => {
                proof {
                    self.model().lemma_slot(i as int);
                }
                let p = self.blocks[i].pins;
                if p == 1 {
                    let mut e = self.blocks.remove(i);
                    e.pins = 0;
                    self.blocks.push(e);
                } else {
                    self.blocks[i].pins = p - 1;
                }
                proof {
                    assert(self.model().entries =~= old(self).model().release(block_id as int).entries);
                }
            },
            None => {
                proof {
                    assert(false);
                }
            },
        }
    }

    /// Writes the cached block `block_id` to the device if it was modified.
    pub fn write_block(&mut self, block_id: usize)
        requires
            old(self).wf(),
            old(self).model().resident(block_id as int),
        ensures
            final(self).wf(),
            final(self).model() == old(self).model().write_back(block_id as int),
            final(self).view() == old(self).view(),
            final(self).max_cache == old(self).max_cache,
    {
        match self.find(block_id) {
            Some(i) => {
                self.write_slot(i);
            },
            None => {
                proof {
                    assert(false);
                }
            },
        }
    }

    fn write_slot(&mut self, i: usize)
        requires
            old(self).wf(),
            i < old(self).blocks@.len(),
        ensures
            final(self).wf(),
            final(self).model() == old(self).model().write_back(old(self).blocks@[i as int].block_id as int),
            final(self).view() == old(self).view(),
            final(self).max_cache == old(self).max_cache,
            final(self).blocks@.len() == old(self).blocks@.len(),
            final(self).model().device == old(self).model().device_after_write_back(i as int),
            final(self).model().entries == old(self).model().entries.update(
                i as int,
                old(self).model().entries[i as int].cleaned(),
            ),
    {
        proof {
            self.model().lemma_slot(i as int);
        }
        if self.blocks[i].modified {
            self.device.write_block(self.blocks[i].block_id, self.blocks[i].cache.as_slice());
            self.blocks[i].modified = false;
        }
        proof {
            let m0 = old(self).model();
            let m = self.model();
            assert(m.device =~= m0.device_after_write_back(i as int));
            assert(m.entries =~= m0.entries.update(i as int, m0.entries[i as int].cleaned()));
            assert forall|k: int, j: int| 0 <= k < j < m.entries.len() implies (#[trigger] m.entries[k]).block_id
                != (#[trigger] m.entries[j]).block_id by {
                assert(m0.entries[k].block_id != m0.entries[j].block_id);
            }
            assert forall|k: int| 0 <= k < m.entries.len() implies {
                &&& (#[trigger] m.entries[k]).block_id < m.device.len()
                &&& m.entries[k].data.len() == BLOCK_SIZE
                &&& !m.entries[k].modified ==> m.entries[k].data == m.device[m.entries[k].block_id as int]
                &&& m0.view()[m.entries[k].block_id as int] == m.entries[k].data
            } by {
                m0.lemma_slot(k);
                if k < i as int {
                    assert(m0.entries[k].block_id != m0.entries[i as int].block_id);
                } else if k > i as int {
                    assert(m0.entries[i as int].block_id != m0.entries[k].block_id);
                }
            }
            assert forall|c: int| 0 <= c < m.device.len() && !m.resident(c) implies #[trigger] m0.view()[c]
                == m.device[c] by {
                if m0.resident(c) {
                    let k = m0.slot(c);
                    assert(m.entries[k].block_id == c);
                }
            }
            m.lemma_view_is(m0.view());
        }
    }

    /// One more holder for block `block_id` if it is in the cache; nothing
    /// is read from the device. Tells whether it was there.
    pub fn pin_block(&mut self, block_id: usize) -> (resident: bool)
        requires
            old(self).wf(),
            old(self).model().pins(block_id as int) < usize::MAX,
        ensures
            final(self).wf(),
            resident == old(self).model().resident(block_id as int),
            final(self).model() == old(self).model().pin(block_id as int),
            final(self).view() == old(self).view(),
            final(self).max_cache == old(self).max_cache,
    {
        match self.find(block_id) {
            Some(i) => {
                proof {
                    self.model().lemma_slot(i as int);
                    assert(self.model().can_fetch(block_id as int));
                    self.model().lemma_fetch(block_id as int);
                }
                let p = self.blocks[i].pins;
                self.blocks[i].pins = p + 1;
                proof {
                    assert(self.model().entries =~= old(self).model().pin(block_id as int).entries);
                }
                true
            },
            None => false,
        }
    }

    /// One holder less for block `block_id`; its place in the order of use
    /// stays.
    pub fn unpin_block(&mut self, block_id: usize)
        requires
            old(self).wf(),
            old(self).model().resident(block_id as int),
            old(self).model().pins(block_id as int) > 0,
        ensures
            final(self).wf(),
            final(self).model() == old(self).model().unpin(block_id as int),
            final(self).view() == old(self).view(),
            final(self).max_cache == old(self).max_cache,
    {
        match self.find(block_id) {
            Some(i) => {
                proof {
                    self.model().lemma_slot(i as int);
                }
                let p = self.blocks[i].pins;
                self.blocks[i].pins = p - 1;
                proof {
                    let m0 = old(self).model();
                    let m = self.model();
                    assert(m.entries =~= m0.unpin(block_id as int).entries);
                    assert forall|k: int, j: int| 0 <= k < j < m.entries.len() implies (
                    #[trigger] m.entries[k]).block_id != (#[trigger] m.entries[j]).block_id by {
                        assert(m0.entries[k].block_id != m0.entries[j].block_id);
                    }
                    assert forall|k: int| 0 <= k < m.entries.len() implies {
                        &&& (#[trigger] m.entries[k]).block_id < m.device.len()
                        &&& m.entries[k].data.len() == BLOCK_SIZE
                        &&& !m.entries[k].modified ==> m.entries[k].data == m.device[m.entries[k].block_id as int]
                        &&& m0.view()[m.entries[k].block_id as int] == m.entries[k].data
                    } by {
                        m0.lemma_slot(k);
                    }
                    assert forall|c: int| 0 <= c < m.device.len() && !m.resident(c) implies #[trigger] m0.view()[c]
                        == m.device[c] by {
                        if m0.resident(c) {
                            let k = m0.slot(c);
                            assert(m.entries[k].block_id == c);
                        }
                    }
                    m.lemma_view_is(m0.view());
                }
            },
            None => {
                proof {
                    assert(false);
                }
            },
        }
    }

    /// Writes every modified block to the device: afterwards the device
    /// holds what readers see.
    pub fn sync_all_block(&mut self)
        requires
            old(self).wf(),
        ensures
            final(self).wf(),
            final(self).model() == old(self).model().sync(),
            final(self).view() == old(self).view(),
            final(self).device.blocks() == old(self).view(),
            final(self).max_cache == old(self).max_cache,
    {
        let n = self.blocks.len();
        let mut i: usize = 0;
        while i < n
            invariant
                self.wf(),
                i <= n,
                n == self.blocks@.len(),
                self.max_cache == old(self).max_cache,
                self.view() == old(self).view(),
                self.model().entries.len() == old(self).model().entries.len(),
                forall|k: int| 0 <= k < i ==> #[trigger] self.model().entries[k] == old(self).model().entries[k].cleaned(),
                forall|k: int| i <= k < n ==> #[trigger] self.model().entries[k] == old(self).model().entries[k],
            decreases n - i,
        {
            self.write_slot(i);
            i += 1;
        }
        proof {
            let m0 = old(self).model();
            let m = self.model();
            m0.lemma_sync();
            assert(m.entries =~= m0.sync().entries);
            assert forall|b: int| 0 <= b < m.device.len() implies #[trigger] m.device[b] == m.view()[b] by {
                if m.resident(b) {
                    let k = m.slot(b);
                    assert(!m.entries[k].modified);
                }
            }
            assert(m.device =~= m.view());
        }
    }

    /// The cached block `block_id`.
    pub fn block(&self, block_id: usize) -> (b: &BlockCache)
        requires
            self.wf(),
            self.model().resident(block_id as int),
        ensures
            b@ == self.model().entries[self.model().slot(block_id as int)],
            b.cache@ == self.view()[block_id as int],
    {
        match self.find(block_id) {
            Some(i) => {
                proof {
                    self.model().lemma_slot(i as int);
                }
                &self.blocks[i]
            },
            None => {
                proof {
                    assert(false);
                }
                &self.blocks[0]
            },
        }
    }

    /// Writes `src` into the cached block `block_id` from `offset` on.
    pub fn modify_block(&mut self, block_id: usize, offset: usize, src: &[u8])
        requires
            old(self).wf(),
            old(self).model().resident(block_id as int),
            offset + src@.len() <= BLOCK_SIZE,
        ensures
            final(self).wf(),
            final(self).model() == old(self).model().modify(block_id as int, offset as int, src@),
            final(self).view() == old(self).view().update(
                block_id as int,
                patch(old(self).view()[block_id as int], offset as int, src@),
            ),
            final(self).max_cache == old(self).max_cache,
    {
        proof {
            old(self).model().lemma_modify(block_id as int, offset as int, src@);
        }
        match self.find(block_id) {
            Some(i) => {
                proof {
                    self.model().lemma_slot(i as int);
                }
                self.blocks[i].modified = true;
                put_bytes(&mut self.blocks[i].cache, offset, src);
                proof {
                    assert(self.model().entries =~= old(self).model().modify(
                        block_id as int,
                        offset as int,
                        src@,
                    ).entries);
                }
            },
            None => {
                proof {
                    assert(false);
                }
            },
        }
    }

    /// A copy of `len` bytes of block `block_id` from `offset` on, as
    /// readers see them.
    pub fn read_bytes(&mut self, block_id: usize, offset: usize, len: usize) -> (out: Vec<u8>)
        requires
            old(self).ready(),
            block_id < old(self).view().len(),
            offset + len <= BLOCK_SIZE,
        ensures
            final(self).ready(),
            final(self).view() == old(self).view(),
            final(self).max_cache == old(self).max_cache,
            out@ == old(self).view()[block_id as int].subrange(offset as int, offset + len),
    {
        proof {
            let m0 = old(self).model();
            m0.lemma_no_pins_can_fetch(block_id as int);
            m0.lemma_fetch(block_id as int);
            m0.fetch(block_id as int).lemma_release(block_id as int);
        }
        self.get_block_cache(block_id);
        let out = self.block(block_id).read(offset, len);
        self.release_block(block_id);
        out
    }

    /// Writes `src` into block `block_id` from `offset` on.
    pub fn write_bytes(&mut self, block_id: usize, offset: usize, src: &[u8])
        requires
            old(self).ready(),
            block_id < old(self).view().len(),
            offset + src@.len() <= BLOCK_SIZE,
        ensures
            final(self).ready(),
            final(self).view() == old(self).view().update(
                block_id as int,
                patch(old(self).view()[block_id as int], offset as int, src@),
            ),
            final(self).max_cache == old(self).max_cache,
    {
        proof {
            let m0 = old(self).model();
            m0.lemma_no_pins_can_fetch(block_id as int);
            m0.lemma_fetch(block_id as int);
            let m1 = m0.fetch(block_id as int);
            m1.lemma_modify(block_id as int, offset as int, src@);
            let m2 = m1.modify(block_id as int, offset as int, src@);
            assert forall|i: int| 0 <= i < m2.entries.len() && (#[trigger] m2.entries[i]).block_id != block_id
                implies m2.entries[i].pins == 0 by {
                assert(m1.entries[i].block_id != block_id);
            }
            m2.lemma_release(block_id as int);
        }
        self.get_block_cache(block_id);
        self.modify_block(block_id, offset, src);
        self.release_block(block_id);
    }

    /// Writes back what is modified and hands the device out.
    pub fn into_device(self) -> (device: D)
        requires
            self.wf(),
        ensures
            device.inv(),
            device.blocks() == self.view(),
    {
        let mut m = self;
        m.sync_all_block();
        m.device
    }
}

} // verus!
