//! A write-back cache of device blocks with dirty tracking, eviction of
//! the least recently used entry, and an explicit flush.
use vstd::prelude::*;

use crate::BLOCK_SZ;

verus! {

/// A block device held in memory: a fixed number of blocks of
/// `BLOCK_SZ` bytes.
pub struct BlockDevice {
    blocks: Vec<Vec<u8>>,
}

impl View for BlockDevice {
    type V = Seq<Seq<u8>>;

    closed spec fn view(&self) -> Seq<Seq<u8>> {
        self.blocks@.map_values(|b: Vec<u8>| b@)
    }
}

/// Copy of a block's bytes.
fn copy_bytes(src: &Vec<u8>) -> (r: Vec<u8>)
    ensures
        r@ == src@,
{
    let mut r: Vec<u8> = Vec::new();
    let mut i: usize = 0;
    while i < src.len()
        invariant
            i <= src@.len(),
            r@ == src@.subrange(0, i as int),
        decreases src@.len() - i,
    {
        r.push(src[i]);
        i = i + 1;
    }
    assert(r@ =~= src@);
    r
}

impl BlockDevice {
    /// Every block has the device's block size.
    pub open spec fn wf(&self) -> bool {
        forall|b: int| 0 <= b < self@.len() ==> (#[trigger] self@[b]).len() == BLOCK_SZ
    }

    /// A device of `count` zeroed blocks.
    pub fn new(count: usize) -> (r: BlockDevice)
        ensures
            r.wf(),
            r@.len() == count,
            forall|b: int| 0 <= b < count ==> #[trigger] r@[b] == Seq::new(BLOCK_SZ as nat, |i: int| 0u8),
    {
        let mut blocks: Vec<Vec<u8>> = Vec::new();
        while blocks.len() < count
            invariant
                blocks@.len() <= count,
                forall|b: int| 0 <= b < blocks@.len() ==> (#[trigger] blocks@[b])@ =~= Seq::new(
                    BLOCK_SZ as nat,
                    |i: int| 0u8,
                ),
            decreases count - blocks@.len(),
        {
            blocks.push(vec![0u8; BLOCK_SZ]);
        }
        BlockDevice { blocks }
    }

    /// Number of blocks.
    pub fn num_blocks(&self) -> (r: usize)
        ensures
            r == self@.len(),
    {
        self.blocks.len()
    }

    /// Bytes of block `id`.
    pub fn read_block(&self, id: usize) -> (r: Vec<u8>)
        requires
            id < self@.len(),
        ensures
            r@ == self@[id as int],
    {
        copy_bytes(&self.blocks[id])
    }

    /// Replaces block `id` with `data`.
    pub fn write_block(&mut self, id: usize, data: Vec<u8>)
        requires
            old(self).wf(),
            id < old(self)@.len(),
            data@.len() == BLOCK_SZ,
        ensures
            final(self).wf(),
            final(self)@ == old(self)@.update(id as int, data@),
    {
        self.blocks.set(id, data);
        assert(self@ =~= old(self)@.update(id as int, data@));
    }
}

/// One resident block: its number, its bytes, whether they differ from
/// the device, and when it was last used.
pub struct CacheEntry {
    block_id: usize,
    data: Vec<u8>,
    dirty: bool,
    stamp: u64,
}

/// The resident blocks, at most `capacity` of them.
pub struct BlockCache {
    slots: Vec<CacheEntry>,
    capacity: usize,
    clock: u64,
}

/// A block's bytes with `bytes` written over them from `offset` on.
pub open spec fn patch(block: Seq<u8>, offset: int, bytes: Seq<u8>) -> Seq<u8> {
    Seq::new(
        block.len(),
        |i: int|
            if offset <= i < offset + bytes.len() {
                bytes[i - offset]
            } else {
                block[i]
            },
    )
}

/// No block is held by two slots.
spec fn distinct_ids(slots: Seq<CacheEntry>) -> bool {
    forall|i: int, j: int|
        0 <= i < slots.len() && 0 <= j < slots.len() && #[trigger] slots[i].block_id
            == #[trigger] slots[j].block_id ==> i == j
}

/// When block `b` was last used, read from the slot that holds it.
spec fn stamp_of(slots: Seq<CacheEntry>, b: int) -> nat {
    slots[choose|i: int| 0 <= i < slots.len() && slots[i].block_id == b].stamp as nat
}

proof fn lemma_use_of(slots: Seq<CacheEntry>, i: int)
    requires
        distinct_ids(slots),
        0 <= i < slots.len(),
    ensures
        holds(slots, slots[i].block_id as int),
        stamp_of(slots, slots[i].block_id as int) == slots[i].stamp,
{
    let b = slots[i].block_id as int;
    assert(holds(slots, b));
    let j = choose|j: int| 0 <= j < slots.len() && slots[j].block_id == b;
    assert(slots[j].block_id == slots[i].block_id);
}

proof fn lemma_same_residency(s1: Seq<CacheEntry>, s2: Seq<CacheEntry>)
    requires
        distinct_ids(s1),
        s1.len() == s2.len(),
        forall|i: int| 0 <= i < s1.len() ==> (#[trigger] s2[i]).block_id == s1[i].block_id && s2[i].stamp == s1[i].stamp,
    ensures
        distinct_ids(s2),
        forall|b: int| #[trigger] holds(s2, b) == holds(s1, b),
        forall|b: int| holds(s1, b) ==> #[trigger] stamp_of(s2, b) == stamp_of(s1, b),
{
    assert forall|i: int, j: int|
        0 <= i < s2.len() && 0 <= j < s2.len() && #[trigger] s2[i].block_id == #[trigger] s2[j].block_id
        implies i == j by {
        assert(s1[i].block_id == s1[j].block_id);
    }
    assert forall|b: int| #[trigger] holds(s2, b) == holds(s1, b) by {
        if holds(s1, b) {
            let k = choose|k: int| 0 <= k < s1.len() && s1[k].block_id == b;
            assert(s2[k].block_id == b);
        }
        if holds(s2, b) {
            let k = choose|k: int| 0 <= k < s2.len() && s2[k].block_id == b;
            assert(s1[k].block_id == b);
        }
    }
    assert forall|b: int| holds(s1, b) implies #[trigger] stamp_of(s2, b) == stamp_of(s1, b) by {
        let k = choose|k: int| 0 <= k < s1.len() && s1[k].block_id == b;
        lemma_use_of(s1, k);
        lemma_use_of(s2, k);
    }
}

/// Some slot of `slots` holds block `b`.
spec fn holds(slots: Seq<CacheEntry>, b: int) -> bool {
    exists|i: int| 0 <= i < slots.len() && slots[i].block_id == b
}

impl BlockCache {
    /// The contents a reader sees: a resident block's cached bytes, else
    /// the device's.
    pub closed spec fn logical(&self, dev: Seq<Seq<u8>>) -> Seq<Seq<u8>> {
        Seq::new(
            dev.len(),
            |b: int|
                if holds(self.slots@, b) {
                    self.slots@[choose|i: int|
                        0 <= i < self.slots@.len() && self.slots@[i].block_id == b].data@
                } else {
                    dev[b]
                },
        )
    }

    /// The cache fits its capacity, holds each block at most once, keeps
    /// full-size buffers, and every clean entry matches the device.
    pub closed spec fn wf(&self, dev: Seq<Seq<u8>>) -> bool {
        &&& 0 < self.capacity
        &&& self.slots@.len() <= self.capacity
        &&& forall|i: int|
            0 <= i < self.slots@.len() ==> {
                &&& (#[trigger] self.slots@[i]).block_id < dev.len()
                &&& self.slots@[i].data@.len() == BLOCK_SZ
                &&& !self.slots@[i].dirty ==> self.slots@[i].data@ == dev[self.slots@[i].block_id as int]
                &&& self.slots@[i].stamp < self.clock
            }
        &&& distinct_ids(self.slots@)
    }

    /// Whether block `b` is resident.
    pub closed spec fn is_resident(&self, b: int) -> bool {
        holds(self.slots@, b)
    }

    /// Most blocks the cache holds at once.
    pub closed spec fn capacity(&self) -> nat {
        self.capacity as nat
    }

    /// When resident block `b` was last used, counted in accesses.
    pub closed spec fn last_use(&self, b: int) -> nat {
        stamp_of(self.slots@, b)
    }

    /// What an access to block `id` does to residency: `id` is resident
    /// afterwards and marked as used now, the cache stays within its
    /// capacity, and other blocks keep their last use. A block already
    /// resident, or a cache with room, only adds `id`; a full cache first
    /// evicts one least recently used block.
    pub open spec fn loaded(pre: &BlockCache, post: &BlockCache, id: int) -> bool {
        &&& post.is_resident(id)
        &&& post.capacity() == pre.capacity()
        &&& post.resident() <= post.capacity()
        &&& post.last_use(id) == pre.uses()
        &&& forall|b: int| b != id && #[trigger] post.is_resident(b) ==> post.last_use(b) == pre.last_use(b)
        &&& if pre.is_resident(id) || pre.resident() < pre.capacity() {
            &&& forall|b: int| #[trigger] post.is_resident(b) == (pre.is_resident(b) || b == id)
            &&& post.resident() == pre.resident() + (if pre.is_resident(id) { 0nat } else { 1nat })
        } else {
            &&& post.resident() == pre.resident()
            &&& exists|v: int|
                {
                    &&& #[trigger] pre.is_resident(v)
                    &&& v != id
                    &&& forall|b: int| #[trigger] pre.is_resident(b) ==> pre.last_use(v) <= pre.last_use(b)
                    &&& forall|b: int| #[trigger] post.is_resident(b) == (b == id || (pre.is_resident(b) && b != v))
                }
        }
    }

    /// Number of resident blocks.
    pub closed spec fn resident(&self) -> nat {
        self.slots@.len()
    }

    /// Number of accesses so far.
    pub closed spec fn uses(&self) -> nat {
        self.clock as nat
    }

    /// An empty cache that holds up to `capacity` blocks.
    pub fn new(capacity: usize) -> (r: BlockCache)
        requires
            capacity > 0,
        ensures
            forall|dev: Seq<Seq<u8>>| r.wf(dev) && r.logical(dev) == dev,
            r.resident() == 0,
            r.uses() == 0,
    {
        let r = BlockCache { slots: Vec::new(), capacity, clock: 0 };
        assert forall|dev: Seq<Seq<u8>>| r.wf(dev) && r.logical(dev) == dev by {
            assert(r.logical(dev) =~= dev);
        }
        r
    }

    proof fn lemma_slot_value(&self, dev: Seq<Seq<u8>>, i: int)
        requires
            self.wf(dev),
            0 <= i < self.slots@.len(),
        ensures
            self.logical(dev)[self.slots@[i].block_id as int] == self.slots@[i].data@,
    {
        let b = self.slots@[i].block_id as int;
        assert(holds(self.slots@, b));
        let j = choose|j: int| 0 <= j < self.slots@.len() && self.slots@[j].block_id == b;
        assert(self.slots@[j].block_id == self.slots@[i].block_id);
    }

    /// Whether block `id` is resident.
    pub fn contains_block(&self, id: usize) -> (r: bool)
        ensures
            r == self.is_resident(id as int),
    {
        self.find_slot(id).is_some()
    }

    fn find_slot(&self, id: usize) -> (r: Option<usize>)
        ensures
            match r {
                Some(i) => i < self.slots@.len() && self.slots@[i as int].block_id == id,
                None => !holds(self.slots@, id as int),
            },
    {
        let mut i: usize = 0;
        while i < self.slots.len()
            invariant
                i <= self.slots@.len(),
                forall|k: int| 0 <= k < i ==> self.slots@[k].block_id != id,
            decreases self.slots@.len() - i,
        {
            if self.slots[i].block_id == id {
                return Some(i);
            }
            i = i + 1;
        }
        None
    }

    fn least_recent(&self) -> (r: usize)
        requires
            self.slots@.len() > 0,
        ensures
            r < self.slots@.len(),
            forall|k: int| 0 <= k < self.slots@.len() ==> self.slots@[r as int].stamp <= #[trigger] self.slots@[k].stamp,
    {
        let mut best: usize = 0;
        let mut i: usize = 1;
        while i < self.slots.len()
            invariant
                1 <= i <= self.slots@.len(),
                best < i,
                forall|k: int| 0 <= k < i ==> self.slots@[best as int].stamp <= #[trigger] self.slots@[k].stamp,
            decreases self.slots@.len() - i,
        {
            if self.slots[i].stamp < self.slots[best].stamp {
                best = i;
            }
            i = i + 1;
        }
        best
    }
    /// Makes block `id` resident and returns its slot. A missing block is
    /// read from the device; when the cache is full the least recently
    /// used entry leaves first, written back if dirty.
    fn load(&mut self, dev: &mut BlockDevice, id: usize) -> (r: usize)
        requires
            old(dev).wf(),
            old(self).wf(old(dev)@),
            id < old(dev)@.len(),
            old(self).clock < u64::MAX,
        ensures
            final(dev).wf(),
            final(self).wf(final(dev)@),
            final(self).logical(final(dev)@) == old(self).logical(old(dev)@),
            final(dev)@.len() == old(dev)@.len(),
            r < final(self).slots@.len(),
            final(self).slots@[r as int].block_id == id,
            final(self).clock == old(self).clock + 1,
            final(self).capacity == old(self).capacity,
            BlockCache::loaded(old(self), final(self), id as int),
    {
        let ghost l0 = self.logical(dev@);
        let ghost dev0 = dev@;
        let stamp = self.clock;
        self.clock = self.clock + 1;
        match self.find_slot(id) {
            Some(i) => {
                self.slots[i].stamp = stamp;
                proof {
                    assert(self.logical(dev@) =~= l0) by {
                        assert forall|b: int| 0 <= b < dev@.len() implies self.logical(dev@)[b] == l0[b] by {
                            if holds(self.slots@, b) {
                                let k = choose|k: int| 0 <= k < self.slots@.len() && self.slots@[k].block_id == b;
                                assert(old(self).slots@[k].block_id == b);
                                old(self).lemma_slot_value(dev0, k);
                                self.lemma_slot_value(dev@, k);
                            } else {
                                assert(!holds(old(self).slots@, b)) by {
                                    if holds(old(self).slots@, b) {
                                        let k = choose|k: int| 0 <= k < old(self).slots@.len() && old(self).slots@[k].block_id == b;
                                        assert(self.slots@[k].block_id == b);
                                    }
                                }
                            }
                        }
                    }
                    let s0 = old(self).slots@;
                    let s1 = self.slots@;
                    lemma_use_of(s1, i as int);
                    assert(old(self).is_resident(id as int)) by {
                        assert(s0[i as int].block_id == id);
                    }
                    assert forall|b: int| #[trigger] self.is_resident(b) == (old(self).is_resident(b) || b == id) by {
                        if holds(s1, b) {
                            let k = choose|k: int| 0 <= k < s1.len() && s1[k].block_id == b;
                            assert(s0[k].block_id == b);
                        }
                        if holds(s0, b) {
                            let k = choose|k: int| 0 <= k < s0.len() && s0[k].block_id == b;
                            assert(s1[k].block_id == b);
                        }
                    }
                    assert forall|b: int| b != id && #[trigger] self.is_resident(b) implies self.last_use(b) == old(self).last_use(b) by {
                        let k = choose|k: int| 0 <= k < s1.len() && s1[k].block_id == b;
                        lemma_use_of(s1, k);
                        lemma_use_of(s0, k);
                    }
                }
                return i;
            },
            None => {},
        }
        let data = dev.read_block(id);
        let entry = CacheEntry { block_id: id, data, dirty: false, stamp };
        if self.slots.len() < self.capacity {
            self.slots.push(entry);
            let r = self.slots.len() - 1;
            proof {
                let s0 = old(self).slots@;
                assert forall|b: int| 0 <= b < dev@.len() implies self.logical(dev@)[b] == l0[b] by {
                    if b == id {
                        self.lemma_slot_value(dev@, r as int);
                    } else if holds(self.slots@, b) {
                        let k = choose|k: int| 0 <= k < self.slots@.len() && self.slots@[k].block_id == b;
                        assert(s0[k].block_id == b);
                        old(self).lemma_slot_value(dev0, k);
                        self.lemma_slot_value(dev@, k);
                    } else {
                        assert(!holds(s0, b)) by {
                            if holds(s0, b) {
                                let k = choose|k: int| 0 <= k < s0.len() && s0[k].block_id == b;
                                assert(self.slots@[k].block_id == b);
                            }
                        }
                    }
                }
                assert(self.logical(dev@) =~= l0);
                let s1 = self.slots@;
                lemma_use_of(s1, r as int);
                assert forall|b: int| #[trigger] self.is_resident(b) == (old(self).is_resident(b) || b == id) by {
                    if holds(s1, b) {
                        let k = choose|k: int| 0 <= k < s1.len() && s1[k].block_id == b;
                        if k < s0.len() {
                            assert(s0[k].block_id == b);
                        }
                    }
                    if holds(s0, b) {
                        let k = choose|k: int| 0 <= k < s0.len() && s0[k].block_id == b;
                        assert(s1[k].block_id == b);
                    }
                }
                assert forall|b: int| b != id && #[trigger] self.is_resident(b) implies self.last_use(b) == old(self).last_use(b) by {
                    let k = choose|k: int| 0 <= k < s1.len() && s1[k].block_id == b;
                    lemma_use_of(s1, k);
                    lemma_use_of(s0, k);
                }
            }
            return r;
        }
        let v = self.least_recent();
        let victim = self.slots[v].block_id;
        if self.slots[v].dirty {
            let out = copy_bytes(&self.slots[v].data);
            dev.write_block(victim, out);
        }
        let ghost dev1 = dev@;
        let ghost s0 = old(self).slots@;
        self.slots.set(v, entry);
        proof {
            assert(dev1 == dev0.update(victim as int, s0[v as int].data@)) by {
                if !s0[v as int].dirty {
                    assert(dev0 =~= dev0.update(victim as int, s0[v as int].data@));
                }
            }
            assert forall|i: int| 0 <= i < self.slots@.len() implies {
                &&& (#[trigger] self.slots@[i]).block_id < dev@.len()
                &&& self.slots@[i].data@.len() == BLOCK_SZ
                &&& !self.slots@[i].dirty ==> self.slots@[i].data@ == dev@[self.slots@[i].block_id as int]
                &&& self.slots@[i].stamp < self.clock
            } by {
                if i != v {
                    assert(s0[i].block_id != victim);
                }
            }
            assert forall|i: int, j: int|
                0 <= i < self.slots@.len() && 0 <= j < self.slots@.len() && #[trigger] self.slots@[i].block_id
                    == #[trigger] self.slots@[j].block_id implies i == j by {
                if i != v && j != v {
                    assert(s0[i].block_id == s0[j].block_id);
                } else if i != v {
                    assert(s0[i].block_id == id);
                } else if j != v {
                    assert(s0[j].block_id == id);
                }
            }
            assert forall|b: int| 0 <= b < dev@.len() implies self.logical(dev@)[b] == l0[b] by {
                if b == id {
                    self.lemma_slot_value(dev@, v as int);
                } else if b == victim {
                    old(self).lemma_slot_value(dev0, v as int);
                    assert(!holds(self.slots@, b)) by {
                        if holds(self.slots@, b) {
                            let k = choose|k: int| 0 <= k < self.slots@.len() && self.slots@[k].block_id == b;
                            assert(s0[k].block_id == s0[v as int].block_id);
                        }
                    }
                } else if holds(self.slots@, b) {
                    let k = choose|k: int| 0 <= k < self.slots@.len() && self.slots@[k].block_id == b;
                    assert(s0[k].block_id == b);
                    old(self).lemma_slot_value(dev0, k);
                    self.lemma_slot_value(dev@, k);
                } else {
                    assert(!holds(s0, b)) by {
                        if holds(s0, b) {
                            let k = choose|k: int| 0 <= k < s0.len() && s0[k].block_id == b;
                            assert(self.slots@[k].block_id == b);
                        }
                    }
                }
            }
            assert(self.logical(dev@) =~= l0);
            let s1 = self.slots@;
            let x = s0[v as int].block_id as int;
            lemma_use_of(s1, v as int);
            lemma_use_of(s0, v as int);
            assert(x != id);
            assert forall|b: int| #[trigger] old(self).is_resident(b) implies old(self).last_use(x) <= old(self).last_use(b) by {
                let k = choose|k: int| 0 <= k < s0.len() && s0[k].block_id == b;
                lemma_use_of(s0, k);
                assert(s0[v as int].stamp <= s0[k].stamp);
            }
            assert forall|b: int| #[trigger] self.is_resident(b) == (b == id || (old(self).is_resident(b) && b != x)) by {
                if holds(s1, b) {
                    let k = choose|k: int| 0 <= k < s1.len() && s1[k].block_id == b;
                    if k != v {
                        assert(s0[k].block_id == b);
                        assert(s0[k].block_id != s0[v as int].block_id);
                    }
                }
                if holds(s0, b) && b != x {
                    let k = choose|k: int| 0 <= k < s0.len() && s0[k].block_id == b;
                    assert(k != v);
                    assert(s1[k].block_id == b);
                }
            }
            assert forall|b: int| b != id && #[trigger] self.is_resident(b) implies self.last_use(b) == old(self).last_use(b) by {
                let k = choose|k: int| 0 <= k < s1.len() && s1[k].block_id == b;
                assert(k != v);
                lemma_use_of(s1, k);
                lemma_use_of(s0, k);
            }
            assert(old(self).is_resident(x));
        }
        v
    }
    /// The bytes of block `id` as readers see them.
    pub fn read(&mut self, dev: &mut BlockDevice, id: usize) -> (r: Vec<u8>)
        requires
            old(dev).wf(),
            old(self).wf(old(dev)@),
            id < old(dev)@.len(),
            old(self).uses() < u64::MAX,
        ensures
            final(dev).wf(),
            final(self).wf(final(dev)@),
            r@ == old(self).logical(old(dev)@)[id as int],
            final(self).logical(final(dev)@) == old(self).logical(old(dev)@),
            final(self).uses() == old(self).uses() + 1,
            BlockCache::loaded(old(self), final(self), id as int),
    {
        let i = self.load(dev, id);
        proof {
            self.lemma_slot_value(dev@, i as int);
        }
        copy_bytes(&self.slots[i].data)
    }

    /// Writes `bytes` at `offset` of block `id` and marks the block dirty.
    pub fn modify(&mut self, dev: &mut BlockDevice, id: usize, offset: usize, bytes: &[u8])
        requires
            old(dev).wf(),
            old(self).wf(old(dev)@),
            id < old(dev)@.len(),
            offset + bytes@.len() <= BLOCK_SZ,
            old(self).uses() < u64::MAX,
        ensures
            final(dev).wf(),
            final(self).wf(final(dev)@),
            final(self).logical(final(dev)@) == old(self).logical(old(dev)@).update(
                id as int,
                patch(old(self).logical(old(dev)@)[id as int], offset as int, bytes@),
            ),
            final(self).uses() == old(self).uses() + 1,
            BlockCache::loaded(old(self), final(self), id as int),
    {
        let ghost l0 = self.logical(dev@);
        let i = self.load(dev, id);
        proof {
            self.lemma_slot_value(dev@, i as int);
        }
        let ghost s1 = self.slots@;
        let ghost mid = *self;
        let ghost d1 = self.slots@[i as int].data@;
        let mut k: usize = 0;
        while k < bytes.len()
            invariant
                k <= bytes@.len(),
                offset + bytes@.len() <= BLOCK_SZ,
                i < self.slots@.len(),
                self.slots@.len() == s1.len(),
                d1.len() == BLOCK_SZ,
                forall|j: int| 0 <= j < s1.len() && j != i ==> self.slots@[j] == s1[j],
                self.slots@[i as int].block_id == s1[i as int].block_id,
                self.slots@[i as int].stamp == s1[i as int].stamp,
                self.slots@[i as int].data@ == patch(d1, offset as int, bytes@.subrange(0, k as int)),
                self.slots@[i as int].dirty == (s1[i as int].dirty || k > 0),
                self.capacity == old(self).capacity,
                self.clock == old(self).clock + 1,
            decreases bytes@.len() - k,
        {
            self.slots[i].data.set(offset + k, bytes[k]);
            self.slots[i].dirty = true;
            k = k + 1;
            assert(self.slots@[i as int].data@ =~= patch(d1, offset as int, bytes@.subrange(0, k as int)));
        }
        self.slots[i].dirty = true;
        proof {
            assert(bytes@.subrange(0, k as int) =~= bytes@);
            let s2 = self.slots@;
            assert forall|j: int| 0 <= j < s2.len() implies {
                &&& (#[trigger] s2[j]).block_id < dev@.len()
                &&& s2[j].data@.len() == BLOCK_SZ
                &&& !s2[j].dirty ==> s2[j].data@ == dev@[s2[j].block_id as int]
                &&& s2[j].stamp < self.clock
            } by {
                assert(s1[j].block_id < dev@.len());
            }
            assert forall|a: int, b: int|
                0 <= a < s2.len() && 0 <= b < s2.len() && #[trigger] s2[a].block_id == #[trigger] s2[b].block_id
                implies a == b by {
                assert(s1[a].block_id == s1[b].block_id);
            }
            assert forall|b: int| 0 <= b < dev@.len() implies self.logical(dev@)[b] == l0.update(
                id as int,
                patch(l0[id as int], offset as int, bytes@),
            )[b] by {
                if b == id {
                    self.lemma_slot_value(dev@, i as int);
                } else if holds(s2, b) {
                    let m = choose|m: int| 0 <= m < s2.len() && s2[m].block_id == b;
                    assert(s1[m].block_id == b);
                    self.lemma_slot_value(dev@, m);
                } else {
                    assert(!holds(s1, b)) by {
                        if holds(s1, b) {
                            let m = choose|m: int| 0 <= m < s1.len() && s1[m].block_id == b;
                            assert(s2[m].block_id == b);
                        }
                    }
                }
            }
            assert(self.logical(dev@) =~= l0.update(id as int, patch(l0[id as int], offset as int, bytes@)));
            lemma_same_residency(s1, s2);
            assert(mid.slots@ == s1);
            let o = old(self);
            assert(BlockCache::loaded(o, &mid, id as int));
            assert forall|b: int| #[trigger] self.is_resident(b) == mid.is_resident(b) by {
                assert(holds(s2, b) == holds(s1, b));
            }
            assert forall|b: int| b != id && #[trigger] self.is_resident(b) implies self.last_use(b) == o.last_use(b) by {
                assert(holds(s2, b) == holds(s1, b));
                assert(stamp_of(s2, b) == stamp_of(s1, b));
            }
            assert(holds(s1, id as int));
            assert(stamp_of(s2, id as int) == stamp_of(s1, id as int));
            if !(o.is_resident(id as int) || o.resident() < o.capacity()) {
                let v = choose|v: int|
                    {
                        &&& #[trigger] o.is_resident(v)
                        &&& v != id
                        &&& forall|b: int| #[trigger] o.is_resident(b) ==> o.last_use(v) <= o.last_use(b)
                        &&& forall|b: int| #[trigger] mid.is_resident(b) == (b == id || (o.is_resident(b) && b != v))
                    };
                assert forall|b: int| #[trigger] self.is_resident(b) == (b == id || (o.is_resident(b) && b != v)) by {
                    assert(self.is_resident(b) == mid.is_resident(b));
                }
            }
        }
    }

    /// Writes every dirty block back to the device without evicting any;
    /// afterwards the device holds what readers see.
    pub fn sync_all(&mut self, dev: &mut BlockDevice)
        requires
            old(dev).wf(),
            old(self).wf(old(dev)@),
        ensures
            final(dev).wf(),
            final(self).wf(final(dev)@),
            final(dev)@ == old(self).logical(old(dev)@),
            final(self).logical(final(dev)@) == final(dev)@,
            final(self).uses() == old(self).uses(),
            final(self).capacity() == old(self).capacity(),
            final(self).resident() == old(self).resident(),
            forall|b: int| #[trigger] final(self).is_resident(b) == old(self).is_resident(b),
            forall|b: int| old(self).is_resident(b) ==> #[trigger] final(self).last_use(b) == old(self).last_use(b),
    {
        let ghost l0 = self.logical(dev@);
        let mut i: usize = 0;
        while i < self.slots.len()
            invariant
                dev.wf(),
                self.wf(dev@),
                self.logical(dev@) == l0,
                dev@.len() == l0.len(),
                self.clock == old(self).clock,
                self.capacity == old(self).capacity,
                i <= self.slots@.len(),
                self.slots@.len() == old(self).slots@.len(),
                forall|j: int| 0 <= j < i ==> !(#[trigger] self.slots@[j]).dirty,
                forall|j: int|
                    0 <= j < old(self).slots@.len() ==> (#[trigger] self.slots@[j]).block_id == old(
                        self,
                    ).slots@[j].block_id && self.slots@[j].stamp == old(self).slots@[j].stamp,
            decreases self.slots@.len() - i,
        {
            if self.slots[i].dirty {
                let ghost s0 = self.slots@;
                let ghost dev0 = dev@;
                let id = self.slots[i].block_id;
                let out = copy_bytes(&self.slots[i].data);
                dev.write_block(id, out);
                self.slots[i].dirty = false;
                proof {
                    let s1 = self.slots@;
                    assert forall|j: int| 0 <= j < s1.len() implies {
                        &&& (#[trigger] s1[j]).block_id < dev@.len()
                        &&& s1[j].data@.len() == BLOCK_SZ
                        &&& !s1[j].dirty ==> s1[j].data@ == dev@[s1[j].block_id as int]
                        &&& s1[j].stamp < self.clock
                    } by {
                        if j != i {
                            assert(s0[j].block_id != id);
                        }
                    }
                    assert forall|a: int, b: int|
                        0 <= a < s1.len() && 0 <= b < s1.len() && #[trigger] s1[a].block_id == #[trigger] s1[b].block_id
                        implies a == b by {
                        assert(s0[a].block_id == s0[b].block_id);
                    }
                    assert forall|b: int| 0 <= b < dev@.len() implies self.logical(dev@)[b] == l0[b] by {
                        if holds(s1, b) {
                            let m = choose|m: int| 0 <= m < s1.len() && s1[m].block_id == b;
                            assert(s0[m].block_id == b);
                            self.lemma_slot_value(dev@, m);
                        } else {
                            assert(!holds(s0, b)) by {
                                if holds(s0, b) {
                                    let m = choose|m: int| 0 <= m < s0.len() && s0[m].block_id == b;
                                    assert(s1[m].block_id == b);
                                }
                            }
                        }
                    }
                    assert(self.logical(dev@) =~= l0);
                }
            }
            i = i + 1;
        }
        proof {
            assert forall|b: int| 0 <= b < dev@.len() implies self.logical(dev@)[b] == dev@[b] by {
                if holds(self.slots@, b) {
                    let m = choose|m: int| 0 <= m < self.slots@.len() && self.slots@[m].block_id == b;
                    self.lemma_slot_value(dev@, m);
                }
            }
            assert(self.logical(dev@) =~= dev@);
            lemma_same_residency(old(self).slots@, self.slots@);
        }
    }
}

} // verus!
