use crate::block_dev::{BlockDevice, BLOCK_SZ};
use crate::lru::{refreshed, LRUCache};
use vstd::prelude::*;

verus! {

/// `data` with the bytes from `offset` on replaced by `bytes`.
pub open spec fn splice(data: Seq<u8>, offset: int, bytes: Seq<u8>) -> Seq<u8> {
    data.take(offset) + bytes + data.skip(offset + bytes.len())
}

/// The blocks of `keys`, in their order, for which `changed` holds.
pub open spec fn changed_blocks(keys: Seq<usize>, changed: spec_fn(usize) -> bool) -> Seq<usize>
    decreases keys.len(),
{
    if keys.len() == 0 {
        Seq::empty()
    } else {
        let rest = changed_blocks(keys.drop_last(), changed);
        if changed(keys.last()) {
            rest.push(keys.last())
        } else {
            rest
        }
    }
}

/// A block held in memory, with the id of the block it mirrors and whether it has been changed
/// since it was last written back.
pub struct BlockCache {
    cache: Vec<u8>,
    block_id: usize,
    modified: bool,
}

impl BlockCache {
    pub closed spec fn data(&self) -> Seq<u8> {
        self.cache@
    }

    pub closed spec fn id(&self) -> usize {
        self.block_id
    }

    pub closed spec fn is_modified(&self) -> bool {
        self.modified
    }

    /// Loads block `block_id` from the device.
    pub fn new<D: BlockDevice>(block_id: usize, block_device: &D) -> (r: Self)
        requires
            block_device.inv(),
            block_id < block_device.blocks().len(),
        ensures
            r.data() == block_device.blocks()[block_id as int],
            r.id() == block_id,
            !r.is_modified(),
    {
        let mut cache = crate::block_dev::zeroed_block();
        block_device.read_block(block_id, cache.as_mut_slice());
        Self { cache, block_id, modified: false }
    }

    /// The `len` bytes at `offset`.
    pub fn read(&self, offset: usize, len: usize) -> (r: Vec<u8>)
        requires
            offset + len <= self.data().len(),
        ensures
            r@ == self.data().subrange(offset as int, offset + len),
    {
        let mut v: Vec<u8> = Vec::new();
        let n = self.cache.len();
        let mut i: usize = 0;
        while i < len
            invariant
                n == self.cache@.len(),
                i <= len,
                offset + len <= self.cache@.len(),
                v@ == self.cache@.subrange(offset as int, offset + i),
            decreases len - i,
        {
            v.push(self.cache[offset + i]);
            i += 1;
            assert(v@ =~= self.cache@.subrange(offset as int, offset + i));
        }
        v
    }

    /// Overwrites the bytes at `offset` with `bytes`; the block is then marked as changed.
    pub fn modify(&mut self, offset: usize, bytes: &[u8])
        requires
            offset + bytes@.len() <= old(self).data().len(),
        ensures
            final(self).data() == splice(old(self).data(), offset as int, bytes@),
            final(self).id() == old(self).id(),
            final(self).is_modified(),
    {
        self.modified = true;
        let n = self.cache.len();
        let mut i: usize = 0;
        while i < bytes.len()
            invariant
                n == self.cache@.len(),
                self.block_id == old(self).block_id,
                self.modified,
                i <= bytes@.len(),
                offset + bytes@.len() <= self.cache@.len(),
                self.cache@.len() == old(self).cache@.len(),
                forall|j: int|
                    0 <= j < self.cache@.len() ==> #[trigger] self.cache@[j] == (if offset <= j
                        < offset + i {
                        bytes@[j - offset]
                    } else {
                        old(self).cache@[j]
                    }),
            decreases bytes@.len() - i,
        {
            self.cache.set(offset + i, bytes[i]);
            i += 1;
        }
        assert(self.cache@ =~= splice(old(self).cache@, offset as int, bytes@));
    }

    /// Writes the block back to the device when it has been changed.
    pub fn sync<D: BlockDevice>(&mut self, block_device: &mut D)
        requires
            old(block_device).inv(),
            old(self).id() < old(block_device).blocks().len(),
            old(self).data().len() == BLOCK_SZ,
        ensures
            final(block_device).inv(),
            old(self).is_modified() ==> final(block_device).blocks() == old(
                block_device,
            ).blocks().update(old(self).id() as int, old(self).data()),
            !old(self).is_modified() ==> final(block_device).blocks() == old(
                block_device,
            ).blocks(),
            old(self).is_modified() ==> final(block_device).writes() == old(block_device).writes().push(old(self).id()),
            !old(self).is_modified() ==> final(block_device).writes() == old(block_device).writes(),
            final(self).data() == old(self).data(),
            final(self).id() == old(self).id(),
            !final(self).is_modified(),
    {
        if self.modified {
            self.modified = false;
            block_device.write_block(self.block_id, self.cache.as_slice());
        }
    }

    /// Both hold the same bytes for the same block, in the same state.
    pub open spec fn same(&self, other: &Self) -> bool {
        &&& self.data() == other.data()
        &&& self.id() == other.id()
        &&& self.is_modified() == other.is_modified()
    }

    /// A copy of this cached block.
    pub fn duplicate(&self) -> (r: Self)
        ensures
            r.same(self),
    {
        let cache = crate::block_dev::copy_bytes(self.cache.as_slice());
        Self { cache, block_id: self.block_id, modified: self.modified }
    }
}

/// Number of blocks that the cache keeps in memory.
pub const BLOCK_CACHE_SIZE: usize = 16;

/// An in-memory write-back cache of the most recently used blocks of a device.
pub struct BlockCacheManager {
    lru: LRUCache<BlockCache>,
}

impl BlockCacheManager {
    /// Every cached entry mirrors its own block of `disk`, holds a whole block, and equals the
    /// block on `disk` unless it has been changed.
    pub closed spec fn wf(&self, disk: Seq<Seq<u8>>) -> bool {
        &&& self.lru.wf()
        &&& self.lru.capacity() == BLOCK_CACHE_SIZE
        &&& self.lru.key_order().len() <= BLOCK_CACHE_SIZE
        &&& disk.len() <= usize::MAX
        &&& forall|k: usize| #[trigger]
            self.lru.map().contains_key(k) ==> {
                let c = self.lru.map()[k];
                &&& c.id() == k
                &&& k < disk.len()
                &&& c.data().len() == BLOCK_SZ
                &&& !c.is_modified() ==> c.data() == disk[k as int]
            }
    }

    /// The blocks as the users of the cache see them: a cached block hides the block on `disk`.
    pub closed spec fn view(&self, disk: Seq<Seq<u8>>) -> Seq<Seq<u8>> {
        Seq::new(
            disk.len(),
            |i: int|
                if self.lru.map().contains_key(i as usize) {
                    self.lru.map()[i as usize].data()
                } else {
                    disk[i]
                },
        )
    }

    /// The cached blocks from least recently used to most recently used.
    pub closed spec fn recency(&self) -> Seq<usize> {
        self.lru.key_order()
    }

    /// Whether block `k` is held in memory.
    pub closed spec fn is_cached(&self, k: usize) -> bool {
        self.lru.map().contains_key(k)
    }

    /// The cached copy of block `k`.
    pub closed spec fn cached(&self, k: usize) -> BlockCache {
        self.lru.map()[k]
    }

    /// The view of the device through the cache has as many blocks as the device, each a block long.
    pub proof fn lemma_view(&self, disk: Seq<Seq<u8>>)
        requires
            self.wf(disk),
            forall|i: int| 0 <= i < disk.len() ==> #[trigger] disk[i].len() == BLOCK_SZ,
        ensures
            self.view(disk).len() == disk.len(),
            forall|i: int| 0 <= i < disk.len() ==> #[trigger] self.view(disk)[i].len() == BLOCK_SZ,
    {
        assert forall|i: int| 0 <= i < disk.len() implies #[trigger] self.view(disk)[i].len()
            == BLOCK_SZ by {
            if self.lru.map().contains_key(i as usize) {
                assert(self.lru.map()[i as usize].data().len() == BLOCK_SZ);
            }
        }
    }

    /// A well-formed cache holds at most `BLOCK_CACHE_SIZE` blocks, each once, and exactly the
    /// blocks of its recency order.
    pub proof fn lemma_bounded(&self, disk: Seq<Seq<u8>>)
        requires
            self.wf(disk),
        ensures
            self.recency().len() <= BLOCK_CACHE_SIZE,
            self.recency().no_duplicates(),
            forall|k: usize| #[trigger] self.is_cached(k) <==> self.recency().contains(k),
    {
        self.lru.lemma_wf();
    }

    /// What [`Self::get_block_cache`] leaves on the device: each block as it was, or as the
    /// cache showed it.
    proof fn lemma_write_back_shows_view(&self, d0: Seq<Seq<u8>>, d1: Seq<Seq<u8>>, block_id: usize)
        requires
            self.wf(d0),
            d1.len() == d0.len(),
            self.is_cached(block_id) ==> d1 == d0,
            !self.is_cached(block_id) && self.recency().len() != BLOCK_CACHE_SIZE ==> d1 == d0,
            !self.is_cached(block_id) && self.recency().len() == BLOCK_CACHE_SIZE ==> {
                let ev = self.recency()[0];
                if self.cached(ev).is_modified() {
                    d1 == d0.update(ev as int, self.cached(ev).data())
                } else {
                    d1 == d0
                }
            },
        ensures
            forall|i: int| 0 <= i < d0.len() ==> #[trigger] d1[i] == d0[i] || d1[i] == self.view(d0)[i],
    {
        if !self.is_cached(block_id) && self.recency().len() == BLOCK_CACHE_SIZE {
            self.lru.lemma_wf();
            let ev = self.recency()[0];
            assert(self.lru.key_order().contains(ev));
            assert(self.lru.map().contains_key(ev));
        }
    }

    /// An empty cache.
    pub fn new() -> (r: Self)
        ensures
            forall|disk: Seq<Seq<u8>>| disk.len() <= usize::MAX ==> #[trigger] r.wf(disk),
            forall|disk: Seq<Seq<u8>>| #[trigger] r.view(disk) == disk,
            r.recency() == Seq::<usize>::empty(),
    {
        let r = Self { lru: LRUCache::new(BLOCK_CACHE_SIZE) };
        assert forall|disk: Seq<Seq<u8>>| #[trigger] r.view(disk) == disk by {
            assert(r.view(disk) =~= disk);
        }
        r
    }

    /// The cached copy of block `block_id`, loading it from the device first when it is not
    /// cached.  Loading may write back the least recently used block; the blocks seen through
    /// the cache do not change.
    pub fn get_block_cache<D: BlockDevice>(&mut self, block_id: usize, block_device: &mut D) -> (r:
        BlockCache)
        requires
            old(block_device).inv(),
            old(self).wf(old(block_device).blocks()),
            block_id < old(block_device).blocks().len(),
        ensures
            final(block_device).inv(),
            final(self).wf(final(block_device).blocks()),
            final(self).view(final(block_device).blocks()) == old(self).view(
                old(block_device).blocks(),
            ),
            final(block_device).blocks().len() == old(block_device).blocks().len(),
            final(self).is_cached(block_id),
            final(self).cached(block_id).same(&r),
            r.id() == block_id,
            r.data() == old(self).view(old(block_device).blocks())[block_id as int],
            old(self).is_cached(block_id) ==> {
                &&& final(self).recency() == refreshed(old(self).recency(), block_id)
                &&& final(block_device).blocks() == old(block_device).blocks()
                &&& final(block_device).writes() == old(block_device).writes()
                &&& forall|k: usize| #[trigger] final(self).is_cached(k) == old(self).is_cached(k)
            },
            !old(self).is_cached(block_id) && old(self).recency().len() == BLOCK_CACHE_SIZE ==> {
                &&& final(self).recency() == old(self).recency().drop_first().push(block_id)
                &&& ({
                    let ev = old(self).recency()[0];
                    if old(self).cached(ev).is_modified() {
                        &&& final(block_device).blocks() == old(block_device).blocks().update(ev as int, old(self).cached(ev).data())
                        &&& final(block_device).writes() == old(block_device).writes().push(ev)
                    } else {
                        &&& final(block_device).blocks() == old(block_device).blocks()
                        &&& final(block_device).writes() == old(block_device).writes()
                    }
                })
                &&& forall|k: usize| #[trigger] final(self).is_cached(k)
                    == ((old(self).is_cached(k) && k != old(self).recency()[0]) || k == block_id)
            },
            !old(self).is_cached(block_id) && old(self).recency().len() != BLOCK_CACHE_SIZE ==> {
                &&& final(self).recency() == old(self).recency().push(block_id)
                &&& final(block_device).blocks() == old(block_device).blocks()
                &&& final(block_device).writes() == old(block_device).writes()
                &&& forall|k: usize| #[trigger] final(self).is_cached(k) == (old(self).is_cached(k) || k == block_id)
            },
    {
        proof {
            block_device.lemma_inv();
        }
        let cached = self.lru.get(&block_id);
        proof {
            old(self).lru.lemma_wf();
            if !old(self).lru.map().contains_key(block_id) {
                assert(!old(self).lru.key_order().contains(block_id));
            }
        }
        if let Some(v) = cached {
            let r = v.duplicate();
            proof {
                assert(self.view(block_device.blocks()) =~= old(self).view(
                    old(block_device).blocks(),
                ));
            }
            r
        } else {
            let bc = BlockCache::new(block_id, block_device);
            let ghost disk0 = block_device.blocks();
            let evicted = self.lru.set(block_id, bc.duplicate());
            if let Some((k, mut old_cache)) = evicted {
                proof {
                    old(self).lru.lemma_wf();
                    assert(old(self).lru.key_order()[0] == k);
                    assert(old(self).lru.key_order().contains(k));
                    assert(old(self).lru.map().contains_key(k));
                }
                old_cache.sync(block_device);
                proof {
                    let disk1 = block_device.blocks();
                    assert forall|j: usize| #[trigger]
                        self.lru.map().contains_key(j) implies {
                        let c = self.lru.map()[j];
                        &&& c.id() == j
                        &&& j < disk1.len()
                        &&& c.data().len() == BLOCK_SZ
                        &&& !c.is_modified() ==> c.data() == disk1[j as int]
                    } by {
                        if j != block_id {
                            assert(old(self).lru.map().contains_key(j));
                            assert(j != k);
                        }
                    }
                    assert(self.view(disk1) =~= old(self).view(disk0));
                }
            } else {
                proof {
                    assert(self.view(block_device.blocks()) =~= old(self).view(
                        old(block_device).blocks(),
                    ));
                    assert(self.lru.capacity() == BLOCK_CACHE_SIZE);
                    old(self).lru.lemma_wf();
                    assert(!old(self).lru.key_order().contains(block_id));
                    assert(refreshed(old(self).lru.key_order(), block_id) == old(self).lru.key_order());
                }
            }
            bc
        }
    }

    /// The bytes of block `block_id` as seen through the cache.
    pub fn read_block<D: BlockDevice>(&mut self, block_id: usize, block_device: &mut D) -> (r: Vec<
        u8,
    >)
        requires
            old(block_device).inv(),
            old(self).wf(old(block_device).blocks()),
            block_id < old(block_device).blocks().len(),
        ensures
            final(block_device).inv(),
            final(self).wf(final(block_device).blocks()),
            final(self).view(final(block_device).blocks()) == old(self).view(
                old(block_device).blocks(),
            ),
            final(block_device).blocks().len() == old(block_device).blocks().len(),
            r@ == old(self).view(old(block_device).blocks())[block_id as int],
            forall|i: int| 0 <= i < old(block_device).blocks().len() ==> #[trigger] final(block_device).blocks()[i]
                == old(block_device).blocks()[i] || final(block_device).blocks()[i] == old(self).view(old(block_device).blocks())[i],
            old(self).recency().len() < BLOCK_CACHE_SIZE ==> final(block_device).blocks() == old(block_device).blocks()
                && final(block_device).writes() == old(block_device).writes(),
    {
        let c = self.get_block_cache(block_id, block_device);
        proof {
            old(self).lemma_write_back_shows_view(old(block_device).blocks(), block_device.blocks(), block_id);
        }
        c.cache
    }

    /// Overwrites the bytes of block `block_id` at `offset` with `bytes`, in the cache.
    pub fn modify_block<D: BlockDevice>(
        &mut self,
        block_id: usize,
        offset: usize,
        bytes: &[u8],
        block_device: &mut D,
    )
        requires
            old(block_device).inv(),
            old(self).wf(old(block_device).blocks()),
            block_id < old(block_device).blocks().len(),
            offset + bytes@.len() <= BLOCK_SZ,
        ensures
            final(block_device).inv(),
            final(self).wf(final(block_device).blocks()),
            final(block_device).blocks().len() == old(block_device).blocks().len(),
            final(self).view(final(block_device).blocks()) == old(self).view(
                old(block_device).blocks(),
            ).update(
                block_id as int,
                splice(
                    old(self).view(old(block_device).blocks())[block_id as int],
                    offset as int,
                    bytes@,
                ),
            ),
            forall|i: int| 0 <= i < old(block_device).blocks().len() ==> #[trigger] final(block_device).blocks()[i]
                == old(block_device).blocks()[i] || final(block_device).blocks()[i] == old(self).view(old(block_device).blocks())[i],
    {
        let ghost before = *self;
        let mut c = self.get_block_cache(block_id, block_device);
        proof {
            before.lemma_write_back_shows_view(old(block_device).blocks(), block_device.blocks(), block_id);
        }
        let ghost mid = self.view(block_device.blocks());
        c.modify(offset, bytes);
        self.lru.replace(block_id, c);
        proof {
            let disk = block_device.blocks();
            assert(self.view(disk) =~= mid.update(
                block_id as int,
                splice(mid[block_id as int], offset as int, bytes@),
            ));
        }
    }

    /// Writes every changed cached block back to the device.  Afterwards the device holds
    /// exactly the blocks seen through the cache.
    pub fn sync_all<D: BlockDevice>(&mut self, block_device: &mut D)
        requires
            old(block_device).inv(),
            old(self).wf(old(block_device).blocks()),
        ensures
            final(block_device).inv(),
            final(self).wf(final(block_device).blocks()),
            final(self).view(final(block_device).blocks()) == old(self).view(
                old(block_device).blocks(),
            ),
            final(block_device).blocks() == old(self).view(old(block_device).blocks()),
            final(block_device).writes() == old(block_device).writes() + changed_blocks(
                old(self).recency(),
                |k: usize| old(self).cached(k).is_modified(),
            ),
            final(self).recency() == old(self).recency(),
            forall|k: usize| #[trigger] final(self).is_cached(k) == old(self).is_cached(k),
            forall|k: usize| final(self).is_cached(k) ==> !#[trigger] final(self).cached(k).is_modified()
                && final(self).cached(k).data() == old(self).cached(k).data()
                && final(self).cached(k).id() == old(self).cached(k).id(),
    {
        let ghost view0 = self.view(block_device.blocks());
        let ghost changed = |k: usize| old(self).cached(k).is_modified();
        let keys = self.lru.keys();
        proof {
            self.lru.lemma_wf();
        }
        let mut i: usize = 0;
        while i < keys.len()
            invariant
                block_device.inv(),
                self.wf(block_device.blocks()),
                self.view(block_device.blocks()) == view0,
                block_device.blocks().len() == view0.len(),
                keys@ == self.lru.key_order(),
                i <= keys@.len(),
                forall|j: int| 0 <= j < i ==> !#[trigger] self.lru.map()[keys@[j]].is_modified(),
                forall|j: int| i <= j < keys@.len() ==> #[trigger] self.lru.map()[keys@[j]].is_modified()
                    == old(self).lru.map()[keys@[j]].is_modified(),
                changed == (|k: usize| old(self).cached(k).is_modified()),
                block_device.writes() == old(block_device).writes() + changed_blocks(keys@.take(i as int), changed),
                self.lru.key_order() == old(self).lru.key_order(),
                forall|k: usize| #[trigger] self.lru.map().contains_key(k) == old(self).lru.map().contains_key(k),
                forall|k: usize| self.lru.map().contains_key(k) ==> #[trigger] self.lru.map()[k].data() == old(self).lru.map()[k].data()
                    && self.lru.map()[k].id() == old(self).lru.map()[k].id(),
            decreases keys@.len() - i,
        {
            let k = keys[i];
            proof {
                self.lru.lemma_wf();
                assert(self.lru.key_order().contains(k)) by {
                    assert(self.lru.key_order()[i as int] == k);
                }
            }
            let mut c = self.lru.peek(&k).unwrap().duplicate();
            let ghost disk0 = block_device.blocks();
            c.sync(block_device);
            let ghost lru0 = self.lru;
            self.lru.replace(k, c);
            proof {
                let disk1 = block_device.blocks();
                assert forall|j: usize| #[trigger]
                    self.lru.map().contains_key(j) implies {
                    let c = self.lru.map()[j];
                    &&& c.id() == j
                    &&& j < disk1.len()
                    &&& c.data().len() == BLOCK_SZ
                    &&& !c.is_modified() ==> c.data() == disk1[j as int]
                } by {
                    if j != k {
                        assert(lru0.map().contains_key(j));
                    }
                }
                assert(self.view(disk1) =~= view0);
                assert forall|j: int| 0 <= j < i + 1 implies !#[trigger] self.lru.map()[keys@[j]].is_modified() by {
                    if j < i {
                        assert(keys@[j] != k) by {
                            self.lru.lemma_wf();
                        }
                    }
                }
                assert forall|j: int| i + 1 <= j < keys@.len() implies #[trigger] self.lru.map()[keys@[j]].is_modified()
                    == old(self).lru.map()[keys@[j]].is_modified() by {
                    assert(keys@[j] != k) by {
                        self.lru.lemma_wf();
                    }
                    assert(lru0.map()[keys@[j]].is_modified() == old(self).lru.map()[keys@[j]].is_modified());
                }
                assert(keys@.take(i + 1).drop_last() =~= keys@.take(i as int));
                assert(keys@.take(i + 1).last() == k);
                assert(changed(k) == lru0.map()[k].is_modified());
            }
            i += 1;
        }
        proof {
            let disk = block_device.blocks();
            assert forall|j: int| 0 <= j < disk.len() implies #[trigger] disk[j] == view0[j] by {
                if self.lru.map().contains_key(j as usize) {
                    self.lru.lemma_wf();
                    assert(self.lru.key_order().contains(j as usize));
                    let t = choose|t: int| 0 <= t < keys@.len() && keys@[t] == j as usize;
                    assert(!self.lru.map()[keys@[t]].is_modified());
                }
            }
            assert(disk =~= view0);
            assert(keys@.take(keys@.len() as int) =~= keys@);
        }
    }
}

/// A block device together with its block cache.  Users see the blocks as the cache shows them.
pub struct CachedDisk<D> {
    cache: BlockCacheManager,
    device: D,
}

impl<D: BlockDevice> CachedDisk<D> {
    /// The blocks as seen through the cache.
    pub closed spec fn view(&self) -> Seq<Seq<u8>> {
        self.cache.view(self.device.blocks())
    }

    pub closed spec fn inv(&self) -> bool {
        &&& self.device.inv()
        &&& self.cache.wf(self.device.blocks())
    }

    /// The blocks stored on the device itself.
    pub closed spec fn device_blocks(&self) -> Seq<Seq<u8>> {
        self.device.blocks()
    }

    /// The record of writes made to the device itself.
    pub closed spec fn device_writes(&self) -> Seq<usize> {
        self.device.writes()
    }

    /// The number of blocks held in the cache.
    pub closed spec fn cached_count(&self) -> nat {
        self.cache.recency().len()
    }

    /// The blocks seen through the cache are those of the device in number, each a block long.
    pub proof fn lemma_inv(&self)
        requires
            self.inv(),
        ensures
            self.view().len() <= usize::MAX,
            self.view().len() == self.device_blocks().len(),
            forall|i: int| 0 <= i < self.view().len() ==> #[trigger] self.view()[i].len() == BLOCK_SZ,
    {
        self.device.lemma_inv();
        self.cache.lemma_view(self.device.blocks());
    }

    /// The device behind an empty cache.
    pub fn new(device: D) -> (r: Self)
        requires
            device.inv(),
        ensures
            r.inv(),
            r.view() == device.blocks(),
            r.device_blocks() == device.blocks(),
            r.device_writes() == device.writes(),
            r.cached_count() == 0,
    {
        proof {
            device.lemma_inv();
        }
        let cache = BlockCacheManager::new();
        let r = Self { cache, device };
        assert(r.cache.view(r.device.blocks()) == r.device.blocks());
        r
    }

    /// The number of blocks.
    pub fn num_blocks(&self) -> (n: usize)
        requires
            self.inv(),
        ensures
            n == self.view().len(),
    {
        proof {
            self.lemma_inv();
        }
        self.device.num_blocks()
    }

    /// The bytes of block `block_id`.
    pub fn read_block(&mut self, block_id: usize) -> (r: Vec<u8>)
        requires
            old(self).inv(),
            block_id < old(self).view().len(),
        ensures
            final(self).inv(),
            final(self).view() == old(self).view(),
            r@ == old(self).view()[block_id as int],
            old(self).cached_count() < BLOCK_CACHE_SIZE ==> final(self).device_blocks() == old(self).device_blocks()
                && final(self).device_writes() == old(self).device_writes(),
            final(self).device_blocks().len() == old(self).device_blocks().len(),
            forall|i: int| 0 <= i < old(self).device_blocks().len() ==> #[trigger] final(self).device_blocks()[i]
                == old(self).device_blocks()[i] || final(self).device_blocks()[i] == old(self).view()[i],
    {
        proof {
            self.lemma_inv();
        }
        self.cache.read_block(block_id, &mut self.device)
    }

    /// Overwrites the bytes of block `block_id` at `offset` with `bytes`.
    pub fn modify_block(&mut self, block_id: usize, offset: usize, bytes: &[u8])
        requires
            old(self).inv(),
            block_id < old(self).view().len(),
            offset + bytes@.len() <= BLOCK_SZ,
        ensures
            final(self).inv(),
            final(self).view() == old(self).view().update(
                block_id as int,
                splice(old(self).view()[block_id as int], offset as int, bytes@),
            ),
            final(self).device_blocks().len() == old(self).device_blocks().len(),
            forall|i: int| 0 <= i < old(self).device_blocks().len() ==> #[trigger] final(self).device_blocks()[i]
                == old(self).device_blocks()[i] || final(self).device_blocks()[i] == old(self).view()[i],
    {
        proof {
            self.lemma_inv();
        }
        self.cache.modify_block(block_id, offset, bytes, &mut self.device)
    }

    /// Writes every changed cached block back to the device.
    pub fn sync_all(&mut self)
        requires
            old(self).inv(),
        ensures
            final(self).inv(),
            final(self).view() == old(self).view(),
            final(self).device_blocks() == old(self).view(),
    {
        self.cache.sync_all(&mut self.device)
    }

    /// Writes every changed block back and hands the device back.
    pub fn into_device(self) -> (r: D)
        requires
            self.inv(),
        ensures
            r.inv(),
            r.blocks() == self.view(),
    {
        let mut s = self;
        s.sync_all();
        s.device
    }
}

/// The cached copy of block `block_id` (see [`BlockCacheManager::get_block_cache`]).
pub fn get_block_cache<D: BlockDevice>(
    block_id: usize,
    manager: &mut BlockCacheManager,
    block_device: &mut D,
) -> (r: BlockCache)
    requires
        old(block_device).inv(),
        old(manager).wf(old(block_device).blocks()),
        block_id < old(block_device).blocks().len(),
    ensures
        final(block_device).inv(),
        final(manager).wf(final(block_device).blocks()),
        final(manager).view(final(block_device).blocks()) == old(manager).view(
            old(block_device).blocks(),
        ),
        final(block_device).blocks().len() == old(block_device).blocks().len(),
        r.id() == block_id,
        r.data() == old(manager).view(old(block_device).blocks())[block_id as int],
        final(manager).is_cached(block_id),
        final(manager).cached(block_id).same(&r),
        old(manager).is_cached(block_id) ==> {
            &&& final(manager).recency() == refreshed(old(manager).recency(), block_id)
            &&& final(block_device).blocks() == old(block_device).blocks()
            &&& final(block_device).writes() == old(block_device).writes()
            &&& forall|k: usize| #[trigger] final(manager).is_cached(k) == old(manager).is_cached(k)
        },
        !old(manager).is_cached(block_id) && old(manager).recency().len() == BLOCK_CACHE_SIZE ==> {
            &&& final(manager).recency() == old(manager).recency().drop_first().push(block_id)
            &&& ({
                let ev = old(manager).recency()[0];
                if old(manager).cached(ev).is_modified() {
                    &&& final(block_device).blocks() == old(block_device).blocks().update(ev as int, old(manager).cached(ev).data())
                    &&& final(block_device).writes() == old(block_device).writes().push(ev)
                } else {
                    &&& final(block_device).blocks() == old(block_device).blocks()
                    &&& final(block_device).writes() == old(block_device).writes()
                }
            })
            &&& forall|k: usize| #[trigger] final(manager).is_cached(k)
                == ((old(manager).is_cached(k) && k != old(manager).recency()[0]) || k == block_id)
        },
        !old(manager).is_cached(block_id) && old(manager).recency().len() != BLOCK_CACHE_SIZE ==> {
            &&& final(manager).recency() == old(manager).recency().push(block_id)
            &&& final(block_device).blocks() == old(block_device).blocks()
            &&& final(block_device).writes() == old(block_device).writes()
            &&& forall|k: usize| #[trigger] final(manager).is_cached(k) == (old(manager).is_cached(k) || k == block_id)
        },
{
    manager.get_block_cache(block_id, block_device)
}

/// Writes every changed cached block back to the device (see [`BlockCacheManager::sync_all`]).
pub fn block_cache_sync_all<D: BlockDevice>(manager: &mut BlockCacheManager, block_device: &mut D)
    requires
        old(block_device).inv(),
        old(manager).wf(old(block_device).blocks()),
    ensures
        final(block_device).inv(),
        final(manager).wf(final(block_device).blocks()),
        final(manager).view(final(block_device).blocks()) == old(manager).view(
            old(block_device).blocks(),
        ),
        final(block_device).blocks() == old(manager).view(old(block_device).blocks()),
        final(block_device).writes() == old(block_device).writes() + changed_blocks(
            old(manager).recency(),
            |k: usize| old(manager).cached(k).is_modified(),
        ),
        final(manager).recency() == old(manager).recency(),
        forall|k: usize| #[trigger] final(manager).is_cached(k) == old(manager).is_cached(k),
        forall|k: usize| final(manager).is_cached(k) ==> !#[trigger] final(manager).cached(k).is_modified()
            && final(manager).cached(k).data() == old(manager).cached(k).data()
            && final(manager).cached(k).id() == old(manager).cached(k).id(),
{
    manager.sync_all(block_device)
}

} // verus!
