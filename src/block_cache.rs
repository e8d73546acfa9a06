use vstd::prelude::*;

use crate::block_dev::{blocks_well_sized, BlockDevice};
use crate::BLOCK_SIZE;

verus! {

/// Most blocks the cache holds at once.
pub const BLOCK_CACHE_SIZE: usize = 16;

/// `s` with the bytes from `off` on replaced by `d`.
pub open spec fn splice(s: Seq<u8>, off: int, d: Seq<u8>) -> Seq<u8> {
    s.subrange(0, off) + d + s.subrange(off + d.len(), s.len() as int)
}

/// One buffered block: its bytes, its id, and whether they differ from the device.
pub struct BlockCache {
    cache: Vec<u8>,
    block_id: usize,
    modified: bool,
}

impl BlockCache {
    pub closed spec fn bytes(&self) -> Seq<u8> {
        self.cache@
    }

    pub closed spec fn id(&self) -> usize {
        self.block_id
    }

    pub closed spec fn is_modified(&self) -> bool {
        self.modified
    }

    /// Loads block `block_id` from the device.
    pub fn new<D: BlockDevice>(block_id: usize, block_device: &D) -> (r: Self)
        requires
            block_id < block_device.blocks().len(),
            blocks_well_sized(block_device.blocks()),
        ensures
            r.bytes() == block_device.blocks()[block_id as int],
            r.id() == block_id,
            !r.is_modified(),
    {
        let mut cache: Vec<u8> = vec![0u8; BLOCK_SIZE];
        block_device.read_block(block_id, cache.as_mut_slice());
        BlockCache { cache, block_id, modified: false }
    }

    /// Writes the block back if it was modified.
    pub fn sync<D: BlockDevice>(&mut self, block_device: &mut D)
        requires
            old(self).id() < old(block_device).blocks().len(),
            old(self).bytes().len() == BLOCK_SIZE,
        ensures
            final(self).bytes() == old(self).bytes(),
            final(self).id() == old(self).id(),
            !final(self).is_modified(),
            final(block_device).blocks() == if old(self).is_modified() {
                old(block_device).blocks().update(old(self).id() as int, old(self).bytes())
            } else {
                old(block_device).blocks()
            },
    {
        if self.modified {
            self.modified = false;
            block_device.write_block(self.block_id, self.cache.as_slice());
        }
    }

    /// The `len` bytes at `offset`.
    pub fn read(&self, offset: usize, len: usize) -> (r: Vec<u8>)
        requires
            offset + len <= self.bytes().len(),
        ensures
            r@ == self.bytes().subrange(offset as int, offset + len),
    {
        let mut r: Vec<u8> = Vec::new();
        let mut i: usize = 0;
        let clen: usize = self.cache.len();
        while i < len
            invariant
                clen == self.cache@.len(),
                offset + len <= self.cache@.len(),
                i <= len,
                r@ == self.cache@.subrange(offset as int, offset + i),
            decreases len - i,
        {
            r.push(self.cache[offset + i]);
            i = i + 1;
            proof {
                assert(r@ =~= self.cache@.subrange(offset as int, offset + i));
            }
        }
        r
    }

    /// Overwrites the bytes at `offset` with `data` and marks the block modified.
    pub fn modify(&mut self, offset: usize, data: &[u8])
        requires
            offset + data@.len() <= old(self).bytes().len(),
        ensures
            final(self).bytes() == splice(old(self).bytes(), offset as int, data@),
            final(self).id() == old(self).id(),
            final(self).is_modified(),
    {
        self.modified = true;
        let mut i: usize = 0;
        let clen: usize = self.cache.len();
        while i < data.len()
            invariant
                clen == self.cache@.len(),
                self.modified,
                offset + data@.len() <= self.cache@.len(),
                self.cache@.len() == old(self).cache@.len(),
                self.block_id == old(self).block_id,
                i <= data@.len(),
                forall|k: int| 0 <= k < i ==> self.cache@[offset + k] == data@[k],
                forall|k: int|
                    0 <= k < self.cache@.len() && !(offset <= k < offset + i) ==> self.cache@[k]
                        == old(self).cache@[k],
            decreases data@.len() - i,
        {
            self.cache.set(offset + i, data[i]);
            i = i + 1;
        }
        proof {
            assert(self.cache@ =~= splice(old(self).cache@, offset as int, data@));
        }
    }
}

/// The process-wide cache of blocks in front of one device.
///
/// `disk()` is the content that readers observe: each cached block as the
/// cache holds it, every other block as the device holds it.
pub struct BlockCacheManager<D: BlockDevice> {
    device: D,
    queue: Vec<BlockCache>,
    logical: Ghost<Seq<Seq<u8>>>,
}

impl<D: BlockDevice> BlockCacheManager<D> {
    pub closed spec fn disk(&self) -> Seq<Seq<u8>> {
        self.logical@
    }

    /// The device as it stands, before pending writes reach it.
    pub closed spec fn device_blocks(&self) -> Seq<Seq<u8>> {
        self.device.blocks()
    }

    /// Number of blocks that the cache holds.
    pub closed spec fn cached_count(&self) -> nat {
        self.queue@.len()
    }

    pub closed spec fn is_cached(&self, block_id: usize) -> bool {
        exists|i: int| 0 <= i < self.queue@.len() && (#[trigger] self.queue@[i]).id() == block_id
    }

    pub closed spec fn wf(&self) -> bool {
        let dev = self.device.blocks();
        let q = self.queue@;
        &&& blocks_well_sized(dev)
        &&& self.logical@.len() == dev.len()
        &&& dev.len() <= usize::MAX
        &&& blocks_well_sized(self.logical@)
        &&& q.len() <= BLOCK_CACHE_SIZE
        &&& forall|i: int|
            0 <= i < q.len() ==> {
                &&& (#[trigger] q[i]).id() < dev.len()
                &&& q[i].bytes() == self.logical@[q[i].id() as int]
                &&& !q[i].is_modified() ==> dev[q[i].id() as int] == q[i].bytes()
            }
        &&& forall|i: int, j: int|
            0 <= i < q.len() && 0 <= j < q.len() && i != j ==> (#[trigger] q[i]).id() != (
            #[trigger] q[j]).id()
        &&& forall|b: int|
            0 <= b < dev.len() && (forall|i: int| 0 <= i < q.len() ==> (#[trigger] q[i]).id() != b)
                ==> #[trigger] self.logical@[b] == dev[b]
    }

    /// An empty cache in front of `device`.
    pub fn new(device: D) -> (r: Self)
        requires
            blocks_well_sized(device.blocks()),
        ensures
            r.wf(),
            r.disk() == device.blocks(),
            r.cached_count() == 0,
    {
        let ghost blocks = device.blocks();
        let _n = device.num_blocks();
        BlockCacheManager { device, queue: Vec::new(), logical: Ghost(blocks) }
    }

    /// Facts about `disk()` that hold whenever the cache is well formed.
    pub proof fn lemma_disk_shape(&self)
        requires
            self.wf(),
        ensures
            self.disk().len() <= usize::MAX,
            blocks_well_sized(self.disk()),
            self.cached_count() <= BLOCK_CACHE_SIZE,
    {
    }

    /// Number of blocks of the device.
    pub fn num_blocks(&self) -> (n: usize)
        requires
            self.wf(),
        ensures
            n == self.disk().len(),
    {
        self.device.num_blocks()
    }

    /// Identifier of the device.
    pub fn dev_id(&self) -> usize {
        self.device.get_dev_id()
    }

    /// Writes the oldest entry back and drops it when the cache is full.
    fn check_queue_size(&mut self)
        requires
            old(self).wf(),
        ensures
            final(self).wf(),
            final(self).disk() == old(self).disk(),
            final(self).cached_count() < BLOCK_CACHE_SIZE,
            forall|b: usize| #[trigger] final(self).is_cached(b) ==> old(self).is_cached(b),
            old(self).queue@.len() == BLOCK_CACHE_SIZE ==> final(self).queue@ == old(self).queue@.subrange(
                1,
                BLOCK_CACHE_SIZE as int,
            ),
            old(self).queue@.len() < BLOCK_CACHE_SIZE ==> *final(self) == *old(self),
    {
        if self.queue.len() == BLOCK_CACHE_SIZE {
            let mut victim = self.queue.remove(0);
            let ghost q = old(self).queue@;
            let ghost dev0 = self.device.blocks();
            victim.sync(&mut self.device);
            proof {
                let dev = self.device.blocks();
                let nq = self.queue@;
                assert(nq =~= q.subrange(1, q.len() as int));
                assert forall|i: int| 0 <= i < nq.len() implies {
                    &&& (#[trigger] nq[i]).id() < dev.len()
                    &&& nq[i].bytes() == self.logical@[nq[i].id() as int]
                    &&& !nq[i].is_modified() ==> dev[nq[i].id() as int] == nq[i].bytes()
                } by {
                    assert(nq[i] == q[i + 1]);
                    assert(q[i + 1].id() != q[0].id());
                }
                assert forall|i: int, j: int|
                    0 <= i < nq.len() && 0 <= j < nq.len() && i != j implies (#[trigger] nq[i]).id()
                    != (#[trigger] nq[j]).id() by {
                    assert(nq[i] == q[i + 1]);
                    assert(nq[j] == q[j + 1]);
                }
                assert forall|b: int|
                    0 <= b < dev.len() && (forall|i: int|
                        0 <= i < nq.len() ==> (#[trigger] nq[i]).id() != b) implies #[trigger] self.logical@[b]
                    == dev[b] by {
                    if b == q[0].id() {
                    } else {
                        assert forall|i: int| 0 <= i < q.len() implies (#[trigger] q[i]).id() != b by {
                            if i > 0 {
                                assert(nq[i - 1] == q[i]);
                            }
                        }
                    }
                }
                assert forall|b: usize| #[trigger] self.is_cached(b) implies old(self).is_cached(b) by {
                    let i = choose|i: int| 0 <= i < nq.len() && (#[trigger] nq[i]).id() == b;
                    assert(nq[i] == q[i + 1]);
                }
            }
        }
    }

    /// Index in the queue of the entry for `block_id`, loading it if needed.
    fn get_block_cache(&mut self, block_id: usize) -> (idx: usize)
        requires
            old(self).wf(),
            block_id < old(self).disk().len(),
        ensures
            final(self).wf(),
            final(self).disk() == old(self).disk(),
            idx < final(self).queue@.len(),
            final(self).queue@[idx as int].id() == block_id,
            old(self).is_cached(block_id) ==> *final(self) == *old(self),
            !old(self).is_cached(block_id) ==> idx == final(self).queue@.len() - 1 && final(self).queue@.drop_last()
                == (if old(self).queue@.len() == BLOCK_CACHE_SIZE {
                old(self).queue@.subrange(1, BLOCK_CACHE_SIZE as int)
            } else {
                old(self).queue@
            }) && !final(self).queue@.last().is_modified(),
    {
        let mut i: usize = 0;
        while i < self.queue.len()
            invariant
                self.wf(),
                *self == *old(self),
                i <= self.queue@.len(),
                forall|k: int| 0 <= k < i ==> (#[trigger] self.queue@[k]).id() != block_id,
            decreases self.queue@.len() - i,
        {
            if self.queue[i].block_id == block_id {
                return i;
            }

            i = i + 1;
        }
        self.check_queue_size();
        let entry = BlockCache::new(block_id, &self.device);
        proof {
            assert(!self.is_cached(block_id));
            assert forall|k: int| 0 <= k < self.queue@.len() implies (#[trigger] self.queue@[k]).id()
                != block_id by {
                if self.queue@[k].id() == block_id {
                    assert(self.is_cached(block_id));
                }
            }
            assert(self.logical@[block_id as int] == self.device.blocks()[block_id as int]);
        }
        let ghost q = self.queue@;
        self.queue.push(entry);
        proof {
            assert(self.queue@.drop_last() =~= q);
            assert(!old(self).is_cached(block_id)) by {
                if old(self).is_cached(block_id) {
                    let k = choose|k: int| 0 <= k < old(self).queue@.len() && (#[trigger] old(self).queue@[k]).id() == block_id;
                }
            }
        }
        proof {
            let nq = self.queue@;
            assert(nq[q.len() as int] == entry);
            assert forall|i: int| 0 <= i < nq.len() implies {
                &&& (#[trigger] nq[i]).id() < self.device.blocks().len()
                &&& nq[i].bytes() == self.logical@[nq[i].id() as int]
                &&& !nq[i].is_modified() ==> self.device.blocks()[nq[i].id() as int] == nq[i].bytes()
            } by {
                if i < q.len() {
                    assert(nq[i] == q[i]);
                }
            }
            assert forall|i: int, j: int|
                0 <= i < nq.len() && 0 <= j < nq.len() && i != j implies (#[trigger] nq[i]).id() != (
                #[trigger] nq[j]).id() by {
                if i < q.len() {
                    assert(nq[i] == q[i]);
                }
                if j < q.len() {
                    assert(nq[j] == q[j]);
                }
            }
            let dev = self.device.blocks();
            assert forall|b: int|
                0 <= b < dev.len() && (forall|i: int| 0 <= i < nq.len() ==> (#[trigger] nq[i]).id() != b)
                    implies #[trigger] self.logical@[b] == dev[b] by {
                assert forall|i: int| 0 <= i < q.len() implies (#[trigger] q[i]).id() != b by {
                    assert(nq[i] == q[i]);
                }
            }
        }
        self.queue.len() - 1
    }

    /// The `len` bytes at `offset` of block `block_id`.
    pub fn read(&mut self, block_id: usize, offset: usize, len: usize) -> (r: Vec<u8>)
        requires
            old(self).wf(),
            block_id < old(self).disk().len(),
            offset + len <= BLOCK_SIZE,
        ensures
            final(self).wf(),
            final(self).disk() == old(self).disk(),
            r@ == old(self).disk()[block_id as int].subrange(offset as int, offset + len),
    {
        let idx = self.get_block_cache(block_id);
        self.queue[idx].read(offset, len)
    }

    /// Overwrites the bytes at `offset` of block `block_id` with `data`.
    pub fn modify(&mut self, block_id: usize, offset: usize, data: &[u8])
        requires
            old(self).wf(),
            block_id < old(self).disk().len(),
            offset + data@.len() <= BLOCK_SIZE,
        ensures
            final(self).wf(),
            final(self).disk() == old(self).disk().update(
                block_id as int,
                splice(old(self).disk()[block_id as int], offset as int, data@),
            ),
    {
        let idx = self.get_block_cache(block_id);
        let ghost q = self.queue@;
        let mut entry = self.queue.remove(idx);
        entry.modify(offset, data);
        self.queue.insert(idx, entry);
        proof {
            let old_disk = self.logical@;
            self.logical@ = old_disk.update(block_id as int, entry.bytes());
            let nq = self.queue@;
            let dev = self.device.blocks();
            assert(nq =~= q.update(idx as int, entry));
            assert forall|i: int| 0 <= i < nq.len() implies {
                &&& (#[trigger] nq[i]).id() < dev.len()
                &&& nq[i].bytes() == self.logical@[nq[i].id() as int]
                &&& !nq[i].is_modified() ==> dev[nq[i].id() as int] == nq[i].bytes()
            } by {
                if i != idx {
                    assert(q[i].id() != q[idx as int].id());
                }
            }
            assert forall|i: int, j: int|
                0 <= i < nq.len() && 0 <= j < nq.len() && i != j implies (#[trigger] nq[i]).id() != (
                #[trigger] nq[j]).id() by {
                assert(q[i].id() != q[j].id());
            }
            assert forall|b: int|
                0 <= b < dev.len() && (forall|i: int| 0 <= i < nq.len() ==> (#[trigger] nq[i]).id() != b)
                    implies #[trigger] self.logical@[b] == dev[b] by {
                assert(nq[idx as int].id() != b);
                assert forall|i: int| 0 <= i < q.len() implies (#[trigger] q[i]).id() != b by {
                    assert(nq[i].id() == q[i].id());
                }
            }
            assert forall|i: int| 0 <= i < self.logical@.len() implies (#[trigger] self.logical@[i]).len()
                == BLOCK_SIZE by {
                if i == block_id {
                } else {
                    assert(self.logical@[i] == old_disk[i]);
                }
            }
        }
    }

    /// Writes every modified block back to the device.
    pub fn sync_all(&mut self)
        requires
            old(self).wf(),
        ensures
            final(self).wf(),
            final(self).disk() == old(self).disk(),
            final(self).device_blocks() == old(self).disk(),
    {
        let mut i: usize = 0;
        while i < self.queue.len()
            invariant
                self.wf(),
                self.logical@ == old(self).logical@,
                i <= self.queue@.len(),
                forall|k: int| 0 <= k < i ==> !(#[trigger] self.queue@[k]).is_modified(),
            decreases self.queue@.len() - i,
        {
            let ghost q = self.queue@;
            let ghost dev0 = self.device.blocks();
            let mut entry = self.queue.remove(i);
            entry.sync(&mut self.device);
            self.queue.insert(i, entry);
            proof {
                let nq = self.queue@;
                let dev = self.device.blocks();
                assert(nq =~= q.update(i as int, entry));
                assert forall|k: int| 0 <= k < nq.len() implies {
                    &&& (#[trigger] nq[k]).id() < dev.len()
                    &&& nq[k].bytes() == self.logical@[nq[k].id() as int]
                    &&& !nq[k].is_modified() ==> dev[nq[k].id() as int] == nq[k].bytes()
                } by {
                    if k != i {
                        assert(q[k].id() != q[i as int].id());
                    }
                }
                assert forall|a: int, b: int|
                    0 <= a < nq.len() && 0 <= b < nq.len() && a != b implies (#[trigger] nq[a]).id()
                    != (#[trigger] nq[b]).id() by {
                    assert(q[a].id() != q[b].id());
                }
                assert forall|b: int|
                    0 <= b < dev.len() && (forall|k: int|
                        0 <= k < nq.len() ==> (#[trigger] nq[k]).id() != b) implies #[trigger] self.logical@[b]
                    == dev[b] by {
                    assert(nq[i as int].id() != b);
                    assert forall|k: int| 0 <= k < q.len() implies (#[trigger] q[k]).id() != b by {
                        assert(nq[k].id() == q[k].id());
                    }
                }
            }
            i = i + 1;
        }
        proof {
            let dev = self.device.blocks();
            let q = self.queue@;
            assert forall|b: int| 0 <= b < dev.len() implies #[trigger] dev[b] == self.logical@[b] by {
                if exists|k: int| 0 <= k < q.len() && (#[trigger] q[k]).id() == b {
                    let k = choose|k: int| 0 <= k < q.len() && (#[trigger] q[k]).id() == b;
                    assert(!q[k].is_modified());
                }
            }
            assert(dev =~= self.logical@);
        }
    }

    /// Writes every modified block back and hands the device out.
    pub fn into_device(self) -> (r: D)
        requires
            self.wf(),
        ensures
            r.blocks() == self.disk(),
    {
        let mut m = self;
        m.sync_all();
        m.device
    }
}

} // verus!
