use vstd::prelude::*;

use crate::bitmap::{with_bit, Bitmap};
use crate::block_cache::{splice, BlockCacheManager};
use crate::block_dev::{blocks_well_sized, BlockDevice};
use crate::layout::{u32_le, DiskInode, DiskInodeType, SuperBlock, DISK_INODE_SIZE, EFS_MAGIC};
use crate::BLOCK_SIZE;

verus! {

/// A formatted device: super block, inode bitmap, inode area, data bitmap and
/// data area, in that order, seen through the block cache.
pub struct EasyFileSystem<D: BlockDevice> {
    pub cache: BlockCacheManager<D>,
    pub inode_bitmap: Bitmap,
    pub data_bitmap: Bitmap,
    pub inode_area_start_block: u32,
    pub data_area_start_block: u32,
}

impl<D: BlockDevice> EasyFileSystem<D> {
    pub open spec fn inode_area_start(&self) -> nat {
        self.inode_area_start_block as nat
    }

    pub open spec fn data_area_start(&self) -> nat {
        self.data_area_start_block as nat
    }

    /// The content of the device as readers see it.
    pub open spec fn disk(&self) -> Seq<Seq<u8>> {
        self.cache.disk()
    }

    /// Number of inodes the inode bitmap can hand out.
    pub open spec fn inode_count(&self) -> nat {
        self.inode_bitmap.max_bits()
    }

    /// Number of data-bitmap bits that name blocks on the device.
    pub open spec fn data_limit(&self) -> nat {
        let a = (self.disk().len() - self.data_area_start()) as nat;
        if self.data_bitmap.max_bits() < a {
            self.data_bitmap.max_bits()
        } else {
            a
        }
    }

    /// Number of free data blocks on the device.
    pub open spec fn free_data_blocks(&self) -> nat {
        crate::bitmap::clear_count(self.disk(), self.data_bitmap.start(), self.data_limit())
    }

    /// Block and byte offset of inode `id`.
    pub open spec fn inode_pos(&self, id: nat) -> (nat, nat) {
        (self.inode_area_start() + id / 4, (id % 4) * 128)
    }

    /// The areas follow each other as laid out and fit on the device.
    pub closed spec fn wf(&self) -> bool {
        &&& self.cache.wf()
        &&& self.inode_bitmap.start() == 1
        &&& self.inode_area_start() == 1 + self.inode_bitmap.num_blocks()
        &&& self.inode_area_start() + self.inode_bitmap.num_blocks() * 1024 <= self.data_bitmap.start()
        &&& self.data_bitmap.start() + self.data_bitmap.num_blocks() == self.data_area_start()
        &&& self.data_area_start() <= self.disk().len()
        &&& self.disk().len() <= u32::MAX
        &&& self.inode_bitmap.max_bits() <= u32::MAX
        &&& self.data_area_start() + self.data_bitmap.max_bits() <= u32::MAX
    }

    pub proof fn lemma_wf(&self)
        requires
            self.wf(),
        ensures
            self.cache.wf(),
            self.inode_bitmap.fits(self.disk()),
            self.data_bitmap.fits(self.disk()),
            self.inode_bitmap.max_bits() <= u32::MAX,
            self.data_bitmap.max_bits() <= u32::MAX,
            self.inode_area_start() + self.inode_bitmap.num_blocks() * 1024 <= self.data_bitmap.start(),
            self.data_bitmap.start() < self.data_area_start() || self.data_bitmap.num_blocks() == 0,
            self.data_area_start() <= self.disk().len() <= u32::MAX,
            self.data_bitmap.start() + self.data_bitmap.num_blocks() == self.data_area_start(),
            self.inode_bitmap.start() == 1,
            self.inode_area_start() == 1 + self.inode_bitmap.num_blocks(),
            blocks_well_sized(self.disk()),
            forall|id: nat|
                id < self.inode_count() ==> #[trigger] self.inode_pos(id).0 < self.data_bitmap.start()
                    && self.inode_pos(id).0 >= 1 && self.inode_pos(id).1 + 128 <= BLOCK_SIZE,
    {
        self.cache.lemma_disk_shape();
        assert forall|id: nat| id < self.inode_count() implies #[trigger] self.inode_pos(id).0
            < self.data_bitmap.start() && self.inode_pos(id).0 >= 1 && self.inode_pos(id).1 + 128
            <= BLOCK_SIZE by {
            assert(id / 4 < self.inode_bitmap.num_blocks() * 1024) by (nonlinear_arith)
                requires
                    id < self.inode_bitmap.num_blocks() * 4096,
            ;
        }
    }

    /// Well-formedness depends on the cache only through its own
    /// well-formedness and the number of blocks.
    pub proof fn lemma_wf_cache_change(&self, other: &Self)
        requires
            self.wf(),
            other.cache.wf(),
            other.disk().len() == self.disk().len(),
            other.inode_bitmap == self.inode_bitmap,
            other.data_bitmap == self.data_bitmap,
            other.inode_area_start() == self.inode_area_start(),
            other.data_area_start() == self.data_area_start(),
        ensures
            other.wf(),
    {
    }

    /// Formats `device`: zeroes `total_blocks` blocks, writes the super block,
    /// and makes inode 0 an empty root directory.
    pub fn create(device: D, total_blocks: u32, inode_bitmap_blocks: u32) -> (r: Self)
        requires
            blocks_well_sized(device.blocks()),
            total_blocks <= device.blocks().len(),
            device.blocks().len() <= u32::MAX,
            inode_bitmap_blocks >= 1,
            inode_bitmap_blocks as nat * 4096 <= u32::MAX,
            1 + inode_bitmap_blocks as nat * 1025 < total_blocks,
            total_blocks as nat + 4096 <= u32::MAX,
        ensures
            r.wf(),
            r.disk().len() == device.blocks().len(),
            u32_le(r.disk()[0], 0) == EFS_MAGIC,
            u32_le(r.disk()[0], 4) == total_blocks,
            u32_le(r.disk()[0], 8) == inode_bitmap_blocks,
            u32_le(r.disk()[0], 12) == inode_bitmap_blocks as nat * 1024,
            u32_le(r.disk()[0], 16) == (total_blocks - 1 - inode_bitmap_blocks as nat * 1025 + 4096) as nat / 4097,
            u32_le(r.disk()[0], 20) == (total_blocks - 1 - inode_bitmap_blocks as nat * 1025) as nat - (total_blocks - 1
                - inode_bitmap_blocks as nat * 1025 + 4096) as nat / 4097,
            r.inode_count() == inode_bitmap_blocks as nat * 4096,
            r.inode_bitmap.bit(r.disk(), 0),
            exists|d: DiskInode|
                DiskInode::decodes_to(
                    r.disk()[r.inode_pos(0).0 as int].subrange(
                        r.inode_pos(0).1 as int,
                        (r.inode_pos(0).1 + 128) as int,
                    ),
                    d,
                ) && DiskInode::is_empty_of(d, DiskInodeType::Directory),
            forall|j: nat| 1 <= j < r.inode_count() ==> !#[trigger] r.inode_bitmap.bit(r.disk(), j),
            r.free_data_blocks() == r.data_limit(),
    {
        let ib: usize = inode_bitmap_blocks as usize;
        let total: usize = total_blocks as usize;
        let inode_bitmap = Bitmap::new(1, ib);
        let inode_num: usize = inode_bitmap.maximum();
        let inodes_per_block: usize = BLOCK_SIZE / DISK_INODE_SIZE;
        let inode_area_blocks: usize = (inode_num + inodes_per_block - 1) / inodes_per_block;
        let offset: usize = 1 + ib + inode_area_blocks;
        proof {
            assert(inode_area_blocks == ib * 1024) by (nonlinear_arith)
                requires
                    inode_area_blocks == (ib * 4096 + 3) / 4,
            ;
        }
        let data_blocks: usize = total - offset;
        let data_bitmap_blocks: usize = ((data_blocks as u64 + 4097 - 1) / 4097) as usize;
        let data_bitmap = Bitmap::new(offset, data_bitmap_blocks);
        let data_area_blocks: usize = data_blocks - data_bitmap_blocks;
        proof {
            assert(data_bitmap_blocks * 4096 + data_bitmap_blocks <= data_blocks + 4096) by (nonlinear_arith)
                requires
                    data_bitmap_blocks == (data_blocks + 4096) / 4097,
            ;
        }
        let mut cache = BlockCacheManager::new(device);
        let zeros: Vec<u8> = vec![0u8; BLOCK_SIZE];
        let mut i: usize = 0;
        while i < total
            invariant
                cache.wf(),
                zeros@.len() == BLOCK_SIZE,
                forall|k: int| 0 <= k < BLOCK_SIZE ==> zeros@[k] == 0u8,
                total <= cache.disk().len(),
                cache.disk().len() == device.blocks().len(),
                i <= total,
                forall|b: int, k: int| 0 <= b < i && 0 <= k < BLOCK_SIZE ==> #[trigger] cache.disk()[b][k] == 0u8,
            decreases total - i,
        {
            let ghost before = cache.disk();
            proof {
                cache.lemma_disk_shape();
            }
            cache.modify(i, 0, zeros.as_slice());
            proof {
                let after = cache.disk();
                assert forall|b: int, k: int| 0 <= b <= i && 0 <= k < BLOCK_SIZE implies #[trigger] after[b][k] == 0u8 by {
                    if b == i {
                        assert(after[b] == splice(before[b], 0, zeros@));
                    } else {
                        assert(after[b] == before[b]);
                    }
                }
            }
            i = i + 1;
        }
        let mut sb = SuperBlock::empty();
        sb.initialize(
            total_blocks,
            inode_bitmap_blocks,
            inode_area_blocks as u32,
            data_bitmap_blocks as u32,
            data_area_blocks as u32,
        );
        let sb_bytes = sb.to_bytes();
        proof {
            cache.lemma_disk_shape();
        }
        let ghost dz = cache.disk();
        cache.modify(0, 0, sb_bytes.as_slice());
        proof {
            let d = cache.disk();
            assert forall|o: int| 0 <= o <= 20 implies u32_le(d[0], o) == u32_le(sb_bytes@, o) by {
                assert(d[0][o] == sb_bytes@[o]);
                assert(d[0][o + 1] == sb_bytes@[o + 1]);
                assert(d[0][o + 2] == sb_bytes@[o + 2]);
                assert(d[0][o + 3] == sb_bytes@[o + 3]);
            }
            assert(u32_le(d[0], 0) == u32_le(sb_bytes@, 0));
            assert(u32_le(d[0], 4) == u32_le(sb_bytes@, 4));
            assert(u32_le(d[0], 8) == u32_le(sb_bytes@, 8));
            assert(u32_le(d[0], 12) == u32_le(sb_bytes@, 12));
            assert(u32_le(d[0], 16) == u32_le(sb_bytes@, 16));
            assert(u32_le(d[0], 20) == u32_le(sb_bytes@, 20));
        }
        let ghost d_sb = cache.disk();
        let mut efs = EasyFileSystem {
            cache,
            inode_bitmap,
            data_bitmap,
            inode_area_start_block: (1 + ib) as u32,
            data_area_start_block: (offset + data_bitmap_blocks) as u32,
        };
        proof {
            assert(data_bitmap_blocks * 4096 <= u32::MAX) by (nonlinear_arith)
                requires
                    data_bitmap_blocks * 4096 + data_bitmap_blocks <= data_blocks + 4096,
                    data_blocks <= u32::MAX,
            ;
            assert(efs.data_area_start() + efs.data_bitmap.max_bits() <= u32::MAX) by (nonlinear_arith)
                requires
                    efs.data_area_start() == offset + data_bitmap_blocks,
                    efs.data_bitmap.max_bits() == data_bitmap_blocks * 4096,
                    data_bitmap_blocks * 4096 + data_bitmap_blocks <= data_blocks + 4096,
                    data_blocks == total - offset,
                    total + 4096 <= u32::MAX,
            ;
            assert(efs.wf());
            // the inode bitmap is all zero, so its lowest clear bit is 0
            assert(!efs.inode_bitmap.bit(efs.disk(), 0)) by {
                assert(efs.disk()[1][0] == 0u8);
                assert((0u8 >> 0u8) & 1u8 == 0u8) by (bit_vector);
            }
        }
        let root = efs.alloc_inode();
        proof {
            assert(root == Some(0u32)) by {
                if let Some(x) = root {
                    if x != 0 {
                        assert(efs.inode_bitmap.bit(d_sb, 0));
                    }
                }
            }
            efs.lemma_wf();
            crate::bitmap::lemma_alloc_dealloc_round_trip(d_sb, 1, 0);
        }
        let (root_block, root_offset) = efs.get_disk_inode_pos(0);
        let root_inode = DiskInode::new(DiskInodeType::Directory);
        let bytes = root_inode.to_bytes();
        let ghost d_alloc = efs.disk();
        efs.cache.modify(root_block as usize, root_offset, bytes.as_slice());
        proof {
            let d = efs.disk();
            assert(d[root_block as int].subrange(root_offset as int, root_offset + 128) =~= bytes@);
            assert(d[0] == d_alloc[0]);
            assert(d_alloc[0] == d_sb[0]);
            assert(efs.inode_bitmap.bit(d, 0)) by {
                assert(d[1] == d_alloc[1]);
            }
            assert(DiskInode::is_empty_of(root_inode, DiskInodeType::Directory));
            // every block but 0, the inode-bitmap bit of inode 0 and the root inode is still zero
            let ias = efs.inode_area_start();
            let dbs = efs.data_bitmap.start();
            assert forall|j: nat| 1 <= j < efs.inode_count() implies !#[trigger] efs.inode_bitmap.bit(efs.disk(), j) by {
                let b = crate::bitmap::bit_block(1, j);
                assert(j / 4096 < ib) by (nonlinear_arith)
                    requires
                        j < ib * 4096,
                ;
                assert(d_sb[b] == dz[b]);
                assert(dz[b][crate::bitmap::bit_byte(j)] == 0u8);
                crate::bitmap::lemma_zero_bit(d_sb, 1, j);
                crate::bitmap::lemma_with_bit_other(d_sb, 1, 0, j, true);
                assert(d[b] == d_alloc[b]);
            }
            let lim = efs.data_limit();
            assert forall|j: nat| j < lim implies !#[trigger] crate::bitmap::bitmap_bit(efs.disk(), dbs, j) by {
                let b = crate::bitmap::bit_block(dbs, j);
                assert(j / 4096 < data_bitmap_blocks) by (nonlinear_arith)
                    requires
                        j < data_bitmap_blocks * 4096,
                ;
                assert(b < total);
                assert(d_sb[b] == dz[b]);
                assert(dz[b][crate::bitmap::bit_byte(j)] == 0u8);
                assert(d_alloc == crate::bitmap::with_bit(d_sb, 1, 0, true));
                assert(d_alloc[b] == d_sb[b]);
                assert(d[b] == d_alloc[b]);
                crate::bitmap::lemma_zero_bit(efs.disk(), dbs, j);
            }
            crate::bitmap::lemma_all_clear_count(efs.disk(), dbs, lim);
        }
        efs
    }
}

impl<D: BlockDevice> EasyFileSystem<D> {
    /// Block and byte offset where inode `inode_id` is stored.
    pub fn get_disk_inode_pos(&self, inode_id: u32) -> (r: (u32, usize))
        requires
            self.wf(),
            inode_id < self.inode_count(),
        ensures
            r.0 == self.inode_pos(inode_id as nat).0,
            r.1 == self.inode_pos(inode_id as nat).1,
    {
        proof {
            self.lemma_wf();
            assert(self.inode_pos(inode_id as nat).0 < self.data_bitmap.start());
        }
        let inodes_per_block: u32 = (BLOCK_SIZE / DISK_INODE_SIZE) as u32;
        let block_id: u32 = self.inode_area_start_block + inode_id / inodes_per_block;
        (block_id, (inode_id % inodes_per_block) as usize * DISK_INODE_SIZE)
    }

    /// Device block of data block `data_block_id`.
    pub fn get_block_id(&self, data_block_id: u32) -> (r: u32)
        requires
            self.wf(),
            data_block_id < self.data_bitmap.max_bits(),
        ensures
            r == self.data_area_start() + data_block_id,
    {
        self.data_area_start_block + data_block_id
    }

    /// Takes the lowest free inode number, or `None` when none is free.
    pub fn alloc_inode(&mut self) -> (r: Option<u32>)
        requires
            old(self).wf(),
        ensures
            final(self).wf(),
            final(self).inode_count() == old(self).inode_count(),
            final(self).inode_bitmap == old(self).inode_bitmap,
            final(self).data_bitmap == old(self).data_bitmap,
            final(self).data_area_start() == old(self).data_area_start(),
            final(self).inode_area_start() == old(self).inode_area_start(),
            match r {
                None => final(self).disk() == old(self).disk() && forall|j: nat|
                    j < old(self).inode_count() ==> #[trigger] old(self).inode_bitmap.bit(old(self).disk(), j),
                Some(i) => {
                    &&& i < old(self).inode_count()
                    &&& !old(self).inode_bitmap.bit(old(self).disk(), i as nat)
                    &&& forall|j: nat| j < i ==> #[trigger] old(self).inode_bitmap.bit(old(self).disk(), j)
                    &&& final(self).disk() == with_bit(old(self).disk(), 1, i as nat, true)
                },
            },
    {
        proof {
            self.lemma_wf();
        }
        let r = self.inode_bitmap.allocate(&mut self.cache);
        match r {
            Some(i) => Some(i as u32),
            None => None,
        }
    }

    /// Takes the lowest free data block and returns its device block id, or
    /// `None` when none is free.
    pub fn alloc_data(&mut self) -> (r: Option<u32>)
        requires
            old(self).wf(),
        ensures
            final(self).wf(),
            final(self).inode_bitmap == old(self).inode_bitmap,
            final(self).data_bitmap == old(self).data_bitmap,
            final(self).data_area_start() == old(self).data_area_start(),
            final(self).inode_area_start() == old(self).inode_area_start(),
            old(self).free_data_blocks() > 0 ==> r is Some,
            match r {
                None => final(self).disk() == old(self).disk() && forall|j: nat|
                    j < old(self).data_bitmap.max_bits() ==> #[trigger] old(self).data_bitmap.bit(
                        old(self).disk(),
                        j,
                    ),
                Some(b) => {
                    &&& old(self).data_area_start() <= b
                    &&& b - old(self).data_area_start() < old(self).data_bitmap.max_bits()
                    &&& !old(self).data_bitmap.bit(old(self).disk(), (b - old(self).data_area_start()) as nat)
                    &&& forall|j: nat|
                        j < b - old(self).data_area_start() ==> #[trigger] old(self).data_bitmap.bit(
                            old(self).disk(),
                            j,
                        )
                    &&& (old(self).free_data_blocks() > 0 ==> b < old(self).disk().len()
                        && final(self).free_data_blocks() + 1 == old(self).free_data_blocks())
                    &&& final(self).disk() == with_bit(
                        old(self).disk(),
                        old(self).data_bitmap.start(),
                        (b - old(self).data_area_start()) as nat,
                        true,
                    )
                },
            },
    {
        proof {
            self.lemma_wf();
        }
        let ghost d0 = self.disk();
        let r = self.data_bitmap.allocate(&mut self.cache);
        proof {
            let lim = old(self).data_limit();
            let st = self.data_bitmap.start();
            assert(lim <= self.data_bitmap.max_bits());
            assert(self.data_bitmap.max_bits() == self.data_bitmap.num_blocks() * 4096);
            if lim > 0 {
                let nb = self.data_bitmap.num_blocks();
                let q = (lim - 1) as nat;
                assert(q / 4096 < nb) by (nonlinear_arith)
                    requires
                        q < nb * 4096,
                ;
                assert(crate::bitmap::bit_block(st, q) < d0.len());
            }
            match r {
                None => {
                    assert forall|j: nat| j < lim implies #[trigger] crate::bitmap::bitmap_bit(d0, st, j) by {
                        assert(old(self).data_bitmap.bit(d0, j));
                    }
                    crate::bitmap::lemma_all_set_count(d0, st, lim);
                },
                Some(i) => {
                    if old(self).free_data_blocks() > 0 {
                        if i >= lim {
                            assert forall|j: nat| j < lim implies #[trigger] crate::bitmap::bitmap_bit(d0, st, j) by {
                                assert(old(self).data_bitmap.bit(d0, j));
                            }
                            crate::bitmap::lemma_all_set_count(d0, st, lim);
                        }
                        assert(crate::bitmap::bit_block(st, i as nat) < d0.len()) by (nonlinear_arith)
                            requires
                                i < self.data_bitmap.num_blocks() * 4096,
                                crate::bitmap::bit_block(st, i as nat) == st + i / 4096,
                                st + self.data_bitmap.num_blocks() == self.data_area_start(),
                                self.data_area_start() <= d0.len(),
                        ;
                        crate::bitmap::lemma_count_after_set(d0, st, i as nat, lim);
                    }
                },
            }
        }
        match r {
            Some(i) => Some(i as u32 + self.data_area_start_block),
            None => None,
        }
    }

    /// Zeroes data block `block_id` and marks it free.
    pub fn dealloc_data(&mut self, block_id: u32)
        requires
            old(self).wf(),
            old(self).data_area_start() <= block_id < old(self).disk().len(),
            block_id - old(self).data_area_start() < old(self).data_bitmap.max_bits(),
            old(self).data_bitmap.bit(old(self).disk(), (block_id - old(self).data_area_start()) as nat),
        ensures
            final(self).wf(),
            final(self).inode_bitmap == old(self).inode_bitmap,
            final(self).data_bitmap == old(self).data_bitmap,
            final(self).data_area_start() == old(self).data_area_start(),
            final(self).inode_area_start() == old(self).inode_area_start(),
            final(self).disk() == with_bit(
                old(self).disk().update(block_id as int, Seq::new(BLOCK_SIZE as nat, |i: int| 0u8)),
                old(self).data_bitmap.start(),
                (block_id - old(self).data_area_start()) as nat,
                false,
            ),
    {
        proof {
            self.lemma_wf();
        }
        let zeros: Vec<u8> = vec![0u8; BLOCK_SIZE];
        self.cache.modify(block_id as usize, 0, zeros.as_slice());
        proof {
            let d = self.disk();
            assert(d[block_id as int] =~= Seq::new(BLOCK_SIZE as nat, |i: int| 0u8));
            assert(d =~= old(self).disk().update(block_id as int, Seq::new(BLOCK_SIZE as nat, |i: int| 0u8)));
            let bit = (block_id - self.data_area_start()) as nat;
            assert(crate::bitmap::bit_block(self.data_bitmap.start(), bit) != block_id) by {
                assert(crate::bitmap::bit_block(self.data_bitmap.start(), bit) < self.data_area_start()) by (nonlinear_arith)
                    requires
                        bit < self.data_bitmap.num_blocks() * 4096,
                        self.data_bitmap.start() + self.data_bitmap.num_blocks() == self.data_area_start(),
                        crate::bitmap::bit_block(self.data_bitmap.start(), bit) == self.data_bitmap.start() + bit / 4096,
                ;
            }
            self.lemma_wf();
        }
        self.data_bitmap.dealloc(&mut self.cache, (block_id - self.data_area_start_block) as usize);
    }
}

/// The super block on `disk` names a layout that fits the device.
pub open spec fn layout_fits(disk: Seq<Seq<u8>>) -> bool {
    let ib = u32_le(disk[0], 8) as nat;
    let ia = u32_le(disk[0], 12) as nat;
    let db = u32_le(disk[0], 16) as nat;
    &&& ib * 1024 <= ia
    &&& ib * 4096 <= u32::MAX
    &&& 1 + ib + ia + db <= disk.len()
    &&& 1 + ib + ia + db + db * 4096 <= u32::MAX
}

impl<D: BlockDevice> EasyFileSystem<D> {
    /// Opens a formatted device; `None` when block 0 does not carry the magic
    /// number or names areas that do not fit the device.
    pub fn open(device: D) -> (r: Option<Self>)
        requires
            blocks_well_sized(device.blocks()),
            1 <= device.blocks().len() <= u32::MAX,
        ensures
            match r {
                Some(fs) => {
                    &&& fs.wf()
                    &&& fs.disk() == device.blocks()
                    &&& u32_le(device.blocks()[0], 0) == EFS_MAGIC
                    &&& layout_fits(device.blocks())
                    &&& fs.inode_count() == u32_le(device.blocks()[0], 8) as nat * 4096
                },
                None => u32_le(device.blocks()[0], 0) != EFS_MAGIC || !layout_fits(device.blocks()),
            },
    {
        let mut cache = BlockCacheManager::new(device);
        proof {
            cache.lemma_disk_shape();
        }
        let bytes = cache.read(0, 0, 24);
        let sb = SuperBlock::from_bytes(bytes.as_slice());
        proof {
            let b0 = device.blocks()[0];
            assert forall|o: int| 0 <= o <= 20 implies u32_le(bytes@, o) == u32_le(b0, o) by {
                assert(bytes@[o] == b0[o]);
                assert(bytes@[o + 1] == b0[o + 1]);
                assert(bytes@[o + 2] == b0[o + 2]);
                assert(bytes@[o + 3] == b0[o + 3]);
            }
            assert(u32_le(bytes@, 0) == u32_le(b0, 0));
            assert(u32_le(bytes@, 8) == u32_le(b0, 8));
            assert(u32_le(bytes@, 12) == u32_le(b0, 12));
            assert(u32_le(bytes@, 16) == u32_le(b0, 16));
        }
        if !sb.is_valid() {
            return None;
        }
        let n: u64 = cache.num_blocks() as u64;
        let ib: u64 = sb.inode_bitmap_blocks as u64;
        let ia: u64 = sb.inode_area_blocks as u64;
        let db: u64 = sb.data_bitmap_blocks as u64;
        if ib * 1024 > ia || ib * 4096 > u32::MAX as u64 || 1 + ib + ia + db > n || 1 + ib + ia + db + db
            * 4096 > u32::MAX as u64 {
            return None;
        }
        let inode_total_blocks: u32 = sb.inode_bitmap_blocks + sb.inode_area_blocks;
        let fs = EasyFileSystem {
            cache,
            inode_bitmap: Bitmap::new(1, sb.inode_bitmap_blocks as usize),
            data_bitmap: Bitmap::new(1 + inode_total_blocks as usize, sb.data_bitmap_blocks as usize),
            inode_area_start_block: 1 + sb.inode_bitmap_blocks,
            data_area_start_block: 1 + inode_total_blocks + sb.data_bitmap_blocks,
        };
        Some(fs)
    }

    /// Writes every pending block back and hands the device out.
    pub fn into_device(self) -> (r: D)
        requires
            self.wf(),
        ensures
            r.blocks() == self.disk(),
    {
        self.cache.into_device()
    }
}

impl<D: BlockDevice> EasyFileSystem<D> {
    /// Number of free data blocks on the device.
    pub fn count_free_data(&mut self) -> (r: usize)
        requires
            old(self).wf(),
        ensures
            final(self).wf(),
            final(self).disk() == old(self).disk(),
            final(self).inode_bitmap == old(self).inode_bitmap,
            final(self).data_bitmap == old(self).data_bitmap,
            final(self).data_area_start() == old(self).data_area_start(),
            final(self).inode_area_start() == old(self).inode_area_start(),
            r == old(self).free_data_blocks(),
    {
        proof {
            self.lemma_wf();
        }
        let total: usize = self.cache.num_blocks();
        let rest: usize = total - self.data_area_start_block as usize;
        let maxb: usize = self.data_bitmap.maximum();
        let lim: usize = if maxb < rest {
            maxb
        } else {
            rest
        };
        let ghost st = self.data_bitmap.start();
        let ghost disk = self.disk();
        let mut count: usize = 0;
        let mut j: usize = 0;
        while j < lim
            invariant
                self.wf(),
                self.disk() == disk,
                disk == old(self).disk(),
                self.inode_bitmap == old(self).inode_bitmap,
                self.data_bitmap == old(self).data_bitmap,
                self.data_area_start_block == old(self).data_area_start_block,
                self.inode_area_start_block == old(self).inode_area_start_block,
                st == self.data_bitmap.start(),
                lim == old(self).data_limit(),
                lim <= self.data_bitmap.max_bits(),
                j <= lim,
                count == crate::bitmap::clear_count(disk, st, j as nat),
                count <= j,
            decreases lim - j,
        {
            proof {
                self.lemma_wf();
            }
            let set = self.data_bitmap.test(&mut self.cache, j);
            if !set {
                count = count + 1;
            }
            j = j + 1;
        }
        count
    }
}

} // verus!
