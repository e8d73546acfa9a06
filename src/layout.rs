use vstd::prelude::*;
use vstd::string::StringSliceAdditionalSpecFns;

use crate::block_cache::{splice, BlockCacheManager};
use crate::block_dev::BlockDevice;
use crate::BLOCK_SIZE;

verus! {

/// Number of block ids held directly in a disk inode.
pub const INODE_DIRECT_COUNT: usize = 28;

/// Number of block ids held by one index block.
pub const INODE_INDIRECT1_COUNT: usize = 128;

/// Number of data blocks reachable through the doubly indirect index.
pub const INODE_INDIRECT2_COUNT: usize = 16384;

/// First data-block index served by the singly indirect block.
pub const DIRECT_BOUND: usize = 28;

/// First data-block index served by the doubly indirect block.
pub const INDIRECT1_BOUND: usize = 156;

/// Largest number of data blocks that one inode can address.
pub const MAX_DATA_BLOCKS: usize = 16540;

/// Number of data blocks that hold `size` bytes.
pub open spec fn data_blocks_of(size: nat) -> nat {
    (size + 511) / 512
}

/// Number of blocks (data and index) that an inode of `size` bytes occupies.
pub open spec fn total_blocks_of(size: nat) -> nat {
    let d = data_blocks_of(size);
    let with_ind1: nat = if d > 28 { d + 1 } else { d };
    if d > 156 {
        with_ind1 + 1 + ((d - 29) as nat) / 128
    } else {
        with_ind1
    }
}

pub proof fn lemma_data_blocks_monotonic(a: nat, b: nat)
    requires
        a <= b,
    ensures
        data_blocks_of(a) <= data_blocks_of(b),
{
    assert((a + 511) / 512 <= (b + 511) / 512) by (nonlinear_arith)
        requires
            a <= b,
    ;
}

pub proof fn lemma_total_blocks_monotonic(a: nat, b: nat)
    requires
        a <= b,
    ensures
        total_blocks_of(a) <= total_blocks_of(b),
{
    lemma_data_blocks_monotonic(a, b);
    let da = data_blocks_of(a);
    let db = data_blocks_of(b);
    if da > 156 {
        assert((da - 29) as nat / 128 <= (db - 29) as nat / 128) by (nonlinear_arith)
            requires
                da <= db,
                da > 156,
        ;
    }
}

/// Bound on the block count of any inode whose size fits in a `u32`.
pub proof fn lemma_total_blocks_bound(size: nat)
    requires
        size <= u32::MAX,
    ensures
        data_blocks_of(size) <= 8388608,
        total_blocks_of(size) <= 8454147,
{
    assert((size + 511) / 512 <= 8388608) by (nonlinear_arith)
        requires
            size <= 4294967295,
    ;
    let d = data_blocks_of(size);
    if d > 156 {
        assert((d - 29) as nat / 128 <= 65536) by (nonlinear_arith)
            requires
                d <= 8388608,
                d > 156,
        ;
    }
}

/// Magic number that marks a formatted device.
pub const EFS_MAGIC: u32 = 0x3b800001;

/// Bytes of one disk inode on the device.
pub const DISK_INODE_SIZE: usize = 128;

/// Bytes of one directory entry.
pub const DIRENTRY_SIZE: usize = 32;

/// Longest name that a directory entry holds.
pub const NAME_LENGTH_LIMIT: usize = 27;

/// The little-endian `u32` at `off` of `s`.
pub open spec fn u32_le(s: Seq<u8>, off: int) -> u32 {
    (s[off] as u32) | ((s[off + 1] as u32) << 8u32) | ((s[off + 2] as u32) << 16u32) | ((s[off
        + 3] as u32) << 24u32)
}

/// The four little-endian bytes of `v`.
pub open spec fn u32_bytes(v: u32) -> Seq<u8> {
    seq![
        (v & 0xffu32) as u8,
        ((v >> 8u32) & 0xffu32) as u8,
        ((v >> 16u32) & 0xffu32) as u8,
        ((v >> 24u32) & 0xffu32) as u8,
    ]
}

pub proof fn lemma_u32_round_trip(v: u32)
    ensures
        u32_le(u32_bytes(v), 0) == v,
{
    let b0 = (v & 0xffu32) as u8;
    let b1 = ((v >> 8u32) & 0xffu32) as u8;
    let b2 = ((v >> 16u32) & 0xffu32) as u8;
    let b3 = ((v >> 24u32) & 0xffu32) as u8;
    assert((b0 as u32) | ((b1 as u32) << 8u32) | ((b2 as u32) << 16u32) | ((b3 as u32) << 24u32)
        == v) by (bit_vector)
        requires
            b0 == (v & 0xffu32) as u8,
            b1 == ((v >> 8u32) & 0xffu32) as u8,
            b2 == ((v >> 16u32) & 0xffu32) as u8,
            b3 == ((v >> 24u32) & 0xffu32) as u8,
    ;
}

/// Reads the little-endian `u32` at `off` of `s`.
pub fn read_u32(s: &[u8], off: usize) -> (r: u32)
    requires
        off + 4 <= s@.len(),
    ensures
        r == u32_le(s@, off as int),
{
    (s[off] as u32) | ((s[off + 1] as u32) << 8u32) | ((s[off + 2] as u32) << 16u32) | ((s[off
        + 3] as u32) << 24u32)
}

/// Appends the four little-endian bytes of `v` to `out`.
pub fn push_u32(out: &mut Vec<u8>, v: u32)
    ensures
        final(out)@ == old(out)@ + u32_bytes(v),
{
    out.push((v & 0xffu32) as u8);
    out.push(((v >> 8u32) & 0xffu32) as u8);
    out.push(((v >> 16u32) & 0xffu32) as u8);
    out.push(((v >> 24u32) & 0xffu32) as u8);
    proof {
        assert(final(out)@ =~= old(out)@ + u32_bytes(v));
    }
}

/// Reads the `u32` at byte `off` of block `block_id` through the cache.
pub fn cache_read_u32<D: BlockDevice>(cache: &mut BlockCacheManager<D>, block_id: usize, off: usize) -> (r: u32)
    requires
        old(cache).wf(),
        block_id < old(cache).disk().len(),
        off + 4 <= BLOCK_SIZE,
    ensures
        final(cache).wf(),
        final(cache).disk() == old(cache).disk(),
        r == u32_le(old(cache).disk()[block_id as int], off as int),
{
    proof {
        cache.lemma_disk_shape();
    }
    let b = cache.read(block_id, off, 4);
    let r = read_u32(b.as_slice(), 0);
    proof {
        let blk = old(cache).disk()[block_id as int];
        assert(b@[0] == blk[off as int]);
        assert(b@[1] == blk[off + 1]);
        assert(b@[2] == blk[off + 2]);
        assert(b@[3] == blk[off + 3]);
    }
    r
}

/// Writes `v` as the `u32` at byte `off` of block `block_id` through the cache.
pub fn cache_write_u32<D: BlockDevice>(
    cache: &mut BlockCacheManager<D>,
    block_id: usize,
    off: usize,
    v: u32,
)
    requires
        old(cache).wf(),
        block_id < old(cache).disk().len(),
        off + 4 <= BLOCK_SIZE,
    ensures
        final(cache).wf(),
        final(cache).disk() == old(cache).disk().update(
            block_id as int,
            splice(old(cache).disk()[block_id as int], off as int, u32_bytes(v)),
        ),
{
    proof {
        cache.lemma_disk_shape();
    }
    let mut b: Vec<u8> = Vec::new();
    push_u32(&mut b, v);
    proof {
        assert(b@ =~= u32_bytes(v));
    }
    cache.modify(block_id, off, b.as_slice());
}

/// Reading a `u32` back where one was spliced in gives it; reading elsewhere
/// gives what was there.
pub proof fn lemma_splice_u32(s: Seq<u8>, off: int, v: u32, at: int)
    requires
        0 <= off,
        off + 4 <= s.len(),
        0 <= at,
        at + 4 <= s.len(),
        at == off || at + 4 <= off || off + 4 <= at,
    ensures
        u32_le(splice(s, off, u32_bytes(v)), at) == if at == off {
            v
        } else {
            u32_le(s, at)
        },
        splice(s, off, u32_bytes(v)).len() == s.len(),
{
    let t = splice(s, off, u32_bytes(v));
    assert(t.len() == s.len());
    if at == off {
        lemma_u32_round_trip(v);
        assert(t[at] == u32_bytes(v)[0]);
        assert(t[at + 1] == u32_bytes(v)[1]);
        assert(t[at + 2] == u32_bytes(v)[2]);
        assert(t[at + 3] == u32_bytes(v)[3]);
    } else {
        assert(t[at] == s[at]);
        assert(t[at + 1] == s[at + 1]);
        assert(t[at + 2] == s[at + 2]);
        assert(t[at + 3] == s[at + 3]);
    }
}

/// Block 0 of a formatted device: the sizes of the areas that follow it.
pub struct SuperBlock {
    pub magic: u32,
    pub total_blocks: u32,
    pub inode_bitmap_blocks: u32,
    pub inode_area_blocks: u32,
    pub data_bitmap_blocks: u32,
    pub data_area_blocks: u32,
}

impl SuperBlock {
    pub closed spec fn spec_magic(&self) -> u32 {
        self.magic
    }

    /// A super block that carries no magic number.
    pub fn empty() -> (r: Self)
        ensures
            r.spec_magic() == 0,
    {
        SuperBlock {
            magic: 0,
            total_blocks: 0,
            inode_bitmap_blocks: 0,
            inode_area_blocks: 0,
            data_bitmap_blocks: 0,
            data_area_blocks: 0,
        }
    }

    pub fn initialize(
        &mut self,
        total_blocks: u32,
        inode_bitmap_blocks: u32,
        inode_area_blocks: u32,
        data_bitmap_blocks: u32,
        data_area_blocks: u32,
    )
        ensures
            final(self).spec_magic() == EFS_MAGIC,
            final(self).total_blocks == total_blocks,
            final(self).inode_bitmap_blocks == inode_bitmap_blocks,
            final(self).inode_area_blocks == inode_area_blocks,
            final(self).data_bitmap_blocks == data_bitmap_blocks,
            final(self).data_area_blocks == data_area_blocks,
    {
        *self = SuperBlock {
            magic: EFS_MAGIC,
            total_blocks,
            inode_bitmap_blocks,
            inode_area_blocks,
            data_bitmap_blocks,
            data_area_blocks,
        };
    }

    /// The block carries the filesystem's magic number.
    pub fn is_valid(&self) -> (r: bool)
        ensures
            r == (self.spec_magic() == EFS_MAGIC),
    {
        self.magic == EFS_MAGIC
    }

    /// The 24 bytes that stand for this block on the device.
    pub fn to_bytes(&self) -> (r: Vec<u8>)
        ensures
            r@.len() == 24,
            u32_le(r@, 0) == self.spec_magic(),
            u32_le(r@, 4) == self.total_blocks,
            u32_le(r@, 8) == self.inode_bitmap_blocks,
            u32_le(r@, 12) == self.inode_area_blocks,
            u32_le(r@, 16) == self.data_bitmap_blocks,
            u32_le(r@, 20) == self.data_area_blocks,
    {
        let mut r: Vec<u8> = Vec::new();
        push_u32(&mut r, self.magic);
        push_u32(&mut r, self.total_blocks);
        push_u32(&mut r, self.inode_bitmap_blocks);
        push_u32(&mut r, self.inode_area_blocks);
        push_u32(&mut r, self.data_bitmap_blocks);
        push_u32(&mut r, self.data_area_blocks);
        proof {
            assert(r@ =~= u32_bytes(self.magic) + u32_bytes(self.total_blocks) + u32_bytes(
                self.inode_bitmap_blocks,
            ) + u32_bytes(self.inode_area_blocks) + u32_bytes(self.data_bitmap_blocks) + u32_bytes(
                self.data_area_blocks,
            ));
            assert(r@.subrange(0, 4) =~= u32_bytes(self.magic));
            assert(r@.subrange(4, 8) =~= u32_bytes(self.total_blocks));
            assert(r@.subrange(8, 12) =~= u32_bytes(self.inode_bitmap_blocks));
            assert(r@.subrange(12, 16) =~= u32_bytes(self.inode_area_blocks));
            assert(r@.subrange(16, 20) =~= u32_bytes(self.data_bitmap_blocks));
            assert(r@.subrange(20, 24) =~= u32_bytes(self.data_area_blocks));
            lemma_u32_seq(r@, 0, self.magic);
            lemma_u32_seq(r@, 4, self.total_blocks);
            lemma_u32_seq(r@, 8, self.inode_bitmap_blocks);
            lemma_u32_seq(r@, 12, self.inode_area_blocks);
            lemma_u32_seq(r@, 16, self.data_bitmap_blocks);
            lemma_u32_seq(r@, 20, self.data_area_blocks);
        }
        r
    }

    /// The super block that the bytes `s` stand for.
    pub fn from_bytes(s: &[u8]) -> (r: Self)
        requires
            s@.len() >= 24,
        ensures
            r.spec_magic() == u32_le(s@, 0),
            r.total_blocks == u32_le(s@, 4),
            r.inode_bitmap_blocks == u32_le(s@, 8),
            r.inode_area_blocks == u32_le(s@, 12),
            r.data_bitmap_blocks == u32_le(s@, 16),
            r.data_area_blocks == u32_le(s@, 20),
    {
        SuperBlock {
            magic: read_u32(s, 0),
            total_blocks: read_u32(s, 4),
            inode_bitmap_blocks: read_u32(s, 8),
            inode_area_blocks: read_u32(s, 12),
            data_bitmap_blocks: read_u32(s, 16),
            data_area_blocks: read_u32(s, 20),
        }
    }
}

/// Where `u32_bytes(v)` stands at `off` of `s`, the `u32` read there is `v`.
pub proof fn lemma_u32_seq(s: Seq<u8>, off: int, v: u32)
    requires
        0 <= off,
        off + 4 <= s.len(),
        s.subrange(off, off + 4) == u32_bytes(v),
    ensures
        u32_le(s, off) == v,
{
    lemma_u32_round_trip(v);
    assert(s[off] == s.subrange(off, off + 4)[0]);
    assert(s[off + 1] == s.subrange(off, off + 4)[1]);
    assert(s[off + 2] == s.subrange(off, off + 4)[2]);
    assert(s[off + 3] == s.subrange(off, off + 4)[3]);
}

/// Kind of object that a disk inode stands for.
#[derive(Clone, Copy, PartialEq, Eq, Structural)]
pub enum DiskInodeType {
    File,
    Directory,
}

/// An inode as it is laid out on the device: its size, 28 direct block ids,
/// one singly and one doubly indirect index block, and its kind.
#[derive(Clone, Copy)]
pub struct DiskInode {
    pub size: u32,
    pub direct: [u32; 28],
    pub indirect1: u32,
    pub indirect2: u32,
    pub type_: DiskInodeType,
}

/// No value occurs twice in `s`.
pub open spec fn no_dup(s: Seq<u32>) -> bool {
    forall|i: int, j: int| 0 <= i < s.len() && 0 <= j < s.len() && i != j ==> s[i] != s[j]
}

/// Every value of `s` is a block id in `[lo, hi)`.
pub open spec fn ids_in(s: Seq<u32>, lo: nat, hi: nat) -> bool {
    forall|i: int| 0 <= i < s.len() ==> lo <= #[trigger] s[i] < hi
}

/// `d2` differs from `d1` at most on the blocks listed in `s`.
pub open spec fn unchanged_except(d1: Seq<Seq<u8>>, d2: Seq<Seq<u8>>, s: Seq<u32>) -> bool {
    &&& d1.len() == d2.len()
    &&& forall|b: int| 0 <= b < d1.len() && !s.contains(b as u32) ==> #[trigger] d2[b] == d1[b]
}

/// Number of second-level index blocks that `n` data blocks use.
pub open spec fn l2_count(n: nat) -> nat {
    if n > 156 {
        ((n - 29) as nat) / 128
    } else {
        0
    }
}

impl DiskInode {
    /// Id of the block that holds data block `k` of the inode on `disk`.
    pub open spec fn block_at(&self, disk: Seq<Seq<u8>>, k: nat) -> u32 {
        if k < 28 {
            self.direct@[k as int]
        } else if k < 156 {
            u32_le(disk[self.indirect1 as int], 4 * (k - 28))
        } else {
            let l2 = u32_le(disk[self.indirect2 as int], (4 * (((k - 156) as nat) / 128)) as int);
            u32_le(disk[l2 as int], (4 * (((k - 156) as nat) % 128)) as int)
        }
    }

    /// Ids of the first `n` data blocks.
    pub open spec fn data_ids(&self, disk: Seq<Seq<u8>>, n: nat) -> Seq<u32> {
        Seq::new(n, |k: int| self.block_at(disk, k as nat))
    }

    /// Ids of the second-level index blocks that `n` data blocks use.
    pub open spec fn l2_ids(&self, disk: Seq<Seq<u8>>, n: nat) -> Seq<u32> {
        Seq::new(l2_count(n), |j: int| u32_le(disk[self.indirect2 as int], 4 * j))
    }

    /// Ids of the index blocks that `n` data blocks use.
    pub open spec fn index_ids(&self, disk: Seq<Seq<u8>>, n: nat) -> Seq<u32> {
        (if n > 28 {
            seq![self.indirect1]
        } else {
            Seq::<u32>::empty()
        }) + (if n > 156 {
            seq![self.indirect2] + self.l2_ids(disk, n)
        } else {
            Seq::<u32>::empty()
        })
    }

    /// Ids of every block, data and index, that `n` data blocks use.
    pub open spec fn all_ids(&self, disk: Seq<Seq<u8>>, n: nat) -> Seq<u32> {
        self.data_ids(disk, n) + self.index_ids(disk, n)
    }

    /// The first `n` data blocks are mapped: their ids and those of the index
    /// blocks are distinct blocks of `disk` at or above `lo`.
    pub open spec fn mapped(&self, disk: Seq<Seq<u8>>, n: nat, lo: nat) -> bool {
        &&& n <= MAX_DATA_BLOCKS
        &&& no_dup(self.all_ids(disk, n))
        &&& ids_in(self.all_ids(disk, n), lo, disk.len())
    }

    /// The inode is well formed on `disk`: every block its size needs is mapped.
    pub open spec fn wf(&self, disk: Seq<Seq<u8>>, lo: nat) -> bool {
        self.mapped(disk, data_blocks_of(self.size as nat), lo)
    }

    /// The bytes of the file that the inode stands for.
    pub open spec fn content(&self, disk: Seq<Seq<u8>>) -> Seq<u8> {
        Seq::new(
            self.size as nat,
            |p: int| disk[self.block_at(disk, (p / 512) as nat) as int][p % 512],
        )
    }
}

/// The blocks an inode of `size` bytes uses number `total_blocks_of(size)`.
pub proof fn lemma_all_ids_len(d: DiskInode, disk: Seq<Seq<u8>>, size: nat)
    ensures
        d.all_ids(disk, data_blocks_of(size)).len() == total_blocks_of(size),
{
    let n = data_blocks_of(size);
    if n > 156 {
        assert(((n - 29) as nat) / 128 >= 1);
    }
}

impl DiskInode {
    /// `d` is an empty inode of kind `t`.
    pub open spec fn is_empty_of(d: DiskInode, t: DiskInodeType) -> bool {
        &&& d.size == 0
        &&& d.type_ == t
        &&& forall|i: int| 0 <= i < 28 ==> d.direct@[i] == 0
        &&& d.indirect1 == 0
        &&& d.indirect2 == 0
    }

    /// Every block the inode uses lies on `disk`.
    pub open spec fn in_disk(&self, disk: Seq<Seq<u8>>) -> bool {
        &&& data_blocks_of(self.size as nat) <= MAX_DATA_BLOCKS
        &&& ids_in(self.all_ids(disk, data_blocks_of(self.size as nat)), 0, disk.len())
    }

    pub proof fn lemma_wf_in_disk(&self, disk: Seq<Seq<u8>>, lo: nat)
        requires
            self.wf(disk, lo),
        ensures
            self.in_disk(disk),
    {
    }

    /// The index blocks that the inode's size needs lie on `disk`.
    pub open spec fn index_in_disk(&self, disk: Seq<Seq<u8>>) -> bool {
        &&& data_blocks_of(self.size as nat) <= MAX_DATA_BLOCKS
        &&& ids_in(self.index_ids(disk, data_blocks_of(self.size as nat)), 0, disk.len())
    }

    pub proof fn lemma_in_disk_index(&self, disk: Seq<Seq<u8>>)
        requires
            self.in_disk(disk),
        ensures
            self.index_in_disk(disk),
    {
        let n = data_blocks_of(self.size as nat);
        let all = self.all_ids(disk, n);
        let idx = self.index_ids(disk, n);
        assert forall|i: int| 0 <= i < idx.len() implies 0 <= #[trigger] idx[i] < disk.len() by {
            assert(all[self.data_ids(disk, n).len() + i] == idx[i]);
        }
    }

    /// An empty inode of kind `type_`.
    pub fn new(type_: DiskInodeType) -> (r: Self)
        ensures
            r.size == 0,
            r.type_ == type_,
            forall|i: int| 0 <= i < 28 ==> r.direct@[i] == 0,
            r.indirect1 == 0,
            r.indirect2 == 0,
    {
        DiskInode { size: 0, direct: [0u32; 28], indirect1: 0, indirect2: 0, type_ }
    }

    /// Makes the inode empty, of kind `type_`.
    pub fn initialize(&mut self, type_: DiskInodeType)
        ensures
            final(self).size == 0,
            final(self).type_ == type_,
            forall|i: int| 0 <= i < 28 ==> final(self).direct@[i] == 0,
            final(self).indirect1 == 0,
            final(self).indirect2 == 0,
    {
        *self = DiskInode::new(type_);
    }

    pub fn is_dir(&self) -> (r: bool)
        ensures
            r == (self.type_ == DiskInodeType::Directory),
    {
        self.type_ == DiskInodeType::Directory
    }

    pub fn is_file(&self) -> (r: bool)
        ensures
            r == (self.type_ == DiskInodeType::File),
    {
        self.type_ == DiskInodeType::File
    }

    fn _data_blocks(size: u32) -> (r: u32)
        ensures
            r == data_blocks_of(size as nat),
    {
        ((size as u64 + 511) / 512) as u32
    }

    /// Number of data blocks that the inode's bytes fill.
    pub fn data_blocks(&self) -> (r: u32)
        ensures
            r == data_blocks_of(self.size as nat),
    {
        Self::_data_blocks(self.size)
    }

    /// Number of blocks, data and index, that `size` bytes occupy.
    pub fn total_blocks(size: u32) -> (r: u32)
        ensures
            r == total_blocks_of(size as nat),
    {
        proof {
            lemma_total_blocks_bound(size as nat);
        }
        let data_blocks = Self::_data_blocks(size) as u64;
        let mut total: u64 = data_blocks;
        if data_blocks > INODE_DIRECT_COUNT as u64 {
            total = total + 1;
        }
        if data_blocks > (INODE_DIRECT_COUNT + INODE_INDIRECT1_COUNT) as u64 {
            total = total + 1;
            total = total + (data_blocks - INODE_DIRECT_COUNT as u64 - 1) / INODE_INDIRECT1_COUNT as u64;
        }
        total as u32
    }

    /// Number of blocks that growing the inode to `new_size` bytes takes.
    pub fn blocks_num_needed(&self, new_size: u32) -> (r: u32)
        requires
            new_size >= self.size,
        ensures
            r == total_blocks_of(new_size as nat) - total_blocks_of(self.size as nat),
    {
        proof {
            lemma_total_blocks_monotonic(self.size as nat, new_size as nat);
        }
        Self::total_blocks(new_size) - Self::total_blocks(self.size)
    }

    /// Id of the block that holds data block `inner_id`.
    pub fn get_block_id<D: BlockDevice>(&self, inner_id: u32, cache: &mut BlockCacheManager<D>) -> (r: u32)
        requires
            old(cache).wf(),
            self.index_in_disk(old(cache).disk()),
            inner_id < data_blocks_of(self.size as nat),
        ensures
            final(cache).wf(),
            final(cache).disk() == old(cache).disk(),
            r == self.block_at(old(cache).disk(), inner_id as nat),
    {
        let ghost disk = cache.disk();
        let ghost n = data_blocks_of(self.size as nat);
        let ghost all = self.index_ids(disk, n);
        let ghost dn = Seq::<u32>::empty();
        let inner: usize = inner_id as usize;
        if inner < INODE_DIRECT_COUNT {
            return self.direct[inner];
        }
        if inner < INDIRECT1_BOUND {
            proof {
                assert(all[dn.len() as int] == self.indirect1);
            }
            return cache_read_u32(cache, self.indirect1 as usize, 4 * (inner - INODE_DIRECT_COUNT));
        }
        let rest: usize = inner - INDIRECT1_BOUND;
        proof {
            assert(all[dn.len() as int + 1] == self.indirect2);
        }
        let l2 = cache_read_u32(cache, self.indirect2 as usize, 4 * (rest / INODE_INDIRECT1_COUNT));
        proof {
            let j = (rest / 128) as int;
            assert(rest / 128 < l2_count(n)) by (nonlinear_arith)
                requires
                    rest == inner - 156,
                    inner < n,
                    n > 156,
                    l2_count(n) == ((n - 29) as nat) / 128,
            ;
            assert(all[dn.len() as int + 2 + j] == self.l2_ids(disk, n)[j]);
        }
        cache_read_u32(cache, l2 as usize, 4 * (rest % INODE_INDIRECT1_COUNT))
    }
}

/// Number of bytes that a read of `len` bytes at `offset` gets from a file of `size` bytes.
pub open spec fn read_len(size: nat, offset: nat, len: nat) -> nat {
    if offset >= size {
        0
    } else if len < size - offset {
        len
    } else {
        (size - offset) as nat
    }
}

impl DiskInode {
    /// Copies the file's bytes from `offset` on into `buf`, as many as fit;
    /// returns how many were copied.
    pub fn read_at<D: BlockDevice>(
        &self,
        offset: usize,
        buf: &mut [u8],
        cache: &mut BlockCacheManager<D>,
    ) -> (r: usize)
        requires
            old(cache).wf(),
            self.in_disk(old(cache).disk()),
        ensures
            final(cache).wf(),
            final(cache).disk() == old(cache).disk(),
            r == read_len(self.size as nat, offset as nat, old(buf)@.len()),
            final(buf)@.len() == old(buf)@.len(),
            offset < self.size ==> final(buf)@.subrange(0, r as int) == self.content(
                old(cache).disk(),
            ).subrange(offset as int, offset + r),
            final(buf)@.subrange(r as int, old(buf)@.len() as int) == old(buf)@.subrange(
                r as int,
                old(buf)@.len() as int,
            ),
    {
        let ghost disk = cache.disk();
        let ghost content = self.content(disk);
        let size: usize = self.size as usize;
        if offset >= size {
            return 0;
        }
        let end: usize = if buf.len() < size - offset {
            offset + buf.len()
        } else {
            size
        };
        let mut current: usize = offset;
        let mut read_size: usize = 0;
        proof {
            cache.lemma_disk_shape();
            self.lemma_in_disk_index(disk);
        }
        while current < end
            invariant
                cache.wf(),
                cache.disk() == disk,
                self.in_disk(disk),
                self.index_in_disk(disk),
                content == self.content(disk),
                size == self.size,
                offset < size,
                end <= size,
                end - offset <= old(buf)@.len(),
                offset <= current <= end,
                read_size == current - offset,
                buf@.len() == old(buf)@.len(),
                buf@.subrange(0, read_size as int) == content.subrange(offset as int, current as int),
                buf@.subrange(end - offset, buf@.len() as int) == old(buf)@.subrange(
                    end - offset,
                    old(buf)@.len() as int,
                ),
            decreases end - current,
        {
            proof {
                cache.lemma_disk_shape();
            }
            let inner: usize = current / BLOCK_SIZE;
            let mut block_end: usize = (inner + 1) * BLOCK_SIZE;
            if block_end > end {
                block_end = end;
            }
            let n: usize = block_end - current;
            let in_block: usize = current % BLOCK_SIZE;
            proof {
                assert(inner < data_blocks_of(self.size as nat)) by (nonlinear_arith)
                    requires
                        inner == current / 512,
                        current < size,
                        size == self.size,
                        data_blocks_of(self.size as nat) == (self.size + 511) / 512,
                ;
                assert(in_block + n <= 512) by (nonlinear_arith)
                    requires
                        inner == current / 512,
                        in_block == current % 512,
                        block_end <= (inner + 1) * 512,
                        n == block_end - current,
                ;
            }
            let bid = self.get_block_id(inner as u32, cache);
            proof {
                let all = self.all_ids(disk, data_blocks_of(self.size as nat));
                assert(all[inner as int] == bid);
            }
            let chunk = cache.read(bid as usize, in_block, n);
            let ghost before = buf@;
            let blen: usize = buf.len();
            let mut i: usize = 0;
            while i < n
                invariant
                    blen == buf@.len(),
                    chunk@.len() == n,
                    buf@.len() == before.len(),
                    read_size + n <= buf@.len(),
                    i <= n,
                    forall|k: int| 0 <= k < i ==> buf@[read_size + k] == chunk@[k],
                    forall|k: int|
                        0 <= k < buf@.len() && !(read_size <= k < read_size + i) ==> buf@[k]
                            == before[k],
                decreases n - i,
            {
                buf[read_size + i] = chunk[i];
                i = i + 1;
            }
            proof {
                assert forall|k: int| 0 <= k < read_size + n implies buf@[k] == content[offset + k] by {
                    if k < read_size {
                        assert(buf@[k] == before[k]);
                        assert(before[k] == before.subrange(0, read_size as int)[k]);
                    } else {
                        let p = offset + k;
                        let q = k - read_size;
                        assert(p / 512 == inner && p % 512 == in_block + q) by (nonlinear_arith)
                            requires
                                p == current + q,
                                0 <= q < n,
                                inner == current / 512,
                                in_block == current % 512,
                                in_block + n <= 512,
                        ;
                        assert(chunk@[q] == disk[bid as int][in_block + q]);
                    }
                }
                assert(buf@.subrange(0, (read_size + n) as int) =~= content.subrange(
                    offset as int,
                    (current + n) as int,
                ));
                assert forall|k: int| end - offset <= k < buf@.len() implies buf@[k] == before[k] by {}
                assert(buf@.subrange(end - offset, buf@.len() as int) =~= before.subrange(
                    end - offset,
                    before.len() as int,
                ));
            }
            read_size = read_size + n;
            current = block_end;
        }
        read_size
    }
}

impl DiskInode {
    /// Rewriting one of the inode's data blocks leaves all its block ids as they were.
    pub proof fn lemma_ids_stable(&self, disk: Seq<Seq<u8>>, n: nat, k: nat, x: Seq<u8>)
        requires
            self.mapped(disk, n, 0),
            k < n,
        ensures
            self.all_ids(disk.update(self.block_at(disk, k) as int, x), n) == self.all_ids(disk, n),
            self.data_ids(disk.update(self.block_at(disk, k) as int, x), n) == self.data_ids(disk, n),
            forall|i: nat| i < n ==> #[trigger] self.block_at(disk.update(self.block_at(disk, k) as int, x), i)
                == self.block_at(disk, i),
    {
        let b = self.block_at(disk, k);
        let disk2 = disk.update(b as int, x);
        let all = self.all_ids(disk, n);
        let dn = self.data_ids(disk, n);
        assert(all[k as int] == b);
        if n > 28 {
            assert(all[dn.len() as int] == self.indirect1);
            assert(disk2[self.indirect1 as int] == disk[self.indirect1 as int]);
        }
        if n > 156 {
            assert(all[dn.len() as int + 1] == self.indirect2);
            assert(disk2[self.indirect2 as int] == disk[self.indirect2 as int]);
        }
        assert forall|i: nat| i < n implies #[trigger] self.block_at(disk2, i) == self.block_at(disk, i) by {
            if i >= 156 {
                let j = ((i - 156) as nat / 128) as int;
                assert(j < l2_count(n)) by (nonlinear_arith)
                    requires
                        j == (i - 156) as nat / 128,
                        i < n,
                        n > 156,
                        l2_count(n) == ((n - 29) as nat) / 128,
                        i >= 156,
                ;
                assert(all[dn.len() as int + 2 + j] == self.l2_ids(disk, n)[j]);
            }
        }
        assert(self.data_ids(disk2, n) =~= dn);
        assert(self.l2_ids(disk2, n) =~= self.l2_ids(disk, n));
        assert(self.index_ids(disk2, n) =~= self.index_ids(disk, n));
    }

    /// Overwrites the file's bytes from `offset` on with `buf`; the file must
    /// already be long enough. Returns the number of bytes written.
    pub fn write_at<D: BlockDevice>(
        &self,
        offset: usize,
        buf: &[u8],
        cache: &mut BlockCacheManager<D>,
    ) -> (r: usize)
        requires
            old(cache).wf(),
            self.wf(old(cache).disk(), 0),
            offset + buf@.len() <= self.size,
        ensures
            final(cache).wf(),
            r == buf@.len(),
            self.content(final(cache).disk()) == splice(self.content(old(cache).disk()), offset as int, buf@),
            self.all_ids(final(cache).disk(), data_blocks_of(self.size as nat)) == self.all_ids(
                old(cache).disk(),
                data_blocks_of(self.size as nat),
            ),
            unchanged_except(
                old(cache).disk(),
                final(cache).disk(),
                self.data_ids(old(cache).disk(), data_blocks_of(self.size as nat)),
            ),
    {
        let ghost disk0 = cache.disk();
        let ghost n = data_blocks_of(self.size as nat);
        let ghost content0 = self.content(disk0);
        let ghost all0 = self.all_ids(disk0, n);
        let ghost data0 = self.data_ids(disk0, n);
        let end: usize = offset + buf.len();
        let mut current: usize = offset;
        let mut written: usize = 0;
        proof {
            assert(content0.subrange(0, offset as int) + buf@.subrange(0, 0) + content0.subrange(
                offset as int,
                self.size as int,
            ) =~= content0);
        }
        while current < end
            invariant
                cache.wf(),
                self.mapped(cache.disk(), n, 0),
                n == data_blocks_of(self.size as nat),
                self.all_ids(cache.disk(), n) == all0,
                self.data_ids(cache.disk(), n) == data0,
                content0 == self.content(disk0),
                data0 == self.data_ids(disk0, n),
                all0 == self.all_ids(disk0, n),
                unchanged_except(disk0, cache.disk(), data0),
                end == offset + buf@.len(),
                end <= self.size,
                offset <= current <= end,
                written == current - offset,
                self.content(cache.disk()) == content0.subrange(0, offset as int) + buf@.subrange(
                    0,
                    written as int,
                ) + content0.subrange(current as int, self.size as int),
            decreases end - current,
        {
            proof {
                cache.lemma_disk_shape();
            }
            let ghost disk1 = cache.disk();
            let inner: usize = current / BLOCK_SIZE;
            let mut block_end: usize = (inner + 1) * BLOCK_SIZE;
            if block_end > end {
                block_end = end;
            }
            let n_bytes: usize = block_end - current;
            let in_block: usize = current % BLOCK_SIZE;
            proof {
                assert(inner < n) by (nonlinear_arith)
                    requires
                        inner == current / 512,
                        current < self.size,
                        n == (self.size + 511) / 512,
                ;
                assert(in_block + n_bytes <= 512) by (nonlinear_arith)
                    requires
                        inner == current / 512,
                        in_block == current % 512,
                        block_end <= (inner + 1) * 512,
                        n_bytes == block_end - current,
                ;
                self.lemma_wf_in_disk(disk1, 0);
                self.lemma_in_disk_index(disk1);
            }
            let bid = self.get_block_id(inner as u32, cache);
            let chunk = slice_range(buf, written, written + n_bytes);
            proof {
                assert(self.all_ids(disk1, n)[inner as int] == bid);
            }
            cache.modify(bid as usize, in_block, chunk);
            proof {
                let disk2 = cache.disk();
                let newblk = splice(disk1[bid as int], in_block as int, chunk@);
                self.lemma_ids_stable(disk1, n, inner as nat, newblk);
                assert(data0[inner as int] == bid);
                assert forall|b: int| 0 <= b < disk0.len() && !data0.contains(b as u32) implies #[trigger] disk2[b]
                    == disk0[b] by {
                    if b == bid {
                        assert(data0.contains(bid));
                    }
                }
                let c1 = self.content(disk1);
                let c2 = self.content(disk2);
                let target = content0.subrange(0, offset as int) + buf@.subrange(0, (written + n_bytes) as int)
                    + content0.subrange(block_end as int, self.size as int);
                let pa = content0.subrange(0, offset as int);
                let pb = buf@.subrange(0, written as int);
                let pc = content0.subrange(current as int, self.size as int);
                let prev = pa + pb + pc;
                let tb = buf@.subrange(0, (written + n_bytes) as int);
                let tc = content0.subrange(block_end as int, self.size as int);
                assert(content0.len() == self.size);
                assert(pa.len() == offset);
                assert(pb.len() == written);
                assert(tb.len() == written + n_bytes);
                assert(target == pa + tb + tc);
                assert(c1 == prev);
                let all1 = self.all_ids(disk1, n);
                assert forall|p: int| 0 <= p < self.size implies c2[p] == target[p] by {
                    let kp = (p / 512) as nat;
                    assert(kp < n) by (nonlinear_arith)
                        requires
                            kp == p / 512,
                            0 <= p < self.size,
                            n == (self.size + 511) / 512,
                    ;
                    assert(self.block_at(disk2, kp) == self.block_at(disk1, kp));
                    assert(c2[p] == disk2[self.block_at(disk1, kp) as int][p % 512]);
                    assert(c1[p] == disk1[self.block_at(disk1, kp) as int][p % 512]);
                    if current <= p < block_end {
                        let q = p - current;
                        assert(p / 512 == inner && p % 512 == in_block + q) by (nonlinear_arith)
                            requires
                                p == current + q,
                                0 <= q < n_bytes,
                                inner == current / 512,
                                in_block == current % 512,
                                in_block + n_bytes <= 512,
                        ;
                        assert(chunk@[q] == buf@[written + q]);
                        assert((pa + tb)[p] == tb[p - offset]);
                        assert(target[p] == buf@[written + q]);
                        assert(disk2[bid as int] == newblk);
                        assert(newblk[in_block + q] == chunk@[q]);
                    } else {
                        if p < offset {
                            assert(target[p] == pa[p]);
                            assert(prev[p] == pa[p]);
                        } else if p < current {
                            assert((pa + tb)[p] == tb[p - offset]);
                            assert((pa + pb)[p] == pb[p - offset]);
                        } else {
                            assert(target[p] == tc[p - block_end]);
                            assert(prev[p] == pc[p - current]);
                        }
                        assert(target[p] == prev[p]);
                        assert(all1[kp as int] == self.block_at(disk1, kp));
                        assert(all1[kp as int] < disk1.len());
                        if self.block_at(disk1, kp) == bid {
                            assert(all1[kp as int] == self.block_at(disk1, kp));
                            assert(all1[inner as int] == bid);
                            assert(kp == inner);
                            assert(p / 512 == current / 512);
                            if p < current {
                                assert(p % 512 < in_block) by (nonlinear_arith)
                                    requires
                                        p / 512 == current / 512,
                                        p < current,
                                        in_block == current % 512,
                                        0 <= p,
                                ;
                            } else {
                                assert(p % 512 >= in_block + n_bytes) by (nonlinear_arith)
                                    requires
                                        p / 512 == current / 512,
                                        p >= block_end,
                                        in_block == current % 512,
                                        n_bytes == block_end - current,
                                ;
                            }
                            assert(newblk[p % 512] == disk1[bid as int][p % 512]);
                        } else {
                            assert(disk2[self.block_at(disk1, kp) as int] == disk1[self.block_at(disk1, kp) as int]);
                        }
                    }
                }
                assert(c2 =~= target);
            }
            written = written + n_bytes;
            current = block_end;
        }
        proof {
            assert(buf@.subrange(0, written as int) =~= buf@);
            assert(self.content(cache.disk()) =~= splice(content0, offset as int, buf@));
        }
        written
    }
}

/// The bytes of `s` from `lo` to `hi`.
pub fn slice_range(s: &[u8], lo: usize, hi: usize) -> (r: &[u8])
    requires
        lo <= hi <= s@.len(),
    ensures
        r@ == s@.subrange(lo as int, hi as int),
{
    vstd::slice::slice_subrange(s, lo, hi)
}

/// Number of fresh blocks that mapping data block `n` takes: the data block
/// itself and the index blocks that it is the first to need.
pub open spec fn step_need(n: nat) -> nat {
    if n < 28 {
        1
    } else if n == 28 {
        2
    } else if n < 156 {
        1
    } else if n == 156 {
        3
    } else if (n - 156) as nat % 128 == 0 {
        2
    } else {
        1
    }
}

/// Number of blocks, data and index, that `n` data blocks use.
pub open spec fn used_count(n: nat) -> nat {
    n + (if n > 28 {
        1nat
    } else {
        0nat
    }) + (if n > 156 {
        1 + l2_count(n)
    } else {
        0nat
    })
}

pub proof fn lemma_used_count(d: DiskInode, disk: Seq<Seq<u8>>, n: nat)
    ensures
        d.all_ids(disk, n).len() == used_count(n),
        used_count(n + 1) == used_count(n) + step_need(n),
        used_count(data_blocks_of(n * 512)) == total_blocks_of(n * 512),
        forall|size: nat| #[trigger] total_blocks_of(size) == used_count(data_blocks_of(size)),
{
    if n > 156 {
        assert(((n - 28) as nat) / 128 == ((n - 29) as nat) / 128 + (if (n - 156) as nat % 128 == 0 {
            1nat
        } else {
            0nat
        })) by (nonlinear_arith)
            requires
                n > 156,
        ;
    }
    assert(data_blocks_of(n * 512) == n) by (nonlinear_arith);
    assert forall|size: nat| #[trigger] total_blocks_of(size) == used_count(data_blocks_of(size)) by {
        let m = data_blocks_of(size);
        if m > 156 {
            assert(((m - 29) as nat) / 128 >= 1);
        }
    }
}

/// Inserting the last of `p` after `d` and the rest of `p` after `i` keeps the
/// values distinct when `p` is distinct and shares no value with `d + i`.
pub proof fn lemma_no_dup_insert(d: Seq<u32>, i: Seq<u32>, p: Seq<u32>, lo: nat, hi: nat)
    requires
        no_dup(d + i),
        no_dup(p),
        p.len() >= 1,
        forall|k: int| 0 <= k < p.len() ==> !(d + i).contains(#[trigger] p[k]),
        ids_in(d + i, lo, hi),
        ids_in(p, lo, hi),
    ensures
        no_dup(d + seq![p.last()] + i + p.drop_last()),
        ids_in(d + seq![p.last()] + i + p.drop_last(), lo, hi),
{
    let r = d + seq![p.last()] + i + p.drop_last();
    let old_s = d + i;
    let dl = d.len() as int;
    let il = i.len() as int;
    let pl = p.len() as int;
    assert(r.len() == old_s.len() + pl);
    // position of r[t] in `old_s` (when from_old) or in `p`
    assert forall|t: int| 0 <= t < r.len() implies {
        ||| (t < dl && r[t] == old_s[t])
        ||| (t == dl && r[t] == p[pl - 1])
        ||| (dl < t <= dl + il && r[t] == old_s[t - 1])
        ||| (dl + il < t && r[t] == p[t - dl - il - 1])
    } by {
        if t < dl {
            assert(r[t] == d[t]);
        } else if t == dl {
        } else if t <= dl + il {
            assert(r[t] == i[t - dl - 1]);
        } else {
            assert(r[t] == p.drop_last()[t - dl - il - 1]);
        }
    }
    assert forall|a: int, b: int| 0 <= a < r.len() && 0 <= b < r.len() && a != b implies r[a] != r[b] by {
        if r[a] == r[b] {
            if a < dl || (dl < a <= dl + il) {
                let ia = if a < dl { a } else { a - 1 };
                assert(old_s[ia] == r[a]);
                if b < dl || (dl < b <= dl + il) {
                    let ib = if b < dl { b } else { b - 1 };
                    assert(old_s[ib] == r[b]);
                } else {
                    let jb = if b == dl { pl - 1 } else { b - dl - il - 1 };
                    assert(p[jb] == r[b]);
                    assert(old_s.contains(p[jb]));
                }
            } else {
                let ja = if a == dl { pl - 1 } else { a - dl - il - 1 };
                assert(p[ja] == r[a]);
                if b < dl || (dl < b <= dl + il) {
                    let ib = if b < dl { b } else { b - 1 };
                    assert(old_s[ib] == r[b]);
                    assert(old_s.contains(p[ja]));
                } else {
                    let jb = if b == dl { pl - 1 } else { b - dl - il - 1 };
                    assert(p[jb] == r[b]);
                }
            }
        }
    }
    assert forall|t: int| 0 <= t < r.len() implies lo <= #[trigger] r[t] < hi by {
        if t < dl {
            assert(r[t] == old_s[t]);
        } else if t == dl {
            assert(r[t] == p[pl - 1]);
        } else if t <= dl + il {
            assert(r[t] == old_s[t - 1]);
        } else {
            assert(r[t] == p[t - dl - il - 1]);
        }
    }
}

impl DiskInode {
    /// Maps data block `n` to a block taken from `pool` at `pos`, taking the
    /// index blocks that it is the first to need from `pool` before it.
    /// Returns the position in `pool` after the blocks taken.
    fn map_next_block<D: BlockDevice>(
        &mut self,
        n: usize,
        pool: &Vec<u32>,
        pos: usize,
        cache: &mut BlockCacheManager<D>,
    ) -> (next: usize)
        requires
            old(cache).wf(),
            old(self).mapped(old(cache).disk(), n as nat, 0),
            n < MAX_DATA_BLOCKS,
            pos + step_need(n as nat) <= pool@.len(),
            no_dup(pool@),
            ids_in(pool@, 0, old(cache).disk().len()),
            forall|i: int|
                pos <= i < pool@.len() ==> !old(self).all_ids(old(cache).disk(), n as nat).contains(
                    #[trigger] pool@[i],
                ),
        ensures
            final(cache).wf(),
            next == pos + step_need(n as nat),
            final(self).size == old(self).size,
            final(self).type_ == old(self).type_,
            forall|k: nat|
                k < n ==> #[trigger] final(self).block_at(final(cache).disk(), k) == old(self).block_at(
                    old(cache).disk(),
                    k,
                ),
            final(self).block_at(final(cache).disk(), n as nat) == pool@[next - 1],
            final(self).index_ids(final(cache).disk(), (n + 1) as nat) == old(self).index_ids(
                old(cache).disk(),
                n as nat,
            ) + pool@.subrange(pos as int, next - 1),
            unchanged_except(
                old(cache).disk(),
                final(cache).disk(),
                final(self).index_ids(final(cache).disk(), (n + 1) as nat),
            ),
    {
        let ghost disk = cache.disk();
        let ghost all = self.all_ids(disk, n as nat);
        let ghost dn = self.data_ids(disk, n as nat);
        let _pool_len: usize = pool.len();
        proof {
            cache.lemma_disk_shape();
        }
        if n < INODE_DIRECT_COUNT {
            let b = pool[pos];
            self.direct[n] = b;
            proof {
                assert(self.index_ids(disk, (n + 1) as nat) =~= old(self).index_ids(disk, n as nat) + pool@.subrange(
                    pos as int,
                    pos as int,
                ));
            }
            return pos + 1;
        }
        if n == INODE_DIRECT_COUNT {
            let x = pool[pos];
            let b = pool[pos + 1];
            proof {
                assert(x < disk.len());
            }
            self.indirect1 = x;
            cache_write_u32(cache, x as usize, 0, b);
            proof {
                let d2 = cache.disk();
                lemma_splice_u32(disk[x as int], 0, b, 0);
                assert(self.block_at(d2, n as nat) == b);
                assert forall|k: nat| k < n implies #[trigger] self.block_at(d2, k) == old(self).block_at(disk, k) by {}
                assert(self.index_ids(d2, (n + 1) as nat) =~= old(self).index_ids(disk, n as nat) + pool@.subrange(
                    pos as int,
                    pos + 1,
                ));
                assert forall|q: int| 0 <= q < disk.len() && !self.index_ids(d2, (n + 1) as nat).contains(q as u32) implies #[trigger] d2[q] == disk[q] by {
                    if q == x {
                        assert(self.index_ids(d2, (n + 1) as nat)[0] == x);
                    }
                }
            }
            return pos + 2;
        }
        if n < INDIRECT1_BOUND {
            let b = pool[pos];
            let ind1 = self.indirect1;
            proof {
                assert(all[dn.len() as int] == ind1);
            }
            cache_write_u32(cache, ind1 as usize, 4 * (n - INODE_DIRECT_COUNT), b);
            proof {
                let d2 = cache.disk();
                lemma_splice_u32(disk[ind1 as int], 4 * (n - 28), b, 4 * (n - 28));
                assert forall|k: nat| k < n implies #[trigger] self.block_at(d2, k) == old(self).block_at(disk, k) by {
                    if k >= 28 {
                        lemma_splice_u32(disk[ind1 as int], 4 * (n - 28), b, 4 * (k - 28));
                    }
                }
                assert(self.index_ids(d2, (n + 1) as nat) =~= old(self).index_ids(disk, n as nat) + pool@.subrange(
                    pos as int,
                    pos as int,
                ));
                assert forall|q: int| 0 <= q < disk.len() && !self.index_ids(d2, (n + 1) as nat).contains(q as u32) implies #[trigger] d2[q] == disk[q] by {
                    if q == ind1 {
                        assert(self.index_ids(d2, (n + 1) as nat)[0] == ind1);
                    }
                }
            }
            return pos + 1;
        }
        let ghost l2s = self.l2_ids(disk, n as nat);
        if n == INDIRECT1_BOUND {
            let y = pool[pos];
            let z = pool[pos + 1];
            let b = pool[pos + 2];
            let ind1 = self.indirect1;
            proof {
                assert(all[dn.len() as int] == ind1);
                assert(y != z);
                assert(!all.contains(y));
                assert(!all.contains(z));
                assert(y < disk.len() && z < disk.len());
            }
            self.indirect2 = y;
            cache_write_u32(cache, y as usize, 0, z);
            let ghost d1 = cache.disk();
            cache_write_u32(cache, z as usize, 0, b);
            proof {
                let d2 = cache.disk();
                lemma_splice_u32(disk[y as int], 0, z, 0);
                lemma_splice_u32(d1[z as int], 0, b, 0);
                assert(d2[ind1 as int] == disk[ind1 as int]);
                assert(d2[y as int] == d1[y as int]);
                assert(u32_le(d2[y as int], 0) == z);
                assert(self.block_at(d2, n as nat) == b);
                assert forall|k: nat| k < n implies #[trigger] self.block_at(d2, k) == old(self).block_at(disk, k) by {}
                assert(self.l2_ids(d2, (n + 1) as nat) =~= seq![z]);
                assert(self.index_ids(d2, (n + 1) as nat) =~= old(self).index_ids(disk, n as nat) + pool@.subrange(
                    pos as int,
                    pos + 2,
                ));
                let idx2 = self.index_ids(d2, (n + 1) as nat);
                assert(idx2[1] == y && idx2[2] == z);
                assert forall|q: int| 0 <= q < disk.len() && !idx2.contains(q as u32) implies #[trigger] d2[q] == disk[q] by {
                    if q == y {
                        assert(idx2.contains(y));
                    }
                    if q == z {
                        assert(idx2.contains(z));
                    }
                }
            }
            return pos + 3;
        }
        let ind1 = self.indirect1;
        let ind2 = self.indirect2;
        let rest: usize = n - INDIRECT1_BOUND;
        let j: usize = rest / INODE_INDIRECT1_COUNT;
        let off: usize = rest % INODE_INDIRECT1_COUNT;
        proof {
            assert(all[dn.len() as int] == ind1);
            assert(all[dn.len() as int + 1] == ind2);
            assert(j < 128) by (nonlinear_arith)
                requires
                    j == rest / 128,
                    rest == n - 156,
                    n < 16540,
            ;
            assert forall|t: int| 0 <= t < l2s.len() implies all[dn.len() as int + 2 + t] == #[trigger] l2s[t] by {}
        }
        if off == 0 {
            let z = pool[pos];
            let b = pool[pos + 1];
            proof {
                assert(z < disk.len());
                assert(!all.contains(z));
                assert(j == l2_count(n as nat)) by (nonlinear_arith)
                    requires
                        j == rest / 128,
                        rest == n - 156,
                        rest % 128 == 0,
                        n > 156,
                        l2_count(n as nat) == ((n - 29) as nat) / 128,
                ;
            }
            cache_write_u32(cache, ind2 as usize, 4 * j, z);
            let ghost d1 = cache.disk();
            cache_write_u32(cache, z as usize, 0, b);
            proof {
                let d2 = cache.disk();
                lemma_splice_u32(disk[ind2 as int], 4 * j, z, 4 * j);
                lemma_splice_u32(d1[z as int], 0, b, 0);
                assert(d2[ind1 as int] == disk[ind1 as int]);
                assert(d2[ind2 as int] == d1[ind2 as int]);
                assert forall|t: int| 0 <= t < j implies u32_le(d2[ind2 as int], 4 * t) == #[trigger] l2s[t] by {
                    lemma_splice_u32(disk[ind2 as int], 4 * j, z, 4 * t);
                }
                assert(self.block_at(d2, n as nat) == b) by {
                    assert(((n - 156) as nat) / 128 == j);
                    assert(((n - 156) as nat) % 128 == 0);
                }
                assert forall|k: nat| k < n implies #[trigger] self.block_at(d2, k) == old(self).block_at(disk, k) by {
                    if k >= 156 {
                        let jk = ((k - 156) as nat / 128) as int;
                        assert(jk < j) by (nonlinear_arith)
                            requires
                                jk == (k - 156) as nat / 128,
                                k < n,
                                k >= 156,
                                j == (n - 156) / 128,
                                (n - 156) % 128 == 0,
                        ;
                        let l = l2s[jk];
                        assert(all[dn.len() as int + 2 + jk] == l);
                        assert(l != z);
                        assert(l != ind2);
                        assert(d2[l as int] == disk[l as int]);
                    }
                }
                assert(self.l2_ids(d2, (n + 1) as nat) =~= l2s + seq![z]) by {
                    assert(l2_count((n + 1) as nat) == j + 1) by (nonlinear_arith)
                        requires
                            j == (n - 156) / 128,
                            (n - 156) % 128 == 0,
                            n > 156,
                            l2_count((n + 1) as nat) == ((n + 1 - 29) as nat) / 128,
                    ;
                }
                assert(self.index_ids(d2, (n + 1) as nat) =~= old(self).index_ids(disk, n as nat) + pool@.subrange(
                    pos as int,
                    pos + 1,
                ));
                let idx2 = self.index_ids(d2, (n + 1) as nat);
                assert(idx2[1] == ind2);
                assert(idx2[idx2.len() - 1] == z);
                assert forall|q: int| 0 <= q < disk.len() && !idx2.contains(q as u32) implies #[trigger] d2[q] == disk[q] by {
                    if q == ind2 {
                        assert(idx2.contains(ind2));
                    }
                    if q == z {
                        assert(idx2.contains(z));
                    }
                }
            }
            return pos + 2;
        }
        let b = pool[pos];
        proof {
            assert(j < l2_count(n as nat)) by (nonlinear_arith)
                requires
                    j == rest / 128,
                    off == rest % 128,
                    off != 0,
                    rest == n - 156,
                    l2_count(n as nat) == ((n - 29) as nat) / 128,
            ;
            assert(all[dn.len() as int + 2 + j] == l2s[j as int]);
        }
        let l2 = cache_read_u32(cache, ind2 as usize, 4 * j);
        proof {
            assert(l2 == l2s[j as int]);
            assert(l2 != ind1 && l2 != ind2);
        }
        cache_write_u32(cache, l2 as usize, 4 * off, b);
        proof {
            let d2 = cache.disk();
            lemma_splice_u32(disk[l2 as int], 4 * off, b, 4 * off);
            assert(d2[ind1 as int] == disk[ind1 as int]);
            assert(d2[ind2 as int] == disk[ind2 as int]);
            assert(self.block_at(d2, n as nat) == b);
            assert forall|k: nat| k < n implies #[trigger] self.block_at(d2, k) == old(self).block_at(disk, k) by {
                if k >= 156 {
                    let jk = ((k - 156) as nat / 128) as int;
                    let ok = ((k - 156) as nat % 128) as int;
                    assert(jk <= j) by (nonlinear_arith)
                        requires
                            jk == (k - 156) as nat / 128,
                            k < n,
                            k >= 156,
                            j == (n - 156) / 128,
                    ;
                    assert(jk < l2_count(n as nat)) by (nonlinear_arith)
                        requires
                            jk <= j,
                            j < l2_count(n as nat),
                    ;
                    let l = l2s[jk];
                    assert(all[dn.len() as int + 2 + jk] == l);
                    if jk == j {
                        assert(ok < off) by (nonlinear_arith)
                            requires
                                jk == (k - 156) as nat / 128,
                                ok == (k - 156) as nat % 128,
                                jk == j,
                                j == (n - 156) / 128,
                                off == (n - 156) % 128,
                                k < n,
                                k >= 156,
                        ;
                        lemma_splice_u32(disk[l2 as int], 4 * off, b, 4 * ok);
                    } else {
                        assert(l != l2);
                    }
                }
            }
            assert(self.l2_ids(d2, (n + 1) as nat) =~= l2s) by {
                assert(l2_count((n + 1) as nat) == l2_count(n as nat)) by (nonlinear_arith)
                    requires
                        off == (n - 156) % 128,
                        off != 0,
                        n > 156,
                        l2_count((n + 1) as nat) == ((n + 1 - 29) as nat) / 128,
                        l2_count(n as nat) == ((n - 29) as nat) / 128,
                ;
            }
            assert(self.index_ids(d2, (n + 1) as nat) =~= old(self).index_ids(disk, n as nat) + pool@.subrange(
                pos as int,
                pos as int,
            ));
            let idx2 = self.index_ids(d2, (n + 1) as nat);
            assert(idx2[2 + j] == l2);
            assert forall|q: int| 0 <= q < disk.len() && !idx2.contains(q as u32) implies #[trigger] d2[q] == disk[q] by {
                if q == l2 {
                    assert(idx2.contains(l2));
                }
            }
        }
        pos + 1
    }
}

impl DiskInode {
    /// Grows the inode to `new_size` bytes, mapping the new data blocks and the
    /// index blocks they need to the fresh blocks of `new_blocks`, in order.
    pub fn increase_size<D: BlockDevice>(
        &mut self,
        new_size: u32,
        new_blocks: Vec<u32>,
        cache: &mut BlockCacheManager<D>,
    )
        requires
            old(cache).wf(),
            old(self).wf(old(cache).disk(), 0),
            new_size >= old(self).size,
            data_blocks_of(new_size as nat) <= MAX_DATA_BLOCKS,
            new_blocks@.len() == total_blocks_of(new_size as nat) - total_blocks_of(old(self).size as nat),
            no_dup(new_blocks@),
            ids_in(new_blocks@, 0, old(cache).disk().len()),
            forall|i: int|
                0 <= i < new_blocks@.len() ==> !old(self).all_ids(
                    old(cache).disk(),
                    data_blocks_of(old(self).size as nat),
                ).contains(#[trigger] new_blocks@[i]),
        ensures
            final(cache).wf(),
            final(self).size == new_size,
            final(self).type_ == old(self).type_,
            final(self).wf(final(cache).disk(), 0),
            forall|x: u32|
                #[trigger] final(self).all_ids(final(cache).disk(), data_blocks_of(new_size as nat)).contains(x)
                    ==> old(self).all_ids(old(cache).disk(), data_blocks_of(old(self).size as nat)).contains(x)
                    || new_blocks@.contains(x),
            final(self).content(final(cache).disk()).subrange(0, old(self).size as int) == old(self).content(
                old(cache).disk(),
            ),
            forall|k: nat|
                k < data_blocks_of(old(self).size as nat) ==> #[trigger] final(self).block_at(final(cache).disk(), k)
                    == old(self).block_at(old(cache).disk(), k),
            forall|k: nat|
                data_blocks_of(old(self).size as nat) <= k < data_blocks_of(new_size as nat)
                    ==> #[trigger] final(self).block_at(final(cache).disk(), k) == new_blocks@[used_count(k + 1)
                    - used_count(data_blocks_of(old(self).size as nat)) - 1],
            forall|i: int|
                0 <= i < new_blocks@.len() ==> final(self).all_ids(
                    final(cache).disk(),
                    data_blocks_of(new_size as nat),
                ).contains(#[trigger] new_blocks@[i]),
            unchanged_except(
                old(cache).disk(),
                final(cache).disk(),
                final(self).all_ids(final(cache).disk(), data_blocks_of(new_size as nat)),
            ),
    {
        let ghost od = cache.disk();
        let ghost n0 = data_blocks_of(self.size as nat);
        let ghost all0 = self.all_ids(od, n0);
        let ghost self0 = *self;
        let n1: usize = Self::_data_blocks(new_size) as usize;
        let mut n: usize = Self::_data_blocks(self.size) as usize;
        let mut pos: usize = 0;
        proof {
            lemma_used_count(*self, od, n as nat);
            lemma_total_blocks_monotonic(self.size as nat, new_size as nat);
            lemma_data_blocks_monotonic(self.size as nat, new_size as nat);
        }
        while n < n1
            invariant
                cache.wf(),
                n0 <= n <= n1,
                n0 == data_blocks_of(self0.size as nat),
                n1 == data_blocks_of(new_size as nat),
                n1 <= MAX_DATA_BLOCKS,
                self.mapped(cache.disk(), n as nat, 0),
                self.size == self0.size,
                self.type_ == self0.type_,
                all0 == self0.all_ids(od, n0),
                pos == used_count(n as nat) - used_count(n0),
                new_blocks@.len() == used_count(n1 as nat) - used_count(n0),
                no_dup(new_blocks@),
                ids_in(new_blocks@, 0, od.len()),
                cache.disk().len() == od.len(),
                forall|k: nat|
                    k < n0 ==> #[trigger] self.block_at(cache.disk(), k) == self0.block_at(od, k),
                forall|k: nat|
                    k < n0 ==> cache.disk()[self0.block_at(od, k) as int] == od[#[trigger] self0.block_at(od, k) as int],
                forall|x: u32|
                    #[trigger] self.all_ids(cache.disk(), n as nat).contains(x) ==> all0.contains(x)
                        || new_blocks@.subrange(0, pos as int).contains(x),
                forall|i: int|
                    pos <= i < new_blocks@.len() ==> !self.all_ids(cache.disk(), n as nat).contains(
                        #[trigger] new_blocks@[i],
                    ),
                unchanged_except(od, cache.disk(), self.all_ids(cache.disk(), n as nat)),
                forall|k: nat|
                    n0 <= k < n ==> #[trigger] self.block_at(cache.disk(), k) == new_blocks@[used_count(k + 1)
                        - used_count(n0) - 1],
                forall|i: int| 0 <= i < pos ==> self.all_ids(cache.disk(), n as nat).contains(#[trigger] new_blocks@[i]),
            decreases n1 - n,
        {
            let ghost d1 = cache.disk();
            let ghost s1 = *self;
            let ghost data1 = s1.data_ids(d1, n as nat);
            let ghost idx1 = s1.index_ids(d1, n as nat);
            proof {
                lemma_used_count(*self, d1, n as nat);
                assert(pos + step_need(n as nat) <= new_blocks@.len()) by {
                    if n + 1 < n1 {
                        lemma_used_count(*self, d1, (n + 1) as nat);
                        assert(used_count((n + 1) as nat) <= used_count(n1 as nat)) by {
                            lemma_used_monotonic((n + 1) as nat, n1 as nat);
                        }
                    }
                }
            }
            let next = self.map_next_block(n, &new_blocks, pos, cache);
            proof {
                let d2 = cache.disk();
                let s2 = *self;
                let p = new_blocks@.subrange(pos as int, next as int);
                let b = new_blocks@[next - 1];
                assert(p.last() == b);
                assert(p.drop_last() =~= new_blocks@.subrange(pos as int, next - 1));
                assert(s2.data_ids(d2, (n + 1) as nat) =~= data1 + seq![b]);
                assert(s2.all_ids(d2, (n + 1) as nat) =~= data1 + seq![p.last()] + idx1 + p.drop_last());
                assert forall|k: int| 0 <= k < p.len() implies !(data1 + idx1).contains(#[trigger] p[k]) by {
                    assert(p[k] == new_blocks@[pos + k]);
                    assert(data1 + idx1 =~= s1.all_ids(d1, n as nat));
                }
                assert(no_dup(p)) by {
                    assert forall|a: int, c: int| 0 <= a < p.len() && 0 <= c < p.len() && a != c implies p[a] != p[c] by {
                        assert(p[a] == new_blocks@[pos + a]);
                        assert(p[c] == new_blocks@[pos + c]);
                    }
                }
                assert(ids_in(p, 0, od.len())) by {
                    assert forall|k: int| 0 <= k < p.len() implies 0 <= #[trigger] p[k] < od.len() by {
                        assert(p[k] == new_blocks@[pos + k]);
                    }
                }
                assert(data1 + idx1 =~= s1.all_ids(d1, n as nat));
                lemma_no_dup_insert(data1, idx1, p, 0, od.len() as nat);
                let all2 = s2.all_ids(d2, (n + 1) as nat);
                let all1 = s1.all_ids(d1, n as nat);
                let idx2 = s2.index_ids(d2, (n + 1) as nat);
                // old data blocks keep their bytes
                assert forall|k: nat| k < n0 implies d2[self0.block_at(od, k) as int] == od[#[trigger] self0.block_at(
                    od,
                    k,
                ) as int] by {
                    let bid = self0.block_at(od, k);
                    assert(s1.block_at(d1, k) == bid);
                    assert(all1[k as int] == bid);
                    assert(!idx2.contains(bid)) by {
                        if idx2.contains(bid) {
                            let t = choose|t: int| 0 <= t < idx2.len() && idx2[t] == bid;
                            if t < idx1.len() {
                                assert(all1[data1.len() + t] == bid);
                            } else {
                                let e = t - idx1.len();
                                assert(idx2[t] == new_blocks@[pos + e]);
                                assert(all1.contains(new_blocks@[pos + e]));
                            }
                        }
                    }
                    assert(bid < d1.len());
                }
                assert forall|x: u32| #[trigger] all2.contains(x) implies all0.contains(x)
                    || new_blocks@.subrange(0, next as int).contains(x) by {
                    let t = choose|t: int| 0 <= t < all2.len() && all2[t] == x;
                    let r = data1 + seq![p.last()] + idx1 + p.drop_last();
                    assert(r[t] == x);
                    if t < data1.len() {
                        assert(all1[t] == x);
                        assert(all1.contains(x));
                        if !all0.contains(x) {
                            let u = choose|u: int| 0 <= u < pos && new_blocks@.subrange(0, pos as int)[u] == x;
                            assert(new_blocks@.subrange(0, next as int)[u] == x);
                        }
                    } else if t == data1.len() {
                        assert(new_blocks@.subrange(0, next as int)[next - 1] == x);
                    } else if t <= data1.len() + idx1.len() {
                        assert(all1[t - 1] == x);
                        assert(all1.contains(x));
                        if !all0.contains(x) {
                            let u = choose|u: int| 0 <= u < pos && new_blocks@.subrange(0, pos as int)[u] == x;
                            assert(new_blocks@.subrange(0, next as int)[u] == x);
                        }
                    } else {
                        let e = t - data1.len() - idx1.len() - 1;
                        assert(x == new_blocks@[pos + e]);
                        assert(new_blocks@.subrange(0, next as int)[pos + e] == x);
                    }
                }
                assert forall|i: int| next <= i < new_blocks@.len() implies !all2.contains(#[trigger] new_blocks@[i]) by {
                    let x = new_blocks@[i];
                    if all2.contains(x) {
                        let t = choose|t: int| 0 <= t < all2.len() && all2[t] == x;
                        let r = data1 + seq![p.last()] + idx1 + p.drop_last();
                        assert(r[t] == x);
                        if t < data1.len() {
                            assert(all1[t] == x);
                        } else if t == data1.len() {
                            assert(new_blocks@[next - 1] == x);
                        } else if t <= data1.len() + idx1.len() {
                            assert(all1[t - 1] == x);
                        } else {
                            let e = t - data1.len() - idx1.len() - 1;
                            assert(x == new_blocks@[pos + e]);
                        }
                    }
                }
                assert forall|q: int| 0 <= q < od.len() && !all2.contains(q as u32) implies #[trigger] d2[q] == od[q] by {
                    if idx2.contains(q as u32) {
                        let t = choose|t: int| 0 <= t < idx2.len() && idx2[t] == q as u32;
                        assert(all2[data1.len() + 1 + t] == q as u32);
                    }
                    if all1.contains(q as u32) {
                        let t = choose|t: int| 0 <= t < all1.len() && all1[t] == q as u32;
                        if t < data1.len() {
                            assert(all2[t] == q as u32);
                        } else {
                            assert(all2[t + 1] == q as u32);
                        }
                    }
                }
                lemma_used_count(*self, d2, n as nat);
                assert forall|k: nat| n0 <= k < n + 1 implies #[trigger] s2.block_at(d2, k) == new_blocks@[used_count(
                    k + 1,
                ) - used_count(n0) - 1] by {
                    if k < n {
                        assert(s2.block_at(d2, k) == s1.block_at(d1, k));
                    }
                }
                assert forall|i: int| 0 <= i < next implies all2.contains(#[trigger] new_blocks@[i]) by {
                    let x = new_blocks@[i];
                    let r = data1 + seq![p.last()] + idx1 + p.drop_last();
                    if i < pos {
                        assert(all1.contains(x));
                        let t = choose|t: int| 0 <= t < all1.len() && all1[t] == x;
                        if t < data1.len() {
                            assert(r[t] == x);
                        } else {
                            assert(r[t + 1] == x);
                        }
                    } else if i == next - 1 {
                        assert(r[data1.len() as int] == x);
                    } else {
                        let e = i - pos;
                        assert(r[data1.len() + idx1.len() + 1 + e] == p.drop_last()[e]);
                    }
                }
            }
            n = n + 1;
            pos = next;
        }
        let ghost sb = *self;
        self.size = new_size;
        proof {
            let fd = cache.disk();
            lemma_used_count(*self, fd, n as nat);
            assert forall|k: nat| #[trigger] self.block_at(fd, k) == sb.block_at(fd, k) by {}
            assert forall|k: nat| k < n0 implies #[trigger] self.block_at(fd, k) == self0.block_at(od, k) by {
                assert(sb.block_at(fd, k) == self0.block_at(od, k));
            }
            assert forall|k: nat| n0 <= k < n implies #[trigger] self.block_at(fd, k) == new_blocks@[used_count(
                k + 1,
            ) - used_count(n0) - 1] by {
                assert(sb.block_at(fd, k) == new_blocks@[used_count(k + 1) - used_count(n0) - 1]);
            }
            assert(pos == new_blocks@.len());
            let a1 = self.all_ids(fd, n as nat);
            let a0 = sb.all_ids(fd, n as nat);
            assert(a1 == a0);
            assert forall|i: int| 0 <= i < new_blocks@.len() implies a1.contains(#[trigger] new_blocks@[i]) by {
                assert(i < pos);
                assert(a0.contains(new_blocks@[i]));
            }
            assert(self.data_ids(fd, n as nat) =~= sb.data_ids(fd, n as nat));
            assert(self.l2_ids(fd, n as nat) =~= sb.l2_ids(fd, n as nat));
            assert(self.all_ids(fd, n as nat) =~= sb.all_ids(fd, n as nat));
            assert(new_blocks@.subrange(0, pos as int) =~= new_blocks@);
            let c = self.content(fd);
            let c0 = self0.content(od);
            assert forall|p: int| 0 <= p < self0.size implies c[p] == c0[p] by {
                let k = (p / 512) as nat;
                assert(k < n0) by (nonlinear_arith)
                    requires
                        k == p / 512,
                        0 <= p < self0.size,
                        n0 == (self0.size + 511) / 512,
                ;
                assert(self.block_at(fd, k) == self0.block_at(od, k));
            }
            assert(c.subrange(0, self0.size as int) =~= c0);
        }
    }
}

pub proof fn lemma_used_monotonic(a: nat, b: nat)
    requires
        a <= b,
    ensures
        used_count(a) <= used_count(b),
{
    if a > 156 {
        assert(((a - 29) as nat) / 128 <= ((b - 29) as nat) / 128) by (nonlinear_arith)
            requires
                a <= b,
                a > 156,
        ;
    }
}

impl DiskInode {
    /// Empties the inode and returns the ids of every block, data and index, that it held.
    pub fn clear_size<D: BlockDevice>(&mut self, cache: &mut BlockCacheManager<D>) -> (r: Vec<u32>)
        requires
            old(cache).wf(),
            old(self).index_in_disk(old(cache).disk()),
        ensures
            final(cache).wf(),
            final(cache).disk() == old(cache).disk(),
            r@ == old(self).all_ids(old(cache).disk(), data_blocks_of(old(self).size as nat)),
            r@.len() == total_blocks_of(old(self).size as nat),
            final(self).size == 0,
            final(self).type_ == old(self).type_,
            forall|i: int| 0 <= i < 28 ==> final(self).direct@[i] == 0,
            final(self).indirect1 == 0,
            final(self).indirect2 == 0,
    {
        let ghost disk = cache.disk();
        let n: usize = self.data_blocks() as usize;
        let ghost all = self.all_ids(disk, n as nat);
        let ghost dn = self.data_ids(disk, n as nat);
        let mut r: Vec<u32> = Vec::new();
        let mut k: usize = 0;
        while k < n
            invariant
                cache.wf(),
                cache.disk() == disk,
                self.index_in_disk(disk),
                n == data_blocks_of(self.size as nat),
                k <= n,
                r@ == self.data_ids(disk, n as nat).subrange(0, k as int),
            decreases n - k,
        {
            let b = self.get_block_id(k as u32, cache);
            r.push(b);
            k = k + 1;
            proof {
                assert(r@ =~= self.data_ids(disk, n as nat).subrange(0, k as int));
            }
        }
        proof {
            assert(r@ =~= dn);
        }
        if n > INODE_DIRECT_COUNT {
            r.push(self.indirect1);
        }
        if n > INDIRECT1_BOUND {
            r.push(self.indirect2);
            let l2n: usize = (n - INODE_DIRECT_COUNT - 1) / INODE_INDIRECT1_COUNT;
            let ghost base = r@;
            proof {
                assert(self.index_ids(disk, n as nat)[1] == self.indirect2);
                assert(l2n == l2_count(n as nat));
                assert(l2n <= 128) by (nonlinear_arith)
                    requires
                        l2n == (n - 29) / 128,
                        n <= MAX_DATA_BLOCKS,
                ;
            }
            let mut j: usize = 0;
            while j < l2n
                invariant
                    cache.wf(),
                    cache.disk() == disk,
                    self.indirect2 < disk.len(),
                    l2n <= 128,
                    l2n == l2_count(n as nat),
                    j <= l2n,
                    r@ == base + self.l2_ids(disk, n as nat).subrange(0, j as int),
                decreases l2n - j,
            {
                let l = cache_read_u32(cache, self.indirect2 as usize, 4 * j);
                r.push(l);
                j = j + 1;
                proof {
                    assert(r@ =~= base + self.l2_ids(disk, n as nat).subrange(0, j as int));
                }
            }
            proof {
                assert(self.l2_ids(disk, n as nat).subrange(0, j as int) =~= self.l2_ids(disk, n as nat));
            }
        }
        proof {
            assert(r@ =~= all);
            lemma_all_ids_len(*self, disk, self.size as nat);
        }
        let t = self.type_;
        self.initialize(t);
        r
    }
}

impl DiskInode {
    /// `s` is the on-disk form of `d`.
    pub open spec fn decodes_to(s: Seq<u8>, d: DiskInode) -> bool {
        &&& s.len() == DISK_INODE_SIZE
        &&& u32_le(s, 0) == d.size
        &&& forall|i: int| 0 <= i < 28 ==> u32_le(s, 4 + 4 * i) == #[trigger] d.direct@[i]
        &&& u32_le(s, 116) == d.indirect1
        &&& u32_le(s, 120) == d.indirect2
        &&& (s[124] == 1u8) == (d.type_ == DiskInodeType::Directory)
    }

    /// The 128 bytes that stand for the inode on the device.
    pub fn to_bytes(&self) -> (r: Vec<u8>)
        ensures
            Self::decodes_to(r@, *self),
    {
        let mut r: Vec<u8> = Vec::new();
        push_u32(&mut r, self.size);
        proof {
            assert(r@.subrange(0, 4) =~= u32_bytes(self.size));
            lemma_u32_seq(r@, 0, self.size);
        }
        let mut i: usize = 0;
        while i < INODE_DIRECT_COUNT
            invariant
                i <= 28,
                r@.len() == 4 + 4 * i,
                u32_le(r@, 0) == self.size,
                forall|t: int| 0 <= t < i ==> u32_le(r@, 4 + 4 * t) == #[trigger] self.direct@[t],
            decreases 28 - i,
        {
            let ghost before = r@;
            push_u32(&mut r, self.direct[i]);
            proof {
                assert(r@.subrange(4 + 4 * i, 8 + 4 * i) =~= u32_bytes(self.direct@[i as int]));
                lemma_u32_seq(r@, 4 + 4 * i, self.direct@[i as int]);
                assert forall|t: int| 0 <= t <= i implies u32_le(r@, 4 + 4 * t) == #[trigger] self.direct@[t] by {
                    if t < i {
                        assert(r@[4 + 4 * t] == before[4 + 4 * t]);
                        assert(r@[5 + 4 * t] == before[5 + 4 * t]);
                        assert(r@[6 + 4 * t] == before[6 + 4 * t]);
                        assert(r@[7 + 4 * t] == before[7 + 4 * t]);
                    }
                }
                assert(r@[0] == before[0] && r@[1] == before[1] && r@[2] == before[2] && r@[3] == before[3]);
            }
            i = i + 1;
        }
        let ghost body = r@;
        push_u32(&mut r, self.indirect1);
        push_u32(&mut r, self.indirect2);
        let t: u8 = if self.type_ == DiskInodeType::Directory {
            1
        } else {
            0
        };
        r.push(t);
        r.push(0);
        r.push(0);
        r.push(0);
        proof {
            assert(r@.subrange(116, 120) =~= u32_bytes(self.indirect1));
            assert(r@.subrange(120, 124) =~= u32_bytes(self.indirect2));
            lemma_u32_seq(r@, 116, self.indirect1);
            lemma_u32_seq(r@, 120, self.indirect2);
            assert forall|i: int| 0 <= i < 28 implies u32_le(r@, 4 + 4 * i) == #[trigger] self.direct@[i] by {
                assert(r@[4 + 4 * i] == body[4 + 4 * i]);
                assert(r@[5 + 4 * i] == body[5 + 4 * i]);
                assert(r@[6 + 4 * i] == body[6 + 4 * i]);
                assert(r@[7 + 4 * i] == body[7 + 4 * i]);
            }
            assert(r@[0] == body[0] && r@[1] == body[1] && r@[2] == body[2] && r@[3] == body[3]);
        }
        r
    }

    /// The inode that the 128 bytes `s` stand for.
    pub fn from_bytes(s: &[u8]) -> (r: Self)
        requires
            s@.len() == DISK_INODE_SIZE,
        ensures
            Self::decodes_to(s@, r),
    {
        let mut direct: [u32; 28] = [0u32; 28];
        let mut i: usize = 0;
        while i < INODE_DIRECT_COUNT
            invariant
                s@.len() == DISK_INODE_SIZE,
                i <= 28,
                forall|t: int| 0 <= t < i ==> u32_le(s@, 4 + 4 * t) == #[trigger] direct@[t],
            decreases 28 - i,
        {
            direct[i] = read_u32(s, 4 + 4 * i);
            i = i + 1;
        }
        let type_ = if s[124] == 1u8 {
            DiskInodeType::Directory
        } else {
            DiskInodeType::File
        };
        DiskInode {
            size: read_u32(s, 0),
            direct,
            indirect1: read_u32(s, 116),
            indirect2: read_u32(s, 120),
            type_,
        }
    }
}

/// Two inodes decoded from the same bytes map the same blocks and hold the same content.
pub proof fn lemma_decode_unique(s: Seq<u8>, d1: DiskInode, d2: DiskInode, disk: Seq<Seq<u8>>)
    requires
        DiskInode::decodes_to(s, d1),
        DiskInode::decodes_to(s, d2),
    ensures
        d1.size == d2.size,
        d1.type_ == d2.type_,
        forall|n: nat| #[trigger] d1.all_ids(disk, n) == d2.all_ids(disk, n),
        forall|k: nat| #[trigger] d1.block_at(disk, k) == d2.block_at(disk, k),
        d1.content(disk) == d2.content(disk),
        forall|lo: nat| #[trigger] d1.wf(disk, lo) == d2.wf(disk, lo),
        d1.in_disk(disk) == d2.in_disk(disk),
{
    assert(d1.direct@ =~= d2.direct@) by {
        assert forall|i: int| 0 <= i < 28 implies d1.direct@[i] == d2.direct@[i] by {
            assert(u32_le(s, 4 + 4 * i) == d1.direct@[i]);
        }
    }
    assert forall|k: nat| #[trigger] d1.block_at(disk, k) == d2.block_at(disk, k) by {}
    assert forall|n: nat| #[trigger] d1.all_ids(disk, n) == d2.all_ids(disk, n) by {
        assert(d1.data_ids(disk, n) =~= d2.data_ids(disk, n));
        assert(d1.l2_ids(disk, n) =~= d2.l2_ids(disk, n));
        assert(d1.all_ids(disk, n) =~= d2.all_ids(disk, n));
    }
    assert(d1.content(disk) =~= d2.content(disk));
    if d1.type_ != d2.type_ {
        assert((s[124] == 1u8) == (d1.type_ == DiskInodeType::Directory));
    }
}

/// One entry of a directory: a name of up to 27 bytes, NUL-padded to 28, and an inode number.
pub struct DirEntry {
    pub name: [u8; 28],
    pub inode_number: u32,
}

/// The bytes of `s` before its first NUL, at most 28 of them.
pub open spec fn name_prefix(s: Seq<u8>) -> Seq<u8>
    decreases s.len(),
{
    if s.len() == 0 || s[0] == 0u8 {
        Seq::empty()
    } else {
        seq![s[0]] + name_prefix(s.drop_first())
    }
}

/// The name stored in the 32-byte entry `e`.
pub open spec fn entry_name(e: Seq<u8>) -> Seq<u8> {
    name_prefix(e.subrange(0, 28))
}

/// The inode number stored in the 32-byte entry `e`.
pub open spec fn entry_inode(e: Seq<u8>) -> u32 {
    u32_le(e, 28)
}

/// A name that a directory entry can hold: at most 27 bytes, none of them NUL.
pub open spec fn valid_name(name: Seq<u8>) -> bool {
    &&& name.len() <= NAME_LENGTH_LIMIT
    &&& forall|i: int| 0 <= i < name.len() ==> #[trigger] name[i] != 0u8
}

/// The 32-byte entry for `name` and `ino`.
pub open spec fn entry_bytes(name: Seq<u8>, ino: u32) -> Seq<u8> {
    name + Seq::new((28 - name.len()) as nat, |i: int| 0u8) + u32_bytes(ino)
}

pub proof fn lemma_name_prefix(name: Seq<u8>, pad: nat)
    requires
        valid_name(name),
        pad >= 1,
    ensures
        name_prefix(name + Seq::new(pad, |i: int| 0u8)) == name,
    decreases name.len(),
{
    let z = Seq::new(pad, |i: int| 0u8);
    if name.len() == 0 {
        assert(name + z =~= z);
    } else {
        let rest = name.drop_first();
        assert((name + z).drop_first() =~= rest + z);
        assert forall|i: int| 0 <= i < rest.len() implies #[trigger] rest[i] != 0u8 by {
            assert(rest[i] == name[i + 1]);
        }
        lemma_name_prefix(rest, pad);
        assert(seq![name[0]] + rest =~= name);
    }
}

pub proof fn lemma_entry_bytes(name: Seq<u8>, ino: u32)
    requires
        valid_name(name),
    ensures
        entry_bytes(name, ino).len() == DIRENTRY_SIZE,
        entry_name(entry_bytes(name, ino)) == name,
        entry_inode(entry_bytes(name, ino)) == ino,
{
    let e = entry_bytes(name, ino);
    let z = Seq::new((28 - name.len()) as nat, |i: int| 0u8);
    assert(e.subrange(0, 28) =~= name + z);
    lemma_name_prefix(name, (28 - name.len()) as nat);
    assert(e.subrange(28, 32) =~= u32_bytes(ino));
    lemma_u32_seq(e, 28, ino);
}

impl DirEntry {
    pub open spec fn bytes(&self) -> Seq<u8> {
        self.name@ + u32_bytes(self.inode_number)
    }

    /// An entry with an empty name and inode number 0.
    pub fn empty() -> (r: Self)
        ensures
            r.bytes() == entry_bytes(Seq::empty(), 0),
    {
        let r = DirEntry { name: [0u8; 28], inode_number: 0 };
        proof {
            assert(r.name@ =~= Seq::<u8>::empty() + Seq::new(28, |i: int| 0u8));
        }
        r
    }

    /// The entry for `name` and `inode_number`.
    pub fn new(name: &str, inode_number: u32) -> (r: Self)
        requires
            valid_name(name.spec_bytes()),
        ensures
            r.bytes() == entry_bytes(name.spec_bytes(), inode_number),
    {
        let src = name.as_bytes();
        let mut bytes: [u8; 28] = [0u8; 28];
        let mut i: usize = 0;
        while i < src.len()
            invariant
                src@ == name.spec_bytes(),
                src@.len() <= 27,
                i <= src@.len(),
                forall|t: int| 0 <= t < i ==> bytes@[t] == src@[t],
                forall|t: int| i <= t < 28 ==> bytes@[t] == 0u8,
            decreases src@.len() - i,
        {
            bytes[i] = src[i];
            i = i + 1;
        }
        let r = DirEntry { name: bytes, inode_number };
        proof {
            assert(r.name@ =~= src@ + Seq::new((28 - src@.len()) as nat, |i: int| 0u8));
        }
        r
    }

    /// The entry that the 32 bytes `s` stand for.
    pub fn from_bytes(s: &[u8]) -> (r: Self)
        requires
            s@.len() == DIRENTRY_SIZE,
        ensures
            r.bytes() == s@,
            entry_inode(r.bytes()) == r.inode_number,
    {
        let mut name: [u8; 28] = [0u8; 28];
        let mut i: usize = 0;
        while i < 28
            invariant
                s@.len() == DIRENTRY_SIZE,
                i <= 28,
                forall|t: int| 0 <= t < i ==> name@[t] == s@[t],
            decreases 28 - i,
        {
            name[i] = s[i];
            i = i + 1;
        }
        let ino = read_u32(s, 28);
        let r = DirEntry { name, inode_number: ino };
        proof {
            lemma_u32_round_trip(ino);
            let b = u32_bytes(ino);
            assert(b[0] == s@[28] && b[1] == s@[29] && b[2] == s@[30] && b[3] == s@[31]) by {
                lemma_u32_bytes_of_le(s@, 28);
            }
            assert(r.bytes() =~= s@);
            assert(r.bytes().subrange(28, 32) =~= u32_bytes(ino));
            lemma_u32_seq(r.bytes(), 28, ino);
        }
        r
    }

    /// The 32 bytes that stand for the entry.
    pub fn as_bytes(&self) -> (r: Vec<u8>)
        ensures
            r@ == self.bytes(),
    {
        let mut r: Vec<u8> = Vec::new();
        let mut i: usize = 0;
        while i < 28
            invariant
                i <= 28,
                r@ == self.name@.subrange(0, i as int),
            decreases 28 - i,
        {
            r.push(self.name[i]);
            i = i + 1;
            proof {
                assert(r@ =~= self.name@.subrange(0, i as int));
            }
        }
        push_u32(&mut r, self.inode_number);
        proof {
            assert(self.name@.subrange(0, 28) =~= self.name@);
        }
        r
    }

    /// The entry's name: its bytes before the first NUL.
    pub fn name(&self) -> (r: Vec<u8>)
        ensures
            r@ == entry_name(self.bytes()),
    {
        let mut r: Vec<u8> = Vec::new();
        let mut i: usize = 0;
        proof {
            assert(self.bytes().subrange(0, 28) =~= self.name@);
            assert(self.name@.subrange(0, 28) =~= self.name@);
            assert(r@ + name_prefix(self.name@) =~= name_prefix(self.name@));
        }
        while i < 28 && self.name[i] != 0u8
            invariant
                i <= 28,
                forall|t: int| 0 <= t < i ==> self.name@[t] != 0u8,
                r@ == self.name@.subrange(0, i as int),
                name_prefix(self.name@) == r@ + name_prefix(self.name@.subrange(i as int, 28)),
            decreases 28 - i,
        {
            proof {
                let rest = self.name@.subrange(i as int, 28);
                assert(rest.drop_first() =~= self.name@.subrange(i + 1, 28));
            }
            r.push(self.name[i]);
            i = i + 1;
            proof {
                assert(r@ =~= self.name@.subrange(0, i as int));
            }
        }
        proof {
            let rest = self.name@.subrange(i as int, 28);
            assert(name_prefix(rest) =~= Seq::<u8>::empty());
        }
        r
    }

    pub fn inode_number(&self) -> (r: u32)
        ensures
            r == self.inode_number,
    {
        self.inode_number
    }
}

/// The bytes that a `u32` read at `off` of `s` came from are its little-endian bytes.
pub proof fn lemma_u32_bytes_of_le(s: Seq<u8>, off: int)
    requires
        0 <= off,
        off + 4 <= s.len(),
    ensures
        u32_bytes(u32_le(s, off)) == s.subrange(off, off + 4),
{
    let b0 = s[off];
    let b1 = s[off + 1];
    let b2 = s[off + 2];
    let b3 = s[off + 3];
    let v = u32_le(s, off);
    assert(v == (b0 as u32) | ((b1 as u32) << 8u32) | ((b2 as u32) << 16u32) | ((b3 as u32) << 24u32));
    assert((v & 0xffu32) as u8 == b0 && ((v >> 8u32) & 0xffu32) as u8 == b1 && ((v >> 16u32)
        & 0xffu32) as u8 == b2 && ((v >> 24u32) & 0xffu32) as u8 == b3) by (bit_vector)
        requires
            v == (b0 as u32) | ((b1 as u32) << 8u32) | ((b2 as u32) << 16u32) | ((b3 as u32) << 24u32),
    ;
    assert(u32_bytes(v) =~= s.subrange(off, off + 4));
}

impl DiskInode {
    /// Mapping `n` blocks maps every shorter prefix too.
    pub proof fn lemma_mapped_prefix(&self, disk: Seq<Seq<u8>>, n: nat, m: nat, lo: nat)
        requires
            self.mapped(disk, n, lo),
            m <= n,
        ensures
            self.mapped(disk, m, lo),
    {
        let a = self.all_ids(disk, n);
        let b = self.all_ids(disk, m);
        let i1m: int = if m > 28 { 1 } else { 0 };
        lemma_used_monotonic(m, n);
        if m > 156 {
            assert(((m - 29) as nat) / 128 <= ((n - 29) as nat) / 128) by (nonlinear_arith)
                requires
                    m <= n,
                    m > 156,
            ;
        }
        let f = |t: int|
            if t < m {
                t
            } else {
                t - m + n
            };
        assert forall|t: int| 0 <= t < b.len() implies 0 <= #[trigger] f(t) < a.len() && a[f(t)] == b[t] by {
            if t < m {
                assert(b[t] == self.block_at(disk, t as nat));
                assert(a[t] == self.block_at(disk, t as nat));
            } else {
                let u = t - m;
                let bi = self.index_ids(disk, m);
                let ai = self.index_ids(disk, n);
                assert(b[t] == bi[u]);
                assert(a[f(t)] == ai[u]);
                if m > 28 && u == 0 {
                } else {
                    let j = u - i1m - 1;
                    if j >= 0 {
                        assert(bi[u] == self.l2_ids(disk, m)[j]);
                        assert(ai[u] == self.l2_ids(disk, n)[j]);
                    }
                }
            }
        }
        assert forall|x: int, y: int| 0 <= x < b.len() && 0 <= y < b.len() && x != y implies b[x] != b[y] by {
            assert(f(x) != f(y));
            assert(a[f(x)] != a[f(y)]);
        }
        assert forall|t: int| 0 <= t < b.len() implies lo <= #[trigger] b[t] < disk.len() by {
            assert(a[f(t)] == b[t]);
        }
    }
}

} // verus!
