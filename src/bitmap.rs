use vstd::prelude::*;

use crate::block_cache::{splice, BlockCacheManager};
use crate::block_dev::BlockDevice;
use crate::BLOCK_SIZE;

verus! {

/// Bits held by one bitmap block.
pub const BLOCK_BITS: usize = 4096;

/// Bit `k` of byte `b`.
pub open spec fn bit_of(b: u8, k: u8) -> bool {
    (b >> k) & 1u8 == 1u8
}

/// Block and byte of `disk` that hold bit `i` of a bitmap starting at block `start`.
pub open spec fn bit_block(start: nat, i: nat) -> int {
    (start + i / 4096) as int
}

pub open spec fn bit_byte(i: nat) -> int {
    ((i % 4096) / 8) as int
}

pub open spec fn bit_shift(i: nat) -> u8 {
    (i % 8) as u8
}

/// Bit `i` of the bitmap that starts at block `start` of `disk`.
pub open spec fn bitmap_bit(disk: Seq<Seq<u8>>, start: nat, i: nat) -> bool {
    bit_of(disk[bit_block(start, i)][bit_byte(i)], bit_shift(i))
}

/// `disk` with bit `i` of the bitmap at `start` set to `v`.
pub open spec fn with_bit(disk: Seq<Seq<u8>>, start: nat, i: nat, v: bool) -> Seq<Seq<u8>> {
    let blk = bit_block(start, i);
    let byte = disk[blk][bit_byte(i)];
    let mask = 1u8 << bit_shift(i);
    let nb: u8 = if v {
        byte | mask
    } else {
        byte & !mask
    };
    disk.update(blk, disk[blk].update(bit_byte(i), nb))
}

proof fn lemma_set_clear_bit_at(b: u8, k: u8, j: u8)
    requires
        k < 8,
        j < 8,
    ensures
        bit_of(b | (1u8 << k), j) == (j == k || bit_of(b, j)),
        bit_of(b & !(1u8 << k), j) == (j != k && bit_of(b, j)),
{
    assert((((b | (1u8 << k)) >> j) & 1u8 == 1u8) == (j == k || (b >> j) & 1u8 == 1u8))
        by (bit_vector)
        requires
            k < 8,
            j < 8,
    ;
    assert((((b & !(1u8 << k)) >> j) & 1u8 == 1u8) == (j != k && (b >> j) & 1u8 == 1u8))
        by (bit_vector)
        requires
            k < 8,
            j < 8,
    ;
}

proof fn lemma_set_clear_bit(b: u8, k: u8)
    requires
        k < 8,
    ensures
        forall|j: u8| j < 8 ==> #[trigger] bit_of(b | (1u8 << k), j) == (j == k || bit_of(b, j)),
        forall|j: u8| j < 8 ==> #[trigger] bit_of(b & !(1u8 << k), j) == (j != k && bit_of(b, j)),
        !bit_of(b, k) ==> (b | (1u8 << k)) & !(1u8 << k) == b,
        bit_of(b, k) ==> b | (1u8 << k) == b,
{
    assert forall|j: u8| j < 8 implies #[trigger] bit_of(b | (1u8 << k), j) == (j == k || bit_of(b, j))
        by {
        lemma_set_clear_bit_at(b, k, j);
    }
    assert forall|j: u8| j < 8 implies #[trigger] bit_of(b & !(1u8 << k), j) == (j != k && bit_of(b, j))
        by {
        lemma_set_clear_bit_at(b, k, j);
    }
    assert(!((b >> k) & 1u8 == 1u8) ==> (b | (1u8 << k)) & !(1u8 << k) == b) by (bit_vector)
        requires
            k < 8,
    ;
    assert(((b >> k) & 1u8 == 1u8) ==> b | (1u8 << k) == b) by (bit_vector)
        requires
            k < 8,
    ;
}

proof fn lemma_full_byte(b: u8)
    ensures
        (b == 0xffu8) == (forall|j: u8| j < 8 ==> #[trigger] bit_of(b, j)),
{
    if b == 0xffu8 {
        assert forall|j: u8| j < 8 implies #[trigger] bit_of(b, j) by {
            assert(b == 0xffu8 && j < 8 ==> (b >> j) & 1u8 == 1u8) by (bit_vector);
        }
    } else {
        assert(b != 0xffu8 ==> !((b >> 0u8) & 1u8 == 1u8) || !((b >> 1u8) & 1u8 == 1u8) || !((b
            >> 2u8) & 1u8 == 1u8) || !((b >> 3u8) & 1u8 == 1u8) || !((b >> 4u8) & 1u8 == 1u8) || !((
        b >> 5u8) & 1u8 == 1u8) || !((b >> 6u8) & 1u8 == 1u8) || !((b >> 7u8) & 1u8 == 1u8))
            by (bit_vector);
        assert(!bit_of(b, 0) || !bit_of(b, 1) || !bit_of(b, 2) || !bit_of(b, 3) || !bit_of(b, 4)
            || !bit_of(b, 5) || !bit_of(b, 6) || !bit_of(b, 7));
    }
}

proof fn lemma_bit_index(i: nat)
    ensures
        i / 4096 * 4096 + bit_byte(i) * 8 + bit_shift(i) == i,
        0 <= bit_byte(i) < 512,
        bit_shift(i) < 8,
{
}

proof fn lemma_bit_index_unique(i: nat, j: nat)
    requires
        i / 4096 == j / 4096,
        bit_byte(i) == bit_byte(j),
        bit_shift(i) == bit_shift(j),
    ensures
        i == j,
{
    lemma_bit_index(i);
    lemma_bit_index(j);
}

/// A run of `blocks` blocks from `start_block_id` on, read as one string of bits.
pub struct Bitmap {
    start_block_id: usize,
    blocks: usize,
}

impl Bitmap {
    pub closed spec fn start(&self) -> nat {
        self.start_block_id as nat
    }

    pub closed spec fn num_blocks(&self) -> nat {
        self.blocks as nat
    }

    /// Number of bits of the bitmap.
    pub open spec fn max_bits(&self) -> nat {
        self.num_blocks() * 4096
    }

    /// The bitmap lies on `disk`.
    pub open spec fn fits(&self, disk: Seq<Seq<u8>>) -> bool {
        self.start() + self.num_blocks() <= disk.len()
    }

    /// Bit `i` of the bitmap on `disk`.
    pub open spec fn bit(&self, disk: Seq<Seq<u8>>, i: nat) -> bool {
        bitmap_bit(disk, self.start(), i)
    }

    /// First block of the bitmap.
    pub fn start_block(&self) -> (r: usize)
        ensures
            r == self.start(),
    {
        self.start_block_id
    }

    pub fn new(start_block_id: usize, blocks: usize) -> (r: Self)
        ensures
            r.start() == start_block_id,
            r.num_blocks() == blocks,
    {
        Bitmap { start_block_id, blocks }
    }

    /// Number of bits of the bitmap.
    pub fn maximum(&self) -> (r: usize)
        requires
            self.num_blocks() * 4096 <= usize::MAX,
        ensures
            r == self.max_bits(),
    {
        self.blocks * BLOCK_BITS
    }

    /// Sets the lowest clear bit and returns its index, or `None` when every bit is set.
    pub fn allocate<D: BlockDevice>(&self, cache: &mut BlockCacheManager<D>) -> (r: Option<usize>)
        requires
            old(cache).wf(),
            self.fits(old(cache).disk()),
            self.num_blocks() * 4096 <= usize::MAX,
        ensures
            final(cache).wf(),
            match r {
                None => {
                    &&& final(cache).disk() == old(cache).disk()
                    &&& forall|j: nat| j < self.max_bits() ==> #[trigger] self.bit(old(cache).disk(), j)
                },
                Some(i) => {
                    &&& i < self.max_bits()
                    &&& !self.bit(old(cache).disk(), i as nat)
                    &&& forall|j: nat| j < i ==> #[trigger] self.bit(old(cache).disk(), j)
                    &&& final(cache).disk() == with_bit(old(cache).disk(), self.start(), i as nat, true)
                },
            },
    {
        proof {
            cache.lemma_disk_shape();
        }
        let mut offset: usize = 0;
        while offset < self.blocks
            invariant
                cache.wf(),
                cache.disk() == old(cache).disk(),
                self.fits(cache.disk()),
                self.num_blocks() * 4096 <= usize::MAX,
                offset <= self.blocks,
                forall|j: nat| j < offset * 4096 ==> #[trigger] self.bit(cache.disk(), j),
            decreases self.blocks - offset,
        {
            proof {
                cache.lemma_disk_shape();
            }
            let block_id: usize = self.start_block_id + offset;
            let data = cache.read(block_id, 0, BLOCK_SIZE);
            let ghost disk = cache.disk();
            proof {
                assert(data@ =~= disk[block_id as int]);
            }
            let mut pos: usize = 0;
            while pos < BLOCK_SIZE
                invariant
                    data@.len() == BLOCK_SIZE,
                    data@ == disk[block_id as int],
                    pos <= BLOCK_SIZE,
                    forall|k: int| 0 <= k < pos ==> data@[k] == 0xffu8,
                ensures
                    pos <= BLOCK_SIZE,
                    forall|k: int| 0 <= k < pos ==> data@[k] == 0xffu8,
                    pos < BLOCK_SIZE ==> data@[pos as int] != 0xffu8,
                decreases BLOCK_SIZE - pos,
            {
                if data[pos] != 0xffu8 {
                    break;
                }
                pos = pos + 1;
            }
            if pos < BLOCK_SIZE {
                let b: u8 = data[pos];
                proof {
                    lemma_full_byte(b);
                }
                let mut k: u8 = 0;
                while k < 8
                    invariant
                        b != 0xffu8,
                        (b == 0xffu8) == (forall|j: u8| j < 8 ==> #[trigger] bit_of(b, j)),
                        k <= 8,
                        forall|j: u8| j < k ==> #[trigger] bit_of(b, j),
                    ensures
                        k <= 8,
                        forall|j: u8| j < k ==> #[trigger] bit_of(b, j),
                        k < 8 ==> (b >> k) & 1u8 == 0u8,
                    decreases 8 - k,
                {
                    if (b >> k) & 1u8 == 0u8 {
                        break;
                    }
                    assert((b >> k) & 1u8 != 0u8 ==> (b >> k) & 1u8 == 1u8) by (bit_vector);
                    k = k + 1;
                }
                proof {
                    if k == 8 {
                        assert forall|j: u8| j < 8 implies #[trigger] bit_of(b, j) by {
                            assert(j < k);
                        }
                    }
                    assert(k < 8);
                    assert(!bit_of(b, k)) by {
                        assert((b >> k) & 1u8 == 0u8);
                    }
                    lemma_set_clear_bit(b, k);
                }
                let nb: u8 = b | (1u8 << k);
                let idx: usize = offset * BLOCK_BITS + pos * 8 + k as usize;
                let one: [u8; 1] = [nb];
                cache.modify(block_id, pos, &one);
                proof {
                    let i = idx as nat;
                    assert(i / 4096 == offset) by (nonlinear_arith)
                        requires
                            i == offset * 4096 + pos * 8 + k,
                            pos < 512,
                            k < 8,
                    ;
                    assert(bit_byte(i) == pos);
                    assert(bit_shift(i) == k);
                    assert(bit_block(self.start(), i) == block_id);
                    assert(one@ =~= seq![nb]);
                    assert(splice(disk[block_id as int], pos as int, one@) =~= disk[block_id as int].update(
                        pos as int,
                        nb,
                    ));
                    assert forall|j: nat| j < idx implies #[trigger] self.bit(disk, j) by {
                        if j >= offset * 4096 {
                            lemma_bit_index(j);
                            assert(j / 4096 == offset) by (nonlinear_arith)
                                requires
                                    j < offset * 4096 + pos * 8 + k,
                                    j >= offset * 4096,
                                    pos < 512,
                                    k < 8,
                            ;
                            if bit_byte(j) < pos {
                                assert(data@[bit_byte(j)] == 0xffu8);
                                lemma_full_byte(0xffu8);
                            } else {
                                assert(bit_byte(j) == pos) by (nonlinear_arith)
                                    requires
                                        j < offset * 4096 + pos * 8 + k,
                                        j == j / 4096 * 4096 + bit_byte(j) * 8 + bit_shift(j),
                                        j / 4096 == offset,
                                        bit_byte(j) >= pos,
                                        k < 8,
                                ;
                                assert(bit_shift(j) < k);
                            }
                        }
                    }
                    assert(idx < self.max_bits()) by (nonlinear_arith)
                        requires
                            idx == offset * 4096 + pos * 8 + k,
                            offset < self.num_blocks(),
                            pos < 512,
                            k < 8,
                    ;
                }
                return Some(idx);
            }
            proof {
                assert forall|j: nat| j < (offset + 1) * 4096 implies #[trigger] self.bit(disk, j) by {
                    if j >= offset * 4096 {
                        lemma_bit_index(j);
                        assert(j / 4096 == offset) by (nonlinear_arith)
                            requires
                                j < (offset + 1) * 4096,
                                j >= offset * 4096,
                        ;
                        lemma_full_byte(0xffu8);
                        assert(data@[bit_byte(j)] == 0xffu8);
                    }
                }
            }
            offset = offset + 1;
        }
        None
    }

    /// Clears bit `bit`, which must be set.
    #[verifier::spinoff_prover]
    #[verifier::rlimit(60)]
    pub fn dealloc<D: BlockDevice>(&self, cache: &mut BlockCacheManager<D>, bit: usize)
        requires
            old(cache).wf(),
            self.fits(old(cache).disk()),
            bit < self.max_bits(),
            self.bit(old(cache).disk(), bit as nat),
        ensures
            final(cache).wf(),
            final(cache).disk() == with_bit(old(cache).disk(), self.start(), bit as nat, false),
    {
        proof {
            cache.lemma_disk_shape();
        }
        let offset: usize = bit / BLOCK_BITS;
        let rest: usize = bit % BLOCK_BITS;
        let pos: usize = rest / 8;
        let k: u8 = (rest % 8) as u8;
        proof {
            assert(offset < self.num_blocks()) by (nonlinear_arith)
                requires
                    bit < self.num_blocks() * 4096,
                    offset == bit / 4096,
            ;
        }
        proof {
            assert(rest % 8 == bit % 8) by (nonlinear_arith)
                requires
                    rest == bit % 4096,
            ;
            assert(k == bit_shift(bit as nat));
            assert(pos == bit_byte(bit as nat));
            assert(self.start_block_id + offset == bit_block(self.start(), bit as nat));
        }
        let block_id: usize = self.start_block_id + offset;
        let data = cache.read(block_id, pos, 1);
        let b: u8 = data[0];
        proof {
            lemma_set_clear_bit(b, k);
        }
        let one: [u8; 1] = [b & !(1u8 << k)];
        cache.modify(block_id, pos, &one);
        proof {
            let disk = old(cache).disk();
            assert(splice(disk[block_id as int], pos as int, one@) =~= disk[block_id as int].update(
                pos as int,
                b & !(1u8 << k),
            ));
        }
    }
}

/// Setting a clear bit and clearing it again gives back the same disk; a cleared
/// bit is clear, so a second release of it is refused.
pub proof fn lemma_alloc_dealloc_round_trip(disk: Seq<Seq<u8>>, start: nat, i: nat)
    requires
        bit_block(start, i) < disk.len(),
        disk[bit_block(start, i)].len() == BLOCK_SIZE,
        !bitmap_bit(disk, start, i),
    ensures
        bitmap_bit(with_bit(disk, start, i, true), start, i),
        with_bit(with_bit(disk, start, i, true), start, i, false) == disk,
        !bitmap_bit(with_bit(with_bit(disk, start, i, true), start, i, false), start, i),
{
    lemma_bit_index(i);
    let blk = bit_block(start, i);
    let b = disk[blk][bit_byte(i)];
    lemma_set_clear_bit(b, bit_shift(i));
    let d1 = with_bit(disk, start, i, true);
    assert(d1[blk][bit_byte(i)] == b | (1u8 << bit_shift(i)));
    let d2 = with_bit(d1, start, i, false);
    assert(d2[blk] =~= disk[blk]);
    assert(d2 =~= disk);
}

/// Setting bit `i` leaves every other bit of the bitmap as it was.
pub proof fn lemma_with_bit_other(disk: Seq<Seq<u8>>, start: nat, i: nat, j: nat, v: bool)
    requires
        bit_block(start, i) < disk.len(),
        disk[bit_block(start, i)].len() == BLOCK_SIZE,
        bit_block(start, j) < disk.len(),
        disk[bit_block(start, j)].len() == BLOCK_SIZE,
    ensures
        bitmap_bit(with_bit(disk, start, i, v), start, j) == if i == j {
            v
        } else {
            bitmap_bit(disk, start, j)
        },
{
    lemma_bit_index(i);
    lemma_bit_index(j);
    let b = disk[bit_block(start, i)][bit_byte(i)];
    lemma_set_clear_bit(b, bit_shift(i));
    if i != j && bit_block(start, i) == bit_block(start, j) && bit_byte(i) == bit_byte(j) {
        if bit_shift(i) == bit_shift(j) {
            lemma_bit_index_unique(i, j);
        }
    }
}

impl Bitmap {
    /// Whether bit `bit` is set.
    pub fn test<D: BlockDevice>(&self, cache: &mut BlockCacheManager<D>, bit: usize) -> (r: bool)
        requires
            old(cache).wf(),
            self.fits(old(cache).disk()),
            bit < self.max_bits(),
        ensures
            final(cache).wf(),
            final(cache).disk() == old(cache).disk(),
            r == self.bit(old(cache).disk(), bit as nat),
    {
        proof {
            cache.lemma_disk_shape();
        }
        let offset: usize = bit / BLOCK_BITS;
        let rest: usize = bit % BLOCK_BITS;
        let pos: usize = rest / 8;
        let k: u8 = (rest % 8) as u8;
        proof {
            assert(offset < self.num_blocks()) by (nonlinear_arith)
                requires
                    bit < self.num_blocks() * 4096,
                    offset == bit / 4096,
            ;
        }
        let data = cache.read(self.start_block_id + offset, pos, 1);
        let b: u8 = data[0];
        (b >> k) & 1u8 == 1u8
    }
}

/// Number of clear bits among the first `l` bits of the bitmap at `start`.
pub open spec fn clear_count(disk: Seq<Seq<u8>>, start: nat, l: nat) -> nat
    decreases l,
{
    if l == 0 {
        0
    } else {
        clear_count(disk, start, (l - 1) as nat) + if bitmap_bit(disk, start, (l - 1) as nat) {
            0nat
        } else {
            1nat
        }
    }
}

/// With every one of the first `l` bits set, none of them is clear.
pub proof fn lemma_all_set_count(disk: Seq<Seq<u8>>, start: nat, l: nat)
    requires
        forall|j: nat| j < l ==> #[trigger] bitmap_bit(disk, start, j),
    ensures
        clear_count(disk, start, l) == 0,
    decreases l,
{
    if l > 0 {
        lemma_all_set_count(disk, start, (l - 1) as nat);
    }
}

/// Two disks that agree on the first `l` bits count as many clear bits there.
pub proof fn lemma_count_frame(d1: Seq<Seq<u8>>, d2: Seq<Seq<u8>>, start: nat, l: nat)
    requires
        forall|j: nat| j < l ==> #[trigger] bitmap_bit(d1, start, j) == bitmap_bit(d2, start, j),
    ensures
        clear_count(d1, start, l) == clear_count(d2, start, l),
    decreases l,
{
    if l > 0 {
        lemma_count_frame(d1, d2, start, (l - 1) as nat);
    }
}

/// Setting a clear bit below `l` leaves one clear bit fewer there.
pub proof fn lemma_count_after_set(disk: Seq<Seq<u8>>, start: nat, i: nat, l: nat)
    requires
        crate::block_dev::blocks_well_sized(disk),
        bit_block(start, i) < disk.len(),
        l == 0 || bit_block(start, (l - 1) as nat) < disk.len(),
        !bitmap_bit(disk, start, i),
    ensures
        clear_count(with_bit(disk, start, i, true), start, l) + (if i < l {
            1nat
        } else {
            0nat
        }) == clear_count(disk, start, l),
    decreases l,
{
    if l > 0 {
        let m = (l - 1) as nat;
        if m > 0 {
            assert(bit_block(start, (m - 1) as nat) <= bit_block(start, m)) by (nonlinear_arith)
                requires
                    m > 0,
                    bit_block(start, (m - 1) as nat) == start + (m - 1) as nat / 4096,
                    bit_block(start, m) == start + m / 4096,
            ;
        }
        lemma_count_after_set(disk, start, i, m);
        lemma_with_bit_other(disk, start, i, m, true);
    }
}

/// A bit that lies in a zero byte is clear.
pub proof fn lemma_zero_bit(disk: Seq<Seq<u8>>, start: nat, j: nat)
    requires
        disk[bit_block(start, j)][bit_byte(j)] == 0u8,
    ensures
        !bitmap_bit(disk, start, j),
{
    let k = bit_shift(j);
    assert(((0u8 >> k) & 1u8) == 0u8) by (bit_vector);
}

/// With none of the first `l` bits set, all of them are clear.
pub proof fn lemma_all_clear_count(disk: Seq<Seq<u8>>, start: nat, l: nat)
    requires
        forall|j: nat| j < l ==> !#[trigger] bitmap_bit(disk, start, j),
    ensures
        clear_count(disk, start, l) == l,
    decreases l,
{
    if l > 0 {
        lemma_all_clear_count(disk, start, (l - 1) as nat);
    }
}

} // verus!
