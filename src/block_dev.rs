use vstd::prelude::*;

use crate::BLOCK_SIZE;

verus! {

/// A device of fixed-size blocks addressed from zero.
///
/// `blocks()` is the device's content: one byte sequence per block.
pub trait BlockDevice {
    spec fn blocks(&self) -> Seq<Seq<u8>>;

    /// Number of blocks the device holds.
    fn num_blocks(&self) -> (n: usize)
        ensures
            n == self.blocks().len(),
    ;

    /// Copies block `block_id` into `buf`.
    fn read_block(&self, block_id: usize, buf: &mut [u8])
        requires
            block_id < self.blocks().len(),
            old(buf)@.len() == BLOCK_SIZE,
        ensures
            final(buf)@ == self.blocks()[block_id as int],
    ;

    /// Replaces block `block_id` by `buf`.
    fn write_block(&mut self, block_id: usize, buf: &[u8])
        requires
            block_id < old(self).blocks().len(),
            buf@.len() == BLOCK_SIZE,
        ensures
            final(self).blocks() == old(self).blocks().update(block_id as int, buf@),
    ;

    /// Identifier of the device, reported by `fstat`.
    fn get_dev_id(&self) -> usize;
}

/// Every block of `blocks` is exactly one block long.
pub open spec fn blocks_well_sized(blocks: Seq<Seq<u8>>) -> bool {
    forall|i: int| 0 <= i < blocks.len() ==> (#[trigger] blocks[i]).len() == BLOCK_SIZE
}

/// A block device held in memory, as one byte vector.
pub struct MemoryDevice {
    data: Vec<u8>,
    dev_id: usize,
}

impl MemoryDevice {
    pub closed spec fn spec_blocks(&self) -> Seq<Seq<u8>> {
        Seq::new(
            (self.data@.len() / BLOCK_SIZE as nat) as nat,
            |i: int| self.data@.subrange(i * BLOCK_SIZE, i * BLOCK_SIZE + BLOCK_SIZE),
        )
    }

    /// A zero-filled device of `n` blocks.
    pub fn new(n: usize, dev_id: usize) -> (r: Self)
        requires
            n * BLOCK_SIZE <= usize::MAX,
        ensures
            r.blocks().len() == n,
            forall|i: int, j: int|
                0 <= i < n && 0 <= j < BLOCK_SIZE ==> #[trigger] r.blocks()[i][j] == 0u8,
            blocks_well_sized(r.blocks()),
    {
        let total: usize = n * BLOCK_SIZE;
        let mut data: Vec<u8> = Vec::new();
        while data.len() < total
            invariant
                data.len() <= total,
                forall|k: int| 0 <= k < data.len() ==> data@[k] == 0u8,
            decreases total - data.len(),
        {
            data.push(0u8);
        }
        let r = MemoryDevice { data, dev_id };
        proof {
            assert(r.data@.len() == n * BLOCK_SIZE);
            assert((n * BLOCK_SIZE) as nat / BLOCK_SIZE as nat == n) by (nonlinear_arith);
            assert forall|i: int, j: int| 0 <= i < n && 0 <= j < BLOCK_SIZE implies #[trigger] r.blocks()[i][j] == 0u8 by {
                assert(i * BLOCK_SIZE + j < n * BLOCK_SIZE) by (nonlinear_arith)
                    requires 0 <= i < n, 0 <= j < BLOCK_SIZE;
                assert(0 <= i * BLOCK_SIZE) by (nonlinear_arith) requires 0 <= i;
            }
            assert forall|i: int| 0 <= i < r.blocks().len() implies (#[trigger] r.blocks()[i]).len() == BLOCK_SIZE by {
                assert(i * BLOCK_SIZE + BLOCK_SIZE <= n * BLOCK_SIZE) by (nonlinear_arith)
                    requires 0 <= i < n;
                assert(0 <= i * BLOCK_SIZE) by (nonlinear_arith) requires 0 <= i;
            }
        }
        r
    }
}

impl MemoryDevice {
    /// A device over the image `data`, whose length is a whole number of blocks.
    pub fn from_bytes(data: Vec<u8>, dev_id: usize) -> (r: Self)
        requires
            data@.len() % 512 == 0,
        ensures
            blocks_well_sized(r.blocks()),
            r.blocks().len() == data@.len() / 512,
            forall|i: int, j: int|
                0 <= i < r.blocks().len() && 0 <= j < BLOCK_SIZE ==> #[trigger] r.blocks()[i][j]
                    == data@[i * 512 + j],
    {
        let r = MemoryDevice { data, dev_id };
        proof {
            assert forall|i: int| 0 <= i < r.blocks().len() implies (#[trigger] r.blocks()[i]).len() == BLOCK_SIZE by {
                assert(i * BLOCK_SIZE + BLOCK_SIZE <= r.data@.len()) by (nonlinear_arith)
                    requires 0 <= i < r.data@.len() / 512;
                assert(0 <= i * BLOCK_SIZE) by (nonlinear_arith) requires 0 <= i;
            }
            assert forall|i: int, j: int|
                0 <= i < r.blocks().len() && 0 <= j < BLOCK_SIZE implies #[trigger] r.blocks()[i][j]
                    == r.data@[i * 512 + j] by {
                assert(i * BLOCK_SIZE + BLOCK_SIZE <= r.data@.len()) by (nonlinear_arith)
                    requires 0 <= i < r.data@.len() / 512;
                assert(0 <= i * BLOCK_SIZE) by (nonlinear_arith) requires 0 <= i;
            }
        }
        r
    }

    /// The whole image, block after block.
    pub fn into_bytes(self) -> (r: Vec<u8>)
        ensures
            r@.len() / 512 == self.blocks().len(),
            forall|i: int, j: int|
                0 <= i < self.blocks().len() && 0 <= j < BLOCK_SIZE ==> r@[i * 512 + j]
                    == #[trigger] self.blocks()[i][j],
    {
        proof {
            assert forall|i: int, j: int|
                0 <= i < self.blocks().len() && 0 <= j < BLOCK_SIZE implies self.data@[i * 512 + j]
                    == #[trigger] self.blocks()[i][j] by {
                assert(i * BLOCK_SIZE + BLOCK_SIZE <= self.data@.len()) by (nonlinear_arith)
                    requires 0 <= i < self.data@.len() / 512;
                assert(0 <= i * BLOCK_SIZE) by (nonlinear_arith) requires 0 <= i;
            }
        }
        self.data
    }
}

impl BlockDevice for MemoryDevice {
    open spec fn blocks(&self) -> Seq<Seq<u8>> {
        self.spec_blocks()
    }

    fn num_blocks(&self) -> (n: usize) {
        self.data.len() / BLOCK_SIZE
    }

    fn read_block(&self, block_id: usize, buf: &mut [u8]) {
        let len: usize = self.data.len();
        proof {
            assert(block_id * BLOCK_SIZE + BLOCK_SIZE <= self.data@.len()) by (nonlinear_arith)
                requires block_id < self.data@.len() / 512;
        }
        let base: usize = block_id * BLOCK_SIZE;
        let mut i: usize = 0;
        while i < BLOCK_SIZE
            invariant
                buf@.len() == BLOCK_SIZE,
                base == block_id * BLOCK_SIZE,
                base + BLOCK_SIZE <= self.data@.len(),
                i <= BLOCK_SIZE,
                forall|k: int| 0 <= k < i ==> buf@[k] == self.data@[base + k],
            decreases BLOCK_SIZE - i,
        {
            buf[i] = self.data[base + i];
            i = i + 1;
        }
        proof {
            assert(buf@ =~= self.data@.subrange(base as int, base + BLOCK_SIZE));
        }
    }

    fn write_block(&mut self, block_id: usize, buf: &[u8]) {
        let len: usize = self.data.len();
        proof {
            assert(block_id * BLOCK_SIZE + BLOCK_SIZE <= self.data@.len()) by (nonlinear_arith)
                requires block_id < self.data@.len() / 512;
        }
        let base: usize = block_id * BLOCK_SIZE;
        let mut i: usize = 0;
        while i < BLOCK_SIZE
            invariant
                buf@.len() == BLOCK_SIZE,
                base == block_id * BLOCK_SIZE,
                self.data@.len() == old(self).data@.len(),
                base + BLOCK_SIZE <= self.data@.len(),
                i <= BLOCK_SIZE,
                forall|k: int| 0 <= k < i ==> self.data@[base + k] == buf@[k],
                forall|k: int|
                    0 <= k < self.data@.len() && !(base <= k < base + i) ==> self.data@[k]
                        == old(self).data@[k],
            decreases BLOCK_SIZE - i,
        {
            self.data.set(base + i, buf[i]);
            i = i + 1;
        }
        proof {
            let ob = old(self).spec_blocks();
            let nb = self.spec_blocks();
            let upd = ob.update(block_id as int, buf@);
            assert(nb.len() == upd.len());
            assert forall|j: int| 0 <= j < nb.len() implies nb[j] == upd[j] by {
                if j == block_id {
                    assert(nb[j] =~= buf@);
                } else {
                    assert(j * BLOCK_SIZE + BLOCK_SIZE <= self.data@.len()) by (nonlinear_arith)
                        requires 0 <= j < self.data@.len() / 512;
                    assert(0 <= j * BLOCK_SIZE) by (nonlinear_arith) requires 0 <= j;
                    assert(j < block_id ==> j * BLOCK_SIZE + BLOCK_SIZE <= base) by (nonlinear_arith)
                        requires base == block_id * BLOCK_SIZE;
                    assert(j > block_id ==> base + BLOCK_SIZE <= j * BLOCK_SIZE) by (nonlinear_arith)
                        requires base == block_id * BLOCK_SIZE;
                    assert(nb[j] =~= ob[j]);
                }
            }
            assert(nb =~= upd);
        }
    }

    fn get_dev_id(&self) -> usize {
        self.dev_id
    }
}

} // verus!
