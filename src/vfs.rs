use vstd::prelude::*;
use vstd::string::StringSliceAdditionalSpecFns;

use crate::block_cache::splice;
use crate::block_dev::BlockDevice;
use crate::efs::EasyFileSystem;
use crate::layout::{
    ids_in, entry_inode, entry_name, lemma_decode_unique, read_len, valid_name, DirEntry, DiskInode,
    DiskInodeType, DIRENTRY_SIZE, DISK_INODE_SIZE,
};
use crate::BLOCK_SIZE;

verus! {

/// The 32-byte entries of a directory whose content is `c`.
pub open spec fn dir_entries(c: Seq<u8>) -> Seq<Seq<u8>> {
    Seq::new(c.len() / 32, |i: int| c.subrange(32 * i, 32 * i + 32))
}

/// Index of the first entry of `es` named `name`, if any.
#[verifier::opaque]
pub open spec fn first_named(es: Seq<Seq<u8>>, name: Seq<u8>) -> Option<int> {
    if exists|i: int| 0 <= i < es.len() && entry_name(es[i]) == name {
        Some(
            choose|i: int|
                0 <= i < es.len() && entry_name(es[i]) == name && forall|j: int|
                    0 <= j < i ==> entry_name(#[trigger] es[j]) != name,
        )
    } else {
        None
    }
}

/// A handle on one inode of a filesystem: where its disk inode is stored.
pub struct Inode {
    pub block_id: usize,
    pub block_offset: usize,
}

impl Inode {
    /// The 128 bytes that hold the disk inode.
    pub open spec fn raw(&self, disk: Seq<Seq<u8>>) -> Seq<u8> {
        disk[self.block_id as int].subrange(
            self.block_offset as int,
            self.block_offset + DISK_INODE_SIZE,
        )
    }

    /// The disk inode as it stands on `disk`.
    pub open spec fn disk_inode(&self, disk: Seq<Seq<u8>>) -> DiskInode {
        choose|d: DiskInode| DiskInode::decodes_to(self.raw(disk), d)
    }

    /// The bytes of the file or directory.
    pub open spec fn content(&self, disk: Seq<Seq<u8>>) -> Seq<u8> {
        self.disk_inode(disk).content(disk)
    }

    /// The handle points into the inode area of `fs`, and the disk inode there
    /// maps its blocks inside the data area.
    pub open spec fn valid<D: BlockDevice>(&self, fs: &EasyFileSystem<D>) -> bool {
        &&& fs.wf()
        &&& fs.inode_area_start() <= self.block_id < fs.data_bitmap.start()
        &&& self.block_offset + DISK_INODE_SIZE <= BLOCK_SIZE
        &&& self.block_offset % 128 == 0
        &&& exists|d: DiskInode| DiskInode::decodes_to(self.raw(fs.disk()), d)
        &&& self.disk_inode(fs.disk()).wf(fs.disk(), fs.data_area_start())
    }

    /// The blocks of the inode have their data-bitmap bits set.
    pub open spec fn held<D: BlockDevice>(&self, fs: &EasyFileSystem<D>) -> bool {
        let d = self.disk_inode(fs.disk());
        blocks_held(fs, d.all_ids(fs.disk(), crate::layout::data_blocks_of(d.size as nat)))
    }

    /// The inode number that the handle's place stands for.
    pub open spec fn ino<D: BlockDevice>(&self, fs: &EasyFileSystem<D>) -> nat {
        ((self.block_id - fs.inode_area_start()) * 4 + self.block_offset / 128) as nat
    }

    /// The handle's inode number is in range and marked taken.
    pub open spec fn ino_held<D: BlockDevice>(&self, fs: &EasyFileSystem<D>) -> bool {
        &&& self.ino(fs) < fs.inode_count()
        &&& fs.inode_bitmap.bit(fs.disk(), self.ino(fs))
    }

    pub open spec fn is_dir_on(&self, disk: Seq<Seq<u8>>) -> bool {
        self.disk_inode(disk).type_ == DiskInodeType::Directory
    }

    pub fn new(block_id: u32, block_offset: usize) -> (r: Self)
        ensures
            r.block_id == block_id,
            r.block_offset == block_offset,
    {
        Inode { block_id: block_id as usize, block_offset }
    }

    /// Reads the disk inode.
    fn read_disk_inode<D: BlockDevice>(&self, fs: &mut EasyFileSystem<D>) -> (d: DiskInode)
        requires
            self.valid(old(fs)),
        ensures
            final(fs).wf(),
            final(fs).disk() == old(fs).disk(),
            final(fs).inode_bitmap == old(fs).inode_bitmap,
            final(fs).data_bitmap == old(fs).data_bitmap,
            final(fs).data_area_start() == old(fs).data_area_start(),
            final(fs).inode_area_start() == old(fs).inode_area_start(),
            DiskInode::decodes_to(self.raw(old(fs).disk()), d),
            d.content(old(fs).disk()) == self.content(old(fs).disk()),
            d.wf(old(fs).disk(), old(fs).data_area_start()),
            d.in_disk(old(fs).disk()),
            d.type_ == self.disk_inode(old(fs).disk()).type_,
            d.size == self.disk_inode(old(fs).disk()).size,
    {
        proof {
            fs.lemma_wf();
        }
        let ghost snap = *fs;
        let bytes = fs.cache.read(self.block_id, self.block_offset, DISK_INODE_SIZE);
        proof {
            snap.lemma_wf_cache_change(fs);
        }
        let d = DiskInode::from_bytes(bytes.as_slice());
        proof {
            let disk = old(fs).disk();
            lemma_decode_unique(self.raw(disk), d, self.disk_inode(disk), disk);
            d.lemma_wf_in_disk(disk, fs.data_area_start());
        }
        d
    }

    /// Stores `d` as the disk inode.
    fn write_disk_inode<D: BlockDevice>(&self, fs: &mut EasyFileSystem<D>, d: &DiskInode)
        requires
            old(fs).wf(),
            old(fs).inode_area_start() <= self.block_id < old(fs).data_bitmap.start(),
            self.block_offset + DISK_INODE_SIZE <= BLOCK_SIZE,
        ensures
            final(fs).wf(),
            final(fs).inode_bitmap == old(fs).inode_bitmap,
            final(fs).data_bitmap == old(fs).data_bitmap,
            final(fs).data_area_start() == old(fs).data_area_start(),
            final(fs).inode_area_start() == old(fs).inode_area_start(),
            DiskInode::decodes_to(self.raw(final(fs).disk()), *d),
            final(fs).disk().len() == old(fs).disk().len(),
            forall|b: int|
                0 <= b < old(fs).disk().len() && b != self.block_id ==> #[trigger] final(fs).disk()[b]
                    == old(fs).disk()[b],
            final(fs).disk()[self.block_id as int] == splice(
                old(fs).disk()[self.block_id as int],
                self.block_offset as int,
                self.raw(final(fs).disk()),
            ),
    {
        proof {
            fs.lemma_wf();
        }
        let bytes = d.to_bytes();
        let ghost snap = *fs;
        fs.cache.modify(self.block_id, self.block_offset, bytes.as_slice());
        proof {
            snap.lemma_wf_cache_change(fs);
        }
        proof {
            let nd = fs.disk();
            assert(self.raw(nd) =~= bytes@);
        }
    }
}

/// A disk inode keeps its blocks, its content and its well-formedness when the
/// disk changes only outside the blocks it uses.
pub proof fn lemma_frame(d: DiskInode, disk1: Seq<Seq<u8>>, disk2: Seq<Seq<u8>>, lo: nat)
    requires
        d.wf(disk1, lo),
        disk1.len() == disk2.len(),
        forall|i: int|
            0 <= i < d.all_ids(disk1, crate::layout::data_blocks_of(d.size as nat)).len() ==> disk2[d.all_ids(
                disk1,
                crate::layout::data_blocks_of(d.size as nat),
            )[i] as int] == disk1[d.all_ids(disk1, crate::layout::data_blocks_of(d.size as nat))[i] as int],
    ensures
        d.all_ids(disk2, crate::layout::data_blocks_of(d.size as nat)) == d.all_ids(
            disk1,
            crate::layout::data_blocks_of(d.size as nat),
        ),
        d.content(disk2) == d.content(disk1),
        d.wf(disk2, lo),
{
    let n = crate::layout::data_blocks_of(d.size as nat);
    let all = d.all_ids(disk1, n);
    let dn = d.data_ids(disk1, n);
    if n > 28 {
        assert(all[dn.len() as int] == d.indirect1);
    }
    if n > 156 {
        assert(all[dn.len() as int + 1] == d.indirect2);
    }
    assert forall|k: nat| k < n implies #[trigger] d.block_at(disk2, k) == d.block_at(disk1, k) by {
        if k >= 156 {
            let j = ((k - 156) as nat / 128) as int;
            assert(j < crate::layout::l2_count(n)) by (nonlinear_arith)
                requires
                    j == (k - 156) as nat / 128,
                    k < n,
                    n > 156,
                    crate::layout::l2_count(n) == ((n - 29) as nat) / 128,
                    k >= 156,
            ;
            assert(all[dn.len() as int + 2 + j] == d.l2_ids(disk1, n)[j]);
        }
    }
    assert(d.data_ids(disk2, n) =~= dn);
    assert(d.l2_ids(disk2, n) =~= d.l2_ids(disk1, n));
    assert(d.all_ids(disk2, n) =~= all);
    assert forall|p: int| 0 <= p < d.size implies #[trigger] d.content(disk2)[p] == d.content(disk1)[p] by {
        let k = (p / 512) as nat;
        assert(k < n) by (nonlinear_arith)
            requires
                k == p / 512,
                0 <= p < d.size,
                n == (d.size + 511) / 512,
        ;
        assert(all[k as int] == d.block_at(disk1, k));
    }
    assert(d.content(disk2) =~= d.content(disk1));
}

impl Inode {
    /// Copies the bytes from `offset` on into `buf`, as many as fit; returns how many.
    pub fn read_at<D: BlockDevice>(&self, fs: &mut EasyFileSystem<D>, offset: usize, buf: &mut [u8]) -> (r: usize)
        requires
            self.valid(old(fs)),
        ensures
            final(fs).wf(),
            final(fs).disk() == old(fs).disk(),
            self.valid(final(fs)),
            r == read_len(self.content(old(fs).disk()).len(), offset as nat, old(buf)@.len()),
            final(buf)@.len() == old(buf)@.len(),
            offset < self.content(old(fs).disk()).len() ==> final(buf)@.subrange(0, r as int)
                == self.content(old(fs).disk()).subrange(offset as int, offset + r),
            final(buf)@.subrange(r as int, old(buf)@.len() as int) == old(buf)@.subrange(
                r as int,
                old(buf)@.len() as int,
            ),
    {
        let d = self.read_disk_inode(fs);
        proof {
            fs.lemma_wf();
        }
        let ghost snap = *fs;
        let r = d.read_at(offset, buf, &mut fs.cache);
        proof {
            snap.lemma_wf_cache_change(fs);
        }
        r
    }

    /// Number of entries of the directory.
    fn entry_count(d: &DiskInode) -> (r: usize)
        ensures
            r == d.size / 32,
    {
        (d.size as usize) / DIRENTRY_SIZE
    }

    /// Reads entry `i` of the directory whose disk inode is `d`.
    fn read_entry<D: BlockDevice>(fs: &mut EasyFileSystem<D>, d: &DiskInode, i: usize) -> (e: DirEntry)
        requires
            old(fs).wf(),
            d.in_disk(old(fs).disk()),
            i < d.size / 32,
        ensures
            final(fs).wf(),
            final(fs).disk() == old(fs).disk(),
            final(fs).inode_bitmap == old(fs).inode_bitmap,
            final(fs).data_bitmap == old(fs).data_bitmap,
            final(fs).data_area_start() == old(fs).data_area_start(),
            final(fs).inode_area_start() == old(fs).inode_area_start(),
            e.bytes() == dir_entries(d.content(old(fs).disk()))[i as int],
            entry_inode(e.bytes()) == e.inode_number,
    {
        let mut buf: [u8; 32] = [0u8; 32];
        proof {
            fs.lemma_wf();
        }
        let ghost snap = *fs;
        let n = d.read_at(DIRENTRY_SIZE * i, &mut buf, &mut fs.cache);
        proof {
            snap.lemma_wf_cache_change(fs);
        }
        proof {
            assert(n == 32) by (nonlinear_arith)
                requires
                    i < d.size / 32,
                    n == read_len(d.size as nat, 32 * i as nat, 32),
            ;
            assert(buf@.subrange(0, 32) =~= buf@);
        }
        DirEntry::from_bytes(&buf)
    }

    /// Number of the first entry named `name` of the directory `d`.
    #[verifier::rlimit(100)]
    fn find_inode_id<D: BlockDevice>(fs: &mut EasyFileSystem<D>, name: &[u8], d: &DiskInode) -> (r: Option<u32>)
        requires
            old(fs).wf(),
            d.in_disk(old(fs).disk()),
        ensures
            final(fs).wf(),
            final(fs).disk() == old(fs).disk(),
            final(fs).inode_bitmap == old(fs).inode_bitmap,
            final(fs).data_bitmap == old(fs).data_bitmap,
            final(fs).data_area_start() == old(fs).data_area_start(),
            final(fs).inode_area_start() == old(fs).inode_area_start(),
            match first_named(dir_entries(d.content(old(fs).disk())), name@) {
                None => r is None,
                Some(i) => r == Some(entry_inode(dir_entries(d.content(old(fs).disk()))[i])),
            },
    {
        let ghost es = dir_entries(d.content(fs.disk()));
        let count = Self::entry_count(d);
        let mut i: usize = 0;
        while i < count
            invariant
                fs.wf(),
                fs.disk() == old(fs).disk(),
                fs.inode_bitmap == old(fs).inode_bitmap,
                fs.data_bitmap == old(fs).data_bitmap,
                fs.data_area_start() == old(fs).data_area_start(),
                fs.inode_area_start() == old(fs).inode_area_start(),
                d.in_disk(fs.disk()),
                es == dir_entries(d.content(fs.disk())),
                count == es.len(),
                i <= count,
                forall|j: int| 0 <= j < i ==> entry_name(#[trigger] es[j]) != name@,
            decreases count - i,
        {
            let e = Self::read_entry(fs, d, i);
            let en = e.name();
            if bytes_eq(en.as_slice(), name) {
                proof {
                    reveal(first_named);
                    let ii = i as int;
                    assert(entry_name(es[ii]) == name@);
                    assert(0 <= ii < es.len() && entry_name(es[ii]) == name@ && forall|j: int|
                        0 <= j < ii ==> entry_name(#[trigger] es[j]) != name@);
                    let kk = first_named(es, name@)->Some_0;
                    assert(0 <= kk < es.len() && entry_name(es[kk]) == name@ && forall|j: int|
                        0 <= j < kk ==> entry_name(#[trigger] es[j]) != name@);
                    if kk < ii {
                        assert(entry_name(es[kk]) != name@);
                    } else if kk > ii {
                        assert(entry_name(es[ii]) != name@);
                    }
                }
                return Some(e.inode_number());
            }
            i = i + 1;
        }
        proof {
            reveal(first_named);
            assert(!(exists|k: int| 0 <= k < es.len() && entry_name(es[k]) == name@)) by {
                if exists|k: int| 0 <= k < es.len() && entry_name(es[k]) == name@ {
                    let k = choose|k: int| 0 <= k < es.len() && entry_name(es[k]) == name@;
                    assert(entry_name(es[k]) != name@);
                }
            }
        }
        None
    }

    /// The inode named `name` in this directory, if there is one.
    pub fn find<D: BlockDevice>(&self, fs: &mut EasyFileSystem<D>, name: &str) -> (r: Option<Inode>)
        requires
            self.valid(old(fs)),
        ensures
            final(fs).wf(),
            final(fs).disk() == old(fs).disk(),
            self.valid(final(fs)),
            first_named(dir_entries(self.content(old(fs).disk())), name.spec_bytes()) is None ==> r is None,
            match r {
                Some(ino) => match first_named(dir_entries(self.content(old(fs).disk())), name.spec_bytes()) {
                    Some(i) => {
                        let id = entry_inode(dir_entries(self.content(old(fs).disk()))[i]) as nat;
                        &&& id < old(fs).inode_count()
                        &&& ino.block_id == old(fs).inode_pos(id).0
                        &&& ino.block_offset == old(fs).inode_pos(id).1
                    },
                    None => false,
                },
                None => true,
            },
            match first_named(dir_entries(self.content(old(fs).disk())), name.spec_bytes()) {
                Some(i) => entry_inode(dir_entries(self.content(old(fs).disk()))[i]) < old(fs).inode_count()
                    ==> r is Some,
                None => true,
            },
    {
        let d = self.read_disk_inode(fs);
        match Self::find_inode_id(fs, name.as_bytes(), &d) {
            None => None,
            Some(id) => {
                proof {
                    fs.lemma_wf();
                }
                if (id as u64) < fs.inode_bitmap.maximum() as u64 {
                    let (block_id, block_offset) = fs.get_disk_inode_pos(id);
                    Some(Inode::new(block_id, block_offset))
                } else {
                    None
                }
            },
        }
    }

    /// Names of the directory's entries, in stored order.
    pub fn ls<D: BlockDevice>(&self, fs: &mut EasyFileSystem<D>) -> (r: Vec<Vec<u8>>)
        requires
            self.valid(old(fs)),
        ensures
            final(fs).wf(),
            final(fs).disk() == old(fs).disk(),
            self.valid(final(fs)),
            r@.len() == dir_entries(self.content(old(fs).disk())).len(),
            forall|i: int|
                0 <= i < r@.len() ==> (#[trigger] r@[i])@ == entry_name(
                    dir_entries(self.content(old(fs).disk()))[i],
                ),
    {
        let d = self.read_disk_inode(fs);
        let ghost es = dir_entries(d.content(fs.disk()));
        let count = Self::entry_count(&d);
        let mut r: Vec<Vec<u8>> = Vec::new();
        let mut i: usize = 0;
        while i < count
            invariant
                fs.wf(),
                fs.disk() == old(fs).disk(),
                fs.inode_bitmap == old(fs).inode_bitmap,
                fs.data_bitmap == old(fs).data_bitmap,
                fs.data_area_start() == old(fs).data_area_start(),
                fs.inode_area_start() == old(fs).inode_area_start(),
                d.in_disk(fs.disk()),
                es == dir_entries(d.content(fs.disk())),
                count == es.len(),
                i <= count,
                r@.len() == i,
                forall|j: int| 0 <= j < i ==> (#[trigger] r@[j])@ == entry_name(es[j]),
            decreases count - i,
        {
            let e = Self::read_entry(fs, &d, i);
            let nm = e.name();
            let ghost rb = r@;
            r.push(nm);
            proof {
                assert(r@ == rb.push(nm));
                assert forall|j: int| 0 <= j < i + 1 implies (#[trigger] r@[j])@ == entry_name(es[j]) by {
                    if j < i {
                        assert(r@[j] == rb[j]);
                    }
                }
            }
            i = i + 1;
        }
        r
    }
}

/// Whether `a` and `b` hold the same bytes.
pub fn bytes_eq(a: &[u8], b: &[u8]) -> (r: bool)
    ensures
        r == (a@ == b@),
{
    if a.len() != b.len() {
        return false;
    }
    let mut i: usize = 0;
    while i < a.len()
        invariant
            a@.len() == b@.len(),
            i <= a@.len(),
            forall|j: int| 0 <= j < i ==> a@[j] == b@[j],
        decreases a@.len() - i,
    {
        if a[i] != b[i] {
            return false;
        }
        i = i + 1;
    }
    proof {
        assert(a@ =~= b@);
    }
    true
}

/// `new` is what a write of `b` at `offset` makes of the content `old`: `b`
/// stands at `offset`, the content is as long as needed, and the bytes that
/// stood before were kept outside the written range.
pub open spec fn write_result(old: Seq<u8>, new: Seq<u8>, offset: nat, b: Seq<u8>) -> bool {
    &&& new.len() == if offset + b.len() > old.len() {
        offset + b.len()
    } else {
        old.len()
    }
    &&& new.subrange(offset as int, (offset + b.len()) as int) == b
    &&& forall|p: int| 0 <= p < offset && p < old.len() ==> new[p] == old[p]
    &&& forall|p: int| offset + b.len() <= p < old.len() ==> new[p] == old[p]
}

/// `s` holds `x`.
pub fn contains_u32(s: &Vec<u32>, x: u32) -> (r: bool)
    ensures
        r == s@.contains(x),
{
    let mut i: usize = 0;
    while i < s.len()
        invariant
            i <= s@.len(),
            forall|j: int| 0 <= j < i ==> s@[j] != x,
        decreases s@.len() - i,
    {
        if s[i] == x {
            return true;
        }
        i = i + 1;
    }
    false
}

/// Every block that differs between `d1` and `d2` is one of the data-bitmap
/// blocks of `fs`, or one listed in `s`.
pub open spec fn changed_within<D: BlockDevice>(
    fs: &EasyFileSystem<D>,
    d1: Seq<Seq<u8>>,
    d2: Seq<Seq<u8>>,
    s: Seq<u32>,
) -> bool {
    &&& d1.len() == d2.len()
    &&& forall|b: int|
        0 <= b < d1.len() && !(fs.data_bitmap.start() <= b < fs.data_area_start()) && !s.contains(
            b as u32,
        ) ==> #[trigger] d2[b] == d1[b]
}

/// Blocks that the fs fields name keep their meaning while only the cache changes.
pub open spec fn same_layout<D: BlockDevice>(a: &EasyFileSystem<D>, b: &EasyFileSystem<D>) -> bool {
    &&& a.inode_bitmap == b.inode_bitmap
    &&& a.data_bitmap == b.data_bitmap
    &&& a.data_area_start() == b.data_area_start()
    &&& a.inode_area_start() == b.inode_area_start()
}

/// Every block of `ids` lies in the data area of `fs` and has its data-bitmap bit set.
pub open spec fn blocks_held<D: BlockDevice>(fs: &EasyFileSystem<D>, ids: Seq<u32>) -> bool {
    forall|i: int|
        0 <= i < ids.len() ==> fs.data_area_start() <= #[trigger] ids[i] && ids[i] - fs.data_area_start()
            < fs.data_bitmap.max_bits() && fs.data_bitmap.bit(
            fs.disk(),
            (ids[i] - fs.data_area_start()) as nat,
        )
}

/// Data-bitmap bits, and so the count of free data blocks, do not change when
/// the data-bitmap blocks do not.
proof fn lemma_bits_frame<D: BlockDevice>(f1: &EasyFileSystem<D>, f2: &EasyFileSystem<D>)
    requires
        f1.wf(),
        same_layout(f1, f2),
        f1.disk().len() == f2.disk().len(),
        forall|b: int|
            f1.data_bitmap.start() <= b < f1.data_area_start() ==> #[trigger] f2.disk()[b] == f1.disk()[b],
    ensures
        forall|j: nat|
            j < f1.data_bitmap.max_bits() ==> #[trigger] f2.data_bitmap.bit(f2.disk(), j)
                == f1.data_bitmap.bit(f1.disk(), j),
        f2.free_data_blocks() == f1.free_data_blocks(),
{
    f1.lemma_wf();
    let st = f1.data_bitmap.start();
    let nb = f1.data_bitmap.num_blocks();
    assert forall|j: nat| j < f1.data_bitmap.max_bits() implies #[trigger] f2.data_bitmap.bit(f2.disk(), j)
        == f1.data_bitmap.bit(f1.disk(), j) by {
        assert(j / 4096 < nb) by (nonlinear_arith)
            requires
                j < nb * 4096,
        ;
        assert(f2.disk()[crate::bitmap::bit_block(st, j)] == f1.disk()[crate::bitmap::bit_block(st, j)]);
    }
    let lim = f1.data_limit();
    assert forall|j: nat| j < lim implies #[trigger] crate::bitmap::bitmap_bit(f1.disk(), st, j)
        == crate::bitmap::bitmap_bit(f2.disk(), st, j) by {
        assert(f2.data_bitmap.bit(f2.disk(), j) == f1.data_bitmap.bit(f1.disk(), j));
    }
    crate::bitmap::lemma_count_frame(f1.disk(), f2.disk(), st, lim);
}

/// Freeing data block `b` clears its bit and leaves every other data-bitmap bit.
proof fn lemma_dealloc_bits(
    before: Seq<Seq<u8>>,
    after: Seq<Seq<u8>>,
    st: nat,
    nb: nat,
    b: u32,
    bit: nat,
    j: nat,
)
    requires
        after == crate::bitmap::with_bit(
            before.update(b as int, Seq::new(BLOCK_SIZE as nat, |i: int| 0u8)),
            st,
            bit,
            false,
        ),
        st + nb <= b < before.len(),
        bit < nb * 4096,
        j < nb * 4096,
        crate::block_dev::blocks_well_sized(before),
    ensures
        crate::bitmap::bitmap_bit(after, st, j) == if j == bit {
            false
        } else {
            crate::bitmap::bitmap_bit(before, st, j)
        },
{
    let mid = before.update(b as int, Seq::new(BLOCK_SIZE as nat, |i: int| 0u8));
    assert(bit / 4096 < nb) by (nonlinear_arith)
        requires
            bit < nb * 4096,
    ;
    assert(j / 4096 < nb) by (nonlinear_arith)
        requires
            j < nb * 4096,
    ;
    assert(mid[crate::bitmap::bit_block(st, j)] == before[crate::bitmap::bit_block(st, j)]);
    crate::bitmap::lemma_with_bit_other(mid, st, bit, j, false);
}

/// Blocks whose bits stay set keep being held.
proof fn lemma_held_frame<D: BlockDevice>(f1: &EasyFileSystem<D>, f2: &EasyFileSystem<D>, ids: Seq<u32>)
    requires
        f1.wf(),
        same_layout(f1, f2),
        f1.disk().len() == f2.disk().len(),
        forall|b: int|
            f1.data_bitmap.start() <= b < f1.data_area_start() ==> #[trigger] f2.disk()[b] == f1.disk()[b],
        blocks_held(f1, ids),
    ensures
        blocks_held(f2, ids),
        f2.free_data_blocks() == f1.free_data_blocks(),
{
    lemma_bits_frame(f1, f2);
    assert forall|i: int| 0 <= i < ids.len() implies f2.data_area_start() <= #[trigger] ids[i] && ids[i]
        - f2.data_area_start() < f2.data_bitmap.max_bits() && f2.data_bitmap.bit(
        f2.disk(),
        (ids[i] - f2.data_area_start()) as nat,
    ) by {
        assert(f1.data_bitmap.bit(f1.disk(), (ids[i] - f1.data_area_start()) as nat));
    }
}

/// Whether every block of `d` has its data-bitmap bit set.
fn blocks_all_held<D: BlockDevice>(fs: &mut EasyFileSystem<D>, d: &DiskInode) -> (r: bool)
    requires
        old(fs).wf(),
        d.wf(old(fs).disk(), old(fs).data_area_start()),
    ensures
        final(fs).wf(),
        final(fs).disk() == old(fs).disk(),
        same_layout(final(fs), old(fs)),
        r == blocks_held(old(fs), d.all_ids(old(fs).disk(), crate::layout::data_blocks_of(d.size as nat))),
{
    let ghost disk = fs.disk();
    let ghost das = fs.data_area_start();
    proof {
        fs.lemma_wf();
        d.lemma_wf_in_disk(disk, das);
        d.lemma_in_disk_index(disk);
    }
    let mut tmp: DiskInode = *d;
    let ghost s0 = *fs;
    let ids = tmp.clear_size(&mut fs.cache);
    proof {
        s0.lemma_wf_cache_change(fs);
    }
    let mut i: usize = 0;
    while i < ids.len()
        invariant
            fs.wf(),
            fs.disk() == disk,
            disk == old(fs).disk(),
            same_layout(fs, old(fs)),
            das == fs.data_area_start(),
            ids@ == d.all_ids(disk, crate::layout::data_blocks_of(d.size as nat)),
            crate::layout::ids_in(ids@, das, disk.len() as nat),
            i <= ids@.len(),
            forall|k: int|
                0 <= k < i ==> das <= #[trigger] ids@[k] && ids@[k] - das < fs.data_bitmap.max_bits()
                    && fs.data_bitmap.bit(disk, (ids@[k] - das) as nat),
        decreases ids@.len() - i,
    {
        proof {
            fs.lemma_wf();
        }
        let bit: u32 = ids[i] - fs.data_area_start_block;
        if bit as u64 >= fs.data_bitmap.maximum() as u64 {
            return false;
        }
        let ghost s1 = *fs;
        let set = fs.data_bitmap.test(&mut fs.cache, bit as usize);
        proof {
            s1.lemma_wf_cache_change(fs);
        }
        if !set {
            return false;
        }
        i = i + 1;
    }
    true
}

/// Grows `d` to `new_size` bytes with blocks taken from the data bitmap.
/// Fails, leaving `d` as it was, when the bitmap runs out or hands out a block
/// that `d` already uses.
fn grow<D: BlockDevice>(fs: &mut EasyFileSystem<D>, d: &mut DiskInode, new_size: u32) -> (ok: bool)
    requires
        old(fs).wf(),
        old(d).wf(old(fs).disk(), old(fs).data_area_start()),
        new_size > old(d).size,
    ensures
        final(fs).wf(),
        same_layout(final(fs), old(fs)),
        ok ==> final(d).size == new_size,
        !ok ==> *final(d) == *old(d),
        final(d).type_ == old(d).type_,
        final(d).wf(final(fs).disk(), old(fs).data_area_start()),
        final(d).content(final(fs).disk()).subrange(0, old(d).size as int) == old(d).content(old(fs).disk()),
        changed_within(
            old(fs),
            old(fs).disk(),
            final(fs).disk(),
            final(d).all_ids(final(fs).disk(), crate::layout::data_blocks_of(final(d).size as nat)),
        ),
        blocks_held(old(fs), old(d).all_ids(old(fs).disk(), crate::layout::data_blocks_of(old(d).size as nat)))
            ==> blocks_held(
            final(fs),
            final(d).all_ids(final(fs).disk(), crate::layout::data_blocks_of(final(d).size as nat)),
        ),
        blocks_held(old(fs), old(d).all_ids(old(fs).disk(), crate::layout::data_blocks_of(old(d).size as nat)))
            && crate::layout::data_blocks_of(new_size as nat) <= crate::layout::MAX_DATA_BLOCKS
            && old(fs).free_data_blocks() >= crate::layout::total_blocks_of(new_size as nat)
            - crate::layout::total_blocks_of(old(d).size as nat) ==> ok,
{
    let ghost held0 = blocks_held(
        old(fs),
        old(d).all_ids(old(fs).disk(), crate::layout::data_blocks_of(old(d).size as nat)),
    );
    let ghost disk0 = fs.disk();
    let ghost d0 = *d;
    let ghost das = fs.data_area_start();
    let ghost n0 = crate::layout::data_blocks_of(d.size as nat);
    proof {
        fs.lemma_wf();
        d.lemma_wf_in_disk(disk0, das);
    }
    if (new_size as u64 + 511) / 512 > crate::layout::MAX_DATA_BLOCKS as u64 {
        proof {
            assert(d.content(disk0).subrange(0, d.size as int) =~= d.content(disk0));
        }
        return false;
    }
    let ghost room0 = held0 && old(fs).free_data_blocks() >= crate::layout::total_blocks_of(new_size as nat)
        - crate::layout::total_blocks_of(d.size as nat);
    let need = d.blocks_num_needed(new_size) as usize;
    let mut tmp: DiskInode = *d;
    proof {
        tmp.lemma_in_disk_index(disk0);
    }
    let ghost snap = *fs;
    let existing = tmp.clear_size(&mut fs.cache);
    proof {
        snap.lemma_wf_cache_change(fs);
    }
    let mut v: Vec<u32> = Vec::new();
    let total: usize = fs.cache.num_blocks();
    while v.len() < need
        invariant
            fs.wf(),
            same_layout(fs, old(fs)),
            d0 == *d,
            d0 == *old(d),
            disk0 == old(fs).disk(),
            das == fs.data_area_start(),
            d.wf(disk0, das),
            existing@ == d.all_ids(disk0, n0),
            n0 == crate::layout::data_blocks_of(d.size as nat),
            total == fs.disk().len(),
            v@.len() <= need,
            fs.disk().len() == disk0.len(),
            forall|b: int|
                0 <= b < disk0.len() && !(fs.data_bitmap.start() <= b < fs.data_area_start()) ==> #[trigger] fs.disk()[b]
                    == disk0[b],
            crate::layout::no_dup(v@),
            crate::layout::ids_in(v@, das, disk0.len()),
            forall|i: int| 0 <= i < v@.len() ==> !existing@.contains(#[trigger] v@[i]),
            held0 == blocks_held(old(fs), existing@),
            held0 ==> blocks_held(fs, existing@),
            held0 ==> blocks_held(fs, v@),
            need == crate::layout::total_blocks_of(new_size as nat) - crate::layout::total_blocks_of(d.size as nat),
            room0 == (held0 && old(fs).free_data_blocks() >= need),
            room0 ==> fs.free_data_blocks() + v@.len() >= need,
        decreases need - v@.len(),
    {
        let ghost before = fs.disk();
        proof {
            fs.lemma_wf();
        }
        let got = fs.alloc_data();
        match got {
            None => {
                proof {
                    let all = d0.all_ids(disk0, n0);
                    assert forall|i: int| 0 <= i < all.len() implies fs.disk()[all[i] as int] == disk0[all[i] as int] by {
                        assert(all[i] >= das);
                    }
                    lemma_frame(d0, disk0, fs.disk(), das);
                    assert(d.content(fs.disk()).subrange(0, d.size as int) =~= d.content(fs.disk()));
                }
                return false;
            },
            Some(b) => {
                proof {
                    fs.lemma_wf();
                    let bit = (b - das) as nat;
                    assert(crate::bitmap::bit_block(fs.data_bitmap.start(), bit) < das) by (nonlinear_arith)
                        requires
                            bit < fs.data_bitmap.num_blocks() * 4096,
                            fs.data_bitmap.start() + fs.data_bitmap.num_blocks() == das,
                            crate::bitmap::bit_block(fs.data_bitmap.start(), bit) == fs.data_bitmap.start() + bit / 4096,
                    ;
                    assert(crate::bitmap::bit_block(fs.data_bitmap.start(), bit) >= fs.data_bitmap.start());
                    assert forall|q: int|
                        0 <= q < disk0.len() && !(fs.data_bitmap.start() <= q < fs.data_area_start()) implies #[trigger] fs.disk()[q]
                        == disk0[q] by {
                        assert(fs.disk()[q] == before[q]);
                    }
                }
                proof {
                    let st = fs.data_bitmap.start();
                    let bit = (b - das) as nat;
                    if held0 {
                        assert forall|i: int| 0 <= i < existing@.len() implies existing@[i] != b by {
                            let x = existing@[i];
                            assert(fs.data_bitmap.bit(before, (x - das) as nat));
                        }
                        assert forall|i: int| 0 <= i < v@.len() implies v@[i] != b by {
                            let x = v@[i];
                            assert(fs.data_bitmap.bit(before, (x - das) as nat));
                        }
                        // the bits held stay set
                        assert forall|i: int| 0 <= i < existing@.len() implies fs.data_bitmap.bit(
                            fs.disk(),
                            (existing@[i] - das) as nat,
                        ) by {
                            let j = (existing@[i] - das) as nat;
                            assert(j / 4096 < fs.data_bitmap.num_blocks()) by (nonlinear_arith)
                                requires
                                    j < fs.data_bitmap.num_blocks() * 4096,
                            ;
                            assert(bit / 4096 < fs.data_bitmap.num_blocks()) by (nonlinear_arith)
                                requires
                                    bit < fs.data_bitmap.num_blocks() * 4096,
                            ;
                            crate::bitmap::lemma_with_bit_other(before, st, bit, j, true);
                        }
                        assert forall|i: int| 0 <= i < v@.len() implies fs.data_bitmap.bit(
                            fs.disk(),
                            (v@[i] - das) as nat,
                        ) by {
                            let j = (v@[i] - das) as nat;
                            assert(j / 4096 < fs.data_bitmap.num_blocks()) by (nonlinear_arith)
                                requires
                                    j < fs.data_bitmap.num_blocks() * 4096,
                            ;
                            assert(bit / 4096 < fs.data_bitmap.num_blocks()) by (nonlinear_arith)
                                requires
                                    bit < fs.data_bitmap.num_blocks() * 4096,
                            ;
                            crate::bitmap::lemma_with_bit_other(before, st, bit, j, true);
                        }
                        assert(bit / 4096 < fs.data_bitmap.num_blocks()) by (nonlinear_arith)
                            requires
                                bit < fs.data_bitmap.num_blocks() * 4096,
                        ;
                        crate::bitmap::lemma_with_bit_other(before, st, bit, bit, true);
                        assert(fs.data_bitmap.bit(fs.disk(), bit));
                    }
                }
                if b as usize >= total || contains_u32(&existing, b) || contains_u32(&v, b) {
                    proof {
                        let all = d0.all_ids(disk0, n0);
                        assert forall|i: int| 0 <= i < all.len() implies fs.disk()[all[i] as int] == disk0[all[i] as int] by {
                            assert(all[i] >= das);
                        }
                        lemma_frame(d0, disk0, fs.disk(), das);
                        assert(d.content(fs.disk()).subrange(0, d.size as int) =~= d.content(fs.disk()));
                    }
                    return false;
                }
                let ghost vb = v@;
                v.push(b);
                proof {
                    assert forall|i: int| 0 <= i < v@.len() implies !existing@.contains(#[trigger] v@[i]) by {
                        if i < vb.len() {
                            assert(v@[i] == vb[i]);
                        }
                    }
                    assert forall|i: int, j: int| 0 <= i < v@.len() && 0 <= j < v@.len() && i != j implies v@[i]
                        != v@[j] by {
                        if i == vb.len() {
                            assert(vb.contains(v@[j]) || j == i);
                            if j < vb.len() { assert(vb[j] == v@[j]); }
                        } else if j == vb.len() {
                            if i < vb.len() { assert(vb[i] == v@[i]); }
                        } else {
                            assert(vb[i] == v@[i] && vb[j] == v@[j]);
                        }
                    }
                    assert forall|i: int| 0 <= i < v@.len() implies das <= #[trigger] v@[i] < disk0.len() by {
                        if i < vb.len() {
                            assert(vb[i] == v@[i]);
                        }
                    }
                    if held0 {
                        assert forall|i: int| 0 <= i < v@.len() implies fs.data_area_start() <= #[trigger] v@[i]
                            && v@[i] - fs.data_area_start() < fs.data_bitmap.max_bits() && fs.data_bitmap.bit(
                            fs.disk(),
                            (v@[i] - fs.data_area_start()) as nat,
                        ) by {
                            if i < vb.len() {
                                assert(vb[i] == v@[i]);
                            }
                        }
                    }
                }
            },
        }
    }
    let ghost disk1 = fs.disk();
    proof {
        let all = d0.all_ids(disk0, n0);
        assert forall|i: int| 0 <= i < all.len() implies disk1[all[i] as int] == disk0[all[i] as int] by {
            assert(all[i] >= das);
        }
        lemma_frame(d0, disk0, disk1, das);
        assert(crate::layout::ids_in(d.all_ids(disk1, n0), 0, disk1.len() as nat));
        assert(crate::layout::ids_in(v@, 0, disk1.len() as nat));
        fs.lemma_wf();
    }
    let ghost snap = *fs;
    d.increase_size(new_size, v, &mut fs.cache);
    proof {
        snap.lemma_wf_cache_change(fs);
    }
    let ghost snap_after = *fs;
    proof {
        let disk2 = fs.disk();
        let n2 = crate::layout::data_blocks_of(new_size as nat);
        let all2 = d.all_ids(disk2, n2);
        assert forall|i: int| 0 <= i < all2.len() implies das <= #[trigger] all2[i] < disk2.len() by {
            let x = all2[i];
            assert(all2.contains(x));
            if d0.all_ids(disk1, n0).contains(x) {
                let t = choose|t: int| 0 <= t < d0.all_ids(disk1, n0).len() && d0.all_ids(disk1, n0)[t] == x;
                assert(d0.all_ids(disk1, n0)[t] >= das);
            } else {
                let t = choose|t: int| 0 <= t < v@.len() && v@[t] == x;
                assert(v@[t] >= das);
            }
        }
        assert(d0.content(disk1) == d0.content(disk0));
        if held0 {
            assert forall|b: int| snap.data_bitmap.start() <= b < snap.data_area_start() implies #[trigger] disk2[b]
                == disk1[b] by {
                if all2.contains(b as u32) {
                    let t = choose|t: int| 0 <= t < all2.len() && all2[t] == b as u32;
                    assert(all2[t] >= das);
                }
            }
            lemma_held_frame(&snap, &snap_after, existing@);
            lemma_held_frame(&snap, &snap_after, v@);
            assert forall|i: int| 0 <= i < all2.len() implies fs.data_area_start() <= #[trigger] all2[i] && all2[i]
                - fs.data_area_start() < fs.data_bitmap.max_bits() && fs.data_bitmap.bit(
                fs.disk(),
                (all2[i] - fs.data_area_start()) as nat,
            ) by {
                let x = all2[i];
                assert(all2.contains(x));
                if d0.all_ids(disk1, n0).contains(x) {
                    let t = choose|t: int| 0 <= t < existing@.len() && existing@[t] == x;
                    assert(existing@[t] == x);
                } else {
                    let t = choose|t: int| 0 <= t < v@.len() && v@[t] == x;
                    assert(v@[t] == x);
                }
            }
        }
        assert forall|b: int|
            0 <= b < disk0.len() && !(fs.data_bitmap.start() <= b < fs.data_area_start()) && !all2.contains(
                b as u32,
            ) implies #[trigger] disk2[b] == disk0[b] by {
            assert(disk2[b] == disk1[b]);
        }
    }
    true
}

/// Only bytes `[off, off + 128)` of block `blk` may differ between `d1` and `d2` in that block.
pub open spec fn block_kept_outside(d1: Seq<Seq<u8>>, d2: Seq<Seq<u8>>, blk: int, off: int) -> bool {
    &&& d2[blk].len() == d1[blk].len()
    &&& forall|p: int| 0 <= p < d1[blk].len() && !(off <= p < off + 128) ==> #[trigger] d2[blk][p] == d1[blk][p]
}

impl Inode {
    /// Writes `buf` at `offset` into the file whose disk inode `d` is stored at
    /// this handle, growing it first when needed, and stores the new disk inode.
    fn write_with<D: BlockDevice>(&self, fs: &mut EasyFileSystem<D>, d: &mut DiskInode, offset: usize, buf: &[u8]) -> (ok: bool)
        requires
            old(fs).wf(),
            old(fs).inode_area_start() <= self.block_id < old(fs).data_bitmap.start(),
            self.block_offset + DISK_INODE_SIZE <= BLOCK_SIZE,
            DiskInode::decodes_to(self.raw(old(fs).disk()), *old(d)),
            old(d).wf(old(fs).disk(), old(fs).data_area_start()),
            offset + buf@.len() <= u32::MAX,
        ensures
            final(fs).wf(),
            same_layout(final(fs), old(fs)),
            DiskInode::decodes_to(self.raw(final(fs).disk()), *final(d)),
            final(d).wf(final(fs).disk(), old(fs).data_area_start()),
            final(d).type_ == old(d).type_,
            ok ==> write_result(old(d).content(old(fs).disk()), final(d).content(final(fs).disk()), offset as nat, buf@),
            !ok ==> final(d).content(final(fs).disk()) == old(d).content(old(fs).disk()),
            offset + buf@.len() <= old(d).size ==> ok,
            final(fs).disk().len() == old(fs).disk().len(),
            forall|b: int|
                0 <= b < old(fs).disk().len() && b != self.block_id && !(old(fs).data_bitmap.start() <= b
                    < old(fs).data_area_start()) && !final(d).all_ids(
                    final(fs).disk(),
                    crate::layout::data_blocks_of(final(d).size as nat),
                ).contains(b as u32) ==> #[trigger] final(fs).disk()[b] == old(fs).disk()[b],
            block_kept_outside(old(fs).disk(), final(fs).disk(), self.block_id as int, self.block_offset as int),
            blocks_held(old(fs), old(d).all_ids(old(fs).disk(), crate::layout::data_blocks_of(old(d).size as nat)))
                ==> blocks_held(
                final(fs),
                final(d).all_ids(final(fs).disk(), crate::layout::data_blocks_of(final(d).size as nat)),
            ),
            blocks_held(old(fs), old(d).all_ids(old(fs).disk(), crate::layout::data_blocks_of(old(d).size as nat)))
                && (offset + buf@.len() > old(d).size ==> crate::layout::data_blocks_of(
                (offset + buf@.len()) as nat,
            ) <= crate::layout::MAX_DATA_BLOCKS && old(fs).free_data_blocks() >= crate::layout::total_blocks_of(
                (offset + buf@.len()) as nat,
            ) - crate::layout::total_blocks_of(old(d).size as nat)) ==> ok,
    {
        let ghost disk0 = fs.disk();
        let ghost d0 = *d;
        let ghost das = fs.data_area_start();
        proof {
            fs.lemma_wf();
        }
        let end: usize = offset + buf.len();
        let ghost grew = end > d.size;
        if end > d.size as usize {
            let grown = grow(fs, d, end as u32);
            proof {
                fs.lemma_wf();
                let disk1 = fs.disk();
                assert forall|p: int| 0 <= p < 128 implies self.raw(disk1)[p] == self.raw(disk0)[p] by {
                    assert(disk1[self.block_id as int] == disk0[self.block_id as int]);
                }
                assert(self.raw(disk1) =~= self.raw(disk0));
            }
            if !grown {
                return false;
            }
        }
        let ghost disk1 = fs.disk();
        let ghost d1 = *d;
        let ghost fs1 = *fs;
        proof {
            fs.lemma_wf();
            assert(crate::layout::ids_in(d.all_ids(disk1, crate::layout::data_blocks_of(d.size as nat)), 0, disk1.len() as nat));
        }
        let ghost snap = *fs;
        d.write_at(offset, buf, &mut fs.cache);
        proof {
            snap.lemma_wf_cache_change(fs);
        }
        let ghost disk2 = fs.disk();
        let ghost fs2 = *fs;
        self.write_disk_inode(fs, d);
        proof {
            let disk3 = fs.disk();
            let n = crate::layout::data_blocks_of(d.size as nat);
            let all = d.all_ids(disk2, n);
            assert(all == d.all_ids(disk1, n));
            assert forall|i: int| 0 <= i < all.len() implies disk3[all[i] as int] == disk2[all[i] as int] by {
                assert(all[i] >= das);
            }
            lemma_frame(*d, disk2, disk3, das);
            assert(d.wf(disk2, das)) by {
                assert(crate::layout::ids_in(all, das, disk2.len() as nat));
            }
            let c0 = d0.content(disk0);
            let c1 = d1.content(disk1);
            let c3 = d.content(disk3);
            if end > d0.size {
                assert(c1.subrange(0, d0.size as int) == c0);
            } else {
                assert(c1 == c0);
            }
            assert(c3 == splice(c1, offset as int, buf@));
            assert(c3.subrange(offset as int, offset + buf@.len()) =~= buf@);
            assert forall|p: int| 0 <= p < offset && p < c0.len() implies c3[p] == c0[p] by {
                if end > d0.size {
                    assert(c1.subrange(0, d0.size as int)[p] == c1[p]);
                }
            }
            assert forall|p: int| offset + buf@.len() <= p < c0.len() implies c3[p] == c0[p] by {
                if end > d0.size {
                    assert(c1.subrange(0, d0.size as int)[p] == c1[p]);
                }
            }
            // which blocks changed
            let data = d.data_ids(disk1, n);
            assert(all =~= data + d.index_ids(disk1, n));
            assert forall|b: int|
                0 <= b < disk0.len() && b != self.block_id && !(fs.data_bitmap.start() <= b < das) && !d.all_ids(
                    disk3,
                    n,
                ).contains(b as u32) implies #[trigger] disk3[b] == disk0[b] by {
                if data.contains(b as u32) {
                    let t = choose|t: int| 0 <= t < data.len() && data[t] == b as u32;
                    assert(all[t] == b as u32);
                }
                assert(disk3[b] == disk2[b]);
                assert(disk2[b] == disk1[b]);
            }
            let blk = self.block_id as int;
            assert(!data.contains(blk as u32)) by {
                if data.contains(blk as u32) {
                    let t = choose|t: int| 0 <= t < data.len() && data[t] == blk as u32;
                    assert(all[t] == blk as u32);
                    assert(all[t] >= das);
                }
            }
            assert(!all.contains(blk as u32)) by {
                if all.contains(blk as u32) {
                    let t = choose|t: int| 0 <= t < all.len() && all[t] == blk as u32;
                    assert(all[t] >= das);
                }
            }
            assert(disk1[blk] == disk0[blk]);
            assert(disk2[blk] == disk1[blk]);
            assert(self.raw(disk3).len() == 128);
            assert forall|p: int| 0 <= p < disk0[blk].len() && !(self.block_offset <= p < self.block_offset + 128) implies #[trigger] disk3[blk][p] == disk0[blk][p] by {
                assert(disk3[blk] == splice(disk2[blk], self.block_offset as int, self.raw(disk3)));
            }
            if blocks_held(old(fs), d0.all_ids(disk0, crate::layout::data_blocks_of(d0.size as nat))) {
                assert(blocks_held(&fs1, all));
                let dbs = fs1.data_bitmap.start();
                assert forall|b: int| dbs <= b < das implies #[trigger] disk2[b] == disk1[b] by {
                    if data.contains(b as u32) {
                        let t = choose|t: int| 0 <= t < data.len() && data[t] == b as u32;
                        assert(all[t] == b as u32);
                        assert(all[t] >= das);
                    }
                }
                lemma_held_frame(&fs1, &fs2, all);
                assert forall|b: int| dbs <= b < das implies #[trigger] disk3[b] == disk2[b] by {}
                lemma_held_frame(&fs2, fs, all);
                assert(all == d.all_ids(disk3, n));
            }
        }
        true
    }

    /// Writes `buf` at `offset`, growing the file as needed; returns
    /// `buf.len()`, or 0 with the content unchanged when no room could be found.
    pub fn write_at<D: BlockDevice>(&self, fs: &mut EasyFileSystem<D>, offset: usize, buf: &[u8]) -> (r: usize)
        requires
            self.valid(old(fs)),
            offset + buf@.len() <= u32::MAX,
        ensures
            final(fs).wf(),
            self.valid(final(fs)),
            (r == buf@.len() && write_result(
                self.content(old(fs).disk()),
                self.content(final(fs).disk()),
                offset as nat,
                buf@,
            )) || (r == 0 && self.content(final(fs).disk()) == self.content(old(fs).disk())),
            offset + buf@.len() <= self.content(old(fs).disk()).len() ==> r == buf@.len(),
            self.held(old(fs)) && (offset + buf@.len() > self.content(old(fs).disk()).len()
                ==> crate::layout::data_blocks_of((offset + buf@.len()) as nat) <= crate::layout::MAX_DATA_BLOCKS
                && old(fs).free_data_blocks() >= crate::layout::total_blocks_of((offset + buf@.len()) as nat)
                - crate::layout::total_blocks_of(self.content(old(fs).disk()).len())) ==> r == buf@.len(),
            self.held(old(fs)) ==> self.held(final(fs)),
            final(fs).disk().len() == old(fs).disk().len(),
            forall|b: int|
                0 <= b < old(fs).disk().len() && b != self.block_id && !(old(fs).data_bitmap.start() <= b
                    < old(fs).data_area_start()) && !self.disk_inode(final(fs).disk()).all_ids(
                    final(fs).disk(),
                    crate::layout::data_blocks_of(self.disk_inode(final(fs).disk()).size as nat),
                ).contains(b as u32) ==> #[trigger] final(fs).disk()[b] == old(fs).disk()[b],
            block_kept_outside(old(fs).disk(), final(fs).disk(), self.block_id as int, self.block_offset as int),
    {
        let mut d = self.read_disk_inode(fs);
        proof {
            let disk = old(fs).disk();
            lemma_decode_unique(self.raw(disk), d, self.disk_inode(disk), disk);
        }
        let ok = self.write_with(fs, &mut d, offset, buf);
        proof {
            let disk = fs.disk();
            lemma_decode_unique(self.raw(disk), d, self.disk_inode(disk), disk);
        }
        if ok {
            buf.len()
        } else {
            0
        }
    }

    /// Frees every block of the file and makes it empty.
    pub fn clear<D: BlockDevice>(&self, fs: &mut EasyFileSystem<D>)
        requires
            self.valid(old(fs)),
        ensures
            final(fs).wf(),
            self.valid(final(fs)),
            same_layout(final(fs), old(fs)),
            self.content(final(fs).disk()).len() == 0,
            self.disk_inode(final(fs).disk()).type_ == self.disk_inode(old(fs).disk()).type_,
            final(fs).disk().len() == old(fs).disk().len(),
            forall|q: int|
                0 <= q < old(fs).disk().len() && q != self.block_id && !(old(fs).data_bitmap.start() <= q
                    < old(fs).data_area_start()) && !self.disk_inode(old(fs).disk()).all_ids(
                    old(fs).disk(),
                    crate::layout::data_blocks_of(self.disk_inode(old(fs).disk()).size as nat),
                ).contains(q as u32) ==> #[trigger] final(fs).disk()[q] == old(fs).disk()[q],
            block_kept_outside(old(fs).disk(), final(fs).disk(), self.block_id as int, self.block_offset as int),
            self.held(old(fs)) ==> forall|k: int|
                0 <= k < self.disk_inode(old(fs).disk()).all_ids(
                    old(fs).disk(),
                    crate::layout::data_blocks_of(self.disk_inode(old(fs).disk()).size as nat),
                ).len() ==> !final(fs).data_bitmap.bit(
                    final(fs).disk(),
                    (#[trigger] self.disk_inode(old(fs).disk()).all_ids(
                        old(fs).disk(),
                        crate::layout::data_blocks_of(self.disk_inode(old(fs).disk()).size as nat),
                    )[k] - old(fs).data_area_start()) as nat,
                ),
    {
        let mut d = self.read_disk_inode(fs);
        let ghost dold = d;
        proof {
            fs.lemma_wf();
            d.lemma_in_disk_index(fs.disk());
        }
        let ghost snap = *fs;
        let blocks = d.clear_size(&mut fs.cache);
        proof {
            snap.lemma_wf_cache_change(fs);
        }
        self.write_disk_inode(fs, &d);
        let ghost das = fs.data_area_start();
        let ghost disk0 = old(fs).disk();
        let ghost ids0 = self.disk_inode(disk0).all_ids(
            disk0,
            crate::layout::data_blocks_of(self.disk_inode(disk0).size as nat),
        );
        proof {
            lemma_decode_unique(self.raw(disk0), dold, self.disk_inode(disk0), disk0);
            assert(blocks@ == ids0);
        }
        let ghost held0 = self.held(old(fs));
        proof {
            if held0 {
                assert forall|k: int| 0 <= k < ids0.len() implies ids0[k] - das < fs.data_bitmap.max_bits()
                    && fs.data_bitmap.bit(fs.disk(), (#[trigger] ids0[k] - das) as nat) by {
                    assert(old(fs).data_bitmap.bit(disk0, (ids0[k] - das) as nat));
                    let j = (ids0[k] - das) as nat;
                    assert(j / 4096 < fs.data_bitmap.num_blocks()) by (nonlinear_arith)
                        requires
                            j < fs.data_bitmap.num_blocks() * 4096,
                    ;
                }
            }
        }
        let mut i: usize = 0;
        while i < blocks.len()
            invariant
                fs.wf(),
                same_layout(fs, old(fs)),
                disk0 == old(fs).disk(),
                blocks@ == ids0,
                fs.disk().len() == disk0.len(),
                forall|q: int|
                    0 <= q < disk0.len() && q != self.block_id && !(old(fs).data_bitmap.start() <= q
                        < old(fs).data_area_start()) && !ids0.contains(q as u32) ==> #[trigger] fs.disk()[q]
                        == disk0[q],
                block_kept_outside(disk0, fs.disk(), self.block_id as int, self.block_offset as int),
                das == fs.data_area_start(),
                fs.inode_area_start() <= self.block_id < fs.data_bitmap.start(),
                self.block_offset + DISK_INODE_SIZE <= BLOCK_SIZE,
                DiskInode::decodes_to(self.raw(fs.disk()), d),
                DiskInode::is_empty_of(d, d.type_),
                d.type_ == self.disk_inode(old(fs).disk()).type_,
                i <= blocks@.len(),
                held0 == self.held(old(fs)),
                crate::layout::no_dup(ids0),
                crate::layout::ids_in(ids0, das, disk0.len() as nat),
                held0 ==> forall|k: int|
                    i <= k < ids0.len() ==> ids0[k] - das < fs.data_bitmap.max_bits() && fs.data_bitmap.bit(
                        fs.disk(),
                        (#[trigger] ids0[k] - das) as nat,
                    ),
                held0 ==> forall|k: int|
                    0 <= k < i ==> !fs.data_bitmap.bit(fs.disk(), (#[trigger] ids0[k] - das) as nat),
                held0 ==> forall|k: int| 0 <= k < ids0.len() ==> #[trigger] ids0[k] - das < fs.data_bitmap.max_bits(),
            decreases blocks@.len() - i,
        {
            proof {
                fs.lemma_wf();
            }
            let b = blocks[i];
            let total: usize = fs.cache.num_blocks();
            if b >= fs.data_area_start_block && (b as usize) < total {
                let bit: u32 = b - fs.data_area_start_block;
                if (bit as u64) < fs.data_bitmap.maximum() as u64 {
                    let ghost snap2 = *fs;
                    let is_set = fs.data_bitmap.test(&mut fs.cache, bit as usize);
                    proof {
                        snap2.lemma_wf_cache_change(fs);
                    }
                    if is_set {
                        let ghost before = fs.disk();
                        fs.dealloc_data(b);
                        proof {
                            fs.lemma_wf();
                            let after = fs.disk();
                            assert(ids0[i as int] == b);
                            assert forall|q: int|
                                0 <= q < disk0.len() && q != self.block_id && !(old(fs).data_bitmap.start() <= q
                                    < old(fs).data_area_start()) && !ids0.contains(q as u32) implies #[trigger] after[q]
                                    == disk0[q] by {
                                if q == b as int {
                                    assert(ids0.contains(b));
                                }
                                assert(after[q] == before[q]);
                            }
                            let blk = crate::bitmap::bit_block(fs.data_bitmap.start(), bit as nat);
                            assert(blk < das) by (nonlinear_arith)
                                requires
                                    bit < fs.data_bitmap.num_blocks() * 4096,
                                    fs.data_bitmap.start() + fs.data_bitmap.num_blocks() == das,
                                    blk == fs.data_bitmap.start() + bit / 4096,
                            ;
                            assert(blk >= fs.data_bitmap.start());
                            assert(after[self.block_id as int] == before[self.block_id as int]);
                            assert(self.raw(after) =~= self.raw(before));
                            if held0 {
                                let st = fs.data_bitmap.start();
                                let nb = fs.data_bitmap.num_blocks();
                                assert forall|k: int| i + 1 <= k < ids0.len() implies ids0[k] - das
                                    < fs.data_bitmap.max_bits() && fs.data_bitmap.bit(
                                    fs.disk(),
                                    (#[trigger] ids0[k] - das) as nat,
                                ) by {
                                    lemma_dealloc_bits(before, after, st, nb, b, bit as nat, (ids0[k] - das) as nat);
                                    assert(ids0[k] != ids0[i as int]);
                                }
                                assert forall|k: int| 0 <= k < i + 1 implies !fs.data_bitmap.bit(
                                    fs.disk(),
                                    (#[trigger] ids0[k] - das) as nat,
                                ) by {
                                    lemma_dealloc_bits(before, after, st, nb, b, bit as nat, (ids0[k] - das) as nat);
                                }
                            }
                        }
                    }
                }
            }
            i = i + 1;
        }
        proof {
            let disk = fs.disk();
            lemma_decode_unique(self.raw(disk), d, self.disk_inode(disk), disk);
            assert(d.wf(disk, das)) by {
                assert(d.all_ids(disk, 0) =~= Seq::<u32>::empty());
            }
        }
    }
}

/// After a write of `b` at offset 0, a read from offset 0 into a buffer of
/// `len` bytes gets the first `min(|b|, len)` bytes of `b`; after clearing, a
/// read gets nothing.
pub proof fn lemma_write_then_read(old: Seq<u8>, new: Seq<u8>, b: Seq<u8>, len: nat)
    requires
        write_result(old, new, 0, b),
    ensures
        read_len(new.len(), 0, len) >= if b.len() < len { b.len() } else { len },
        new.subrange(0, (if b.len() < len { b.len() } else { len }) as int) == b.subrange(
            0,
            (if b.len() < len { b.len() } else { len }) as int,
        ),
        read_len(0, 0, len) == 0,
{
    let m = if b.len() < len { b.len() } else { len };
    assert forall|p: int| 0 <= p < m implies new[p] == b[p] by {
        assert(new.subrange(0, b.len() as int)[p] == new[p]);
    }
    assert(new.subrange(0, m as int) =~= b.subrange(0, m as int));
}

impl Inode {
    /// Appends the entry `(name, ino)` to this directory, whose disk inode is `d`.
    fn append_entry<D: BlockDevice>(&self, fs: &mut EasyFileSystem<D>, d: &mut DiskInode, name: &str, ino: u32) -> (ok: bool)
        requires
            self.valid(old(fs)),
            DiskInode::decodes_to(self.raw(old(fs).disk()), *old(d)),
            valid_name(name.spec_bytes()),
            old(d).size + 64 <= u32::MAX,
        ensures
            final(fs).wf(),
            self.valid(final(fs)),
            same_layout(final(fs), old(fs)),
            !ok ==> self.content(final(fs).disk()) == self.content(old(fs).disk()),
            ok ==> dir_entries(self.content(final(fs).disk())) == dir_entries(self.content(old(fs).disk())).push(
                crate::layout::entry_bytes(name.spec_bytes(), ino),
            ),
            final(fs).disk().len() == old(fs).disk().len(),
            forall|b: int|
                0 <= b < old(fs).disk().len() && b != self.block_id && !(old(fs).data_bitmap.start() <= b
                    < old(fs).data_area_start()) && b < old(fs).data_area_start() ==> #[trigger] final(fs).disk()[b]
                    == old(fs).disk()[b],
            block_kept_outside(old(fs).disk(), final(fs).disk(), self.block_id as int, self.block_offset as int),
            self.held(old(fs)) && room_for_entry(old(fs), old(d).size as nat) ==> ok,
            self.held(old(fs)) ==> self.held(final(fs)),
    {
        let ghost disk0 = fs.disk();
        proof {
            lemma_decode_unique(self.raw(disk0), *d, self.disk_inode(disk0), disk0);
            assert((d.size / 32) * 32 + 32 == grown_size(d.size as nat));
        }
        let count: usize = (d.size as usize) / DIRENTRY_SIZE;
        let entry = DirEntry::new(name, ino);
        let bytes = entry.as_bytes();
        let ghost c0 = d.content(disk0);
        let ok = self.write_with(fs, d, count * DIRENTRY_SIZE, bytes.as_slice());
        proof {
            let disk3 = fs.disk();
            lemma_decode_unique(self.raw(disk3), *d, self.disk_inode(disk3), disk3);
            if ok {
                crate::layout::lemma_entry_bytes(name.spec_bytes(), ino);
                lemma_append_entry(c0, d.content(disk3), bytes@);
            }
            let das = old(fs).data_area_start();
            let alln = d.all_ids(disk3, crate::layout::data_blocks_of(d.size as nat));
            assert forall|b: int|
                0 <= b < disk0.len() && b != self.block_id && !(old(fs).data_bitmap.start() <= b < das) && b < das
                    implies #[trigger] disk3[b] == disk0[b] by {
                assert(!alln.contains(b as u32)) by {
                    if alln.contains(b as u32) {
                        let t = choose|t: int| 0 <= t < alln.len() && alln[t] == b as u32;
                        assert(alln[t] >= das);
                    }
                }
            }
        }
        ok
    }
}

/// Size of a directory of `size` bytes after one more entry is appended.
pub open spec fn grown_size(size: nat) -> nat {
    (size / 32 + 1) * 32
}

/// One more entry fits a directory of `size` bytes: its size stays in range
/// and the data area has the blocks that the growth takes.
pub open spec fn room_for_entry<D: BlockDevice>(fs: &EasyFileSystem<D>, size: nat) -> bool {
    &&& size + 64 <= u32::MAX
    &&& crate::layout::data_blocks_of(grown_size(size)) <= crate::layout::MAX_DATA_BLOCKS
    &&& fs.free_data_blocks() >= crate::layout::total_blocks_of(grown_size(size))
        - crate::layout::total_blocks_of(size)
}

/// Whether `name` fits a directory entry: at most 27 bytes, none of them NUL.
pub fn is_valid_name(name: &[u8]) -> (r: bool)
    ensures
        r == valid_name(name@),
{
    if name.len() > crate::layout::NAME_LENGTH_LIMIT {
        return false;
    }
    let mut i: usize = 0;
    while i < name.len()
        invariant
            i <= name@.len(),
            forall|j: int| 0 <= j < i ==> name@[j] != 0u8,
        decreases name@.len() - i,
    {
        if name[i] == 0u8 {
            return false;
        }
        i = i + 1;
    }
    true
}

/// Appending `e` to a directory of content `c` at entry `count` adds it as the last entry.
proof fn lemma_append_entry(c: Seq<u8>, c2: Seq<u8>, e: Seq<u8>)
    requires
        e.len() == 32,
        write_result(c, c2, (c.len() / 32 * 32) as nat, e),
    ensures
        dir_entries(c2) == dir_entries(c).push(e),
{
    let count = c.len() / 32;
    let off = count * 32;
    assert(off <= c.len() < off + 32) by (nonlinear_arith)
        requires
            count == c.len() / 32,
            off == count * 32,
    ;
    assert(c2.len() == off + 32);
    assert(c2.len() / 32 == count + 1) by (nonlinear_arith)
        requires
            c2.len() == off + 32,
            off == count * 32,
    ;
    let a = dir_entries(c2);
    let b = dir_entries(c).push(e);
    assert forall|i: int| 0 <= i < a.len() implies a[i] == b[i] by {
        if i < count {
            assert(32 * i + 32 <= off) by (nonlinear_arith)
                requires
                    i < count,
                    off == count * 32,
            ;
            assert(a[i] =~= b[i]) by {
                assert forall|p: int| 0 <= p < 32 implies a[i][p] == b[i][p] by {
                    assert(c2[32 * i + p] == c[32 * i + p]);
                }
            }
        } else {
            assert(i == count);
            assert(a[i] =~= c2.subrange(off as int, (off + 32) as int));
        }
    }
    assert(a =~= b);
}

impl Inode {
    /// Creates an empty file named `name` in this directory. `None` when the
    /// name is taken or does not fit an entry, or when no inode or block is free.
    #[verifier::spinoff_prover]
    #[verifier::rlimit(100)]
    pub fn create<D: BlockDevice>(&self, fs: &mut EasyFileSystem<D>, name: &str) -> (r: Option<Inode>)
        requires
            self.valid(old(fs)),
        ensures
            final(fs).wf(),
            self.valid(final(fs)),
            first_named(dir_entries(self.content(old(fs).disk())), name.spec_bytes()) is Some ==> r is None,
            !valid_name(name.spec_bytes()) ==> r is None,
            match r {
                None => true,
                Some(f) => {
                    &&& f.valid(final(fs))
                    &&& f.content(final(fs).disk()).len() == 0
                    &&& f.disk_inode(final(fs).disk()).type_ == DiskInodeType::File
                    &&& exists|ino: u32|
                        #![trigger old(fs).inode_pos(ino as nat)]
                        ino < old(fs).inode_count() && !old(fs).inode_bitmap.bit(old(fs).disk(), ino as nat)
                            && (forall|j: nat| j < ino ==> #[trigger] old(fs).inode_bitmap.bit(old(fs).disk(), j))
                            && f.block_id == old(fs).inode_pos(ino as nat).0
                            && f.block_offset == old(fs).inode_pos(ino as nat).1 && dir_entries(
                            self.content(final(fs).disk()),
                        ) == dir_entries(self.content(old(fs).disk())).push(
                            crate::layout::entry_bytes(name.spec_bytes(), ino),
                        )
                },
            },
            valid_name(name.spec_bytes()) && first_named(dir_entries(self.content(old(fs).disk())), name.spec_bytes())
                is None && self.held(old(fs)) && self.ino_held(old(fs)) && (exists|j: nat|
                j < old(fs).inode_count() && !#[trigger] old(fs).inode_bitmap.bit(old(fs).disk(), j))
                && room_for_entry(old(fs), self.content(old(fs).disk()).len()) ==> r is Some,
            self.held(old(fs)) ==> self.held(final(fs)),
            r is None ==> final(fs).disk() == old(fs).disk(),
    {
        let ghost fs0 = *fs;
        let mut d = self.read_disk_inode(fs);
        proof {
            let disk = fs0.disk();
            lemma_decode_unique(self.raw(disk), d, self.disk_inode(disk), disk);
        }
        let nb = name.as_bytes();
        if !is_valid_name(nb) {
            return None;
        }
        proof {
            fs.lemma_wf();
        }
        if Self::find_inode_id(fs, nb, &d).is_some() {
            return None;
        }
        if d.size as u64 + 64 > u32::MAX as u64 {
            return None;
        }
        let grown: u32 = (d.size / 32 + 1) * 32;
        if (grown as u64 + 511) / 512 > crate::layout::MAX_DATA_BLOCKS as u64 {
            return None;
        }
        if !blocks_all_held(fs, &d) {
            return None;
        }
        let need = d.blocks_num_needed(grown);
        let free = fs.count_free_data();
        if (free as u64) < need as u64 {
            return None;
        }
        proof {
            assert(fs.disk() == fs0.disk());
            assert(self.held(&fs0));
            assert(fs0.free_data_blocks() == free);
        }
        let ghost disk0 = fs.disk();
        let ghost das = fs.data_area_start();
        proof {
            assert(grown == grown_size(d.size as nat));
        }
        let got = fs.alloc_inode();
        let ino = match got {
            None => {
                return None;
            },
            Some(i) => i,
        };
        let ghost disk1 = fs.disk();
        proof {
            fs.lemma_wf();
            let blk = crate::bitmap::bit_block(1, ino as nat);
            assert(blk < fs.inode_area_start()) by (nonlinear_arith)
                requires
                    ino < fs.inode_bitmap.num_blocks() * 4096,
                    fs.inode_area_start() == 1 + fs.inode_bitmap.num_blocks(),
                    blk == 1 + ino / 4096,
            ;
            assert(self.raw(disk1) =~= self.raw(disk0));
            let all = d.all_ids(disk0, crate::layout::data_blocks_of(d.size as nat));
            assert forall|i: int| 0 <= i < all.len() implies disk1[all[i] as int] == disk0[all[i] as int] by {
                assert(all[i] >= das);
            }
            lemma_frame(d, disk0, disk1, das);
        }
        let ghost fs1 = *fs;
        let ghost ids0 = d.all_ids(disk0, crate::layout::data_blocks_of(d.size as nat));
        proof {
            let blk = crate::bitmap::bit_block(1, ino as nat);
            assert forall|b: int| fs0.data_bitmap.start() <= b < fs0.data_area_start() implies #[trigger] disk1[b]
                == disk0[b] by {
                assert(b != blk);
            }
            if self.held(&fs0) {
                lemma_held_frame(&fs0, &fs1, ids0);
            }
            lemma_bits_frame(&fs0, &fs1);
        }
        let (blk, off) = fs.get_disk_inode_pos(ino);
        if blk as usize == self.block_id && off == self.block_offset {
            let ghost s7 = *fs;
            proof {
                fs.lemma_wf();
                fs0.lemma_wf();
                assert(ino as nat / 4096 < fs.inode_bitmap.num_blocks()) by (nonlinear_arith)
                    requires
                        ino < fs.inode_bitmap.num_blocks() * 4096,
                ;
                crate::bitmap::lemma_alloc_dealloc_round_trip(disk0, 1, ino as nat);
            }
            fs.inode_bitmap.dealloc(&mut fs.cache, ino as usize);
            proof {
                s7.lemma_wf_cache_change(fs);
                assert(fs.disk() == disk0);
            }
            proof {
                lemma_decode_unique(self.raw(disk1), d, self.disk_inode(disk1), disk1);
                let si = self.ino(&fs0);
                assert(si == ino) by (nonlinear_arith)
                    requires
                        si == (self.block_id - fs0.inode_area_start()) * 4 + self.block_offset / 128,
                        blk == fs0.inode_area_start() + ino / 4,
                        off == (ino % 4) * 128,
                        blk == self.block_id,
                        off == self.block_offset,
                ;
            }
            return None;
        }
        let f = Inode::new(blk, off);
        let nd = DiskInode::new(DiskInodeType::File);
        f.write_disk_inode(fs, &nd);
        let ghost disk2 = fs.disk();
        proof {
            fs.lemma_wf();
            if blk as usize == self.block_id {
                assert(off + 128 <= self.block_offset || self.block_offset + 128 <= off) by (nonlinear_arith)
                    requires
                        off % 128 == 0,
                        self.block_offset % 128 == 0,
                        off != self.block_offset,
                        off + 128 <= 512,
                        self.block_offset + 128 <= 512,
                ;
            }
            assert(self.raw(disk2) =~= self.raw(disk1));
            let all = d.all_ids(disk1, crate::layout::data_blocks_of(d.size as nat));
            assert forall|i: int| 0 <= i < all.len() implies disk2[all[i] as int] == disk1[all[i] as int] by {
                assert(all[i] >= das);
            }
            lemma_frame(d, disk1, disk2, das);
        }
        let ghost fs2 = *fs;
        proof {
            assert forall|b: int| fs1.data_bitmap.start() <= b < fs1.data_area_start() implies #[trigger] disk2[b]
                == disk1[b] by {
                assert(b != blk);
            }
            if self.held(&fs0) {
                lemma_held_frame(&fs1, &fs2, ids0);
            }
            lemma_bits_frame(&fs1, &fs2);
            assert((d.size / 32) * 32 + 32 == grown_size(d.size as nat));
        }
        let count: usize = (d.size as usize) / DIRENTRY_SIZE;
        let entry = DirEntry::new(name, ino);
        let bytes = entry.as_bytes();
        let ghost c0 = d.content(disk2);
        let ghost dold = d;
        let ok = self.write_with(fs, &mut d, count * DIRENTRY_SIZE, bytes.as_slice());
        proof {
            assert(count * 32 + 32 == grown);
            assert(ok);
            let disk3 = fs.disk();
            lemma_decode_unique(self.raw(disk3), d, self.disk_inode(disk3), disk3);
            // the new inode's bytes survive the directory write
            assert(f.raw(disk3) =~= f.raw(disk2)) by {
                if blk as usize != self.block_id {
                    assert(blk < fs.data_bitmap.start());
                    let alln = d.all_ids(disk3, crate::layout::data_blocks_of(d.size as nat));
                    assert(!alln.contains(blk)) by {
                        if alln.contains(blk) {
                            let t = choose|t: int| 0 <= t < alln.len() && alln[t] == blk;
                            assert(alln[t] >= das);
                        }
                    }
                    assert(disk3[blk as int] == disk2[blk as int]);
                } else {
                    assert forall|p: int| 0 <= p < 128 implies f.raw(disk3)[p] == f.raw(disk2)[p] by {
                        assert(disk3[blk as int][off + p] == disk2[blk as int][off + p]);
                    }
                }
            }
            let fd = f.disk_inode(disk3);
            lemma_decode_unique(f.raw(disk3), nd, fd, disk3);
            assert(nd.all_ids(disk3, 0) =~= Seq::<u32>::empty());
            assert(nd.content(disk3) =~= Seq::<u8>::empty());
            if ok {
                crate::layout::lemma_entry_bytes(name.spec_bytes(), ino);
                assert(c0.len() / 32 * 32 == count * 32);
                lemma_append_entry(c0, d.content(disk3), bytes@);
                lemma_decode_unique(self.raw(disk0), dold, self.disk_inode(disk0), disk0);
                assert(old(fs).inode_pos(ino as nat).0 == blk);
            }
        }
        if ok {
            Some(f)
        } else {
            None
        }
    }

    /// Adds the entry `new_name` for the inode that `old_name` names. Fails when
    /// `old_name` is absent, `new_name` is taken or does not fit an entry, or no
    /// block is free.
    #[verifier::spinoff_prover]
    #[verifier::rlimit(100)]
    pub fn link<D: BlockDevice>(&self, fs: &mut EasyFileSystem<D>, old_name: &str, new_name: &str) -> (r: bool)
        requires
            self.valid(old(fs)),
        ensures
            final(fs).wf(),
            self.valid(final(fs)),
            first_named(dir_entries(self.content(old(fs).disk())), old_name.spec_bytes()) is None ==> !r,
            first_named(dir_entries(self.content(old(fs).disk())), new_name.spec_bytes()) is Some ==> !r,
            !r ==> self.content(final(fs).disk()) == self.content(old(fs).disk()),
            first_named(dir_entries(self.content(old(fs).disk())), old_name.spec_bytes()) is Some
                && first_named(dir_entries(self.content(old(fs).disk())), new_name.spec_bytes()) is None
                && valid_name(new_name.spec_bytes()) && self.held(old(fs)) && room_for_entry(
                old(fs),
                self.content(old(fs).disk()).len(),
            ) ==> r,
            self.held(old(fs)) ==> self.held(final(fs)),
            r ==> match first_named(dir_entries(self.content(old(fs).disk())), old_name.spec_bytes()) {
                Some(i) => dir_entries(self.content(final(fs).disk())) == dir_entries(
                    self.content(old(fs).disk()),
                ).push(
                    crate::layout::entry_bytes(
                        new_name.spec_bytes(),
                        entry_inode(dir_entries(self.content(old(fs).disk()))[i]),
                    ),
                ),
                None => false,
            },
    {
        let mut d = self.read_disk_inode(fs);
        let nb = new_name.as_bytes();
        proof {
            fs.lemma_wf();
        }
        let target = Self::find_inode_id(fs, old_name.as_bytes(), &d);
        let ino = match target {
            None => {
                return false;
            },
            Some(i) => i,
        };
        if !is_valid_name(nb) || Self::find_inode_id(fs, nb, &d).is_some() || d.size as u64 + 64
            > u32::MAX as u64 {
            return false;
        }
        self.append_entry(fs, &mut d, new_name, ino)
    }
}

impl Inode {
    /// Checks that the handle is valid on `fs`: it points into the inode area,
    /// and the disk inode there maps distinct blocks of the data area.
    pub fn check_valid<D: BlockDevice>(&self, fs: &mut EasyFileSystem<D>) -> (r: bool)
        requires
            old(fs).wf(),
        ensures
            final(fs).wf(),
            final(fs).disk() == old(fs).disk(),
            same_layout(final(fs), old(fs)),
            r ==> self.valid(final(fs)) && self.held(final(fs)) && self.ino_held(final(fs)),
            self.valid(old(fs)) && self.held(old(fs)) && self.ino_held(old(fs)) ==> r,
    {
        proof {
            fs.lemma_wf();
        }
        let ghost good = self.valid(old(fs)) && self.held(old(fs)) && self.ino_held(old(fs));
        let ghost disk = fs.disk();
        let start: usize = fs.inode_area_start_block as usize;
        let dbs: usize = fs.data_bitmap.start_block();
        if !(start <= self.block_id && self.block_id < dbs && self.block_offset <= BLOCK_SIZE
            - DISK_INODE_SIZE && self.block_offset % 128 == 0) {
            return false;
        }
        let ghost snap = *fs;
        let bytes = fs.cache.read(self.block_id, self.block_offset, DISK_INODE_SIZE);
        proof {
            snap.lemma_wf_cache_change(fs);
        }
        let d = DiskInode::from_bytes(bytes.as_slice());
        let ghost das0 = fs.data_area_start();
        proof {
            assert(self.raw(disk) =~= bytes@);
            if good {
                lemma_decode_unique(self.raw(disk), d, self.disk_inode(disk), disk);
                d.lemma_wf_in_disk(disk, das0);
                d.lemma_in_disk_index(disk);
            }
        }
        if (d.size as u64 + 511) / 512 > crate::layout::MAX_DATA_BLOCKS as u64 {
            return false;
        }
        let n: usize = d.data_blocks() as usize;
        let total: usize = fs.cache.num_blocks();
        proof {
            if good && n > 28 {
                assert(d.index_ids(disk, n as nat)[0] == d.indirect1);
            }
            if good && n > 156 {
                assert(d.index_ids(disk, n as nat)[1] == d.indirect2);
            }
        }
        if n > crate::layout::INODE_DIRECT_COUNT && d.indirect1 as usize >= total {
            return false;
        }
        if n > crate::layout::INDIRECT1_BOUND {
            if d.indirect2 as usize >= total {
                return false;
            }
            let l2n: usize = (n - crate::layout::INODE_DIRECT_COUNT - 1) / crate::layout::INODE_INDIRECT1_COUNT;
            proof {
                assert(l2n <= 128) by (nonlinear_arith)
                    requires
                        l2n == (n - 29) / 128,
                        n <= crate::layout::MAX_DATA_BLOCKS,
                ;
            }
            let mut j: usize = 0;
            while j < l2n
                invariant
                    good == (self.valid(old(fs)) && self.held(old(fs)) && self.ino_held(old(fs))),
                    fs.wf(),
                    fs.disk() == disk,
                    disk == old(fs).disk(),
                    same_layout(fs, old(fs)),
                    total == disk.len(),
                    d.indirect2 < total,
                    l2n <= 128,
                    l2n == crate::layout::l2_count(n as nat),
                    n == crate::layout::data_blocks_of(d.size as nat),
                    j <= l2n,
                    forall|t: int| 0 <= t < j ==> #[trigger] d.l2_ids(disk, n as nat)[t] < total,
                    good ==> d.index_in_disk(disk),
                    n > 156,
                decreases l2n - j,
            {
                proof {
                    fs.lemma_wf();
                }
                let ghost snap2 = *fs;
                let l = crate::layout::cache_read_u32(&mut fs.cache, d.indirect2 as usize, 4 * j);
                proof {
                    snap2.lemma_wf_cache_change(fs);
                }
                proof {
                    assert(l == d.l2_ids(disk, n as nat)[j as int]);
                    if good {
                        let idx = d.index_ids(disk, n as nat);
                        assert(idx[2 + j as int] == d.l2_ids(disk, n as nat)[j as int]);
                        assert(idx[2 + j as int] < disk.len());
                    }
                }
                if l as usize >= total {
                    return false;
                }
                j = j + 1;
            }
        }
        proof {
            let idx = d.index_ids(disk, n as nat);
            assert forall|i: int| 0 <= i < idx.len() implies 0 <= #[trigger] idx[i] < disk.len() by {
                if n > 28 && i == 0 {
                } else if n > 156 {
                    let o = if n > 28 { 1int } else { 0int };
                    if i > o {
                        assert(idx[i] == d.l2_ids(disk, n as nat)[i - o - 1]);
                    }
                }
            }
            fs.lemma_wf();
        }
        let mut tmp: DiskInode = d;
        let ghost snap3 = *fs;
        let ids = tmp.clear_size(&mut fs.cache);
        proof {
            snap3.lemma_wf_cache_change(fs);
        }
        let das: u32 = fs.data_area_start_block;
        let mut i: usize = 0;
        while i < ids.len()
            invariant
                good == (self.valid(old(fs)) && self.held(old(fs)) && self.ino_held(old(fs))),
                fs.wf(),
                fs.disk() == disk,
                disk == old(fs).disk(),
                same_layout(fs, old(fs)),
                total == disk.len(),
                das == fs.data_area_start(),
                das0 == das,
                i <= ids@.len(),
                ids@ == d.all_ids(disk, crate::layout::data_blocks_of(d.size as nat)),
                good ==> d.wf(disk, das0),
                good ==> blocks_held(old(fs), ids@),
                forall|t: int| 0 <= t < i ==> das <= #[trigger] ids@[t] < total,
                forall|a: int, b: int| 0 <= a < i && 0 <= b < i && a != b ==> ids@[a] != ids@[b],
            decreases ids@.len() - i,
        {
            if ids[i] < das || ids[i] as usize >= total {
                return false;
            }
            let mut k: usize = 0;
            while k < i
                invariant
                    good == (self.valid(old(fs)) && self.held(old(fs)) && self.ino_held(old(fs))),
                    fs.wf(),
                    fs.disk() == disk,
                    disk == old(fs).disk(),
                    same_layout(fs, old(fs)),
                    i < ids@.len(),
                    k <= i,
                    forall|t: int| 0 <= t < k ==> ids@[t] != ids@[i as int],
                    good ==> crate::layout::no_dup(ids@),
                decreases i - k,
            {
                if ids[k] == ids[i] {
                    proof {
                        if good {
                            assert(ids@[k as int] != ids@[i as int]);
                        }
                    }
                    return false;
                }
                k = k + 1;
            }
            i = i + 1;
        }
        let mut t: usize = 0;
        while t < ids.len()
            invariant
                good == (self.valid(old(fs)) && self.held(old(fs)) && self.ino_held(old(fs))),
                fs.wf(),
                fs.disk() == disk,
                disk == old(fs).disk(),
                same_layout(fs, old(fs)),
                das == fs.data_area_start(),
                das0 == das,
                good ==> blocks_held(old(fs), ids@),
                t <= ids@.len(),
                forall|k: int| 0 <= k < ids@.len() ==> das <= #[trigger] ids@[k],
                forall|k: int|
                    0 <= k < t ==> ids@[k] - das < fs.data_bitmap.max_bits() && fs.data_bitmap.bit(
                        disk,
                        (#[trigger] ids@[k] - das) as nat,
                    ),
            decreases ids@.len() - t,
        {
            proof {
                fs.lemma_wf();
            }
            proof {
                if good {
                    assert(old(fs).data_area_start() == das);
                    assert(old(fs).data_bitmap == fs.data_bitmap);
                    assert(ids@[t as int] - das < fs.data_bitmap.max_bits());
                    assert(fs.data_bitmap.bit(disk, (ids@[t as int] - das) as nat));
                }
            }
            let bit: u32 = ids[t] - das;
            if bit as u64 >= fs.data_bitmap.maximum() as u64 {
                return false;
            }
            let ghost s5 = *fs;
            let set = fs.data_bitmap.test(&mut fs.cache, bit as usize);
            proof {
                s5.lemma_wf_cache_change(fs);
            }
            if !set {
                return false;
            }
            t = t + 1;
        }
        proof {
            fs.lemma_wf();
        }
        proof {
            if good {
                assert((self.block_id - start) * 4 + self.block_offset / 128 < 0x1_0000_0000);
            }
        }
        if self.block_id < start || self.block_id as u64 - start as u64 >= 0x4000_0000 {
            return false;
        }
        let ino64: u64 = (self.block_id as u64 - start as u64) * 4 + self.block_offset as u64 / 128;
        if ino64 >= fs.inode_bitmap.maximum() as u64 {
            return false;
        }
        let ino: usize = ino64 as usize;
        let ghost s6 = *fs;
        let iset = fs.inode_bitmap.test(&mut fs.cache, ino);
        proof {
            s6.lemma_wf_cache_change(fs);
        }
        if !iset {
            return false;
        }
        proof {
            let disk2 = fs.disk();
            assert(self.raw(disk2) =~= bytes@);
            lemma_decode_unique(self.raw(disk2), d, self.disk_inode(disk2), disk2);
        }
        true
    }
}

impl<D: BlockDevice> EasyFileSystem<D> {
    /// The handle of inode 0, the root directory.
    pub fn root_inode(&self) -> (r: Inode)
        requires
            self.wf(),
            self.inode_count() > 0,
        ensures
            r.block_id == self.inode_pos(0).0,
            r.block_offset == self.inode_pos(0).1,
    {
        let (block_id, block_offset) = self.get_disk_inode_pos(0);
        Inode::new(block_id, block_offset)
    }
}

/// Links `newpath` to the file named `oldpath` in the directory `root`;
/// refuses a link of a name to itself.
pub fn linkat<D: BlockDevice>(fs: &mut EasyFileSystem<D>, root: &Inode, oldpath: &str, newpath: &str) -> (r: bool)
    requires
        root.valid(old(fs)),
    ensures
        final(fs).wf(),
        root.valid(final(fs)),
        oldpath.spec_bytes() == newpath.spec_bytes() ==> !r && *final(fs) == *old(fs),
        oldpath.spec_bytes() != newpath.spec_bytes() && first_named(
            dir_entries(root.content(old(fs).disk())),
            oldpath.spec_bytes(),
        ) is Some && first_named(dir_entries(root.content(old(fs).disk())), newpath.spec_bytes()) is None
            && valid_name(newpath.spec_bytes()) && root.held(old(fs)) && room_for_entry(
            old(fs),
            root.content(old(fs).disk()).len(),
        ) ==> r,
        root.held(old(fs)) ==> root.held(final(fs)),
        first_named(dir_entries(root.content(old(fs).disk())), oldpath.spec_bytes()) is None ==> !r,
        r ==> match first_named(dir_entries(root.content(old(fs).disk())), oldpath.spec_bytes()) {
            Some(i) => dir_entries(root.content(final(fs).disk())) == dir_entries(
                root.content(old(fs).disk()),
            ).push(
                crate::layout::entry_bytes(
                    newpath.spec_bytes(),
                    entry_inode(dir_entries(root.content(old(fs).disk()))[i]),
                ),
            ),
            None => false,
        },
{
    if bytes_eq(oldpath.as_bytes(), newpath.as_bytes()) {
        return false;
    }
    root.link(fs, oldpath, newpath)
}

impl Inode {
    /// Every byte of the file.
    pub fn read_all<D: BlockDevice>(&self, fs: &mut EasyFileSystem<D>) -> (r: Vec<u8>)
        requires
            self.valid(old(fs)),
        ensures
            final(fs).wf(),
            final(fs).disk() == old(fs).disk(),
            self.valid(final(fs)),
            r@ == self.content(old(fs).disk()),
    {
        let ghost c = self.content(fs.disk());
        let mut out: Vec<u8> = Vec::new();
        let mut buffer: [u8; 512] = [0u8; 512];
        let mut offset: usize = 0;
        proof {
            let d = self.disk_inode(fs.disk());
            assert(c.len() == d.size);
        }
        loop
            invariant
                self.valid(fs),
                fs.disk() == old(fs).disk(),
                c == self.content(fs.disk()),
                c.len() <= u32::MAX,
                offset <= c.len(),
                out@ == c.subrange(0, offset as int),
            decreases c.len() - offset,
        {
            let len = self.read_at(fs, offset, &mut buffer);
            if len == 0 {
                proof {
                    assert(out@ =~= c);
                }
                return out;
            }
            let mut k: usize = 0;
            while k < len
                invariant
                    len <= 512,
                    buffer@.len() == 512,
                    offset + len <= c.len(),
                    buffer@.subrange(0, len as int) == c.subrange(offset as int, offset + len),
                    k <= len,
                    out@ == c.subrange(0, offset + k),
                decreases len - k,
            {
                out.push(buffer[k]);
                k = k + 1;
                proof {
                    assert(buffer@[k - 1] == buffer@.subrange(0, len as int)[k - 1]);
                    assert(out@ =~= c.subrange(0, offset + k));
                }
            }
            offset = offset + len;
        }
    }
}

/// Kind of file that `fstat` reports.
#[derive(Clone, Copy, PartialEq, Eq, Structural)]
pub enum StatMode {
    File,
    Dir,
}

/// What `fstat` reports of a file.
#[derive(Clone, Copy, PartialEq, Eq, Structural)]
pub struct Stat {
    pub dev: u64,
    pub ino: u64,
    pub mode: StatMode,
    pub nlink: u64,
}

/// Number of entries of `es` that name inode `ino`.
pub open spec fn link_count(es: Seq<Seq<u8>>, ino: nat) -> nat
    decreases es.len(),
{
    if es.len() == 0 {
        0
    } else {
        link_count(es.drop_last(), ino) + if entry_inode(es.last()) as nat == ino {
            1nat
        } else {
            0nat
        }
    }
}

impl Inode {
    /// The status of `inode`, whose links are counted over this directory.
    pub fn fstat<D: BlockDevice>(&self, fs: &mut EasyFileSystem<D>, inode: &Inode) -> (st: Stat)
        requires
            self.valid(old(fs)),
            inode.valid(old(fs)),
        ensures
            final(fs).wf(),
            final(fs).disk() == old(fs).disk(),
            same_layout(final(fs), old(fs)),
            st.ino == inode.ino(old(fs)),
            st.mode == if inode.is_dir_on(old(fs).disk()) {
                StatMode::Dir
            } else {
                StatMode::File
            },
            st.nlink == link_count(dir_entries(self.content(old(fs).disk())), inode.ino(old(fs))),
    {
        let ghost disk = fs.disk();
        let target = inode.read_disk_inode(fs);
        let mode = if target.is_dir() {
            StatMode::Dir
        } else {
            StatMode::File
        };
        proof {
            fs.lemma_wf();
            assert(fs.inode_area_start() <= inode.block_id < fs.disk().len());
        }
        let ino: u64 = (inode.block_id as u64 - fs.inode_area_start_block as u64) * 4
            + inode.block_offset as u64 / 128;
        let d = self.read_disk_inode(fs);
        proof {
            fs.lemma_wf();
        }
        let ghost es = dir_entries(d.content(disk));
        let count = Self::entry_count(&d);
        let mut n: u64 = 0;
        let mut i: usize = 0;
        while i < count
            invariant
                fs.wf(),
                fs.disk() == disk,
                disk == old(fs).disk(),
                same_layout(fs, old(fs)),
                d.in_disk(disk),
                es == dir_entries(d.content(disk)),
                count == es.len(),
                i <= count,
                n == link_count(es.subrange(0, i as int), ino as nat),
                n <= i,
            decreases count - i,
        {
            let e = Self::read_entry(fs, &d, i);
            proof {
                let s1 = es.subrange(0, i + 1);
                assert(s1.drop_last() =~= es.subrange(0, i as int));
                assert(s1.last() == es[i as int]);
            }
            if e.inode_number() as u64 == ino {
                n = n + 1;
            }
            i = i + 1;
        }
        proof {
            assert(es.subrange(0, count as int) =~= es);
        }
        Stat { dev: fs.cache.dev_id() as u64, ino, mode, nlink: n }
    }
}

/// `r` is where the first entry named `name` of the directory content `c` stands.
pub open spec fn found_at(c: Seq<u8>, name: Seq<u8>, r: Option<usize>) -> bool {
    match first_named(dir_entries(c), name) {
        None => r is None,
        Some(i) => r is Some && r->Some_0 as int == i && i < dir_entries(c).len(),
    }
}

/// `c2` is what removing the first entry named `name` from the directory
/// content `c1` leaves: the last entry takes its place and the directory
/// shrinks by one, and `r` holds. Without such an entry, `r` is false and
/// nothing changes.
pub open spec fn unlinked(c1: Seq<u8>, c2: Seq<u8>, name: Seq<u8>, r: bool) -> bool {
    match first_named(dir_entries(c1), name) {
        None => !r && c2 == c1,
        Some(i) => r && dir_entries(c2) == dir_entries(c1).update(i, dir_entries(c1).last()).drop_last(),
    }
}

/// No value of `a` occurs in `b`.
pub fn disjoint_u32(a: &Vec<u32>, b: &Vec<u32>) -> (r: bool)
    ensures
        r == forall|i: int| 0 <= i < a@.len() ==> !b@.contains(#[trigger] a@[i]),
{
    let mut i: usize = 0;
    while i < a.len()
        invariant
            i <= a@.len(),
            forall|j: int| 0 <= j < i ==> !b@.contains(#[trigger] a@[j]),
        decreases a@.len() - i,
    {
        if contains_u32(b, a[i]) {
            return false;
        }
        i = i + 1;
    }
    true
}

/// The content of an inode cut to fewer bytes is the prefix of its content.
proof fn lemma_content_prefix(d: DiskInode, e: DiskInode, disk: Seq<Seq<u8>>)
    requires
        e.direct == d.direct,
        e.indirect1 == d.indirect1,
        e.indirect2 == d.indirect2,
        e.size <= d.size,
    ensures
        e.content(disk) == d.content(disk).subrange(0, e.size as int),
        forall|n: nat| #[trigger] e.all_ids(disk, n) == d.all_ids(disk, n),
{
    assert forall|k: nat| #[trigger] e.block_at(disk, k) == d.block_at(disk, k) by {}
    assert(e.content(disk) =~= d.content(disk).subrange(0, e.size as int));
    assert forall|n: nat| #[trigger] e.all_ids(disk, n) == d.all_ids(disk, n) by {
        assert(e.data_ids(disk, n) =~= d.data_ids(disk, n));
        assert(e.l2_ids(disk, n) =~= d.l2_ids(disk, n));
        assert(e.all_ids(disk, n) =~= d.all_ids(disk, n));
    }
}

impl Inode {
    /// Index of the first entry named `name` of the directory `d`.
    #[verifier::rlimit(100)]
    fn find_entry<D: BlockDevice>(fs: &mut EasyFileSystem<D>, name: &[u8], d: &DiskInode) -> (r: Option<usize>)
        requires
            old(fs).wf(),
            d.in_disk(old(fs).disk()),
        ensures
            final(fs).wf(),
            final(fs).disk() == old(fs).disk(),
            same_layout(final(fs), old(fs)),
            found_at(d.content(old(fs).disk()), name@, r),
    {
        let ghost es = dir_entries(d.content(fs.disk()));
        let count = Self::entry_count(d);
        let mut i: usize = 0;
        while i < count
            invariant
                fs.wf(),
                fs.disk() == old(fs).disk(),
                same_layout(fs, old(fs)),
                d.in_disk(fs.disk()),
                es == dir_entries(d.content(fs.disk())),
                count == es.len(),
                i <= count,
                forall|j: int| 0 <= j < i ==> entry_name(#[trigger] es[j]) != name@,
            decreases count - i,
        {
            let e = Self::read_entry(fs, d, i);
            let en = e.name();
            if bytes_eq(en.as_slice(), name) {
                proof {
                    reveal(first_named);
                    let ii = i as int;
                    assert(0 <= ii < es.len() && entry_name(es[ii]) == name@ && forall|j: int|
                        0 <= j < ii ==> entry_name(#[trigger] es[j]) != name@);
                    let kk = first_named(es, name@)->Some_0;
                    if kk < ii {
                        assert(entry_name(es[kk]) != name@);
                    } else if kk > ii {
                        assert(entry_name(es[ii]) != name@);
                    }
                }
                return Some(i);
            }
            i = i + 1;
        }
        proof {
            reveal(first_named);
            assert(!(exists|k: int| 0 <= k < es.len() && entry_name(es[k]) == name@)) by {
                if exists|k: int| 0 <= k < es.len() && entry_name(es[k]) == name@ {
                    let k = choose|k: int| 0 <= k < es.len() && entry_name(es[k]) == name@;
                    assert(entry_name(es[k]) != name@);
                }
            }
        }
        None
    }

    /// Whether any entry of the directory `d` other than `skip` names inode `ino`.
    fn linked_elsewhere<D: BlockDevice>(fs: &mut EasyFileSystem<D>, d: &DiskInode, ino: u32, skip: usize) -> (r: bool)
        requires
            old(fs).wf(),
            d.in_disk(old(fs).disk()),
        ensures
            final(fs).wf(),
            final(fs).disk() == old(fs).disk(),
            same_layout(final(fs), old(fs)),
    {
        let count = Self::entry_count(d);
        let mut i: usize = 0;
        while i < count
            invariant
                fs.wf(),
                fs.disk() == old(fs).disk(),
                same_layout(fs, old(fs)),
                d.in_disk(fs.disk()),
                count == d.size / 32,
                i <= count,
            decreases count - i,
        {
            if i != skip {
                let e = Self::read_entry(fs, d, i);
                if e.inode_number() == ino {
                    return true;
                }
            }
            i = i + 1;
        }
        false
    }

    /// Frees inode `ino` and its blocks when that cannot touch this directory.
    #[verifier::spinoff_prover]
    #[verifier::rlimit(100)]
    fn release_inode<D: BlockDevice>(&self, fs: &mut EasyFileSystem<D>, ino: u32)
        requires
            self.valid(old(fs)),
        ensures
            final(fs).wf(),
            self.valid(final(fs)),
            same_layout(final(fs), old(fs)),
            self.content(final(fs).disk()) == self.content(old(fs).disk()),
    {
        proof {
            fs.lemma_wf();
        }
        if (ino as u64) >= fs.inode_bitmap.maximum() as u64 {
            return;
        }
        let (tb, to) = fs.get_disk_inode_pos(ino);
        if tb as usize == self.block_id && to == self.block_offset {
            return;
        }
        let target = Inode::new(tb, to);
        if !target.check_valid(fs) {
            return;
        }
        let ghost disk0 = fs.disk();
        let d = self.read_disk_inode(fs);
        let td = target.read_disk_inode(fs);
        proof {
            fs.lemma_wf();
            d.lemma_in_disk_index(disk0);
            td.lemma_in_disk_index(disk0);
        }
        let mut c1 = d;
        let ghost s1 = *fs;
        let mine = c1.clear_size(&mut fs.cache);
        proof {
            s1.lemma_wf_cache_change(fs);
        }
        let mut c2 = td;
        let ghost s2 = *fs;
        let theirs = c2.clear_size(&mut fs.cache);
        proof {
            s2.lemma_wf_cache_change(fs);
        }
        if !disjoint_u32(&mine, &theirs) {
            return;
        }
        target.clear(fs);
        let ghost disk1 = fs.disk();
        proof {
            fs.lemma_wf();
            let tids = target.disk_inode(disk0).all_ids(
                disk0,
                crate::layout::data_blocks_of(target.disk_inode(disk0).size as nat),
            );
            lemma_decode_unique(target.raw(disk0), td, target.disk_inode(disk0), disk0);
            assert(tids == theirs@);
            let my = mine@;
            assert(self.raw(disk1) =~= self.raw(disk0)) by {
                if tb as usize == self.block_id {
                    assert(to + 128 <= self.block_offset || self.block_offset + 128 <= to) by (nonlinear_arith)
                        requires
                            to % 128 == 0,
                            self.block_offset % 128 == 0,
                            to != self.block_offset,
                    ;
                } else {
                    assert(!tids.contains(self.block_id as u32)) by {
                        if tids.contains(self.block_id as u32) {
                            let t = choose|t: int| 0 <= t < tids.len() && tids[t] == self.block_id as u32;
                            assert(tids[t] >= fs.data_area_start());
                        }
                    }
                }
            }
            assert forall|i: int| 0 <= i < my.len() implies disk1[my[i] as int] == disk0[my[i] as int] by {
                assert(my[i] >= fs.data_area_start());
                assert(!tids.contains(my[i]));
                assert(my[i] as int != tb as int);
            }
            lemma_frame(d, disk0, disk1, fs.data_area_start());
            lemma_decode_unique(self.raw(disk1), d, self.disk_inode(disk1), disk1);
            lemma_decode_unique(self.raw(disk0), d, self.disk_inode(disk0), disk0);
        }
        let ghost s3 = *fs;
        let set = fs.inode_bitmap.test(&mut fs.cache, ino as usize);
        proof {
            s3.lemma_wf_cache_change(fs);
            fs.lemma_wf();
        }
        if set {
            let ghost s4 = *fs;
            fs.inode_bitmap.dealloc(&mut fs.cache, ino as usize);
            proof {
                s4.lemma_wf_cache_change(fs);
                let disk2 = fs.disk();
                let blk = crate::bitmap::bit_block(1, ino as nat);
                assert(blk < fs.inode_area_start()) by (nonlinear_arith)
                    requires
                        ino < fs.inode_bitmap.num_blocks() * 4096,
                        fs.inode_area_start() == 1 + fs.inode_bitmap.num_blocks(),
                        blk == 1 + ino / 4096,
                ;
                assert(self.raw(disk2) =~= self.raw(disk1));
                let my = mine@;
                assert forall|i: int| 0 <= i < my.len() implies disk2[my[i] as int] == disk1[my[i] as int] by {
                    assert(my[i] >= fs.data_area_start());
                }
                lemma_frame(d, disk1, disk2, fs.data_area_start());
                lemma_decode_unique(self.raw(disk2), d, self.disk_inode(disk2), disk2);
            }
        }
    }

    /// Replaces entry `idx` by the last entry and drops the last one.
    #[verifier::spinoff_prover]
    #[verifier::rlimit(100)]
    fn remove_entry<D: BlockDevice>(&self, fs: &mut EasyFileSystem<D>, idx: usize)
        requires
            self.valid(old(fs)),
            idx < dir_entries(self.content(old(fs).disk())).len(),
        ensures
            final(fs).wf(),
            self.valid(final(fs)),
            dir_entries(self.content(final(fs).disk())) == dir_entries(self.content(old(fs).disk())).update(
                idx as int,
                dir_entries(self.content(old(fs).disk())).last(),
            ).drop_last(),
    {
        let ghost c0 = self.content(fs.disk());
        let mut d = self.read_disk_inode(fs);
        proof {
            fs.lemma_wf();
        }
        let count: usize = (d.size as usize) / DIRENTRY_SIZE;
        let last: usize = count - 1;
        if idx != last {
            let le = Self::read_entry(fs, &d, last);
            let bytes = le.as_bytes();
            let ok = self.write_with(fs, &mut d, idx * DIRENTRY_SIZE, bytes.as_slice());
            proof {
                assert(ok);
                let disk2 = fs.disk();
                let c2 = d.content(disk2);
                let es = dir_entries(c0);
                assert(c2.len() == c0.len());
                assert forall|k: int| 0 <= k < es.len() implies #[trigger] dir_entries(c2)[k] == es.update(
                    idx as int,
                    es.last(),
                )[k] by {
                    if k == idx {
                        assert(dir_entries(c2)[k] =~= bytes@);
                    } else {
                        assert(32 * k + 32 <= 32 * idx || 32 * idx + 32 <= 32 * k) by (nonlinear_arith)
                            requires
                                k != idx,
                        ;
                        assert(32 * k + 32 <= c0.len()) by (nonlinear_arith)
                            requires
                                k < c0.len() / 32,
                        ;
                        assert(dir_entries(c2)[k] =~= es[k]);
                    }
                }
                assert(dir_entries(c2) =~= es.update(idx as int, es.last()));
            }
        } else {
            proof {
                let es = dir_entries(c0);
                assert(es.update(idx as int, es.last()) =~= es);
            }
        }
        let ghost disk3 = fs.disk();
        let ghost full = d;
        let ghost c3 = d.content(disk3);
        d.size = (last * DIRENTRY_SIZE) as u32;
        proof {
            lemma_content_prefix(full, d, disk3);
            full.lemma_mapped_prefix(
                disk3,
                crate::layout::data_blocks_of(full.size as nat),
                crate::layout::data_blocks_of(d.size as nat),
                fs.data_area_start(),
            );
            crate::layout::lemma_data_blocks_monotonic(d.size as nat, full.size as nat);
            fs.lemma_wf();
        }
        self.write_disk_inode(fs, &d);
        proof {
            let disk4 = fs.disk();
            let n = crate::layout::data_blocks_of(d.size as nat);
            let all = d.all_ids(disk3, n);
            assert forall|i: int| 0 <= i < all.len() implies disk4[all[i] as int] == disk3[all[i] as int] by {
                assert(all[i] >= fs.data_area_start());
            }
            lemma_frame(d, disk3, disk4, fs.data_area_start());
            lemma_decode_unique(self.raw(disk4), d, self.disk_inode(disk4), disk4);
            let cf = d.content(disk4);
            assert(cf == c3.subrange(0, (last * 32) as int));
            let es3 = dir_entries(c3);
            assert(dir_entries(cf) =~= es3.drop_last()) by {
                assert(cf.len() / 32 == last) by (nonlinear_arith)
                    requires
                        cf.len() == last * 32,
                ;
                assert forall|k: int| 0 <= k < last implies #[trigger] dir_entries(cf)[k] == es3[k] by {
                    assert(32 * k + 32 <= last * 32) by (nonlinear_arith)
                        requires
                            k < last,
                    ;
                    assert(dir_entries(cf)[k] =~= es3[k]);
                }
            }
        }
    }

    /// Finds the entry `name` and frees its inode when no other entry names it.
    #[verifier::spinoff_prover]
    #[verifier::rlimit(100)]
    fn prepare_unlink<D: BlockDevice>(&self, fs: &mut EasyFileSystem<D>, name: &str) -> (r: Option<usize>)
        requires
            self.valid(old(fs)),
        ensures
            final(fs).wf(),
            self.valid(final(fs)),
            self.content(final(fs).disk()) == self.content(old(fs).disk()),
            found_at(self.content(old(fs).disk()), name.spec_bytes(), r),
    {
        let ghost disk0 = fs.disk();
        let d0 = self.read_disk_inode(fs);
        proof {
            fs.lemma_wf();
        }
        let found = Self::find_entry(fs, name.as_bytes(), &d0);
        let idx = match found {
            None => {
                return None;
            },
            Some(i) => i,
        };
        proof {
            let c = d0.content(disk0);
            let fnm = first_named(dir_entries(c), name.spec_bytes());
            if fnm is None {
                assert(found is None);
            }
            assert(fnm == Some(idx as int));
            assert(idx < dir_entries(c).len());
            assert(c.len() == d0.size);
        }
        let e = Self::read_entry(fs, &d0, idx);
        let ino = e.inode_number();
        let elsewhere = Self::linked_elsewhere(fs, &d0, ino, idx);
        if !elsewhere {
            self.release_inode(fs, ino);
        }
        Some(idx)
    }

    /// Removes the entry `name`: the last entry takes its place and the
    /// directory shrinks by one entry. When no entry names its inode any more,
    /// the inode and its blocks are freed.
    #[verifier::spinoff_prover]
    #[verifier::rlimit(100)]
    pub fn unlink<D: BlockDevice>(&self, fs: &mut EasyFileSystem<D>, name: &str) -> (r: bool)
        requires
            self.valid(old(fs)),
        ensures
            final(fs).wf(),
            self.valid(final(fs)),
            unlinked(self.content(old(fs).disk()), self.content(final(fs).disk()), name.spec_bytes(), r),
    {
        let ghost c0 = self.content(old(fs).disk());
        let found = self.prepare_unlink(fs, name);
        let idx = match found {
            None => {
                proof {
                    let fnm = first_named(dir_entries(c0), name.spec_bytes());
                    if fnm is Some {
                        assert(found is Some);
                    }
                }
                return false;
            },
            Some(i) => i,
        };
        proof {
            let fnm = first_named(dir_entries(c0), name.spec_bytes());
            if fnm is None {
                assert(found is None);
            }
            assert(fnm == Some(idx as int));
        }
        self.remove_entry(fs, idx);
        true
    }
}

/// Removes the entry `path` from the directory `root`.
pub fn unlinkat<D: BlockDevice>(fs: &mut EasyFileSystem<D>, root: &Inode, path: &str) -> (r: bool)
    requires
        root.valid(old(fs)),
    ensures
        final(fs).wf(),
        root.valid(final(fs)),
        unlinked(root.content(old(fs).disk()), root.content(final(fs).disk()), path.spec_bytes(), r),
{
    root.unlink(fs, path)
}

} // verus!
