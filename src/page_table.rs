use vstd::prelude::*;

verus! {

/// Flag bits of a page-table entry.
pub const PTE_V: u8 = 1;
pub const PTE_R: u8 = 2;
pub const PTE_W: u8 = 4;
pub const PTE_X: u8 = 8;
pub const PTE_U: u8 = 16;
pub const PTE_G: u8 = 32;
pub const PTE_A: u8 = 64;
pub const PTE_D: u8 = 128;

/// Physical page numbers below this fit an entry.
pub const PPN_LIMIT: u64 = 0x1000_0000_0000;

/// An Sv39 page-table entry: a physical page number above ten flag bits
/// (of which the upper two are reserved for software).
#[derive(Clone, Copy, PartialEq, Eq, Structural)]
pub struct PageTableEntry {
    pub bits: u64,
}

impl PageTableEntry {
    /// The entry mapping to page `ppn` with `flags`.
    pub fn new(ppn: u64, flags: u8) -> (r: Self)
        requires
            ppn < PPN_LIMIT,
        ensures
            r.bits == (ppn << 10u64) | (flags as u64),
            r.spec_ppn() == ppn,
            r.spec_flags() == flags,
    {
        let bits = (ppn << 10u64) | (flags as u64);
        assert(((((ppn << 10u64) | (flags as u64)) >> 10u64) & 0xfff_ffff_ffffu64) == ppn) by (bit_vector)
            requires
                ppn < 0x1000_0000_0000u64,
        ;
        assert((((ppn << 10u64) | (flags as u64)) as u8) == flags) by (bit_vector);
        PageTableEntry { bits }
    }

    pub fn empty() -> (r: Self)
        ensures
            r.bits == 0,
    {
        PageTableEntry { bits: 0 }
    }

    pub open spec fn spec_ppn(&self) -> u64 {
        (self.bits >> 10u64) & 0xfff_ffff_ffffu64
    }

    pub open spec fn spec_flags(&self) -> u8 {
        self.bits as u8
    }

    pub fn ppn(&self) -> (r: u64)
        ensures
            r == self.spec_ppn(),
    {
        (self.bits >> 10u64) & 0xfff_ffff_ffffu64
    }

    pub fn flags(&self) -> (r: u8)
        ensures
            r == self.spec_flags(),
    {
        self.bits as u8
    }

    pub fn is_valid(&self) -> (r: bool)
        ensures
            r == (self.spec_flags() & PTE_V != 0),
    {
        self.flags() & PTE_V != 0
    }

    pub fn readable(&self) -> (r: bool)
        ensures
            r == (self.spec_flags() & PTE_R != 0),
    {
        self.flags() & PTE_R != 0
    }

    pub fn writable(&self) -> (r: bool)
        ensures
            r == (self.spec_flags() & PTE_W != 0),
    {
        self.flags() & PTE_W != 0
    }

    pub fn executable(&self) -> (r: bool)
        ensures
            r == (self.spec_flags() & PTE_X != 0),
    {
        self.flags() & PTE_X != 0
    }
}

/// The `satp` value that selects Sv39 translation rooted at page `root_ppn`.
pub fn token(root_ppn: u64) -> (r: u64)
    requires
        root_ppn < PPN_LIMIT,
    ensures
        r == (8u64 << 60u64) | root_ppn,
        r & 0xfff_ffff_ffffu64 == root_ppn,
        r >> 60u64 == 8,
{
    assert((((8u64 << 60u64) | root_ppn) & 0xfff_ffff_ffffu64) == root_ppn) by (bit_vector)
        requires
            root_ppn < 0x1000_0000_0000u64,
    ;
    assert((((8u64 << 60u64) | root_ppn) >> 60u64) == 8) by (bit_vector)
        requires
            root_ppn < 0x1000_0000_0000u64,
    ;
    (8u64 << 60u64) | root_ppn
}

/// The root page number that a token names.
pub fn root_of_token(satp: u64) -> (r: u64)
    ensures
        r == satp & 0xfff_ffff_ffffu64,
{
    satp & 0xfff_ffff_ffffu64
}

/// An entry built from a page number and flags gives them back, and a token
/// gives back its root.
pub proof fn lemma_entry_round_trip(ppn: u64, flags: u8)
    requires
        ppn < PPN_LIMIT,
    ensures
        (((ppn << 10u64) | (flags as u64)) >> 10u64) & 0xfff_ffff_ffffu64 == ppn,
        ((ppn << 10u64) | (flags as u64)) as u8 == flags,
        ((8u64 << 60u64) | ppn) & 0xfff_ffff_ffffu64 == ppn,
{
    assert(((((ppn << 10u64) | (flags as u64)) >> 10u64) & 0xfff_ffff_ffffu64) == ppn) by (bit_vector)
        requires
            ppn < 0x1000_0000_0000u64,
    ;
    assert((((ppn << 10u64) | (flags as u64)) as u8) == flags) by (bit_vector);
    assert((((8u64 << 60u64) | ppn) & 0xfff_ffff_ffffu64) == ppn) by (bit_vector)
        requires
            ppn < 0x1000_0000_0000u64,
    ;
}

/// Largest number of frames the store holds.
pub const MAX_FRAMES: usize = 0x1000_0000;

/// The entry is valid.
pub open spec fn pte_valid(e: u64) -> bool {
    e & 1u64 == 1u64
}

/// The page number an entry points to.
pub open spec fn pte_ppn(e: u64) -> nat {
    ((e >> 10u64) & 0xfff_ffff_ffffu64) as nat
}

/// The three table indexes of `vpn`, root level first.
pub open spec fn vpn_index(vpn: nat, level: nat) -> int {
    if level == 0 {
        ((vpn / 262144) % 512) as int
    } else if level == 1 {
        ((vpn / 512) % 512) as int
    } else {
        (vpn % 512) as int
    }
}

/// The leaf entry that a walk from table `root` reaches for `vpn`, if the two
/// upper levels hold valid entries that point at frames of `mem`.
pub open spec fn walk(mem: Seq<Seq<u64>>, root: nat, vpn: nat) -> Option<u64> {
    if root >= mem.len() {
        None
    } else {
        let e0 = mem[root as int][vpn_index(vpn, 0)];
        if !pte_valid(e0) || pte_ppn(e0) >= mem.len() {
            None
        } else {
            let e1 = mem[pte_ppn(e0) as int][vpn_index(vpn, 1)];
            if !pte_valid(e1) || pte_ppn(e1) >= mem.len() {
                None
            } else {
                Some(mem[pte_ppn(e1) as int][vpn_index(vpn, 2)])
            }
        }
    }
}

/// The physical address that `va` translates to, if mapped.
pub open spec fn translate_spec(mem: Seq<Seq<u64>>, root: nat, va: nat) -> Option<nat> {
    match walk(mem, root, va / 4096) {
        Some(e) => if pte_valid(e) {
            Some(pte_ppn(e) * 4096 + va % 4096)
        } else {
            None
        },
        None => None,
    }
}

/// The tables on the way to `vpn` that exist are distinct frames of `mem`, so
/// filling in the path cannot overwrite an upper level.
pub open spec fn path_sane(mem: Seq<Seq<u64>>, root: nat, vpn: nat) -> bool {
    let e0 = mem[root as int][vpn_index(vpn, 0)];
    pte_valid(e0) ==> {
        let t1 = pte_ppn(e0);
        &&& t1 < mem.len()
        &&& t1 != root
        &&& {
            let e1 = mem[t1 as int][vpn_index(vpn, 1)];
            pte_valid(e1) ==> pte_ppn(e1) < mem.len() && pte_ppn(e1) != root && pte_ppn(e1) != t1
        }
    }
}

/// The leaf for `vpn` already holds a valid entry.
pub open spec fn leaf_taken(mem: Seq<Seq<u64>>, root: nat, vpn: nat) -> bool {
    match walk(mem, root, vpn) {
        Some(e) => pte_valid(e),
        None => false,
    }
}

proof fn lemma_pte_bits(ppn: u64, flags: u64)
    requires
        ppn < PPN_LIMIT,
        flags < 1024,
    ensures
        pte_ppn((ppn << 10u64) | flags) == ppn,
        pte_valid((ppn << 10u64) | flags) == (flags & 1u64 == 1u64),
{
    assert(((((ppn << 10u64) | flags) >> 10u64) & 0xfff_ffff_ffffu64) == ppn) by (bit_vector)
        requires
            ppn < 0x1000_0000_0000u64,
            flags < 1024,
    ;
    assert((((ppn << 10u64) | flags) & 1u64) == (flags & 1u64)) by (bit_vector)
        requires
            flags < 1024,
    ;
}

/// Physical memory as a store of page-table frames of 512 entries each.
pub struct FrameStore {
    frames: Vec<Vec<u64>>,
}

impl FrameStore {
    pub closed spec fn mem(&self) -> Seq<Seq<u64>> {
        Seq::new(self.frames@.len(), |i: int| self.frames@[i]@)
    }

    pub open spec fn wf(&self) -> bool {
        &&& self.mem().len() <= MAX_FRAMES
        &&& forall|i: int| 0 <= i < self.mem().len() ==> (#[trigger] self.mem()[i]).len() == 512
    }

    pub fn new() -> (r: Self)
        ensures
            r.wf(),
            r.mem().len() == 0,
    {
        FrameStore { frames: Vec::new() }
    }

    /// A new zeroed frame; returns its page number, or `None` when the store is full.
    pub fn alloc_frame(&mut self) -> (r: Option<usize>)
        requires
            old(self).wf(),
        ensures
            final(self).wf(),
            match r {
                Some(f) => f == old(self).mem().len() && final(self).mem() == old(self).mem().push(
                    Seq::new(512, |i: int| 0u64),
                ),
                None => final(self).mem() == old(self).mem() && old(self).mem().len() == MAX_FRAMES,
            },
    {
        if self.frames.len() >= MAX_FRAMES {
            return None;
        }
        let f: usize = self.frames.len();
        let z: Vec<u64> = vec![0u64; 512];
        proof {
            assert(z@ =~= Seq::new(512, |i: int| 0u64));
        }
        self.frames.push(z);
        proof {
            assert(self.mem() =~= old(self).mem().push(Seq::new(512, |i: int| 0u64)));
        }
        Some(f)
    }

    fn read(&self, f: usize, i: usize) -> (r: u64)
        requires
            self.wf(),
            f < self.mem().len(),
            i < 512,
        ensures
            r == self.mem()[f as int][i as int],
    {
        proof {
            assert(self.mem()[f as int].len() == 512);
        }
        self.frames[f][i]
    }

    fn write(&mut self, f: usize, i: usize, v: u64)
        requires
            old(self).wf(),
            f < old(self).mem().len(),
            i < 512,
        ensures
            final(self).wf(),
            final(self).mem() == old(self).mem().update(f as int, old(self).mem()[f as int].update(i as int, v)),
    {
        proof {
            assert(old(self).mem()[f as int].len() == 512);
        }
        let mut fr = self.frames.remove(f);
        fr.set(i, v);
        self.frames.insert(f, fr);
        proof {
            assert(self.mem() =~= old(self).mem().update(f as int, old(self).mem()[f as int].update(i as int, v)));
        }
    }

    /// Reads the entry at level `level` on the way to `vpn` from table `t`.
    fn entry_at(&self, t: usize, vpn: usize, level: usize) -> (r: (u64, usize))
        requires
            self.wf(),
            t < self.mem().len(),
            level < 3,
        ensures
            r.0 == self.mem()[t as int][vpn_index(vpn as nat, level as nat)],
            r.1 == vpn_index(vpn as nat, level as nat),
    {
        let idx: usize = if level == 0 {
            (vpn / 262144) % 512
        } else if level == 1 {
            (vpn / 512) % 512
        } else {
            vpn % 512
        };
        (self.read(t, idx), idx)
    }

    /// Follows entry `idx` of table `t` to the next table, adding a zeroed
    /// table when the entry is not valid. Refuses an entry that points outside
    /// the store or at `a` or `b`.
    fn descend(&mut self, t: usize, idx: usize, a: usize, b: usize) -> (r: Option<usize>)
        requires
            old(self).wf(),
            t < old(self).mem().len(),
            idx < 512,
        ensures
            final(self).wf(),
            final(self).mem().len() >= old(self).mem().len(),
            final(self).mem().len() <= old(self).mem().len() + 1,
            forall|f: int| 0 <= f < old(self).mem().len() && f != t ==> #[trigger] final(self).mem()[f] == old(self).mem()[f],
            forall|k: int| 0 <= k < 512 && k != idx ==> #[trigger] final(self).mem()[t as int][k] == old(self).mem()[t as int][k],
            match r {
                Some(n) => {
                    &&& n < final(self).mem().len()
                    &&& n != a
                    &&& n != b
                    &&& pte_valid(final(self).mem()[t as int][idx as int])
                    &&& pte_ppn(final(self).mem()[t as int][idx as int]) == n
                    &&& pte_valid(old(self).mem()[t as int][idx as int]) ==> final(self).mem() == old(self).mem()
                    &&& !pte_valid(old(self).mem()[t as int][idx as int]) ==> n == old(self).mem().len()
                        && final(self).mem()[n as int] == Seq::new(512, |i: int| 0u64)
                },
                None => true,
            },
            pte_valid(old(self).mem()[t as int][idx as int]) ==> (r is Some <==> (pte_ppn(
                old(self).mem()[t as int][idx as int],
            ) < old(self).mem().len() && pte_ppn(old(self).mem()[t as int][idx as int]) != a && pte_ppn(
                old(self).mem()[t as int][idx as int],
            ) != b)),
            !pte_valid(old(self).mem()[t as int][idx as int]) && old(self).mem().len() < MAX_FRAMES && a < old(
                self,
            ).mem().len() && b < old(self).mem().len() ==> r is Some,
    {
        let e = self.read(t, idx);
        if e & 1u64 == 1u64 {
            let p64: u64 = (e >> 10u64) & 0xfff_ffff_ffffu64;
            if p64 >= self.frames.len() as u64 || p64 == a as u64 || p64 == b as u64 {
                return None;
            }
            return Some(p64 as usize);
        }
        if self.frames.len() == a || self.frames.len() == b {
            return None;
        }
        let f = match self.alloc_frame() {
            None => {
                return None;
            },
            Some(f) => f,
        };
        proof {
            lemma_pte_bits(f as u64, 1);
            assert(1u64 & 1u64 == 1u64) by (bit_vector);
        }
        self.write(t, idx, ((f as u64) << 10u64) | 1u64);
        Some(f)
    }

    /// Maps page `vpn` of the table rooted at `root` to frame `ppn` with
    /// `flags` (and V), adding the missing intermediate tables. Refuses when
    /// the root is not a frame, the path is not sane, the page is already
    /// mapped, or no frame is left for a missing table.
    pub fn map(&mut self, root: usize, vpn: usize, ppn: u64, flags: u8) -> (r: bool)
        requires
            old(self).wf(),
            ppn < PPN_LIMIT,
        ensures
            final(self).wf(),
            root < old(self).mem().len() && path_sane(old(self).mem(), root as nat, vpn as nat) && !leaf_taken(
                old(self).mem(),
                root as nat,
                vpn as nat,
            ) && old(self).mem().len() + 2 <= MAX_FRAMES ==> r,
            r ==> root < old(self).mem().len() && !leaf_taken(old(self).mem(), root as nat, vpn as nat),
            r ==> walk(final(self).mem(), root as nat, vpn as nat) == Some((ppn << 10u64) | ((flags | 1u8) as u64)),
    {
        if root >= self.frames.len() {
            return false;
        }
        let ghost m0 = self.mem();
        let i0: usize = (vpn / 262144) % 512;
        let i1: usize = (vpn / 512) % 512;
        let i2: usize = vpn % 512;
        proof {
            assert(i0 as int == vpn_index(vpn as nat, 0));
            assert(i1 as int == vpn_index(vpn as nat, 1));
            assert(i2 as int == vpn_index(vpn as nat, 2));
        }
        let t1 = match self.descend(root, i0, root, root) {
            None => {
                return false;
            },
            Some(t) => t,
        };
        let ghost m1 = self.mem();
        proof {
            assert(0u64 & 1u64 != 1u64) by (bit_vector);
            if !pte_valid(m0[root as int][i0 as int]) {
                assert(m1[t1 as int] == Seq::new(512, |i: int| 0u64));
                assert(m1[t1 as int][i1 as int] == 0u64);
                assert(!pte_valid(m1[t1 as int][i1 as int]));
            } else {
                assert(m1 == m0);
            }
        }
        let t2 = match self.descend(t1, i1, root, t1) {
            None => {
                return false;
            },
            Some(t) => t,
        };
        let ghost m2 = self.mem();
        let e2 = self.read(t2, i2);
        if e2 & 1u64 == 1u64 {
            proof {
                assert(0u64 & 1u64 != 1u64) by (bit_vector);
                if !pte_valid(m1[t1 as int][i1 as int]) {
                    assert(m2[t2 as int] == Seq::new(512, |i: int| 0u64));
                    assert(e2 == 0u64);
                }
                if !pte_valid(m0[root as int][i0 as int]) {
                    assert(m1[t1 as int] == Seq::new(512, |i: int| 0u64));
                    assert(m1[t1 as int][i1 as int] == 0u64);
                }
                assert(pte_valid(m0[root as int][i0 as int]));
                assert(pte_valid(m1[t1 as int][i1 as int]));
                assert(m0[t1 as int][i1 as int] == m1[t1 as int][i1 as int]);
                assert(walk(m0, root as nat, vpn as nat) == Some(e2));
            }
            return false;
        }
        let leaf: u64 = (ppn << 10u64) | ((flags | 1u8) as u64);
        self.write(t2, i2, leaf);
        proof {
            let m3 = self.mem();
            assert(m2[root as int][i0 as int] == m1[root as int][i0 as int]);
            assert(m3[root as int][i0 as int] == m2[root as int][i0 as int]);
            assert(m3[t1 as int][i1 as int] == m2[t1 as int][i1 as int]);
            assert(walk(m3, root as nat, vpn as nat) == Some(leaf));
        }
        true
    }

    /// The physical address that `va` translates to in the table rooted at `root`.
    pub fn translate_va(&self, root: usize, va: usize) -> (r: Option<u64>)
        requires
            self.wf(),
        ensures
            r is Some ==> translate_spec(self.mem(), root as nat, va as nat) == Some(r->Some_0 as nat),
            r is None ==> translate_spec(self.mem(), root as nat, va as nat) is None,
    {
        if root >= self.frames.len() {
            return None;
        }
        let vpn: usize = va / 4096;
        let (e0, _i0) = self.entry_at(root, vpn, 0);
        if e0 & 1u64 != 1u64 {
            return None;
        }
        if ((e0 >> 10u64) & 0xfff_ffff_ffffu64) >= self.frames.len() as u64 {
            return None;
        }
        let t1 = ((e0 >> 10u64) & 0xfff_ffff_ffffu64) as usize;
        let (e1, _i1) = self.entry_at(t1, vpn, 1);
        if e1 & 1u64 != 1u64 {
            return None;
        }
        if ((e1 >> 10u64) & 0xfff_ffff_ffffu64) >= self.frames.len() as u64 {
            return None;
        }
        let t2 = ((e1 >> 10u64) & 0xfff_ffff_ffffu64) as usize;
        let (e2, _i2) = self.entry_at(t2, vpn, 2);
        if e2 & 1u64 != 1u64 {
            return None;
        }
        let ppn: u64 = (e2 >> 10u64) & 0xfff_ffff_ffffu64;
        assert(((e2 >> 10u64) & 0xfff_ffff_ffffu64) < 0x1000_0000_0000u64) by (bit_vector);
        Some(ppn * 4096 + (va % 4096) as u64)
    }
}

/// After `v` is mapped to frame `p`, every address `v * PAGE + off` of the
/// page translates to `p * PAGE + off`.
pub proof fn lemma_map_then_translate(mem: Seq<Seq<u64>>, root: nat, v: nat, p: u64, flags: u8, off: nat)
    requires
        walk(mem, root, v) == Some((p << 10u64) | ((flags | 1u8) as u64)),
        p < PPN_LIMIT,
        off < 4096,
    ensures
        translate_spec(mem, root, v * 4096 + off) == Some(p as nat * 4096 + off),
{
    crate::address::lemma_translate_arith(v, p as nat, off);
    let fl = (flags | 1u8) as u64;
    assert(fl < 1024 && fl & 1u64 == 1u64) by (bit_vector)
        requires
            fl == (flags | 1u8) as u64,
    ;
    lemma_pte_bits(p, fl);
}

} // verus!
