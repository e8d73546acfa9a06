use vstd::prelude::*;

use core::marker::PhantomData;

verus! {

/// Bytes of one page.
pub const PAGE_SIZE: usize = 4096;

/// Bits of the in-page offset of an address.
pub const PAGE_SIZE_BITS: usize = 12;

/// Marker: a physical quantity.
#[derive(Clone, Copy, PartialEq, Eq, Structural)]
pub struct Physical;

/// Marker: a virtual quantity.
#[derive(Clone, Copy, PartialEq, Eq, Structural)]
pub struct Virtual;

/// Marker: a byte address.
#[derive(Clone, Copy, PartialEq, Eq, Structural)]
pub struct Address;

/// Marker: a page number.
#[derive(Clone, Copy, PartialEq, Eq, Structural)]
pub struct PageNumber;

/// A number tagged with what it counts (`S`: address or page number) and in
/// which space (`T`: physical or virtual).
pub struct Warpper<S, T>(pub usize, pub PhantomData<S>, pub PhantomData<T>);

impl<S, T> Clone for Warpper<S, T> {
    fn clone(&self) -> (r: Self)
        ensures
            r.0 == self.0,
    {
        Warpper(self.0, PhantomData, PhantomData)
    }
}

impl<S, T> Copy for Warpper<S, T> {}

pub type Addr<T> = Warpper<Address, T>;
pub type PageNum<T> = Warpper<PageNumber, T>;
pub type PhysAddr = Warpper<Address, Physical>;
pub type PhysPageNum = Warpper<PageNumber, Physical>;
pub type VirtAddr = Warpper<Address, Virtual>;
pub type VirtPageNum = Warpper<PageNumber, Virtual>;

impl<S, T> Warpper<S, T> {
    pub fn new(v: usize) -> (r: Self)
        ensures
            r.0 == v,
    {
        Warpper(v, PhantomData, PhantomData)
    }
}

impl<T> Addr<T> {
    /// The page that holds the address.
    pub fn floor(&self) -> (r: Warpper<PageNumber, T>)
        ensures
            r.0 == self.0 / PAGE_SIZE,
    {
        Warpper(self.0 / PAGE_SIZE, PhantomData, PhantomData)
    }

    /// The first page that starts at or after the address.
    pub fn ceil(&self) -> (r: Warpper<PageNumber, T>)
        ensures
            r.0 == (self.0 + 4095) / 4096,
    {
        if self.0 == 0 {
            Warpper(0, PhantomData, PhantomData)
        } else {
            Warpper((self.0 - 1) / PAGE_SIZE + 1, PhantomData, PhantomData)
        }
    }

    /// The offset of the address inside its page.
    pub fn page_offset(&self) -> (r: usize)
        ensures
            r == self.0 % PAGE_SIZE,
    {
        let a = self.0;
        assert(a & 4095usize == a % 4096) by (bit_vector);
        a & (PAGE_SIZE - 1)
    }

    /// The address starts a page.
    pub fn aligned(&self) -> (r: bool)
        ensures
            r == (self.0 % PAGE_SIZE == 0),
    {
        self.page_offset() == 0
    }
}

impl<T> PageNum<T> {
    /// The address where the page starts.
    pub fn start_addr(&self) -> (r: Warpper<Address, T>)
        requires
            self.0 * PAGE_SIZE <= usize::MAX,
        ensures
            r.0 == self.0 * PAGE_SIZE,
    {
        Warpper(self.0 * PAGE_SIZE, PhantomData, PhantomData)
    }
}

impl VirtPageNum {
    /// The three 9-bit indexes of the page number, root level first.
    pub fn indexes(&self) -> (r: [usize; 3])
        ensures
            r@[0] == (self.0 / 262144) % 512,
            r@[1] == (self.0 / 512) % 512,
            r@[2] == self.0 % 512,
    {
        let vpn = self.0;
        let mut idx: [usize; 3] = [0usize; 3];
        assert(vpn & 511usize == vpn % 512) by (bit_vector);
        assert((vpn >> 9usize) & 511usize == (vpn / 512) % 512) by (bit_vector);
        assert((vpn >> 18usize) & 511usize == (vpn / 262144) % 512) by (bit_vector);
        idx[2] = vpn & 511;
        idx[1] = (vpn >> 9usize) & 511;
        idx[0] = (vpn >> 18usize) & 511;
        idx
    }
}

/// A position that can move one step forward.
pub trait StepByOne {
    spec fn index(&self) -> int;

    /// The position as a number.
    fn position(&self) -> (r: usize)
        ensures
            r == self.index(),
    ;

    fn step(&mut self)
        requires
            old(self).index() < usize::MAX,
        ensures
            final(self).index() == old(self).index() + 1,
    ;
}

impl StepByOne for VirtPageNum {
    open spec fn index(&self) -> int {
        self.0 as int
    }

    fn position(&self) -> (r: usize) {
        self.0
    }

    fn step(&mut self) {
        self.0 = self.0 + 1;
    }
}

/// The half-open range of positions `[l, r)`.
pub struct SimpleRange<T: StepByOne + Copy> {
    l: T,
    r: T,
}

impl<T: StepByOne + Copy> SimpleRange<T> {
    pub closed spec fn start(&self) -> T {
        self.l
    }

    pub closed spec fn end(&self) -> T {
        self.r
    }

    pub fn new(l: T, r: T) -> (s: Self)
        requires
            l.index() <= r.index(),
        ensures
            s.start() == l,
            s.end() == r,
    {
        SimpleRange { l, r }
    }

    pub fn get_start(&self) -> (r: T)
        ensures
            r == self.start(),
    {
        self.l
    }

    pub fn get_end(&self) -> (r: T)
        ensures
            r == self.end(),
    {
        self.r
    }

    /// A walk over the range, from its start.
    pub fn iter(&self) -> (it: SimpleRangeIterator<T>)
        requires
            self.start().index() <= self.end().index(),
        ensures
            it.current_pos() == self.start(),
            it.end_pos() == self.end(),
    {
        SimpleRangeIterator::new(self.l, self.r)
    }
}

/// A walk over `[current, end)` that yields each position once.
pub struct SimpleRangeIterator<T: StepByOne + Copy> {
    current: T,
    end: T,
}

impl<T: StepByOne + Copy> SimpleRangeIterator<T> {
    pub closed spec fn current_pos(&self) -> T {
        self.current
    }

    pub closed spec fn end_pos(&self) -> T {
        self.end
    }

    pub fn new(l: T, r: T) -> (it: Self)
        ensures
            it.current_pos() == l,
            it.end_pos() == r,
    {
        SimpleRangeIterator { current: l, end: r }
    }

    /// The next position, or `None` once the end is reached.
    pub fn next(&mut self) -> (r: Option<T>)
        requires
            old(self).current_pos().index() <= old(self).end_pos().index(),
        ensures
            final(self).end_pos() == old(self).end_pos(),
            final(self).current_pos().index() <= final(self).end_pos().index(),
            match r {
                None => old(self).current_pos().index() == old(self).end_pos().index()
                    && final(self).current_pos() == old(self).current_pos(),
                Some(t) => {
                    &&& t == old(self).current_pos()
                    &&& old(self).current_pos().index() < old(self).end_pos().index()
                    &&& final(self).current_pos().index() == t.index() + 1
                },
            },
    {
        if self.current.position() == self.end.position() {
            None
        } else {
            let t: T = self.current;
            self.current.step();
            Some(t)
        }
    }
}

/// Start address of the `app_id`-th application slot of the batch loader.
pub const APP_BASE_ADDRESS: usize = 0x80400000;

/// Bytes of one application slot.
pub const APP_SIZE_LIMIT: usize = 0x20000;

pub fn get_base_i(app_id: usize) -> (r: usize)
    requires
        APP_BASE_ADDRESS + app_id * APP_SIZE_LIMIT <= usize::MAX,
    ensures
        r == APP_BASE_ADDRESS + app_id * APP_SIZE_LIMIT,
{
    APP_BASE_ADDRESS + app_id * APP_SIZE_LIMIT
}

/// The arithmetic under address translation: an address `v * PAGE + off` with
/// `off < PAGE` lies in page `v` at offset `off`, so mapping page `v` to frame
/// `p` sends it to `p * PAGE + off`.
pub proof fn lemma_translate_arith(v: nat, p: nat, off: nat)
    requires
        off < 4096,
    ensures
        (v * 4096 + off) / 4096 == v,
        (v * 4096 + off) % 4096 == off,
        p * 4096 + (v * 4096 + off) % 4096 == p * 4096 + off,
{
    assert((v * 4096 + off) / 4096 == v) by (nonlinear_arith)
        requires
            off < 4096,
    ;
    assert((v * 4096 + off) % 4096 == off) by (nonlinear_arith)
        requires
            off < 4096,
    ;
}

} // verus!
