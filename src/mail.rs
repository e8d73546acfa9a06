use vstd::prelude::*;

verus! {

/// Number of mails a mailbox holds.
pub const MAX_SLOT_SIZE: usize = 8;

/// Longest mail, in bytes.
pub const MAX_MAIL_SIZE: usize = 256;

/// A bounded first-in first-out queue of mails, each a byte string.
pub struct RingBuffer {
    arr: Vec<Vec<u8>>,
    head: usize,
    count: usize,
}

impl RingBuffer {
    /// The mails waiting, oldest first.
    pub closed spec fn view(&self) -> Seq<Seq<u8>> {
        Seq::new(self.count as nat, |i: int| self.arr@[(self.head + i) % 8]@)
    }

    pub closed spec fn wf(&self) -> bool {
        &&& self.arr@.len() == MAX_SLOT_SIZE
        &&& self.head < MAX_SLOT_SIZE
        &&& self.count <= MAX_SLOT_SIZE
    }

    pub fn new() -> (r: Self)
        ensures
            r.wf(),
            r.view() == Seq::<Seq<u8>>::empty(),
    {
        let mut arr: Vec<Vec<u8>> = Vec::new();
        let mut i: usize = 0;
        while i < MAX_SLOT_SIZE
            invariant
                i <= MAX_SLOT_SIZE,
                arr@.len() == i,
            decreases MAX_SLOT_SIZE - i,
        {
            arr.push(Vec::new());
            i = i + 1;
        }
        let r = RingBuffer { arr, head: 0, count: 0 };
        proof {
            assert(r.view() =~= Seq::<Seq<u8>>::empty());
        }
        r
    }

    /// A mail is waiting.
    pub fn is_readable(&self) -> (r: bool)
        requires
            self.wf(),
        ensures
            r == (self.view().len() > 0),
    {
        self.count != 0
    }

    /// There is room for a mail.
    pub fn is_writable(&self) -> (r: bool)
        requires
            self.wf(),
        ensures
            r == (self.view().len() < MAX_SLOT_SIZE),
    {
        self.count != MAX_SLOT_SIZE
    }

    /// Takes the oldest mail.
    pub fn read(&mut self) -> (r: Vec<u8>)
        requires
            old(self).wf(),
            old(self).view().len() > 0,
        ensures
            final(self).wf(),
            r@ == old(self).view()[0],
            final(self).view() == old(self).view().drop_first(),
    {
        let mail = self.arr[self.head].clone();
        let ghost v0 = old(self).view();
        self.head = (self.head + 1) % MAX_SLOT_SIZE;
        self.count = self.count - 1;
        proof {
            assert(mail@ == v0[0]);
            let h0 = old(self).head as int;
            let h1 = self.head as int;
            assert forall|i: int| 0 <= i < self.count implies #[trigger] self.view()[i] == v0.drop_first()[i] by {
                let k = (h0 + 1 + i) % 8;
                assert((h1 + i) % 8 == k) by (nonlinear_arith)
                    requires
                        h1 == (h0 + 1) % 8,
                        k == (h0 + 1 + i) % 8,
                        0 <= i,
                        0 <= h0,
                ;
            }
            assert(self.view() =~= v0.drop_first());
        }
        mail
    }

    /// Appends `mail`, keeping at most its first 256 bytes.
    pub fn write(&mut self, mail: &[u8])
        requires
            old(self).wf(),
            old(self).view().len() < MAX_SLOT_SIZE,
        ensures
            final(self).wf(),
            final(self).view() == old(self).view().push(
                if mail@.len() <= MAX_MAIL_SIZE {
                    mail@
                } else {
                    mail@.subrange(0, MAX_MAIL_SIZE as int)
                },
            ),
    {
        let n: usize = if mail.len() <= MAX_MAIL_SIZE {
            mail.len()
        } else {
            MAX_MAIL_SIZE
        };
        let mut m: Vec<u8> = Vec::new();
        let mut i: usize = 0;
        while i < n
            invariant
                n <= mail@.len(),
                i <= n,
                m@ == mail@.subrange(0, i as int),
            decreases n - i,
        {
            m.push(mail[i]);
            i = i + 1;
            proof {
                assert(m@ =~= mail@.subrange(0, i as int));
            }
        }
        let ghost v0 = old(self).view();
        let tail: usize = (self.head + self.count) % MAX_SLOT_SIZE;
        self.arr.set(tail, m);
        self.count = self.count + 1;
        proof {
            assert(mail@.subrange(0, mail@.len() as int) =~= mail@);
            assert forall|i: int| 0 <= i < self.count implies #[trigger] self.view()[i] == v0.push(m@)[i] by {
                if i < self.count - 1 {
                    assert((self.head + i) % 8 != tail as int) by (nonlinear_arith)
                        requires
                            tail == (self.head + self.count - 1) % 8,
                            0 <= i < self.count - 1,
                            self.count <= 8,
                    ;
                }
            }
            assert(self.view() =~= v0.push(m@));
        }
    }

    /// Drops every waiting mail.
    pub fn clear(&mut self)
        requires
            old(self).wf(),
        ensures
            final(self).wf(),
            final(self).view() == Seq::<Seq<u8>>::empty(),
    {
        self.head = 0;
        self.count = 0;
        proof {
            assert(self.view() =~= Seq::<Seq<u8>>::empty());
        }
    }
}

} // verus!
