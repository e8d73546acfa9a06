use vstd::prelude::*;

verus! {

/// Bytes a pipe buffers.
pub const RING_BUFFER_SIZE: usize = 32;

/// The bounded byte queue between the two ends of a pipe.
pub struct PipeRingBuffer {
    arr: [u8; 32],
    head: usize,
    count: usize,
}

impl PipeRingBuffer {
    /// The bytes waiting, oldest first.
    pub closed spec fn view(&self) -> Seq<u8> {
        Seq::new(self.count as nat, |i: int| self.arr@[(self.head + i) % 32])
    }

    pub closed spec fn wf(&self) -> bool {
        &&& self.head < RING_BUFFER_SIZE
        &&& self.count <= RING_BUFFER_SIZE
    }

    pub fn new() -> (r: Self)
        ensures
            r.wf(),
            r.view() == Seq::<u8>::empty(),
    {
        let r = PipeRingBuffer { arr: [0u8; 32], head: 0, count: 0 };
        proof {
            assert(r.view() =~= Seq::<u8>::empty());
        }
        r
    }

    /// Number of bytes that can be read.
    pub fn available_read(&self) -> (r: usize)
        requires
            self.wf(),
        ensures
            r == self.view().len(),
    {
        self.count
    }

    /// Number of bytes that can be written.
    pub fn available_write(&self) -> (r: usize)
        requires
            self.wf(),
        ensures
            r == RING_BUFFER_SIZE - self.view().len(),
    {
        RING_BUFFER_SIZE - self.count
    }

    /// Takes the oldest byte.
    pub fn read_byte(&mut self) -> (r: u8)
        requires
            old(self).wf(),
            old(self).view().len() > 0,
        ensures
            final(self).wf(),
            r == old(self).view()[0],
            final(self).view() == old(self).view().drop_first(),
    {
        let c = self.arr[self.head];
        let ghost v0 = old(self).view();
        let ghost h0 = self.head as int;
        self.head = (self.head + 1) % RING_BUFFER_SIZE;
        self.count = self.count - 1;
        proof {
            let h1 = self.head as int;
            assert forall|i: int| 0 <= i < self.count implies #[trigger] self.view()[i] == v0.drop_first()[i] by {
                assert((h1 + i) % 32 == (h0 + 1 + i) % 32) by (nonlinear_arith)
                    requires
                        h1 == (h0 + 1) % 32,
                        0 <= i,
                        0 <= h0,
                ;
            }
            assert(self.view() =~= v0.drop_first());
        }
        c
    }

    /// Appends `byte`.
    pub fn write_byte(&mut self, byte: u8)
        requires
            old(self).wf(),
            old(self).view().len() < RING_BUFFER_SIZE,
        ensures
            final(self).wf(),
            final(self).view() == old(self).view().push(byte),
    {
        let ghost v0 = old(self).view();
        let tail: usize = (self.head + self.count) % RING_BUFFER_SIZE;
        self.arr[tail] = byte;
        self.count = self.count + 1;
        proof {
            assert forall|i: int| 0 <= i < self.count implies #[trigger] self.view()[i] == v0.push(byte)[i] by {
                if i < self.count - 1 {
                    assert((self.head + i) % 32 != tail as int) by (nonlinear_arith)
                        requires
                            tail == (self.head + self.count - 1) % 32,
                            0 <= i < self.count - 1,
                            self.count <= 32,
                    ;
                }
            }
            assert(self.view() =~= v0.push(byte));
        }
    }

    /// Moves up to `buf.len()` waiting bytes into `buf`; returns how many.
    pub fn read_into(&mut self, buf: &mut [u8]) -> (r: usize)
        requires
            old(self).wf(),
        ensures
            final(self).wf(),
            r == if old(buf)@.len() < old(self).view().len() {
                old(buf)@.len()
            } else {
                old(self).view().len()
            },
            final(buf)@.len() == old(buf)@.len(),
            final(buf)@.subrange(0, r as int) == old(self).view().subrange(0, r as int),
            final(self).view() == old(self).view().subrange(r as int, old(self).view().len() as int),
    {
        let n: usize = if buf.len() < self.count {
            buf.len()
        } else {
            self.count
        };
        let ghost v0 = self.view();
        let mut i: usize = 0;
        while i < n
            invariant
                self.wf(),
                n <= v0.len(),
                n <= buf@.len(),
                buf@.len() == old(buf)@.len(),
                i <= n,
                self.view() == v0.subrange(i as int, v0.len() as int),
                buf@.subrange(0, i as int) == v0.subrange(0, i as int),
            decreases n - i,
        {
            let b = self.read_byte();
            buf[i] = b;
            i = i + 1;
            proof {
                assert(buf@.subrange(0, i as int) =~= v0.subrange(0, i as int));
                assert(self.view() =~= v0.subrange(i as int, v0.len() as int));
            }
        }
        n
    }
}

/// What a reader of a pipe does next.
#[derive(Clone, Copy, PartialEq, Eq, Structural)]
pub enum PipeStep {
    /// Take this many bytes from the buffer now.
    Take(usize),
    /// Nothing is buffered but a writer remains: yield and look again.
    Wait,
    /// The read is over.
    Done,
}

/// Decides a reader's next step from the bytes buffered, whether every write
/// end is closed, and how many bytes the reader still wants.
pub fn pipe_read_step(available: usize, writers_closed: bool, remaining: usize) -> (r: PipeStep)
    ensures
        remaining == 0 ==> r == PipeStep::Done,
        remaining > 0 && available == 0 && writers_closed ==> r == PipeStep::Done,
        remaining > 0 && available == 0 && !writers_closed ==> r == PipeStep::Wait,
        remaining > 0 && available > 0 ==> r == PipeStep::Take(
            if available < remaining {
                available
            } else {
                remaining
            },
        ),
{
    if remaining == 0 {
        PipeStep::Done
    } else if available == 0 {
        if writers_closed {
            PipeStep::Done
        } else {
            PipeStep::Wait
        }
    } else if available < remaining {
        PipeStep::Take(available)
    } else {
        PipeStep::Take(remaining)
    }
}

} // verus!
