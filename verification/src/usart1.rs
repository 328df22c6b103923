//! Receive ring buffer of the polled USART1 driver: a single-producer
//! single-consumer queue filled by the receive interrupt and drained by the
//! application. One slot is kept free to tell a full buffer from an empty one.

use vstd::prelude::*;

verus! {

/// Size of the receive buffer (a power of two).
pub const RX_BUF_SIZE: usize = 256;

/// Most bytes the buffer holds at once.
pub const RX_CAPACITY: usize = 255;

/// Lock-free SPSC ring buffer.
pub struct RingBuffer {
    buf: [u8; RX_BUF_SIZE],
    head: usize,  // write index (interrupt only)
    tail: usize,  // read index (task only)
}

impl View for RingBuffer {
    type V = Seq<u8>;

    /// Bytes in the buffer, oldest first.
    closed spec fn view(&self) -> Seq<u8> {
        Seq::new(
            ((self.head - self.tail + 256) % 256) as nat,
            |i: int| self.buf@[(self.tail + i) % 256],
        )
    }
}

proof fn lemma_mask(x: usize)
    requires
        x < 256,
    ensures
        ((x + 1) as usize) & 255 == (x + 1) % 256,
{
    assert(x < 256 ==> ((x + 1) as usize) & 255 == (x + 1) % 256) by (bit_vector);
}

impl RingBuffer {
    /// Read index (advanced by the consumer only).
    pub closed spec fn read_index(&self) -> usize {
        self.tail
    }

    /// Write index (advanced by the producer only).
    pub closed spec fn write_index(&self) -> usize {
        self.head
    }

    pub closed spec fn wf(&self) -> bool {
        self.head < RX_BUF_SIZE && self.tail < RX_BUF_SIZE
    }

    /// An empty buffer.
    pub fn new() -> (r: Self)
        ensures
            r.wf(),
            r@ == Seq::<u8>::empty(),
    {
        let r = Self { buf: [0; RX_BUF_SIZE], head: 0, tail: 0 };
        assert(r@ =~= Seq::<u8>::empty());
        r
    }

    /// Adds a byte (interrupt context); when the buffer is full the byte is dropped.
    pub fn push(&mut self, byte: u8)
        requires
            old(self).wf(),
        ensures
            final(self).wf(),
            final(self)@ == spec_push(old(self)@, byte),
            final(self).read_index() == old(self).read_index(),
            old(self)@.len() >= RX_CAPACITY ==> *final(self) == *old(self),
    {
        proof {
            lemma_mask(self.head);
        }
        let next = (self.head + 1) & (RX_BUF_SIZE - 1);
        if next != self.tail {
            let h = self.head;
            self.buf[h] = byte;
            self.head = next;
            assert(self@ =~= old(self)@.push(byte));
        }
        // Overflow condition intentionally ignored
    }

    /// Removes the oldest byte (task context), if any.
    pub fn pop(&mut self) -> (r: Option<u8>)
        requires
            old(self).wf(),
        ensures
            final(self).wf(),
            final(self).write_index() == old(self).write_index(),
            old(self)@.len() == 0 ==> r is None && *final(self) == *old(self),
            old(self)@.len() > 0 ==> r == Some(old(self)@[0]) && final(self)@ == old(
                self,
            )@.drop_first(),
    {
        if self.head == self.tail {
            None
        } else {
            let b = self.buf[self.tail];
            proof {
                lemma_mask(self.tail);
            }
            self.tail = (self.tail + 1) & (RX_BUF_SIZE - 1);
            assert(self@ =~= old(self)@.drop_first());
            Some(b)
        }
    }
}


/// Contents after `push(b)`: added at the end unless the buffer is full.
pub open spec fn spec_push(q: Seq<u8>, b: u8) -> Seq<u8> {
    if q.len() < RX_CAPACITY {
        q.push(b)
    } else {
        q
    }
}

/// Contents after pushing `bs`, first byte first.
pub open spec fn push_all(q: Seq<u8>, bs: Seq<u8>) -> Seq<u8>
    decreases bs.len(),
{
    if bs.len() == 0 {
        q
    } else {
        spec_push(push_all(q, bs.drop_last()), bs.last())
    }
}

/// Results of `k` successive `pop` calls on contents `q`.
pub open spec fn pop_results(q: Seq<u8>, k: nat) -> Seq<Option<u8>>
    decreases k,
{
    if k == 0 {
        Seq::empty()
    } else if q.len() == 0 {
        seq![None] + pop_results(q, (k - 1) as nat)
    } else {
        seq![Some(q[0])] + pop_results(q.drop_first(), (k - 1) as nat)
    }
}

/// The buffer is first-in first-out: bytes pushed while there is room are
/// all kept, in order, after what the buffer held.
pub proof fn lemma_push_all(q: Seq<u8>, bs: Seq<u8>)
    requires
        q.len() + bs.len() <= RX_CAPACITY,
    ensures
        push_all(q, bs) == q + bs,
    decreases bs.len(),
{
    if bs.len() > 0 {
        lemma_push_all(q, bs.drop_last());
        assert(q + bs.drop_last() + seq![bs.last()] =~= q + bs);
    }
}

/// Successive pops return the contents in order, each once, then `None`.
pub proof fn lemma_pop_results(q: Seq<u8>, k: nat)
    ensures
        pop_results(q, k) == Seq::new(k, |i: int| if i < q.len() { Some(q[i]) } else { None }),
    decreases k,
{
    if k > 0 {
        if q.len() == 0 {
            lemma_pop_results(q, (k - 1) as nat);
        } else {
            lemma_pop_results(q.drop_first(), (k - 1) as nat);
        }
        assert(pop_results(q, k) =~= Seq::new(
            k,
            |i: int|
                if i < q.len() {
                    Some(q[i])
                } else {
                    None
                },
        ));
    }
}

/// FIFO round trip: pushing up to 255 bytes into an empty buffer and then
/// popping one more time than bytes pushed returns the bytes in order, then `None`.
pub proof fn lemma_fifo_round_trip(bs: Seq<u8>)
    requires
        bs.len() <= RX_CAPACITY,
    ensures
        pop_results(push_all(Seq::empty(), bs), bs.len() + 1) == bs.map_values(|b: u8| Some(b))
            + seq![None],
{
    lemma_push_all(Seq::empty(), bs);
    assert(Seq::<u8>::empty() + bs =~= bs);
    lemma_pop_results(bs, bs.len() + 1);
    assert(pop_results(bs, bs.len() + 1) =~= bs.map_values(|b: u8| Some(b)) + seq![None]);
}

} // verus!
