//! Interrupt-driven UART transport for Modbus RTU over RS485: the decisions of
//! the USART1 interrupt and of the non-blocking transmit path. Register access
//! belongs to the hardware layer, which hands in the status flags and carries
//! out the returned actions.

use vstd::prelude::*;

verus! {

/// Size of the transmit buffer.
pub const TX_BUF_SIZE: usize = 256;

/// Events emitted from the UART interrupt.
#[derive(Debug, Clone, Copy, PartialEq, Eq, Structural)]
pub enum Event {
    /// Byte received
    Rx(u8),
    /// End of Modbus frame detected (receiver timeout)
    FrameEnd,
    /// Transmission fully completed
    TxDone,
}

/// Status flags read from the interrupt status register.
#[derive(Debug, Clone, Copy, PartialEq, Eq, Structural)]
pub struct UartFlags {
    /// Receive data register not empty.
    pub rxfne: bool,
    /// Receiver timeout.
    pub rtof: bool,
    /// Transmit FIFO not full.
    pub txfnf: bool,
    /// Transmission complete.
    pub tc: bool,
    /// Overrun error.
    pub ore: bool,
    /// Framing error.
    pub fe: bool,
    /// Noise error.
    pub ne: bool,
}

/// What the interrupt handler does in response to one interrupt.
pub struct UartActions {
    /// Events for the application, in order.
    pub events: Vec<Event>,
    /// Clear the receiver-timeout flag.
    pub clear_rto: bool,
    /// Byte to write to the transmit data register.
    pub tdr: Option<u8>,
    /// Disable the transmit interrupt (nothing left to send).
    pub disable_txe_irq: bool,
    /// Clear the transmission-complete flag.
    pub clear_tc: bool,
    /// Clear the overrun flag.
    pub clear_ore: bool,
    /// Clear the framing-error flag.
    pub clear_fe: bool,
    /// Clear the noise flag.
    pub clear_ne: bool,
}

/// Outcome of a request to transmit a frame.
#[derive(Debug, Clone, Copy, PartialEq, Eq, Structural)]
pub enum TxStart {
    /// A transmission is in progress: the frame is dropped.
    Dropped,
    /// The frame is buffered and the transmit interrupt is to be enabled;
    /// `kick` is the byte to write at once when the transmit FIFO has room.
    Started { kick: Option<u8> },
}

/// Events for one interrupt, in order: the received byte, the end of a frame,
/// the end of a transmission.
pub open spec fn spec_events(flags: UartFlags, rx: u8) -> Seq<Event> {
    (if flags.rxfne {
        seq![Event::Rx(rx)]
    } else {
        Seq::<Event>::empty()
    }) + (if flags.rtof {
        seq![Event::FrameEnd]
    } else {
        Seq::<Event>::empty()
    }) + (if flags.tc {
        seq![Event::TxDone]
    } else {
        Seq::<Event>::empty()
    })
}

/// The byte written at once by a started transmission, if any.
pub open spec fn kicked_bytes(r: TxStart) -> Seq<u8> {
    match r {
        TxStart::Started { kick: Some(b) } => seq![b],
        _ => Seq::empty(),
    }
}

/// The byte written to the transmit data register, if any.
pub open spec fn tdr_bytes(tdr: Option<u8>) -> Seq<u8> {
    match tdr {
        Some(b) => seq![b],
        None => Seq::empty(),
    }
}

/// Transmit state: buffered frame, its length, index of the next byte, busy flag.
pub struct TxState {
    tx_buf: [u8; TX_BUF_SIZE],
    tx_len: usize,
    tx_idx: usize,
    tx_busy: bool,
}

impl TxState {
    pub closed spec fn buffer(&self) -> Seq<u8> {
        self.tx_buf@
    }

    pub closed spec fn len(&self) -> nat {
        self.tx_len as nat
    }

    pub closed spec fn idx(&self) -> nat {
        self.tx_idx as nat
    }

    pub closed spec fn busy(&self) -> bool {
        self.tx_busy
    }

    /// Bytes of the buffered frame already written to the transmitter.
    pub open spec fn sent(&self) -> Seq<u8> {
        self.buffer().take(self.idx() as int)
    }

    /// Bytes of the buffered frame not yet written to the transmitter.
    pub open spec fn pending(&self) -> Seq<u8> {
        if self.idx() < self.len() {
            self.buffer().subrange(self.idx() as int, self.len() as int)
        } else {
            Seq::empty()
        }
    }

    pub open spec fn wf(&self) -> bool {
        &&& self.buffer().len() == TX_BUF_SIZE
        &&& self.len() <= TX_BUF_SIZE
        &&& self.idx() <= self.len()
    }

    /// Whether a transmission is in progress.
    pub fn is_busy(&self) -> (b: bool)
        ensures
            b == self.busy(),
    {
        self.tx_busy
    }

    /// Idle transmitter with an empty buffer.
    pub fn new() -> (s: Self)
        ensures
            s.wf(),
            !s.busy(),
            s.len() == 0,
            s.idx() == 0,
            s.buffer() == Seq::new(TX_BUF_SIZE as nat, |i: int| 0u8),
    {
        let s = Self { tx_buf: [0; TX_BUF_SIZE], tx_len: 0, tx_idx: 0, tx_busy: false };
        assert(s.tx_buf@ =~= Seq::new(TX_BUF_SIZE as nat, |i: int| 0u8));
        s
    }

    /// Starts transmission of a frame (non-blocking): the frame, cut to the
    /// buffer size, is copied into the buffer and the rest is sent from the
    /// interrupt. If a transmission is already in progress the frame is dropped.
    pub fn start_tx(&mut self, data: &[u8], txfnf: bool) -> (r: TxStart)
        requires
            old(self).wf(),
        ensures
            final(self).wf(),
            old(self).busy() ==> r == TxStart::Dropped && *final(self) == *old(self),
            !old(self).busy() ==> {
                let len = if data@.len() < TX_BUF_SIZE {
                    data@.len()
                } else {
                    TX_BUF_SIZE as nat
                };
                &&& final(self).busy()
                &&& final(self).len() == len
                &&& final(self).buffer().take(len as int) == data@.take(len as int)
                &&& final(self).buffer().skip(len as int) == old(self).buffer().skip(len as int)
                &&& final(self).idx() == (if txfnf && len > 0 {
                    1nat
                } else {
                    0nat
                })
                &&& r == (TxStart::Started {
                    kick: if txfnf && len > 0 {
                        Some(data@[0])
                    } else {
                        None
                    },
                })
                &&& final(self).sent() == kicked_bytes(r)
                &&& final(self).sent() + final(self).pending() == data@.take(len as int)
            },
    {
        if self.tx_busy {
            // Design choice: drop if busy
            return TxStart::Dropped;
        }
        let len = if data.len() < TX_BUF_SIZE {
            data.len()
        } else {
            TX_BUF_SIZE
        };
        let mut k: usize = 0;
        while k < len
            invariant
                len <= TX_BUF_SIZE,
                len <= data@.len(),
                k <= len,
                self.tx_buf@.len() == TX_BUF_SIZE,
                self.tx_busy == old(self).tx_busy,
                self.tx_len == old(self).tx_len,
                self.tx_idx == old(self).tx_idx,
                forall|j: int| 0 <= j < k ==> #[trigger] self.tx_buf@[j] == data@[j],
                forall|j: int| k <= j < TX_BUF_SIZE ==> #[trigger] self.tx_buf@[j] == old(
                    self,
                ).tx_buf@[j],
            decreases len - k,
        {
            self.tx_buf[k] = data[k];
            k += 1;
        }
        assert(self.tx_buf@.take(len as int) =~= data@.take(len as int));
        assert(self.tx_buf@.skip(len as int) =~= old(self).tx_buf@.skip(len as int));

        self.tx_len = len;
        self.tx_idx = 0;
        self.tx_busy = true;

        // Kickstart transmission if TX FIFO ready
        let mut kick = None;
        if txfnf && len > 0 {
            let b = self.tx_buf[self.tx_idx];
            self.tx_idx += 1;
            kick = Some(b);
        }
        let r = TxStart::Started { kick };
        assert(self.sent() =~= kicked_bytes(r));
        assert(self.sent() + self.pending() =~= data@.take(len as int));
        r
    }

    /// Interrupt handler decisions. `rx` is the received byte, read from the
    /// receive data register when `flags.rxfne` is set.
    ///
    /// While a frame is being sent, each interrupt with room in the transmit
    /// FIFO sends the next pending byte, or disables the transmit interrupt
    /// when none is left; transmission complete ends the transmission.
    pub fn isr(&mut self, flags: UartFlags, rx: u8) -> (a: UartActions)
        requires
            old(self).wf(),
        ensures
            final(self).wf(),
            a.events@ == spec_events(flags, rx),
            a.clear_rto == flags.rtof,
            a.clear_tc == flags.tc,
            a.clear_ore == flags.ore,
            a.clear_fe == flags.fe,
            a.clear_ne == flags.ne,
            final(self).buffer() == old(self).buffer(),
            final(self).len() == old(self).len(),
            final(self).busy() == (old(self).busy() && !flags.tc),
            final(self).sent() == old(self).sent() + tdr_bytes(a.tdr),
            flags.txfnf && old(self).busy() ==> (final(self).idx(), a.tdr) == tx_ready_step(
                old(self).buffer(),
                old(self).len(),
                old(self).idx(),
            ),
            flags.txfnf && old(self).busy() ==> a.disable_txe_irq == (old(self).idx() >= old(
                self,
            ).len()),
            flags.txfnf && old(self).busy() && old(self).idx() < old(self).len() ==> {
                &&& a.tdr == Some(old(self).pending()[0])
                &&& !a.disable_txe_irq
                &&& final(self).idx() == old(self).idx() + 1
                &&& final(self).pending() == old(self).pending().drop_first()
            },
            flags.txfnf && old(self).busy() && old(self).idx() == old(self).len() ==> {
                &&& a.tdr is None
                &&& a.disable_txe_irq
                &&& final(self).idx() == old(self).idx()
            },
            !(flags.txfnf && old(self).busy()) ==> {
                &&& a.tdr is None
                &&& !a.disable_txe_irq
                &&& final(self).idx() == old(self).idx()
            },
    {
        let mut events: Vec<Event> = Vec::new();

        // ---------------- RX ----------------
        if flags.rxfne {
            events.push(Event::Rx(rx));
        }
        // ---------------- FRAME END ----------------
        if flags.rtof {
            events.push(Event::FrameEnd);
        }
        // ---------------- TX ----------------
        let mut tdr = None;
        let mut disable_txe_irq = false;
        if flags.txfnf && self.tx_busy {
            if self.tx_idx < self.tx_len {
                let b = self.tx_buf[self.tx_idx];
                self.tx_idx += 1;
                tdr = Some(b);
                assert(self.pending() =~= old(self).pending().drop_first());
                assert(self.sent() =~= old(self).sent().push(b));
            } else {
                disable_txe_irq = true;
            }
        }
        // ---------------- TX COMPLETE ----------------
        if flags.tc {
            self.tx_busy = false;
            events.push(Event::TxDone);
        }
        assert(events@ =~= spec_events(flags, rx));
        UartActions {
            events,
            clear_rto: flags.rtof,
            tdr,
            disable_txe_irq,
            clear_tc: flags.tc,
            clear_ore: flags.ore,
            clear_fe: flags.fe,
            clear_ne: flags.ne,
        }
    }
}


/// One transmit-ready interrupt during a transmission: the next byte index
/// and the byte written, if any.
pub open spec fn tx_ready_step(buffer: Seq<u8>, len: nat, idx: nat) -> (nat, Option<u8>) {
    if idx < len {
        (idx + 1, Some(buffer[idx as int]))
    } else {
        (idx, None)
    }
}

/// Bytes written by `n` successive transmit-ready interrupts from index `idx`.
pub open spec fn tx_run(buffer: Seq<u8>, len: nat, idx: nat, n: nat) -> Seq<u8>
    decreases n,
{
    if n == 0 {
        Seq::empty()
    } else {
        tdr_bytes(tx_ready_step(buffer, len, idx).1) + tx_run(
            buffer,
            len,
            tx_ready_step(buffer, len, idx).0,
            (n - 1) as nat,
        )
    }
}

/// Index reached after `n` successive transmit-ready interrupts from `idx`.
pub open spec fn tx_run_idx(buffer: Seq<u8>, len: nat, idx: nat, n: nat) -> nat
    decreases n,
{
    if n == 0 {
        idx
    } else {
        tx_run_idx(buffer, len, tx_ready_step(buffer, len, idx).0, (n - 1) as nat)
    }
}

/// A whole transmission: from a transmitter state `t` (as left by `start_tx`),
/// `n` transmit-ready interrupts with no transmission-complete in between
/// write exactly the pending bytes, in order, each once, as soon as `n` covers
/// them; the bytes written by `start_tx` and by these interrupts are then the
/// frame, and every further such interrupt writes nothing and disables the
/// transmit interrupt.
pub proof fn lemma_whole_frame_transmitted(t: &TxState, n: nat)
    requires
        t.wf(),
        n >= t.len() - t.idx(),
    ensures
        tx_run(t.buffer(), t.len(), t.idx(), n) == t.pending(),
        t.sent() + tx_run(t.buffer(), t.len(), t.idx(), n) == t.buffer().take(t.len() as int),
        tx_run_idx(t.buffer(), t.len(), t.idx(), n) == t.len(),
        tx_ready_step(t.buffer(), t.len(), t.len()) == (t.len(), None::<u8>),
{
    lemma_tx_run(t.buffer(), t.len(), t.idx(), n);
    lemma_sent_then_pending(t);
}

proof fn lemma_tx_run(buffer: Seq<u8>, len: nat, idx: nat, n: nat)
    requires
        idx <= len <= buffer.len(),
        n >= len - idx,
    ensures
        tx_run(buffer, len, idx, n) == buffer.subrange(idx as int, len as int),
        tx_run_idx(buffer, len, idx, n) == len,
    decreases n,
{
    if n > 0 {
        if idx < len {
            lemma_tx_run(buffer, len, idx + 1, (n - 1) as nat);
            assert(seq![buffer[idx as int]] + buffer.subrange((idx + 1) as int, len as int) =~= buffer.subrange(
                idx as int,
                len as int,
            ));
        } else {
            lemma_tx_run(buffer, len, idx, (n - 1) as nat);
            assert(Seq::<u8>::empty() + buffer.subrange(idx as int, len as int) =~= buffer.subrange(
                idx as int,
                len as int,
            ));
        }
    } else {
        assert(buffer.subrange(idx as int, len as int) =~= Seq::<u8>::empty());
    }
}

/// Across a transmission the bytes written so far followed by those still
/// pending are the buffered frame: `start_tx` makes them the frame given,
/// and each interrupt moves the first pending byte to the written ones, so
/// once nothing is pending exactly the frame has been written, in order,
/// each byte once.
pub proof fn lemma_sent_then_pending(t: &TxState)
    requires
        t.wf(),
    ensures
        t.sent() + t.pending() == t.buffer().take(t.len() as int),
{
    assert(t.sent() + t.pending() =~= t.buffer().take(t.len() as int));
}

} // verus!
