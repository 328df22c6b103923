use vstd::prelude::*;
use vstd::slice::{slice_subrange, slice_to_vec};

verus! {

// ================= CRC =================

/// One shift step of the reflected CRC-16/MODBUS register (polynomial 0xA001).
pub open spec fn crc_shift(crc: u16) -> u16 {
    if crc & 1 != 0 {
        (crc >> 1) ^ 0xA001
    } else {
        crc >> 1
    }
}

/// `n` shift steps applied to `crc`.
pub open spec fn crc_shift_n(crc: u16, n: nat) -> u16
    decreases n,
{
    if n == 0 {
        crc
    } else {
        crc_shift(crc_shift_n(crc, (n - 1) as nat))
    }
}

/// Folding one byte into the CRC register.
pub open spec fn crc_byte(crc: u16, b: u8) -> u16 {
    crc_shift_n(crc ^ (b as u16), 8)
}

/// Folding a byte sequence into the CRC register, first byte first.
pub open spec fn crc_update(crc: u16, s: Seq<u8>) -> u16
    decreases s.len(),
{
    if s.len() == 0 {
        crc
    } else {
        crc_byte(crc_update(crc, s.drop_last()), s.last())
    }
}

/// CRC-16/MODBUS of a byte sequence (initial value 0xFFFF).
pub open spec fn spec_crc16(s: Seq<u8>) -> u16 {
    crc_update(0xFFFF, s)
}

/// CRC-16/MODBUS (polynomial 0xA001, initial value 0xFFFF).
pub fn crc16(data: &[u8]) -> (crc: u16)
    ensures
        crc == spec_crc16(data@),
{
    let mut crc: u16 = 0xFFFF;
    let mut i: usize = 0;
    while i < data.len()
        invariant
            i <= data.len(),
            crc == crc_update(0xFFFF, data@.take(i as int)),
        decreases data.len() - i,
    {
        let b = data[i];
        crc = crc ^ (b as u16);
        let ghost start = crc;
        let mut k: u32 = 0;
        while k < 8
            invariant
                k <= 8,
                crc == crc_shift_n(start, k as nat),
            decreases 8 - k,
        {
            crc = if crc & 1 != 0 {
                (crc >> 1) ^ 0xA001
            } else {
                crc >> 1
            };
            k = k + 1;
        }
        assert(data@.take(i + 1).drop_last() =~= data@.take(i as int));
        i = i + 1;
    }
    assert(data@.take(data.len() as int) =~= data@);
    crc
}


/// Low byte of a 16-bit word.
pub open spec fn lo_byte(w: u16) -> u8 {
    (w & 0xFF) as u8
}

/// High byte of a 16-bit word.
pub open spec fn hi_byte(w: u16) -> u8 {
    (w >> 8) as u8
}

/// Little-endian 16-bit word from two bytes.
pub open spec fn le_word(lo: u8, hi: u8) -> u16 {
    (lo as u16) | ((hi as u16) << 8)
}

/// Big-endian 16-bit word from two bytes.
pub open spec fn be_word(hi: u8, lo: u8) -> u16 {
    ((hi as u16) << 8) | (lo as u16)
}

/// A frame whose last two bytes are the little-endian CRC of the bytes before them.
pub open spec fn spec_crc_ok(frame: Seq<u8>) -> bool {
    frame.len() >= 2 && spec_crc16(frame.take(frame.len() - 2)) == le_word(
        frame[frame.len() - 2],
        frame[frame.len() - 1],
    )
}

/// `s` followed by its CRC, low byte first.
pub open spec fn with_crc(s: Seq<u8>) -> Seq<u8> {
    s + seq![lo_byte(spec_crc16(s)), hi_byte(spec_crc16(s))]
}

/// Checks the CRC trailer of a received frame.
pub fn crc_ok(frame: &[u8]) -> (ok: bool)
    requires
        frame@.len() >= 2,
    ensures
        ok == spec_crc_ok(frame@),
{
    let len = frame.len();
    let crc_calc = crc16(slice_subrange(frame, 0, len - 2));
    let crc_rx = (frame[len - 2] as u16) | ((frame[len - 1] as u16) << 8);
    crc_calc == crc_rx
}

/// Writes the CRC of `buf[..idx]` at `idx`, low byte first, and advances `idx` by two.
pub fn append_crc(buf: &mut [u8], idx: &mut usize)
    requires
        *old(idx) + 2 <= old(buf)@.len(),
    ensures
        *final(idx) == *old(idx) + 2,
        final(buf)@.len() == old(buf)@.len(),
        final(buf)@.take(*final(idx) as int) == with_crc(old(buf)@.take(*old(idx) as int)),
        final(buf)@.skip(*final(idx) as int) == old(buf)@.skip(*final(idx) as int),
{
    let crc = crc16(slice_subrange(buf, 0, *idx));
    let i = *idx;
    buf[i] = (crc & 0xFF) as u8;
    buf[i + 1] = (crc >> 8) as u8;
    *idx = i + 2;
    assert(buf@.take(i + 2) =~= with_crc(old(buf)@.take(i as int)));
    assert(buf@.skip(i + 2) =~= old(buf)@.skip(i + 2));
}

/// The CRC trailer written by `with_crc` is accepted by the frame check.
pub proof fn lemma_with_crc_ok(s: Seq<u8>)
    ensures
        spec_crc_ok(with_crc(s)),
        with_crc(s).len() == s.len() + 2,
{
    let f = with_crc(s);
    let c = spec_crc16(s);
    assert(f.take(f.len() - 2) =~= s);
    assert(le_word(lo_byte(c), hi_byte(c)) == c) by (bit_vector);
}


// ================= ERROR DETECTION =================

/// Byte-wise exclusive or of two sequences of the same length.
pub open spec fn xor_seq(s: Seq<u8>, t: Seq<u8>) -> Seq<u8> {
    Seq::new(s.len(), |j: int| s[j] ^ t[j])
}

proof fn lemma_shift_n_linear(a: u16, b: u16, n: nat)
    ensures
        crc_shift_n(a ^ b, n) == crc_shift_n(a, n) ^ crc_shift_n(b, n),
    decreases n,
{
    if n > 0 {
        lemma_shift_n_linear(a, b, (n - 1) as nat);
        let x = crc_shift_n(a, (n - 1) as nat);
        let y = crc_shift_n(b, (n - 1) as nat);
        assert(crc_shift(x ^ y) == crc_shift(x) ^ crc_shift(y)) by (bit_vector);
    }
}

proof fn lemma_shift_n_zero(x: u16, n: nat)
    ensures
        (x == 0) <==> (crc_shift_n(x, n) == 0),
    decreases n,
{
    if n > 0 {
        lemma_shift_n_zero(x, (n - 1) as nat);
        let y = crc_shift_n(x, (n - 1) as nat);
        assert((y == 0) <==> (crc_shift(y) == 0)) by (bit_vector);
    }
}

/// The CRC register is linear: running two sequences of the same length
/// from two start values and combining the results equals running their
/// combination from the combined start value.
proof fn lemma_update_linear(c1: u16, s: Seq<u8>, c2: u16, t: Seq<u8>)
    requires
        s.len() == t.len(),
    ensures
        crc_update(c1, s) ^ crc_update(c2, t) == crc_update(c1 ^ c2, xor_seq(s, t)),
    decreases s.len(),
{
    if s.len() > 0 {
        let s0 = s.drop_last();
        let t0 = t.drop_last();
        lemma_update_linear(c1, s0, c2, t0);
        assert(xor_seq(s, t).drop_last() =~= xor_seq(s0, t0));
        let x = crc_update(c1, s0);
        let y = crc_update(c2, t0);
        let a = s.last();
        let b = t.last();
        assert((x ^ (a as u16)) ^ (y ^ (b as u16)) == (x ^ y) ^ ((a ^ b) as u16)) by (bit_vector);
        lemma_shift_n_linear(x ^ (a as u16), y ^ (b as u16), 8);
    }
}

/// A sequence that is zero except for one nonzero byte at `i` leaves a
/// nonzero register when run from zero.
proof fn lemma_single_error_nonzero(e: Seq<u8>, i: int)
    requires
        0 <= i < e.len(),
        e[i] != 0,
        forall|j: int| 0 <= j < e.len() && j != i ==> e[j] == 0,
    ensures
        crc_update(0, e) != 0,
    decreases e.len(),
{
    let c = crc_update(0, e.drop_last());
    if e.len() == i + 1 {
        lemma_zero_run(e.drop_last());
        let x = e.last();
        assert((x != 0) ==> (0u16 ^ (x as u16)) != 0) by (bit_vector);
        lemma_shift_n_zero(0u16 ^ (x as u16), 8);
    } else {
        lemma_single_error_nonzero(e.drop_last(), i);
        assert(e.last() == 0);
        assert(c ^ (0u8 as u16) == c) by (bit_vector);
        lemma_shift_n_zero(c, 8);
    }
}

proof fn lemma_zero_run(z: Seq<u8>)
    requires
        forall|j: int| 0 <= j < z.len() ==> z[j] == 0,
    ensures
        crc_update(0, z) == 0,
    decreases z.len(),
{
    if z.len() > 0 {
        lemma_zero_run(z.drop_last());
        assert(0u16 ^ (0u8 as u16) == 0) by (bit_vector);
        lemma_shift_n_zero(0, 8);
    }
}

/// Every single-bit corruption of a valid frame, in the payload or in the
/// CRC trailer, is rejected by the frame check.
pub proof fn lemma_single_bit_error_detected(f: Seq<u8>, i: int, bit: u8)
    requires
        spec_crc_ok(f),
        0 <= i < f.len(),
        bit < 8,
    ensures
        !spec_crc_ok(f.update(i, f[i] ^ (1u8 << bit))),
{
    let n = f.len() as int;
    let g = f.update(i, f[i] ^ (1u8 << bit));
    let x = f[i];
    assert(x ^ (x ^ (1u8 << bit)) != 0 && (x ^ (1u8 << bit)) != x) by (bit_vector)
        requires
            bit < 8,
    ;
    if i >= n - 2 {
        assert(g.take(n - 2) =~= f.take(n - 2));
        let lo = f[n - 2];
        let hi = f[n - 1];
        let y = g[i];
        assert(y != x ==> le_word(y, hi) != le_word(x, hi) && le_word(lo, y) != le_word(lo, x))
            by (bit_vector);
    } else {
        let p = f.take(n - 2);
        let q = g.take(n - 2);
        assert(q =~= p.update(i, x ^ (1u8 << bit)));
        let e = xor_seq(p, q);
        assert forall|j: int| 0 <= j < e.len() && j != i implies e[j] == 0 by {
            let z = p[j];
            assert(z ^ z == 0) by (bit_vector);
        }
        lemma_single_error_nonzero(e, i);
        lemma_update_linear(0xFFFF, p, 0xFFFF, q);
        assert(0xFFFFu16 ^ 0xFFFFu16 == 0) by (bit_vector);
        let cp = spec_crc16(p);
        let cq = spec_crc16(q);
        assert((cp ^ cq) != 0 ==> cp != cq) by (bit_vector);
        assert(g[n - 2] == f[n - 2] && g[n - 1] == f[n - 1]);
    }
}

// ================= FRAME ASSEMBLY =================

/// Size of the receive buffer.
pub const MAX_FRAME: usize = 256;

/// Modbus address of this device.
pub const SLAVE_ID: u8 = 0x01;

/// Modbus RTU core: accumulates received bytes and answers complete frames.
pub struct Modbus {
    buf: [u8; MAX_FRAME],
    len: usize,
    overflowed: bool,
}

impl Modbus {
    /// The receive buffer (all of it, including bytes past the current frame).
    pub closed spec fn rx_buffer(&self) -> Seq<u8> {
        self.buf@
    }

    /// Number of bytes of the frame received so far.
    pub closed spec fn rx_len(&self) -> nat {
        self.len as nat
    }

    /// Whether the pending frame ran past the buffer (it is discarded whole).
    pub closed spec fn rx_overflowed(&self) -> bool {
        self.overflowed
    }

    pub open spec fn wf(&self) -> bool {
        &&& self.rx_len() <= MAX_FRAME
        &&& self.rx_buffer().len() == MAX_FRAME
    }

    /// An empty receiver.
    pub fn new() -> (m: Self)
        ensures
            m.wf(),
            m.rx_len() == 0,
            !m.rx_overflowed(),
            m.rx_buffer() == Seq::new(MAX_FRAME as nat, |i: int| 0u8),
    {
        let m = Self { buf: [0; MAX_FRAME], len: 0, overflowed: false };
        assert(m.buf@ =~= Seq::new(MAX_FRAME as nat, |i: int| 0u8));
        m
    }

    /// Appends a received byte; a byte that does not fit marks the frame as
    /// overflowed, so that the whole frame is discarded when it completes.
    pub fn push_byte(&mut self, b: u8)
        requires
            old(self).wf(),
        ensures
            final(self).wf(),
            old(self).rx_len() < MAX_FRAME ==> {
                &&& final(self).rx_len() == old(self).rx_len() + 1
                &&& final(self).rx_buffer() == old(self).rx_buffer().update(
                    old(self).rx_len() as int,
                    b,
                )
                &&& final(self).rx_overflowed() == old(self).rx_overflowed()
            },
            old(self).rx_len() >= MAX_FRAME ==> {
                &&& final(self).rx_len() == 0
                &&& final(self).rx_buffer() == old(self).rx_buffer()
                &&& final(self).rx_overflowed()
            },
    {
        if self.len < MAX_FRAME {
            let l = self.len;
            self.buf[l] = b;
            self.len = l + 1;
        } else {
            // overflow → discard frame
            self.len = 0;
            self.overflowed = true;
        }
    }
}


// ================= RESPONSES =================

/// Value of holding register `addr`.
pub open spec fn spec_read_register(addr: int) -> u16 {
    if addr == 0 {
        1234
    } else if addr == 1 {
        5678
    } else {
        0
    }
}

/// Address of the `i`-th register of a range starting at `start`; the 16-bit
/// address wraps past 0xFFFF to 0x0000.
pub open spec fn register_addr(start: int, i: int) -> int {
    (start + i) % 0x1_0000
}

/// Big-endian contents of `count` holding registers starting at `start`.
pub open spec fn register_bytes(start: int, count: int) -> Seq<u8> {
    Seq::new(
        (2 * count) as nat,
        |j: int|
            if j % 2 == 0 {
                hi_byte(spec_read_register(register_addr(start, j / 2)))
            } else {
                lo_byte(spec_read_register(register_addr(start, j / 2)))
            },
    )
}

/// Exception response: echoed address, function code with the high bit set, exception code.
pub open spec fn exception_frame(addr: u8, func: u8, code: u8) -> Seq<u8> {
    with_crc(seq![addr, func | 0x80, code])
}

/// First register address of a request.
pub open spec fn req_start(buf: Seq<u8>) -> u16 {
    be_word(buf[2], buf[3])
}

/// Second 16-bit request field (register count, or the value to write).
pub open spec fn req_count(buf: Seq<u8>) -> u16 {
    be_word(buf[4], buf[5])
}

/// Response to function 0x03 (read holding registers).
pub open spec fn read_holding_response(buf: Seq<u8>, len: int) -> Option<Seq<u8>> {
    if len < 8 {
        None
    } else if req_count(buf) == 0 || req_count(buf) > 32 {
        Some(exception_frame(buf[0], 0x03, 0x03))
    } else {
        Some(
            with_crc(
                seq![buf[0], 0x03u8, (req_count(buf) * 2) as u8] + register_bytes(
                    req_start(buf) as int,
                    req_count(buf) as int,
                ),
            ),
        )
    }
}

/// Response to function 0x06 (write single register): the request echoed.
pub open spec fn write_single_response(buf: Seq<u8>) -> Seq<u8> {
    with_crc(buf.take(6))
}

/// A frame of `len` bytes in `buf` that is addressed to this device with a valid CRC.
pub open spec fn frame_accepted(buf: Seq<u8>, len: int) -> bool {
    &&& len >= 4
    &&& spec_crc_ok(buf.take(len))
    &&& buf[0] == SLAVE_ID
}

/// The response to the frame of `len` bytes in `buf`, if any.
pub open spec fn spec_response(buf: Seq<u8>, len: int) -> Option<Seq<u8>> {
    if !frame_accepted(buf, len) {
        None
    } else if buf[1] == 0x03 {
        read_holding_response(buf, len)
    } else if buf[1] == 0x06 {
        Some(write_single_response(buf))
    } else {
        Some(exception_frame(buf[0], buf[1], 0x01))
    }
}

pub open spec fn opt_bytes(o: Option<Vec<u8>>) -> Option<Seq<u8>> {
    match o {
        Some(v) => Some(v@),
        None => None,
    }
}

/// Holding register map.
fn read_register(addr: u16) -> (v: u16)
    ensures
        v == spec_read_register(addr as int),
{
    match addr {
        0x0000 => 1234,
        0x0001 => 5678,
        _ => 0,
    }
}

/// Register writes are accepted and have no effect on the register map.
fn write_register(addr: u16, val: u16) {
    match addr {
        0x0001 => {
            let _ = val;
        },
        _ => {},
    }
}

impl Modbus {
    /// Frame complete: consumes the pending frame and returns the response to send, if any.
    pub fn process(&mut self) -> (resp: Option<Vec<u8>>)
        requires
            old(self).wf(),
        ensures
            final(self).wf(),
            final(self).rx_len() == 0,
            !final(self).rx_overflowed(),
            final(self).rx_buffer() == old(self).rx_buffer(),
            opt_bytes(resp) == (if old(self).rx_overflowed() {
                None
            } else {
                spec_response(old(self).rx_buffer(), old(self).rx_len() as int)
            }),
    {
        let len = self.len;
        let overflowed = self.overflowed;

        // Reset early → prevents race with RX
        self.len = 0;
        self.overflowed = false;

        if overflowed {
            return None;
        }
        if len < 4 {
            return None;
        }
        if !crc_ok(slice_subrange(self.buf.as_slice(), 0, len)) {
            return None;
        }
        let addr = self.buf[0];
        let func = self.buf[1];

        if addr != SLAVE_ID {
            return None;
        }
        match func {
            0x03 => self.handle_read_holding(len),
            0x06 => Some(self.handle_write_single()),
            _ => Some(self.exception(func, 0x01)),
        }
    }

    /// 0x03 Read Holding Registers
    fn handle_read_holding(&self, len: usize) -> (resp: Option<Vec<u8>>)
        requires
            4 <= len <= MAX_FRAME,
            self.wf(),
            frame_accepted(self.rx_buffer(), len as int),
            self.rx_buffer()[1] == 0x03,
        ensures
            opt_bytes(resp) == read_holding_response(self.rx_buffer(), len as int),
    {
        if len < 8 {
            return None;
        }
        let start = ((self.buf[2] as u16) << 8) | (self.buf[3] as u16);
        let count = ((self.buf[4] as u16) << 8) | (self.buf[5] as u16);

        if count == 0 || count > 32 {
            return Some(self.exception(0x03, 0x03));
        }
        let byte_count = (count * 2) as u8;

        let mut frame = [0u8; 69];
        let mut idx: usize = 0;

        frame[idx] = self.buf[0];  // echo slave ID
        idx += 1;
        frame[idx] = 0x03;
        idx += 1;
        frame[idx] = byte_count;
        idx += 1;

        let ghost header = seq![self.buf[0], 0x03u8, byte_count];
        let ghost regs = register_bytes(start as int, count as int);
        assert(frame@.take(3) =~= header);

        let mut i: u16 = 0;
        while i < count
            invariant
                1 <= count <= 32,
                i <= count,
                idx == 3 + 2 * i,
                frame@.len() == 69,
                regs == register_bytes(start as int, count as int),
                frame@.take(3) == header,
                forall|j: int| 0 <= j < 2 * i ==> #[trigger] frame@[3 + j] == regs[j],
            decreases count - i,
        {
            let val = read_register(start.wrapping_add(i));
            frame[idx] = (val >> 8) as u8;
            idx += 1;
            frame[idx] = val as u8;
            idx += 1;
            proof {
                assert((val as u8) == ((val & 0xFF) as u8)) by (bit_vector);
                assert((2 * i as int) / 2 == i as int);
                assert((2 * i as int + 1) / 2 == i as int);
                assert(frame@.take(3) =~= header);
            }
            i += 1;
        }
        assert forall|j: int| 0 <= j < idx implies #[trigger] frame@.take(idx as int)[j] == (header
            + regs)[j] by {
            if j < 3 {
                assert(frame@.take(3)[j] == frame@[j]);
            } else {
                assert(frame@[3 + (j - 3)] == regs[j - 3]);
            }
        }
        assert(frame@.take(idx as int) =~= header + regs);
        append_crc(&mut frame, &mut idx);
        Some(slice_to_vec(slice_subrange(frame.as_slice(), 0, idx)))
    }

    /// 0x06 Write Single Register
    fn handle_write_single(&self) -> (resp: Vec<u8>)
        ensures
            resp@ == write_single_response(self.rx_buffer()),
    {
        let reg = ((self.buf[2] as u16) << 8) | (self.buf[3] as u16);
        let val = ((self.buf[4] as u16) << 8) | (self.buf[5] as u16);

        write_register(reg, val);

        let mut frame = [0u8; 8];
        let mut k: usize = 0;
        while k < 6
            invariant
                k <= 6,
                frame@.len() == 8,
                self.buf@.len() == MAX_FRAME,
                forall|j: int| 0 <= j < k ==> #[trigger] frame@[j] == self.buf@[j],
            decreases 6 - k,
        {
            frame[k] = self.buf[k];
            k += 1;
        }
        assert(frame@.take(6) =~= self.buf@.take(6));
        let mut idx: usize = 6;
        append_crc(&mut frame, &mut idx);
        assert(frame@ =~= frame@.take(8));
        slice_to_vec(frame.as_slice())
    }

    /// Exception response
    fn exception(&self, func: u8, code: u8) -> (resp: Vec<u8>)
        ensures
            resp@ == exception_frame(self.rx_buffer()[0], func, code),
    {
        let mut frame = [0u8; 5];
        frame[0] = self.buf[0];
        frame[1] = func | 0x80;
        frame[2] = code;
        assert(frame@.take(3) =~= seq![self.buf@[0], func | 0x80, code]);
        let mut idx: usize = 3;
        append_crc(&mut frame, &mut idx);
        assert(frame@ =~= frame@.take(5));
        slice_to_vec(slice_subrange(frame.as_slice(), 0, idx))
    }
}


/// Every response the device sends carries a valid CRC trailer and starts with
/// the device's own address.
pub proof fn lemma_response_well_formed(buf: Seq<u8>, len: int)
    requires
        buf.len() == MAX_FRAME,
    ensures
        spec_response(buf, len) matches Some(r) ==> spec_crc_ok(r) && r.len() >= 5 && r[0]
            == SLAVE_ID,
{
    if frame_accepted(buf, len) {
        if buf[1] == 0x03 {
            if len >= 8 {
                if req_count(buf) == 0 || req_count(buf) > 32 {
                    lemma_with_crc_ok(seq![buf[0], 0x03u8 | 0x80, 0x03u8]);
                } else {
                    let s = seq![buf[0], 0x03u8, (req_count(buf) * 2) as u8] + register_bytes(
                        req_start(buf) as int,
                        req_count(buf) as int,
                    );
                    lemma_with_crc_ok(s);
                    assert(with_crc(s)[0] == s[0]);
                }
            }
        } else if buf[1] == 0x06 {
            lemma_with_crc_ok(buf.take(6));
            assert(with_crc(buf.take(6))[0] == buf[0]);
        } else {
            lemma_with_crc_ok(seq![buf[0], buf[1] | 0x80, 0x01u8]);
        }
    }
}

// ================= LAWS OF THE SLAVE =================

/// The `i`-th big-endian 16-bit word of a read response's data, which starts
/// after the address, function code and byte count.
pub open spec fn response_word(r: Seq<u8>, i: int) -> int {
    r[3 + 2 * i] as int * 256 + r[4 + 2 * i] as int
}

/// A frame's CRC trailer (low byte first) matches its payload, in plain byte arithmetic.
pub open spec fn trailer_matches(r: Seq<u8>) -> bool {
    r.len() >= 2 && r[r.len() - 2] as int + 256 * r[r.len() - 1] as int == spec_crc16(
        r.take(r.len() - 2),
    ) as int
}

proof fn lemma_word_bytes(w: u16, hi: u8, lo: u8)
    ensures
        hi_byte(w) as int * 256 + lo_byte(w) as int == w as int,
        be_word(hi, lo) as int == hi as int * 256 + lo as int,
        le_word(lo, hi) as int == lo as int + 256 * hi as int,
{
    assert((((w >> 8) as u8) as int) * 256 + (((w & 0xFF) as u8) as int) == w as int)
        by (bit_vector);
    assert(((((hi as u16) << 8) | (lo as u16)) as int) == hi as int * 256 + lo as int)
        by (bit_vector);
    assert((((lo as u16) | ((hi as u16) << 8)) as int) == lo as int + 256 * hi as int)
        by (bit_vector);
}

proof fn lemma_with_crc_bytes(s: Seq<u8>)
    ensures
        with_crc(s).len() == s.len() + 2,
        with_crc(s).take(s.len() as int) == s,
        trailer_matches(with_crc(s)),
{
    let f = with_crc(s);
    assert(f.take(s.len() as int) =~= s);
    let c = spec_crc16(s);
    lemma_word_bytes(c, hi_byte(c), lo_byte(c));
}

/// Frames that are too short, fail the CRC check or are addressed to another
/// device (broadcasts included) get no response.
pub proof fn lemma_discarded_frames(buf: Seq<u8>, len: int)
    requires
        len < 4 || !spec_crc_ok(buf.take(len)) || buf[0] != 0x01,
    ensures
        spec_response(buf, len) is None,
{
}

/// Read Holding Registers: a request to this device with a valid CRC for
/// 1 to 32 registers is answered with the address, the function code, the byte
/// count and, for each register, its big-endian value from the register map
/// (register 0 holds 1234, register 1 holds 5678, every other register reads
/// 0; addresses wrap past 0xFFFF), then a matching CRC.
pub proof fn lemma_read_holding_answer(buf: Seq<u8>, len: int)
    requires
        buf.len() == MAX_FRAME,
        8 <= len <= MAX_FRAME,
        spec_crc_ok(buf.take(len)),
        buf[0] == 0x01,
        buf[1] == 0x03,
        1 <= buf[4] as int * 256 + buf[5] as int <= 32,
    ensures
        spec_response(buf, len) is Some,
        ({
            let r = spec_response(buf, len).unwrap();
            let start = buf[2] as int * 256 + buf[3] as int;
            let count = buf[4] as int * 256 + buf[5] as int;
            &&& r.len() == 5 + 2 * count
            &&& r[0] == 0x01 && r[1] == 0x03 && r[2] as int == 2 * count
            &&& forall|i: int|
                #![trigger response_word(r, i)]
                0 <= i < count ==> {
                    let a = (start + i) % 0x1_0000;
                    response_word(r, i) == if a == 0 {
                        1234int
                    } else if a == 1 {
                        5678int
                    } else {
                        0int
                    }
                }
            &&& trailer_matches(r)
        }),
{
    lemma_word_bytes(0, buf[2], buf[3]);
    lemma_word_bytes(0, buf[4], buf[5]);
    let start = req_start(buf) as int;
    let count = req_count(buf) as int;
    let body = seq![buf[0], 0x03u8, (req_count(buf) * 2) as u8] + register_bytes(start, count);
    lemma_with_crc_bytes(body);
    let r = with_crc(body);
    assert forall|i: int| 0 <= i < count implies {
        let a = (start + i) % 0x1_0000;
        #[trigger] response_word(r, i) == if a == 0 {
            1234int
        } else if a == 1 {
            5678int
        } else {
            0int
        }
    } by {
        let v = spec_read_register(register_addr(start, i));
        assert((2 * i) / 2 == i);
        assert((2 * i + 1) / 2 == i);
        assert(r[3 + 2 * i] == body[3 + 2 * i]);
        assert(r[4 + 2 * i] == body[4 + 2 * i]);
        lemma_word_bytes(v, 0, 0);
    }
}

/// Write Single Register: every request to this device with a valid CRC is
/// answered, whatever the register address and value, by its own first six
/// bytes followed by their CRC.
pub proof fn lemma_write_single_echo(buf: Seq<u8>, len: int)
    requires
        buf.len() == MAX_FRAME,
        4 <= len <= MAX_FRAME,
        spec_crc_ok(buf.take(len)),
        buf[0] == 0x01,
        buf[1] == 0x06,
    ensures
        spec_response(buf, len) is Some,
        ({
            let r = spec_response(buf, len).unwrap();
            &&& r.len() == 8
            &&& forall|j: int| 0 <= j < 6 ==> r[j] == buf[j]
            &&& trailer_matches(r)
        }),
{
    lemma_with_crc_bytes(buf.take(6));
    let r = with_crc(buf.take(6));
    assert forall|j: int| 0 <= j < 6 implies r[j] == buf[j] by {
        assert(r.take(6)[j] == r[j]);
    }
}

/// Any other function code sent to this device with a valid CRC is answered
/// with exception 1 (illegal function): the address, the function code with
/// its high bit set, the code 1, then a matching CRC. A read request for 0 or
/// more than 32 registers is answered with exception 3 (illegal data value).
pub proof fn lemma_exception_answers(buf: Seq<u8>, len: int)
    requires
        buf.len() == MAX_FRAME,
        4 <= len <= MAX_FRAME,
        spec_crc_ok(buf.take(len)),
        buf[0] == 0x01,
    ensures
        buf[1] != 0x03 && buf[1] != 0x06 ==> {
            &&& spec_response(buf, len) is Some
            &&& spec_response(buf, len).unwrap().take(3) == seq![0x01u8, buf[1] | 0x80, 0x01u8]
            &&& spec_response(buf, len).unwrap().len() == 5
            &&& trailer_matches(spec_response(buf, len).unwrap())
        },
        buf[1] == 0x03 && len >= 8 && (buf[4] as int * 256 + buf[5] as int == 0 || buf[4] as int
            * 256 + buf[5] as int > 32) ==> {
            &&& spec_response(buf, len) is Some
            &&& spec_response(buf, len).unwrap().take(3) == seq![0x01u8, 0x83u8, 0x03u8]
            &&& spec_response(buf, len).unwrap().len() == 5
            &&& trailer_matches(spec_response(buf, len).unwrap())
        },
        buf[1] == 0x03 && len < 8 ==> spec_response(buf, len) is None,
{
    lemma_word_bytes(0, buf[4], buf[5]);
    assert((0x03u8 | 0x80u8) == 0x83u8) by (bit_vector);
    lemma_with_crc_bytes(seq![buf[0], buf[1] | 0x80, 0x01u8]);
    lemma_with_crc_bytes(seq![buf[0], 0x03u8 | 0x80, 0x03u8]);
}

} // verus!
