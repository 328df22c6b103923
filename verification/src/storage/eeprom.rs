//! Two-page ping-pong EEPROM emulation in flash.
//!
//! Each page is an append-only log of 64-bit slots `[ id (8 bits) | value (56 bits) ]`.
//! The last slot of a page is reserved for the commit marker, written as the
//! final step of a page swap; a page is valid only when the marker is present.
//!
//! The emulation keeps a mirror of both pages in RAM. Reads are answered from
//! the mirror. A write is planned as the flash operations that perform it,
//! which the hardware layer carries out in order; the outcome (all completed,
//! or the operation that failed) is then recorded by `Eeprom::write`.

use vstd::prelude::*;
use crate::flash::{FlashError, FlashOp};

verus! {

/// Address of the first page.
pub const PAGE_A: u32 = 0x0803_8000;

/// Address of the second page.
pub const PAGE_B: u32 = 0x0803_A000;

/// Size of a page.
pub const PAGE_SIZE: u32 = 2048;

/// Each entry is 64 bits.
pub const SLOT_SIZE: u32 = 8;

/// Erased flash value.
pub const ERASED: u64 = 0xFFFF_FFFF_FFFF_FFFF;

/// Page commit marker (never valid data).
pub const PAGE_MAGIC: u64 = 0xA5A5_F0F0_5A5A_F0F0;

/// Offset of the commit slot within a page.
pub const LAST_SLOT_OFFSET: u32 = PAGE_SIZE - SLOT_SIZE;

/// Slots in one page.
pub const SLOTS_PER_PAGE: usize = 256;

/// Slots in the mirror of both pages.
pub const MIRROR_SLOTS: usize = 512;

/// The 56 value bits of an entry.
pub const VALUE_MASK: u64 = 0x00FF_FFFF_FFFF_FFFF;

// ---------------------------------------------------------------------------
// Entry format
// ---------------------------------------------------------------------------

pub open spec fn spec_encode(id: u8, value: u64) -> u64 {
    ((id as u64) << 56) | (value & VALUE_MASK)
}

pub open spec fn decodable(word: u64) -> bool {
    word != ERASED && word != PAGE_MAGIC
}

pub open spec fn spec_decode(word: u64) -> Option<(u8, u64)> {
    if !decodable(word) {
        None
    } else {
        Some(((word >> 56) as u8, word & VALUE_MASK))
    }
}

/// An entry that reads back as written (its encoding is neither the erased
/// value nor the commit marker).
pub open spec fn encodable(id: u8, value: u64) -> bool {
    decodable(spec_encode(id, value))
}

pub fn encode(id: u8, value: u64) -> (w: u64)
    ensures
        w == spec_encode(id, value),
{
    ((id as u64) << 56) | (value & VALUE_MASK)
}

pub fn decode(word: u64) -> (r: Option<(u8, u64)>)
    ensures
        r == spec_decode(word),
{
    if word == ERASED || word == PAGE_MAGIC {
        return None;
    }
    let id = (word >> 56) as u8;
    let value = word & VALUE_MASK;
    Some((id, value))
}

/// Decoding an encodable entry gives back its id and the value's 56 low bits.
pub proof fn lemma_decode_encode(id: u8, value: u64)
    requires
        encodable(id, value),
    ensures
        spec_decode(spec_encode(id, value)) == Some((id, value & VALUE_MASK)),
{
    let w = spec_encode(id, value);
    assert(((((id as u64) << 56) | (value & 0x00FF_FFFF_FFFF_FFFFu64)) >> 56) as u8 == id)
        by (bit_vector);
    assert((((id as u64) << 56) | (value & 0x00FF_FFFF_FFFF_FFFFu64)) & 0x00FF_FFFF_FFFF_FFFFu64
        == value & 0x00FF_FFFF_FFFF_FFFFu64) by (bit_vector);
}

/// Re-encoding a decoded entry gives back the stored word.
pub proof fn lemma_encode_decode(word: u64)
    requires
        decodable(word),
    ensures
        spec_encode(spec_decode(word).unwrap().0, spec_decode(word).unwrap().1) == word,
{
    assert(((((word >> 56) as u8) as u64) << 56) | ((word & 0x00FF_FFFF_FFFF_FFFFu64)
        & 0x00FF_FFFF_FFFF_FFFFu64) == word) by (bit_vector);
}

// ---------------------------------------------------------------------------
// Mirror layout
// ---------------------------------------------------------------------------

pub open spec fn is_page(page: u32) -> bool {
    page == PAGE_A || page == PAGE_B
}

pub open spec fn other_page(page: u32) -> u32 {
    if page == PAGE_A {
        PAGE_B
    } else {
        PAGE_A
    }
}

/// Index in the mirror of the first slot of `page`.
pub open spec fn page_base(page: u32) -> int {
    if page == PAGE_B {
        256
    } else {
        0
    }
}

/// `addr` is the address of a slot of `page`.
pub open spec fn in_page(addr: int, page: u32) -> bool {
    page <= addr < page + PAGE_SIZE && (addr - page) % 8 == 0
}

/// Index in the mirror of the slot at `addr`.
pub open spec fn word_index(addr: int) -> int {
    if addr >= PAGE_B {
        256 + (addr - PAGE_B) / 8
    } else {
        (addr - PAGE_A) / 8
    }
}

/// The slots of `page`.
pub open spec fn page_words(mem: Seq<u64>, page: u32) -> Seq<u64> {
    mem.subrange(page_base(page), page_base(page) + 256)
}

/// `mem` with the slots of `page` replaced by `words`.
pub open spec fn replace_page(mem: Seq<u64>, page: u32, words: Seq<u64>) -> Seq<u64> {
    Seq::new(
        mem.len(),
        |j: int|
            if page_base(page) <= j < page_base(page) + 256 {
                words[j - page_base(page)]
            } else {
                mem[j]
            },
    )
}

pub open spec fn erased_page() -> Seq<u64> {
    Seq::new(256, |j: int| ERASED)
}

/// Effect of a completed flash operation on the contents of the two pages.
/// Programming completes only on an erased double word; an operation that the
/// flash rejects is not completed and is reported to `Eeprom::write` as a failure.
pub open spec fn apply_op(mem: Seq<u64>, op: FlashOp) -> Seq<u64> {
    match op {
        FlashOp::ErasePage(p) => if is_page(p) {
            replace_page(mem, p, erased_page())
        } else {
            mem
        },
        FlashOp::WriteDoubleWord(a, w) => if in_page(a as int, PAGE_A) || in_page(a as int, PAGE_B) {
            mem.update(word_index(a as int), w)
        } else {
            mem
        },
    }
}

/// Effect of a sequence of completed flash operations, first one first.
pub open spec fn apply_ops(mem: Seq<u64>, ops: Seq<FlashOp>) -> Seq<u64>
    decreases ops.len(),
{
    if ops.len() == 0 {
        mem
    } else {
        apply_op(apply_ops(mem, ops.drop_last()), ops.last())
    }
}

// ---------------------------------------------------------------------------
// Abstract state
// ---------------------------------------------------------------------------

/// Most recent value stored under `id` in a log (later entries win).
pub open spec fn spec_lookup(log: Seq<u64>, id: u8) -> Option<u64>
    decreases log.len(),
{
    if log.len() == 0 {
        None
    } else {
        match spec_decode(log.last()) {
            Some((i, v)) => if i == id {
                Some(v)
            } else {
                spec_lookup(log.drop_last(), id)
            },
            None => spec_lookup(log.drop_last(), id),
        }
    }
}

/// Index of the first slot at or after `k` that ends the leading run of
/// entries of a page (the commit slot is never part of it).
pub open spec fn scan_end(words: Seq<u64>, k: int) -> int
    decreases 255 - k,
{
    if k >= 255 || !decodable(words[k]) {
        k
    } else {
        scan_end(words, k + 1)
    }
}

/// Boot scan of a page: next write pointer and whether the page is committed.
pub open spec fn spec_scan_page(mem: Seq<u64>, page: u32) -> (u32, bool) {
    (
        (page + 8 * scan_end(page_words(mem, page), 0)) as u32,
        page_words(mem, page)[255] == PAGE_MAGIC,
    )
}

/// Boot recovery: the committed page when exactly one is committed, otherwise
/// the most filled page (the first page on a tie).
pub open spec fn spec_recover(mem: Seq<u64>) -> (u32, u32) {
    let (a_ptr, a_valid) = spec_scan_page(mem, PAGE_A);
    let (b_ptr, b_valid) = spec_scan_page(mem, PAGE_B);
    if a_valid && !b_valid {
        (PAGE_A, a_ptr)
    } else if !a_valid && b_valid {
        (PAGE_B, b_ptr)
    } else if a_ptr - PAGE_A >= b_ptr - PAGE_B {
        (PAGE_A, a_ptr)
    } else {
        (PAGE_B, b_ptr)
    }
}

/// Contents of the emulated EEPROM: the mirror of both pages, the active page
/// and the write pointer (address of the next free slot).
pub struct EepromState {
    pub mem: Seq<u64>,
    pub active_page: u32,
    pub write_ptr: u32,
}

impl EepromState {
    /// Number of slots of the active page in use.
    pub open spec fn log_len(self) -> int {
        (self.write_ptr - self.active_page) / 8
    }

    pub open spec fn active_words(self) -> Seq<u64> {
        page_words(self.mem, self.active_page)
    }

    /// Slots of the active page below the write pointer, oldest first.
    pub open spec fn log(self) -> Seq<u64> {
        self.active_words().take(self.log_len())
    }

    /// Value stored under `id`.
    pub open spec fn lookup(self, id: u8) -> Option<u64> {
        spec_lookup(self.log(), id)
    }

    pub open spec fn wf(self) -> bool {
        &&& self.mem.len() == MIRROR_SLOTS
        &&& is_page(self.active_page)
        &&& self.active_page <= self.write_ptr <= self.active_page + PAGE_SIZE
        &&& (self.write_ptr - self.active_page) % 8 == 0
        &&& (self.log_len() <= 255 || !decodable(self.active_words()[255]))
    }

    /// No room for a data slot besides the commit slot: the next write swaps pages.
    pub open spec fn near_full(self) -> bool {
        self.write_ptr >= self.active_page + LAST_SLOT_OFFSET - SLOT_SIZE
    }
}

/// Entries of a log that a page swap carries over when writing `id`: every
/// readable entry with another id, in order.
pub open spec fn spec_kept(log: Seq<u64>, id: u8) -> Seq<u64>
    decreases log.len(),
{
    if log.len() == 0 {
        Seq::empty()
    } else {
        let rest = spec_kept(log.drop_last(), id);
        match spec_decode(log.last()) {
            Some((i, v)) => if i != id {
                rest.push(spec_encode(i, v))
            } else {
                rest
            },
            None => rest,
        }
    }
}

/// Contents of the new page after a swap that carries over `kept` and adds `word`.
pub open spec fn swap_image(kept: Seq<u64>, word: u64) -> Seq<u64> {
    Seq::new(
        256,
        |j: int|
            if j == 255 {
                PAGE_MAGIC
            } else if j < kept.len() {
                kept[j]
            } else if j == kept.len() {
                word
            } else {
                ERASED
            },
    )
}

/// State after a successful `write(id, value)`.
pub open spec fn spec_write(s: EepromState, id: u8, value: u64) -> EepromState {
    if !s.near_full() {
        EepromState {
            mem: s.mem.update(word_index(s.write_ptr as int), spec_encode(id, value)),
            active_page: s.active_page,
            write_ptr: (s.write_ptr + SLOT_SIZE) as u32,
        }
    } else {
        let new_page = other_page(s.active_page);
        let kept = spec_kept(s.log(), id);
        EepromState {
            mem: replace_page(
                replace_page(s.mem, new_page, swap_image(kept, spec_encode(id, value))),
                s.active_page,
                erased_page(),
            ),
            active_page: new_page,
            write_ptr: (new_page + 8 * (kept.len() + 1)) as u32,
        }
    }
}

/// Flash operations performed by `write(id, value)`, in order.
pub open spec fn spec_write_ops(s: EepromState, id: u8, value: u64) -> Seq<FlashOp> {
    if !s.near_full() {
        seq![FlashOp::WriteDoubleWord(s.write_ptr, spec_encode(id, value))]
    } else {
        let new_page = other_page(s.active_page);
        let kept = spec_kept(s.log(), id);
        seq![FlashOp::ErasePage(new_page)] + copy_ops(new_page, kept) + seq![
            FlashOp::WriteDoubleWord((new_page + 8 * kept.len()) as u32, spec_encode(id, value)),
            FlashOp::WriteDoubleWord((new_page + LAST_SLOT_OFFSET) as u32, PAGE_MAGIC),
            FlashOp::ErasePage(s.active_page),
        ]
    }
}


/// Contents of the new page while a swap copies entries: the entries copied
/// so far, then erased slots.
pub open spec fn partial_image(kept: Seq<u64>) -> Seq<u64> {
    Seq::new(256, |j: int| if j < kept.len() { kept[j] } else { ERASED })
}

/// Program operations that copy `kept` to the start of `page`.
pub open spec fn copy_ops(page: u32, kept: Seq<u64>) -> Seq<FlashOp> {
    Seq::new(kept.len(), |j: int| FlashOp::WriteDoubleWord((page + 8 * j) as u32, kept[j]))
}

// ---------------------------------------------------------------------------
// Implementation
// ---------------------------------------------------------------------------

/// Mirror index of the slot at `addr`.
fn index_of(addr: u32) -> (i: usize)
    requires
        in_page(addr as int, PAGE_A) || in_page(addr as int, PAGE_B),
    ensures
        i == word_index(addr as int),
        i < MIRROR_SLOTS,
        in_page(addr as int, PAGE_A) ==> i < 256,
        in_page(addr as int, PAGE_B) ==> 256 <= i,
{
    if addr >= PAGE_B {
        256 + ((addr - PAGE_B) / SLOT_SIZE) as usize
    } else {
        ((addr - PAGE_A) / SLOT_SIZE) as usize
    }
}

/// Slot `k` of `page` lives at mirror index `page_base(page) + k`.
proof fn lemma_slot_index(page: u32, k: int)
    requires
        is_page(page),
        0 <= k < 256,
    ensures
        in_page(page + 8 * k, page),
        word_index(page + 8 * k) == page_base(page) + k,
{
}

/// EEPROM emulation over two flash pages.
#[derive(Clone)]
pub struct Eeprom {
    mem: [u64; MIRROR_SLOTS],
    active_page: u32,
    write_ptr: u32,
}

impl View for Eeprom {
    type V = EepromState;

    closed spec fn view(&self) -> EepromState {
        EepromState { mem: self.mem@, active_page: self.active_page, write_ptr: self.write_ptr }
    }
}

impl Eeprom {
    /// Boot recovery from the contents of the two pages.
    ///
    /// Scans both pages and prefers the committed page; when both or neither
    /// are committed, takes the most filled page (the longer log).
    pub fn new(page_a: &[u64; SLOTS_PER_PAGE], page_b: &[u64; SLOTS_PER_PAGE]) -> (e: Self)
        ensures
            e@.wf(),
            e@.mem == page_a@ + page_b@,
            (e@.active_page, e@.write_ptr) == spec_recover(e@.mem),
    {
        let mut mem = [ERASED; MIRROR_SLOTS];
        let mut k: usize = 0;
        while k < SLOTS_PER_PAGE
            invariant
                k <= 256,
                mem@.len() == 512,
                page_a@.len() == 256,
                page_b@.len() == 256,
                forall|j: int| 0 <= j < k ==> #[trigger] mem@[j] == page_a@[j],
                forall|j: int| 0 <= j < k ==> #[trigger] mem@[256 + j] == page_b@[j],
            decreases 256 - k,
        {
            mem[k] = page_a[k];
            mem[256 + k] = page_b[k];
            k += 1;
        }
        assert(mem@ =~= page_a@ + page_b@) by {
            assert forall|j: int| 0 <= j < 512 implies #[trigger] mem@[j] == (page_a@ + page_b@)[j] by {
                if j >= 256 {
                    assert(mem@[256 + (j - 256)] == page_b@[j - 256]);
                }
            }
        }

        let (a_ptr, a_valid) = Self::scan_page(&mem, PAGE_A);
        let (b_ptr, b_valid) = Self::scan_page(&mem, PAGE_B);

        let (active_page, write_ptr) = match (a_valid, b_valid) {
            (true, false) => (PAGE_A, a_ptr),
            (false, true) => (PAGE_B, b_ptr),
            // both valid OR both invalid → choose most recent (longer log)
            _ => {
                if a_ptr - PAGE_A >= b_ptr - PAGE_B {
                    (PAGE_A, a_ptr)
                } else {
                    (PAGE_B, b_ptr)
                }
            },
        };
        Self { mem, active_page, write_ptr }
    }

    /// Boot scan of one page: next write pointer and whether the page is committed.
    fn scan_page(mem: &[u64; MIRROR_SLOTS], page: u32) -> (r: (u32, bool))
        requires
            is_page(page),
        ensures
            r == spec_scan_page(mem@, page),
            page <= r.0 <= page + LAST_SLOT_OFFSET,
            (r.0 - page) % 8 == 0,
    {
        let ghost words = page_words(mem@, page);
        let mut addr = page;
        let end = page + LAST_SLOT_OFFSET;  // exclude commit slot
        let mut stop = false;
        while !stop && addr < end
            invariant
                is_page(page),
                end == page + LAST_SLOT_OFFSET,
                page <= addr <= end,
                (addr - page) % 8 == 0,
                words == page_words(mem@, page),
                scan_end(words, 0) == scan_end(words, (addr - page) / 8),
                stop ==> scan_end(words, (addr - page) / 8) == (addr - page) / 8,
            decreases 2 * (end - addr) + (if stop { 0int } else { 1int }),
        {
            let ghost k = (addr - page) / 8;
            proof {
                lemma_slot_index(page, k);
            }
            let word = mem[index_of(addr)];
            assert(word == words[k]);
            if word == ERASED {
                stop = true;
            } else if decode(word).is_none() {
                stop = true;
            } else {
                addr += SLOT_SIZE;
            }
        }
        let committed = Self::is_page_committed(mem, page);
        (addr, committed)
    }

    /// A page is valid only if the commit marker is in its last slot.
    fn is_page_committed(mem: &[u64; MIRROR_SLOTS], page: u32) -> (b: bool)
        requires
            is_page(page),
        ensures
            b == (page_words(mem@, page)[255] == PAGE_MAGIC),
    {
        proof {
            lemma_slot_index(page, 255);
        }
        let addr = page + LAST_SLOT_OFFSET;
        let word = mem[index_of(addr)];
        word == PAGE_MAGIC
    }

    /// Most recent value stored under `id`, by a scan from the newest entry down.
    pub fn read(&self, id: u8) -> (r: Option<u64>)
        requires
            self@.wf(),
        ensures
            r == self@.lookup(id),
    {
        let ghost log = self@.log();
        let mut addr = self.write_ptr;
        assert(log.take(self@.log_len()) =~= log);
        while addr > self.active_page
            invariant
                self@.wf(),
                log == self@.log(),
                self.active_page <= addr <= self.write_ptr,
                (addr - self.active_page) % 8 == 0,
                spec_lookup(log, id) == spec_lookup(log.take((addr - self.active_page) / 8), id),
            decreases addr - self.active_page,
        {
            addr -= SLOT_SIZE;
            let ghost k = (addr - self.active_page) / 8;
            proof {
                lemma_slot_index(self.active_page, k);
                assert(log.take(k + 1).drop_last() =~= log.take(k));
            }
            let word = self.mem[index_of(addr)];
            assert(word == log.take(k + 1).last());
            match decode(word) {
                Some((i, v)) => {
                    if i == id {
                        return Some(v);
                    }
                },
                None => {},
            }
        }
        assert(log.take(0) =~= Seq::<u64>::empty());
        None
    }

    /// A copy of the emulation state.
    fn copy(&self) -> (c: Self)
        ensures
            c@ == self@,
    {
        Eeprom { mem: self.mem, active_page: self.active_page, write_ptr: self.write_ptr }
    }

    /// Number of entries a page swap would carry over when writing `id`.
    fn kept_len(&self, id: u8) -> (n: usize)
        requires
            self@.wf(),
        ensures
            n == spec_kept(self@.log(), id).len(),
    {
        let ghost log = self@.log();
        let mut n: usize = 0;
        let mut src = self.active_page;
        while src < self.write_ptr
            invariant
                self@.wf(),
                log == self@.log(),
                self.active_page <= src <= self.write_ptr,
                (src - self.active_page) % 8 == 0,
                n == spec_kept(log.take((src - self.active_page) / 8), id).len(),
                n <= (src - self.active_page) / 8,
            decreases self.write_ptr - src,
        {
            let ghost k = (src - self.active_page) / 8;
            proof {
                lemma_slot_index(self.active_page, k);
                assert(log.take(k + 1).drop_last() =~= log.take(k));
            }
            let word = self.mem[index_of(src)];
            assert(word == log.take(k + 1).last());
            match decode(word) {
                Some((i, _)) => {
                    if i != id {
                        n += 1;
                    }
                },
                None => {},
            }
            src += SLOT_SIZE;
        }
        assert(log.take(self@.log_len()) =~= log);
        n
    }

    /// Whether a write of `id` lands in a data slot (see `write_fits`).
    fn fits(&self, id: u8) -> (b: bool)
        requires
            self@.wf(),
        ensures
            b == write_fits(self@, id),
    {
        if !self.is_near_full() {
            return true;
        }
        self.kept_len(id) < 255
    }

    /// The flash operations that write `id`, `value`, in order: a single
    /// append, or a page swap when the active page is full.
    ///
    /// A swap that would carry 255 entries leaves no data slot for the new
    /// entry: its plan would program the commit slot twice, which the flash
    /// rejects with a programming error; such a write is refused with that
    /// error, and nothing is to be performed.
    pub fn plan_write(&self, id: u8, value: u64) -> (r: Result<Vec<FlashOp>, FlashError>)
        requires
            self@.wf(),
        ensures
            write_fits(self@, id) ==> r is Ok && r.unwrap()@ == spec_write_ops(self@, id, value),
            !write_fits(self@, id) ==> r == Err::<Vec<FlashOp>, FlashError>(
                FlashError::ProgramError,
            ),
    {
        if !self.fits(id) {
            return Err(FlashError::ProgramError);
        }
        let mut c = self.copy();
        Ok(c.write_all(id, value))
    }

    /// Performs a completed flash operation on the mirror.
    fn apply_mirror_op(&mut self, op: FlashOp)
        ensures
            final(self)@.mem == apply_op(old(self)@.mem, op),
            final(self)@.active_page == old(self)@.active_page,
            final(self)@.write_ptr == old(self)@.write_ptr,
    {
        match op {
            FlashOp::ErasePage(p) => {
                if p == PAGE_A || p == PAGE_B {
                    self.erase_mirror_page(p);
                }
            },
            FlashOp::WriteDoubleWord(a, w) => {
                let in_a = a >= PAGE_A && a < PAGE_A + PAGE_SIZE && (a - PAGE_A) % SLOT_SIZE == 0;
                let in_b = a >= PAGE_B && a < PAGE_B + PAGE_SIZE && (a - PAGE_B) % SLOT_SIZE == 0;
                if in_a || in_b {
                    let i = index_of(a);
                    self.mem[i] = w;
                }
            },
        }
    }

    /// Write entry: records the outcome of performing the operations that
    /// `plan_write(id, value)` returned. `failure` is `None` when all of them
    /// completed, or the index of the operation that failed with its error
    /// (the operations before it completed).
    ///
    /// On success the entry is written. On failure the error is returned, the
    /// active page, the write pointer and every value read stay as they were,
    /// and the mirror takes in the completed operations. A write that does not
    /// fit is refused with a programming error and changes nothing.
    pub fn write(&mut self, id: u8, value: u64, failure: Option<(usize, FlashError)>) -> (r: Result<
        (),
        FlashError,
    >)
        requires
            old(self)@.wf(),
            write_fits(old(self)@, id) && failure is Some ==> failure.unwrap().0 < spec_write_ops(
                old(self)@,
                id,
                value,
            ).len(),
        ensures
            final(self)@.wf(),
            !write_fits(old(self)@, id) ==> r == Err::<(), FlashError>(FlashError::ProgramError)
                && final(self)@ == old(self)@,
            write_fits(old(self)@, id) && failure is None ==> r == Ok::<(), FlashError>(())
                && final(self)@ == spec_write(old(self)@, id, value),
            write_fits(old(self)@, id) && failure is Some ==> {
                let (k, e) = failure.unwrap();
                let ops = spec_write_ops(old(self)@, id, value);
                &&& r == Err::<(), FlashError>(e)
                &&& final(self)@.mem == apply_ops(old(self)@.mem, ops.take(k as int))
                &&& final(self)@.active_page == old(self)@.active_page
                &&& final(self)@.write_ptr == old(self)@.write_ptr
                &&& final(self)@.log() == old(self)@.log()
            },
    {
        if !self.fits(id) {
            return Err(FlashError::ProgramError);
        }
        match failure {
            None => {
                let _ = self.write_all(id, value);
                Ok(())
            },
            Some((k, e)) => {
                let ghost o = self@;
                let mut plan = self.copy();
                let ops = plan.write_all(id, value);
                let n = k;
                let mut i: usize = 0;
                while i < n
                    invariant
                        n <= ops@.len(),
                        i <= n,
                        ops@ == spec_write_ops(o, id, value),
                        self@.mem == apply_ops(o.mem, ops@.take(i as int)),
                        self@.active_page == o.active_page,
                        self@.write_ptr == o.write_ptr,
                    decreases n - i,
                {
                    let op = ops[i];
                    self.apply_mirror_op(op);
                    proof {
                        assert(ops@.take(i + 1).drop_last() =~= ops@.take(i as int));
                        assert(ops@.take(i + 1).last() == op);
                    }
                    i += 1;
                }
                proof {
                    lemma_write_prefix(o, id, value, n as int);
                }
                Err(e)
            },
        }
    }

    /// Records a write of `id`, `value` and returns the flash operations that
    /// perform it, in order.
    fn write_all(&mut self, id: u8, value: u64) -> (ops: Vec<FlashOp>)
        requires
            old(self)@.wf(),
        ensures
            final(self)@.wf(),
            final(self)@ == spec_write(old(self)@, id, value),
            ops@ == spec_write_ops(old(self)@, id, value),
            final(self)@.mem == apply_ops(old(self)@.mem, ops@),
    {
        if self.is_near_full() {
            return self.swap_pages(id, value);
        }
        let op = self.append(id, value);
        proof {
            assert(seq![op].drop_last() =~= Seq::<FlashOp>::empty());
            assert(apply_ops(old(self)@.mem, Seq::<FlashOp>::empty()) == old(self)@.mem);
            assert(apply_ops(old(self)@.mem, seq![op]) == apply_op(old(self)@.mem, op));
        }
        let ops = vec![op];
        assert(ops@ =~= seq![op]);
        ops
    }

    /// Writes a single entry at the write pointer.
    fn append(&mut self, id: u8, value: u64) -> (op: FlashOp)
        requires
            old(self)@.wf(),
            !old(self)@.near_full(),
        ensures
            final(self)@.wf(),
            final(self)@ == spec_write(old(self)@, id, value),
            seq![op] == spec_write_ops(old(self)@, id, value),
            final(self)@.mem == apply_op(old(self)@.mem, op),
    {
        let addr = self.write_ptr;
        let word = encode(id, value);
        proof {
            lemma_slot_index(self.active_page, (addr - self.active_page) / 8);
        }
        let i = index_of(addr);
        self.mem[i] = word;
        self.write_ptr = addr + SLOT_SIZE;
        proof {
            let n = self@;
            let o = old(self)@;
            assert(n.active_words() =~= o.active_words().update(o.log_len(), word));
            assert(n.log_len() == o.log_len() + 1);
        }
        FlashOp::WriteDoubleWord(addr, word)
    }

    /// Sets every slot of `page` in the mirror to the erased value.
    fn erase_mirror_page(&mut self, page: u32)
        requires
            is_page(page),
        ensures
            final(self)@.mem == replace_page(old(self)@.mem, page, erased_page()),
            final(self)@.active_page == old(self)@.active_page,
            final(self)@.write_ptr == old(self)@.write_ptr,
    {
        let base: usize = if page == PAGE_B { 256 } else { 0 };
        let mut j: usize = 0;
        while j < SLOTS_PER_PAGE
            invariant
                j <= 256,
                base == page_base(page),
                self.mem@.len() == 512,
                self.active_page == old(self).active_page,
                self.write_ptr == old(self).write_ptr,
                forall|x: int|
                    0 <= x < 512 ==> #[trigger] self.mem@[x] == (if base <= x < base + j {
                        ERASED
                    } else {
                        old(self).mem@[x]
                    }),
            decreases 256 - j,
        {
            self.mem[base + j] = ERASED;
            j += 1;
        }
        assert(self@.mem =~= replace_page(old(self)@.mem, page, erased_page()));
    }

    /// Page swap: erase the other page, copy every readable entry with another
    /// id, write the new entry, write the commit marker, then erase the old
    /// page, so that the page committed last is the only committed one.
    ///
    /// If the commit marker is never written, boot recovery ignores the new
    /// page and the old page remains valid.
    fn swap_pages(&mut self, id: u8, value: u64) -> (ops: Vec<FlashOp>)
        requires
            old(self)@.wf(),
            old(self)@.near_full(),
        ensures
            final(self)@.wf(),
            final(self)@ == spec_write(old(self)@, id, value),
            ops@ == spec_write_ops(old(self)@, id, value),
            final(self)@.mem == apply_ops(old(self)@.mem, ops@),
    {
        let ghost o = self@;
        let ghost log = o.log();
        let new_page = if self.active_page == PAGE_A {
            PAGE_B
        } else {
            PAGE_A
        };
        let mut ops: Vec<FlashOp> = Vec::new();

        // 1. ERASE NEW PAGE
        self.erase_mirror_page(new_page);
        ops.push(FlashOp::ErasePage(new_page));
        proof {
            assert(ops@.drop_last() =~= Seq::<FlashOp>::empty());
            assert(apply_ops(o.mem, Seq::<FlashOp>::empty()) == o.mem);
            assert(apply_ops(o.mem, ops@) == apply_op(o.mem, ops@.last()));
        }

        let mut dst = new_page;
        let mut src = self.active_page;
        let ghost mut kept: Seq<u64> = Seq::empty();
        proof {
            assert(partial_image(kept) =~= erased_page());
            assert(log.take(0) =~= Seq::<u64>::empty());
            assert(ops@ =~= seq![FlashOp::ErasePage(new_page)] + copy_ops(new_page, kept));
            assert(page_words(self@.mem, o.active_page) =~= o.active_words());
        }

        // 2. COPY VALID ENTRIES
        while src < self.write_ptr
            invariant
                o.wf(),
                o.near_full(),
                log == o.log(),
                new_page == other_page(o.active_page),
                self.active_page == o.active_page,
                self.write_ptr == o.write_ptr,
                o.active_page <= src <= o.write_ptr,
                (src - o.active_page) % 8 == 0,
                kept == spec_kept(log.take((src - o.active_page) / 8), id),
                kept.len() <= (src - o.active_page) / 8,
                kept.len() <= 255,
                dst == new_page + 8 * kept.len(),
                self@.mem == replace_page(o.mem, new_page, partial_image(kept)),
                page_words(self@.mem, o.active_page) == o.active_words(),
                ops@ == seq![FlashOp::ErasePage(new_page)] + copy_ops(new_page, kept),
                self@.mem == apply_ops(o.mem, ops@),
            decreases o.write_ptr - src,
        {
            let ghost k = (src - o.active_page) / 8;
            proof {
                lemma_slot_index(o.active_page, k);
                assert(log.take(k + 1).drop_last() =~= log.take(k));
            }
            let word = self.mem[index_of(src)];
            assert(word == log.take(k + 1).last());
            match decode(word) {
                Some((i, v)) => {
                    if i != id {
                        let w = encode(i, v);
                        proof {
                            // the last slot of a full log is never readable
                            assert(k < 255);
                            lemma_slot_index(new_page, kept.len() as int);
                        }
                        let di = index_of(dst);
                        self.mem[di] = w;
                        let op = FlashOp::WriteDoubleWord(dst, w);
                        let ghost old_ops = ops@;
                        ops.push(op);
                        proof {
                            let kept2 = kept.push(w);
                            assert(partial_image(kept2) =~= partial_image(kept).update(
                                kept.len() as int,
                                w,
                            ));
                            assert(self@.mem =~= replace_page(o.mem, new_page, partial_image(kept2)));
                            assert(ops@.drop_last() =~= old_ops);
                            assert(copy_ops(new_page, kept2) =~= copy_ops(new_page, kept).push(op));
                            assert(ops@ =~= seq![FlashOp::ErasePage(new_page)] + copy_ops(new_page, kept2));
                            kept = kept2;
                        }
                        dst += SLOT_SIZE;
                    }
                },
                None => {},
            }
            src += SLOT_SIZE;
            proof {
                assert(page_words(self@.mem, o.active_page) =~= o.active_words());
            }
        }
        proof {
            assert(log.take(o.log_len()) =~= log);
            lemma_slot_index(new_page, kept.len() as int);
            lemma_slot_index(new_page, 255);
        }

        // 3. WRITE NEW VALUE
        let ghost m_loop = self@.mem;
        let word = encode(id, value);
        let di = index_of(dst);
        self.mem[di] = word;
        let ghost m_val = self@.mem;
        let op = FlashOp::WriteDoubleWord(dst, word);
        let ghost ops1 = ops@;
        ops.push(op);
        dst += SLOT_SIZE;

        // 4. WRITE COMMIT MARKER (CRITICAL ATOMIC POINT)
        let commit_addr = new_page + LAST_SLOT_OFFSET;
        let ci = index_of(commit_addr);
        self.mem[ci] = PAGE_MAGIC;
        let op2 = FlashOp::WriteDoubleWord(commit_addr, PAGE_MAGIC);
        let ghost ops2 = ops@;
        ops.push(op2);
        let ghost m_commit = self@.mem;

        // 5. ERASE OLD PAGE: the new page is then the only committed one
        let old_page = self.active_page;
        self.erase_mirror_page(old_page);
        let op3 = FlashOp::ErasePage(old_page);
        let ghost ops3 = ops@;
        ops.push(op3);

        // 6. SWITCH ACTIVE PAGE
        self.active_page = new_page;
        self.write_ptr = dst;

        proof {
            assert(ops@.drop_last() =~= ops3);
            assert(ops3.drop_last() =~= ops2);
            assert(ops2.drop_last() =~= ops1);
            assert(m_val == apply_op(m_loop, op));
            assert(apply_ops(o.mem, ops2) == m_val);
            assert(apply_ops(o.mem, ops3) == m_commit);
            assert(apply_ops(o.mem, ops@) == apply_op(m_commit, op3));
            let img = swap_image(kept, word);
            assert(partial_image(kept).update(kept.len() as int, word).update(255, PAGE_MAGIC) =~= img);
            assert(m_commit =~= replace_page(o.mem, new_page, img));
            assert(self@.mem =~= replace_page(
                replace_page(o.mem, new_page, img),
                o.active_page,
                erased_page(),
            ));
            assert(page_words(self@.mem, new_page) =~= img);
            assert(ops@ =~= spec_write_ops(o, id, value));
        }
        ops
    }

    /// No room for a data slot besides the commit slot.
    fn is_near_full(&self) -> (b: bool)
        requires
            self@.wf(),
        ensures
            b == self@.near_full(),
    {
        self.write_ptr >= self.active_page + LAST_SLOT_OFFSET - SLOT_SIZE
    }
}

} // verus!

verus! {

// ---------------------------------------------------------------------------
// Laws
// ---------------------------------------------------------------------------

/// A write lands in a data slot: either it appends, or the page swap leaves
/// room for the new entry below the commit slot.
pub open spec fn write_fits(s: EepromState, id: u8) -> bool {
    !s.near_full() || spec_kept(s.log(), id).len() < 255
}

/// Every entry a swap carries over is a stored word of the log, unchanged.
proof fn lemma_kept_words(log: Seq<u64>, id: u8)
    ensures
        spec_kept(log, id).len() <= log.len(),
        log.len() > 0 && !decodable(log.last()) ==> spec_kept(log, id).len() < log.len(),
        forall|j: int|
            0 <= j < spec_kept(log, id).len() ==> decodable(#[trigger] spec_kept(log, id)[j]),
        forall|other: u8|
            other != id ==> #[trigger] spec_lookup(spec_kept(log, id), other) == spec_lookup(
                log,
                other,
            ),
    decreases log.len(),
{
    if log.len() > 0 {
        let rest = log.drop_last();
        lemma_kept_words(rest, id);
        let w = log.last();
        let k = spec_kept(log, id);
        if decodable(w) {
            lemma_encode_decode(w);
            let (i, v) = spec_decode(w).unwrap();
            if i != id {
                assert(k.drop_last() =~= spec_kept(rest, id));
                assert(k.last() == w);
            }
        }
        assert forall|other: u8| other != id implies #[trigger] spec_lookup(k, other)
            == spec_lookup(log, other) by {
            if decodable(w) && spec_decode(w).unwrap().0 != id {
                assert(k.drop_last() =~= spec_kept(rest, id));
                assert(spec_lookup(spec_kept(rest, id), other) == spec_lookup(rest, other));
            } else {
                assert(spec_lookup(spec_kept(rest, id), other) == spec_lookup(rest, other));
            }
        }
    }
}

/// The log right after an append is the old log with the new entry added.
proof fn lemma_append_log(s: EepromState, id: u8, value: u64)
    requires
        s.wf(),
        !s.near_full(),
    ensures
        spec_write(s, id, value).log() == s.log().push(spec_encode(id, value)),
        spec_write(s, id, value).active_words() == s.active_words().update(
            s.log_len(),
            spec_encode(id, value),
        ),
{
    let n = spec_write(s, id, value);
    lemma_slot_index(s.active_page, s.log_len());
    assert(n.active_words() =~= s.active_words().update(s.log_len(), spec_encode(id, value)));
    assert(n.log() =~= s.log().push(spec_encode(id, value)));
}

/// Page contents and log right after a page swap.
proof fn lemma_swap_log(s: EepromState, id: u8, value: u64)
    requires
        s.wf(),
        s.near_full(),
    ensures
        spec_kept(s.log(), id).len() <= 255,
        spec_write(s, id, value).active_words() == swap_image(
            spec_kept(s.log(), id),
            spec_encode(id, value),
        ),
        spec_kept(s.log(), id).len() < 255 ==> spec_write(s, id, value).log() == spec_kept(
            s.log(),
            id,
        ).push(spec_encode(id, value)),
        spec_kept(s.log(), id).len() == 255 ==> spec_write(s, id, value).log() == spec_kept(
            s.log(),
            id,
        ).push(PAGE_MAGIC),
{
    let kept = spec_kept(s.log(), id);
    let n = spec_write(s, id, value);
    lemma_kept_words(s.log(), id);
    if s.log_len() == 256 {
        assert(s.log().last() == s.active_words()[255]);
    }
    assert(n.active_words() =~= swap_image(kept, spec_encode(id, value)));
    if kept.len() < 255 {
        assert(n.log() =~= kept.push(spec_encode(id, value)));
    } else {
        assert(n.log() =~= kept.push(PAGE_MAGIC));
    }
}

/// A write is read back: after `write(id, value)`, reading `id` gives the
/// value's 56 low bits.
pub proof fn lemma_write_then_read(s: EepromState, id: u8, value: u64)
    requires
        s.wf(),
        encodable(id, value),
        write_fits(s, id),
    ensures
        spec_write(s, id, value).lookup(id) == Some(value & VALUE_MASK),
{
    lemma_decode_encode(id, value);
    let n = spec_write(s, id, value);
    if !s.near_full() {
        lemma_append_log(s, id, value);
        assert(n.log().drop_last() =~= s.log());
    } else {
        lemma_swap_log(s, id, value);
    }
}

/// A write of one id leaves the value read for every other id unchanged.
pub proof fn lemma_write_keeps_others(s: EepromState, id: u8, value: u64, other: u8)
    requires
        s.wf(),
        other != id,
    ensures
        spec_write(s, id, value).lookup(other) == s.lookup(other),
{
    let n = spec_write(s, id, value);
    let enc = spec_encode(id, value);
    if decodable(enc) {
        lemma_decode_encode(id, value);
    }
    if !s.near_full() {
        lemma_append_log(s, id, value);
        assert(n.log().drop_last() =~= s.log());
    } else {
        lemma_swap_log(s, id, value);
        lemma_kept_words(s.log(), id);
        assert(n.log().drop_last() =~= spec_kept(s.log(), id));
        assert(spec_lookup(spec_kept(s.log(), id), other) == spec_lookup(s.log(), other));
    }
    assert(spec_lookup(n.log(), other) == spec_lookup(n.log().drop_last(), other));
}

/// A state as boot recovery finds it: every slot of the log is an entry, the
/// slots after it up to the commit slot are erased, and the commit slot holds
/// no entry.
pub open spec fn clean(s: EepromState) -> bool {
    &&& s.wf()
    &&& forall|j: int| 0 <= j < s.log_len() ==> decodable(#[trigger] s.active_words()[j])
    &&& forall|j: int| s.log_len() <= j < 255 ==> #[trigger] s.active_words()[j] == ERASED
    &&& !decodable(s.active_words()[255])
}

/// Whether the page is committed in `mem`.
pub open spec fn committed(mem: Seq<u64>, page: u32) -> bool {
    page_words(mem, page)[255] == PAGE_MAGIC
}

/// Number of leading entries of `page` found by the boot scan.
pub open spec fn fill(mem: Seq<u64>, page: u32) -> int {
    scan_end(page_words(mem, page), 0)
}

/// Boot recovery selects `page`, whose log holds `len` entries: it is the only
/// committed page, or both or neither are committed and its log is the longer
/// one (the first page winning a tie).
pub open spec fn recovery_selects(mem: Seq<u64>, page: u32, len: int) -> bool {
    let other = other_page(page);
    ||| committed(mem, page) && !committed(mem, other)
    ||| committed(mem, page) == committed(mem, other) && (if page == PAGE_A {
        len >= fill(mem, other)
    } else {
        len > fill(mem, other)
    })
}

/// A successful write of an encodable entry that fits keeps the state clean.
pub proof fn lemma_write_keeps_clean(s: EepromState, id: u8, value: u64)
    requires
        clean(s),
        encodable(id, value),
        write_fits(s, id),
    ensures
        clean(spec_write(s, id, value)),
{
    if !s.near_full() {
        lemma_append_log(s, id, value);
    } else {
        lemma_swap_log(s, id, value);
        lemma_kept_words(s.log(), id);
    }
}

proof fn lemma_scan_end_bound(words: Seq<u64>, k: int)
    requires
        0 <= k <= 255,
    ensures
        k <= scan_end(words, k) <= 255,
    decreases 255 - k,
{
    if k < 255 && decodable(words[k]) {
        lemma_scan_end_bound(words, k + 1);
    }
}

proof fn lemma_scan_end_at(words: Seq<u64>, k: int, n: int)
    requires
        0 <= k <= n <= 255,
        forall|j: int| 0 <= j < n ==> decodable(#[trigger] words[j]),
        n == 255 || !decodable(words[n]),
    ensures
        scan_end(words, k) == n,
    decreases n - k,
{
    if k < n {
        lemma_scan_end_at(words, k + 1, n);
    }
}

/// Reboot gives back the state: boot recovery over the pages of a clean state
/// whose active page it selects finds the same active page and write pointer.
pub proof fn lemma_recover_clean(s: EepromState)
    requires
        clean(s),
        recovery_selects(s.mem, s.active_page, s.log_len()),
    ensures
        spec_recover(s.mem) == (s.active_page, s.write_ptr),
{
    let words = s.active_words();
    if s.log_len() == 256 {
        assert(decodable(words[255]));
    }
    lemma_scan_end_at(words, 0, s.log_len());
    lemma_scan_end_bound(page_words(s.mem, PAGE_A), 0);
    lemma_scan_end_bound(page_words(s.mem, PAGE_B), 0);
}

/// A write survives a reboot: after a successful write of an encodable entry
/// that fits, from a clean state, boot recovery over the flash contents finds
/// the written state again, whenever it selects the new active page.
pub proof fn lemma_write_survives_reboot(s: EepromState, id: u8, value: u64)
    requires
        clean(s),
        encodable(id, value),
        write_fits(s, id),
        recovery_selects(
            spec_write(s, id, value).mem,
            spec_write(s, id, value).active_page,
            spec_write(s, id, value).log_len(),
        ),
    ensures
        spec_recover(spec_write(s, id, value).mem) == (
            spec_write(s, id, value).active_page,
            spec_write(s, id, value).write_ptr,
        ),
        spec_write(s, id, value).lookup(id) == Some(value & VALUE_MASK),
{
    lemma_write_keeps_clean(s, id, value);
    lemma_recover_clean(spec_write(s, id, value));
    lemma_write_then_read(s, id, value);
}

/// The commit slot only ever receives the commit marker: a write that fits
/// never programs data into the last slot of a page.
pub proof fn lemma_commit_slot_holds_only_marker(s: EepromState, id: u8, value: u64)
    requires
        s.wf(),
        write_fits(s, id),
    ensures
        forall|i: int|
            0 <= i < spec_write_ops(s, id, value).len() ==> match #[trigger] spec_write_ops(
                s,
                id,
                value,
            )[i] {
                FlashOp::WriteDoubleWord(a, w) => (a == PAGE_A + LAST_SLOT_OFFSET || a == PAGE_B
                    + LAST_SLOT_OFFSET) ==> w == PAGE_MAGIC,
                FlashOp::ErasePage(_) => true,
            },
        spec_write(s, id, value).write_ptr <= spec_write(s, id, value).active_page
            + LAST_SLOT_OFFSET,
{
    let ops = spec_write_ops(s, id, value);
    if s.near_full() {
        let new_page = other_page(s.active_page);
        let kept = spec_kept(s.log(), id);
        assert forall|i: int| 0 <= i < ops.len() implies match #[trigger] ops[i] {
            FlashOp::WriteDoubleWord(a, w) => (a == PAGE_A + LAST_SLOT_OFFSET || a == PAGE_B
                + LAST_SLOT_OFFSET) ==> w == PAGE_MAGIC,
            FlashOp::ErasePage(_) => true,
        } by {
            if 1 <= i <= kept.len() {
                assert(ops[i] == copy_ops(new_page, kept)[i - 1]);
            }
        }
    }
}

/// Words programmed by a page swap, in order: the carried entries, then the new one.
pub open spec fn swap_words(s: EepromState, id: u8, value: u64) -> Seq<u64> {
    spec_kept(s.log(), id).push(spec_encode(id, value))
}

/// Flash contents after the first `k` operations of a swap (`k` ≥ 1, the
/// commit marker not yet written): the new page holds the first `k - 1`
/// programmed words, the rest of it is erased, and nothing else has changed.
proof fn lemma_swap_prefix(s: EepromState, id: u8, value: u64, k: int)
    requires
        s.wf(),
        s.near_full(),
        write_fits(s, id),
        1 <= k <= spec_kept(s.log(), id).len() + 2,
    ensures
        apply_ops(s.mem, spec_write_ops(s, id, value).take(k)) == replace_page(
            s.mem,
            other_page(s.active_page),
            partial_image(swap_words(s, id, value).take(k - 1)),
        ),
    decreases k,
{
    let ops = spec_write_ops(s, id, value);
    let new_page = other_page(s.active_page);
    let kept = spec_kept(s.log(), id);
    let w = swap_words(s, id, value);
    if k == 1 {
        assert(ops.take(1).drop_last() =~= Seq::<FlashOp>::empty());
        assert(ops.take(1).last() == FlashOp::ErasePage(new_page));
        assert(apply_ops(s.mem, Seq::<FlashOp>::empty()) == s.mem);
        assert(partial_image(w.take(0)) =~= erased_page());
    } else {
        lemma_swap_prefix(s, id, value, k - 1);
        assert(ops.take(k).drop_last() =~= ops.take(k - 1));
        let j = k - 2;
        lemma_slot_index(new_page, j);
        if j < kept.len() {
            assert(ops[k - 1] == copy_ops(new_page, kept)[j]);
        }
        assert(ops[k - 1] == FlashOp::WriteDoubleWord((new_page + 8 * j) as u32, w[j]));
        assert(partial_image(w.take(k - 1)) =~= partial_image(w.take(k - 2)).update(j, w[j]));
        assert(apply_ops(s.mem, ops.take(k)) =~= replace_page(
            s.mem,
            new_page,
            partial_image(w.take(k - 1)),
        ));
    }
}

/// Power-fail safety of a page swap: if power fails after the swap has begun
/// (`k` ≥ 1 operations done) but before the commit marker is written, boot
/// recovery finds the old, committed page and its log unchanged.
pub proof fn lemma_interrupted_swap_keeps_old_state(s: EepromState, id: u8, value: u64, k: int)
    requires
        clean(s),
        committed(s.mem, s.active_page),
        s.near_full(),
        write_fits(s, id),
        1 <= k < spec_write_ops(s, id, value).len() - 1,
    ensures
        spec_recover(apply_ops(s.mem, spec_write_ops(s, id, value).take(k))) == (
            s.active_page,
            s.write_ptr,
        ),
{
    let ops = spec_write_ops(s, id, value);
    let new_page = other_page(s.active_page);
    let m = apply_ops(s.mem, ops.take(k));
    lemma_swap_prefix(s, id, value, k);
    let img = partial_image(swap_words(s, id, value).take(k - 1));
    assert(page_words(m, new_page) =~= img);
    assert(!committed(m, new_page));
    let t = EepromState { mem: m, active_page: s.active_page, write_ptr: s.write_ptr };
    assert(page_words(m, s.active_page) =~= s.active_words());
    lemma_recover_clean(t);
}

/// The state after the first `k` operations of a write that fits, the next
/// one having failed: the active
/// page, the write pointer and the log are unchanged, and the state is well formed.
pub proof fn lemma_write_prefix(s: EepromState, id: u8, value: u64, k: int)
    requires
        s.wf(),
        write_fits(s, id),
        0 <= k < spec_write_ops(s, id, value).len(),
    ensures
        ({
            let t = EepromState {
                mem: apply_ops(s.mem, spec_write_ops(s, id, value).take(k)),
                active_page: s.active_page,
                write_ptr: s.write_ptr,
            };
            t.wf() && t.log() == s.log()
        }),
{
    let ops = spec_write_ops(s, id, value);
    let m = apply_ops(s.mem, ops.take(k));
    let t = EepromState { mem: m, active_page: s.active_page, write_ptr: s.write_ptr };
    if k == 0 {
        assert(ops.take(0) =~= Seq::<FlashOp>::empty());
    } else if !s.near_full() {
        assert(ops.take(1).drop_last() =~= Seq::<FlashOp>::empty());
        assert(apply_ops(s.mem, Seq::<FlashOp>::empty()) == s.mem);
        lemma_slot_index(s.active_page, s.log_len());
        assert(m == s.mem.update(word_index(s.write_ptr as int), spec_encode(id, value)));
        assert(t.active_words() =~= s.active_words().update(s.log_len(), spec_encode(id, value)));
        assert(t.log() =~= s.log());
    } else {
        let new_page = other_page(s.active_page);
        let kl = spec_kept(s.log(), id).len() as int;
        if k <= kl + 2 {
            lemma_swap_prefix(s, id, value, k);
        } else {
            lemma_swap_prefix(s, id, value, kl + 2);
            assert(ops.take(k).drop_last() =~= ops.take(kl + 2));
            lemma_slot_index(new_page, 255);
            assert(ops.take(k).last() == FlashOp::WriteDoubleWord(
                (new_page + LAST_SLOT_OFFSET) as u32,
                PAGE_MAGIC,
            ));
        }
        assert(t.active_words() =~= s.active_words());
        assert(t.log() =~= s.log());
    }
}

/// A failed write changes no value read: after the first `k` operations of a
/// write, the lookups are those from before.
pub proof fn lemma_failed_write_keeps_reads(s: EepromState, id: u8, value: u64, k: int, j: u8)
    requires
        s.wf(),
        write_fits(s, id),
        0 <= k < spec_write_ops(s, id, value).len(),
    ensures
        (EepromState {
            mem: apply_ops(s.mem, spec_write_ops(s, id, value).take(k)),
            active_page: s.active_page,
            write_ptr: s.write_ptr,
        }).lookup(j) == s.lookup(j),
{
    lemma_write_prefix(s, id, value, k);
}

/// State of the emulation on flash that was erased and then only written
/// through successful writes of entries that read back: clean, the other page
/// erased, and the active page committed unless it is still the first page.
pub open spec fn reachable(s: EepromState) -> bool {
    &&& clean(s)
    &&& page_words(s.mem, other_page(s.active_page)) == erased_page()
    &&& (committed(s.mem, s.active_page) || s.active_page == PAGE_A)
}

/// Both pages erased.
pub open spec fn erased_flash() -> Seq<u64> {
    erased_page() + erased_page()
}

/// Boot recovery on erased flash starts on the first page, empty.
pub proof fn lemma_boot_on_erased_flash()
    ensures
        spec_recover(erased_flash()) == (PAGE_A, PAGE_A),
        reachable(EepromState { mem: erased_flash(), active_page: PAGE_A, write_ptr: PAGE_A }),
{
    let m = erased_flash();
    assert(page_words(m, PAGE_A) =~= erased_page());
    assert(page_words(m, PAGE_B) =~= erased_page());
}

/// Successful writes of entries that read back and fit keep the state reachable.
pub proof fn lemma_write_keeps_reachable(s: EepromState, id: u8, value: u64)
    requires
        reachable(s),
        encodable(id, value),
        write_fits(s, id),
    ensures
        reachable(spec_write(s, id, value)),
{
    lemma_write_keeps_clean(s, id, value);
    let n = spec_write(s, id, value);
    if !s.near_full() {
        lemma_slot_index(s.active_page, s.log_len());
        assert(page_words(n.mem, other_page(s.active_page)) =~= page_words(
            s.mem,
            other_page(s.active_page),
        ));
        assert(n.active_words()[255] == s.active_words()[255]);
    } else {
        lemma_swap_log(s, id, value);
        assert(page_words(n.mem, s.active_page) =~= erased_page());
    }
}

/// Reboot gives back a reachable state: boot recovery over its pages finds the
/// same active page and write pointer, so every value read is unchanged.
pub proof fn lemma_reachable_recovers(s: EepromState)
    requires
        reachable(s),
    ensures
        spec_recover(s.mem) == (s.active_page, s.write_ptr),
{
    let other = other_page(s.active_page);
    assert(page_words(s.mem, other)[0] == ERASED);
    assert(fill(s.mem, other) == 0);
    lemma_recover_clean(s);
}

/// State after a sequence of successful writes, first write first.
pub open spec fn write_seq(s: EepromState, ws: Seq<(u8, u64)>) -> EepromState
    decreases ws.len(),
{
    if ws.len() == 0 {
        s
    } else {
        spec_write(write_seq(s, ws.drop_last()), ws.last().0, ws.last().1)
    }
}

/// Each write of the sequence stores an entry that reads back and fits.
pub open spec fn writes_succeed(s: EepromState, ws: Seq<(u8, u64)>) -> bool {
    forall|k: int|
        0 <= k < ws.len() ==> {
            &&& encodable(#[trigger] ws[k].0, ws[k].1)
            &&& write_fits(write_seq(s, ws.take(k)), ws[k].0)
        }
}

/// Writes survive a reboot: starting from erased flash, after any sequence of
/// successful writes of entries that read back, boot recovery over the flash
/// contents finds the same active page and write pointer, so every read gives
/// what it gave before the reboot.
pub proof fn lemma_writes_survive_reboot(ws: Seq<(u8, u64)>)
    requires
        writes_succeed(
            EepromState { mem: erased_flash(), active_page: PAGE_A, write_ptr: PAGE_A },
            ws,
        ),
    ensures
        ({
            let s = write_seq(
                EepromState { mem: erased_flash(), active_page: PAGE_A, write_ptr: PAGE_A },
                ws,
            );
            reachable(s) && spec_recover(s.mem) == (s.active_page, s.write_ptr)
        }),
{
    let s0 = EepromState { mem: erased_flash(), active_page: PAGE_A, write_ptr: PAGE_A };
    lemma_write_seq_reachable(s0, ws);
    lemma_reachable_recovers(write_seq(s0, ws));
}

proof fn lemma_write_seq_reachable(s0: EepromState, ws: Seq<(u8, u64)>)
    requires
        s0 == (EepromState { mem: erased_flash(), active_page: PAGE_A, write_ptr: PAGE_A }),
        writes_succeed(s0, ws),
    ensures
        reachable(write_seq(s0, ws)),
    decreases ws.len(),
{
    if ws.len() == 0 {
        lemma_boot_on_erased_flash();
    } else {
        let front = ws.drop_last();
        assert forall|k: int| 0 <= k < front.len() implies {
            &&& encodable(#[trigger] front[k].0, front[k].1)
            &&& write_fits(write_seq(s0, front.take(k)), front[k].0)
        } by {
            assert(front.take(k) =~= ws.take(k));
            assert(front[k] == ws[k]);
        }
        lemma_write_seq_reachable(s0, front);
        let k = ws.len() - 1;
        assert(ws.take(k) =~= front);
        assert(encodable(ws[k].0, ws[k].1));
        lemma_write_keeps_reachable(write_seq(s0, front), ws.last().0, ws.last().1);
    }
}

/// The commit point of a page swap: when power fails after the commit marker
/// is written but before the old page is erased, boot recovery finds either
/// the state from before the write or the state after it, never a mix.
pub proof fn lemma_swap_commit_point(s: EepromState, id: u8, value: u64)
    requires
        reachable(s),
        s.near_full(),
        encodable(id, value),
        write_fits(s, id),
    ensures
        ({
            let ops = spec_write_ops(s, id, value);
            let r = spec_recover(apply_ops(s.mem, ops.take(ops.len() - 1)));
            let w = spec_write(s, id, value);
            r == (s.active_page, s.write_ptr) || r == (w.active_page, w.write_ptr)
        }),
{
    let ops = spec_write_ops(s, id, value);
    let kl = spec_kept(s.log(), id).len() as int;
    let new_page = other_page(s.active_page);
    let w = spec_write(s, id, value);
    lemma_swap_prefix(s, id, value, kl + 2);
    assert(ops.take(kl + 3).drop_last() =~= ops.take(kl + 2));
    lemma_slot_index(new_page, 255);
    assert(ops.take(kl + 3).last() == FlashOp::WriteDoubleWord(
        (new_page + LAST_SLOT_OFFSET) as u32,
        PAGE_MAGIC,
    ));
    let m = apply_ops(s.mem, ops.take(kl + 3));
    lemma_write_keeps_clean(s, id, value);
    lemma_swap_log(s, id, value);
    let img = swap_image(spec_kept(s.log(), id), spec_encode(id, value));
    assert(partial_image(swap_words(s, id, value).take(kl + 1)).update(255, PAGE_MAGIC) =~= img);
    assert(page_words(m, new_page) =~= img);
    assert(page_words(m, s.active_page) =~= s.active_words());
    // the boot scan finds each page's log
    lemma_scan_end_at(img, 0, w.log_len());
    if s.log_len() == 256 {
        assert(decodable(s.active_words()[255]));
    }
    lemma_scan_end_at(s.active_words(), 0, s.log_len());
}


/// A stored entry for `id`: a slot word that is neither erased (all ones) nor
/// the commit marker, and whose top byte is `id`.
pub open spec fn entry_carries(w: u64, id: u8) -> bool {
    &&& w != 0xFFFF_FFFF_FFFF_FFFFu64
    &&& w != 0xA5A5_F0F0_5A5A_F0F0u64
    &&& (w >> 56u64) == id as u64
}

/// A read of `id` finds nothing exactly when no slot of the log holds an entry
/// for `id`; otherwise it finds the low 56 bits of an entry for `id` that no
/// later slot overrides.
pub proof fn lemma_lookup_latest_entry(log: Seq<u64>, id: u8)
    ensures
        spec_lookup(log, id) is None <==> forall|j: int|
            0 <= j < log.len() ==> !#[trigger] entry_carries(log[j], id),
        spec_lookup(log, id) is Some ==> exists|j: int|
            #![trigger log[j]]
            {
                &&& 0 <= j < log.len()
                &&& entry_carries(log[j], id)
                &&& spec_lookup(log, id) == Some(log[j] & 0x00FF_FFFF_FFFF_FFFFu64)
                &&& forall|k: int| j < k < log.len() ==> !#[trigger] entry_carries(log[k], id)
            },
    decreases log.len(),
{
    if log.len() > 0 {
        let n = log.len() - 1;
        let w = log.last();
        let rest = log.drop_last();
        lemma_lookup_latest_entry(rest, id);
        assert(((w >> 56) as u8 == id) == ((w >> 56u64) == id as u64)) by (bit_vector);
        assert(forall|j: int| 0 <= j < n ==> #[trigger] rest[j] == log[j]);
        assert(log[n] == w);
        if entry_carries(w, id) {
            assert(spec_lookup(log, id) == Some(w & VALUE_MASK));
            assert(entry_carries(log[n], id));
        } else {
            assert(spec_lookup(log, id) == spec_lookup(rest, id));
            if spec_lookup(rest, id) is Some {
                let j = choose|j: int|
                    #![trigger rest[j]]
                    {
                        &&& 0 <= j < rest.len()
                        &&& entry_carries(rest[j], id)
                        &&& spec_lookup(rest, id) == Some(rest[j] & 0x00FF_FFFF_FFFF_FFFFu64)
                        &&& forall|k: int|
                            j < k < rest.len() ==> !#[trigger] entry_carries(rest[k], id)
                    };
                assert(log[j] == rest[j]);
                assert forall|k: int| j < k < log.len() implies !#[trigger] entry_carries(
                    log[k],
                    id,
                ) by {
                    if k < n {
                        assert(log[k] == rest[k]);
                    }
                }
            } else {
                assert forall|j: int| 0 <= j < log.len() implies !#[trigger] entry_carries(
                    log[j],
                    id,
                ) by {
                    if j < n {
                        assert(log[j] == rest[j]);
                    }
                }
            }
        }
    }
}

/// On blank flash (both pages erased) boot recovery finds no entry: every
/// read gives nothing.
pub proof fn lemma_blank_flash_reads_nothing(id: u8)
    ensures
        ({
            let (page, ptr) = spec_recover(erased_flash());
            (EepromState { mem: erased_flash(), active_page: page, write_ptr: ptr }).lookup(id)
                is None
        }),
{
    lemma_boot_on_erased_flash();
    let s = EepromState { mem: erased_flash(), active_page: PAGE_A, write_ptr: PAGE_A };
    assert(s.log() =~= Seq::<u64>::empty());
    lemma_lookup_latest_entry(s.log(), id);
}

} // verus!
