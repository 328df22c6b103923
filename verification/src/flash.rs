//! Decisions of the on-chip flash programming sequence (STM32C031): address
//! checks, the busy-wait outcome of each status poll, and the operations that
//! the hardware layer performs.

use vstd::prelude::*;

verus! {

/// Start of the flash address space.
pub const FLASH_BASE: u32 = 0x0800_0000;

/// Size of an erase page.
pub const PAGE_SIZE: u32 = 2048;

/// First unlock key written to FLASH_KEYR.
pub const FLASH_KEY1: u32 = 0x4567_0123;

/// Second unlock key written to FLASH_KEYR.
pub const FLASH_KEY2: u32 = 0xCDEF_89AB;

/// Number of status polls before a busy wait gives up.
pub const WAIT_TIMEOUT: u32 = 1_000_000;

/// Hardware error model.
#[derive(Debug, Clone, Copy, PartialEq, Eq, Structural)]
pub enum FlashError {
    BusyTimeout,
    ProgramError,
    WriteProtect,
    AlignmentError,
}

/// One operation of the flash hardware.
#[derive(Debug, Clone, Copy, PartialEq, Eq, Structural)]
pub enum FlashOp {
    /// Erase the page that starts at the given address.
    ErasePage(u32),
    /// Program a 64-bit double word at the given address.
    WriteDoubleWord(u32, u64),
}

/// Outcome of one poll of the flash status register while waiting for the end
/// of an operation.
#[derive(Debug, Clone, Copy, PartialEq, Eq, Structural)]
pub enum WaitStep {
    /// The flash is no longer busy.
    Ready,
    /// The wait ends with an error; the error flags are to be cleared first
    /// when `clear_errors` is set.
    Fail { error: FlashError, clear_errors: bool },
    /// Still busy: poll again with the given remaining budget.
    Retry(u32),
}

/// Page number of a page-aligned flash address, as programmed into the PNB field.
pub open spec fn spec_page_number(page_addr: u32) -> u8 {
    ((page_addr - FLASH_BASE) / (PAGE_SIZE as int)) as u8
}

/// Checks an erase address and computes the page number written to the
/// control register.
pub fn erase_page_number(page_addr: u32) -> (r: Result<u8, FlashError>)
    ensures
        (page_addr < FLASH_BASE || page_addr % PAGE_SIZE != 0) <==> r == Err::<u8, FlashError>(
            FlashError::AlignmentError,
        ),
        r is Ok ==> r == Ok::<u8, FlashError>(spec_page_number(page_addr)),
{
    if page_addr < FLASH_BASE || page_addr % PAGE_SIZE != 0 {
        return Err(FlashError::AlignmentError);
    }
    let page = (page_addr - FLASH_BASE) / PAGE_SIZE;
    Ok(page as u8)
}

/// Checks that a double-word program address is 8-byte aligned.
pub fn check_double_word_addr(addr: u32) -> (r: Result<(), FlashError>)
    ensures
        r == (if addr % 8 == 0 {
            Ok::<(), FlashError>(())
        } else {
            Err(FlashError::AlignmentError)
        }),
{
    if addr % 8 != 0 {
        return Err(FlashError::AlignmentError);
    }
    Ok(())
}

/// Decision taken on one poll of the status register, with `timeout` polls
/// left (including this one). A programming error is reported before a
/// write-protection error, and both before the busy flag is looked at.
pub fn wait_ready_step(progerr: bool, wrperr: bool, busy: bool, timeout: u32) -> (step: WaitStep)
    requires
        timeout >= 1,
    ensures
        progerr ==> step == (WaitStep::Fail { error: FlashError::ProgramError, clear_errors: true }),
        !progerr && wrperr ==> step == (WaitStep::Fail {
            error: FlashError::WriteProtect,
            clear_errors: true,
        }),
        !progerr && !wrperr && !busy ==> step == WaitStep::Ready,
        !progerr && !wrperr && busy && timeout == 1 ==> step == (WaitStep::Fail {
            error: FlashError::BusyTimeout,
            clear_errors: false,
        }),
        !progerr && !wrperr && busy && timeout > 1 ==> step == WaitStep::Retry(
            (timeout - 1) as u32,
        ),
{
    if progerr {
        return WaitStep::Fail { error: FlashError::ProgramError, clear_errors: true };
    }
    if wrperr {
        return WaitStep::Fail { error: FlashError::WriteProtect, clear_errors: true };
    }
    if !busy {
        return WaitStep::Ready;
    }
    let left = timeout - 1;
    if left == 0 {
        return WaitStep::Fail { error: FlashError::BusyTimeout, clear_errors: false };
    }
    WaitStep::Retry(left)
}

/// A 64-bit value read as two 32-bit words, low word at the lower address.
pub fn read64(low: u32, high: u32) -> (v: u64)
    ensures
        v as int == low as int + high as int * 0x1_0000_0000,
{
    let r = ((high as u64) << 32) | (low as u64);
    assert(((high as u64) << 32) | (low as u64) == (low as u64) + (high as u64) * 0x1_0000_0000)
        by (bit_vector);
    r
}

/// Whether a double word holds the erased value (all ones).
pub fn is_erased(word: u64) -> (b: bool)
    ensures
        b == (word == u64::MAX),
{
    word == u64::MAX
}

} // verus!
