use dro_core::drivers::flash::{Flash, FlashRecord, PAGE_ADDR};
use dro_core::flash::{
    check_double_word_addr, erase_page_number, is_erased, read64, wait_ready_step, FlashError,
    WaitStep, FLASH_BASE, WAIT_TIMEOUT,
};
use dro_core::modbus::crc16;

#[test]
fn erase_page_number_of_aligned_page() {
    assert_eq!(erase_page_number(0x0803_8000), Ok(112));
    assert_eq!(erase_page_number(0x0803_A000), Ok(116));
    assert_eq!(erase_page_number(PAGE_ADDR), Ok(15));
    assert_eq!(erase_page_number(FLASH_BASE), Ok(0));
}

#[test]
fn erase_page_rejects_bad_address() {
    assert_eq!(erase_page_number(0x0803_8004), Err(FlashError::AlignmentError));
    assert_eq!(erase_page_number(0x0000_0800), Err(FlashError::AlignmentError));
}

#[test]
fn double_word_alignment() {
    assert_eq!(check_double_word_addr(0x0803_8008), Ok(()));
    assert_eq!(check_double_word_addr(0x0803_8004), Err(FlashError::AlignmentError));
}

#[test]
fn wait_ready_outcomes() {
    assert_eq!(
        wait_ready_step(true, true, true, 5),
        WaitStep::Fail { error: FlashError::ProgramError, clear_errors: true }
    );
    assert_eq!(
        wait_ready_step(false, true, false, 5),
        WaitStep::Fail { error: FlashError::WriteProtect, clear_errors: true }
    );
    assert_eq!(wait_ready_step(false, false, false, 5), WaitStep::Ready);
    assert_eq!(wait_ready_step(false, false, true, 5), WaitStep::Retry(4));
    assert_eq!(
        wait_ready_step(false, false, true, 1),
        WaitStep::Fail { error: FlashError::BusyTimeout, clear_errors: false }
    );
}

#[test]
fn wait_ready_gives_up_after_budget() {
    let mut t = WAIT_TIMEOUT;
    let mut polls = 0u32;
    loop {
        polls += 1;
        match wait_ready_step(false, false, true, t) {
            WaitStep::Retry(n) => t = n,
            other => {
                assert_eq!(other, WaitStep::Fail { error: FlashError::BusyTimeout, clear_errors: false });
                break;
            }
        }
    }
    assert_eq!(polls, WAIT_TIMEOUT);
}

#[test]
fn read64_combines_words() {
    assert_eq!(read64(0x89AB_CDEF, 0x0123_4567), 0x0123_4567_89AB_CDEF);
    assert!(is_erased(read64(0xFFFF_FFFF, 0xFFFF_FFFF)));
    assert!(!is_erased(read64(0xFFFF_FFFE, 0xFFFF_FFFF)));
}

#[test]
fn record_image_even_length() {
    let data = [1u8, 2, 3, 4];
    let c = crc16(&data);
    let image = Flash::write(&data);
    assert_eq!(image, vec![0x0201, 0x0403, c]);
}

#[test]
fn record_image_odd_length_has_padding() {
    let data = [0xAAu8, 0xBB, 0xCC];
    let c = crc16(&data);
    let image = Flash::write(&data);
    assert_eq!(image, vec![0xBBAA, 0x00CC, c]);
}

#[test]
fn written_record_reads_back() {
    let data = [9u8, 8, 7, 6, 5];
    let image = Flash::write(&data);
    let record: FlashRecord<5> = FlashRecord::from_image(&image);
    assert!(Flash::validate(&record));
    assert_eq!(Flash::read(&record), Some(data));
}

#[test]
fn corrupted_record_is_rejected() {
    let data = [1u8, 2, 3, 4, 5, 6, 7, 8];
    let mut image = Flash::write(&data);
    image[1] ^= 0x0100;
    let record: FlashRecord<8> = FlashRecord::from_image(&image);
    assert!(!Flash::validate(&record));
    assert_eq!(Flash::read(&record), None);
}

#[test]
fn erased_page_is_not_a_record() {
    let image = vec![0xFFFFu16; 3];
    let record: FlashRecord<4> = FlashRecord::from_image(&image);
    assert_eq!(Flash::read(&record), None);
    let _ = Flash::new();
}
