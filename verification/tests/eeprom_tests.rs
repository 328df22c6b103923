use dro_core::flash::{FlashError, FlashOp};
use dro_core::storage::eeprom::{decode, encode, Eeprom, ERASED, PAGE_A, PAGE_B, PAGE_MAGIC, VALUE_MASK};

/// Flash contents of the two pages, updated by completed operations.
struct SimFlash {
    a: [u64; 256],
    b: [u64; 256],
}

impl SimFlash {
    fn erased() -> Self {
        SimFlash { a: [ERASED; 256], b: [ERASED; 256] }
    }

    fn apply(&mut self, ops: &[FlashOp]) {
        for op in ops {
            match *op {
                FlashOp::ErasePage(p) => {
                    if p == PAGE_A {
                        self.a = [ERASED; 256];
                    } else {
                        assert_eq!(p, PAGE_B);
                        self.b = [ERASED; 256];
                    }
                }
                FlashOp::WriteDoubleWord(addr, w) => {
                    if addr >= PAGE_B {
                        self.b[((addr - PAGE_B) / 8) as usize] = w;
                    } else {
                        self.a[((addr - PAGE_A) / 8) as usize] = w;
                    }
                }
            }
        }
    }

    fn boot(&self) -> Eeprom {
        Eeprom::new(&self.a, &self.b)
    }
}

fn write(e: &mut Eeprom, f: &mut SimFlash, id: u8, value: u64) -> Vec<FlashOp> {
    let ops = e.plan_write(id, value).unwrap();
    f.apply(&ops);
    assert_eq!(e.write(id, value, None), Ok(()));
    ops
}

#[test]
fn blank_flash_reads_nothing() {
    let f = SimFlash::erased();
    let e = f.boot();
    assert_eq!(e.read(0x01), None);
    assert_eq!(e.read(0xFF), None);
}

#[test]
fn blank_flash_starts_on_first_page() {
    // neither page committed and both empty: the first page wins the tie
    let mut f = SimFlash::erased();
    let mut e = f.boot();
    let ops = write(&mut e, &mut f, 0x01, 42);
    assert_eq!(ops, vec![FlashOp::WriteDoubleWord(PAGE_A, (0x01u64 << 56) | 42)]);
}

#[test]
fn longer_log_wins_when_neither_page_is_committed() {
    let mut a = [ERASED; 256];
    let mut b = [ERASED; 256];
    a[0] = (0x01u64 << 56) | 1;
    b[0] = (0x01u64 << 56) | 2;
    b[1] = (0x01u64 << 56) | 3;
    assert_eq!(Eeprom::new(&a, &b).read(0x01), Some(3));
    a[1] = (0x01u64 << 56) | 4;
    assert_eq!(Eeprom::new(&a, &b).read(0x01), Some(4));
}

#[test]
fn write_then_read() {
    let mut f = SimFlash::erased();
    let mut e = f.boot();
    write(&mut e, &mut f, 0x01, 1000);
    write(&mut e, &mut f, 0x02, 2000);
    assert_eq!(e.read(0x01), Some(1000));
    assert_eq!(e.read(0x02), Some(2000));
    assert_eq!(e.read(0x03), None);
}

#[test]
fn latest_write_wins() {
    let mut f = SimFlash::erased();
    let mut e = f.boot();
    write(&mut e, &mut f, 0x07, 1);
    write(&mut e, &mut f, 0x07, 2);
    write(&mut e, &mut f, 0x08, 9);
    assert_eq!(e.read(0x07), Some(2));
}

#[test]
fn value_keeps_56_bits() {
    let mut f = SimFlash::erased();
    let mut e = f.boot();
    write(&mut e, &mut f, 0x01, 0xDEAD_BEEF_CAFE_F00D);
    assert_eq!(e.read(0x01), Some(0xDEAD_BEEF_CAFE_F00D & VALUE_MASK));
    assert_eq!(e.read(0x01), Some(0x00AD_BEEF_CAFE_F00D));
}

#[test]
fn unencodable_entry_is_not_read_back() {
    // id 0xFF with all value bits set encodes to the erased word
    let mut f = SimFlash::erased();
    let mut e = f.boot();
    write(&mut e, &mut f, 0xFF, 5);
    write(&mut e, &mut f, 0xFF, u64::MAX);
    assert_eq!(e.read(0xFF), Some(5));
}

#[test]
fn reboot_recovers_appended_entries() {
    let mut f = SimFlash::erased();
    let mut e = f.boot();
    for i in 0..10u64 {
        write(&mut e, &mut f, (i % 3) as u8, i);
    }
    let e2 = f.boot();
    for id in 0..3u8 {
        assert_eq!(e2.read(id), e.read(id));
    }
    assert_eq!(e2.read(0), Some(9));
}

#[test]
fn page_swap_carries_entries_and_commits() {
    let mut f = SimFlash::erased();
    let mut e = f.boot();
    // page A holds 254 data slots before the swap
    for i in 0..254u64 {
        let ops = write(&mut e, &mut f, (i % 4) as u8, i);
        assert_eq!(ops.len(), 1);
    }
    let ops = write(&mut e, &mut f, 0x09, 777);
    assert_eq!(ops[0], FlashOp::ErasePage(PAGE_B));
    // every entry with another id is copied, then the new one, the marker,
    // and the old page is erased
    assert_eq!(ops.len(), 1 + 254 + 1 + 1 + 1);
    assert_eq!(ops[ops.len() - 2], FlashOp::WriteDoubleWord(PAGE_B + 2040, PAGE_MAGIC));
    assert_eq!(*ops.last().unwrap(), FlashOp::ErasePage(PAGE_A));
    assert_eq!(f.b[255], PAGE_MAGIC);
    assert_eq!(f.a, [ERASED; 256]);
    assert_eq!(e.read(0x09), Some(777));
    // latest value of each id among 0..254
    assert_eq!(e.read(0), Some(252));
    assert_eq!(e.read(1), Some(253));
    assert_eq!(e.read(2), Some(250));
    assert_eq!(e.read(3), Some(251));
    // page B is the only committed page: a reboot finds it
    let e2 = f.boot();
    assert_eq!(e2.read(0x09), Some(777));
    assert_eq!(e2.read(0x03), Some(251));
}

#[test]
fn page_swap_drops_entries_of_the_written_id() {
    let mut f = SimFlash::erased();
    let mut e = f.boot();
    for i in 0..254u64 {
        write(&mut e, &mut f, 0x05, i);
    }
    let ops = write(&mut e, &mut f, 0x05, 1);
    // erase, new entry, marker, erase of the old page
    assert_eq!(ops.len(), 4);
    assert_eq!(ops[1], FlashOp::WriteDoubleWord(PAGE_B, (0x05u64 << 56) | 1));
    assert_eq!(e.read(0x05), Some(1));
}

#[test]
fn swap_back_is_recovered_at_boot() {
    // the page committed last is the only committed page
    let mut f = SimFlash::erased();
    let mut e = f.boot();
    let mut swaps = 0;
    let mut i = 0u64;
    while swaps < 3 {
        let ops = write(&mut e, &mut f, 0x01, i);
        if ops.len() > 1 {
            swaps += 1;
            assert_eq!(f.boot().read(0x01), e.read(0x01));
        }
        i += 1;
    }
    assert_eq!(e.read(0x01), Some(i - 1));
    assert_eq!(f.boot().read(0x01), Some(i - 1));
}

#[test]
fn reboot_after_every_write_reads_the_same() {
    let mut f = SimFlash::erased();
    let mut e = f.boot();
    for i in 0..1200u64 {
        write(&mut e, &mut f, (i % 7) as u8, i * 3);
        let r = f.boot();
        for id in 0..8u8 {
            assert_eq!(r.read(id), e.read(id));
        }
    }
}

#[test]
fn interrupted_swap_recovers_old_page() {
    let mut f = SimFlash::erased();
    let mut e = f.boot();
    // commit page A through a first round trip A → B → A
    let mut swaps = 0;
    let mut i = 0u64;
    while swaps < 1 {
        if write(&mut e, &mut f, (i % 5) as u8, i).len() > 1 {
            swaps += 1;
        }
        i += 1;
    }
    // fill page B (committed) up to the next swap
    while e.plan_write(0x06, 0).unwrap().len() == 1 {
        write(&mut e, &mut f, 0x06, i);
        i += 1;
    }
    let before: Vec<Option<u64>> = (0..8u8).map(|id| e.read(id)).collect();
    let ops = e.plan_write(0x07, 99).unwrap();
    // power fails after k operations, before the commit marker
    for k in 1..ops.len() - 1 {
        let mut g = SimFlash { a: f.a, b: f.b };
        g.apply(&ops[..k]);
        let r = g.boot();
        let after: Vec<Option<u64>> = (0..8u8).map(|id| r.read(id)).collect();
        assert_eq!(after, before);
    }
    // power fails after the marker, before the old page is erased: old or new state
    let mut g = SimFlash { a: f.a, b: f.b };
    g.apply(&ops[..ops.len() - 1]);
    let r = g.boot();
    let after: Vec<Option<u64>> = (0..8u8).map(|id| r.read(id)).collect();
    let mut done = e.clone();
    assert_eq!(done.write(0x07, 99, None), Ok(()));
    let new: Vec<Option<u64>> = (0..8u8).map(|id| done.read(id)).collect();
    assert!(after == before || after == new);
}

#[test]
fn committed_page_is_preferred_at_boot() {
    let mut a = [ERASED; 256];
    let b = [ERASED; 256];
    a[0] = (0x02u64 << 56) | 11;
    a[255] = PAGE_MAGIC;
    let e = Eeprom::new(&a, &b);
    assert_eq!(e.read(0x02), Some(11));
}

#[test]
fn scan_stops_at_first_unreadable_slot() {
    let mut a = [ERASED; 256];
    let b = [ERASED; 256];
    a[0] = (0x02u64 << 56) | 11;
    a[2] = (0x02u64 << 56) | 12; // after a gap: not part of the log
    a[255] = PAGE_MAGIC;
    let e = Eeprom::new(&a, &b);
    assert_eq!(e.read(0x02), Some(11));
}

#[test]
fn failed_write_keeps_values() {
    let mut f = SimFlash::erased();
    let mut e = f.boot();
    write(&mut e, &mut f, 0x01, 10);
    let ops = e.plan_write(0x01, 20).unwrap();
    assert_eq!(e.write(0x01, 20, Some((0, FlashError::ProgramError))), Err(FlashError::ProgramError));
    assert_eq!(e.read(0x01), Some(10));
    // the failed slot is skipped by nothing: the next plan targets the same slot
    assert_eq!(e.plan_write(0x01, 20).unwrap(), ops);
}

#[test]
fn failed_swap_keeps_values() {
    let mut f = SimFlash::erased();
    let mut e = f.boot();
    for i in 0..254u64 {
        write(&mut e, &mut f, (i % 4) as u8, i);
    }
    let ops = e.plan_write(0x09, 1).unwrap();
    assert!(ops.len() > 3);
    f.apply(&ops[..3]);
    assert_eq!(e.write(0x09, 1, Some((3, FlashError::WriteProtect))), Err(FlashError::WriteProtect));
    assert_eq!(e.read(0x09), None);
    assert_eq!(e.read(0x03), Some(251));
    assert_eq!(f.boot().read(0x03), Some(251));
}

#[test]
fn swap_without_room_is_refused() {
    // a committed page whose 255 data slots hold distinct other ids
    let mut a = [ERASED; 256];
    let b = [ERASED; 256];
    for j in 0..255usize {
        a[j] = ((j as u64) << 56) | 7;
    }
    a[255] = PAGE_MAGIC;
    let mut e = Eeprom::new(&a, &b);
    assert_eq!(e.read(0x00), Some(7));
    assert_eq!(e.plan_write(0xFF, 1), Err(FlashError::ProgramError));
    assert_eq!(e.write(0xFF, 1, None), Err(FlashError::ProgramError));
    assert_eq!(e.read(0xFF), None);
    // an id among them leaves room after the swap
    assert!(e.plan_write(0x05, 1).is_ok());
}

#[test]
fn encode_decode_format() {
    assert_eq!(encode(0x12, 0xAB), 0x1200_0000_0000_00AB);
    assert_eq!(decode(encode(0x12, 0xFFFF_0000_0000_0001)), Some((0x12, 0x00FF_0000_0000_0001)));
    assert_eq!(decode(u64::MAX), None);
    assert_eq!(decode(PAGE_MAGIC), None);
}
