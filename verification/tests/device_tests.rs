use dro_core::drivers::encoder as basic_encoder;
use dro_core::drivers::uart::{Event, TxStart, TxState, UartFlags};
use dro_core::encoder::{get_count, get_invalid_count, init, isr, reset_count, EncoderState};
use dro_core::snapshot::{PowerSnapshot, SNAPSHOT_ID};
use dro_core::storage::eeprom::{Eeprom, ERASED};
use dro_core::usart1::RingBuffer;

const FORWARD: [u32; 4] = [0b01, 0b11, 0b10, 0b00];

#[test]
fn encoder_forward_cycle_counts_four() {
    let mut s = EncoderState::new();
    init(&mut s, 0);
    for &idr in FORWARD.iter() {
        isr(&mut s, idr);
    }
    assert_eq!(get_count(&s), 4);
    assert_eq!(get_invalid_count(&s), 0);
}

#[test]
fn encoder_reverse_cycle_counts_minus_four() {
    let mut s = EncoderState::new();
    init(&mut s, 0);
    for &idr in FORWARD.iter().rev().skip(1).chain([0u32].iter()) {
        isr(&mut s, idr);
    }
    assert_eq!(get_count(&s), -4);
}

#[test]
fn encoder_step_and_back_cancel() {
    let mut s = EncoderState::new();
    init(&mut s, 0b11);
    isr(&mut s, 0b10);
    assert_eq!(get_count(&s), 1);
    isr(&mut s, 0b11);
    assert_eq!(get_count(&s), 0);
}

#[test]
fn encoder_invalid_transition_is_counted_not_stepped() {
    let mut s = EncoderState::new();
    init(&mut s, 0b00);
    isr(&mut s, 0b11);
    assert_eq!(get_count(&s), 0);
    assert_eq!(get_invalid_count(&s), 1);
    // no change: neither step nor invalid
    isr(&mut s, 0b11);
    assert_eq!(get_invalid_count(&s), 1);
}

#[test]
fn encoder_uses_only_pins_a_and_b() {
    let mut s = EncoderState::new();
    init(&mut s, 0xFFFF_FFFC);
    isr(&mut s, 0xFFFF_FFFD);
    assert_eq!(get_count(&s), 1);
}

#[test]
fn encoder_reset_then_count() {
    let mut s = EncoderState::new();
    init(&mut s, 0);
    isr(&mut s, 0b10);
    assert_eq!(get_count(&s), -1);
    reset_count(&mut s);
    assert_eq!(get_count(&s), 0);
    for _ in 0..2 {
        for &idr in [0b00u32, 0b01, 0b11, 0b10].iter() {
            isr(&mut s, idr);
        }
    }
    assert_eq!(get_count(&s), 8);
}

#[test]
fn basic_encoder_counts() {
    let mut s = basic_encoder::EncoderState::new();
    basic_encoder::init(&mut s, 0);
    for &idr in FORWARD.iter() {
        basic_encoder::isr(&mut s, idr);
    }
    assert_eq!(basic_encoder::get_count(&s), 4);
    basic_encoder::isr(&mut s, 0b11); // invalid jump: ignored
    assert_eq!(basic_encoder::get_count(&s), 4);
    basic_encoder::reset_count(&mut s);
    assert_eq!(basic_encoder::get_count(&s), 0);
}

#[test]
fn ring_buffer_is_fifo() {
    let mut r = RingBuffer::new();
    assert_eq!(r.pop(), None);
    r.push(1);
    r.push(2);
    r.push(3);
    assert_eq!(r.pop(), Some(1));
    r.push(4);
    assert_eq!(r.pop(), Some(2));
    assert_eq!(r.pop(), Some(3));
    assert_eq!(r.pop(), Some(4));
    assert_eq!(r.pop(), None);
}

#[test]
fn ring_buffer_drops_when_full() {
    let mut r = RingBuffer::new();
    for i in 0..300u32 {
        r.push(i as u8);
    }
    for i in 0..255u32 {
        assert_eq!(r.pop(), Some(i as u8));
    }
    assert_eq!(r.pop(), None);
}

#[test]
fn ring_buffer_wraps_around() {
    let mut r = RingBuffer::new();
    for round in 0..10u32 {
        for i in 0..100u32 {
            r.push((round + i) as u8);
        }
        for i in 0..100u32 {
            assert_eq!(r.pop(), Some((round + i) as u8));
        }
    }
}

fn flags() -> UartFlags {
    UartFlags { rxfne: false, rtof: false, txfnf: false, tc: false, ore: false, fe: false, ne: false }
}

#[test]
fn uart_sends_frame_in_order() {
    let mut tx = TxState::new();
    let r = tx.start_tx(&[0x10, 0x20, 0x30], true);
    assert_eq!(r, TxStart::Started { kick: Some(0x10) });
    let mut sent = vec![0x10u8];
    loop {
        let a = tx.isr(UartFlags { txfnf: true, ..flags() }, 0);
        match a.tdr {
            Some(b) => sent.push(b),
            None => {
                assert!(a.disable_txe_irq);
                break;
            }
        }
    }
    assert_eq!(sent, vec![0x10, 0x20, 0x30]);
    let a = tx.isr(UartFlags { tc: true, ..flags() }, 0);
    assert_eq!(a.events, vec![Event::TxDone]);
    assert!(a.clear_tc);
}

#[test]
fn uart_drops_frame_while_busy() {
    let mut tx = TxState::new();
    assert_eq!(tx.start_tx(&[1, 2], false), TxStart::Started { kick: None });
    assert_eq!(tx.start_tx(&[3], true), TxStart::Dropped);
    let a = tx.isr(UartFlags { txfnf: true, ..flags() }, 0);
    assert_eq!(a.tdr, Some(1));
}

#[test]
fn uart_events_in_order() {
    let mut tx = TxState::new();
    let a = tx.isr(
        UartFlags { rxfne: true, rtof: true, tc: true, ore: true, fe: true, ne: true, txfnf: true },
        0x5A,
    );
    assert_eq!(a.events, vec![Event::Rx(0x5A), Event::FrameEnd, Event::TxDone]);
    assert!(a.clear_rto && a.clear_ore && a.clear_fe && a.clear_ne);
    assert_eq!(a.tdr, None);
    assert!(!a.disable_txe_irq);
}

#[test]
fn uart_long_frame_is_cut_to_buffer() {
    let mut tx = TxState::new();
    let data: Vec<u8> = (0..300u32).map(|i| i as u8).collect();
    tx.start_tx(&data, false);
    let mut n = 0;
    while let Some(b) = tx.isr(UartFlags { txfnf: true, ..flags() }, 0).tdr {
        assert_eq!(b, n as u8);
        n += 1;
    }
    assert_eq!(n, 256);
}

#[test]
fn snapshot_is_taken_once() {
    let mut s = PowerSnapshot::new();
    assert_eq!(s.take(), None);
    s.latch(-5);
    assert_eq!(s.take(), Some((-5i64) as u64));
    assert_eq!(s.take(), None);
}

#[test]
fn snapshot_survives_commit_and_reboot() {
    let a = [ERASED; 256];
    let b = [ERASED; 256];
    let mut e = Eeprom::new(&a, &b);
    let mut s = PowerSnapshot::new();
    s.latch(-123_456);
    let v = s.take().unwrap();
    let ops = e.plan_write(SNAPSHOT_ID, v).unwrap();
    assert_eq!(ops.len(), 1);
    assert_eq!(e.write(SNAPSHOT_ID, v, None), Ok(()));
    let stored = e.read(SNAPSHOT_ID).unwrap();
    assert_eq!(stored as i32, -123_456);
}

#[test]
fn uart_empty_frame_sends_nothing() {
    let mut tx = TxState::new();
    assert_eq!(tx.start_tx(&[0x77], false), TxStart::Started { kick: None });
    let _ = tx.isr(UartFlags { txfnf: true, ..flags() }, 0);
    let _ = tx.isr(UartFlags { tc: true, ..flags() }, 0);
    assert!(!tx.is_busy());
    assert_eq!(tx.start_tx(&[], true), TxStart::Started { kick: None });
    let a = tx.isr(UartFlags { txfnf: true, ..flags() }, 0);
    assert_eq!(a.tdr, None);
    assert!(a.disable_txe_irq);
}
