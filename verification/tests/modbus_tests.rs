use dro_core::modbus::{append_crc, crc16, crc_ok, Modbus, MAX_FRAME};

fn with_crc(payload: &[u8]) -> Vec<u8> {
    let mut v = payload.to_vec();
    let c = crc16(payload);
    v.push((c & 0xFF) as u8);
    v.push((c >> 8) as u8);
    v
}

fn feed(m: &mut Modbus, bytes: &[u8]) {
    for &b in bytes {
        m.push_byte(b);
    }
}

fn crc_trailer_ok(frame: &[u8]) -> bool {
    let n = frame.len();
    let c = crc16(&frame[..n - 2]);
    frame[n - 2] == (c & 0xFF) as u8 && frame[n - 1] == (c >> 8) as u8
}

#[test]
fn crc16_known_request() {
    assert_eq!(crc16(&[0x01, 0x03, 0x00, 0x00, 0x00, 0x01]), 0x0A84);
}

#[test]
fn crc16_check_value() {
    assert_eq!(crc16(b"123456789"), 0x4B37);
    assert_eq!(crc16(&[]), 0xFFFF);
}

#[test]
fn read_holding_two_registers() {
    let mut m = Modbus::new();
    let req = with_crc(&[0x01, 0x03, 0x00, 0x00, 0x00, 0x02]);
    assert_eq!(req, vec![0x01, 0x03, 0x00, 0x00, 0x00, 0x02, 0xC4, 0x0B]);
    feed(&mut m, &req);
    let resp = m.process().expect("response");
    assert_eq!(resp, with_crc(&[0x01, 0x03, 0x04, 0x04, 0xD2, 0x16, 0x2E]));
    assert!(crc_trailer_ok(&resp));
}

#[test]
fn read_holding_unmapped_registers_are_zero() {
    let mut m = Modbus::new();
    feed(&mut m, &with_crc(&[0x01, 0x03, 0x00, 0x01, 0x00, 0x03]));
    let resp = m.process().unwrap();
    assert_eq!(resp, with_crc(&[0x01, 0x03, 0x06, 0x16, 0x2E, 0x00, 0x00, 0x00, 0x00]));
}

#[test]
fn read_holding_thirty_two_registers() {
    let mut m = Modbus::new();
    feed(&mut m, &with_crc(&[0x01, 0x03, 0x00, 0x00, 0x00, 0x20]));
    let resp = m.process().unwrap();
    assert_eq!(resp.len(), 3 + 64 + 2);
    assert_eq!(resp[2], 64);
    assert!(crc_trailer_ok(&resp));
}

#[test]
fn read_holding_bad_count_is_exception_3() {
    let mut m = Modbus::new();
    feed(&mut m, &with_crc(&[0x01, 0x03, 0x00, 0x00, 0x00, 0x00]));
    assert_eq!(m.process().unwrap(), with_crc(&[0x01, 0x83, 0x03]));
    feed(&mut m, &with_crc(&[0x01, 0x03, 0x00, 0x00, 0x00, 0x21]));
    assert_eq!(m.process().unwrap(), with_crc(&[0x01, 0x83, 0x03]));
}

#[test]
fn read_holding_short_frame_gets_no_answer() {
    let mut m = Modbus::new();
    feed(&mut m, &with_crc(&[0x01, 0x03, 0x00, 0x00]));
    assert_eq!(m.process(), None);
}

#[test]
fn write_single_is_echoed() {
    let mut m = Modbus::new();
    let req = with_crc(&[0x01, 0x06, 0x00, 0x01, 0x12, 0x34]);
    feed(&mut m, &req);
    assert_eq!(m.process().unwrap(), req);
}

#[test]
fn unknown_function_is_exception_1() {
    let mut m = Modbus::new();
    feed(&mut m, &with_crc(&[0x01, 0x10, 0x00, 0x00]));
    assert_eq!(m.process().unwrap(), with_crc(&[0x01, 0x90, 0x01]));
}

#[test]
fn other_address_is_ignored() {
    let mut m = Modbus::new();
    feed(&mut m, &with_crc(&[0x02, 0x03, 0x00, 0x00, 0x00, 0x01]));
    assert_eq!(m.process(), None);
}

#[test]
fn bad_crc_is_ignored() {
    let mut m = Modbus::new();
    let mut req = with_crc(&[0x01, 0x03, 0x00, 0x00, 0x00, 0x01]);
    req[6] ^= 0x01;
    feed(&mut m, &req);
    assert_eq!(m.process(), None);
}

#[test]
fn too_short_frame_is_ignored() {
    let mut m = Modbus::new();
    feed(&mut m, &[0x01, 0x03, 0x00]);
    assert_eq!(m.process(), None);
}

#[test]
fn overflowed_frame_is_discarded_whole() {
    let mut m = Modbus::new();
    for i in 0..257u32 {
        m.push_byte(i as u8);
    }
    feed(&mut m, &[0x01, 0x03, 0x00, 0x00, 0x00, 0x01, 0x84, 0x0A]);
    assert_eq!(m.process(), None);
    feed(&mut m, &[0x01, 0x03, 0x00, 0x00, 0x00, 0x01, 0x84, 0x0A]);
    assert_eq!(m.process().unwrap(), with_crc(&[0x01, 0x03, 0x02, 0x04, 0xD2]));
}

#[test]
fn process_consumes_the_frame() {
    let mut m = Modbus::new();
    feed(&mut m, &with_crc(&[0x01, 0x06, 0x00, 0x01, 0x00, 0x07]));
    assert!(m.process().is_some());
    assert_eq!(m.process(), None);
}

#[test]
fn overflow_invalidates_frame() {
    let mut m = Modbus::new();
    for _ in 0..MAX_FRAME {
        m.push_byte(0x01);
    }
    // the byte past the buffer resets the frame
    m.push_byte(0x01);
    assert_eq!(m.process(), None);
    // a new frame afterwards is served
    feed(&mut m, &with_crc(&[0x01, 0x03, 0x00, 0x00, 0x00, 0x01]));
    assert_eq!(m.process().unwrap(), with_crc(&[0x01, 0x03, 0x02, 0x04, 0xD2]));
}

#[test]
fn register_range_wraps_past_ffff() {
    let mut m = Modbus::new();
    feed(&mut m, &with_crc(&[0x01, 0x03, 0xFF, 0xFF, 0x00, 0x03]));
    // registers 0xFFFF, 0x0000, 0x0001
    assert_eq!(
        m.process().unwrap(),
        with_crc(&[0x01, 0x03, 0x06, 0x00, 0x00, 0x04, 0xD2, 0x16, 0x2E])
    );
    assert_eq!(m.process(), None);
}

#[test]
fn crc_ok_and_append_crc() {
    let mut frame = [0x01u8, 0x03, 0x00, 0x00, 0x00, 0x01, 0x00, 0x00];
    let mut idx = 6usize;
    append_crc(&mut frame, &mut idx);
    assert_eq!(idx, 8);
    assert_eq!(frame, [0x01, 0x03, 0x00, 0x00, 0x00, 0x01, 0x84, 0x0A]);
    assert!(crc_ok(&frame));
    for i in 0..8 {
        for b in 0..8 {
            let mut g = frame;
            g[i] ^= 1 << b;
            assert!(!crc_ok(&g));
        }
    }
}

#[test]
fn every_response_has_valid_crc_and_address() {
    let requests: Vec<Vec<u8>> = vec![
        with_crc(&[0x01, 0x03, 0x00, 0x00, 0x00, 0x05]),
        with_crc(&[0x01, 0x06, 0x00, 0x00, 0xAB, 0xCD]),
        with_crc(&[0x01, 0x41, 0x00, 0x00]),
        with_crc(&[0x01, 0x03, 0x00, 0x00, 0x00, 0x40]),
    ];
    for req in requests {
        let mut m = Modbus::new();
        feed(&mut m, &req);
        let resp = m.process().unwrap();
        assert!(resp.len() >= 5);
        assert_eq!(resp[0], 0x01);
        assert!(crc_trailer_ok(&resp));
    }
}
