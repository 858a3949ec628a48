use dynamixel::codec::{encode_frame, encode_status, OPCODE_READ, OPCODE_WRITE};
use dynamixel::opcode::Opcode;
use dynamixel::protocol::ProtocolVersion;
use dynamixel::slave::{respond, RawInstruction, RecvStep, Receiver};

fn expect_instruction(step: RecvStep) -> RawInstruction {
    match step {
        RecvStep::Instruction(i) => i,
        RecvStep::NeedBytes(n) => panic!("expected an instruction, scan needs {} bytes", n),
    }
}

#[test]
fn slave_resync_skips_garbage() {
    let mut rx = Receiver::new(ProtocolVersion::V1);
    rx.feed(&[0xAA, 0xBB, 0xFF, 0xFF, 0x01, 0x02, 0x01, 0xFB]);
    let i = expect_instruction(rx.poll());
    assert_eq!(
        i,
        RawInstruction { version: ProtocolVersion::V1, id: 1, opcode: Opcode::Ping, data: vec![] }
    );
    assert_eq!(rx.buffered(), 0);
}

#[test]
fn slave_framing_rejection_then_valid_frame() {
    let mut rx = Receiver::new(ProtocolVersion::V1);
    rx.feed(&[0xFF, 0xFF, 0x01, 0x02, 0x01, 0x00]);
    match rx.poll() {
        RecvStep::NeedBytes(n) => assert!(rx.buffered() < n),
        RecvStep::Instruction(i) => panic!("bad checksum delivered {:?}", i),
    }
    assert!(rx.buffered() < 4);
    rx.feed(&[0xFF, 0xFF, 0x01, 0x02, 0x01, 0xFB]);
    let i = expect_instruction(rx.poll());
    assert_eq!(i.id, 1);
    assert_eq!(i.opcode, Opcode::Ping);
    assert!(i.data.is_empty());
}

#[test]
fn slave_needs_header_then_frame() {
    let mut rx = Receiver::new(ProtocolVersion::V1);
    assert!(matches!(rx.poll(), RecvStep::NeedBytes(4)));
    rx.feed(&[0xFF, 0xFF, 0x03, 0x04]);
    assert!(matches!(rx.poll(), RecvStep::NeedBytes(8)));
    assert_eq!(rx.buffered(), 4);
    let frame = encode_frame(ProtocolVersion::V1, 3, OPCODE_READ, &[0x2B, 0x01]);
    rx.feed(&frame[4..]);
    let i = expect_instruction(rx.poll());
    assert_eq!((i.id, i.opcode, i.data), (3, Opcode::Read, vec![0x2B, 0x01]));
}

#[test]
fn slave_clear_after_timeout() {
    let mut rx = Receiver::new(ProtocolVersion::V2);
    rx.feed(&[0xFF, 0xFF, 0xFD, 0x00, 0x01, 0x20, 0x00]);
    assert!(matches!(rx.poll(), RecvStep::NeedBytes(39)));
    rx.clear();
    assert_eq!(rx.buffered(), 0);
    assert!(matches!(rx.poll(), RecvStep::NeedBytes(7)));
}

#[test]
fn slave_discards_own_status_echo() {
    let mut rx = Receiver::new(ProtocolVersion::V1);
    let status = encode_status(ProtocolVersion::V1, 1, 0, &[5]).unwrap();
    rx.feed(&status);
    assert!(matches!(rx.poll(), RecvStep::NeedBytes(4)));
    assert_eq!(rx.buffered(), 0);

    let mut rx2 = Receiver::new(ProtocolVersion::V2);
    let status = encode_status(ProtocolVersion::V2, 1, 0, &[5]).unwrap();
    rx2.feed(&status);
    assert!(matches!(rx2.poll(), RecvStep::NeedBytes(7)));
    assert_eq!(rx2.buffered(), 0);
}

#[test]
fn slave_v2_round_trip() {
    let params = [0x40, 0x00, 0x01, 0x02, 0x03, 0x04];
    let frame = encode_frame(ProtocolVersion::V2, 5, OPCODE_WRITE, &params);
    let mut rx = Receiver::new(ProtocolVersion::V2);
    rx.feed(&[0x00, 0xFF]);
    rx.feed(&frame);
    let i = expect_instruction(rx.poll());
    assert_eq!(
        i,
        RawInstruction {
            version: ProtocolVersion::V2,
            id: 5,
            opcode: Opcode::Write,
            data: params.to_vec()
        }
    );
}

#[test]
fn slave_v2_bad_crc_is_skipped() {
    let mut frame = encode_frame(ProtocolVersion::V2, 5, OPCODE_READ, &[0x84, 0x00, 0x04, 0x00]);
    let last = frame.len() - 1;
    frame[last] ^= 0x01;
    let mut rx = Receiver::new(ProtocolVersion::V2);
    rx.feed(&frame);
    assert!(matches!(rx.poll(), RecvStep::NeedBytes(_)));
    let good = encode_frame(ProtocolVersion::V2, 6, OPCODE_READ, &[0x84, 0x00, 0x04, 0x00]);
    rx.clear();
    rx.feed(&good);
    let i = expect_instruction(rx.poll());
    assert_eq!(i.id, 6);
}

#[test]
fn slave_v1_keeps_following_frame() {
    let a = encode_frame(ProtocolVersion::V1, 1, OPCODE_READ, &[0x24, 0x02]);
    let b = encode_frame(ProtocolVersion::V1, 2, OPCODE_WRITE, &[0x1E, 0x00, 0x02]);
    let mut rx = Receiver::new(ProtocolVersion::V1);
    rx.feed(&a);
    rx.feed(&b);
    assert_eq!(expect_instruction(rx.poll()).id, 1);
    assert_eq!(rx.buffered(), b.len());
    let i = expect_instruction(rx.poll());
    assert_eq!((i.id, i.opcode, i.data), (2, Opcode::Write, vec![0x1E, 0x00, 0x02]));
}

#[test]
fn slave_rejects_reserved_id() {
    let mut rx = Receiver::new(ProtocolVersion::V1);
    rx.feed(&[0xFF, 0xFF, 0xFF, 0x02, 0x01, 0xFC]);
    assert!(matches!(rx.poll(), RecvStep::NeedBytes(4)));
    assert_eq!(rx.buffered(), 3);
}

#[test]
fn slave_rejects_unknown_opcode() {
    // opcode 0x07 names no instruction; the checksum is right
    let mut rx = Receiver::new(ProtocolVersion::V1);
    rx.feed(&[0xFF, 0xFF, 0x01, 0x02, 0x07, 0xF5]);
    assert!(matches!(rx.poll(), RecvStep::NeedBytes(4)));
    assert_eq!(rx.buffered(), 3);
}

#[test]
fn opcode_bytes_round_trip() {
    for b in 0u8..=255 {
        if let Some(op) = Opcode::from_u8(b) {
            assert_eq!(op.to_u8(), b);
        }
    }
    assert_eq!(Opcode::from_u8(0x82), Some(Opcode::SyncRead));
    assert_eq!(Opcode::from_u8(0x07), None);
}

#[test]
fn slave_buffer_stays_bounded() {
    // a stream of bytes that keep looking like long frame headers
    let mut rx = Receiver::new(ProtocolVersion::V1);
    let mut fed = 0usize;
    for round in 0..200u32 {
        match rx.poll() {
            RecvStep::NeedBytes(n) => {
                assert!(rx.buffered() < n && n <= 259);
                let want = n - rx.buffered();
                let chunk: Vec<u8> = (0..want).map(|k| if (k as u32 + round) % 3 == 2 { 0x10 } else { 0xFF }).collect();
                fed += chunk.len();
                rx.feed(&chunk);
            }
            RecvStep::Instruction(i) => panic!("garbage delivered {:?}", i),
        }
        assert!(rx.buffered() <= 259);
    }
    assert!(fed > 259);
}

#[test]
fn slave_v2_need_is_bounded_by_longest_frame() {
    let mut rx = Receiver::new(ProtocolVersion::V2);
    rx.feed(&[0xFF, 0xFF, 0xFD, 0x00, 0x01, 0xFF, 0xFF]);
    assert!(matches!(rx.poll(), RecvStep::NeedBytes(65542)));
}

fn ins(version: ProtocolVersion, id: u8, opcode: Opcode, data: Vec<u8>) -> RawInstruction {
    RawInstruction { version, id, opcode, data }
}

#[test]
fn slave_serves_register_table() {
    let v = ProtocolVersion::V2;
    let mut table = vec![0u8; 256];
    assert_eq!(respond(&mut table, 10, &ins(v, 11, Opcode::Ping, vec![])), None);
    assert_eq!(respond(&mut table, 10, &ins(v, 10, Opcode::Ping, vec![])), Some((0, vec![0, 0, 0])));
    assert_eq!(
        respond(&mut table, 10, &ins(v, 10, Opcode::Write, vec![0x10, 0x00, 1, 2, 3])),
        Some((0, vec![]))
    );
    assert_eq!(&table[0x10..0x13], &[1, 2, 3]);
    assert_eq!(
        respond(&mut table, 10, &ins(v, 10, Opcode::Read, vec![0x11, 0x00, 0x02, 0x00])),
        Some((0, vec![2, 3]))
    );
    assert_eq!(respond(&mut table, 10, &ins(v, 10, Opcode::Read, vec![0xFF, 0x00, 0x02, 0x00])), None);
    assert_eq!(respond(&mut table, 10, &ins(v, 10, Opcode::Read, vec![0x11])), None);
    assert_eq!(respond(&mut table, 10, &ins(v, 10, Opcode::Reboot, vec![])), Some((0x40, vec![])));

    let v1 = ProtocolVersion::V1;
    assert_eq!(respond(&mut table, 10, &ins(v1, 10, Opcode::Ping, vec![])), Some((0, vec![])));
    assert_eq!(respond(&mut table, 10, &ins(v1, 10, Opcode::Write, vec![0x20, 9])), Some((0, vec![])));
    assert_eq!(respond(&mut table, 10, &ins(v1, 10, Opcode::Read, vec![0x20, 1])), Some((0, vec![9])));
}
