use dynamixel::codec::{
    decode_reply, decode_status, decode_status_v1, decode_status_v2, decode_status_v2_with_crc,
    encode_frame,
    encode_instruction, encode_instruction_v1, encode_instruction_v2, encode_status,
    OPCODE_PING, OPCODE_READ, OPCODE_WRITE,
};
use dynamixel::protocol::{ProtocolError, ProtocolVersion};

#[test]
fn encode_ping() {
    let reference: [u8; 6] = [0xFF, 0xFF, 0x01, 0x02, 0x01, 0xFB];
    let mut check: [u8; 6] = [0; 6];

    assert_eq!(
        encode_instruction(&mut check, 1, OPCODE_PING, &[]),
        check.len()
    );

    assert_eq!(reference, check);
}

#[test]
fn encode_read() {
    let reference: [u8; 8] = [0xFF, 0xFF, 0x01, 0x04, 0x02, 0x2B, 0x01, 0xCC];
    let mut check: [u8; 8] = [0; 8];

    assert_eq!(
        encode_instruction(&mut check, 1, OPCODE_READ, &[43, 1]),
        check.len()
    );

    assert_eq!(reference, check);
}

#[test]
fn decode_status_ping() {
    let reference: [u8; 6] = [0xFF, 0xFF, 0x01, 0x02, 0x00, 0xFC];
    let mut params: [u8; 0] = [];

    assert_eq!(
        decode_status(&reference, &mut params),
        Some(reference.len())
    );
}

#[test]
fn decode_status_read() {
    let reference: [u8; 7] = [0xFF, 0xFF, 0x01, 0x03, 0x00, 0x20, 0xDB];
    let mut params: [u8; 1] = [0; 1];

    assert_eq!(
        decode_status(&reference, &mut params),
        Some(reference.len())
    );

    assert_eq!(params, [32]);
}

/// Bitwise CRC-16/UMTS, independent of the library.
fn crc16_umts_reference(data: &[u8]) -> u16 {
    let mut crc: u16 = 0;
    for &b in data {
        crc ^= (b as u16) << 8;
        for _ in 0..8 {
            crc = if crc & 0x8000 != 0 { (crc << 1) ^ 0x8005 } else { crc << 1 };
        }
    }
    crc
}

fn sum8(bytes: &[u8]) -> u8 {
    bytes.iter().fold(0u8, |a, &b| a.wrapping_add(b))
}

#[test]
fn crc_reference_check_value() {
    assert_eq!(crc16_umts_reference(b"123456789"), 0xFEE8);
}

#[test]
fn encode_write_v2_scenario() {
    let mut buf = [0u8; 32];
    let params = [0x40, 0x00, 0x01, 0x02, 0x03, 0x04];
    let n = encode_instruction_v2(&mut buf, 5, OPCODE_WRITE, &params);
    assert_eq!(n, 16);
    assert_eq!(
        &buf[..n],
        &[
            0xFF, 0xFF, 0xFD, 0x00, 0x05, 0x09, 0x00, 0x03, 0x40, 0x00, 0x01, 0x02, 0x03, 0x04,
            0xB1, 0xF7
        ]
    );
    assert!(buf[n..].iter().all(|&b| b == 0));
}

#[test]
fn encode_ping_v2_matches_known_packet() {
    let frame = encode_frame(ProtocolVersion::V2, 1, OPCODE_PING, &[]);
    assert_eq!(frame, vec![0xFF, 0xFF, 0xFD, 0x00, 0x01, 0x03, 0x00, 0x01, 0x19, 0x4E]);
}

#[test]
fn encode_v1_leaves_rest_of_buffer() {
    let mut buf = [0xAAu8; 10];
    let n = encode_instruction_v1(&mut buf, 1, OPCODE_PING, &[]);
    assert_eq!(n, 6);
    assert_eq!(&buf[6..], &[0xAA; 4]);
}

#[test]
fn v1_checksum_complements_sum() {
    for params in [vec![], vec![1u8, 2, 3], vec![0xFF; 40]] {
        let frame = encode_frame(ProtocolVersion::V1, 7, OPCODE_WRITE, &params);
        let end = frame.len();
        assert_eq!(sum8(&frame[2..end - 1]).wrapping_add(frame[end - 1]), 0xFF);
    }
}

#[test]
fn v2_trailer_is_crc_of_frame() {
    for params in [vec![], vec![1u8, 2, 3], vec![0xFD; 300]] {
        let frame = encode_frame(ProtocolVersion::V2, 9, OPCODE_WRITE, &params);
        let end = frame.len();
        let trailer = u16::from_le_bytes([frame[end - 2], frame[end - 1]]);
        assert_eq!(crc16_umts_reference(&frame[..end - 2]), trailer);
    }
}

#[test]
fn decode_v1_bad_checksum() {
    let frame = [0xFF, 0xFF, 0x01, 0x02, 0x00, 0xFD];
    let mut params = [0u8; 4];
    assert_eq!(decode_status_v1(&frame, &mut params), Err(ProtocolError::BadPacket));
    assert_eq!(decode_status(&frame, &mut params), None);
}

#[test]
fn decode_v1_status_error() {
    // error byte 0x20 (overload), checksum recomputed
    let mut frame = vec![0xFF, 0xFF, 0x01, 0x02, 0x20];
    frame.push(!sum8(&frame[2..]));
    let mut params = [0u8; 4];
    assert_eq!(decode_status_v1(&frame, &mut params), Err(ProtocolError::StatusError(0x20)));
    assert_eq!(params, [0u8; 4]);
}

#[test]
fn decode_v1_framing_errors() {
    let mut params = [0u8; 8];
    assert_eq!(decode_status_v1(&[0xFF, 0xFF, 0x01], &mut params), Err(ProtocolError::BadPacket));
    assert_eq!(
        decode_status_v1(&[0xFF, 0xFF, 0x01, 0x01, 0x00, 0xFD], &mut params),
        Err(ProtocolError::BadPacket)
    );
    assert_eq!(
        decode_status_v1(&[0xFF, 0xFF, 0x01, 0x04, 0x00, 0xFA], &mut params),
        Err(ProtocolError::BadPacket)
    );
    assert_eq!(
        decode_status_v1(&[0xFE, 0xFF, 0x01, 0x02, 0x00, 0xFC], &mut params),
        Err(ProtocolError::BadPacket)
    );
}

#[test]
fn decode_v2_status_ok() {
    let frame = [
        0xFF, 0xFF, 0xFD, 0x00, 0x01, 0x07, 0x00, 0x55, 0x00, 0x06, 0x04, 0x26, 0x65, 0x5D,
    ];
    let mut params = [0u8; 5];
    assert_eq!(decode_status_v2(&frame, &mut params), Ok(14));
    assert_eq!(params, [0x06, 0x04, 0x26, 0, 0]);
}

#[test]
fn decode_v2_bad_crc_and_error() {
    let mut frame = vec![0xFF, 0xFF, 0xFD, 0x00, 0x01, 0x07, 0x00, 0x55, 0x00, 0x06, 0x04, 0x26, 0x65, 0x5C];
    let mut params = [0u8; 5];
    assert_eq!(decode_status_v2(&frame, &mut params), Err(ProtocolError::BadPacket));
    frame[8] = 0x80;
    let c = crc16_umts_reference(&frame[..12]).to_le_bytes();
    frame[12] = c[0];
    frame[13] = c[1];
    assert_eq!(decode_status_v2(&frame, &mut params), Err(ProtocolError::StatusError(0x80)));
    assert_eq!(decode_status_v2(&frame[..9], &mut params), Err(ProtocolError::BadPacket));
}

#[test]
fn status_round_trip_both_versions() {
    let params = [1u8, 2, 3, 4, 5];
    for v in [ProtocolVersion::V1, ProtocolVersion::V2] {
        let frame = encode_status(v, 3, 0, &params).unwrap();
        assert_eq!(decode_reply(v, &frame, params.len()), Ok(params.to_vec()));
    }
}

#[test]
fn encode_status_frames() {
    assert_eq!(
        encode_status(ProtocolVersion::V1, 1, 0, &[32]).unwrap(),
        vec![0xFF, 0xFF, 0x01, 0x03, 0x00, 0x20, 0xDB]
    );
    assert_eq!(
        encode_status(ProtocolVersion::V2, 5, 0, &[0xAA, 0xBB]).unwrap(),
        vec![0xFF, 0xFF, 0xFD, 0x00, 0x05, 0x06, 0x00, 0x55, 0x00, 0xAA, 0xBB, 0x15, 0xA0]
    );
    assert_eq!(
        encode_status(ProtocolVersion::V1, 1, 0, &[0u8; 254]),
        Err(ProtocolError::InvalidArg)
    );
    assert!(encode_status(ProtocolVersion::V1, 1, 0, &[0u8; 253]).is_ok());
}

#[test]
fn single_byte_change_is_detected_v1() {
    let frame = encode_status(ProtocolVersion::V1, 1, 0, &[10, 20, 30]).unwrap();
    for i in 0..frame.len() - 1 {
        if i == 3 {
            continue;
        }
        for delta in [1u8, 0x80, 0xFF] {
            let mut bad = frame.clone();
            bad[i] = bad[i].wrapping_add(delta);
            let mut params = [0u8; 8];
            assert_eq!(decode_status_v1(&bad, &mut params), Err(ProtocolError::BadPacket));
        }
    }
}

#[test]
fn length_byte_change_can_go_undetected_v1() {
    // Shortening the declared length can land on a byte that happens to be
    // a valid checksum for the shorter frame.
    let frame = [0xFF, 0xFF, 0x01, 0x03, 0x00, 0xFC, 0xFF];
    let mut params = [0u8; 4];
    assert_eq!(decode_status_v1(&frame, &mut params), Ok(7));
    let mut bad = frame;
    bad[3] = 0x02;
    assert_eq!(decode_status_v1(&bad, &mut params), Ok(6));
}

#[test]
fn decode_reply_pads_to_count() {
    let frame = [0xFF, 0xFF, 0x01, 0x03, 0x00, 0x20, 0xDB];
    assert_eq!(decode_reply(ProtocolVersion::V1, &frame, 3), Ok(vec![0x20, 0, 0]));
    assert_eq!(decode_reply(ProtocolVersion::V1, &frame, 0), Ok(vec![]));
}

#[test]
fn decode_v2_with_given_crc() {
    // the trailer reads 0x1234; only that CRC value is accepted
    let frame = [0xFF, 0xFF, 0xFD, 0x00, 0x01, 0x05, 0x00, 0x55, 0x00, 0x2A, 0x34, 0x12];
    let mut params = [0u8; 2];
    assert_eq!(decode_status_v2_with_crc(&frame, 0x1234, &mut params), Ok(12));
    assert_eq!(params, [0x2A, 0]);
    let mut params = [0u8; 2];
    assert_eq!(decode_status_v2_with_crc(&frame, 0x3412, &mut params), Err(ProtocolError::BadPacket));
    assert_eq!(params, [0, 0]);
    let mut err = frame;
    err[8] = 0x04;
    assert_eq!(decode_status_v2_with_crc(&err, 0x1234, &mut params), Err(ProtocolError::StatusError(4)));
    assert_eq!(decode_status_v2_with_crc(&frame[..11], 0x1234, &mut params), Err(ProtocolError::BadPacket));
}
