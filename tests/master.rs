use dynamixel::codec::{OPCODE_PING, OPCODE_READ, OPCODE_SYNC_READ, OPCODE_WRITE};
use dynamixel::master::{reply_len, responders, settle, sync_read_step};
use std::collections::VecDeque;

use dynamixel::codec::encode_status;
use dynamixel::master::{Master, Recorder, Transport};
use dynamixel::protocol::{ProtocolError, ProtocolVersion};

/// An in-memory bus: records what is written and answers reads from a
/// script of replies.
struct Pipe {
    written: Vec<Vec<u8>>,
    replies: VecDeque<Result<Vec<u8>, ProtocolError>>,
    reads: Vec<usize>,
}

impl Pipe {
    fn new(replies: Vec<Result<Vec<u8>, ProtocolError>>) -> Pipe {
        Pipe { written: Vec::new(), replies: replies.into(), reads: Vec::new() }
    }
}

impl Transport for Pipe {
    fn write_all(&mut self, bytes: &[u8]) -> Result<(), ProtocolError> {
        self.written.push(bytes.to_vec());
        Ok(())
    }

    fn read_exact(&mut self, n: usize) -> Result<Vec<u8>, ProtocolError> {
        self.reads.push(n);
        match self.replies.pop_front() {
            Some(Ok(mut b)) => {
                b.resize(n, 0);
                Ok(b)
            }
            Some(Err(e)) => Err(e),
            None => Err(ProtocolError::TimedOut),
        }
    }
}

fn status(v: ProtocolVersion, id: u8, params: &[u8]) -> Vec<u8> {
    encode_status(v, id, 0, params).unwrap()
}

#[test]
fn master_read_v1_returns_count_bytes() {
    let mut pipe = Recorder::new(Pipe::new(vec![Ok(status(ProtocolVersion::V1, 1, &[32]))]));
    let m = Master::new(ProtocolVersion::V1, 0);
    assert_eq!(m.read(&mut pipe, 1, 0x2B, 1), Ok(vec![32]));
    assert_eq!(pipe.port.written, vec![vec![0xFF, 0xFF, 0x01, 0x04, 0x02, 0x2B, 0x01, 0xCC]]);
    assert_eq!(pipe.port.reads, vec![7]);
}

#[test]
fn master_read_v1_limits_before_io() {
    let mut pipe = Recorder::new(Pipe::new(vec![]));
    let m = Master::new(ProtocolVersion::V1, 3);
    assert_eq!(m.read(&mut pipe, 1, 0xFF, 1), Err(ProtocolError::InvalidAddress));
    assert_eq!(m.read(&mut pipe, 1, 0x10, 0x100), Err(ProtocolError::InvalidCount));
    assert_eq!(m.write(&mut pipe, 1, 0x100, &[1]), Err(ProtocolError::InvalidAddress));
    assert!(pipe.port.written.is_empty());
}

#[test]
fn master_read_v2() {
    let mut pipe = Recorder::new(Pipe::new(vec![Ok(status(ProtocolVersion::V2, 7, &[0x10, 0x20, 0x30, 0x40]))]));
    let m = Master::new(ProtocolVersion::V2, 0);
    assert_eq!(m.read(&mut pipe, 7, 0x84, 4), Ok(vec![0x10, 0x20, 0x30, 0x40]));
    assert_eq!(pipe.port.reads, vec![15]);
    assert_eq!(&pipe.port.written[0][..10], &[0xFF, 0xFF, 0xFD, 0x00, 0x07, 0x07, 0x00, 0x02, 0x84, 0x00]);
}

#[test]
fn master_retry_succeeds_within_budget() {
    for retries in 0..4usize {
        for k in 0..5usize {
            let mut replies: Vec<Result<Vec<u8>, ProtocolError>> =
                (0..k).map(|_| Err(ProtocolError::TimedOut)).collect();
            replies.push(Ok(status(ProtocolVersion::V1, 1, &[9])));
            let mut pipe = Recorder::new(Pipe::new(replies));
            let m = Master::new(ProtocolVersion::V1, retries);
            let r = m.read(&mut pipe, 1, 0x24, 1);
            assert_eq!(r.is_ok(), k <= retries, "k={} retries={}", k, retries);
            assert_eq!(pipe.port.written.len(), std::cmp::min(k, retries) + 1);
        }
    }
}

#[test]
fn master_returns_last_error() {
    let mut bad = status(ProtocolVersion::V1, 1, &[]);
    bad[5] ^= 0xFF;
    let mut pipe = Recorder::new(Pipe::new(vec![Err(ProtocolError::TimedOut), Ok(bad)]));
    let m = Master::new(ProtocolVersion::V1, 1);
    assert_eq!(m.ping(&mut pipe, 1), Err(ProtocolError::BadPacket));
}

#[test]
fn master_device_error_is_surfaced() {
    let reply = encode_status(ProtocolVersion::V2, 1, 0x02, &[]).unwrap();
    let mut pipe = Recorder::new(Pipe::new(vec![Ok(reply)]));
    let m = Master::new(ProtocolVersion::V2, 0);
    assert_eq!(m.write(&mut pipe, 1, 0x40, &[1]), Err(ProtocolError::StatusError(0x02)));
}

#[test]
fn master_write_v1_frame() {
    let mut pipe = Recorder::new(Pipe::new(vec![Ok(status(ProtocolVersion::V1, 1, &[]))]));
    let m = Master::new(ProtocolVersion::V1, 0);
    assert_eq!(m.write(&mut pipe, 1, 0x19, &[1]), Ok(()));
    assert_eq!(pipe.port.written, vec![vec![0xFF, 0xFF, 0x01, 0x04, 0x03, 0x19, 0x01, 0xDD]]);
    assert_eq!(pipe.port.reads, vec![6]);
}

#[test]
fn master_ping_v2_reads_fourteen_bytes() {
    let mut pipe = Recorder::new(Pipe::new(vec![Ok(status(ProtocolVersion::V2, 1, &[0x06, 0x04, 0x26]))]));
    let m = Master::new(ProtocolVersion::V2, 0);
    assert_eq!(m.ping(&mut pipe, 1), Ok(()));
    assert_eq!(pipe.port.written, vec![vec![0xFF, 0xFF, 0xFD, 0x00, 0x01, 0x03, 0x00, 0x01, 0x19, 0x4E]]);
    assert_eq!(pipe.port.reads, vec![14]);
}

#[test]
fn master_scan_collects_responders() {
    // ids 3, 4, 5: 3 times out, 4 answers, 5 answers after one retry
    let replies = vec![
        Err(ProtocolError::TimedOut),
        Err(ProtocolError::TimedOut),
        Ok(status(ProtocolVersion::V1, 4, &[])),
        Err(ProtocolError::TimedOut),
        Ok(status(ProtocolVersion::V1, 5, &[])),
    ];
    let mut pipe = Recorder::new(Pipe::new(replies));
    let m = Master::new(ProtocolVersion::V1, 1);
    assert_eq!(m.scan(&mut pipe, 3, 6), Ok(vec![4, 5]));
    let mut empty = Recorder::new(Pipe::new(vec![]));
    assert_eq!(m.scan(&mut empty, 6, 3), Ok(vec![]));
}

#[test]
fn master_sync_read_order_and_lengths() {
    let replies = vec![
        Ok(status(ProtocolVersion::V2, 1, &[1, 2])),
        Ok(status(ProtocolVersion::V2, 2, &[3, 4])),
        Ok(status(ProtocolVersion::V2, 3, &[5, 6])),
    ];
    let mut pipe = Recorder::new(Pipe::new(replies));
    let m = Master::new(ProtocolVersion::V2, 0);
    let r = m.sync_read(&mut pipe, &[1, 2, 3], 0x84, 2).unwrap();
    assert_eq!(r, vec![vec![1, 2], vec![3, 4], vec![5, 6]]);
    assert_eq!(pipe.port.reads, vec![13, 13, 13]);
    assert_eq!(
        &pipe.port.written[0][..15],
        &[0xFF, 0xFF, 0xFD, 0x00, 0xFE, 0x0A, 0x00, 0x82, 0x84, 0x00, 0x02, 0x00, 1, 2, 3]
    );
}

#[test]
fn master_sync_read_one_failure_fails_all() {
    let replies = vec![Ok(status(ProtocolVersion::V2, 1, &[1, 2])), Err(ProtocolError::TimedOut)];
    let mut pipe = Recorder::new(Pipe::new(replies));
    let m = Master::new(ProtocolVersion::V2, 0);
    assert_eq!(m.sync_read(&mut pipe, &[1, 2], 0x84, 2), Err(ProtocolError::TimedOut));
}

#[test]
fn master_sync_write_frame_and_errors() {
    let m = Master::new(ProtocolVersion::V2, 0);
    let mut pipe = Recorder::new(Pipe::new(vec![]));
    let data = vec![vec![0x01u8, 0x00], vec![0x02, 0x00]];
    assert_eq!(m.sync_write(&mut pipe, &[1, 2], 0x74, &data), Ok(()));
    assert!(pipe.port.reads.is_empty());
    assert_eq!(
        &pipe.port.written[0][..16],
        &[0xFF, 0xFF, 0xFD, 0x00, 0xFE, 0x0D, 0x00, 0x83, 0x74, 0x00, 0x02, 0x00, 1, 1, 0, 2]
    );
    assert_eq!(
        m.sync_write(&mut pipe, &[1, 2, 3], 0x74, &data),
        Err(ProtocolError::InvalidArg)
    );
    let uneven = vec![vec![0x01u8, 0x00], vec![0x02]];
    assert_eq!(m.sync_write(&mut pipe, &[1, 2], 0x74, &uneven), Err(ProtocolError::InvalidArg));
    let v1 = Master::new(ProtocolVersion::V1, 0);
    assert_eq!(v1.sync_write(&mut pipe, &[1, 2], 0x74, &data), Err(ProtocolError::InvalidArg));
    assert_eq!(v1.sync_read(&mut pipe, &[1, 2], 0x74, 2), Err(ProtocolError::InvalidArg));
    assert_eq!(pipe.port.written.len(), 1);
}

#[test]
fn retry_decision() {
    assert_eq!(settle(0, Ok::<u8, ProtocolError>(5)), Some(Ok(5)));
    assert_eq!(settle(3, Ok::<u8, ProtocolError>(5)), Some(Ok(5)));
    assert_eq!(settle::<u8>(0, Err(ProtocolError::TimedOut)), Some(Err(ProtocolError::TimedOut)));
    assert_eq!(settle::<u8>(2, Err(ProtocolError::TimedOut)), None);
}

#[test]
fn master_write_fails_after_all_attempts() {
    let replies = vec![Err(ProtocolError::TimedOut), Err(ProtocolError::Io), Err(ProtocolError::BadPacket)];
    let mut pipe = Recorder::new(Pipe::new(replies));
    let m = Master::new(ProtocolVersion::V1, 2);
    assert_eq!(m.write(&mut pipe, 1, 0x19, &[1]), Err(ProtocolError::BadPacket));
    assert_eq!(pipe.port.written.len(), 3);
}

#[test]
fn reply_lengths() {
    assert_eq!(reply_len(ProtocolVersion::V1, OPCODE_PING, 0), 6);
    assert_eq!(reply_len(ProtocolVersion::V1, OPCODE_READ, 4), 10);
    assert_eq!(reply_len(ProtocolVersion::V1, OPCODE_WRITE, 0), 6);
    assert_eq!(reply_len(ProtocolVersion::V2, OPCODE_PING, 0), 14);
    assert_eq!(reply_len(ProtocolVersion::V2, OPCODE_READ, 4), 15);
    assert_eq!(reply_len(ProtocolVersion::V2, OPCODE_WRITE, 0), 11);
    assert_eq!(reply_len(ProtocolVersion::V2, OPCODE_SYNC_READ, 2), 13);
}

#[test]
fn scan_responders() {
    assert_eq!(responders(3, &[false, true, true, false]), vec![4, 5]);
    assert_eq!(responders(250, &[true, false, false, false, false, true]), vec![250, 255]);
    assert_eq!(responders(0, &[]), Vec::<u8>::new());
}

#[test]
fn sync_read_blocks_in_reply_order() {
    let mut out: Vec<Vec<u8>> = Vec::new();
    assert_eq!(sync_read_step(&mut out, &status(ProtocolVersion::V2, 1, &[7, 8]), 2), Ok(()));
    assert_eq!(sync_read_step(&mut out, &status(ProtocolVersion::V2, 2, &[9, 10]), 2), Ok(()));
    assert_eq!(out, vec![vec![7, 8], vec![9, 10]]);
    let bad = encode_status(ProtocolVersion::V2, 3, 0x01, &[0, 0]).unwrap();
    assert_eq!(sync_read_step(&mut out, &bad, 2), Err(ProtocolError::StatusError(1)));
    assert_eq!(out.len(), 2);
}
