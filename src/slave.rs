//! The slave's receive state machine.
//!
//! A [`Receiver`] holds the bytes read so far. [`Receiver::poll`] scans them:
//! it drops one byte at a time until a valid instruction frame starts the
//! buffer, and either delivers that instruction or says how many bytes the
//! buffer must hold before scanning can go on. The caller performs the reads
//! (with their deadlines) and hands the bytes in with [`Receiver::feed`]; on a
//! read timeout it calls [`Receiver::clear`].

use vstd::prelude::*;

use crate::checksum::{
    checksum8, crc16_umts, crc16_umts_of, lemma_sum8_push, lemma_u16_le_split, sum8, sum8_range,
    u16_le,
};
use crate::codec::{body_v1, body_v2, frame, max_params};
use crate::opcode::{lemma_opcode_of_byte, opcode_byte, opcode_of, Opcode};
use crate::protocol::ProtocolVersion;

verus! {

/// One validated instruction, as the slave delivers it.
#[derive(Clone, Debug, PartialEq, Eq)]
pub struct RawInstruction {
    pub version: ProtocolVersion,
    pub id: u8,
    pub opcode: Opcode,
    pub data: Vec<u8>,
}

/// What a scan of the receive buffer ends with.
#[derive(Debug)]
pub enum RecvStep {
    /// The buffer must hold this many bytes before the scan can go on.
    NeedBytes(usize),
    /// A complete, valid instruction; its frame has left the buffer.
    Instruction(RawInstruction),
}

/// The bytes needed to know a frame's length.
pub open spec fn prefix_len(v: ProtocolVersion) -> nat {
    match v {
        ProtocolVersion::V1 => 4,
        ProtocolVersion::V2 => 7,
    }
}

/// The fixed header: `FF FF`, or `FF FF FD 00`.
pub open spec fn header_ok(v: ProtocolVersion, b: Seq<u8>) -> bool {
    match v {
        ProtocolVersion::V1 => b[0] == 0xFF && b[1] == 0xFF,
        ProtocolVersion::V2 => b[0] == 0xFF && b[1] == 0xFF && b[2] == 0xFD && b[3] == 0x00,
    }
}

pub open spec fn id_of(v: ProtocolVersion, b: Seq<u8>) -> u8 {
    match v {
        ProtocolVersion::V1 => b[2],
        ProtocolVersion::V2 => b[4],
    }
}

/// The declared length field.
pub open spec fn len_of(v: ProtocolVersion, b: Seq<u8>) -> nat {
    match v {
        ProtocolVersion::V1 => b[3] as nat,
        ProtocolVersion::V2 => u16_le(b[5], b[6]) as nat,
    }
}

/// The length of the whole frame that the length field declares.
pub open spec fn frame_len_of(v: ProtocolVersion, b: Seq<u8>) -> nat {
    prefix_len(v) + len_of(v, b)
}

pub open spec fn opcode_pos(v: ProtocolVersion) -> int {
    match v {
        ProtocolVersion::V1 => 4,
        ProtocolVersion::V2 => 7,
    }
}

/// The checksum (V1: id through checksum sums to `FF`) or the CRC (V2: the
/// CRC of all bytes before it equals its little-endian value) matches.
pub open spec fn check_ok(v: ProtocolVersion, b: Seq<u8>) -> bool {
    let len = len_of(v, b) as int;
    match v {
        ProtocolVersion::V1 => sum8(b.subrange(2, 4 + len)) == 0xFF,
        ProtocolVersion::V2 => crc16_umts(b.subrange(0, 5 + len)) == u16_le(
            b[5 + len],
            b[6 + len],
        ),
    }
}

/// The opcode slot value that marks a status (an echo of our own reply).
pub open spec fn status_marker(v: ProtocolVersion) -> Opcode {
    match v {
        ProtocolVersion::V1 => Opcode::StatusV1,
        ProtocolVersion::V2 => Opcode::StatusV2,
    }
}

/// The smallest length field that leaves room for the opcode and checksum.
pub open spec fn min_len(v: ProtocolVersion) -> nat {
    match v {
        ProtocolVersion::V1 => 2,
        ProtocolVersion::V2 => 3,
    }
}

/// The parameters of the frame at the start of `b`.
pub open spec fn data_of(v: ProtocolVersion, b: Seq<u8>) -> Seq<u8> {
    let len = len_of(v, b) as int;
    match v {
        ProtocolVersion::V1 => b.subrange(5, 3 + len),
        ProtocolVersion::V2 => b.subrange(8, 5 + len),
    }
}

/// What stays in the buffer after a delivery: V1 drops the frame, V2 drops
/// everything.
pub open spec fn after_delivery(v: ProtocolVersion, b: Seq<u8>) -> Seq<u8> {
    match v {
        ProtocolVersion::V1 => b.skip(frame_len_of(v, b) as int),
        ProtocolVersion::V2 => Seq::empty(),
    }
}

/// One decision of the scan on buffer `b`.
pub enum Step {
    Need(nat),
    Pop,
    Clear,
    Deliver(Opcode),
}

pub open spec fn step(v: ProtocolVersion, b: Seq<u8>) -> Step {
    if b.len() < prefix_len(v) {
        Step::Need(prefix_len(v))
    } else if !header_ok(v, b) || id_of(v, b) == 0xFF || len_of(v, b) == 0 {
        Step::Pop
    } else if b.len() < frame_len_of(v, b) {
        Step::Need(frame_len_of(v, b))
    } else if opcode_of(b[opcode_pos(v)]) is None {
        Step::Pop
    } else if !check_ok(v, b) {
        Step::Pop
    } else if opcode_of(b[opcode_pos(v)]) == Some(status_marker(v)) {
        Step::Clear
    } else if len_of(v, b) < min_len(v) {
        Step::Pop
    } else {
        Step::Deliver(opcode_of(b[opcode_pos(v)]).unwrap())
    }
}

/// Where a scan ends.
pub enum Scan {
    Need { rest: Seq<u8>, n: nat },
    Found { rest: Seq<u8>, id: u8, opcode: Opcode, data: Seq<u8> },
}

/// The scan of buffer `b`: steps until more bytes are needed or an
/// instruction is found.
pub open spec fn scan(v: ProtocolVersion, b: Seq<u8>) -> Scan
    decreases b.len(),
{
    match step(v, b) {
        Step::Need(n) => Scan::Need { rest: b, n },
        Step::Pop => if b.len() > 0 {
            scan(v, b.drop_first())
        } else {
            Scan::Need { rest: b, n: prefix_len(v) }
        },
        Step::Clear => Scan::Need { rest: Seq::empty(), n: prefix_len(v) },
        Step::Deliver(op) => Scan::Found {
            rest: after_delivery(v, b),
            id: id_of(v, b),
            opcode: op,
            data: data_of(v, b),
        },
    }
}

/// The receive buffer of one slave.
pub struct Receiver {
    version: ProtocolVersion,
    buf: std::collections::VecDeque<u8>,
}

/// The bytes `b[start..end]` of a deque, copied out.
fn copy_range(b: &std::collections::VecDeque<u8>, start: usize, end: usize) -> (r: Vec<u8>)
    requires
        start <= end <= b@.len(),
    ensures
        r@ == b@.subrange(start as int, end as int),
{
    let mut r: Vec<u8> = Vec::new();
    let mut i: usize = start;
    while i < end
        invariant
            start <= i <= end <= b@.len(),
            r@ == b@.subrange(start as int, i as int),
        decreases end - i,
    {
        r.push(b[i]);
        i = i + 1;
        assert(r@ =~= b@.subrange(start as int, i as int));
    }
    r
}

impl Receiver {
    pub closed spec fn version(&self) -> ProtocolVersion {
        self.version
    }

    /// The bytes held, oldest first.
    pub closed spec fn buffer(&self) -> Seq<u8> {
        self.buf@
    }

    /// An empty receiver for protocol `version`.
    pub fn new(version: ProtocolVersion) -> (r: Receiver)
        ensures
            r.version() == version,
            r.buffer() == Seq::<u8>::empty(),
    {
        Receiver { version, buf: std::collections::VecDeque::new() }
    }

    /// The number of bytes held.
    pub fn buffered(&self) -> (r: usize)
        ensures
            r == self.buffer().len(),
    {
        self.buf.len()
    }

    /// Appends bytes that were read.
    pub fn feed(&mut self, bytes: &[u8])
        ensures
            final(self).version() == old(self).version(),
            final(self).buffer() == old(self).buffer() + bytes@,
    {
        let mut i: usize = 0;
        while i < bytes.len()
            invariant
                0 <= i <= bytes@.len(),
                self.version == old(self).version,
                self.buf@ == old(self).buf@ + bytes@.subrange(0, i as int),
            decreases bytes@.len() - i,
        {
            self.buf.push_back(bytes[i]);
            i = i + 1;
            assert(self.buf@ =~= old(self).buf@ + bytes@.subrange(0, i as int));
        }
        assert(bytes@.subrange(0, bytes@.len() as int) =~= bytes@);
    }

    /// Drops every byte held (after a read timed out).
    pub fn clear(&mut self)
        ensures
            final(self).version() == old(self).version(),
            final(self).buffer() == Seq::<u8>::empty(),
    {
        self.buf.clear();
    }

    /// Scans the buffer: drops bytes that cannot start a valid frame, and
    /// either delivers the instruction at its start or says how many bytes
    /// it must hold for the scan to go on.
    pub fn poll(&mut self) -> (r: RecvStep)
        ensures
            final(self).version() == old(self).version(),
            match r {
                RecvStep::NeedBytes(n) => scan(old(self).version(), old(self).buffer())
                    == Scan::Need { rest: final(self).buffer(), n: n as nat },
                RecvStep::Instruction(i) => i.version == old(self).version() && scan(
                    old(self).version(),
                    old(self).buffer(),
                ) == (Scan::Found {
                    rest: final(self).buffer(),
                    id: i.id,
                    opcode: i.opcode,
                    data: i.data@,
                }),
            },
    {
        let v = self.version;
        let v1 = match v {
            ProtocolVersion::V1 => true,
            ProtocolVersion::V2 => false,
        };
        let h: usize = if v1 { 4 } else { 7 };
        loop
            invariant
                self.version == v,
                v == old(self).version,
                v1 == (v == ProtocolVersion::V1),
                h == prefix_len(v),
                scan(v, self.buf@) == scan(v, old(self).buf@),
            decreases self.buf@.len(),
        {
            let ghost b = self.buf@;
            let blen = self.buf.len();
            if blen < h {
                return RecvStep::NeedBytes(h);
            }
            let header = if v1 {
                self.buf[0] == 0xFF && self.buf[1] == 0xFF
            } else {
                self.buf[0] == 0xFF && self.buf[1] == 0xFF && self.buf[2] == 0xFD && self.buf[3]
                    == 0x00
            };
            let id = if v1 { self.buf[2] } else { self.buf[4] };
            let len: usize = if v1 {
                self.buf[3] as usize
            } else {
                self.buf[5] as usize + self.buf[6] as usize * 256
            };
            assert(len == len_of(v, b));
            if !header || id == 0xFF || len == 0 {
                self.buf.pop_front();
                assert(self.buf@ =~= b.drop_first());
                continue;
            }
            let flen = h + len;
            if blen < flen {
                return RecvStep::NeedBytes(flen);
            }
            let op_byte = if v1 { self.buf[4] } else { self.buf[7] };
            let op = Opcode::from_u8(op_byte);
            let opcode = match op {
                Some(o) => o,
                None => {
                    self.buf.pop_front();
                    assert(self.buf@ =~= b.drop_first());
                    continue;
                },
            };
            let ok = if v1 {
                let frame = copy_range(&self.buf, 0, flen);
                let s = sum8_range(frame.as_slice(), 2, 4 + len);
                assert(frame@.subrange(2, 4 + len) =~= b.subrange(2, 4 + len));
                s == 0xFF
            } else {
                let frame = copy_range(&self.buf, 0, 5 + len);
                let c = crc16_umts_of(frame.as_slice());
                c == self.buf[5 + len] as u16 + self.buf[6 + len] as u16 * 256
            };
            if !ok {
                self.buf.pop_front();
                assert(self.buf@ =~= b.drop_first());
                continue;
            }
            let status = if v1 {
                match opcode {
                    Opcode::StatusV1 => true,
                    _ => false,
                }
            } else {
                match opcode {
                    Opcode::StatusV2 => true,
                    _ => false,
                }
            };
            if status {
                self.buf.clear();
                return RecvStep::NeedBytes(h);
            }
            let min: usize = if v1 { 2 } else { 3 };
            if len < min {
                self.buf.pop_front();
                assert(self.buf@ =~= b.drop_first());
                continue;
            }
            let data = if v1 {
                copy_range(&self.buf, 5, 3 + len)
            } else {
                copy_range(&self.buf, 8, 5 + len)
            };
            if v1 {
                let rest = self.buf.split_off(flen);
                self.buf = rest;
                assert(self.buf@ =~= b.skip(flen as int));
            } else {
                self.buf.clear();
            }
            return RecvStep::Instruction(RawInstruction { version: v, id, opcode, data });
        }
    }
}

/// The longest frame a length field can declare.
pub open spec fn max_frame_len(v: ProtocolVersion) -> nat {
    match v {
        ProtocolVersion::V1 => 4 + 255,
        ProtocolVersion::V2 => 7 + 65535,
    }
}

/// The receive buffer stays bounded: whenever a scan stops for more bytes,
/// it holds fewer bytes than it asks for, and never asks for more than the
/// longest frame.
pub proof fn lemma_scan_need_bounded(v: ProtocolVersion, b: Seq<u8>)
    ensures
        match scan(v, b) {
            Scan::Need { rest, n } => rest.len() < n <= max_frame_len(v),
            Scan::Found { .. } => true,
        },
    decreases b.len(),
{
    if let Step::Pop = step(v, b) {
        if b.len() > 0 {
            lemma_scan_need_bounded(v, b.drop_first());
        }
    }
}

/// Decoding an encoded instruction frame gives back its id, opcode and
/// parameters, and leaves the buffer empty.
pub proof fn lemma_scan_delivers_frame(
    v: ProtocolVersion,
    id: u8,
    op: Opcode,
    params: Seq<u8>,
)
    requires
        id != 0xFF,
        op != status_marker(v),
        params.len() <= max_params(v),
    ensures
        scan(v, frame(v, id, opcode_byte(op), params)) == (Scan::Found {
            rest: Seq::empty(),
            id,
            opcode: op,
            data: params,
        }),
{
    let f = frame(v, id, opcode_byte(op), params);
    lemma_opcode_of_byte(op);
    match v {
        ProtocolVersion::V1 => {
            let body = body_v1(id, opcode_byte(op), params);
            assert(f.subrange(2, 4 + len_of(v, f) as int) =~= body.push(checksum8(body)));
            lemma_sum8_push(body, checksum8(body));
            assert(data_of(v, f) =~= params);
            assert(after_delivery(v, f) =~= Seq::<u8>::empty());
        },
        ProtocolVersion::V2 => {
            let body = body_v2(id, opcode_byte(op), params);
            lemma_u16_le_split((params.len() + 3) as u16);
            lemma_u16_le_split(crc16_umts(body));
            assert(len_of(v, f) == params.len() + 3);
            assert(f.subrange(0, 5 + len_of(v, f) as int) =~= body);
            assert(data_of(v, f) =~= params);
        },
    }
}

/// Where a register-table access starts and how many bytes it covers: a
/// read carries `address, size` (V1 one byte each, V2 two bytes each,
/// little-endian); a write carries the address and then the bytes to store.
pub open spec fn table_access(v: ProtocolVersion, op: Opcode, data: Seq<u8>) -> Option<(nat, nat)> {
    match (v, op) {
        (ProtocolVersion::V1, Opcode::Read) => if data.len() == 2 {
            Some((data[0] as nat, data[1] as nat))
        } else {
            None
        },
        (ProtocolVersion::V2, Opcode::Read) => if data.len() == 4 {
            Some((u16_le(data[0], data[1]) as nat, u16_le(data[2], data[3]) as nat))
        } else {
            None
        },
        (ProtocolVersion::V1, Opcode::Write) => if data.len() >= 2 {
            Some((data[0] as nat, (data.len() - 1) as nat))
        } else {
            None
        },
        (ProtocolVersion::V2, Opcode::Write) => if data.len() >= 3 {
            Some((u16_le(data[0], data[1]) as nat, (data.len() - 2) as nat))
        } else {
            None
        },
        _ => None,
    }
}

/// Where the bytes to store start in a write's data.
pub open spec fn write_offset(v: ProtocolVersion) -> int {
    match v {
        ProtocolVersion::V1 => 1,
        ProtocolVersion::V2 => 2,
    }
}

/// The error bit a slave reports for an instruction it does not support.
pub const INSTRUCTION_ERROR: u8 = 0x40;

/// The status a slave with id `my_id` and register table `table` sends for
/// instruction `(v, id, op, data)`, as `(error, params)`: none for another
/// id or a malformed or out-of-range access; ping answers (V2 with its three
/// model and firmware bytes, zero here); read answers the table bytes; write
/// answers empty; any other instruction answers the instruction error.
pub open spec fn answer(
    v: ProtocolVersion,
    table: Seq<u8>,
    my_id: u8,
    id: u8,
    op: Opcode,
    data: Seq<u8>,
) -> Option<(u8, Seq<u8>)> {
    if id != my_id {
        None
    } else {
        match op {
            Opcode::Ping => Some(
                (
                    0u8,
                    match v {
                        ProtocolVersion::V1 => Seq::<u8>::empty(),
                        ProtocolVersion::V2 => seq![0u8, 0u8, 0u8],
                    },
                ),
            ),
            Opcode::Read | Opcode::Write => match table_access(v, op, data) {
                Some((a, n)) => if a + n > table.len() {
                    None
                } else if op == Opcode::Read {
                    Some((0u8, table.subrange(a as int, (a + n) as int)))
                } else {
                    Some((0u8, Seq::<u8>::empty()))
                },
                None => None,
            },
            _ => Some((INSTRUCTION_ERROR, Seq::<u8>::empty())),
        }
    }
}

/// The register table after the instruction: a write that is answered
/// stores its bytes; everything else leaves the table as it was.
pub open spec fn table_after(
    v: ProtocolVersion,
    table: Seq<u8>,
    my_id: u8,
    id: u8,
    op: Opcode,
    data: Seq<u8>,
) -> Seq<u8> {
    if op == Opcode::Write && answer(v, table, my_id, id, op, data) is Some {
        let (a, n) = table_access(v, op, data).unwrap();
        table.subrange(0, a as int) + data.subrange(write_offset(v), data.len() as int)
            + table.subrange((a + n) as int, table.len() as int)
    } else {
        table
    }
}

/// Serves one instruction against the register table `table` of the slave
/// with id `my_id`: returns the status to send, if any, as `(error, params)`.
pub fn respond(table: &mut Vec<u8>, my_id: u8, ins: &RawInstruction) -> (r: Option<(u8, Vec<u8>)>)
    ensures
        match answer(ins.version, old(table)@, my_id, ins.id, ins.opcode, ins.data@) {
            Some((e, d)) => r is Some && r->Some_0.0 == e && r->Some_0.1@ == d,
            None => r is None,
        },
        final(table)@ == table_after(ins.version, old(table)@, my_id, ins.id, ins.opcode, ins.data@),
{
    if ins.id != my_id {
        return None;
    }
    let v1 = match ins.version {
        ProtocolVersion::V1 => true,
        ProtocolVersion::V2 => false,
    };
    let data = &ins.data;
    match ins.opcode {
        Opcode::Ping => {
            let mut params: Vec<u8> = Vec::new();
            if !v1 {
                params.push(0);
                params.push(0);
                params.push(0);
            }
            assert(params@ =~= (match ins.version {
                ProtocolVersion::V1 => Seq::<u8>::empty(),
                ProtocolVersion::V2 => seq![0u8, 0u8, 0u8],
            }));
            Some((0, params))
        },
        Opcode::Read => {
            let (a, n): (usize, usize) = if v1 {
                if data.len() != 2 {
                    return None;
                }
                (data[0] as usize, data[1] as usize)
            } else {
                if data.len() != 4 {
                    return None;
                }
                (data[0] as usize + data[1] as usize * 256, data[2] as usize + data[3] as usize * 256)
            };
            if n > table.len() || a > table.len() - n {
                return None;
            }
            let end = a + n;
            let mut out: Vec<u8> = Vec::new();
            let mut k: usize = a;
            while k < end
                invariant
                    end == a + n,
                    a <= k <= a + n <= table@.len(),
                    out@ == table@.subrange(a as int, k as int),
                decreases a + n - k,
            {
                out.push(table[k]);
                k = k + 1;
                assert(out@ =~= table@.subrange(a as int, k as int));
            }
            Some((0, out))
        },
        Opcode::Write => {
            let off: usize = if v1 { 1 } else { 2 };
            if data.len() < off + 1 {
                return None;
            }
            let a: usize = if v1 { data[0] as usize } else { data[0] as usize + data[1] as usize * 256 };
            let dlen = data.len();
            let n: usize = dlen - off;
            let tlen = table.len();
            if n > tlen || a > tlen - n {
                return None;
            }
            let ghost t0 = table@;
            let mut k: usize = 0;
            while k < n
                invariant
                    off == write_offset(ins.version),
                    n == data@.len() - off,
                    dlen == data@.len(),
                    a + n <= tlen,
                    tlen == table@.len(),
                    table@.len() == t0.len(),
                    0 <= k <= n,
                    forall|j: int| 0 <= j < a || a + n <= j < t0.len() ==> table@[j] == t0[j],
                    forall|j: int| a <= j < a + k ==> table@[j] == data@[off + j - a],
                decreases n - k,
            {
                table.set(a + k, data[off + k]);
                k = k + 1;
            }
            assert(table@ =~= t0.subrange(0, a as int) + data@.subrange(off as int, data@.len() as int)
                + t0.subrange(a + n, t0.len() as int));
            Some((0, Vec::new()))
        },
        _ => {
            proof {
                assert(ins.opcode != Opcode::Write);
            }
            Some((INSTRUCTION_ERROR, Vec::new()))
        },
    }
}

} // verus!
