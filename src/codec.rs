//! Encoding of instruction frames and decoding of status frames, for both
//! protocol versions.
//!
//! Protocol 1: `FF FF | id | len | opcode | params | checksum`, with
//! `len = 2 + |params|` and the checksum the complemented 8-bit sum of the
//! bytes from `id` through the last parameter.
//!
//! Protocol 2: `FF FF FD 00 | id | len_lo len_hi | opcode | params | crc_lo crc_hi`,
//! with `len = 3 + |params|` and the CRC-16/UMTS of every byte before it.

use vstd::prelude::*;

use crate::checksum::{checksum8, crc16_umts, crc16_umts_of, hi8, lo8, sum8, sum8_range, u16_le};
use crate::protocol::{ProtocolError, ProtocolVersion};

verus! {

pub const OPCODE_PING: u8 = 0x01;

pub const OPCODE_READ: u8 = 0x02;

pub const OPCODE_WRITE: u8 = 0x03;

pub const OPCODE_SYNC_READ: u8 = 0x82;

pub const OPCODE_SYNC_WRITE: u8 = 0x83;

/// The id that every device on the bus accepts.
pub const BROADCAST_ID: u8 = 0xFE;

/// Marker byte that stands before the error byte of a Protocol 2 status.
pub const STATUS_MARKER_V2: u8 = 0x55;

/// The part of a Protocol 1 frame that the checksum covers.
pub open spec fn body_v1(id: u8, op: u8, params: Seq<u8>) -> Seq<u8> {
    seq![id, (params.len() + 2) as u8, op] + params
}

/// The Protocol 1 frame for `(id, op, params)`.
pub open spec fn frame_v1(id: u8, op: u8, params: Seq<u8>) -> Seq<u8> {
    seq![0xFFu8, 0xFFu8] + body_v1(id, op, params) + seq![checksum8(body_v1(id, op, params))]
}

/// What decoding a Protocol 1 status frame at the start of `b` gives: the
/// frame's length, `BadPacket` for a framing or checksum failure, or the
/// device's non-zero error byte.
pub open spec fn status_v1_result(b: Seq<u8>) -> Result<usize, ProtocolError> {
    if b.len() < 6 || b[3] < 2 || b.len() < b[3] + 4 || b[0] != 0xFF || b[1] != 0xFF
        || checksum8(b.subrange(2, b[3] + 3)) != b[b[3] + 3] {
        Err(ProtocolError::BadPacket)
    } else if b[4] != 0 {
        Err(ProtocolError::StatusError(b[4]))
    } else {
        Ok((b[3] + 4) as usize)
    }
}

/// The parameters of the Protocol 1 status frame at the start of `b`.
pub open spec fn params_v1(b: Seq<u8>) -> Seq<u8> {
    b.subrange(5, b[3] + 3)
}

/// Writes the Protocol 1 frame for `(id, instruction, params)` at the start
/// of `buffer` and returns its length; the rest of `buffer` is left as it was.
pub fn encode_instruction_v1(buffer: &mut [u8], id: u8, instruction: u8, params: &[u8]) -> (n:
    usize)
    requires
        params@.len() + 6 <= old(buffer)@.len(),
    ensures
        n == params@.len() + 6,
        final(buffer)@.len() == old(buffer)@.len(),
        final(buffer)@.subrange(0, n as int) == frame_v1(id, instruction, params@),
        final(buffer)@.subrange(n as int, final(buffer)@.len() as int) == old(buffer)@.subrange(
            n as int,
            old(buffer)@.len() as int,
        ),
{
    let plen = params.len();
    let blen = buffer.len();
    let length: u8 = #[verifier::truncate] ((2 + plen) as u8);
    buffer[0] = 0xFF;
    buffer[1] = 0xFF;
    buffer[2] = id;
    buffer[3] = length;
    buffer[4] = instruction;
    let mut i: usize = 0;
    while i < plen
        invariant
            plen == params@.len(),
            plen + 6 <= blen,
            buffer@.len() == blen,
            blen == old(buffer)@.len(),
            0 <= i <= plen,
            buffer@[0] == 0xFF,
            buffer@[1] == 0xFF,
            buffer@[2] == id,
            buffer@[3] == length,
            buffer@[4] == instruction,
            forall|k: int| 0 <= k < i ==> buffer@[5 + k] == params@[k],
            forall|k: int| 5 + plen <= k < buffer@.len() ==> buffer@[k] == old(buffer)@[k],
        decreases plen - i,
    {
        buffer[5 + i] = params[i];
        i = i + 1;
    }
    let s = sum8_range(buffer, 2, 5 + plen);
    assert(buffer@.subrange(2, 5 + plen) =~= body_v1(id, instruction, params@));
    buffer[5 + plen] = (0xFF - s) as u8;
    proof {
        assert(buffer@.subrange(0, 6 + plen) =~= frame_v1(id, instruction, params@));
        assert(buffer@.subrange(6 + plen, buffer@.len() as int) =~= old(buffer)@.subrange(
            6 + plen,
            old(buffer)@.len() as int,
        ));
    }
    6 + plen
}

/// Decodes the Protocol 1 status frame at the start of `buffer`. On success
/// its parameters are copied to the start of `params` and the frame's length
/// is returned; on failure `params` is left as it was.
pub fn decode_status_v1(buffer: &[u8], params: &mut [u8]) -> (r: Result<usize, ProtocolError>)
    requires
        status_v1_result(buffer@) is Ok ==> old(params)@.len() + 2 >= buffer@[3],
    ensures
        r == status_v1_result(buffer@),
        r is Ok ==> final(params)@ == params_v1(buffer@) + old(params)@.subrange(
            buffer@[3] - 2,
            old(params)@.len() as int,
        ),
        r is Err ==> final(params)@ == old(params)@,
{
    let blen = buffer.len();
    if blen < 6 || buffer[3] < 2 {
        return Err(ProtocolError::BadPacket);
    }
    let plen: usize = (buffer[3] - 2) as usize;
    if buffer.len() < 6 + plen || buffer[0] != 0xFF || buffer[1] != 0xFF {
        return Err(ProtocolError::BadPacket);
    }
    let s = sum8_range(buffer, 2, 5 + plen);
    if (0xFF - s) as u8 != buffer[5 + plen] {
        return Err(ProtocolError::BadPacket);
    }
    if buffer[4] != 0 {
        return Err(ProtocolError::StatusError(buffer[4]));
    }
    let ghost old_params = params@;
    let mut i: usize = 0;
    while i < plen
        invariant
            plen + 6 <= blen,
            blen == buffer@.len(),
            plen <= params@.len(),
            params@.len() == old_params.len(),
            0 <= i <= plen,
            forall|k: int| 0 <= k < i ==> params@[k] == buffer@[5 + k],
            forall|k: int| i <= k < params@.len() ==> params@[k] == old_params[k],
        decreases plen - i,
    {
        params[i] = buffer[5 + i];
        i = i + 1;
    }
    assert(params@ =~= params_v1(buffer@) + old_params.subrange(plen as int, old_params.len() as int));
    Ok(6 + plen)
}

/// Writes the Protocol 1 instruction frame at the start of `buffer` and
/// returns its length.
pub fn encode_instruction(buffer: &mut [u8], id: u8, instruction: u8, params: &[u8]) -> (n: usize)
    requires
        params@.len() + 6 <= old(buffer)@.len(),
    ensures
        n == params@.len() + 6,
        final(buffer)@.len() == old(buffer)@.len(),
        final(buffer)@.subrange(0, n as int) == frame_v1(id, instruction, params@),
        final(buffer)@.subrange(n as int, final(buffer)@.len() as int) == old(buffer)@.subrange(
            n as int,
            old(buffer)@.len() as int,
        ),
{
    encode_instruction_v1(buffer, id, instruction, params)
}

/// Decodes the Protocol 1 status frame at the start of `buffer`, copying its
/// parameters to `params`; `None` for any failure, a device error included.
pub fn decode_status(buffer: &[u8], params: &mut [u8]) -> (r: Option<usize>)
    requires
        status_v1_result(buffer@) is Ok ==> old(params)@.len() + 2 >= buffer@[3],
    ensures
        match status_v1_result(buffer@) {
            Ok(n) => r == Some(n) && final(params)@ == params_v1(buffer@) + old(params)@.subrange(
                buffer@[3] - 2,
                old(params)@.len() as int,
            ),
            Err(_) => r is None && final(params)@ == old(params)@,
        },
{
    match decode_status_v1(buffer, params) {
        Ok(n) => Some(n),
        Err(_) => None,
    }
}

/// The part of a Protocol 2 frame that the CRC covers.
pub open spec fn body_v2(id: u8, op: u8, params: Seq<u8>) -> Seq<u8> {
    let len = (params.len() + 3) as u16;
    seq![0xFFu8, 0xFFu8, 0xFDu8, 0x00u8, id, lo8(len), hi8(len), op] + params
}

/// The Protocol 2 frame for `(id, op, params)`.
pub open spec fn frame_v2(id: u8, op: u8, params: Seq<u8>) -> Seq<u8> {
    let b = body_v2(id, op, params);
    b + seq![lo8(crc16_umts(b)), hi8(crc16_umts(b))]
}

/// The length field of the Protocol 2 frame at the start of `b`.
pub open spec fn len_field_v2(b: Seq<u8>) -> int {
    u16_le(b[5], b[6]) as int
}

/// Whether the framing of the Protocol 2 status at the start of `b` is
/// sound: long enough, a length field of at least 4, the header in place.
pub open spec fn framing_ok_v2(b: Seq<u8>) -> bool {
    b.len() >= 10 && len_field_v2(b) >= 4 && b.len() >= len_field_v2(b) + 7 && b[0] == 0xFF
        && b[1] == 0xFF && b[2] == 0xFD && b[3] == 0x00
}

/// The bytes of the Protocol 2 status at the start of `b` that its CRC covers.
pub open spec fn crc_range_v2(b: Seq<u8>) -> Seq<u8> {
    b.subrange(0, len_field_v2(b) + 5)
}

/// What decoding the Protocol 2 status frame at the start of `b` gives when
/// `crc` is the CRC of the bytes before its trailer. The frame is
/// `FF FF FD 00 | id | len | 55 | error | params | crc`, with
/// `len = 4 + |params|`.
pub open spec fn status_v2_result_with(b: Seq<u8>, crc: u16) -> Result<usize, ProtocolError> {
    if !framing_ok_v2(b) {
        Err(ProtocolError::BadPacket)
    } else {
        let len = len_field_v2(b);
        if b[len + 5] != lo8(crc) || b[len + 6] != hi8(crc) {
            Err(ProtocolError::BadPacket)
        } else if b[8] != 0 {
            Err(ProtocolError::StatusError(b[8]))
        } else {
            Ok((len + 7) as usize)
        }
    }
}

/// What decoding a Protocol 2 status frame at the start of `b` gives.
pub open spec fn status_v2_result(b: Seq<u8>) -> Result<usize, ProtocolError> {
    status_v2_result_with(b, crc16_umts(crc_range_v2(b)))
}

/// The parameters of the Protocol 2 status frame at the start of `b`.
pub open spec fn params_v2(b: Seq<u8>) -> Seq<u8> {
    b.subrange(9, len_field_v2(b) + 5)
}

/// Writes the Protocol 2 frame for `(id, instruction, params)` at the start
/// of `buffer` and returns its length; the rest of `buffer` is left as it was.
pub fn encode_instruction_v2(buffer: &mut [u8], id: u8, instruction: u8, params: &[u8]) -> (n:
    usize)
    requires
        params@.len() + 10 <= old(buffer)@.len(),
    ensures
        n == params@.len() + 10,
        final(buffer)@.len() == old(buffer)@.len(),
        final(buffer)@.subrange(0, n as int) == frame_v2(id, instruction, params@),
        final(buffer)@.subrange(n as int, final(buffer)@.len() as int) == old(buffer)@.subrange(
            n as int,
            old(buffer)@.len() as int,
        ),
{
    let plen = params.len();
    let blen = buffer.len();
    let length: u16 = #[verifier::truncate] ((3 + plen) as u16);
    buffer[0] = 0xFF;
    buffer[1] = 0xFF;
    buffer[2] = 0xFD;
    buffer[3] = 0x00;
    buffer[4] = id;
    buffer[5] = (length % 256) as u8;
    buffer[6] = (length / 256) as u8;
    buffer[7] = instruction;
    let mut i: usize = 0;
    while i < plen
        invariant
            plen == params@.len(),
            plen + 10 <= blen,
            buffer@.len() == blen,
            blen == old(buffer)@.len(),
            0 <= i <= plen,
            buffer@.subrange(0, 8) == seq![0xFFu8, 0xFFu8, 0xFDu8, 0x00u8, id, lo8(length), hi8(length), instruction],
            forall|k: int| 0 <= k < i ==> buffer@[8 + k] == params@[k],
            forall|k: int| 8 + plen <= k < buffer@.len() ==> buffer@[k] == old(buffer)@[k],
        decreases plen - i,
    {
        proof {
            assert(buffer@.subrange(0, 8) =~= seq![0xFFu8, 0xFFu8, 0xFDu8, 0x00u8, id, lo8(length), hi8(length), instruction]);
        }
        buffer[8 + i] = params[i];
        proof {
            assert(buffer@.subrange(0, 8) =~= seq![0xFFu8, 0xFFu8, 0xFDu8, 0x00u8, id, lo8(length), hi8(length), instruction]);
        }
        i = i + 1;
    }
    assert(buffer@.subrange(0, 8 + plen) =~= body_v2(id, instruction, params@));
    let c = crc16_umts_of(&buffer[0..8 + plen]);
    buffer[8 + plen] = (c % 256) as u8;
    buffer[9 + plen] = (c / 256) as u8;
    proof {
        assert(buffer@.subrange(0, 10 + plen) =~= frame_v2(id, instruction, params@));
        assert(buffer@.subrange(10 + plen, buffer@.len() as int) =~= old(buffer)@.subrange(
            10 + plen,
            old(buffer)@.len() as int,
        ));
    }
    10 + plen
}

/// Decodes the Protocol 2 status frame at the start of `buffer`, given the
/// CRC of the bytes before its trailer. On success its parameters are
/// copied to the start of `params` and the frame's length is returned; on
/// failure `params` is left as it was.
pub fn decode_status_v2_with_crc(buffer: &[u8], crc: u16, params: &mut [u8]) -> (r: Result<
    usize,
    ProtocolError,
>)
    requires
        status_v2_result_with(buffer@, crc) is Ok ==> old(params)@.len() + 4 >= len_field_v2(
            buffer@,
        ),
    ensures
        r == status_v2_result_with(buffer@, crc),
        r is Ok ==> final(params)@ == params_v2(buffer@) + old(params)@.subrange(
            len_field_v2(buffer@) - 4,
            old(params)@.len() as int,
        ),
        r is Err ==> final(params)@ == old(params)@,
{
    let blen = buffer.len();
    if !framing_v2(buffer) {
        return Err(ProtocolError::BadPacket);
    }
    let plen: usize = buffer[5] as usize + buffer[6] as usize * 256 - 4;
    if buffer[9 + plen] != (crc % 256) as u8 || buffer[10 + plen] != (crc / 256) as u8 {
        return Err(ProtocolError::BadPacket);
    }
    if buffer[8] != 0 {
        return Err(ProtocolError::StatusError(buffer[8]));
    }
    let ghost old_params = params@;
    let mut i: usize = 0;
    while i < plen
        invariant
            plen + 11 <= blen,
            blen == buffer@.len(),
            plen <= params@.len(),
            params@.len() == old_params.len(),
            0 <= i <= plen,
            forall|k: int| 0 <= k < i ==> params@[k] == buffer@[9 + k],
            forall|k: int| i <= k < params@.len() ==> params@[k] == old_params[k],
        decreases plen - i,
    {
        params[i] = buffer[9 + i];
        i = i + 1;
    }
    assert(params@ =~= params_v2(buffer@) + old_params.subrange(plen as int, old_params.len() as int));
    Ok(11 + plen)
}

/// Whether the framing of the Protocol 2 status at the start of `buffer` is
/// sound.
fn framing_v2(buffer: &[u8]) -> (r: bool)
    ensures
        r == framing_ok_v2(buffer@),
{
    let blen = buffer.len();
    if blen < 10 {
        return false;
    }
    let length: usize = buffer[5] as usize + buffer[6] as usize * 256;
    length >= 4 && blen >= length + 7 && buffer[0] == 0xFF && buffer[1] == 0xFF && buffer[2] == 0xFD
        && buffer[3] == 0x00
}

/// Decodes the Protocol 2 status frame at the start of `buffer`. On success
/// its parameters are copied to the start of `params` and the frame's length
/// is returned; on failure `params` is left as it was.
pub fn decode_status_v2(buffer: &[u8], params: &mut [u8]) -> (r: Result<usize, ProtocolError>)
    requires
        status_v2_result(buffer@) is Ok ==> old(params)@.len() + 4 >= len_field_v2(buffer@),
    ensures
        r == status_v2_result(buffer@),
        r is Ok ==> final(params)@ == params_v2(buffer@) + old(params)@.subrange(
            len_field_v2(buffer@) - 4,
            old(params)@.len() as int,
        ),
        r is Err ==> final(params)@ == old(params)@,
{
    if !framing_v2(buffer) {
        return Err(ProtocolError::BadPacket);
    }
    let len: usize = buffer[5] as usize + buffer[6] as usize * 256;
    let crc = crc16_umts_of(&buffer[0..len + 5]);
    decode_status_v2_with_crc(buffer, crc, params)
}

/// The frame for `(id, op, params)` in protocol `v`.
pub open spec fn frame(v: ProtocolVersion, id: u8, op: u8, params: Seq<u8>) -> Seq<u8> {
    match v {
        ProtocolVersion::V1 => frame_v1(id, op, params),
        ProtocolVersion::V2 => frame_v2(id, op, params),
    }
}

/// The most parameter bytes whose frame length still fits the length field.
pub open spec fn max_params(v: ProtocolVersion) -> nat {
    match v {
        ProtocolVersion::V1 => 253,
        ProtocolVersion::V2 => 65532,
    }
}

/// The frame for `(id, op, params)` in protocol `v`, in a vector of its own.
pub fn encode_frame(v: ProtocolVersion, id: u8, op: u8, params: &[u8]) -> (r: Vec<u8>)
    requires
        params@.len() <= max_params(v),
    ensures
        r@ == frame(v, id, op, params@),
{
    match v {
        ProtocolVersion::V1 => {
            let mut buf = vec![0u8; params.len() + 6];
            let n = encode_instruction_v1(buf.as_mut_slice(), id, op, params);
            assert(buf@ =~= buf@.subrange(0, n as int));
            buf
        },
        ProtocolVersion::V2 => {
            let mut buf = vec![0u8; params.len() + 10];
            let n = encode_instruction_v2(buf.as_mut_slice(), id, op, params);
            assert(buf@ =~= buf@.subrange(0, n as int));
            buf
        },
    }
}

/// The status frame a slave sends: on V1 the error byte takes the opcode
/// slot; on V2 the marker `55` stands before it.
pub open spec fn status_frame(v: ProtocolVersion, id: u8, error: u8, params: Seq<u8>) -> Seq<u8> {
    match v {
        ProtocolVersion::V1 => frame_v1(id, error, params),
        ProtocolVersion::V2 => frame_v2(id, STATUS_MARKER_V2, seq![error] + params),
    }
}

/// The most parameter bytes a status frame can carry.
pub open spec fn max_status_params(v: ProtocolVersion) -> nat {
    match v {
        ProtocolVersion::V1 => 253,
        ProtocolVersion::V2 => 65531,
    }
}

/// Builds the status reply `(id, error, params)` for protocol `v`; fails with
/// `InvalidArg` when the parameters do not fit the length field.
pub fn encode_status(v: ProtocolVersion, id: u8, error: u8, params: &[u8]) -> (r: Result<
    Vec<u8>,
    ProtocolError,
>)
    ensures
        r is Ok <==> params@.len() <= max_status_params(v),
        r is Ok ==> r->Ok_0@ == status_frame(v, id, error, params@),
        r is Err ==> r == Err::<Vec<u8>, ProtocolError>(ProtocolError::InvalidArg),
{
    match v {
        ProtocolVersion::V1 => {
            if params.len() > 253 {
                return Err(ProtocolError::InvalidArg);
            }
            Ok(encode_frame(v, id, error, params))
        },
        ProtocolVersion::V2 => {
            if params.len() > 65531 {
                return Err(ProtocolError::InvalidArg);
            }
            let mut p: Vec<u8> = Vec::new();
            p.push(error);
            let mut i: usize = 0;
            while i < params.len()
                invariant
                    0 <= i <= params@.len(),
                    p@ == seq![error] + params@.subrange(0, i as int),
                decreases params@.len() - i,
            {
                p.push(params[i]);
                i = i + 1;
                assert(p@ =~= seq![error] + params@.subrange(0, i as int));
            }
            assert(params@.subrange(0, params@.len() as int) =~= params@);
            Ok(encode_frame(v, id, STATUS_MARKER_V2, p.as_slice()))
        },
    }
}

/// Decoding a status frame of protocol `v`.
pub open spec fn status_result(v: ProtocolVersion, b: Seq<u8>) -> Result<usize, ProtocolError> {
    match v {
        ProtocolVersion::V1 => status_v1_result(b),
        ProtocolVersion::V2 => status_v2_result(b),
    }
}

/// The parameters of a status frame of protocol `v`.
pub open spec fn status_params(v: ProtocolVersion, b: Seq<u8>) -> Seq<u8> {
    match v {
        ProtocolVersion::V1 => params_v1(b),
        ProtocolVersion::V2 => params_v2(b),
    }
}

/// `p` cut or padded with zeros to `n` bytes.
pub open spec fn pad_to(p: Seq<u8>, n: nat) -> Seq<u8> {
    Seq::new(n, |i: int| if i < p.len() { p[i] } else { 0u8 })
}

/// The data of a reply that should carry `count` bytes: the status's
/// parameters, cut or padded with zeros to `count` bytes.
pub open spec fn reply_data(v: ProtocolVersion, b: Seq<u8>, count: nat) -> Result<
    Seq<u8>,
    ProtocolError,
> {
    match status_result(v, b) {
        Ok(_) => Ok(pad_to(status_params(v, b), count)),
        Err(e) => Err(e),
    }
}

/// Decodes the status reply `reply` and returns `count` bytes of its data.
pub fn decode_reply(v: ProtocolVersion, reply: &[u8], count: usize) -> (r: Result<
    Vec<u8>,
    ProtocolError,
>)
    ensures
        match r {
            Ok(d) => reply_data(v, reply@, count as nat) == Ok::<Seq<u8>, ProtocolError>(d@),
            Err(e) => reply_data(v, reply@, count as nat) == Err::<Seq<u8>, ProtocolError>(e),
        },
{
    let mut params = vec![0u8; reply.len()];
    let res = match v {
        ProtocolVersion::V1 => decode_status_v1(reply, params.as_mut_slice()),
        ProtocolVersion::V2 => decode_status_v2(reply, params.as_mut_slice()),
    };
    let n = match res {
        Ok(n) => n,
        Err(e) => return Err(e),
    };
    let plen: usize = match v {
        ProtocolVersion::V1 => n - 6,
        ProtocolVersion::V2 => n - 11,
    };
    let ghost p = status_params(v, reply@);
    assert(p.len() == plen);
    assert forall|k: int| 0 <= k < plen implies params@[k] == p[k] by {}
    let mut out: Vec<u8> = Vec::new();
    let mut i: usize = 0;
    while i < count
        invariant
            0 <= i <= count,
            plen == p.len(),
            plen <= params@.len(),
            forall|k: int| 0 <= k < plen ==> params@[k] == p[k],
            out@ == pad_to(p, count as nat).subrange(0, i as int),
        decreases count - i,
    {
        if i < plen {
            out.push(params[i]);
        } else {
            out.push(0);
        }
        i = i + 1;
        assert(out@ =~= pad_to(p, count as nat).subrange(0, i as int));
    }
    assert(out@ =~= pad_to(p, count as nat));
    Ok(out)
}

/// A Protocol 1 frame's bytes from the id through the checksum sum to `FF`.
pub proof fn lemma_v1_checksum_sums_to_ff(id: u8, op: u8, params: Seq<u8>)
    ensures
        ({
            let f = frame_v1(id, op, params);
            ((sum8(f.subrange(2, f.len() - 1)) as int + f[f.len() - 1] as int) % 256) == 0xFF
        }),
{
    let f = frame_v1(id, op, params);
    assert(f.subrange(2, f.len() - 1) =~= body_v1(id, op, params));
}

/// The last two bytes of a Protocol 2 frame are the little-endian CRC of
/// every byte before them.
pub proof fn lemma_v2_crc_trailer(id: u8, op: u8, params: Seq<u8>)
    ensures
        ({
            let f = frame_v2(id, op, params);
            crc16_umts(f.subrange(0, f.len() - 2)) == u16_le(f[f.len() - 2], f[f.len() - 1])
        }),
{
    let f = frame_v2(id, op, params);
    let b = body_v2(id, op, params);
    assert(f.subrange(0, f.len() - 2) =~= b);
    crate::checksum::lemma_u16_le_split(crc16_umts(b));
}

/// Decoding the status frame that a slave builds with a zero error byte
/// gives back its length and its parameters, in both protocols.
pub proof fn lemma_status_round_trip(v: ProtocolVersion, id: u8, params: Seq<u8>)
    requires
        params.len() <= max_status_params(v),
    ensures
        ({
            let f = status_frame(v, id, 0, params);
            &&& status_result(v, f) == Ok::<usize, ProtocolError>(f.len() as usize)
            &&& status_params(v, f) == params
        }),
{
    let f = status_frame(v, id, 0, params);
    match v {
        ProtocolVersion::V1 => {
            assert(f.subrange(2, f[3] + 3) =~= body_v1(id, 0, params));
            assert(params_v1(f) =~= params);
        },
        ProtocolVersion::V2 => {
            let p = seq![0u8] + params;
            let b = body_v2(id, STATUS_MARKER_V2, p);
            crate::checksum::lemma_u16_le_split((p.len() + 3) as u16);
            assert(len_field_v2(f) == p.len() + 3);
            assert(f.subrange(0, len_field_v2(f) + 5) =~= b);
            assert(params_v2(f) =~= params);
        },
    }
}

/// Changing any one byte of a valid Protocol 1 status frame, other than its
/// length byte and its checksum, makes decoding fail with `BadPacket`.
pub proof fn lemma_v1_single_byte_change_detected(id: u8, params: Seq<u8>, i: int, x: u8)
    requires
        params.len() <= 253,
        0 <= i < params.len() + 5,
        i != 3,
        x != frame_v1(id, 0, params)[i],
    ensures
        status_v1_result(frame_v1(id, 0, params).update(i, x)) == Err::<usize, ProtocolError>(
            ProtocolError::BadPacket,
        ),
{
    let f = frame_v1(id, 0, params);
    let g = f.update(i, x);
    let n = params.len() as int;
    assert(g[3] == n + 2);
    if i >= 2 {
        let body = body_v1(id, 0, params);
        assert(f.subrange(2, n + 5) =~= body);
        assert(g.subrange(2, n + 5) =~= body.update(i - 2, x));
        crate::checksum::lemma_sum8_update_differs(body, i - 2, x);
        assert(g[n + 5] == checksum8(body));
    }
}

} // verus!
