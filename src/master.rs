//! The master: synchronous request/response operations with retries.
//!
//! Each operation is built from verified pieces: a request frame, the
//! length of the expected reply, and the interpretation of the reply bytes.
//! The bytes travel through a [`Transport`], which the caller supplies (a
//! serial port, or an in-memory pipe in tests), wrapped in a [`Recorder`]
//! that keeps a ghost record of every call and what it returned. Nothing is
//! assumed of what a transport does: each operation's contract describes its
//! calls in that record, attempt by attempt, and derives its result from
//! what they returned under the retry policy [`run`].

use vstd::prelude::*;

use crate::checksum::{hi8, lo8};
use crate::codec::{
    decode_reply, encode_frame, frame, max_params, reply_data, BROADCAST_ID, OPCODE_PING,
    OPCODE_READ, OPCODE_SYNC_READ, OPCODE_SYNC_WRITE, OPCODE_WRITE,
};
use crate::protocol::{ProtocolError, ProtocolVersion};

verus! {

/// A byte channel to the bus.
pub trait Transport {
    /// Writes all of `bytes`.
    fn write_all(&mut self, bytes: &[u8]) -> Result<(), ProtocolError>;

    /// Reads exactly `n` bytes within the transport's deadline.
    fn read_exact(&mut self, n: usize) -> Result<Vec<u8>, ProtocolError>;
}

/// The retry policy: the outcome of an operation whose attempts gave
/// `outs`, in order, with `left` further attempts allowed after the first.
/// The first success is returned at once; a failure with no attempt left is
/// returned as the operation's error; `None` while attempts remain and no
/// outcome has settled the operation.
pub open spec fn run<T>(left: nat, outs: Seq<Result<T, ProtocolError>>) -> Option<
    Result<T, ProtocolError>,
>
    decreases outs.len(),
{
    if outs.len() == 0 {
        None
    } else {
        match outs[0] {
            Ok(x) => Some(Ok(x)),
            Err(e) => if left == 0 {
                Some(Err(e))
            } else {
                run((left - 1) as nat, outs.drop_first())
            },
        }
    }
}

/// An operation whose first `k` attempts fail and whose next one succeeds
/// succeeds if and only if `k` is at most the number of retries; otherwise
/// it fails with the error of its last allowed attempt.
pub proof fn lemma_retry_succeeds_iff<T>(retries: nat, k: nat, outs: Seq<
    Result<T, ProtocolError>,
>)
    requires
        outs.len() == k + 1,
        forall|i: int| 0 <= i < k ==> outs[i] is Err,
        outs[k as int] is Ok,
    ensures
        run(retries, outs) is Some,
        (run(retries, outs)->Some_0 is Ok) <==> k <= retries,
        k <= retries ==> run(retries, outs) == Some(outs[k as int]),
        k > retries ==> run(retries, outs) == Some(outs[retries as int]),
    decreases k,
{
    if k > 0 && retries > 0 {
        lemma_retry_succeeds_iff((retries - 1) as nat, (k - 1) as nat, outs.drop_first());
    }
}

/// The parameters of a read request.
pub open spec fn read_params(v: ProtocolVersion, address: u16, count: u16) -> Seq<u8> {
    match v {
        ProtocolVersion::V1 => seq![address as u8, count as u8],
        ProtocolVersion::V2 => seq![lo8(address), hi8(address), lo8(count), hi8(count)],
    }
}

/// The parameters of a write request.
pub open spec fn write_params(v: ProtocolVersion, address: u16, data: Seq<u8>) -> Seq<u8> {
    match v {
        ProtocolVersion::V1 => seq![address as u8] + data,
        ProtocolVersion::V2 => seq![lo8(address), hi8(address)] + data,
    }
}

/// The error a read is refused with before any I/O, if any.
pub open spec fn read_limit_error(v: ProtocolVersion, address: u16, count: u16) -> Option<
    ProtocolError,
> {
    match v {
        ProtocolVersion::V1 => if address > 0xFE {
            Some(ProtocolError::InvalidAddress)
        } else if count > 0xFF {
            Some(ProtocolError::InvalidCount)
        } else {
            None
        },
        ProtocolVersion::V2 => None,
    }
}

/// The error a write is refused with before any I/O, if any: an address out
/// of range, or more data than a frame holds.
pub open spec fn write_limit_error(v: ProtocolVersion, address: u16, data_len: nat) -> Option<
    ProtocolError,
> {
    match v {
        ProtocolVersion::V1 => if address > 0xFF {
            Some(ProtocolError::InvalidAddress)
        } else if data_len + 1 > max_params(v) {
            Some(ProtocolError::InvalidCount)
        } else {
            None
        },
        ProtocolVersion::V2 => if data_len + 2 > max_params(v) {
            Some(ProtocolError::InvalidCount)
        } else {
            None
        },
    }
}

/// The parameters of a sync-read request: address, count, then the ids.
pub open spec fn sync_read_params(address: u16, count: u16, ids: Seq<u8>) -> Seq<u8> {
    seq![lo8(address), hi8(address), lo8(count), hi8(count)] + ids
}

/// The first `n` per-id blocks of a sync-write request: each id followed by
/// its entry.
pub open spec fn sync_write_blocks(ids: Seq<u8>, data: Seq<Seq<u8>>, n: nat) -> Seq<u8>
    decreases n,
{
    if n == 0 {
        Seq::empty()
    } else {
        sync_write_blocks(ids, data, (n - 1) as nat) + seq![ids[n - 1]] + data[n - 1]
    }
}

/// The common length of the sync-write entries (the first one's).
pub open spec fn sync_write_len(data: Seq<Seq<u8>>) -> nat {
    if data.len() == 0 {
        0
    } else {
        data[0].len()
    }
}

/// The parameters of a sync-write request: address, entry length, then each
/// id followed by its entry.
pub open spec fn sync_write_params(address: u16, ids: Seq<u8>, data: Seq<Seq<u8>>) -> Seq<u8> {
    let l = sync_write_len(data) as u16;
    seq![lo8(address), hi8(address), lo8(l), hi8(l)] + sync_write_blocks(ids, data, ids.len())
}

/// The error a sync-write is refused with before any I/O, if any.
pub open spec fn sync_write_error(v: ProtocolVersion, ids: Seq<u8>, data: Seq<Seq<u8>>) -> Option<
    ProtocolError,
> {
    if v != ProtocolVersion::V2 || ids.len() != data.len() || exists|i: int|
        0 <= i < data.len() && #[trigger] data[i].len() != sync_write_len(data) {
        Some(ProtocolError::InvalidArg)
    } else if 4 + ids.len() * (1 + sync_write_len(data)) > max_params(v) {
        Some(ProtocolError::InvalidCount)
    } else {
        None
    }
}

/// The error a sync-read is refused with before any I/O, if any.
pub open spec fn sync_read_error(v: ProtocolVersion, ids: Seq<u8>) -> Option<ProtocolError> {
    if v != ProtocolVersion::V2 {
        Some(ProtocolError::InvalidArg)
    } else if 4 + ids.len() > max_params(v) {
        Some(ProtocolError::InvalidCount)
    } else {
        None
    }
}

/// The views of a list of byte vectors.
pub open spec fn views(d: Seq<Vec<u8>>) -> Seq<Seq<u8>> {
    d.map_values(|x: Vec<u8>| x@)
}

/// A master on one bus.
pub struct Master {
    pub version: ProtocolVersion,
    /// Further attempts after a failed first one.
    pub retries: usize,
}

impl Master {
    pub fn new(version: ProtocolVersion, retries: usize) -> (r: Master)
        ensures
            r.version == version,
            r.retries == retries,
    {
        Master { version, retries }
    }

    pub fn version(&self) -> (r: ProtocolVersion)
        ensures
            r == self.version,
    {
        self.version
    }

    /// The ping request for `id`.
    pub fn ping_request(&self, id: u8) -> (r: Vec<u8>)
        ensures
            r@ == frame(self.version, id, OPCODE_PING, Seq::empty()),
    {
        let p: Vec<u8> = Vec::new();
        encode_frame(self.version, id, OPCODE_PING, p.as_slice())
    }

    /// The read request, or the error it is refused with.
    pub fn read_request(&self, id: u8, address: u16, count: u16) -> (r: Result<
        Vec<u8>,
        ProtocolError,
    >)
        ensures
            match read_limit_error(self.version, address, count) {
                Some(e) => r == Err::<Vec<u8>, ProtocolError>(e),
                None => r is Ok && r->Ok_0@ == frame(
                    self.version,
                    id,
                    OPCODE_READ,
                    read_params(self.version, address, count),
                ),
            },
    {
        let mut p: Vec<u8> = Vec::new();
        match self.version {
            ProtocolVersion::V1 => {
                if address > 0xFE {
                    return Err(ProtocolError::InvalidAddress);
                }
                if count > 0xFF {
                    return Err(ProtocolError::InvalidCount);
                }
                p.push(address as u8);
                p.push(count as u8);
            },
            ProtocolVersion::V2 => {
                p.push((address % 256) as u8);
                p.push((address / 256) as u8);
                p.push((count % 256) as u8);
                p.push((count / 256) as u8);
            },
        }
        assert(p@ =~= read_params(self.version, address, count));
        Ok(encode_frame(self.version, id, OPCODE_READ, p.as_slice()))
    }

    /// The write request, or the error it is refused with.
    pub fn write_request(&self, id: u8, address: u16, data: &[u8]) -> (r: Result<
        Vec<u8>,
        ProtocolError,
    >)
        ensures
            match write_limit_error(self.version, address, data@.len()) {
                Some(e) => r == Err::<Vec<u8>, ProtocolError>(e),
                None => r is Ok && r->Ok_0@ == frame(
                    self.version,
                    id,
                    OPCODE_WRITE,
                    write_params(self.version, address, data@),
                ),
            },
    {
        let mut p: Vec<u8> = Vec::new();
        match self.version {
            ProtocolVersion::V1 => {
                if address > 0xFF {
                    return Err(ProtocolError::InvalidAddress);
                }
                if data.len() > 252 {
                    return Err(ProtocolError::InvalidCount);
                }
                p.push(address as u8);
            },
            ProtocolVersion::V2 => {
                if data.len() > 65530 {
                    return Err(ProtocolError::InvalidCount);
                }
                p.push((address % 256) as u8);
                p.push((address / 256) as u8);
            },
        }
        let ghost head = p@;
        let mut i: usize = 0;
        while i < data.len()
            invariant
                0 <= i <= data@.len(),
                p@ == head + data@.subrange(0, i as int),
            decreases data@.len() - i,
        {
            p.push(data[i]);
            i = i + 1;
            assert(p@ =~= head + data@.subrange(0, i as int));
        }
        assert(p@ =~= write_params(self.version, address, data@));
        Ok(encode_frame(self.version, id, OPCODE_WRITE, p.as_slice()))
    }

    /// The sync-read request, or the error it is refused with.
    pub fn sync_read_request(&self, ids: &[u8], address: u16, count: u16) -> (r: Result<
        Vec<u8>,
        ProtocolError,
    >)
        ensures
            match sync_read_error(self.version, ids@) {
                Some(e) => r == Err::<Vec<u8>, ProtocolError>(e),
                None => r is Ok && r->Ok_0@ == frame(
                    self.version,
                    BROADCAST_ID,
                    OPCODE_SYNC_READ,
                    sync_read_params(address, count, ids@),
                ),
            },
    {
        match self.version {
            ProtocolVersion::V1 => {
                return Err(ProtocolError::InvalidArg);
            },
            ProtocolVersion::V2 => {},
        }
        if ids.len() > 65528 {
            return Err(ProtocolError::InvalidCount);
        }
        let mut p: Vec<u8> = Vec::new();
        p.push((address % 256) as u8);
        p.push((address / 256) as u8);
        p.push((count % 256) as u8);
        p.push((count / 256) as u8);
        let ghost head = p@;
        let mut i: usize = 0;
        while i < ids.len()
            invariant
                0 <= i <= ids@.len(),
                p@ == head + ids@.subrange(0, i as int),
            decreases ids@.len() - i,
        {
            p.push(ids[i]);
            i = i + 1;
            assert(p@ =~= head + ids@.subrange(0, i as int));
        }
        assert(p@ =~= sync_read_params(address, count, ids@));
        Ok(encode_frame(self.version, BROADCAST_ID, OPCODE_SYNC_READ, p.as_slice()))
    }

    /// The sync-write request, or the error it is refused with.
    pub fn sync_write_request(&self, ids: &[u8], address: u16, data: &[Vec<u8>]) -> (r: Result<
        Vec<u8>,
        ProtocolError,
    >)
        ensures
            match sync_write_error(self.version, ids@, views(data@)) {
                Some(e) => r == Err::<Vec<u8>, ProtocolError>(e),
                None => r is Ok && r->Ok_0@ == frame(
                    self.version,
                    BROADCAST_ID,
                    OPCODE_SYNC_WRITE,
                    sync_write_params(address, ids@, views(data@)),
                ),
            },
    {
        let ghost d = views(data@);
        match self.version {
            ProtocolVersion::V1 => {
                return Err(ProtocolError::InvalidArg);
            },
            ProtocolVersion::V2 => {},
        }
        if ids.len() != data.len() {
            return Err(ProtocolError::InvalidArg);
        }
        let n = ids.len();
        let l: usize = if n == 0 { 0 } else { data[0].len() };
        assert(l == sync_write_len(d));
        let mut i: usize = 0;
        while i < n
            invariant
                n == data@.len(),
                d == views(data@),
                l == sync_write_len(d),
                0 <= i <= n,
                forall|k: int| 0 <= k < i ==> #[trigger] d[k].len() == l,
            decreases n - i,
        {
            if data[i].len() != l {
                assert(d[i as int].len() != sync_write_len(d));
                return Err(ProtocolError::InvalidArg);
            }
            i = i + 1;
        }
        if n > 0 && l > 65532 {
            assert(4 + n * (1 + l) > 65532) by (nonlinear_arith)
                requires
                    n > 0,
                    l > 65532,
            ;
            return Err(ProtocolError::InvalidCount);
        }
        let mut total: usize = 4;
        let mut i: usize = 0;
        assert(4 + i * (1 + l) == 4) by (nonlinear_arith)
            requires
                i == 0,
        ;
        while i < n
            invariant
                0 <= i <= n,
                n == data@.len(),
                n == ids@.len(),
                d == views(data@),
                l == sync_write_len(d),
                self.version == ProtocolVersion::V2,
                forall|k: int| 0 <= k < n ==> #[trigger] d[k].len() == l,
                l <= 65532,
                total == 4 + i * (1 + l),
                total <= 65532,
            decreases n - i,
        {
            assert(4 + (i + 1) * (1 + l) == 4 + i * (1 + l) + (1 + l)) by (nonlinear_arith);
            total = total + 1 + l;
            i = i + 1;
            if total > 65532 {
                assert(4 + n * (1 + l) >= 4 + i * (1 + l)) by (nonlinear_arith)
                    requires
                        i <= n,
                ;
                return Err(ProtocolError::InvalidCount);
            }
        }
        let mut p: Vec<u8> = Vec::new();
        p.push((address % 256) as u8);
        p.push((address / 256) as u8);
        p.push((l % 256) as u8);
        p.push((l / 256) as u8);
        let ghost head = p@;
        assert(head =~= seq![lo8(address), hi8(address), lo8(l as u16), hi8(l as u16)]);
        let mut i: usize = 0;
        assert(4 + i * (1 + l) == 4) by (nonlinear_arith)
            requires
                i == 0,
        ;
        while i < n
            invariant
                n == ids@.len(),
                n == data@.len(),
                d == views(data@),
                0 <= i <= n,
                forall|k: int| 0 <= k < n ==> #[trigger] d[k].len() == l,
                4 + n * (1 + l) <= 65532,
                self.version == ProtocolVersion::V2,
                p@.len() == 4 + i * (1 + l),
                p@ == head + sync_write_blocks(ids@, d, i as nat),
            decreases n - i,
        {
            p.push(ids[i]);
            let entry = &data[i];
            let mut j: usize = 0;
            let ghost mid = p@;
            while j < entry.len()
                invariant
                    0 <= j <= entry@.len(),
                    p@ == mid + entry@.subrange(0, j as int),
                decreases entry@.len() - j,
            {
                p.push(entry[j]);
                j = j + 1;
                assert(p@ =~= mid + entry@.subrange(0, j as int));
            }
            assert(entry@.subrange(0, entry@.len() as int) =~= entry@);
            assert(d[i as int] == entry@);
            assert(4 + (i + 1) * (1 + l) == 4 + i * (1 + l) + (1 + l)) by (nonlinear_arith);
            assert(4 + (i + 1) * (1 + l) <= 4 + n * (1 + l)) by (nonlinear_arith)
                requires
                    i + 1 <= n,
            ;
            i = i + 1;
            assert(p@ =~= head + sync_write_blocks(ids@, d, i as nat));
        }
        Ok(encode_frame(self.version, BROADCAST_ID, OPCODE_SYNC_WRITE, p.as_slice()))
    }
}

/// The retry decision after one attempt: the operation's result, or `None`
/// to make another attempt (using up one of the `left` retries).
pub fn settle<T>(left: usize, outcome: Result<T, ProtocolError>) -> (r: Option<
    Result<T, ProtocolError>,
>)
    ensures
        r == run(left as nat, seq![outcome]),
        r is None <==> (outcome is Err && left > 0),
{
    proof {
        assert(seq![outcome][0] == outcome);
        assert(seq![outcome].drop_first() =~= Seq::<Result<T, ProtocolError>>::empty());
        assert(run((left - 1) as nat, Seq::<Result<T, ProtocolError>>::empty()) is None);
    }
    match outcome {
        Ok(x) => Some(Ok(x)),
        Err(e) => if left == 0 {
            Some(Err(e))
        } else {
            None
        },
    }
}

/// Taking attempts one `settle` at a time follows the retry policy: a first
/// outcome that settles nothing leaves the rest to the remaining retries.
pub proof fn lemma_run_first_step<T>(left: nat, outs: Seq<Result<T, ProtocolError>>)
    requires
        outs.len() > 0,
    ensures
        run(left, outs) == (match run(left, seq![outs[0]]) {
            Some(r) => Some(r),
            None => run((left - 1) as nat, outs.drop_first()),
        }),
{
    assert(seq![outs[0]][0] == outs[0]);
    assert(seq![outs[0]].drop_first() =~= Seq::<Result<T, ProtocolError>>::empty());
    assert(run((left - 1) as nat, Seq::<Result<T, ProtocolError>>::empty()) is None);
}

/// The length of the status reply that an instruction of opcode `op`
/// expects: V1 ping 6, read `6 + count`, write 6; V2 ping 14 (the reply
/// with its model and firmware payload), read and each sync-read reply
/// `11 + count`, write 11.
pub open spec fn expected_reply_len(v: ProtocolVersion, op: u8, count: u16) -> nat {
    match v {
        ProtocolVersion::V1 => if op == OPCODE_READ || op == OPCODE_SYNC_READ {
            (6 + count) as nat
        } else {
            6
        },
        ProtocolVersion::V2 => if op == OPCODE_PING {
            14
        } else if op == OPCODE_READ || op == OPCODE_SYNC_READ {
            (11 + count) as nat
        } else {
            11
        },
    }
}

/// The number of bytes to read for the reply to an instruction of opcode
/// `op` (`count` data bytes for a read).
pub fn reply_len(v: ProtocolVersion, op: u8, count: u16) -> (n: usize)
    ensures
        n == expected_reply_len(v, op, count),
{
    match v {
        ProtocolVersion::V1 => if op == OPCODE_READ || op == OPCODE_SYNC_READ {
            6 + count as usize
        } else {
            6
        },
        ProtocolVersion::V2 => if op == OPCODE_PING {
            14
        } else if op == OPCODE_READ || op == OPCODE_SYNC_READ {
            11 + count as usize
        } else {
            11
        },
    }
}

/// The ids `start + i` for which `answered[i]` holds, in increasing order.
pub open spec fn responders_spec(start: u8, answered: Seq<bool>) -> Seq<u8>
    decreases answered.len(),
{
    if answered.len() == 0 {
        Seq::empty()
    } else {
        let prev = responders_spec(start, answered.drop_last());
        if answered.last() {
            prev.push((start + answered.len() - 1) as u8)
        } else {
            prev
        }
    }
}

/// The ids that answered a scan from `start`: `answered[i]` tells whether
/// id `start + i` did.
pub fn responders(start: u8, answered: &[bool]) -> (r: Vec<u8>)
    requires
        start + answered@.len() <= 256,
    ensures
        r@ == responders_spec(start, answered@),
{
    let mut out: Vec<u8> = Vec::new();
    let mut i: usize = 0;
    assert(answered@.subrange(0, 0) =~= Seq::<bool>::empty());
    while i < answered.len()
        invariant
            0 <= i <= answered@.len(),
            start + answered@.len() <= 256,
            out@ == responders_spec(start, answered@.subrange(0, i as int)),
        decreases answered@.len() - i,
    {
        assert(answered@.subrange(0, i + 1).drop_last() =~= answered@.subrange(0, i as int));
        if answered[i] {
            out.push((start as usize + i) as u8);
        }
        i = i + 1;
    }
    assert(answered@.subrange(0, answered@.len() as int) =~= answered@);
    out
}

/// The responders lie in `[start, start + |answered|)`, in increasing order.
pub proof fn lemma_responders_in_order(start: u8, answered: Seq<bool>)
    requires
        start + answered.len() <= 256,
    ensures
        forall|k: int|
            0 <= k < responders_spec(start, answered).len() ==> start <= #[trigger] responders_spec(
                start,
                answered,
            )[k] < start + answered.len(),
        forall|a: int, b: int|
            0 <= a < b < responders_spec(start, answered).len() ==> responders_spec(start, answered)[a]
                < responders_spec(start, answered)[b],
    decreases answered.len(),
{
    if answered.len() > 0 {
        let prev = responders_spec(start, answered.drop_last());
        lemma_responders_in_order(start, answered.drop_last());
        let x = (start + answered.len() - 1) as u8;
        assert(x == start + answered.len() - 1);
        if answered.last() {
            let s = prev.push(x);
            assert(responders_spec(start, answered) == s);
            assert forall|k: int| 0 <= k < s.len() implies start <= #[trigger] s[k] < start
                + answered.len() by {
                if k < prev.len() {
                    assert(s[k] == prev[k]);
                }
            }
            assert forall|a: int, b: int| 0 <= a < b < s.len() implies s[a] < s[b] by {
                assert(s[a] == prev[a]);
                if b < prev.len() {
                    assert(s[b] == prev[b]);
                }
            }
        }
    }
}

/// Adds the data of one sync-read reply to the blocks read so far: the
/// reply's `count` data bytes, or its error with `out` left as it was.
pub fn sync_read_step(out: &mut Vec<Vec<u8>>, reply: &[u8], count: u16) -> (r: Result<
    (),
    ProtocolError,
>)
    ensures
        match reply_data(ProtocolVersion::V2, reply@, count as nat) {
            Ok(d) => r is Ok && final(out)@.len() == old(out)@.len() + 1 && final(out)@.subrange(
                0,
                old(out)@.len() as int,
            ) == old(out)@ && final(out)@[old(out)@.len() as int]@ == d,
            Err(e) => r == Err::<(), ProtocolError>(e) && final(out)@ == old(out)@,
        },
{
    match decode_reply(ProtocolVersion::V2, reply, count as usize) {
        Ok(d) => {
            let ghost before = out@;
            out.push(d);
            assert(out@.subrange(0, before.len() as int) =~= before);
            Ok(())
        },
        Err(e) => Err(e),
    }
}

/// Every block of `d` holds `count` bytes.
pub open spec fn blocks_of_len(d: Seq<Vec<u8>>, count: nat) -> bool {
    forall|k: int| 0 <= k < d.len() ==> (#[trigger] d[k])@.len() == count
}

/// One call on a transport: the bytes written and how the write went, or
/// the number of bytes asked for and what the read gave.
pub enum Event {
    Write(Seq<u8>, Result<(), ProtocolError>),
    Read(nat, Result<Seq<u8>, ProtocolError>),
}

pub open spec fn bytes_result(r: Result<Vec<u8>, ProtocolError>) -> Result<Seq<u8>, ProtocolError> {
    match r {
        Ok(b) => Ok(b@),
        Err(e) => Err(e),
    }
}

pub open spec fn blocks_result(r: Result<Vec<Vec<u8>>, ProtocolError>) -> Result<
    Seq<Seq<u8>>,
    ProtocolError,
> {
    match r {
        Ok(d) => Ok(views(d@)),
        Err(e) => Err(e),
    }
}

pub open spec fn unit(o: Result<Seq<u8>, ProtocolError>) -> Result<(), ProtocolError> {
    match o {
        Ok(_) => Ok(()),
        Err(e) => Err(e),
    }
}

/// A transport together with the record of every call made on it through
/// this wrapper.
pub struct Recorder<T> {
    pub port: T,
    log: Ghost<Seq<Event>>,
}

impl<T: Transport> Recorder<T> {
    /// The calls made so far, oldest first.
    pub closed spec fn log(&self) -> Seq<Event> {
        self.log@
    }

    pub fn new(port: T) -> (r: Recorder<T>)
        ensures
            r.log() == Seq::<Event>::empty(),
    {
        Recorder { port, log: Ghost(Seq::empty()) }
    }

    pub fn write_all(&mut self, bytes: &[u8]) -> (r: Result<(), ProtocolError>)
        ensures
            final(self).log() == old(self).log().push(Event::Write(bytes@, r)),
    {
        let r = self.port.write_all(bytes);
        self.log = Ghost(self.log@.push(Event::Write(bytes@, r)));
        r
    }

    pub fn read_exact(&mut self, n: usize) -> (r: Result<Vec<u8>, ProtocolError>)
        ensures
            final(self).log() == old(self).log().push(Event::Read(n as nat, bytes_result(r))),
    {
        let r = self.port.read_exact(n);
        self.log = Ghost(self.log@.push(Event::Read(n as nat, bytes_result(r))));
        r
    }
}

/// The calls of several attempts, one after the other.
pub open spec fn concat(atts: Seq<Seq<Event>>) -> Seq<Event>
    decreases atts.len(),
{
    if atts.len() == 0 {
        Seq::empty()
    } else {
        concat(atts.drop_last()) + atts.last()
    }
}

/// The calls `evs` are those of one to `retries + 1` attempts, each with
/// the outcome that `attempt` relates to its calls, and `r` is what the
/// retry policy makes of those outcomes: the first success, or the error of
/// the last attempt once none is left.
pub open spec fn under_retries<O>(
    retries: nat,
    evs: Seq<Event>,
    r: Result<O, ProtocolError>,
    attempt: spec_fn(Seq<Event>, Result<O, ProtocolError>) -> bool,
) -> bool {
    exists|atts: Seq<Seq<Event>>, outs: Seq<Result<O, ProtocolError>>|
        #![trigger concat(atts), run(retries, outs)]
        concat(atts) == evs && atts.len() == outs.len() && 1 <= outs.len() <= retries + 1 && (
        forall|i: int| 0 <= i < atts.len() ==> attempt(#[trigger] atts[i], outs[i])) && run(
            retries,
            outs,
        ) == Some(r)
}

/// The outcome of one request/reply attempt with calls `evs`: writing
/// `req` failed; or it went through and reading `n` bytes failed; or the
/// bytes read decode as a status reply carrying `count` data bytes, or not.
/// `None` when `evs` are not the calls of such an attempt.
pub open spec fn exchange_outcome(
    v: ProtocolVersion,
    req: Seq<u8>,
    n: nat,
    count: nat,
    evs: Seq<Event>,
) -> Option<Result<Seq<u8>, ProtocolError>> {
    if evs.len() == 1 {
        match evs[0] {
            Event::Write(b, Err(e)) => if b == req {
                Some(Err(e))
            } else {
                None
            },
            _ => None,
        }
    } else if evs.len() == 2 {
        match (evs[0], evs[1]) {
            (Event::Write(b, Ok(_)), Event::Read(m, rr)) => if b == req && m == n {
                Some(
                    match rr {
                        Ok(bytes) => reply_data(v, bytes, count),
                        Err(e) => Err(e),
                    },
                )
            } else {
                None
            },
            _ => None,
        }
    } else {
        None
    }
}

/// A request/reply attempt whose outcome is the reply's data.
pub open spec fn data_attempt(v: ProtocolVersion, req: Seq<u8>, n: nat, count: nat) -> spec_fn(
    Seq<Event>,
    Result<Seq<u8>, ProtocolError>,
) -> bool {
    |e: Seq<Event>, o: Result<Seq<u8>, ProtocolError>| exchange_outcome(v, req, n, count, e) == Some(
        o,
    )
}

/// A request/reply attempt whose outcome is whether the reply was a valid
/// status without error.
pub open spec fn status_attempt(v: ProtocolVersion, req: Seq<u8>, n: nat) -> spec_fn(
    Seq<Event>,
    Result<(), ProtocolError>,
) -> bool {
    |e: Seq<Event>, o: Result<(), ProtocolError>|
        exchange_outcome(v, req, n, 0, e) is Some && o == unit(
            exchange_outcome(v, req, n, 0, e)->Some_0,
        )
}

/// An attempt that only writes `req`; its outcome is the write's.
pub open spec fn write_attempt(req: Seq<u8>) -> spec_fn(Seq<Event>, Result<(), ProtocolError>) -> bool {
    |e: Seq<Event>, o: Result<(), ProtocolError>| e == seq![Event::Write(req, o)]
}

/// What a read of one sync-read reply gave: its data, or the read's or the
/// decoding's error. `None` for a call that is not such a read.
pub open spec fn reply_read(e: Event, n: nat, count: nat) -> Option<Result<Seq<u8>, ProtocolError>> {
    match e {
        Event::Read(m, rr) => if m == n {
            Some(
                match rr {
                    Ok(bytes) => reply_data(ProtocolVersion::V2, bytes, count),
                    Err(x) => Err(x),
                },
            )
        } else {
            None
        },
        _ => None,
    }
}

/// One sync-read attempt: the broadcast `req` is written; if that went
/// through, replies are read one per id, in order, until one fails. Its
/// outcome is the replies' data in order, or the first failure.
pub open spec fn sync_read_attempt_ok(
    req: Seq<u8>,
    n: nat,
    count: nat,
    nids: nat,
    e: Seq<Event>,
    o: Result<Seq<Seq<u8>>, ProtocolError>,
) -> bool {
    e.len() >= 1 && match e[0] {
        Event::Write(b, w) => b == req && match w {
            Err(x) => e.len() == 1 && o == Err::<Seq<Seq<u8>>, ProtocolError>(x),
            Ok(_) => {
                let rs = e.drop_first();
                match o {
                    Ok(ds) => rs.len() == nids && ds.len() == nids && forall|j: int|
                        0 <= j < nids ==> reply_read(#[trigger] rs[j], n, count) == Some(
                            Ok::<Seq<u8>, ProtocolError>(ds[j]),
                        ),
                    Err(x) => 1 <= rs.len() <= nids && (forall|j: int|
                        0 <= j < rs.len() - 1 ==> (#[trigger] reply_read(rs[j], n, count)) matches Some(Ok(_)))
                        && reply_read(rs[rs.len() - 1], n, count) == Some(
                        Err::<Seq<u8>, ProtocolError>(x),
                    ),
                }
            },
        },
        Event::Read(..) => false,
    }
}

pub open spec fn sync_read_attempt(req: Seq<u8>, n: nat, count: nat, nids: nat) -> spec_fn(
    Seq<Event>,
    Result<Seq<Seq<u8>>, ProtocolError>,
) -> bool {
    |e: Seq<Event>, o: Result<Seq<Seq<u8>>, ProtocolError>|
        sync_read_attempt_ok(req, n, count, nids, e, o)
}

/// The calls after the first `k` of `log`.
pub open spec fn since(log: Seq<Event>, k: int) -> Seq<Event> {
    log.subrange(k, log.len() as int)
}

/// The ping run for `id`: its calls `evs` follow the retry policy and it
/// succeeded exactly when `ok`.
pub open spec fn ping_ran(
    v: ProtocolVersion,
    retries: nat,
    id: u8,
    evs: Seq<Event>,
    ok: bool,
) -> bool {
    exists|r: Result<(), ProtocolError>|
        #[trigger] under_retries(
            retries,
            evs,
            r,
            status_attempt(
                v,
                frame(v, id, OPCODE_PING, Seq::empty()),
                expected_reply_len(v, OPCODE_PING, 0),
            ),
        ) && ok == r is Ok
}

/// One more attempt's outcome after attempts that settled nothing.
proof fn lemma_run_push<T>(left: nat, outs: Seq<Result<T, ProtocolError>>, r: Result<
    T,
    ProtocolError,
>)
    requires
        outs.len() <= left,
        run(left, outs) is None,
    ensures
        run(left, outs.push(r)) == (match r {
            Ok(x) => Some(Ok(x)),
            Err(e) => if outs.len() == left {
                Some(Err(e))
            } else {
                None::<Result<T, ProtocolError>>
            },
        }),
    decreases outs.len(),
{
    assert(outs.push(r)[0] == (if outs.len() > 0 { outs[0] } else { r }));
    if outs.len() > 0 {
        assert(outs.push(r).drop_first() =~= outs.drop_first().push(r));
        lemma_run_push((left - 1) as nat, outs.drop_first(), r);
    } else {
        assert(outs.push(r).drop_first() =~= Seq::<Result<T, ProtocolError>>::empty());
        assert(run((left - 1) as nat, Seq::<Result<T, ProtocolError>>::empty()) is None);
    }
}

proof fn lemma_split_log(log: Seq<Event>, k: int)
    requires
        0 <= k <= log.len(),
    ensures
        log == log.subrange(0, k) + since(log, k),
{
    assert(log =~= log.subrange(0, k) + since(log, k));
}

proof fn lemma_concat_push(atts: Seq<Seq<Event>>, x: Seq<Event>)
    ensures
        concat(atts.push(x)) == concat(atts) + x,
{
    assert(atts.push(x).drop_last() =~= atts);
}

impl Master {
    /// One request/reply attempt: writes `request`, reads `n` bytes and
    /// decodes them as a reply carrying `count` data bytes.
    fn exchange_once<T: Transport>(
        &self,
        port: &mut Recorder<T>,
        request: &[u8],
        n: usize,
        count: u16,
    ) -> (r: Result<Vec<u8>, ProtocolError>)
        ensures
            r is Ok ==> r->Ok_0@.len() == count,
            final(port).log().len() >= old(port).log().len(),
            final(port).log().subrange(0, old(port).log().len() as int) == old(port).log(),
            exchange_outcome(
                self.version,
                request@,
                n as nat,
                count as nat,
                since(final(port).log(), old(port).log().len() as int),
            ) == Some(bytes_result(r)),
    {
        let ghost l0 = port.log();
        let w = port.write_all(request);
        match w {
            Ok(()) => {},
            Err(e) => {
                assert(since(port.log(), l0.len() as int) =~= seq![Event::Write(request@, Err(e))]);
                assert(port.log().subrange(0, l0.len() as int) =~= l0);
                return Err(e);
            },
        }
        let ghost l1 = port.log();
        assert(l1 == l0.push(Event::Write(request@, w)));
        let reply = port.read_exact(n);
        assert(port.log() == l0.push(Event::Write(request@, w)).push(Event::Read(n as nat, bytes_result(reply))));
        assert(port.log().subrange(0, l0.len() as int) =~= l0);
        let r = match &reply {
            Ok(b) => decode_reply(self.version, b.as_slice(), count as usize),
            Err(e) => Err(*e),
        };
        proof {
            assert(since(port.log(), l0.len() as int) =~= seq![
                Event::Write(request@, w),
                Event::Read(n as nat, bytes_result(reply)),
            ]);
            match reply {
                Ok(b) => {
                    assert(bytes_result(r) == reply_data(self.version, b@, count as nat));
                },
                Err(_) => {},
            }
        }
        r
    }

    /// Pings `id`, with retries.
    pub fn ping<T: Transport>(&self, port: &mut Recorder<T>, id: u8) -> (r: Result<(), ProtocolError>)
        ensures
            final(port).log().len() >= old(port).log().len(),
            final(port).log().subrange(0, old(port).log().len() as int) == old(port).log(),
            under_retries(
                self.retries as nat,
                since(final(port).log(), old(port).log().len() as int),
                r,
                status_attempt(
                    self.version,
                    frame(self.version, id, OPCODE_PING, Seq::empty()),
                    expected_reply_len(self.version, OPCODE_PING, 0),
                ),
            ),
    {
        let request = self.ping_request(id);
        let n = reply_len(self.version, OPCODE_PING, 0);
        let ghost req = request@;
        let ghost l0 = port.log();
        let ghost mut atts = Seq::<Seq<Event>>::empty();
        let ghost mut outs = Seq::<Result<(), ProtocolError>>::empty();
        let mut left: usize = self.retries;
        loop
            invariant
                l0 == old(port).log(),
                left <= self.retries,
                req == frame(self.version, id, OPCODE_PING, Seq::empty()),
                n == expected_reply_len(self.version, OPCODE_PING, 0),
                request@ == req,
                port.log() == l0 + concat(atts),
                atts.len() == outs.len(),
                outs.len() + left == self.retries,
                run(self.retries as nat, outs) is None,
                forall|i: int|
                    0 <= i < atts.len() ==> (status_attempt(self.version, req, n as nat))(
                        #[trigger] atts[i],
                        outs[i],
                    ),
            decreases left,
        {
            let ghost lb = port.log();
            let x = self.exchange_once(port, request.as_slice(), n, 0);
            let r: Result<(), ProtocolError> = match x {
                Ok(_) => Ok(()),
                Err(e) => Err(e),
            };
            proof {
                let evs = since(port.log(), lb.len() as int);
                lemma_split_log(port.log(), lb.len() as int);
                assert(port.log() == lb + evs);
                lemma_concat_push(atts, evs);
                lemma_run_push(self.retries as nat, outs, r);
                atts = atts.push(evs);
                outs = outs.push(r);
                assert(port.log() =~= l0 + concat(atts));
                assert(since(port.log(), l0.len() as int) =~= concat(atts));
                assert(port.log().subrange(0, l0.len() as int) =~= l0);
            }
            match settle(left, r) {
                Some(done) => {
                    assert(run(self.retries as nat, outs) == Some(done));
                    return done;
                },
                None => {
                    left = left - 1;
                },
            }
        }
    }

    /// Pings every id in `[start, end)` and returns, in increasing order, the
    /// ids whose ping succeeded within the retry budget.
    pub fn scan<T: Transport>(&self, port: &mut Recorder<T>, start: u8, end: u8) -> (r: Result<
        Vec<u8>,
        ProtocolError,
    >)
        ensures
            r is Ok,
            final(port).log().len() >= old(port).log().len(),
            final(port).log().subrange(0, old(port).log().len() as int) == old(port).log(),
            exists|pings: Seq<Seq<Event>>, answered: Seq<bool>|
                #![trigger concat(pings), responders_spec(start, answered)]
                pings.len() == answered.len() && answered.len() == (if start < end {
                    end - start
                } else {
                    0
                }) && concat(pings) == since(final(port).log(), old(port).log().len() as int)
                    && r->Ok_0@ == responders_spec(start, answered) && forall|i: int|
                    0 <= i < answered.len() ==> ping_ran(
                        self.version,
                        self.retries as nat,
                        (start + i) as u8,
                        #[trigger] pings[i],
                        answered[i],
                    ),
            forall|k: int| 0 <= k < r->Ok_0@.len() ==> start <= #[trigger] r->Ok_0@[k] < end,
            forall|a: int, b: int|
                0 <= a < b < r->Ok_0@.len() ==> r->Ok_0@[a] < r->Ok_0@[b],
    {
        let ghost l0 = port.log();
        let ghost mut pings = Seq::<Seq<Event>>::empty();
        let mut answered: Vec<bool> = Vec::new();
        let mut id: u8 = start;
        while id < end
            invariant
                start <= id <= end || (start > end && id == start),
                answered@.len() == id - start || (start > end && answered@.len() == 0),
                pings.len() == answered@.len(),
                port.log() == l0 + concat(pings),
                forall|i: int|
                    0 <= i < answered@.len() ==> ping_ran(
                        self.version,
                        self.retries as nat,
                        (start + i) as u8,
                        #[trigger] pings[i],
                        answered@[i],
                    ),
            decreases end - id,
        {
            let ghost lb = port.log();
            let res = self.ping(port, id);
            let ok = res.is_ok();
            proof {
                let evs = since(port.log(), lb.len() as int);
                lemma_split_log(port.log(), lb.len() as int);
                assert(port.log() == lb + evs);
                lemma_concat_push(pings, evs);
                assert(ping_ran(self.version, self.retries as nat, id, evs, ok));
                assert((start + pings.len()) as u8 == id);
                pings = pings.push(evs);
            }
            answered.push(ok);
            id = id + 1;
        }
        let found = responders(start, answered.as_slice());
        proof {
            lemma_responders_in_order(start, answered@);
            assert(since(port.log(), l0.len() as int) =~= concat(pings));
            assert(port.log().subrange(0, l0.len() as int) =~= l0);
            assert(answered@.len() == (if start < end { end - start } else { 0 }));
        }
        Ok(found)
    }

    /// Reads `count` bytes at `address` of device `id`, with retries. A V1
    /// address above `FE` or count above `FF` is refused before any I/O.
    pub fn read<T: Transport>(
        &self,
        port: &mut Recorder<T>,
        id: u8,
        address: u16,
        count: u16,
    ) -> (r: Result<Vec<u8>, ProtocolError>)
        ensures
            r is Ok ==> r->Ok_0@.len() == count,
            final(port).log().len() >= old(port).log().len(),
            final(port).log().subrange(0, old(port).log().len() as int) == old(port).log(),
            read_limit_error(self.version, address, count) is Some ==> r == Err::<
                Vec<u8>,
                ProtocolError,
            >(read_limit_error(self.version, address, count)->Some_0) && final(port).log()
                == old(port).log(),
            read_limit_error(self.version, address, count) is None ==> under_retries(
                self.retries as nat,
                since(final(port).log(), old(port).log().len() as int),
                bytes_result(r),
                data_attempt(
                    self.version,
                    frame(self.version, id, OPCODE_READ, read_params(self.version, address, count)),
                    expected_reply_len(self.version, OPCODE_READ, count),
                    count as nat,
                ),
            ),
    {
        let request = match self.read_request(id, address, count) {
            Ok(f) => f,
            Err(e) => {
                assert(port.log().subrange(0, port.log().len() as int) =~= port.log());
                return Err(e);
            },
        };
        let n = reply_len(self.version, OPCODE_READ, count);
        let ghost req = request@;
        let ghost l0 = port.log();
        let ghost mut atts = Seq::<Seq<Event>>::empty();
        let ghost mut outs = Seq::<Result<Seq<u8>, ProtocolError>>::empty();
        let mut left: usize = self.retries;
        loop
            invariant
                l0 == old(port).log(),
                left <= self.retries,
                read_limit_error(self.version, address, count) is None,
                req == frame(self.version, id, OPCODE_READ, read_params(self.version, address, count)),
                n == expected_reply_len(self.version, OPCODE_READ, count),
                request@ == req,
                port.log() == l0 + concat(atts),
                atts.len() == outs.len(),
                outs.len() + left == self.retries,
                run(self.retries as nat, outs) is None,
                forall|i: int|
                    0 <= i < atts.len() ==> (data_attempt(self.version, req, n as nat, count as nat))(
                        #[trigger] atts[i],
                        outs[i],
                    ),
            decreases left,
        {
            let ghost lb = port.log();
            let x = self.exchange_once(port, request.as_slice(), n, count);
            proof {
                let evs = since(port.log(), lb.len() as int);
                lemma_split_log(port.log(), lb.len() as int);
                assert(port.log() == lb + evs);
                lemma_concat_push(atts, evs);
                lemma_run_push(self.retries as nat, outs, bytes_result(x));
                atts = atts.push(evs);
                outs = outs.push(bytes_result(x));
                assert(port.log() =~= l0 + concat(atts));
                assert(since(port.log(), l0.len() as int) =~= concat(atts));
                assert(port.log().subrange(0, l0.len() as int) =~= l0);
            }
            match settle(left, x) {
                Some(done) => {
                    assert(run(self.retries as nat, outs) == Some(bytes_result(done)));
                    return done;
                },
                None => {
                    left = left - 1;
                },
            }
        }
    }

    /// Writes `data` at `address` of device `id`, with retries. A V1 address
    /// above `FF`, or more data than a frame holds, is refused before any I/O.
    pub fn write<T: Transport>(
        &self,
        port: &mut Recorder<T>,
        id: u8,
        address: u16,
        data: &[u8],
    ) -> (r: Result<(), ProtocolError>)
        ensures
            final(port).log().len() >= old(port).log().len(),
            final(port).log().subrange(0, old(port).log().len() as int) == old(port).log(),
            write_limit_error(self.version, address, data@.len()) is Some ==> r == Err::<
                (),
                ProtocolError,
            >(write_limit_error(self.version, address, data@.len())->Some_0) && final(port).log()
                == old(port).log(),
            write_limit_error(self.version, address, data@.len()) is None ==> under_retries(
                self.retries as nat,
                since(final(port).log(), old(port).log().len() as int),
                r,
                status_attempt(
                    self.version,
                    frame(self.version, id, OPCODE_WRITE, write_params(self.version, address, data@)),
                    expected_reply_len(self.version, OPCODE_WRITE, 0),
                ),
            ),
    {
        let request = match self.write_request(id, address, data) {
            Ok(f) => f,
            Err(e) => {
                assert(port.log().subrange(0, port.log().len() as int) =~= port.log());
                return Err(e);
            },
        };
        let n = reply_len(self.version, OPCODE_WRITE, 0);
        let ghost req = request@;
        let ghost l0 = port.log();
        let ghost mut atts = Seq::<Seq<Event>>::empty();
        let ghost mut outs = Seq::<Result<(), ProtocolError>>::empty();
        let mut left: usize = self.retries;
        loop
            invariant
                l0 == old(port).log(),
                left <= self.retries,
                write_limit_error(self.version, address, data@.len()) is None,
                req == frame(self.version, id, OPCODE_WRITE, write_params(self.version, address, data@)),
                n == expected_reply_len(self.version, OPCODE_WRITE, 0),
                request@ == req,
                port.log() == l0 + concat(atts),
                atts.len() == outs.len(),
                outs.len() + left == self.retries,
                run(self.retries as nat, outs) is None,
                forall|i: int|
                    0 <= i < atts.len() ==> (status_attempt(self.version, req, n as nat))(
                        #[trigger] atts[i],
                        outs[i],
                    ),
            decreases left,
        {
            let ghost lb = port.log();
            let x = self.exchange_once(port, request.as_slice(), n, 0);
            let r: Result<(), ProtocolError> = match x {
                Ok(_) => Ok(()),
                Err(e) => Err(e),
            };
            proof {
                let evs = since(port.log(), lb.len() as int);
                lemma_split_log(port.log(), lb.len() as int);
                assert(port.log() == lb + evs);
                lemma_concat_push(atts, evs);
                lemma_run_push(self.retries as nat, outs, r);
                atts = atts.push(evs);
                outs = outs.push(r);
                assert(port.log() =~= l0 + concat(atts));
                assert(since(port.log(), l0.len() as int) =~= concat(atts));
                assert(port.log().subrange(0, l0.len() as int) =~= l0);
            }
            match settle(left, r) {
                Some(done) => {
                    assert(run(self.retries as nat, outs) == Some(done));
                    return done;
                },
                None => {
                    left = left - 1;
                },
            }
        }
    }

    /// Broadcasts one sync-write frame that gives each of `ids` its entry of
    /// `data`, with retries; no reply is expected, so each attempt is the
    /// write alone. V2 only.
    pub fn sync_write<T: Transport>(
        &self,
        port: &mut Recorder<T>,
        ids: &[u8],
        address: u16,
        data: &[Vec<u8>],
    ) -> (r: Result<(), ProtocolError>)
        ensures
            final(port).log().len() >= old(port).log().len(),
            final(port).log().subrange(0, old(port).log().len() as int) == old(port).log(),
            sync_write_error(self.version, ids@, views(data@)) is Some ==> r == Err::<
                (),
                ProtocolError,
            >(sync_write_error(self.version, ids@, views(data@))->Some_0) && final(port).log()
                == old(port).log(),
            sync_write_error(self.version, ids@, views(data@)) is None ==> under_retries(
                self.retries as nat,
                since(final(port).log(), old(port).log().len() as int),
                r,
                write_attempt(
                    frame(
                        self.version,
                        BROADCAST_ID,
                        OPCODE_SYNC_WRITE,
                        sync_write_params(address, ids@, views(data@)),
                    ),
                ),
            ),
    {
        let request = match self.sync_write_request(ids, address, data) {
            Ok(f) => f,
            Err(e) => {
                assert(port.log().subrange(0, port.log().len() as int) =~= port.log());
                return Err(e);
            },
        };
        let ghost req = request@;
        let ghost l0 = port.log();
        let ghost mut atts = Seq::<Seq<Event>>::empty();
        let ghost mut outs = Seq::<Result<(), ProtocolError>>::empty();
        let mut left: usize = self.retries;
        loop
            invariant
                l0 == old(port).log(),
                left <= self.retries,
                sync_write_error(self.version, ids@, views(data@)) is None,
                req == frame(
                    self.version,
                    BROADCAST_ID,
                    OPCODE_SYNC_WRITE,
                    sync_write_params(address, ids@, views(data@)),
                ),
                request@ == req,
                port.log() == l0 + concat(atts),
                atts.len() == outs.len(),
                outs.len() + left == self.retries,
                run(self.retries as nat, outs) is None,
                forall|i: int|
                    0 <= i < atts.len() ==> (write_attempt(req))(#[trigger] atts[i], outs[i]),
            decreases left,
        {
            let ghost lb = port.log();
            let r = port.write_all(request.as_slice());
            proof {
                let evs = since(port.log(), lb.len() as int);
                lemma_split_log(port.log(), lb.len() as int);
                assert(evs =~= seq![Event::Write(req, r)]);
                lemma_concat_push(atts, evs);
                lemma_run_push(self.retries as nat, outs, r);
                atts = atts.push(evs);
                outs = outs.push(r);
                assert(port.log() =~= l0 + concat(atts));
                assert(since(port.log(), l0.len() as int) =~= concat(atts));
                assert(port.log().subrange(0, l0.len() as int) =~= l0);
            }
            match settle(left, r) {
                Some(done) => {
                    assert(run(self.retries as nat, outs) == Some(done));
                    return done;
                },
                None => {
                    left = left - 1;
                },
            }
        }
    }

    /// One sync-read attempt: writes the broadcast `request`, then reads one
    /// reply of `n` bytes per id and takes its data, stopping at the first
    /// failure.
    fn sync_read_once<T: Transport>(
        &self,
        port: &mut Recorder<T>,
        request: &[u8],
        n: usize,
        n_ids: usize,
        count: u16,
    ) -> (r: Result<Vec<Vec<u8>>, ProtocolError>)
        ensures
            final(port).log().len() >= old(port).log().len(),
            final(port).log().subrange(0, old(port).log().len() as int) == old(port).log(),
            sync_read_attempt_ok(
                request@,
                n as nat,
                count as nat,
                n_ids as nat,
                since(final(port).log(), old(port).log().len() as int),
                blocks_result(r),
            ),
            r is Ok ==> r->Ok_0@.len() == n_ids && blocks_of_len(r->Ok_0@, count as nat),
    {
        let ghost l0 = port.log();
        let w = port.write_all(request);
        if let Err(e) = w {
            assert(since(port.log(), l0.len() as int) =~= seq![Event::Write(request@, w)]);
            assert(port.log().subrange(0, l0.len() as int) =~= l0);
            return Err(e);
        }
        let ghost l1 = port.log();
        let mut out: Vec<Vec<u8>> = Vec::new();
        let mut i: usize = 0;
        while i < n_ids
            invariant
                l0 == old(port).log(),
                l1 == l0.push(Event::Write(request@, w)),
                w is Ok,
                0 <= i <= n_ids,
                out@.len() == i,
                blocks_of_len(out@, count as nat),
                port.log().len() == l1.len() + i,
                port.log().subrange(0, l1.len() as int) == l1,
                forall|j: int|
                    0 <= j < i ==> reply_read(#[trigger] port.log()[l1.len() + j], n as nat, count as nat)
                        == Some(Ok::<Seq<u8>, ProtocolError>(out@[j]@)),
            decreases n_ids - i,
        {
            let ghost lb = port.log();
            let reply = port.read_exact(n);
            assert(port.log().subrange(0, l1.len() as int) =~= l1);
            let reply = match reply {
                Ok(b) => b,
                Err(e) => {
                    proof {
                        let rs = since(port.log(), l0.len() as int).drop_first();
                        assert(rs.len() == i + 1);
                        assert forall|j: int| 0 <= j < rs.len() - 1 implies (#[trigger] reply_read(rs[j], n as nat, count as nat)) matches Some(Ok(_)) by {
                            assert(rs[j] == lb[l1.len() + j]);
                        }
                        assert(rs[i as int] == Event::Read(n as nat, Err::<Seq<u8>, ProtocolError>(e)));
                        assert(port.log().subrange(0, l0.len() as int) =~= l0);
                        assert(port.log().subrange(0, l1.len() as int)[l0.len() as int] == port.log()[l0.len() as int]);
                        assert(since(port.log(), l0.len() as int)[0] == Event::Write(request@, w));
                    }
                    return Err(e);
                },
            };
            let ghost before = out@;
            match sync_read_step(&mut out, reply.as_slice(), count) {
                Ok(()) => {},
                Err(e) => {
                    proof {
                        let rs = since(port.log(), l0.len() as int).drop_first();
                        assert(rs.len() == i + 1);
                        assert forall|j: int| 0 <= j < rs.len() - 1 implies (#[trigger] reply_read(rs[j], n as nat, count as nat)) matches Some(Ok(_)) by {
                            assert(rs[j] == lb[l1.len() + j]);
                        }
                        assert(rs[i as int] == Event::Read(n as nat, Ok::<Seq<u8>, ProtocolError>(reply@)));
                        assert(port.log().subrange(0, l0.len() as int) =~= l0);
                        assert(port.log().subrange(0, l1.len() as int)[l0.len() as int] == port.log()[l0.len() as int]);
                        assert(since(port.log(), l0.len() as int)[0] == Event::Write(request@, w));
                    }
                    return Err(e);
                },
            }
            proof {
                assert forall|k: int| 0 <= k < out@.len() implies (#[trigger] out@[k])@.len()
                    == count by {
                    if k < before.len() {
                        assert(out@.subrange(0, before.len() as int)[k] == out@[k]);
                    }
                }
                assert forall|j: int| 0 <= j < i + 1 implies reply_read(
                    #[trigger] port.log()[l1.len() + j],
                    n as nat,
                    count as nat,
                ) == Some(Ok::<Seq<u8>, ProtocolError>(out@[j]@)) by {
                    if j < i {
                        assert(port.log()[l1.len() + j] == lb[l1.len() + j]);
                        assert(out@.subrange(0, before.len() as int)[j] == out@[j]);
                    }
                }
            }
            i = i + 1;
        }
        proof {
            let rs = since(port.log(), l0.len() as int).drop_first();
            assert(port.log().subrange(0, l0.len() as int) =~= l0);
            assert(port.log().subrange(0, l1.len() as int)[l0.len() as int] == port.log()[l0.len() as int]);
                        assert(since(port.log(), l0.len() as int)[0] == Event::Write(request@, w));
            assert forall|j: int| 0 <= j < n_ids implies reply_read(#[trigger] rs[j], n as nat, count as nat)
                == Some(Ok::<Seq<u8>, ProtocolError>(views(out@)[j])) by {
                assert(rs[j] == port.log()[l1.len() + j]);
            }
        }
        Ok(out)
    }

    /// Broadcasts one sync-read frame for `ids`, then reads one reply per id,
    /// in the order of `ids`, with retries of the whole exchange. V2 only.
    pub fn sync_read<T: Transport>(
        &self,
        port: &mut Recorder<T>,
        ids: &[u8],
        address: u16,
        count: u16,
    ) -> (r: Result<Vec<Vec<u8>>, ProtocolError>)
        ensures
            r is Ok ==> r->Ok_0@.len() == ids@.len() && blocks_of_len(r->Ok_0@, count as nat),
            final(port).log().len() >= old(port).log().len(),
            final(port).log().subrange(0, old(port).log().len() as int) == old(port).log(),
            sync_read_error(self.version, ids@) is Some ==> r == Err::<
                Vec<Vec<u8>>,
                ProtocolError,
            >(sync_read_error(self.version, ids@)->Some_0) && final(port).log() == old(port).log(),
            sync_read_error(self.version, ids@) is None ==> under_retries(
                self.retries as nat,
                since(final(port).log(), old(port).log().len() as int),
                blocks_result(r),
                sync_read_attempt(
                    frame(
                        self.version,
                        BROADCAST_ID,
                        OPCODE_SYNC_READ,
                        sync_read_params(address, count, ids@),
                    ),
                    expected_reply_len(ProtocolVersion::V2, OPCODE_SYNC_READ, count),
                    count as nat,
                    ids@.len(),
                ),
            ),
    {
        let request = match self.sync_read_request(ids, address, count) {
            Ok(f) => f,
            Err(e) => {
                assert(port.log().subrange(0, port.log().len() as int) =~= port.log());
                return Err(e);
            },
        };
        let n = reply_len(ProtocolVersion::V2, OPCODE_SYNC_READ, count);
        let ghost req = request@;
        let ghost l0 = port.log();
        let ghost mut atts = Seq::<Seq<Event>>::empty();
        let ghost mut outs = Seq::<Result<Seq<Seq<u8>>, ProtocolError>>::empty();
        let mut left: usize = self.retries;
        loop
            invariant
                l0 == old(port).log(),
                left <= self.retries,
                sync_read_error(self.version, ids@) is None,
                req == frame(
                    self.version,
                    BROADCAST_ID,
                    OPCODE_SYNC_READ,
                    sync_read_params(address, count, ids@),
                ),
                n == expected_reply_len(ProtocolVersion::V2, OPCODE_SYNC_READ, count),
                request@ == req,
                port.log() == l0 + concat(atts),
                atts.len() == outs.len(),
                outs.len() + left == self.retries,
                run(self.retries as nat, outs) is None,
                forall|i: int|
                    0 <= i < atts.len() ==> (sync_read_attempt(req, n as nat, count as nat, ids@.len()))(
                        #[trigger] atts[i],
                        outs[i],
                    ),
            decreases left,
        {
            let ghost lb = port.log();
            let x = self.sync_read_once(port, request.as_slice(), n, ids.len(), count);
            proof {
                let evs = since(port.log(), lb.len() as int);
                lemma_split_log(port.log(), lb.len() as int);
                assert(port.log() == lb + evs);
                lemma_concat_push(atts, evs);
                lemma_run_push(self.retries as nat, outs, blocks_result(x));
                atts = atts.push(evs);
                outs = outs.push(blocks_result(x));
                assert(port.log() =~= l0 + concat(atts));
                assert(since(port.log(), l0.len() as int) =~= concat(atts));
                assert(port.log().subrange(0, l0.len() as int) =~= l0);
            }
            match settle(left, x) {
                Some(done) => {
                    assert(run(self.retries as nat, outs) == Some(blocks_result(done)));
                    return done;
                },
                None => {
                    left = left - 1;
                },
            }
        }
    }
}

} // verus!
