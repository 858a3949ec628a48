//! Protocol versions and the errors shared by the engines.

use vstd::prelude::*;

use crate::text::same_text;

verus! {

/// The two wire protocols.
#[derive(Clone, Copy, Debug, PartialEq, Eq, Structural)]
pub enum ProtocolVersion {
    V1,
    V2,
}

/// A protocol name that is neither `1` nor `2`.
#[derive(Clone, Debug, PartialEq, Eq)]
pub enum ProtocolVersionError {
    BadProtocol(String),
}

/// Failures of the codec and of the engines.
#[derive(Clone, Copy, Debug, PartialEq, Eq, Structural)]
pub enum ProtocolError {
    /// A reply failed framing, header, length or checksum verification.
    BadPacket,
    /// The address is out of the chosen protocol's range.
    InvalidAddress,
    /// The byte count is out of the chosen protocol's range.
    InvalidCount,
    /// A well-formed reply whose device error byte is not zero.
    StatusError(u8),
    /// The caller broke a precondition of the operation.
    InvalidArg,
    /// A transport read did not complete within its deadline.
    TimedOut,
    /// The transport failed.
    Io,
}

/// The error of the single-protocol Protocol 1 helpers.
#[derive(Clone, Copy, Debug, PartialEq, Eq, Structural)]
pub enum DxlError {
    BadPacket,
}

impl ProtocolVersion {
    /// Parses a protocol name: `1` or `2`.
    pub fn parse(input: &str) -> (r: Result<ProtocolVersion, ProtocolVersionError>)
        ensures
            input@ == "1"@ ==> r == Ok::<ProtocolVersion, ProtocolVersionError>(ProtocolVersion::V1),
            input@ == "2"@ ==> r == Ok::<ProtocolVersion, ProtocolVersionError>(ProtocolVersion::V2),
            input@ != "1"@ && input@ != "2"@ ==> (match r {
                Err(ProtocolVersionError::BadProtocol(s)) => s@ == input@,
                Ok(_) => false,
            }),
    {
        proof {
            reveal_strlit("1");
            reveal_strlit("2");
            assert("1"@[0] != "2"@[0]);
        }
        if same_text(input, "1") {
            return Ok(ProtocolVersion::V1);
        }
        if same_text(input, "2") {
            return Ok(ProtocolVersion::V2);
        }
        Err(ProtocolVersionError::BadProtocol(input.to_owned()))
    }

    /// The protocol's number, as written on the command line.
    pub fn number(&self) -> (r: u8)
        ensures
            r == (match self {
                ProtocolVersion::V1 => 1u8,
                ProtocolVersion::V2 => 2u8,
            }),
    {
        match self {
            ProtocolVersion::V1 => 1,
            ProtocolVersion::V2 => 2,
        }
    }
}

} // verus!
