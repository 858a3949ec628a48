//! Instruction opcodes and the status markers that share their byte slot.

use vstd::prelude::*;

verus! {

/// The byte in the opcode slot of a frame.
#[derive(Clone, Copy, Debug, PartialEq, Eq, Structural)]
pub enum Opcode {
    /// The error-byte slot of a Protocol 1 status (byte `00`).
    StatusV1,
    Ping,
    Read,
    Write,
    RegWrite,
    Action,
    FactoryReset,
    Reboot,
    Clear,
    ControlTableBackup,
    /// The marker before a Protocol 2 status's error byte (byte `55`).
    StatusV2,
    SyncRead,
    SyncWrite,
    FastSyncRead,
    BulkRead,
    BulkWrite,
    FastBulkRead,
}

/// The wire byte of each opcode.
pub open spec fn opcode_byte(op: Opcode) -> u8 {
    match op {
        Opcode::StatusV1 => 0x00,
        Opcode::Ping => 0x01,
        Opcode::Read => 0x02,
        Opcode::Write => 0x03,
        Opcode::RegWrite => 0x04,
        Opcode::Action => 0x05,
        Opcode::FactoryReset => 0x06,
        Opcode::Reboot => 0x08,
        Opcode::Clear => 0x10,
        Opcode::ControlTableBackup => 0x20,
        Opcode::StatusV2 => 0x55,
        Opcode::SyncRead => 0x82,
        Opcode::SyncWrite => 0x83,
        Opcode::FastSyncRead => 0x8A,
        Opcode::BulkRead => 0x92,
        Opcode::BulkWrite => 0x93,
        Opcode::FastBulkRead => 0x9A,
    }
}

/// The opcode whose wire byte is `b`, if any.
pub open spec fn opcode_of(b: u8) -> Option<Opcode> {
    if exists|op: Opcode| opcode_byte(op) == b {
        Some(choose|op: Opcode| opcode_byte(op) == b)
    } else {
        None
    }
}

/// Distinct opcodes have distinct bytes, so a byte names at most one opcode.
pub proof fn lemma_opcode_byte_injective(a: Opcode, b: Opcode)
    ensures
        opcode_byte(a) == opcode_byte(b) ==> a == b,
{
}

pub proof fn lemma_opcode_of_byte(op: Opcode)
    ensures
        opcode_of(opcode_byte(op)) == Some(op),
{
    let c = choose|o: Opcode| opcode_byte(o) == opcode_byte(op);
    lemma_opcode_byte_injective(c, op);
}

impl Opcode {
    /// The opcode's wire byte.
    pub fn to_u8(self) -> (r: u8)
        ensures
            r == opcode_byte(self),
    {
        match self {
            Opcode::StatusV1 => 0x00,
            Opcode::Ping => 0x01,
            Opcode::Read => 0x02,
            Opcode::Write => 0x03,
            Opcode::RegWrite => 0x04,
            Opcode::Action => 0x05,
            Opcode::FactoryReset => 0x06,
            Opcode::Reboot => 0x08,
            Opcode::Clear => 0x10,
            Opcode::ControlTableBackup => 0x20,
            Opcode::StatusV2 => 0x55,
            Opcode::SyncRead => 0x82,
            Opcode::SyncWrite => 0x83,
            Opcode::FastSyncRead => 0x8A,
            Opcode::BulkRead => 0x92,
            Opcode::BulkWrite => 0x93,
            Opcode::FastBulkRead => 0x9A,
        }
    }

    /// The opcode whose wire byte is `b`; `None` for a byte that names none.
    pub fn from_u8(b: u8) -> (r: Option<Opcode>)
        ensures
            r == opcode_of(b),
    {
        let r = match b {
            0x00 => Some(Opcode::StatusV1),
            0x01 => Some(Opcode::Ping),
            0x02 => Some(Opcode::Read),
            0x03 => Some(Opcode::Write),
            0x04 => Some(Opcode::RegWrite),
            0x05 => Some(Opcode::Action),
            0x06 => Some(Opcode::FactoryReset),
            0x08 => Some(Opcode::Reboot),
            0x10 => Some(Opcode::Clear),
            0x20 => Some(Opcode::ControlTableBackup),
            0x55 => Some(Opcode::StatusV2),
            0x82 => Some(Opcode::SyncRead),
            0x83 => Some(Opcode::SyncWrite),
            0x8A => Some(Opcode::FastSyncRead),
            0x92 => Some(Opcode::BulkRead),
            0x93 => Some(Opcode::BulkWrite),
            0x9A => Some(Opcode::FastBulkRead),
            _ => None,
        };
        proof {
            match r {
                Some(op) => {
                    lemma_opcode_of_byte(op);
                },
                None => {
                    assert forall|op: Opcode| opcode_byte(op) != b by {
                        match op {
                            _ => {},
                        }
                    }
                },
            }
        }
        r
    }
}

} // verus!
