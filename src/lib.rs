//! Both sides of the Dynamixel servo wire protocol: frame codecs for
//! Protocol 1 and Protocol 2, the master's request/reply engine and the
//! slave's resynchronising receive state machine.

use vstd::prelude::*;

pub mod checksum;
pub mod cli;
pub mod codec;
pub mod master;
pub mod opcode;
pub mod port;
pub mod protocol;
pub mod regs;
pub mod slave;
pub mod text;

verus! {

} // verus!
