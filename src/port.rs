//! Choosing and checking a serial port for the bus. The probing itself
//! (listing ports, seeing whether another process holds one, the RS-485
//! ioctl) is done by the caller, which hands the results in.

use vstd::prelude::*;

verus! {

/// Why no port could be used.
#[derive(Clone, Debug, PartialEq, Eq)]
pub enum OpenPortError {
    NoCompatiblePort,
    PortBusy { port_name: String },
    Rs485Error { port_name: String },
}

/// USB adapters known to drive a Dynamixel bus: MCS USB2AX, FTDI FT232H,
/// QinHeng HL-340, STMicroelectronics virtual COM port.
pub open spec fn compatible_usb(vid: u16, pid: u16) -> bool {
    (vid == 0x16d0 && pid == 0x06a7) || (vid == 0x0403 && pid == 0x6014) || (vid == 0x1a86 && pid
        == 0x7523) || (vid == 0x0483 && pid == 0x5740)
}

pub fn is_compatible_usb(vid: u16, pid: u16) -> (r: bool)
    ensures
        r == compatible_usb(vid, pid),
{
    (vid == 0x16d0 && pid == 0x06a7) || (vid == 0x0403 && pid == 0x6014) || (vid == 0x1a86 && pid
        == 0x7523) || (vid == 0x0483 && pid == 0x5740)
}

/// What probing found out about one port.
#[derive(Clone, Copy, Debug, PartialEq, Eq, Structural)]
pub enum PortKind {
    Usb { vid: u16, pid: u16 },
    /// A port of unknown type; `usable` when no other process holds it and
    /// the RS-485 configuration round-trip succeeded.
    Unknown { usable: bool },
    /// A PCI or Bluetooth port.
    Other,
}

pub open spec fn port_accepted(k: PortKind) -> bool {
    match k {
        PortKind::Usb { vid, pid } => compatible_usb(vid, pid),
        PortKind::Unknown { usable } => usable,
        PortKind::Other => false,
    }
}

/// The index of the first acceptable port, or `NoCompatiblePort`.
pub fn guess_port(kinds: &[PortKind]) -> (r: Result<usize, OpenPortError>)
    ensures
        match r {
            Ok(i) => i < kinds@.len() && port_accepted(kinds@[i as int]) && forall|j: int|
                0 <= j < i ==> !port_accepted(#[trigger] kinds@[j]),
            Err(e) => e == OpenPortError::NoCompatiblePort && forall|j: int|
                0 <= j < kinds@.len() ==> !port_accepted(#[trigger] kinds@[j]),
        },
{
    let mut i: usize = 0;
    while i < kinds.len()
        invariant
            0 <= i <= kinds@.len(),
            forall|j: int| 0 <= j < i ==> !port_accepted(#[trigger] kinds@[j]),
        decreases kinds@.len() - i,
    {
        let ok = match kinds[i] {
            PortKind::Usb { vid, pid } => is_compatible_usb(vid, pid),
            PortKind::Unknown { usable } => usable,
            PortKind::Other => false,
        };
        if ok {
            return Ok(i);
        }
        i = i + 1;
    }
    Err(OpenPortError::NoCompatiblePort)
}

/// A port that another process holds is refused unless `force` is given.
pub fn check_not_busy(port_name: &str, busy: bool, force: bool) -> (r: Result<(), OpenPortError>)
    ensures
        r is Ok <==> (force || !busy),
        r is Err ==> (match r {
            Err(OpenPortError::PortBusy { port_name: n }) => n@ == port_name@,
            _ => false,
        }),
{
    if !force && busy {
        return Err(OpenPortError::PortBusy { port_name: port_name.to_owned() });
    }
    Ok(())
}

/// A port that supports RS-485 but refused to enable it is refused unless
/// `force` is given.
pub fn check_rs485(port_name: &str, supported: bool, enabled: bool, force: bool) -> (r: Result<
    (),
    OpenPortError,
>)
    ensures
        r is Ok <==> (force || !supported || enabled),
        r is Err ==> (match r {
            Err(OpenPortError::Rs485Error { port_name: n }) => n@ == port_name@,
            _ => false,
        }),
{
    if supported && !enabled && !force {
        return Err(OpenPortError::Rs485Error { port_name: port_name.to_owned() });
    }
    Ok(())
}

} // verus!
