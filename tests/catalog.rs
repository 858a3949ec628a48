use dynamixel::regs::{le_value, text_less, value_bytes};
use dynamixel::port::{check_not_busy, check_rs485, guess_port, is_compatible_usb, OpenPortError, PortKind};
use dynamixel::protocol::{ProtocolVersion, ProtocolVersionError};
use dynamixel::regs::{find_register, list_models, list_registers, Access, RegSize, RegSpec, RegSpecError};

#[test]
fn protocol_names() {
    assert_eq!(ProtocolVersion::parse("1"), Ok(ProtocolVersion::V1));
    assert_eq!(ProtocolVersion::parse("2"), Ok(ProtocolVersion::V2));
    assert_eq!(
        ProtocolVersion::parse("3"),
        Err(ProtocolVersionError::BadProtocol("3".to_string()))
    );
    assert_eq!(ProtocolVersion::V2.number(), 2);
}

#[test]
fn regspec_parse() {
    assert_eq!(
        RegSpec::parse("AX-12A/present_temperature"),
        Ok(RegSpec { model: "AX-12A".to_string(), name: "present_temperature".to_string() })
    );
    assert_eq!(RegSpec::parse("AX-12A"), Err(RegSpecError::BadRegSpec));
    assert_eq!(RegSpec::parse("/x"), Err(RegSpecError::BadRegSpec));
    assert_eq!(RegSpec::parse("a/b/c"), Err(RegSpecError::BadRegSpec));
    assert_eq!(RegSpec::parse("a b/c"), Err(RegSpecError::BadRegSpec));
}

#[test]
fn catalog_lookups() {
    assert_eq!(list_models(ProtocolVersion::V1), vec!["AX-12A"]);
    assert_eq!(list_models(ProtocolVersion::V2), vec!["XL430-W250"]);
    let regs = list_registers(ProtocolVersion::V1, "AX-12A");
    assert!(!regs.is_empty());
    assert!(regs.iter().all(|r| r.model == "AX-12A" && r.proto == ProtocolVersion::V1));
    assert!(list_registers(ProtocolVersion::V2, "AX-12A").is_empty());

    let spec = RegSpec::parse("AX-12A/present_temperature").unwrap();
    let reg = find_register(ProtocolVersion::V1, spec).unwrap();
    assert_eq!(reg.address, 43);
    assert_eq!(reg.size.bytes(), 1);
    assert_eq!(reg.access.as_str(), "R");

    let spec = RegSpec::parse("XL430-W250/goal_position").unwrap();
    let reg = find_register(ProtocolVersion::V2, spec).unwrap();
    assert_eq!((reg.address, reg.size, reg.access), (116, RegSize::Word, Access::RW));

    let spec = RegSpec::parse("XL430-W250/goal_position").unwrap();
    assert!(find_register(ProtocolVersion::V1, spec).is_none());
}

#[test]
fn port_choice() {
    assert!(is_compatible_usb(0x0403, 0x6014));
    assert!(!is_compatible_usb(0x0403, 0x6001));
    let kinds = [
        PortKind::Other,
        PortKind::Usb { vid: 0x0403, pid: 0x6001 },
        PortKind::Unknown { usable: false },
        PortKind::Usb { vid: 0x1a86, pid: 0x7523 },
        PortKind::Unknown { usable: true },
    ];
    assert_eq!(guess_port(&kinds), Ok(3));
    assert_eq!(guess_port(&kinds[..3]), Err(OpenPortError::NoCompatiblePort));
    assert_eq!(
        check_not_busy("/dev/ttyUSB0", true, false),
        Err(OpenPortError::PortBusy { port_name: "/dev/ttyUSB0".to_string() })
    );
    assert_eq!(check_not_busy("/dev/ttyUSB0", true, true), Ok(()));
    assert_eq!(
        check_rs485("/dev/ttyUSB0", true, false, false),
        Err(OpenPortError::Rs485Error { port_name: "/dev/ttyUSB0".to_string() })
    );
    assert_eq!(check_rs485("/dev/ttyUSB0", false, false, false), Ok(()));
}

#[test]
fn register_value_bytes() {
    assert_eq!(value_bytes(RegSize::Byte, 0x7F), Some(vec![0x7F]));
    assert_eq!(value_bytes(RegSize::Byte, 0x100), None);
    assert_eq!(value_bytes(RegSize::Half, 0x1234), Some(vec![0x34, 0x12]));
    assert_eq!(value_bytes(RegSize::Half, 0x10000), None);
    assert_eq!(value_bytes(RegSize::Word, 0x12345678), Some(vec![0x78, 0x56, 0x34, 0x12]));
    assert_eq!(value_bytes(RegSize::Variable, 1), None);
    assert_eq!(le_value(&[0x78, 0x56, 0x34, 0x12]), 0x12345678);
    assert_eq!(le_value(&[0x20]), 32);
    assert_eq!(le_value(&[]), 0);
    assert_eq!(le_value(&[0xFF, 0xFF, 0xFF, 0xFF]), u32::MAX);
}

#[test]
fn byte_order_of_text() {
    assert!(text_less("AX-12A", "XL430-W250"));
    assert!(!text_less("XL430-W250", "AX-12A"));
    assert!(text_less("AX", "AX-12A"));
    assert!(!text_less("AX", "AX"));
    assert!(text_less("", "a"));
}
