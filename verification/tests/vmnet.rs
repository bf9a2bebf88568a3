//! MAC addresses, interface parameters and frame limits.
use w_vmm::error::NetError;
use w_vmm::guest::Segment;
use w_vmm::vmnet::{
    check, check_recv, check_send, gather, mac_text, parameters, parse_mac, received, sent, Report,
};

#[test]
fn mac_parsing() {
    assert_eq!(parse_mac("02:ab:00:19:FE:01").unwrap(), [2, 171, 0, 25, 254, 1]);
    for invalid in ["", "02:00:00", "0:00:00:00:00:00", "gg:00:00:00:00:00"] {
        assert!(parse_mac(invalid).is_err());
    }
}

#[test]
fn mac_errors_and_signs() {
    assert!(matches!(parse_mac("00:00:00:00:00"), Err(NetError::InvalidVmnetMacAddress)));
    assert!(matches!(parse_mac("00:00:00:00:00:00:00"), Err(NetError::InvalidVmnetMacAddress)));
    assert!(matches!(parse_mac("000:00:00:00:00:00"), Err(NetError::InvalidVmnetMacAddress)));
    assert!(matches!(parse_mac("0g:00:00:00:00:00"), Err(NetError::MacParse)));
    assert!(matches!(parse_mac("-1:00:00:00:00:00"), Err(NetError::MacParse)));
    assert!(matches!(parse_mac("é:00:00:00:00:00"), Err(NetError::MacParse)));
    // The first wrong part decides.
    assert!(matches!(parse_mac("zz:0:00:00:00:00"), Err(NetError::MacParse)));
    assert_eq!(parse_mac("+f:00:00:00:00:00").unwrap(), [15, 0, 0, 0, 0, 0]);
    assert_eq!(u8::from_str_radix("+f", 16), Ok(15));
}

#[test]
fn written_macs_read_back() {
    for mac in [[0; 6], [255; 6], [2, 171, 0, 25, 254, 1]] {
        assert_eq!(parse_mac(&mac_text(&mac)).unwrap(), mac);
    }
    assert_eq!(mac_text(&[2, 171, 0, 25, 254, 1]), "02:ab:00:19:fe:01");
}

fn report() -> Report {
    Report {
        mac: Ok(Some("02:00:00:00:00:01".to_owned())),
        mtu: 1500,
        max_packet: 1514,
        gateway: Ok(Some("192.168.2.1".to_owned())),
        pool_end: Ok(None),
        subnet_mask: Ok(Some("255.255.255.0".to_owned())),
    }
}

#[test]
fn interface_parameters_are_checked() {
    let p = parameters(Some(report())).unwrap();
    assert_eq!(p.mac, [2, 0, 0, 0, 0, 1]);
    assert_eq!(p.max_frame, 1514);
    assert_eq!(p.ipv4.gateway.as_deref(), Some("192.168.2.1"));
    assert_eq!(p.ipv4.pool_end, None);
    assert_eq!(p.ipv4.subnet_mask.as_deref(), Some("255.255.255.0"));
    assert!(matches!(parameters(None), Err(NetError::MissingVmnetInterfaceParameters)));
    let refuse = |change: fn(&mut Report)| {
        let mut r = report();
        change(&mut r);
        parameters(Some(r)).unwrap_err()
    };
    assert!(matches!(refuse(|r| r.mac = Ok(None)), NetError::MissingMac));
    assert!(matches!(refuse(|r| r.mac = Err(NetError::Utf8)), NetError::Utf8));
    assert!(matches!(refuse(|r| r.mac = Ok(Some("x".to_owned()))), NetError::InvalidVmnetMacAddress));
    assert!(matches!(refuse(|r| r.mtu = 65536), NetError::Integer));
    assert!(matches!(refuse(|r| r.mtu = 9000), NetError::UnexpectedMtu { mtu: 9000 }));
    assert!(matches!(refuse(|r| r.max_packet = 1513), NetError::InvalidVmnetFrameCapacity));
    assert!(matches!(refuse(|r| r.max_packet = 65554), NetError::InvalidVmnetFrameCapacity));
    assert!(matches!(refuse(|r| r.pool_end = Err(NetError::Utf8)), NetError::Utf8));
}

#[test]
fn statuses_become_errors() {
    check(1000, "start").unwrap();
    for status in [1005, 1010] {
        let e = check(status, "start").unwrap_err();
        assert!(matches!(e, NetError::PermissionDenied { operation, status: s } if operation == "start" && s == status));
    }
    let e = check(1001, "start").unwrap_err();
    assert!(matches!(e, NetError::Vmnet { operation, status: 1001 } if operation == "start"));
}

#[test]
fn frames_are_bounded_both_ways() {
    let segments = [
        Segment { addr: 0, len: 10 },
        Segment { addr: 64, len: 0 },
        Segment { addr: 128, len: 4 },
    ];
    let (length, rest) = gather(&segments);
    assert_eq!(length, 14);
    assert_eq!(rest, [segments[0], segments[2]]);
    check_send(14, 2, 1514).unwrap();
    for bad in [13, 1515] {
        let e = check_send(bad, 1, 1514).unwrap_err();
        assert!(matches!(e, NetError::InvalidVmnetTxFrameSize { length, capacity: 1514 } if length == bad));
    }
    assert!(matches!(check_send(14, 1 << 32, 1514), Err(NetError::Integer)));
    assert_eq!(sent(1007, 0).unwrap(), false);
    assert_eq!(sent(1000, 1).unwrap(), true);
    assert_eq!(sent(1000, 0).unwrap(), false);
    assert!(matches!(sent(1000, 2), Err(NetError::InvalidVmnetTxCount { count: 2 })));
    assert!(sent(1001, 1).is_err());
    check_recv(1514, 1, 1514).unwrap();
    assert!(matches!(
        check_recv(1513, 1, 1514),
        Err(NetError::VmnetRxBufferTooSmall { length: 1513, capacity: 1514 })
    ));
    assert_eq!(received(1000, 0, 0, 1514).unwrap(), None);
    assert_eq!(received(1000, 1, 14, 1514).unwrap(), Some(14));
    assert!(matches!(received(1000, -1, 0, 1514), Err(NetError::InvalidVmnetRxCount { count: -1 })));
    assert!(matches!(
        received(1000, 1, 1515, 1514),
        Err(NetError::InvalidVmnetRxFrameSize { length: 1515, capacity: 1514 })
    ));
    assert!(received(1005, 1, 14, 1514).is_err());
}

#[test]
fn the_case_of_digits_does_not_matter() {
    for mac in [[0xab; 6], [2, 171, 0, 25, 254, 1]] {
        let text = mac_text(&mac);
        assert_eq!(text.len(), 17);
        assert_eq!(parse_mac(&text.to_uppercase()).unwrap(), mac);
        let mixed: String = text
            .chars()
            .enumerate()
            .map(|(i, c)| if i % 2 == 0 { c.to_ascii_uppercase() } else { c })
            .collect();
        assert_eq!(parse_mac(&mixed).unwrap(), mac);
    }
    assert!(parse_mac("02:ab:00:19:fe:01 ").is_err());
}
