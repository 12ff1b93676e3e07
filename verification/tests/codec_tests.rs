use hostbeacon::errors::{DecodeError, EncodeError};
use hostbeacon::report::{Interface, IpNet, RawInterface, Report};

fn sample_report() -> Report {
    Report {
        hostname: Some(b"host1".to_vec()),
        interfaces: vec![Interface {
            name: b"eth0".to_vec(),
            mac: Some(vec![0x00, 0x11, 0x22, 0x33, 0x44, 0x55]),
            addrs: vec![IpNet::V4 { addr: vec![192, 168, 1, 10], prefix: 24 }],
        }],
    }
}

#[test]
fn round_trip_uncompressed() {
    let rep = sample_report();
    let bytes = rep.encode().unwrap();
    assert_eq!(bytes[0], 0x00);
    let back = Report::decode(&bytes).unwrap();
    assert!(back.same_as(&rep));
}

#[test]
fn round_trip_compressed() {
    let rep = sample_report();
    let bytes = rep.encode_compressed().unwrap();
    assert_eq!(bytes[0], 0x01);
    let back = Report::decode(&bytes).unwrap();
    assert!(back.same_as(&rep));
}

#[test]
fn round_trip_empty_report() {
    let rep = Report { hostname: None, interfaces: vec![] };
    let bytes = rep.encode().unwrap();
    // flag 0, hostname absent, interface count 0
    assert_eq!(bytes, vec![0x00, 0x00, 0x00, 0x00, 0x00, 0x00]);
    let back = Report::decode(&bytes).unwrap();
    assert!(back.same_as(&rep));
}

#[test]
fn scenario_eth0_exact_envelope() {
    let rep = sample_report();
    let bytes = rep.encode().unwrap();
    let mut expected: Vec<u8> = vec![0x00];
    expected.push(0x01);
    expected.extend_from_slice(&[0x00, 0x00, 0x00, 0x05]);
    expected.extend_from_slice(b"host1");
    expected.extend_from_slice(&[0x00, 0x00, 0x00, 0x01]);
    expected.extend_from_slice(&[0x00, 0x00, 0x00, 0x04]);
    expected.extend_from_slice(b"eth0");
    expected.push(0x01);
    expected.extend_from_slice(&[0x00, 0x11, 0x22, 0x33, 0x44, 0x55]);
    expected.extend_from_slice(&[0x00, 0x00, 0x00, 0x01]);
    expected.push(0x04);
    expected.extend_from_slice(&[192, 168, 1, 10]);
    expected.push(24);
    assert_eq!(bytes, expected);
    let back = Report::decode(&bytes).unwrap();
    assert!(back.same_as(&rep));
    assert_eq!(back.hostname, Some(b"host1".to_vec()));
    assert_eq!(back.interfaces.len(), 1);
    assert_eq!(back.interfaces[0].name, b"eth0".to_vec());
    assert_eq!(back.interfaces[0].mac, Some(vec![0x00, 0x11, 0x22, 0x33, 0x44, 0x55]));
    assert_eq!(back.interfaces[0].addrs.len(), 1);
    assert!(
        matches!(back.interfaces[0].addrs[0], IpNet::V4 { ref addr, prefix: 24 } if *addr == vec![192, 168, 1, 10])
    );
}

#[test]
fn round_trip_ipv6_and_no_mac() {
    let rep = Report {
        hostname: None,
        interfaces: vec![Interface {
            name: b"wlan0".to_vec(),
            mac: None,
            addrs: vec![
                IpNet::V6 { addr: vec![0xfe, 0x80, 0, 0, 0, 0, 0, 0, 0, 0, 0, 0, 0, 0, 0, 1], prefix: 64 },
                IpNet::V4 { addr: vec![10, 0, 0, 7], prefix: 16 },
            ],
        }],
    };
    let bytes = rep.encode().unwrap();
    let back = Report::decode(&bytes).unwrap();
    assert!(back.same_as(&rep));
    let bytes2 = rep.encode_compressed().unwrap();
    let back2 = Report::decode(&bytes2).unwrap();
    assert!(back2.same_as(&rep));
}

#[test]
fn decode_empty_too_short() {
    assert!(matches!(Report::decode(&vec![]), Err(DecodeError::TooShort)));
}

#[test]
fn decode_single_byte_compressed_flag_too_short() {
    assert!(matches!(Report::decode(&vec![0x01]), Err(DecodeError::TooShort)));
}

#[test]
fn decode_single_byte_uncompressed_flag_too_short() {
    assert!(matches!(Report::decode(&vec![0x00]), Err(DecodeError::TooShort)));
}

#[test]
fn decode_garbage_uncompressed() {
    assert!(matches!(
        Report::decode(&vec![0x00, 0xFF, 0xFF]),
        Err(DecodeError::DeserializationFailed)
    ));
}

#[test]
fn decode_garbage_compressed() {
    assert!(matches!(Report::decode(&vec![0x01, 0xFF, 0xFF]), Err(DecodeError::BadCompression)));
}

#[test]
fn decode_trailing_bytes_rejected() {
    let rep = sample_report();
    let mut bytes = rep.encode().unwrap();
    bytes.push(0x00);
    assert!(matches!(Report::decode(&bytes), Err(DecodeError::DeserializationFailed)));
}

#[test]
fn encode_rejects_short_mac() {
    let rep = Report {
        hostname: None,
        interfaces: vec![Interface {
            name: b"eth1".to_vec(),
            mac: Some(vec![0x01, 0x02, 0x03]),
            addrs: vec![],
        }],
    };
    assert!(matches!(rep.encode(), Err(EncodeError::SerializationFailed)));
    assert!(matches!(rep.encode_compressed(), Err(EncodeError::SerializationFailed)));
}

#[test]
fn encode_rejects_bad_address_width() {
    let rep = Report {
        hostname: None,
        interfaces: vec![Interface {
            name: b"eth1".to_vec(),
            mac: None,
            addrs: vec![IpNet::V4 { addr: vec![1, 2, 3], prefix: 8 }],
        }],
    };
    assert!(matches!(rep.encode(), Err(EncodeError::SerializationFailed)));
}

fn raw_list() -> Vec<RawInterface> {
    vec![
        RawInterface {
            name: b"lo".to_vec(),
            mac: None,
            addrs: vec![IpNet::V4 { addr: vec![127, 0, 0, 1], prefix: 8 }],
            loopback: true,
        },
        RawInterface { name: b"dummy0".to_vec(), mac: None, addrs: vec![], loopback: false },
        RawInterface {
            name: b"eth0".to_vec(),
            mac: Some(vec![0x00, 0x11, 0x22, 0x33, 0x44, 0x55]),
            addrs: vec![IpNet::V4 { addr: vec![10, 0, 0, 2], prefix: 16 }],
            loopback: false,
        },
    ]
}

#[test]
fn filtering_drops_loopback_and_addressless() {
    let rep = Report::from_raw(Some(b"host1".to_vec()), raw_list());
    assert_eq!(rep.hostname, Some(b"host1".to_vec()));
    assert_eq!(rep.interfaces.len(), 1);
    assert_eq!(rep.interfaces[0].name, b"eth0".to_vec());
}

#[test]
fn new_filters_and_round_trips() {
    let bytes = Report::new(Some(b"host1".to_vec()), raw_list()).unwrap();
    assert_eq!(bytes[0], 0x00);
    let back = Report::decode(&bytes).unwrap();
    assert_eq!(back.interfaces.len(), 1);
    assert_eq!(back.interfaces[0].name, b"eth0".to_vec());
}

#[test]
fn new_compressed_filters_and_round_trips() {
    let bytes = Report::new_compressed(Some(b"host1".to_vec()), raw_list()).unwrap();
    assert_eq!(bytes[0], 0x01);
    let back = Report::decode(&bytes).unwrap();
    assert_eq!(back.interfaces.len(), 1);
    assert_eq!(back.interfaces[0].name, b"eth0".to_vec());
    assert_eq!(back.interfaces[0].mac, Some(vec![0x00, 0x11, 0x22, 0x33, 0x44, 0x55]));
}

#[test]
fn same_as_detects_differences() {
    let a = sample_report();
    let mut b = sample_report();
    assert!(a.same_as(&b));
    b.hostname = Some(b"host2".to_vec());
    assert!(!a.same_as(&b));
    let mut c = sample_report();
    c.interfaces[0].addrs = vec![IpNet::V4 { addr: vec![192, 168, 1, 11], prefix: 24 }];
    assert!(!a.same_as(&c));
}
