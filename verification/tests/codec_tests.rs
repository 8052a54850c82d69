use simple_simple_sync::codec::{decode, encode, AnnouncePacket, DecodeError, PeerAddr};

fn addr4(a: u8, b: u8, c: u8, d: u8) -> PeerAddr {
    PeerAddr::from_octets(vec![a, b, c, d]).unwrap()
}

fn addr6_local(last: u8) -> PeerAddr {
    let mut o = vec![0u8; 16];
    o[0] = 0xfe;
    o[1] = 0x80;
    o[15] = last;
    PeerAddr::from_octets(o).unwrap()
}

fn sample_packet() -> AnnouncePacket {
    AnnouncePacket {
        device_id: (1u8..=16u8).collect(),
        device_name: b"alpha".to_vec(),
        retransmit: false,
        port: 9000,
        addresses: vec![addr4(192, 168, 1, 7), addr6_local(0x34)],
    }
}

#[test]
fn round_trip_preserves_every_field() {
    let p = sample_packet();
    let bytes = encode(&p);
    let q = decode(&bytes).unwrap();
    assert_eq!(q.device_id, p.device_id);
    assert_eq!(q.device_name, p.device_name);
    assert_eq!(q.retransmit, p.retransmit);
    assert_eq!(q.port, p.port);
    assert_eq!(q.addresses.len(), 2);
    assert_eq!(q.addresses[0].octets, vec![192, 168, 1, 7]);
    assert_eq!(q.addresses[1].octets.len(), 16);
    assert_eq!(q.addresses[1].octets[15], 0x34);
}

#[test]
fn round_trip_retransmit_and_empty_name() {
    let p = AnnouncePacket {
        device_id: vec![0xab; 16],
        device_name: Vec::new(),
        retransmit: true,
        port: 65535,
        addresses: Vec::new(),
    };
    let bytes = encode(&p);
    let q = decode(&bytes).unwrap();
    assert_eq!(q.device_id, vec![0xab; 16]);
    assert!(q.device_name.is_empty());
    assert!(q.retransmit);
    assert_eq!(q.port, 65535);
    assert!(q.addresses.is_empty());
}

#[test]
fn round_trip_largest_name_and_address_list() {
    let p = AnnouncePacket {
        device_id: vec![7; 16],
        device_name: vec![b'x'; 255],
        retransmit: false,
        port: 1,
        addresses: (0..16).map(|i| addr4(10, 0, 0, i as u8)).collect(),
    };
    let bytes = encode(&p);
    let q = decode(&bytes).unwrap();
    assert_eq!(q.device_name.len(), 255);
    assert_eq!(q.addresses.len(), 16);
    assert_eq!(q.addresses[15].octets, vec![10, 0, 0, 15]);
}

#[test]
fn encoding_is_deterministic() {
    let a = encode(&sample_packet());
    let b = encode(&sample_packet());
    assert_eq!(a, b);
}

#[test]
fn wire_layout_is_exact() {
    let p = AnnouncePacket {
        device_id: (1u8..=16u8).collect(),
        device_name: b"ab".to_vec(),
        retransmit: true,
        port: 0x2d09, // 11529
        addresses: vec![addr4(244, 0, 0, 134)],
    };
    let bytes = encode(&p);
    let mut expected: Vec<u8> = Vec::new();
    expected.extend_from_slice(b"SSYN"); // magic
    expected.push(1); // version
    expected.extend((1u8..=16u8).collect::<Vec<u8>>()); // device id
    expected.extend_from_slice(&[0, 2]); // name length
    expected.extend_from_slice(b"ab"); // name
    expected.extend_from_slice(&[0x2d, 0x09]); // port
    expected.push(1); // retransmit
    expected.push(1); // address count
    expected.extend_from_slice(&[4, 244, 0, 0, 134]); // one IPv4 address
    assert_eq!(bytes, expected);
}

#[test]
fn decode_rejects_wrong_magic() {
    let mut bytes = encode(&sample_packet());
    bytes[0] = b'X';
    assert!(matches!(decode(&bytes), Err(DecodeError::BadMagic)));
}

#[test]
fn decode_rejects_unsupported_version() {
    let mut bytes = encode(&sample_packet());
    bytes[4] = 9;
    assert!(matches!(decode(&bytes), Err(DecodeError::UnsupportedVersion)));
}

#[test]
fn decode_rejects_every_truncation() {
    let bytes = encode(&sample_packet());
    for k in 0..bytes.len() {
        let cut = bytes[..k].to_vec();
        assert!(matches!(decode(&cut), Err(DecodeError::Truncated)), "at length {}", k);
    }
}

#[test]
fn decode_rejects_oversized_name_length() {
    let mut bytes = encode(&sample_packet());
    // Declare a 300-byte name: above the 255-byte maximum.
    bytes[21] = 0x01;
    bytes[22] = 0x2c;
    assert!(matches!(decode(&bytes), Err(DecodeError::Malformed)));
}

#[test]
fn decode_rejects_oversized_address_count() {
    let p = AnnouncePacket {
        device_id: vec![1; 16],
        device_name: Vec::new(),
        retransmit: false,
        port: 80,
        addresses: Vec::new(),
    };
    let mut bytes = encode(&p);
    let count_at = bytes.len() - 1;
    bytes[count_at] = 17; // above the 16-address maximum
    assert!(matches!(decode(&bytes), Err(DecodeError::Malformed)));
}

#[test]
fn decode_rejects_bad_retransmit_flag() {
    let mut bytes = encode(&sample_packet());
    let flag_at = 4 + 1 + 16 + 2 + 5 + 2; // after magic, version, id, name length, "alpha", port
    bytes[flag_at] = 2;
    assert!(matches!(decode(&bytes), Err(DecodeError::Malformed)));
}

#[test]
fn decode_rejects_bad_family_byte() {
    let mut bytes = encode(&sample_packet());
    let family_at = 4 + 1 + 16 + 2 + 5 + 2 + 1 + 1;
    assert_eq!(bytes[family_at], 4);
    bytes[family_at] = 5;
    assert!(matches!(decode(&bytes), Err(DecodeError::Malformed)));
}

#[test]
fn decode_rejects_trailing_bytes() {
    let mut bytes = encode(&sample_packet());
    bytes.push(0);
    assert!(matches!(decode(&bytes), Err(DecodeError::Malformed)));
}

#[test]
fn decode_rejects_empty_input() {
    assert!(matches!(decode(&Vec::new()), Err(DecodeError::Truncated)));
}

#[test]
fn peer_addr_accepts_only_legal_lengths() {
    assert!(PeerAddr::from_octets(vec![1, 2, 3, 4]).is_some());
    assert!(PeerAddr::from_octets(vec![0; 16]).is_some());
    assert!(PeerAddr::from_octets(vec![1, 2, 3]).is_none());
    assert!(PeerAddr::from_octets(vec![0; 5]).is_none());
    assert!(PeerAddr::from_octets(Vec::new()).is_none());
    assert!(!addr4(1, 2, 3, 4).is_v6());
    assert!(addr6_local(1).is_v6());
}
