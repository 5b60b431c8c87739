use discv4_codec::endpoint::{Endpoint, Ip};
use discv4_codec::message::{
    FindNodeMessage, NeighboursMessage, NodeId, NodeRecord, PingMessage, PongMessage, H256,
};
use discv4_codec::wire::DecodeError;

fn sample_ping() -> PingMessage {
    PingMessage {
        from: Endpoint { address: Ip::V4([1, 2, 3, 4]), udp_port: 30303, tcp_port: 30303 },
        to: Endpoint { address: Ip::V4([5, 6, 7, 8]), udp_port: 30303, tcp_port: 30303 },
        expire: 1700000000,
    }
}

fn sample_pong() -> PongMessage {
    PongMessage {
        to: Endpoint { address: Ip::V4([5, 6, 7, 8]), udp_port: 30303, tcp_port: 30303 },
        echo: H256([0xaa; 32]),
        expire: 99,
    }
}

#[test]
fn ping_example_end_to_end() {
    let p = sample_ping();
    let bytes = p.encode();
    let expected = vec![
        0xde, 0x04, 0xcb, 0x84, 1, 2, 3, 4, 0x82, 0x76, 0x5f, 0x82, 0x76, 0x5f, 0xcb, 0x84, 5,
        6, 7, 8, 0x82, 0x76, 0x5f, 0x82, 0x76, 0x5f, 0x84, 0x65, 0x53, 0xf1, 0x00,
    ];
    assert_eq!(bytes, expected);
    assert_eq!(p.length(), 31);
    assert_eq!(p.length(), bytes.len());
    assert_eq!(PingMessage::decode(&bytes), Ok(p));
}

#[test]
fn ping_length_long_header() {
    let p = PingMessage {
        from: Endpoint { address: Ip::V6([1; 16]), udp_port: 65535, tcp_port: 65535 },
        to: Endpoint { address: Ip::V6([2; 16]), udp_port: 65535, tcp_port: 65535 },
        expire: u64::MAX,
    };
    let bytes = p.encode();
    assert_eq!(p.length(), 60);
    assert_eq!(p.length(), bytes.len());
    assert_eq!(PingMessage::decode(&bytes), Ok(p));
}

#[test]
fn ping_extension_small_seq_absorbed() {
    // hand-built five-field shape: [4, from, to, expire, enr_seq]
    let base = sample_ping().encode();
    let mut ext = vec![0xdf];
    ext.extend_from_slice(&base[1..]);
    ext.push(0x05);
    assert_eq!(PingMessage::decode(&ext), Ok(sample_ping()));
}

#[test]
fn ping_extension_wide_seq_absorbed() {
    let base = sample_ping().encode();
    let mut ext = vec![0xe4];
    ext.extend_from_slice(&base[1..]);
    ext.extend_from_slice(&[0x85, 1, 2, 3, 4, 5]);
    assert_eq!(PingMessage::decode(&ext), Ok(sample_ping()));
}

#[test]
fn ping_six_fields_rejected() {
    // one field beyond even the extended shape: both attempts mismatch
    let base = sample_ping().encode();
    let mut six = vec![0xe0];
    six.extend_from_slice(&base[1..]);
    six.extend_from_slice(&[0x05, 0x06]);
    assert_eq!(PingMessage::decode(&six), Err(DecodeError::FieldCountMismatch));
}

#[test]
fn ping_corrupt_endpoint_not_masked() {
    // well-counted fields, but the sender address holds seven octets: the
    // field-level error must come back, not a shape retry
    let bytes = [
        0xd5, 0x04, 0xca, 0x87, 1, 2, 3, 4, 5, 6, 7, 0x50, 0x51, 0xc7, 0x84, 5, 6, 7, 8, 0x50,
        0x51, 0x63,
    ];
    assert_eq!(
        PingMessage::decode(&bytes),
        Err(DecodeError::InvalidAddressLength(7))
    );
}

#[test]
fn ping_truncated_rejected() {
    assert_eq!(
        PingMessage::decode(&[0xc3, 0x04]),
        Err(DecodeError::TruncatedInput)
    );
}

#[test]
fn ping_trailing_bytes_after_list_ignored() {
    let mut bytes = sample_ping().encode();
    bytes.push(0xff);
    assert_eq!(PingMessage::decode(&bytes), Ok(sample_ping()));
}

#[test]
fn pong_round_trip() {
    let p = sample_pong();
    let bytes = p.encode();
    assert_eq!(bytes[0], 0xee);
    assert_eq!(bytes.len(), 47);
    assert_eq!(PongMessage::decode(&bytes), Ok(p));
}

#[test]
fn pong_extension_absorbed() {
    // hand-built four-field shape: [to, echo, expire, enr_seq]
    let base = sample_pong().encode();
    let mut ext = vec![0xef];
    ext.extend_from_slice(&base[1..]);
    ext.push(0x07);
    assert_eq!(PongMessage::decode(&ext), Ok(sample_pong()));
}

#[test]
fn pong_corrupt_echo_not_masked() {
    // echo of 31 bytes instead of 32 in a well-counted record
    let mut bytes = vec![0xed];
    bytes.extend_from_slice(&sample_pong().to.encode());
    bytes.push(0x9f);
    bytes.extend_from_slice(&[0xaa; 31]);
    bytes.push(0x63);
    assert_eq!(PongMessage::decode(&bytes), Err(DecodeError::MalformedField));
}

#[test]
fn find_node_round_trip() {
    let mut id = [0u8; 64];
    for (k, b) in id.iter_mut().enumerate() {
        *b = k as u8;
    }
    let m = FindNodeMessage { id: NodeId(id), expire: 1700000000 };
    let bytes = m.encode();
    assert_eq!(bytes.len(), 73);
    assert_eq!(&bytes[..4], &[0xf8, 0x47, 0xb8, 0x40]);
    assert_eq!(FindNodeMessage::decode(&bytes), Ok(m));
}

#[test]
fn neighbours_round_trip() {
    let a = NodeRecord {
        address: Ip::V4([10, 0, 0, 1]),
        udp_port: 30303,
        tcp_port: 30304,
        id: NodeId([0x11; 64]),
    };
    let b = NodeRecord {
        address: Ip::V6([0xfe; 16]),
        udp_port: 1,
        tcp_port: 0,
        id: NodeId([0x22; 64]),
    };
    // wire order and duplicates are kept as given
    let m = NeighboursMessage { nodes: vec![a, b, a], expire: 1700000000 };
    let bytes = m.encode();
    assert_eq!(NeighboursMessage::decode(&bytes), Ok(m));
}

#[test]
fn neighbours_empty_round_trip() {
    let m = NeighboursMessage { nodes: vec![], expire: 9 };
    let bytes = m.encode();
    assert_eq!(bytes, vec![0xc2, 0xc0, 0x09]);
    assert_eq!(NeighboursMessage::decode(&bytes), Ok(m));
}

#[test]
fn neighbours_extra_field_rejected() {
    let bytes = [0xc4, 0xc0, 0x09, 0x01, 0x02];
    assert_eq!(
        NeighboursMessage::decode(&bytes),
        Err(DecodeError::FieldCountMismatch)
    );
}

#[test]
fn endpoint_from_record_projection() {
    let r = NodeRecord {
        address: Ip::V4([1, 2, 3, 4]),
        udp_port: 7,
        tcp_port: 8,
        id: NodeId([3; 64]),
    };
    let e = Endpoint::from(r);
    assert_eq!(
        e,
        Endpoint { address: Ip::V4([1, 2, 3, 4]), udp_port: 7, tcp_port: 8 }
    );
}
