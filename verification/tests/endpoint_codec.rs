use discv4_codec::endpoint::{Endpoint, Ip};
use discv4_codec::wire::DecodeError;

#[test]
fn ip_v4_round_trip() {
    let ip = Ip::V4([1, 2, 3, 4]);
    let bytes = ip.encode();
    assert_eq!(bytes, vec![0x84, 1, 2, 3, 4]);
    assert_eq!(ip.length(), 5);
    assert_eq!(ip.length(), bytes.len());
    assert_eq!(Ip::decode(&bytes), Ok(ip));
}

#[test]
fn ip_v6_round_trip() {
    let ip = Ip::V6([0, 1, 2, 3, 4, 5, 6, 7, 8, 9, 10, 11, 12, 13, 14, 255]);
    let bytes = ip.encode();
    assert_eq!(bytes.len(), 17);
    assert_eq!(bytes[0], 0x90);
    assert_eq!(ip.length(), 17);
    assert_eq!(Ip::decode(&bytes), Ok(ip));
}

#[test]
fn ip_empty_address_rejected() {
    assert_eq!(Ip::decode(&[0x80]), Err(DecodeError::EmptyAddress));
}

#[test]
fn ip_length_five_rejected() {
    assert_eq!(
        Ip::decode(&[0x85, 1, 2, 3, 4, 5]),
        Err(DecodeError::InvalidAddressLength(5))
    );
}

#[test]
fn ip_length_fifteen_rejected() {
    let bytes = [0x8f, 1, 2, 3, 4, 5, 6, 7, 8, 9, 10, 11, 12, 13, 14, 15];
    assert_eq!(Ip::decode(&bytes), Err(DecodeError::InvalidAddressLength(15)));
}

#[test]
fn ip_single_byte_is_length_one() {
    // A lone small byte is a one-byte string item: not a valid address.
    assert_eq!(Ip::decode(&[0x05]), Err(DecodeError::InvalidAddressLength(1)));
}

#[test]
fn ip_non_minimal_header_rejected() {
    // A small byte wrapped in a needless length prefix has no accepted spelling.
    assert_eq!(Ip::decode(&[0x81, 0x05]), Err(DecodeError::MalformedField));
}

#[test]
fn ip_long_form_for_short_length_rejected() {
    // a two-byte length header announcing a length that fits the short form
    let mut bytes = vec![0xb8, 0x05];
    bytes.extend_from_slice(&[1, 2, 3, 4, 5]);
    assert_eq!(Ip::decode(&bytes), Err(DecodeError::MalformedField));
}

#[test]
fn ip_length_with_leading_zero_rejected() {
    let mut bytes = vec![0xb9, 0x00, 0x40];
    bytes.extend_from_slice(&[0; 64]);
    assert_eq!(Ip::decode(&bytes), Err(DecodeError::MalformedField));
}

#[test]
fn ip_long_length_truncated() {
    // the header announces 64 payload bytes; only three follow
    assert_eq!(
        Ip::decode(&[0xb8, 0x40, 1, 2, 3]),
        Err(DecodeError::TruncatedInput)
    );
}

#[test]
fn ip_empty_input_truncated() {
    assert_eq!(Ip::decode(&[]), Err(DecodeError::TruncatedInput));
}

#[test]
fn endpoint_round_trip_v4() {
    let e = Endpoint { address: Ip::V4([1, 2, 3, 4]), udp_port: 30303, tcp_port: 30303 };
    let bytes = e.encode();
    assert_eq!(
        bytes,
        vec![0xcb, 0x84, 1, 2, 3, 4, 0x82, 0x76, 0x5f, 0x82, 0x76, 0x5f]
    );
    assert_eq!(Endpoint::decode(&bytes), Ok(e));
}

#[test]
fn endpoint_round_trip_v6_edge_ports() {
    let e = Endpoint {
        address: Ip::V6([9; 16]),
        udp_port: 0,
        tcp_port: 65535,
    };
    let bytes = e.encode();
    assert_eq!(Endpoint::decode(&bytes), Ok(e));
}

#[test]
fn endpoint_extra_field_is_count_mismatch() {
    // address, two ports, and one field too many
    let bytes = [0xc8, 0x84, 1, 2, 3, 4, 0x01, 0x02, 0x03];
    assert_eq!(Endpoint::decode(&bytes), Err(DecodeError::FieldCountMismatch));
}

#[test]
fn endpoint_truncated_payload() {
    let bytes = [0xc5, 0x84, 0x01, 0x02];
    assert_eq!(Endpoint::decode(&bytes), Err(DecodeError::TruncatedInput));
}

#[test]
fn endpoint_port_leading_zero_rejected() {
    let bytes = [0xc8, 0x84, 1, 2, 3, 4, 0x82, 0x00, 0x05];
    assert_eq!(Endpoint::decode(&bytes), Err(DecodeError::MalformedField));
}

#[test]
fn endpoint_port_overflow_rejected() {
    // a three-byte port value (65536) cannot fit in sixteen bits
    let bytes = [0xca, 0x84, 1, 2, 3, 4, 0x83, 0x01, 0x00, 0x00, 0x50];
    assert_eq!(Endpoint::decode(&bytes), Err(DecodeError::MalformedField));
}
