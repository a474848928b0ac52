use rombuster::trigger::{host_of, u32_bytes, Endian, Trigger, MAGIC};

fn client() -> Trigger {
    Trigger::new("192.0.2.1")
}

#[test]
fn new_uses_fixed_port() {
    let t = client();
    assert_eq!(t.host, "192.0.2.1".to_string());
    assert_eq!(t.port, 32764);
}

#[test]
fn host_of_strips_port_suffix() {
    assert_eq!(host_of("192.0.2.1:8080"), "192.0.2.1".to_string());
    assert_eq!(host_of("192.0.2.1"), "192.0.2.1".to_string());
    assert_eq!(host_of("router.lan:80:99"), "router.lan".to_string());
    assert_eq!(host_of(":80"), String::new());
    assert_eq!(host_of(""), String::new());
}

#[test]
fn handshake_request_is_abcd() {
    assert_eq!(client().handshake_request(), b"abcd".to_vec());
}

#[test]
fn handshake_reply_little_endian() {
    // 0x53634D4D stored least-significant byte first.
    let reply = [0x4D, 0x4D, 0x63, 0x53, 0, 0, 0, 0, 0, 0, 0, 0];
    assert_eq!(client().parse_handshake_reply(&reply), Some(Endian::Little));
}

#[test]
fn handshake_reply_big_endian() {
    let reply = [0x53, 0x63, 0x4D, 0x4D, 9, 9, 9, 9, 9, 9, 9, 9];
    assert_eq!(client().parse_handshake_reply(&reply), Some(Endian::Big));
}

#[test]
fn handshake_reply_neither_order_fails() {
    let reply = [0xDE, 0xAD, 0xBE, 0xEF, 0, 0, 0, 0, 0, 0, 0, 0];
    assert_eq!(client().parse_handshake_reply(&reply), None);
}

#[test]
fn word_roundtrip_both_orders() {
    let le = u32_bytes(Endian::Little, 0x0102_0304);
    assert_eq!(le, vec![0x04, 0x03, 0x02, 0x01]);
    let be = u32_bytes(Endian::Big, 0x0102_0304);
    assert_eq!(be, vec![0x01, 0x02, 0x03, 0x04]);
}

#[test]
fn request_header_little_endian_layout() {
    let t = client();
    // Message 1 with an empty payload: declared length counts the
    // trailing NUL, so it is 1.
    let header = t.build_header(Endian::Little, 1, 0);
    assert_eq!(
        header,
        vec![0x4D, 0x4D, 0x63, 0x53, 1, 0, 0, 0, 1, 0, 0, 0]
    );
}

#[test]
fn request_header_big_endian_layout() {
    let t = client();
    let header = t.build_header(Endian::Big, 1, 5);
    assert_eq!(
        header,
        vec![0x53, 0x63, 0x4D, 0x4D, 0, 0, 0, 1, 0, 0, 0, 6]
    );
}

#[test]
fn response_header_accepted_when_magic_matches_and_code_zero() {
    let t = client();
    let mut header = u32_bytes(Endian::Little, MAGIC);
    header.extend_from_slice(&u32_bytes(Endian::Little, 0));
    header.extend_from_slice(&u32_bytes(Endian::Little, 417));
    assert_eq!(t.parse_response_header(Endian::Little, &header), Some(417));
}

#[test]
fn response_header_bad_magic_yields_no_payload() {
    let t = client();
    let mut header = u32_bytes(Endian::Little, 0x1234_5678);
    header.extend_from_slice(&u32_bytes(Endian::Little, 0));
    // A huge declared length changes nothing: the frame is rejected.
    header.extend_from_slice(&u32_bytes(Endian::Little, 0xFFFF_FFFF));
    assert_eq!(t.parse_response_header(Endian::Little, &header), None);
}

#[test]
fn response_header_nonzero_return_code_yields_no_payload() {
    let t = client();
    let mut header = u32_bytes(Endian::Big, MAGIC);
    header.extend_from_slice(&u32_bytes(Endian::Big, 7));
    header.extend_from_slice(&u32_bytes(Endian::Big, 100));
    assert_eq!(t.parse_response_header(Endian::Big, &header), None);
}

#[test]
fn response_header_wrong_session_endianness_is_rejected() {
    let t = client();
    let mut header = u32_bytes(Endian::Little, MAGIC);
    header.extend_from_slice(&u32_bytes(Endian::Little, 0));
    header.extend_from_slice(&u32_bytes(Endian::Little, 4));
    assert_eq!(t.parse_response_header(Endian::Big, &header), None);
}
