use rombuster::rombuster::{find_printable_run, RomBuster, ROM0_HEADER_LEN};

#[test]
fn nine_kilobyte_body_yields_admin_and_password_run() {
    // A body of exactly 9000 bytes: vendor header, then a compressed
    // stream that decodes to "xyzpassword123" followed by newlines.
    let mut body = vec![0u8; ROM0_HEADER_LEN];
    let mut stream = Vec::new();
    stream.push(0x8F);
    stream.extend_from_slice(b"xyzpassword123\n");
    for _ in 0..138 {
        // Back-reference offset 1, length 127: repeat the newline.
        stream.extend_from_slice(&[0x00, 0x01, 0x7F]);
    }
    stream.extend_from_slice(&[0x81, b'\n']);
    assert_eq!(stream.len(), 432);
    body.extend_from_slice(&stream);
    assert_eq!(body.len(), 9000);

    let rb = RomBuster::new();
    let creds = rb.credentials_from_rom0(&body);
    assert_eq!(
        creds,
        Some(("admin".to_string(), "xyzpassword123".to_string()))
    );
}

#[test]
fn body_shorter_than_vendor_header_fails() {
    let rb = RomBuster::new();
    let body = vec![0u8; ROM0_HEADER_LEN - 1];
    assert_eq!(rb.credentials_from_rom0(&body), None);
}

#[test]
fn body_with_empty_compressed_region_has_no_run() {
    let rb = RomBuster::new();
    let body = vec![0u8; ROM0_HEADER_LEN];
    assert_eq!(rb.credentials_from_rom0(&body), None);
}

#[test]
fn run_shorter_than_five_is_not_a_password() {
    let rb = RomBuster::new();
    let mut body = vec![0u8; ROM0_HEADER_LEN];
    body.extend_from_slice(&[0x85, b'a', b'b', b'c', b'd', b'\n']);
    assert_eq!(rb.credentials_from_rom0(&body), None);
}

#[test]
fn malformed_stream_after_header_fails() {
    let rb = RomBuster::new();
    let mut body = vec![0u8; ROM0_HEADER_LEN];
    body.extend_from_slice(&[0x00, 0x09, 0x01]);
    assert_eq!(rb.credentials_from_rom0(&body), None);
}

#[test]
fn first_maximal_run_is_reported() {
    let data = b"\x01\x02hello world\nlater longer run here";
    let run = find_printable_run(data);
    assert_eq!(run, Some((2, 11)));
}

#[test]
fn run_of_exactly_five_counts() {
    assert_eq!(find_printable_run(b"abcde"), Some((0, 5)));
}

#[test]
fn four_printables_are_not_enough() {
    assert_eq!(find_printable_run(b"abcd\nabcd\n"), None);
}

#[test]
fn space_and_tilde_are_printable() {
    assert_eq!(find_printable_run(b"\n ab ~\n"), Some((1, 5)));
}
