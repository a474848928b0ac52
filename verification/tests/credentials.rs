use rombuster::trigger::Trigger;

fn extract(config: &[u8]) -> (String, String) {
    Trigger::new("192.0.2.1").extract_credentials(config)
}

#[test]
fn fields_with_both_keys_are_captured() {
    let config = b"http_username=root\x01http_password=toor\x01foo=bar";
    assert_eq!(extract(config), ("root".to_string(), "toor".to_string()));
}

#[test]
fn nul_separators_work_like_0x01() {
    let config = b"http_username=root\x00http_password=toor";
    assert_eq!(extract(config), ("root".to_string(), "toor".to_string()));
}

#[test]
fn no_credential_fields_yield_vendor_default_pair() {
    let config = b"foo=bar\x01baz=qux\x01plain";
    assert_eq!(extract(config), ("admin".to_string(), "admin".to_string()));
}

#[test]
fn empty_configuration_yields_vendor_default_pair() {
    assert_eq!(extract(b""), ("admin".to_string(), "admin".to_string()));
}

#[test]
fn empty_values_do_not_capture() {
    let config = b"http_username=\x01http_password=";
    assert_eq!(extract(config), ("admin".to_string(), "admin".to_string()));
}

#[test]
fn username_alone_is_returned_with_empty_password() {
    // The default pair fires only when both captures are empty; a lone
    // username keeps its empty password.
    let config = b"http_username=root\x01foo=bar";
    assert_eq!(extract(config), ("root".to_string(), String::new()));
}

#[test]
fn password_alone_is_returned_with_empty_username() {
    let config = b"http_password=toor";
    assert_eq!(extract(config), (String::new(), "toor".to_string()));
}

#[test]
fn later_assignment_overwrites_earlier_one() {
    let config = b"http_username=first\x01http_username=second";
    assert_eq!(extract(config), ("second".to_string(), String::new()));
}

#[test]
fn other_credential_like_keys_are_not_captured() {
    // Keys merely containing "user" or "login" match the scan but only
    // the two http_ keys are captured.
    let config = b"username=root\x01login=admin2\x01user=x";
    assert_eq!(extract(config), ("admin".to_string(), "admin".to_string()));
}

#[test]
fn key_must_match_exactly() {
    let config = b"xhttp_username=root\x01http_usernamex=root";
    assert_eq!(extract(config), ("admin".to_string(), "admin".to_string()));
}

#[test]
fn value_may_contain_equals_signs() {
    let config = b"http_password=a=b=c";
    assert_eq!(extract(config), (String::new(), "a=b=c".to_string()));
}

#[test]
fn non_text_value_bytes_decode_lossily() {
    let config = b"http_password=\xFFx";
    assert_eq!(extract(config), (String::new(), "\u{FFFD}x".to_string()));
}
