use candidateparser::bytes::{is_ice_char, is_ip_char, same_bytes, take_run, ByteClass};
use candidateparser::numbers::decimal_u64;
use candidateparser::{CandidateType, ErrorKind, Transport};

#[test]
fn test_transport_into_cstring() {
    let converted1: String = Transport::Udp.to_string();
    assert_eq!(converted1, "udp".to_string());

    let converted2: String = Transport::Extension("yolo".into()).to_string();
    assert_eq!(converted2, "yolo".to_string());
}

#[test]
fn test_candidate_type_into_cstring() {
    let host: String = CandidateType::Host.to_string();
    let srflx: String = CandidateType::Srflx.to_string();
    let prflx: String = CandidateType::Prflx.to_string();
    let relay: String = CandidateType::Relay.to_string();
    let token: String = CandidateType::Token("Yolo".into()).to_string();

    assert_eq!(host, "host".to_string());
    assert_eq!(srflx, "srflx".to_string());
    assert_eq!(prflx, "prflx".to_string());
    assert_eq!(relay, "relay".to_string());
    assert_eq!(token, "Yolo".to_string());
}

#[test]
fn ice_chars_are_letters_digits_plus_and_slash() {
    for c in 0u8..=255 {
        let expected = c.is_ascii_alphanumeric() || c == b'+' || c == b'/';
        assert_eq!(is_ice_char(c), expected, "{}", c);
        assert_eq!(ByteClass::IceChar.contains(c), expected, "{}", c);
    }
}

#[test]
fn ip_chars_are_hex_digits_dot_and_colon() {
    for c in 0u8..=255 {
        let expected = c.is_ascii_hexdigit() || c == b'.' || c == b':';
        assert_eq!(is_ip_char(c), expected, "{}", c);
        assert_eq!(ByteClass::IpChar.contains(c), expected, "{}", c);
    }
}

#[test]
fn other_byte_classes() {
    for c in 0u8..=255 {
        assert_eq!(ByteClass::Digit.contains(c), c.is_ascii_digit(), "{}", c);
        assert_eq!(ByteClass::Alpha.contains(c), c.is_ascii_alphabetic(), "{}", c);
        assert_eq!(ByteClass::Space.contains(c), c == b' ', "{}", c);
        assert_eq!(
            ByteClass::Token.contains(c),
            !(c == 0 || c == b'\n' || c == b'\r' || c == b' '),
            "{}",
            c
        );
    }
}

#[test]
fn take_run_takes_the_longest_run() {
    assert_eq!(
        take_run(b"123abc", ByteClass::Digit, ErrorKind::Digit),
        Ok((&b"abc"[..], &b"123"[..]))
    );
    assert_eq!(
        take_run(b"123", ByteClass::Digit, ErrorKind::Digit),
        Ok((&b""[..], &b"123"[..]))
    );
    assert_eq!(take_run(b"abc", ByteClass::Digit, ErrorKind::Verify), Err(ErrorKind::Verify));
    assert_eq!(take_run(b"", ByteClass::Digit, ErrorKind::Digit), Err(ErrorKind::Incomplete));
}

#[test]
fn same_bytes_compares_contents() {
    assert!(same_bytes(b"", b""));
    assert!(same_bytes(b"host", b"host"));
    assert!(!same_bytes(b"host", b"hosT"));
    assert!(!same_bytes(b"host", b"hos"));
    assert!(!same_bytes(b"", b"a"));
}

#[test]
fn decimal_numbers() {
    assert_eq!(decimal_u64(b""), Some(0));
    assert_eq!(decimal_u64(b"0"), Some(0));
    assert_eq!(decimal_u64(b"007"), Some(7));
    assert_eq!(decimal_u64(b"1686052607"), Some(1686052607));
    assert_eq!(decimal_u64(b"18446744073709551615"), Some(u64::MAX));
    assert_eq!(decimal_u64(b"18446744073709551616"), None);
    assert_eq!(decimal_u64(b"000018446744073709551615"), Some(u64::MAX));
    assert_eq!(decimal_u64(b"99999999999999999999"), None);
    assert_eq!(decimal_u64(b"184467440737095516150"), None);
}
