use candidateparser::address::{
    find_double_colon, hex_group, ip_address, ipv4, ipv6, octet, only_digits, split_fields,
    text_groups,
};
use candidateparser::IpAddress;
#[test]
fn valid_address_texts() {
    let cases = [
        ("0.0.0.0", IpAddress::V4(0, 0, 0, 0)),
        ("1.2.3.4", IpAddress::V4(1, 2, 3, 4)),
        ("127.0.0.1", IpAddress::V4(127, 0, 0, 1)),
        ("255.255.255.255", IpAddress::V4(255, 255, 255, 255)),
        ("10.0.0.17", IpAddress::V4(10, 0, 0, 17)),
        ("::", IpAddress::V6(0, 0, 0, 0, 0, 0, 0, 0)),
        ("::1", IpAddress::V6(0, 0, 0, 0, 0, 0, 0, 1)),
        ("1::", IpAddress::V6(1, 0, 0, 0, 0, 0, 0, 0)),
        ("1::2", IpAddress::V6(1, 0, 0, 0, 0, 0, 0, 2)),
        ("1:2:3:4:5:6:7:8", IpAddress::V6(1, 2, 3, 4, 5, 6, 7, 8)),
        ("1:2:3:4:5:6:7::", IpAddress::V6(1, 2, 3, 4, 5, 6, 7, 0)),
        ("::2:3:4:5:6:7:8", IpAddress::V6(0, 2, 3, 4, 5, 6, 7, 8)),
        ("1:2:3::6:7:8", IpAddress::V6(1, 2, 3, 0, 0, 6, 7, 8)),
        ("fe80::1", IpAddress::V6(0xfe80, 0, 0, 0, 0, 0, 0, 1)),
        ("FE80::ABCD", IpAddress::V6(0xfe80, 0, 0, 0, 0, 0, 0, 0xabcd)),
        (
            "2001:db8:85a3:0:0:8a2e:370:7334",
            IpAddress::V6(0x2001, 0xdb8, 0x85a3, 0, 0, 0x8a2e, 0x370, 0x7334),
        ),
        (
            "2001:0db8:85a3:0000:0000:8a2e:0370:7334",
            IpAddress::V6(0x2001, 0xdb8, 0x85a3, 0, 0, 0x8a2e, 0x370, 0x7334),
        ),
        ("::ffff:1.2.3.4", IpAddress::V6(0, 0, 0, 0, 0, 0xffff, 0x0102, 0x0304)),
        ("::1.2.3.4", IpAddress::V6(0, 0, 0, 0, 0, 0, 0x0102, 0x0304)),
        ("1:2:3:4:5:6:1.2.3.4", IpAddress::V6(1, 2, 3, 4, 5, 6, 0x0102, 0x0304)),
        ("1:2:3:4:5::1.2.3.4", IpAddress::V6(1, 2, 3, 4, 5, 0, 0x0102, 0x0304)),
        ("64:ff9b::192.0.2.33", IpAddress::V6(0x64, 0xff9b, 0, 0, 0, 0, 0xc000, 0x0221)),
        (
            "0000:0000:0000:0000:0000:0000:0000:0000",
            IpAddress::V6(0, 0, 0, 0, 0, 0, 0, 0),
        ),
        (
            "ffff:ffff:ffff:ffff:ffff:ffff:ffff:ffff",
            IpAddress::V6(0xffff, 0xffff, 0xffff, 0xffff, 0xffff, 0xffff, 0xffff, 0xffff),
        ),
    ];
    for (text, expected) in cases {
        assert_eq!(ip_address(text.as_bytes()), Some(expected), "{:?}", text);
    }
}


#[test]
fn invalid_address_texts() {
    let texts = [
        "",
        ".",
        ":",
        ":::",
        "1",
        "1.2.3",
        "1.2.3.4.5",
        "1.2.3.",
        ".1.2.3",
        "1..2.3",
        "256.1.1.1",
        "1.1.1.256",
        "01.2.3.4",
        "1.2.3.04",
        "00.0.0.0",
        "1.2.3.1000",
        "1.2.3.a",
        "127001",
        "127.0.01",
        "127.0.0.0.1",
        "1:2:3:4:5:6:7",
        "1:2:3:4:5:6:7:8:9",
        "1:2:3:4:5:6:7:8::",
        "::1:2:3:4:5:6:7:8",
        "1::2::3",
        "1:::2",
        ":1:2:3:4:5:6:7:8",
        "1:2:3:4:5:6:7:8:",
        "12345::",
        "::12345",
        "g::",
        "1.2.3.4::",
        "1.2.3.4::1",
        "1:2:3:4:5:6:7:1.2.3.4",
        "1:2:3:4:5:6::1.2.3.4",
        "::1.2.3",
        "::1.2.3.4.5",
        "::1.2.3.4:5",
        "::01.2.3.4",
        "::256.2.3.4",
        "1:2:3:4:5:1.2.3.4",
        "a",
        "asdf",
    ];
    for text in texts {
        assert_eq!(ip_address(text.as_bytes()), None, "{:?}", text);
    }
}

#[test]
fn address_values() {
    assert_eq!(ip_address(b"5.148.189.205"), Some(IpAddress::V4(5, 148, 189, 205)));
    assert_eq!(
        ip_address(b"2001:db8::8a2e:370:7334"),
        Some(IpAddress::V6(0x2001, 0x0db8, 0, 0, 0, 0x8a2e, 0x0370, 0x7334))
    );
    assert_eq!(
        ip_address(b"::ffff:192.168.1.2"),
        Some(IpAddress::V6(0, 0, 0, 0, 0, 0xffff, 0xc0a8, 0x0102))
    );
    assert_eq!(ip_address(b"1::"), Some(IpAddress::V6(1, 0, 0, 0, 0, 0, 0, 0)));
    assert_eq!(ip_address(b"::"), Some(IpAddress::V6(0, 0, 0, 0, 0, 0, 0, 0)));
}

#[test]
fn ipv4_and_ipv6_are_told_apart() {
    assert_eq!(ipv4(b"1.2.3.4"), Some(IpAddress::V4(1, 2, 3, 4)));
    assert_eq!(ipv4(b"::1"), None);
    assert_eq!(ipv6(b"::1"), Some(IpAddress::V6(0, 0, 0, 0, 0, 0, 0, 1)));
    assert_eq!(ipv6(b"1.2.3.4"), None);
}

#[test]
fn split_fields_keeps_empty_fields() {
    assert_eq!(split_fields(b"", b'.'), vec![&b""[..]]);
    assert_eq!(split_fields(b"abc", b'.'), vec![&b"abc"[..]]);
    assert_eq!(split_fields(b"a.b", b'.'), vec![&b"a"[..], &b"b"[..]]);
    assert_eq!(split_fields(b".", b'.'), vec![&b""[..], &b""[..]]);
    assert_eq!(
        split_fields(b"1::2:", b':'),
        vec![&b"1"[..], &b""[..], &b"2"[..], &b""[..]]
    );
}

#[test]
fn octet_bounds() {
    assert_eq!(octet(b"0"), Some(0));
    assert_eq!(octet(b"9"), Some(9));
    assert_eq!(octet(b"10"), Some(10));
    assert_eq!(octet(b"255"), Some(255));
    assert_eq!(octet(b"256"), None);
    assert_eq!(octet(b"999"), None);
    assert_eq!(octet(b"00"), None);
    assert_eq!(octet(b"010"), None);
    assert_eq!(octet(b""), None);
    assert_eq!(octet(b"1000"), None);
    assert_eq!(octet(b"1a"), None);
}

#[test]
fn hex_group_bounds() {
    assert_eq!(hex_group(b"0"), Some(0));
    assert_eq!(hex_group(b"0000"), Some(0));
    assert_eq!(hex_group(b"a"), Some(10));
    assert_eq!(hex_group(b"F"), Some(15));
    assert_eq!(hex_group(b"1f"), Some(31));
    assert_eq!(hex_group(b"ffff"), Some(65535));
    assert_eq!(hex_group(b"FfFf"), Some(65535));
    assert_eq!(hex_group(b"abcd"), Some(0xabcd));
    assert_eq!(hex_group(b""), None);
    assert_eq!(hex_group(b"10000"), None);
    assert_eq!(hex_group(b"g"), None);
    assert_eq!(hex_group(b"1.2"), None);
}

#[test]
fn only_digits_of_texts() {
    assert!(only_digits(b""));
    assert!(only_digits(b"0123456789"));
    assert!(!only_digits(b"12a"));
    assert!(!only_digits(b"/"));
    assert!(!only_digits(b":"));
}

#[test]
fn first_double_colon_is_found() {
    assert_eq!(find_double_colon(b""), None);
    assert_eq!(find_double_colon(b":"), None);
    assert_eq!(find_double_colon(b"1:2:3"), None);
    assert_eq!(find_double_colon(b"::"), Some(0));
    assert_eq!(find_double_colon(b"1::2"), Some(1));
    assert_eq!(find_double_colon(b"1:2::3::4"), Some(3));
    assert_eq!(find_double_colon(b"1:::"), Some(1));
}

#[test]
fn text_groups_with_and_without_ipv4() {
    assert_eq!(text_groups(b"", false), Some(vec![]));
    assert_eq!(text_groups(b"", true), Some(vec![]));
    assert_eq!(text_groups(b"1:2:ff", false), Some(vec![1, 2, 255]));
    assert_eq!(text_groups(b"1:1.2.3.4", true), Some(vec![1, 0x0102, 0x0304]));
    assert_eq!(text_groups(b"1:1.2.3.4", false), None);
    assert_eq!(text_groups(b"1.2.3.4:1", true), None);
    assert_eq!(text_groups(b"1:", true), None);
    assert_eq!(text_groups(b":1", false), None);
}
