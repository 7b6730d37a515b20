use candidateparser::parsers::{
    cand_type, component_id, extension, foundation, ice_candidate, ice_chars, ip_addr, port,
    priority, rel_addr, rel_port, transport,
};
use candidateparser::{CandidateType, ErrorKind, IpAddress, Transport};

#[test]
fn test_ice_chars() {
    let empty = &b""[..];

    assert_eq!(ice_chars(&b"a"[..]), Ok((empty, &b"a"[..])));
    assert_eq!(ice_chars(&b"Z"[..]), Ok((empty, &b"Z"[..])));
    assert_eq!(ice_chars(&b"abc+123/XYZ"[..]), Ok((empty, &b"abc+123/XYZ"[..])));
    assert_eq!(ice_chars(&b"ab cd"[..]), Ok((&b" cd"[..], &b"ab"[..])));

    assert_eq!(ice_chars(&b"-"[..]), Err(ErrorKind::TakeWhile1));
}

#[test]
fn test_foundation() {
    let empty = &b""[..];

    assert_eq!(foundation(&b"abc+/"[..]), Ok((empty, "abc+/")));
    assert_eq!(foundation(&b"abc+/ hello"[..]), Ok((&b" hello"[..], "abc+/")));
    assert_eq!(
        foundation(&b"01234567890123456789012345678901"[..]),
        Ok((empty, "01234567890123456789012345678901"))
    );

    assert_eq!(foundation(&b"-abc+/"[..]), Err(ErrorKind::TakeWhile1));
    assert_eq!(
        foundation(&b"012345678901234567890123456789012"[..]),
        Err(ErrorKind::Verify)
    );
}

#[test]
fn test_component_id() {
    let empty = &b""[..];

    assert_eq!(component_id(&b"0"[..]), Ok((empty, 0)));
    assert_eq!(component_id(&b"1"[..]), Ok((empty, 1)));
    assert_eq!(component_id(&b"12345"[..]), Ok((empty, 12345)));
    assert_eq!(component_id(&b"1234a"[..]), Ok((&b"a"[..], 1234)));

    assert_eq!(component_id(&b"123456"[..]), Err(ErrorKind::Verify));
}

#[test]
fn test_transport() {
    let empty = &b""[..];

    assert_eq!(transport(&b"udp"[..]), Ok((empty, Transport::Udp)));
    assert_eq!(transport(&b"UDP"[..]), Ok((empty, Transport::Udp)));
    assert_eq!(transport(&b"Udp"[..]), Ok((empty, Transport::Udp)));

    assert_eq!(
        transport(&b"foo bar"[..]),
        Ok((&b" bar"[..], Transport::Extension("foo".to_string())))
    );
}

#[test]
fn test_priority() {
    let empty = &b""[..];

    assert_eq!(priority(&b"0"[..]), Ok((empty, 0)));
    assert_eq!(priority(&b"1"[..]), Ok((empty, 1)));
    assert_eq!(priority(&b"1234567890"[..]), Ok((empty, 1234567890)));

    assert_eq!(priority(&b"12345678901"[..]), Err(ErrorKind::Verify));
}

#[test]
fn parsers_test_ice_chars() {
    let empty = &b""[..];

    assert_eq!(ice_chars(&b"a"[..]), Ok((empty, &b"a"[..])));
    assert_eq!(ice_chars(&b"Z"[..]), Ok((empty, &b"Z"[..])));
    assert_eq!(ice_chars(&b"abc+123/XYZ"[..]), Ok((empty, &b"abc+123/XYZ"[..])));
    assert_eq!(ice_chars(&b"ab cd"[..]), Ok((&b" cd"[..], &b"ab"[..])));

    assert_eq!(ice_chars(&b"-"[..]), Err(ErrorKind::TakeWhile1));
}

#[test]
fn parsers_test_foundation() {
    let empty = &b""[..];

    assert_eq!(foundation(&b"abc+/"[..]), Ok((empty, "abc+/")));
    assert_eq!(foundation(&b"abc+/ hello"[..]), Ok((&b" hello"[..], "abc+/")));
    assert_eq!(
        foundation(&b"01234567890123456789012345678901"[..]),
        Ok((empty, "01234567890123456789012345678901"))
    );

    assert_eq!(foundation(&b"-abc+/"[..]), Err(ErrorKind::TakeWhile1));
    assert_eq!(
        foundation(&b"012345678901234567890123456789012"[..]),
        Err(ErrorKind::Verify)
    );
}

#[test]
fn parsers_test_component_id() {
    let empty = &b""[..];

    assert_eq!(component_id(&b"0"[..]), Ok((empty, 0)));
    assert_eq!(component_id(&b"1"[..]), Ok((empty, 1)));
    assert_eq!(component_id(&b"12345"[..]), Ok((empty, 12345)));
    assert_eq!(component_id(&b"1234a"[..]), Ok((&b"a"[..], 1234)));

    assert_eq!(component_id(&b"123456"[..]), Err(ErrorKind::Verify));
}

#[test]
fn parsers_test_transport() {
    let empty = &b""[..];

    assert_eq!(transport(&b"udp"[..]), Ok((empty, Transport::Udp)));
    assert_eq!(transport(&b"UDP"[..]), Ok((empty, Transport::Udp)));
    assert_eq!(transport(&b"Udp"[..]), Ok((empty, Transport::Udp)));

    assert_eq!(
        transport(&b"foo bar"[..]),
        Ok((&b" bar"[..], Transport::Extension("foo".to_string())))
    );
}

#[test]
fn parsers_test_priority() {
    let empty = &b""[..];

    assert_eq!(priority(&b"0"[..]), Ok((empty, 0)));
    assert_eq!(priority(&b"1"[..]), Ok((empty, 1)));
    assert_eq!(priority(&b"1234567890"[..]), Ok((empty, 1234567890)));

    assert_eq!(priority(&b"12345678901"[..]), Err(ErrorKind::Verify));
}

#[test]
fn test_cand_type() {
    let empty = &b""[..];

    assert_eq!(cand_type(&b"typ host"[..]), Ok((empty, CandidateType::Host)));
    assert_eq!(cand_type(&b"typ      srflx"[..]), Ok((empty, CandidateType::Srflx)));
    assert_eq!(cand_type(&b"typ prflx"[..]), Ok((empty, CandidateType::Prflx)));
    assert_eq!(cand_type(&b"typ relay"[..]), Ok((empty, CandidateType::Relay)));
    assert_eq!(
        cand_type(&b"typ footok"[..]),
        Ok((empty, CandidateType::Token("footok".into())))
    );

    assert_eq!(cand_type(&b"typhost"[..]), Err(ErrorKind::Space));
}

#[test]
fn test_ip_addr() {
    let empty = &b""[..];

    assert_eq!(ip_addr(&b"127.0.0.1"[..]), Ok((empty, IpAddress::V4(127, 0, 0, 1))));
    assert_eq!(ip_addr(&b"10.20.30.40"[..]), Ok((empty, IpAddress::V4(10, 20, 30, 40))));
    assert_eq!(ip_addr(&b"::1"[..]), Ok((empty, IpAddress::V6(0, 0, 0, 0, 0, 0, 0, 1))));

    assert_eq!(ip_addr(&b"127001"[..]), Err(ErrorKind::MapRes));
    assert_eq!(ip_addr(&b"127.0.01"[..]), Err(ErrorKind::MapRes));
    assert_eq!(ip_addr(&b"127.0.0.0.1"[..]), Err(ErrorKind::MapRes));
}

#[test]
fn test_rel_addr() {
    let empty = &b""[..];
    assert_eq!(rel_addr(&b"raddr 1.2.3.4"[..]), Ok((empty, IpAddress::V4(1, 2, 3, 4))));
    assert_eq!(
        rel_addr(&b"raddr ::1"[..]),
        Ok((empty, IpAddress::V6(0, 0, 0, 0, 0, 0, 0, 1)))
    );
}

#[test]
fn test_port() {
    let empty = &b""[..];

    assert_eq!(port(&b"1"[..]), Ok((empty, 1u16)));
    assert_eq!(port(&b"32000"[..]), Ok((empty, 32000u16)));
    assert_eq!(port(&b"65535"[..]), Ok((empty, 65535u16)));

    assert_eq!(port(&b"65536"[..]), Err(ErrorKind::MapRes));
    assert_eq!(port(&b"655361"[..]), Err(ErrorKind::MapRes));
}

#[test]
fn test_rel_port() {
    let empty = &b""[..];
    assert_eq!(rel_port(&b"rport 32000"[..]), Ok((empty, 32000u16)));
    assert_eq!(rel_port(&b"rport 32000 foo"[..]), Ok((&b" foo"[..], 32000u16)));
}

#[test]
fn test_extension() {
    let empty = &b""[..];
    assert_eq!(extension(&b" foo bar"[..]), Ok((empty, (&b"foo"[..], &b"bar"[..]))));
}

#[test]
fn test_parse_minimal() {
    let candidate = b"candidate:373990095 1 udp 41885439 5.148.189.205 63293 typ relay";
    let (rest, parsed) = ice_candidate(&candidate[..]).unwrap();
    assert_eq!(rest, &b""[..]);
    assert_eq!(parsed.foundation, "373990095".to_string());
    assert_eq!(parsed.component_id, 1);
    assert_eq!(parsed.transport, Transport::Udp);
    assert_eq!(parsed.priority, 41885439);
    assert_eq!(parsed.connection_address, IpAddress::V4(5, 148, 189, 205));
    assert_eq!(parsed.port, 63293);
    assert_eq!(parsed.candidate_type, CandidateType::Relay);
    assert_eq!(parsed.rel_addr, None);
    assert_eq!(parsed.rel_port, None);
    assert!(parsed.extensions.is_none());
}

#[test]
fn test_parse_with_rel() {
    let candidate1 = b"candidate:373990095 1 udp 41885439 5.148.189.205 63293 typ relay raddr 1.2.3.4 rport 5432";
    let parsed1 = ice_candidate(&candidate1[..]).unwrap().1;
    assert_eq!(parsed1.rel_addr, Some(IpAddress::V4(1, 2, 3, 4)));
    assert_eq!(parsed1.rel_port, Some(5432));

    let candidate2 =
        b"candidate:373990095 1 udp 41885439 5.148.189.205 63293 typ relay raddr 1.2.3.4";
    let parsed2 = ice_candidate(&candidate2[..]).unwrap().1;
    assert_eq!(parsed2.rel_addr, Some(IpAddress::V4(1, 2, 3, 4)));
    assert_eq!(parsed2.rel_port, None);

    let candidate3 =
        b"candidate:373990095 1 udp 41885439 5.148.189.205 63293 typ relay rport 1337";
    let parsed3 = ice_candidate(&candidate3[..]).unwrap().1;
    assert_eq!(parsed3.rel_addr, None);
    assert_eq!(parsed3.rel_port, Some(1337));
}
