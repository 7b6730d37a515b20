use candidateparser::{parse, CandidateType, IceCandidate, IpAddress, Transport};

#[test]
fn it_works() {
    assert_eq!(2 + 2, 4);
}

#[test]
fn test_parse_full() {
    let candidate = b"candidate:842163049 1 udp 1686052607 1.2.3.4 46154 typ srflx raddr 10.0.0.17 rport 46154 generation 0 ufrag EEtu network-id 3 network-cost 10";
    let parsed: IceCandidate = parse(&candidate[..]).unwrap();
    println!("{:?}", parsed);
    assert_eq!(parsed.foundation, "842163049".to_string());
    assert_eq!(parsed.component_id, 1);
    assert_eq!(parsed.transport, Transport::Udp);
    assert_eq!(parsed.priority, 1686052607);
    assert_eq!(parsed.connection_address, IpAddress::V4(1, 2, 3, 4));
    assert_eq!(parsed.port, 46154);
    assert_eq!(parsed.candidate_type, CandidateType::Srflx);
    assert_eq!(parsed.rel_addr, Some(IpAddress::V4(10, 0, 0, 17)));
    assert_eq!(parsed.rel_port, Some(46154));
    assert!(parsed.extensions.is_some());
    let extensions = parsed.extensions.unwrap();
    assert_eq!(extensions.len(), 4);
    assert_eq!(extensions.get(&b"generation".to_vec()), Some(&b"0".to_vec()));
    assert_eq!(extensions.get(&b"ufrag".to_vec()), Some(&b"EEtu".to_vec()));
    assert_eq!(extensions.get(&b"network-id".to_vec()), Some(&b"3".to_vec()));
    assert_eq!(extensions.get(&b"network-cost".to_vec()), Some(&b"10".to_vec()));
}

#[test]
fn test_parse_empty() {
    let parsed = parse(&b""[..]);
    assert_eq!(parsed, None);
}

#[test]
fn test_parse_invalid() {
    let candidate = b"candidate:373990095 1 udp 41885439 asdf 5.148.189.205 63293 typ relay";
    let parsed = parse(&candidate[..]);
    assert_eq!(parsed, None);
}

#[test]
fn test_parse_trailing_space() {
    let candidate = b"candidate:373990095 1 udp 41885439 5.148.189.205 63293 typ relay  ";
    let parsed = parse(&candidate[..]);
    assert_eq!(parsed, None);
}
