use awrust::dns::{
    build_a_response, build_empty_response, build_refused, handle_query, matches_base_domain,
    parse_qname, resolv_conf_nameservers, DnsAction, DnsZone, CLASS_IN, FLAG_AA, FLAG_QR, FLAG_RD,
    HEADER_LEN, TYPE_A, TYPE_AAAA,
};

fn build_query(id: u16, qname: &str, qtype: u16) -> Vec<u8> {
    let mut pkt = Vec::new();
    pkt.extend_from_slice(&id.to_be_bytes());
    pkt.extend_from_slice(&FLAG_RD.to_be_bytes());
    pkt.extend_from_slice(&1u16.to_be_bytes());
    pkt.extend_from_slice(&0u16.to_be_bytes());
    pkt.extend_from_slice(&0u16.to_be_bytes());
    pkt.extend_from_slice(&0u16.to_be_bytes());

    for label in qname.split('.') {
        pkt.push(label.len() as u8);
        pkt.extend_from_slice(label.as_bytes());
    }
    pkt.push(0);

    pkt.extend_from_slice(&qtype.to_be_bytes());
    pkt.extend_from_slice(&CLASS_IN.to_be_bytes());
    pkt
}

fn zone(ip: [u8; 4], base: &str) -> DnsZone {
    DnsZone {
        resolve_ip: ip,
        base_domain: base.to_string(),
    }
}

fn reply(action: DnsAction) -> Vec<u8> {
    match action {
        DnsAction::Reply(bytes) => bytes,
        DnsAction::Ignore => panic!("expected a reply, got none"),
        DnsAction::Forward => panic!("expected a reply, got a forward"),
    }
}

#[test]
fn parse_qname_single_label() {
    let pkt = build_query(1, "localhost", TYPE_A);
    let (name, end) = parse_qname(&pkt, HEADER_LEN).unwrap();
    assert_eq!(name, "localhost");
    assert_eq!(pkt[end], 0x00);
}

#[test]
fn parse_qname_multi_label() {
    let pkt = build_query(1, "mybucket.awrust.local", TYPE_A);
    let (name, _) = parse_qname(&pkt, HEADER_LEN).unwrap();
    assert_eq!(name, "mybucket.awrust.local");
}

#[test]
fn parse_qname_rejects_truncated() {
    let pkt = [0u8; HEADER_LEN + 1];
    assert!(parse_qname(&pkt, HEADER_LEN + 1).is_none());
}

#[test]
fn parse_qname_end_offset() {
    let pkt = build_query(7, "a.bc", TYPE_A);
    let (name, end) = parse_qname(&pkt, HEADER_LEN).unwrap();
    assert_eq!(name, "a.bc");
    assert_eq!(end, HEADER_LEN + 1 + 1 + 1 + 2 + 1);
}

#[test]
fn parse_qname_root_name() {
    let pkt = [0u8; HEADER_LEN + 1];
    let (name, end) = parse_qname(&pkt, HEADER_LEN).unwrap();
    assert_eq!(name, "");
    assert_eq!(end, HEADER_LEN + 1);
}

#[test]
fn parse_qname_rejects_long_label_and_pointer() {
    let mut pkt = vec![0u8; HEADER_LEN];
    pkt.push(64);
    pkt.extend_from_slice(&[b'a'; 64]);
    pkt.push(0);
    assert!(parse_qname(&pkt, HEADER_LEN).is_none());

    let mut ptr = vec![0u8; HEADER_LEN];
    ptr.extend_from_slice(&[0xC0, 0x0C]);
    assert!(parse_qname(&ptr, HEADER_LEN).is_none());
}

#[test]
fn parse_qname_rejects_label_past_end() {
    let mut pkt = vec![0u8; HEADER_LEN];
    pkt.extend_from_slice(&[5, b'a', b'b']);
    assert!(parse_qname(&pkt, HEADER_LEN).is_none());
}

#[test]
fn parse_qname_rejects_invalid_utf8() {
    let mut pkt = vec![0u8; HEADER_LEN];
    pkt.extend_from_slice(&[2, 0xFF, 0xFE, 0]);
    assert!(parse_qname(&pkt, HEADER_LEN).is_none());
}

#[test]
fn parse_qname_keeps_utf8_labels() {
    let mut pkt = vec![0u8; HEADER_LEN];
    let label = "bücher".as_bytes();
    pkt.push(label.len() as u8);
    pkt.extend_from_slice(label);
    pkt.push(0);
    let (name, _) = parse_qname(&pkt, HEADER_LEN).unwrap();
    assert_eq!(name, "bücher");
}

#[test]
fn matches_exact_base_domain() {
    assert!(matches_base_domain("awrust", "awrust"));
}

#[test]
fn matches_subdomain() {
    assert!(matches_base_domain("mybucket.awrust", "awrust"));
}

#[test]
fn matches_deep_subdomain() {
    assert!(matches_base_domain("a.b.awrust", "awrust"));
}

#[test]
fn rejects_unrelated_domain() {
    assert!(!matches_base_domain("google.com", "awrust"));
}

#[test]
fn rejects_partial_suffix() {
    assert!(!matches_base_domain("notawrust", "awrust"));
}

#[test]
fn matches_case_insensitive() {
    assert!(matches_base_domain("mybucket.awrust", "AWRUST"));
}

#[test]
fn qname_is_compared_as_given() {
    assert!(!matches_base_domain("mybucket.AWRUST", "awrust"));
    assert!(!matches_base_domain(".awrust", "awrust.x"));
    assert!(matches_base_domain(".awrust", "awrust"));
}

#[test]
fn a_response_contains_ip() {
    let query = build_query(0xABCD, "mybucket.awrust", TYPE_A);
    let (_, qend) = parse_qname(&query, HEADER_LEN).unwrap();
    let qend = qend + 4;
    let resp = build_a_response(&query, qend, [172, 21, 0, 20]);

    assert_eq!(resp[0], 0xAB);
    assert_eq!(resp[1], 0xCD);

    let flags = u16::from_be_bytes([resp[2], resp[3]]);
    assert_ne!(flags & FLAG_QR, 0);
    assert_ne!(flags & FLAG_AA, 0);

    let ancount = u16::from_be_bytes([resp[6], resp[7]]);
    assert_eq!(ancount, 1);

    let ip_offset = resp.len() - 4;
    assert_eq!(&resp[ip_offset..], &[172, 21, 0, 20]);
}

#[test]
fn a_response_exact_bytes() {
    let query = build_query(0x0102, "ab", TYPE_A);
    let resp = build_a_response(&query, HEADER_LEN + 4, [1, 2, 3, 4]);
    let expected: Vec<u8> = vec![
        0x01, 0x02, 0x85, 0x80, 0, 1, 0, 1, 0, 0, 0, 0, // header
        2, b'a', b'b', 0, // question name
        0xC0, 0x0C, 0, 1, 0, 1, 0, 0, 0, 60, 0, 4, 1, 2, 3, 4,
    ];
    assert_eq!(resp, expected);
}

#[test]
fn empty_response_has_no_answers() {
    let query = build_query(0x1234, "mybucket.awrust", TYPE_AAAA);
    let (_, qend) = parse_qname(&query, HEADER_LEN).unwrap();
    let qend = qend + 4;
    let resp = build_empty_response(&query, qend);

    let ancount = u16::from_be_bytes([resp[6], resp[7]]);
    assert_eq!(ancount, 0);

    let flags = u16::from_be_bytes([resp[2], resp[3]]);
    assert_ne!(flags & FLAG_QR, 0);
    assert_eq!(flags & 0x000F, 0);
}

#[test]
fn empty_response_echoes_question() {
    let query = build_query(0x1234, "x", TYPE_AAAA);
    let resp = build_empty_response(&query, query.len());
    assert_eq!(resp.len(), query.len());
    assert_eq!(&resp[HEADER_LEN..], &query[HEADER_LEN..]);
    assert_eq!(&resp[4..12], &[0, 1, 0, 0, 0, 0, 0, 0]);
}

#[test]
fn refused_response_has_rcode_5() {
    let query = build_query(0x5678, "mybucket.awrust", TYPE_A);
    let resp = build_refused(&query);

    let rcode = u16::from_be_bytes([resp[2], resp[3]]) & 0x000F;
    assert_eq!(rcode, 5);
}

#[test]
fn refused_response_is_header_only() {
    let query = build_query(0x5678, "b", TYPE_A);
    let resp = build_refused(&query);
    assert_eq!(resp, vec![0x56, 0x78, 0x81, 0x85, 0, 1, 0, 0, 0, 0, 0, 0]);
}

#[test]
fn handle_a_query_matching_domain() {
    let config = zone([10, 0, 0, 1], "awrust");
    let query = build_query(0x0001, "mybucket.awrust", TYPE_A);
    let resp = reply(handle_query(&query, &config));

    let ancount = u16::from_be_bytes([resp[6], resp[7]]);
    assert_eq!(ancount, 1);

    let ip_offset = resp.len() - 4;
    assert_eq!(&resp[ip_offset..], &[10, 0, 0, 1]);
}

#[test]
fn handle_aaaa_query_matching_domain() {
    let config = zone([10, 0, 0, 1], "awrust");
    let query = build_query(0x0002, "mybucket.awrust", TYPE_AAAA);
    let resp = reply(handle_query(&query, &config));

    let ancount = u16::from_be_bytes([resp[6], resp[7]]);
    assert_eq!(ancount, 0);
}

#[test]
fn handle_rejects_response_packets() {
    let config = zone([127, 0, 0, 1], "awrust");
    let mut query = build_query(0x0001, "test.awrust", TYPE_A);
    let flags = u16::from_be_bytes([query[2], query[3]]) | FLAG_QR;
    query[2..4].copy_from_slice(&flags.to_be_bytes());

    assert!(matches!(handle_query(&query, &config), DnsAction::Ignore));
}

#[test]
fn handle_rejects_short_packets() {
    let config = zone([127, 0, 0, 1], "awrust");
    assert!(matches!(handle_query(&[0u8; 4], &config), DnsAction::Ignore));
}

#[test]
fn handle_matches_query_name_case_insensitively() {
    let config = zone([10, 0, 0, 9], "awrust");
    let query = build_query(0x0003, "MyBucket.AWRUST", TYPE_A);
    let resp = reply(handle_query(&query, &config));
    assert_eq!(&resp[resp.len() - 4..], &[10, 0, 0, 9]);
}

#[test]
fn handle_forwards_other_names() {
    let config = zone([10, 0, 0, 1], "awrust");
    let query = build_query(0x0004, "example.com", TYPE_A);
    assert!(matches!(handle_query(&query, &config), DnsAction::Forward));
}

#[test]
fn handle_refuses_other_classes() {
    let config = zone([10, 0, 0, 1], "awrust");
    let mut query = build_query(0x0005, "mybucket.awrust", TYPE_A);
    let n = query.len();
    query[n - 1] = 3;
    let resp = reply(handle_query(&query, &config));
    assert_eq!(resp.len(), HEADER_LEN);
    assert_eq!(resp[3] & 0x0F, 5);
}

#[test]
fn handle_ignores_multi_question_and_truncated_queries() {
    let config = zone([10, 0, 0, 1], "awrust");
    let mut query = build_query(0x0006, "mybucket.awrust", TYPE_A);
    query[5] = 2;
    assert!(matches!(handle_query(&query, &config), DnsAction::Ignore));

    let query = build_query(0x0007, "mybucket.awrust", TYPE_A);
    assert!(matches!(
        handle_query(&query[..query.len() - 1], &config),
        DnsAction::Ignore
    ));
}

#[test]
fn handle_answer_echoes_whole_question() {
    let config = zone([10, 0, 0, 1], "aw");
    let query = build_query(0x0008, "aw", TYPE_A);
    let resp = reply(handle_query(&query, &config));
    let (_, qend) = parse_qname(&query, HEADER_LEN).unwrap();
    assert_eq!(resp, build_a_response(&query, qend + 4, [10, 0, 0, 1]));
    assert_eq!(&resp[HEADER_LEN..qend + 4], &query[HEADER_LEN..qend + 4]);
    assert_eq!(resp.len(), qend + 4 + 16);
    assert_eq!(resp[0], 0x00);
    assert_eq!(resp[1], 0x08);

    let aaaa = build_query(0x0009, "x.aw", TYPE_AAAA);
    let resp = reply(handle_query(&aaaa, &config));
    assert_eq!(resp.len(), aaaa.len());
    assert_eq!(&resp[HEADER_LEN..], &aaaa[HEADER_LEN..]);
    assert_eq!(u16::from_be_bytes([resp[4], resp[5]]), 1);
}

#[test]
fn resolv_conf_candidates() {
    let contents = "# comment\nsearch lan\nnameserver 10.0.0.2\r\n  nameserver\t1.1.1.1  \nnameserverx\n";
    assert_eq!(
        resolv_conf_nameservers(contents),
        vec!["10.0.0.2".to_string(), "1.1.1.1".to_string(), "x".to_string()]
    );
    assert!(resolv_conf_nameservers("").is_empty());
    assert_eq!(resolv_conf_nameservers("nameserver 8.8.4.4"), vec!["8.8.4.4".to_string()]);
    assert_eq!(resolv_conf_nameservers("nameserver ::1\r"), vec!["::1".to_string()]);
}

#[test]
fn parsed_name_shape() {
    for (name, off) in [("mybucket.awrust.local", HEADER_LEN), ("bücher.x", HEADER_LEN)] {
        let pkt = build_query(1, name, TYPE_A);
        let (parsed, end) = parse_qname(&pkt, off).unwrap();
        assert_eq!(pkt[end - 1], 0);
        assert_eq!(parsed.len(), end - off - 2);
        let mut other = vec![0xFFu8; end + 3];
        other[off..end].copy_from_slice(&pkt[off..end]);
        assert_eq!(parse_qname(&other, off), Some((parsed, end)));
    }
}
