use bns_doh::dns::{
    answer_for_forward, answer_for_outcome, bns_outcome, extract_host_from_dns_query,
    is_managed_tld, metadata_get, plan_dns_query, query_hostname_to_label_bytes, Answer,
    BnsApiDomain, BnsDomain, DnsStep, QueryResult,
};

fn query_for(labels: &[u8], qtype: u8) -> Vec<u8> {
    let mut q = vec![0xab, 0xcd, 1, 0, 0, 1, 0, 0, 0, 0, 0, 0];
    q.extend_from_slice(labels);
    q.extend_from_slice(&[0, qtype, 0, 1]);
    q
}

fn record(resolved: Option<&str>, metadata: &[(&str, &str)]) -> BnsDomain {
    BnsDomain {
        api_domain: BnsApiDomain {
            tld: "ban".to_string(),
            name: "test".to_string(),
            history: Vec::new(),
            burned: None,
            metadata_hash: None,
            resolved_address: resolved.map(|s| s.to_string()),
        },
        metadata: metadata.iter().map(|(k, v)| (k.to_string(), v.to_string())).collect(),
    }
}

fn bytes_of(a: Answer) -> Vec<u8> {
    a.bytes.expect("an answer")
}

#[test]
fn decodes_uncompressed_question() {
    let q = query_for(b"\x07example\x03com\x00", 1);
    assert_eq!(extract_host_from_dns_query(&q, None), Ok("example.com".to_string()));
}

#[test]
fn decode_round_trips_encoding() {
    for host in ["test.ban", "a.b.c", "x", "Mixed.Case.jtv"] {
        let q = query_for(&query_hostname_to_label_bytes(host), 1);
        assert_eq!(extract_host_from_dns_query(&q, None), Ok(host.to_string()));
    }
}

#[test]
fn compressed_name_matches_uncompressed() {
    // "www" then a pointer to "example.com" written after the question
    let mut q = vec![0, 0, 1, 0, 0, 1, 0, 0, 0, 0, 0, 0];
    q.extend_from_slice(b"\x03www\xc0\x16");
    q.extend_from_slice(&[0, 1, 0, 1]);
    assert_eq!(q.len(), 22);
    q.extend_from_slice(b"\x07example\x03com\x00");
    let plain = query_for(b"\x03www\x07example\x03com\x00", 1);
    let a = extract_host_from_dns_query(&q, None);
    assert_eq!(a, Ok("www.example.com".to_string()));
    assert_eq!(a, extract_host_from_dns_query(&plain, None));
}

#[test]
fn decode_from_given_start() {
    let q = query_for(b"\x03foo\x03ban\x00", 1);
    assert_eq!(extract_host_from_dns_query(&q, Some(16)), Ok("ban".to_string()));
}

#[test]
fn pointer_past_end_is_malformed() {
    let q = query_for(b"\xc0\xff", 1);
    assert_eq!(extract_host_from_dns_query(&q, None), Err(()));
}

#[test]
fn label_overrunning_buffer_is_malformed() {
    let mut q = vec![0u8; 12];
    q.extend_from_slice(b"\x05ab");
    assert_eq!(extract_host_from_dns_query(&q, None), Err(()));
    let short = vec![0u8; 12];
    assert_eq!(extract_host_from_dns_query(&short, None), Err(()));
}

#[test]
fn invalid_length_byte_is_malformed() {
    let q = query_for(b"\x50abc\x00", 1);
    assert_eq!(extract_host_from_dns_query(&q, None), Err(()));
}

#[test]
fn pointer_loop_is_malformed() {
    let q = query_for(b"\xc0\x0c", 1);
    assert_eq!(extract_host_from_dns_query(&q, None), Err(()));
}

#[test]
fn label_bytes_of_host() {
    assert_eq!(query_hostname_to_label_bytes("test.ban"), b"\x04test\x03ban\x00".to_vec());
    assert_eq!(query_hostname_to_label_bytes(""), vec![0, 0]);
}

#[test]
fn managed_tlds() {
    assert!(is_managed_tld("ban"));
    assert!(is_managed_tld("mictest"));
    assert!(is_managed_tld("jtv"));
    assert!(!is_managed_tld("com"));
    assert!(!is_managed_tld("banx"));
}

#[test]
fn metadata_lookup_takes_first_match() {
    let md = vec![("A".to_string(), "1".to_string()), ("A".to_string(), "2".to_string())];
    assert_eq!(metadata_get(&md, "A"), Some(&"1".to_string()));
    assert_eq!(metadata_get(&md, "CNAME"), None);
}

#[test]
fn a_record_wins_over_cname() {
    let d = record(Some("abc"), &[("CNAME", "other.example"), ("A", "10.0.0.7")]);
    match bns_outcome(Some(d)) {
        QueryResult::A(ip, redirect) => {
            assert_eq!(ip, [10, 0, 0, 7]);
            assert_eq!(redirect, None);
        },
        _ => panic!("expected an A outcome"),
    }
}

#[test]
fn invalid_a_record_falls_back_to_cname() {
    let d = record(None, &[("A", "10.0.0"), ("CNAME", "other.example")]);
    match bns_outcome(Some(d)) {
        QueryResult::Cname(t) => assert_eq!(t, "other.example"),
        _ => panic!("expected a CNAME outcome"),
    }
}

#[test]
fn redirect_points_at_self() {
    let d = record(Some("abc"), &[("redirect", "https://example.org/")]);
    match bns_outcome(Some(d)) {
        QueryResult::A(ip, redirect) => {
            assert_eq!(ip, [127, 0, 0, 1]);
            assert_eq!(redirect, Some("https://example.org/".to_string()));
        },
        _ => panic!("expected an A outcome"),
    }
}

#[test]
fn failed_or_empty_lookup_is_nxdomain() {
    assert!(matches!(bns_outcome(None), QueryResult::NXDomain));
    assert!(matches!(bns_outcome(Some(record(None, &[]))), QueryResult::NXDomain));
}

#[test]
fn resolved_address_example() {
    let q = query_for(b"\x04test\x03ban\x00", 1);
    let (host, domain_name, tld) = match plan_dns_query(&q, 0) {
        DnsStep::Resolve { host, domain_name, tld } => (host, domain_name, tld),
        _ => panic!("expected a registry lookup"),
    };
    assert_eq!(host, "test.ban");
    assert_eq!(domain_name, "test");
    assert_eq!(tld, "ban");
    let outcome = bns_outcome(Some(record(Some("abc123"), &[])));
    match &outcome {
        QueryResult::A(ip, redirect) => {
            assert_eq!(*ip, [127, 0, 0, 1]);
            assert_eq!(
                redirect.as_deref(),
                Some("https://creeper.banano.cc/account/abc123")
            );
        },
        _ => panic!("expected an A outcome"),
    }
    let mut expected = vec![0, 0, 128, 0, 0, 1, 0, 1, 0, 0, 0, 0];
    expected.extend_from_slice(b"\x04test\x03ban\x00");
    expected.extend_from_slice(&[0, 1, 0, 1]);
    expected.extend_from_slice(&[192, 12, 0, 1, 0, 1, 0, 0, 2, 88, 0, 4, 127, 0, 0, 1]);
    assert_eq!(bytes_of(answer_for_outcome(&q, &host, &outcome)), expected);
}

#[test]
fn cname_answer_echoes_question_type() {
    let q = query_for(b"\x04test\x03ban\x00", 28);
    let outcome = QueryResult::Cname("x.org".to_string());
    let mut expected = vec![0, 0, 128, 0, 0, 1, 0, 1, 0, 0, 0, 0];
    expected.extend_from_slice(b"\x04test\x03ban\x00");
    expected.extend_from_slice(&[0, 28, 0, 1]);
    expected.extend_from_slice(&[192, 12, 0, 5, 0, 1, 0, 0, 2, 88, 0, 7]);
    expected.extend_from_slice(b"\x01x\x03org\x00");
    assert_eq!(bytes_of(answer_for_outcome(&q, "test.ban", &outcome)), expected);
}

#[test]
fn cname_answer_needs_question_type() {
    let mut q = vec![0u8; 12];
    q.extend_from_slice(b"\x04test\x03ban\x00\x00");
    let outcome = QueryResult::Cname("x.org".to_string());
    assert!(answer_for_outcome(&q, "test.ban", &outcome).bytes.is_none());
}

#[test]
fn nxdomain_response() {
    let q = query_for(b"\x04gone\x03ban\x00", 1);
    let r = bytes_of(answer_for_outcome(&q, "gone.ban", &QueryResult::NXDomain));
    assert_eq!(r, vec![0, 0, 128, 3, 0, 0, 0, 0, 0, 0, 0, 0]);
    assert_eq!(r[3] & 0x0f, 3);
    assert_eq!((r[4], r[5], r[6], r[7]), (0, 0, 0, 0));
}

#[test]
fn foreign_outcome_has_no_encoding() {
    let q = query_for(b"\x04gone\x03ban\x00", 1);
    assert!(answer_for_outcome(&q, "gone.ban", &QueryResult::NonBns).bytes.is_none());
}

#[test]
fn servfail_response() {
    let r = bytes_of(answer_for_forward(None));
    assert_eq!(r, vec![0, 0, 128, 2, 0, 0, 0, 0, 0, 0, 0, 0]);
    assert_eq!(r[3] & 0x0f, 2);
}

#[test]
fn foreign_name_is_forwarded_verbatim() {
    let q = query_for(b"\x07example\x03com\x00", 1);
    assert!(matches!(plan_dns_query(&q, 0), DnsStep::Forward));
    let upstream = vec![9, 8, 7, 6, 5];
    assert_eq!(bytes_of(answer_for_forward(Some(upstream.clone()))), upstream);
}

#[test]
fn depth_guard_gives_no_answer() {
    let q = query_for(b"\x04test\x03ban\x00", 1);
    assert!(matches!(plan_dns_query(&q, 3), DnsStep::NoAnswer));
    assert!(matches!(plan_dns_query(&q, 2), DnsStep::Resolve { .. }));
    assert!(matches!(plan_dns_query(&[0u8; 3], 3), DnsStep::NoAnswer));
}

#[test]
fn malformed_query_gives_no_answer() {
    assert!(matches!(plan_dns_query(&[0u8; 5], 0), DnsStep::NoAnswer));
}
