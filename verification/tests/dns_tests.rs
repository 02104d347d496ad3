use biosurf::dns_codec::{encode_query, labels_short, parse_dns_name, parse_response};
use biosurf::dns_resolver::{cache_key, select_resolved_ip, DnsResolver};
use biosurf::dns_types::{DnsError, DnsRecord, DnsRecordData, DnsRecordType};
use biosurf::ip::{IpAddress, IpV4Address, IpV6Address};

fn a_record(name: &str, ttl: u32, octets: [u8; 4]) -> DnsRecord {
    DnsRecord {
        name: name.to_string(),
        record_type: DnsRecordType::A,
        ttl,
        data: DnsRecordData::A(IpV4Address { octets }),
    }
}

fn aaaa_record(name: &str, ttl: u32, groups: [u16; 8]) -> DnsRecord {
    DnsRecord {
        name: name.to_string(),
        record_type: DnsRecordType::AAAA,
        ttl,
        data: DnsRecordData::AAAA(IpV6Address { groups }),
    }
}

/// A reply carrying one question for `www.example.com` and one A answer
/// whose name is a compression pointer back to the question.
fn compressed_reply() -> Vec<u8> {
    let mut r: Vec<u8> = vec![
        0x12, 0x34, // transaction id
        0x81, 0x80, // flags: response, recursion desired and available
        0x00, 0x01, // one question
        0x00, 0x01, // one answer
        0x00, 0x00, // no authority
        0x00, 0x00, // no additional
    ];
    // question name at offset 12: www.example.com
    r.extend_from_slice(&[3, b'w', b'w', b'w']);
    r.extend_from_slice(&[7, b'e', b'x', b'a', b'm', b'p', b'l', b'e']);
    r.extend_from_slice(&[3, b'c', b'o', b'm', 0]);
    r.extend_from_slice(&[0x00, 0x01, 0x00, 0x01]); // type A, class IN
    // answer: name = pointer to offset 12
    r.extend_from_slice(&[0xC0, 0x0C]);
    r.extend_from_slice(&[0x00, 0x01, 0x00, 0x01]); // type A, class IN
    r.extend_from_slice(&[0x00, 0x00, 0x01, 0x2C]); // ttl 300
    r.extend_from_slice(&[0x00, 0x04]); // rdlength 4
    r.extend_from_slice(&[93, 184, 216, 34]);
    r
}

#[test]
fn test_type_codes() {
    assert_eq!(DnsRecordType::A.to_u16(), 1);
    assert_eq!(DnsRecordType::AAAA.to_u16(), 28);
    assert_eq!(DnsRecordType::CNAME.to_u16(), 5);
    assert_eq!(DnsRecordType::NS.to_u16(), 2);
    assert_eq!(DnsRecordType::MX.to_u16(), 15);
    assert_eq!(DnsRecordType::from_u16(28), Some(DnsRecordType::AAAA));
    assert_eq!(DnsRecordType::from_u16(99), None);
}

#[test]
fn test_encode_query_exact_bytes() {
    assert!(labels_short("example.com"));
    let q = encode_query("example.com", DnsRecordType::A, 0x1234);
    let mut expected: Vec<u8> = vec![
        0x12, 0x34, // transaction id
        0x01, 0x00, // recursion desired, all other flags zero
        0x00, 0x01, // one question
        0x00, 0x00, 0x00, 0x00, 0x00, 0x00, // no other records
    ];
    expected.extend_from_slice(&[7, b'e', b'x', b'a', b'm', b'p', b'l', b'e']);
    expected.extend_from_slice(&[3, b'c', b'o', b'm', 0]);
    expected.extend_from_slice(&[0x00, 0x01, 0x00, 0x01]);
    assert_eq!(q, expected);
}

#[test]
fn test_query_roundtrip_with_compression() {
    // Encode a query, then decode a hand-built reply whose answer name is
    // a compressed-name pointer: the record data equals the fixture.
    let query = encode_query("www.example.com", DnsRecordType::A, 0x1234);
    assert_eq!(&query[..2], &[0x12, 0x34]);
    assert_eq!(query.len(), 12 + 17 + 4);

    let reply = compressed_reply();
    let message = parse_response(&reply).unwrap();
    assert_eq!(message.id, 0x1234);
    assert!(message.qr);
    assert_eq!(message.rcode, 0);
    assert_eq!(message.questions.len(), 1);
    assert_eq!(message.questions[0].name, "www.example.com");
    assert_eq!(message.answers.len(), 1);
    let answer = &message.answers[0];
    assert_eq!(answer.name, "www.example.com");
    assert_eq!(answer.record_type, DnsRecordType::A);
    assert_eq!(answer.ttl, 300);
    assert_eq!(
        answer.data,
        DnsRecordData::A(IpV4Address { octets: [93, 184, 216, 34] })
    );
}

#[test]
fn test_aaaa_payload_decodes_canonical() {
    // 0020:0db8:0000:0000:0000:0000:0000:0001 decodes to 20:db8::1.
    let mut r: Vec<u8> = vec![
        0x00, 0x01, 0x81, 0x80, 0x00, 0x00, 0x00, 0x01, 0x00, 0x00, 0x00, 0x00,
    ];
    r.extend_from_slice(&[0x00]); // empty answer name
    r.extend_from_slice(&[0x00, 0x1C, 0x00, 0x01]); // type AAAA, class IN
    r.extend_from_slice(&[0x00, 0x00, 0x00, 0x3C]); // ttl 60
    r.extend_from_slice(&[0x00, 0x10]); // rdlength 16
    r.extend_from_slice(&[
        0x00, 0x20, 0x0D, 0xB8, 0, 0, 0, 0, 0, 0, 0, 0, 0, 0, 0x00, 0x01,
    ]);
    let message = parse_response(&r).unwrap();
    assert_eq!(message.answers.len(), 1);
    match &message.answers[0].data {
        DnsRecordData::AAAA(ip) => {
            assert_eq!(ip.groups, [0x20, 0x0DB8, 0, 0, 0, 0, 0, 1]);
            assert_eq!(ip.to_text(), "20:db8::1");
        }
        other => panic!("wrong payload: {:?}", other),
    }
}

#[test]
fn test_a_payload_wrong_length_fails() {
    let mut r: Vec<u8> = vec![
        0x00, 0x01, 0x81, 0x80, 0x00, 0x00, 0x00, 0x01, 0x00, 0x00, 0x00, 0x00,
    ];
    r.extend_from_slice(&[0x00]); // empty answer name
    r.extend_from_slice(&[0x00, 0x01, 0x00, 0x01]); // type A, class IN
    r.extend_from_slice(&[0x00, 0x00, 0x00, 0x3C]); // ttl 60
    r.extend_from_slice(&[0x00, 0x03]); // rdlength 3: not an address
    r.extend_from_slice(&[1, 2, 3]);
    assert_eq!(parse_response(&r), Err(DnsError::ProtocolError));
}

#[test]
fn test_short_buffer_fails() {
    assert_eq!(parse_response(&[0x00, 0x01, 0x81]), Err(DnsError::ProtocolError));
}

#[test]
fn test_pointer_cycle_rejected() {
    // An answer name pointing at itself must fail, not recurse forever.
    let mut r: Vec<u8> = vec![
        0x00, 0x01, 0x81, 0x80, 0x00, 0x00, 0x00, 0x01, 0x00, 0x00, 0x00, 0x00,
    ];
    r.extend_from_slice(&[0xC0, 0x0C]); // name at offset 12 points to offset 12
    r.extend_from_slice(&[0x00, 0x01, 0x00, 0x01, 0x00, 0x00, 0x00, 0x3C, 0x00, 0x04]);
    r.extend_from_slice(&[1, 2, 3, 4]);
    assert_eq!(parse_response(&r), Err(DnsError::ProtocolError));
}

#[test]
fn test_parse_dns_name_plain() {
    let mut buf: Vec<u8> = vec![3, b'f', b'o', b'o', 3, b'b', b'a', b'r', 0];
    let (name, end) = parse_dns_name(&buf, 0).unwrap();
    assert_eq!(name, "foo.bar");
    assert_eq!(end, 9);
    buf.pop();
    assert_eq!(parse_dns_name(&buf, 0), Err(DnsError::ProtocolError));
}

#[test]
fn test_resolve_ip_prefers_ipv4() {
    let a = Some(vec![a_record("h", 60, [1, 2, 3, 4])]);
    let aaaa = Some(vec![aaaa_record("h", 60, [0, 0, 0, 0, 0, 0, 0, 1])]);
    match select_resolved_ip(&a, &aaaa) {
        Ok(IpAddress::V4(ip)) => assert_eq!(ip.octets, [1, 2, 3, 4]),
        other => panic!("expected the IPv4 address, got {:?}", other),
    }
    match select_resolved_ip(&None, &aaaa) {
        Ok(IpAddress::V6(ip)) => assert_eq!(ip.to_text(), "::1"),
        other => panic!("expected the IPv6 address, got {:?}", other),
    }
    assert_eq!(select_resolved_ip(&None, &None), Err(DnsError::NotFound));
}

#[test]
fn test_repeat_query_within_ttl_hits_cache() {
    // One completed query caches its records: a second lookup inside the
    // TTL window is answered from the cache, so no second datagram goes
    // out; past the expiry the lookup misses and forces a new round trip.
    let mut resolver = DnsResolver::new();
    let reply = compressed_reply();
    assert!(resolver
        .cached_lookup("www.example.com", DnsRecordType::A, 1_000)
        .is_none());
    let records = resolver
        .complete_query("www.example.com", DnsRecordType::A, 1_000, &reply)
        .unwrap();
    assert_eq!(records.len(), 1);
    // ttl 300 seconds: live until 1_000 + 300_000
    let hit = resolver
        .cached_lookup("www.example.com", DnsRecordType::A, 200_000)
        .expect("a lookup within the TTL window must be served from the cache");
    assert_eq!(hit[0].data, DnsRecordData::A(IpV4Address { octets: [93, 184, 216, 34] }));
    assert!(resolver
        .cached_lookup("www.example.com", DnsRecordType::A, 301_000)
        .is_none());
    // a different type misses
    assert!(resolver
        .cached_lookup("www.example.com", DnsRecordType::AAAA, 200_000)
        .is_none());
}

#[test]
fn test_query_decodes_as_message() {
    // the query bytes themselves decode back to the message sent
    let q = encode_query("a.bc", DnsRecordType::MX, 7);
    let m = parse_response(&q).unwrap();
    assert_eq!(m.id, 7);
    assert!(!m.qr);
    assert!(m.rd);
    assert!(!m.ra);
    assert_eq!(m.rcode, 0);
    assert_eq!(m.questions.len(), 1);
    assert_eq!(m.questions[0].name, "a.bc");
    assert_eq!(m.questions[0].record_type, DnsRecordType::MX);
    assert_eq!(m.questions[0].class, 1);
    assert!(m.answers.is_empty());
    assert!(m.authority.is_empty());
    assert!(m.additional.is_empty());
}

#[test]
fn test_repeat_completion_refreshes_expiry() {
    // a completion past the expiry overwrites the entry with a fresh one
    let mut resolver = DnsResolver::new();
    let reply = compressed_reply();
    resolver
        .complete_query("www.example.com", DnsRecordType::A, 1_000, &reply)
        .unwrap();
    // past the first expiry of 301_000 the entry is stale
    assert!(resolver
        .cached_lookup("www.example.com", DnsRecordType::A, 400_000)
        .is_none());
    resolver
        .complete_query("www.example.com", DnsRecordType::A, 400_000, &reply)
        .unwrap();
    assert!(resolver
        .cached_lookup("www.example.com", DnsRecordType::A, 600_000)
        .is_some());
}

#[test]
fn test_cache_key_is_case_sensitive() {
    assert_eq!(cache_key("example.com", DnsRecordType::A), "example.com:A");
    assert_ne!(
        cache_key("Example.com", DnsRecordType::A),
        cache_key("example.com", DnsRecordType::A)
    );
    let mut resolver = DnsResolver::new();
    resolver
        .complete_query("www.example.com", DnsRecordType::A, 1_000, &compressed_reply())
        .unwrap();
    assert!(resolver
        .cached_lookup("WWW.example.com", DnsRecordType::A, 2_000)
        .is_none());
}

#[test]
fn test_server_error_and_not_found() {
    let mut resolver = DnsResolver::new();
    // rcode 3: name error
    let mut bad = compressed_reply();
    bad[3] = 0x83;
    assert_eq!(
        resolver.complete_query("www.example.com", DnsRecordType::A, 0, &bad),
        Err(DnsError::ServerError(3))
    );
    // answers hold no AAAA record: not found, and nothing cached
    assert_eq!(
        resolver.complete_query("www.example.com", DnsRecordType::AAAA, 0, &compressed_reply()),
        Err(DnsError::NotFound)
    );
    assert!(resolver
        .cached_lookup("www.example.com", DnsRecordType::AAAA, 1)
        .is_none());
    // garbage fails as a protocol error
    assert_eq!(
        resolver.complete_query("www.example.com", DnsRecordType::A, 0, &[1, 2, 3]),
        Err(DnsError::ProtocolError)
    );
    resolver.clear_cache();
}
