use oxidyze::dns::{
    accepts_reply, build_query, clock_input, encode_name, extract_ptr_answer, id_of_hash, next_lookup,
    parse_labels, parse_name, parse_resolv_conf, parse_scutil_dns, ptr_name, question_of,
    system_resolvers, transaction_id, LookupStep,
};
use oxidyze::net::Ipv4Addr;

fn ip(s: &str) -> Ipv4Addr {
    Ipv4Addr::parse(s).unwrap()
}

#[test]
fn ptr_name_reverses_the_octets() {
    assert_eq!(ptr_name(ip("192.168.4.44")), "44.4.168.192.in-addr.arpa");
}

#[test]
fn encodes_names_as_length_prefixed_labels() {
    assert_eq!(encode_name("ab.cd"), vec![2, b'a', b'b', 2, b'c', b'd', 0]);
}

#[test]
fn query_has_well_formed_header() {
    let q = build_query(ip("10.0.0.1"), 0xBEEF, [0x00, 0x01], true);
    assert_eq!(&q[0..2], &[0xBE, 0xEF]); // id
    assert_eq!(&q[2..4], &[0x01, 0x00]); // recursion desired
    assert_eq!(&q[4..6], &[0x00, 0x01]); // qdcount == 1
    assert_eq!(&q[q.len() - 4..], &[0x00, 0x0C, 0x00, 0x01]); // PTR / IN
}

#[test]
fn mdns_query_sets_unicast_response_bit() {
    let q = build_query(ip("10.0.0.1"), 0, [0x80, 0x01], false);
    assert_eq!(&q[q.len() - 2..], &[0x80, 0x01]);
}

/// Builds a minimal PTR response for 1.0.0.10.in-addr.arpa -> `target`.
fn sample_response(target: &str, use_compression: bool) -> Vec<u8> {
    let mut pkt = Vec::new();
    pkt.extend_from_slice(&0x1234u16.to_be_bytes());
    pkt.extend_from_slice(&[0x81, 0x80]); // response, no error
    pkt.extend_from_slice(&[0x00, 0x01]); // qdcount
    pkt.extend_from_slice(&[0x00, 0x01]); // ancount
    pkt.extend_from_slice(&[0x00, 0x00]);
    pkt.extend_from_slice(&[0x00, 0x00]);
    pkt.extend_from_slice(&encode_name("1.0.0.10.in-addr.arpa"));
    pkt.extend_from_slice(&[0x00, 0x0C, 0x00, 0x01]);

    // Answer
    if use_compression {
        pkt.extend_from_slice(&[0xC0, 0x0C]); // pointer back to the question
    } else {
        pkt.extend_from_slice(&encode_name("1.0.0.10.in-addr.arpa"));
    }
    pkt.extend_from_slice(&[0x00, 0x0C, 0x00, 0x01]); // PTR / IN
    pkt.extend_from_slice(&[0x00, 0x00, 0x0E, 0x10]); // ttl
    let rdata = encode_name(target);
    pkt.extend_from_slice(&(rdata.len() as u16).to_be_bytes());
    pkt.extend_from_slice(&rdata);
    pkt
}

#[test]
fn extracts_ptr_from_uncompressed_response() {
    let pkt = sample_response("router.lan", false);
    assert_eq!(extract_ptr_answer(&pkt), Some("router.lan".to_string()));
}

#[test]
fn extracts_ptr_when_answer_name_is_compressed() {
    let pkt = sample_response("router.lan", true);
    assert_eq!(extract_ptr_answer(&pkt), Some("router.lan".to_string()));
}

#[test]
fn returns_none_when_no_answers() {
    let mut pkt = sample_response("router.lan", true);
    pkt[6] = 0;
    pkt[7] = 0; // ancount = 0
    assert_eq!(extract_ptr_answer(&pkt), None);
}

#[test]
fn truncated_and_empty_input_is_rejected_not_panicked() {
    assert_eq!(extract_ptr_answer(&[]), None);
    assert_eq!(extract_ptr_answer(&[0u8; 11]), None);
    let pkt = sample_response("router.lan", true);
    for cut in 12..pkt.len() {
        let _ = extract_ptr_answer(&pkt[..cut]); // must not panic
    }
}

// A pointer that targets itself would spin forever without the budget.
#[test]
fn self_referential_compression_pointer_terminates() {
    let mut pkt = vec![0u8; 20];
    pkt[12] = 0xC0;
    pkt[13] = 0x0C; // points at itself
    let (name, _) = parse_name(&pkt, 12);
    assert!(name.is_empty());
}

#[test]
fn transaction_ids_are_not_derived_from_the_address() {
    // Sample enough IDs that a constant or address-derived scheme shows up.
    let ids: std::collections::HashSet<u16> = (0..64).map(|_| transaction_id()).collect();
    assert!(ids.len() > 1, "transaction IDs should vary");
}

#[test]
fn parses_resolv_conf() {
    let text = "\
# comment
nameserver 192.168.4.1
nameserver 8.8.8.8
search lan
nameserver not-an-ip
";
    assert_eq!(
        parse_resolv_conf(text),
        vec![ip("192.168.4.1"), ip("8.8.8.8")]
    );
}

#[test]
fn parses_scutil_output() {
    let text = "\
DNS configuration

resolver #1
  search domain[0] : lan
  nameserver[0] : 192.168.4.1
  nameserver[1] : 8.8.4.4
  if_index : 14 (en0)

resolver #2
  domain   : local
  options  : mdns
";
    assert_eq!(
        parse_scutil_dns(text),
        vec![ip("192.168.4.1"), ip("8.8.4.4")]
    );
}

#[test]
fn names_survive_encoding_and_decoding() {
    for name in ["a", "router.lan", "44.4.168.192.in-addr.arpa", "dürüm.local"] {
        let mut buf = vec![7u8; 5];
        let encoded = encode_name(name);
        buf.extend_from_slice(&encoded);
        buf.extend_from_slice(&[9, 9, 9]);
        assert_eq!(parse_name(&buf, 5), (name.to_string(), 5 + encoded.len()));
    }
}

#[test]
fn a_pointer_does_not_advance_the_cursor() {
    let mut buf = encode_name("lan");
    let start = buf.len();
    buf.extend_from_slice(&[6, b'r', b'o', b'u', b't', b'e', b'r', 0xC0, 0x00, 77]);
    assert_eq!(
        parse_name(&buf, start),
        ("router.lan".to_string(), start + 9)
    );
}

#[test]
fn pointers_use_fourteen_bits() {
    let mut buf = vec![0u8; 300];
    buf[260..265].copy_from_slice(&encode_name("abc"));
    buf[0] = 0xC1;
    buf[1] = 0x04;
    assert_eq!(parse_name(&buf, 0), ("abc".to_string(), 2));
}

#[test]
fn names_that_run_past_the_end_are_cut_off() {
    assert_eq!(parse_name(&[2, b'a', b'b', 5, b'c'], 0), ("ab".to_string(), 3));
    assert_eq!(parse_name(&[1, b'a', 0xC0], 0), ("a".to_string(), 2));
    assert_eq!(parse_name(&[1, b'a'], 0), ("a".to_string(), 2));
    assert_eq!(parse_name(&[1, b'a'], 9), (String::new(), 9));
    let (labels, end) = parse_labels(&[1, b'a', 2, b'b', b'c', 0, 1], 0);
    assert_eq!(labels, vec![b"a".to_vec(), b"bc".to_vec()]);
    assert_eq!(end, 6);
}

#[test]
fn labels_that_are_not_utf8_are_replaced() {
    assert_eq!(parse_name(&[1, 0xFF, 0], 0), ("\u{fffd}".to_string(), 3));
}

#[test]
fn long_labels_keep_the_low_byte_of_their_length() {
    let long = "x".repeat(260);
    let bytes = encode_name(&long);
    assert_eq!(bytes[0], 4);
    assert_eq!(bytes.len(), 262);
    assert_eq!(encode_name(""), vec![0, 0]);
}

#[test]
fn as_many_questions_are_skipped_as_the_header_counts() {
    let record = [
        1, b'a', 0, 0, 12, 0, 1, 0, 0, 0, 120, 0, 3, 1, b'b', 0,
    ];
    let mut none = vec![0, 0, 0x84, 0, 0, 0, 0, 1, 0, 0, 0, 0];
    none.extend_from_slice(&record);
    assert_eq!(extract_ptr_answer(&none), Some("b".to_string()));

    let mut two = vec![0, 0, 0x84, 0, 0, 2, 0, 1, 0, 0, 0, 0];
    for name in ["x.y", "z"] {
        two.extend_from_slice(&encode_name(name));
        two.extend_from_slice(&[0, 12, 0, 1]);
    }
    two.extend_from_slice(&record);
    assert_eq!(extract_ptr_answer(&two), Some("b".to_string()));

    // More questions are counted than the message holds.
    two[4] = 0xFF;
    assert_eq!(extract_ptr_answer(&two), None);
    none[5] = 1;
    assert_eq!(extract_ptr_answer(&none), None);
}

#[test]
fn other_records_are_passed_over() {
    let mut pkt = sample_response("router.lan", true);
    // Turn the answer into a TXT record and append a PTR record behind it.
    let question_end = 12 + encode_name("1.0.0.10.in-addr.arpa").len() + 4;
    pkt[question_end + 3] = 0x10;
    assert_eq!(extract_ptr_answer(&pkt), None);
    pkt[7] = 2;
    pkt.extend_from_slice(&[0xC0, 0x0C, 0x00, 0x0C, 0x00, 0x01, 0, 0, 0, 0, 0x00, 0x05]);
    pkt.extend_from_slice(&encode_name("nas"));
    assert_eq!(extract_ptr_answer(&pkt), Some("nas".to_string()));
}

#[test]
fn trailing_dots_are_dropped_and_empty_targets_ignored() {
    assert_eq!(
        extract_ptr_answer(&sample_response("nas.lan.", true)),
        Some("nas.lan".to_string())
    );
    assert_eq!(extract_ptr_answer(&sample_response("", true)), None);
}

#[test]
fn the_question_follows_the_header() {
    let q = build_query(ip("10.0.0.1"), 0x0102, [0x00, 0x01], true);
    let mut question = encode_name("1.0.0.10.in-addr.arpa");
    question.extend_from_slice(&[0x00, 0x0C, 0x00, 0x01]);
    assert_eq!(question_of(&q), question);
    assert_eq!(&q[..12], &[1, 2, 1, 0, 0, 1, 0, 0, 0, 0, 0, 0]);
    assert_eq!(parse_name(&q, 12).0, ptr_name(ip("10.0.0.1")));
}

#[test]
fn replies_have_to_match_their_query() {
    let resolver = ip("192.168.4.1");
    let query = build_query(ip("10.0.0.1"), 0x1234, [0x00, 0x01], true);
    let question = question_of(&query);
    let reply = sample_response("router.lan", true);
    let accepts = |packet: &[u8], from: Option<Ipv4Addr>, id: u16| {
        accepts_reply(packet, from, Some(resolver), Some(id), Some(&question))
    };
    assert!(accepts(&reply, Some(resolver), 0x1234));
    assert!(!accepts(&reply, Some(ip("192.168.4.2")), 0x1234));
    assert!(!accepts(&reply, None, 0x1234));
    assert!(!accepts(&reply, Some(resolver), 0x1235));
    assert!(!accepts(&reply[..11], Some(resolver), 0x1234));
    assert!(!accepts(&reply[..20], Some(resolver), 0x1234));
    let mut unasked = reply.clone();
    unasked[5] = 0;
    assert!(!accepts(&unasked, Some(resolver), 0x1234));
    assert!(accepts_reply(&unasked, None, None, Some(0x1234), None));
    let mut other = reply.clone();
    other[13] = b'2';
    assert!(!accepts(&other, Some(resolver), 0x1234));
    assert!(accepts_reply(&other, None, None, None, None));
    assert!(accepts_reply(&reply, None, None, Some(0x1234), Some(&question)));
}

#[test]
fn transaction_ids_are_the_low_bits_of_a_hash() {
    assert_eq!(id_of_hash(0xFFFF_FFFF_1234_5678), 0x5678);
    assert_eq!(id_of_hash(0x1_0000), 0);
}

#[test]
fn the_clock_is_hashed_or_zero() {
    assert_eq!(clock_input(Some(1 << 100)), 1 << 100);
    assert_eq!(clock_input(None), 0);
}

#[test]
fn resolvers_are_asked_in_order_and_the_link_last() {
    let resolvers = [ip("10.0.0.1"), ip("8.8.8.8")];
    assert!(matches!(next_lookup(&resolvers, 0, None), LookupStep::Ask(a) if a == resolvers[0]));
    assert!(matches!(next_lookup(&resolvers, 1, None), LookupStep::Ask(a) if a == resolvers[1]));
    assert!(matches!(
        next_lookup(&resolvers, 2, None),
        LookupStep::AskMulticast
    ));
    assert!(matches!(
        next_lookup(&resolvers, 3, None),
        LookupStep::NotFound
    ));
    match next_lookup(&resolvers, 1, Some("nas.lan".to_string())) {
        LookupStep::Found(name) => assert_eq!(name, "nas.lan"),
        _ => panic!("an answer ends the lookup"),
    }
    assert!(matches!(next_lookup(&[], 0, None), LookupStep::AskMulticast));
}

#[test]
fn system_resolvers_prefer_the_platform_source() {
    let scutil: &[u8] = b"  nameserver[0] : 192.168.1.1\n  nameserver[1] : 1.1.1.1\n  nameserver[0] : 192.168.1.1\n";
    let conf = "nameserver 8.8.8.8\nnameserver 1.1.1.1\nnameserver 4.4.4.4\n";
    assert_eq!(
        system_resolvers(Some(scutil), Some(conf)),
        vec![
            ip("192.168.1.1"),
            ip("1.1.1.1"),
            ip("8.8.8.8"),
            ip("4.4.4.4")
        ]
    );
    assert_eq!(
        system_resolvers(None, Some(conf)),
        vec![ip("8.8.8.8"), ip("1.1.1.1"), ip("4.4.4.4")]
    );
    assert_eq!(system_resolvers(None, None), vec![]);
}
