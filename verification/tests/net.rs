use oxidyze::net::{guess_gateway, is_private_v4, Cidr, Ipv4Addr, MAX_AUTO_HOSTS};

fn ip(s: &str) -> Ipv4Addr {
    Ipv4Addr::parse(s).unwrap()
}

#[test]
fn parses_and_normalizes_to_network_address() {
    // A host address with a /24 should normalize down to the network.
    let c = Cidr::parse("192.168.1.77/24").unwrap();
    assert_eq!(c.network, ip("192.168.1.0"));
    assert_eq!(c.broadcast(), ip("192.168.1.255"));
}

#[test]
fn slash_24_has_254_hosts_from_1_to_254() {
    let c = Cidr::parse("192.168.1.0/24").unwrap();
    let hosts: Vec<_> = c.hosts().collect();
    assert_eq!(c.host_count(), 254);
    assert_eq!(hosts.len(), 254);
    assert_eq!(hosts[0], ip("192.168.1.1"));
    assert_eq!(hosts[253], ip("192.168.1.254"));
}

#[test]
fn slash_30_excludes_network_and_broadcast() {
    let c = Cidr::parse("10.0.0.0/30").unwrap();
    let hosts: Vec<_> = c.hosts().collect();
    assert_eq!(hosts, vec![ip("10.0.0.1"), ip("10.0.0.2")]);
    assert_eq!(c.host_count(), 2);
}

// network+1 ..= broadcast-1 would collapse to an empty range here.
#[test]
fn slash_31_yields_both_addresses_rfc3021() {
    let c = Cidr::parse("10.0.0.0/31").unwrap();
    let hosts: Vec<_> = c.hosts().collect();
    assert_eq!(hosts, vec![ip("10.0.0.0"), ip("10.0.0.1")]);
    assert_eq!(c.host_count(), 2);
}

#[test]
fn slash_32_yields_exactly_the_address() {
    let c = Cidr::parse("10.0.0.5/32").unwrap();
    let hosts: Vec<_> = c.hosts().collect();
    assert_eq!(hosts, vec![ip("10.0.0.5")]);
    assert_eq!(c.host_count(), 1);
}

// host_count must not overflow or allocate for huge blocks.
#[test]
fn large_blocks_report_size_without_allocating() {
    assert_eq!(Cidr::parse("10.0.0.0/8").unwrap().host_count(), 16_777_214);
    assert_eq!(
        Cidr::parse("0.0.0.0/0").unwrap().host_count(),
        4_294_967_294
    );
    // Both are far over the opt-in threshold, so the CLI will refuse them.
    assert!(Cidr::parse("10.0.0.0/8").unwrap().host_count() > MAX_AUTO_HOSTS);
}

#[test]
fn rejects_malformed_input() {
    assert!(Cidr::parse("192.168.1.0").is_err());
    assert!(Cidr::parse("notanip/24").is_err());
    assert!(Cidr::parse("192.168.1.0/33").is_err());
    assert!(Cidr::parse("192.168.1.0/abc").is_err());
}

#[test]
fn boundary_blocks_do_not_overflow() {
    let c = Cidr::parse("255.255.255.255/32").unwrap();
    assert_eq!(c.hosts().collect(), vec![ip("255.255.255.255")]);
    let c = Cidr::parse("255.255.255.254/31").unwrap();
    assert_eq!(c.host_count(), 2);
}

#[test]
fn private_range_classification() {
    assert!(is_private_v4(ip("10.1.2.3")));
    assert!(is_private_v4(ip("172.16.0.1")));
    assert!(is_private_v4(ip("172.31.255.254")));
    assert!(is_private_v4(ip("192.168.4.44")));
    assert!(is_private_v4(ip("169.254.1.1")));
    assert!(!is_private_v4(ip("172.15.0.1")));
    assert!(!is_private_v4(ip("172.32.0.1")));
    assert!(!is_private_v4(ip("8.8.8.8")));
}

#[test]
fn gateway_guess_is_dot_one_of_the_24() {
    assert_eq!(guess_gateway(ip("192.168.4.44")), ip("192.168.4.1"));
}

#[test]
fn gateway_of_the_edges_of_a_24() {
    assert_eq!(guess_gateway(ip("192.168.4.0")), ip("192.168.4.1"));
    assert_eq!(guess_gateway(ip("255.255.255.255")), ip("255.255.255.1"));
    assert_eq!(guess_gateway(ip("10.0.0.1")), ip("10.0.0.1"));
}

#[test]
fn addresses_are_read_back_as_written() {
    for bits in [0u32, 1, 255, 256, 0x0A00_0001, 0xC0A8_042C, 0xFFFF_FFFF] {
        let addr = Ipv4Addr { bits };
        assert_eq!(Ipv4Addr::parse(&addr.to_string()), Some(addr));
    }
    assert_eq!(Ipv4Addr::new(192, 168, 4, 44).to_string(), "192.168.4.44");
    assert_eq!(Ipv4Addr::new(192, 168, 4, 44).octets(), [192, 168, 4, 44]);
    assert_eq!(Ipv4Addr::new(1, 2, 3, 4).bits, 0x0102_0304);
}

#[test]
fn malformed_addresses_are_refused() {
    for text in [
        "", "1.2.3", "1.2.3.4.5", "1.2.3.256", "1.2.3.04", "1.2.3.", "+1.2.3.4", "1.2.3.4 ",
        "1..2.3", "a.b.c.d", "1.2.3.0000", "::1",
    ] {
        assert_eq!(Ipv4Addr::parse(text), None, "{text}");
    }
    assert_eq!(Ipv4Addr::parse("0.0.0.0"), Some(Ipv4Addr { bits: 0 }));
}

#[test]
fn block_errors_say_what_is_wrong() {
    assert_eq!(
        Cidr::parse("192.168.1.0").unwrap_err(),
        "'192.168.1.0' is not a CIDR block (expected e.g. 192.168.1.0/24)"
    );
    assert_eq!(
        Cidr::parse("notanip/24").unwrap_err(),
        "'notanip' is not a valid IPv4 address"
    );
    assert_eq!(
        Cidr::parse("192.168.1.0/33").unwrap_err(),
        "prefix /33 is out of range (0-32)"
    );
    assert_eq!(
        Cidr::parse("192.168.1.0/256").unwrap_err(),
        "'256' is not a valid prefix length"
    );
    assert_eq!(
        Cidr::parse("192.168.1.0/24/8").unwrap_err(),
        "'24/8' is not a valid prefix length"
    );
    assert_eq!(
        Cidr::new(ip("1.2.3.4"), 200).unwrap_err(),
        "prefix /200 is out of range (0-32)"
    );
}

#[test]
fn blocks_are_normalized() {
    let c = Cidr::new(ip("172.16.99.1"), 12).unwrap();
    assert_eq!(c.network, ip("172.16.0.0"));
    assert_eq!(c.broadcast(), ip("172.31.255.255"));
    assert_eq!(Cidr::new(c.network, 12), Ok(c));
    assert_eq!(Cidr::new(c.broadcast(), 12), Ok(c));
    assert_eq!(
        Cidr::parse(&format!("{}/{}", c.network.to_string(), c.prefix)),
        Ok(c)
    );
    assert_eq!(
        Cidr::new(ip("1.2.3.4"), 0).unwrap().broadcast(),
        ip("255.255.255.255")
    );
}

#[test]
fn hosts_come_one_at_a_time() {
    let mut hosts = Cidr::parse("0.0.0.0/0").unwrap().hosts();
    assert_eq!(hosts.next(), Some(ip("0.0.0.1")));
    assert_eq!(hosts.next(), Some(ip("0.0.0.2")));
    let mut last = Cidr::parse("255.255.255.254/31").unwrap().hosts();
    assert_eq!(last.next(), Some(ip("255.255.255.254")));
    assert_eq!(last.next(), Some(ip("255.255.255.255")));
    assert_eq!(last.next(), None);
    assert_eq!(last.next(), None);
    for prefix in 16..=32u8 {
        let c = Cidr::new(ip("10.9.8.7"), prefix).unwrap();
        let all = c.hosts().collect();
        assert_eq!(all.len() as u64, c.host_count());
        assert!(all.windows(2).all(|w| w[0] < w[1]));
    }
}
