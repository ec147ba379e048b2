use oxidyze::arp::{
    after_arp, from_neighbor, normalize_mac, pad_mac, parse_arp_output, parse_ip_neighbor_output,
    table, TableStep,
};
use oxidyze::net::Ipv4Addr;

fn ip(s: &str) -> Ipv4Addr {
    Ipv4Addr::parse(s).unwrap()
}

#[test]
fn parses_macos_style_output() {
    let text = "\
? (192.168.4.1) at 0:1c:42:aa:bb:cc on en0 ifscope [ethernet]
? (192.168.4.44) at 3c:22:fb:11:22:33 on en0 ifscope [ethernet]
? (192.168.4.99) at (incomplete) on en0 ifscope [ethernet]
";
    let map = parse_arp_output(text);
    assert_eq!(map.len(), 2);
    assert_eq!(
        map.get(&ip("192.168.4.1")),
        Some(&"00:1c:42:aa:bb:cc".to_string())
    );
    assert_eq!(
        map.get(&ip("192.168.4.44")),
        Some(&"3c:22:fb:11:22:33".to_string())
    );
    assert!(!map.contains_key(&ip("192.168.4.99")));
}

#[test]
fn parses_linux_style_output() {
    let text = "gateway (10.0.0.1) at aa:bb:cc:dd:ee:ff [ether] on eth0\n";
    let map = parse_arp_output(text);
    assert_eq!(
        map.get(&ip("10.0.0.1")),
        Some(&"aa:bb:cc:dd:ee:ff".to_string())
    );
}

#[test]
fn ignores_junk_lines() {
    let map = parse_arp_output("total garbage\n\n(notanip) at xx\n");
    assert!(map.is_empty());
}

#[test]
fn pads_short_octets() {
    assert_eq!(normalize_mac("0:1:2:3:4:5"), "00:01:02:03:04:05");
    assert_eq!(normalize_mac("AA:BB:CC:DD:EE:FF"), "aa:bb:cc:dd:ee:ff");
}

#[test]
fn parses_ip_neighbor_output() {
    let text = "\
192.168.1.1 dev eth0 lladdr aa:bb:cc:dd:ee:ff STALE
192.168.1.44 dev wlan0 lladdr 11:22:33:44:55:66 REACHABLE
";
    let map = parse_ip_neighbor_output(text);
    assert_eq!(map.len(), 2);
    assert_eq!(
        map.get(&ip("192.168.1.1")),
        Some(&"aa:bb:cc:dd:ee:ff".to_string())
    );
    assert_eq!(
        map.get(&ip("192.168.1.44")),
        Some(&"11:22:33:44:55:66".to_string())
    );
}

// FAILED/INCOMPLETE entries have no lladdr token at all, not a placeholder:
// skipping a fixed offset would grab STATE ("FAILED") as if it were the MAC.
#[test]
fn ip_neighbor_entries_without_lladdr_are_skipped() {
    let map = parse_ip_neighbor_output("192.168.1.99 dev eth0  FAILED\n");
    assert!(!map.contains_key(&ip("192.168.1.99")));
}

#[test]
fn ip_neighbor_ipv6_rows_are_dropped() {
    let map = parse_ip_neighbor_output("fe80::1 dev eth0 lladdr aa:bb:cc:dd:ee:ff router STALE\n");
    assert!(map.is_empty());
}

#[test]
fn normalizing_a_mac_twice_changes_nothing() {
    let once = normalize_mac("0:1C:42:a:Bb:C");
    assert_eq!(once, "00:1c:42:0a:bb:0c");
    assert_eq!(once.chars().count(), 17);
    assert_eq!(normalize_mac(&once), once);
}

#[test]
fn lower_case_covers_letters_beyond_ascii() {
    assert_eq!(normalize_mac("ÄB:Ö"), "äb:ö");
}

#[test]
fn padding_keeps_the_case_and_counts_ascii_octets_only() {
    assert_eq!(pad_mac("A:BB:ä"), "0A:BB:ä");
    assert_eq!(pad_mac(""), "");
    assert_eq!(pad_mac("1:"), "01:");
}

#[test]
fn a_later_line_overrides_an_earlier_one() {
    let text = "\
? (10.0.0.1) at 1:1:1:1:1:1 on en0
? (10.0.0.1) at 2:2:2:2:2:2 on en0
";
    let map = parse_arp_output(text);
    assert_eq!(map.len(), 1);
    assert_eq!(
        map.get(&ip("10.0.0.1")),
        Some(&"02:02:02:02:02:02".to_string())
    );
}

#[test]
fn arp_wins_over_ip_neighbor_unless_it_shows_nothing() {
    let arp: &[u8] = b"? (10.0.0.1) at 1:1:1:1:1:1 on en0\n";
    let neighbor: &[u8] = b"10.0.0.2 dev eth0 lladdr 2:2:2:2:2:2 STALE\n";
    let both = table(Some(arp), Some(neighbor));
    assert!(both.contains_key(&ip("10.0.0.1")));
    assert!(!both.contains_key(&ip("10.0.0.2")));
    let fallback = table(Some(b"nothing here\n"), Some(neighbor));
    assert!(fallback.contains_key(&ip("10.0.0.2")));
}

#[test]
fn the_neighbor_table_is_asked_for_only_when_arp_shows_nothing() {
    match after_arp(Some(b"? (10.0.0.1) at 1:1:1:1:1:1 on en0\n")) {
        TableStep::Done(map) => assert_eq!(
            map.get(&ip("10.0.0.1")),
            Some(&"01:01:01:01:01:01".to_string())
        ),
        TableStep::AskNeighbor => panic!("arp showed a table"),
    }
    assert!(matches!(
        after_arp(Some(b"(incomplete)\n")),
        TableStep::AskNeighbor
    ));
    assert!(matches!(after_arp(None), TableStep::AskNeighbor));
    assert!(from_neighbor(None).is_empty());
    assert_eq!(
        from_neighbor(Some(b"10.0.0.2 dev eth0 lladdr 2:2:2:2:2:2 STALE\n")).len(),
        1
    );
}

#[test]
fn commands_that_did_not_run_leave_the_table_empty() {
    assert!(table(None, None).is_empty());
    let neighbor: &[u8] = b"10.0.0.2 dev eth0 lladdr 2:2:2:2:2:2 STALE\n";
    assert_eq!(table(None, Some(neighbor)).len(), 1);
    let broken: &[u8] = b"\xff? (10.0.0.1) at 1:1:1:1:1:1 on en0\n";
    assert_eq!(
        table(Some(broken), Some(neighbor)).get(&ip("10.0.0.1")),
        Some(&"01:01:01:01:01:01".to_string())
    );
}
