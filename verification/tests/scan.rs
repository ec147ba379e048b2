use oxidyze::net::Ipv4Addr;
use oxidyze::scan::{
    after_probe, default_probe_ports, discovery_work, effective_threads, live_hosts, next_probe,
    open_by_host, scan_work, sorted_ports, ProbeOutcome, ProbeStep, MAX_THREADS,
};

fn ip(s: &str) -> Ipv4Addr {
    Ipv4Addr::parse(s).unwrap()
}

#[test]
fn thread_count_is_clamped_to_the_ceiling() {
    // 200_000 threads would abort the process at runtime.
    assert_eq!(effective_threads(200_000, 10_000), MAX_THREADS);
    assert_eq!(effective_threads(usize::MAX, 10_000), MAX_THREADS);
}

#[test]
fn never_spawns_more_threads_than_work() {
    assert_eq!(effective_threads(20_000, 2), 2);
    assert_eq!(effective_threads(100, 10), 10);
}

#[test]
fn always_spawns_at_least_one_thread() {
    assert_eq!(effective_threads(0, 100), 1);
    assert_eq!(effective_threads(0, 0), 1);
}

#[test]
fn only_ports_that_connected_are_open() {
    let attempts = [
        (40001, ProbeOutcome::Refused),
        (40000, ProbeOutcome::Connected),
        (39999, ProbeOutcome::NoAnswer),
        (22, ProbeOutcome::Connected),
    ];
    let found: Vec<u16> = attempts
        .iter()
        .filter(|(_, outcome)| outcome.connected())
        .map(|(port, _)| *port)
        .collect();
    assert_eq!(sorted_ports(found), vec![22, 40000]);
}

#[test]
fn found_ports_are_listed_under_their_host() {
    let localhost = ip("127.0.0.1");
    let port = 40000;
    let results = open_by_host(&[localhost], vec![(localhost, port)]);
    assert_eq!(results.get(&localhost), Some(&vec![port]));
}

#[test]
fn a_host_that_connected_is_live() {
    let localhost = ip("127.0.0.1");
    let up = after_probe(false, ProbeOutcome::Connected);
    assert_eq!(live_hosts(&[localhost], &[up]), vec![localhost]);
}

#[test]
fn probe_ports_are_tried_in_a_fixed_order() {
    assert_eq!(
        default_probe_ports(),
        vec![80, 443, 22, 445, 139, 3389, 8080, 53, 21, 8443]
    );
}

#[test]
fn scans_go_host_by_host() {
    let (a, b) = (ip("10.0.0.1"), ip("10.0.0.2"));
    assert_eq!(
        scan_work(&[a, b], &[80, 22, 443]),
        vec![(a, 80), (a, 22), (a, 443), (b, 80), (b, 22), (b, 443)]
    );
    assert_eq!(scan_work(&[], &[80]), vec![]);
    assert_eq!(scan_work(&[a], &[]), vec![]);
}

#[test]
fn discovery_goes_port_by_port() {
    assert_eq!(
        discovery_work(3, &[80, 22]),
        vec![(0, 80), (1, 80), (2, 80), (0, 22), (1, 22), (2, 22)]
    );
    assert_eq!(discovery_work(0, &[80]), vec![]);
}

#[test]
fn refusal_proves_a_host_is_there_and_silence_does_not() {
    assert!(ProbeOutcome::Connected.answers());
    assert!(ProbeOutcome::Refused.answers());
    assert!(!ProbeOutcome::NoAnswer.answers());
    assert!(!ProbeOutcome::Refused.connected());
}

#[test]
fn a_host_that_answered_is_not_probed_again() {
    let mut up = false;
    let mut sent = 0;
    for outcome in [
        ProbeOutcome::NoAnswer,
        ProbeOutcome::Refused,
        ProbeOutcome::NoAnswer,
    ] {
        if next_probe(up) == ProbeStep::Send {
            sent += 1;
            up = after_probe(up, outcome);
        }
    }
    assert!(up);
    assert_eq!(sent, 2);
    assert!(after_probe(true, ProbeOutcome::NoAnswer));
    assert!(!after_probe(false, ProbeOutcome::NoAnswer));
}

#[test]
fn live_hosts_are_sorted_and_distinct() {
    let (a, b, c) = (ip("9.0.0.1"), ip("10.0.0.1"), ip("10.0.0.2"));
    assert_eq!(
        live_hosts(&[c, a, b, a, c], &[true, true, false, true, false]),
        vec![a, c]
    );
    assert_eq!(live_hosts(&[], &[]), vec![]);
}

#[test]
fn every_host_has_a_list_and_every_list_is_sorted() {
    let (a, b, c) = (ip("10.0.0.1"), ip("10.0.0.2"), ip("10.0.0.3"));
    let open = open_by_host(&[a, b], vec![(a, 443), (c, 5), (a, 22), (a, 80), (a, 22)]);
    assert_eq!(open.get(&a), Some(&vec![22, 22, 80, 443]));
    assert_eq!(open.get(&b), Some(&vec![]));
    assert_eq!(open.get(&c), Some(&vec![5]));
    assert_eq!(open.get(&ip("10.0.0.4")), None);
    assert_eq!(open.len(), 3);
}
