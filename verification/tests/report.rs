use oxidyze::cli::NetworkSpec;
use oxidyze::maps::{AddrMap, EndpointMap};
use oxidyze::net::{Cidr, Ipv4Addr};
use oxidyze::report::{
    after_discovery, after_lan_scan, after_port_scan, announce_discovery, announce_host, announce_lan_scan,
    banner_work, dash, host_table, lan_table, live_table, order_by_port, resolve_network,
    resolvers_for, resolvers_for_network, service_table, unresolved_host, HostsStep, LanStep,
    PortsStep,
};
use oxidyze::scan::open_by_host;

fn ip(s: &str) -> Ipv4Addr {
    Ipv4Addr::parse(s).unwrap()
}

#[test]
fn large_networks_are_refused_without_the_opt_in() {
    let spec = NetworkSpec::Explicit(Cidr::parse("10.0.0.0/8").unwrap());
    let err = resolve_network(&spec, None, false).unwrap_err();
    assert!(err.contains("--allow-large"), "unexpected message: {err}");
    assert!(resolve_network(&spec, None, true).is_ok());
}

#[test]
fn normal_networks_pass_through() {
    let spec = NetworkSpec::Explicit(Cidr::parse("192.168.1.0/24").unwrap());
    let cidr = resolve_network(&spec, None, false).unwrap();
    assert_eq!(cidr.prefix, 24);
}

#[test]
fn missing_values_render_as_a_dash() {
    assert_eq!(dash(None), "-");
    assert_eq!(dash(Some("router.lan".into())), "router.lan");
}

#[test]
fn network_errors_say_what_is_wrong() {
    let spec = NetworkSpec::Explicit(Cidr::parse("10.0.0.0/15").unwrap());
    assert_eq!(
        resolve_network(&spec, None, false).unwrap_err(),
        "10.0.0.0/15 covers 131070 addresses, which would take a very long time.\n       \
         Use a smaller prefix, or pass --allow-large if you really mean it."
    );
    assert_eq!(
        resolve_network(&NetworkSpec::Auto, None, true).unwrap_err(),
        "could not auto-detect a local IPv4 address; pass a network like 192.168.1.0/24"
    );
    let limit = NetworkSpec::Explicit(Cidr::parse("10.0.0.0/16").unwrap());
    assert!(resolve_network(&limit, None, false).is_ok());
}

#[test]
fn auto_is_the_24_of_the_local_address() {
    assert_eq!(
        resolve_network(&NetworkSpec::Auto, Some(ip("192.168.4.44")), false),
        Cidr::parse("192.168.4.0/24")
    );
}

#[test]
fn the_gateway_is_asked_first_for_private_targets() {
    let local = Some(ip("192.168.4.44"));
    let system = [ip("8.8.8.8"), ip("9.9.9.9")];
    assert_eq!(
        resolvers_for(ip("192.168.4.7"), local, &system),
        vec![ip("192.168.4.1"), ip("8.8.8.8"), ip("9.9.9.9")]
    );
    assert_eq!(
        resolvers_for(ip("1.2.3.4"), local, &system),
        vec![ip("8.8.8.8"), ip("9.9.9.9")]
    );
    assert_eq!(
        resolvers_for(ip("192.168.4.7"), None, &system),
        vec![ip("8.8.8.8"), ip("9.9.9.9")]
    );
    assert_eq!(
        resolvers_for(ip("10.0.0.5"), Some(ip("10.0.0.9")), &[ip("10.0.0.1")]),
        vec![ip("10.0.0.1")]
    );
}

#[test]
fn the_gateway_is_asked_first_for_private_networks() {
    let system = [ip("8.8.8.8")];
    assert_eq!(
        resolvers_for_network(&Cidr::parse("10.1.2.0/24").unwrap(), &system),
        vec![ip("10.1.2.1"), ip("8.8.8.8")]
    );
    assert_eq!(
        resolvers_for_network(&Cidr::parse("1.1.1.0/24").unwrap(), &system),
        vec![ip("8.8.8.8")]
    );
}

#[test]
fn a_host_scan_is_announced_with_its_real_thread_count() {
    assert_eq!(
        announce_host("nas.lan", "10.0.0.2", 3, 256, 300),
        "Scanning nas.lan (10.0.0.2) - 3 port(s), 3 threads, 300ms timeout\n"
    );
    assert_eq!(
        unresolved_host("nowhere"),
        "could not resolve host 'nowhere'"
    );
}

#[test]
fn one_host_is_one_row() {
    assert_eq!(
        host_table("10.0.0.2", Some("nas.lan".to_string()), None),
        "IP        HOSTNAME  MAC ADDRESS\n--------  --------  -----------\n10.0.0.2  nas.lan   -"
    );
}

fn printed(step: PortsStep) -> String {
    match step {
        PortsStep::Print(text) => text,
        PortsStep::GrabBanners => panic!("expected text"),
    }
}

#[test]
fn open_ports_are_listed_or_their_banners_grabbed() {
    assert_eq!(printed(after_port_scan(&[], false)), "No open ports found.");
    assert_eq!(printed(after_port_scan(&[], true)), "No open ports found.");
    assert_eq!(
        printed(after_port_scan(&[22, 80], false)),
        "Open ports:\n  22/tcp open\n  80/tcp open"
    );
    assert!(matches!(
        after_port_scan(&[22], true),
        PortsStep::GrabBanners
    ));
}

#[test]
fn services_are_listed_by_port() {
    let labeled = order_by_port(vec![(443, "https?".to_string()), (22, "SSH-2.0".to_string())]);
    assert_eq!(
        service_table(&labeled),
        "Open ports:\n\nPORT     STATE  SERVICE\n-------  -----  -------\n22/tcp   open   SSH-2.0\n443/tcp  open   https?"
    );
}

#[test]
fn discovery_is_announced_and_may_find_nobody() {
    assert_eq!(
        announce_discovery(&Cidr::parse("192.168.1.0/24").unwrap()),
        "Discovering live hosts on 192.168.1.0/24 (254 addresses)..."
    );
    match after_discovery(&[]) {
        HostsStep::Stop(text) => assert_eq!(text, "No live hosts found."),
        HostsStep::LookUp => panic!("there is nobody to look up"),
    }
    assert!(matches!(
        after_discovery(&[ip("10.0.0.1")]),
        HostsStep::LookUp
    ));
}

fn texts(entries: &[(&str, &str)]) -> AddrMap<String> {
    let mut map = AddrMap::new();
    for (addr, text) in entries {
        map.insert(ip(addr), text.to_string());
    }
    map
}

#[test]
fn live_hosts_are_listed_with_names_and_macs() {
    let alive = [ip("10.0.0.1"), ip("10.0.0.20")];
    let names = texts(&[("10.0.0.20", "nas")]);
    let macs = texts(&[("10.0.0.1", "00:11")]);
    assert_eq!(
        live_table(&alive, &names, &macs),
        "Live hosts (2):\n\n\
         IP         HOSTNAME  MAC ADDRESS\n\
         ---------  --------  -----------\n\
         10.0.0.1   -         00:11\n\
         10.0.0.20  nas       -"
    );
}

#[test]
fn lan_tables_list_ports_with_or_without_banners() {
    let (a, b) = (ip("10.0.0.1"), ip("10.0.0.2"));
    let alive = [a, b];
    let names = texts(&[]);
    let macs = texts(&[]);
    let open = open_by_host(&alive, vec![(a, 80), (a, 22)]);
    assert_eq!(
        lan_table(&alive, &names, &macs, &open, None),
        "IP        HOSTNAME  MAC ADDRESS  OPEN PORTS\n\
         --------  --------  -----------  ----------\n\
         10.0.0.1  -         -            22, 80\n\
         10.0.0.2  -         -            -"
    );
    let mut banners = EndpointMap::new();
    banners.insert(a, 22, "SSH-2.0".to_string());
    assert_eq!(
        lan_table(&alive, &names, &macs, &open, Some(&banners)),
        "IP        HOSTNAME  MAC ADDRESS  OPEN PORTS\n\
         --------  --------  -----------  ----------------\n\
         10.0.0.1  -         -            22/SSH-2.0, 80/-\n\
         10.0.0.2  -         -            -"
    );
    assert_eq!(
        announce_lan_scan(2, 1024),
        "Found 2 live host(s). Scanning 1024 port(s) on each...\n"
    );
}

#[test]
fn banners_are_grabbed_from_open_ports_of_live_hosts() {
    let (a, b, c) = (ip("10.0.0.1"), ip("10.0.0.2"), ip("10.0.0.3"));
    let open = open_by_host(&[a, b, c], vec![(b, 80), (a, 443), (a, 22), (c, 1)]);
    assert_eq!(
        banner_work(&[b, a], &open),
        vec![(b, 80), (a, 22), (a, 443)]
    );
    assert_eq!(banner_work(&[], &open), vec![]);
    match after_lan_scan(&[b, a], &open, true) {
        LanStep::GrabBanners(work) => assert_eq!(work, vec![(b, 80), (a, 22), (a, 443)]),
        LanStep::NoBanners => panic!("banners were asked for"),
    }
    assert!(matches!(
        after_lan_scan(&[b, a], &open, false),
        LanStep::NoBanners
    ));
}
