//! Mode decisions and output.

use vstd::arithmetic::power2::lemma2_to64;
use vstd::prelude::*;

use crate::cli::NetworkSpec;
use crate::maps::{endpoint, map_text, AddrMap, EndpointMap};
use crate::net::{
    block_of, gateway, guess_gateway, is_private_v4, law_block_is_normalized, private_v4, said, Cidr,
    Ipv4Addr, MAX_AUTO_HOSTS,
};
use crate::scan::{at_least, at_most, effective_threads, MAX_THREADS};
use crate::sort::{
    ascending, dedup, lemma_no_repeats, lemma_without_repeats, sort_by_key, without_repeats,
};
use crate::table::{
    column_start, law_cells_stand_below_their_headers, render, row_views, single_lines, slice_views,
    table_text, widths,
};
use crate::text::{decimal, decimal_of, join, join_strings, split, string_views, white_space};

verus! {

// ---------------------------------------------------------------------
// Networks and resolvers
// ---------------------------------------------------------------------

/// What is said of a network with too many addresses.
pub open spec fn too_large(cidr: Cidr) -> Seq<char> {
    cidr.network.dotted() + "/"@ + decimal(cidr.prefix as nat) + " covers "@ + decimal(
        cidr.host_total() as nat,
    ) + " addresses, which would take a very long time.\n       Use a smaller prefix, or pass --allow-large if you really mean it."@
}

/// A network, unless it has too many addresses.
pub open spec fn within_limit(cidr: Cidr, allow_large: bool) -> Result<Cidr, Seq<char>> {
    if cidr.host_total() > MAX_AUTO_HOSTS && !allow_large {
        Err(too_large(cidr))
    } else {
        Ok(cidr)
    }
}

/// The network that is scanned, or why none is.
pub open spec fn network(spec: NetworkSpec, local: Option<Ipv4Addr>, allow_large: bool) -> Result<
    Cidr,
    Seq<char>,
> {
    match spec {
        NetworkSpec::Explicit(cidr) => within_limit(cidr, allow_large),
        NetworkSpec::Auto => match local {
            None => Err(
                "could not auto-detect a local IPv4 address; pass a network like 192.168.1.0/24"@,
            ),
            Some(ip) => within_limit(block_of(ip, 24), allow_large),
        },
    }
}

/// Turns `auto` into the /24 of the local interface's address, and refuses
/// networks that are almost certainly a typo'd prefix.
pub fn resolve_network(spec: &NetworkSpec, local: Option<Ipv4Addr>, allow_large: bool) -> (r: Result<
    Cidr,
    String,
>)
    requires
        *spec matches NetworkSpec::Explicit(cidr) ==> cidr.prefix <= 32,
    ensures
        said(r) == network(*spec, local, allow_large),
{
    let cidr = match spec {
        NetworkSpec::Explicit(cidr) => *cidr,
        NetworkSpec::Auto => match local {
            None => return Err(
                "could not auto-detect a local IPv4 address; pass a network like 192.168.1.0/24".to_owned(),
            ),
            Some(ip) => match Cidr::new(ip, 24) {
                Ok(cidr) => cidr,
                Err(message) => return Err(message),
            },
        },
    };
    let hosts = cidr.host_count();
    if hosts > MAX_AUTO_HOSTS && !allow_large {
        let mut message = cidr.network.to_string();
        message.append("/");
        message.append(decimal_of(cidr.prefix as u64).as_str());
        message.append(" covers ");
        message.append(decimal_of(hosts).as_str());
        message.append(
            " addresses, which would take a very long time.\n       Use a smaller prefix, or pass --allow-large if you really mean it.",
        );
        return Err(message);
    }
    Ok(cidr)
}

/// A gateway, if there is one, before the system's resolvers.
pub open spec fn resolver_list(first: Option<Ipv4Addr>, system: Seq<Ipv4Addr>) -> Seq<Ipv4Addr> {
    without_repeats(
        match first {
            Some(ip) => seq![ip] + system,
            None => system,
        },
    )
}

fn list_resolvers(first: Option<Ipv4Addr>, system: &[Ipv4Addr]) -> (out: Vec<Ipv4Addr>)
    ensures
        out@ == resolver_list(first, system@),
{
    let mut all: Vec<Ipv4Addr> = Vec::new();
    if let Some(ip) = first {
        all.push(ip);
    }
    let ghost head = all@;
    for i in 0..system.len()
        invariant
            all@ == head + system@.take(i as int),
    {
        all.push(system[i]);
    }
    assert(system@.take(system@.len() as int) =~= system@);
    assert(all@ =~= match first {
        Some(ip) => seq![ip] + system@,
        None => system@,
    });
    dedup(all.as_slice())
}

/// The gateway that is asked first for a target, given the local address.
pub open spec fn target_gateway(target: Ipv4Addr, local: Option<Ipv4Addr>) -> Option<Ipv4Addr> {
    match local {
        Some(ip) if private_v4(target) => Some(gateway(ip)),
        _ => None,
    }
}

/// Resolvers to try, best-first.
///
/// Public resolvers hold no PTR records for RFC1918 space, so for private
/// targets the LAN gateway is tried first: it usually knows DHCP hostnames.
pub fn resolvers_for(target: Ipv4Addr, local: Option<Ipv4Addr>, system: &[Ipv4Addr]) -> (out: Vec<
    Ipv4Addr,
>)
    ensures
        out@ == resolver_list(target_gateway(target, local), system@),
{
    let first = match local {
        Some(ip) => {
            if is_private_v4(target) {
                Some(guess_gateway(ip))
            } else {
                None
            }
        },
        None => None,
    };
    list_resolvers(first, system)
}

/// The gateway that is asked first for the hosts of a network.
pub open spec fn network_gateway(cidr: Cidr) -> Option<Ipv4Addr> {
    if private_v4(cidr.network) {
        Some(gateway(cidr.network))
    } else {
        None
    }
}

/// Resolvers to try for the hosts of a network, best-first.
pub fn resolvers_for_network(cidr: &Cidr, system: &[Ipv4Addr]) -> (out: Vec<Ipv4Addr>)
    ensures
        out@ == resolver_list(network_gateway(*cidr), system@),
{
    let first = if is_private_v4(cidr.network) {
        Some(guess_gateway(cidr.network))
    } else {
        None
    };
    list_resolvers(first, system)
}

// ---------------------------------------------------------------------
// Cells
// ---------------------------------------------------------------------

/// A value, or a dash where there is none.
pub open spec fn dashed(value: Option<Seq<char>>) -> Seq<char> {
    match value {
        Some(s) => s,
        None => "-"@,
    }
}

pub fn dash(value: Option<String>) -> (out: String)
    ensures
        out@ == dashed(
            match value {
                Some(s) => Some(s@),
                None => None,
            },
        ),
{
    match value {
        Some(s) => s,
        None => "-".to_owned(),
    }
}

/// What a table of texts holds for an address.
pub open spec fn entry(m: Map<u32, Seq<char>>, ip: Ipv4Addr) -> Seq<char> {
    dashed(
        if m.contains_key(ip.bits) {
            Some(m[ip.bits])
        } else {
            None
        },
    )
}

fn entry_of(m: &AddrMap<String>, ip: Ipv4Addr) -> (out: String)
    ensures
        out@ == entry(map_text(m@), ip),
{
    match m.get(&ip) {
        Some(s) => s.clone(),
        None => "-".to_owned(),
    }
}

// ---------------------------------------------------------------------
// One host
// ---------------------------------------------------------------------

/// The line that announces the scan of one host.
pub open spec fn host_intro(
    host: Seq<char>,
    ip: Seq<char>,
    ports: nat,
    threads: nat,
    timeout_ms: nat,
) -> Seq<char> {
    "Scanning "@ + host + " ("@ + ip + ") - "@ + decimal(ports) + " port(s), "@ + decimal(
        at_most(at_most(at_least(threads, 1), MAX_THREADS as nat), at_least(ports, 1)),
    ) + " threads, "@ + decimal(timeout_ms) + "ms timeout\n"@
}

/// Announces the scan of one host.
pub fn announce_host(host: &str, ip: &str, ports: usize, threads: usize, timeout_ms: u64) -> (out:
    String)
    ensures
        out@ == host_intro(host@, ip@, ports as nat, threads as nat, timeout_ms as nat),
{
    let mut out = "Scanning ".to_owned();
    out.append(host);
    out.append(" (");
    out.append(ip);
    out.append(") - ");
    out.append(decimal_of(ports as u64).as_str());
    out.append(" port(s), ");
    out.append(decimal_of(effective_threads(threads, ports) as u64).as_str());
    out.append(" threads, ");
    out.append(decimal_of(timeout_ms).as_str());
    out.append("ms timeout\n");
    out
}

/// What is said when a host name has no address.
pub fn unresolved_host(host: &str) -> (out: String)
    ensures
        out@ == "could not resolve host '"@ + host@ + "'"@,
{
    let mut out = "could not resolve host '".to_owned();
    out.append(host);
    out.append("'");
    out
}

/// The headers of a table of hosts.
pub open spec fn host_headers() -> Seq<Seq<char>> {
    seq!["IP"@, "HOSTNAME"@, "MAC ADDRESS"@]
}

/// The table of one host.
pub open spec fn host_text(ip: Seq<char>, hostname: Option<Seq<char>>, mac: Option<Seq<char>>) -> Seq<
    char,
> {
    table_text(host_headers(), seq![seq![ip, dashed(hostname), dashed(mac)]])
}

/// The table of one host.
pub fn host_table(ip: &str, hostname: Option<String>, mac: Option<String>) -> (out: String)
    ensures
        out@ == host_text(
            ip@,
            match hostname {
                Some(s) => Some(s@),
                None => None,
            },
            match mac {
                Some(s) => Some(s@),
                None => None,
            },
        ),
{
    let mut row: Vec<String> = Vec::new();
    row.push(ip.to_owned());
    row.push(dash(hostname));
    row.push(dash(mac));
    let ghost cells = string_views(row@);
    let mut rows: Vec<Vec<String>> = Vec::new();
    rows.push(row);
    let headers = ["IP", "HOSTNAME", "MAC ADDRESS"];
    assert(slice_views(headers@) =~= host_headers());
    assert(row_views(rows@) =~= seq![cells]);
    assert(cells =~= seq![cells[0], cells[1], cells[2]]);
    render(&headers, rows.as_slice())
}

/// What follows the scan of one host.
pub enum PortsStep {
    /// There is nothing more to find out: print this.
    Print(String),
    /// Grab a banner from each open port.
    GrabBanners,
}

/// The line of an open port.
pub open spec fn port_line(port: u16) -> Seq<char> {
    "  "@ + decimal(port as nat) + "/tcp open"@
}

/// The list of open ports.
pub open spec fn port_listing(open: Seq<u16>) -> Seq<char> {
    join(seq!["Open ports:"@] + open.map_values(|port: u16| port_line(port)), "\n"@)
}

fn list_ports(open: &[u16]) -> (out: String)
    ensures
        out@ == port_listing(open@),
{
    let ghost wanted = seq!["Open ports:"@] + open@.map_values(|port: u16| port_line(port));
    let mut lines: Vec<String> = Vec::new();
    lines.push("Open ports:".to_owned());
    assert(string_views(lines@) =~= wanted.take(1));
    for i in 0..open.len()
        invariant
            wanted == seq!["Open ports:"@] + open@.map_values(|port: u16| port_line(port)),
            string_views(lines@) == wanted.take(i + 1),
    {
        let ghost before = string_views(lines@);
        let mut line = "  ".to_owned();
        line.append(decimal_of(open[i] as u64).as_str());
        line.append("/tcp open");
        assert(line@ == wanted[i + 1]);
        lines.push(line);
        assert(string_views(lines@) =~= before.push(line@));
        assert(before.push(line@) =~= wanted.take(i + 2));
    }
    assert(wanted.take((open@.len() + 1) as int) =~= wanted);
    join_strings(lines.as_slice(), "\n")
}

/// Decides what follows the scan of one host.
pub fn after_port_scan(open: &[u16], banners: bool) -> (step: PortsStep)
    ensures
        match step {
            PortsStep::Print(text) => (open@.len() == 0 || !banners) && text@ == (if open@.len()
                == 0 {
                "No open ports found."@
            } else {
                port_listing(open@)
            }),
            PortsStep::GrabBanners => open@.len() > 0 && banners,
        },
{
    if open.len() == 0 {
        PortsStep::Print("No open ports found.".to_owned())
    } else if banners {
        PortsStep::GrabBanners
    } else {
        PortsStep::Print(list_ports(open))
    }
}

/// The labels of open ports in the order of the ports.
pub fn order_by_port(labeled: Vec<(u16, String)>) -> (out: Vec<(u16, String)>)
    ensures
        ascending(out@),
        out@.to_multiset() == labeled@.to_multiset(),
{
    sort_by_key(labeled)
}

/// The row of an open port and its service.
pub open spec fn service_row(labeled: (u16, String)) -> Seq<Seq<char>> {
    seq![decimal(labeled.0 as nat) + "/tcp"@, "open"@, labeled.1@]
}

/// The table of open ports and their services.
pub open spec fn service_text(labeled: Seq<(u16, String)>) -> Seq<char> {
    "Open ports:\n\n"@ + table_text(
        seq!["PORT"@, "STATE"@, "SERVICE"@],
        labeled.map_values(|l: (u16, String)| service_row(l)),
    )
}

/// The table of open ports and their services.
pub fn service_table(labeled: &[(u16, String)]) -> (out: String)
    ensures
        out@ == service_text(labeled@),
{
    let ghost wanted = labeled@.map_values(|l: (u16, String)| service_row(l));
    let mut rows: Vec<Vec<String>> = Vec::new();
    for i in 0..labeled.len()
        invariant
            wanted == labeled@.map_values(|l: (u16, String)| service_row(l)),
            row_views(rows@) == wanted.take(i as int),
    {
        let ghost before = row_views(rows@);
        let mut port = decimal_of(labeled[i].0 as u64);
        port.append("/tcp");
        let mut row: Vec<String> = Vec::new();
        row.push(port);
        row.push("open".to_owned());
        row.push(labeled[i].1.clone());
        assert(string_views(row@) =~= wanted[i as int]);
        rows.push(row);
        assert(row_views(rows@) =~= before.push(string_views(row@)));
    }
    assert(wanted.take(labeled@.len() as int) =~= wanted);
    let headers = ["PORT", "STATE", "SERVICE"];
    assert(slice_views(headers@) =~= seq!["PORT"@, "STATE"@, "SERVICE"@]);
    let mut out = "Open ports:\n\n".to_owned();
    out.append(render(&headers, rows.as_slice()).as_str());
    out
}

// ---------------------------------------------------------------------
// Networks of hosts
// ---------------------------------------------------------------------

/// The line that announces host discovery.
pub open spec fn discovery_intro(cidr: Cidr) -> Seq<char> {
    "Discovering live hosts on "@ + cidr.network.dotted() + "/"@ + decimal(cidr.prefix as nat)
        + " ("@ + decimal(cidr.host_total() as nat) + " addresses)..."@
}

/// Announces host discovery.
pub fn announce_discovery(cidr: &Cidr) -> (out: String)
    requires
        cidr.prefix <= 32,
    ensures
        out@ == discovery_intro(*cidr),
{
    let mut out = "Discovering live hosts on ".to_owned();
    out.append(cidr.network.to_string().as_str());
    out.append("/");
    out.append(decimal_of(cidr.prefix as u64).as_str());
    out.append(" (");
    out.append(decimal_of(cidr.host_count()).as_str());
    out.append(" addresses)...");
    out
}

/// What follows host discovery.
pub enum HostsStep {
    /// No host is up: print this and stop.
    Stop(String),
    /// Look the live hosts up.
    LookUp,
}

/// Decides what follows host discovery.
pub fn after_discovery(alive: &[Ipv4Addr]) -> (step: HostsStep)
    ensures
        match step {
            HostsStep::Stop(text) => alive@.len() == 0 && text@ == "No live hosts found."@,
            HostsStep::LookUp => alive@.len() > 0,
        },
{
    if alive.len() == 0 {
        HostsStep::Stop("No live hosts found.".to_owned())
    } else {
        HostsStep::LookUp
    }
}

/// The row of a live host.
pub open spec fn host_row(
    ip: Ipv4Addr,
    names: Map<u32, Seq<char>>,
    macs: Map<u32, Seq<char>>,
) -> Seq<Seq<char>> {
    seq![ip.dotted(), entry(names, ip), entry(macs, ip)]
}

/// The cells that every row of a live host begins with.
fn host_cells(ip: Ipv4Addr, names: &AddrMap<String>, macs: &AddrMap<String>) -> (row: Vec<String>)
    ensures
        string_views(row@) == host_row(ip, map_text(names@), map_text(macs@)),
{
    let mut row: Vec<String> = Vec::new();
    row.push(ip.to_string());
    row.push(entry_of(names, ip));
    row.push(entry_of(macs, ip));
    assert(string_views(row@) =~= host_row(ip, map_text(names@), map_text(macs@)));
    row
}

/// The table of live hosts.
pub open spec fn live_text(
    alive: Seq<Ipv4Addr>,
    names: Map<u32, Seq<char>>,
    macs: Map<u32, Seq<char>>,
) -> Seq<char> {
    "Live hosts ("@ + decimal(alive.len()) + "):\n\n"@ + table_text(
        host_headers(),
        alive.map_values(|ip: Ipv4Addr| host_row(ip, names, macs)),
    )
}

/// The table of live hosts.
pub fn live_table(alive: &[Ipv4Addr], names: &AddrMap<String>, macs: &AddrMap<String>) -> (out:
    String)
    ensures
        out@ == live_text(alive@, map_text(names@), map_text(macs@)),
{
    let ghost wanted = alive@.map_values(
        |ip: Ipv4Addr| host_row(ip, map_text(names@), map_text(macs@)),
    );
    let mut rows: Vec<Vec<String>> = Vec::new();
    for i in 0..alive.len()
        invariant
            wanted == alive@.map_values(
                |ip: Ipv4Addr| host_row(ip, map_text(names@), map_text(macs@)),
            ),
            row_views(rows@) == wanted.take(i as int),
    {
        let ghost before = row_views(rows@);
        let row = host_cells(alive[i], names, macs);
        assert(string_views(row@) == wanted[i as int]);
        rows.push(row);
        assert(row_views(rows@) =~= before.push(wanted[i as int]));
    }
    assert(wanted.take(alive@.len() as int) =~= wanted);
    let headers = ["IP", "HOSTNAME", "MAC ADDRESS"];
    assert(slice_views(headers@) =~= host_headers());
    let mut out = "Live hosts (".to_owned();
    out.append(decimal_of(alive.len() as u64).as_str());
    out.append("):\n\n");
    out.append(render(&headers, rows.as_slice()).as_str());
    out
}

/// Announces the port scan of the live hosts.
pub fn announce_lan_scan(hosts: usize, ports: usize) -> (out: String)
    ensures
        out@ == "Found "@ + decimal(hosts as nat) + " live host(s). Scanning "@ + decimal(
            ports as nat,
        ) + " port(s) on each...\n"@,
{
    let mut out = "Found ".to_owned();
    out.append(decimal_of(hosts as u64).as_str());
    out.append(" live host(s). Scanning ");
    out.append(decimal_of(ports as u64).as_str());
    out.append(" port(s) on each...\n");
    out
}

/// The open ports of a host.
pub open spec fn open_on(open: Map<u32, Vec<u16>>, ip: Ipv4Addr) -> Seq<u16> {
    if open.contains_key(ip.bits) {
        open[ip.bits]@
    } else {
        seq![]
    }
}

/// Every open port of the first host, then every open port of the second,
/// and so on.
pub open spec fn open_endpoints(alive: Seq<Ipv4Addr>, open: Map<u32, Vec<u16>>) -> Seq<
    (Ipv4Addr, u16),
>
    decreases alive.len(),
{
    if alive.len() == 0 {
        seq![]
    } else {
        open_endpoints(alive.drop_last(), open) + open_on(open, alive.last()).map_values(
            |port: u16| (alive.last(), port),
        )
    }
}

/// Work items for grabbing the banners of all open ports.
pub fn banner_work(alive: &[Ipv4Addr], open: &AddrMap<Vec<u16>>) -> (out: Vec<(Ipv4Addr, u16)>)
    ensures
        out@ == open_endpoints(alive@, open@),
{
    let mut out: Vec<(Ipv4Addr, u16)> = Vec::new();
    for h in 0..alive.len()
        invariant
            out@ == open_endpoints(alive@.take(h as int), open@),
    {
        let ghost before = out@;
        let ip = alive[h];
        let ghost next = open_on(open@, ip).map_values(|port: u16| (ip, port));
        if let Some(ports) = open.get(&ip) {
            for p in 0..ports.len()
                invariant
                    next == ports@.map_values(|port: u16| (ip, port)),
                    out@ == before + next.take(p as int),
            {
                out.push((ip, ports[p]));
                assert(next.take(p + 1) =~= next.take(p as int).push(next[p as int]));
            }
            assert(next.take(ports@.len() as int) =~= next);
        }
        assert(out@ =~= before + next);
        assert(alive@.take(h + 1).drop_last() =~= alive@.take(h as int));
        assert(alive@.take(h + 1).last() == ip);
    }
    assert(alive@.take(alive@.len() as int) =~= alive@);
    out
}

/// What follows the port scan of the live hosts.
pub enum LanStep {
    /// Grab a banner from each of these open ports.
    GrabBanners(Vec<(Ipv4Addr, u16)>),
    /// List the open ports as they are.
    NoBanners,
}

/// Decides what follows the port scan of the live hosts.
pub fn after_lan_scan(alive: &[Ipv4Addr], open: &AddrMap<Vec<u16>>, banners: bool) -> (step: LanStep)
    ensures
        match step {
            LanStep::GrabBanners(work) => banners && work@ == open_endpoints(alive@, open@),
            LanStep::NoBanners => !banners,
        },
{
    if banners {
        LanStep::GrabBanners(banner_work(alive, open))
    } else {
        LanStep::NoBanners
    }
}

/// How an open port is listed: with its service where banners were grabbed.
pub open spec fn port_cell(
    ip: Ipv4Addr,
    port: u16,
    banners: Option<Map<u64, Seq<char>>>,
) -> Seq<char> {
    match banners {
        Some(m) => decimal(port as nat) + "/"@ + dashed(
            if m.contains_key(endpoint(ip, port)) {
                Some(m[endpoint(ip, port)])
            } else {
                None
            },
        ),
        None => decimal(port as nat),
    }
}

/// The open ports of a host, as one cell.
pub open spec fn ports_cell(
    ip: Ipv4Addr,
    ports: Seq<u16>,
    banners: Option<Map<u64, Seq<char>>>,
) -> Seq<char> {
    if ports.len() == 0 {
        "-"@
    } else {
        join(ports.map_values(|port: u16| port_cell(ip, port, banners)), ", "@)
    }
}

/// The contents of a table of banners, if there is one.
pub open spec fn banner_view(banners: Option<&EndpointMap>) -> Option<Map<u64, Seq<char>>> {
    match banners {
        Some(m) => Some(m@),
        None => None,
    }
}

fn list_port(ip: Ipv4Addr, port: u16, banners: Option<&EndpointMap>) -> (out: String)
    ensures
        out@ == port_cell(ip, port, banner_view(banners)),
{
    let mut out = decimal_of(port as u64);
    if let Some(m) = banners {
        out.append("/");
        match m.get(ip, port) {
            Some(service) => out.append(service.as_str()),
            None => out.append("-"),
        }
    }
    out
}

fn list_open(ip: Ipv4Addr, ports: &[u16], banners: Option<&EndpointMap>) -> (out: String)
    ensures
        out@ == ports_cell(ip, ports@, banner_view(banners)),
{
    if ports.len() == 0 {
        return "-".to_owned();
    }
    let ghost wanted = ports@.map_values(|port: u16| port_cell(ip, port, banner_view(banners)));
    let mut cells: Vec<String> = Vec::new();
    for i in 0..ports.len()
        invariant
            wanted == ports@.map_values(|port: u16| port_cell(ip, port, banner_view(banners))),
            string_views(cells@) == wanted.take(i as int),
    {
        let ghost before = string_views(cells@);
        let cell = list_port(ip, ports[i], banners);
        cells.push(cell);
        assert(string_views(cells@) =~= before.push(wanted[i as int]));
    }
    assert(wanted.take(ports@.len() as int) =~= wanted);
    join_strings(cells.as_slice(), ", ")
}

/// The row of a live host and its open ports.
pub open spec fn lan_row(
    ip: Ipv4Addr,
    names: Map<u32, Seq<char>>,
    macs: Map<u32, Seq<char>>,
    open: Map<u32, Vec<u16>>,
    banners: Option<Map<u64, Seq<char>>>,
) -> Seq<Seq<char>> {
    host_row(ip, names, macs).push(ports_cell(ip, open_on(open, ip), banners))
}

/// The table of live hosts and their open ports.
pub open spec fn lan_text(
    alive: Seq<Ipv4Addr>,
    names: Map<u32, Seq<char>>,
    macs: Map<u32, Seq<char>>,
    open: Map<u32, Vec<u16>>,
    banners: Option<Map<u64, Seq<char>>>,
) -> Seq<char> {
    table_text(
        host_headers().push("OPEN PORTS"@),
        alive.map_values(|ip: Ipv4Addr| lan_row(ip, names, macs, open, banners)),
    )
}

/// The table of live hosts and their open ports.
pub fn lan_table(
    alive: &[Ipv4Addr],
    names: &AddrMap<String>,
    macs: &AddrMap<String>,
    open: &AddrMap<Vec<u16>>,
    banners: Option<&EndpointMap>,
) -> (out: String)
    ensures
        out@ == lan_text(alive@, map_text(names@), map_text(macs@), open@, banner_view(banners)),
{
    let ghost wanted = alive@.map_values(
        |ip: Ipv4Addr|
            lan_row(ip, map_text(names@), map_text(macs@), open@, banner_view(banners)),
    );
    let mut rows: Vec<Vec<String>> = Vec::new();
    for i in 0..alive.len()
        invariant
            wanted == alive@.map_values(
                |ip: Ipv4Addr|
                    lan_row(ip, map_text(names@), map_text(macs@), open@, banner_view(banners)),
            ),
            row_views(rows@) == wanted.take(i as int),
    {
        let ghost before = row_views(rows@);
        let ip = alive[i];
        let mut row = host_cells(ip, names, macs);
        let ghost cells = string_views(row@);
        let cell = match open.get(&ip) {
            Some(ports) => list_open(ip, ports.as_slice(), banners),
            None => "-".to_owned(),
        };
        row.push(cell);
        assert(string_views(row@) =~= cells.push(cell@));
        assert(string_views(row@) == wanted[i as int]);
        rows.push(row);
        assert(row_views(rows@) =~= before.push(wanted[i as int]));
    }
    assert(wanted.take(alive@.len() as int) =~= wanted);
    let headers = ["IP", "HOSTNAME", "MAC ADDRESS", "OPEN PORTS"];
    assert(slice_views(headers@) =~= host_headers().push("OPEN PORTS"@));
    render(&headers, rows.as_slice())
}

// ---------------------------------------------------------------------
// Laws
// ---------------------------------------------------------------------

/// A network with more than `MAX_AUTO_HOSTS` addresses is scanned only where
/// that was asked for, and every smaller one is scanned as it was given.
pub proof fn law_large_networks_need_the_opt_in(
    spec: NetworkSpec,
    local: Option<Ipv4Addr>,
    allow_large: bool,
)
    ensures
        network(spec, local, allow_large) matches Ok(cidr) ==> allow_large || cidr.host_total()
            <= MAX_AUTO_HOSTS,
        spec matches NetworkSpec::Explicit(cidr) ==> (network(spec, local, allow_large) == Ok::<
            Cidr,
            Seq<char>,
        >(cidr) <==> allow_large || cidr.host_total() <= MAX_AUTO_HOSTS),
{
}

/// The network that `auto` stands for is a /24 around the local address, and
/// it is never too large.
pub proof fn law_auto_network(local: Ipv4Addr, allow_large: bool)
    ensures
        network(NetworkSpec::Auto, Some(local), allow_large) == Ok::<Cidr, Seq<char>>(
            block_of(local, 24),
        ),
        block_of(local, 24).wf(),
        block_of(local, 24).network.bits <= local.bits <= block_of(local, 24).last(),
{
    law_block_is_normalized(local, 24);
    lemma2_to64();
}

/// The resolvers that are tried: the gateway first, if there is one, then
/// those of the system. None is dropped, and none is tried twice in a row.
pub proof fn law_resolvers(first: Option<Ipv4Addr>, system: Seq<Ipv4Addr>)
    ensures
        first matches Some(ip) ==> resolver_list(first, system).len() > 0 && resolver_list(
            first,
            system,
        )[0] == ip,
        forall|ip: Ipv4Addr| #[trigger]
            resolver_list(first, system).contains(ip) <==> first == Some(ip) || system.contains(ip),
        forall|i: int, j: int|
            0 <= i && j == i + 1 && j < resolver_list(first, system).len()
                ==> #[trigger] resolver_list(first, system)[i] != #[trigger] resolver_list(
                first,
                system,
            )[j],
{
    let all = match first {
        Some(ip) => seq![ip] + system,
        None => system,
    };
    lemma_no_repeats(all);
    lemma_without_repeats(all);
    assert forall|ip: Ipv4Addr| #[trigger] resolver_list(first, system).contains(ip) <==> first
        == Some(ip) || system.contains(ip) by {
        if let Some(gateway) = first {
            if system.contains(ip) {
                let k = choose|k: int| 0 <= k < system.len() && system[k] == ip;
                assert(all[k + 1] == ip);
            }
            if all.contains(ip) && ip != gateway {
                let k = choose|k: int| 0 <= k < all.len() && all[k] == ip;
                assert(system[k - 1] == ip);
            }
            assert(all[0] == gateway);
        }
    }
}

/// A banner is grabbed from every open port of every live host, and from
/// nothing else.
pub proof fn law_banner_work(
    alive: Seq<Ipv4Addr>,
    open: Map<u32, Vec<u16>>,
    ip: Ipv4Addr,
    port: u16,
)
    ensures
        open_endpoints(alive, open).contains((ip, port)) <==> alive.contains(ip) && open_on(
            open,
            ip,
        ).contains(port),
    decreases alive.len(),
{
    let all = open_endpoints(alive, open);
    if alive.len() > 0 {
        let front = alive.drop_last();
        let before = open_endpoints(front, open);
        let ports = open_on(open, alive.last());
        law_banner_work(front, open, ip, port);
        if before.contains((ip, port)) {
            let k = choose|k: int| 0 <= k < before.len() && before[k] == (ip, port);
            assert(all[k] == (ip, port));
            let h = choose|h: int| 0 <= h < front.len() && front[h] == ip;
            assert(alive[h] == ip);
        }
        if ip == alive.last() && ports.contains(port) {
            let k = choose|k: int| 0 <= k < ports.len() && ports[k] == port;
            assert(all[before.len() + k] == (ip, port));
        }
        if all.contains((ip, port)) {
            let k = choose|k: int| 0 <= k < all.len() && all[k] == (ip, port);
            if k < before.len() {
                assert(before[k] == (ip, port));
            } else {
                assert(ports[k - before.len()] == port);
                assert(alive[alive.len() - 1] == ip);
            }
        }
        if alive.contains(ip) && ip != alive.last() {
            let h = choose|h: int| 0 <= h < alive.len() && alive[h] == ip;
            assert(front[h] == ip);
        }
    }
}

/// What a table of texts is asked for: the text it holds for an address, and a
/// dash where it holds none.
pub open spec fn shows(text: Seq<char>, m: Map<u32, Seq<char>>, ip: Ipv4Addr) -> bool {
    &&& m.contains_key(ip.bits) ==> text == m[ip.bits]
    &&& !m.contains_key(ip.bits) ==> text == seq!['-']
}

/// The rows that a table of live hosts is made of: in the order of the hosts,
/// the address, the name and the hardware address of each.
pub open spec fn names_hosts(
    rows: Seq<Seq<Seq<char>>>,
    alive: Seq<Ipv4Addr>,
    names: Map<u32, Seq<char>>,
    macs: Map<u32, Seq<char>>,
) -> bool {
    &&& rows.len() == alive.len()
    &&& forall|i: int|
        0 <= i < alive.len() ==> {
            &&& (#[trigger] rows[i]).len() >= 3
            &&& rows[i][0] == alive[i].dotted()
            &&& shows(rows[i][1], names, alive[i])
            &&& shows(rows[i][2], macs, alive[i])
        }
}

proof fn lemma_shows(text: Seq<char>, m: Map<u32, Seq<char>>, ip: Ipv4Addr)
    requires
        shows(text, m, ip),
    ensures
        text == entry(m, ip),
{
    reveal_strlit("-");
    assert("-"@ =~= seq!['-']);
}

/// The table of live hosts counts them, and has a line for each with its
/// address under IP, its name under HOSTNAME and its hardware address under
/// MAC ADDRESS.
pub proof fn law_live_table(
    alive: Seq<Ipv4Addr>,
    names: Map<u32, Seq<char>>,
    macs: Map<u32, Seq<char>>,
    rows: Seq<Seq<Seq<char>>>,
)
    requires
        names_hosts(rows, alive, names, macs),
        forall|i: int| 0 <= i < rows.len() ==> (#[trigger] rows[i]).len() == 3,
    ensures
        live_text(alive, names, macs) == "Live hosts ("@ + decimal(alive.len()) + "):\n\n"@
            + table_text(seq!["IP"@, "HOSTNAME"@, "MAC ADDRESS"@], rows),
{
    let made = alive.map_values(|ip: Ipv4Addr| host_row(ip, names, macs));
    assert forall|i: int| 0 <= i < rows.len() implies rows[i] == made[i] by {
        lemma_shows(rows[i][1], names, alive[i]);
        lemma_shows(rows[i][2], macs, alive[i]);
        assert(rows[i] =~= made[i]);
    }
    assert(rows =~= made);
}

/// The open ports of a host, in decimal notation, with commas between them.
pub open spec fn lists_ports(text: Seq<char>, open: Map<u32, Vec<u16>>, ip: Ipv4Addr) -> bool {
    if open.contains_key(ip.bits) && open[ip.bits]@.len() > 0 {
        let ports = open[ip.bits]@;
        text == join(Seq::new(ports.len(), |k: int| decimal(ports[k] as nat)), seq![',', ' '])
    } else {
        text == seq!['-']
    }
}

proof fn lemma_lists_ports(text: Seq<char>, open: Map<u32, Vec<u16>>, ip: Ipv4Addr)
    requires
        lists_ports(text, open, ip),
    ensures
        text == ports_cell(ip, open_on(open, ip), None),
{
    reveal_strlit("-");
    reveal_strlit(", ");
    assert("-"@ =~= seq!['-']);
    assert(", "@ =~= seq![',', ' ']);
    let ports = open_on(open, ip);
    let none: Option<Map<u64, Seq<char>>> = None;
    assert(Seq::new(ports.len(), |k: int| decimal(ports[k] as nat)) =~= ports.map_values(
        |port: u16| port_cell(ip, port, none),
    ));
}

/// The table of live hosts and their open ports, where no banners were
/// grabbed: a line for each host with its address under IP, its name under
/// HOSTNAME, its hardware address under MAC ADDRESS and its open ports under
/// OPEN PORTS.
pub proof fn law_lan_table(
    alive: Seq<Ipv4Addr>,
    names: Map<u32, Seq<char>>,
    macs: Map<u32, Seq<char>>,
    open: Map<u32, Vec<u16>>,
    rows: Seq<Seq<Seq<char>>>,
)
    requires
        names_hosts(rows, alive, names, macs),
        forall|i: int|
            0 <= i < rows.len() ==> (#[trigger] rows[i]).len() == 4 && lists_ports(
                rows[i][3],
                open,
                alive[i],
            ),
    ensures
        lan_text(alive, names, macs, open, None) == table_text(
            seq!["IP"@, "HOSTNAME"@, "MAC ADDRESS"@, "OPEN PORTS"@],
            rows,
        ),
{
    let none: Option<Map<u64, Seq<char>>> = None;
    let made = alive.map_values(|ip: Ipv4Addr| lan_row(ip, names, macs, open, none));
    assert forall|i: int| 0 <= i < rows.len() implies rows[i] == made[i] by {
        lemma_shows(rows[i][1], names, alive[i]);
        lemma_shows(rows[i][2], macs, alive[i]);
        lemma_lists_ports(rows[i][3], open, alive[i]);
        assert(rows[i] =~= made[i]);
    }
    assert(rows =~= made);
    assert(host_headers().push("OPEN PORTS"@) =~= seq![
        "IP"@,
        "HOSTNAME"@,
        "MAC ADDRESS"@,
        "OPEN PORTS"@,
    ]);
}

/// An open port with its service behind a slash, or with a dash there.
pub open spec fn lists_service(
    text: Seq<char>,
    ip: Ipv4Addr,
    port: u16,
    services: Map<u64, Seq<char>>,
) -> bool {
    let place = endpoint(ip, port);
    &&& services.contains_key(place) ==> text == decimal(port as nat) + seq!['/'] + services[place]
    &&& !services.contains_key(place) ==> text == decimal(port as nat) + seq!['/', '-']
}

/// The same table where banners were grabbed: every open port is listed with
/// what the table of banners holds for it.
pub proof fn law_lan_table_with_banners(
    alive: Seq<Ipv4Addr>,
    names: Map<u32, Seq<char>>,
    macs: Map<u32, Seq<char>>,
    open: Map<u32, Vec<u16>>,
    services: Map<u64, Seq<char>>,
    cells: Seq<Seq<Seq<char>>>,
    rows: Seq<Seq<Seq<char>>>,
)
    requires
        names_hosts(rows, alive, names, macs),
        cells.len() == alive.len(),
        forall|i: int|
            0 <= i < rows.len() ==> {
                let ip = alive[i];
                let ports = if open.contains_key(ip.bits) {
                    open[ip.bits]@
                } else {
                    Seq::empty()
                };
                &&& (#[trigger] rows[i]).len() == 4
                &&& cells[i].len() == ports.len()
                &&& forall|k: int|
                    0 <= k < ports.len() ==> lists_service(
                        #[trigger] cells[i][k],
                        ip,
                        ports[k],
                        services,
                    )
                &&& rows[i][3] == (if ports.len() == 0 {
                    seq!['-']
                } else {
                    join(cells[i], seq![',', ' '])
                })
            },
    ensures
        lan_text(alive, names, macs, open, Some(services)) == table_text(
            seq!["IP"@, "HOSTNAME"@, "MAC ADDRESS"@, "OPEN PORTS"@],
            rows,
        ),
{
    reveal_strlit("-");
    reveal_strlit("/");
    reveal_strlit(", ");
    assert("-"@ =~= seq!['-']);
    assert("/"@ =~= seq!['/']);
    assert(", "@ =~= seq![',', ' ']);
    let grabbed = Some(services);
    let made = alive.map_values(|ip: Ipv4Addr| lan_row(ip, names, macs, open, grabbed));
    assert forall|i: int| 0 <= i < rows.len() implies rows[i] == made[i] by {
        let ip = alive[i];
        let ports = open_on(open, ip);
        lemma_shows(rows[i][1], names, ip);
        lemma_shows(rows[i][2], macs, ip);
        let wanted = ports.map_values(|port: u16| port_cell(ip, port, grabbed));
        assert forall|k: int| 0 <= k < ports.len() implies cells[i][k] == wanted[k] by {
            let text = cells[i][k];
            let front = decimal(ports[k] as nat);
            assert(lists_service(text, ip, ports[k], services));
            assert(front + seq!['/', '-'] =~= front + "/"@ + "-"@);
        }
        assert(cells[i] =~= wanted);
        assert(rows[i] =~= made[i]);
    }
    assert(rows =~= made);
    assert(host_headers().push("OPEN PORTS"@) =~= seq![
        "IP"@,
        "HOSTNAME"@,
        "MAC ADDRESS"@,
        "OPEN PORTS"@,
    ]);
}

/// The table of one host: its address, its name and its hardware address,
/// with a dash for what is not known.
pub proof fn law_host_table(ip: Seq<char>, name: Seq<char>, mac: Seq<char>)
    ensures
        ({
            let headers = seq!["IP"@, "HOSTNAME"@, "MAC ADDRESS"@];
            let none = seq!['-'];
            &&& host_text(ip, Some(name), Some(mac)) == table_text(headers, seq![seq![ip, name, mac]])
            &&& host_text(ip, None, Some(mac)) == table_text(headers, seq![seq![ip, none, mac]])
            &&& host_text(ip, Some(name), None) == table_text(headers, seq![seq![ip, name, none]])
            &&& host_text(ip, None, None) == table_text(headers, seq![seq![ip, none, none]])
        }),
{
    reveal_strlit("-");
    assert("-"@ =~= seq!['-']);
}

/// The table of open ports and their services has a line for each port, in
/// the order given, with the port in decimal notation, the word `open` and
/// the label.
pub proof fn law_service_table(labeled: Seq<(u16, String)>, rows: Seq<Seq<Seq<char>>>)
    requires
        rows.len() == labeled.len(),
        forall|i: int|
            0 <= i < rows.len() ==> {
                &&& (#[trigger] rows[i]).len() == 3
                &&& rows[i][0] == decimal(labeled[i].0 as nat) + seq!['/', 't', 'c', 'p']
                &&& rows[i][1] == seq!['o', 'p', 'e', 'n']
                &&& rows[i][2] == labeled[i].1@
            },
    ensures
        service_text(labeled) == "Open ports:\n\n"@ + table_text(
            seq!["PORT"@, "STATE"@, "SERVICE"@],
            rows,
        ),
{
    reveal_strlit("/tcp");
    reveal_strlit("open");
    assert("/tcp"@ =~= seq!['/', 't', 'c', 'p']);
    assert("open"@ =~= seq!['o', 'p', 'e', 'n']);
    let made = labeled.map_values(|l: (u16, String)| service_row(l));
    assert forall|i: int| 0 <= i < rows.len() implies rows[i] == made[i] by {
        assert(rows[i] =~= made[i]);
    }
    assert(rows =~= made);
}

/// The list of open ports begins with a headline, and each further port adds
/// a line with its number behind what was there.
pub proof fn law_port_listing(open: Seq<u16>, port: u16)
    ensures
        port_listing(Seq::empty()) == "Open ports:"@,
        port_listing(open.push(port)) == port_listing(open) + "\n  "@ + decimal(port as nat)
            + "/tcp open"@,
{
    let head = seq!["Open ports:"@];
    let lines = head + open.map_values(|p: u16| port_line(p));
    let more = head + open.push(port).map_values(|p: u16| port_line(p));
    assert(more.drop_last() =~= lines);
    assert(more.last() == port_line(port));
    assert(head + Seq::<u16>::empty().map_values(|p: u16| port_line(p)) =~= head);
    reveal_strlit("\n");
    reveal_strlit("  ");
    reveal_strlit("\n  ");
    assert("\n  "@ =~= "\n"@ + "  "@);
    assert(port_listing(open.push(port)) == port_listing(open) + "\n"@ + port_line(port));
    assert(port_listing(open.push(port)) =~= port_listing(open) + "\n  "@ + decimal(port as nat)
        + "/tcp open"@);
}

/// The announcement of a scan names the host, its address, the number of
/// ports, the time to wait and the number of threads: those asked for, where
/// there are that many ports and not more than 1024 were asked for, 1024 in
/// place of more, one thread at least, and no more threads than ports.
pub proof fn law_host_intro(
    host: Seq<char>,
    ip: Seq<char>,
    ports: nat,
    threads: nat,
    timeout_ms: nat,
    used: nat,
)
    requires
        1 <= threads <= 1024 && threads <= ports ==> used == threads,
        threads > 1024 && 1024 <= ports ==> used == 1024,
        threads > ports && 1 <= ports <= 1024 ==> used == ports,
        threads == 0 || ports == 0 ==> used == 1,
    ensures
        host_intro(host, ip, ports, threads, timeout_ms) == "Scanning "@ + host + " ("@ + ip
            + ") - "@ + decimal(ports) + " port(s), "@ + decimal(used) + " threads, "@ + decimal(
            timeout_ms,
        ) + "ms timeout\n"@,
{
}

/// Without a local address there is no network to find out. A network of more
/// than 65536 addresses is refused, unless large ones are allowed, with a
/// message that names it and counts its addresses.
pub proof fn law_refused_networks(cidr: Cidr, local: Option<Ipv4Addr>, allow_large: bool)
    ensures
        network(NetworkSpec::Auto, None, allow_large) == Err::<Cidr, Seq<char>>(
            "could not auto-detect a local IPv4 address; pass a network like 192.168.1.0/24"@,
        ),
        network(NetworkSpec::Explicit(cidr), local, true) == Ok::<Cidr, Seq<char>>(cidr),
        cidr.host_total() <= 65536 ==> network(NetworkSpec::Explicit(cidr), local, false) == Ok::<
            Cidr,
            Seq<char>,
        >(cidr),
        cidr.host_total() > 65536 ==> network(NetworkSpec::Explicit(cidr), local, false) == Err::<
            Cidr,
            Seq<char>,
        >(
            cidr.network.dotted() + "/"@ + decimal(cidr.prefix as nat) + " covers "@ + decimal(
                cidr.host_total() as nat,
            )
                + " addresses, which would take a very long time.\n       Use a smaller prefix, or pass --allow-large if you really mean it."@,
        ),
{
}

/// For a private target the resolver that is asked first is the one whose
/// address has the local address's first three octets and ends in `.1`. For
/// any other target, and where no local address is known, the system's
/// resolvers are all there is.
pub proof fn law_resolvers_of_a_target(
    target: Ipv4Addr,
    local: Option<Ipv4Addr>,
    system: Seq<Ipv4Addr>,
)
    ensures
        ({
            let all = resolver_list(target_gateway(target, local), system);
            match local {
                Some(ip) if private_v4(target) => {
                    &&& all.len() > 0
                    &&& all[0].octet_seq() == seq![
                        ip.octet_seq()[0],
                        ip.octet_seq()[1],
                        ip.octet_seq()[2],
                        1nat,
                    ]
                    &&& all == without_repeats(seq![all[0]] + system)
                },
                _ => all == without_repeats(system),
            }
        }),
{
    let first = target_gateway(target, local);
    law_resolvers(first, system);
    if let Some(ip) = local {
        lemma_gateway_octets(ip);
    }
}

/// For the hosts of a private network the resolver that is asked first is the
/// one whose address has the network's first three octets and ends in `.1`.
pub proof fn law_resolvers_of_a_network(cidr: Cidr, system: Seq<Ipv4Addr>)
    ensures
        ({
            let all = resolver_list(network_gateway(cidr), system);
            let o = cidr.network.octet_seq();
            if private_v4(cidr.network) {
                &&& all.len() > 0
                &&& all[0].octet_seq() == seq![o[0], o[1], o[2], 1nat]
                &&& all == without_repeats(seq![all[0]] + system)
            } else {
                all == without_repeats(system)
            }
        }),
{
    law_resolvers(network_gateway(cidr), system);
    lemma_gateway_octets(cidr.network);
}

proof fn lemma_gateway_octets(ip: Ipv4Addr)
    ensures
        gateway(ip).octet_seq() == seq![
            ip.octet_seq()[0],
            ip.octet_seq()[1],
            ip.octet_seq()[2],
            1nat,
        ],
{
    let n = ip.bits as nat;
    let m = gateway(ip).bits as nat;
    assert(m == n / 256 * 256 + 1);
    assert(m / 256 == n / 256);
    assert(m / 0x1_0000 == m / 256 / 256 && n / 0x1_0000 == n / 256 / 256);
    assert(m / 0x100_0000 == m / 256 / 0x1_0000 && n / 0x100_0000 == n / 256 / 0x1_0000);
    assert(gateway(ip).octet_seq() =~= seq![
        ip.octet_seq()[0],
        ip.octet_seq()[1],
        ip.octet_seq()[2],
        1nat,
    ]);
}

/// Banners are grabbed host after host: a further host adds its open ports
/// behind those of the others, in the order they are listed.
pub proof fn law_banner_order(alive: Seq<Ipv4Addr>, open: Map<u32, Vec<u16>>, ip: Ipv4Addr, k: int)
    ensures
        ({
            let before = open_endpoints(alive, open);
            let all = open_endpoints(alive.push(ip), open);
            &&& open_endpoints(Seq::empty(), open).len() == 0
            &&& all.take(before.len() as int) == before
            &&& all.len() == before.len() + (if open.contains_key(ip.bits) {
                open[ip.bits]@.len()
            } else {
                0
            })
            &&& 0 <= k < all.len() - before.len() ==> all[before.len() + k] == (
                ip,
                open[ip.bits]@[k],
            )
        }),
{
    assert(alive.push(ip).drop_last() =~= alive);
    let before = open_endpoints(alive, open);
    let all = open_endpoints(alive.push(ip), open);
    assert(all.take(before.len() as int) =~= before);
}

/// The announcement of host discovery names the network and counts its
/// addresses.
pub proof fn law_discovery_intro(cidr: Cidr)
    ensures
        discovery_intro(cidr) == "Discovering live hosts on "@ + cidr.network.dotted() + "/"@
            + decimal(cidr.prefix as nat) + " ("@ + decimal(cidr.host_total() as nat)
            + " addresses)..."@,
{
}

/// Whether a line has a text at a position.
pub open spec fn stands_at(line: Seq<char>, text: Seq<char>, start: int) -> bool {
    &&& 0 <= start
    &&& start + text.len() <= line.len()
    &&& line.subrange(start, start + text.len()) == text
}

/// In the text of the table of live hosts and their open ports, the line of
/// host `i` has each of its cells at the position at which the first line has
/// the header of that column. (Cells with line ends, and cells that are empty
/// or end in white space, have no such place.)
pub proof fn law_lan_lines(
    alive: Seq<Ipv4Addr>,
    names: Map<u32, Seq<char>>,
    macs: Map<u32, Seq<char>>,
    open: Map<u32, Vec<u16>>,
    rows: Seq<Seq<Seq<char>>>,
    i: int,
    c: int,
)
    requires
        names_hosts(rows, alive, names, macs),
        forall|k: int|
            0 <= k < rows.len() ==> {
                &&& (#[trigger] rows[k]).len() == 4
                &&& lists_ports(rows[k][3], open, alive[k])
                &&& single_lines(rows[k])
            },
        0 <= i < alive.len(),
        0 <= c < 4,
        rows[i][c].len() > 0,
        !white_space(rows[i][c].last()),
    ensures
        ({
            let lines = split(lan_text(alive, names, macs, open, None), seq!['\n']);
            let header = if c == 0 {
                "IP"@
            } else if c == 1 {
                "HOSTNAME"@
            } else if c == 2 {
                "MAC ADDRESS"@
            } else {
                "OPEN PORTS"@
            };
            &&& lines.len() == alive.len() + 2
            &&& exists|start: int|
                stands_at(lines[0], header, start) && #[trigger] stands_at(
                    lines[i + 2],
                    rows[i][c],
                    start,
                )
        }),
{
    let headers = seq!["IP"@, "HOSTNAME"@, "MAC ADDRESS"@, "OPEN PORTS"@];
    reveal_strlit("IP");
    reveal_strlit("HOSTNAME");
    reveal_strlit("MAC ADDRESS");
    reveal_strlit("OPEN PORTS");
    assert(single_lines(headers)) by {
        assert forall|k: int| 0 <= k < headers.len() implies !(#[trigger] headers[k]).contains(
            '\n',
        ) by {
            assert(k == 0 || k == 1 || k == 2 || k == 3);
            assert(!"IP"@.contains('\n'));
            assert(!"HOSTNAME"@.contains('\n'));
            assert(!"MAC ADDRESS"@.contains('\n'));
            assert(!"OPEN PORTS"@.contains('\n'));
        }
    }
    law_lan_table(alive, names, macs, open, rows);
    law_cells_stand_below_their_headers(headers, rows, i, c);
    let start = column_start(widths(seq![headers] + rows), c) as int;
    let lines = split(lan_text(alive, names, macs, open, None), seq!['\n']);
    assert(c == 0 || c == 1 || c == 2 || c == 3);
    assert(headers[c].len() > 0 && !white_space(headers[c].last()));
    let header = if c == 0 {
        "IP"@
    } else if c == 1 {
        "HOSTNAME"@
    } else if c == 2 {
        "MAC ADDRESS"@
    } else {
        "OPEN PORTS"@
    };
    assert(header == headers[c]);
    assert(stands_at(lines[0], header, start));
    assert(stands_at(lines[i + 2], rows[i][c], start));
}

} // verus!
