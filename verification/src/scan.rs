//! Scan planning and the collection of scan results.

use vstd::prelude::*;
use vstd::seq_lib::{group_to_multiset_ensures, to_multiset_build};

use crate::maps::AddrMap;
use crate::net::Ipv4Addr;
use crate::sort::{ascending, sort_by_key, sorted_distinct, strictly_ascending, SortKey};

verus! {

/// Hard ceiling on worker threads.
///
/// macOS caps per-process threads well below Linux, so this ceiling is
/// deliberately conservative.
pub const MAX_THREADS: usize = 1024;

/// Ports probed to decide whether a host is up, in the order tried.
pub fn default_probe_ports() -> (ports: Vec<u16>)
    ensures
        ports@ == seq![80u16, 443, 22, 445, 139, 3389, 8080, 53, 21, 8443],
{
    vec![80, 443, 22, 445, 139, 3389, 8080, 53, 21, 8443]
}

/// The smaller of two numbers.
pub open spec fn at_most(n: nat, bound: nat) -> nat {
    if n < bound {
        n
    } else {
        bound
    }
}

/// The larger of two numbers.
pub open spec fn at_least(n: nat, bound: nat) -> nat {
    if n > bound {
        n
    } else {
        bound
    }
}

/// Clamps a requested thread count to something the OS will actually grant,
/// and never spawns more workers than there are units of work.
pub fn effective_threads(requested: usize, work_items: usize) -> (n: usize)
    ensures
        n == at_most(
            at_most(at_least(requested as nat, 1), MAX_THREADS as nat),
            at_least(work_items as nat, 1),
        ),
        1 <= n <= MAX_THREADS,
        work_items > 0 ==> n <= work_items,
{
    let wanted: usize = if requested < 1 {
        1
    } else if requested > MAX_THREADS {
        MAX_THREADS
    } else {
        requested
    };
    let work: usize = if work_items < 1 {
        1
    } else {
        work_items
    };
    if wanted < work {
        wanted
    } else {
        work
    }
}

/// What became of one connection attempt.
#[derive(Debug, Clone, Copy, PartialEq, Eq, Structural)]
pub enum ProbeOutcome {
    /// The connection was made.
    Connected,
    /// The connection was actively refused.
    Refused,
    /// Nothing came back, or the attempt failed in another way.
    NoAnswer,
}

impl ProbeOutcome {
    pub open spec fn proves_up(self) -> bool {
        self is Connected || self is Refused
    }

    /// Whether the port is open.
    pub fn connected(self) -> (b: bool)
        ensures
            b == (self is Connected),
    {
        self == ProbeOutcome::Connected
    }

    /// Whether a host is there. A refused connection still proves something
    /// is listening at that address.
    pub fn answers(self) -> (b: bool)
        ensures
            b == self.proves_up(),
    {
        self == ProbeOutcome::Connected || self == ProbeOutcome::Refused
    }
}

// ---------------------------------------------------------------------
// Port scans
// ---------------------------------------------------------------------

/// The open ports of a host in ascending order.
pub fn sorted_ports(open: Vec<u16>) -> (out: Vec<u16>)
    ensures
        ascending(out@),
        out@.to_multiset() == open@.to_multiset(),
{
    sort_by_key(open)
}

/// Every port on the first host, then every port on the second, and so on.
pub open spec fn host_major(hosts: Seq<Ipv4Addr>, ports: Seq<u16>) -> Seq<(Ipv4Addr, u16)>
    decreases hosts.len(),
{
    if hosts.len() == 0 {
        seq![]
    } else {
        host_major(hosts.drop_last(), ports) + ports.map_values(|port: u16| (hosts.last(), port))
    }
}

/// Work items for scanning many hosts on one shared pool.
pub fn scan_work(hosts: &[Ipv4Addr], ports: &[u16]) -> (out: Vec<(Ipv4Addr, u16)>)
    ensures
        out@ == host_major(hosts@, ports@),
{
    let mut out: Vec<(Ipv4Addr, u16)> = Vec::new();
    for h in 0..hosts.len()
        invariant
            out@ == host_major(hosts@.take(h as int), ports@),
    {
        let ghost before = out@;
        let ghost next = ports@.map_values(|port: u16| (hosts@[h as int], port));
        for p in 0..ports.len()
            invariant
                h < hosts@.len(),
                next == ports@.map_values(|port: u16| (hosts@[h as int], port)),
                out@ == before + next.take(p as int),
        {
            out.push((hosts[h], ports[p]));
            assert(next.take(p + 1) =~= next.take(p as int).push(next[p as int]));
        }
        assert(next.take(ports@.len() as int) =~= next);
        assert(hosts@.take(h + 1).drop_last() =~= hosts@.take(h as int));
        assert(hosts@.take(h + 1).last() == hosts@[h as int]);
    }
    assert(hosts@.take(hosts@.len() as int) =~= hosts@);
    out
}

/// The ports found open on a host, in the order they were found.
pub open spec fn ports_found(found: Seq<(Ipv4Addr, u16)>, bits: u32) -> Seq<u16>
    decreases found.len(),
{
    if found.len() == 0 {
        seq![]
    } else if found.last().0.bits == bits {
        ports_found(found.drop_last(), bits).push(found.last().1)
    } else {
        ports_found(found.drop_last(), bits)
    }
}

/// A port is listed under a host as often as the pair was found.
proof fn lemma_ports_found_count(found: Seq<(Ipv4Addr, u16)>, ip: Ipv4Addr, port: u16)
    ensures
        ports_found(found, ip.bits).to_multiset().count(port) == found.to_multiset().count(
            (ip, port),
        ),
    decreases found.len(),
{
    broadcast use group_to_multiset_ensures;

    if found.len() > 0 {
        let front = found.drop_last();
        lemma_ports_found_count(front, ip, port);
        to_multiset_build(front, found.last());
        assert(found =~= front.push(found.last()));
        to_multiset_build(ports_found(front, ip.bits), found.last().1);
    }
}

/// Only ports that stand in the list are found.
proof fn lemma_ports_found_bound(found: Seq<(Ipv4Addr, u16)>, bits: u32, bound: u16)
    requires
        forall|i: int| 0 <= i < found.len() ==> (#[trigger] found[i]).1 <= bound,
    ensures
        forall|i: int|
            0 <= i < ports_found(found, bits).len() ==> #[trigger] ports_found(found, bits)[i]
                <= bound,
    decreases found.len(),
{
    if found.len() > 0 {
        let front = found.drop_last();
        assert forall|i: int| 0 <= i < front.len() implies (#[trigger] front[i]).1 <= bound by {
            assert(front[i] == found[i]);
        }
        lemma_ports_found_bound(front, bits, bound);
        assert(found[found.len() - 1].1 <= bound);
        let earlier = ports_found(front, bits);
        assert forall|i: int| 0 <= i < ports_found(found, bits).len() implies #[trigger] ports_found(
            found,
            bits,
        )[i] <= bound by {
            if i < earlier.len() {
                assert(earlier[i] <= bound);
            }
        }
    }
}

/// Pairs in the order of their ports give each host its ports in order.
proof fn lemma_ports_found_ascending(found: Seq<(Ipv4Addr, u16)>, bits: u32)
    requires
        ascending(found),
    ensures
        ascending(ports_found(found, bits)),
    decreases found.len(),
{
    if found.len() > 0 {
        let front = found.drop_last();
        assert forall|i: int, j: int| 0 <= i < j < front.len() implies #[trigger] front[i].key()
            <= #[trigger] front[j].key() by {
            assert(found[i].key() <= found[j].key());
        }
        lemma_ports_found_ascending(front, bits);
        assert forall|i: int| 0 <= i < front.len() implies (#[trigger] front[i]).1
            <= found.last().1 by {
            assert(found[i].key() <= found[found.len() - 1].key());
        }
        lemma_ports_found_bound(front, bits, found.last().1);
    }
}

/// Whether an address stands in a list.
pub open spec fn lists(hosts: Seq<Ipv4Addr>, bits: u32) -> bool {
    exists|i: int| 0 <= i < hosts.len() && (#[trigger] hosts[i]).bits == bits
}

/// Whether a port was found open on an address.
pub open spec fn finds(found: Seq<(Ipv4Addr, u16)>, bits: u32) -> bool {
    exists|i: int| 0 <= i < found.len() && (#[trigger] found[i]).0.bits == bits
}

/// The open ports of every host, in ascending order. A host with none has an
/// empty list.
pub fn open_by_host(hosts: &[Ipv4Addr], found: Vec<(Ipv4Addr, u16)>) -> (out: AddrMap<Vec<u16>>)
    ensures
        forall|bits: u32| #[trigger]
            out@.contains_key(bits) <==> lists(hosts@, bits) || finds(found@, bits),
        forall|bits: u32| #[trigger] out@.contains_key(bits) ==> ascending(out@[bits]@),
        forall|ip: Ipv4Addr, port: u16|
            out@.contains_key(ip.bits) ==> #[trigger] out@[ip.bits]@.to_multiset().count(port)
                == found@.to_multiset().count((ip, port)),
{
    broadcast use group_to_multiset_ensures;

    let mut out: AddrMap<Vec<u16>> = AddrMap::new();
    for h in 0..hosts.len()
        invariant
            forall|bits: u32| #[trigger]
                out@.contains_key(bits) <==> lists(hosts@.take(h as int), bits),
            forall|bits: u32| #[trigger] out@.contains_key(bits) ==> out@[bits]@ == Seq::<u16>::empty(),
    {
        let ghost before = out@;
        out.insert(hosts[h], Vec::new());
        proof {
            let done = hosts@.take(h as int);
            let next = hosts@.take(h + 1);
            assert forall|bits: u32| #[trigger] out@.contains_key(bits) <==> lists(next, bits) by {
                assert(before.contains_key(bits) <==> lists(done, bits));
                if lists(done, bits) {
                    let i = choose|i: int| 0 <= i < done.len() && (#[trigger] done[i]).bits == bits;
                    assert(next[i].bits == bits);
                }
                if lists(next, bits) {
                    let i = choose|i: int| 0 <= i < next.len() && (#[trigger] next[i]).bits == bits;
                    if i < h {
                        assert(done[i].bits == bits);
                    }
                }
                assert(next[h as int] == hosts@[h as int]);
            }
        }
    }
    assert(hosts@.take(hosts@.len() as int) =~= hosts@);

    let sorted = sort_by_key(found);
    let ghost all = sorted@;
    for i in 0..sorted.len()
        invariant
            all == sorted@,
            forall|bits: u32| #[trigger]
                out@.contains_key(bits) <==> lists(hosts@, bits) || finds(all.take(i as int), bits),
            forall|bits: u32| #[trigger]
                out@.contains_key(bits) ==> out@[bits]@ == ports_found(all.take(i as int), bits),
            forall|bits: u32|
                !#[trigger] out@.contains_key(bits) ==> ports_found(all.take(i as int), bits)
                    == Seq::<u16>::empty(),
    {
        let ghost before = out@;
        let (ip, port) = sorted[i];
        let mut ports = match out.remove(&ip) {
            Some(list) => list,
            None => Vec::new(),
        };
        ports.push(port);
        out.insert(ip, ports);
        proof {
            let done = all.take(i as int);
            let next = all.take(i + 1);
            assert(next.drop_last() =~= done);
            assert forall|bits: u32| #[trigger] out@.contains_key(bits) <==> lists(hosts@, bits)
                || finds(next, bits) by {
                assert(before.contains_key(bits) <==> lists(hosts@, bits) || finds(done, bits));
                if finds(done, bits) {
                    let k = choose|k: int| 0 <= k < done.len() && (#[trigger] done[k]).0.bits == bits;
                    assert(next[k].0.bits == bits);
                }
                if finds(next, bits) {
                    let k = choose|k: int| 0 <= k < next.len() && (#[trigger] next[k]).0.bits == bits;
                    if k < i {
                        assert(done[k].0.bits == bits);
                    }
                }
                assert(next[i as int] == all[i as int]);
            }
            assert forall|bits: u32| #[trigger] out@.contains_key(bits) implies out@[bits]@
                == ports_found(next, bits) by {
                assert(before.contains_key(bits) || bits == ip.bits);
            }
            assert forall|bits: u32| !#[trigger] out@.contains_key(bits) implies ports_found(
                next,
                bits,
            ) == Seq::<u16>::empty() by {
                assert(!before.contains_key(bits));
            }
        }
    }
    proof {
        assert(all.take(all.len() as int) =~= all);
        assert forall|bits: u32| #[trigger] out@.contains_key(bits) <==> lists(hosts@, bits)
            || finds(found@, bits) by {
            if finds(all, bits) {
                let k = choose|k: int| 0 <= k < all.len() && (#[trigger] all[k]).0.bits == bits;
                assert(all.contains(all[k]));
                let j = choose|j: int| 0 <= j < found@.len() && found@[j] == all[k];
                assert(found@[j].0.bits == bits);
            }
            if finds(found@, bits) {
                let k = choose|k: int|
                    0 <= k < found@.len() && (#[trigger] found@[k]).0.bits == bits;
                assert(found@.contains(found@[k]));
                assert(all.contains(found@[k]));
                let j = choose|j: int| 0 <= j < all.len() && all[j] == found@[k];
                assert(all[j].0.bits == bits);
            }
        }
        assert forall|bits: u32| #[trigger] out@.contains_key(bits) implies ascending(
            out@[bits]@,
        ) by {
            lemma_ports_found_ascending(all, bits);
        }
        assert forall|ip: Ipv4Addr, port: u16| out@.contains_key(ip.bits) implies #[trigger] out@[ip.bits]@.to_multiset().count(
        port) == found@.to_multiset().count((ip, port)) by {
            lemma_ports_found_count(all, ip, port);
        }
    }
    out
}

// ---------------------------------------------------------------------
// Host discovery
// ---------------------------------------------------------------------

/// Every candidate's first probe port, then every candidate's second, and so
/// on. A candidate is named by its place in the list of candidates.
pub open spec fn port_major(candidates: nat, ports: Seq<u16>) -> Seq<(usize, u16)>
    decreases ports.len(),
{
    if ports.len() == 0 {
        seq![]
    } else {
        port_major(candidates, ports.drop_last()) + Seq::new(
            candidates,
            |i: int| (i as usize, ports.last()),
        )
    }
}

/// Work items for host discovery. The order keeps a pool saturated instead
/// of serializing all probes of a host.
pub fn discovery_work(candidates: usize, probe_ports: &[u16]) -> (out: Vec<(usize, u16)>)
    ensures
        out@ == port_major(candidates as nat, probe_ports@),
{
    let mut out: Vec<(usize, u16)> = Vec::new();
    for p in 0..probe_ports.len()
        invariant
            out@ == port_major(candidates as nat, probe_ports@.take(p as int)),
    {
        let ghost before = out@;
        let port = probe_ports[p];
        let ghost next = Seq::new(candidates as nat, |i: int| (i as usize, port));
        for c in 0..candidates
            invariant
                next == Seq::new(candidates as nat, |i: int| (i as usize, port)),
                out@ == before + next.take(c as int),
        {
            out.push((c, port));
            assert(next.take(c + 1) =~= next.take(c as int).push(next[c as int]));
        }
        assert(next.take(candidates as int) =~= next);
        assert(probe_ports@.take(p + 1).drop_last() =~= probe_ports@.take(p as int));
    }
    assert(probe_ports@.take(probe_ports@.len() as int) =~= probe_ports@);
    out
}

/// What is done with a work item.
#[derive(Debug, Clone, Copy, PartialEq, Eq, Structural)]
pub enum ProbeStep {
    /// The host is known to be up: the probe is skipped.
    Skip,
    /// The host has not answered so far: the probe is sent.
    Send,
}

/// Whether a host still has to be probed.
pub fn next_probe(up: bool) -> (step: ProbeStep)
    ensures
        step == (if up {
            ProbeStep::Skip
        } else {
            ProbeStep::Send
        }),
{
    if up {
        ProbeStep::Skip
    } else {
        ProbeStep::Send
    }
}

/// Whether a host is known to be up after a probe.
pub fn after_probe(up: bool, outcome: ProbeOutcome) -> (r: bool)
    ensures
        r == (up || outcome.proves_up()),
{
    up || outcome.answers()
}

/// The hosts that are up, each once, in ascending order.
pub fn live_hosts(candidates: &[Ipv4Addr], up: &[bool]) -> (out: Vec<Ipv4Addr>)
    requires
        candidates@.len() == up@.len(),
    ensures
        strictly_ascending(out@),
        forall|ip: Ipv4Addr| #[trigger]
            out@.contains(ip) <==> exists|i: int|
                0 <= i < candidates@.len() && #[trigger] candidates@[i] == ip && up@[i],
{
    let mut answered: Vec<Ipv4Addr> = Vec::new();
    for i in 0..candidates.len()
        invariant
            candidates@.len() == up@.len(),
            forall|ip: Ipv4Addr| #[trigger]
                answered@.contains(ip) <==> exists|k: int|
                    0 <= k < i && #[trigger] candidates@[k] == ip && up@[k],
    {
        let ghost before = answered@;
        if up[i] {
            answered.push(candidates[i]);
            assert forall|ip: Ipv4Addr| #[trigger] answered@.contains(ip) <==> exists|k: int|
                0 <= k < i + 1 && #[trigger] candidates@[k] == ip && up@[k] by {
                if before.contains(ip) {
                    let k = choose|k: int| 0 <= k < before.len() && before[k] == ip;
                    assert(answered@[k] == ip);
                }
                if answered@.contains(ip) && ip != candidates@[i as int] {
                    let k = choose|k: int| 0 <= k < answered@.len() && answered@[k] == ip;
                    assert(before[k] == ip);
                    assert(before.contains(ip));
                }
                if ip == candidates@[i as int] {
                    assert(answered@[before.len() as int] == ip);
                    assert(candidates@[i as int] == ip && up@[i as int]);
                }
            }
        }
    }
    sorted_distinct(answered)
}

// ---------------------------------------------------------------------
// Laws
// ---------------------------------------------------------------------

/// One row more adds one row.
proof fn lemma_one_row_more(rows: nat, n: nat)
    requires
        rows > 0,
    ensures
        rows * n == (rows - 1) * n + n,
        0 <= (rows - 1) * n,
{
    assert(rows * n == (rows - 1) * n + n && 0 <= (rows - 1) * n) by (nonlinear_arith)
        requires
            rows > 0,
            n >= 0,
    ;
}

/// Places in a row lie before the places of the next row.
proof fn lemma_row_bounds(row: int, place: int, rows: int, n: int)
    requires
        0 <= row < rows,
        0 <= place < n,
    ensures
        0 <= row * n + place < rows * n,
{
    assert(0 <= row * n + place < rows * n) by (nonlinear_arith)
        requires
            0 <= row < rows,
            0 <= place < n,
    ;
}

proof fn lemma_host_major_len(hosts: Seq<Ipv4Addr>, ports: Seq<u16>)
    ensures
        host_major(hosts, ports).len() == hosts.len() * ports.len(),
    decreases hosts.len(),
{
    if hosts.len() > 0 {
        lemma_host_major_len(hosts.drop_last(), ports);
        lemma_one_row_more(hosts.len(), ports.len());
    }
}

/// A port scan of many hosts visits every host and port once, all ports of a
/// host before the next host.
pub proof fn law_scan_work(hosts: Seq<Ipv4Addr>, ports: Seq<u16>, h: int, p: int)
    requires
        0 <= h < hosts.len(),
        0 <= p < ports.len(),
    ensures
        host_major(hosts, ports).len() == hosts.len() * ports.len(),
        0 <= h * ports.len() + p < hosts.len() * ports.len(),
        host_major(hosts, ports)[h * ports.len() + p] == (hosts[h], ports[p]),
    decreases hosts.len(),
{
    let front = hosts.drop_last();
    lemma_host_major_len(hosts, ports);
    lemma_host_major_len(front, ports);
    lemma_row_bounds(h, p, hosts.len() as int, ports.len() as int);
    if h < front.len() {
        law_scan_work(front, ports, h, p);
        assert(front[h] == hosts[h]);
    }
}

proof fn lemma_port_major_len(candidates: nat, ports: Seq<u16>)
    ensures
        port_major(candidates, ports).len() == ports.len() * candidates,
    decreases ports.len(),
{
    if ports.len() > 0 {
        lemma_port_major_len(candidates, ports.drop_last());
        lemma_one_row_more(ports.len(), candidates);
    }
}

/// Host discovery visits every candidate and probe port once, all candidates
/// with a port before the next port.
pub proof fn law_discovery_work(candidates: usize, ports: Seq<u16>, p: int, c: int)
    requires
        0 <= p < ports.len(),
        0 <= c < candidates,
    ensures
        port_major(candidates as nat, ports).len() == ports.len() * candidates,
        0 <= p * candidates + c < ports.len() * candidates,
        port_major(candidates as nat, ports)[p * candidates + c] == (c as usize, ports[p]),
    decreases ports.len(),
{
    let front = ports.drop_last();
    lemma_port_major_len(candidates as nat, ports);
    lemma_port_major_len(candidates as nat, front);
    lemma_row_bounds(p, c, ports.len() as int, candidates as int);
    if p < front.len() {
        law_discovery_work(candidates, front, p, c);
        assert(front[p] == ports[p]);
    }
}

/// What is known of a host after some probes.
pub open spec fn up_after(outcomes: Seq<ProbeOutcome>) -> bool
    decreases outcomes.len(),
{
    if outcomes.len() == 0 {
        false
    } else {
        up_after(outcomes.drop_last()) || outcomes.last().proves_up()
    }
}

/// A host counts as up if any probe connects or is actively refused, and it
/// stays up from then on.
pub proof fn law_any_answer_counts(outcomes: Seq<ProbeOutcome>)
    ensures
        up_after(outcomes) <==> exists|i: int|
            0 <= i < outcomes.len() && (#[trigger] outcomes[i]).proves_up(),
        forall|n: int|
            0 <= n <= outcomes.len() && #[trigger] up_after(outcomes.take(n)) ==> up_after(
                outcomes,
            ),
    decreases outcomes.len(),
{
    if outcomes.len() > 0 {
        let front = outcomes.drop_last();
        law_any_answer_counts(front);
        if up_after(front) {
            let i = choose|i: int| 0 <= i < front.len() && (#[trigger] front[i]).proves_up();
            assert(outcomes[i].proves_up());
        }
        if outcomes.last().proves_up() {
            assert(outcomes[outcomes.len() - 1].proves_up());
        }
        if exists|i: int| 0 <= i < outcomes.len() && (#[trigger] outcomes[i]).proves_up() {
            let i = choose|i: int| 0 <= i < outcomes.len() && (#[trigger] outcomes[i]).proves_up();
            if i < front.len() {
                assert(front[i].proves_up());
            }
        }
        assert forall|n: int|
            0 <= n <= outcomes.len() && #[trigger] up_after(outcomes.take(n)) implies up_after(
            outcomes,
        ) by {
            if n < outcomes.len() {
                assert(outcomes.take(n) =~= front.take(n));
            } else {
                assert(outcomes.take(n) =~= outcomes);
            }
        }
    } else {
        assert(outcomes.take(0) =~= outcomes);
    }
}

/// The number of threads is the one asked for, where that is at least one and
/// at most 1024 and there is that much work. Fewer work items mean fewer
/// threads, more than 1024 are never used, and one is used at least.
pub proof fn law_threads(requested: nat, work: nat)
    ensures
        ({
            let n = at_most(at_most(at_least(requested, 1), MAX_THREADS as nat), at_least(work, 1));
            &&& 1 <= requested <= 1024 && requested <= work ==> n == requested
            &&& requested > 1024 && work >= 1024 ==> n == 1024
            &&& requested >= work && 1 <= work <= 1024 ==> n == work
            &&& requested == 0 || work == 0 ==> n == 1
        }),
{
}

/// A host is known to be there unless nothing came back.
pub proof fn law_proof_of_life(outcome: ProbeOutcome)
    ensures
        outcome.proves_up() <==> outcome != ProbeOutcome::NoAnswer,
{
}

/// The ports found on a host: finding one more on it adds that port behind
/// the others, and finding one elsewhere changes nothing.
pub proof fn law_ports_found(found: Seq<(Ipv4Addr, u16)>, ip: Ipv4Addr, port: u16, bits: u32)
    ensures
        ports_found(Seq::empty(), bits).len() == 0,
        ip.bits == bits ==> ports_found(found.push((ip, port)), bits) == ports_found(
            found,
            bits,
        ).push(port),
        ip.bits != bits ==> ports_found(found.push((ip, port)), bits) == ports_found(found, bits),
{
    assert(found.push((ip, port)).drop_last() =~= found);
}

} // verus!
