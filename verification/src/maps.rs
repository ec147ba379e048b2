//! Tables keyed by addresses.

use std::collections::HashMap;

use vstd::prelude::*;
use vstd::std_specs::hash::group_hash_axioms;

use crate::net::Ipv4Addr;

verus! {

/// A table with one value per address.
pub struct AddrMap<V> {
    entries: HashMap<u32, V>,
}

impl<V> View for AddrMap<V> {
    type V = Map<u32, V>;

    closed spec fn view(&self) -> Map<u32, V> {
        self.entries@
    }
}

/// The texts in a table.
pub open spec fn map_text(m: Map<u32, String>) -> Map<u32, Seq<char>> {
    m.map_values(|s: String| s@)
}

impl<V> AddrMap<V> {
    pub fn new() -> (m: AddrMap<V>)
        ensures
            m@ == Map::<u32, V>::empty(),
    {
        AddrMap { entries: HashMap::new() }
    }

    /// Sets the value of an address.
    pub fn insert(&mut self, ip: Ipv4Addr, value: V)
        ensures
            final(self)@ == old(self)@.insert(ip.bits, value),
    {
        broadcast use group_hash_axioms;

        let _ = self.entries.insert(ip.bits, value);
    }

    pub fn get(&self, ip: &Ipv4Addr) -> (r: Option<&V>)
        ensures
            match r {
                Some(v) => self@.contains_key(ip.bits) && *v == self@[ip.bits],
                None => !self@.contains_key(ip.bits),
            },
    {
        broadcast use group_hash_axioms;

        self.entries.get(&ip.bits)
    }

    /// Takes the value of an address out of the table.
    pub fn remove(&mut self, ip: &Ipv4Addr) -> (r: Option<V>)
        ensures
            final(self)@ == old(self)@.remove(ip.bits),
            match r {
                Some(v) => old(self)@.contains_key(ip.bits) && v == old(self)@[ip.bits],
                None => !old(self)@.contains_key(ip.bits),
            },
    {
        broadcast use group_hash_axioms;

        self.entries.remove(&ip.bits)
    }

    pub fn contains_key(&self, ip: &Ipv4Addr) -> (b: bool)
        ensures
            b == self@.contains_key(ip.bits),
    {
        broadcast use group_hash_axioms;

        self.entries.contains_key(&ip.bits)
    }

    /// Number of addresses that have a value.
    pub fn len(&self) -> (n: usize)
        ensures
            n == self@.len(),
    {
        broadcast use group_hash_axioms;

        self.entries.len()
    }

    pub fn is_empty(&self) -> (b: bool)
        ensures
            b == (self@ == Map::<u32, V>::empty()),
    {
        broadcast use group_hash_axioms;

        let b = self.entries.is_empty();
        assert(b ==> self@ =~= Map::<u32, V>::empty());
        b
    }
}

/// One number for an address and a port.
pub open spec fn endpoint(ip: Ipv4Addr, port: u16) -> u64 {
    (ip.bits * 0x1_0000 + port) as u64
}

/// A table with one text per address and port.
pub struct EndpointMap {
    entries: HashMap<u64, String>,
}

impl View for EndpointMap {
    type V = Map<u64, Seq<char>>;

    closed spec fn view(&self) -> Map<u64, Seq<char>> {
        self.entries@.map_values(|s: String| s@)
    }
}

impl EndpointMap {
    pub fn new() -> (m: EndpointMap)
        ensures
            m@ == Map::<u64, Seq<char>>::empty(),
    {
        let m = EndpointMap { entries: HashMap::new() };
        assert(m@ =~= Map::<u64, Seq<char>>::empty());
        m
    }

    /// Sets the text of an address and port.
    pub fn insert(&mut self, ip: Ipv4Addr, port: u16, value: String)
        ensures
            final(self)@ == old(self)@.insert(endpoint(ip, port), value@),
    {
        broadcast use group_hash_axioms;

        let key = ip.bits as u64 * 0x1_0000 + port as u64;
        let _ = self.entries.insert(key, value);
        assert(self@ =~= old(self)@.insert(endpoint(ip, port), value@));
    }

    pub fn get(&self, ip: Ipv4Addr, port: u16) -> (r: Option<&String>)
        ensures
            match r {
                Some(v) => self@.contains_key(endpoint(ip, port)) && v@ == self@[endpoint(ip, port)],
                None => !self@.contains_key(endpoint(ip, port)),
            },
    {
        broadcast use group_hash_axioms;

        let key = ip.bits as u64 * 0x1_0000 + port as u64;
        self.entries.get(&key)
    }
}

/// Different endpoints have different numbers.
pub proof fn law_endpoints_are_distinct(ip1: Ipv4Addr, port1: u16, ip2: Ipv4Addr, port2: u16)
    ensures
        endpoint(ip1, port1) == endpoint(ip2, port2) <==> ip1 == ip2 && port1 == port2,
{
}

} // verus!
