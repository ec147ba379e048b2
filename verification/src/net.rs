//! IPv4 addresses and CIDR blocks.

use vstd::arithmetic::power2::*;
use vstd::bits::*;
use vstd::prelude::*;

use crate::text::{
    all_digits, chars_of, compose, decimal, decimal_of, digits_value, is_digit, join, join_strings,
    law_join_undoes_split, law_number_round_trip, law_split_undoes_join, lemma_decimal,
    lemma_decimal_of_digits, lemma_digits_lack, lemma_found_behind, lemma_join_lacks, lemma_not_found, number_of,
    parse_number, split, split_chars, split_chars_once, split_once, string_views, unsigned_digits,
};

verus! {

/// Above this many addresses, a scan needs an explicit opt-in. A /16 is
/// 65_534 hosts, which is already a long scan; anything larger is almost
/// always a typo'd prefix.
pub const MAX_AUTO_HOSTS: u64 = 65_536;

/// An IPv4 address, as the number whose four bytes are its octets.
#[derive(Debug, Clone, Copy, PartialEq, Eq, PartialOrd, Ord, Hash, Structural)]
pub struct Ipv4Addr {
    pub bits: u32,
}

impl Ipv4Addr {
    /// The octets, most significant first.
    pub open spec fn octet_seq(self) -> Seq<nat> {
        seq![
            self.bits as nat / 0x100_0000,
            self.bits as nat / 0x1_0000 % 256,
            self.bits as nat / 256 % 256,
            self.bits as nat % 256,
        ]
    }

    /// The octets in decimal notation.
    pub open spec fn octet_texts(self) -> Seq<Seq<char>> {
        self.octet_seq().map_values(|o: nat| decimal(o))
    }

    /// Dotted decimal notation.
    pub open spec fn dotted(self) -> Seq<char> {
        join(self.octet_texts(), seq!['.'])
    }

    pub fn new(a: u8, b: u8, c: u8, d: u8) -> (addr: Ipv4Addr)
        ensures
            addr.octet_seq() == seq![a as nat, b as nat, c as nat, d as nat],
            addr.bits == a * 0x100_0000 + b * 0x1_0000 + c * 256 + d,
    {
        let addr = Ipv4Addr {
            bits: a as u32 * 0x100_0000 + b as u32 * 0x1_0000 + c as u32 * 256 + d as u32,
        };
        proof {
            lemma_four_bytes(addr.bits as nat, a as nat, b as nat, c as nat, d as nat);
        }
        assert(addr.octet_seq() =~= seq![a as nat, b as nat, c as nat, d as nat]);
        addr
    }

    pub fn octets(&self) -> (o: [u8; 4])
        ensures
            o@ == self.octet_seq().map_values(|x: nat| x as u8),
            forall|i: int| 0 <= i < 4 ==> #[trigger] o@[i] == self.octet_seq()[i],
    {
        let o = [
            (self.bits / 0x100_0000) as u8,
            (self.bits / 0x1_0000 % 256) as u8,
            (self.bits / 256 % 256) as u8,
            (self.bits % 256) as u8,
        ];
        assert(o@ =~= self.octet_seq().map_values(|x: nat| x as u8));
        o
    }

    /// The address in dotted decimal notation.
    pub fn to_string(&self) -> (out: String)
        ensures
            out@ == self.dotted(),
    {
        let o = self.octets();
        let mut parts: Vec<String> = Vec::new();
        parts.push(decimal_of(o[0] as u64));
        parts.push(decimal_of(o[1] as u64));
        parts.push(decimal_of(o[2] as u64));
        parts.push(decimal_of(o[3] as u64));
        assert(string_views(parts@) =~= self.octet_texts());
        proof {
            reveal_strlit(".");
            assert("."@ =~= seq!['.']);
        }
        join_strings(parts.as_slice(), ".")
    }

    /// Reads dotted decimal notation.
    pub fn parse(s: &str) -> (r: Option<Ipv4Addr>)
        ensures
            r == parse_dotted(s@),
    {
        let chars = chars_of(s);
        address_of(chars.as_slice())
    }
}

/// The bytes of a number below 2^32.
proof fn lemma_four_bytes(n: nat, a: nat, b: nat, c: nat, d: nat)
    requires
        n == a * 0x100_0000 + b * 0x1_0000 + c * 256 + d,
        a < 256,
        b < 256,
        c < 256,
        d < 256,
    ensures
        n / 0x100_0000 == a,
        n / 0x1_0000 % 256 == b,
        n / 256 % 256 == c,
        n % 256 == d,
{
    assert(n / 256 == a * 0x1_0000 + b * 256 + c);
    assert(n / 0x1_0000 == a * 256 + b);
}

/// Whether a text is an octet in decimal notation, without leading zeros.
pub open spec fn is_octet(s: Seq<char>) -> bool {
    &&& 1 <= s.len() <= 3
    &&& all_digits(s)
    &&& s.len() > 1 ==> s[0] != '0'
    &&& digits_value(s) <= 255
}

/// The address that a text gives in dotted decimal notation: four octets
/// separated by dots.
pub open spec fn parse_dotted(s: Seq<char>) -> Option<Ipv4Addr> {
    let parts = split(s, seq!['.']);
    if parts.len() == 4 && forall|i: int| 0 <= i < 4 ==> is_octet(#[trigger] parts[i]) {
        Some(
            Ipv4Addr {
                bits: (digits_value(parts[0]) * 0x100_0000 + digits_value(parts[1]) * 0x1_0000
                    + digits_value(parts[2]) * 256 + digits_value(parts[3])) as u32,
            },
        )
    } else {
        None
    }
}

fn octet_of(s: &[char]) -> (r: Option<u8>)
    ensures
        match r {
            Some(n) => is_octet(s@) && n == digits_value(s@),
            None => !is_octet(s@),
        },
{
    if s.len() == 0 || s.len() > 3 {
        return None;
    }
    if s.len() > 1 && s[0] == '0' {
        return None;
    }
    if s[0] == '+' {
        assert(!is_digit(s@[0]));
        return None;
    }
    assert(unsigned_digits(s@) == s@);
    match number_of(s, 255) {
        Some(n) => Some(n as u8),
        None => None,
    }
}

/// Reads dotted decimal notation.
pub fn address_of(s: &[char]) -> (r: Option<Ipv4Addr>)
    ensures
        r == parse_dotted(s@),
{
    let dot: [char; 1] = ['.'];
    assert(dot@ =~= seq!['.']);
    let parts = split_chars(s, &dot);
    let ghost pieces = split(s@, seq!['.']);
    assert(pieces.len() == parts@.len());
    if parts.len() != 4 {
        return None;
    }
    assert(forall|i: int| 0 <= i < 4 ==> #[trigger] pieces[i] == parts@[i]@);
    let a = octet_of(parts[0].as_slice());
    let b = octet_of(parts[1].as_slice());
    let c = octet_of(parts[2].as_slice());
    let d = octet_of(parts[3].as_slice());
    match (a, b, c, d) {
        (Some(a), Some(b), Some(c), Some(d)) => {
            assert(forall|i: int| 0 <= i < 4 ==> is_octet(#[trigger] pieces[i]));
            Some(Ipv4Addr::new(a, b, c, d))
        },
        _ => {
            assert(!is_octet(pieces[0]) || !is_octet(pieces[1]) || !is_octet(pieces[2])
                || !is_octet(pieces[3]));
            None
        },
    }
}

/// Number of addresses in a block with this prefix length.
pub open spec fn block_size(prefix: int) -> nat {
    pow2((32 - prefix) as nat)
}

/// The network mask of a prefix length.
pub fn prefix_mask(prefix: u8) -> (mask: u32)
    requires
        prefix <= 32,
    ensures
        mask == 0x1_0000_0000 - block_size(prefix as int),
{
    if prefix == 0 {
        proof {
            lemma2_to64();
        }
        0
    } else {
        let shift: u32 = 32 - prefix as u32;
        proof {
            lemma_mask(shift);
        }
        0xffff_ffffu32 << shift
    }
}

/// Shifting the all-ones word left clears as many bits as it shifts.
proof fn lemma_mask(shift: u32)
    requires
        shift < 32,
    ensures
        0xffff_ffffu32 << shift == 0x1_0000_0000 - pow2(shift as nat),
        pow2(shift as nat) <= 0x8000_0000,
{
    lemma2_to64();
    if shift < 31 {
        lemma_pow2_strictly_increases(shift as nat, 31);
    }
    lemma_u32_shl_is_mul(1, shift);
    assert(0xffff_ffffu32 << shift == 0xffff_ffffu32 - ((1u32 << shift) - 1)) by (bit_vector)
        requires
            shift < 32,
    ;
}

/// What a network mask keeps of an address, and what its complement adds.
proof fn lemma_masked(x: u32, mask: u32, prefix: int)
    requires
        0 <= prefix <= 32,
        mask == 0x1_0000_0000 - block_size(prefix),
    ensures
        x & mask == x - x as nat % block_size(prefix),
        x | !mask == x - x as nat % block_size(prefix) + block_size(prefix) - 1,
        1 <= block_size(prefix) <= 0x1_0000_0000,
        x - x as nat % block_size(prefix) + block_size(prefix) - 1 <= u32::MAX,
{
    let size = block_size(prefix);
    lemma2_to64();
    lemma_pow2_pos((32 - prefix) as nat);
    let low: u32 = !mask;
    if prefix == 0 {
        assert(mask == 0);
        assert(x & 0 == 0) by (bit_vector);
        assert(x | !0u32 == 0xffff_ffff) by (bit_vector);
        assert(x as nat % 0x1_0000_0000 == x);
    } else {
        lemma_mask((32 - prefix) as u32);
        assert(low == 0xffff_ffffu32 - mask) by (bit_vector)
            requires
                low == !mask,
        ;
        lemma_u32_low_bits_mask_is_mod(x, (32 - prefix) as nat);
        assert(low == low_bits_mask((32 - prefix) as nat));
        assert(x & mask == x - (x & low)) by (bit_vector)
            requires
                low == !mask,
        ;
        assert(x | low == (x & mask) + low) by (bit_vector)
            requires
                low == !mask,
        ;
    }
}

/// A parsed CIDR block, normalized to its network address.
#[derive(Debug, Clone, Copy, PartialEq, Eq, Structural)]
pub struct Cidr {
    pub network: Ipv4Addr,
    pub prefix: u8,
}

/// The block that holds an address.
pub open spec fn block_of(addr: Ipv4Addr, prefix: u8) -> Cidr {
    Cidr {
        network: Ipv4Addr { bits: (addr.bits - addr.bits as nat % block_size(prefix as int)) as u32 },
        prefix,
    }
}

/// What is said of a prefix length above 32.
pub open spec fn prefix_message(prefix: u8) -> Seq<char> {
    "prefix /"@ + decimal(prefix as nat) + " is out of range (0-32)"@
}

/// The block for an address and a prefix length, or what is wrong with it.
pub open spec fn checked_block(addr: Ipv4Addr, prefix: u8) -> Result<Cidr, Seq<char>> {
    if prefix > 32 {
        Err(prefix_message(prefix))
    } else {
        Ok(block_of(addr, prefix))
    }
}

/// The block that a text like `192.168.1.0/24` gives, or what is wrong with
/// it.
pub open spec fn parse_cidr(s: Seq<char>) -> Result<Cidr, Seq<char>> {
    match split_once(s, seq!['/']) {
        None => Err("'"@ + s + "' is not a CIDR block (expected e.g. 192.168.1.0/24)"@),
        Some((addr, prefix)) => match parse_dotted(addr) {
            None => Err("'"@ + addr + "' is not a valid IPv4 address"@),
            Some(a) => match parse_number(prefix, 255) {
                None => Err("'"@ + prefix + "' is not a valid prefix length"@),
                Some(p) => checked_block(a, p as u8),
            },
        },
    }
}

/// A result with its message seen as characters.
pub open spec fn said<T>(r: Result<T, String>) -> Result<T, Seq<char>> {
    match r {
        Ok(v) => Ok(v),
        Err(e) => Err(e@),
    }
}

impl Cidr {
    /// A block with a prefix length in range, normalized to its network
    /// address.
    pub open spec fn wf(self) -> bool {
        &&& self.prefix <= 32
        &&& self.network.bits as nat % block_size(self.prefix as int) == 0
    }

    /// The last address of the block.
    pub open spec fn last(self) -> int {
        block_of(self.network, self.prefix).network.bits + block_size(self.prefix as int) - 1
    }

    /// Number of scannable host addresses in a block with this prefix.
    pub open spec fn host_total(self) -> int {
        if self.prefix == 32 {
            1
        } else if self.prefix == 31 {
            2
        } else {
            block_size(self.prefix as int) - 2
        }
    }

    /// The scannable host addresses lie from this number on.
    pub open spec fn first_host(self) -> int {
        if self.prefix >= 31 {
            self.network.bits as int
        } else {
            self.network.bits + 1
        }
    }

    /// The scannable host addresses lie up to this number.
    pub open spec fn last_host(self) -> int {
        if self.prefix >= 31 {
            self.last()
        } else {
            self.last() - 1
        }
    }

    pub fn new(addr: Ipv4Addr, prefix: u8) -> (r: Result<Cidr, String>)
        ensures
            said(r) == checked_block(addr, prefix),
            r matches Ok(c) ==> c.wf() && c.network.bits <= addr.bits <= c.last(),
    {
        if prefix > 32 {
            let mut message = "prefix /".to_owned();
            message.append(decimal_of(prefix as u64).as_str());
            message.append(" is out of range (0-32)");
            return Err(message);
        }
        let mask = prefix_mask(prefix);
        proof {
            lemma_masked(addr.bits, mask, prefix as int);
            lemma_block_start(addr, prefix);
        }
        Ok(Cidr { network: Ipv4Addr { bits: addr.bits & mask }, prefix })
    }

    pub fn parse(s: &str) -> (r: Result<Cidr, String>)
        ensures
            said(r) == parse_cidr(s@),
            r matches Ok(c) ==> c.wf(),
    {
        let chars = chars_of(s);
        cidr_of(chars.as_slice())
    }

    pub fn broadcast(&self) -> (addr: Ipv4Addr)
        requires
            self.prefix <= 32,
        ensures
            addr.bits == self.last(),
    {
        let mask = prefix_mask(self.prefix);
        proof {
            lemma_masked(self.network.bits, mask, self.prefix as int);
        }
        Ipv4Addr { bits: self.network.bits | !mask }
    }

    /// Number of scannable host addresses in the block.
    ///
    /// A /32 is a single host and a /31 is a two-address point-to-point link
    /// (RFC 3021) where both addresses are usable. Everything else excludes
    /// the network and broadcast addresses.
    pub fn host_count(&self) -> (n: u64)
        requires
            self.prefix <= 32,
        ensures
            n == self.host_total(),
    {
        if self.prefix == 32 {
            1
        } else if self.prefix == 31 {
            2
        } else {
            let shift: u64 = 32 - self.prefix as u64;
            proof {
                lemma2_to64();
                if shift < 32 {
                    lemma_pow2_strictly_increases(shift as nat, 32);
                }
                lemma_pow2_strictly_increases(1, shift as nat);
                lemma_u64_shl_is_mul(1, shift);
            }
            (1u64 << shift) - 2
        }
    }

    /// The scannable host addresses, one at a time.
    ///
    /// Yields lazily rather than building a `Vec`: a /8 would be a 67 MB
    /// allocation and a /0 would be roughly 17 GB.
    pub fn hosts(&self) -> (h: Hosts)
        requires
            self.prefix <= 32,
            self.wf() || self.prefix >= 31 || self.network.bits < u32::MAX,
        ensures
            h@ == addresses(self.first_host(), self.last_host() + 1),
    {
        let first = self.network.bits as u64;
        let last = self.broadcast().bits as u64;
        if self.prefix >= 31 {
            Hosts { next: first, stop: last + 1 }
        } else {
            proof {
                lemma2_to64();
                lemma_pow2_strictly_increases(1, (32 - self.prefix) as nat);
            }
            Hosts { next: first + 1, stop: last }
        }
    }
}

/// The start of a block lies on a block boundary, at or below its addresses.
proof fn lemma_block_start(addr: Ipv4Addr, prefix: u8)
    requires
        prefix <= 32,
    ensures
        block_of(addr, prefix).wf(),
        block_of(addr, prefix).network.bits <= addr.bits <= block_of(addr, prefix).last(),
{
    let size = block_size(prefix as int) as int;
    let x = addr.bits as int;
    lemma_pow2_pos((32 - prefix) as nat);
    vstd::arithmetic::div_mod::lemma_fundamental_div_mod(x, size);
    vstd::arithmetic::div_mod::lemma_mod_multiples_basic(x / size, size);
    vstd::arithmetic::mul::lemma_mul_is_commutative(x / size, size);
    vstd::arithmetic::div_mod::lemma_mod_bound(x, size);
    assert(x - x % size == size * (x / size));
    assert(0 <= x - x % size) by {
        vstd::arithmetic::div_mod::lemma_mod_decreases(x as nat, size as nat);
    }
}

/// Reads a text like `192.168.1.0/24`.
pub fn cidr_of(s: &[char]) -> (r: Result<Cidr, String>)
    ensures
        said(r) == parse_cidr(s@),
        r matches Ok(c) ==> c.wf(),
{
    let slash: [char; 1] = ['/'];
    assert(slash@ =~= seq!['/']);
    match split_chars_once(s, &slash) {
        None => Err(compose("'", s, "' is not a CIDR block (expected e.g. 192.168.1.0/24)")),
        Some((addr_part, prefix_part)) => match address_of(addr_part) {
            None => Err(compose("'", addr_part, "' is not a valid IPv4 address")),
            Some(addr) => match number_of(prefix_part, 255) {
                None => Err(compose("'", prefix_part, "' is not a valid prefix length")),
                Some(prefix) => Cidr::new(addr, prefix as u8),
            },
        },
    }
}

/// The addresses from `from` up to, but not including, `to`.
pub open spec fn addresses(from: int, to: int) -> Seq<Ipv4Addr> {
    Seq::new(
        if from < to {
            (to - from) as nat
        } else {
            0
        },
        |i: int| Ipv4Addr { bits: (from + i) as u32 },
    )
}

/// Host addresses that are still to be visited.
pub struct Hosts {
    next: u64,
    stop: u64,
}

impl View for Hosts {
    type V = Seq<Ipv4Addr>;

    closed spec fn view(&self) -> Seq<Ipv4Addr> {
        addresses(self.next as int, self.stop as int)
    }
}

impl Hosts {
    #[verifier::type_invariant]
    spec fn in_range(self) -> bool {
        self.stop <= 0x1_0000_0000
    }

    /// The next address, if any is left.
    pub fn next(&mut self) -> (r: Option<Ipv4Addr>)
        ensures
            match r {
                Some(addr) => old(self)@.len() > 0 && addr == old(self)@[0] && final(self)@
                    == old(self)@.skip(1),
                None => old(self)@.len() == 0 && final(self)@ == old(self)@,
            },
    {
        proof {
            use_type_invariant(&*self);
        }
        if self.next < self.stop {
            let addr = Ipv4Addr { bits: self.next as u32 };
            self.next = self.next + 1;
            assert(self@ =~= old(self)@.skip(1));
            Some(addr)
        } else {
            None
        }
    }

    /// All addresses that are left.
    pub fn collect(self) -> (out: Vec<Ipv4Addr>)
        ensures
            out@ == self@,
    {
        proof {
            use_type_invariant(&self);
        }
        let mut out: Vec<Ipv4Addr> = Vec::new();
        let mut at: u64 = self.next;
        while at < self.stop
            invariant
                self.next <= at,
                if self.next < self.stop { at <= self.stop } else { at == self.next },
                self.stop <= 0x1_0000_0000,
                out@ == addresses(self.next as int, at as int),
            decreases self.stop - at,
        {
            out.push(Ipv4Addr { bits: at as u32 });
            at += 1;
            assert(out@ =~= addresses(self.next as int, at as int));
        }
        assert(out@ =~= self@);
        out
    }
}

/// Whether an address is private or link-local: 10/8, 172.16/12, 192.168/16
/// or 169.254/16.
pub open spec fn private_v4(ip: Ipv4Addr) -> bool {
    let o = ip.octet_seq();
    ||| o[0] == 10
    ||| o[0] == 172 && 16 <= o[1] <= 31
    ||| o[0] == 192 && o[1] == 168
    ||| o[0] == 169 && o[1] == 254
}

pub fn is_private_v4(ip: Ipv4Addr) -> (b: bool)
    ensures
        b == private_v4(ip),
{
    let o = ip.octets();
    o[0] == 10 || (o[0] == 172 && (16 <= o[1] && o[1] <= 31)) || (o[0] == 192 && o[1] == 168) || (
    o[0] == 169 && o[1] == 254)
}

/// The address ending in `.1` in the /24 of an address.
pub open spec fn gateway(local: Ipv4Addr) -> Ipv4Addr {
    Ipv4Addr { bits: (local.bits - local.bits % 256 + 1) as u32 }
}

/// Guesses the LAN gateway for an address, assuming a /24 and `.1`.
pub fn guess_gateway(local: Ipv4Addr) -> (addr: Ipv4Addr)
    ensures
        addr == gateway(local),
{
    let bits = local.bits;
    assert((bits & 0xFFFF_FF00) | 1 == bits - bits % 256 + 1) by (bit_vector);
    Ipv4Addr { bits: (bits & 0xFFFF_FF00) | 1 }
}

// ---------------------------------------------------------------------
// Laws
// ---------------------------------------------------------------------

/// A number is worth what its four lowest bytes and the rest are worth.
proof fn lemma_from_bytes(n: nat)
    ensures
        n == (n / 0x100_0000) * 0x100_0000 + (n / 0x1_0000 % 256) * 0x1_0000 + (n / 256 % 256)
            * 256 + n % 256,
{
    let a = n / 256;
    let b = a / 256;
    let c = b / 256;
    assert(n / 0x1_0000 == b);
    assert(n / 0x100_0000 == c);
}

/// The octets of an address in decimal notation.
proof fn lemma_octet_texts(ip: Ipv4Addr)
    ensures
        ip.octet_texts().len() == 4,
        forall|i: int|
            0 <= i < 4 ==> {
                let text = #[trigger] ip.octet_texts()[i];
                is_octet(text) && digits_value(text) == ip.octet_seq()[i] && !text.contains('.')
                    && !text.contains('/')
            },
{
    let texts = ip.octet_texts();
    assert forall|i: int| 0 <= i < 4 implies {
        let text = #[trigger] texts[i];
        is_octet(text) && digits_value(text) == ip.octet_seq()[i] && !text.contains('.')
            && !text.contains('/')
    } by {
        let o = ip.octet_seq()[i];
        assert(o < 256);
        lemma_decimal(o);
        lemma_digits_lack(decimal(o), '.');
        lemma_digits_lack(decimal(o), '/');
    }
}

/// Reading the dotted notation of an address gives the address back.
pub proof fn law_address_round_trip(ip: Ipv4Addr)
    ensures
        parse_dotted(ip.dotted()) == Some(ip),
{
    let texts = ip.octet_texts();
    lemma_octet_texts(ip);
    law_split_undoes_join(texts, '.');
    assert(split(ip.dotted(), seq!['.']) == texts);
    lemma_from_bytes(ip.bits as nat);
    assert(is_octet(texts[0]) && is_octet(texts[1]) && is_octet(texts[2]) && is_octet(texts[3]));
    assert(digits_value(texts[0]) == ip.octet_seq()[0]);
    assert(digits_value(texts[1]) == ip.octet_seq()[1]);
    assert(digits_value(texts[2]) == ip.octet_seq()[2]);
    assert(digits_value(texts[3]) == ip.octet_seq()[3]);
}

/// An address has one dotted notation only: every text that is read as an
/// address is what the address is written as.
pub proof fn law_dotted_is_canonical(s: Seq<char>)
    ensures
        parse_dotted(s) matches Some(ip) ==> ip.dotted() == s,
{
    let parts = split(s, seq!['.']);
    if let Some(ip) = parse_dotted(s) {
        assert(is_octet(parts[0]) && is_octet(parts[1]) && is_octet(parts[2]) && is_octet(
            parts[3],
        ));
        let a = digits_value(parts[0]);
        let b = digits_value(parts[1]);
        let c = digits_value(parts[2]);
        let d = digits_value(parts[3]);
        lemma_four_bytes(ip.bits as nat, a, b, c, d);
        lemma_decimal_of_digits(parts[0]);
        lemma_decimal_of_digits(parts[1]);
        lemma_decimal_of_digits(parts[2]);
        lemma_decimal_of_digits(parts[3]);
        assert(ip.octet_seq() =~= seq![a, b, c, d]);
        assert(ip.octet_texts() =~= parts);
        law_join_undoes_split(s, seq!['.']);
    }
}

/// Reading the notation `network/prefix` of a block gives the block back.
pub proof fn law_cidr_round_trip(cidr: Cidr)
    requires
        cidr.wf(),
    ensures
        parse_cidr(cidr.network.dotted() + seq!['/'] + decimal(cidr.prefix as nat)) == Ok::<
            Cidr,
            Seq<char>,
        >(cidr),
{
    let texts = cidr.network.octet_texts();
    lemma_octet_texts(cidr.network);
    lemma_join_lacks(texts, seq!['.'], '/');
    lemma_found_behind(cidr.network.dotted(), '/', decimal(cidr.prefix as nat));
    law_address_round_trip(cidr.network);
    law_number_round_trip(cidr.prefix as nat, 255);
}

/// A block is normalized: making a block of its own network address changes
/// nothing, and so does making it of any address in it.
pub proof fn law_block_is_normalized(addr: Ipv4Addr, prefix: u8)
    requires
        prefix <= 32,
    ensures
        block_of(addr, prefix).wf(),
        block_of(block_of(addr, prefix).network, prefix) == block_of(addr, prefix),
        forall|other: Ipv4Addr|
            block_of(addr, prefix).network.bits <= other.bits <= block_of(addr, prefix).last()
                ==> #[trigger] block_of(other, prefix) == block_of(addr, prefix),
{
    lemma_block_start(addr, prefix);
    let block = block_of(addr, prefix);
    let size = block_size(prefix as int) as int;
    lemma_pow2_pos((32 - prefix) as nat);
    assert forall|other: Ipv4Addr| block.network.bits <= other.bits <= block.last() implies
        #[trigger] block_of(other, prefix) == block by {
        let start = block.network.bits as int;
        let x = other.bits as int;
        vstd::arithmetic::div_mod::lemma_fundamental_div_mod(start, size);
        vstd::arithmetic::mul::lemma_mul_is_commutative(start / size, size);
        assert(start % size == 0);
        assert(block_of(block.network, prefix) == block);
        vstd::arithmetic::div_mod::lemma_fundamental_div_mod_converse(
            x,
            size,
            start / size,
            x - start,
        );
    }
}

/// The scannable hosts of a block: as many as it counts, each once and in
/// ascending order, all of them inside the block. Below /31 the network and
/// broadcast addresses are left out; a /31 has both of its addresses and a
/// /32 its only one.
pub proof fn law_hosts(cidr: Cidr)
    requires
        cidr.wf(),
    ensures
        ({
            let hosts = addresses(cidr.first_host(), cidr.last_host() + 1);
            &&& hosts.len() == cidr.host_total()
            &&& forall|i: int, j: int|
                0 <= i < j < hosts.len() ==> #[trigger] hosts[i].bits < #[trigger] hosts[j].bits
            &&& forall|addr: Ipv4Addr| #[trigger]
                hosts.contains(addr) <==> cidr.network.bits <= addr.bits <= cidr.last() && (
                cidr.prefix < 31 ==> cidr.network.bits != addr.bits && addr.bits != cidr.last())
        }),
{
    let hosts = addresses(cidr.first_host(), cidr.last_host() + 1);
    let size = block_size(cidr.prefix as int) as int;
    lemma2_to64();
    lemma_pow2_pos((32 - cidr.prefix) as nat);
    if cidr.prefix < 31 {
        lemma_pow2_strictly_increases(1, (32 - cidr.prefix) as nat);
    }
    lemma_block_start(cidr.network, cidr.prefix);
    assert(block_of(cidr.network, cidr.prefix) == cidr);
    if cidr.prefix > 0 {
        lemma_pow2_strictly_increases((32 - cidr.prefix) as nat, 32);
    }
    lemma_masked(cidr.network.bits, (0x1_0000_0000 - size) as u32, cidr.prefix as int);
    assert forall|addr: Ipv4Addr| #[trigger] hosts.contains(addr) <==> cidr.network.bits
        <= addr.bits <= cidr.last() && (cidr.prefix < 31 ==> cidr.network.bits != addr.bits
        && addr.bits != cidr.last()) by {
        if hosts.contains(addr) {
            let i = choose|i: int| 0 <= i < hosts.len() && hosts[i] == addr;
            assert(addr.bits == cidr.first_host() + i);
        }
        if cidr.first_host() <= addr.bits <= cidr.last_host() {
            assert(hosts[addr.bits - cidr.first_host()] == addr);
        }
    }
}

/// The guessed gateway lies in the /24 of the address and ends in `.1`.
pub proof fn law_gateway(local: Ipv4Addr)
    ensures
        block_of(gateway(local), 24) == block_of(local, 24),
        gateway(local).octet_seq()[3] == 1,
{
    lemma2_to64();
    assert(block_size(24) == 256);
}

/// Dotted notation is four decimal octets with dots between them, the most
/// significant first.
pub proof fn law_dotted_notation(a: u8, b: u8, c: u8, d: u8)
    ensures
        parse_dotted(
            decimal(a as nat) + seq!['.'] + decimal(b as nat) + seq!['.'] + decimal(c as nat)
                + seq!['.'] + decimal(d as nat),
        ) matches Some(ip) && ip.bits == a * 0x100_0000 + b * 0x1_0000 + c * 256 + d,
{
    let ip = Ipv4Addr { bits: (a * 0x100_0000 + b * 0x1_0000 + c * 256 + d) as u32 };
    let texts = ip.octet_texts();
    lemma_four_bytes(ip.bits as nat, a as nat, b as nat, c as nat, d as nat);
    assert(texts =~= seq![
        decimal(a as nat),
        decimal(b as nat),
        decimal(c as nat),
        decimal(d as nat),
    ]);
    reveal_with_fuel(join, 4);
    assert(texts.drop_last() =~= texts.take(3));
    assert(texts.take(3).drop_last() =~= texts.take(2));
    assert(texts.take(2).drop_last() =~= texts.take(1));
    assert(ip.dotted() =~= decimal(a as nat) + seq!['.'] + decimal(b as nat) + seq!['.'] + decimal(
        c as nat,
    ) + seq!['.'] + decimal(d as nat));
    law_address_round_trip(ip);
}

/// Whether a block is the one that holds an address: it has the given prefix
/// length, begins at the last multiple of its size that is not above the
/// address, and ends where the next one begins.
pub open spec fn holds_address(cidr: Cidr, addr: Ipv4Addr, prefix: u8) -> bool {
    let size = pow2((32 - prefix) as nat) as int;
    &&& cidr.prefix == prefix
    &&& cidr.network.bits == (addr.bits as int / size) * size
    &&& cidr.last() == cidr.network.bits + size - 1
}

/// The block of an address is the one that holds it.
pub proof fn law_block_of(addr: Ipv4Addr, prefix: u8)
    requires
        prefix <= 32,
    ensures
        holds_address(block_of(addr, prefix), addr, prefix),
{
    let size = block_size(prefix as int) as int;
    let x = addr.bits as int;
    lemma_pow2_pos((32 - prefix) as nat);
    lemma_block_start(addr, prefix);
    vstd::arithmetic::div_mod::lemma_fundamental_div_mod(x, size);
    vstd::arithmetic::mul::lemma_mul_is_commutative(x / size, size);
    law_block_is_normalized(addr, prefix);
}

/// The text `address/prefix` is read as the block that holds the address, and
/// refused where the prefix length is above 32. A text without a slash, or
/// with something else than an address before it, is refused.
pub proof fn law_cidr_text(addr: Ipv4Addr, prefix: u8, other: Seq<char>, tail: Seq<char>)
    ensures
        match parse_cidr(addr.dotted() + seq!['/'] + decimal(prefix as nat)) {
            Ok(cidr) => prefix <= 32 && holds_address(cidr, addr, prefix),
            Err(_) => prefix > 32,
        },
        !other.contains('/') ==> parse_cidr(other) is Err,
        !other.contains('/') && parse_dotted(other) is None ==> parse_cidr(
            other + seq!['/'] + tail,
        ) is Err,
{
    lemma_octet_texts(addr);
    lemma_join_lacks(addr.octet_texts(), seq!['.'], '/');
    lemma_found_behind(addr.dotted(), '/', decimal(prefix as nat));
    law_address_round_trip(addr);
    law_number_round_trip(prefix as nat, 255);
    if prefix <= 32 {
        law_block_of(addr, prefix);
    }
    if !other.contains('/') {
        lemma_not_found(other, '/');
        lemma_found_behind(other, '/', tail);
    }
}

/// The private and link-local addresses are four ranges of numbers.
pub proof fn law_private_ranges(ip: Ipv4Addr)
    ensures
        private_v4(ip) <==> {
            ||| 0x0A00_0000 <= ip.bits <= 0x0AFF_FFFF
            ||| 0xAC10_0000 <= ip.bits <= 0xAC1F_FFFF
            ||| 0xC0A8_0000 <= ip.bits <= 0xC0A8_FFFF
            ||| 0xA9FE_0000 <= ip.bits <= 0xA9FE_FFFF
        },
{
    let n = ip.bits as nat;
    lemma_from_bytes(n);
    assert(n / 0x1_0000 == (n / 0x100_0000) * 256 + n / 0x1_0000 % 256);
}

/// Dotted notation is made of digits and dots.
pub proof fn law_dotted_characters(ip: Ipv4Addr)
    ensures
        ip.dotted().len() > 0,
        forall|i: int|
            0 <= i < ip.dotted().len() ==> is_digit(#[trigger] ip.dotted()[i]) || ip.dotted()[i]
                == '.',
{
    let s = ip.dotted();
    let texts = ip.octet_texts();
    lemma_octet_texts(ip);
    assert forall|i: int| 0 <= i < s.len() implies is_digit(#[trigger] s[i]) || s[i] == '.' by {
        let c = s[i];
        if !is_digit(c) && c != '.' {
            assert forall|k: int| 0 <= k < texts.len() implies !(#[trigger] texts[k]).contains(
                c,
            ) by {
                assert(is_octet(texts[k]));
                lemma_digits_lack(texts[k], c);
            }
            lemma_join_lacks(texts, seq!['.'], c);
            assert(s.contains(c));
        }
    }
    law_address_round_trip(ip);
    if s.len() == 0 {
        lemma_not_found(s, '.');
        assert(split(s, seq!['.']).len() == 1);
    }
}

/// The octets of an address are the four bytes of its number, the most
/// significant first.
pub proof fn law_octets(a: u8, b: u8, c: u8, d: u8)
    ensures
        ({
            let ip = Ipv4Addr { bits: (a * 0x100_0000 + b * 0x1_0000 + c * 256 + d) as u32 };
            ip.octet_seq() == seq![a as nat, b as nat, c as nat, d as nat]
        }),
{
    let ip = Ipv4Addr { bits: (a * 0x100_0000 + b * 0x1_0000 + c * 256 + d) as u32 };
    lemma_four_bytes(ip.bits as nat, a as nat, b as nat, c as nat, d as nat);
    assert(ip.octet_seq() =~= seq![a as nat, b as nat, c as nat, d as nat]);
}

/// What is said of a text that is no block: that it has no slash, that what
/// stands before the slash is no address, that what stands behind it is no
/// number, or that the number is above 32.
pub proof fn law_cidr_messages(text: Seq<char>, tail: Seq<char>, addr: Ipv4Addr, prefix: u8)
    requires
        !text.contains('/'),
        parse_dotted(text) is None,
        parse_number(tail, 255) is None,
        prefix > 32,
    ensures
        parse_cidr(text) == Err::<Cidr, Seq<char>>(
            "'"@ + text + "' is not a CIDR block (expected e.g. 192.168.1.0/24)"@,
        ),
        parse_cidr(text + seq!['/'] + tail) == Err::<Cidr, Seq<char>>(
            "'"@ + text + "' is not a valid IPv4 address"@,
        ),
        parse_cidr(addr.dotted() + seq!['/'] + tail) == Err::<Cidr, Seq<char>>(
            "'"@ + tail + "' is not a valid prefix length"@,
        ),
        parse_cidr(addr.dotted() + seq!['/'] + decimal(prefix as nat)) == Err::<Cidr, Seq<char>>(
            "prefix /"@ + decimal(prefix as nat) + " is out of range (0-32)"@,
        ),
{
    lemma_not_found(text, '/');
    lemma_found_behind(text, '/', tail);
    lemma_octet_texts(addr);
    lemma_join_lacks(addr.octet_texts(), seq!['.'], '/');
    lemma_found_behind(addr.dotted(), '/', tail);
    lemma_found_behind(addr.dotted(), '/', decimal(prefix as nat));
    law_address_round_trip(addr);
    law_number_round_trip(prefix as nat, 255);
}

} // verus!
