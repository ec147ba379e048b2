//! MAC address lookup in the output of `arp -a` and `ip neighbor`.
//!
//! ARP does not cross routers, so this only resolves devices on the same L2
//! segment.

use vstd::prelude::*;
use vstd::utf8::{is_ascii_chars, is_ascii_chars_concat};

use crate::maps::{map_text, AddrMap};
use crate::net::{
    address_of, law_address_round_trip, law_dotted_characters, parse_dotted, Ipv4Addr,
};
use crate::text::{
    ascii_lower, chars_of, find, found_at, is_digit, join, join_strings, law_join_undoes_split,
    law_lines_undo_join, law_split_undoes_join, law_words, law_words_undo_join, lemma_find_from,
    lemma_find_is, lemma_found_behind, lemma_not_found, lemma_split_lacks, lemma_split_len, lines,
    lines_of, lossy, lossy_text, lower, none_white, same_text, split, split_chars, split_chars_once,
    split_once, string_views, text_of, views, white_space, words, words_of,
};

verus! {

/// The text that `str::to_lowercase` makes of a text with characters beyond
/// ASCII.
pub uninterp spec fn unicode_lower(s: Seq<char>) -> Seq<char>;

/// `str::to_lowercase` follows the Unicode lowercase mapping. On ASCII text
/// that turns capitals into small letters and keeps everything else.
pub assume_specification[ str::to_lowercase ](s: &str) -> (out: String)
    ensures
        is_ascii_chars(s@) ==> out@ == lower(s@),
        !is_ascii_chars(s@) ==> out@ == unicode_lower(s@),
;

/// A text in small letters.
pub open spec fn lowercase(s: Seq<char>) -> Seq<char> {
    if is_ascii_chars(s) {
        lower(s)
    } else {
        unicode_lower(s)
    }
}

// ---------------------------------------------------------------------
// MAC addresses
// ---------------------------------------------------------------------

/// An octet written with one ASCII character gets a leading zero.
pub open spec fn pad_octet(octet: Seq<char>) -> Seq<char> {
    if octet.len() == 1 && octet[0] <= '\u{7f}' {
        seq!['0'] + octet
    } else {
        octet
    }
}

/// A MAC address with every octet padded, in the case it came in.
pub open spec fn padded_mac(raw: Seq<char>) -> Seq<char> {
    join(split(raw, seq![':']).map_values(|o: Seq<char>| pad_octet(o)), seq![':'])
}

/// A MAC address with two digits per octet, in small letters.
pub open spec fn normal_mac(raw: Seq<char>) -> Seq<char> {
    lowercase(padded_mac(raw))
}

/// Pads each octet of a MAC address.
pub fn pad_mac(raw: &str) -> (out: String)
    ensures
        out@ == padded_mac(raw@),
{
    let chars = chars_of(raw);
    let colon: [char; 1] = [':'];
    assert(colon@ =~= seq![':']);
    let octets = split_chars(chars.as_slice(), &colon);
    let ghost pieces = views(octets@);
    let ghost padded = pieces.map_values(|o: Seq<char>| pad_octet(o));
    let mut parts: Vec<String> = Vec::new();
    for i in 0..octets.len()
        invariant
            pieces == views(octets@),
            padded == pieces.map_values(|o: Seq<char>| pad_octet(o)),
            string_views(parts@) == padded.take(i as int),
    {
        let ghost before = string_views(parts@);
        let octet = text_of(octets[i].as_slice());
        let part = if octets[i].len() == 1 && octets[i][0] <= '\u{7f}' {
            let mut p = String::new();
            p.push('0');
            p.append(octet.as_str());
            assert(p@ =~= seq!['0'] + octet@);
            p
        } else {
            octet
        };
        parts.push(part);
        assert(part@ == padded[i as int]);
        assert(string_views(parts@) =~= before.push(part@));
        assert(string_views(parts@) =~= padded.take(i + 1));
    }
    assert(padded.take(octets@.len() as int) =~= padded);
    proof {
        reveal_strlit(":");
        assert(":"@ =~= seq![':']);
    }
    join_strings(parts.as_slice(), ":")
}

/// macOS prints ARP MACs without leading zeros (`0:1c:42:...`); pad each
/// octet so the column lines up and the values are comparable.
pub fn normalize_mac(raw: &str) -> (out: String)
    ensures
        out@ == normal_mac(raw@),
{
    pad_mac(raw).as_str().to_lowercase()
}

// ---------------------------------------------------------------------
// Tables
// ---------------------------------------------------------------------

/// The address between the first parentheses of a line.
pub open spec fn arp_address(line: Seq<char>) -> Option<Ipv4Addr> {
    match split_once(line, seq!['(']) {
        Some((_, rest)) => match split_once(rest, seq![')']) {
            Some((addr, _)) => parse_dotted(addr),
            None => None,
        },
        None => None,
    }
}

/// The word after the first ` at ` of a line, if it can be a MAC address.
pub open spec fn arp_mac_word(line: Seq<char>) -> Option<Seq<char>> {
    match split_once(line, " at "@) {
        Some((_, rest)) => if words(rest).len() > 0 && words(rest)[0].contains(':') && words(rest)[0]
            != "(incomplete)"@ {
            Some(words(rest)[0])
        } else {
            None
        },
        None => None,
    }
}

/// The entry in a line of the `... (IP) at MAC ...` shape, its MAC as it
/// stands there.
pub open spec fn arp_entry(line: Seq<char>) -> Option<(Ipv4Addr, Seq<char>)> {
    match (arp_address(line), arp_mac_word(line)) {
        (Some(ip), Some(mac)) => Some((ip, mac)),
        _ => None,
    }
}

/// The word after the first occurrence of `key`.
pub open spec fn word_after(ws: Seq<Seq<char>>, key: Seq<char>) -> Option<Seq<char>>
    decreases ws.len(),
{
    if ws.len() == 0 {
        None
    } else if ws[0] == key {
        if ws.len() > 1 {
            Some(ws[1])
        } else {
            None
        }
    } else {
        word_after(ws.skip(1), key)
    }
}

/// The entry in an `ip neighbor` line, its MAC as it stands there.
pub open spec fn neighbor_entry(line: Seq<char>) -> Option<(Ipv4Addr, Seq<char>)> {
    let ws = words(line);
    if ws.len() == 0 {
        None
    } else {
        match (parse_dotted(ws[0]), word_after(ws, "lladdr"@)) {
            (Some(ip), Some(mac)) => if mac.contains(':') {
                Some((ip, mac))
            } else {
                None
            },
            _ => None,
        }
    }
}

/// The table that the entries of the lines build, a later line overriding an
/// earlier one with the same address.
pub open spec fn table_of(
    all: Seq<Seq<char>>,
    entry: spec_fn(Seq<char>) -> Option<(Ipv4Addr, Seq<char>)>,
) -> Map<u32, Seq<char>>
    decreases all.len(),
{
    if all.len() == 0 {
        Map::empty()
    } else {
        match entry(all.last()) {
            Some((ip, mac)) => table_of(all.drop_last(), entry).insert(ip.bits, normal_mac(mac)),
            None => table_of(all.drop_last(), entry),
        }
    }
}

/// The table in the output of `arp -a`.
pub open spec fn arp_table(text: Seq<char>) -> Map<u32, Seq<char>> {
    table_of(lines(text), |l: Seq<char>| arp_entry(l))
}

/// The table in the output of `ip neighbor`.
pub open spec fn neighbor_table(text: Seq<char>) -> Map<u32, Seq<char>> {
    table_of(lines(text), |l: Seq<char>| neighbor_entry(l))
}

fn has_colon(s: &[char]) -> (b: bool)
    ensures
        b == s@.contains(':'),
{
    for i in 0..s.len()
        invariant
            forall|j: int| 0 <= j < i ==> s@[j] != ':',
    {
        if s[i] == ':' {
            assert(s@[i as int] == ':');
            return true;
        }
    }
    false
}

fn arp_address_of(line: &[char]) -> (r: Option<Ipv4Addr>)
    ensures
        r == arp_address(line@),
{
    let open: [char; 1] = ['('];
    let close: [char; 1] = [')'];
    assert(open@ =~= seq!['(']);
    assert(close@ =~= seq![')']);
    match split_chars_once(line, &open) {
        Some((_, rest)) => match split_chars_once(rest, &close) {
            Some((addr, _)) => address_of(addr),
            None => None,
        },
        None => None,
    }
}

fn arp_line(line: &[char]) -> (r: Option<(Ipv4Addr, String)>)
    ensures
        match r {
            Some((ip, mac)) => arp_entry(line@) == Some((ip, mac@)),
            None => arp_entry(line@) is None,
        },
{
    let at = chars_of(" at ");
    match (arp_address_of(line), split_chars_once(line, at.as_slice())) {
        (Some(ip), Some((_, rest))) => {
            let ws = words_of(rest);
            assert(words(rest@).len() == ws@.len());
            if ws.len() == 0 {
                return None;
            }
            assert(words(rest@)[0] == ws@[0]@);
            if has_colon(ws[0].as_slice()) && !same_text(ws[0].as_slice(), "(incomplete)") {
                Some((ip, text_of(ws[0].as_slice())))
            } else {
                None
            }
        },
        _ => None,
    }
}

fn find_word_after(ws: &Vec<Vec<char>>, key: &str) -> (r: Option<usize>)
    ensures
        match r {
            Some(i) => i < ws@.len() && word_after(views(ws@), key@) == Some(ws@[i as int]@),
            None => word_after(views(ws@), key@) is None,
        },
{
    let ghost all = views(ws@);
    assert(all.skip(0) =~= all);
    for i in 0..ws.len()
        invariant
            all == views(ws@),
            word_after(all, key@) == word_after(all.skip(i as int), key@),
    {
        assert(all.skip(i as int)[0] == ws@[i as int]@);
        assert(all.skip(i as int).skip(1) =~= all.skip(i + 1));
        if same_text(ws[i].as_slice(), key) {
            if i + 1 < ws.len() {
                assert(all.skip(i as int)[1] == ws@[i + 1]@);
                return Some(i + 1);
            }
            return None;
        }
    }
    None
}

fn neighbor_line(line: &[char]) -> (r: Option<(Ipv4Addr, String)>)
    ensures
        match r {
            Some((ip, mac)) => neighbor_entry(line@) == Some((ip, mac@)),
            None => neighbor_entry(line@) is None,
        },
{
    let ws = words_of(line);
    assert(words(line@).len() == ws@.len());
    if ws.len() == 0 {
        return None;
    }
    assert(words(line@)[0] == ws@[0]@);
    match (address_of(ws[0].as_slice()), find_word_after(&ws, "lladdr")) {
        (Some(ip), Some(i)) => {
            if has_colon(ws[i].as_slice()) {
                Some((ip, text_of(ws[i].as_slice())))
            } else {
                None
            }
        },
        _ => None,
    }
}

/// Parses the `... (IP) at MAC ...` shape shared by macOS, Linux and BSD.
pub fn parse_arp_output(text: &str) -> (map: AddrMap<String>)
    ensures
        map_text(map@) == arp_table(text@),
{
    let chars = chars_of(text);
    let all = lines_of(chars.as_slice());
    let ghost entry = |l: Seq<char>| arp_entry(l);
    let mut map: AddrMap<String> = AddrMap::new();
    assert(map_text(map@) =~= Map::empty());
    for i in 0..all.len()
        invariant
            entry == (|l: Seq<char>| arp_entry(l)),
            map_text(map@) == table_of(views(all@).take(i as int), entry),
    {
        assert(views(all@).take(i + 1).drop_last() =~= views(all@).take(i as int));
        if let Some((ip, raw)) = arp_line(all[i].as_slice()) {
            let ghost before = map@;
            let mac = normalize_mac(raw.as_str());
            map.insert(ip, mac);
            assert(map_text(map@) =~= map_text(before).insert(ip.bits, mac@));
        }
    }
    assert(views(all@).take(all@.len() as int) =~= views(all@));
    map
}

/// Parses `ip neighbor show` lines: `<ip> dev <iface> [lladdr <mac>]
/// [router] <STATE>`. Entries with no `lladdr` (e.g. `FAILED`,
/// `INCOMPLETE`) have nothing to report and are skipped. IPv6 rows are
/// naturally dropped too, since their address token is not an IPv4 address.
pub fn parse_ip_neighbor_output(text: &str) -> (map: AddrMap<String>)
    ensures
        map_text(map@) == neighbor_table(text@),
{
    let chars = chars_of(text);
    let all = lines_of(chars.as_slice());
    let ghost entry = |l: Seq<char>| neighbor_entry(l);
    let mut map: AddrMap<String> = AddrMap::new();
    assert(map_text(map@) =~= Map::empty());
    for i in 0..all.len()
        invariant
            entry == (|l: Seq<char>| neighbor_entry(l)),
            map_text(map@) == table_of(views(all@).take(i as int), entry),
    {
        assert(views(all@).take(i + 1).drop_last() =~= views(all@).take(i as int));
        if let Some((ip, raw)) = neighbor_line(all[i].as_slice()) {
            let ghost before = map@;
            let mac = normalize_mac(raw.as_str());
            map.insert(ip, mac);
            assert(map_text(map@) =~= map_text(before).insert(ip.bits, mac@));
        }
    }
    assert(views(all@).take(all@.len() as int) =~= views(all@));
    map
}

/// What the output of a command amounts to: nothing where it did not run.
pub open spec fn output_text(stdout: Option<Seq<u8>>) -> Seq<char> {
    match stdout {
        Some(bytes) => lossy(bytes),
        None => seq![],
    }
}

/// The neighbor table: what `arp -a` shows, or what `ip neighbor` shows where
/// the former shows nothing.
pub open spec fn best_table(arp: Seq<char>, neighbor: Seq<char>) -> Map<u32, Seq<char>> {
    if arp_table(arp) != Map::<u32, Seq<char>>::empty() {
        arp_table(arp)
    } else {
        neighbor_table(neighbor)
    }
}

/// The output of a command seen as bytes, if it ran.
pub open spec fn output_view(stdout: Option<&[u8]>) -> Option<Seq<u8>> {
    match stdout {
        Some(b) => Some(b@),
        None => None,
    }
}

fn text_of_output(stdout: Option<&[u8]>) -> (out: String)
    ensures
        out@ == output_text(output_view(stdout)),
{
    match stdout {
        Some(bytes) => lossy_text(bytes),
        None => String::new(),
    }
}

/// What follows `arp -a`.
pub enum TableStep {
    /// It showed this table.
    Done(AddrMap<String>),
    /// It showed nothing: run `ip neighbor`.
    AskNeighbor,
}

/// Decides what follows `arp -a`, from its output. `None` stands for a command
/// that did not succeed.
pub fn after_arp(stdout: Option<&[u8]>) -> (step: TableStep)
    ensures
        match step {
            TableStep::Done(map) => map_text(map@) == arp_table(
                output_text(output_view(stdout)),
            ) && map_text(map@) != Map::<u32, Seq<char>>::empty(),
            TableStep::AskNeighbor => arp_table(output_text(output_view(stdout))) == Map::<
                u32,
                Seq<char>,
            >::empty(),
        },
{
    let via_arp = parse_arp_output(text_of_output(stdout).as_str());
    if via_arp.is_empty() {
        assert(map_text(via_arp@) =~= Map::<u32, Seq<char>>::empty());
        return TableStep::AskNeighbor;
    }
    assert(map_text(via_arp@) != Map::<u32, Seq<char>>::empty()) by {
        if map_text(via_arp@) == Map::<u32, Seq<char>>::empty() {
            assert(map_text(via_arp@).dom() =~= via_arp@.dom());
            assert(via_arp@ =~= Map::<u32, String>::empty());
        }
    }
    TableStep::Done(via_arp)
}

/// The table in the output of `ip neighbor`, `None` where it did not succeed.
pub fn from_neighbor(stdout: Option<&[u8]>) -> (map: AddrMap<String>)
    ensures
        map_text(map@) == neighbor_table(output_text(output_view(stdout))),
{
    parse_ip_neighbor_output(text_of_output(stdout).as_str())
}

/// The local ARP/neighbor table, from the output of `arp -a` and of
/// `ip neighbor`, each `None` where the command did not succeed. Best-effort:
/// an empty table means neither source was usable.
///
/// `arp -a` comes first (works everywhere, but on Linux it comes from
/// net-tools, which a lot of modern minimal distros don't install by
/// default). If that yields nothing, `ip neighbor` (iproute2) is used, which
/// ships on essentially every Linux system since it's needed for basic
/// networking.
pub fn table(arp: Option<&[u8]>, neighbor: Option<&[u8]>) -> (map: AddrMap<String>)
    ensures
        map_text(map@) == best_table(
            output_text(output_view(arp)),
            output_text(output_view(neighbor)),
        ),
{
    match after_arp(arp) {
        TableStep::Done(map) => map,
        TableStep::AskNeighbor => from_neighbor(neighbor),
    }
}

// ---------------------------------------------------------------------
// Laws
// ---------------------------------------------------------------------

/// Joined pieces are ASCII where all pieces and the separator are, and the
/// other way round.
proof fn lemma_join_ascii(parts: Seq<Seq<char>>, sep: Seq<char>)
    requires
        is_ascii_chars(sep),
    ensures
        is_ascii_chars(join(parts, sep)) <==> forall|i: int|
            0 <= i < parts.len() ==> is_ascii_chars(#[trigger] parts[i]),
    decreases parts.len(),
{
    if parts.len() >= 2 {
        let front = parts.drop_last();
        let last = parts[parts.len() - 1];
        lemma_join_ascii(front, sep);
        let a = join(front, sep);
        is_ascii_chars_concat(a + sep, a, sep);
        is_ascii_chars_concat(join(parts, sep), a + sep, last);
        if forall|i: int| 0 <= i < parts.len() ==> is_ascii_chars(#[trigger] parts[i]) {
            assert forall|i: int| 0 <= i < front.len() implies is_ascii_chars(
                #[trigger] front[i],
            ) by {
                assert(front[i] == parts[i]);
            }
        }
        if is_ascii_chars(join(parts, sep)) {
            assert forall|i: int| 0 <= i < parts.len() implies is_ascii_chars(
                #[trigger] parts[i],
            ) by {
                if i < front.len() {
                    assert(is_ascii_chars(front[i]));
                }
            }
        }
    } else if parts.len() == 1 {
        assert(join(parts, sep) == parts[0]);
    }
}

/// Small letters of joined pieces.
proof fn lemma_lower_join(parts: Seq<Seq<char>>, sep: Seq<char>)
    ensures
        lower(join(parts, sep)) == join(parts.map_values(|p: Seq<char>| lower(p)), lower(sep)),
    decreases parts.len(),
{
    let small = parts.map_values(|p: Seq<char>| lower(p));
    if parts.len() >= 2 {
        lemma_lower_join(parts.drop_last(), sep);
        assert(small.drop_last() =~= parts.drop_last().map_values(|p: Seq<char>| lower(p)));
        assert(lower(join(parts, sep)) =~= join(small, lower(sep)));
    } else if parts.len() == 1 {
        assert(small[0] == lower(parts[0]));
    } else {
        assert(lower(join(parts, sep)) =~= join(small, lower(sep)));
    }
}

/// The padded octets of an ASCII MAC address: none has exactly one
/// character, and none holds a colon.
proof fn lemma_padded_octets(raw: Seq<char>)
    requires
        is_ascii_chars(raw),
    ensures
        ({
            let padded = split(raw, seq![':']).map_values(|o: Seq<char>| pad_octet(o));
            &&& padded.len() >= 1
            &&& is_ascii_chars(padded_mac(raw))
            &&& forall|i: int| 0 <= i < padded.len() ==> (#[trigger] padded[i]).len() != 1
            &&& forall|i: int| 0 <= i < padded.len() ==> !(#[trigger] padded[i]).contains(':')
        }),
{
    let octets = split(raw, seq![':']);
    let padded = octets.map_values(|o: Seq<char>| pad_octet(o));
    lemma_split_len(raw, seq![':']);
    lemma_split_lacks(raw, ':');
    law_join_undoes_split(raw, seq![':']);
    assert(is_ascii_chars(seq![':']));
    lemma_join_ascii(octets, seq![':']);
    assert forall|i: int| 0 <= i < padded.len() implies is_ascii_chars(#[trigger] padded[i]) && (
    #[trigger] padded[i]).len() != 1 && !(#[trigger] padded[i]).contains(':') by {
        let o = octets[i];
        assert(is_ascii_chars(o));
        assert(padded[i] == pad_octet(o));
        if padded[i].contains(':') {
            let k = choose|k: int| 0 <= k < padded[i].len() && padded[i][k] == ':';
            if o.len() == 1 {
                assert(o[k - 1] == ':');
            } else {
                assert(o[k] == ':');
            }
            assert(o.contains(':'));
        }
    }
    lemma_join_ascii(padded, seq![':']);
}

/// Normalizing makes MAC addresses comparable: a normalized address is its
/// own normal form.
pub proof fn law_normalizing_twice(raw: Seq<char>)
    requires
        is_ascii_chars(raw),
    ensures
        normal_mac(normal_mac(raw)) == normal_mac(raw),
{
    let padded = split(raw, seq![':']).map_values(|o: Seq<char>| pad_octet(o));
    let small = padded.map_values(|o: Seq<char>| lower(o));
    lemma_padded_octets(raw);
    lemma_lower_join(padded, seq![':']);
    assert(lower(seq![':']) =~= seq![':']);
    let mac = normal_mac(raw);
    assert(mac == join(small, seq![':']));
    assert forall|i: int| 0 <= i < small.len() implies !(#[trigger] small[i]).contains(':')
        && small[i].len() != 1 by {
        assert(small[i] == lower(padded[i]));
        if small[i].contains(':') {
            let k = choose|k: int| 0 <= k < small[i].len() && small[i][k] == ':';
            assert(ascii_lower(padded[i][k]) == ':');
            assert(padded[i][k] == ':');
        }
    }
    law_split_undoes_join(small, ':');
    assert(small.map_values(|o: Seq<char>| pad_octet(o)) =~= small);
    assert(padded_mac(mac) == mac);
    assert(is_ascii_chars(mac));
    assert(lower(mac) =~= mac) by {
        assert forall|i: int| 0 <= i < mac.len() implies ascii_lower(#[trigger] mac[i]) == mac[i] by {
            assert(mac[i] == ascii_lower(padded_mac(raw)[i]));
        }
    }
}

/// Joined pieces of one length.
proof fn lemma_join_len(parts: Seq<Seq<char>>, sep: Seq<char>, n: nat)
    requires
        parts.len() > 0,
        sep.len() == 1,
        forall|i: int| 0 <= i < parts.len() ==> (#[trigger] parts[i]).len() == n,
    ensures
        join(parts, sep).len() == parts.len() * (n + 1) - 1,
    decreases parts.len(),
{
    if parts.len() >= 2 {
        let front = parts.drop_last();
        assert forall|i: int| 0 <= i < front.len() implies (#[trigger] front[i]).len() == n by {
            assert(front[i] == parts[i]);
        }
        lemma_join_len(front, sep, n);
        assert(parts[parts.len() - 1].len() == n);
        assert(parts.len() * (n + 1) == front.len() * (n + 1) + (n + 1)) by (nonlinear_arith)
            requires
                parts.len() == front.len() + 1,
        ;
    } else {
        assert(parts[0].len() == n);
    }
}

/// Normalizing makes the column line up: six octets of one or two ASCII
/// characters always come out as seventeen characters.
pub proof fn law_normal_mac_width(raw: Seq<char>)
    requires
        is_ascii_chars(raw),
        split(raw, seq![':']).len() == 6,
        forall|i: int| 0 <= i < 6 ==> 1 <= (#[trigger] split(raw, seq![':'])[i]).len() <= 2,
    ensures
        normal_mac(raw).len() == 17,
{
    let octets = split(raw, seq![':']);
    let padded = octets.map_values(|o: Seq<char>| pad_octet(o));
    lemma_padded_octets(raw);
    assert forall|i: int| 0 <= i < padded.len() implies (#[trigger] padded[i]).len() == 2 by {
        assert(octets[i].len() <= 2);
        assert(padded[i] == pad_octet(octets[i]));
    }
    lemma_join_len(padded, seq![':'], 2);
}

/// Whether a line has an entry for an address.
pub open spec fn names_address(
    line: Seq<char>,
    entry: spec_fn(Seq<char>) -> Option<(Ipv4Addr, Seq<char>)>,
    bits: u32,
) -> bool {
    entry(line) matches Some((ip, _)) && ip.bits == bits
}

/// The last line that names an address counts: its MAC, normalized, is what
/// the table holds.
pub proof fn law_last_line_counts(
    all: Seq<Seq<char>>,
    entry: spec_fn(Seq<char>) -> Option<(Ipv4Addr, Seq<char>)>,
    i: int,
    ip: Ipv4Addr,
    mac: Seq<char>,
)
    requires
        0 <= i < all.len(),
        entry(all[i]) == Some((ip, mac)),
        forall|j: int| i < j < all.len() ==> !#[trigger] names_address(all[j], entry, ip.bits),
    ensures
        table_of(all, entry).contains_key(ip.bits),
        table_of(all, entry)[ip.bits] == normal_mac(mac),
    decreases all.len(),
{
    let front = all.drop_last();
    if i < front.len() {
        assert(!names_address(all[all.len() - 1], entry, ip.bits));
        assert forall|j: int| i < j < front.len() implies !#[trigger] names_address(
            front[j],
            entry,
            ip.bits,
        ) by {
            assert(!names_address(all[j], entry, ip.bits));
        }
        law_last_line_counts(front, entry, i, ip, mac);
    }
}

/// A table holds no address that no line names.
pub proof fn law_only_named_addresses(
    all: Seq<Seq<char>>,
    entry: spec_fn(Seq<char>) -> Option<(Ipv4Addr, Seq<char>)>,
    bits: u32,
)
    requires
        table_of(all, entry).contains_key(bits),
    ensures
        exists|i: int| 0 <= i < all.len() && #[trigger] names_address(all[i], entry, bits),
    decreases all.len(),
{
    if all.len() > 0 {
        let front = all.drop_last();
        if !names_address(all[all.len() - 1], entry, bits) {
            law_only_named_addresses(front, entry, bits);
            let i = choose|i: int|
                0 <= i < front.len() && #[trigger] names_address(front[i], entry, bits);
            assert(names_address(all[i], entry, bits));
        }
    }
}

/// Dotted notation is a word, and not the word before a MAC address.
proof fn lemma_dotted_word(ip: Ipv4Addr)
    ensures
        ip.dotted().len() > 0,
        none_white(ip.dotted()),
        ip.dotted() != "lladdr"@,
        !ip.dotted().contains(')'),
        parse_dotted(ip.dotted()) == Some(ip),
{
    let s = ip.dotted();
    law_dotted_characters(ip);
    law_address_round_trip(ip);
    reveal_strlit("lladdr");
    assert(is_digit(s[0]) || s[0] == '.');
    if s.contains(')') {
        let k = choose|k: int| 0 <= k < s.len() && s[k] == ')';
        assert(is_digit(s[k]) || s[k] == '.');
    }
    assert forall|i: int| 0 <= i < s.len() implies !white_space(#[trigger] s[i]) by {
        assert(is_digit(s[i]) || s[i] == '.');
    }
}

/// The word behind the first occurrence of a word.
proof fn lemma_word_after(before: Seq<Seq<char>>, key: Seq<char>, behind: Seq<Seq<char>>)
    requires
        forall|i: int| 0 <= i < before.len() ==> #[trigger] before[i] != key,
    ensures
        word_after(before + seq![key] + behind, key) == (if behind.len() > 0 {
            Some(behind[0])
        } else {
            None
        }),
        word_after(before, key) is None,
    decreases before.len(),
{
    let ws = before + seq![key] + behind;
    if before.len() > 0 {
        let less = before.skip(1);
        assert forall|i: int| 0 <= i < less.len() implies #[trigger] less[i] != key by {
            assert(less[i] == before[i + 1]);
        }
        lemma_word_after(less, key, behind);
        assert(ws[0] == before[0]);
        assert(ws.skip(1) =~= less + seq![key] + behind);
    } else {
        assert(ws[0] == key);
        if behind.len() > 0 {
            assert(ws[1] == behind[0]);
        }
    }
}

/// Whether words can be told apart in a line.
pub open spec fn are_words(ws: Seq<Seq<char>>) -> bool {
    forall|i: int| 0 <= i < ws.len() ==> (#[trigger] ws[i]).len() > 0 && none_white(ws[i])
}

/// An `ip neighbor` line is an entry for the address it begins with and the
/// word behind the first `lladdr`, if that word has a colon in it. What stands
/// between and behind them, the state of the neighbor among it, does not
/// matter.
pub proof fn law_neighbor_line(
    ip: Ipv4Addr,
    between: Seq<Seq<char>>,
    mac: Seq<char>,
    behind: Seq<Seq<char>>,
)
    requires
        are_words(between),
        are_words(behind),
        mac.len() > 0,
        none_white(mac),
        forall|i: int| 0 <= i < between.len() ==> #[trigger] between[i] != "lladdr"@,
    ensures
        neighbor_entry(
            join(seq![ip.dotted()] + between + seq!["lladdr"@, mac] + behind, seq![' ']),
        ) == (if mac.contains(':') {
            Some((ip, mac))
        } else {
            None
        }),
{
    let key = "lladdr"@;
    let before = seq![ip.dotted()] + between;
    let ws = seq![ip.dotted()] + between + seq![key, mac] + behind;
    lemma_dotted_word(ip);
    reveal_strlit("lladdr");
    assert(none_white(key));
    assert forall|i: int| 0 <= i < ws.len() implies (#[trigger] ws[i]).len() > 0 && none_white(
        ws[i],
    ) by {
        let n = between.len() as int;
        if 0 < i <= n {
            assert(ws[i] == between[i - 1]);
        } else if i > n + 2 {
            assert(ws[i] == behind[i - n - 3]);
        }
    }
    law_words_undo_join(ws);
    assert forall|i: int| 0 <= i < before.len() implies #[trigger] before[i] != key by {
        if i > 0 {
            assert(before[i] == between[i - 1]);
        }
    }
    lemma_word_after(before, key, seq![mac] + behind);
    assert(ws =~= before + seq![key] + (seq![mac] + behind));
}

/// A line without the word `lladdr` is no entry, nor is one that begins with
/// something else than an address.
pub proof fn law_no_neighbor_line(ws: Seq<Seq<char>>)
    requires
        are_words(ws),
        ws.len() == 0 || parse_dotted(ws[0]) is None || forall|i: int|
            0 <= i < ws.len() ==> #[trigger] ws[i] != "lladdr"@,
    ensures
        neighbor_entry(join(ws, seq![' '])) is None,
{
    law_words_undo_join(ws);
    if forall|i: int| 0 <= i < ws.len() ==> #[trigger] ws[i] != "lladdr"@ {
        lemma_word_after(ws, "lladdr"@, seq![]);
    }
}

/// The address in the first parentheses of a line.
proof fn lemma_arp_address(name: Seq<char>, ip: Ipv4Addr, rest: Seq<char>)
    requires
        !name.contains('('),
    ensures
        arp_address(name + seq!['('] + (ip.dotted() + seq![')'] + rest)) == Some(ip),
{
    lemma_dotted_word(ip);
    lemma_found_behind(name, '(', ip.dotted() + seq![')'] + rest);
    lemma_found_behind(ip.dotted(), ')', rest);
}

/// The first ` at ` behind a name and an address in parentheses.
proof fn lemma_first_at(name: Seq<char>, ip: Ipv4Addr, at: Seq<char>, rest: Seq<char>)
    requires
        at == seq![' ', 'a', 't', ' '],
        find(name, at) is None,
    ensures
        ({
            let head = name + seq!['('] + ip.dotted() + seq![')'];
            split_once(head + at + rest, at) == Some((head, rest))
        }),
{
    let addr = ip.dotted();
    let head = name + seq!['('] + addr + seq![')'];
    let line = head + at + rest;
    let m = name.len() as int;
    let n = head.len() as int;
    law_dotted_characters(ip);
    assert(line.subrange(n, n + 4) =~= at);
    lemma_find_from(name, at, 0);
    assert forall|j: int| 0 <= j < n implies !#[trigger] found_at(line, at, j) by {
        if found_at(line, at, j) {
            let here = line.subrange(j, j + 4);
            assert(line[j] == here[0] && line[j + 1] == here[1] && line[j + 2] == here[2]
                && line[j + 3] == here[3]);
            if j + 4 <= m {
                assert(name.subrange(j, j + 4) =~= at);
                assert(found_at(name, at, j));
            } else if j <= m {
                assert(line[m] == '(');
            } else if j < n - 1 {
                assert(line[j] == addr[j - m - 1]);
            } else {
                assert(line[n - 1] == ')');
            }
        }
    }
    lemma_find_is(line, at, n);
    assert(line.take(n) =~= head);
    assert(line.skip(n + 4) =~= rest);
}

/// An `arp -a` line is an entry for the address in its first parentheses and
/// the word behind the first ` at `, if that word has a colon in it. What
/// stands before and behind them does not matter.
pub proof fn law_arp_line(name: Seq<char>, ip: Ipv4Addr, mac: Seq<char>, tail: Seq<char>)
    requires
        !name.contains('('),
        find(name, " at "@) is None,
        mac.len() > 0,
        none_white(mac),
        tail.len() > 0 ==> white_space(tail[0]),
    ensures
        arp_entry(name + seq!['('] + ip.dotted() + seq![')'] + " at "@ + (mac + tail)) == (
        if mac.contains(':') {
            Some((ip, mac))
        } else {
            None
        }),
{
    let at = " at "@;
    reveal_strlit(" at ");
    assert(at =~= seq![' ', 'a', 't', ' ']);
    let line = name + seq!['('] + ip.dotted() + seq![')'] + at + (mac + tail);
    lemma_arp_address(name, ip, at + (mac + tail));
    assert(line =~= name + seq!['('] + (ip.dotted() + seq![')'] + (at + (mac + tail))));
    lemma_first_at(name, ip, at, mac + tail);
    let none = Seq::<char>::empty();
    assert(none + mac + tail =~= mac + tail);
    law_words(none, mac, tail);
    assert(words(mac + tail)[0] == mac);
    if mac == "(incomplete)"@ {
        reveal_strlit("(incomplete)");
        assert(!mac.contains(':'));
    }
}

/// A line that does not have an address in parentheses, or no ` at `, is no
/// entry.
pub proof fn law_no_arp_line(line: Seq<char>)
    ensures
        !line.contains('(') ==> arp_entry(line) is None,
        find(line, " at "@) is None ==> arp_entry(line) is None,
{
    if !line.contains('(') {
        lemma_not_found(line, '(');
    }
}

/// Whether lines can be told apart in a text.
pub open spec fn are_lines(ls: Seq<Seq<char>>) -> bool {
    forall|i: int|
        0 <= i < ls.len() ==> !(#[trigger] ls[i]).contains('\n') && (ls[i].len() > 0
            ==> ls[i].last() != '\r')
}

/// The table in a text: a line that is an entry, with no entry for the same
/// address behind it, gives that address its MAC.
pub proof fn law_tables_hold_their_lines(
    ls: Seq<Seq<char>>,
    i: int,
    ip: Ipv4Addr,
    mac: Seq<char>,
)
    requires
        are_lines(ls),
        0 <= i < ls.len(),
    ensures
        arp_entry(ls[i]) == Some((ip, mac)) && (forall|j: int|
            i < j < ls.len() ==> !(#[trigger] arp_entry(ls[j]) matches Some((other, _))
                && other.bits == ip.bits)) ==> {
            let m = arp_table(join(ls, seq!['\n']).push('\n'));
            m.contains_key(ip.bits) && m[ip.bits] == normal_mac(mac)
        },
        neighbor_entry(ls[i]) == Some((ip, mac)) && (forall|j: int|
            i < j < ls.len() ==> !(#[trigger] neighbor_entry(ls[j]) matches Some((other, _))
                && other.bits == ip.bits)) ==> {
            let m = neighbor_table(join(ls, seq!['\n']).push('\n'));
            m.contains_key(ip.bits) && m[ip.bits] == normal_mac(mac)
        },
{
    law_lines_undo_join(ls);
    let arp = |l: Seq<char>| arp_entry(l);
    let neighbor = |l: Seq<char>| neighbor_entry(l);
    if arp_entry(ls[i]) == Some((ip, mac)) && (forall|j: int|
        i < j < ls.len() ==> !(#[trigger] arp_entry(ls[j]) matches Some((other, _)) && other.bits
            == ip.bits)) {
        assert forall|j: int| i < j < ls.len() implies !#[trigger] names_address(
            ls[j],
            arp,
            ip.bits,
        ) by {
            assert(arp(ls[j]) == arp_entry(ls[j]));
        }
        law_last_line_counts(ls, arp, i, ip, mac);
    }
    if neighbor_entry(ls[i]) == Some((ip, mac)) && (forall|j: int|
        i < j < ls.len() ==> !(#[trigger] neighbor_entry(ls[j]) matches Some((other, _))
            && other.bits == ip.bits)) {
        assert forall|j: int| i < j < ls.len() implies !#[trigger] names_address(
            ls[j],
            neighbor,
            ip.bits,
        ) by {
            assert(neighbor(ls[j]) == neighbor_entry(ls[j]));
        }
        law_last_line_counts(ls, neighbor, i, ip, mac);
    }
}

/// A table in a text holds no address that none of its lines has an entry
/// for.
pub proof fn law_tables_hold_nothing_else(ls: Seq<Seq<char>>, bits: u32)
    requires
        are_lines(ls),
        ls.len() > 0,
    ensures
        arp_table(join(ls, seq!['\n']).push('\n')).contains_key(bits) ==> exists|i: int|
            0 <= i < ls.len() && (#[trigger] arp_entry(ls[i]) matches Some((ip, _)) && ip.bits
                == bits),
        neighbor_table(join(ls, seq!['\n']).push('\n')).contains_key(bits) ==> exists|i: int|
            0 <= i < ls.len() && (#[trigger] neighbor_entry(ls[i]) matches Some((ip, _)) && ip.bits
                == bits),
{
    law_lines_undo_join(ls);
    let arp = |l: Seq<char>| arp_entry(l);
    let neighbor = |l: Seq<char>| neighbor_entry(l);
    if table_of(ls, arp).contains_key(bits) {
        law_only_named_addresses(ls, arp, bits);
        let i = choose|i: int| 0 <= i < ls.len() && #[trigger] names_address(ls[i], arp, bits);
        assert(arp(ls[i]) == arp_entry(ls[i]));
    }
    if table_of(ls, neighbor).contains_key(bits) {
        law_only_named_addresses(ls, neighbor, bits);
        let i = choose|i: int| 0 <= i < ls.len() && #[trigger] names_address(ls[i], neighbor, bits);
        assert(neighbor(ls[i]) == neighbor_entry(ls[i]));
    }
}

/// The normal form of an ASCII MAC address, octet by octet: small letters,
/// and a zero before an octet of one character.
pub proof fn law_normal_mac(octets: Seq<Seq<char>>)
    requires
        octets.len() > 0,
        forall|i: int|
            0 <= i < octets.len() ==> is_ascii_chars(#[trigger] octets[i]) && !octets[i].contains(
                ':',
            ),
    ensures
        normal_mac(join(octets, seq![':'])) == join(
            Seq::new(
                octets.len(),
                |i: int|
                    if octets[i].len() == 1 {
                        seq!['0'] + lower(octets[i])
                    } else {
                        lower(octets[i])
                    },
            ),
            seq![':'],
        ),
{
    let raw = join(octets, seq![':']);
    let wanted = Seq::new(
        octets.len(),
        |i: int|
            if octets[i].len() == 1 {
                seq!['0'] + lower(octets[i])
            } else {
                lower(octets[i])
            },
    );
    law_split_undoes_join(octets, ':');
    assert(is_ascii_chars(seq![':']));
    lemma_join_ascii(octets, seq![':']);
    lemma_padded_octets(raw);
    let padded = octets.map_values(|o: Seq<char>| pad_octet(o));
    lemma_lower_join(padded, seq![':']);
    assert(lower(seq![':']) =~= seq![':']);
    let small = padded.map_values(|o: Seq<char>| lower(o));
    assert forall|i: int| 0 <= i < octets.len() implies small[i] == wanted[i] by {
        let o = octets[i];
        assert(is_ascii_chars(o));
        if o.len() == 1 {
            assert('\0' <= o[0] <= '\u{7f}');
            assert(lower(seq!['0'] + o) =~= seq!['0'] + lower(o));
        }
    }
    assert(small =~= wanted);
}

/// What `arp -a` shows wins as soon as it shows any address; only where it
/// shows none does `ip neighbor` count.
pub proof fn law_table_choice(arp: Seq<char>, neighbor: Seq<char>, bits: u32)
    ensures
        arp_table(arp).contains_key(bits) ==> best_table(arp, neighbor) == arp_table(arp),
        (forall|k: u32| !#[trigger] arp_table(arp).contains_key(k)) ==> best_table(arp, neighbor)
            == neighbor_table(neighbor),
{
    if arp_table(arp).contains_key(bits) {
        assert(!Map::<u32, Seq<char>>::empty().contains_key(bits));
    }
    if forall|k: u32| !#[trigger] arp_table(arp).contains_key(k) {
        assert(arp_table(arp) =~= Map::<u32, Seq<char>>::empty());
    }
}

} // verus!
