//! Reverse DNS (PTR) messages and resolver discovery.
//!
//! Queries and replies are plain bytes here; sending and receiving them is
//! the caller's part.

use vstd::prelude::*;
use vstd::slice::slice_subrange;
use vstd::utf8::{
    encode_utf8, encode_utf8_decode_utf8, encode_utf8_valid_utf8, is_ascii_chars,
    is_ascii_chars_encode_utf8,
};

use crate::net::{
    address_of, law_address_round_trip, law_dotted_characters, law_octets, parse_dotted, Ipv4Addr,
};
use crate::sort::{distinct, each_once, key_is_identity, lemma_each_once, lemma_each_once_prefix};
use crate::text::{
    all_white, begins_with, chars_of, decimal, decimal_of, is_digit, join, join_strings,
    law_join_undoes_split, law_lines, law_split, law_split_undoes_join, law_trim, lemma_decimal,
    lemma_digits_lack, lemma_split_lacks, lemma_split_len, lemma_trim_end, lines, lines_of, lossy,
    lossy_text, split, split_chars, split_chars_once, split_once, starts_with, string_views, text_of,
    trim, trim_chars, trim_end, views, white_space,
};

verus! {

/// Record type of a pointer record.
pub const QTYPE_PTR: u16 = 12;

// ---------------------------------------------------------------------
// Names
// ---------------------------------------------------------------------

/// Whether a length byte is the first byte of a compression pointer.
pub open spec fn is_pointer(b: u8) -> bool {
    b >= 0xC0
}

/// The offset that a compression pointer at `pos` gives.
pub open spec fn pointer_target(buf: Seq<u8>, pos: int) -> int {
    (buf[pos] - 0xC0) * 256 + buf[pos + 1]
}

/// The labels of the name at `pos`, following at most `budget` length bytes
/// and compression pointers. A name that runs past the end of the buffer is
/// cut off at the last whole label.
pub open spec fn name_labels(buf: Seq<u8>, pos: int, budget: nat) -> Seq<Seq<u8>>
    decreases budget,
{
    if pos < 0 || pos >= buf.len() || budget == 0 || buf[pos] == 0 {
        seq![]
    } else if is_pointer(buf[pos]) {
        if pos + 1 >= buf.len() {
            seq![]
        } else {
            name_labels(buf, pointer_target(buf, pos), (budget - 1) as nat)
        }
    } else if pos + 1 + buf[pos] > buf.len() {
        seq![]
    } else {
        seq![buf.subrange(pos + 1, pos + 1 + buf[pos])] + name_labels(
            buf,
            pos + 1 + buf[pos],
            (budget - 1) as nat,
        )
    }
}

/// The number of steps that are followed through one name. A compression
/// pointer can point back at itself, so there has to be an end.
pub open spec fn name_budget(buf: Seq<u8>) -> nat {
    2 * buf.len() + 16
}

/// The offset just past the name at `pos`, as it appears there: a compression
/// pointer ends it.
pub open spec fn name_end(buf: Seq<u8>, pos: int) -> int
    decreases buf.len() - pos,
{
    if pos < 0 || pos >= buf.len() {
        pos
    } else if buf[pos] == 0 {
        pos + 1
    } else if is_pointer(buf[pos]) {
        if pos + 1 >= buf.len() {
            pos
        } else {
            pos + 2
        }
    } else if pos + 1 + buf[pos] > buf.len() {
        pos
    } else {
        name_end(buf, pos + 1 + buf[pos])
    }
}

pub proof fn lemma_name_end(buf: Seq<u8>, pos: int)
    requires
        0 <= pos,
    ensures
        pos <= name_end(buf, pos),
        pos <= buf.len() ==> name_end(buf, pos) <= buf.len(),
        pos >= buf.len() ==> name_end(buf, pos) == pos,
    decreases buf.len() - pos,
{
    if pos < buf.len() && buf[pos] != 0 && !is_pointer(buf[pos]) && pos + 1 + buf[pos]
        <= buf.len() {
        lemma_name_end(buf, pos + 1 + buf[pos]);
    }
}

/// The contents of a vector of byte vectors.
pub open spec fn byte_views(v: Seq<Vec<u8>>) -> Seq<Seq<u8>> {
    v.map_values(|x: Vec<u8>| x@)
}

/// The labels of a possibly-compressed DNS name starting at `start`, and the
/// offset just past the name as it appears in the enclosing record.
pub fn parse_labels(buf: &[u8], start: usize) -> (r: (Vec<Vec<u8>>, usize))
    ensures
        byte_views(r.0@) == name_labels(buf@, start as int, name_budget(buf@)),
        r.1 == name_end(buf@, start as int),
        start <= r.1,
        start <= buf@.len() ==> r.1 <= buf@.len(),
{
    let n = buf.len();
    let mut pos = start;
    let mut labels: Vec<Vec<u8>> = Vec::new();
    let mut jumped = false;
    let mut end_pos = start;
    let mut budget: u128 = n as u128 * 2 + 16;
    proof {
        lemma_name_end(buf@, start as int);
        assert(byte_views(labels@) + name_labels(buf@, start as int, name_budget(buf@))
            =~= name_labels(buf@, start as int, name_budget(buf@)));
    }
    while pos < n && budget > 0
        invariant_except_break
            n == buf@.len(),
            name_labels(buf@, start as int, name_budget(buf@)) == byte_views(labels@)
                + name_labels(buf@, pos as int, budget as nat),
            !jumped ==> end_pos == pos && name_end(buf@, start as int) == name_end(
                buf@,
                pos as int,
            ) && budget > n - pos,
            jumped ==> end_pos == name_end(buf@, start as int),
        ensures
            name_labels(buf@, start as int, name_budget(buf@)) == byte_views(labels@),
            end_pos == name_end(buf@, start as int),
        decreases budget,
    {
        budget -= 1;
        let len = buf[pos] as usize;
        if len == 0 {
            if !jumped {
                end_pos = pos + 1;
            }
            assert(byte_views(labels@) + seq![] =~= byte_views(labels@));
            break;
        } else if len >= 0xC0 {
            if n - pos <= 1 {
                assert(byte_views(labels@) + seq![] =~= byte_views(labels@));
                break;
            }
            let target = (len - 0xC0) * 256 + buf[pos + 1] as usize;
            if !jumped {
                end_pos = pos + 2;
                jumped = true;
            }
            pos = target;
        } else {
            if len > n - pos - 1 {
                assert(byte_views(labels@) + seq![] =~= byte_views(labels@));
                break;
            }
            let label = slice_subrange(buf, pos + 1, pos + 1 + len);
            let ghost before = byte_views(labels@);
            labels.push(vstd::slice::slice_to_vec(label));
            pos = pos + 1 + len;
            if !jumped {
                end_pos = pos;
            }
            assert(byte_views(labels@) =~= before.push(label@));
            assert(before + (seq![label@] + name_labels(buf@, pos as int, budget as nat))
                =~= before.push(label@) + name_labels(buf@, pos as int, budget as nat));
        }
    }
    (labels, end_pos)
}

/// The text of a name: its labels with dots between them.
pub open spec fn name_text(labels: Seq<Seq<u8>>) -> Seq<char> {
    join(labels.map_values(|l: Seq<u8>| lossy(l)), seq!['.'])
}

/// The name that stands at `pos`.
pub open spec fn name_at(buf: Seq<u8>, pos: int) -> Seq<char> {
    name_text(name_labels(buf, pos, name_budget(buf)))
}

/// Decodes a possibly-compressed DNS name starting at `start`.
///
/// Returns the decoded name and the offset just past the name *as it appears
/// in the enclosing record*: following a compression pointer does not advance
/// that cursor.
pub fn parse_name(buf: &[u8], start: usize) -> (r: (String, usize))
    ensures
        r.0@ == name_at(buf@, start as int),
        r.1 == name_end(buf@, start as int),
        start <= r.1,
        start <= buf@.len() ==> r.1 <= buf@.len(),
{
    let (labels, end_pos) = parse_labels(buf, start);
    let mut texts: Vec<String> = Vec::new();
    for i in 0..labels.len()
        invariant
            string_views(texts@) == byte_views(labels@).take(i as int).map_values(
                |l: Seq<u8>| lossy(l),
            ),
    {
        let ghost before = string_views(texts@);
        let text = lossy_text(labels[i].as_slice());
        texts.push(text);
        assert(string_views(texts@) =~= before.push(text@));
        assert(string_views(texts@) =~= byte_views(labels@).take(i + 1).map_values(
            |l: Seq<u8>| lossy(l),
        ));
    }
    proof {
        assert(byte_views(labels@).take(labels@.len() as int) =~= byte_views(labels@));
        reveal_strlit(".");
        assert("."@ =~= seq!['.']);
    }
    (join_strings(texts.as_slice(), "."), end_pos)
}

/// One label as a length byte and its UTF-8 bytes. Only the low eight bits of
/// the length are kept.
pub open spec fn encode_label(label: Seq<char>) -> Seq<u8> {
    seq![(encode_utf8(label).len() % 256) as u8] + encode_utf8(label)
}

/// Labels one after another.
pub open spec fn encode_labels(labels: Seq<Seq<char>>) -> Seq<u8>
    decreases labels.len(),
{
    if labels.len() == 0 {
        seq![]
    } else {
        encode_label(labels[0]) + encode_labels(labels.skip(1))
    }
}

/// A name as length-prefixed labels, ended by a zero byte.
pub open spec fn encoded(name: Seq<char>) -> Seq<u8> {
    encode_labels(split(name, seq!['.'])).push(0)
}

pub fn encode_name(name: &str) -> (out: Vec<u8>)
    ensures
        out@ == encoded(name@),
{
    let chars = chars_of(name);
    let dot: [char; 1] = ['.'];
    assert(dot@ =~= seq!['.']);
    let labels = split_chars(chars.as_slice(), &dot);
    let ghost all = views(labels@);
    let mut out: Vec<u8> = Vec::new();
    assert(all.skip(0) =~= all);
    assert(out@ + encode_labels(all) =~= encode_labels(all));
    for i in 0..labels.len()
        invariant
            all == views(labels@),
            encode_labels(all) == out@ + encode_labels(all.skip(i as int)),
    {
        let label = text_of(labels[i].as_slice());
        let bytes = label.as_str().as_bytes();
        let ghost before = out@;
        out.push((bytes.len() % 256) as u8);
        out.extend_from_slice(bytes);
        proof {
            let rest = all.skip(i as int);
            assert(rest[0] == labels@[i as int]@);
            assert(rest.skip(1) =~= all.skip(i + 1));
            assert(out@ =~= before + encode_label(rest[0]));
            assert(before + (encode_label(rest[0]) + encode_labels(all.skip(i + 1))) =~= out@
                + encode_labels(all.skip(i + 1)));
        }
    }
    assert(all.skip(labels@.len() as int).len() == 0);
    assert(out@ =~= encode_labels(all));
    out.push(0);
    out
}

// ---------------------------------------------------------------------
// Queries
// ---------------------------------------------------------------------

/// The name that a PTR query asks for: the octets in reverse, below
/// `in-addr.arpa`.
pub open spec fn ptr_name_of(ip: Ipv4Addr) -> Seq<char> {
    let o = ip.octet_seq();
    decimal(o[3]) + "."@ + decimal(o[2]) + "."@ + decimal(o[1]) + "."@ + decimal(o[0])
        + ".in-addr.arpa"@
}

pub fn ptr_name(ip: Ipv4Addr) -> (out: String)
    ensures
        out@ == ptr_name_of(ip),
{
    let o = ip.octets();
    let mut out = decimal_of(o[3] as u64);
    out.append(".");
    out.append(decimal_of(o[2] as u64).as_str());
    out.append(".");
    out.append(decimal_of(o[1] as u64).as_str());
    out.append(".");
    out.append(decimal_of(o[0] as u64).as_str());
    out.append(".in-addr.arpa");
    out
}

/// The bytes of a number, most significant first.
pub open spec fn be_bytes(n: u16) -> Seq<u8> {
    seq![(n / 256) as u8, (n % 256) as u8]
}

/// The header of a query with one question.
pub open spec fn query_header(id: u16, recursion_desired: bool) -> Seq<u8> {
    be_bytes(id) + seq![
        if recursion_desired {
            1u8
        } else {
            0u8
        },
        0u8,
        0u8,
        1u8,
        0u8,
        0u8,
        0u8,
        0u8,
        0u8,
        0u8,
    ]
}

/// The question for the name of an address: the encoded name, type and class.
pub open spec fn ptr_question(ip: Ipv4Addr, qclass: Seq<u8>) -> Seq<u8> {
    encoded(ptr_name_of(ip)) + be_bytes(QTYPE_PTR) + qclass
}

pub fn build_query(ip: Ipv4Addr, id: u16, qclass: [u8; 2], recursion_desired: bool) -> (pkt: Vec<u8>)
    ensures
        pkt@ == query_header(id, recursion_desired) + ptr_question(ip, qclass@),
{
    let mut pkt: Vec<u8> = Vec::new();
    pkt.push((id / 256) as u8);
    pkt.push((id % 256) as u8);
    pkt.push(
        if recursion_desired {
            1
        } else {
            0
        },
    );
    pkt.push(0);
    pkt.push(0); // qdcount
    pkt.push(1);
    pkt.push(0); // ancount
    pkt.push(0);
    pkt.push(0); // nscount
    pkt.push(0);
    pkt.push(0); // arcount
    pkt.push(0);
    assert(pkt@ =~= query_header(id, recursion_desired));
    let name = encode_name(ptr_name(ip).as_str());
    pkt.extend_from_slice(name.as_slice());
    pkt.push((QTYPE_PTR / 256) as u8);
    pkt.push((QTYPE_PTR % 256) as u8);
    pkt.push(qclass[0]);
    pkt.push(qclass[1]);
    assert(pkt@ =~= query_header(id, recursion_desired) + ptr_question(ip, qclass@));
    pkt
}

/// The question section of a query: everything after its header.
pub fn question_of(query: &[u8]) -> (out: Vec<u8>)
    requires
        query@.len() >= 12,
    ensures
        out@ == query@.skip(12),
{
    let part = slice_subrange(query, 12, query.len());
    assert(part@ =~= query@.skip(12));
    vstd::slice::slice_to_vec(part)
}

// ---------------------------------------------------------------------
// Replies
// ---------------------------------------------------------------------

/// The number that two bytes give, most significant first.
pub open spec fn be16(buf: Seq<u8>, i: int) -> nat {
    (buf[i] * 256 + buf[i + 1]) as nat
}

fn read_be16(buf: &[u8], i: usize) -> (n: u16)
    requires
        i + 1 < buf@.len(),
    ensures
        n == be16(buf@, i as int),
{
    let len = buf.len();
    buf[i] as u16 * 256 + buf[i + 1] as u16
}

/// Drops trailing dots.
pub open spec fn without_dots(s: Seq<char>) -> Seq<char>
    decreases s.len(),
{
    if s.len() > 0 && s.last() == '.' {
        without_dots(s.drop_last())
    } else {
        s
    }
}

fn strip_dots(s: &str) -> (out: String)
    ensures
        out@ == without_dots(s@),
{
    let chars = chars_of(s);
    let mut n = chars.len();
    assert(chars@.take(n as int) =~= chars@);
    while n > 0 && chars[n - 1] == '.'
        invariant
            n <= chars@.len(),
            without_dots(chars@) == without_dots(chars@.take(n as int)),
        decreases n,
    {
        assert(chars@.take(n as int).drop_last() =~= chars@.take(n - 1));
        n -= 1;
    }
    let kept = slice_subrange(chars.as_slice(), 0, n);
    assert(kept@ =~= chars@.take(n as int));
    text_of(kept)
}

/// The name in the first of `count` records from `pos` on that is a pointer
/// record with a name. A record that runs past the end ends the search.
pub open spec fn first_ptr(buf: Seq<u8>, pos: int, count: nat) -> Option<Seq<char>>
    decreases count,
{
    let fixed = name_end(buf, pos);
    let data = fixed + 10;
    if count == 0 || data > buf.len() || data + be16(buf, fixed + 8) > buf.len() {
        None
    } else if be16(buf, fixed) == QTYPE_PTR && without_dots(name_at(buf, data)).len() > 0 {
        Some(without_dots(name_at(buf, data)))
    } else {
        first_ptr(buf, data + be16(buf, fixed + 8), (count - 1) as nat)
    }
}

/// The offset behind `n` questions from `pos` on, each a name, a type and a
/// class.
pub open spec fn after_questions(buf: Seq<u8>, pos: int, n: nat) -> int
    decreases n,
{
    if n == 0 {
        pos
    } else {
        after_questions(buf, name_end(buf, pos) + 4, (n - 1) as nat)
    }
}

/// Questions that start past the end of a buffer end there too.
proof fn lemma_after_questions(buf: Seq<u8>, pos: int, n: nat)
    requires
        pos > buf.len(),
    ensures
        after_questions(buf, pos, n) > buf.len(),
    decreases n,
{
    if n > 0 {
        lemma_name_end(buf, pos);
        lemma_after_questions(buf, name_end(buf, pos) + 4, (n - 1) as nat);
    }
}

/// The first PTR target of a response: the records follow the header and as
/// many questions as it counts.
pub open spec fn ptr_answer(buf: Seq<u8>) -> Option<Seq<char>> {
    if buf.len() < 12 {
        None
    } else {
        first_ptr(buf, after_questions(buf, 12, be16(buf, 4)), be16(buf, 6))
    }
}

/// An optional string seen as characters.
pub open spec fn option_view(s: Option<String>) -> Option<Seq<char>> {
    match s {
        Some(v) => Some(v@),
        None => None,
    }
}

/// Extracts the first PTR target from a DNS/mDNS response.
pub fn extract_ptr_answer(buf: &[u8]) -> (r: Option<String>)
    ensures
        option_view(r) == ptr_answer(buf@),
{
    let n = buf.len();
    if n < 12 {
        return None;
    }
    let ancount = read_be16(buf, 6);
    let mut pos: usize = 12;
    let mut questions: u16 = read_be16(buf, 4);
    while questions > 0
        invariant
            n == buf@.len(),
            12 <= pos <= n,
            ancount == be16(buf@, 6),
            after_questions(buf@, 12, be16(buf@, 4)) == after_questions(
                buf@,
                pos as int,
                questions as nat,
            ),
        decreases questions,
    {
        let (_, question_end) = parse_name(buf, pos);
        if n - question_end < 4 {
            proof {
                let start = after_questions(buf@, 12, be16(buf@, 4));
                lemma_after_questions(buf@, question_end + 4, (questions - 1) as nat);
                lemma_name_end(buf@, start);
            }
            return None;
        }
        pos = question_end + 4; // qtype + qclass
        questions -= 1;
    }
    let mut left: u16 = ancount;
    while left > 0
        invariant
            n == buf@.len(),
            pos <= n,
            ptr_answer(buf@) == first_ptr(buf@, pos as int, left as nat),
        decreases left,
    {
        let (_, fixed) = parse_name(buf, pos);
        if n - fixed < 10 {
            return None;
        }
        let rtype = read_be16(buf, fixed);
        let rdlength = read_be16(buf, fixed + 8) as usize;
        let data = fixed + 10;
        if n - data < rdlength {
            return None;
        }
        if rtype == QTYPE_PTR {
            let (name, _) = parse_name(buf, data);
            let name = strip_dots(name.as_str());
            if !name.as_str().is_empty() {
                return Some(name);
            }
        }
        pos = data + rdlength;
        left -= 1;
    }
    None
}

/// Whether a datagram is the reply that a query waits for.
pub open spec fn is_reply(
    packet: Seq<u8>,
    from: Option<Ipv4Addr>,
    expect_from: Option<Ipv4Addr>,
    expect_id: Option<u16>,
    expect_question: Option<Seq<u8>>,
) -> bool {
    &&& packet.len() >= 12
    &&& expect_from is Some ==> from == expect_from
    &&& expect_id matches Some(id) ==> be16(packet, 0) == id
    &&& expect_question matches Some(q) ==> be16(packet, 4) >= 1 && q.is_prefix_of(packet.skip(12))
}

/// Decides whether a datagram answers a query.
///
/// `from` is the IPv4 address it came from, `None` for any other address.
/// `expect_from` pins the accepted source address for unicast queries so a
/// stray or spoofed datagram from elsewhere can't answer for the resolver.
/// mDNS replies legitimately come from the target host, so that path passes
/// `None` and matches on the transaction ID and question instead.
pub fn accepts_reply(
    packet: &[u8],
    from: Option<Ipv4Addr>,
    expect_from: Option<Ipv4Addr>,
    expect_id: Option<u16>,
    expect_question: Option<&[u8]>,
) -> (r: bool)
    ensures
        r == is_reply(
            packet@,
            from,
            expect_from,
            expect_id,
            match expect_question {
                Some(q) => Some(q@),
                None => None,
            },
        ),
{
    if packet.len() < 12 {
        return false;
    }
    if let Some(expected) = expect_from {
        match from {
            Some(source) => {
                if source.bits != expected.bits {
                    return false;
                }
            },
            None => {
                return false;
            },
        }
    }
    if let Some(id) = expect_id {
        if read_be16(packet, 0) != id {
            return false;
        }
    }
    if let Some(question) = expect_question {
        let n = packet.len();
        if read_be16(packet, 4) == 0 {
            return false;
        }
        if question.len() > n - 12 {
            return false;
        }
        for i in 0..question.len()
            invariant
                n == packet@.len(),
                expect_question == Some(question),
                be16(packet@, 4) >= 1,
                question@.len() <= n - 12,
                forall|j: int| 0 <= j < i ==> question@[j] == packet@.skip(12)[j],
        {
            if question[i] != packet[12 + i] {
                assert(question@[i as int] != packet@.skip(12)[i as int]);
                assert(!question@.is_prefix_of(packet@.skip(12)));
                return false;
            }
        }
        assert(question@ =~= packet@.skip(12).take(question@.len() as int));
    }
    true
}

// ---------------------------------------------------------------------
// Transaction IDs
// ---------------------------------------------------------------------

/// `std::time::SystemTimeError`, carried but never looked into.
#[verifier::external_type_specification]
#[verifier::external_body]
pub struct ExSystemTimeError(std::time::SystemTimeError);

/// `RandomState::new` makes randomly seeded hash keys. Nothing is claimed of
/// them.
pub assume_specification[ std::collections::hash_map::RandomState::new ]() -> (state:
    std::collections::hash_map::RandomState)
;

/// `Duration::as_nanos` counts nanoseconds. Nothing is claimed of the count.
pub assume_specification[ std::time::Duration::as_nanos ](d: &std::time::Duration) -> (n: u128)
;

/// `SystemTime::elapsed` on `UNIX_EPOCH`: the time since then, or an error
/// when the clock stands before it. Nothing is claimed of the clock.
#[verifier::external_body]
fn time_since_epoch() -> (r: Result<std::time::Duration, std::time::SystemTimeError>) {
    std::time::UNIX_EPOCH.elapsed()
}

/// `BuildHasher::hash_one`: the hash of a number under randomly seeded keys.
/// Nothing is claimed of it.
#[verifier::external_body]
fn seeded_hash(state: &std::collections::hash_map::RandomState, value: u128) -> (h: u64) {
    std::hash::BuildHasher::hash_one(state, value)
}

/// The transaction ID in a hash: its low sixteen bits.
pub fn id_of_hash(hash: u64) -> (id: u16)
    ensures
        id == hash % 0x1_0000,
{
    (hash % 0x1_0000) as u16
}

/// What is hashed for a transaction ID: the clock's reading in nanoseconds, or
/// zero where the clock stands before the epoch.
pub fn clock_input(nanos: Option<u128>) -> (n: u128)
    ensures
        n == (match nanos {
            Some(x) => x,
            None => 0,
        }),
{
    match nanos {
        Some(x) => x,
        None => 0,
    }
}

/// Unpredictable transaction ID.
///
/// The hash keys are randomly seeded per process, and mixing in the clock
/// keeps successive queries distinct. Which ID comes out is left open: it
/// depends on chance and time alone. `clock_input` says what is hashed, and
/// `id_of_hash` what is taken of the hash.
pub fn transaction_id() -> (id: u16) {
    let nanos = match time_since_epoch() {
        Ok(d) => Some(d.as_nanos()),
        Err(_) => None,
    };
    let state = std::collections::hash_map::RandomState::new();
    id_of_hash(seeded_hash(&state, clock_input(nanos)))
}

// ---------------------------------------------------------------------
// Lookup order
// ---------------------------------------------------------------------

/// What a name lookup does next.
pub enum LookupStep {
    /// Ask this resolver.
    Ask(Ipv4Addr),
    /// Ask the local link over mDNS.
    AskMulticast,
    /// The name is known.
    Found(String),
    /// Everyone has been asked.
    NotFound,
}

/// A lookup step with its name seen as characters.
pub ghost enum LookupView {
    Ask(Ipv4Addr),
    AskMulticast,
    Found(Seq<char>),
    NotFound,
}

impl View for LookupStep {
    type V = LookupView;

    open spec fn view(&self) -> LookupView {
        match self {
            LookupStep::Ask(ip) => LookupView::Ask(*ip),
            LookupStep::AskMulticast => LookupView::AskMulticast,
            LookupStep::Found(name) => LookupView::Found(name@),
            LookupStep::NotFound => LookupView::NotFound,
        }
    }
}

/// The step after `asked` queries, the latest of which brought `last`.
pub open spec fn lookup_step(
    resolvers: Seq<Ipv4Addr>,
    asked: nat,
    last: Option<Seq<char>>,
) -> LookupView {
    match last {
        Some(name) => LookupView::Found(name),
        None => if asked < resolvers.len() {
            LookupView::Ask(resolvers[asked as int])
        } else if asked == resolvers.len() {
            LookupView::AskMulticast
        } else {
            LookupView::NotFound
        },
    }
}

/// Decides the next step of a lookup that tries each unicast resolver in
/// order, then falls back to mDNS. `asked` counts the queries made so far and
/// `last` is what the latest one brought.
pub fn next_lookup(resolvers: &[Ipv4Addr], asked: usize, last: Option<String>) -> (step: LookupStep)
    ensures
        step@ == lookup_step(resolvers@, asked as nat, option_view(last)),
{
    match last {
        Some(name) => LookupStep::Found(name),
        None => {
            if asked < resolvers.len() {
                LookupStep::Ask(resolvers[asked])
            } else if asked == resolvers.len() {
                LookupStep::AskMulticast
            } else {
                LookupStep::NotFound
            }
        },
    }
}

// ---------------------------------------------------------------------
// Resolver discovery
// ---------------------------------------------------------------------

/// The resolver that a line of `resolv.conf` names.
pub open spec fn resolv_conf_entry(line: Seq<char>) -> Option<Ipv4Addr> {
    let l = trim(line);
    if begins_with(l, "nameserver"@) {
        parse_dotted(trim(l.skip("nameserver"@.len() as int)))
    } else {
        None
    }
}

/// The resolver that a `nameserver[N] : ADDR` line names.
pub open spec fn scutil_entry(line: Seq<char>) -> Option<Ipv4Addr> {
    let l = trim(line);
    if begins_with(l, "nameserver["@) {
        match split_once(l, seq![':']) {
            Some((_, addr)) => parse_dotted(trim(addr)),
            None => None,
        }
    } else {
        None
    }
}

/// The addresses that the lines name, in order.
pub open spec fn entries(
    all: Seq<Seq<char>>,
    entry: spec_fn(Seq<char>) -> Option<Ipv4Addr>,
) -> Seq<Ipv4Addr>
    decreases all.len(),
{
    if all.len() == 0 {
        seq![]
    } else {
        match entry(all.last()) {
            Some(a) => entries(all.drop_last(), entry).push(a),
            None => entries(all.drop_last(), entry),
        }
    }
}

/// The resolvers that the contents of `resolv.conf` name.
pub open spec fn resolv_conf_addrs(contents: Seq<char>) -> Seq<Ipv4Addr> {
    entries(lines(contents), |l: Seq<char>| resolv_conf_entry(l))
}

/// The resolvers that the output of `scutil --dns` names.
pub open spec fn scutil_addrs(text: Seq<char>) -> Seq<Ipv4Addr> {
    entries(lines(text), |l: Seq<char>| scutil_entry(l))
}

fn resolv_conf_line(line: &[char]) -> (r: Option<Ipv4Addr>)
    ensures
        r == resolv_conf_entry(line@),
{
    let l = trim_chars(line);
    let key = chars_of("nameserver");
    if starts_with(l, key.as_slice()) {
        let rest = slice_subrange(l, key.len(), l.len());
        assert(rest@ =~= l@.skip("nameserver"@.len() as int));
        address_of(trim_chars(rest))
    } else {
        None
    }
}

fn scutil_line(line: &[char]) -> (r: Option<Ipv4Addr>)
    ensures
        r == scutil_entry(line@),
{
    let l = trim_chars(line);
    let key = chars_of("nameserver[");
    if starts_with(l, key.as_slice()) {
        let colon: [char; 1] = [':'];
        assert(colon@ =~= seq![':']);
        match split_chars_once(l, &colon) {
            Some((_, addr)) => address_of(trim_chars(addr)),
            None => None,
        }
    } else {
        None
    }
}

/// Reads the `nameserver` lines of `resolv.conf`. Comment lines start with
/// `#` or `;` and so name nothing.
pub fn parse_resolv_conf(contents: &str) -> (out: Vec<Ipv4Addr>)
    ensures
        out@ == resolv_conf_addrs(contents@),
{
    let chars = chars_of(contents);
    let all = lines_of(chars.as_slice());
    let ghost entry = |l: Seq<char>| resolv_conf_entry(l);
    let mut out: Vec<Ipv4Addr> = Vec::new();
    for i in 0..all.len()
        invariant
            entry == (|l: Seq<char>| resolv_conf_entry(l)),
            out@ == entries(views(all@).take(i as int), entry),
    {
        assert(views(all@).take(i + 1).drop_last() =~= views(all@).take(i as int));
        if let Some(addr) = resolv_conf_line(all[i].as_slice()) {
            out.push(addr);
        }
    }
    assert(views(all@).take(all@.len() as int) =~= views(all@));
    out
}

/// Parses `nameserver[N] : ADDR` lines out of `scutil --dns` output.
pub fn parse_scutil_dns(text: &str) -> (out: Vec<Ipv4Addr>)
    ensures
        out@ == scutil_addrs(text@),
{
    let chars = chars_of(text);
    let all = lines_of(chars.as_slice());
    let ghost entry = |l: Seq<char>| scutil_entry(l);
    let mut out: Vec<Ipv4Addr> = Vec::new();
    for i in 0..all.len()
        invariant
            entry == (|l: Seq<char>| scutil_entry(l)),
            out@ == entries(views(all@).take(i as int), entry),
    {
        assert(views(all@).take(i + 1).drop_last() =~= views(all@).take(i as int));
        if let Some(addr) = scutil_line(all[i].as_slice()) {
            out.push(addr);
        }
    }
    assert(views(all@).take(all@.len() as int) =~= views(all@));
    out
}

/// What both resolver sources name, the platform's own first. A source that
/// could not be read names nothing.
pub open spec fn named_resolvers(
    scutil: Option<Seq<u8>>,
    resolv_conf: Option<Seq<char>>,
) -> Seq<Ipv4Addr> {
    (match scutil {
        Some(bytes) => scutil_addrs(lossy(bytes)),
        None => seq![],
    }) + (match resolv_conf {
        Some(contents) => resolv_conf_addrs(contents),
        None => seq![],
    })
}

/// System resolvers, preferring the platform-native source: what the output of
/// `scutil --dns` names comes first, then what the contents of
/// `/etc/resolv.conf` name, each address once.
///
/// On macOS `/etc/resolv.conf` is generated by configd and is frequently
/// stale or absent, so `scutil --dns` is consulted first there. On Linux
/// `/etc/resolv.conf` is authoritative.
pub fn system_resolvers(scutil: Option<&[u8]>, resolv_conf: Option<&str>) -> (out: Vec<Ipv4Addr>)
    ensures
        out@ == each_once(
            named_resolvers(
                match scutil {
                    Some(b) => Some(b@),
                    None => None,
                },
                match resolv_conf {
                    Some(c) => Some(c@),
                    None => None,
                },
            ),
        ),
{
    let mut found: Vec<Ipv4Addr> = match scutil {
        Some(bytes) => parse_scutil_dns(lossy_text(bytes).as_str()),
        None => Vec::new(),
    };
    let mut more: Vec<Ipv4Addr> = match resolv_conf {
        Some(contents) => parse_resolv_conf(contents),
        None => Vec::new(),
    };
    found.append(&mut more);
    assert(key_is_identity::<Ipv4Addr>());
    distinct(found.as_slice())
}

// ---------------------------------------------------------------------
// Laws
// ---------------------------------------------------------------------

/// Whether a label can be told from a compression pointer and from the end of
/// a name.
pub open spec fn label_fits(label: Seq<char>) -> bool {
    1 <= encode_utf8(label).len() < 0xC0
}

/// Whether every label fits.
pub open spec fn labels_fit(labels: Seq<Seq<char>>) -> bool {
    forall|i: int| 0 <= i < labels.len() ==> label_fits(#[trigger] labels[i])
}

/// Whether every label of a name fits.
pub open spec fn name_fits(name: Seq<char>) -> bool {
    labels_fit(split(name, seq!['.']))
}

/// The labels in UTF-8.
pub open spec fn label_bytes(labels: Seq<Seq<char>>) -> Seq<Seq<u8>> {
    labels.map_values(|l: Seq<char>| encode_utf8(l))
}

/// Whether `part` stands in `buf` at `pos`.
pub open spec fn holds(buf: Seq<u8>, pos: int, part: Seq<u8>) -> bool {
    0 <= pos && pos + part.len() <= buf.len() && buf.subrange(pos, pos + part.len()) == part
}

/// A part of a part stands where it stands.
proof fn lemma_holds_part(buf: Seq<u8>, pos: int, a: Seq<u8>, b: Seq<u8>, c: Seq<u8>)
    requires
        holds(buf, pos, a + b + c),
    ensures
        holds(buf, pos + a.len(), b),
{
    let whole = buf.subrange(pos, pos + a.len() + b.len() + c.len());
    assert((a + b + c).len() == a.len() + b.len() + c.len());
    assert(buf.subrange(pos + a.len(), pos + a.len() + b.len()) =~= b) by {
        assert forall|i: int| 0 <= i < b.len() implies buf[pos + a.len() + i] == b[i] by {
            assert(whole[a.len() + i] == (a + b + c)[a.len() + i]);
        }
    }
}

/// Every label takes up at least one byte.
proof fn lemma_encoded_len(labels: Seq<Seq<char>>)
    ensures
        encode_labels(labels).len() >= labels.len(),
    decreases labels.len(),
{
    if labels.len() > 0 {
        lemma_encoded_len(labels.skip(1));
    }
}

/// Labels that stand in a buffer, followed by anything, are read from there,
/// and reading goes on behind them.
proof fn lemma_read_labels(buf: Seq<u8>, pos: int, labels: Seq<Seq<char>>, budget: nat)
    requires
        labels_fit(labels),
        holds(buf, pos, encode_labels(labels)),
        pos + encode_labels(labels).len() < buf.len(),
        budget >= labels.len(),
    ensures
        name_labels(buf, pos, budget) == label_bytes(labels) + name_labels(
            buf,
            (pos + encode_labels(labels).len()) as int,
            (budget - labels.len()) as nat,
        ),
        name_end(buf, pos) == name_end(buf, (pos + encode_labels(labels).len()) as int),
    decreases labels.len(),
{
    let e = encode_labels(labels);
    if labels.len() == 0 {
        assert(label_bytes(labels) + name_labels(buf, pos, budget) =~= name_labels(
            buf,
            pos,
            budget,
        ));
    } else {
        let first = encode_utf8(labels[0]);
        let rest = labels.skip(1);
        let tail = encode_labels(rest);
        assert(label_fits(labels[0]));
        assert forall|i: int| 0 <= i < rest.len() implies label_fits(#[trigger] rest[i]) by {
            assert(rest[i] == labels[i + 1]);
        }
        let n = first.len() as int;
        assert(buf[pos] == n) by {
            assert(buf.subrange(pos, pos + e.len())[0] == e[0]);
        }
        assert(e =~= seq![n as u8] + first + tail);
        lemma_holds_part(buf, pos, seq![n as u8], first, tail);
        assert(e =~= (seq![n as u8] + first) + tail + Seq::<u8>::empty());
        lemma_holds_part(buf, pos, seq![n as u8] + first, tail, Seq::empty());
        let next = pos + 1 + n;
        lemma_read_labels(buf, next, rest, (budget - 1) as nat);
        let after = name_labels(
            buf,
            (pos + e.len()) as int,
            (budget - labels.len()) as nat,
        );
        assert(label_bytes(labels) =~= seq![first] + label_bytes(rest));
        assert(seq![first] + (label_bytes(rest) + after) =~= label_bytes(labels) + after);
    }
}

/// The text of labels in UTF-8 is the labels with dots between them.
proof fn lemma_label_text(labels: Seq<Seq<char>>)
    ensures
        name_text(label_bytes(labels)) == join(labels, seq!['.']),
{
    broadcast use {encode_utf8_valid_utf8, encode_utf8_decode_utf8};

    let texts = label_bytes(labels).map_values(|l: Seq<u8>| lossy(l));
    assert forall|i: int| 0 <= i < labels.len() implies texts[i] == labels[i] by {
        assert(label_bytes(labels)[i] == encode_utf8(labels[i]));
    }
    assert(texts =~= labels);
}

/// A name that stands in a buffer is read from there, and its end is found.
proof fn lemma_read_name(buf: Seq<u8>, pos: int, name: Seq<char>)
    requires
        name_fits(name),
        holds(buf, pos, encoded(name)),
    ensures
        name_at(buf, pos) == name,
        name_end(buf, pos) == pos + encoded(name).len(),
{
    let labels = split(name, seq!['.']);
    let e = encode_labels(labels);
    lemma_encoded_len(labels);
    assert(encoded(name) =~= Seq::<u8>::empty() + e + seq![0u8]);
    lemma_holds_part(buf, pos, Seq::empty(), e, seq![0u8]);
    assert(encoded(name) =~= e + seq![0u8] + Seq::<u8>::empty());
    lemma_holds_part(buf, pos, e, seq![0u8], Seq::empty());
    let end = (pos + e.len()) as int;
    assert(buf[end] == 0) by {
        assert(buf.subrange(end, end + 1)[0] == 0);
    }
    lemma_read_labels(buf, pos, labels, name_budget(buf));
    assert(label_bytes(labels) + Seq::<Seq<u8>>::empty() =~= label_bytes(labels));
    lemma_label_text(labels);
    law_join_undoes_split(name, seq!['.']);
}

/// Decoding undoes encoding: a name that was encoded into a message, with
/// anything before and behind it, is read back from there, and the offset
/// just past it is found. Every label has to fit, which every label that DNS
/// allows does.
pub proof fn law_name_round_trip(before: Seq<u8>, name: Seq<char>, after: Seq<u8>)
    requires
        name_fits(name),
    ensures
        name_at(before + encoded(name) + after, before.len() as int) == name,
        name_end(before + encoded(name) + after, before.len() as int) == before.len() + encoded(
            name,
        ).len(),
{
    let buf = before + encoded(name) + after;
    assert(buf.subrange(0, buf.len() as int) =~= buf);
    lemma_holds_part(buf, 0, before, encoded(name), after);
    lemma_read_name(buf, before.len() as int, name);
}

/// A compression pointer carries a name on elsewhere: the labels before it
/// come first, then those of the name it points at. It ends the name in the
/// enclosing record.
pub proof fn law_compression(buf: Seq<u8>, pos: int, labels: Seq<Seq<char>>)
    requires
        labels_fit(labels),
        holds(buf, pos, encode_labels(labels)),
        pos + encode_labels(labels).len() + 2 <= buf.len(),
        is_pointer(buf[(pos + encode_labels(labels).len()) as int]),
    ensures
        ({
            let at = (pos + encode_labels(labels).len()) as int;
            &&& name_labels(buf, pos, name_budget(buf)) == label_bytes(labels) + name_labels(
                buf,
                pointer_target(buf, at),
                (name_budget(buf) - labels.len() - 1) as nat,
            )
            &&& name_end(buf, pos) == at + 2
        }),
{
    lemma_encoded_len(labels);
    lemma_read_labels(buf, pos, labels, name_budget(buf));
}

/// Whatever its compression pointers do, a name has a bounded number of
/// labels.
pub proof fn law_names_are_bounded(buf: Seq<u8>, pos: int, budget: nat)
    ensures
        name_labels(buf, pos, budget).len() <= budget,
    decreases budget,
{
    if 0 <= pos < buf.len() && budget > 0 && buf[pos] != 0 {
        if is_pointer(buf[pos]) {
            if pos + 1 < buf.len() {
                law_names_are_bounded(buf, pointer_target(buf, pos), (budget - 1) as nat);
            }
        } else if pos + 1 + buf[pos] <= buf.len() {
            law_names_are_bounded(buf, pos + 1 + buf[pos], (budget - 1) as nat);
        }
    }
}

/// A name whose labels fit does not end in a dot.
proof fn lemma_no_trailing_dot(name: Seq<char>)
    requires
        name_fits(name),
    ensures
        without_dots(name) == name,
        name.len() > 0,
{
    let labels = split(name, seq!['.']);
    lemma_split_len(name, seq!['.']);
    lemma_split_lacks(name, '.');
    law_join_undoes_split(name, seq!['.']);
    let last = labels[labels.len() - 1];
    assert(label_fits(last));
    assert(last.len() > 0) by {
        if last.len() == 0 {
            assert(encode_utf8(last).len() == 0);
        }
    }
    assert(name.last() == last.last());
    assert(last.contains(last.last()));
}

/// A pointer record: the name it is about, its type, class, lifetime and
/// length, and the name it points at.
pub open spec fn ptr_record(owner: Seq<u8>, class: Seq<u8>, ttl: Seq<u8>, target: Seq<char>) -> Seq<
    u8,
> {
    owner + be_bytes(QTYPE_PTR) + class + ttl + be_bytes(encoded(target).len() as u16) + encoded(
        target,
    )
}

/// Whether bytes are a whole name: a compression pointer, or labels.
pub open spec fn is_owner(owner: Seq<u8>) -> bool {
    ||| owner.len() == 2 && is_pointer(owner[0])
    ||| exists|name: Seq<char>| name_fits(name) && owner == #[trigger] encoded(name)
}

/// The end of a whole name.
proof fn lemma_owner_end(buf: Seq<u8>, pos: int, owner: Seq<u8>)
    requires
        is_owner(owner),
        holds(buf, pos, owner),
    ensures
        name_end(buf, pos) == pos + owner.len(),
{
    if owner.len() == 2 && is_pointer(owner[0]) {
        assert(buf.subrange(pos, pos + 2)[0] == owner[0]);
    } else {
        let name = choose|name: Seq<char>| name_fits(name) && owner == #[trigger] encoded(name);
        lemma_read_name(buf, pos, name);
    }
}

/// A number is read from where its bytes stand.
proof fn lemma_read_number(buf: Seq<u8>, pos: int, n: u16)
    requires
        holds(buf, pos, be_bytes(n)),
    ensures
        be16(buf, pos) == n,
{
    assert(buf.subrange(pos, pos + 2)[0] == be_bytes(n)[0]);
    assert(buf.subrange(pos, pos + 2)[1] == be_bytes(n)[1]);
}

/// The target of a pointer record is found where the record stands.
proof fn lemma_first_ptr(
    buf: Seq<u8>,
    pos: int,
    count: nat,
    owner: Seq<u8>,
    class: Seq<u8>,
    ttl: Seq<u8>,
    target: Seq<char>,
)
    requires
        holds(buf, pos, ptr_record(owner, class, ttl, target)),
        count >= 1,
        is_owner(owner),
        class.len() == 2,
        ttl.len() == 4,
        name_fits(target),
        encoded(target).len() <= u16::MAX,
    ensures
        first_ptr(buf, pos, count) == Some(target),
{
    let t = encoded(target);
    let n = be_bytes(t.len() as u16);
    let kind = be_bytes(QTYPE_PTR);
    let record = ptr_record(owner, class, ttl, target);
    let none = Seq::<u8>::empty();
    assert(record =~= none + owner + (kind + class + ttl + n + t));
    lemma_holds_part(buf, pos, none, owner, kind + class + ttl + n + t);
    lemma_owner_end(buf, pos, owner);
    assert(record =~= owner + kind + (class + ttl + n + t));
    lemma_holds_part(buf, pos, owner, kind, class + ttl + n + t);
    lemma_read_number(buf, pos + owner.len(), QTYPE_PTR);
    lemma_holds_part(buf, pos, owner + kind + class + ttl, n, t);
    lemma_read_number(buf, pos + owner.len() + 8, t.len() as u16);
    assert(record =~= (owner + kind + class + ttl + n) + t + none);
    lemma_holds_part(buf, pos, owner + kind + class + ttl + n, t, none);
    lemma_read_name(buf, pos + owner.len() + 10, target);
    lemma_no_trailing_dot(target);
}

/// Questions one after another: each a name with its type and class.
pub open spec fn question_section(questions: Seq<(Seq<char>, Seq<u8>)>) -> Seq<u8>
    decreases questions.len(),
{
    if questions.len() == 0 {
        seq![]
    } else {
        encoded(questions[0].0) + questions[0].1 + question_section(questions.skip(1))
    }
}

/// Whether the names of questions can be encoded, and their types and classes
/// have four bytes.
pub open spec fn questions_fit(questions: Seq<(Seq<char>, Seq<u8>)>) -> bool {
    forall|i: int|
        0 <= i < questions.len() ==> name_fits((#[trigger] questions[i]).0) && questions[i].1.len()
            == 4
}

/// Questions that stand in a buffer are skipped as a whole.
proof fn lemma_skip_questions(buf: Seq<u8>, pos: int, questions: Seq<(Seq<char>, Seq<u8>)>)
    requires
        questions_fit(questions),
        holds(buf, pos, question_section(questions)),
    ensures
        after_questions(buf, pos, questions.len()) == pos + question_section(questions).len(),
    decreases questions.len(),
{
    if questions.len() > 0 {
        let name = encoded(questions[0].0);
        let kind = questions[0].1;
        let rest = questions.skip(1);
        let tail = question_section(rest);
        let none = Seq::<u8>::empty();
        assert(name_fits(questions[0].0) && kind.len() == 4);
        assert forall|i: int| 0 <= i < rest.len() implies name_fits((#[trigger] rest[i]).0)
            && rest[i].1.len() == 4 by {
            assert(rest[i] == questions[i + 1]);
        }
        assert(question_section(questions) =~= none + name + (kind + tail));
        lemma_holds_part(buf, pos, none, name, kind + tail);
        lemma_read_name(buf, pos, questions[0].0);
        assert(question_section(questions) =~= (name + kind) + tail + none);
        lemma_holds_part(buf, pos, name + kind, tail, none);
        lemma_skip_questions(buf, pos + name.len() + 4, rest);
    }
}

/// The answer in a response is found: where the first record behind the
/// header and its questions, of which there may be any number, is a pointer
/// record, its target comes out, whether or not the record repeats a
/// question's name by a compression pointer.
pub proof fn law_answer_is_found(
    header: Seq<u8>,
    questions: Seq<(Seq<char>, Seq<u8>)>,
    owner: Seq<u8>,
    class: Seq<u8>,
    ttl: Seq<u8>,
    target: Seq<char>,
    rest: Seq<u8>,
)
    requires
        header.len() == 12,
        be16(header, 4) == questions.len(),
        be16(header, 6) >= 1,
        questions_fit(questions),
        is_owner(owner),
        class.len() == 2,
        ttl.len() == 4,
        name_fits(target),
        encoded(target).len() <= u16::MAX,
    ensures
        ptr_answer(
            header + question_section(questions) + ptr_record(owner, class, ttl, target) + rest,
        ) == Some(target),
{
    let record = ptr_record(owner, class, ttl, target);
    let section = question_section(questions);
    let buf = header + section + record + rest;
    assert(buf.subrange(0, buf.len() as int) =~= buf);
    assert(be16(buf, 4) == be16(header, 4));
    assert(be16(buf, 6) == be16(header, 6));
    assert(buf =~= header + section + (record + rest));
    lemma_holds_part(buf, 0, header, section, record + rest);
    lemma_skip_questions(buf, 12, questions);
    lemma_holds_part(buf, 0, header + section, record, rest);
    lemma_first_ptr(buf, 12 + section.len() as int, be16(header, 6), owner, class, ttl, target);
}

/// Whether a text is made of one to seven ASCII characters, none of them a
/// dot.
spec fn short_label(s: Seq<char>) -> bool {
    1 <= s.len() <= 7 && is_ascii_chars(s) && !s.contains('.')
}

/// An octet in decimal notation makes a label.
proof fn lemma_octet_label(o: nat)
    requires
        o < 256,
    ensures
        short_label(decimal(o)),
{
    lemma_decimal(o);
    lemma_digits_lack(decimal(o), '.');
    assert forall|i: int| 0 <= i < decimal(o).len() implies '\0' <= #[trigger] decimal(o)[i]
        <= '\u{7f}' by {
        assert(is_digit(decimal(o)[i]));
    }
}

/// The labels of the name that a PTR query asks for.
proof fn lemma_ptr_labels(ip: Ipv4Addr)
    ensures
        split(ptr_name_of(ip), seq!['.']) == seq![
            decimal(ip.octet_seq()[3]),
            decimal(ip.octet_seq()[2]),
            decimal(ip.octet_seq()[1]),
            decimal(ip.octet_seq()[0]),
            seq!['i', 'n', '-', 'a', 'd', 'd', 'r'],
            seq!['a', 'r', 'p', 'a'],
        ],
        forall|i: int|
            0 <= i < 6 ==> short_label(#[trigger] split(ptr_name_of(ip), seq!['.'])[i]),
{
    let o = ip.octet_seq();
    let zone = seq!['i', 'n', '-', 'a', 'd', 'd', 'r'];
    let top = seq!['a', 'r', 'p', 'a'];
    let dot = seq!['.'];
    let parts = seq![decimal(o[3]), decimal(o[2]), decimal(o[1]), decimal(o[0]), zone, top];
    assert(join(parts, dot) == ptr_name_of(ip)) by {
        reveal_strlit(".");
        reveal_strlit(".in-addr.arpa");
        assert("."@ =~= dot);
        assert(".in-addr.arpa"@ =~= dot + zone + dot + top);
        reveal_with_fuel(join, 6);
        assert(parts.drop_last() =~= parts.take(5));
        assert(parts.take(5).drop_last() =~= parts.take(4));
        assert(parts.take(4).drop_last() =~= parts.take(3));
        assert(parts.take(3).drop_last() =~= parts.take(2));
        assert(parts.take(2).drop_last() =~= parts.take(1));
        assert(join(parts, dot) =~= ptr_name_of(ip));
    }
    lemma_octet_label(o[3]);
    lemma_octet_label(o[2]);
    lemma_octet_label(o[1]);
    lemma_octet_label(o[0]);
    assert(short_label(zone) && short_label(top));
    assert forall|i: int| 0 <= i < parts.len() implies !(#[trigger] parts[i]).contains('.') by {
        assert(short_label(parts[i]));
    }
    law_split_undoes_join(parts, '.');
}

/// The name that a PTR query asks for can be encoded.
proof fn lemma_ptr_name_fits(ip: Ipv4Addr)
    ensures
        name_fits(ptr_name_of(ip)),
{
    let parts = split(ptr_name_of(ip), seq!['.']);
    lemma_ptr_labels(ip);
    assert forall|i: int| 0 <= i < parts.len() implies label_fits(#[trigger] parts[i]) by {
        assert(short_label(parts[i]));
        is_ascii_chars_encode_utf8(parts[i]);
    }
}

/// A query carries its transaction ID, one question and no records, and the
/// question is about the reverse name of the address. Of its flags only the
/// one that asks for recursion can be set, and it is set exactly where
/// recursion is desired: the message is a plain query, not a response.
pub proof fn law_query(ip: Ipv4Addr, id: u16, qclass: Seq<u8>, recursion_desired: bool)
    ensures
        ({
            let query = query_header(id, recursion_desired) + ptr_question(ip, qclass);
            &&& be16(query, 0) == id
            &&& query[2] == (if recursion_desired {
                1u8
            } else {
                0u8
            })
            &&& query[3] == 0
            &&& be16(query, 4) == 1
            &&& be16(query, 6) == 0
            &&& be16(query, 8) == 0
            &&& be16(query, 10) == 0
            &&& query.skip(12) == ptr_question(ip, qclass)
            &&& query.skip(12) == encoded(ptr_name_of(ip)) + seq![0u8, 12u8] + qclass
            &&& name_at(query, 12) == ptr_name_of(ip)
        }),
{
    let header = query_header(id, recursion_desired);
    let query = header + ptr_question(ip, qclass);
    assert(query.skip(12) =~= ptr_question(ip, qclass));
    assert(be_bytes(QTYPE_PTR) =~= seq![0u8, 12u8]);
    lemma_ptr_name_fits(ip);
    let tail = be_bytes(QTYPE_PTR) + qclass;
    law_name_round_trip(header, ptr_name_of(ip), tail);
    assert(query =~= header + encoded(ptr_name_of(ip)) + tail);
}

/// A datagram that is accepted as the reply to a query came from the resolver
/// that was asked, if it was one alone, carries the query's transaction ID,
/// has a question, and is about the address that was asked for.
pub proof fn law_replies_match_queries(
    ip: Ipv4Addr,
    id: u16,
    qclass: Seq<u8>,
    asked: Option<Ipv4Addr>,
    from: Option<Ipv4Addr>,
    packet: Seq<u8>,
)
    requires
        is_reply(packet, from, asked, Some(id), Some(ptr_question(ip, qclass))),
    ensures
        asked is Some ==> from == asked,
        be16(packet, 0) == id,
        be16(packet, 4) >= 1,
        name_at(packet, 12) == ptr_name_of(ip),
{
    let name = encoded(ptr_name_of(ip));
    let question = ptr_question(ip, qclass);
    lemma_ptr_name_fits(ip);
    assert(packet.subrange(12, 12 + question.len() as int) =~= question) by {
        assert(packet.skip(12).take(question.len() as int) =~= question);
        assert forall|i: int| 0 <= i < question.len() implies packet[12 + i] == question[i] by {
            assert(packet.skip(12).take(question.len() as int)[i] == question[i]);
        }
    }
    let none = Seq::<u8>::empty();
    assert(question =~= none + name + (be_bytes(QTYPE_PTR) + qclass));
    lemma_holds_part(packet, 12, none, name, be_bytes(QTYPE_PTR) + qclass);
    lemma_read_name(packet, 12, ptr_name_of(ip));
}

/// What a lookup comes to that goes by `lookup_step`, where `answers[k]` is
/// what the query number `k` brings.
pub open spec fn lookup_from(
    resolvers: Seq<Ipv4Addr>,
    answers: Seq<Option<Seq<char>>>,
    asked: nat,
    last: Option<Seq<char>>,
) -> Option<Seq<char>>
    decreases resolvers.len() + 1 - asked,
{
    match lookup_step(resolvers, asked, last) {
        LookupView::Found(name) => Some(name),
        LookupView::NotFound => None,
        _ => lookup_from(resolvers, answers, asked + 1, answers[asked as int]),
    }
}

/// The first answer wins: the resolvers are asked in order and the local link
/// last, nobody is asked once a name is known, and there is no name only
/// where nobody had one.
pub proof fn law_first_answer_wins(
    resolvers: Seq<Ipv4Addr>,
    answers: Seq<Option<Seq<char>>>,
    asked: nat,
)
    requires
        answers.len() == resolvers.len() + 1,
        asked <= answers.len(),
    ensures
        match lookup_from(resolvers, answers, asked, None) {
            Some(name) => exists|k: int|
                asked <= k < answers.len() && #[trigger] answers[k] == Some(name) && (forall|j: int|
                    asked <= j < k ==> #[trigger] answers[j] is None),
            None => forall|k: int| asked <= k < answers.len() ==> #[trigger] answers[k] is None,
        },
    decreases answers.len() - asked,
{
    if asked < answers.len() {
        match answers[asked as int] {
            Some(name) => {
                assert(lookup_from(resolvers, answers, asked + 1, Some(name)) == Some(name));
            },
            None => {
                law_first_answer_wins(resolvers, answers, asked + 1);
            },
        }
    }
}

/// The platform's own source is preferred: what it names comes first, in its
/// order. No resolver is left out, and none comes twice.
pub proof fn law_system_resolvers(scutil: Option<Seq<u8>>, resolv_conf: Option<Seq<char>>)
    ensures
        ({
            let all = each_once(named_resolvers(scutil, resolv_conf));
            &&& each_once(named_resolvers(scutil, None)).is_prefix_of(all)
            &&& all.no_duplicates()
            &&& forall|ip: Ipv4Addr| #[trigger]
                all.contains(ip) <==> named_resolvers(scutil, resolv_conf).contains(ip)
        }),
{
    let first = named_resolvers(scutil, None);
    let rest = match resolv_conf {
        Some(contents) => resolv_conf_addrs(contents),
        None => seq![],
    };
    lemma_each_once(named_resolvers(scutil, resolv_conf));
    lemma_each_once_prefix(first, rest);
    assert(named_resolvers(scutil, resolv_conf) =~= first + rest);
}

/// How a name is encoded: label by label, each with its length before it, and
/// a zero at the end.
pub proof fn law_encoding(label: Seq<char>, rest: Seq<char>)
    requires
        !label.contains('.'),
        encode_utf8(label).len() < 256,
    ensures
        encoded(label) == seq![encode_utf8(label).len() as u8] + encode_utf8(label) + seq![0u8],
        encoded(label + seq!['.'] + rest) == seq![encode_utf8(label).len() as u8] + encode_utf8(
            label,
        ) + encoded(rest),
{
    let none = Seq::<Seq<char>>::empty();
    law_split(label, '.', rest);
    assert(seq![label].skip(1) =~= none);
    assert(encode_labels(none) =~= seq![]);
    assert(encoded(label) =~= seq![encode_utf8(label).len() as u8] + encode_utf8(label)
        + seq![0u8]);
    let parts = split(rest, seq!['.']);
    assert((seq![label] + parts).skip(1) =~= parts);
    assert((seq![label] + parts)[0] == label);
    assert(encoded(label + seq!['.'] + rest) =~= seq![encode_utf8(label).len() as u8]
        + encode_utf8(label) + encoded(rest));
}

/// The reverse name of an address has its four octets in decimal, the least
/// significant first, then `in-addr` and `arpa`.
pub proof fn law_ptr_name(a: u8, b: u8, c: u8, d: u8)
    ensures
        ({
            let ip = Ipv4Addr { bits: (a * 0x100_0000 + b * 0x1_0000 + c * 256 + d) as u32 };
            split(ptr_name_of(ip), seq!['.']) == seq![
                decimal(d as nat),
                decimal(c as nat),
                decimal(b as nat),
                decimal(a as nat),
                seq!['i', 'n', '-', 'a', 'd', 'd', 'r'],
                seq!['a', 'r', 'p', 'a'],
            ]
        }),
{
    let ip = Ipv4Addr { bits: (a * 0x100_0000 + b * 0x1_0000 + c * 256 + d) as u32 };
    lemma_ptr_labels(ip);
    law_octets(a, b, c, d);
}

/// A name that breaks off, because the message ends or a label would run past
/// its end, has the labels before that, and ends there.
pub proof fn law_broken_name(buf: Seq<u8>, pos: int, labels: Seq<Seq<char>>)
    requires
        labels_fit(labels),
        holds(buf, pos, encode_labels(labels)),
        ({
            let at = (pos + encode_labels(labels).len()) as int;
            at < buf.len() && 0 < buf[at] < 0xC0 && at + 1 + buf[at] > buf.len()
        }),
    ensures
        name_labels(buf, pos, name_budget(buf)) == label_bytes(labels),
        name_end(buf, pos) == pos + encode_labels(labels).len(),
{
    lemma_encoded_len(labels);
    lemma_read_labels(buf, pos, labels, name_budget(buf));
    assert(label_bytes(labels) + Seq::<Seq<u8>>::empty() =~= label_bytes(labels));
}

/// Going round a loop takes two steps and gives one label.
proof fn lemma_loop_labels(buf: Seq<u8>, label: Seq<char>, budget: nat)
    requires
        label_fits(label),
        buf == encode_label(label) + seq![0xC0u8, 0u8],
    ensures
        name_labels(buf, 0, budget).len() == (budget + 1) / 2,
    decreases budget,
{
    let bytes = encode_utf8(label);
    let n = bytes.len() as int;
    assert(buf[0] == n);
    assert(buf.len() == n + 3);
    if budget > 0 {
        assert(name_labels(buf, 0, budget) == seq![buf.subrange(1, 1 + n)] + name_labels(
            buf,
            1 + n,
            (budget - 1) as nat,
        ));
        assert(buf[1 + n] == 0xC0 && buf[2 + n] == 0);
        if budget > 1 {
            assert(pointer_target(buf, 1 + n) == 0);
            lemma_loop_labels(buf, label, (budget - 2) as nat);
        }
    }
}

/// A name that points back at itself is followed for a number of steps that
/// the size of the message sets, and then given up: its one label comes out
/// as many times as the message has bytes, and eight times more.
pub proof fn law_pointer_loop(label: Seq<char>)
    requires
        label_fits(label),
    ensures
        ({
            let buf = encode_label(label) + seq![0xC0u8, 0u8];
            &&& name_labels(buf, 0, name_budget(buf)).len() == buf.len() + 8
            &&& name_end(buf, 0) == buf.len()
        }),
{
    let buf = encode_label(label) + seq![0xC0u8, 0u8];
    let n = encode_utf8(label).len() as int;
    lemma_loop_labels(buf, label, name_budget(buf));
    assert(buf[0] == n);
    assert(buf[1 + n] == 0xC0);
    assert(name_end(buf, 1 + n) == 3 + n);
}

/// A record of a message.
pub ghost struct Record {
    pub owner: Seq<u8>,
    pub kind: Seq<u8>,
    pub class: Seq<u8>,
    pub ttl: Seq<u8>,
    pub data: Seq<u8>,
}

/// A record as it stands in a message.
pub open spec fn record_bytes(r: Record) -> Seq<u8> {
    r.owner + r.kind + r.class + r.ttl + be_bytes(r.data.len() as u16) + r.data
}

/// Records one after another.
pub open spec fn records_bytes(rs: Seq<Record>) -> Seq<u8>
    decreases rs.len(),
{
    if rs.len() == 0 {
        seq![]
    } else {
        record_bytes(rs[0]) + records_bytes(rs.skip(1))
    }
}

/// Whether the parts of a record have the lengths they must have.
pub open spec fn record_fits(r: Record) -> bool {
    &&& is_owner(r.owner)
    &&& r.kind.len() == 2
    &&& r.class.len() == 2
    &&& r.ttl.len() == 4
    &&& r.data.len() <= u16::MAX
}

/// Whether a record gives no name: it is of another type, or points at the
/// empty name.
pub open spec fn nameless(r: Record) -> bool {
    record_fits(r) && (r.kind != seq![0u8, 12u8] || (r.data.len() > 0 && r.data[0] == 0))
}

/// The parts of a record are found where the record stands.
proof fn lemma_record_at(buf: Seq<u8>, pos: int, r: Record)
    requires
        record_fits(r),
        holds(buf, pos, record_bytes(r)),
    ensures
        ({
            let fixed = pos + r.owner.len();
            &&& name_end(buf, pos) == fixed
            &&& be16(buf, fixed) == r.kind[0] * 256 + r.kind[1]
            &&& be16(buf, fixed + 8) == r.data.len()
            &&& holds(buf, fixed + 10, r.data)
            &&& pos + record_bytes(r).len() == fixed + 10 + r.data.len()
            &&& fixed + 10 + r.data.len() <= buf.len()
        }),
{
    let none = Seq::<u8>::empty();
    let all = record_bytes(r);
    let n = be_bytes(r.data.len() as u16);
    let fixed = pos + r.owner.len();
    assert(all =~= none + r.owner + (r.kind + r.class + r.ttl + n + r.data));
    lemma_holds_part(buf, pos, none, r.owner, r.kind + r.class + r.ttl + n + r.data);
    lemma_owner_end(buf, pos, r.owner);
    assert(all =~= r.owner + r.kind + (r.class + r.ttl + n + r.data));
    lemma_holds_part(buf, pos, r.owner, r.kind, r.class + r.ttl + n + r.data);
    assert(buf.subrange(fixed, fixed + 2)[0] == r.kind[0]);
    assert(buf.subrange(fixed, fixed + 2)[1] == r.kind[1]);
    lemma_holds_part(buf, pos, r.owner + r.kind + r.class + r.ttl, n, r.data);
    lemma_read_number(buf, fixed + 8, r.data.len() as u16);
    assert(all =~= (r.owner + r.kind + r.class + r.ttl + n) + r.data + none);
    lemma_holds_part(buf, pos, r.owner + r.kind + r.class + r.ttl + n, r.data, none);
}

/// Records that give no name are passed over.
proof fn lemma_pass_over(buf: Seq<u8>, pos: int, rs: Seq<Record>, count: nat)
    requires
        0 <= pos,
        holds(buf, pos, records_bytes(rs)),
        forall|i: int| 0 <= i < rs.len() ==> nameless(#[trigger] rs[i]),
    ensures
        count >= rs.len() ==> first_ptr(buf, pos, count) == first_ptr(
            buf,
            (pos + records_bytes(rs).len()) as int,
            (count - rs.len()) as nat,
        ),
        count <= rs.len() ==> first_ptr(buf, pos, count) is None,
    decreases rs.len(),
{
    if rs.len() > 0 && count > 0 {
        let r = rs[0];
        let others = rs.skip(1);
        let none = Seq::<u8>::empty();
        assert(nameless(r));
        assert forall|i: int| 0 <= i < others.len() implies nameless(#[trigger] others[i]) by {
            assert(others[i] == rs[i + 1]);
        }
        assert(records_bytes(rs) =~= none + record_bytes(r) + records_bytes(others));
        lemma_holds_part(buf, pos, none, record_bytes(r), records_bytes(others));
        assert(records_bytes(rs) =~= record_bytes(r) + records_bytes(others) + none);
        lemma_holds_part(buf, pos, record_bytes(r), records_bytes(others), none);
        lemma_record_at(buf, pos, r);
        let data = pos + r.owner.len() + 10;
        if be16(buf, pos + r.owner.len()) == QTYPE_PTR {
            assert(r.kind[0] * 256 + r.kind[1] == 12);
            assert(r.kind =~= seq![0u8, 12u8]);
            assert(buf.subrange(data, data + r.data.len())[0] == r.data[0]);
            assert(buf[data] == 0);
            assert(name_labels(buf, data, name_budget(buf)) =~= seq![]);
            assert(name_at(buf, data).len() == 0);
        }
        lemma_pass_over(buf, pos + record_bytes(r).len(), others, (count - 1) as nat);
    }
}

/// A pointer record that gives a name decides.
proof fn lemma_named_record(buf: Seq<u8>, pos: int, count: nat, r: Record, target: Seq<char>)
    requires
        count >= 1,
        holds(buf, pos, record_bytes(r)),
        record_fits(r),
        r.kind == seq![0u8, 12u8],
        name_fits(target),
        r.data == encoded(target),
    ensures
        first_ptr(buf, pos, count) == Some(target),
{
    lemma_record_at(buf, pos, r);
    lemma_read_name(buf, pos + r.owner.len() + 10, target);
    lemma_no_trailing_dot(target);
    assert(be16(buf, pos + r.owner.len()) == 12);
}

/// Where the records of a message begin.
proof fn lemma_records_start(
    header: Seq<u8>,
    questions: Seq<(Seq<char>, Seq<u8>)>,
    records: Seq<u8>,
)
    requires
        header.len() == 12,
        be16(header, 4) == questions.len(),
        questions_fit(questions),
    ensures
        ({
            let buf = header + question_section(questions) + records;
            let pos = 12 + question_section(questions).len() as int;
            &&& ptr_answer(buf) == first_ptr(buf, pos, be16(header, 6))
            &&& holds(buf, pos, records)
        }),
{
    let section = question_section(questions);
    let buf = header + section + records;
    let none = Seq::<u8>::empty();
    assert(buf.subrange(0, buf.len() as int) =~= buf);
    assert(be16(buf, 4) == be16(header, 4));
    assert(be16(buf, 6) == be16(header, 6));
    lemma_holds_part(buf, 0, header, section, records);
    lemma_skip_questions(buf, 12, questions);
    assert(buf =~= (header + section) + records + none);
    lemma_holds_part(buf, 0, header + section, records, none);
}

/// A message with records that give no name in front: what is behind them
/// decides.
proof fn lemma_behind_others(
    header: Seq<u8>,
    questions: Seq<(Seq<char>, Seq<u8>)>,
    others: Seq<Record>,
    tail: Seq<u8>,
)
    requires
        header.len() == 12,
        be16(header, 4) == questions.len(),
        questions_fit(questions),
        forall|i: int| 0 <= i < others.len() ==> nameless(#[trigger] others[i]),
    ensures
        ({
            let buf = header + question_section(questions) + records_bytes(others) + tail;
            let at = 12 + question_section(questions).len() as int + records_bytes(others).len();
            &&& be16(header, 6) <= others.len() ==> ptr_answer(buf) is None
            &&& be16(header, 6) > others.len() ==> ptr_answer(buf) == first_ptr(
                buf,
                at,
                (be16(header, 6) - others.len()) as nat,
            )
            &&& holds(buf, at, tail)
            &&& buf.len() == at + tail.len()
        }),
{
    let section = question_section(questions);
    let before = records_bytes(others);
    let buf = header + section + (before + tail);
    let none = Seq::<u8>::empty();
    let pos = 12 + section.len() as int;
    assert(header + section + before + tail =~= buf);
    lemma_records_start(header, questions, before + tail);
    assert(before + tail =~= none + before + tail);
    lemma_holds_part(buf, pos, none, before, tail);
    assert(before + tail =~= before + tail + none);
    lemma_holds_part(buf, pos, before, tail, none);
    lemma_pass_over(buf, pos, others, be16(header, 6));
}

/// The first pointer record that gives a name decides, however many records
/// that give none stand before it. Records that the header does not count are
/// not looked at.
pub proof fn law_first_name_counts(
    header: Seq<u8>,
    questions: Seq<(Seq<char>, Seq<u8>)>,
    others: Seq<Record>,
    ptr: Record,
    target: Seq<char>,
    rest: Seq<u8>,
)
    requires
        header.len() == 12,
        be16(header, 4) == questions.len(),
        questions_fit(questions),
        forall|i: int| 0 <= i < others.len() ==> nameless(#[trigger] others[i]),
        record_fits(ptr),
        ptr.kind == seq![0u8, 12u8],
        name_fits(target),
        ptr.data == encoded(target),
    ensures
        ptr_answer(
            header + question_section(questions) + records_bytes(others) + record_bytes(ptr) + rest,
        ) == (if be16(header, 6) > others.len() {
            Some(target)
        } else {
            None
        }),
{
    let record = record_bytes(ptr);
    let front = header + question_section(questions) + records_bytes(others);
    let buf = front + (record + rest);
    let at = front.len() as int;
    let none = Seq::<u8>::empty();
    assert(front + record + rest =~= buf);
    lemma_behind_others(header, questions, others, record + rest);
    if be16(header, 6) > others.len() {
        assert(record + rest =~= none + record + rest);
        lemma_holds_part(buf, at, none, record, rest);
        lemma_named_record(buf, at, (be16(header, 6) - others.len()) as nat, ptr, target);
    }
}

/// A response all of whose counted records give no name, or that counts none,
/// has no answer.
pub proof fn law_no_name_no_answer(
    header: Seq<u8>,
    questions: Seq<(Seq<char>, Seq<u8>)>,
    others: Seq<Record>,
    rest: Seq<u8>,
)
    requires
        header.len() == 12,
        be16(header, 4) == questions.len(),
        be16(header, 6) <= others.len(),
        questions_fit(questions),
        forall|i: int| 0 <= i < others.len() ==> nameless(#[trigger] others[i]),
    ensures
        ptr_answer(header + question_section(questions) + records_bytes(others) + rest) is None,
{
    lemma_behind_others(header, questions, others, rest);
}

/// Where the only question of a message ends, and what stands where in it.
#[verifier::rlimit(40)]
proof fn lemma_one_question(
    header: Seq<u8>,
    question: Seq<char>,
    kind: Seq<u8>,
    record: Seq<u8>,
    rest: Seq<u8>,
)
    requires
        header.len() == 12,
        be16(header, 4) == 1,
        name_fits(question),
        kind.len() == 4,
    ensures
        ({
            let buf = header + encoded(question) + kind + record + rest;
            let pos = 12 + encoded(question).len() as int + 4;
            &&& ptr_answer(buf) == first_ptr(buf, pos, be16(header, 6))
            &&& holds(buf, 12, encoded(question))
            &&& holds(buf, pos, record)
        }),
{
    let name = encoded(question);
    let buf = header + name + kind + record + rest;
    assert(buf.subrange(0, buf.len() as int) =~= buf);
    assert(be16(buf, 4) == 1);
    assert(be16(buf, 6) == be16(header, 6));
    assert(buf =~= header + name + (kind + record + rest));
    lemma_holds_part(buf, 0, header, name, kind + record + rest);
    lemma_read_name(buf, 12, question);
    lemma_holds_part(buf, 0, header + name + kind, record, rest);
    reveal_with_fuel(after_questions, 2);
}

/// Labels and a pointer to a whole name are read as one list of labels.
proof fn lemma_labels_through_pointer(
    buf: Seq<u8>,
    data: int,
    labels: Seq<Seq<char>>,
    question: Seq<char>,
)
    requires
        0 <= data,
        name_fits(question),
        labels_fit(labels),
        holds(buf, 12, encoded(question)),
        holds(buf, data, encode_labels(labels) + seq![0xC0u8, 12u8]),
    ensures
        name_labels(buf, data, name_budget(buf)) == label_bytes(
            labels + split(question, seq!['.']),
        ),
{
    let none = Seq::<u8>::empty();
    let own = encode_labels(labels);
    let pointer = seq![0xC0u8, 12u8];
    let at = data + own.len();
    assert(own + pointer =~= none + own + pointer);
    lemma_holds_part(buf, data, none, own, pointer);
    assert(own + pointer =~= own + pointer + none);
    lemma_holds_part(buf, data, own, pointer, none);
    assert(buf.subrange(at, at + 2)[0] == 0xC0);
    assert(buf.subrange(at, at + 2)[1] == 12);
    law_compression(buf, data, labels);
    assert(pointer_target(buf, at) == 12);

    let asked = split(question, seq!['.']);
    let e = encode_labels(asked);
    let name = encoded(question);
    lemma_encoded_len(labels);
    lemma_encoded_len(asked);
    assert(name =~= none + e + seq![0u8]);
    lemma_holds_part(buf, 12, none, e, seq![0u8]);
    assert(name =~= e + seq![0u8] + none);
    lemma_holds_part(buf, 12, e, seq![0u8], none);
    let end = 12 + e.len() as int;
    assert(buf.subrange(end, end + 1)[0] == 0);
    lemma_read_labels(buf, 12, asked, (name_budget(buf) - labels.len() - 1) as nat);
    assert(label_bytes(asked) + Seq::<Seq<u8>>::empty() =~= label_bytes(asked));
    assert(label_bytes(labels) + label_bytes(asked) =~= label_bytes(labels + asked));
}

/// A name that ends in the labels of a name that fits has no dot at its end.
proof fn lemma_joined_name(labels: Seq<Seq<char>>, question: Seq<char>)
    requires
        name_fits(question),
    ensures
        ({
            let text = join(labels + split(question, seq!['.']), seq!['.']);
            text.len() > 0 && without_dots(text) == text
        }),
{
    let asked = split(question, seq!['.']);
    let whole = labels + asked;
    let text = join(whole, seq!['.']);
    lemma_split_len(question, seq!['.']);
    lemma_split_lacks(question, '.');
    let last = asked[asked.len() - 1];
    assert(label_fits(last));
    assert(last.len() > 0) by {
        if last.len() == 0 {
            assert(encode_utf8(last).len() == 0);
        }
    }
    assert(whole[whole.len() - 1] == last);
    assert(text.last() == last.last());
    assert(last.contains(last.last()));
}

/// A target that ends in a compression pointer back to the question's name is
/// read whole: its own labels, then those of the question.
pub proof fn law_compressed_target(
    header: Seq<u8>,
    question: Seq<char>,
    kind: Seq<u8>,
    labels: Seq<Seq<char>>,
    ptr: Record,
    rest: Seq<u8>,
)
    requires
        header.len() == 12,
        be16(header, 4) == 1,
        be16(header, 6) >= 1,
        name_fits(question),
        kind.len() == 4,
        labels_fit(labels),
        record_fits(ptr),
        ptr.kind == seq![0u8, 12u8],
        ptr.data == encode_labels(labels) + seq![0xC0u8, 12u8],
    ensures
        ptr_answer(header + encoded(question) + kind + record_bytes(ptr) + rest) == Some(
            join(labels + split(question, seq!['.']), seq!['.']),
        ),
{
    let buf = header + encoded(question) + kind + record_bytes(ptr) + rest;
    let pos = 12 + encoded(question).len() as int + 4;
    let data = pos + ptr.owner.len() + 10;
    let whole = labels + split(question, seq!['.']);
    lemma_one_question(header, question, kind, record_bytes(ptr), rest);
    lemma_record_at(buf, pos, ptr);
    lemma_labels_through_pointer(buf, data, labels, question);
    assert forall|i: int| 0 <= i < whole.len() implies label_fits(#[trigger] whole[i]) by {
        if i < labels.len() {
            assert(label_fits(labels[i]));
        } else {
            assert(label_fits(split(question, seq!['.'])[i - labels.len()]));
        }
    }
    lemma_label_text(whole);
    lemma_joined_name(labels, question);
    assert(name_at(buf, data) == join(whole, seq!['.']));
    assert(be16(buf, pos + ptr.owner.len()) == 12);
}

/// A record that the message breaks off in ends the search.
proof fn lemma_cut_record(buf: Seq<u8>, pos: int, r: Record, count: nat)
    requires
        0 <= pos,
        record_fits(r),
        pos + r.owner.len() <= buf.len() < pos + record_bytes(r).len(),
        buf.subrange(pos, buf.len() as int) == record_bytes(r).take(buf.len() - pos),
    ensures
        first_ptr(buf, pos, count) is None,
{
    let all = record_bytes(r);
    let part = buf.subrange(pos, buf.len() as int);
    let fixed = pos + r.owner.len();
    assert forall|i: int| 0 <= i < part.len() implies buf[pos + i] == all[i] by {
        assert(part[i] == buf[pos + i]);
    }
    assert(buf.subrange(pos, fixed) =~= r.owner) by {
        assert forall|i: int| 0 <= i < r.owner.len() implies buf[pos + i] == r.owner[i] by {
            assert(all[i] == r.owner[i]);
        }
    }
    lemma_owner_end(buf, pos, r.owner);
    if fixed + 10 <= buf.len() {
        let n = be_bytes(r.data.len() as u16);
        let k = r.owner.len() as int;
        assert(all[k + 8] == n[0] && all[k + 9] == n[1]);
        assert(buf[pos + (k + 8)] == n[0] && buf[pos + (k + 9)] == n[1]);
        assert(buf.subrange(fixed + 8, fixed + 10) =~= n);
        lemma_read_number(buf, fixed + 8, r.data.len() as u16);
    }
}

/// A message that breaks off in a record, anywhere behind the record's owner,
/// has no answer in that record, whatever its first bytes may spell.
pub proof fn law_cut_short(
    header: Seq<u8>,
    questions: Seq<(Seq<char>, Seq<u8>)>,
    others: Seq<Record>,
    r: Record,
    n: int,
)
    requires
        header.len() == 12,
        be16(header, 4) == questions.len(),
        questions_fit(questions),
        forall|i: int| 0 <= i < others.len() ==> nameless(#[trigger] others[i]),
        record_fits(r),
        r.owner.len() <= n < record_bytes(r).len(),
    ensures
        ptr_answer(
            header + question_section(questions) + records_bytes(others) + record_bytes(r).take(n),
        ) is None,
{
    let cut = record_bytes(r).take(n);
    let front = header + question_section(questions) + records_bytes(others);
    let buf = front + cut;
    lemma_behind_others(header, questions, others, cut);
    if be16(header, 6) > others.len() {
        assert(cut.len() == n);
        lemma_cut_record(buf, front.len() as int, r, (be16(header, 6) - others.len()) as nat);
    }
}

/// Dots at the end of a name are dropped, and nothing else is.
pub proof fn law_trailing_dots(name: Seq<char>, dots: Seq<char>)
    requires
        name.len() > 0 ==> name.last() != '.',
        forall|i: int| 0 <= i < dots.len() ==> #[trigger] dots[i] == '.',
    ensures
        without_dots(name + dots) == name,
    decreases dots.len(),
{
    if dots.len() == 0 {
        assert(name + dots =~= name);
    } else {
        let less = dots.drop_last();
        assert forall|i: int| 0 <= i < less.len() implies #[trigger] less[i] == '.' by {
            assert(less[i] == dots[i]);
        }
        law_trailing_dots(name, less);
        assert((name + dots).drop_last() =~= name + less);
        assert((name + dots).last() == dots[dots.len() - 1]);
    }
}

/// A datagram that repeats the transaction ID and the question, and comes from
/// the resolver that was asked, is accepted, whatever else it holds. Where
/// nothing in particular is expected, everything with a whole header is.
pub proof fn law_echoes_are_accepted(
    id: u16,
    flags: Seq<u8>,
    questions: u16,
    counts: Seq<u8>,
    question: Seq<u8>,
    rest: Seq<u8>,
    from: Option<Ipv4Addr>,
)
    requires
        flags.len() == 2,
        counts.len() == 6,
        questions >= 1,
    ensures
        ({
            let packet = be_bytes(id) + flags + be_bytes(questions) + counts + question + rest;
            &&& is_reply(packet, from, from, Some(id), Some(question))
            &&& is_reply(packet, from, None, Some(id), Some(question))
            &&& is_reply(packet, from, from, Some(id), None)
            &&& is_reply(packet, from, None, None, None)
        }),
{
    let packet = be_bytes(id) + flags + be_bytes(questions) + counts + question + rest;
    assert(packet.skip(12) =~= question + rest);
    assert(question =~= packet.skip(12).take(question.len() as int));
    assert(packet[0] == be_bytes(id)[0] && packet[1] == be_bytes(id)[1]);
    assert(packet[4] == be_bytes(questions)[0] && packet[5] == be_bytes(questions)[1]);
}

/// A datagram is refused where one thing about it is not as expected: its
/// source, its transaction ID, that it has a question, the question, or that
/// its header is whole.
pub proof fn law_strays_are_refused(
    packet: Seq<u8>,
    from: Option<Ipv4Addr>,
    asked: Option<Ipv4Addr>,
    id: Option<u16>,
    question: Option<Seq<u8>>,
)
    requires
        ({
            ||| packet.len() < 12
            ||| asked is Some && from != asked
            ||| id matches Some(n) && packet[0] * 256 + packet[1] != n
            ||| question is Some && packet[4] == 0 && packet[5] == 0
            ||| question matches Some(q) && packet.len() < 12 + q.len()
            ||| question matches Some(q) && packet.subrange(12, 12 + q.len() as int) != q
        }),
    ensures
        !is_reply(packet, from, asked, id, question),
{
    if let Some(q) = question {
        if q.is_prefix_of(packet.skip(12)) && packet.len() >= 12 + q.len() {
            assert(packet.subrange(12, 12 + q.len() as int) =~= packet.skip(12).take(
                q.len() as int,
            ));
        }
    }
}

/// What a lookup comes to that goes by `lookup_step`, where `unicast` is what
/// each resolver has to say and `multicast` what the local link has.
pub open spec fn lookup_among(
    resolvers: Seq<Ipv4Addr>,
    unicast: spec_fn(Ipv4Addr) -> Option<Seq<char>>,
    multicast: Option<Seq<char>>,
    asked: nat,
    last: Option<Seq<char>>,
) -> Option<Seq<char>>
    decreases resolvers.len() + 1 - asked,
{
    if asked > resolvers.len() + 1 {
        None
    } else {
        match lookup_step(resolvers, asked, last) {
            LookupView::Found(name) => Some(name),
            LookupView::NotFound => None,
            LookupView::Ask(ip) => if asked <= resolvers.len() {
                lookup_among(resolvers, unicast, multicast, asked + 1, unicast(ip))
            } else {
                None
            },
            LookupView::AskMulticast => if asked <= resolvers.len() {
                lookup_among(resolvers, unicast, multicast, asked + 1, multicast)
            } else {
                None
            },
        }
    }
}

/// The resolvers are asked in the order of the list, and the local link only
/// where none of them has a name. The first that has one decides.
pub proof fn law_lookup_order(
    resolvers: Seq<Ipv4Addr>,
    unicast: spec_fn(Ipv4Addr) -> Option<Seq<char>>,
    multicast: Option<Seq<char>>,
    k: int,
)
    requires
        0 <= k <= resolvers.len(),
        forall|j: int| 0 <= j < k ==> unicast(#[trigger] resolvers[j]) is None,
        k < resolvers.len() ==> unicast(resolvers[k]) is Some,
    ensures
        lookup_among(resolvers, unicast, multicast, 0, None) == (if k < resolvers.len() {
            unicast(resolvers[k])
        } else {
            multicast
        }),
{
    lemma_lookup_from(resolvers, unicast, multicast, k, 0);
}

proof fn lemma_lookup_from(
    resolvers: Seq<Ipv4Addr>,
    unicast: spec_fn(Ipv4Addr) -> Option<Seq<char>>,
    multicast: Option<Seq<char>>,
    k: int,
    asked: nat,
)
    requires
        asked <= k <= resolvers.len(),
        forall|j: int| 0 <= j < k ==> unicast(#[trigger] resolvers[j]) is None,
        k < resolvers.len() ==> unicast(resolvers[k]) is Some,
    ensures
        lookup_among(resolvers, unicast, multicast, asked, None) == (if k < resolvers.len() {
            unicast(resolvers[k])
        } else {
            multicast
        }),
    decreases k - asked,
{
    if asked < k {
        assert(unicast(resolvers[asked as int]) is None);
        lemma_lookup_from(resolvers, unicast, multicast, k, asked + 1);
    } else if k < resolvers.len() {
        let answer = unicast(resolvers[k]);
        assert(lookup_among(resolvers, unicast, multicast, asked + 1, answer) == answer);
    } else {
        assert(lookup_among(resolvers, unicast, multicast, asked + 1, multicast) == multicast);
    }
}

/// The entry of the first line comes first.
proof fn lemma_entries_front(
    line: Seq<char>,
    rest: Seq<Seq<char>>,
    entry: spec_fn(Seq<char>) -> Option<Ipv4Addr>,
)
    ensures
        entries(seq![line] + rest, entry) == (match entry(line) {
            Some(ip) => seq![ip],
            None => seq![],
        }) + entries(rest, entry),
    decreases rest.len(),
{
    let all = seq![line] + rest;
    let first = match entry(line) {
        Some(ip) => seq![ip],
        None => Seq::<Ipv4Addr>::empty(),
    };
    if rest.len() == 0 {
        assert(all.drop_last() =~= seq![]);
        assert(entries(seq![], entry) =~= seq![]);
        assert(entries(all, entry) =~= first + entries(rest, entry));
    } else {
        lemma_entries_front(line, rest.drop_last(), entry);
        assert(all.drop_last() =~= seq![line] + rest.drop_last());
        assert(all.last() == rest.last());
        assert(entries(all, entry) =~= first + entries(rest, entry));
    }
}

/// White space that ends no line.
pub open spec fn inner_white(s: Seq<char>) -> bool {
    all_white(s) && !s.contains('\n')
}

/// A line of parts without line feeds.
proof fn lemma_line_parts(a: Seq<char>, b: Seq<char>)
    requires
        !a.contains('\n'),
        !b.contains('\n'),
    ensures
        !(a + b).contains('\n'),
{
    if (a + b).contains('\n') {
        let k = choose|k: int| 0 <= k < (a + b).len() && (a + b)[k] == '\n';
        if k < a.len() {
            assert(a[k] == '\n');
        } else {
            assert(b[k - a.len()] == '\n');
        }
    }
}

/// Dotted notation can end a line: it holds no white space.
proof fn lemma_dotted_ends(ip: Ipv4Addr)
    ensures
        ip.dotted().len() > 0,
        !ip.dotted().contains('\n'),
        !ip.dotted().contains(':'),
        !white_space(ip.dotted()[0]),
        !white_space(ip.dotted().last()),
        ip.dotted().last() != '\r',
{
    let s = ip.dotted();
    law_dotted_characters(ip);
    assert(is_digit(s[0]) || s[0] == '.');
    assert(is_digit(s[s.len() - 1]) || s[s.len() - 1] == '.');
    if s.contains('\n') {
        let k = choose|k: int| 0 <= k < s.len() && s[k] == '\n';
        assert(is_digit(s[k]) || s[k] == '.');
    }
    if s.contains(':') {
        let k = choose|k: int| 0 <= k < s.len() && s[k] == ':';
        assert(is_digit(s[k]) || s[k] == '.');
    }
}

/// What the lines of a text name: the first line's entry, then what the
/// others name.
proof fn lemma_line_by_line(
    line: Seq<char>,
    rest: Seq<char>,
    entry: spec_fn(Seq<char>) -> Option<Ipv4Addr>,
    named: Option<Ipv4Addr>,
)
    requires
        !line.contains('\n'),
        entry(line) == named,
        line.len() > 0 && line.last() == '\r' ==> entry(line.take(line.len() - 1)) == named,
    ensures
        ({
            let first = match named {
                Some(ip) => seq![ip],
                None => Seq::<Ipv4Addr>::empty(),
            };
            &&& entries(lines(line + seq!['\n'] + rest), entry) == first + entries(
                lines(rest),
                entry,
            )
            &&& line.len() > 0 ==> entries(lines(line), entry) == first
        }),
{
    law_lines(line, rest);
    let kept = if line.len() > 0 && line.last() == '\r' {
        line.take(line.len() - 1)
    } else {
        line
    };
    lemma_entries_front(kept, lines(rest), entry);
    let none = Seq::<Seq<char>>::empty();
    lemma_entries_front(line, none, entry);
    assert(seq![line] + none =~= seq![line]);
    assert(entries(none, entry) =~= seq![]);
    if line.len() > 0 {
        let first = match named {
            Some(ip) => seq![ip],
            None => Seq::<Ipv4Addr>::empty(),
        };
        assert(first + entries(none, entry) =~= first);
    }
}

/// A `nameserver` line names the address behind that word, with any white
/// space around the two.
proof fn lemma_resolv_conf_entry(
    lead: Seq<char>,
    gap: Seq<char>,
    ip: Ipv4Addr,
    trail: Seq<char>,
)
    requires
        all_white(lead),
        all_white(gap),
        all_white(trail),
    ensures
        resolv_conf_entry(lead + "nameserver"@ + gap + ip.dotted() + trail) == Some(ip),
{
    reveal_strlit("nameserver");
    lemma_dotted_ends(ip);
    let none = Seq::<char>::empty();
    let core = "nameserver"@ + gap + ip.dotted();
    assert(core.last() == ip.dotted().last());
    law_trim(lead, core, trail);
    assert(lead + "nameserver"@ + gap + ip.dotted() + trail =~= lead + core + trail);
    assert(core.take(10) =~= "nameserver"@);
    assert(core.skip(10) =~= gap + ip.dotted() + none);
    law_trim(gap, ip.dotted(), none);
    law_address_round_trip(ip);
}

/// `resolv.conf` line by line: a line of the word `nameserver` and an address,
/// with any white space around them, names that address, and the lines behind
/// it follow. A line that does not begin with that word, such as a comment,
/// names nothing. An empty file names nothing.
pub proof fn law_resolv_conf(
    lead: Seq<char>,
    gap: Seq<char>,
    ip: Ipv4Addr,
    trail: Seq<char>,
    other: Seq<char>,
    rest: Seq<char>,
)
    requires
        inner_white(lead),
        inner_white(gap),
        inner_white(trail),
        !other.contains('\n'),
        other.len() > 0 ==> !white_space(other[0]),
        !(other.len() >= 10 && other.take(10) == "nameserver"@),
    ensures
        ({
            let line = lead + "nameserver"@ + gap + ip.dotted() + trail;
            &&& resolv_conf_addrs(line + seq!['\n'] + rest) == seq![ip] + resolv_conf_addrs(rest)
            &&& resolv_conf_addrs(line) == seq![ip]
        }),
        resolv_conf_addrs((lead + other) + seq!['\n'] + rest) == resolv_conf_addrs(rest),
        resolv_conf_addrs(Seq::empty()).len() == 0,
{
    let entry = |l: Seq<char>| resolv_conf_entry(l);
    let line = lead + "nameserver"@ + gap + ip.dotted() + trail;
    reveal_strlit("nameserver");
    lemma_dotted_ends(ip);
    assert(!"nameserver"@.contains('\n'));
    lemma_line_parts(lead, "nameserver"@);
    lemma_line_parts(lead + "nameserver"@, gap);
    lemma_line_parts(lead + "nameserver"@ + gap, ip.dotted());
    lemma_line_parts(lead + "nameserver"@ + gap + ip.dotted(), trail);
    lemma_resolv_conf_entry(lead, gap, ip, trail);
    if line.last() == '\r' {
        let less = trail.drop_last();
        assert(trail.len() > 0);
        assert forall|i: int| 0 <= i < less.len() implies white_space(#[trigger] less[i]) by {
            assert(less[i] == trail[i]);
        }
        lemma_resolv_conf_entry(lead, gap, ip, less);
        assert(line.take(line.len() - 1) =~= lead + "nameserver"@ + gap + ip.dotted() + less);
    }
    lemma_line_by_line(line, rest, entry, Some(ip));

    let comment = lead + other;
    lemma_line_parts(lead, other);
    lemma_other_line(lead, other, "nameserver"@);
    if comment.len() > 0 && comment.last() == '\r' {
        lemma_other_line_cut(lead, other, "nameserver"@);
    }
    lemma_line_by_line(comment, rest, entry, None);
    assert(Seq::<Ipv4Addr>::empty() + resolv_conf_addrs(rest) =~= resolv_conf_addrs(rest));
    law_lines(Seq::empty(), Seq::empty());
}

/// A line whose text does not begin with a word does not begin with it after
/// trimming.
proof fn lemma_other_line(lead: Seq<char>, other: Seq<char>, word: Seq<char>)
    requires
        all_white(lead),
        other.len() > 0 ==> !white_space(other[0]),
        word.len() > 0,
        !(other.len() >= word.len() && other.take(word.len() as int) == word),
    ensures
        !begins_with(trim(lead + other), word),
{
    let none = Seq::<char>::empty();
    let t = trim_end(other);
    lemma_trim_end(other);
    let n = t.len() as int;
    assert(t =~= other.take(n));
    assert forall|i: int| 0 <= i < other.skip(n).len() implies white_space(
        #[trigger] other.skip(n)[i],
    ) by {
        assert(other.skip(n)[i] == other[n + i]);
    }
    if n > 0 {
        assert(t[0] == other[0]);
    }
    law_trim(lead, t, other.skip(n));
    assert(lead + other =~= lead + t + other.skip(n));
    if begins_with(t, word) {
        assert(other.take(word.len() as int) =~= t.take(word.len() as int));
    }
}

/// The same where a carriage return at the end of the line is dropped first.
proof fn lemma_other_line_cut(lead: Seq<char>, other: Seq<char>, word: Seq<char>)
    requires
        all_white(lead),
        other.len() > 0 ==> !white_space(other[0]),
        word.len() > 0,
        !(other.len() >= word.len() && other.take(word.len() as int) == word),
        (lead + other).len() > 0,
    ensures
        !begins_with(trim((lead + other).take((lead + other).len() - 1)), word),
{
    let cut = (lead + other).take((lead + other).len() - 1);
    if other.len() > 0 {
        let less = other.drop_last();
        assert(cut =~= lead + less);
        if less.len() > 0 {
            assert(less[0] == other[0]);
        }
        if less.len() >= word.len() && less.take(word.len() as int) == word {
            assert(other.take(word.len() as int) =~= word);
        }
        lemma_other_line(lead, less, word);
    } else {
        let less = lead.drop_last();
        assert(cut =~= less + other);
        assert forall|i: int| 0 <= i < less.len() implies white_space(#[trigger] less[i]) by {
            assert(less[i] == lead[i]);
        }
        lemma_other_line(less, other, word);
    }
}

/// A `nameserver[N] : ADDR` line names the address behind the first colon.
proof fn lemma_scutil_entry(
    lead: Seq<char>,
    index: Seq<char>,
    gap: Seq<char>,
    ip: Ipv4Addr,
    trail: Seq<char>,
)
    requires
        all_white(lead),
        !index.contains(':'),
        all_white(gap),
        all_white(trail),
    ensures
        scutil_entry(lead + "nameserver["@ + index + seq![':'] + gap + ip.dotted() + trail)
            == Some(ip),
{
    reveal_strlit("nameserver[");
    lemma_dotted_ends(ip);
    let none = Seq::<char>::empty();
    let head = "nameserver["@ + index;
    let core = head + seq![':'] + (gap + ip.dotted());
    assert(core.last() == ip.dotted().last());
    law_trim(lead, core, trail);
    assert(lead + "nameserver["@ + index + seq![':'] + gap + ip.dotted() + trail =~= lead + core
        + trail);
    assert(core.take(11) =~= "nameserver["@);
    assert(!head.contains(':')) by {
        if head.contains(':') {
            let k = choose|k: int| 0 <= k < head.len() && head[k] == ':';
            if k >= 11 {
                assert(index[k - 11] == ':');
            }
        }
    }
    law_split(head, ':', gap + ip.dotted());
    assert(gap + ip.dotted() =~= gap + ip.dotted() + none);
    law_trim(gap, ip.dotted(), none);
    law_address_round_trip(ip);
}

/// The output of `scutil --dns` line by line: a `nameserver[N] : ADDR` line
/// names its address, and the lines behind it follow. A line that does not
/// begin with `nameserver[` names nothing.
pub proof fn law_scutil(
    lead: Seq<char>,
    index: Seq<char>,
    gap: Seq<char>,
    ip: Ipv4Addr,
    other: Seq<char>,
    rest: Seq<char>,
)
    requires
        inner_white(lead),
        !index.contains(':'),
        !index.contains('\n'),
        inner_white(gap),
        !other.contains('\n'),
        other.len() > 0 ==> !white_space(other[0]),
        !(other.len() >= 11 && other.take(11) == "nameserver["@),
    ensures
        scutil_addrs(
            (lead + "nameserver["@ + index + seq![':'] + gap + ip.dotted()) + seq!['\n'] + rest,
        ) == seq![ip] + scutil_addrs(rest),
        scutil_addrs((lead + other) + seq!['\n'] + rest) == scutil_addrs(rest),
        scutil_addrs(Seq::empty()).len() == 0,
{
    let entry = |l: Seq<char>| scutil_entry(l);
    let none = Seq::<char>::empty();
    let line = lead + "nameserver["@ + index + seq![':'] + gap + ip.dotted();
    reveal_strlit("nameserver[");
    lemma_dotted_ends(ip);
    assert(!"nameserver["@.contains('\n'));
    assert(!seq![':'].contains('\n'));
    lemma_line_parts(lead, "nameserver["@);
    lemma_line_parts(lead + "nameserver["@, index);
    lemma_line_parts(lead + "nameserver["@ + index, seq![':']);
    lemma_line_parts(lead + "nameserver["@ + index + seq![':'], gap);
    lemma_line_parts(lead + "nameserver["@ + index + seq![':'] + gap, ip.dotted());
    lemma_scutil_entry(lead, index, gap, ip, none);
    assert(line + none =~= line);
    assert(line.last() == ip.dotted().last());
    lemma_line_by_line(line, rest, entry, Some(ip));

    let comment = lead + other;
    lemma_line_parts(lead, other);
    lemma_other_line(lead, other, "nameserver["@);
    if comment.len() > 0 && comment.last() == '\r' {
        lemma_other_line_cut(lead, other, "nameserver["@);
    }
    lemma_line_by_line(comment, rest, entry, None);
    assert(Seq::<Ipv4Addr>::empty() + scutil_addrs(rest) =~= scutil_addrs(rest));
    law_lines(none, none);
}

/// Both sources count, scutil's first: in the list of resolvers stand those
/// that either names, and what scutil names before what `resolv.conf` alone
/// names. A source that could not be read is as one that names nothing.
pub proof fn law_both_sources_count(output: Seq<u8>, contents: Seq<char>, ip: Ipv4Addr)
    ensures
        each_once(named_resolvers(Some(output), Some(contents))).contains(ip) <==> scutil_addrs(
            lossy(output),
        ).contains(ip) || resolv_conf_addrs(contents).contains(ip),
        each_once(scutil_addrs(lossy(output))).is_prefix_of(
            each_once(named_resolvers(Some(output), Some(contents))),
        ),
        named_resolvers(Some(output), None) == scutil_addrs(lossy(output)),
        named_resolvers(None, Some(contents)) == resolv_conf_addrs(contents),
        named_resolvers(None, None).len() == 0,
{
    let a = scutil_addrs(lossy(output));
    let b = resolv_conf_addrs(contents);
    let all = named_resolvers(Some(output), Some(contents));
    assert(all =~= a + b);
    lemma_each_once(all);
    lemma_each_once_prefix(a, b);
    if a.contains(ip) {
        let k = choose|k: int| 0 <= k < a.len() && a[k] == ip;
        assert(all[k] == ip);
    }
    if b.contains(ip) {
        let k = choose|k: int| 0 <= k < b.len() && b[k] == ip;
        assert(all[a.len() + k] == ip);
    }
    if all.contains(ip) {
        let k = choose|k: int| 0 <= k < all.len() && all[k] == ip;
        if k < a.len() {
            assert(a[k] == ip);
        } else {
            assert(b[k - a.len()] == ip);
        }
    }
    assert(named_resolvers(Some(output), None) =~= a);
    assert(named_resolvers(None, Some(contents)) =~= b);
}

} // verus!
