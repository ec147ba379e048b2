//! Service labels for open ports.
//!
//! Two families of TCP service exist here: ones that speak first (SSH, FTP,
//! SMTP, most databases) and ones that wait for a request (HTTP and
//! friends). Rather than hardcode a port list to decide which is which, a
//! passive read comes first, and if nothing arrives a minimal HTTP probe is
//! sent. A port that stays silent gets a guessed name from a table of
//! well-known ports.

use vstd::prelude::*;
use vstd::slice::slice_subrange;

use crate::text::{
    all_white, begins_with, chars_of, compose, control, find, is_control, is_white_space, join,
    law_split_long_front, law_split_undoes_long_join, law_trim, lemma_find_from, lemma_trim,
    lemma_trim_end, lemma_trim_start, lossy, lossy_text, lower, push_chars, same_ignoring_case, split,
    split_chars, starts_with, text_of, trim, trim_chars, trim_end, trim_start, views, white_space,
};

verus! {

/// Banners get sanitized and clipped to this many characters so a chatty
/// service (or a full HTML error page) can't blow out the results table.
pub const MAX_BANNER_LEN: usize = 72;

// ---------------------------------------------------------------------
// Well-known ports
// ---------------------------------------------------------------------

/// The name of a well-known port.
pub open spec fn service_name(port: u16) -> Option<Seq<char>> {
    match port {
        21 => Some("ftp"@),
        22 => Some("ssh"@),
        23 => Some("telnet"@),
        25 => Some("smtp"@),
        53 => Some("domain"@),
        80 => Some("http"@),
        110 => Some("pop3"@),
        111 => Some("rpcbind"@),
        135 => Some("msrpc"@),
        139 => Some("netbios-ssn"@),
        143 => Some("imap"@),
        389 => Some("ldap"@),
        443 => Some("https"@),
        445 => Some("microsoft-ds"@),
        465 => Some("smtps"@),
        587 => Some("submission"@),
        636 => Some("ldaps"@),
        853 => Some("dns-over-tls"@),
        993 => Some("imaps"@),
        995 => Some("pop3s"@),
        1433 => Some("ms-sql-s"@),
        1521 => Some("oracle"@),
        2049 => Some("nfs"@),
        3000 => Some("http-dev"@),
        3306 => Some("mysql"@),
        3389 => Some("rdp"@),
        5000 => Some("http-dev"@),
        5432 => Some("postgresql"@),
        5900 => Some("vnc"@),
        6379 => Some("redis"@),
        8000 => Some("http-alt"@),
        8080 => Some("http-proxy"@),
        8443 => Some("https-alt"@),
        8888 => Some("http-alt"@),
        9200 => Some("elasticsearch"@),
        11211 => Some("memcached"@),
        27017 => Some("mongodb"@),
        _ => None,
    }
}

/// A short, deliberately non-exhaustive well-known-port table: enough to
/// label the ports a home or small-office scan actually turns up, not a
/// full IANA registry.
pub fn guess_service(port: u16) -> (r: Option<&'static str>)
    ensures
        match r {
            Some(name) => service_name(port) == Some(name@),
            None => service_name(port) is None,
        },
{
    match port {
        21 => Some("ftp"),
        22 => Some("ssh"),
        23 => Some("telnet"),
        25 => Some("smtp"),
        53 => Some("domain"),
        80 => Some("http"),
        110 => Some("pop3"),
        111 => Some("rpcbind"),
        135 => Some("msrpc"),
        139 => Some("netbios-ssn"),
        143 => Some("imap"),
        389 => Some("ldap"),
        443 => Some("https"),
        445 => Some("microsoft-ds"),
        465 => Some("smtps"),
        587 => Some("submission"),
        636 => Some("ldaps"),
        853 => Some("dns-over-tls"),
        993 => Some("imaps"),
        995 => Some("pop3s"),
        1433 => Some("ms-sql-s"),
        1521 => Some("oracle"),
        2049 => Some("nfs"),
        3000 => Some("http-dev"),
        3306 => Some("mysql"),
        3389 => Some("rdp"),
        5000 => Some("http-dev"),
        5432 => Some("postgresql"),
        5900 => Some("vnc"),
        6379 => Some("redis"),
        8000 => Some("http-alt"),
        8080 => Some("http-proxy"),
        8443 => Some("https-alt"),
        8888 => Some("http-alt"),
        9200 => Some("elasticsearch"),
        11211 => Some("memcached"),
        27017 => Some("mongodb"),
        _ => None,
    }
}

/// The label of an open port: its banner, else the guessed service with a
/// question mark, else a dash.
pub open spec fn label_text(banner: Option<Seq<char>>, port: u16) -> Seq<char> {
    match (banner, service_name(port)) {
        (Some(b), _) => b,
        (None, Some(name)) => name + "?"@,
        (None, None) => "-"@,
    }
}

/// Best-effort label for an open port: a live banner if there is one,
/// otherwise a guessed service name, otherwise "-".
pub fn label(banner: Option<String>, port: u16) -> (out: String)
    ensures
        out@ == label_text(
            match banner {
                Some(b) => Some(b@),
                None => None,
            },
            port,
        ),
{
    if let Some(b) = banner {
        b
    } else if let Some(name) = guess_service(port) {
        let mut out = name.to_owned();
        out.append("?");
        out
    } else {
        "-".to_owned()
    }
}

// ---------------------------------------------------------------------
// Cleaning
// ---------------------------------------------------------------------

/// Control characters and white space count as spaces.
pub open spec fn blank(c: char) -> char {
    if control(c) || white_space(c) {
        ' '
    } else {
        c
    }
}

/// Control characters and white space become spaces, and of neighbouring
/// spaces the first stays.
pub open spec fn collapsed(s: Seq<char>) -> Seq<char>
    decreases s.len(),
{
    if s.len() == 0 {
        seq![]
    } else if s.len() > 1 && blank(s.last()) == ' ' && blank(s[s.len() - 2]) == ' ' {
        collapsed(s.drop_last())
    } else {
        collapsed(s.drop_last()).push(blank(s.last()))
    }
}

/// One clean line: white space and control characters collapsed, none at the
/// ends.
pub open spec fn sanitized(raw: Seq<char>) -> Seq<char> {
    trim(collapsed(raw))
}

/// Collapses control characters and runs of whitespace so a raw banner
/// prints as one clean line instead of wrapping the results table.
pub fn sanitize(raw: &str) -> (out: String)
    ensures
        out@ == sanitized(raw@),
{
    let chars = chars_of(raw);
    let mut kept: Vec<char> = Vec::new();
    let mut last_was_space = false;
    for i in 0..chars.len()
        invariant
            kept@ == collapsed(chars@.take(i as int)),
            last_was_space == (i > 0 && blank(chars@[i - 1]) == ' '),
    {
        let ghost next = chars@.take(i + 1);
        assert(next.drop_last() =~= chars@.take(i as int));
        assert(i > 0 ==> next[next.len() - 2] == chars@[i - 1]);
        let mapped = if is_control(chars[i]) || is_white_space(chars[i]) {
            ' '
        } else {
            chars[i]
        };
        if mapped == ' ' {
            if !last_was_space {
                kept.push(' ');
            }
            last_was_space = true;
        } else {
            kept.push(mapped);
            last_was_space = false;
        }
    }
    assert(chars@.take(chars@.len() as int) =~= chars@);
    text_of(trim_chars(kept.as_slice()))
}

/// A text of at most `max` characters stays; a longer one keeps one less and
/// an ellipsis.
pub open spec fn clipped(s: Seq<char>, max: int) -> Seq<char> {
    if s.len() <= max {
        s
    } else if max < 1 {
        seq!['…']
    } else {
        s.take(max - 1).push('…')
    }
}

pub fn truncate(s: &str, max_chars: usize) -> (out: String)
    ensures
        out@ == clipped(s@, max_chars as int),
{
    let chars = chars_of(s);
    if chars.len() <= max_chars {
        return s.to_owned();
    }
    let keep: usize = if max_chars < 1 {
        0
    } else {
        max_chars - 1
    };
    let kept = slice_subrange(chars.as_slice(), 0, keep);
    let mut out = text_of(kept);
    out.push('…');
    assert(out@ =~= clipped(s@, max_chars as int));
    out
}

// ---------------------------------------------------------------------
// HTTP responses
// ---------------------------------------------------------------------

/// Whether a line is a `Server:` header with something after the colon.
pub open spec fn is_server_line(line: Seq<char>) -> bool {
    line.len() > 7 && lower(line.take(7)) == "server:"@
}

/// What the first `Server:` header says. An empty line ends the headers.
pub open spec fn server_value(all: Seq<Seq<char>>) -> Option<Seq<char>>
    decreases all.len(),
{
    if all.len() == 0 || all[0].len() == 0 {
        None
    } else if is_server_line(all[0]) {
        Some(trim(all[0].skip(7)))
    } else {
        server_value(all.skip(1))
    }
}

/// The status line of an HTTP response and what its `Server:` header says.
pub open spec fn http_summary(raw: Seq<char>) -> Option<Seq<char>> {
    let all = split(raw, seq!['\r', '\n']);
    if !begins_with(all[0], "HTTP/"@) {
        None
    } else {
        match server_value(all) {
            Some(s) => if s.len() > 0 {
                Some(all[0] + "; Server: "@ + s)
            } else {
                Some(all[0])
            },
            None => Some(all[0]),
        }
    }
}

fn server_line(line: &[char]) -> (b: bool)
    ensures
        b == is_server_line(line@),
{
    if line.len() <= 7 {
        return false;
    }
    let name = chars_of("server:");
    let head = slice_subrange(line, 0, 7);
    assert(head@ =~= line@.take(7));
    proof {
        reveal_strlit("server:");
        assert(lower(name@) =~= name@);
    }
    same_ignoring_case(head, name.as_slice())
}

/// Reduces an HTTP response to "status line; Server: x" instead of dumping
/// the raw headers and body. Returns `None` for anything that doesn't start
/// with a status line, so non-HTTP banners fall through unchanged.
pub fn summarize_http(raw: &str) -> (r: Option<String>)
    ensures
        match r {
            Some(s) => http_summary(raw@) == Some(s@),
            None => http_summary(raw@) is None,
        },
{
    let chars = chars_of(raw);
    let crlf: [char; 2] = ['\r', '\n'];
    assert(crlf@ =~= seq!['\r', '\n']);
    let all = split_chars(chars.as_slice(), &crlf);
    let ghost pieces = views(all@);
    assert(pieces[0] == all@[0]@);
    let http = chars_of("HTTP/");
    if !starts_with(all[0].as_slice(), http.as_slice()) {
        return None;
    }
    let status = text_of(all[0].as_slice());
    assert(pieces.skip(0) =~= pieces);
    for i in 0..all.len()
        invariant
            pieces == views(all@),
            pieces == split(raw@, seq!['\r', '\n']),
            begins_with(pieces[0], "HTTP/"@),
            status@ == pieces[0],
            server_value(pieces) == server_value(pieces.skip(i as int)),
    {
        assert(pieces.skip(i as int)[0] == all@[i as int]@);
        assert(pieces.skip(i as int).skip(1) =~= pieces.skip(i + 1));
        if all[i].len() == 0 {
            return Some(status);
        }
        if server_line(all[i].as_slice()) {
            let value = slice_subrange(all[i].as_slice(), 7, all[i].len());
            assert(value@ =~= all@[i as int]@.skip(7));
            let server = trim_chars(value);
            if server.len() == 0 {
                return Some(status);
            }
            return Some(compose_server(status, server));
        }
    }
    Some(status)
}

fn compose_server(status: String, server: &[char]) -> (out: String)
    ensures
        out@ == status@ + "; Server: "@ + server@,
{
    let mut out = status;
    out.append("; Server: ");
    push_chars(&mut out, server);
    out
}

/// The banner that a text amounts to: an HTTP response is summarized,
/// everything is cleaned and clipped, and what is then empty is no banner.
pub open spec fn banner_of(text: Seq<char>) -> Option<Seq<char>> {
    let cleaned = sanitized(
        match http_summary(text) {
            Some(s) => s,
            None => text,
        },
    );
    if cleaned.len() == 0 {
        None
    } else {
        Some(clipped(cleaned, MAX_BANNER_LEN as int))
    }
}

pub fn finalize(text: &str) -> (r: Option<String>)
    ensures
        match r {
            Some(b) => banner_of(text@) == Some(b@),
            None => banner_of(text@) is None,
        },
{
    let cleaned = match summarize_http(text) {
        Some(summary) => sanitize(summary.as_str()),
        None => sanitize(text),
    };
    if cleaned.as_str().is_empty() {
        None
    } else {
        Some(truncate(cleaned.as_str(), MAX_BANNER_LEN))
    }
}

// ---------------------------------------------------------------------
// Grabbing
// ---------------------------------------------------------------------

/// The text that was read from a service: nothing where no bytes came.
pub fn received_text(data: &[u8]) -> (r: Option<String>)
    ensures
        match r {
            Some(t) => data@.len() > 0 && t@ == lossy(data@),
            None => data@.len() == 0,
        },
{
    if data.len() == 0 {
        None
    } else {
        Some(lossy_text(data))
    }
}

/// What a banner grab does after the passive read.
pub enum GrabStep {
    /// The service spoke: this is its banner, if it amounts to one.
    Done(Option<String>),
    /// Nothing arrived: send the HTTP probe and read again.
    SendProbe,
}

/// Decides what follows the passive read. A service that spoke unsolicited is
/// not probed; one that did not probably waits for a request.
pub fn after_passive_read(greeting: Option<&str>) -> (step: GrabStep)
    ensures
        match greeting {
            Some(text) => match step {
                GrabStep::Done(Some(b)) => banner_of(text@) == Some(b@),
                GrabStep::Done(None) => banner_of(text@) is None,
                GrabStep::SendProbe => false,
            },
            None => step == GrabStep::SendProbe,
        },
{
    match greeting {
        Some(text) => GrabStep::Done(finalize(text)),
        None => GrabStep::SendProbe,
    }
}

/// The request sent to a service that waits for one. A malformed request is
/// enough to provoke a response worth reading.
pub fn probe_request(ip: &str) -> (out: String)
    ensures
        out@ == "HEAD / HTTP/1.0\r\nHost: "@ + ip@ + "\r\nConnection: close\r\n\r\n"@,
{
    let chars = chars_of(ip);
    compose(
        "HEAD / HTTP/1.0\r\nHost: ",
        chars.as_slice(),
        "\r\nConnection: close\r\n\r\n",
    )
}

// ---------------------------------------------------------------------
// Laws
// ---------------------------------------------------------------------

/// Whether a character can stand in one line: no control character, and no
/// white space but the space.
pub open spec fn in_line(c: char) -> bool {
    !control(c) && (white_space(c) ==> c == ' ')
}

/// Whether a text holds no control characters, no white space but spaces, and
/// no two spaces in a row.
pub open spec fn one_line(s: Seq<char>) -> bool {
    &&& forall|i: int| 0 <= i < s.len() ==> in_line(#[trigger] s[i])
    &&& forall|i: int, j: int|
        0 <= i && j == i + 1 && j < s.len() ==> !(#[trigger] s[i] == ' ' && #[trigger] s[j] == ' ')
}

/// Whether a text neither begins nor ends in white space.
pub open spec fn trimmed(s: Seq<char>) -> bool {
    s.len() > 0 ==> !white_space(s[0]) && !white_space(s.last())
}

/// A collapsed text keeps its last character, and is one line.
proof fn lemma_collapsed(s: Seq<char>)
    ensures
        s.len() > 0 ==> collapsed(s).len() > 0 && collapsed(s).last() == blank(s.last()),
        one_line(collapsed(s)),
    decreases s.len(),
{
    if s.len() > 0 {
        let front = s.drop_last();
        lemma_collapsed(front);
        if front.len() > 0 {
            assert(front.last() == s[s.len() - 2]);
        }
    }
}

/// Text that is one line already is not changed by collapsing.
proof fn lemma_collapsed_again(s: Seq<char>)
    requires
        one_line(s),
    ensures
        collapsed(s) == s,
    decreases s.len(),
{
    if s.len() > 0 {
        let front = s.drop_last();
        assert forall|i: int| 0 <= i < front.len() implies in_line(#[trigger] front[i]) by {
            assert(front[i] == s[i]);
        }
        assert forall|i: int, j: int| 0 <= i && j == i + 1 && j < front.len() implies !(
        #[trigger] front[i] == ' ' && #[trigger] front[j] == ' ') by {
            assert(front[i] == s[i] && front[j] == s[j]);
        }
        lemma_collapsed_again(front);
        assert(in_line(s[s.len() - 1]));
        if s.len() > 1 {
            assert(in_line(s[s.len() - 2]));
            assert(!(s[s.len() - 2] == ' ' && s[s.len() - 1] == ' '));
        }
        assert(collapsed(s) =~= s);
    } else {
        assert(collapsed(s) =~= s);
    }
}

/// Text without white space at its ends is not changed by trimming.
proof fn lemma_trimmed_again(s: Seq<char>)
    requires
        trimmed(s),
    ensures
        trim(s) == s,
{
}

/// A cleaned text has no control characters, no white space but single spaces
/// and none of those at its ends, and cleaning it again changes nothing.
pub proof fn law_sanitized(raw: Seq<char>)
    ensures
        one_line(sanitized(raw)),
        trimmed(sanitized(raw)),
        sanitized(sanitized(raw)) == sanitized(raw),
{
    let s = collapsed(raw);
    lemma_collapsed(raw);
    lemma_trim(s);
    let (a, b) = choose|a: int, b: int|
        0 <= a <= b <= s.len() && trim(s) == #[trigger] s.subrange(a, b);
    let t = sanitized(raw);
    assert forall|i: int| 0 <= i < t.len() implies in_line(#[trigger] t[i]) by {
        assert(t[i] == s[a + i]);
    }
    assert forall|i: int, j: int| 0 <= i && j == i + 1 && j < t.len() implies !(#[trigger] t[i]
        == ' ' && #[trigger] t[j] == ' ') by {
        assert(t[i] == s[a + i] && t[j] == s[a + j]);
    }
    lemma_collapsed_again(t);
    lemma_trimmed_again(t);
}

/// A banner is never empty, has at most `MAX_BANNER_LEN` characters, and
/// prints as one line.
pub proof fn law_banners_fit(text: Seq<char>)
    ensures
        banner_of(text) matches Some(b) ==> 1 <= b.len() <= MAX_BANNER_LEN && one_line(b),
{
    let source = match http_summary(text) {
        Some(s) => s,
        None => text,
    };
    law_sanitized(source);
    let cleaned = sanitized(source);
    if let Some(b) = banner_of(text) {
        if cleaned.len() > MAX_BANNER_LEN {
            let n = MAX_BANNER_LEN - 1;
            assert forall|i: int| 0 <= i < b.len() implies in_line(#[trigger] b[i]) by {
                if i < n {
                    assert(b[i] == cleaned[i]);
                }
            }
            assert forall|i: int, j: int| 0 <= i && j == i + 1 && j < b.len() implies !(
            #[trigger] b[i] == ' ' && #[trigger] b[j] == ' ') by {
                if j < n {
                    assert(b[i] == cleaned[i] && b[j] == cleaned[j]);
                }
            }
        }
    }
}

/// Every open port gets a label that is not empty, whether or not a banner
/// came, and a guess ends in a question mark.
pub proof fn law_labels(text: Seq<char>, port: u16)
    ensures
        label_text(banner_of(text), port).len() > 0,
        label_text(None, port).len() > 0,
        service_name(port) is Some ==> label_text(None, port).last() == '?',
{
    law_banners_fit(text);
    reveal_strlit("?");
    reveal_strlit("-");
}

/// Whether a character leaves a mark: it is neither a control character nor
/// white space.
pub open spec fn visible(c: char) -> bool {
    !control(c) && !white_space(c)
}

/// The visible characters of a text, in order.
pub open spec fn visible_of(s: Seq<char>) -> Seq<char>
    decreases s.len(),
{
    if s.len() == 0 {
        seq![]
    } else if visible(s.last()) {
        visible_of(s.drop_last()).push(s.last())
    } else {
        visible_of(s.drop_last())
    }
}

/// Whether all characters of a text are visible.
pub open spec fn all_visible(s: Seq<char>) -> bool {
    forall|i: int| 0 <= i < s.len() ==> visible(#[trigger] s[i])
}

/// Whether no character of a text is visible.
pub open spec fn none_visible(s: Seq<char>) -> bool {
    forall|i: int| 0 <= i < s.len() ==> !visible(#[trigger] s[i])
}

proof fn lemma_visible_concat(a: Seq<char>, b: Seq<char>)
    ensures
        visible_of(a + b) == visible_of(a) + visible_of(b),
    decreases b.len(),
{
    if b.len() == 0 {
        assert(a + b =~= a);
        assert(visible_of(a) + visible_of(b) =~= visible_of(a));
    } else {
        lemma_visible_concat(a, b.drop_last());
        assert((a + b).drop_last() =~= a + b.drop_last());
        assert(visible_of(a + b) =~= visible_of(a) + visible_of(b));
    }
}

/// A text has visible characters exactly where one of its characters is
/// visible.
proof fn lemma_visible_some(s: Seq<char>)
    ensures
        visible_of(s).len() == 0 <==> none_visible(s),
    decreases s.len(),
{
    if s.len() > 0 {
        let front = s.drop_last();
        lemma_visible_some(front);
        if none_visible(s) {
            assert forall|i: int| 0 <= i < front.len() implies !visible(#[trigger] front[i]) by {
                assert(front[i] == s[i]);
            }
            assert(!visible(s[s.len() - 1]));
        }
        if visible_of(s).len() == 0 {
            assert forall|i: int| 0 <= i < s.len() implies !visible(#[trigger] s[i]) by {
                if i < front.len() {
                    assert(!visible(front[i]));
                }
            }
        }
    }
}

proof fn lemma_visible_collapsed(s: Seq<char>)
    ensures
        visible_of(collapsed(s)) == visible_of(s),
    decreases s.len(),
{
    if s.len() > 0 {
        let front = s.drop_last();
        lemma_visible_collapsed(front);
        let kept = collapsed(front).push(blank(s.last()));
        assert(kept.drop_last() =~= collapsed(front));
    } else {
        assert(collapsed(s) =~= s);
    }
}

proof fn lemma_visible_trim_start(s: Seq<char>)
    ensures
        visible_of(trim_start(s)) == visible_of(s),
    decreases s.len(),
{
    if s.len() > 0 && white_space(s[0]) {
        lemma_visible_trim_start(s.skip(1));
        assert(s =~= seq![s[0]] + s.skip(1));
        lemma_visible_concat(seq![s[0]], s.skip(1));
        lemma_visible_some(seq![s[0]]);
        assert(visible_of(seq![s[0]]) + visible_of(s.skip(1)) =~= visible_of(s.skip(1)));
    }
}

proof fn lemma_visible_trim_end(s: Seq<char>)
    ensures
        visible_of(trim_end(s)) == visible_of(s),
    decreases s.len(),
{
    if s.len() > 0 && white_space(s.last()) {
        lemma_visible_trim_end(s.drop_last());
    }
}

/// Cleaning keeps every visible character, in order.
pub proof fn law_cleaning_keeps_the_text(raw: Seq<char>)
    ensures
        visible_of(sanitized(raw)) == visible_of(raw),
        sanitized(raw).len() == 0 <==> none_visible(raw),
{
    lemma_visible_collapsed(raw);
    lemma_visible_trim_start(collapsed(raw));
    lemma_visible_trim_end(trim_start(collapsed(raw)));
    lemma_visible_some(raw);
    lemma_visible_some(sanitized(raw));
    law_sanitized(raw);
    let s = sanitized(raw);
    if s.len() > 0 {
        assert(in_line(s[0]));
        assert(visible(s[0]));
    }
}

/// Two texts that do not meet in spaces collapse separately.
proof fn lemma_collapsed_concat(a: Seq<char>, b: Seq<char>)
    requires
        a.len() > 0 && b.len() > 0 ==> !(blank(a.last()) == ' ' && blank(b[0]) == ' '),
    ensures
        collapsed(a + b) == collapsed(a) + collapsed(b),
    decreases b.len(),
{
    let s = a + b;
    if b.len() == 0 {
        assert(s =~= a);
        assert(collapsed(a) + collapsed(b) =~= collapsed(a));
    } else {
        let less = b.drop_last();
        assert(s.drop_last() =~= a + less);
        lemma_collapsed_concat(a, less);
        assert(s.last() == b.last());
        if b.len() > 1 {
            assert(s[s.len() - 2] == b[b.len() - 2]);
        } else if a.len() > 0 {
            assert(s[s.len() - 2] == a.last());
            assert(b[0] == b.last());
        }
        assert(collapsed(s) =~= collapsed(a) + collapsed(b));
    }
}

/// A gap collapses to one space.
proof fn lemma_collapsed_gap(gap: Seq<char>)
    requires
        none_visible(gap),
        gap.len() > 0,
    ensures
        collapsed(gap) == seq![' '],
    decreases gap.len(),
{
    assert(!visible(gap[gap.len() - 1]));
    if gap.len() > 1 {
        let less = gap.drop_last();
        assert forall|i: int| 0 <= i < less.len() implies !visible(#[trigger] less[i]) by {
            assert(less[i] == gap[i]);
        }
        assert(!visible(gap[gap.len() - 2]));
        lemma_collapsed_gap(less);
    } else {
        assert(gap.drop_last() =~= seq![]);
        assert(collapsed(seq![]) =~= seq![]);
        assert(collapsed(gap) =~= seq![' ']);
    }
}

/// A text with visible characters at both ends keeps them.
proof fn lemma_collapsed_ends(s: Seq<char>)
    requires
        s.len() > 0,
    ensures
        collapsed(s).len() > 0,
        visible(s.last()) ==> collapsed(s).last() == s.last(),
        visible(s[0]) ==> collapsed(s)[0] == s[0],
    decreases s.len(),
{
    lemma_collapsed(s);
    if s.len() > 1 {
        lemma_collapsed_ends(s.drop_last());
    } else {
        assert(collapsed(s.drop_last()) =~= seq![]);
    }
}

/// Cleaning a text of visible characters changes nothing.
pub proof fn law_visible_text_is_clean(word: Seq<char>)
    requires
        all_visible(word),
    ensures
        sanitized(word) == word,
{
    assert forall|i: int| 0 <= i < word.len() implies in_line(#[trigger] word[i]) && word[i]
        != ' ' by {
        assert(visible(word[i]));
    }
    lemma_collapsed_again(word);
    if word.len() > 0 {
        assert(visible(word[0]) && visible(word[word.len() - 1]));
    }
    lemma_trimmed_again(word);
}

/// Whatever stands between two visible characters, as long as none of it is
/// visible, becomes one space; at the ends of a text it becomes nothing.
pub proof fn law_gaps_collapse(a: Seq<char>, gap: Seq<char>, b: Seq<char>)
    requires
        a.len() > 0,
        visible(a.last()),
        gap.len() > 0,
        none_visible(gap),
        b.len() > 0,
        visible(b[0]),
    ensures
        sanitized(a + gap + b) == sanitized(a) + seq![' '] + sanitized(b),
        sanitized(a + gap) == sanitized(a),
        sanitized(gap + b) == sanitized(b),
{
    let x = collapsed(a);
    let y = collapsed(b);
    let none = Seq::<char>::empty();
    lemma_collapsed_gap(gap);
    lemma_collapsed_ends(a);
    lemma_collapsed_ends(b);
    lemma_collapsed_concat(a, gap);
    lemma_collapsed_concat(gap, b);
    lemma_collapsed_concat(a + gap, b);
    assert((a + gap).last() == gap.last());
    assert(a + gap + b =~= (a + gap) + b);
    assert(collapsed(a + gap + b) == x + seq![' '] + y);

    lemma_trim_start(x);
    lemma_trim_end(y);
    let xs = trim_start(x);
    let ye = trim_end(y);
    let dropped = x.len() - xs.len();
    let kept = ye.len() as int;
    assert(xs.len() > 0) by {
        if xs.len() == 0 {
            lemma_visible_trim_start(x);
            lemma_visible_some(x);
            lemma_visible_some(xs);
            assert(visible(x[x.len() - 1]));
        }
    }
    assert(ye.len() > 0) by {
        if ye.len() == 0 {
            assert(white_space(y[0]));
        }
    }
    assert(xs.last() == x.last());
    assert(ye[0] == y[0]);
    lemma_before_is_white(x);
    let core = xs + seq![' '] + ye;
    assert(x =~= x.take(dropped) + xs);
    assert(y =~= ye + y.skip(kept));
    assert forall|i: int| 0 <= i < y.skip(kept).len() implies white_space(
        #[trigger] y.skip(kept)[i],
    ) by {
        assert(y.skip(kept)[i] == y[kept + i]);
    }
    assert(ye.last() == trim_end(y).last());
    law_trim(x.take(dropped), core, y.skip(kept));
    assert(x + seq![' '] + y =~= x.take(dropped) + core + y.skip(kept));

    law_trim(x.take(dropped), xs, none);
    assert(x =~= x.take(dropped) + xs + none);
    law_trim(x.take(dropped), xs, seq![' ']);
    assert(x + seq![' '] =~= x.take(dropped) + xs + seq![' ']);
    law_trim(none, ye, y.skip(kept));
    assert(y =~= none + ye + y.skip(kept));
    law_trim(seq![' '], ye, y.skip(kept));
    assert(seq![' '] + y =~= seq![' '] + ye + y.skip(kept));
}

/// What trimming the start of a text drops is white space.
proof fn lemma_before_is_white(s: Seq<char>)
    ensures
        trim_start(s).len() <= s.len(),
        all_white(s.take(s.len() - trim_start(s).len())),
    decreases s.len(),
{
    lemma_trim_start(s);
    let n = s.len() - trim_start(s).len();
    if s.len() > 0 && white_space(s[0]) {
        let less = s.skip(1);
        lemma_before_is_white(less);
        assert forall|i: int| 0 <= i < s.take(n).len() implies white_space(#[trigger] s.take(n)[i]) by {
            if i > 0 {
                assert(less.take(n - 1)[i - 1] == s.take(n)[i]);
            }
        }
    }
}

/// A text that is too long keeps all it can, one character less than the
/// limit, and ends in an ellipsis. One that is not stays.
pub proof fn law_truncate(s: Seq<char>, max: int)
    requires
        max >= 1,
    ensures
        s.len() <= max ==> clipped(s, max) == s,
        s.len() > max ==> clipped(s, max).len() == max && clipped(s, max).last() == '…'
            && clipped(s, max).take(max - 1) == s.take(max - 1),
{
    if s.len() > max {
        assert(clipped(s, max).take(max - 1) =~= s.take(max - 1));
    }
}

/// The first piece of a text begins the text.
proof fn lemma_first_piece(s: Seq<char>, pat: Seq<char>)
    requires
        pat.len() > 0,
    ensures
        split(s, pat).len() > 0,
        split(s, pat)[0].is_prefix_of(s),
{
    lemma_find_from(s, pat, 0);
    match find(s, pat) {
        Some(k) => {
            assert(split(s, pat)[0] == s.take(k));
        },
        None => {
            assert(s =~= s.take(s.len() as int));
        },
    }
}

/// A text that does not begin with `HTTP/` is its own banner: all of it,
/// cleaned. The banner has the visible characters of the whole text, unless
/// that is too long, and there is none only where nothing is visible.
pub proof fn law_plain_banner(text: Seq<char>)
    requires
        !(text.len() >= 5 && text.take(5) == seq!['H', 'T', 'T', 'P', '/']),
    ensures
        banner_of(text) is None <==> none_visible(text),
        banner_of(text) matches Some(b) ==> {
            &&& sanitized(text).len() <= 72 ==> b == sanitized(text) && visible_of(b) == visible_of(
                text,
            )
            &&& sanitized(text).len() > 72 ==> b == sanitized(text).take(71).push('…')
        },
{
    let all = split(text, seq!['\r', '\n']);
    reveal_strlit("HTTP/");
    lemma_first_piece(text, seq!['\r', '\n']);
    if begins_with(all[0], "HTTP/"@) {
        assert(text.take(5) =~= all[0].take(5)) by {
            assert(all[0] =~= text.take(all[0].len() as int));
        }
        assert(text.take(5) =~= seq!['H', 'T', 'T', 'P', '/']);
    }
    law_cleaning_keeps_the_text(text);
}

/// Lines that are headers other than `Server:` do not count.
proof fn lemma_other_headers(headers: Seq<Seq<char>>, rest: Seq<Seq<char>>)
    requires
        forall|i: int| 0 <= i < headers.len() ==> other_header(#[trigger] headers[i]),
    ensures
        server_value(headers + rest) == server_value(rest),
    decreases headers.len(),
{
    let all = headers + rest;
    if headers.len() == 0 {
        assert(all =~= rest);
    } else {
        let less = headers.skip(1);
        assert forall|i: int| 0 <= i < less.len() implies other_header(#[trigger] less[i]) by {
            assert(less[i] == headers[i + 1]);
        }
        lemma_other_headers(less, rest);
        assert(all[0] == headers[0]);
        assert(other_header(headers[0]));
        reveal_strlit("server:");
        assert("server:"@ =~= seq!['s', 'e', 'r', 'v', 'e', 'r', ':']);
        assert(all.skip(1) =~= less + rest);
    }
}

/// Whether a line is a header line that does not begin with `server:` in any
/// letter case, or has nothing behind it.
pub open spec fn other_header(line: Seq<char>) -> bool {
    &&& line.len() > 0
    &&& !line.contains('\r')
    &&& line.len() <= 7 || lower(line.take(7)) != seq!['s', 'e', 'r', 'v', 'e', 'r', ':']
}

/// Whether a line is the status line of an HTTP response.
pub open spec fn status_line(line: Seq<char>) -> bool {
    &&& line.len() >= 5
    &&& line.take(5) == seq!['H', 'T', 'T', 'P', '/']
    &&& !line.contains('\r')
}

/// A status line is no `Server:` header.
proof fn lemma_status_line(status: Seq<char>)
    requires
        status_line(status),
    ensures
        begins_with(status, "HTTP/"@),
        other_header(status),
{
    reveal_strlit("HTTP/");
    assert("HTTP/"@ =~= seq!['H', 'T', 'T', 'P', '/']);
    if status.len() > 7 {
        assert(status.take(5)[0] == 'H');
        assert(lower(status.take(7))[0] == 'h');
    }
}

/// An HTTP response is summed up by its status line and what its first
/// `Server:` header says, in whatever letter case the header is written.
/// Nothing behind that header matters. A header that says nothing is left
/// out.
pub proof fn law_server_header(
    status: Seq<char>,
    headers: Seq<Seq<char>>,
    name: Seq<char>,
    value: Seq<char>,
    rest: Seq<char>,
)
    requires
        status_line(status),
        forall|i: int| 0 <= i < headers.len() ==> other_header(#[trigger] headers[i]),
        name.len() == 7,
        lower(name) == seq!['s', 'e', 'r', 'v', 'e', 'r', ':'],
        value.len() > 0,
        !value.contains('\r'),
    ensures
        http_summary(
            join(seq![status] + headers + seq![name + value], seq!['\r', '\n'])
                + seq!['\r', '\n'] + rest,
        ) == Some(
            if trim(value).len() > 0 {
                status + seq![';', ' ', 'S', 'e', 'r', 'v', 'e', 'r', ':', ' '] + trim(value)
            } else {
                status
            },
        ),
{
    let crlf = seq!['\r', '\n'];
    let line = name + value;
    let front = seq![status] + headers;
    let parts = front + seq![line];
    let all = parts + split(rest, crlf);
    reveal_strlit("server:");
    reveal_strlit("; Server: ");
    assert("server:"@ =~= seq!['s', 'e', 'r', 'v', 'e', 'r', ':']);
    assert("; Server: "@ =~= seq![';', ' ', 'S', 'e', 'r', 'v', 'e', 'r', ':', ' ']);
    lemma_status_line(status);
    assert(line.take(7) =~= name);
    assert(line.skip(7) =~= value);
    if line.contains('\r') {
        let k = choose|k: int| 0 <= k < line.len() && line[k] == '\r';
        if k < 7 {
            assert(name[k] == '\r');
            assert(lower(name)[k] == '\r');
        } else {
            assert(value[k - 7] == '\r');
        }
    }
    assert forall|i: int| 0 <= i < front.len() implies other_header(#[trigger] front[i]) by {
        if i > 0 {
            assert(front[i] == headers[i - 1]);
        }
    }
    assert forall|i: int| 0 <= i < parts.len() implies !(#[trigger] parts[i]).contains('\r') by {
        if i < front.len() {
            assert(parts[i] == front[i]);
            assert(other_header(front[i]));
        }
    }
    law_split_long_front(parts, crlf, rest);
    assert(all[0] == status);
    let tail = seq![line] + split(rest, crlf);
    assert(all =~= front + tail);
    lemma_other_headers(front, tail);
    assert(tail[0] == line);
    assert(server_value(tail) == Some(trim(value)));
}

/// An HTTP response without a `Server:` header is summed up by its status
/// line. The empty line ends the headers: whatever stands behind it is the
/// body and does not matter.
pub proof fn law_no_server_header(status: Seq<char>, headers: Seq<Seq<char>>, body: Seq<char>)
    requires
        status_line(status),
        forall|i: int| 0 <= i < headers.len() ==> other_header(#[trigger] headers[i]),
    ensures
        http_summary(
            join(seq![status] + headers + seq![Seq::<char>::empty()], seq!['\r', '\n'])
                + seq!['\r', '\n'] + body,
        ) == Some(status),
        http_summary(join(seq![status] + headers, seq!['\r', '\n'])) == Some(status),
{
    let crlf = seq!['\r', '\n'];
    let none = Seq::<char>::empty();
    let front = seq![status] + headers;
    let parts = front + seq![none];
    let all = parts + split(body, crlf);
    lemma_status_line(status);
    assert forall|i: int| 0 <= i < front.len() implies other_header(#[trigger] front[i])
        && !front[i].contains('\r') by {
        if i > 0 {
            assert(front[i] == headers[i - 1]);
        }
    }
    assert forall|i: int| 0 <= i < parts.len() implies !(#[trigger] parts[i]).contains('\r') by {
        if i < front.len() {
            assert(parts[i] == front[i]);
            assert(other_header(front[i]));
        }
    }
    law_split_long_front(parts, crlf, body);
    law_split_undoes_long_join(front, crlf);
    assert(all[0] == status);
    let tail = seq![none] + split(body, crlf);
    assert(all =~= front + tail);
    lemma_other_headers(front, tail);
    assert(tail[0] == none);
    assert(front + Seq::<Seq<char>>::empty() =~= front);
    lemma_other_headers(front, Seq::empty());
    assert(front[0] == status);
}

/// The banner of an HTTP response is its summary, cleaned and, where it is too
/// long, cut.
pub proof fn law_http_banner(text: Seq<char>, summary: Seq<char>)
    requires
        http_summary(text) == Some(summary),
    ensures
        banner_of(text) is None <==> none_visible(summary),
        banner_of(text) matches Some(b) ==> {
            &&& sanitized(summary).len() <= 72 ==> b == sanitized(summary)
            &&& sanitized(summary).len() > 72 ==> b == sanitized(summary).take(71).push('…')
        },
{
    law_cleaning_keeps_the_text(summary);
}

/// A banner is its own label. Without one, the name of a well-known port is
/// the label, with a question mark behind it, and a dash that of any other.
pub proof fn law_label(banner: Seq<char>, port: u16)
    ensures
        label_text(Some(banner), port) == banner,
        service_name(port) matches Some(name) ==> label_text(None, port) == name.push('?'),
        service_name(port) is None ==> label_text(None, port) == seq!['-'],
{
    reveal_strlit("?");
    reveal_strlit("-");
    assert("-"@ =~= seq!['-']);
    if let Some(name) = service_name(port) {
        assert(name + "?"@ =~= name.push('?'));
    }
}

/// The well-known ports and their names: these, and no others.
pub proof fn law_service_names(port: u16)
    ensures
        port == 21 ==> service_name(port) == Some("ftp"@),
        port == 22 ==> service_name(port) == Some("ssh"@),
        port == 23 ==> service_name(port) == Some("telnet"@),
        port == 25 ==> service_name(port) == Some("smtp"@),
        port == 53 ==> service_name(port) == Some("domain"@),
        port == 80 ==> service_name(port) == Some("http"@),
        port == 110 ==> service_name(port) == Some("pop3"@),
        port == 111 ==> service_name(port) == Some("rpcbind"@),
        port == 135 ==> service_name(port) == Some("msrpc"@),
        port == 139 ==> service_name(port) == Some("netbios-ssn"@),
        port == 143 ==> service_name(port) == Some("imap"@),
        port == 389 ==> service_name(port) == Some("ldap"@),
        port == 443 ==> service_name(port) == Some("https"@),
        port == 445 ==> service_name(port) == Some("microsoft-ds"@),
        port == 465 ==> service_name(port) == Some("smtps"@),
        port == 587 ==> service_name(port) == Some("submission"@),
        port == 636 ==> service_name(port) == Some("ldaps"@),
        port == 853 ==> service_name(port) == Some("dns-over-tls"@),
        port == 993 ==> service_name(port) == Some("imaps"@),
        port == 995 ==> service_name(port) == Some("pop3s"@),
        port == 1433 ==> service_name(port) == Some("ms-sql-s"@),
        port == 1521 ==> service_name(port) == Some("oracle"@),
        port == 2049 ==> service_name(port) == Some("nfs"@),
        port == 3000 || port == 5000 ==> service_name(port) == Some("http-dev"@),
        port == 3306 ==> service_name(port) == Some("mysql"@),
        port == 3389 ==> service_name(port) == Some("rdp"@),
        port == 5432 ==> service_name(port) == Some("postgresql"@),
        port == 5900 ==> service_name(port) == Some("vnc"@),
        port == 6379 ==> service_name(port) == Some("redis"@),
        port == 8000 || port == 8888 ==> service_name(port) == Some("http-alt"@),
        port == 8080 ==> service_name(port) == Some("http-proxy"@),
        port == 8443 ==> service_name(port) == Some("https-alt"@),
        port == 9200 ==> service_name(port) == Some("elasticsearch"@),
        port == 11211 ==> service_name(port) == Some("memcached"@),
        port == 27017 ==> service_name(port) == Some("mongodb"@),
        service_name(port) is Some <==> seq![
            21u16, 22, 23, 25, 53, 80, 110, 111, 135, 139, 143, 389, 443, 445, 465, 587, 636, 853,
            993, 995, 1433, 1521, 2049, 3000, 3306, 3389, 5000, 5432, 5900, 6379, 8000, 8080, 8443,
            8888, 9200, 11211, 27017,
        ].contains(port),
{
    let known = seq![
        21u16, 22, 23, 25, 53, 80, 110, 111, 135, 139, 143, 389, 443, 445, 465, 587, 636, 853, 993,
        995, 1433, 1521, 2049, 3000, 3306, 3389, 5000, 5432, 5900, 6379, 8000, 8080, 8443, 8888,
        9200, 11211, 27017,
    ];
    assert(known.len() == 37);
    if known.contains(port) {
        let k = choose|k: int| 0 <= k < known.len() && known[k] == port;
        assert(known[k] == port);
    }
    assert(known[0] == 21 && known[1] == 22 && known[2] == 23 && known[3] == 25 && known[4] == 53);
    assert(known[5] == 80 && known[6] == 110 && known[7] == 111 && known[8] == 135 && known[9]
        == 139);
    assert(known[10] == 143 && known[11] == 389 && known[12] == 443 && known[13] == 445
        && known[14] == 465);
    assert(known[15] == 587 && known[16] == 636 && known[17] == 853 && known[18] == 993
        && known[19] == 995);
    assert(known[20] == 1433 && known[21] == 1521 && known[22] == 2049 && known[23] == 3000
        && known[24] == 3306);
    assert(known[25] == 3389 && known[26] == 5000 && known[27] == 5432 && known[28] == 5900
        && known[29] == 6379);
    assert(known[30] == 8000 && known[31] == 8080 && known[32] == 8443 && known[33] == 8888
        && known[34] == 9200);
    assert(known[35] == 11211 && known[36] == 27017);
}

} // verus!
