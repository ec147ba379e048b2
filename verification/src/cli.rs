//! Command line parsing.
//!
//! The important property is that a malformed value is a hard error:
//! `--threads abc` never silently runs with the default.

use vstd::prelude::*;

use crate::net::{
    cidr_of, holds_address, law_block_is_normalized, law_cidr_text, law_dotted_characters, parse_cidr,
    parse_dotted, said, Cidr, Ipv4Addr, MAX_AUTO_HOSTS,
};
use crate::scan::MAX_THREADS;
use crate::sort::strictly_ascending;
use crate::text::{
    all_white, ascii_lower, chars_of, compose, decimal, decimal_of, is_digit, law_number_round_trip,
    law_split_concat, law_trim, lemma_decimal, lemma_digits_lack, lemma_found_behind, lemma_not_found,
    lemma_split_len, lower, number_of, parse_number, same_ignoring_case, same_text, split, split_chars,
    split_chars_once, split_once, string_views, trim, trim_chars, views, white_space,
};

verus! {

pub const DEFAULT_PORTS: &'static str = "1-1024";

pub const DEFAULT_THREADS: usize = 256;

pub const DEFAULT_TIMEOUT_MS: u64 = 300;

/// Version of this tool.
pub const VERSION: &'static str = "0.1.0";

// ---------------------------------------------------------------------
// Port lists
// ---------------------------------------------------------------------

/// The port that a text names, or what is wrong with it.
pub open spec fn port_number(s: Seq<char>) -> Result<u16, Seq<char>> {
    match parse_number(s, u32::MAX as nat) {
        None => Err("'"@ + s + "' is not a valid port number"@),
        Some(n) => if n == 0 {
            Err("port 0 is not scannable"@)
        } else if n > 65535 {
            Err("port "@ + decimal(n) + " is above the maximum of 65535"@)
        } else {
            Ok(n as u16)
        },
    }
}

/// The first and last port of one entry in the port list `list`, or what is
/// wrong with it.
pub open spec fn port_entry(entry: Seq<char>, list: Seq<char>) -> Result<(u16, u16), Seq<char>> {
    let part = trim(entry);
    if part.len() == 0 {
        Err("empty entry in port list '"@ + list + "'"@)
    } else {
        match split_once(part, seq!['-']) {
            Some((start, end)) => match (port_number(trim(start)), port_number(trim(end))) {
                (Err(e), _) => Err(e),
                (Ok(_), Err(e)) => Err(e),
                (Ok(lo), Ok(hi)) => if lo > hi {
                    Err("port range '"@ + part + "' runs backwards"@)
                } else {
                    Ok((lo, hi))
                },
            },
            None => match port_number(part) {
                Ok(p) => Ok((p, p)),
                Err(e) => Err(e),
            },
        }
    }
}

/// What is wrong with the first entry that is wrong.
pub open spec fn port_list_error(parts: Seq<Seq<char>>, list: Seq<char>) -> Option<Seq<char>>
    decreases parts.len(),
{
    if parts.len() == 0 {
        None
    } else {
        match port_entry(parts[0], list) {
            Err(e) => Some(e),
            Ok(_) => port_list_error(parts.skip(1), list),
        }
    }
}

/// Whether an entry covers a port.
pub open spec fn covers(entry: Seq<char>, list: Seq<char>, port: u16) -> bool {
    match port_entry(entry, list) {
        Ok((lo, hi)) => lo <= port <= hi,
        Err(_) => false,
    }
}

/// Whether some entry covers a port.
pub open spec fn selects(parts: Seq<Seq<char>>, list: Seq<char>, port: u16) -> bool {
    exists|i: int| 0 <= i < parts.len() && #[trigger] covers(parts[i], list, port)
}

/// The selected ports from 1 to `n`, ascending.
pub open spec fn selection(parts: Seq<Seq<char>>, list: Seq<char>, n: nat) -> Seq<u16>
    decreases n,
{
    if n == 0 {
        seq![]
    } else if selects(parts, list, n as u16) {
        selection(parts, list, (n - 1) as nat).push(n as u16)
    } else {
        selection(parts, list, (n - 1) as nat)
    }
}

/// Every port but 0.
pub open spec fn all_ports() -> Seq<u16> {
    Seq::new(65535, |i: int| (i + 1) as u16)
}

/// Whether a port specification asks for every port.
pub open spec fn asks_for_all(spec_text: Seq<char>) -> bool {
    lower(trim(spec_text)) == "all"@
}

/// The ports that a specification selects, each once and ascending, or what
/// is wrong with it.
pub open spec fn port_selection(spec_text: Seq<char>) -> Result<Seq<u16>, Seq<char>> {
    let parts = split(spec_text, seq![',']);
    if asks_for_all(spec_text) {
        Ok(all_ports())
    } else {
        match port_list_error(parts, spec_text) {
            Some(e) => Err(e),
            None => Ok(selection(parts, spec_text, 65535)),
        }
    }
}

/// A list of ports, or a message, seen as sequences.
pub open spec fn ports_view(r: Result<Vec<u16>, String>) -> Result<Seq<u16>, Seq<char>> {
    match r {
        Ok(v) => Ok(v@),
        Err(e) => Err(e@),
    }
}

pub fn parse_port(s: &[char]) -> (r: Result<u16, String>)
    ensures
        said(r) == port_number(s@),
{
    match number_of(s, u32::MAX as u64) {
        None => Err(compose("'", s, "' is not a valid port number")),
        Some(n) => {
            if n == 0 {
                Err("port 0 is not scannable".to_owned())
            } else if n > 65535 {
                let mut message = "port ".to_owned();
                message.append(decimal_of(n).as_str());
                message.append(" is above the maximum of 65535");
                Err(message)
            } else {
                Ok(n as u16)
            }
        },
    }
}

fn parse_entry(entry: &[char], list: &[char]) -> (r: Result<(u16, u16), String>)
    ensures
        said(r) == port_entry(entry@, list@),
{
    let part = trim_chars(entry);
    if part.len() == 0 {
        return Err(compose("empty entry in port list '", list, "'"));
    }
    let dash: [char; 1] = ['-'];
    assert(dash@ =~= seq!['-']);
    match split_chars_once(part, &dash) {
        Some((start, end)) => {
            let lo = match parse_port(trim_chars(start)) {
                Ok(p) => p,
                Err(e) => return Err(e),
            };
            let hi = match parse_port(trim_chars(end)) {
                Ok(p) => p,
                Err(e) => return Err(e),
            };
            if lo > hi {
                return Err(compose("port range '", part, "' runs backwards"));
            }
            Ok((lo, hi))
        },
        None => match parse_port(part) {
            Ok(p) => Ok((p, p)),
            Err(e) => Err(e),
        },
    }
}

/// Every port but 0, ascending.
fn every_port() -> (out: Vec<u16>)
    ensures
        out@ == all_ports(),
{
    let mut out: Vec<u16> = Vec::new();
    for p in 0..65535u16
        invariant
            out@ == all_ports().take(p as int),
    {
        out.push(p + 1);
        assert(out@ =~= all_ports().take(p + 1));
    }
    assert(out@ =~= all_ports());
    out
}

/// Marks the ports from `lo` to `hi`.
fn mark(table: &mut Vec<bool>, lo: u16, hi: u16)
    requires
        old(table)@.len() == 65536,
        lo <= hi,
    ensures
        final(table)@.len() == 65536,
        forall|p: int|
            0 <= p < 65536 ==> #[trigger] final(table)@[p] == (old(table)@[p] || lo <= p <= hi),
{
    let mut p: usize = lo as usize;
    while p <= hi as usize
        invariant
            lo <= p <= hi + 1,
            table@.len() == 65536,
            forall|q: int|
                0 <= q < 65536 ==> #[trigger] table@[q] == (old(table)@[q] || lo <= q < p),
        decreases hi + 1 - p,
    {
        table.set(p, true);
        p += 1;
    }
}

/// Parses a port specification: `80`, `1-1024`, `22,80,443`, `1-100,8080`,
/// or `all`.
pub fn parse_ports(spec: &str) -> (r: Result<Vec<u16>, String>)
    ensures
        ports_view(r) == port_selection(spec@),
{
    let chars = chars_of(spec);
    let all_word = chars_of("all");
    proof {
        reveal_strlit("all");
        assert(lower("all"@) =~= "all"@);
    }
    if same_ignoring_case(trim_chars(chars.as_slice()), all_word.as_slice()) {
        return Ok(every_port());
    }
    let comma: [char; 1] = [','];
    assert(comma@ =~= seq![',']);
    let parts = split_chars(chars.as_slice(), &comma);
    let ghost pieces = views(parts@);
    let mut table: Vec<bool> = vec![false; 65536];
    assert(pieces.skip(0) =~= pieces);
    for i in 0..parts.len()
        invariant
            chars@ == spec@,
            !asks_for_all(spec@),
            pieces == views(parts@),
            pieces == split(spec@, seq![',']),
            port_list_error(pieces, spec@) == port_list_error(pieces.skip(i as int), spec@),
            table@.len() == 65536,
            forall|p: int|
                0 <= p < 65536 ==> #[trigger] table@[p] == selects(
                    pieces.take(i as int),
                    spec@,
                    p as u16,
                ),
    {
        let ghost before = table@;
        assert(pieces.skip(i as int)[0] == parts@[i as int]@);
        assert(pieces.skip(i as int).skip(1) =~= pieces.skip(i + 1));
        match parse_entry(parts[i].as_slice(), chars.as_slice()) {
            Ok((lo, hi)) => {
                mark(&mut table, lo, hi);
                assert forall|p: int| 0 <= p < 65536 implies #[trigger] table@[p] == selects(
                    pieces.take(i + 1),
                    spec@,
                    p as u16,
                ) by {
                    lemma_selects_more(pieces, spec@, i as int, p as u16);
                    assert(before[p] == selects(pieces.take(i as int), spec@, p as u16));
                }
            },
            Err(e) => {
                return Err(e);
            },
        }
    }
    assert(pieces.take(parts@.len() as int) =~= pieces);
    let mut ports: Vec<u16> = Vec::new();
    for p in 0..65535u16
        invariant
            table@.len() == 65536,
            forall|q: int|
                0 <= q < 65536 ==> #[trigger] table@[q] == selects(pieces, spec@, q as u16),
            ports@ == selection(pieces, spec@, p as nat),
    {
        if table[p as usize + 1] {
            ports.push(p + 1);
        }
    }
    Ok(ports)
}

/// One more entry selects what it covers.
proof fn lemma_selects_more(parts: Seq<Seq<char>>, list: Seq<char>, i: int, port: u16)
    requires
        0 <= i < parts.len(),
    ensures
        selects(parts.take(i + 1), list, port) == (selects(parts.take(i), list, port) || covers(
            parts[i],
            list,
            port,
        )),
{
    let more = parts.take(i + 1);
    let less = parts.take(i);
    if selects(less, list, port) {
        let k = choose|k: int| 0 <= k < less.len() && #[trigger] covers(less[k], list, port);
        assert(covers(more[k], list, port));
    }
    if covers(parts[i], list, port) {
        assert(covers(more[i], list, port));
    }
    if selects(more, list, port) {
        let k = choose|k: int| 0 <= k < more.len() && #[trigger] covers(more[k], list, port);
        if k < i {
            assert(covers(less[k], list, port));
        }
    }
}

// ---------------------------------------------------------------------
// Arguments
// ---------------------------------------------------------------------

/// The network that a scan covers.
#[derive(Debug, Clone, PartialEq, Eq)]
pub enum NetworkSpec {
    /// Derive the block from the local interface address.
    Auto,
    Explicit(Cidr),
}

#[derive(Debug, Clone, PartialEq, Eq)]
pub enum Target {
    /// A single host, given as a literal IP or a DNS name.
    Host(String),
    /// Discover live hosts only.
    Discover(NetworkSpec),
    /// Discover live hosts, then port-scan each one.
    Lan(NetworkSpec),
}

#[derive(Debug, Clone, PartialEq, Eq)]
pub struct Config {
    pub target: Target,
    pub ports: Vec<u16>,
    pub threads: usize,
    /// Per-connection timeout in milliseconds.
    pub timeout_ms: u64,
    pub allow_large: bool,
    pub banners: bool,
}

#[derive(Debug)]
pub enum Parsed {
    Run(Box<Config>),
    Help,
    Version,
}

/// A target with its host name seen as characters.
pub ghost enum TargetView {
    Host(Seq<char>),
    Discover(NetworkSpec),
    Lan(NetworkSpec),
}

/// A configuration with its texts and lists seen as sequences.
pub ghost struct ConfigView {
    pub target: TargetView,
    pub ports: Seq<u16>,
    pub threads: nat,
    pub timeout_ms: nat,
    pub allow_large: bool,
    pub banners: bool,
}

/// What a command line asks for.
pub ghost enum ParsedView {
    Run(ConfigView),
    Help,
    Version,
}

impl View for Target {
    type V = TargetView;

    open spec fn view(&self) -> TargetView {
        match self {
            Target::Host(h) => TargetView::Host(h@),
            Target::Discover(n) => TargetView::Discover(*n),
            Target::Lan(n) => TargetView::Lan(*n),
        }
    }
}

impl View for Config {
    type V = ConfigView;

    open spec fn view(&self) -> ConfigView {
        ConfigView {
            target: self.target@,
            ports: self.ports@,
            threads: self.threads as nat,
            timeout_ms: self.timeout_ms as nat,
            allow_large: self.allow_large,
            banners: self.banners,
        }
    }
}

impl View for Parsed {
    type V = ParsedView;

    open spec fn view(&self) -> ParsedView {
        match self {
            Parsed::Run(c) => ParsedView::Run((**c)@),
            Parsed::Help => ParsedView::Help,
            Parsed::Version => ParsedView::Version,
        }
    }
}

/// What the arguments read so far have set.
pub struct Settings {
    pub target: Option<Target>,
    pub ports: Option<String>,
    pub threads: Option<usize>,
    pub timeout_ms: Option<u64>,
    pub allow_large: bool,
    pub banners: bool,
}

/// Settings with their texts seen as sequences.
pub ghost struct SettingsView {
    pub target: Option<TargetView>,
    pub ports: Option<Seq<char>>,
    pub threads: Option<nat>,
    pub timeout_ms: Option<nat>,
    pub allow_large: bool,
    pub banners: bool,
}

impl View for Settings {
    type V = SettingsView;

    open spec fn view(&self) -> SettingsView {
        SettingsView {
            target: match self.target {
                Some(t) => Some(t@),
                None => None,
            },
            ports: match self.ports {
                Some(p) => Some(p@),
                None => None,
            },
            threads: match self.threads {
                Some(n) => Some(n as nat),
                None => None,
            },
            timeout_ms: match self.timeout_ms {
                Some(n) => Some(n as nat),
                None => None,
            },
            allow_large: self.allow_large,
            banners: self.banners,
        }
    }
}

/// Settings before any argument.
pub open spec fn no_settings() -> SettingsView {
    SettingsView {
        target: None,
        ports: None,
        threads: None,
        timeout_ms: None,
        allow_large: false,
        banners: false,
    }
}

pub open spec fn starts_with_dash(s: Seq<char>) -> bool {
    s.len() > 0 && s[0] == '-'
}

/// The value that follows the flag at `i`, or what is said where there is
/// none. A lone dash is a value, anything else that starts with a dash is
/// not.
pub open spec fn flag_value(args: Seq<Seq<char>>, i: int, flag: Seq<char>) -> Result<
    Seq<char>,
    Seq<char>,
> {
    if i + 1 >= args.len() {
        Err(flag + " expects a value"@)
    } else if starts_with_dash(args[i + 1]) && args[i + 1].len() > 1 {
        Err(flag + " expects a value, but found '"@ + args[i + 1] + "'"@)
    } else {
        Ok(args[i + 1])
    }
}

/// The argument after the one at `i`, if it looks like a positional value.
pub open spec fn optional_value(args: Seq<Seq<char>>, i: int) -> Option<Seq<char>> {
    if i + 1 < args.len() && !starts_with_dash(args[i + 1]) {
        Some(args[i + 1])
    } else {
        None
    }
}

/// The network that a specification names, or what is wrong with it.
pub open spec fn network_spec(spec_text: Option<Seq<char>>) -> Result<NetworkSpec, Seq<char>> {
    match spec_text {
        None => Ok(NetworkSpec::Auto),
        Some(s) => if s == "auto"@ {
            Ok(NetworkSpec::Auto)
        } else {
            match parse_cidr(s) {
                Ok(c) => Ok(NetworkSpec::Explicit(c)),
                Err(e) => Err(e),
            }
        },
    }
}

/// Settings with a target, or what is said where one is set already.
pub open spec fn with_target(st: SettingsView, target: TargetView) -> Result<
    SettingsView,
    Seq<char>,
> {
    if st.target is Some {
        Err("more than one target given; pass a single host or one of --lan/--discover"@)
    } else {
        Ok(SettingsView { target: Some(target), ..st })
    }
}

pub open spec fn is_help(arg: Seq<char>) -> bool {
    arg == "-h"@ || arg == "--help"@
}

pub open spec fn is_version(arg: Seq<char>) -> bool {
    arg == "-V"@ || arg == "--version"@
}

pub open spec fn is_discover(arg: Seq<char>) -> bool {
    arg == "-d"@ || arg == "--discover"@
}

pub open spec fn is_lan(arg: Seq<char>) -> bool {
    arg == "-l"@ || arg == "--lan"@
}

pub open spec fn is_ports(arg: Seq<char>) -> bool {
    arg == "-p"@ || arg == "--ports"@
}

pub open spec fn is_threads(arg: Seq<char>) -> bool {
    arg == "-t"@ || arg == "--threads"@
}

pub open spec fn is_timeout(arg: Seq<char>) -> bool {
    arg == "--timeout"@
}

pub open spec fn is_allow_large(arg: Seq<char>) -> bool {
    arg == "--allow-large"@
}

pub open spec fn is_banners(arg: Seq<char>) -> bool {
    arg == "-b"@ || arg == "--banners"@
}

/// The thread count that a value gives, or what is wrong with it.
pub open spec fn thread_count(raw: Seq<char>) -> Result<nat, Seq<char>> {
    match parse_number(raw, usize::MAX as nat) {
        None => Err("--threads expects a whole number, got '"@ + raw + "'"@),
        Some(n) => if n == 0 {
            Err("--threads must be at least 1"@)
        } else {
            Ok(n)
        },
    }
}

/// The timeout that a value gives, or what is wrong with it.
pub open spec fn timeout_value(raw: Seq<char>) -> Result<nat, Seq<char>> {
    match parse_number(raw, u64::MAX as nat) {
        None => Err("--timeout expects milliseconds, got '"@ + raw + "'"@),
        Some(n) => if n == 0 {
            Err("--timeout must be at least 1ms"@)
        } else {
            Ok(n)
        },
    }
}

/// What the argument at `i` does to the settings, with the number of
/// arguments it takes up, or what is wrong with it. It is none that asks for
/// help or the version.
pub open spec fn apply_arg(args: Seq<Seq<char>>, i: int, st: SettingsView) -> Result<
    (SettingsView, int),
    Seq<char>,
> {
    let arg = args[i];
    if is_discover(arg) || is_lan(arg) {
        let value = optional_value(args, i);
        match network_spec(value) {
            Err(e) => Err(e),
            Ok(n) => match with_target(
                st,
                if is_discover(arg) {
                    TargetView::Discover(n)
                } else {
                    TargetView::Lan(n)
                },
            ) {
                Err(e) => Err(e),
                Ok(st2) => Ok(
                    (
                        st2,
                        if value is Some {
                            2int
                        } else {
                            1int
                        },
                    ),
                ),
            },
        }
    } else if is_ports(arg) {
        match flag_value(args, i, arg) {
            Err(e) => Err(e),
            Ok(v) => Ok((SettingsView { ports: Some(v), ..st }, 2)),
        }
    } else if is_threads(arg) {
        match flag_value(args, i, arg) {
            Err(e) => Err(e),
            Ok(v) => match thread_count(v) {
                Err(e) => Err(e),
                Ok(n) => Ok((SettingsView { threads: Some(n), ..st }, 2)),
            },
        }
    } else if is_timeout(arg) {
        match flag_value(args, i, arg) {
            Err(e) => Err(e),
            Ok(v) => match timeout_value(v) {
                Err(e) => Err(e),
                Ok(n) => Ok((SettingsView { timeout_ms: Some(n), ..st }, 2)),
            },
        }
    } else if is_allow_large(arg) {
        Ok((SettingsView { allow_large: true, ..st }, 1))
    } else if is_banners(arg) {
        Ok((SettingsView { banners: true, ..st }, 1))
    } else if starts_with_dash(arg) && arg.len() > 1 {
        Err("unknown option '"@ + arg + "' (try --help)"@)
    } else {
        match with_target(st, TargetView::Host(arg)) {
            Err(e) => Err(e),
            Ok(st2) => Ok((st2, 1)),
        }
    }
}

/// The configuration that settings amount to, defaults filled in, or what is
/// missing or wrong.
pub open spec fn finish(st: SettingsView) -> Result<ParsedView, Seq<char>> {
    match st.target {
        None => Err("no target given (try --help)"@),
        Some(target) => match port_selection(
            match st.ports {
                Some(p) => p,
                None => DEFAULT_PORTS@,
            },
        ) {
            Err(e) => Err(e),
            Ok(ports) => Ok(
                ParsedView::Run(
                    ConfigView {
                        target,
                        ports,
                        threads: match st.threads {
                            Some(n) => n,
                            None => DEFAULT_THREADS as nat,
                        },
                        timeout_ms: match st.timeout_ms {
                            Some(n) => n,
                            None => DEFAULT_TIMEOUT_MS as nat,
                        },
                        allow_large: st.allow_large,
                        banners: st.banners,
                    },
                ),
            ),
        },
    }
}

/// What the arguments from `i` on ask for, given the settings so far. The
/// first request for help or the version, and the first error, decide.
pub open spec fn parse_from(args: Seq<Seq<char>>, i: int, st: SettingsView) -> Result<
    ParsedView,
    Seq<char>,
>
    decreases args.len() - i,
{
    if i >= args.len() {
        finish(st)
    } else if is_help(args[i]) {
        Ok(ParsedView::Help)
    } else if is_version(args[i]) {
        Ok(ParsedView::Version)
    } else {
        match apply_arg(args, i, st) {
            Err(e) => Err(e),
            Ok((st2, used)) => parse_from(args, i + used, st2),
        }
    }
}

/// What a command line asks for, or what is wrong with it.
pub open spec fn command_line(args: Seq<Seq<char>>) -> Result<ParsedView, Seq<char>> {
    parse_from(args, 0, no_settings())
}

/// What came of a command line, its texts seen as sequences.
pub open spec fn parsed_view(r: Result<Parsed, String>) -> Result<ParsedView, Seq<char>> {
    match r {
        Ok(p) => Ok(p@),
        Err(e) => Err(e@),
    }
}

fn is_text(s: &str, other: &str) -> (b: bool)
    ensures
        b == (s@ == other@),
{
    let chars = chars_of(s);
    same_text(chars.as_slice(), other)
}

fn dashed(s: &str) -> (b: bool)
    ensures
        b == starts_with_dash(s@),
{
    let chars = chars_of(s);
    chars.len() > 0 && chars[0] == '-'
}

fn dashed_option(s: &str) -> (b: bool)
    ensures
        b == (starts_with_dash(s@) && s@.len() > 1),
{
    let chars = chars_of(s);
    chars.len() > 1 && chars[0] == '-'
}

/// Sets the target, which can be done once.
pub fn set_target(slot: &mut Option<Target>, value: Target) -> (r: Result<(), String>)
    ensures
        match r {
            Ok(()) => *old(slot) is None && *final(slot) == Some(value),
            Err(e) => *old(slot) is Some && *final(slot) == *old(slot) && e@
                == "more than one target given; pass a single host or one of --lan/--discover"@,
        },
{
    if slot.is_some() {
        return Err(
            "more than one target given; pass a single host or one of --lan/--discover".to_owned(),
        );
    }
    *slot = Some(value);
    Ok(())
}

/// Consumes the next argument as a flag's value.
pub fn take_value(args: &[String], i: &mut usize, flag: &str) -> (r: Result<String, String>)
    requires
        *old(i) < usize::MAX,
    ensures
        match r {
            Ok(v) => flag_value(string_views(args@), *old(i) as int, flag@) == Ok::<
                Seq<char>,
                Seq<char>,
            >(v@) && *final(i) == *old(i) + 1 && *final(i) < args@.len(),
            Err(e) => flag_value(string_views(args@), *old(i) as int, flag@) == Err::<
                Seq<char>,
                Seq<char>,
            >(e@) && *final(i) == *old(i),
        },
{
    let at: usize = *i + 1;
    if at >= args.len() {
        let mut message = flag.to_owned();
        message.append(" expects a value");
        return Err(message);
    }
    assert(string_views(args@)[at as int] == args@[at as int]@);
    if dashed_option(args[at].as_str()) {
        let mut message = flag.to_owned();
        message.append(" expects a value, but found '");
        message.append(args[at].as_str());
        message.append("'");
        return Err(message);
    }
    *i = at;
    Ok(args[at].clone())
}

/// Consumes the next argument only if it looks like a positional value.
pub fn take_optional_positional(args: &[String], i: &mut usize) -> (r: Option<String>)
    requires
        *old(i) < usize::MAX,
    ensures
        match r {
            Some(v) => optional_value(string_views(args@), *old(i) as int) == Some(v@) && *final(i)
                == *old(i) + 1 && *final(i) < args@.len(),
            None => optional_value(string_views(args@), *old(i) as int) is None && *final(i)
                == *old(i),
        },
{
    let at: usize = *i + 1;
    if at >= args.len() {
        return None;
    }
    assert(string_views(args@)[at as int] == args@[at as int]@);
    if dashed(args[at].as_str()) {
        return None;
    }
    *i = at;
    Some(args[at].clone())
}

/// Reads a network specification: nothing, `auto` or a CIDR block.
pub fn parse_network_spec(spec: Option<&str>) -> (r: Result<NetworkSpec, String>)
    ensures
        said(r) == network_spec(
            match spec {
                Some(s) => Some(s@),
                None => None,
            },
        ),
        r matches Ok(NetworkSpec::Explicit(c)) ==> c.wf(),
{
    match spec {
        None => Ok(NetworkSpec::Auto),
        Some(s) => {
            if is_text(s, "auto") {
                Ok(NetworkSpec::Auto)
            } else {
                let chars = chars_of(s);
                match cidr_of(chars.as_slice()) {
                    Ok(c) => Ok(NetworkSpec::Explicit(c)),
                    Err(e) => Err(e),
                }
            }
        },
    }
}

fn parse_threads(raw: &str) -> (r: Result<usize, String>)
    ensures
        match r {
            Ok(n) => thread_count(raw@) == Ok::<nat, Seq<char>>(n as nat),
            Err(e) => thread_count(raw@) == Err::<nat, Seq<char>>(e@),
        },
{
    let chars = chars_of(raw);
    match number_of(chars.as_slice(), usize::MAX as u64) {
        None => Err(compose("--threads expects a whole number, got '", chars.as_slice(), "'")),
        Some(n) => {
            if n == 0 {
                Err("--threads must be at least 1".to_owned())
            } else {
                Ok(n as usize)
            }
        },
    }
}

fn parse_timeout(raw: &str) -> (r: Result<u64, String>)
    ensures
        match r {
            Ok(n) => timeout_value(raw@) == Ok::<nat, Seq<char>>(n as nat),
            Err(e) => timeout_value(raw@) == Err::<nat, Seq<char>>(e@),
        },
{
    let chars = chars_of(raw);
    match number_of(chars.as_slice(), u64::MAX) {
        None => Err(compose("--timeout expects milliseconds, got '", chars.as_slice(), "'")),
        Some(n) => {
            if n == 0 {
                Err("--timeout must be at least 1ms".to_owned())
            } else {
                Ok(n)
            }
        },
    }
}

/// Applies the argument at `i` to the settings and moves `i` to the last
/// argument it takes up.
fn take_arg(args: &[String], i: &mut usize, st: &mut Settings) -> (r: Result<(), String>)
    requires
        *old(i) < args@.len(),
        !is_help(args@[*old(i) as int]@),
        !is_version(args@[*old(i) as int]@),
    ensures
        match r {
            Ok(()) => apply_arg(string_views(args@), *old(i) as int, old(st)@) == Ok::<
                (SettingsView, int),
                Seq<char>,
            >((final(st)@, *final(i) + 1 - *old(i))) && *final(i) < args@.len(),
            Err(e) => apply_arg(string_views(args@), *old(i) as int, old(st)@) == Err::<
                (SettingsView, int),
                Seq<char>,
            >(e@),
        },
{
    let at: usize = *i;
    assert(string_views(args@)[at as int] == args@[at as int]@);
    let arg = args[at].as_str();
    if is_text(arg, "-d") || is_text(arg, "--discover") || is_text(arg, "-l") || is_text(
        arg,
        "--lan",
    ) {
        let spec = take_optional_positional(args, i);
        let parsed = match &spec {
            Some(s) => parse_network_spec(Some(s.as_str())),
            None => parse_network_spec(None),
        };
        let network = match parsed {
            Ok(n) => n,
            Err(e) => return Err(e),
        };
        let mode = if is_text(arg, "-d") || is_text(arg, "--discover") {
            Target::Discover(network)
        } else {
            Target::Lan(network)
        };
        set_target(&mut st.target, mode)
    } else if is_text(arg, "-p") || is_text(arg, "--ports") {
        match take_value(args, i, arg) {
            Ok(v) => {
                st.ports = Some(v);
                Ok(())
            },
            Err(e) => Err(e),
        }
    } else if is_text(arg, "-t") || is_text(arg, "--threads") {
        let raw = match take_value(args, i, arg) {
            Ok(v) => v,
            Err(e) => return Err(e),
        };
        match parse_threads(raw.as_str()) {
            Ok(n) => {
                st.threads = Some(n);
                Ok(())
            },
            Err(e) => Err(e),
        }
    } else if is_text(arg, "--timeout") {
        let raw = match take_value(args, i, arg) {
            Ok(v) => v,
            Err(e) => return Err(e),
        };
        match parse_timeout(raw.as_str()) {
            Ok(n) => {
                st.timeout_ms = Some(n);
                Ok(())
            },
            Err(e) => Err(e),
        }
    } else if is_text(arg, "--allow-large") {
        st.allow_large = true;
        Ok(())
    } else if is_text(arg, "-b") || is_text(arg, "--banners") {
        st.banners = true;
        Ok(())
    } else if dashed_option(arg) {
        let mut message = "unknown option '".to_owned();
        message.append(arg);
        message.append("' (try --help)");
        Err(message)
    } else {
        set_target(&mut st.target, Target::Host(arg.to_owned()))
    }
}

/// Parses the arguments of a command line, without the program name.
pub fn parse(args: &[String]) -> (r: Result<Parsed, String>)
    ensures
        parsed_view(r) == command_line(string_views(args@)),
{
    let ghost words = string_views(args@);
    let mut st = Settings {
        target: None,
        ports: None,
        threads: None,
        timeout_ms: None,
        allow_large: false,
        banners: false,
    };
    assert(st@ == no_settings());
    let mut i: usize = 0;
    while i < args.len()
        invariant
            words == string_views(args@),
            i <= args@.len(),
            command_line(words) == parse_from(words, i as int, st@),
        decreases args@.len() - i,
    {
        assert(words[i as int] == args@[i as int]@);
        let arg = args[i].as_str();
        if is_text(arg, "-h") || is_text(arg, "--help") {
            return Ok(Parsed::Help);
        }
        if is_text(arg, "-V") || is_text(arg, "--version") {
            return Ok(Parsed::Version);
        }
        match take_arg(args, &mut i, &mut st) {
            Ok(()) => {},
            Err(e) => return Err(e),
        }
        i += 1;
    }
    let target = match st.target {
        Some(t) => t,
        None => return Err("no target given (try --help)".to_owned()),
    };
    let selected = match &st.ports {
        Some(p) => parse_ports(p.as_str()),
        None => parse_ports(DEFAULT_PORTS),
    };
    let ports = match selected {
        Ok(p) => p,
        Err(e) => return Err(e),
    };
    Ok(
        Parsed::Run(
            Box::new(
                Config {
                    target,
                    ports,
                    threads: match st.threads {
                        Some(n) => n,
                        None => DEFAULT_THREADS,
                    },
                    timeout_ms: match st.timeout_ms {
                        Some(n) => n,
                        None => DEFAULT_TIMEOUT_MS,
                    },
                    allow_large: st.allow_large,
                    banners: st.banners,
                },
            ),
        ),
    )
}

// ---------------------------------------------------------------------
// Help
// ---------------------------------------------------------------------

/// The help text, for the name that the program was started under.
pub open spec fn usage_text(program: Seq<char>) -> Seq<char> {
    program
        + " "@
        + VERSION@
        + " - a personal network recon / pentesting toolkit

Currently: multi-threaded TCP port scanning, live-host discovery, hostname
resolution (DNS PTR + mDNS), MAC address lookup, and optional service banner
grabbing. More capabilities are on the way.

USAGE:
  "@
        + program
        + " <host> [options]              scan one host
  "@
        + program
        + " --discover [cidr|auto] [opts] list live hosts on a network
  "@
        + program
        + " --lan [cidr|auto] [options]   list live hosts, then scan each

OPTIONS:
  -p, --ports <spec>    ports to scan: 1-1024, 22,80,443, or all [default: "@
        + DEFAULT_PORTS@
        + "]
  -b, --banners         grab a service banner from each open port (adds a
                         round trip per open port; off by default)
  -t, --threads <n>     worker threads, capped at "@
        + decimal(MAX_THREADS as nat)
        + " [default: "@
        + decimal(DEFAULT_THREADS as nat)
        + "]
      --timeout <ms>    per-connection timeout [default: "@
        + decimal(DEFAULT_TIMEOUT_MS as nat)
        + "]
      --allow-large     permit networks larger than "@
        + decimal(MAX_AUTO_HOSTS as nat)
        + " addresses
  -h, --help            show this help
  -V, --version         show the version

EXAMPLES:
  "@
        + program
        + " 127.0.0.1 --ports 1-1024
  "@
        + program
        + " scanme.example.com -p 22,80,443 --banners
  "@
        + program
        + " --discover auto
  "@
        + program
        + " --lan 192.168.1.0/24 --ports 1-1024 --threads 400 --banners

Only scan hosts and networks you own or have written authorization to test."@
}

pub fn usage(program: &str) -> (out: String)
    ensures
        out@ == usage_text(program@),
{
    let mut out = program.to_owned();
    out.append(" ");
    out.append(VERSION);
    out.append(" - a personal network recon / pentesting toolkit

Currently: multi-threaded TCP port scanning, live-host discovery, hostname
resolution (DNS PTR + mDNS), MAC address lookup, and optional service banner
grabbing. More capabilities are on the way.

USAGE:
  ");
    out.append(program);
    out.append(" <host> [options]              scan one host
  ");
    out.append(program);
    out.append(" --discover [cidr|auto] [opts] list live hosts on a network
  ");
    out.append(program);
    out.append(" --lan [cidr|auto] [options]   list live hosts, then scan each

OPTIONS:
  -p, --ports <spec>    ports to scan: 1-1024, 22,80,443, or all [default: ");
    out.append(DEFAULT_PORTS);
    out.append("]
  -b, --banners         grab a service banner from each open port (adds a
                         round trip per open port; off by default)
  -t, --threads <n>     worker threads, capped at ");
    out.append(decimal_of(MAX_THREADS as u64).as_str());
    out.append(" [default: ");
    out.append(decimal_of(DEFAULT_THREADS as u64).as_str());
    out.append("]
      --timeout <ms>    per-connection timeout [default: ");
    out.append(decimal_of(DEFAULT_TIMEOUT_MS).as_str());
    out.append("]
      --allow-large     permit networks larger than ");
    out.append(decimal_of(MAX_AUTO_HOSTS).as_str());
    out.append(" addresses
  -h, --help            show this help
  -V, --version         show the version

EXAMPLES:
  ");
    out.append(program);
    out.append(" 127.0.0.1 --ports 1-1024
  ");
    out.append(program);
    out.append(" scanme.example.com -p 22,80,443 --banners
  ");
    out.append(program);
    out.append(" --discover auto
  ");
    out.append(program);
    out.append(" --lan 192.168.1.0/24 --ports 1-1024 --threads 400 --banners

Only scan hosts and networks you own or have written authorization to test.");
    out
}

// ---------------------------------------------------------------------
// Laws
// ---------------------------------------------------------------------

/// The ports selected up to `n` rise, and are those that an entry covers.
proof fn lemma_selection(parts: Seq<Seq<char>>, list: Seq<char>, n: nat)
    requires
        n <= 65535,
    ensures
        strictly_ascending(selection(parts, list, n)),
        forall|port: u16| #[trigger]
            selection(parts, list, n).contains(port) <==> 1 <= port <= n && selects(
                parts,
                list,
                port,
            ),
    decreases n,
{
    if n > 0 {
        let before = selection(parts, list, (n - 1) as nat);
        let all = selection(parts, list, n);
        lemma_selection(parts, list, (n - 1) as nat);
        assert forall|i: int| 0 <= i < before.len() implies #[trigger] before[i] < n by {
            assert(before.contains(before[i]));
        }
        assert forall|port: u16| #[trigger] all.contains(port) <==> 1 <= port <= n && selects(
            parts,
            list,
            port,
        ) by {
            if before.contains(port) {
                let k = choose|k: int| 0 <= k < before.len() && before[k] == port;
                assert(all[k] == port);
            }
            if all.contains(port) && port != n {
                let k = choose|k: int| 0 <= k < all.len() && all[k] == port;
                assert(before[k] == port);
                assert(before.contains(port));
            }
            if port == n && selects(parts, list, port) {
                assert(all[before.len() as int] == port);
            }
        }
    }
}

/// An entry without fault covers a port, and ports from 1 on only.
proof fn lemma_entry(entry: Seq<char>, list: Seq<char>)
    ensures
        port_entry(entry, list) matches Ok((lo, hi)) ==> 1 <= lo <= hi,
{
}

/// Entries that are all without fault.
proof fn lemma_no_error(parts: Seq<Seq<char>>, list: Seq<char>)
    requires
        port_list_error(parts, list) is None,
        parts.len() > 0,
    ensures
        port_entry(parts[0], list) is Ok,
{
}

/// A port specification that is accepted selects at least one port. The
/// ports come out ascending, each once, and they are those that its entries
/// cover, or all from 1 to 65535 where it asks for all.
pub proof fn law_selected_ports(spec_text: Seq<char>)
    ensures
        port_selection(spec_text) matches Ok(ports) ==> {
            &&& ports.len() >= 1
            &&& strictly_ascending(ports)
            &&& forall|port: u16| #[trigger]
                ports.contains(port) <==> if asks_for_all(spec_text) {
                    port >= 1
                } else {
                    selects(split(spec_text, seq![',']), spec_text, port)
                }
        },
{
    let parts = split(spec_text, seq![',']);
    if let Ok(ports) = port_selection(spec_text) {
        if asks_for_all(spec_text) {
            assert forall|port: u16| #[trigger] ports.contains(port) <==> port >= 1 by {
                if port >= 1 {
                    assert(ports[port - 1] == port);
                }
            }
        } else {
            lemma_selection(parts, spec_text, 65535);
            lemma_split_len(spec_text, seq![',']);
            lemma_no_error(parts, spec_text);
            lemma_entry(parts[0], spec_text);
            let (lo, hi) = port_entry(parts[0], spec_text)->Ok_0;
            assert(covers(parts[0], spec_text, lo));
            assert(ports.contains(lo));
            assert forall|port: u16| #[trigger] ports.contains(port) <==> selects(
                parts,
                spec_text,
                port,
            ) by {
                if selects(parts, spec_text, port) {
                    let k = choose|k: int|
                        0 <= k < parts.len() && #[trigger] covers(parts[k], spec_text, port);
                    lemma_entry(parts[k], spec_text);
                }
            }
        }
    }
}

/// A number in decimal notation is left alone by trimming.
proof fn lemma_decimal_is_trimmed(n: nat)
    ensures
        trim(decimal(n)) == decimal(n),
        decimal(n).len() >= 1,
        !decimal(n).contains('-'),
{
    let s = decimal(n);
    lemma_decimal(n);
    lemma_digits_lack(s, '-');
    assert(is_digit(s[0]));
    assert(is_digit(s[s.len() - 1]));
}

/// An entry that is a port covers that port, and an entry that is a range
/// covers the ports from its first to its last. A range that runs backwards
/// is refused.
pub proof fn law_port_entries(lo: u16, hi: u16, list: Seq<char>)
    requires
        1 <= lo,
        1 <= hi,
    ensures
        port_entry(decimal(lo as nat), list) == Ok::<(u16, u16), Seq<char>>((lo, lo)),
        ({
            let range = decimal(lo as nat) + seq!['-'] + decimal(hi as nat);
            port_entry(range, list) == (if lo <= hi {
                Ok::<(u16, u16), Seq<char>>((lo, hi))
            } else {
                Err("port range '"@ + range + "' runs backwards"@)
            })
        }),
{
    let a = decimal(lo as nat);
    let b = decimal(hi as nat);
    let range = a + seq!['-'] + b;
    lemma_decimal_is_trimmed(lo as nat);
    lemma_decimal_is_trimmed(hi as nat);
    law_number_round_trip(lo as nat, u32::MAX as nat);
    law_number_round_trip(hi as nat, u32::MAX as nat);
    lemma_not_found(a, '-');
    lemma_found_behind(a, '-', b);
    lemma_decimal(lo as nat);
    lemma_decimal(hi as nat);
    assert(is_digit(a[0]) && is_digit(b[b.len() - 1]));
    assert(range[0] == a[0] && range.last() == b[b.len() - 1]);
    assert(trim(range) == range);
}

/// Whether a target's network, if it names one, is a normalized block.
pub open spec fn target_in_range(target: TargetView) -> bool {
    match target {
        TargetView::Host(_) => true,
        TargetView::Discover(n) | TargetView::Lan(n) => n matches NetworkSpec::Explicit(cidr)
            ==> cidr.wf(),
    }
}

/// A network specification that is accepted names a normalized block.
proof fn lemma_network_spec(spec_text: Option<Seq<char>>)
    ensures
        network_spec(spec_text) matches Ok(NetworkSpec::Explicit(cidr)) ==> cidr.wf(),
{
    if let Some(s) = spec_text {
        if let Some((addr, prefix)) = split_once(s, seq!['/']) {
            if let (Some(a), Some(p)) = (parse_dotted(addr), parse_number(prefix, 255)) {
                if p <= 32 {
                    law_block_is_normalized(a, p as u8);
                }
            }
        }
    }
}

/// Whether what was set is in range.
pub open spec fn settings_in_range(st: SettingsView) -> bool {
    &&& st.target matches Some(target) ==> target_in_range(target)
    &&& st.threads matches Some(n) ==> 1 <= n <= usize::MAX
    &&& st.timeout_ms matches Some(n) ==> 1 <= n <= u64::MAX
}

/// Whether a configuration can be run: a network in range, at least one
/// worker, a timeout of at least a millisecond, and ports to scan, ascending,
/// each once.
pub open spec fn runnable(c: ConfigView) -> bool {
    &&& target_in_range(c.target)
    &&& 1 <= c.threads <= usize::MAX
    &&& 1 <= c.timeout_ms <= u64::MAX
    &&& c.ports.len() >= 1
    &&& strictly_ascending(c.ports)
    &&& forall|port: u16| #[trigger] c.ports.contains(port) ==> port >= 1
}

proof fn lemma_parse_from_runnable(args: Seq<Seq<char>>, i: int, st: SettingsView)
    requires
        0 <= i,
        settings_in_range(st),
    ensures
        parse_from(args, i, st) matches Ok(ParsedView::Run(c)) ==> runnable(c),
    decreases args.len() - i,
{
    if i >= args.len() {
        let spec_text = match st.ports {
            Some(p) => p,
            None => DEFAULT_PORTS@,
        };
        law_selected_ports(spec_text);
        if let Ok(ports) = port_selection(spec_text) {
            assert forall|port: u16| #[trigger] ports.contains(port) implies port >= 1 by {
                if !asks_for_all(spec_text) {
                    let parts = split(spec_text, seq![',']);
                    let k = choose|k: int|
                        0 <= k < parts.len() && #[trigger] covers(parts[k], spec_text, port);
                    lemma_entry(parts[k], spec_text);
                }
            }
        }
    } else if !is_help(args[i]) && !is_version(args[i]) {
        lemma_network_spec(optional_value(args, i));
        if let Ok((next, used)) = apply_arg(args, i, st) {
            lemma_parse_from_runnable(args, i + used, next);
        }
    }
}

/// Every command line that is accepted gives a configuration that can be run.
pub proof fn law_accepted_command_lines_are_runnable(args: Seq<Seq<char>>)
    ensures
        command_line(args) matches Ok(ParsedView::Run(c)) ==> runnable(c),
{
    lemma_parse_from_runnable(args, 0, no_settings());
}

/// Asking for help or the version wins over everything behind it.
pub proof fn law_help_and_version_win(args: Seq<Seq<char>>, i: int, st: SettingsView)
    requires
        0 <= i < args.len(),
    ensures
        is_help(args[i]) ==> parse_from(args, i, st) == Ok::<ParsedView, Seq<char>>(ParsedView::Help),
        is_version(args[i]) ==> parse_from(args, i, st) == Ok::<ParsedView, Seq<char>>(
            ParsedView::Version,
        ),
{
    reveal_strlit("-h");
    reveal_strlit("--help");
    reveal_strlit("-V");
    reveal_strlit("--version");
    assert("-h"@ !~= "-V"@) by {
        assert("-h"@[1] != "-V"@[1]);
    }
    assert("--help"@ !~= "--version"@) by {
        assert("--help"@.len() != "--version"@.len());
    }
    assert("-h"@.len() != "--version"@.len() && "--help"@.len() != "-V"@.len());
}

/// Whether an argument is one of the options.
pub open spec fn known_option(arg: Seq<char>) -> bool {
    ||| is_help(arg)
    ||| is_version(arg)
    ||| is_discover(arg)
    ||| is_lan(arg)
    ||| is_ports(arg)
    ||| is_threads(arg)
    ||| is_timeout(arg)
    ||| is_allow_large(arg)
    ||| is_banners(arg)
}

/// An unknown option is reported as such, not taken for a host.
pub proof fn law_unknown_options_are_reported(args: Seq<Seq<char>>, i: int, st: SettingsView)
    requires
        0 <= i < args.len(),
        starts_with_dash(args[i]),
        args[i].len() > 1,
        !known_option(args[i]),
    ensures
        parse_from(args, i, st) == Err::<ParsedView, Seq<char>>(
            "unknown option '"@ + args[i] + "' (try --help)"@,
        ),
{
}

/// The options have different spellings.
proof fn lemma_options_differ(arg: Seq<char>)
    ensures
        is_threads(arg) || is_timeout(arg) ==> !is_help(arg) && !is_version(arg) && !is_discover(
            arg,
        ) && !is_lan(arg) && !is_ports(arg),
        is_timeout(arg) ==> !is_threads(arg),
        is_discover(arg) || is_lan(arg) ==> !is_help(arg) && !is_version(arg),
        is_ports(arg) ==> !is_help(arg) && !is_version(arg) && !is_discover(arg) && !is_lan(arg),
        is_allow_large(arg) || is_banners(arg) ==> !is_help(arg) && !is_version(arg)
            && !is_discover(arg) && !is_lan(arg) && !is_ports(arg) && !is_threads(arg)
            && !is_timeout(arg),
        is_banners(arg) ==> !is_allow_large(arg),
        known_option(arg) ==> starts_with_dash(arg) && arg.len() > 1,
{
    reveal_strlit("-b");
    reveal_strlit("--banners");
    reveal_strlit("--allow-large");
    reveal_strlit("-h");
    reveal_strlit("--help");
    reveal_strlit("-V");
    reveal_strlit("--version");
    reveal_strlit("-d");
    reveal_strlit("--discover");
    reveal_strlit("-l");
    reveal_strlit("--lan");
    reveal_strlit("-p");
    reveal_strlit("--ports");
    reveal_strlit("-t");
    reveal_strlit("--threads");
    reveal_strlit("--timeout");
    if is_help(arg) || is_version(arg) {
        assert(arg.len() == 2 ==> arg[1] == 'h' || arg[1] == 'V');
        assert(arg.len() == 9 ==> arg[2] == 'v');
    }
    if is_threads(arg) || is_timeout(arg) {
        assert(arg.len() == 2 ==> arg[1] == 't');
        assert(arg.len() == 9 ==> arg[2] == 't' && (arg[3] == 'h' || arg[3] == 'i'));
    }
    if is_discover(arg) || is_lan(arg) {
        assert(arg.len() == 2 ==> arg[1] == 'd' || arg[1] == 'l');
    }
    if is_ports(arg) {
        assert(arg.len() == 2 ==> arg[1] == 'p');
    }
    if is_banners(arg) {
        assert(arg.len() == 2 ==> arg[1] == 'b');
        assert(arg.len() == 9 ==> arg[2] == 'b');
    }
}

/// Whether the argument at `i` names a target: a host, or a network.
pub open spec fn names_target(args: Seq<Seq<char>>, i: int) -> bool {
    ||| !known_option(args[i]) && (!starts_with_dash(args[i]) || args[i].len() == 1)
    ||| (is_discover(args[i]) || is_lan(args[i])) && network_spec(optional_value(args, i)) is Ok
}

/// A second target is refused.
pub proof fn law_one_target_only(args: Seq<Seq<char>>, i: int, st: SettingsView)
    requires
        0 <= i < args.len(),
        st.target is Some,
        names_target(args, i),
    ensures
        parse_from(args, i, st) == Err::<ParsedView, Seq<char>>(
            "more than one target given; pass a single host or one of --lan/--discover"@,
        ),
{
    lemma_options_differ(args[i]);
}

/// A value that is no whole number of at least one is never replaced by a
/// default: `--threads` and `--timeout` refuse it.
pub proof fn law_malformed_numbers_are_errors(args: Seq<Seq<char>>, i: int, st: SettingsView)
    requires
        0 <= i < args.len(),
    ensures
        is_threads(args[i]) && (parse_from(args, i, st) is Ok) ==> i + 1 < args.len()
            && parse_number(args[i + 1], usize::MAX as nat) is Some && parse_number(
            args[i + 1],
            usize::MAX as nat,
        ) != Some(0nat),
        is_timeout(args[i]) && (parse_from(args, i, st) is Ok) ==> i + 1 < args.len()
            && parse_number(args[i + 1], u64::MAX as nat) is Some && parse_number(
            args[i + 1],
            u64::MAX as nat,
        ) != Some(0nat),
{
    lemma_options_differ(args[i]);
}

/// Whether the arguments from `i` on are options that take no target, each
/// with the value it needs: a port list that is accepted, or a number of at
/// least one that fits.
pub open spec fn accepted_options(opts: Seq<Seq<char>>, i: int) -> bool
    decreases opts.len() - i,
{
    if i >= opts.len() {
        i == opts.len()
    } else if is_allow_large(opts[i]) || is_banners(opts[i]) {
        accepted_options(opts, i + 1)
    } else {
        match flag_value(opts, i, opts[i]) {
            Err(_) => false,
            Ok(v) => {
                &&& {
                    ||| is_ports(opts[i]) && port_selection(v) is Ok
                    ||| is_threads(opts[i]) && thread_count(v) is Ok
                    ||| is_timeout(opts[i]) && timeout_value(v) is Ok
                }
                &&& accepted_options(opts, i + 2)
            },
        }
    }
}

/// The settings after the options from `i` on.
pub open spec fn with_options(opts: Seq<Seq<char>>, i: int, st: SettingsView) -> SettingsView
    decreases opts.len() - i,
{
    if i >= opts.len() {
        st
    } else {
        match apply_arg(opts, i, st) {
            Err(_) => st,
            Ok((next, used)) => with_options(opts, i + used, next),
        }
    }
}

/// Whether the ports that were set, if any were, are accepted.
spec fn ports_accepted(st: SettingsView) -> bool {
    st.ports matches Some(p) ==> port_selection(p) is Ok
}

/// Options are read the same way wherever they stand.
proof fn lemma_read_options(
    args: Seq<Seq<char>>,
    k: int,
    opts: Seq<Seq<char>>,
    i: int,
    st: SettingsView,
)
    requires
        0 <= k,
        k + opts.len() <= args.len(),
        args.subrange(k, k + opts.len()) == opts,
        0 <= i,
        accepted_options(opts, i),
    ensures
        parse_from(args, k + i, st) == parse_from(
            args,
            k + opts.len(),
            with_options(opts, i, st),
        ),
        ports_accepted(st) ==> ports_accepted(with_options(opts, i, st)),
    decreases opts.len() - i,
{
    if i < opts.len() {
        lemma_options_differ(opts[i]);
        assert(args[k + i] == opts[i]);
        if !is_allow_large(opts[i]) && !is_banners(opts[i]) {
            assert(i + 1 < opts.len());
            assert(args[k + i + 1] == opts[i + 1]);
            assert(flag_value(args, k + i, args[k + i]) == flag_value(opts, i, opts[i]));
        }
        assert(apply_arg(args, k + i, st) == apply_arg(opts, i, st));
        assert(apply_arg(opts, i, st) is Ok);
        let (next, used) = apply_arg(opts, i, st)->Ok_0;
        lemma_read_options(args, k, opts, i + used, next);
    }
}

/// Options neither look at the target nor change it.
proof fn lemma_options_keep_target(
    opts: Seq<Seq<char>>,
    i: int,
    st: SettingsView,
    target: Option<TargetView>,
)
    requires
        0 <= i,
        accepted_options(opts, i),
    ensures
        with_options(opts, i, (SettingsView { target, ..st })) == (SettingsView {
            target,
            ..with_options(opts, i, st)
        }),
        with_options(opts, i, st).target == st.target,
    decreases opts.len() - i,
{
    if i < opts.len() {
        lemma_options_differ(opts[i]);
        let (next, used) = apply_arg(opts, i, st)->Ok_0;
        assert(apply_arg(opts, i, st) == Ok::<(SettingsView, int), Seq<char>>((next, used)));
        assert(apply_arg(opts, i, (SettingsView { target, ..st })) == Ok::<
            (SettingsView, int),
            Seq<char>,
        >((SettingsView { target, ..next }, used)));
        lemma_options_keep_target(opts, i + used, next, target);
    }
}

/// The default ports are accepted.
proof fn lemma_default_ports()
    ensures
        port_selection(DEFAULT_PORTS@) is Ok,
{
    let s = DEFAULT_PORTS@;
    reveal_strlit("1-1024");
    reveal_strlit("all");
    reveal_with_fuel(decimal, 4);
    assert(decimal(1) =~= seq!['1']);
    assert(decimal(1024) =~= seq!['1', '0', '2', '4']);
    assert(s =~= decimal(1) + seq!['-'] + decimal(1024));
    assert(!s.contains(',')) by {
        assert(forall|i: int| 0 <= i < s.len() ==> s[i] != ',');
    }
    lemma_not_found(s, ',');
    law_port_entries(1, 1024, s);
    let parts = split(s, seq![',']);
    assert(parts =~= seq![s]);
    assert(parts.skip(1) =~= seq![]);
    assert(port_list_error(parts.skip(1), s) is None);
    assert(trim(s) == s);
    assert(!asks_for_all(s)) by {
        assert(lower(s).len() == 6);
    }
}

/// The settings that options around a host amount to.
spec fn settled(before: Seq<Seq<char>>, host: Seq<char>, after: Seq<Seq<char>>) -> SettingsView {
    SettingsView {
        target: Some(TargetView::Host(host)),
        ..with_options(after, 0, with_options(before, 0, no_settings()))
    }
}

/// Options on both sides of a host.
proof fn lemma_host_between(before: Seq<Seq<char>>, host: Seq<char>, after: Seq<Seq<char>>)
    requires
        !starts_with_dash(host) || host.len() == 1,
        accepted_options(before, 0),
        accepted_options(after, 0),
    ensures
        command_line(before + seq![host] + after) == finish(settled(before, host, after)),
{
    let target = Some(TargetView::Host(host));
    let none = no_settings();
    let first = with_options(before, 0, none);
    let n = before.len() as int;
    let m = after.len() as int;
    let args = before + seq![host] + after;
    lemma_options_differ(host);
    lemma_options_keep_target(before, 0, none, target);
    lemma_options_keep_target(after, 0, first, target);
    assert(args.subrange(0, n) =~= before);
    assert(args.subrange(n + 1, n + 1 + m) =~= after);
    assert(args[n] == host);
    lemma_read_options(args, 0, before, 0, none);
    lemma_read_options(args, n + 1, after, 0, (SettingsView { target, ..first }));
}

/// Options behind a host.
proof fn lemma_host_first(before: Seq<Seq<char>>, host: Seq<char>, after: Seq<Seq<char>>)
    requires
        !starts_with_dash(host) || host.len() == 1,
        accepted_options(before, 0),
        accepted_options(after, 0),
    ensures
        command_line(seq![host] + (before + after)) == finish(settled(before, host, after)),
{
    let target = Some(TargetView::Host(host));
    let none = no_settings();
    let first = with_options(before, 0, none);
    let n = before.len() as int;
    let m = after.len() as int;
    let args = seq![host] + (before + after);
    lemma_options_differ(host);
    lemma_options_keep_target(before, 0, none, target);
    lemma_options_keep_target(after, 0, first, target);
    assert(args.subrange(1, 1 + n) =~= before);
    assert(args.subrange(n + 1, n + 1 + m) =~= after);
    assert(args[0] == host);
    lemma_read_options(args, 1, before, 0, (SettingsView { target, ..none }));
    lemma_read_options(args, n + 1, after, 0, (SettingsView { target, ..first }));
}

/// Options before a host.
proof fn lemma_host_last(before: Seq<Seq<char>>, host: Seq<char>, after: Seq<Seq<char>>)
    requires
        !starts_with_dash(host) || host.len() == 1,
        accepted_options(before, 0),
        accepted_options(after, 0),
    ensures
        command_line((before + after) + seq![host]) == finish(settled(before, host, after)),
{
    let target = Some(TargetView::Host(host));
    let none = no_settings();
    let first = with_options(before, 0, none);
    let n = before.len() as int;
    let m = after.len() as int;
    let args = (before + after) + seq![host];
    lemma_options_differ(host);
    lemma_options_keep_target(before, 0, none, target);
    lemma_options_keep_target(after, 0, first, target);
    assert(args.subrange(0, n) =~= before);
    assert(args.subrange(n, n + m) =~= after);
    assert(args[n + m] == host);
    lemma_read_options(args, 0, before, 0, none);
    lemma_read_options(args, n, after, 0, first);
    let done = settled(before, host, after);
    assert(parse_from(args, n + m + 1, done) == finish(done));
}

/// Options may stand before or behind the host: with accepted options on
/// either side of it, a command line runs against that host, with the same
/// configuration as if the host came first or last.
pub proof fn law_options_around_the_host(
    before: Seq<Seq<char>>,
    host: Seq<char>,
    after: Seq<Seq<char>>,
)
    requires
        !starts_with_dash(host) || host.len() == 1,
        accepted_options(before, 0),
        accepted_options(after, 0),
    ensures
        command_line(before + seq![host] + after) == command_line(seq![host] + (before + after)),
        command_line(before + seq![host] + after) == command_line((before + after) + seq![host]),
        command_line(before + seq![host] + after) matches Ok(ParsedView::Run(c)) && c.target
            == TargetView::Host(host),
{
    let none = no_settings();
    lemma_host_between(before, host, after);
    lemma_host_first(before, host, after);
    lemma_host_last(before, host, after);
    assert(before.subrange(0, before.len() as int) =~= before);
    assert(after.subrange(0, after.len() as int) =~= after);
    lemma_read_options(before, 0, before, 0, none);
    lemma_read_options(after, 0, after, 0, with_options(before, 0, none));
    lemma_default_ports();
}

/// The ports from `lo` to `hi`, one after another.
pub open spec fn port_run(lo: u16, hi: u16) -> Seq<u16> {
    Seq::new((hi - lo + 1) as nat, |i: int| (lo + i) as u16)
}

/// A single entry selects the ports it covers.
proof fn lemma_one_entry(entry: Seq<char>, lo: u16, hi: u16, n: nat)
    requires
        1 <= lo <= hi,
        n <= 65535,
        port_entry(entry, entry) == Ok::<(u16, u16), Seq<char>>((lo, hi)),
    ensures
        selection(seq![entry], entry, n) == (if n < lo {
            seq![]
        } else if n <= hi {
            port_run(lo, n as u16)
        } else {
            port_run(lo, hi)
        }),
    decreases n,
{
    let parts = seq![entry];
    if n > 0 {
        lemma_one_entry(entry, lo, hi, (n - 1) as nat);
        let port = n as u16;
        assert(parts[0] == entry);
        assert(covers(parts[0], entry, port) == (lo <= port <= hi));
        assert(selects(parts, entry, port) == (lo <= port <= hi));
        if n == lo {
            assert(seq![].push(port) =~= port_run(lo, port));
        } else if lo < n <= hi {
            assert(port_run(lo, (n - 1) as u16).push(port) =~= port_run(lo, port));
        }
    }
}

/// A number is no list, and not the word for all ports.
proof fn lemma_digits_and_dashes(s: Seq<char>)
    requires
        s.len() > 0,
        forall|i: int| 0 <= i < s.len() ==> is_digit(#[trigger] s[i]) || s[i] == '-',
    ensures
        split(s, seq![',']) == seq![s],
        !asks_for_all(s),
{
    if s.contains(',') {
        let k = choose|k: int| 0 <= k < s.len() && s[k] == ',';
        assert(is_digit(s[k]) || s[k] == '-');
    }
    lemma_not_found(s, ',');
    assert(split(s, seq![',']) =~= seq![s]);
    let none = Seq::<char>::empty();
    assert(is_digit(s[0]) || s[0] == '-');
    assert(is_digit(s[s.len() - 1]) || s[s.len() - 1] == '-');
    assert(none + s + none =~= s);
    law_trim(none, s, none);
    reveal_strlit("all");
    if lower(s) == "all"@ {
        assert(lower(s)[0] == 'a');
        assert(ascii_lower(s[0]) == 'a');
    }
}

/// The port list of a port is that port, and that of a range is every port
/// from its first to its last, in order.
pub proof fn law_port_ranges(lo: u16, hi: u16)
    requires
        1 <= lo,
        1 <= hi,
    ensures
        port_selection(decimal(lo as nat)) == Ok::<Seq<u16>, Seq<char>>(seq![lo]),
        lo <= hi ==> port_selection(decimal(lo as nat) + seq!['-'] + decimal(hi as nat)) == Ok::<
            Seq<u16>,
            Seq<char>,
        >(port_run(lo, hi)),
        lo > hi ==> port_selection(decimal(lo as nat) + seq!['-'] + decimal(hi as nat)) is Err,
{
    let a = decimal(lo as nat);
    let b = decimal(hi as nat);
    let range = a + seq!['-'] + b;
    lemma_decimal(lo as nat);
    lemma_decimal(hi as nat);
    assert forall|i: int| 0 <= i < a.len() implies is_digit(#[trigger] a[i]) || a[i] == '-' by {
        assert(is_digit(a[i]));
    }
    assert forall|i: int| 0 <= i < range.len() implies is_digit(#[trigger] range[i]) || range[i]
        == '-' by {
        if i < a.len() {
            assert(is_digit(a[i]));
        } else if i > a.len() {
            assert(is_digit(b[i - a.len() - 1]));
        }
    }
    lemma_digits_and_dashes(a);
    lemma_digits_and_dashes(range);
    law_port_entries(lo, hi, a);
    law_port_entries(lo, hi, range);
    let none = Seq::<Seq<char>>::empty();
    assert(seq![a].skip(1) =~= none);
    assert(seq![range].skip(1) =~= none);
    assert(seq![a][0] == a && seq![range][0] == range);
    assert(port_list_error(none, a) is None && port_list_error(none, range) is None);
    lemma_one_entry(a, lo, lo, 65535);
    assert(port_run(lo, lo) =~= seq![lo]);
    if lo <= hi {
        lemma_one_entry(range, lo, hi, 65535);
        if hi == 65535 {
            assert(port_run(lo, 65535) =~= port_run(lo, hi));
        }
    }
}

/// Whether an entry is accepted, and what it covers, does not depend on the
/// list it stands in.
proof fn lemma_entry_anywhere(entry: Seq<char>, list: Seq<char>, other: Seq<char>)
    ensures
        port_entry(entry, list) is Ok <==> port_entry(entry, other) is Ok,
        port_entry(entry, list) is Ok ==> port_entry(entry, list) == port_entry(entry, other),
{
}

proof fn lemma_errors_anywhere(parts: Seq<Seq<char>>, list: Seq<char>, other: Seq<char>)
    ensures
        port_list_error(parts, list) is None <==> port_list_error(parts, other) is None,
    decreases parts.len(),
{
    if parts.len() > 0 {
        lemma_entry_anywhere(parts[0], list, other);
        lemma_errors_anywhere(parts.skip(1), list, other);
    }
}

proof fn lemma_errors_concat(a: Seq<Seq<char>>, b: Seq<Seq<char>>, list: Seq<char>)
    ensures
        port_list_error(a + b, list) is None <==> port_list_error(a, list) is None
            && port_list_error(b, list) is None,
    decreases a.len(),
{
    if a.len() == 0 {
        assert(a + b =~= b);
    } else {
        assert((a + b).skip(1) =~= a.skip(1) + b);
        lemma_errors_concat(a.skip(1), b, list);
    }
}

/// A list of ports is accepted where both of its parts are, and selects what
/// either of them selects.
pub proof fn law_port_lists(a: Seq<char>, b: Seq<char>, port: u16)
    requires
        !asks_for_all(a),
        !asks_for_all(b),
        !asks_for_all(a + seq![','] + b),
    ensures
        port_selection(a + seq![','] + b) is Ok <==> port_selection(a) is Ok && port_selection(
            b,
        ) is Ok,
        port_selection(a + seq![','] + b) matches Ok(ports) ==> {
            ports.contains(port) <==> port_selection(a)->Ok_0.contains(port) || port_selection(
                b,
            )->Ok_0.contains(port)
        },
{
    let list = a + seq![','] + b;
    let x = split(a, seq![',']);
    let y = split(b, seq![',']);
    law_split_concat(a, ',', b);
    let all = x + y;
    lemma_errors_concat(x, y, list);
    lemma_errors_anywhere(x, list, a);
    lemma_errors_anywhere(y, list, b);
    law_selected_ports(list);
    law_selected_ports(a);
    law_selected_ports(b);
    if let Ok(ports) = port_selection(list) {
        if selects(all, list, port) {
            let k = choose|k: int| 0 <= k < all.len() && #[trigger] covers(all[k], list, port);
            lemma_entry_anywhere(all[k], list, a);
            lemma_entry_anywhere(all[k], list, b);
            if k < x.len() {
                assert(covers(x[k], a, port));
            } else {
                assert(covers(y[k - x.len()], b, port));
            }
        }
        if selects(x, a, port) {
            let k = choose|k: int| 0 <= k < x.len() && #[trigger] covers(x[k], a, port);
            lemma_entry_anywhere(x[k], list, a);
            assert(covers(all[k], list, port));
        }
        if selects(y, b, port) {
            let k = choose|k: int| 0 <= k < y.len() && #[trigger] covers(y[k], b, port);
            lemma_entry_anywhere(y[k], list, b);
            assert(covers(all[x.len() + k], list, port));
        }
    }
}

/// The word `all`, in any letter case and with any white space around it,
/// selects every port from 1 to 65535, in order.
pub proof fn law_all_ports(before: Seq<char>, word: Seq<char>, after: Seq<char>)
    requires
        all_white(before),
        all_white(after),
        lower(word) == seq!['a', 'l', 'l'],
    ensures
        port_selection(before + word + after) == Ok::<Seq<u16>, Seq<char>>(port_run(1, 65535)),
{
    assert(word.len() == lower(word).len());
    assert(ascii_lower(word[0]) == 'a') by {
        assert(lower(word)[0] == 'a');
    }
    assert(ascii_lower(word[2]) == 'l') by {
        assert(lower(word)[2] == 'l');
    }
    assert(word.last() == word[2]);
    law_trim(before, word, after);
    reveal_strlit("all");
    assert("all"@ =~= seq!['a', 'l', 'l']);
    assert(all_ports() =~= port_run(1, 65535));
}

/// What follows accepted options is read with what they set.
proof fn lemma_behind_options(before: Seq<Seq<char>>, rest: Seq<Seq<char>>)
    requires
        accepted_options(before, 0),
    ensures
        command_line(before + rest) == parse_from(
            before + rest,
            before.len() as int,
            with_options(before, 0, no_settings()),
        ),
        with_options(before, 0, no_settings()).target is None,
        ports_accepted(with_options(before, 0, no_settings())),
{
    let n = before.len() as int;
    assert((before + rest).subrange(0, n) =~= before);
    lemma_read_options(before + rest, 0, before, 0, no_settings());
    lemma_options_keep_target(before, 0, no_settings(), None);
}

/// A host alone: every port from 1 to 1024, 256 threads, 300 milliseconds, no
/// large networks and no banners.
pub proof fn law_defaults(host: Seq<char>)
    requires
        !starts_with_dash(host) || host.len() == 1,
    ensures
        command_line(seq![host]) == Ok::<ParsedView, Seq<char>>(
            ParsedView::Run(
                ConfigView {
                    target: TargetView::Host(host),
                    ports: port_run(1, 1024),
                    threads: 256,
                    timeout_ms: 300,
                    allow_large: false,
                    banners: false,
                },
            ),
        ),
{
    let none = Seq::<Seq<char>>::empty();
    lemma_host_between(none, host, none);
    assert(none + seq![host] + none =~= seq![host]);
    reveal_strlit("1-1024");
    reveal_with_fuel(decimal, 4);
    assert(decimal(1) =~= seq!['1']);
    assert(decimal(1024) =~= seq!['1', '0', '2', '4']);
    assert(DEFAULT_PORTS@ =~= decimal(1) + seq!['-'] + decimal(1024));
    law_port_ranges(1, 1024);
}

/// A command line of accepted options, two groups of them around a third, and
/// a host at its end.
proof fn lemma_three_groups(
    before: Seq<Seq<char>>,
    x: Seq<Seq<char>>,
    after: Seq<Seq<char>>,
    host: Seq<char>,
)
    requires
        !starts_with_dash(host) || host.len() == 1,
        accepted_options(before, 0),
        accepted_options(x, 0),
        accepted_options(after, 0),
    ensures
        ({
            let first = with_options(before, 0, no_settings());
            let st = with_options(after, 0, with_options(x, 0, first));
            &&& command_line(before + x + after + seq![host]) == finish(
                SettingsView { target: Some(TargetView::Host(host)), ..st },
            )
            &&& command_line(before + after + seq![host]) == finish(settled(before, host, after))
            &&& ports_accepted(st)
            &&& ports_accepted(settled(before, host, after))
        }),
{
    let none = no_settings();
    let first = with_options(before, 0, none);
    let mid = with_options(x, 0, first);
    let st = with_options(after, 0, mid);
    let args = before + x + after + seq![host];
    let n = before.len() as int;
    let m = n + x.len();
    let k = m + after.len();
    assert(args.subrange(0, n) =~= before);
    assert(args.subrange(n, n + x.len()) =~= x);
    assert(args.subrange(m, m + after.len()) =~= after);
    assert(args[k] == host);
    lemma_options_differ(host);
    lemma_read_options(args, 0, before, 0, none);
    lemma_read_options(args, n, x, 0, first);
    lemma_read_options(args, m, after, 0, mid);
    lemma_options_keep_target(before, 0, none, None);
    lemma_options_keep_target(x, 0, first, None);
    lemma_options_keep_target(after, 0, mid, None);
    let done = SettingsView { target: Some(TargetView::Host(host)), ..st };
    assert(parse_from(args, k + 1, done) == finish(done));
    lemma_host_last(before, host, after);
    assert(after.subrange(0, after.len() as int) =~= after);
    lemma_read_options(after, 0, after, 0, first);
}

/// Whether a word stands nowhere in a list.
pub open spec fn lacks_word(words: Seq<Seq<char>>, word: Seq<char>) -> bool {
    forall|i: int| 0 <= i < words.len() ==> #[trigger] words[i] != word
}

/// What options that do not set `timeout_ms` make of the rest does not depend on
/// it.
proof fn lemma_timeout_ms_kept(
    opts: Seq<Seq<char>>,
    i: int,
    st: SettingsView,
    timeout_ms: Option<nat>,
)
    requires
        0 <= i,
        accepted_options(opts, i),
        forall|k: int| 0 <= k < opts.len() ==> !is_timeout(#[trigger] opts[k]),
    ensures
        with_options(opts, i, (SettingsView { timeout_ms, ..st })) == (SettingsView {
            timeout_ms,
            ..with_options(opts, i, st)
        }),
    decreases opts.len() - i,
{
    if i < opts.len() {
        lemma_options_differ(opts[i]);
        assert(!is_timeout(opts[i]));
        let (next, used) = apply_arg(opts, i, st)->Ok_0;
        assert(apply_arg(opts, i, st) == Ok::<(SettingsView, int), Seq<char>>((next, used)));
        assert(apply_arg(opts, i, (SettingsView { timeout_ms, ..st })) == Ok::<
            (SettingsView, int),
            Seq<char>,
        >((SettingsView { timeout_ms, ..next }, used)));
        lemma_timeout_ms_kept(opts, i + used, next, timeout_ms);
    }
}

/// What options that do not set `threads` make of the rest does not depend on
/// it.
proof fn lemma_threads_kept(
    opts: Seq<Seq<char>>,
    i: int,
    st: SettingsView,
    threads: Option<nat>,
)
    requires
        0 <= i,
        accepted_options(opts, i),
        forall|k: int| 0 <= k < opts.len() ==> !is_threads(#[trigger] opts[k]),
    ensures
        with_options(opts, i, (SettingsView { threads, ..st })) == (SettingsView {
            threads,
            ..with_options(opts, i, st)
        }),
    decreases opts.len() - i,
{
    if i < opts.len() {
        lemma_options_differ(opts[i]);
        assert(!is_threads(opts[i]));
        let (next, used) = apply_arg(opts, i, st)->Ok_0;
        assert(apply_arg(opts, i, st) == Ok::<(SettingsView, int), Seq<char>>((next, used)));
        assert(apply_arg(opts, i, (SettingsView { threads, ..st })) == Ok::<
            (SettingsView, int),
            Seq<char>,
        >((SettingsView { threads, ..next }, used)));
        lemma_threads_kept(opts, i + used, next, threads);
    }
}

/// What options that do not set `ports` make of the rest does not depend on
/// it.
proof fn lemma_ports_kept(
    opts: Seq<Seq<char>>,
    i: int,
    st: SettingsView,
    ports: Option<Seq<char>>,
)
    requires
        0 <= i,
        accepted_options(opts, i),
        forall|k: int| 0 <= k < opts.len() ==> !is_ports(#[trigger] opts[k]),
    ensures
        with_options(opts, i, (SettingsView { ports, ..st })) == (SettingsView {
            ports,
            ..with_options(opts, i, st)
        }),
    decreases opts.len() - i,
{
    if i < opts.len() {
        lemma_options_differ(opts[i]);
        assert(!is_ports(opts[i]));
        let (next, used) = apply_arg(opts, i, st)->Ok_0;
        assert(apply_arg(opts, i, st) == Ok::<(SettingsView, int), Seq<char>>((next, used)));
        assert(apply_arg(opts, i, (SettingsView { ports, ..st })) == Ok::<
            (SettingsView, int),
            Seq<char>,
        >((SettingsView { ports, ..next }, used)));
        lemma_ports_kept(opts, i + used, next, ports);
    }
}

/// A flag that is set stays set, and nothing else depends on it.
proof fn lemma_banners_stays(opts: Seq<Seq<char>>, i: int, st: SettingsView)
    requires
        0 <= i,
        accepted_options(opts, i),
    ensures
        with_options(opts, i, (SettingsView { banners: true, ..st })) == (SettingsView {
            banners: true,
            ..with_options(opts, i, st)
        }),
    decreases opts.len() - i,
{
    if i < opts.len() {
        lemma_options_differ(opts[i]);
        let (next, used) = apply_arg(opts, i, st)->Ok_0;
        assert(apply_arg(opts, i, st) == Ok::<(SettingsView, int), Seq<char>>((next, used)));
        assert(apply_arg(opts, i, (SettingsView { banners: true, ..st })) == Ok::<
            (SettingsView, int),
            Seq<char>,
        >((SettingsView { banners: true, ..next }, used)));
        lemma_banners_stays(opts, i + used, next);
    }
}

/// A flag that is set stays set, and nothing else depends on it.
proof fn lemma_allow_large_stays(opts: Seq<Seq<char>>, i: int, st: SettingsView)
    requires
        0 <= i,
        accepted_options(opts, i),
    ensures
        with_options(opts, i, (SettingsView { allow_large: true, ..st })) == (SettingsView {
            allow_large: true,
            ..with_options(opts, i, st)
        }),
    decreases opts.len() - i,
{
    if i < opts.len() {
        lemma_options_differ(opts[i]);
        let (next, used) = apply_arg(opts, i, st)->Ok_0;
        assert(apply_arg(opts, i, st) == Ok::<(SettingsView, int), Seq<char>>((next, used)));
        assert(apply_arg(opts, i, (SettingsView { allow_large: true, ..st })) == Ok::<
            (SettingsView, int),
            Seq<char>,
        >((SettingsView { allow_large: true, ..next }, used)));
        lemma_allow_large_stays(opts, i + used, next);
    }
}

/// The timeout that is given is the timeout that is used: `--timeout` with a
/// number sets it to that number and changes nothing else, unless another
/// `--timeout` follows.
pub proof fn law_timeout_is_used(
    before: Seq<Seq<char>>,
    word: Seq<char>,
    n: nat,
    after: Seq<Seq<char>>,
    host: Seq<char>,
)
    requires
        !starts_with_dash(host) || host.len() == 1,
        accepted_options(before, 0),
        accepted_options(after, 0),
        word == "--timeout"@,
        lacks_word(after, "--timeout"@),
        1 <= n <= u64::MAX,
    ensures
        accepted_options(seq![word, decimal(n)], 0),
        match command_line(before + after + seq![host]) {
            Ok(ParsedView::Run(c)) => command_line(
                before + seq![word, decimal(n)] + after + seq![host],
            ) == Ok::<ParsedView, Seq<char>>(
                ParsedView::Run(ConfigView { timeout_ms: n, ..c }),
            ),
            _ => false,
        },
{
    let x = seq![word, decimal(n)];
    lemma_options_differ(word);
    lemma_default_ports();
    lemma_decimal(n);
    law_number_round_trip(n, u64::MAX as nat);
    assert(is_digit(decimal(n)[0]));
    assert(x[0] == word && x[1] == decimal(n));
    assert(flag_value(x, 0, word) == Ok::<Seq<char>, Seq<char>>(decimal(n)));
    assert(accepted_options(x, 2));
    assert(accepted_options(x, 0));
    let first = with_options(before, 0, no_settings());
    assert(with_options(x, 2, (SettingsView { timeout_ms: Some(n), ..first })) == (SettingsView {
        timeout_ms: Some(n),
        ..first
    }));
    assert(with_options(x, 0, first) == (SettingsView { timeout_ms: Some(n), ..first }));
    lemma_three_groups(before, x, after, host);
    assert forall|k: int| 0 <= k < after.len() implies !is_timeout(#[trigger] after[k]) by {
    }
    lemma_timeout_ms_kept(after, 0, first, Some(n));
}

/// The thread count that is given is the one that is used: `-t` or `--threads`
/// with a number sets it to that number and changes nothing else, unless
/// another one follows.
pub proof fn law_threads_are_used(
    before: Seq<Seq<char>>,
    word: Seq<char>,
    n: nat,
    after: Seq<Seq<char>>,
    host: Seq<char>,
)
    requires
        !starts_with_dash(host) || host.len() == 1,
        accepted_options(before, 0),
        accepted_options(after, 0),
        word == "-t"@ || word == "--threads"@,
        lacks_word(after, "-t"@),
        lacks_word(after, "--threads"@),
        1 <= n <= usize::MAX,
    ensures
        accepted_options(seq![word, decimal(n)], 0),
        match command_line(before + after + seq![host]) {
            Ok(ParsedView::Run(c)) => command_line(
                before + seq![word, decimal(n)] + after + seq![host],
            ) == Ok::<ParsedView, Seq<char>>(
                ParsedView::Run(ConfigView { threads: n, ..c }),
            ),
            _ => false,
        },
{
    let x = seq![word, decimal(n)];
    lemma_options_differ(word);
    lemma_default_ports();
    lemma_decimal(n);
    law_number_round_trip(n, usize::MAX as nat);
    assert(is_digit(decimal(n)[0]));
    assert(x[0] == word && x[1] == decimal(n));
    assert(flag_value(x, 0, word) == Ok::<Seq<char>, Seq<char>>(decimal(n)));
    assert(accepted_options(x, 2));
    assert(accepted_options(x, 0));
    let first = with_options(before, 0, no_settings());
    assert(with_options(x, 2, (SettingsView { threads: Some(n), ..first })) == (SettingsView {
        threads: Some(n),
        ..first
    }));
    assert(with_options(x, 0, first) == (SettingsView { threads: Some(n), ..first }));
    lemma_three_groups(before, x, after, host);
    assert forall|k: int| 0 <= k < after.len() implies !is_threads(#[trigger] after[k]) by {
    }
    lemma_threads_kept(after, 0, first, Some(n));
}

/// The ports that are given are the ports that are used: `-p` or `--ports` with
/// an accepted list sets them to what the list selects and changes nothing
/// else, unless another one follows.
pub proof fn law_ports_are_used(
    before: Seq<Seq<char>>,
    word: Seq<char>,
    spec_text: Seq<char>,
    after: Seq<Seq<char>>,
    host: Seq<char>,
)
    requires
        !starts_with_dash(host) || host.len() == 1,
        accepted_options(before, 0),
        accepted_options(after, 0),
        word == "-p"@ || word == "--ports"@,
        lacks_word(after, "-p"@),
        lacks_word(after, "--ports"@),
        !starts_with_dash(spec_text) || spec_text.len() == 1,
        port_selection(spec_text) is Ok,
    ensures
        accepted_options(seq![word, spec_text], 0),
        match command_line(before + after + seq![host]) {
            Ok(ParsedView::Run(c)) => command_line(
                before + seq![word, spec_text] + after + seq![host],
            ) == Ok::<ParsedView, Seq<char>>(
                ParsedView::Run(ConfigView { ports: port_selection(spec_text)->Ok_0, ..c }),
            ),
            _ => false,
        },
{
    let x = seq![word, spec_text];
    lemma_options_differ(word);
    lemma_default_ports();
    assert(x[0] == word && x[1] == spec_text);
    assert(flag_value(x, 0, word) == Ok::<Seq<char>, Seq<char>>(spec_text));
    assert(accepted_options(x, 2));
    assert(accepted_options(x, 0));
    let first = with_options(before, 0, no_settings());
    assert(with_options(x, 2, (SettingsView { ports: Some(spec_text), ..first })) == (SettingsView {
        ports: Some(spec_text),
        ..first
    }));
    assert(with_options(x, 0, first) == (SettingsView { ports: Some(spec_text), ..first }));
    lemma_three_groups(before, x, after, host);
    assert forall|k: int| 0 <= k < after.len() implies !is_ports(#[trigger] after[k]) by {
    }
    lemma_ports_kept(after, 0, first, Some(spec_text));
}

/// `-b` or `--banners` asks for banners and changes nothing else.
pub proof fn law_banners_flag(
    before: Seq<Seq<char>>,
    word: Seq<char>,
    after: Seq<Seq<char>>,
    host: Seq<char>,
)
    requires
        !starts_with_dash(host) || host.len() == 1,
        accepted_options(before, 0),
        accepted_options(after, 0),
        word == "-b"@ || word == "--banners"@,
    ensures
        accepted_options(seq![word], 0),
        match command_line(before + after + seq![host]) {
            Ok(ParsedView::Run(c)) => command_line(before + seq![word] + after + seq![host]) == Ok::<
                ParsedView,
                Seq<char>,
            >(ParsedView::Run(ConfigView { banners: true, ..c })),
            _ => false,
        },
{
    let x = seq![word];
    lemma_options_differ(word);
    lemma_default_ports();
    assert(x[0] == word);
    assert(accepted_options(x, 1));
    assert(accepted_options(x, 0));
    let first = with_options(before, 0, no_settings());
    assert(with_options(x, 1, (SettingsView { banners: true, ..first })) == (SettingsView {
        banners: true,
        ..first
    }));
    assert(with_options(x, 0, first) == (SettingsView { banners: true, ..first }));
    lemma_three_groups(before, x, after, host);
    lemma_banners_stays(after, 0, first);
}

/// `--allow-large` permits large networks and changes nothing else.
pub proof fn law_allow_large_flag(
    before: Seq<Seq<char>>,
    word: Seq<char>,
    after: Seq<Seq<char>>,
    host: Seq<char>,
)
    requires
        !starts_with_dash(host) || host.len() == 1,
        accepted_options(before, 0),
        accepted_options(after, 0),
        word == "--allow-large"@,
    ensures
        accepted_options(seq![word], 0),
        match command_line(before + after + seq![host]) {
            Ok(ParsedView::Run(c)) => command_line(before + seq![word] + after + seq![host]) == Ok::<
                ParsedView,
                Seq<char>,
            >(ParsedView::Run(ConfigView { allow_large: true, ..c })),
            _ => false,
        },
{
    let x = seq![word];
    lemma_options_differ(word);
    lemma_default_ports();
    assert(x[0] == word);
    assert(accepted_options(x, 1));
    assert(accepted_options(x, 0));
    let first = with_options(before, 0, no_settings());
    assert(with_options(x, 1, (SettingsView { allow_large: true, ..first })) == (SettingsView {
        allow_large: true,
        ..first
    }));
    assert(with_options(x, 0, first) == (SettingsView { allow_large: true, ..first }));
    lemma_three_groups(before, x, after, host);
    lemma_allow_large_stays(after, 0, first);
}

proof fn lemma_accepted_shift(a: Seq<Seq<char>>, b: Seq<Seq<char>>, i: int)
    requires
        0 <= i,
        accepted_options(b, i),
    ensures
        accepted_options(a + b, a.len() + i),
    decreases b.len() - i,
{
    let all = a + b;
    let k = a.len() + i;
    if i < b.len() {
        assert(all[k] == b[i]);
        if is_allow_large(b[i]) || is_banners(b[i]) {
            lemma_accepted_shift(a, b, i + 1);
        } else {
            assert(all[k + 1] == b[i + 1]);
            assert(flag_value(all, k, all[k]) == flag_value(b, i, b[i]));
            lemma_accepted_shift(a, b, i + 2);
        }
    }
}

proof fn lemma_accepted_concat(a: Seq<Seq<char>>, b: Seq<Seq<char>>, i: int)
    requires
        0 <= i,
        accepted_options(a, i),
        accepted_options(b, 0),
    ensures
        accepted_options(a + b, i),
    decreases a.len() - i,
{
    let all = a + b;
    if i < a.len() {
        assert(all[i] == a[i]);
        if is_allow_large(a[i]) || is_banners(a[i]) {
            lemma_accepted_concat(a, b, i + 1);
        } else {
            assert(all[i + 1] == a[i + 1]);
            assert(flag_value(all, i, all[i]) == flag_value(a, i, a[i]));
            lemma_accepted_concat(a, b, i + 2);
        }
    } else {
        lemma_accepted_shift(a, b, 0);
    }
}

/// No option is an accepted list of options, and two accepted lists one after
/// the other are.
pub proof fn law_options_add_up(a: Seq<Seq<char>>, b: Seq<Seq<char>>)
    requires
        accepted_options(a, 0),
        accepted_options(b, 0),
    ensures
        accepted_options(Seq::empty(), 0),
        accepted_options(a + b, 0),
{
    lemma_accepted_concat(a, b, 0);
}

/// Another target in place of a host leaves the rest of the configuration as
/// it is.
proof fn lemma_with_target(opts: Seq<Seq<char>>, target: TargetView, host: Seq<char>)
    requires
        accepted_options(opts, 0),
        !starts_with_dash(host) || host.len() == 1,
    ensures
        ({
            let st = with_options(opts, 0, no_settings());
            match command_line(opts + seq![host]) {
                Ok(ParsedView::Run(c)) => finish(SettingsView { target: Some(target), ..st })
                    == Ok::<ParsedView, Seq<char>>(ParsedView::Run(ConfigView { target, ..c })),
                _ => false,
            }
        }),
{
    let none = Seq::<Seq<char>>::empty();
    lemma_host_between(opts, host, none);
    assert(opts + seq![host] + none =~= opts + seq![host]);
    lemma_behind_options(opts, seq![host]);
    lemma_default_ports();
    assert(with_options(none, 0, with_options(opts, 0, no_settings())) == with_options(
        opts,
        0,
        no_settings(),
    ));
}

/// Whether a word asks for host discovery only.
pub open spec fn discover_word(word: Seq<char>) -> bool {
    word == "-d"@ || word == "--discover"@
}

/// Whether a word asks for a scan of the live hosts.
pub open spec fn lan_word(word: Seq<char>) -> bool {
    word == "-l"@ || word == "--lan"@
}

/// The words of the two network modes.
proof fn lemma_mode_words(word: Seq<char>)
    ensures
        discover_word(word) <==> is_discover(word),
        lan_word(word) <==> is_lan(word),
        discover_word(word) ==> !lan_word(word),
{
    reveal_strlit("-d");
    reveal_strlit("--discover");
    reveal_strlit("-l");
    reveal_strlit("--lan");
    if discover_word(word) {
        assert(word.len() == 2 ==> word[1] == 'd');
    }
}

/// The network modes: `-d` or `--discover` and `-l` or `--lan`, behind any
/// accepted options, scan the network that the text behind them gives, and
/// with `auto` or nothing behind them the one that is found out. Everything
/// else is as it would be for a host. A text that is no network is refused.
pub proof fn law_network_modes(
    opts: Seq<Seq<char>>,
    word: Seq<char>,
    addr: Ipv4Addr,
    prefix: u8,
    host: Seq<char>,
)
    requires
        accepted_options(opts, 0),
        discover_word(word) || lan_word(word),
        !starts_with_dash(host) || host.len() == 1,
    ensures
        ({
            let text = addr.dotted() + seq!['/'] + decimal(prefix as nat);
            let mode = |n: NetworkSpec|
                if discover_word(word) {
                    TargetView::Discover(n)
                } else {
                    TargetView::Lan(n)
                };
            match command_line(opts + seq![host]) {
                Ok(ParsedView::Run(c)) => {
                    &&& command_line(opts + seq![word]) == Ok::<ParsedView, Seq<char>>(
                        ParsedView::Run(ConfigView { target: mode(NetworkSpec::Auto), ..c }),
                    )
                    &&& command_line(opts + seq![word, "auto"@]) == Ok::<ParsedView, Seq<char>>(
                        ParsedView::Run(ConfigView { target: mode(NetworkSpec::Auto), ..c }),
                    )
                    &&& match command_line(opts + seq![word, text]) {
                        Ok(ParsedView::Run(d)) => prefix <= 32 && exists|cidr: Cidr|
                            #[trigger] holds_address(cidr, addr, prefix) && d == (ConfigView {
                                target: mode(NetworkSpec::Explicit(cidr)),
                                ..c
                            }),
                        Ok(_) => false,
                        Err(_) => prefix > 32,
                    }
                },
                _ => false,
            }
        }),
{
    let text = addr.dotted() + seq!['/'] + decimal(prefix as nat);
    let mode = |n: NetworkSpec|
        if discover_word(word) {
            TargetView::Discover(n)
        } else {
            TargetView::Lan(n)
        };
    let n = opts.len() as int;
    let st = with_options(opts, 0, no_settings());
    lemma_mode_words(word);
    lemma_options_differ(word);
    reveal_strlit("auto");
    lemma_with_target(opts, mode(NetworkSpec::Auto), host);

    let bare = opts + seq![word];
    lemma_behind_options(opts, seq![word]);
    assert(bare[n] == word);
    let auto_done = SettingsView { target: Some(mode(NetworkSpec::Auto)), ..st };
    assert(optional_value(bare, n) is None);
    assert(parse_from(bare, n + 1, auto_done) == finish(auto_done));

    let named = opts + seq![word, "auto"@];
    lemma_behind_options(opts, seq![word, "auto"@]);
    assert(named[n] == word && named[n + 1] == "auto"@);
    assert(optional_value(named, n) == Some("auto"@));
    assert(parse_from(named, n + 2, auto_done) == finish(auto_done));

    let given = opts + seq![word, text];
    lemma_behind_options(opts, seq![word, text]);
    assert(given[n] == word && given[n + 1] == text);
    law_dotted_characters(addr);
    assert(is_digit(addr.dotted()[0]) || addr.dotted()[0] == '.');
    assert(text[0] == addr.dotted()[0]);
    assert(optional_value(given, n) == Some(text));
    assert(text != "auto"@);
    law_cidr_text(addr, prefix, Seq::empty(), Seq::empty());
    if let Ok(cidr) = parse_cidr(text) {
        assert(holds_address(cidr, addr, prefix));
        let target = mode(NetworkSpec::Explicit(cidr));
        lemma_with_target(opts, target, host);
        let done = SettingsView { target: Some(target), ..st };
        assert(parse_from(given, n + 2, done) == finish(done));
    }
}

/// A network mode in front takes no option for its network: options behind it
/// count as they would before it.
pub proof fn law_network_modes_in_front(opts: Seq<Seq<char>>, word: Seq<char>)
    requires
        accepted_options(opts, 0),
        discover_word(word) || lan_word(word),
    ensures
        command_line(seq![word] + opts) == command_line(opts + seq![word]),
        command_line(seq![word, "auto"@] + opts) == command_line(opts + seq![word, "auto"@]),
{
    let target = if discover_word(word) {
        TargetView::Discover(NetworkSpec::Auto)
    } else {
        TargetView::Lan(NetworkSpec::Auto)
    };
    let n = opts.len() as int;
    let none = no_settings();
    let begun = SettingsView { target: Some(target), ..none };
    let st = with_options(opts, 0, none);
    let done = SettingsView { target: Some(target), ..st };
    lemma_mode_words(word);
    lemma_options_differ(word);
    reveal_strlit("auto");
    lemma_options_keep_target(opts, 0, none, Some(target));

    let front = seq![word] + opts;
    assert(front[0] == word);
    if n > 0 {
        assert(front[1] == opts[0]);
        lemma_options_differ(opts[0]);
        assert(starts_with_dash(opts[0]));
    }
    assert(optional_value(front, 0) is None);
    assert(front.subrange(1, 1 + n) =~= opts);
    lemma_read_options(front, 1, opts, 0, begun);
    assert(command_line(front) == finish(done));

    let back = opts + seq![word];
    lemma_behind_options(opts, seq![word]);
    assert(back[n] == word);
    assert(optional_value(back, n) is None);
    assert(parse_from(back, n + 1, done) == finish(done));

    let front2 = seq![word, "auto"@] + opts;
    assert(front2[0] == word && front2[1] == "auto"@);
    assert(optional_value(front2, 0) == Some("auto"@));
    assert(front2.subrange(2, 2 + n) =~= opts);
    lemma_read_options(front2, 2, opts, 0, begun);
    assert(command_line(front2) == finish(done));

    let back2 = opts + seq![word, "auto"@];
    lemma_behind_options(opts, seq![word, "auto"@]);
    assert(back2[n] == word && back2[n + 1] == "auto"@);
    assert(optional_value(back2, n) == Some("auto"@));
    assert(parse_from(back2, n + 2, done) == finish(done));
}

/// Help and version, behind any accepted options and whatever follows.
pub proof fn law_help_anywhere(opts: Seq<Seq<char>>, word: Seq<char>, rest: Seq<Seq<char>>)
    requires
        accepted_options(opts, 0),
    ensures
        word == "-h"@ || word == "--help"@ ==> command_line(opts + seq![word] + rest) == Ok::<
            ParsedView,
            Seq<char>,
        >(ParsedView::Help),
        word == "-V"@ || word == "--version"@ ==> command_line(opts + seq![word] + rest) == Ok::<
            ParsedView,
            Seq<char>,
        >(ParsedView::Version),
{
    let args = opts + seq![word] + rest;
    assert(args =~= opts + (seq![word] + rest));
    lemma_behind_options(opts, seq![word] + rest);
    assert(args[opts.len() as int] == word);
    law_help_and_version_win(args, opts.len() as int, with_options(opts, 0, no_settings()));
}

/// Options alone are no target.
pub proof fn law_options_need_a_target(opts: Seq<Seq<char>>)
    requires
        accepted_options(opts, 0),
    ensures
        command_line(opts) == Err::<ParsedView, Seq<char>>("no target given (try --help)"@),
{
    let none = Seq::<Seq<char>>::empty();
    lemma_behind_options(opts, none);
    assert(opts + none =~= opts);
}

/// Whether a word is an option that needs a value.
pub open spec fn needs_value(word: Seq<char>) -> bool {
    ||| word == "-p"@
    ||| word == "--ports"@
    ||| word == "-t"@
    ||| word == "--threads"@
    ||| word == "--timeout"@
}

/// An option that needs a value and has none behind it is an error, and so is
/// one with another option behind it.
pub proof fn law_missing_values(
    opts: Seq<Seq<char>>,
    word: Seq<char>,
    next: Seq<char>,
    rest: Seq<Seq<char>>,
)
    requires
        accepted_options(opts, 0),
        needs_value(word),
        next.len() > 1,
        next[0] == '-',
    ensures
        command_line(opts + seq![word]) == Err::<ParsedView, Seq<char>>(
            word + " expects a value"@,
        ),
        command_line(opts + seq![word, next] + rest) == Err::<ParsedView, Seq<char>>(
            word + " expects a value, but found '"@ + next + "'"@,
        ),
{
    let n = opts.len() as int;
    lemma_options_differ(word);
    let a = opts + seq![word];
    lemma_behind_options(opts, seq![word]);
    assert(a[n] == word);
    let b = opts + seq![word, next] + rest;
    assert(b =~= opts + (seq![word, next] + rest));
    lemma_behind_options(opts, seq![word, next] + rest);
    assert(b[n] == word && b[n + 1] == next);
}

/// A value of `--threads` or `--timeout` that is no number that fits, or is
/// zero, is an error that says so.
pub proof fn law_bad_numbers(
    opts: Seq<Seq<char>>,
    word: Seq<char>,
    value: Seq<char>,
    rest: Seq<Seq<char>>,
)
    requires
        accepted_options(opts, 0),
        !(value.len() > 1 && value[0] == '-'),
    ensures
        (word == "-t"@ || word == "--threads"@) && parse_number(value, usize::MAX as nat) is None
            ==> command_line(opts + seq![word, value] + rest) == Err::<ParsedView, Seq<char>>(
            "--threads expects a whole number, got '"@ + value + "'"@,
        ),
        (word == "-t"@ || word == "--threads"@) && parse_number(value, usize::MAX as nat) == Some(
            0nat,
        ) ==> command_line(opts + seq![word, value] + rest) == Err::<ParsedView, Seq<char>>(
            "--threads must be at least 1"@,
        ),
        word == "--timeout"@ && parse_number(value, u64::MAX as nat) is None ==> command_line(
            opts + seq![word, value] + rest,
        ) == Err::<ParsedView, Seq<char>>(
            "--timeout expects milliseconds, got '"@ + value + "'"@,
        ),
        word == "--timeout"@ && parse_number(value, u64::MAX as nat) == Some(0nat) ==> command_line(
            opts + seq![word, value] + rest,
        ) == Err::<ParsedView, Seq<char>>("--timeout must be at least 1ms"@),
{
    let n = opts.len() as int;
    lemma_options_differ(word);
    let args = opts + seq![word, value] + rest;
    assert(args =~= opts + (seq![word, value] + rest));
    lemma_behind_options(opts, seq![word, value] + rest);
    assert(args[n] == word && args[n + 1] == value);
}

/// A second target is refused, wherever the options stand.
pub proof fn law_second_host(
    before: Seq<Seq<char>>,
    host: Seq<char>,
    between: Seq<Seq<char>>,
    other: Seq<char>,
    rest: Seq<Seq<char>>,
)
    requires
        accepted_options(before, 0),
        accepted_options(between, 0),
        !starts_with_dash(host) || host.len() == 1,
        !starts_with_dash(other) || other.len() == 1,
    ensures
        command_line(before + seq![host] + between + seq![other] + rest) == Err::<
            ParsedView,
            Seq<char>,
        >("more than one target given; pass a single host or one of --lan/--discover"@),
{
    let args = before + seq![host] + between + seq![other] + rest;
    let n = before.len() as int;
    let m = n + 1 + between.len();
    let first = with_options(before, 0, no_settings());
    let target = Some(TargetView::Host(host));
    let named = SettingsView { target, ..first };
    lemma_options_differ(host);
    lemma_options_differ(other);
    assert(args =~= before + (seq![host] + between + seq![other] + rest));
    lemma_behind_options(before, seq![host] + between + seq![other] + rest);
    assert(args[n] == host);
    assert(args.subrange(n + 1, n + 1 + between.len()) =~= between);
    lemma_read_options(args, n + 1, between, 0, named);
    lemma_options_keep_target(between, 0, named, target);
    assert(args[m] == other);
}

/// A word that begins with a dash and is no option is reported, wherever it
/// stands behind accepted options.
pub proof fn law_unknown_option(opts: Seq<Seq<char>>, word: Seq<char>, rest: Seq<Seq<char>>)
    requires
        accepted_options(opts, 0),
        word.len() > 1,
        word[0] == '-',
        !needs_value(word),
        !discover_word(word) && !lan_word(word),
        word != "-h"@ && word != "--help"@ && word != "-V"@ && word != "--version"@,
        word != "-b"@ && word != "--banners"@ && word != "--allow-large"@,
    ensures
        command_line(opts + seq![word] + rest) == Err::<ParsedView, Seq<char>>(
            "unknown option '"@ + word + "' (try --help)"@,
        ),
{
    let args = opts + seq![word] + rest;
    assert(args =~= opts + (seq![word] + rest));
    lemma_behind_options(opts, seq![word] + rest);
    assert(args[opts.len() as int] == word);
    lemma_mode_words(word);
}

/// What a configuration is seen as is what its fields hold.
pub proof fn law_views(c: Config, host: String, network: NetworkSpec, message: String)
    ensures
        c@.target == c.target@,
        c@.ports == c.ports@,
        c@.threads == c.threads,
        c@.timeout_ms == c.timeout_ms,
        c@.allow_large == c.allow_large,
        c@.banners == c.banners,
        Target::Host(host)@ == TargetView::Host(host@),
        Target::Discover(network)@ == TargetView::Discover(network),
        Target::Lan(network)@ == TargetView::Lan(network),
        parsed_view(Ok(Parsed::Run(Box::new(c)))) == Ok::<ParsedView, Seq<char>>(
            ParsedView::Run(c@),
        ),
        parsed_view(Ok(Parsed::Help)) == Ok::<ParsedView, Seq<char>>(ParsedView::Help),
        parsed_view(Ok(Parsed::Version)) == Ok::<ParsedView, Seq<char>>(ParsedView::Version),
        parsed_view(Err(message)) == Err::<ParsedView, Seq<char>>(message@),
        ports_view(Ok(c.ports)) == Ok::<Seq<u16>, Seq<char>>(c.ports@),
        ports_view(Err(message)) == Err::<Seq<u16>, Seq<char>>(message@),
{
}

/// What is said of a port that is none: of zero, of a number above 65535 as
/// far as it can be read, and of a text that is no number.
pub proof fn law_port_messages(n: nat, s: Seq<char>)
    requires
        n > 65535,
        parse_number(s, u32::MAX as nat) is None,
    ensures
        port_number(decimal(0)) == Err::<u16, Seq<char>>("port 0 is not scannable"@),
        port_number(s) == Err::<u16, Seq<char>>("'"@ + s + "' is not a valid port number"@),
        n <= u32::MAX ==> port_number(decimal(n)) == Err::<u16, Seq<char>>(
            "port "@ + decimal(n) + " is above the maximum of 65535"@,
        ),
        n > u32::MAX ==> port_number(decimal(n)) == Err::<u16, Seq<char>>(
            "'"@ + decimal(n) + "' is not a valid port number"@,
        ),
{
    law_number_round_trip(0, u32::MAX as nat);
    law_number_round_trip(n, u32::MAX as nat);
}

/// White space around the ports of an entry does not count, and an entry of
/// white space alone is an error that quotes the list.
pub proof fn law_white_space_in_port_lists(
    lo: u16,
    hi: u16,
    list: Seq<char>,
    a: Seq<char>,
    b: Seq<char>,
    c: Seq<char>,
    d: Seq<char>,
)
    requires
        1 <= lo <= hi,
        all_white(a),
        all_white(b),
        all_white(c),
        all_white(d),
    ensures
        port_entry(a, list) == Err::<(u16, u16), Seq<char>>(
            "empty entry in port list '"@ + list + "'"@,
        ),
        port_entry(a + decimal(lo as nat) + b, list) == Ok::<(u16, u16), Seq<char>>((lo, lo)),
        port_entry(
            a + (decimal(lo as nat) + b + seq!['-'] + (c + decimal(hi as nat))) + d,
            list,
        ) == Ok::<(u16, u16), Seq<char>>((lo, hi)),
{
    let x = decimal(lo as nat);
    let y = decimal(hi as nat);
    let none = Seq::<char>::empty();
    lemma_decimal_is_trimmed(lo as nat);
    lemma_decimal_is_trimmed(hi as nat);
    lemma_decimal(lo as nat);
    lemma_decimal(hi as nat);
    assert(is_digit(x[0]) && is_digit(x[x.len() - 1]) && is_digit(y[0]) && is_digit(
        y[y.len() - 1],
    ));
    law_number_round_trip(lo as nat, u32::MAX as nat);
    law_number_round_trip(hi as nat, u32::MAX as nat);
    assert(a + none + none =~= a);
    law_trim(a, none, none);
    law_trim(a, x, b);
    lemma_not_found(x, '-');
    let core = x + b + seq!['-'] + (c + y);
    assert(core[0] == x[0]);
    assert(core.last() == y[y.len() - 1]);
    law_trim(a, core, d);
    assert(!(x + b).contains('-')) by {
        if (x + b).contains('-') {
            let k = choose|k: int| 0 <= k < (x + b).len() && (x + b)[k] == '-';
            if k < x.len() {
                assert(x[k] == '-');
                assert(x.contains('-'));
            } else {
                assert(white_space(b[k - x.len()]));
            }
        }
    }
    lemma_found_behind(x + b, '-', c + y);
    assert(none + x + b =~= x + b);
    law_trim(none, x, b);
    assert(c + y + none =~= c + y);
    law_trim(c, y, none);
}

/// The first entry that is wrong is the one that is reported.
pub proof fn law_first_wrong_entry(
    good: Seq<Seq<char>>,
    bad: Seq<char>,
    rest: Seq<Seq<char>>,
    list: Seq<char>,
    message: Seq<char>,
)
    requires
        forall|i: int| 0 <= i < good.len() ==> port_entry(#[trigger] good[i], list) is Ok,
        port_entry(bad, list) == Err::<(u16, u16), Seq<char>>(message),
    ensures
        port_list_error(good + seq![bad] + rest, list) == Some(message),
    decreases good.len(),
{
    let all = good + seq![bad] + rest;
    if good.len() == 0 {
        assert(all[0] == bad);
    } else {
        let tail = good.skip(1);
        assert(all[0] == good[0]);
        assert forall|i: int| 0 <= i < tail.len() implies port_entry(#[trigger] tail[i], list)
            is Ok by {
            assert(tail[i] == good[i + 1]);
        }
        law_first_wrong_entry(tail, bad, rest, list, message);
        assert(all.skip(1) =~= tail + seq![bad] + rest);
    }
}

/// A command line whose port list is wrong is refused with what is wrong with
/// the list.
pub proof fn law_wrong_ports_are_reported(
    word: Seq<char>,
    spec_text: Seq<char>,
    host: Seq<char>,
    message: Seq<char>,
)
    requires
        word == "-p"@ || word == "--ports"@,
        !(spec_text.len() > 1 && spec_text[0] == '-'),
        !starts_with_dash(host) || host.len() == 1,
        port_selection(spec_text) == Err::<Seq<u16>, Seq<char>>(message),
    ensures
        command_line(seq![word, spec_text, host]) == Err::<ParsedView, Seq<char>>(message),
{
    let args = seq![word, spec_text, host];
    let none = no_settings();
    lemma_options_differ(word);
    lemma_options_differ(host);
    assert(args[0] == word && args[1] == spec_text && args[2] == host);
    let st = SettingsView { ports: Some(spec_text), ..none };
    let done = SettingsView { target: Some(TargetView::Host(host)), ..st };
    assert(parse_from(args, 3, done) == finish(done));
    assert(parse_from(args, 2, st) == finish(done));
    assert(parse_from(args, 0, none) == parse_from(args, 2, st));
}

} // verus!
