use oxidyze::banner::{
    after_passive_read, finalize, guess_service, label, probe_request,
    received_text, sanitize, summarize_http, truncate, GrabStep, MAX_BANNER_LEN,
};

#[test]
fn sanitize_collapses_control_chars_and_whitespace() {
    assert_eq!(sanitize("SSH-2.0-OpenSSH_9.6\r\n"), "SSH-2.0-OpenSSH_9.6");
    assert_eq!(sanitize("a\tb\r\n\nc"), "a b c");
}

#[test]
fn truncate_adds_ellipsis_only_when_it_actually_cuts_something() {
    assert_eq!(truncate("short", 10), "short");
    let long = "a".repeat(20);
    let out = truncate(&long, 10);
    assert_eq!(out.chars().count(), 10);
    assert!(out.ends_with('…'));
}

#[test]
fn summarize_http_extracts_status_and_server() {
    let raw = "HTTP/1.1 200 OK\r\nServer: nginx/1.24.0\r\nContent-Length: 0\r\n\r\n";
    assert_eq!(
        summarize_http(raw),
        Some("HTTP/1.1 200 OK; Server: nginx/1.24.0".to_string())
    );
}

#[test]
fn summarize_http_returns_none_for_non_http_text() {
    assert_eq!(summarize_http("SSH-2.0-OpenSSH_9.6\r\n"), None);
}

#[test]
fn guess_service_covers_common_ports_and_nothing_else() {
    assert_eq!(guess_service(22), Some("ssh"));
    assert_eq!(guess_service(65533), None);
}

fn banner_after_greeting(greeting: &str) -> Option<String> {
    match after_passive_read(Some(greeting)) {
        GrabStep::Done(banner) => banner,
        GrabStep::SendProbe => panic!("a service that spoke is not probed"),
    }
}

#[test]
fn greetings_become_labels() {
    let greeting = received_text(b"SSH-2.0-OpenSSH_9.6\r\n").unwrap();
    let out = label(banner_after_greeting(&greeting), 54321);
    assert_eq!(out, "SSH-2.0-OpenSSH_9.6");
}

#[test]
fn silence_asks_for_a_probe_and_the_reply_becomes_the_label() {
    assert!(matches!(after_passive_read(None), GrabStep::SendProbe));
    let reply = received_text(b"HTTP/1.1 200 OK\r\nServer: TestServer/1.0\r\n\r\n").unwrap();
    let out = label(finalize(&reply), 54321);
    assert_eq!(out, "HTTP/1.1 200 OK; Server: TestServer/1.0");
}

// A silent port with no known-service match must not print an empty string:
// it falls back to "-".
#[test]
fn no_bytes_and_no_known_name_give_a_dash() {
    let port = 54321;
    assert!(guess_service(port).is_none(), "test needs an unlisted port");
    assert_eq!(received_text(b""), None);
    assert_eq!(label(None, port), "-");
}

#[test]
fn guesses_are_marked_with_a_question_mark() {
    assert_eq!(label(None, 443), "https?");
    assert_eq!(label(Some("hello".to_string()), 443), "hello");
}

#[test]
fn every_well_known_port_has_its_name() {
    let known = [
        (21, "ftp"),
        (22, "ssh"),
        (23, "telnet"),
        (25, "smtp"),
        (53, "domain"),
        (80, "http"),
        (110, "pop3"),
        (111, "rpcbind"),
        (135, "msrpc"),
        (139, "netbios-ssn"),
        (143, "imap"),
        (389, "ldap"),
        (443, "https"),
        (445, "microsoft-ds"),
        (465, "smtps"),
        (587, "submission"),
        (636, "ldaps"),
        (853, "dns-over-tls"),
        (993, "imaps"),
        (995, "pop3s"),
        (1433, "ms-sql-s"),
        (1521, "oracle"),
        (2049, "nfs"),
        (3000, "http-dev"),
        (3306, "mysql"),
        (3389, "rdp"),
        (5000, "http-dev"),
        (5432, "postgresql"),
        (5900, "vnc"),
        (6379, "redis"),
        (8000, "http-alt"),
        (8080, "http-proxy"),
        (8443, "https-alt"),
        (8888, "http-alt"),
        (9200, "elasticsearch"),
        (11211, "memcached"),
        (27017, "mongodb"),
    ];
    for (port, name) in known {
        assert_eq!(guess_service(port), Some(name));
    }
    let named = (0..=65535u16).filter(|p| guess_service(*p).is_some()).count();
    assert_eq!(named, known.len());
}

#[test]
fn sanitizing_twice_changes_nothing() {
    let once = sanitize("  a \u{7} \u{85} b\u{a0} ");
    assert_eq!(once, "a b");
    assert_eq!(sanitize(&once), once);
    assert_eq!(sanitize("\r\n\t "), "");
}

#[test]
fn truncate_at_the_edges() {
    assert_eq!(truncate("abc", 3), "abc");
    assert_eq!(truncate("abcd", 3), "ab…");
    assert_eq!(truncate("abc", 1), "…");
    assert_eq!(truncate("abc", 0), "…");
    assert_eq!(truncate("", 0), "");
    assert_eq!(truncate("äöüß", 3), "äö…");
}

#[test]
fn banners_have_at_most_the_maximal_length() {
    let banner = finalize(&"x".repeat(500)).unwrap();
    assert_eq!(banner.chars().count(), MAX_BANNER_LEN);
    assert!(banner.ends_with('…'));
    let fits = "y".repeat(MAX_BANNER_LEN);
    assert_eq!(finalize(&fits), Some(fits));
    assert_eq!(finalize("\r\n"), None);
    assert_eq!(banner_after_greeting(" \t\r\n"), None);
}

#[test]
fn server_headers_match_in_any_case_and_need_a_value() {
    assert_eq!(
        summarize_http("HTTP/1.0 404 Not Found\r\nsErVeR:   x y  \r\n"),
        Some("HTTP/1.0 404 Not Found; Server: x y".to_string())
    );
    assert_eq!(
        summarize_http("HTTP/1.0 200 OK\r\nServer:\r\nServer: late\r\n"),
        Some("HTTP/1.0 200 OK; Server: late".to_string())
    );
    assert_eq!(
        summarize_http("HTTP/1.0 200 OK\r\nServer: \r\nServer: late\r\n"),
        Some("HTTP/1.0 200 OK".to_string())
    );
    assert_eq!(
        summarize_http("HTTP/1.0 200 OK"),
        Some("HTTP/1.0 200 OK".to_string())
    );
}

#[test]
fn header_lines_may_hold_any_characters() {
    assert_eq!(
        summarize_http("HTTP/1.1 200 OK\r\nX-Abcd\u{e9}\r\n\r\n"),
        Some("HTTP/1.1 200 OK".to_string())
    );
    assert_eq!(
        finalize("HTTP/1.1 200 OK\r\naaaaaaä: b\r\nServer: a\r\n\r\n"),
        Some("HTTP/1.1 200 OK; Server: a".to_string())
    );
    assert_eq!(
        banner_after_greeting("HTTP/1.1 200 OK\r\nServeré x\r\n"),
        Some("HTTP/1.1 200 OK".to_string())
    );
}

#[test]
fn the_body_of_a_response_holds_no_headers() {
    assert_eq!(
        summarize_http("HTTP/1.1 200 OK\r\n\r\nServer: x"),
        Some("HTTP/1.1 200 OK".to_string())
    );
    assert_eq!(
        summarize_http("HTTP/1.1 200 OK\r\nServer: a\r\n\r\nServer: b"),
        Some("HTTP/1.1 200 OK; Server: a".to_string())
    );
}

#[test]
fn all_white_space_collapses() {
    assert_eq!(sanitize("a\u{3000}\u{3000}b"), "a b");
    assert_eq!(sanitize("a\u{2028}b\u{2029} \u{a0}c"), "a b c");
    assert_eq!(sanitize("\u{2003}a\u{2003}"), "a");
}

#[test]
fn invalid_bytes_become_replacement_characters() {
    assert_eq!(received_text(b"a\xffb"), Some("a\u{fffd}b".to_string()));
    assert_eq!(received_text(&[0xc3, 0xa4]), Some("ä".to_string()));
}

#[test]
fn the_probe_names_its_host() {
    assert_eq!(
        probe_request("10.0.0.1"),
        "HEAD / HTTP/1.0\r\nHost: 10.0.0.1\r\nConnection: close\r\n\r\n"
    );
}
