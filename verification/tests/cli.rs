use oxidyze::cli::{
    parse, parse_network_spec, parse_ports, set_target, take_optional_positional, take_value,
    usage, Config, NetworkSpec, Parsed, Target, DEFAULT_THREADS, DEFAULT_TIMEOUT_MS, VERSION,
};
use oxidyze::net::{Cidr, Ipv4Addr};

fn words(args: &[&str]) -> Vec<String> {
    args.iter().map(|a| a.to_string()).collect()
}

fn parsed(args: &[&str]) -> Result<Parsed, String> {
    parse(&words(args))
}

fn cfg(args: &[&str]) -> Config {
    match parsed(args).unwrap() {
        Parsed::Run(c) => *c,
        _ => panic!("expected a run config"),
    }
}

fn message(args: &[&str]) -> String {
    parsed(args).unwrap_err()
}

#[test]
fn single_host_with_defaults() {
    let c = cfg(&["127.0.0.1"]);
    assert_eq!(c.target, Target::Host("127.0.0.1".to_string()));
    assert_eq!(c.ports.len(), 1024);
    assert_eq!(c.threads, DEFAULT_THREADS);
    assert_eq!(c.timeout_ms, DEFAULT_TIMEOUT_MS);
}

#[test]
fn non_numeric_thread_count_is_an_error() {
    let err = parsed(&["127.0.0.1", "--threads", "abc"]).unwrap_err();
    assert!(err.contains("--threads"), "unexpected message: {err}");
}

#[test]
fn non_numeric_timeout_is_an_error() {
    assert!(parsed(&["127.0.0.1", "--timeout", "soon"]).is_err());
}

#[test]
fn zero_values_are_rejected() {
    assert!(parsed(&["127.0.0.1", "--threads", "0"]).is_err());
    assert!(parsed(&["127.0.0.1", "--timeout", "0"]).is_err());
}

#[test]
fn missing_flag_value_is_an_error() {
    assert!(parsed(&["127.0.0.1", "--threads"]).is_err());
    assert!(parsed(&["127.0.0.1", "--ports"]).is_err());
}

#[test]
fn flag_followed_by_another_flag_is_an_error() {
    assert!(parsed(&["127.0.0.1", "--ports", "--threads", "4"]).is_err());
}

#[test]
fn misspelled_flag_is_reported_as_an_unknown_option() {
    let err = parsed(&["--lann"]).unwrap_err();
    assert!(err.contains("unknown option"), "unexpected message: {err}");
}

#[test]
fn no_target_is_an_error() {
    assert!(parsed(&[]).is_err());
    assert!(parsed(&["--threads", "8"]).is_err());
}

#[test]
fn two_targets_are_rejected() {
    assert!(parsed(&["10.0.0.1", "10.0.0.2"]).is_err());
    assert!(parsed(&["10.0.0.1", "--lan", "auto"]).is_err());
}

#[test]
fn discover_defaults_to_auto_network() {
    assert_eq!(
        cfg(&["--discover"]).target,
        Target::Discover(NetworkSpec::Auto)
    );
    assert_eq!(
        cfg(&["--discover", "auto"]).target,
        Target::Discover(NetworkSpec::Auto)
    );
}

#[test]
fn lan_accepts_an_explicit_cidr() {
    let c = cfg(&["--lan", "192.168.1.0/24"]);
    match c.target {
        Target::Lan(NetworkSpec::Explicit(cidr)) => {
            assert_eq!(cidr.network, Ipv4Addr::parse("192.168.1.0").unwrap());
            assert_eq!(cidr.prefix, 24);
        }
        other => panic!("unexpected target: {other:?}"),
    }
}

#[test]
fn bad_cidr_is_an_error() {
    assert!(parsed(&["--lan", "192.168.1.0/33"]).is_err());
    assert!(parsed(&["--lan", "banana/24"]).is_err());
}

#[test]
fn discover_flag_does_not_swallow_the_next_option() {
    let c = cfg(&["--discover", "--threads", "8"]);
    assert_eq!(c.target, Target::Discover(NetworkSpec::Auto));
    assert_eq!(c.threads, 8);
}

#[test]
fn options_may_precede_the_target() {
    let c = cfg(&["--threads", "8", "127.0.0.1"]);
    assert_eq!(c.threads, 8);
    assert_eq!(c.target, Target::Host("127.0.0.1".to_string()));
}

#[test]
fn port_specs() {
    assert_eq!(parse_ports("80").unwrap(), vec![80]);
    assert_eq!(parse_ports("22,80,443").unwrap(), vec![22, 80, 443]);
    assert_eq!(parse_ports("1-5").unwrap(), vec![1, 2, 3, 4, 5]);
    assert_eq!(parse_ports("80, 22 , 80").unwrap(), vec![22, 80]);
    assert_eq!(parse_ports("1-3,2-4").unwrap(), vec![1, 2, 3, 4]);
    assert_eq!(parse_ports("all").unwrap().len(), 65535);
}

#[test]
fn bad_port_specs_are_errors() {
    assert!(parse_ports("").is_err());
    assert!(parse_ports("0").is_err());
    assert!(parse_ports("70000").is_err());
    assert!(parse_ports("100-1").is_err());
    assert!(parse_ports("22,,80").is_err());
    assert!(parse_ports("http").is_err());
}

#[test]
fn banners_flag_defaults_off_and_is_settable() {
    assert!(!cfg(&["127.0.0.1"]).banners);
    assert!(cfg(&["127.0.0.1", "--banners"]).banners);
    assert!(cfg(&["127.0.0.1", "-b"]).banners);
}

#[test]
fn help_and_version_short_circuit() {
    assert!(matches!(parsed(&["--help"]).unwrap(), Parsed::Help));
    assert!(matches!(parsed(&["-h"]).unwrap(), Parsed::Help));
    assert!(matches!(parsed(&["-V"]).unwrap(), Parsed::Version));
}

#[test]
fn help_wins_over_what_follows_but_not_over_an_earlier_error() {
    assert!(matches!(
        parsed(&["a", "--help", "b", "--nonsense"]).unwrap(),
        Parsed::Help
    ));
    assert!(matches!(
        parsed(&["--version", "--help"]).unwrap(),
        Parsed::Version
    ));
    assert!(parsed(&["--nonsense", "--help"]).is_err());
}

#[test]
fn argument_errors_say_what_is_wrong() {
    assert_eq!(message(&[]), "no target given (try --help)");
    assert_eq!(
        message(&["-x"]),
        "unknown option '-x' (try --help)"
    );
    assert_eq!(
        message(&["a", "b"]),
        "more than one target given; pass a single host or one of --lan/--discover"
    );
    assert_eq!(message(&["a", "-t"]), "-t expects a value");
    assert_eq!(
        message(&["a", "--ports", "-b"]),
        "--ports expects a value, but found '-b'"
    );
    assert_eq!(
        message(&["a", "-t", "x1"]),
        "--threads expects a whole number, got 'x1'"
    );
    assert_eq!(message(&["a", "-t", "0"]), "--threads must be at least 1");
    assert_eq!(
        message(&["a", "--timeout", "1.5"]),
        "--timeout expects milliseconds, got '1.5'"
    );
    assert_eq!(
        message(&["a", "--timeout", "00"]),
        "--timeout must be at least 1ms"
    );
    assert_eq!(
        message(&["a", "--timeout", "18446744073709551616"]),
        "--timeout expects milliseconds, got '18446744073709551616'"
    );
}

#[test]
fn port_errors_say_what_is_wrong() {
    assert_eq!(
        parse_ports("").unwrap_err(),
        "empty entry in port list ''"
    );
    assert_eq!(
        parse_ports("22,,80").unwrap_err(),
        "empty entry in port list '22,,80'"
    );
    assert_eq!(parse_ports("0").unwrap_err(), "port 0 is not scannable");
    assert_eq!(
        parse_ports("70000").unwrap_err(),
        "port 70000 is above the maximum of 65535"
    );
    assert_eq!(
        parse_ports("1, 100-1").unwrap_err(),
        "port range '100-1' runs backwards"
    );
    assert_eq!(
        parse_ports("http").unwrap_err(),
        "'http' is not a valid port number"
    );
    assert_eq!(
        parse_ports("1-2-3").unwrap_err(),
        "'2-3' is not a valid port number"
    );
    assert_eq!(
        parse_ports("4294967296").unwrap_err(),
        "'4294967296' is not a valid port number"
    );
}

#[test]
fn port_specs_take_spaces_signs_and_capitals() {
    assert_eq!(parse_ports(" ALL ").unwrap().len(), 65535);
    assert_eq!(parse_ports(" 5 - 7 , +9 ").unwrap(), vec![5, 6, 7, 9]);
    assert_eq!(parse_ports("65535").unwrap(), vec![65535]);
    let all = parse_ports("all").unwrap();
    assert_eq!(all[0], 1);
    assert_eq!(all[65534], 65535);
    assert_eq!(parse_ports("1-65535").unwrap(), all);
}

#[test]
fn all_options_reach_the_configuration() {
    let c = cfg(&[
        "-p",
        "80,22",
        "-t",
        "7",
        "--timeout",
        "250",
        "--allow-large",
        "-b",
        "-l",
        "10.0.0.9/8",
    ]);
    assert_eq!(
        c.target,
        Target::Lan(NetworkSpec::Explicit(Cidr::parse("10.0.0.0/8").unwrap()))
    );
    assert_eq!(c.ports, vec![22, 80]);
    assert_eq!(c.threads, 7);
    assert_eq!(c.timeout_ms, 250);
    assert!(c.allow_large);
    assert!(c.banners);
}

#[test]
fn a_later_value_replaces_an_earlier_one() {
    assert_eq!(cfg(&["a", "-t", "1", "-t", "2"]).threads, 2);
    assert_eq!(cfg(&["a", "-p", "1", "-p", "2"]).ports, vec![2]);
}

#[test]
fn a_lone_dash_is_a_host_and_a_value() {
    assert_eq!(cfg(&["-"]).target, Target::Host("-".to_string()));
    assert_eq!(
        message(&["a", "--threads", "-"]),
        "--threads expects a whole number, got '-'"
    );
    assert_eq!(message(&["--lan", "-"]), message(&["a", "b"]));
}

#[test]
fn targets_are_checked_before_ports() {
    assert_eq!(message(&["-p", "0"]), "no target given (try --help)");
    assert_eq!(message(&["a", "-p", "0"]), "port 0 is not scannable");
}

#[test]
fn a_target_is_set_once() {
    let mut slot = None;
    assert!(set_target(&mut slot, Target::Host("a".to_string())).is_ok());
    assert!(set_target(&mut slot, Target::Host("b".to_string())).is_err());
    assert_eq!(slot, Some(Target::Host("a".to_string())));
}

#[test]
fn values_are_consumed_one_at_a_time() {
    let args = words(&["-p", "80", "-b"]);
    let mut i = 0;
    assert_eq!(take_value(&args, &mut i, "-p"), Ok("80".to_string()));
    assert_eq!(i, 1);
    assert!(take_value(&args, &mut i, "x").is_err());
    assert_eq!(i, 1);
    assert_eq!(take_optional_positional(&args, &mut i), None);
    let mut j = 0;
    assert_eq!(
        take_optional_positional(&args, &mut j),
        Some("80".to_string())
    );
    assert_eq!(j, 1);
}

#[test]
fn network_specs_are_nothing_auto_or_a_block() {
    assert_eq!(parse_network_spec(None), Ok(NetworkSpec::Auto));
    assert_eq!(parse_network_spec(Some("auto")), Ok(NetworkSpec::Auto));
    assert_eq!(
        parse_network_spec(Some("Auto")).unwrap_err(),
        "'Auto' is not a CIDR block (expected e.g. 192.168.1.0/24)"
    );
    assert_eq!(
        parse_network_spec(Some("1.2.3.4/16")),
        Ok(NetworkSpec::Explicit(Cidr::parse("1.2.0.0/16").unwrap()))
    );
}

#[test]
fn usage_names_the_program_and_the_defaults() {
    let text = usage("prog");
    assert!(text.starts_with(&format!(
        "prog {VERSION} - a personal network recon / pentesting toolkit\n\nCurrently: "
    )));
    assert!(text.contains("\n  prog --lan [cidr|auto] [options]   list live hosts, then scan each\n"));
    assert!(text.contains("or all [default: 1-1024]\n"));
    assert!(text.contains("capped at 1024 [default: 256]\n"));
    assert!(text.contains("per-connection timeout [default: 300]\n"));
    assert!(text.contains("permit networks larger than 65536 addresses\n"));
    assert!(text.ends_with(
        "\nOnly scan hosts and networks you own or have written authorization to test."
    ));
    assert_eq!(text.lines().count(), 28);
}

#[test]
fn options_may_stand_on_either_side_of_the_host() {
    let config = cfg(&["-t", "8", "-b", "host", "-p", "22,80", "--timeout", "9"]);
    assert_eq!(config.target, Target::Host("host".to_string()));
    assert_eq!(
        cfg(&["host", "-t", "8", "-b", "-p", "22,80", "--timeout", "9"]),
        config
    );
    assert_eq!(
        cfg(&["-t", "8", "-b", "-p", "22,80", "--timeout", "9", "host"]),
        config
    );
}
