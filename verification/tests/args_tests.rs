use pma_gateway::args::{
    find_colon, is_exactly, parse_args, read_number, starts_with, Args, ALLOWED_IP_TIMEOUT_MINUTES,
    CHALLENGE_FACTORS_TIMEOUT_MINUTES, DEFAULT_FACTORS_DIGITS, DEFAULT_JSON_MAX_SIZE, MAX_LISTENERS,
};
use pma_gateway::error::Error;

fn argv(args: &[&str]) -> Vec<String> {
    let mut v = vec!["gateway".to_string()];
    for a in args {
        v.push(a.to_string());
    }
    v
}

fn chars(s: &str) -> Vec<char> {
    s.chars().collect()
}

#[test]
fn no_arguments_give_the_defaults() {
    let a = parse_args(&argv(&[])).unwrap();
    assert_eq!(a.factors, None);
    assert_eq!(a.dest_url, "https://seodisparate.com");
    assert_eq!(a.addr_port_strs, vec!["127.0.0.1:8180".to_string()]);
    assert!(a.port_to_dest_urls.is_empty());
    assert_eq!(a.mysql_config_file, "mysql.conf");
    assert!(!a.enable_x_real_ip_header);
    assert_eq!(a.api_url, "/pma_api");
    assert_eq!(a.js_factors_url, "/pma_factors.js");
    assert_eq!(a.challenge_timeout_mins, 7);
    assert_eq!(a.allowed_timeout_mins, 60);
    assert!(!a.enable_override_dest_url);
}

#[test]
fn empty_command_line_gives_the_defaults() {
    let a = parse_args(&Vec::new()).unwrap();
    assert_eq!(a.dest_url, Args::defaults().dest_url);
    assert_eq!(a.addr_port_strs, Args::defaults().addr_port_strs);
}

#[test]
fn program_name_is_not_an_argument() {
    let a = parse_args(&vec!["--help".to_string()]).unwrap();
    assert_eq!(a.api_url, "/pma_api");
}

#[test]
fn constants_have_their_documented_values() {
    assert_eq!(DEFAULT_FACTORS_DIGITS, 17000);
    assert_eq!(DEFAULT_JSON_MAX_SIZE, 50000);
    assert_eq!(ALLOWED_IP_TIMEOUT_MINUTES, 60);
    assert_eq!(CHALLENGE_FACTORS_TIMEOUT_MINUTES, 7);
    assert_eq!(MAX_LISTENERS, 32);
}

#[test]
fn first_scenario_command_line() {
    let a = parse_args(&argv(&[
        "--addr-port=127.0.0.1:9001",
        "--dest-url=http://127.0.0.1:18080",
        "--api-url=/a",
        "--js-factors-url=/w",
    ]))
    .unwrap();
    assert_eq!(a.addr_port_strs, vec!["127.0.0.1:9001".to_string()]);
    assert_eq!(a.dest_url, "http://127.0.0.1:18080");
    assert_eq!(a.api_url, "/a");
    assert_eq!(a.js_factors_url, "/w");
}

#[test]
fn help_ends_the_reading() {
    assert_eq!(parse_args(&argv(&["-h"])).err(), Some(Error::HelpRequested));
    assert_eq!(parse_args(&argv(&["--help"])).err(), Some(Error::HelpRequested));
    assert_eq!(
        parse_args(&argv(&["--factors=5", "--help", "--challenge-timeout=x"])).err(),
        Some(Error::HelpRequested)
    );
    // the first failure is the one reported
    assert_eq!(
        parse_args(&argv(&["--challenge-timeout=x", "--help"])).err(),
        Some(Error::InvalidNumber)
    );
}

#[test]
fn factors_that_do_not_parse_are_dropped() {
    assert_eq!(parse_args(&argv(&["--factors=12"])).unwrap().factors, Some(12));
    assert_eq!(parse_args(&argv(&["--factors=+12"])).unwrap().factors, Some(12));
    assert_eq!(parse_args(&argv(&["--factors=0012"])).unwrap().factors, Some(12));
    assert_eq!(parse_args(&argv(&["--factors=12a"])).unwrap().factors, None);
    assert_eq!(parse_args(&argv(&["--factors="])).unwrap().factors, None);
    assert_eq!(parse_args(&argv(&["--factors=+"])).unwrap().factors, None);
    assert_eq!(parse_args(&argv(&["--factors=-1"])).unwrap().factors, None);
    assert_eq!(
        parse_args(&argv(&["--factors=18446744073709551615"])).unwrap().factors,
        Some(u64::MAX)
    );
    assert_eq!(parse_args(&argv(&["--factors=18446744073709551616"])).unwrap().factors, None);
    assert_eq!(parse_args(&argv(&["--factors=7", "--factors=x"])).unwrap().factors, None);
}

#[test]
fn listeners_replace_the_default_and_then_add_up() {
    let a = parse_args(&argv(&["--addr-port=0.0.0.0:1", "--addr-port=[::1]:2"])).unwrap();
    assert_eq!(a.addr_port_strs, vec!["0.0.0.0:1".to_string(), "[::1]:2".to_string()]);
}

#[test]
fn thirty_two_listeners_are_the_limit() {
    let mut args: Vec<String> = vec!["gateway".to_string()];
    for i in 0..32 {
        args.push(format!("--addr-port=127.0.0.1:{}", 9000 + i));
    }
    let a = parse_args(&args).unwrap();
    assert_eq!(a.addr_port_strs.len(), 32);
    assert_eq!(a.addr_port_strs[31], "127.0.0.1:9031");
    args.push("--addr-port=127.0.0.1:9032".to_string());
    assert_eq!(parse_args(&args).err(), Some(Error::TooManyListeners));
}

#[test]
fn port_mappings_split_at_the_first_colon() {
    let a = parse_args(&argv(&[
        "--port-to-dest-url=9002:http://127.0.0.1:18081",
        "--port-to-dest-url=9003:",
        "--port-to-dest-url=+9004:x",
    ]))
    .unwrap();
    assert_eq!(a.port_to_dest_urls.len(), 3);
    assert_eq!(a.port_to_dest_urls.get(&9002).unwrap(), "http://127.0.0.1:18081");
    assert_eq!(a.port_to_dest_urls.get(&9003).unwrap(), "");
    assert_eq!(a.port_to_dest_urls.get(&9004).unwrap(), "x");
}

#[test]
fn later_mapping_of_a_port_wins() {
    let a =
        parse_args(&argv(&["--port-to-dest-url=1:a", "--port-to-dest-url=1:b"])).unwrap();
    assert_eq!(a.port_to_dest_urls.len(), 1);
    assert_eq!(a.port_to_dest_urls.get(&1).unwrap(), "b");
}

#[test]
fn port_mapping_failures() {
    assert_eq!(parse_args(&argv(&["--port-to-dest-url=x:http://a"])).err(), Some(Error::InvalidPort));
    assert_eq!(parse_args(&argv(&["--port-to-dest-url=:http://a"])).err(), Some(Error::InvalidPort));
    assert_eq!(parse_args(&argv(&["--port-to-dest-url="])).err(), Some(Error::InvalidPort));
    assert_eq!(
        parse_args(&argv(&["--port-to-dest-url=65536:http://a"])).err(),
        Some(Error::InvalidPort)
    );
    assert_eq!(parse_args(&argv(&["--port-to-dest-url=9001"])).err(), Some(Error::MissingUrl));
    assert!(parse_args(&argv(&["--port-to-dest-url=65535:u"])).is_ok());
}

#[test]
fn timeouts_must_be_numbers() {
    let a = parse_args(&argv(&["--challenge-timeout=1", "--allowed-timeout=90"])).unwrap();
    assert_eq!(a.challenge_timeout_mins, 1);
    assert_eq!(a.allowed_timeout_mins, 90);
    assert_eq!(parse_args(&argv(&["--challenge-timeout="])).err(), Some(Error::InvalidNumber));
    assert_eq!(parse_args(&argv(&["--allowed-timeout=1m"])).err(), Some(Error::InvalidNumber));
    assert_eq!(
        parse_args(&argv(&["--allowed-timeout=99999999999999999999"])).err(),
        Some(Error::InvalidNumber)
    );
}

#[test]
fn override_needs_the_acknowledgement() {
    assert_eq!(
        parse_args(&argv(&["--enable-override-dest-url"])).err(),
        Some(Error::WarningNotAcknowledged)
    );
    let a = parse_args(&argv(&[
        "--important-warning-has-been-read",
        "--enable-override-dest-url",
    ]))
    .unwrap();
    assert!(a.enable_override_dest_url);
    let b = parse_args(&argv(&["--important-warning-has-been-read"])).unwrap();
    assert!(!b.enable_override_dest_url);
}

#[test]
fn flags_and_paths() {
    let a = parse_args(&argv(&["--enable-x-real-ip-header", "--mysql-conf=/etc/db.conf"])).unwrap();
    assert!(a.enable_x_real_ip_header);
    assert_eq!(a.mysql_config_file, "/etc/db.conf");
}

#[test]
fn unknown_arguments_change_nothing() {
    let a = parse_args(&argv(&["--nothing", "stray", "--enable-x-real-ip-header=1", "-help"]))
        .unwrap();
    assert!(!a.enable_x_real_ip_header);
    assert_eq!(a.dest_url, "https://seodisparate.com");
}

#[test]
fn option_values_may_be_empty_or_hold_equal_signs() {
    let a = parse_args(&argv(&["--dest-url=", "--api-url=/a=b"])).unwrap();
    assert_eq!(a.dest_url, "");
    assert_eq!(a.api_url, "/a=b");
}

#[test]
fn read_number_reads_a_range() {
    let v = chars("ab+123:9");
    assert_eq!(read_number(&v, 2, 6, 1000), Some(123));
    assert_eq!(read_number(&v, 3, 6, 1000), Some(123));
    assert_eq!(read_number(&v, 3, 6, 122), None);
    assert_eq!(read_number(&v, 3, 6, 123), Some(123));
    assert_eq!(read_number(&v, 2, 3, 1000), None);
    assert_eq!(read_number(&v, 3, 3, 1000), None);
    assert_eq!(read_number(&v, 0, 6, 1000), None);
    assert_eq!(read_number(&v, 7, 8, 8), None);
    assert_eq!(read_number(&v, 7, 8, 9), Some(9));
    assert_eq!(read_number(&chars("0"), 0, 1, 0), Some(0));
    assert_eq!(read_number(&chars("18446744073709551615"), 0, 20, u64::MAX), Some(u64::MAX));
    assert_eq!(read_number(&chars("18446744073709551616"), 0, 20, u64::MAX), None);
    assert_eq!(read_number(&chars("99999999999999999999"), 0, 20, u64::MAX), None);
}

#[test]
fn prefix_and_equality_helpers() {
    let v = chars("--api-url=/x");
    assert!(starts_with(&v, "--api-url="));
    assert!(starts_with(&v, ""));
    assert!(!starts_with(&v, "--api-url=/x/"));
    assert!(!starts_with(&v, "--api-uri="));
    assert!(is_exactly(&v, "--api-url=/x"));
    assert!(!is_exactly(&v, "--api-url=/"));
    assert!(!is_exactly(&v, "--api-url=/y"));
    assert_eq!(find_colon(&chars("a:b:c"), 0), 1);
    assert_eq!(find_colon(&chars("a:b:c"), 2), 3);
    assert_eq!(find_colon(&chars("abc"), 1), 3);
    assert_eq!(find_colon(&chars(""), 0), 0);
}
