use pma_gateway::acceptor::TcpVectorListener;
use pma_gateway::args::{parse_args, Args};
use pma_gateway::cleanup::GenericCleanup;
use pma_gateway::error::Error;
use pma_gateway::json_types::FactorsResponse;
use pma_gateway::routing::{
    ascii_bytes, client_address, plan_forward, relay, resolve_upstream, verdict, ReplyHeader,
    Response,
};
use pma_gateway::template::{find_first, render_html, render_worker, replace_once};
use pma_gateway::text::{push_str, string_of_range};

fn settings(args: &[&str]) -> Args {
    let mut v = vec!["gateway".to_string()];
    for a in args {
        v.push(a.to_string());
    }
    parse_args(&v).unwrap()
}

fn chars(s: &str) -> Vec<char> {
    s.chars().collect()
}

#[test]
fn default_destination_is_the_fallback() {
    let a = settings(&["--dest-url=http://127.0.0.1:18080"]);
    assert_eq!(resolve_upstream(&a, 9001, None), "http://127.0.0.1:18080");
}

#[test]
fn per_port_destination_beats_the_default() {
    let a = settings(&[
        "--dest-url=http://127.0.0.1:18080",
        "--port-to-dest-url=9002:http://127.0.0.1:18081",
    ]);
    assert_eq!(resolve_upstream(&a, 9002, None), "http://127.0.0.1:18081");
    assert_eq!(resolve_upstream(&a, 9001, None), "http://127.0.0.1:18080");
}

#[test]
fn override_header_beats_the_port_mapping_when_enabled() {
    let a = settings(&[
        "--dest-url=http://d",
        "--port-to-dest-url=9002:http://m",
        "--enable-override-dest-url",
        "--important-warning-has-been-read",
    ]);
    assert_eq!(resolve_upstream(&a, 9002, Some("http://o")), "http://o");
    assert_eq!(resolve_upstream(&a, 9001, Some("http://o")), "http://o");
    assert_eq!(resolve_upstream(&a, 9002, None), "http://m");
    assert_eq!(resolve_upstream(&a, 9001, None), "http://d");
}

#[test]
fn override_header_is_ignored_when_not_enabled() {
    let a = settings(&["--dest-url=http://d", "--port-to-dest-url=9002:http://m"]);
    assert_eq!(resolve_upstream(&a, 9002, Some("http://o")), "http://m");
    assert_eq!(resolve_upstream(&a, 9001, Some("http://o")), "http://d");
}

#[test]
fn forward_plan_appends_path_and_query() {
    let a = settings(&["--dest-url=http://127.0.0.1:18080"]);
    let plan = plan_forward(&a, 9001, None, "/foo?x=1&y=2", "10.0.0.7");
    assert_eq!(plan.url, "http://127.0.0.1:18080/foo?x=1&y=2");
    assert_eq!(plan.headers.len(), 1);
    assert_eq!(plan.headers[0].name, "accept");
    assert_eq!(plan.headers[0].value, "text/html,application/xhtml+xml,*/*");
}

#[test]
fn forward_plan_adds_the_client_address_when_enabled() {
    let a = settings(&["--dest-url=http://u", "--enable-x-real-ip-header"]);
    let plan = plan_forward(&a, 9001, None, "/", "10.0.0.7");
    assert_eq!(plan.url, "http://u/");
    assert_eq!(plan.headers.len(), 2);
    assert_eq!(plan.headers[0].name, "accept");
    assert_eq!(plan.headers[1].name, "x-real-ip");
    assert_eq!(plan.headers[1].value, "10.0.0.7");
}

#[test]
fn relay_hands_the_upstream_response_through() {
    let upstream = Response {
        status: 404,
        headers: vec![
            ReplyHeader { name: "content-type".to_string(), value: b"text/html".to_vec() },
            ReplyHeader { name: "set-cookie".to_string(), value: b"a=b".to_vec() },
            ReplyHeader { name: "set-cookie".to_string(), value: vec![0xff, 0x80] },
        ],
        body: vec![0, 255, 10, 13],
    };
    let reply = relay(Some(upstream));
    assert_eq!(reply.status, 404);
    assert_eq!(reply.headers.len(), 3);
    assert_eq!(reply.headers[1].name, "set-cookie");
    assert_eq!(reply.headers[1].value, b"a=b".to_vec());
    assert_eq!(reply.headers[2].value, vec![0xff, 0x80]);
    assert_eq!(reply.body, vec![0, 255, 10, 13]);
}

#[test]
fn relay_turns_a_transport_failure_into_500() {
    let reply = relay(None);
    assert_eq!(reply.status, 500);
    assert_eq!(reply.body, b"Failed to query".to_vec());
    assert_eq!(reply.headers.len(), 1);
    assert_eq!(reply.headers[0].name, "content-type");
    assert_eq!(reply.headers[0].value, b"text/plain; charset=utf-8".to_vec());
}

#[test]
fn verdict_is_correct_or_incorrect() {
    assert_eq!(verdict(&Ok(9001)), (200, "Correct"));
    assert_eq!(verdict(&Err(Error::Rejected)), (400, "Incorrect"));
    assert_eq!(verdict(&Err(Error::InvalidFormat)), (400, "Incorrect"));
}

#[test]
fn client_address_prefers_a_trusted_header() {
    assert_eq!(client_address(true, Some("1.1.1.1"), Some("2.2.2.2")), Ok("1.1.1.1".to_string()));
    assert_eq!(client_address(false, Some("1.1.1.1"), Some("2.2.2.2")), Ok("2.2.2.2".to_string()));
    assert_eq!(client_address(true, None, Some("2.2.2.2")), Ok("2.2.2.2".to_string()));
    assert_eq!(client_address(true, Some(""), Some("2.2.2.2")), Err(Error::NoClientAddress));
    assert_eq!(client_address(false, Some(""), Some("2.2.2.2")), Ok("2.2.2.2".to_string()));
    assert_eq!(client_address(true, None, None), Err(Error::NoClientAddress));
    assert_eq!(client_address(false, Some("1.1.1.1"), None), Err(Error::NoClientAddress));
    assert_eq!(client_address(true, Some("1.1.1.1"), None), Ok("1.1.1.1".to_string()));
}

#[test]
fn ascii_bytes_cuts_each_character_to_a_byte() {
    assert_eq!(ascii_bytes("Az09"), vec![65, 122, 48, 57]);
    assert_eq!(ascii_bytes(""), Vec::<u8>::new());
    assert_eq!(ascii_bytes("\u{101}"), vec![1]);
}

#[test]
fn replace_once_replaces_the_first_occurrence_only() {
    assert_eq!(replace_once("a{X}b{X}c", "{X}", "123"), "a123b{X}c");
    assert_eq!(replace_once("{X}", "{X}", ""), "");
    assert_eq!(replace_once("abc", "{X}", "123"), "abc");
    assert_eq!(replace_once("", "{X}", "123"), "");
    assert_eq!(replace_once("ab{X", "{X}", "1"), "ab{X");
    assert_eq!(replace_once("aaa", "aa", "b"), "ba");
    assert_eq!(replace_once("xaab", "aab", "{X}"), "x{X}");
    assert_eq!(replace_once("abc", "", "-"), "-abc");
    assert_eq!(replace_once("", "", "-"), "-");
    assert_eq!(replace_once("h\u{e9}llo {X}", "{X}", "w\u{f6}rld"), "h\u{e9}llo w\u{f6}rld");
}

#[test]
fn replace_once_agrees_with_replacen() {
    let hays = ["", "a", "ab", "aab", "abab", "{A}{B}{A}", "xx{A", "{A}"];
    let needles = ["", "a", "ab", "b", "{A}", "{B}", "abc"];
    for h in hays {
        for n in needles {
            assert_eq!(replace_once(h, n, "<>"), h.replacen(n, "<>", 1), "{:?} {:?}", h, n);
        }
    }
}

#[test]
fn find_first_gives_the_lowest_index() {
    assert_eq!(find_first(&chars("abcabc"), &chars("bc")), Some(1));
    assert_eq!(find_first(&chars("abcabc"), &chars("abcabc")), Some(0));
    assert_eq!(find_first(&chars("abcabc"), &chars("cab")), Some(2));
    assert_eq!(find_first(&chars("abcabc"), &chars("abcabcd")), None);
    assert_eq!(find_first(&chars("abcabc"), &chars("d")), None);
    assert_eq!(find_first(&chars("abc"), &chars("")), Some(0));
    assert_eq!(find_first(&chars(""), &chars("")), Some(0));
}

#[test]
fn html_page_carries_the_worker_address_with_the_id() {
    let page = render_html("<script>new Worker(\"{JS_FACTORS_URL}\");</script>", "/w", "abc123");
    assert_eq!(page, "<script>new Worker(\"/w?id=abc123\");</script>");
}

#[test]
fn worker_script_has_its_three_placeholders_filled() {
    let script = render_worker(
        "post('{API_URL}', '{UUID}', '{LARGE_NUMBER}'); // {API_URL}",
        "/a",
        "Bv",
        "id9",
    );
    assert_eq!(script, "post('/a', 'id9', 'Bv'); // {API_URL}");
}

#[test]
fn worker_script_fills_in_order() {
    // what the first replacement brings in is seen by the later ones
    let script = render_worker("{API_URL}|{LARGE_NUMBER}|{UUID}", "{UUID}", "{UUID}", "u");
    assert_eq!(script, "u|{UUID}|{UUID}");
}

#[test]
fn text_helpers() {
    let mut s = String::from("a");
    push_str(&mut s, "bc");
    push_str(&mut s, "");
    assert_eq!(s, "abc");
    assert_eq!(string_of_range(&chars("hello"), 1, 3), "el");
    assert_eq!(string_of_range(&chars("hello"), 5, 5), "");
}

#[test]
fn listener_set_takes_thirty_two_addresses() {
    let mut set = TcpVectorListener::new();
    assert_eq!(set.len(), 0);
    for i in 0..32 {
        assert_eq!(set.push(format!("127.0.0.1:{}", 9000 + i)), Ok(()));
    }
    assert_eq!(set.len(), 32);
    assert_eq!(set.push("127.0.0.1:1".to_string()), Err(Error::TooManyListeners));
    assert_eq!(set.len(), 32);
    assert_eq!(set.address(0), "127.0.0.1:9000");
    assert_eq!(set.address(31), "127.0.0.1:9031");
}

#[test]
fn cleanup_guard_hands_a_clone_to_the_function() {
    let mut seen: Vec<String> = Vec::new();
    let guard = GenericCleanup::new("token".to_string(), |s: String| seen.push(s));
    let (data, _) = guard.run();
    assert_eq!(data, "token");
    assert_eq!(seen, vec!["token".to_string()]);
}

#[test]
fn factors_response_holds_its_three_fields() {
    let r = FactorsResponse {
        kind: "factors".to_string(),
        id: "ab".to_string(),
        factors: "2x1".to_string(),
    };
    assert_eq!(r.clone(), r);
    assert_eq!(r.kind, "factors");
}
