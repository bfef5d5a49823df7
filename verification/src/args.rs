//! The gateway's settings and how the command line sets them.

use std::collections::HashMap;
use vstd::prelude::*;
use crate::error::Error;
use crate::text::{
    all_digits, char_is_digit, chars_of, decimal_value, digit_value, is_digit, string_of_range,
};

verus! {

broadcast use vstd::std_specs::hash::group_hash_axioms;

/// The most listeners that the acceptor multiplexes.
pub const MAX_LISTENERS: usize = 32;

/// The challenge timeout that holds unless the command line sets one, in
/// minutes.
pub const CHALLENGE_FACTORS_TIMEOUT_MINUTES: u64 = 7;

/// The allowance timeout that holds unless the command line sets one, in
/// minutes.
pub const ALLOWED_IP_TIMEOUT_MINUTES: u64 = 60;

/// The challenge size that holds unless the command line sets one, in
/// groups of four characters.
pub const DEFAULT_FACTORS_DIGITS: u64 = 17000;

/// The largest request body that the answer endpoint reads, in bytes.
pub const DEFAULT_JSON_MAX_SIZE: usize = 50000;

/// The gateway's settings.
#[derive(Clone, Debug)]
pub struct Args {
    pub factors: Option<u64>,
    pub dest_url: String,
    pub addr_port_strs: Vec<String>,
    pub port_to_dest_urls: HashMap<u16, String>,
    pub mysql_config_file: String,
    pub enable_x_real_ip_header: bool,
    pub api_url: String,
    pub js_factors_url: String,
    pub challenge_timeout_mins: u64,
    pub allowed_timeout_mins: u64,
    pub enable_override_dest_url: bool,
}

/// The settings as plain values.
pub struct ArgsView {
    pub factors: Option<u64>,
    pub dest_url: Seq<char>,
    pub addr_port_strs: Seq<Seq<char>>,
    pub port_to_dest_urls: Map<u16, Seq<char>>,
    pub mysql_config_file: Seq<char>,
    pub enable_x_real_ip_header: bool,
    pub api_url: Seq<char>,
    pub js_factors_url: Seq<char>,
    pub challenge_timeout_mins: u64,
    pub allowed_timeout_mins: u64,
    pub enable_override_dest_url: bool,
}

impl View for Args {
    type V = ArgsView;

    open spec fn view(&self) -> ArgsView {
        ArgsView {
            factors: self.factors,
            dest_url: self.dest_url@,
            addr_port_strs: self.addr_port_strs@.map_values(|s: String| s@),
            port_to_dest_urls: self.port_to_dest_urls@.map_values(|s: String| s@),
            mysql_config_file: self.mysql_config_file@,
            enable_x_real_ip_header: self.enable_x_real_ip_header,
            api_url: self.api_url@,
            js_factors_url: self.js_factors_url@,
            challenge_timeout_mins: self.challenge_timeout_mins,
            allowed_timeout_mins: self.allowed_timeout_mins,
            enable_override_dest_url: self.enable_override_dest_url,
        }
    }
}

/// `s` starts with `p`.
pub open spec fn has_prefix(s: Seq<char>, p: Seq<char>) -> bool {
    p.len() <= s.len() && s.take(p.len() as int) == p
}

/// The number that `s` writes in decimal, with or without a plus sign in
/// front, if it is at most `max`.
pub open spec fn parse_number(s: Seq<char>, max: nat) -> Option<nat> {
    let body = if s.len() > 0 && s[0] == '+' {
        s.skip(1)
    } else {
        s
    };
    if body.len() > 0 && all_digits(body) && decimal_value(body) <= max {
        Some(decimal_value(body))
    } else {
        None
    }
}

/// Where the first colon of `s` stands; the length of `s` if it has none.
pub open spec fn first_colon(s: Seq<char>) -> int
    decreases s.len(),
{
    if s.len() == 0 || s[0] == ':' {
        0
    } else {
        1 + first_colon(s.drop_first())
    }
}

/// The settings while the command line is read: the settings so far,
/// whether the listeners are still the default ones, and whether the
/// acknowledgement flag was seen.
pub struct Reading {
    pub args: ArgsView,
    pub default_listeners: bool,
    pub warning_read: bool,
}

/// The settings before any argument is read.
pub open spec fn initial_reading() -> Reading {
    Reading {
        args: ArgsView {
            factors: None,
            dest_url: "https://seodisparate.com"@,
            addr_port_strs: seq!["127.0.0.1:8180"@],
            port_to_dest_urls: Map::empty(),
            mysql_config_file: "mysql.conf"@,
            enable_x_real_ip_header: false,
            api_url: "/pma_api"@,
            js_factors_url: "/pma_factors.js"@,
            challenge_timeout_mins: CHALLENGE_FACTORS_TIMEOUT_MINUTES,
            allowed_timeout_mins: ALLOWED_IP_TIMEOUT_MINUTES,
            enable_override_dest_url: false,
        },
        default_listeners: true,
        warning_read: false,
    }
}

/// What one argument does to the settings. An argument that is none of the
/// options changes nothing.
pub open spec fn apply_argument(r: Reading, arg: Seq<char>) -> Result<Reading, Error> {
    if arg == "-h"@ || arg == "--help"@ {
        Err(Error::HelpRequested)
    } else if has_prefix(arg, "--factors="@) {
        let n = parse_number(arg.skip(10), u64::MAX as nat);
        Ok(
            Reading {
                args: ArgsView {
                    factors: match n {
                        Some(v) => Some(v as u64),
                        None => None,
                    },
                    ..r.args
                },
                ..r
            },
        )
    } else if has_prefix(arg, "--dest-url="@) {
        Ok(Reading { args: ArgsView { dest_url: arg.skip(11), ..r.args }, ..r })
    } else if has_prefix(arg, "--addr-port="@) {
        let listeners = if r.default_listeners {
            seq![arg.skip(12)]
        } else {
            r.args.addr_port_strs.push(arg.skip(12))
        };
        Ok(
            Reading {
                args: ArgsView { addr_port_strs: listeners, ..r.args },
                default_listeners: false,
                ..r
            },
        )
    } else if has_prefix(arg, "--port-to-dest-url="@) {
        let rest = arg.skip(19);
        let colon = first_colon(rest);
        match parse_number(rest.take(colon), u16::MAX as nat) {
            None => Err(Error::InvalidPort),
            Some(port) => if colon >= rest.len() {
                Err(Error::MissingUrl)
            } else {
                Ok(
                    Reading {
                        args: ArgsView {
                            port_to_dest_urls: r.args.port_to_dest_urls.insert(
                                port as u16,
                                rest.skip(colon + 1),
                            ),
                            ..r.args
                        },
                        ..r
                    },
                )
            },
        }
    } else if has_prefix(arg, "--mysql-conf="@) {
        Ok(Reading { args: ArgsView { mysql_config_file: arg.skip(13), ..r.args }, ..r })
    } else if arg == "--enable-x-real-ip-header"@ {
        Ok(Reading { args: ArgsView { enable_x_real_ip_header: true, ..r.args }, ..r })
    } else if has_prefix(arg, "--api-url="@) {
        Ok(Reading { args: ArgsView { api_url: arg.skip(10), ..r.args }, ..r })
    } else if has_prefix(arg, "--js-factors-url="@) {
        Ok(Reading { args: ArgsView { js_factors_url: arg.skip(17), ..r.args }, ..r })
    } else if has_prefix(arg, "--challenge-timeout="@) {
        match parse_number(arg.skip(20), u64::MAX as nat) {
            Some(v) => Ok(
                Reading { args: ArgsView { challenge_timeout_mins: v as u64, ..r.args }, ..r },
            ),
            None => Err(Error::InvalidNumber),
        }
    } else if has_prefix(arg, "--allowed-timeout="@) {
        match parse_number(arg.skip(18), u64::MAX as nat) {
            Some(v) => Ok(
                Reading { args: ArgsView { allowed_timeout_mins: v as u64, ..r.args }, ..r },
            ),
            None => Err(Error::InvalidNumber),
        }
    } else if arg == "--enable-override-dest-url"@ {
        Ok(Reading { args: ArgsView { enable_override_dest_url: true, ..r.args }, ..r })
    } else if arg == "--important-warning-has-been-read"@ {
        Ok(Reading { warning_read: true, ..r })
    } else {
        Ok(r)
    }
}

/// What the arguments do to the settings, one after the other; the first
/// failure ends the reading.
pub open spec fn apply_all(r: Reading, args: Seq<Seq<char>>) -> Result<Reading, Error>
    decreases args.len(),
{
    if args.len() == 0 {
        Ok(r)
    } else {
        match apply_all(r, args.drop_last()) {
            Ok(before) => apply_argument(before, args.last()),
            Err(e) => Err(e),
        }
    }
}

/// What is asked of the settings once every argument is read:
/// header-directed forwarding needs the acknowledgement flag, and there are
/// at most `MAX_LISTENERS` listeners.
pub open spec fn conclude(r: Reading) -> Result<ArgsView, Error> {
    if r.args.enable_override_dest_url && !r.warning_read {
        Err(Error::WarningNotAcknowledged)
    } else if r.args.addr_port_strs.len() > MAX_LISTENERS {
        Err(Error::TooManyListeners)
    } else {
        Ok(r.args)
    }
}

/// The settings that a command line gives; its first element is the
/// program's name.
pub open spec fn parsed(argv: Seq<Seq<char>>) -> Result<ArgsView, Error> {
    let arguments = if argv.len() > 0 {
        argv.skip(1)
    } else {
        argv
    };
    match apply_all(initial_reading(), arguments) {
        Ok(r) => conclude(r),
        Err(e) => Err(e),
    }
}

/// A failure ends the reading: more arguments do not change it.
pub proof fn lemma_failure_ends_reading(r: Reading, args: Seq<Seq<char>>, k: int)
    requires
        0 <= k <= args.len(),
        apply_all(r, args.take(k)) is Err,
    ensures
        apply_all(r, args) == apply_all(r, args.take(k)),
    decreases args.len() - k,
{
    if k < args.len() {
        assert(args.take(k + 1).drop_last() =~= args.take(k));
        lemma_failure_ends_reading(r, args, k + 1);
    } else {
        assert(args.take(k) =~= args);
    }
}

/// A digit string denotes at least what any of its prefixes denotes.
pub proof fn lemma_prefix_value(s: Seq<char>, k: int)
    requires
        all_digits(s),
        0 <= k <= s.len(),
    ensures
        decimal_value(s.take(k)) <= decimal_value(s),
    decreases s.len() - k,
{
    if k < s.len() {
        assert(s.take(k + 1).drop_last() =~= s.take(k));
        lemma_prefix_value(s, k + 1);
    } else {
        assert(s.take(k) =~= s);
    }
}

/// Tells whether the characters of `v` from `from` on are `p`.
pub fn starts_with(v: &Vec<char>, p: &str) -> (r: bool)
    ensures
        r == has_prefix(v@, p@),
{
    let pv = chars_of(p);
    if pv.len() > v.len() {
        return false;
    }
    let mut i: usize = 0;
    while i < pv.len()
        invariant
            i <= pv.len() <= v.len(),
            pv@ == p@,
            forall|j: int| 0 <= j < i ==> v@[j] == pv@[j],
        decreases pv.len() - i,
    {
        if v[i] != pv[i] {
            proof {
                assert(v@.take(p@.len() as int)[i as int] != p@[i as int]);
            }
            return false;
        }
        i = i + 1;
    }
    proof {
        assert(v@.take(p@.len() as int) =~= p@);
    }
    true
}

/// Tells whether the characters of `v` are exactly `p`.
pub fn is_exactly(v: &Vec<char>, p: &str) -> (r: bool)
    ensures
        r == (v@ == p@),
{
    let pv = chars_of(p);
    if pv.len() != v.len() {
        return false;
    }
    let mut i: usize = 0;
    while i < pv.len()
        invariant
            i <= pv.len(),
            pv.len() == v.len(),
            pv@ == p@,
            forall|j: int| 0 <= j < i ==> v@[j] == pv@[j],
        decreases pv.len() - i,
    {
        if v[i] != pv[i] {
            return false;
        }
        i = i + 1;
    }
    proof {
        assert(v@ =~= p@);
    }
    true
}

/// Reads the number that the characters of `v` from `from` to `to` write in
/// decimal, with or without a plus sign in front, if it is at most `max`.
pub fn read_number(v: &Vec<char>, from: usize, to: usize, max: u64) -> (r: Option<u64>)
    requires
        from <= to <= v.len(),
    ensures
        match r {
            Some(n) => parse_number(v@.subrange(from as int, to as int), max as nat) == Some(
                n as nat,
            ),
            None => parse_number(v@.subrange(from as int, to as int), max as nat) is None,
        },
{
    let ghost s = v@.subrange(from as int, to as int);
    let start: usize = if from < to && v[from] == '+' {
        from + 1
    } else {
        from
    };
    let ghost body = v@.subrange(start as int, to as int);
    proof {
        if from < to {
            assert(s[0] == v@[from as int]);
        }
        if start > from {
            assert(s.skip(1) =~= body);
        } else {
            assert(s =~= body);
        }
    }
    if start == to {
        return None;
    }
    let mut acc: u64 = 0;
    let mut i: usize = start;
    proof {
        assert(body.take(0) =~= Seq::<char>::empty());
    }
    while i < to
        invariant
            start <= i <= to <= v.len(),
            body == v@.subrange(start as int, to as int),
            s == v@.subrange(from as int, to as int),
            body == (if s.len() > 0 && s[0] == '+' {
                s.skip(1)
            } else {
                s
            }),
            body.len() > 0,
            all_digits(body.take(i - start)),
            acc == decimal_value(body.take(i - start)),
            acc <= max,
        decreases to - i,
    {
        let c = v[i];
        proof {
            assert(body[i - start] == c);
            assert(body.take(i - start + 1).drop_last() =~= body.take(i - start));
            assert(body.take(i - start + 1).last() == c);
        }
        if !char_is_digit(c) {
            proof {
                assert(!all_digits(body));
            }
            return None;
        }
        let d: u64 = (c as u32 - '0' as u32) as u64;
        proof {
            assert(d == digit_value(c));
            assert(all_digits(body.take(i - start + 1))) by {
                let t = body.take(i - start + 1);
                assert forall|j: int| 0 <= j < t.len() implies is_digit(#[trigger] t[j]) by {
                    if j < i - start {
                        assert(t[j] == body.take(i - start)[j]);
                    }
                }
            }
        }
        if d > max || acc > (max - d) / 10 {
            proof {
                assert(decimal_value(body.take(i - start + 1)) > max);
                if all_digits(body) {
                    lemma_prefix_value(body, i - start + 1);
                }
            }
            return None;
        }
        acc = acc * 10 + d;
        i = i + 1;
    }
    proof {
        assert(body.take(to - start) =~= body);
    }
    Some(acc)
}

/// The index of the first colon of `v` at or after `from`; the length of
/// `v` if there is none.
pub fn find_colon(v: &Vec<char>, from: usize) -> (at: usize)
    requires
        from <= v.len(),
    ensures
        at == from + first_colon(v@.skip(from as int)),
        from <= at <= v.len(),
{
    let mut i: usize = from;
    while i < v.len() && v[i] != ':'
        invariant
            from <= i <= v.len(),
            first_colon(v@.skip(from as int)) == (i - from) + first_colon(v@.skip(i as int)),
        decreases v.len() - i,
    {
        proof {
            assert(v@.skip(i as int)[0] == v@[i as int]);
            assert(v@.skip(i as int).drop_first() =~= v@.skip(i + 1));
        }
        i = i + 1;
    }
    proof {
        if i < v.len() {
            assert(v@.skip(i as int)[0] == v@[i as int]);
        }
    }
    i
}

/// The settings while the command line is read.
pub struct ReadingState {
    pub args: Args,
    pub default_listeners: bool,
    pub warning_read: bool,
}

impl View for ReadingState {
    type V = Reading;

    open spec fn view(&self) -> Reading {
        Reading {
            args: self.args@,
            default_listeners: self.default_listeners,
            warning_read: self.warning_read,
        }
    }
}

impl Args {
    /// The settings that hold unless the command line says otherwise.
    pub fn defaults() -> (args: Args)
        ensures
            args@ == initial_reading().args,
    {
        let mut listeners: Vec<String> = Vec::new();
        listeners.push("127.0.0.1:8180".to_owned());
        let args = Args {
            factors: None,
            dest_url: "https://seodisparate.com".to_owned(),
            addr_port_strs: listeners,
            port_to_dest_urls: HashMap::new(),
            mysql_config_file: "mysql.conf".to_owned(),
            enable_x_real_ip_header: false,
            api_url: "/pma_api".to_owned(),
            js_factors_url: "/pma_factors.js".to_owned(),
            challenge_timeout_mins: CHALLENGE_FACTORS_TIMEOUT_MINUTES,
            allowed_timeout_mins: ALLOWED_IP_TIMEOUT_MINUTES,
            enable_override_dest_url: false,
        };
        proof {
            assert(args@.addr_port_strs =~= seq!["127.0.0.1:8180"@]);
            assert(args@.port_to_dest_urls =~= Map::<u16, Seq<char>>::empty());
        }
        args
    }
}

/// Lets one argument act on the settings.
pub fn apply_one(state: &mut ReadingState, v: &Vec<char>) -> (r: Result<(), Error>)
    ensures
        match r {
            Ok(_) => apply_argument(old(state)@, v@) == Ok::<Reading, Error>(final(state)@),
            Err(e) => apply_argument(old(state)@, v@) == Err::<Reading, Error>(e),
        },
{
    let n = v.len();
    if is_exactly(v, "-h") || is_exactly(v, "--help") {
        Err(Error::HelpRequested)
    } else if starts_with(v, "--factors=") {
        proof {
            reveal_strlit("--factors=");
            assert(v@.skip(10) =~= v@.subrange(10, n as int));
        }
        state.args.factors = read_number(v, 10, n, u64::MAX);
        Ok(())
    } else if starts_with(v, "--dest-url=") {
        proof {
            reveal_strlit("--dest-url=");
            assert(v@.skip(11) =~= v@.subrange(11, n as int));
        }
        state.args.dest_url = string_of_range(v, 11, n);
        Ok(())
    } else if starts_with(v, "--addr-port=") {
        proof {
            reveal_strlit("--addr-port=");
            assert(v@.skip(12) =~= v@.subrange(12, n as int));
        }
        let end = string_of_range(v, 12, n);
        let ghost before = state.args@.addr_port_strs;
        if state.default_listeners {
            let mut listeners: Vec<String> = Vec::new();
            listeners.push(end);
            state.args.addr_port_strs = listeners;
            state.default_listeners = false;
            proof {
                assert(state.args@.addr_port_strs =~= seq![v@.skip(12)]);
            }
        } else {
            state.args.addr_port_strs.push(end);
            proof {
                assert(state.args@.addr_port_strs =~= before.push(v@.skip(12)));
            }
        }
        Ok(())
    } else if starts_with(v, "--port-to-dest-url=") {
        proof {
            reveal_strlit("--port-to-dest-url=");
        }
        let colon = find_colon(v, 19);
        let ghost rest = v@.skip(19);
        proof {
            assert(rest.take(colon - 19) =~= v@.subrange(19, colon as int));
        }
        match read_number(v, 19, colon, 65535) {
            None => Err(Error::InvalidPort),
            Some(port) => {
                if colon >= n {
                    Err(Error::MissingUrl)
                } else {
                    proof {
                        assert(rest.skip(colon - 19 + 1) =~= v@.subrange(colon + 1, n as int));
                    }
                    let url = string_of_range(v, colon + 1, n);
                    let ghost before = state.args@.port_to_dest_urls;
                    state.args.port_to_dest_urls.insert(port as u16, url);
                    proof {
                        assert(state.args@.port_to_dest_urls =~= before.insert(port as u16, url@));
                    }
                    Ok(())
                }
            },
        }
    } else if starts_with(v, "--mysql-conf=") {
        proof {
            reveal_strlit("--mysql-conf=");
            assert(v@.skip(13) =~= v@.subrange(13, n as int));
        }
        state.args.mysql_config_file = string_of_range(v, 13, n);
        Ok(())
    } else if is_exactly(v, "--enable-x-real-ip-header") {
        state.args.enable_x_real_ip_header = true;
        Ok(())
    } else if starts_with(v, "--api-url=") {
        proof {
            reveal_strlit("--api-url=");
            assert(v@.skip(10) =~= v@.subrange(10, n as int));
        }
        state.args.api_url = string_of_range(v, 10, n);
        Ok(())
    } else if starts_with(v, "--js-factors-url=") {
        proof {
            reveal_strlit("--js-factors-url=");
            assert(v@.skip(17) =~= v@.subrange(17, n as int));
        }
        state.args.js_factors_url = string_of_range(v, 17, n);
        Ok(())
    } else if starts_with(v, "--challenge-timeout=") {
        proof {
            reveal_strlit("--challenge-timeout=");
            assert(v@.skip(20) =~= v@.subrange(20, n as int));
        }
        match read_number(v, 20, n, u64::MAX) {
            Some(mins) => {
                state.args.challenge_timeout_mins = mins;
                Ok(())
            },
            None => Err(Error::InvalidNumber),
        }
    } else if starts_with(v, "--allowed-timeout=") {
        proof {
            reveal_strlit("--allowed-timeout=");
            assert(v@.skip(18) =~= v@.subrange(18, n as int));
        }
        match read_number(v, 18, n, u64::MAX) {
            Some(mins) => {
                state.args.allowed_timeout_mins = mins;
                Ok(())
            },
            None => Err(Error::InvalidNumber),
        }
    } else if is_exactly(v, "--enable-override-dest-url") {
        state.args.enable_override_dest_url = true;
        Ok(())
    } else if is_exactly(v, "--important-warning-has-been-read") {
        state.warning_read = true;
        Ok(())
    } else {
        Ok(())
    }
}

/// Reads the settings from a command line, whose first element is the
/// program's name.
pub fn parse_args(argv: &Vec<String>) -> (r: Result<Args, Error>)
    ensures
        match r {
            Ok(args) => parsed(argv@.map_values(|s: String| s@)) == Ok::<ArgsView, Error>(args@),
            Err(e) => parsed(argv@.map_values(|s: String| s@)) == Err::<ArgsView, Error>(e),
        },
{
    let ghost all = argv@.map_values(|s: String| s@);
    let ghost rest = if all.len() > 0 {
        all.skip(1)
    } else {
        all
    };
    let mut state = ReadingState {
        args: Args::defaults(),
        default_listeners: true,
        warning_read: false,
    };
    let mut done: usize = 0;
    let count: usize = if argv.len() > 0 {
        argv.len() - 1
    } else {
        0
    };
    proof {
        assert(rest.take(0) =~= Seq::<Seq<char>>::empty());
    }
    while done < count
        invariant
            done <= count,
            count == rest.len(),
            count + 1 == argv.len() || (count == 0 && argv.len() == 0),
            all == argv@.map_values(|s: String| s@),
            rest == (if all.len() > 0 {
                all.skip(1)
            } else {
                all
            }),
            apply_all(initial_reading(), rest.take(done as int)) == Ok::<Reading, Error>(state@),
        decreases count - done,
    {
        let v = chars_of(argv[done + 1].as_str());
        proof {
            assert(rest.take(done + 1).drop_last() =~= rest.take(done as int));
            assert(rest.take(done + 1).last() == v@);
        }
        match apply_one(&mut state, &v) {
            Ok(_) => {},
            Err(e) => {
                proof {
                    lemma_failure_ends_reading(initial_reading(), rest, done + 1);
                }
                return Err(e);
            },
        }
        done = done + 1;
    }
    proof {
        assert(rest.take(count as int) =~= rest);
    }
    if state.args.enable_override_dest_url && !state.warning_read {
        return Err(Error::WarningNotAcknowledged);
    }
    if state.args.addr_port_strs.len() > MAX_LISTENERS {
        return Err(Error::TooManyListeners);
    }
    Ok(state.args)
}

} // verus!
