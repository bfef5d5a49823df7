use pma_gateway::admission::{
    append_bytes, id_salt, make_id, AdmissionService, Decision, Minting,
};
use pma_gateway::args::parse_args;
use pma_gateway::cache::{cache_ttl, CachedAllow, CACHED_CLEANUP_TIMEOUT, CACHED_TIMEOUT};
use pma_gateway::error::Error;

fn sextet(c: char) -> u32 {
    match c {
        'A'..='Z' => c as u32 - 'A' as u32,
        'a'..='z' => c as u32 - 'a' as u32 + 26,
        '0'..='9' => c as u32 - '0' as u32 + 52,
        '+' => 62,
        '/' => 63,
        _ => panic!("not in the alphabet: {:?}", c),
    }
}

fn decode(text: &str) -> Vec<u32> {
    let mut out = Vec::new();
    let mut current: u32 = 0;
    let mut have: u32 = 0;
    for c in text.chars() {
        current = (current << 6) | sextet(c);
        have += 6;
        while have >= 4 {
            let nibble = current >> (have - 4);
            if nibble < 10 {
                out.push(nibble);
            }
            have -= 4;
            current &= (1 << have) - 1;
        }
    }
    out
}

/// Factors a decimal number by trial division, as the worker script does.
fn factor(mut digits: Vec<u32>) -> String {
    let mut out = String::new();
    let mut p: u32 = 2;
    let mut count = 0;
    loop {
        while digits.len() > 1 && digits[0] == 0 {
            digits.remove(0);
        }
        if digits == vec![1] {
            break;
        }
        let mut quotient = Vec::new();
        let mut rem: u32 = 0;
        for d in &digits {
            let t = rem * 10 + d;
            quotient.push(t / p);
            rem = t % p;
        }
        if rem == 0 {
            digits = quotient;
            count += 1;
        } else {
            if count > 0 {
                if !out.is_empty() {
                    out.push(' ');
                }
                out.push_str(&format!("{}x{}", p, count));
            }
            p += 1;
            count = 0;
        }
    }
    if count > 0 {
        if !out.is_empty() {
            out.push(' ');
        }
        out.push_str(&format!("{}x{}", p, count));
    }
    out
}

#[test]
fn first_visit_is_not_allowed() {
    let mut svc = AdmissionService::new(2, 420, 3600, 0);
    assert!(!svc.check("127.0.0.1", 9001, 1));
}

#[test]
fn worker_fetch_and_verify_grant_access() {
    let mut svc = AdmissionService::new(2, 420, 3600, 0);
    assert!(!svc.check("127.0.0.1", 9001, 1));
    let pending = svc.issue_pending(9001, 2).unwrap();
    assert_eq!(pending.len(), 64);
    let (value, id) = svc.issue_challenge(&pending, "127.0.0.1", 3).unwrap();
    assert!(value.starts_with('B'));
    assert!(value.len() >= 8);
    assert_eq!(id.len(), 64);
    assert_ne!(id, pending);
    let answer = factor(decode(&value));
    assert_eq!(svc.verify("127.0.0.1", &id, &answer, 4), Ok(9001));
    assert!(svc.check("127.0.0.1", 9001, 5));
    // the allowance is for the port of the page, and for no other
    assert!(!svc.check("127.0.0.1", 9002, 5));
    assert!(!svc.check("127.0.0.2", 9001, 5));
}

#[test]
fn wrong_answer_is_rejected() {
    let mut svc = AdmissionService::new(2, 420, 3600, 0);
    let pending = svc.issue_pending(9001, 2).unwrap();
    let (_, id) = svc.issue_challenge(&pending, "127.0.0.1", 3).unwrap();
    assert_eq!(svc.verify("127.0.0.1", &id, "2x1 3x1", 4), Err(Error::Rejected));
    assert!(!svc.check("127.0.0.1", 9001, 5));
}

#[test]
fn malformed_answer_is_rejected_and_leaves_the_challenge() {
    let mut svc = AdmissionService::new(2, 420, 3600, 0);
    let pending = svc.issue_pending(9001, 2).unwrap();
    let (value, id) = svc.issue_challenge(&pending, "127.0.0.1", 3).unwrap();
    assert_eq!(svc.verify("127.0.0.1", &id, "3x1 2x1", 4), Err(Error::InvalidFormat));
    assert_eq!(svc.verify("127.0.0.1", &id, "", 4), Err(Error::InvalidFormat));
    let answer = factor(decode(&value));
    assert_eq!(svc.verify("127.0.0.1", &id, &answer, 5), Ok(9001));
}

#[test]
fn answer_is_accepted_at_most_once() {
    let mut svc = AdmissionService::new(2, 420, 3600, 0);
    let pending = svc.issue_pending(9001, 2).unwrap();
    let (value, id) = svc.issue_challenge(&pending, "127.0.0.1", 3).unwrap();
    let answer = factor(decode(&value));
    let mut granted = 0;
    for k in 0..8 {
        if svc.verify("127.0.0.1", &id, &answer, 4 + k).is_ok() {
            granted += 1;
        }
    }
    assert_eq!(granted, 1);
}

#[test]
fn answer_from_another_address_is_rejected_and_uses_the_challenge_up() {
    let mut svc = AdmissionService::new(2, 420, 3600, 0);
    let pending = svc.issue_pending(9001, 2).unwrap();
    let (value, id) = svc.issue_challenge(&pending, "127.0.0.1", 3).unwrap();
    let answer = factor(decode(&value));
    assert_eq!(svc.verify("127.0.0.9", &id, &answer, 4), Err(Error::Rejected));
    assert!(!svc.check("127.0.0.9", 9001, 5));
    assert!(!svc.check("127.0.0.1", 9001, 5));
    assert_eq!(svc.verify("127.0.0.1", &id, &answer, 6), Err(Error::Rejected));
}

#[test]
fn challenge_expires() {
    let mut svc = AdmissionService::new(2, 60, 3600, 0);
    let pending = svc.issue_pending(9001, 2).unwrap();
    let (value, id) = svc.issue_challenge(&pending, "127.0.0.1", 3).unwrap();
    let answer = factor(decode(&value));
    assert_eq!(svc.verify("127.0.0.1", &id, &answer, 63), Err(Error::Rejected));
    assert!(!svc.check("127.0.0.1", 9001, 64));
}

#[test]
fn port_is_the_one_the_page_was_served_from() {
    let mut svc = AdmissionService::new(1, 420, 3600, 0);
    let pending = svc.issue_pending(9002, 2).unwrap();
    let (value, id) = svc.issue_challenge(&pending, "10.1.1.1", 3).unwrap();
    let answer = factor(decode(&value));
    assert_eq!(svc.verify("10.1.1.1", &id, &answer, 4), Ok(9002));
    assert!(svc.check("10.1.1.1", 9002, 5));
    assert!(!svc.check("10.1.1.1", 9001, 5));
}

#[test]
fn unknown_pending_id_is_an_error() {
    let mut svc = AdmissionService::new(1, 420, 3600, 0);
    assert_eq!(svc.issue_challenge("nope", "10.1.1.1", 3), Err(Error::UnknownDispatch));
    let pending = svc.issue_pending(9002, 2).unwrap();
    assert!(svc.issue_challenge(&pending, "10.1.1.1", 3).is_ok());
    // a pending id is good for one worker request
    assert_eq!(svc.issue_challenge(&pending, "10.1.1.1", 4), Err(Error::UnknownDispatch));
}

#[test]
fn pending_id_expires() {
    let mut svc = AdmissionService::new(1, 60, 3600, 0);
    let pending = svc.issue_pending(9002, 2).unwrap();
    assert_eq!(svc.issue_challenge(&pending, "10.1.1.1", 62), Err(Error::UnknownDispatch));
}

#[test]
fn pending_ids_differ() {
    let mut svc = AdmissionService::new(1, 60, 3600, 0);
    let a = svc.issue_pending(9002, 2).unwrap();
    let b = svc.issue_pending(9002, 2).unwrap();
    assert_ne!(a, b);
    assert!(a.chars().all(|c| c.is_ascii_digit() || ('a'..='f').contains(&c)));
}

#[test]
fn redeem_takes_the_digest_as_given() {
    let mut svc = AdmissionService::new(1, 60, 3600, 0);
    let id = svc.store_challenge("10.1.1.1", 9001, "2x2", 5).unwrap();
    let digest = blake3::hash(b"2x2").to_hex().to_string();
    assert_eq!(svc.redeem("10.1.1.1", &id, "2x2", 6), Err(Error::Rejected));
    let id2 = svc.store_challenge("10.1.1.1", 9001, "2x2", 7).unwrap();
    assert_eq!(svc.redeem("10.1.1.1", &id2, &digest, 8), Ok(9001));
}

#[test]
fn allowance_runs_out() {
    let mut svc = AdmissionService::new(1, 60, 1000, 0);
    let id = svc.store_challenge("10.1.1.1", 9001, "2x2", 5).unwrap();
    assert_eq!(svc.verify("10.1.1.1", &id, "2x2", 10), Ok(9001));
    // found in the store at 1009, and believed from the cache for 120 more
    assert!(svc.check("10.1.1.1", 9001, 1009));
    assert!(svc.check("10.1.1.1", 9001, 1128));
    assert!(!svc.check("10.1.1.1", 9001, 1129));
}

#[test]
fn allowance_without_cache_ends_at_the_timeout() {
    let mut svc = AdmissionService::new(1, 60, 1000, 0);
    let id = svc.store_challenge("10.1.1.1", 9001, "2x2", 5).unwrap();
    assert_eq!(svc.verify("10.1.1.1", &id, "2x2", 10), Ok(9001));
    assert!(!svc.check("10.1.1.1", 9001, 1010));
}

#[test]
fn make_id_is_the_digest_of_salt_sequence_and_entropy() {
    let entropy: Vec<u8> = vec![9, 8, 7];
    let mut material = b"salt".to_vec();
    material.extend_from_slice(&[0x04, 0x03, 0x02, 0x01, 0, 0, 0, 0]);
    material.extend_from_slice(&entropy);
    let expected = blake3::hash(&material).to_hex().to_string();
    assert_eq!(make_id("salt", 0x01020304, &entropy), expected);
    assert_ne!(make_id("salt", 0x01020305, &entropy), expected);
    assert_ne!(make_id("salu", 0x01020304, &entropy), expected);
}

#[test]
fn make_id_of_nothing_but_the_sequence() {
    let expected = blake3::hash(&[1u8, 0, 0, 0, 0, 0, 0, 0]).to_hex().to_string();
    assert_eq!(make_id("", 1, &vec![]), expected);
    assert_eq!(expected.len(), 64);
}

#[test]
fn salt_is_fixed() {
    assert_eq!(id_salt(), "pma.seodisparate.com");
}

#[test]
fn append_bytes_appends() {
    let mut v: Vec<u8> = vec![1];
    append_bytes(&mut v, &[2, 3]);
    append_bytes(&mut v, &[]);
    assert_eq!(v, vec![1, 2, 3]);
}

#[test]
fn cache_entry_is_believed_while_young() {
    let mut c = CachedAllow::new(0);
    assert!(!c.get_allowed("1.1.1.1:80", 120, 10));
    c.add_allowed("1.1.1.1:80", 10);
    assert!(c.get_allowed("1.1.1.1:80", 120, 129));
    assert!(!c.get_allowed("1.1.1.1:80", 120, 130));
    // the old entry was removed by the miss
    assert!(!c.get_allowed("1.1.1.1:80", 120, 50));
}

#[test]
fn cache_is_emptied_after_the_interval() {
    let mut c = CachedAllow::new(100);
    c.add_allowed("k", 3650);
    c.check_cleanup(3700);
    assert!(c.get_allowed("k", 120, 3700));
    c.check_cleanup(3701);
    assert!(!c.get_allowed("k", 120, 3701));
    // the interval starts over
    c.add_allowed("k", 7300);
    c.check_cleanup(7301);
    assert!(c.get_allowed("k", 120, 7301));
    c.check_cleanup(7302);
    assert!(!c.get_allowed("k", 120, 7302));
}

#[test]
fn cache_lifetime_is_the_shorter_of_the_two() {
    assert_eq!(cache_ttl(3600), 120);
    assert_eq!(cache_ttl(120), 120);
    assert_eq!(cache_ttl(60), 60);
    assert_eq!(cache_ttl(0), 0);
    assert_eq!(CACHED_TIMEOUT, 120);
    assert_eq!(CACHED_CLEANUP_TIMEOUT, 3600);
}

#[test]
fn take_pending_gives_the_port_once() {
    let mut svc = AdmissionService::new(3, 60, 3600, 0);
    assert_eq!(svc.challenge_size(), 3);
    let pending = svc.issue_pending(9005, 2).unwrap();
    assert_eq!(svc.take_pending("other", 3), Err(Error::UnknownDispatch));
    assert_eq!(svc.take_pending(&pending, 3), Ok(9005));
    assert_eq!(svc.take_pending(&pending, 3), Err(Error::UnknownDispatch));
}

#[test]
fn first_visit_issues_the_challenge_page() {
    let args = parse_args(&vec![
        "gateway".to_string(),
        "--addr-port=127.0.0.1:9001".to_string(),
        "--dest-url=http://127.0.0.1:18080".to_string(),
        "--api-url=/a".to_string(),
        "--js-factors-url=/w".to_string(),
    ])
    .unwrap();
    let mut svc = AdmissionService::new(2, 420, 3600, 0);
    let d = svc.decide(&args, "127.0.0.1", 9001, None, "/foo", "<Worker(\"{JS_FACTORS_URL}\")>", 1);
    let id = match d {
        Decision::Challenge(html) => {
            assert!(html.starts_with("<Worker(\"/w?id="));
            assert!(html.ends_with("\")>"));
            html["<Worker(\"/w?id=".len()..html.len() - 3].to_string()
        }
        _ => panic!("a first visit is answered with the page"),
    };
    assert_eq!(id.len(), 64);
    // no allowance exists
    assert!(!svc.check("127.0.0.1", 9001, 2));
    // the id of the page names the port
    assert_eq!(svc.take_pending(&id, 3), Ok(9001));
}

#[test]
fn allowed_source_is_forwarded_to_the_destination_of_its_port() {
    let args = parse_args(&vec![
        "gateway".to_string(),
        "--dest-url=http://127.0.0.1:18080".to_string(),
        "--port-to-dest-url=9002:http://127.0.0.1:18081".to_string(),
    ])
    .unwrap();
    let mut svc = AdmissionService::new(2, 420, 3600, 0);
    let id = svc.store_challenge("10.0.0.1", 9002, "2x2", 1).unwrap();
    assert_eq!(svc.verify("10.0.0.1", &id, "2x2", 2), Ok(9002));
    match svc.decide(&args, "10.0.0.1", 9002, None, "/x?y=1", "{JS_FACTORS_URL}", 3) {
        Decision::Forward(plan) => {
            assert_eq!(plan.url, "http://127.0.0.1:18081/x?y=1");
            assert_eq!(plan.headers.len(), 1);
        }
        _ => panic!("an allowed source is forwarded"),
    }
    // the allowance is for port 9002 only
    match svc.decide(&args, "10.0.0.1", 9001, None, "/x", "{JS_FACTORS_URL}", 4) {
        Decision::Challenge(html) => assert!(html.starts_with("/pma_factors.js?id=")),
        _ => panic!("another port asks for its own challenge"),
    }
}

#[test]
fn pending_for_draw_uses_the_minted_id_unless_it_is_taken() {
    let mut svc = AdmissionService::new(1, 60, 3600, 0);
    let entropy: Vec<u8> = vec![7; 64];
    let expected = make_id(id_salt(), 5, &entropy);
    assert_eq!(svc.pending_for_draw(5, &entropy, 9001, 10), Ok(expected.clone()));
    assert_eq!(svc.pending_for_draw(5, &entropy, 9002, 11), Err(Error::DuplicateId));
    // another sequence number or other bytes give another identifier
    assert!(svc.pending_for_draw(6, &entropy, 9003, 11).is_ok());
    assert!(svc.pending_for_draw(5, &vec![8; 64], 9004, 11).is_ok());
    // the first entry stands, and is free again once it has expired
    assert_eq!(svc.take_pending(&expected, 12), Ok(9001));
    assert_eq!(svc.pending_for_draw(5, &entropy, 9005, 13), Ok(expected.clone()));
    assert_eq!(svc.pending_for_draw(5, &entropy, 9006, 73), Ok(expected.clone()));
    assert_eq!(svc.take_pending(&expected, 74), Ok(9006));
}

#[test]
fn challenge_for_draw_uses_the_minted_id_unless_it_is_taken() {
    let mut svc = AdmissionService::new(1, 60, 3600, 0);
    let entropy: Vec<u8> = vec![1, 2, 3];
    let expected = make_id(id_salt(), 9, &entropy);
    let digest = blake3::hash(b"2x2").to_hex().to_string();
    assert_eq!(
        svc.challenge_for_draw(9, &entropy, "10.0.0.1", 9001, &digest, 10),
        Ok(expected.clone())
    );
    assert_eq!(
        svc.challenge_for_draw(9, &entropy, "10.0.0.2", 9002, &digest, 11),
        Err(Error::DuplicateId)
    );
    // the stored challenge is the first one
    assert_eq!(svc.verify("10.0.0.2", &expected, "2x2", 12), Err(Error::Rejected));
    let again = svc.challenge_for_draw(9, &entropy, "10.0.0.1", 9001, &digest, 13);
    assert_eq!(again, Ok(expected.clone()));
    assert_eq!(svc.verify("10.0.0.1", &expected, "2x2", 14), Ok(9001));
}

#[test]
fn issued_ids_carry_the_sequence_number() {
    // the counter moves on with every issue, so equal bytes would still
    // give different identifiers
    let a = make_id(id_salt(), 1, &vec![0; 64]);
    let b = make_id(id_salt(), 2, &vec![0; 64]);
    assert_ne!(a, b);
}

#[test]
fn mint_enters_what_it_is_asked_for() {
    let mut svc = AdmissionService::new(1, 60, 3600, 0);
    let pending = svc.mint(3, &Minting::Pending { bound_port: 9007 }, 5).unwrap();
    assert_eq!(pending.len(), 64);
    assert_eq!(svc.take_pending(&pending, 6), Ok(9007));
    let digest = blake3::hash(b"3x1").to_hex().to_string();
    let what = Minting::Challenge {
        client_ip: "10.0.0.3",
        bound_port: 9008,
        factors_digest: &digest,
    };
    let id = svc.mint(3, &what, 7).unwrap();
    assert_ne!(id, pending);
    // minting for a challenge notes no dispatch
    assert_eq!(svc.take_pending(&id, 8), Err(Error::UnknownDispatch));
    assert_eq!(svc.verify("10.0.0.3", &id, "3x1", 9), Ok(9008));
}
