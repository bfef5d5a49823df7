use pma_gateway::error::Error;
use pma_gateway::store::{make_allowance_key, MemoryStore, SeqCounter, SEQ_LAST};
use pma_gateway::table::{is_expired, TimedTable};

#[test]
fn seq_counter_starts_at_one_and_counts_up() {
    let mut c = SeqCounter::new();
    assert_eq!(c.next_seq(), 1);
    assert_eq!(c.next_seq(), 2);
    assert_eq!(c.next_seq(), 3);
}

#[test]
fn store_seq_is_the_counter() {
    let mut s = MemoryStore::new(420, 3600);
    assert_eq!(s.next_seq(), 1);
    assert_eq!(s.next_seq(), 2);
}

#[test]
fn seq_last_is_two_to_the_thirty_one_less_one() {
    assert_eq!(SEQ_LAST, 2147483647);
}

#[test]
fn challenge_insert_rejects_a_taken_id() {
    let mut s = MemoryStore::new(420, 3600);
    assert!(!s.challenge_exists("id1"));
    assert_eq!(s.challenge_insert("id1", "10.0.0.1", 9001, "d1", 100), Ok(()));
    assert!(s.challenge_exists("id1"));
    assert_eq!(s.challenge_insert("id1", "10.0.0.2", 9002, "d2", 101), Err(Error::DuplicateId));
    // the first record stands
    assert_eq!(s.challenge_take("id1", "d1", 102), Some(("10.0.0.1".to_string(), 9001)));
}

#[test]
fn challenge_take_succeeds_at_most_once() {
    let mut s = MemoryStore::new(420, 3600);
    s.challenge_insert("id1", "10.0.0.1", 9001, "d1", 100).unwrap();
    let mut hits = 0;
    for k in 0..10 {
        if s.challenge_take("id1", "d1", 100 + k).is_some() {
            hits += 1;
        }
    }
    assert_eq!(hits, 1);
    assert!(!s.challenge_exists("id1"));
}

#[test]
fn challenge_take_needs_the_digest() {
    let mut s = MemoryStore::new(420, 3600);
    s.challenge_insert("id1", "10.0.0.1", 9001, "d1", 100).unwrap();
    assert_eq!(s.challenge_take("id1", "d2", 101), None);
    assert_eq!(s.challenge_take("id2", "d1", 101), None);
    // a miss leaves the record
    assert!(s.challenge_exists("id1"));
    assert_eq!(s.challenge_take("id1", "d1", 101), Some(("10.0.0.1".to_string(), 9001)));
}

#[test]
fn challenge_expires_when_its_age_reaches_the_timeout() {
    let mut s = MemoryStore::new(420, 3600);
    s.challenge_insert("early", "10.0.0.1", 9001, "d", 100).unwrap();
    s.challenge_insert("late", "10.0.0.1", 9001, "d", 101).unwrap();
    // at 520 the first is 420 old, the second 419
    assert_eq!(s.challenge_take("early", "d", 520), None);
    assert!(!s.challenge_exists("early"));
    assert!(s.challenge_exists("late"));
    assert_eq!(s.challenge_take("late", "d", 520), Some(("10.0.0.1".to_string(), 9001)));
}

#[test]
fn take_sweeps_expired_challenges_of_other_ids() {
    let mut s = MemoryStore::new(10, 3600);
    s.challenge_insert("a", "ip", 1, "d", 0).unwrap();
    s.challenge_insert("b", "ip", 1, "d", 5).unwrap();
    assert_eq!(s.challenge_take("none", "d", 10), None);
    assert!(!s.challenge_exists("a"));
    assert!(s.challenge_exists("b"));
}

#[test]
fn allowance_lasts_until_the_timeout() {
    let mut s = MemoryStore::new(420, 3600);
    s.allowance_insert("10.0.0.1", 9001, 1000);
    assert!(s.allowance_contains("10.0.0.1", 9001, 1000));
    assert!(s.allowance_contains("10.0.0.1", 9001, 4599));
    assert!(!s.allowance_contains("10.0.0.1", 9001, 4600));
    // once swept it stays out
    assert!(!s.allowance_contains("10.0.0.1", 9001, 4601));
}

#[test]
fn allowance_is_keyed_on_address_and_port() {
    let mut s = MemoryStore::new(420, 3600);
    s.allowance_insert("10.0.0.1", 9001, 1000);
    assert!(!s.allowance_contains("10.0.0.1", 9002, 1001));
    assert!(!s.allowance_contains("10.0.0.2", 9001, 1001));
    assert!(!s.allowance_contains("10.0.0.1:9", 1, 1001));
    assert!(s.allowance_contains("10.0.0.1", 9001, 1001));
}

#[test]
fn allowance_insert_renews_the_grant() {
    let mut s = MemoryStore::new(420, 100);
    s.allowance_insert("a", 1, 0);
    s.allowance_insert("a", 1, 60);
    assert!(s.allowance_contains("a", 1, 159));
    assert!(!s.allowance_contains("a", 1, 160));
}

#[test]
fn allowance_key_is_address_colon_port() {
    assert_eq!(make_allowance_key("::1", 80), "::1:80");
    assert_eq!(make_allowance_key("10.0.0.1", 65535), "10.0.0.1:65535");
    assert_eq!(make_allowance_key("", 0), ":0");
}

#[test]
fn pending_dispatch_is_consumed_by_its_first_take() {
    let mut s = MemoryStore::new(420, 3600);
    assert_eq!(s.pending_dispatch_insert("p1", 9001, 50), Ok(()));
    assert!(s.pending_dispatch_exists("p1"));
    assert_eq!(s.pending_dispatch_insert("p1", 9002, 51), Err(Error::DuplicateId));
    assert_eq!(s.pending_dispatch_take("p1", 60), Some(9001));
    assert_eq!(s.pending_dispatch_take("p1", 60), None);
    assert!(!s.pending_dispatch_exists("p1"));
}

#[test]
fn pending_dispatch_expires_with_the_challenge_timeout() {
    let mut s = MemoryStore::new(420, 3600);
    s.pending_dispatch_insert("p1", 9001, 50).unwrap();
    assert_eq!(s.pending_dispatch_take("p1", 470), None);
    s.pending_dispatch_insert("p2", 9001, 50).unwrap();
    assert_eq!(s.pending_dispatch_take("p2", 469), Some(9001));
    // an expired id is free again
    s.pending_dispatch_insert("p3", 1, 0).unwrap();
    assert_eq!(s.pending_dispatch_insert("p3", 2, 420), Ok(()));
    assert_eq!(s.pending_dispatch_take("p3", 421), Some(2));
}

#[test]
fn pending_dispatch_sweep_removes_the_expired() {
    let mut s = MemoryStore::new(10, 3600);
    s.pending_dispatch_insert("a", 1, 0).unwrap();
    s.pending_dispatch_insert("b", 2, 5).unwrap();
    s.pending_dispatch_sweep(12);
    assert!(!s.pending_dispatch_exists("a"));
    assert!(s.pending_dispatch_exists("b"));
}

#[test]
fn store_reports_its_timeouts() {
    let s = MemoryStore::new(420, 3600);
    assert_eq!(s.challenge_ttl(), 420);
    assert_eq!(s.allowance_ttl(), 3600);
}

#[test]
fn a_clock_that_runs_backwards_expires_nothing() {
    assert!(!is_expired(100, 50, 10));
    assert!(!is_expired(100, 50, 0));
    assert!(is_expired(100, 100, 0));
    assert!(is_expired(100, 110, 10));
    assert!(!is_expired(100, 109, 10));
    assert!(is_expired(0, u64::MAX, u64::MAX));
}

#[test]
fn table_put_take_and_sweep() {
    let mut t: TimedTable<u16> = TimedTable::new();
    let a = "a".to_string();
    let b = "b".to_string();
    let c = "c".to_string();
    t.put(a.clone(), 1, 10);
    t.put(b.clone(), 2, 20);
    t.put(c.clone(), 3, 30);
    t.put(b.clone(), 22, 25);
    assert_eq!(t.len(), 3);
    assert_eq!(t.get(&b), Some(&22));
    assert_eq!(t.stamp_of(&b), Some(25));
    assert!(t.contains(&a));
    t.sweep(35, 10);
    assert!(!t.contains(&a));
    assert!(!t.contains(&b));
    assert!(t.contains(&c));
    assert_eq!(t.take(&c), Some((3, 30)));
    assert_eq!(t.take(&c), None);
    assert_eq!(t.len(), 0);
    t.put(a.clone(), 1, 1);
    t.clear();
    assert_eq!(t.get(&a), None);
    assert_eq!(t.stamp_of(&a), None);
}
