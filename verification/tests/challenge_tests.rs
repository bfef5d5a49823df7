use pma_gateway::challenge::{generate_value_and_factors_strings, ChallengeBuilder};
use pma_gateway::decimal::mul_small;
use pma_gateway::factors::{push_decimal, render_counts};
use pma_gateway::primes::pool_prime;
use pma_gateway::validate::validate_client_response;
use pma_gateway::wire::{encode_digits, pack_text, sextet_to_char};

fn sextet(c: char) -> u32 {
    match c {
        'A'..='Z' => c as u32 - 'A' as u32,
        'a'..='z' => c as u32 - 'a' as u32 + 26,
        '0'..='9' => c as u32 - '0' as u32 + 52,
        '+' => 62,
        '/' => 63,
        _ => panic!("not in the alphabet: {:?}", c),
    }
}

/// Reads a wire text the way the worker script does: six bits a character,
/// four bits a digit, nibbles above nine dropped.
fn decode(text: &str) -> String {
    let mut out = String::new();
    let mut current: u32 = 0;
    let mut have: u32 = 0;
    for c in text.chars() {
        current = (current << 6) | sextet(c);
        have += 6;
        while have >= 4 {
            let nibble = current >> (have - 4);
            if nibble < 10 {
                out.push(char::from_digit(nibble, 10).unwrap());
            }
            have -= 4;
            current &= (1 << have) - 1;
        }
    }
    if have == 2 {
        assert_eq!(current, 3);
    }
    out
}

fn times(digits: &mut Vec<u32>, m: u32) {
    let mut carry: u32 = 0;
    for d in digits.iter_mut() {
        let t = *d * m + carry;
        *d = t % 10;
        carry = t / 10;
    }
    while carry > 0 {
        digits.push(carry % 10);
        carry /= 10;
    }
}

/// Multiplies out a factor text and writes the product in decimal.
fn multiply_out(factors: &str) -> String {
    let mut digits: Vec<u32> = vec![1];
    for token in factors.split(' ') {
        let mut parts = token.split('x');
        let prime: u32 = parts.next().unwrap().parse().unwrap();
        let mult: u32 = parts.next().unwrap().parse().unwrap();
        assert!(parts.next().is_none());
        for _ in 0..mult {
            times(&mut digits, prime);
        }
    }
    digits.iter().rev().map(|d| char::from_digit(*d, 10).unwrap()).collect()
}

fn strip_zeros(s: &str) -> &str {
    let t = s.trim_start_matches('0');
    if t.is_empty() { "0" } else { t }
}

#[test]
fn fresh_builder_settles_to_four() {
    let (value, factors) = ChallengeBuilder::new().finish();
    assert_eq!(value, "BP");
    assert_eq!(factors, "2x2");
}

#[test]
fn six_needs_no_doubling() {
    let mut b = ChallengeBuilder::new();
    b.absorb(0);
    b.absorb(1);
    let (value, factors) = b.finish();
    assert_eq!(value, "Bv");
    assert_eq!(factors, "2x1 3x1");
}

#[test]
fn pick_selects_modulo_pool_size() {
    let mut b = ChallengeBuilder::new();
    b.absorb(63);
    b.absorb(127);
    b.absorb(64);
    assert_eq!(b.factors(), "2x1 311x2");
    // 2 * 311 * 311 = 193442
    assert_eq!(decode(&b.encoded_value()), "0193442");
}

#[test]
fn eight_is_doubled_three_times() {
    let mut b = ChallengeBuilder::new();
    b.absorb(0);
    b.absorb(0);
    b.absorb(0);
    let (value, factors) = b.finish();
    assert_eq!(factors, "2x6");
    assert_eq!(decode(&value), "064");
}

#[test]
fn encoded_value_of_three_nibbles_has_no_filler() {
    let mut b = ChallengeBuilder::new();
    b.absorb(5);
    b.absorb(2);
    // 13 * 5 = 65: nibbles 0, 6, 5
    assert_eq!(b.encoded_value(), "Bl");
    assert_eq!(b.factors(), "5x1 13x1");
}

#[test]
fn encoded_value_of_four_nibbles_ends_in_two_one_bits() {
    let mut b = ChallengeBuilder::new();
    b.absorb(63);
    b.absorb(0);
    // 622: nibbles 0, 6, 2, 2, then two one-bits
    assert_eq!(b.encoded_value(), "BiL");
    assert_eq!(decode("BiL"), "0622");
}

#[test]
fn reached_counts_groups_of_four_characters() {
    let mut b = ChallengeBuilder::new();
    assert!(b.reached(0));
    assert!(!b.reached(1));
    // five digits make six nibbles, which make four characters
    b.absorb(63);
    b.absorb(63);
    assert!(b.encoded_value().len() == 4);
    assert!(b.reached(1));
    assert!(!b.reached(2));
    assert!(!b.reached(u64::MAX));
}

#[test]
fn generated_challenge_round_trips() {
    for target in [0u64, 1, 2, 5, 40] {
        let (value, factors) = generate_value_and_factors_strings(target).unwrap();
        assert!(value.starts_with('B'), "{}", value);
        assert!(value.len() as u64 >= 4 * target);
        assert!(value.len() as u64 <= 4 * target + 14);
        assert_eq!(validate_client_response(&factors), Ok(()));
        let decoded = decode(&value);
        assert_eq!(strip_zeros(&decoded), multiply_out(&factors));
        let lead = strip_zeros(&decoded).chars().next().unwrap();
        assert!(('4'..='7').contains(&lead));
    }
}

#[test]
fn generated_challenge_is_not_much_longer_than_asked() {
    // at most seven primes of three digits and one doubling beyond the goal
    let (value, _) = generate_value_and_factors_strings(50).unwrap();
    assert!(value.len() >= 200);
    assert!(value.len() <= 214);
}

#[test]
fn generated_challenges_differ() {
    let a = generate_value_and_factors_strings(20).unwrap();
    let b = generate_value_and_factors_strings(20).unwrap();
    assert_ne!(a, b);
}

#[test]
fn generated_primes_come_from_the_pool() {
    let (_, factors) = generate_value_and_factors_strings(30).unwrap();
    let pool: Vec<u32> = (0..64).map(pool_prime).collect();
    for token in factors.split(' ') {
        let prime: u32 = token.split('x').next().unwrap().parse().unwrap();
        assert!(pool.contains(&prime));
    }
}

#[test]
fn pool_holds_the_first_sixty_four_primes() {
    let mut found: Vec<u32> = Vec::new();
    let mut n: u32 = 2;
    while found.len() < 64 {
        if found.iter().all(|p| n % p != 0) {
            found.push(n);
        }
        n += 1;
    }
    for i in 0..64 {
        assert_eq!(pool_prime(i), found[i]);
    }
    assert_eq!(pool_prime(63), 311);
}

#[test]
fn mul_small_carries_into_new_digits() {
    let mut d: Vec<u8> = vec![9, 9];
    mul_small(&mut d, 311);
    // 99 * 311 = 30789, least significant digit first
    assert_eq!(d, vec![9, 8, 7, 0, 3]);
    let mut one: Vec<u8> = vec![1];
    mul_small(&mut one, 4_000_000_000);
    assert_eq!(one, vec![0, 0, 0, 0, 0, 0, 0, 0, 0, 4]);
    let mut same: Vec<u8> = vec![7, 3];
    mul_small(&mut same, 1);
    assert_eq!(same, vec![7, 3]);
}

#[test]
fn encode_digits_reads_least_significant_first() {
    // 1234: nibbles 0, 1, 2, 3, 4, filler
    assert_eq!(encode_digits(&vec![4, 3, 2, 1]), "ASNP");
    assert_eq!(decode("ASNP"), "01234");
}

#[test]
fn pack_text_completes_the_last_group() {
    assert_eq!(pack_text(&vec![]), "");
    assert_eq!(pack_text(&vec![0]), "D");
    assert_eq!(pack_text(&vec![0, 9]), "Cf");
    assert_eq!(pack_text(&vec![15, 15, 15]), "//");
}

#[test]
fn alphabet_is_standard() {
    let all: String = (0..64).map(sextet_to_char).collect();
    assert_eq!(all, "ABCDEFGHIJKLMNOPQRSTUVWXYZabcdefghijklmnopqrstuvwxyz0123456789+/");
}

#[test]
fn push_decimal_appends() {
    let mut s = String::from("n=");
    push_decimal(&mut s, 0);
    push_decimal(&mut s, 1205);
    push_decimal(&mut s, u128::MAX);
    assert_eq!(s, "n=01205340282366920938463463374607431768211455");
}

#[test]
fn render_counts_skips_unused_primes() {
    let mut counts = vec![0u128; 64];
    assert_eq!(render_counts(&counts), "");
    counts[1] = 3;
    counts[10] = 1;
    counts[63] = 12;
    assert_eq!(render_counts(&counts), "3x3 31x1 311x12");
}

#[test]
fn a_challenge_of_two_thousand_groups_is_generated_in_time() {
    let started = std::time::Instant::now();
    let (value, factors) = generate_value_and_factors_strings(2000).unwrap();
    println!("generated in {:?}", started.elapsed());
    assert!(value.len() >= 8000);
    assert_eq!(validate_client_response(&factors), Ok(()));
}

#[test]
fn absorb_range_multiplies_in_what_the_bytes_select() {
    let picks: Vec<u8> = vec![0, 1, 2, 64, 63, 200];
    let mut b = ChallengeBuilder::new();
    b.absorb_range(&picks, 1, 5);
    // 3 * 5 * 2 * 311 = 9330
    assert_eq!(b.factors(), "2x1 3x1 5x1 311x1");
    assert_eq!(decode(&b.encoded_value()), "09330");
    b.absorb_range(&picks, 2, 2);
    assert_eq!(b.factors(), "2x1 3x1 5x1 311x1");
    b.absorb_range(&picks, 5, 6);
    // byte 200 selects index 8, the prime 23
    assert_eq!(b.factors(), "2x1 3x1 5x1 23x1 311x1");
    assert_eq!(decode(&b.encoded_value()), "0214590");
}

#[test]
fn absorb_range_agrees_with_absorb() {
    let picks: Vec<u8> = (0..=255).collect();
    let mut one = ChallengeBuilder::new();
    for p in &picks {
        one.absorb(*p);
    }
    let mut all = ChallengeBuilder::new();
    all.absorb_range(&picks, 0, 256);
    assert_eq!(one.factors(), all.factors());
    assert_eq!(one.encoded_value(), all.encoded_value());
    assert_eq!(multiply_out(&all.factors()), strip_zeros(&decode(&all.encoded_value())));
    assert!(all.factors().starts_with("2x4 3x4 "));
    assert!(all.factors().ends_with(" 311x4"));
}

#[test]
fn mul_small_takes_factors_up_to_ten_to_the_eighteenth() {
    let mut d: Vec<u8> = vec![9];
    mul_small(&mut d, 1_000_000_000_000_000_000);
    let mut expected = vec![0u8; 18];
    expected.push(9);
    assert_eq!(d, expected);
    let mut e: Vec<u8> = vec![9, 9];
    mul_small(&mut e, 999_999_999_999_999_999);
    // 99 * (10^18 - 1) = 98 999...9 01
    let text: String = e.iter().rev().map(|x| char::from_digit(*x as u32, 10).unwrap()).collect();
    assert_eq!(text, "98999999999999999901");
}

#[test]
fn a_challenge_of_no_groups_needs_no_random_bytes() {
    for _ in 0..3 {
        assert_eq!(
            generate_value_and_factors_strings(0),
            Ok(("BP".to_string(), "2x2".to_string()))
        );
    }
}
