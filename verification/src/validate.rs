//! Syntactic and ordering checks on a client's factor-list answer.

use vstd::prelude::*;
use crate::error::Error;
use crate::text::{
    all_digits, chars_of, decimal_value, digit_len, digit_run, is_digit, is_space,
    lemma_digit_len_bounds, lemma_space_len_bounds, number_exceeds, space_len, space_run,
};

verus! {

/// A factor list whose first prime exceeds `floor`: a token
/// `DIGIT+ 'x' DIGIT+`, then either nothing, or whitespace and a factor list
/// whose first prime exceeds this token's prime.
pub open spec fn is_factor_list(s: Seq<char>, floor: nat) -> bool
    decreases s.len(),
    via is_factor_list_decreases
{
    let a = digit_len(s) as int;
    let prime = decimal_value(s.take(a));
    let after_x = s.skip(a + 1);
    let b = digit_len(after_x) as int;
    let rest = after_x.skip(b);
    let w = space_len(rest) as int;
    &&& a > 0
    &&& a < s.len()
    &&& s[a] == 'x'
    &&& b > 0
    &&& prime > floor
    &&& rest.len() > 0 ==> w > 0 && is_factor_list(rest.skip(w), prime)
}

/// What follows a token and its whitespace is shorter than the text.
#[via_fn]
proof fn is_factor_list_decreases(s: Seq<char>, floor: nat) {
    let a = digit_len(s) as int;
    if 0 < a < s.len() {
        let after_x = s.skip(a + 1);
        lemma_digit_len_bounds(after_x);
        lemma_space_len_bounds(after_x.skip(digit_len(after_x) as int));
    }
}

/// A legal answer: a factor list of at least one token whose primes are
/// positive and strictly increasing.
pub open spec fn is_valid_answer(s: Seq<char>) -> bool {
    is_factor_list(s, 0)
}

/// Accepts exactly the legal answers; every other string is an
/// `InvalidFormat`. Multiplicities are not range-checked, and primes of any
/// length are compared as numbers.
pub fn validate_client_response(resp: &str) -> (r: Result<(), Error>)
    ensures
        r is Ok <==> is_valid_answer(resp@),
        r is Err ==> r == Err::<(), Error>(Error::InvalidFormat),
{
    let v = chars_of(resp);
    let n = v.len();
    let mut pos: usize = 0;
    let mut f0: usize = 0;
    let mut f1: usize = 0;
    proof {
        assert(v@.subrange(0, 0) =~= Seq::<char>::empty());
        assert(v@.skip(0) =~= v@);
    }
    loop
        invariant
            n == v.len(),
            v@ == resp@,
            pos <= n,
            f0 <= f1 <= n,
            all_digits(v@.subrange(f0 as int, f1 as int)),
            is_valid_answer(resp@) == is_factor_list(
                v@.skip(pos as int),
                decimal_value(v@.subrange(f0 as int, f1 as int)),
            ),
        decreases n - pos,
    {
        let ghost s = v@.skip(pos as int);
        let a_end = digit_run(&v, pos);
        if a_end == pos || a_end >= n {
            return Err(Error::InvalidFormat);
        }
        if v[a_end] != 'x' {
            return Err(Error::InvalidFormat);
        }
        let b_start: usize = a_end + 1;
        let b_end = digit_run(&v, b_start);
        if b_end == b_start {
            proof {
                assert(s.skip(a_end - pos + 1) =~= v@.skip(b_start as int));
            }
            return Err(Error::InvalidFormat);
        }
        proof {
            lemma_digit_len_bounds(s);
            assert(s.take(a_end - pos) =~= v@.subrange(pos as int, a_end as int));
            assert(s.skip(a_end - pos + 1) =~= v@.skip(b_start as int));
            assert(v@.skip(b_start as int).skip(b_end - b_start) =~= v@.skip(b_end as int));
        }
        if !number_exceeds(&v, pos, a_end, f0, f1) {
            return Err(Error::InvalidFormat);
        }
        if b_end == n {
            return Ok(());
        }
        let w_end = space_run(&v, b_end);
        if w_end == b_end {
            return Err(Error::InvalidFormat);
        }
        proof {
            assert(v@.skip(b_end as int).skip(w_end - b_end) =~= v@.skip(w_end as int));
        }
        f0 = pos;
        f1 = a_end;
        pos = w_end;
    }
}

/// A legal factor list holds digits, the letter `x` and whitespace, and
/// nothing else.
pub proof fn lemma_factor_list_alphabet(s: Seq<char>, floor: nat)
    requires
        is_factor_list(s, floor),
    ensures
        forall|i: int|
            0 <= i < s.len() ==> is_digit(#[trigger] s[i]) || s[i] == 'x' || is_space(s[i]),
    decreases s.len(),
{
    let a = digit_len(s) as int;
    let after_x = s.skip(a + 1);
    let b = digit_len(after_x) as int;
    let rest = after_x.skip(b);
    let w = space_len(rest) as int;
    lemma_digit_len_bounds(s);
    lemma_digit_len_bounds(after_x);
    lemma_space_len_bounds(rest);
    if rest.len() > 0 {
        lemma_factor_list_alphabet(rest.skip(w), decimal_value(s.take(a)));
    }
    assert forall|i: int| 0 <= i < s.len() implies is_digit(#[trigger] s[i]) || s[i] == 'x'
        || is_space(s[i]) by {
        if i < a {
            assert(s[i] == s.take(a)[i]);
        } else if i == a {
        } else if i < a + 1 + b {
            assert(s[i] == after_x.take(b)[i - a - 1]);
        } else if i < a + 1 + b + w {
            assert(s[i] == rest[i - a - 1 - b]);
        } else {
            assert(s[i] == rest.skip(w)[i - a - 1 - b - w]);
        }
    }
}

/// A text with a character that is no digit, not the letter `x` and no
/// whitespace is no legal answer.
pub proof fn lemma_foreign_character_is_invalid(s: Seq<char>, i: int)
    requires
        0 <= i < s.len(),
        !is_digit(s[i]),
        s[i] != 'x',
        !is_space(s[i]),
    ensures
        !is_valid_answer(s),
{
    if is_valid_answer(s) {
        lemma_factor_list_alphabet(s, 0);
    }
}

/// A text that ends in the letter `x`, or in whitespace, is no legal
/// answer: its last token lacks the multiplicity, or is empty.
pub proof fn lemma_unfinished_is_invalid(s: Seq<char>, floor: nat)
    requires
        s.len() > 0,
        s.last() == 'x' || is_space(s.last()),
    ensures
        !is_factor_list(s, floor),
    decreases s.len(),
{
    let a = digit_len(s) as int;
    let after_x = s.skip(a + 1);
    let b = digit_len(after_x) as int;
    let rest = after_x.skip(b);
    let w = space_len(rest) as int;
    lemma_digit_len_bounds(s);
    if 0 < a < s.len() && s[a] == 'x' && b > 0 {
        lemma_digit_len_bounds(after_x);
        lemma_space_len_bounds(rest);
        assert(after_x.len() == s.len() - a - 1);
        assert(rest.len() == after_x.len() - b);
        if rest.len() == 0 {
            let c = after_x.take(b)[b - 1];
            assert(is_digit(c));
            assert(c == after_x[b - 1]);
            assert(after_x[b - 1] == s[a + b]);
            assert(s.last() == c);
            assert(!is_space(c) && c != 'x');
        } else if w > 0 {
            let tail = rest.skip(w);
            assert(tail.len() == rest.len() - w);
            if tail.len() > 0 {
                assert(tail.last() == rest[rest.len() - 1]);
                assert(rest[rest.len() - 1] == after_x[after_x.len() - 1]);
                assert(after_x[after_x.len() - 1] == s[s.len() - 1]);
                lemma_unfinished_is_invalid(tail, decimal_value(s.take(a)));
            } else {
                assert(digit_len(tail) == 0);
                assert(!is_factor_list(tail, decimal_value(s.take(a))));
            }
        }
    }
}

/// In a legal factor list every letter `x` stands between two digits: no
/// token lacks its prime or its multiplicity.
pub proof fn lemma_x_between_digits(s: Seq<char>, floor: nat)
    requires
        is_factor_list(s, floor),
    ensures
        forall|i: int|
            0 <= i < s.len() && #[trigger] s[i] == 'x' ==> 0 < i < s.len() - 1 && is_digit(
                s[i - 1],
            ) && is_digit(s[i + 1]),
    decreases s.len(),
{
    let a = digit_len(s) as int;
    let after_x = s.skip(a + 1);
    let b = digit_len(after_x) as int;
    let rest = after_x.skip(b);
    let w = space_len(rest) as int;
    let tail = rest.skip(w);
    lemma_digit_len_bounds(s);
    lemma_digit_len_bounds(after_x);
    lemma_space_len_bounds(rest);
    if rest.len() > 0 {
        lemma_x_between_digits(tail, decimal_value(s.take(a)));
    }
    let off = a + 1 + b + w;
    assert forall|i: int| 0 <= i < s.len() && #[trigger] s[i] == 'x' implies 0 < i < s.len() - 1
        && is_digit(s[i - 1]) && is_digit(s[i + 1]) by {
        if i < a {
            assert(s[i] == s.take(a)[i]);
        } else if i == a {
            assert(s[a - 1] == s.take(a)[a - 1]);
            assert(s[a + 1] == after_x.take(b)[0]);
        } else if i < a + 1 + b {
            assert(s[i] == after_x.take(b)[i - a - 1]);
        } else if i < off {
            assert(s[i] == rest[i - a - 1 - b]);
        } else {
            let j = i - off;
            assert(s[i] == tail[j]);
            assert(tail[j - 1] == s[i - 1]);
            assert(tail[j + 1] == s[i + 1]);
        }
    }
}

} // verus!
