//! Factor lists: ordered `(prime, multiplicity)` pairs and their canonical
//! text, `"<prime>x<mult>"` tokens separated by single spaces.

use vstd::prelude::*;
use crate::primes::{POOL_SIZE, is_prime, lemma_pool_bounds, lemma_pool_is_prime, pool_prime, prime_pool};
use crate::text::{
    all_digits, decimal_value, digit_len, is_digit, is_space, lemma_digit_len_bounds,
    lemma_space_len_bounds, space_len,
};
use crate::validate::is_factor_list;

verus! {

/// The character for the digit `d`.
pub open spec fn digit_char(d: nat) -> char
    recommends
        d < 10,
{
    ((d + 48) as u8) as char
}

/// The decimal text of `n`, without superfluous zeros.
pub open spec fn decimal_text(n: nat) -> Seq<char>
    decreases n,
{
    if n < 10 {
        seq![digit_char(n)]
    } else {
        decimal_text(n / 10).push(digit_char(n % 10))
    }
}

/// The text of one token.
pub open spec fn token_text(e: (nat, nat)) -> Seq<char> {
    decimal_text(e.0) + seq!['x'] + decimal_text(e.1)
}

/// The canonical text of a factor list: its tokens, a single space between
/// neighbours.
pub open spec fn render_factors(l: Seq<(nat, nat)>) -> Seq<char>
    decreases l.len(),
{
    if l.len() == 0 {
        Seq::<char>::empty()
    } else if l.len() == 1 {
        token_text(l[0])
    } else {
        token_text(l[0]) + seq![' '] + render_factors(l.drop_first())
    }
}

/// `b` to the power `e`.
pub open spec fn power(b: nat, e: nat) -> nat
    decreases e,
{
    if e == 0 {
        1
    } else {
        b * power(b, (e - 1) as nat)
    }
}

/// The number that a factor list multiplies out to.
pub open spec fn list_product(l: Seq<(nat, nat)>) -> nat
    decreases l.len(),
{
    if l.len() == 0 {
        1
    } else {
        power(l[0].0, l[0].1) * list_product(l.drop_first())
    }
}

/// The factor list for the multiplicities `m` of the pool's primes, in the
/// pool's order: one entry for each prime that occurs at all.
pub open spec fn pool_entries(m: Seq<nat>) -> Seq<(nat, nat)>
    recommends
        m.len() <= POOL_SIZE,
    decreases m.len(),
{
    if m.len() == 0 {
        Seq::<(nat, nat)>::empty()
    } else if m.last() > 0 {
        pool_entries(m.drop_last()).push((prime_pool()[m.len() - 1], m.last()))
    } else {
        pool_entries(m.drop_last())
    }
}

/// The product of the pool's primes, each raised to its multiplicity in `m`.
pub open spec fn pool_product(m: Seq<nat>) -> nat
    recommends
        m.len() <= POOL_SIZE,
    decreases m.len(),
{
    if m.len() == 0 {
        1
    } else {
        pool_product(m.drop_last()) * power(prime_pool()[m.len() - 1], m.last())
    }
}

/// `p` is one of the pool's primes.
pub open spec fn in_pool(p: nat) -> bool {
    exists|j: int| 0 <= j < POOL_SIZE && prime_pool()[j] == p
}

/// The primes of the list ascend strictly.
pub open spec fn primes_ascend(l: Seq<(nat, nat)>) -> bool {
    forall|i: int| 0 <= i < l.len() - 1 ==> (#[trigger] l[i]).0 < l[i + 1].0
}

/// The factor list that an answer text spells, token by token. On a text
/// that is no legal answer the result has no meaning.
pub open spec fn factors_of_answer(s: Seq<char>) -> Seq<(nat, nat)>
    decreases s.len(),
    via factors_of_answer_decreases
{
    let a = digit_len(s) as int;
    let after_x = s.skip(a + 1);
    let b = digit_len(after_x) as int;
    let rest = after_x.skip(b);
    let w = space_len(rest) as int;
    let entry = (decimal_value(s.take(a)), decimal_value(after_x.take(b)));
    if !(0 < a < s.len()) {
        Seq::<(nat, nat)>::empty()
    } else if rest.len() > 0 && w > 0 {
        seq![entry] + factors_of_answer(rest.skip(w))
    } else {
        seq![entry]
    }
}

/// What follows a token and its whitespace is shorter than the text.
#[via_fn]
proof fn factors_of_answer_decreases(s: Seq<char>) {
    let a = digit_len(s) as int;
    if 0 < a < s.len() {
        let after_x = s.skip(a + 1);
        lemma_digit_len_bounds(after_x);
        lemma_space_len_bounds(after_x.skip(digit_len(after_x) as int));
    }
}

/// The decimal text of a number is a non-empty digit string that denotes it.
pub proof fn lemma_decimal_text(n: nat)
    ensures
        decimal_text(n).len() >= 1,
        all_digits(decimal_text(n)),
        decimal_value(decimal_text(n)) == n,
    decreases n,
{
    let t = decimal_text(n);
    if n < 10 {
        assert(t.drop_last() =~= Seq::<char>::empty());
        assert(decimal_value(t.drop_last()) == 0);
        assert(t.last() == digit_char(n));
    } else {
        lemma_decimal_text(n / 10);
        let h = decimal_text(n / 10);
        assert(t.drop_last() =~= h);
        assert(t.last() == digit_char(n % 10));
        assert forall|i: int| 0 <= i < t.len() implies is_digit(#[trigger] t[i]) by {
            if i < h.len() {
                assert(t[i] == h[i]);
            }
        }
    }
}

/// A digit string followed by something that starts with no digit is the
/// whole run of leading digits.
pub proof fn lemma_digit_len_prefix(d: Seq<char>, tail: Seq<char>)
    requires
        all_digits(d),
        tail.len() == 0 || !is_digit(tail[0]),
    ensures
        digit_len(d + tail) == d.len(),
    decreases d.len(),
{
    let s = d + tail;
    if d.len() == 0 {
        assert(s =~= tail);
    } else {
        assert(s[0] == d[0]);
        assert(is_digit(d[0]));
        let d1 = d.drop_first();
        assert(all_digits(d1)) by {
            assert forall|i: int| 0 <= i < d1.len() implies is_digit(#[trigger] d1[i]) by {
                assert(d1[i] == d[i + 1]);
            }
        }
        assert(s.drop_first() =~= d1 + tail);
        lemma_digit_len_prefix(d1, tail);
    }
}

/// How a token reads when followed by the end or by something that starts
/// with no digit.
pub proof fn lemma_token_shape(e: (nat, nat), tail: Seq<char>)
    requires
        tail.len() == 0 || !is_digit(tail[0]),
    ensures
        ({
            let s = token_text(e) + tail;
            let a = digit_len(s) as int;
            let after_x = s.skip(a + 1);
            let b = digit_len(after_x) as int;
            &&& 0 < a < s.len()
            &&& s[a] == 'x'
            &&& decimal_value(s.take(a)) == e.0
            &&& b > 0
            &&& decimal_value(after_x.take(b)) == e.1
            &&& after_x.skip(b) == tail
        }),
{
    let p = decimal_text(e.0);
    let m = decimal_text(e.1);
    lemma_decimal_text(e.0);
    lemma_decimal_text(e.1);
    let s = token_text(e) + tail;
    let x_tail = seq!['x'] + m + tail;
    assert(s =~= p + x_tail);
    assert(x_tail[0] == 'x');
    lemma_digit_len_prefix(p, x_tail);
    let a = p.len() as int;
    assert(s[a] == 'x');
    assert(s.take(a) =~= p);
    let after_x = s.skip(a + 1);
    assert(after_x =~= m + tail);
    lemma_digit_len_prefix(m, tail);
    let b = m.len() as int;
    assert(after_x.take(b) =~= m);
    assert(after_x.skip(b) =~= tail);
}

/// The canonical text of a non-empty list starts with a digit.
pub proof fn lemma_render_starts_with_digit(l: Seq<(nat, nat)>)
    requires
        l.len() > 0,
    ensures
        render_factors(l).len() > 0,
        is_digit(render_factors(l)[0]),
{
    lemma_decimal_text(l[0].0);
    let p = decimal_text(l[0].0);
    assert(is_digit(p[0]));
    assert(token_text(l[0])[0] == p[0]);
    if l.len() == 1 {
    } else {
        assert(render_factors(l)[0] == p[0]);
    }
}

/// What follows the first token in the canonical text of a longer list: one
/// space, then the canonical text of the remaining entries.
proof fn lemma_render_tail(l: Seq<(nat, nat)>)
    requires
        l.len() >= 2,
    ensures
        ({
            let tail = seq![' '] + render_factors(l.drop_first());
            &&& render_factors(l) == token_text(l[0]) + tail
            &&& !is_digit(tail[0])
            &&& space_len(tail) == 1
            &&& tail.skip(1) == render_factors(l.drop_first())
        }),
{
    let r = render_factors(l.drop_first());
    let tail = seq![' '] + r;
    lemma_render_starts_with_digit(l.drop_first());
    assert(render_factors(l) =~= token_text(l[0]) + tail);
    assert(tail[0] == ' ');
    assert(is_space(' '));
    assert(tail.drop_first() =~= r);
    assert(!is_space(r[0]));
    assert(space_len(r) == 0);
    assert(tail.skip(1) =~= r);
}

/// Reading the canonical text of a list gives the list back.
pub proof fn lemma_parse_render(l: Seq<(nat, nat)>)
    requires
        l.len() > 0,
    ensures
        factors_of_answer(render_factors(l)) == l,
    decreases l.len(),
{
    if l.len() == 1 {
        lemma_token_shape(l[0], Seq::<char>::empty());
        assert(token_text(l[0]) + Seq::<char>::empty() =~= token_text(l[0]));
        assert(factors_of_answer(render_factors(l)) =~= l);
    } else {
        lemma_render_tail(l);
        let tail = seq![' '] + render_factors(l.drop_first());
        lemma_token_shape(l[0], tail);
        lemma_parse_render(l.drop_first());
        assert(seq![l[0]] + l.drop_first() =~= l);
    }
}

/// The canonical text of a list is a legal factor list above `floor`
/// exactly if the list's primes ascend strictly from above `floor`.
pub proof fn lemma_render_valid_iff(l: Seq<(nat, nat)>, floor: nat)
    requires
        l.len() > 0,
    ensures
        is_factor_list(render_factors(l), floor) <==> l[0].0 > floor && primes_ascend(l),
    decreases l.len(),
{
    if l.len() == 1 {
        lemma_token_shape(l[0], Seq::<char>::empty());
        assert(token_text(l[0]) + Seq::<char>::empty() =~= token_text(l[0]));
    } else {
        lemma_render_tail(l);
        let l1 = l.drop_first();
        let tail = seq![' '] + render_factors(l1);
        lemma_token_shape(l[0], tail);
        lemma_render_valid_iff(l1, l[0].0);
        assert(l1[0] == l[1]);
        if l[0].0 > floor && primes_ascend(l) {
            assert(l[0].0 < l[1].0);
            assert(primes_ascend(l1)) by {
                assert forall|i: int| 0 <= i < l1.len() - 1 implies (#[trigger] l1[i]).0 < l1[i
                    + 1].0 by {
                    assert(l1[i] == l[i + 1]);
                    assert(l1[i + 1] == l[i + 2]);
                }
            }
        }
        if l[0].0 > floor && l[1].0 > l[0].0 && primes_ascend(l1) {
            assert(primes_ascend(l)) by {
                assert forall|i: int| 0 <= i < l.len() - 1 implies (#[trigger] l[i]).0 < l[i
                    + 1].0 by {
                    if i > 0 {
                        assert(l1[i - 1] == l[i]);
                        assert(l1[i] == l[i + 1]);
                    }
                }
            }
        }
    }
}

/// A power of a positive number is positive.
pub proof fn lemma_power_positive(b: nat, e: nat)
    requires
        b >= 1,
    ensures
        power(b, e) >= 1,
    decreases e,
{
    if e > 0 {
        lemma_power_positive(b, (e - 1) as nat);
        assert(b * power(b, (e - 1) as nat) >= 1) by (nonlinear_arith)
            requires
                b >= 1,
                power(b, (e - 1) as nat) >= 1,
        ;
    }
}

/// A number below `10^digits` is below `2^(4 * digits)`.
pub proof fn lemma_doublings_bounded(steps: nat, digits: nat)
    requires
        power(2, steps) < crate::decimal::pow10(digits),
    ensures
        steps < 4 * digits,
    decreases digits,
{
    lemma_power_positive(2, steps);
    crate::decimal::lemma_pow10_step(0);
    if digits > 0 {
        crate::decimal::lemma_pow10_step((digits - 1) as nat);
        if steps >= 4 {
            let s1 = (steps - 1) as nat;
            let s2 = (steps - 2) as nat;
            let s3 = (steps - 3) as nat;
            let s4 = (steps - 4) as nat;
            assert(power(2, steps) == 2 * power(2, s1));
            assert(power(2, s1) == 2 * power(2, s2));
            assert(power(2, s2) == 2 * power(2, s3));
            assert(power(2, s3) == 2 * power(2, s4));
            assert(power(2, steps) == 16 * power(2, s4));
            lemma_doublings_bounded(s4, (digits - 1) as nat);
        }
    }
}

/// Appending an entry multiplies the product by the entry's power.
pub proof fn lemma_list_product_push(l: Seq<(nat, nat)>, e: (nat, nat))
    ensures
        list_product(l.push(e)) == list_product(l) * power(e.0, e.1),
    decreases l.len(),
{
    if l.len() == 0 {
        assert(l.push(e).drop_first() =~= Seq::<(nat, nat)>::empty());
        assert(l.push(e)[0] == e);
        assert(list_product(Seq::<(nat, nat)>::empty()) == 1);
        assert(list_product(l) == 1);
        assert(power(e.0, e.1) * 1 == 1 * power(e.0, e.1)) by (nonlinear_arith);
    } else {
        lemma_list_product_push(l.drop_first(), e);
        assert(l.push(e).drop_first() =~= l.drop_first().push(e));
        assert(l.push(e)[0] == l[0]);
        let a = power(l[0].0, l[0].1);
        let b = list_product(l.drop_first());
        let c = power(e.0, e.1);
        assert(a * (b * c) == (a * b) * c) by (nonlinear_arith);
    }
}

/// The entries for `m` multiply out to the product for `m`.
pub proof fn lemma_entries_product(m: Seq<nat>)
    ensures
        list_product(pool_entries(m)) == pool_product(m),
    decreases m.len(),
{
    if m.len() > 0 {
        lemma_entries_product(m.drop_last());
        if m.last() > 0 {
            lemma_list_product_push(
                pool_entries(m.drop_last()),
                (prime_pool()[m.len() - 1], m.last()),
            );
        } else {
            assert(power(prime_pool()[m.len() - 1], 0) == 1);
            assert(pool_product(m.drop_last()) * 1 == pool_product(m.drop_last()));
        }
    }
}

/// One more occurrence of the prime at `i` multiplies the product by it.
pub proof fn lemma_pool_product_step(m: Seq<nat>, i: int)
    requires
        0 <= i < m.len(),
    ensures
        pool_product(m.update(i, m[i] + 1)) == pool_product(m) * prime_pool()[i],
    decreases m.len(),
{
    let m2 = m.update(i, m[i] + 1);
    let last = m.len() - 1;
    let p = prime_pool()[last];
    if i == last {
        assert(m2.drop_last() =~= m.drop_last());
        let a = pool_product(m.drop_last());
        let b = power(p, m[i]);
        assert(power(p, m[i] + 1) == p * b);
        assert(a * (p * b) == (a * b) * p) by (nonlinear_arith);
    } else {
        lemma_pool_product_step(m.drop_last(), i);
        assert(m2.drop_last() =~= m.drop_last().update(i, m[i] + 1));
        assert(m.drop_last()[i] == m[i]);
        let a = pool_product(m.drop_last());
        let q = prime_pool()[i];
        let b = power(p, m.last());
        assert((a * q) * b == (a * b) * q) by (nonlinear_arith);
    }
}

/// The product for multiplicities that are all zero is one.
pub proof fn lemma_pool_product_zero(m: Seq<nat>)
    requires
        m.len() <= POOL_SIZE,
        forall|i: int| 0 <= i < m.len() ==> m[i] == 0,
    ensures
        pool_product(m) == 1,
    decreases m.len(),
{
    if m.len() > 0 {
        let h = m.drop_last();
        assert forall|i: int| 0 <= i < h.len() implies h[i] == 0 by {
            assert(h[i] == m[i]);
        }
        lemma_pool_product_zero(h);
        lemma_pool_bounds();
        assert(m.last() == 0);
        assert(power(prime_pool()[m.len() - 1], 0) == 1);
        assert(pool_product(m) == pool_product(h) * 1);
    }
}

/// The entries for `m` are pool primes in strictly ascending order, each
/// with a multiplicity of at least one.
pub proof fn lemma_entries_shape(m: Seq<nat>)
    requires
        m.len() <= POOL_SIZE,
    ensures
        primes_ascend(pool_entries(m)),
        forall|k: int|
            0 <= k < pool_entries(m).len() ==> {
                let e = #[trigger] pool_entries(m)[k];
                &&& e.1 >= 1
                &&& in_pool(e.0)
                &&& is_prime(e.0)
                &&& m.len() > 0
                &&& e.0 <= prime_pool()[m.len() - 1]
            },
        pool_entries(m).len() > 0 <==> exists|i: int| 0 <= i < m.len() && m[i] > 0,
    decreases m.len(),
{
    lemma_pool_bounds();
    lemma_pool_is_prime();
    if m.len() > 0 {
        let h = m.drop_last();
        let last = m.len() - 1;
        lemma_entries_shape(h);
        let eh = pool_entries(h);
        let em = pool_entries(m);
        assert forall|k: int| 0 <= k < eh.len() implies (#[trigger] eh[k]).0 < prime_pool()[last] by {
            assert(eh[k].0 <= prime_pool()[h.len() - 1]);
        }
        if m.last() > 0 {
            let e = (prime_pool()[last], m.last());
            assert(em == eh.push(e));
            assert(in_pool(e.0));
            assert forall|k: int| 0 <= k < em.len() - 1 implies (#[trigger] em[k]).0 < em[k + 1].0 by {
                assert(em[k] == eh[k]);
                if k + 1 < eh.len() {
                    assert(em[k + 1] == eh[k + 1]);
                }
            }
            assert forall|k: int| 0 <= k < em.len() implies {
                let e = #[trigger] em[k];
                &&& e.1 >= 1
                &&& in_pool(e.0)
                &&& is_prime(e.0)
                &&& e.0 <= prime_pool()[last]
            } by {
                if k < eh.len() {
                    assert(em[k] == eh[k]);
                }
            }
            assert(m[last] > 0);
        } else {
            if exists|i: int| 0 <= i < m.len() && m[i] > 0 {
                let i = choose|i: int| 0 <= i < m.len() && m[i] > 0;
                assert(h[i] > 0);
            }
            if exists|i: int| 0 <= i < h.len() && h[i] > 0 {
                let i = choose|i: int| 0 <= i < h.len() && h[i] > 0;
                assert(m[i] > 0);
            }
        }
    }
}

/// The canonical text of the entries for `m`, where any prime occurs, is a
/// legal answer that reads back as those entries.
pub proof fn lemma_pool_text(m: Seq<nat>)
    requires
        m.len() <= POOL_SIZE,
        exists|i: int| 0 <= i < m.len() && m[i] > 0,
    ensures
        is_factor_list(render_factors(pool_entries(m)), 0),
        factors_of_answer(render_factors(pool_entries(m))) == pool_entries(m),
        list_product(pool_entries(m)) == pool_product(m),
{
    lemma_entries_shape(m);
    lemma_entries_product(m);
    let l = pool_entries(m);
    lemma_parse_render(l);
    lemma_render_valid_iff(l, 0);
    assert(is_prime(l[0].0));
}

/// Appending an entry to a list appends its token, after a space unless it
/// is the first.
pub proof fn lemma_render_push(l: Seq<(nat, nat)>, e: (nat, nat))
    ensures
        render_factors(l.push(e)) == if l.len() == 0 {
            token_text(e)
        } else {
            render_factors(l) + seq![' '] + token_text(e)
        },
    decreases l.len(),
{
    let le = l.push(e);
    if l.len() == 0 {
        assert(le[0] == e);
    } else if l.len() == 1 {
        assert(le.drop_first() =~= seq![e]);
        assert(le[0] == l[0]);
        assert(render_factors(seq![e]) == token_text(e));
    } else {
        lemma_render_push(l.drop_first(), e);
        assert(le.drop_first() =~= l.drop_first().push(e));
        assert(le[0] == l[0]);
        assert(render_factors(le) =~= render_factors(l) + seq![' '] + token_text(e));
    }
}

/// Appends the decimal text of `n` to `out`.
pub fn push_decimal(out: &mut String, n: u128)
    ensures
        final(out)@ == old(out)@ + decimal_text(n as nat),
    decreases n,
{
    if n >= 10 {
        push_decimal(out, n / 10);
    }
    let d: u8 = (n % 10) as u8;
    let ghost before = out@;
    out.push((d + 48) as char);
    proof {
        assert(((d + 48) as u8) as char == digit_char((n % 10) as nat));
        assert(out@ =~= old(out)@ + decimal_text(n as nat));
    }
}

/// Writes the canonical text of the factor list for the multiplicities
/// `counts` of the pool's primes.
pub fn render_counts(counts: &Vec<u128>) -> (out: String)
    requires
        counts.len() == POOL_SIZE,
    ensures
        out@ == render_factors(pool_entries(counts@.map_values(|c: u128| c as nat))),
{
    let ghost m = counts@.map_values(|c: u128| c as nat);
    let mut out = String::new();
    let mut any: bool = false;
    let mut i: usize = 0;
    proof {
        assert(m.take(0) =~= Seq::<nat>::empty());
    }
    while i < POOL_SIZE
        invariant
            i <= POOL_SIZE,
            counts.len() == POOL_SIZE,
            m == counts@.map_values(|c: u128| c as nat),
            out@ == render_factors(pool_entries(m.take(i as int))),
            any == (pool_entries(m.take(i as int)).len() > 0),
        decreases POOL_SIZE - i,
    {
        let c = counts[i];
        let ghost before = pool_entries(m.take(i as int));
        proof {
            assert(m.take(i + 1).drop_last() =~= m.take(i as int));
            assert(m.take(i + 1).last() == c as nat);
        }
        if c > 0 {
            let p = pool_prime(i);
            proof {
                lemma_render_push(before, (p as nat, c as nat));
            }
            if any {
                out.push(' ');
            }
            let ghost mid = out@;
            push_decimal(&mut out, p as u128);
            out.push('x');
            push_decimal(&mut out, c);
            proof {
                assert(out@ =~= mid + token_text((p as nat, c as nat)));
            }
            any = true;
        }
        i = i + 1;
    }
    proof {
        assert(m.take(POOL_SIZE as int) =~= m);
    }
    out
}

/// The canonical text of every factor list whose primes are positive and
/// ascend strictly is a legal answer.
pub proof fn lemma_canonical_text_is_valid(l: Seq<(nat, nat)>)
    requires
        l.len() > 0,
        l[0].0 > 0,
        primes_ascend(l),
    ensures
        is_factor_list(render_factors(l), 0),
{
    lemma_render_valid_iff(l, 0);
}

/// The text of a factor list whose primes do not ascend strictly, or whose
/// first prime is zero, is no legal answer.
pub proof fn lemma_out_of_order_is_invalid(l: Seq<(nat, nat)>)
    requires
        l.len() > 0,
        l[0].0 == 0 || !primes_ascend(l),
    ensures
        !is_factor_list(render_factors(l), 0),
{
    lemma_render_valid_iff(l, 0);
}

} // verus!
