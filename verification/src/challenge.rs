//! Building a challenge: a product of pool primes that is costly to factor
//! and cheap to multiply out, with its wire form and its factor list.

use vstd::prelude::*;
use crate::decimal::{
    MAX_FACTOR, is_canonical, le_value, lemma_digit_count_bound, lemma_le_value_lower,
    lemma_le_value_upper, lemma_pow10_18, lemma_pow10_adds, lemma_pow10_grows, lemma_pow10_step,
    mul_small, pow10,
};
use crate::entropy::random_bytes;
use crate::error::Error;
use crate::factors::{
    factors_of_answer, in_pool, lemma_doublings_bounded, lemma_entries_shape, lemma_pool_product_step,
    lemma_pool_product_zero, lemma_pool_text, lemma_power_positive, list_product, pool_entries,
    pool_product, power, render_counts, render_factors,
};
use crate::primes::{POOL_SIZE, is_prime, lemma_pool_bounds, pool_prime, prime_pool};
use crate::validate::is_valid_answer;
use crate::wire::{
    decode_text, digits_of, encode_digits, encode_number, lemma_decode_encode,
    lemma_digits_of_range, lemma_pack_len, lemma_reverse_is_digits_of, nibbles_of, pack,
    wire_len,
};

verus! {

/// The first decimal digit of `n`.
pub open spec fn leading_digit(n: nat) -> u8 {
    digits_of(n)[0]
}

/// How many doublings bring a number with the leading digit `d` to a
/// leading digit from 4 to 7.
pub open spec fn doublings_to_settle(d: u8) -> nat {
    if 4 <= d <= 7 {
        0
    } else if d == 2 || d == 3 {
        1
    } else if d == 1 {
        2
    } else {
        3
    }
}

/// The product of the pool primes that the bytes of `picks` select.
pub open spec fn picks_product(picks: Seq<u8>) -> nat
    decreases picks.len(),
{
    if picks.len() == 0 {
        1
    } else {
        picks_product(picks.drop_last()) * prime_pool()[(picks.last() % 64) as int]
    }
}

/// The multiplicities `m` after the pool primes that the bytes of `picks`
/// select were counted in, one after the other.
pub open spec fn bumped(m: Seq<nat>, picks: Seq<u8>) -> Seq<nat>
    decreases picks.len(),
{
    if picks.len() == 0 {
        m
    } else {
        let before = bumped(m, picks.drop_last());
        let i = (picks.last() % 64) as int;
        before.update(i, before[i] + 1)
    }
}

/// How many picks are multiplied in between two looks at the size.
pub const BATCH: usize = 7;

/// A number that is being multiplied together from pool primes.
pub struct ChallengeBuilder {
    digits: Vec<u8>,
    counts: Vec<u128>,
    steps: u128,
}

/// A product of `n` pool primes is at most ten to the power of `3 * n`.
pub proof fn lemma_picks_product_bound(picks: Seq<u8>)
    ensures
        1 <= picks_product(picks) <= pow10(3 * picks.len()),
    decreases picks.len(),
{
    lemma_pow10_step(0);
    if picks.len() > 0 {
        let h = picks.drop_last();
        lemma_picks_product_bound(h);
        lemma_pool_bounds();
        lemma_pow10_adds(3 * h.len(), 3);
        lemma_pow10_step(1);
        lemma_pow10_step(2);
        let p = prime_pool()[(picks.last() % 64) as int];
        let a = picks_product(h);
        let w = pow10(3 * h.len());
        assert(1 <= a * p <= w * 1000) by (nonlinear_arith)
            requires
                1 <= a <= w,
                2 <= p <= 311,
        ;
        assert(3 * picks.len() == 3 * h.len() + 3);
    }
}

/// Doubling a number moves its leading digit one step closer to the range
/// from 4 to 7, unless it is there already.
proof fn lemma_double_lead(a: Seq<u8>, b: Seq<u8>)
    requires
        is_canonical(a),
        is_canonical(b),
        le_value(b) == 2 * le_value(a),
        doublings_to_settle(a.last()) > 0,
    ensures
        doublings_to_settle(b.last()) + 1 == doublings_to_settle(a.last()),
{
    lemma_le_value_lower(a);
    lemma_le_value_lower(b);
    let pa = pow10((a.len() - 1) as nat) as int;
    let pb = pow10((b.len() - 1) as nat) as int;
    let va = le_value(a) as int;
    let vb = le_value(b) as int;
    let la = a.last() as int;
    let lb = b.last() as int;
    lemma_pow10_step((a.len() - 1) as nat);
    lemma_pow10_step((b.len() - 1) as nat);
    assert(1 <= la <= 9 && 1 <= lb <= 9);
    assert(la * pa <= va < (la + 1) * pa);
    assert(lb * pb <= vb < (lb + 1) * pb);
    assert(pb <= lb * pb && (lb + 1) * pb <= 10 * pb) by (nonlinear_arith)
        requires
            1 <= lb <= 9,
            pb >= 1,
    ;
    if la == 8 || la == 9 {
        assert(8 * pa <= la * pa && (la + 1) * pa <= 10 * pa) by (nonlinear_arith)
            requires
                8 <= la <= 9,
                pa >= 1,
        ;
        if b.len() <= a.len() {
            if b.len() < a.len() {
                lemma_pow10_grows((b.len() - 1) as nat, (a.len() - 1) as nat);
            }
            assert(false);
        }
        if b.len() >= a.len() + 2 {
            lemma_pow10_grows(a.len() as nat, (b.len() - 1) as nat);
            assert(false);
        }
        assert(pb == 10 * pa);
        assert(lb < 2) by (nonlinear_arith)
            requires
                lb * pb <= vb,
                vb < 20 * pa,
                pb == 10 * pa,
                pa >= 1,
        ;
    } else {
        assert(la == 1 || la == 2 || la == 3);
        assert(la * pa >= pa && (la + 1) * pa <= 4 * pa) by (nonlinear_arith)
            requires
                1 <= la <= 3,
                pa >= 1,
        ;
        if b.len() < a.len() {
            lemma_pow10_grows((b.len() - 1) as nat, (a.len() - 1) as nat);
            assert(false);
        }
        if b.len() > a.len() {
            lemma_pow10_grows((a.len() - 1) as nat, (b.len() - 1) as nat);
            assert(false);
        }
        assert(pb == pa);
        if la == 1 {
            assert(2 <= lb < 4) by (nonlinear_arith)
                requires
                    lb * pa <= vb,
                    vb < (lb + 1) * pa,
                    2 * pa <= vb,
                    vb < 4 * pa,
                    pa >= 1,
            ;
        } else {
            assert((la + 1) * pa <= 4 * pa && la * pa >= 2 * pa) by (nonlinear_arith)
                requires
                    2 <= la <= 3,
                    pa >= 1,
            ;
            assert(4 <= lb < 8) by (nonlinear_arith)
                requires
                    lb * pa <= vb,
                    vb < (lb + 1) * pa,
                    4 * pa <= vb,
                    vb < 8 * pa,
                    pa >= 1,
            ;
        }
    }
}

/// The wire form of a number whose leading digit is from 4 to 7 starts
/// with the letter `B`.
pub proof fn lemma_leading_b(n: nat)
    requires
        4 <= leading_digit(n) <= 7,
    ensures
        encode_number(n).len() >= 2,
        encode_number(n)[0] == 'B',
{
    lemma_digits_of_range(n);
    let nib = nibbles_of(n);
    assert(nib[0] == 0);
    assert(nib[1] == digits_of(n)[0]);
    let p = pack(nib);
    lemma_pack_len(nib);
    assert(p[0] == 1u8);
    assert(encode_number(n)[0] == crate::wire::sextet_char(p[0]));
}

impl ChallengeBuilder {
    /// The number multiplied together so far.
    pub closed spec fn value(&self) -> nat {
        le_value(self.digits@)
    }

    /// How often each prime of the pool was multiplied in, in the pool's
    /// order.
    pub closed spec fn multiplicities(&self) -> Seq<nat> {
        self.counts@.map_values(|c: u128| c as nat)
    }

    /// The builder's invariant: the number is the product of its factors.
    pub closed spec fn wf(&self) -> bool {
        &&& is_canonical(self.digits@)
        &&& self.counts@.len() == POOL_SIZE
        &&& self.value() == pool_product(self.multiplicities())
        &&& power(2, self.steps as nat) <= self.value()
        &&& forall|i: int| 0 <= i < POOL_SIZE ==> #[trigger] self.counts@[i] <= self.steps
    }

    /// A well-formed builder holds a positive number and one multiplicity
    /// for each prime of the pool.
    pub proof fn lemma_wf(&self)
        requires
            self.wf(),
        ensures
            self.value() >= 1,
            self.multiplicities().len() == POOL_SIZE,
            self.value() == pool_product(self.multiplicities()),
    {
        lemma_power_positive(2, self.steps as nat);
    }

    /// A builder that holds the number one.
    pub fn new() -> (b: Self)
        ensures
            b.wf(),
            b.value() == 1,
            b.multiplicities() == Seq::new(POOL_SIZE as nat, |i: int| 0nat),
    {
        let mut digits: Vec<u8> = Vec::new();
        digits.push(1u8);
        let mut counts: Vec<u128> = Vec::new();
        let mut i: usize = 0;
        while i < POOL_SIZE
            invariant
                i <= POOL_SIZE,
                counts@.len() == i,
                forall|j: int| 0 <= j < i ==> counts@[j] == 0,
            decreases POOL_SIZE - i,
        {
            counts.push(0u128);
            i = i + 1;
        }
        let b = ChallengeBuilder { digits, counts, steps: 0 };
        proof {
            assert(b.digits@ =~= seq![1u8]);
            assert(b.digits@.drop_first() =~= Seq::<u8>::empty());
            assert(le_value(Seq::<u8>::empty()) == 0);
            assert(le_value(b.digits@) == 1);
            assert(b.multiplicities() =~= Seq::new(POOL_SIZE as nat, |i: int| 0nat));
            lemma_pool_product_zero(b.multiplicities());
            assert(power(2, 0) == 1);
        }
        b
    }

    /// Multiplies in the pool prime that the byte `pick` selects: the one
    /// at index `pick` modulo the pool's size.
    pub fn absorb(&mut self, pick: u8)
        requires
            old(self).wf(),
        ensures
            final(self).wf(),
            final(self).value() == old(self).value() * prime_pool()[(pick % 64) as int],
            final(self).multiplicities() == old(self).multiplicities().update(
                (pick % 64) as int,
                old(self).multiplicities()[(pick % 64) as int] + 1,
            ),
            final(self).value() > old(self).value(),
            encode_number(final(self).value()).len() >= encode_number(old(self).value()).len(),
            digits_of(final(self).value()).len() <= digits_of(old(self).value()).len() + 3,
    {
        let idx: usize = (pick % 64) as usize;
        let ghost d0 = self.digits@;
        proof {
            self.lemma_wire_len();
            self.lemma_wf();
        }
        let p = pool_prime(idx);
        let c = self.counts[idx];
        let steps = self.steps;
        let len = self.digits.len();
        proof {
            lemma_pool_bounds();
            lemma_le_value_upper(self.digits@);
            lemma_doublings_bounded(self.steps as nat, self.digits@.len());
            lemma_pool_product_step(self.multiplicities(), idx as int);
            assert(power(2, (self.steps + 1) as nat) == 2 * power(2, self.steps as nat));
            assert(self.value() * p >= 2 * self.value()) by (nonlinear_arith)
                requires
                    p >= 2,
            ;
        }
        let ghost before = self.multiplicities();
        assert(steps < 4 * len);
        assert(c <= steps);
        mul_small(&mut self.digits, p as u64);
        self.counts.set(idx, c + 1);
        self.steps = steps + 1;
        proof {
            assert(self.multiplicities() =~= before.update(idx as int, before[idx as int] + 1));
            self.lemma_wire_len();
            lemma_pow10_adds(d0.len(), 3);
            lemma_pow10_step(0);
            lemma_pow10_step(1);
            lemma_pow10_step(2);
            assert(le_value(d0) * p < pow10(d0.len()) * 1000) by (nonlinear_arith)
                requires
                    le_value(d0) < pow10(d0.len()),
                    2 <= p <= 311,
            ;
            lemma_digit_count_bound(d0, self.digits@, 3);
        }
    }

    /// Multiplies in the pool primes that the bytes of `picks` from index
    /// `from` to index `to` select.
    pub fn absorb_range(&mut self, picks: &Vec<u8>, from: usize, to: usize)
        requires
            old(self).wf(),
            from <= to <= picks.len(),
        ensures
            final(self).wf(),
            final(self).value() == old(self).value() * picks_product(
                picks@.subrange(from as int, to as int),
            ),
            final(self).multiplicities() == bumped(
                old(self).multiplicities(),
                picks@.subrange(from as int, to as int),
            ),
            from < to ==> final(self).value() > old(self).value(),
            encode_number(final(self).value()).len() >= encode_number(old(self).value()).len(),
            digits_of(final(self).value()).len() <= digits_of(old(self).value()).len() + 3 * (to
                - from),
    {
        let ghost v0 = self.value();
        let ghost m0 = self.multiplicities();
        let ghost d0 = self.digits@;
        let ghost sub = picks@.subrange(from as int, to as int);
        let mut pending: u64 = 1;
        let mut i: usize = from;
        proof {
            self.lemma_wf();
            self.lemma_wire_len();
            assert(sub.take(0) =~= Seq::<u8>::empty());
            assert(v0 * 1 == v0);
            assert(pool_product(m0) * 1 == pool_product(m0));
            assert(le_value(self.digits@) * 1 == le_value(self.digits@));
        }
        while i < to
            invariant
                from <= i <= to <= picks.len(),
                sub == picks@.subrange(from as int, to as int),
                d0 == old(self).digits@,
                v0 == le_value(d0),
                is_canonical(d0),
                v0 == old(self).value(),
                m0 == old(self).multiplicities(),
                m0.len() == POOL_SIZE,
                v0 >= 1,
                is_canonical(self.digits@),
                self.counts@.len() == POOL_SIZE,
                1 <= pending <= MAX_FACTOR,
                self.multiplicities() == bumped(m0, sub.take(i - from)),
                le_value(self.digits@) * pending == v0 * picks_product(sub.take(i - from)),
                le_value(self.digits@) * pending == pool_product(self.multiplicities()),
                power(2, self.steps as nat) <= le_value(self.digits@) * pending,
                forall|j: int| 0 <= j < POOL_SIZE ==> #[trigger] self.counts@[j] <= self.steps,
                self.digits@.len() >= old(self).digits@.len(),
                le_value(self.digits@) * pending >= v0,
                i > from ==> le_value(self.digits@) * pending > v0,
            decreases to - i,
        {
            let idx: usize = (picks[i] % 64) as usize;
            let p = pool_prime(idx) as u64;
            proof {
                lemma_pool_bounds();
            }
            if pending > MAX_FACTOR / 311 {
                let ghost before = le_value(self.digits@);
                mul_small(&mut self.digits, pending);
                proof {
                    assert(le_value(self.digits@) * 1 == before * pending) by (nonlinear_arith)
                        requires
                            le_value(self.digits@) == before * pending,
                    ;
                }
                pending = 1;
            }
            let c = self.counts[idx];
            let steps = self.steps;
            let len = self.digits.len();
            let ghost held = le_value(self.digits@);
            let ghost mults = self.multiplicities();
            let ghost done = sub.take(i - from);
            proof {
                lemma_le_value_upper(self.digits@);
                lemma_pow10_18();
                lemma_pow10_adds(len as nat, 18);
                assert(held * pending < pow10(len as nat) * pow10(18)) by (nonlinear_arith)
                    requires
                        held < pow10(len as nat),
                        1 <= pending <= pow10(18),
                ;
                lemma_doublings_bounded(steps as nat, (len + 18) as nat);
                lemma_pool_product_step(mults, idx as int);
                assert(power(2, (steps + 1) as nat) == 2 * power(2, steps as nat));
                assert(held * (pending * p) == (held * pending) * p) by (nonlinear_arith);
                assert((held * pending) * p >= 2 * (held * pending)) by (nonlinear_arith)
                    requires
                        p >= 2,
                ;
                assert(1 <= pending * p <= MAX_FACTOR) by (nonlinear_arith)
                    requires
                        1 <= pending <= MAX_FACTOR / 311,
                        2 <= p <= 311,
                ;
                lemma_le_value_lower(self.digits@);
                lemma_pow10_step((len - 1) as nat);
                assert(held * pending >= 1) by (nonlinear_arith)
                    requires
                        held >= 1,
                        pending >= 1,
                ;
                assert(sub.take(i - from + 1).drop_last() =~= done);
                assert(sub.take(i - from + 1).last() == picks@[i as int]);
                assert((v0 * picks_product(done)) * p == v0 * (picks_product(done) * p))
                    by (nonlinear_arith);
            }
            pending = pending * p;
            self.counts.set(idx, c + 1);
            self.steps = steps + 1;
            proof {
                assert(self.multiplicities() =~= mults.update(idx as int, mults[idx as int] + 1));
            }
            i = i + 1;
        }
        proof {
            assert(sub.take(to - from) =~= sub);
        }
        let ghost before = le_value(self.digits@);
        mul_small(&mut self.digits, pending);
        proof {
            self.lemma_wire_len();
            assert(wire_len(self.digits@.len()) >= wire_len(old(self).digits@.len()));
            lemma_picks_product_bound(sub);
            lemma_le_value_upper(d0);
            lemma_pow10_adds(d0.len(), 3 * sub.len());
            assert(v0 * picks_product(sub) < pow10(d0.len()) * pow10(3 * sub.len()))
                by (nonlinear_arith)
                requires
                    v0 < pow10(d0.len()),
                    1 <= picks_product(sub) <= pow10(3 * sub.len()),
            ;
            lemma_digit_count_bound(d0, self.digits@, 3 * sub.len());
        }
    }

    /// Tells whether the wire form of the number has reached `target_quads`
    /// groups of four characters.
    pub fn reached(&self, target_quads: u64) -> (r: bool)
        requires
            self.wf(),
        ensures
            r == (encode_number(self.value()).len() >= 4 * target_quads),
    {
        proof {
            self.lemma_wire_len();
        }
        let n: u128 = self.digits.len() as u128 + 1;
        let chars: u128 = (n / 3) * 2 + n % 3;
        chars >= 4 * (target_quads as u128)
    }

    /// The wire form has as many characters as the number's digit count asks.
    proof fn lemma_wire_len(&self)
        requires
            self.wf(),
        ensures
            encode_number(self.value()).len() == wire_len(self.digits@.len()),
            digits_of(self.value()) == self.digits@.reverse(),
            leading_digit(self.value()) == self.digits@.last(),
    {
        lemma_reverse_is_digits_of(self.digits@);
        lemma_pack_len(nibbles_of(self.value()));
    }

    /// Doubles the number until its leading digit is from 4 to 7, which
    /// makes the wire form start with the letter `B`.
    pub fn settle(&mut self)
        requires
            old(self).wf(),
        ensures
            final(self).wf(),
            4 <= leading_digit(final(self).value()) <= 7,
            final(self).value() == old(self).value() * power(
                2,
                doublings_to_settle(leading_digit(old(self).value())),
            ),
            final(self).multiplicities() == old(self).multiplicities().update(
                0,
                old(self).multiplicities()[0] + doublings_to_settle(
                    leading_digit(old(self).value()),
                ),
            ),
            encode_number(final(self).value()).len() >= encode_number(old(self).value()).len(),
            digits_of(final(self).value()).len() <= digits_of(old(self).value()).len() + 1,
    {
        let ghost v0 = self.value();
        let ghost m0 = self.multiplicities();
        let ghost d0 = self.digits@;
        let ghost total = doublings_to_settle(leading_digit(v0));
        let ghost mut done: nat = 0;
        proof {
            self.lemma_wire_len();
            assert(power(2, 0) == 1);
            assert(m0 =~= m0.update(0, m0[0] + 0));
        }
        loop
            invariant
                self.wf(),
                v0 == old(self).value(),
                m0 == old(self).multiplicities(),
                d0 == old(self).digits@,
                is_canonical(d0),
                v0 == le_value(d0),
                done <= total <= 3,
                digits_of(v0) == d0.reverse(),
                encode_number(self.value()).len() >= encode_number(v0).len(),
                total == doublings_to_settle(leading_digit(v0)),
                m0.len() == POOL_SIZE,
                self.value() == v0 * power(2, done),
                self.multiplicities() == m0.update(0, m0[0] + done),
                done + doublings_to_settle(self.digits@.last()) == total,
                leading_digit(self.value()) == self.digits@.last(),
            decreases doublings_to_settle(self.digits@.last()),
        {
            let lead = self.digits[self.digits.len() - 1];
            if 4 <= lead && lead <= 7 {
                proof {
                    lemma_le_value_upper(d0);
                    lemma_pow10_step(d0.len());
                    assert(power(2, done) <= 8) by {
                        assert(power(2, 0) == 1);
                        assert(power(2, 1) == 2 * power(2, 0));
                        assert(power(2, 2) == 2 * power(2, 1));
                        assert(power(2, 3) == 2 * power(2, 2));
                    }
                    assert(v0 * power(2, done) < 10 * pow10(d0.len())) by (nonlinear_arith)
                        requires
                            v0 < pow10(d0.len()),
                            power(2, done) <= 8,
                    ;
                    lemma_digit_count_bound(d0, self.digits@, 1);
                    self.lemma_wire_len();
                    assert(d0.reverse().len() == d0.len());
                }
                return ;
            }
            let ghost before = self.digits@;
            let ghost mid = self.multiplicities();
            let ghost vmid = self.value();
            self.absorb(0u8);
            proof {
                lemma_pool_bounds();
                crate::primes::lemma_pool_first();
                lemma_double_lead(before, self.digits@);
                self.lemma_wire_len();
                assert(power(2, done + 1) == 2 * power(2, done));
                assert(v0 * power(2, done) * 2 == v0 * (2 * power(2, done))) by (nonlinear_arith);
                assert(self.multiplicities() =~= m0.update(0, m0[0] + done + 1));
                done = done + 1;
            }
        }
    }

    /// The wire form of the number.
    pub fn encoded_value(&self) -> (out: String)
        requires
            self.wf(),
        ensures
            out@ == encode_number(self.value()),
    {
        encode_digits(&self.digits)
    }

    /// The canonical text of the number's factor list.
    pub fn factors(&self) -> (out: String)
        requires
            self.wf(),
        ensures
            out@ == render_factors(pool_entries(self.multiplicities())),
    {
        render_counts(&self.counts)
    }

    /// The wire form has as many characters as the number's digit count
    /// asks, at least two.
    pub proof fn lemma_size(&self)
        requires
            self.wf(),
        ensures
            encode_number(self.value()).len() == wire_len(digits_of(self.value()).len()),
            digits_of(self.value()).len() >= 1,
    {
        self.lemma_wire_len();
    }

    /// While the wire form is short of `target_quads` groups, the number is
    /// below ten to the power of six times `target_quads`.
    pub proof fn lemma_unreached_bound(&self, target_quads: nat)
        requires
            self.wf(),
            encode_number(self.value()).len() < 4 * target_quads,
        ensures
            self.value() < pow10(6 * target_quads),
    {
        self.lemma_wire_len();
        lemma_le_value_upper(self.digits@);
        let len = self.digits@.len();
        assert(len < 6 * target_quads);
        lemma_pow10_grows(len, 6 * target_quads);
    }

    /// Settles the number and writes it out: its wire form, and the
    /// canonical text of its factor list.
    pub fn finish(self) -> (r: (String, String))
        requires
            self.wf(),
        ensures
            ({
                let k = doublings_to_settle(leading_digit(self.value()));
                let m = self.multiplicities();
                &&& r.0@ == encode_number(self.value() * power(2, k))
                &&& r.1@ == render_factors(pool_entries(m.update(0, m[0] + k)))
            }),
            r.0@.len() >= encode_number(self.value()).len(),
            r.0@.len() <= encode_number(self.value()).len() + 1,
            is_challenge(r.0@, r.1@),
    {
        let mut b = self;
        proof {
            self.lemma_wire_len();
        }
        b.settle();
        proof {
            b.lemma_wire_len();
            b.lemma_wf();
            let m = b.multiplicities();
            let v = b.value();
            lemma_digits_of_range(v);
            assert(v != 1) by {
                assert(digits_of(1)[0] == 1u8);
            }
            if forall|i: int| 0 <= i < m.len() ==> m[i] == 0 {
                lemma_pool_product_zero(m);
            }
            lemma_pool_text(m);
            lemma_entries_shape(m);
            lemma_decode_encode(v);
            lemma_leading_b(v);
        }
        let value = b.encoded_value();
        let factors = b.factors();
        (value, factors)
    }
}

/// What makes a wire text and a factor text a challenge: the factor text is
/// the canonical text of a list of pool primes, each with a multiplicity of
/// at least one, in strictly ascending order; and the wire text, which
/// starts with the letter `B`, is the wire form of the number that the list
/// multiplies out to.
pub open spec fn is_challenge(value: Seq<char>, factors: Seq<char>) -> bool {
    let l = factors_of_answer(factors);
    &&& is_valid_answer(factors)
    &&& factors == render_factors(l)
    &&& forall|k: int|
        0 <= k < l.len() ==> is_prime((#[trigger] l[k]).0) && in_pool(l[k].0) && l[k].1 >= 1
    &&& value == encode_number(list_product(l))
    &&& decode_text(value) == Some(list_product(l))
    &&& value.len() >= 2
    &&& value[0] == 'B'
}

/// How far `value` is below ten to the power of six times `target_quads`,
/// the size at which a wire form has that many groups at the latest.
pub open spec fn headroom(value: nat, target_quads: nat) -> nat {
    if value < pow10(6 * target_quads) {
        (pow10(6 * target_quads) - value) as nat
    } else {
        0
    }
}

/// How many random bytes are drawn from the system at a time.
pub const ENTROPY_BLOCK: usize = 64;

/// Generates a challenge of at least `digits` groups of four characters:
/// primes drawn uniformly from the pool are multiplied together until the
/// wire form is that long. Returns the wire form and the factor text, or
/// `Entropy` if the system's random source fails.
pub fn generate_value_and_factors_strings(digits: u64) -> (r: Result<(String, String), Error>)
    ensures
        r matches Ok(c) ==> is_challenge(c.0@, c.1@) && 4 * digits <= c.0@.len() <= 4 * digits
            + 14,
        r matches Err(e) ==> e == Error::Entropy,
        digits == 0 ==> r is Ok,
{
    let mut b = ChallengeBuilder::new();
    let mut block: Vec<u8> = Vec::new();
    let mut at: usize = 0;
    loop
        invariant
            b.wf(),
            at <= block.len(),
            block.len() == 0 || block.len() == ENTROPY_BLOCK,
            encode_number(b.value()).len() <= 4 * digits + 13,
        ensures
            b.wf(),
            4 * digits <= encode_number(b.value()).len() <= 4 * digits + 13,
        decreases headroom(b.value(), digits as nat),
    {
        if b.reached(digits) {
            break ;
        }
        proof {
            b.lemma_unreached_bound(digits as nat);
        }
        if at >= block.len() {
            match random_bytes(ENTROPY_BLOCK) {
                Some(fresh) => {
                    block = fresh;
                    at = 0;
                },
                None => {
                    return Err(Error::Entropy);
                },
            }
        }
        let end: usize = if block.len() - at > BATCH {
            at + BATCH
        } else {
            block.len()
        };
        proof {
            b.lemma_size();
        }
        let ghost before = digits_of(b.value()).len();
        b.absorb_range(&block, at, end);
        proof {
            b.lemma_size();
            assert(digits_of(b.value()).len() <= before + 21);
        }
        at = end;
    }
    Ok(b.finish())
}

} // verus!
