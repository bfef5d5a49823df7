//! Unbounded natural numbers held as decimal digits, least significant first.

use vstd::prelude::*;
use vstd::arithmetic::power::{lemma_pow0, lemma_pow_adds, lemma_pow_positive, pow};

verus! {

/// Ten to the power `e`.
pub open spec fn pow10(e: nat) -> nat {
    pow(10, e) as nat
}

/// The number whose decimal digits are `d`, least significant first.
pub open spec fn le_value(d: Seq<u8>) -> nat
    decreases d.len(),
{
    if d.len() == 0 {
        0
    } else {
        d[0] as nat + 10 * le_value(d.drop_first())
    }
}

/// Every element of `d` is a decimal digit.
pub open spec fn digits_in_range(d: Seq<u8>) -> bool {
    forall|i: int| 0 <= i < d.len() ==> #[trigger] d[i] < 10
}

/// The digits of a positive number without superfluous zeros: at least one
/// digit, and the most significant one is not zero.
pub open spec fn is_canonical(d: Seq<u8>) -> bool {
    &&& d.len() > 0
    &&& digits_in_range(d)
    &&& d.last() != 0
}

/// Powers of ten are positive, and the next one is ten times the last.
pub proof fn lemma_pow10_step(e: nat)
    ensures
        pow10(e + 1) == 10 * pow10(e),
        pow10(e) >= 1,
        pow10(0) == 1,
{
    lemma_pow_positive(10, e);
    lemma_pow0(10);
    reveal(pow);
    assert(pow(10, e + 1) == 10 * pow(10, e));
}

/// A greater exponent makes the power of ten at least ten times as great.
pub proof fn lemma_pow10_grows(x: nat, y: nat)
    requires
        x < y,
    ensures
        pow10(y) >= 10 * pow10(x),
    decreases y,
{
    lemma_pow10_step((y - 1) as nat);
    if x < y - 1 {
        lemma_pow10_grows(x, (y - 1) as nat);
    }
}

/// A number below ten to the power of `a.len() + k` has at most `k` digits
/// more than `a`.
pub proof fn lemma_digit_count_bound(a: Seq<u8>, b: Seq<u8>, k: nat)
    requires
        is_canonical(b),
        le_value(b) < pow10(a.len() + k),
    ensures
        b.len() <= a.len() + k,
{
    lemma_le_value_lower(b);
    if b.len() - 1 > a.len() + k {
        lemma_pow10_grows(a.len() + k, (b.len() - 1) as nat);
    }
}

/// Powers of ten multiply by adding their exponents.
pub proof fn lemma_pow10_adds(a: nat, b: nat)
    ensures
        pow10(a + b) == pow10(a) * pow10(b),
{
    lemma_pow_adds(10, a, b);
    lemma_pow_positive(10, a);
    lemma_pow_positive(10, b);
    lemma_pow_positive(10, a + b);
}

/// Ten to the power of 18 is the largest factor.
pub proof fn lemma_pow10_18()
    ensures
        pow10(18) == MAX_FACTOR,
{
    lemma_pow10_step(0);
    lemma_pow10_step(1);
    lemma_pow10_step(2);
    lemma_pow10_step(3);
    lemma_pow10_step(4);
    lemma_pow10_step(5);
    lemma_pow10_step(6);
    lemma_pow10_step(7);
    lemma_pow10_step(8);
    lemma_pow10_step(9);
    lemma_pow10_step(10);
    lemma_pow10_step(11);
    lemma_pow10_step(12);
    lemma_pow10_step(13);
    lemma_pow10_step(14);
    lemma_pow10_step(15);
    lemma_pow10_step(16);
    lemma_pow10_step(17);
}

/// Appending a most significant digit adds that digit's weight.
pub proof fn lemma_le_value_push(d: Seq<u8>, x: u8)
    ensures
        le_value(d.push(x)) == le_value(d) + x as nat * pow10(d.len()),
    decreases d.len(),
{
    lemma_pow10_step(d.len());
    if d.len() == 0 {
        assert(d.push(x).drop_first() =~= Seq::<u8>::empty());
        assert(le_value(d.push(x)) == x as nat + 10 * le_value(Seq::<u8>::empty()));
    } else {
        let t = d.drop_first();
        lemma_le_value_push(t, x);
        lemma_pow10_step(t.len());
        assert(d.push(x).drop_first() =~= t.push(x));
        assert(d.len() == t.len() + 1);
        let w = pow10(t.len());
        assert(10 * (x as nat * w) == x as nat * (10 * w)) by (nonlinear_arith);
    }
}

/// A string of `n` digits denotes a number below `10^n`.
pub proof fn lemma_le_value_upper(d: Seq<u8>)
    requires
        digits_in_range(d),
    ensures
        le_value(d) < pow10(d.len()),
    decreases d.len(),
{
    lemma_pow10_step(0);
    if d.len() > 0 {
        let t = d.drop_first();
        assert(digits_in_range(t)) by {
            assert forall|i: int| 0 <= i < t.len() implies #[trigger] t[i] < 10 by {
                assert(t[i] == d[i + 1]);
            }
        }
        lemma_le_value_upper(t);
        lemma_pow10_step(t.len());
        assert(d[0] < 10);
    }
}

/// A canonical string of `n` digits denotes a number of at least `10^(n-1)`.
pub proof fn lemma_le_value_lower(d: Seq<u8>)
    requires
        is_canonical(d),
    ensures
        le_value(d) >= d.last() as nat * pow10((d.len() - 1) as nat),
        le_value(d) < (d.last() as nat + 1) * pow10((d.len() - 1) as nat),
        le_value(d) >= pow10((d.len() - 1) as nat),
{
    let t = d.drop_last();
    assert(d =~= t.push(d.last()));
    lemma_le_value_push(t, d.last());
    assert(digits_in_range(t)) by {
        assert forall|i: int| 0 <= i < t.len() implies #[trigger] t[i] < 10 by {
            assert(t[i] == d[i]);
        }
    }
    lemma_le_value_upper(t);
    let w = pow10(t.len());
    let x = d.last() as nat;
    assert(x * w >= w) by (nonlinear_arith)
        requires
            x >= 1,
    ;
    assert((x + 1) * w == x * w + w) by (nonlinear_arith);
}

/// The largest factor that `mul_small` takes: ten to the power of 18.
pub const MAX_FACTOR: u64 = 1_000_000_000_000_000_000;

/// Multiplies the number held in `d` by `m`, in place.
pub fn mul_small(d: &mut Vec<u8>, m: u64)
    requires
        is_canonical(old(d)@),
        1 <= m <= MAX_FACTOR,
    ensures
        is_canonical(final(d)@),
        le_value(final(d)@) == le_value(old(d)@) * m,
        final(d)@.len() >= old(d)@.len(),
{
    let ghost orig = d@;
    let n = d.len();
    let mut carry: u64 = 0;
    let mut i: usize = 0;
    proof {
        assert(d@.take(0) =~= Seq::<u8>::empty());
        assert(orig.take(0) =~= Seq::<u8>::empty());
        assert(le_value(Seq::<u8>::empty()) == 0);
        assert(0 * pow10(0) == 0) by (nonlinear_arith);
        assert(m * 0 == 0) by (nonlinear_arith);
    }
    while i < n
        invariant
            0 <= i <= n,
            n == orig.len(),
            d@.len() == n,
            is_canonical(orig),
            1 <= m <= MAX_FACTOR,
            carry < m,
            forall|j: int| i <= j < n ==> d@[j] == orig[j],
            forall|j: int| 0 <= j < i ==> #[trigger] d@[j] < 10,
            le_value(d@.take(i as int)) as int + (carry as int) * (pow10(i as nat) as int) == (
            m as int) * (le_value(orig.take(i as int)) as int),
            i > 0 ==> d@[i - 1] as int + 10 * (carry as int) >= (orig[i - 1] as int) * (m as int),
        decreases n - i,
    {
        let x: u64 = d[i] as u64;
        assert(x < 10) by {
            assert(orig[i as int] < 10);
        }
        assert(x * m <= 9 * m) by (nonlinear_arith)
            requires
                x <= 9,
                m >= 0,
        ;
        let t: u64 = x * m + carry;
        let lo: u8 = (t % 10) as u8;
        let hi: u64 = t / 10;
        let ghost before = d@.take(i as int);
        let ghost w = pow10(i as nat) as int;
        let ghost a = le_value(before) as int;
        let ghost b = le_value(orig.take(i as int)) as int;
        proof {
            lemma_le_value_push(before, lo);
            lemma_le_value_push(orig.take(i as int), orig[i as int]);
            lemma_pow10_step(i as nat);
            assert(orig.take(i + 1) =~= orig.take(i as int).push(orig[i as int]));
            assert(le_value(orig.take(i + 1)) as int == b + (x as int) * w);
            assert(le_value(before.push(lo)) as int == a + (lo as int) * w);
            assert(pow10((i + 1) as nat) as int == 10 * w);
            assert(a + (lo as int) * w + (hi as int) * (10 * w) == (m as int) * (b + (x as int)
                * w)) by (nonlinear_arith)
                requires
                    a + (carry as int) * w == (m as int) * b,
                    (x as int) * (m as int) + (carry as int) == (lo as int) + 10 * (hi as int),
            ;
        }
        d.set(i, lo);
        proof {
            assert(d@.take(i + 1) =~= before.push(lo));
        }
        carry = hi;
        i = i + 1;
    }
    proof {
        assert(d@.take(n as int) =~= d@);
        assert(orig.take(n as int) =~= orig);
        assert(orig[n - 1] >= 1);
        assert((orig[n - 1] as int) * (m as int) >= 1) by (nonlinear_arith)
            requires
                orig[n - 1] >= 1,
                m >= 1,
        ;
        assert(digits_in_range(d@));
    }
    while carry > 0
        invariant
            d@.len() >= n,
            n > 0,
            digits_in_range(d@),
            le_value(d@) as int + (carry as int) * (pow10(d@.len()) as int) == (m as int) * (
            le_value(orig) as int),
            carry > 0 || d@.last() != 0,
        decreases carry,
    {
        let lo: u8 = (carry % 10) as u8;
        let hi: u64 = carry / 10;
        proof {
            lemma_le_value_push(d@, lo);
            lemma_pow10_step(d@.len());
            let w = pow10(d@.len()) as int;
            assert((carry as int) * w == (lo as int) * w + (hi as int) * (10 * w))
                by (nonlinear_arith)
                requires
                    carry as int == (lo as int) + 10 * (hi as int),
            ;
        }
        d.push(lo);
        carry = hi;
    }
    proof {
        assert((carry as int) * (pow10(d@.len()) as int) == 0) by (nonlinear_arith)
            requires
                carry == 0,
        ;
        assert((m as int) * (le_value(orig) as int) == le_value(orig) * m) by (nonlinear_arith);
    }
}

} // verus!
