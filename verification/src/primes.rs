//! The pool of small primes that challenges are built from.

use vstd::prelude::*;
use vstd::arithmetic::div_mod::lemma_fundamental_div_mod;

verus! {

/// How many primes the pool holds.
pub const POOL_SIZE: usize = 64;

/// The pool: the first sixty-four primes, in ascending order.
#[verifier::opaque]
pub open spec fn prime_pool() -> Seq<nat> {
    seq![
        2, 3, 5, 7, 11, 13, 17, 19, 23, 29, 31, 37, 41, 43, 47, 53, 59, 61, 67, 71, 73,
        79, 83, 89, 97, 101, 103, 107, 109, 113, 127, 131, 137, 139, 149, 151, 157, 163,
        167, 173, 179, 181, 191, 193, 197, 199, 211, 223, 227, 229, 233, 239, 241, 251,
        257, 263, 269, 271, 277, 281, 283, 293, 307, 311,
    ]
}

/// A number with exactly two divisors.
pub open spec fn is_prime(n: nat) -> bool {
    &&& n >= 2
    &&& forall|d: nat| 2 <= d < n ==> #[trigger] (n % d) != 0
}

/// No number from 2 to 18 that is less than `n` divides `n`.
pub open spec fn no_divisor_to_18(n: nat) -> bool {
    forall|k: nat| 2 <= k <= 18 && k < n ==> #[trigger] (n % k) != 0
}

/// Below 19 squared, a number without a divisor up to 18 is prime.
pub proof fn lemma_small_prime(n: nat)
    requires
        2 <= n < 361,
        no_divisor_to_18(n),
    ensures
        is_prime(n),
{
    assert forall|d: nat| 2 <= d < n implies #[trigger] (n % d) != 0 by {
        if n % d == 0 {
            let e = n / d;
            lemma_fundamental_div_mod(n as int, d as int);
            assert(n == d * e);
            assert(e >= 2 && e < n) by (nonlinear_arith)
                requires
                    n == d * e,
                    2 <= d < n,
            ;
            if d <= 18 {
                assert(false);
            } else {
                assert(e <= 18) by (nonlinear_arith)
                    requires
                        n == d * e,
                        d >= 19,
                        n < 361,
                ;
                assert(n % e == 0) by (nonlinear_arith)
                    requires
                        n == d * e,
                        e >= 2,
                ;
                assert(false);
            }
        }
    }
}

/// Every member of the pool is prime.
pub proof fn lemma_pool_is_prime()
    ensures
        prime_pool().len() == POOL_SIZE,
        forall|i: int| 0 <= i < POOL_SIZE ==> is_prime(#[trigger] prime_pool()[i]),
{
    lemma_pool_checked();
    lemma_pool_bounds();
    assert forall|i: int| 0 <= i < POOL_SIZE implies is_prime(#[trigger] prime_pool()[i]) by {
        lemma_small_prime(prime_pool()[i]);
    }
}

/// The members of the pool lie between 2 and 311 and ascend strictly.
pub proof fn lemma_pool_bounds()
    ensures
        prime_pool().len() == POOL_SIZE,
        forall|i: int| 0 <= i < POOL_SIZE ==> 2 <= #[trigger] prime_pool()[i] <= 311,
        forall|i: int, j: int|
            0 <= i < j < POOL_SIZE ==> #[trigger] prime_pool()[i] < #[trigger] prime_pool()[j],
{
    assert forall|i: int, j: int| 0 <= i < j < POOL_SIZE implies #[trigger] prime_pool()[i]
        < #[trigger] prime_pool()[j] by {
        lemma_pool_ascends(i, j);
    }
    assert forall|i: int| 0 <= i < POOL_SIZE implies 2 <= #[trigger] prime_pool()[i] <= 311 by {
        lemma_pool_range(i);
    }
    lemma_pool_range(0);
}

/// The pool starts with the prime two.
pub proof fn lemma_pool_first()
    ensures
        prime_pool()[0] == 2,
{
    reveal(prime_pool);
}

/// Each member of the pool lies between 2 and 311.
proof fn lemma_pool_range(i: int)
    requires
        0 <= i < POOL_SIZE,
    ensures
        prime_pool().len() == POOL_SIZE,
        2 <= prime_pool()[i] <= 311,
{
    reveal(prime_pool);
}

/// Each member of the pool is less than the next.
proof fn lemma_pool_adjacent(i: int)
    requires
        0 <= i < POOL_SIZE - 1,
    ensures
        prime_pool()[i] < prime_pool()[i + 1],
{
    reveal(prime_pool);
}

/// A member of the pool is less than every later one.
proof fn lemma_pool_ascends(i: int, j: int)
    requires
        0 <= i < j < POOL_SIZE,
    ensures
        prime_pool()[i] < prime_pool()[j],
    decreases j - i,
{
    lemma_pool_adjacent(j - 1);
    if i < j - 1 {
        lemma_pool_ascends(i, j - 1);
    }
}

/// No member of the pool has a divisor from 2 to 18 other than itself.
proof fn lemma_pool_checked()
    ensures
        forall|i: int| 0 <= i < POOL_SIZE ==> no_divisor_to_18(#[trigger] prime_pool()[i]),
{
    assert forall|i: int| 0 <= i < POOL_SIZE implies no_divisor_to_18(
        #[trigger] prime_pool()[i],
    ) by {
        lemma_member_checked(i);
    }
}

/// The member at index `i` has no divisor from 2 to 18 other than itself.
proof fn lemma_member_checked(i: int)
    requires
        0 <= i < POOL_SIZE,
    ensures
        no_divisor_to_18(prime_pool()[i]),
{
    let n = prime_pool()[i];
    assert forall|k: nat| 2 <= k <= 18 && k < n implies #[trigger] (n % k) != 0 by {
        lemma_member_residue(i, k);
    }
}

/// The member at index `i` leaves a remainder when divided by a lesser `k`
/// from 2 to 18.
proof fn lemma_member_residue(i: int, k: nat)
    requires
        0 <= i < POOL_SIZE,
        2 <= k <= 18,
        k < prime_pool()[i],
    ensures
        prime_pool()[i] % k != 0,
{
    reveal(prime_pool);
    let n = prime_pool()[i];
    if k == 2 {
        assert(n % 2 != 0);
    } else if k == 3 {
        assert(n % 3 != 0);
    } else if k == 4 {
        assert(n % 4 != 0);
    } else if k == 5 {
        assert(n % 5 != 0);
    } else if k == 6 {
        assert(n % 6 != 0);
    } else if k == 7 {
        assert(n % 7 != 0);
    } else if k == 8 {
        assert(n % 8 != 0);
    } else if k == 9 {
        assert(n % 9 != 0);
    } else if k == 10 {
        assert(n % 10 != 0);
    } else if k == 11 {
        assert(n % 11 != 0);
    } else if k == 12 {
        assert(n % 12 != 0);
    } else if k == 13 {
        assert(n % 13 != 0);
    } else if k == 14 {
        assert(n % 14 != 0);
    } else if k == 15 {
        assert(n % 15 != 0);
    } else if k == 16 {
        assert(n % 16 != 0);
    } else if k == 17 {
        assert(n % 17 != 0);
    } else {
        assert(n % 18 != 0);
    }
}

/// The pool's member at index `i`.
pub fn pool_prime(i: usize) -> (p: u32)
    requires
        i < POOL_SIZE,
    ensures
        p == prime_pool()[i as int],
{
    proof {
        reveal(prime_pool);
    }
    let table: [u32; 64] = [
        2, 3, 5, 7, 11, 13, 17, 19, 23, 29, 31, 37, 41, 43, 47, 53, 59, 61, 67, 71, 73,
        79, 83, 89, 97, 101, 103, 107, 109, 113, 127, 131, 137, 139, 149, 151, 157, 163,
        167, 173, 179, 181, 191, 193, 197, 199, 211, 223, 227, 229, 233, 239, 241, 251,
        257, 263, 269, 271, 277, 281, 283, 293, 307, 311,
    ];
    table[i]
}

} // verus!
