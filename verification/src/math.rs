//! Primes, as far as the double-hashing step needs them.

use vstd::prelude::*;

verus! {

/// `n` is at least 2 and no number strictly between 1 and `n` divides it.
pub open spec fn is_prime_spec(n: int) -> bool {
    n >= 2 && forall|d: int| 2 <= d < n ==> #[trigger] (n % d) != 0
}

/// `p` is the largest prime that does not exceed `n`.
pub open spec fn is_largest_prime_up_to(p: int, n: int) -> bool {
    &&& is_prime_spec(p)
    &&& p <= n
    &&& forall|q: int| p < q <= n ==> !is_prime_spec(q)
}

/// The largest prime that does not exceed `n`, or 1 where there is none.
pub open spec fn largest_prime_up_to_spec(n: int) -> int
    decreases n,
{
    if n < 2 {
        1
    } else if is_prime_spec(n) {
        n
    } else {
        largest_prime_up_to_spec(n - 1)
    }
}

/// From 2 on, `largest_prime_up_to_spec` is the largest prime that does not
/// exceed its argument.
pub proof fn lemma_largest_prime_up_to(n: int)
    requires
        n >= 2,
    ensures
        is_largest_prime_up_to(largest_prime_up_to_spec(n), n),
    decreases n,
{
    if !is_prime_spec(n) {
        lemma_largest_prime_up_to(n - 1);
    }
}

/// A divisor `k` of `n` with `d <= k < n` and `d * d > n` has a cofactor in `2..d`.
proof fn lemma_cofactor(n: int, d: int, k: int)
    requires
        2 <= d <= k < n,
        d * d > n,
        n % k == 0,
    ensures
        2 <= n / k < d,
        n % (n / k) == 0,
{
    let j = n / k;
    vstd::arithmetic::div_mod::lemma_fundamental_div_mod(n, k);
    assert(j >= 2 && j < d) by (nonlinear_arith)
        requires
            n == k * j,
            2 <= d <= k < n,
            d * d > n,
    ;
    assert(n == j * k) by (nonlinear_arith)
        requires
            n == k * j,
    ;
    vstd::arithmetic::div_mod::lemma_fundamental_div_mod_converse(n, j, k, 0);
}

/// Whether `n` is prime, by trial division up to its square root.
pub fn is_prime(n: usize) -> (prime: bool)
    ensures
        prime == is_prime_spec(n as int),
{
    if n < 2 {
        return false;
    }
    let mut d: usize = 2;
    while d <= n / d
        invariant
            2 <= d <= n,
            forall|k: int| 2 <= k < d ==> #[trigger] (n as int % k) != 0,
        decreases n - d,
    {
        assert(d < n) by (nonlinear_arith)
            requires
                2 <= d <= n / d,
        ;
        if n % d == 0 {
            return false;
        }
        d = d + 1;
    }
    proof {
        assert(d * d > n) by (nonlinear_arith)
            requires
                d >= 2,
                d > n / d,
        ;
        assert forall|k: int| 2 <= k < n implies #[trigger] (n as int % k) != 0 by {
            if k >= d && n as int % k == 0 {
                lemma_cofactor(n as int, d as int, k);
            }
        }
    }
    true
}

/// The largest prime that does not exceed `n`, searching downwards from `n`;
/// 1 where `n` is below 2.
pub fn largest_prime_up_to(n: usize) -> (p: usize)
    ensures
        p == largest_prime_up_to_spec(n as int),
        n >= 2 ==> is_largest_prime_up_to(p as int, n as int),
        n < 2 ==> p == 1,
{
    let mut i: usize = n;
    while i >= 2
        invariant
            i <= n,
            largest_prime_up_to_spec(i as int) == largest_prime_up_to_spec(n as int),
        decreases i,
    {
        if is_prime(i) {
            proof {
                lemma_largest_prime_up_to(n as int);
            }
            return i;
        }
        i = i - 1;
    }
    proof {
        if n >= 2 {
            lemma_largest_prime_up_to(n as int);
        }
    }
    1
}

} // verus!
