//! Fermat's little theorem, through the binomial theorem: `a^(p-1) = 1 mod p` for a prime `p`
//! that does not divide `a`.
use vstd::arithmetic::div_mod::*;
use vstd::arithmetic::mul::*;
use vstd::arithmetic::power::*;
use vstd::prelude::*;

use crate::arith::is_prime;
use crate::poly_mul_laws::{
    lemma_range_sum_add, lemma_range_sum_congruent, lemma_range_sum_ext, lemma_range_sum_front,
    lemma_range_sum_scale, lemma_range_sum_shift, lemma_range_sum_zero, range_sum,
};
use crate::primes::lemma_euclid;

verus! {

/// The binomial coefficient `n choose k`, by Pascal's rule; zero outside `0 <= k <= n`.
pub open spec fn binom(n: nat, k: int) -> int
    decreases n,
{
    if k == 0 {
        1
    } else if k < 0 || n == 0 {
        0
    } else {
        binom((n - 1) as nat, k - 1) + binom((n - 1) as nat, k)
    }
}

/// Binomial coefficients are non-negative and vanish above `n`.
pub proof fn lemma_binom_basics(n: nat, k: int)
    ensures
        binom(n, k) >= 0,
        k > n ==> binom(n, k) == 0,
        binom(n, n as int) == 1,
    decreases n,
{
    if n > 0 {
        lemma_binom_basics((n - 1) as nat, k - 1);
        lemma_binom_basics((n - 1) as nat, k);
        lemma_binom_basics((n - 1) as nat, n as int);
        lemma_binom_basics((n - 1) as nat, (n - 1) as int);
    }
}

/// The terms of the expansion of `(x + 1)^n`.
pub open spec fn binom_terms(n: nat, x: int) -> spec_fn(int) -> int {
    |k: int| binom(n, k) * pow(x, k as nat)
}

/// The binomial theorem: `(x + 1)^n = sum_k (n choose k) x^k`.
pub proof fn lemma_binomial(x: int, n: nat)
    ensures
        pow(x + 1, n) == range_sum(binom_terms(n, x), 0, n + 1int),
    decreases n,
{
    reveal(pow);
    if n == 0 {
        assert(range_sum(binom_terms(0, x), 0, 0) == 0);
        assert(range_sum(binom_terms(0, x), 0, 1) == binom_terms(0, x)(0));
    } else {
        let m = (n - 1) as nat;
        lemma_binomial(x, m);
        let s = binom_terms(m, x);
        // x * S_m shifted up by one place
        let up = |k: int| binom(m, k - 1) * pow(x, k as nat);
        lemma_range_sum_scale(s, x, 0, n as int);
        lemma_range_sum_shift(up, 1, 1, n + 1int);
        let xs = |k: int| x * s(k);
        let ups = |j: int| up(j + 1);
        assert forall|k: int| 0 <= k < n implies #[trigger] xs(k) == ups(k) by {
            let b = binom(m, k);
            assert(pow(x, (k + 1) as nat) == x * pow(x, k as nat));
            assert(x * (b * pow(x, k as nat)) == b * (x * pow(x, k as nat))) by (nonlinear_arith);
        }
        lemma_range_sum_ext(xs, ups, 0, n as int);
        lemma_range_sum_front(up, 0, n + 1int);
        assert(up(0) == 0);
        // S_m extended by one vanishing term
        assert(range_sum(s, 0, n + 1int) == range_sum(s, 0, n as int) + s(n as int));
        lemma_binom_basics(m, n as int);
        assert(binom(m, n as int) == 0);
        assert(s(n as int) == 0 * pow(x, n));
        // Pascal's rule term by term
        lemma_range_sum_add(up, s, 0, n + 1int);
        let t = binom_terms(n, x);
        let sum = |k: int| up(k) + s(k);
        assert forall|k: int| 0 <= k < n + 1 implies #[trigger] sum(k) == t(k) by {
            if k == 0 {
                assert(binom(n, 0) == 1);
                assert(binom(m, -1) == 0);
                assert(binom(m, 0) == 1);
            } else {
                assert(binom(n, k) == binom(m, k - 1) + binom(m, k));
                let p = pow(x, k as nat);
                assert(binom(m, k - 1) * p + binom(m, k) * p == (binom(m, k - 1) + binom(m, k))
                    * p) by (nonlinear_arith);
            }
        }
        lemma_range_sum_ext(sum, t, 0, n + 1int);
        assert(pow(x + 1, n) == (x + 1) * pow(x + 1, m));
        assert((x + 1) * pow(x + 1, m) == x * pow(x + 1, m) + pow(x + 1, m)) by (nonlinear_arith);
    }
}

/// `n choose 1 = n`.
pub proof fn lemma_binom_one(n: nat)
    ensures
        binom(n, 1) == n,
    decreases n,
{
    if n > 0 {
        let m = (n - 1) as nat;
        lemma_binom_one(m);
        assert(binom(m, 0) == 1);
        assert(binom(n, 1) == binom(m, 0) + binom(m, 1));
    }
}

/// The absorption identity `k (n choose k) = n (n - 1 choose k - 1)`.
pub proof fn lemma_binom_absorption(n: nat, k: int)
    requires
        n >= 1,
        k >= 1,
    ensures
        k * binom(n, k) == n * binom((n - 1) as nat, k - 1),
    decreases n,
{
    if k == 1 {
        lemma_binom_one(n);
    } else if n == 1 {
        lemma_binom_basics(1, k);
        lemma_binom_basics(0, k - 1);
        assert(binom(1, k) == 0);
        assert(binom(0, k - 1) == 0);
        assert(k * 0 == 0 && 1 * 0 == 0);
    } else {
        let m = (n - 1) as nat;
        lemma_binom_absorption(m, k - 1);
        lemma_binom_absorption(m, k);
        let (a, b) = (binom(m, k - 1), binom(m, k));
        let (c, d) = (binom((m - 1) as nat, k - 2), binom((m - 1) as nat, k - 1));
        assert(binom(n, k) == a + b);
        assert(a == c + d);
        assert((k - 1) * a == m * c);
        assert(k * b == m * d);
        assert(k * (a + b) == n * a) by (nonlinear_arith)
            requires
                (k - 1) * a == m * c,
                k * b == m * d,
                a == c + d,
                n == m + 1,
        ;
    }
}

/// A prime divides the binomial coefficients strictly between the ends.
pub proof fn lemma_prime_divides_binom(p: int, k: int)
    requires
        is_prime(p),
        0 < k < p,
    ensures
        binom(p as nat, k) % p == 0,
{
    lemma_binom_absorption(p as nat, k);
    lemma_binom_basics(p as nat, k);
    lemma_binom_basics((p - 1) as nat, k - 1);
    let b = binom((p - 1) as nat, k - 1);
    lemma_mod_multiples_basic(b, p);
    lemma_mul_is_commutative(b, p);
    lemma_euclid(p, k, binom(p as nat, k));
    lemma_small_mod(k as nat, p as nat);
}

/// `(x + 1)^p = x^p + 1 mod p` for a prime `p`.
pub proof fn lemma_freshman(x: int, p: int)
    requires
        is_prime(p),
    ensures
        pow(x + 1, p as nat) % p == (pow(x, p as nat) + 1) % p,
{
    reveal(pow);
    let n = p as nat;
    lemma_binomial(x, n);
    let t = binom_terms(n, x);
    lemma_range_sum_front(t, 0, p + 1);
    assert(range_sum(t, 1, p + 1) == range_sum(t, 1, p) + t(p));
    lemma_binom_basics(n, p);
    lemma_binom_basics(n, n as int);
    assert(binom(n, p) == 1);
    assert(t(0) == 1);
    assert(t(p) == 1 * pow(x, n));
    assert(t(p) == pow(x, n));
    let z = |k: int| 0int;
    assert forall|k: int| 1 <= k < p implies #[trigger] t(k) % p == (z(k) + z(k)) % p by {
        lemma_prime_divides_binom(p, k);
        lemma_mul_mod_noop_left(binom(n, k), pow(x, k as nat), p);
        assert(0 * pow(x, k as nat) == 0);
        lemma_small_mod(0, p as nat);
    }
    lemma_range_sum_congruent(t, z, z, 1, p, p);
    lemma_range_sum_zero(z, 1, p);
    lemma_small_mod(0, p as nat);
    let mid = range_sum(t, 1, p);
    assert(mid % p == 0);
    assert(pow(x + 1, n) == 1 + mid + pow(x, n));
    lemma_add_mod_noop(mid, 1 + pow(x, n), p);
    lemma_mod_twice(1 + pow(x, n), p);
}

/// `a^p = a mod p` for a prime `p` and `a >= 0`.
pub proof fn lemma_fermat_weak(a: nat, p: int)
    requires
        is_prime(p),
    ensures
        pow(a as int, p as nat) % p == (a as int) % p,
    decreases a,
{
    if a == 0 {
        reveal(pow);
        assert(pow(0, p as nat) == 0 * pow(0, (p - 1) as nat));
    } else {
        let b = (a - 1) as nat;
        lemma_fermat_weak(b, p);
        lemma_freshman(b as int, p);
        lemma_add_mod_noop(pow(b as int, p as nat), 1, p);
        lemma_add_mod_noop(b as int, 1, p);
    }
}

/// Fermat's little theorem: `a^(p-1) = 1 mod p` for a prime `p` that does not divide `a >= 0`.
pub proof fn lemma_fermat(a: int, p: int)
    requires
        is_prime(p),
        a >= 0,
        a % p != 0,
    ensures
        pow(a, (p - 1) as nat) % p == 1,
{
    reveal(pow);
    lemma_fermat_weak(a as nat, p);
    let e = pow(a, (p - 1) as nat);
    assert(pow(a, p as nat) == a * e);
    if a == 0 {
        lemma_small_mod(0, p as nat);
    }
    assert(a > 0);
    lemma_pow_positive(a, (p - 1) as nat);
    // p divides a * (e - 1)
    lemma_sub_mod_noop(a * e, a, p);
    lemma_small_mod(0, p as nat);
    assert(a * e - a == a * (e - 1)) by (nonlinear_arith);
    lemma_mod_self_0(p);
    assert((a * (e - 1)) % p == 0) by {
        lemma_mod_twice(a, p);
        assert(((a * e) % p - a % p) % p == 0) by {
            lemma_mod_self_0(p);
        }
    }
    lemma_euclid(p, a, e - 1);
    lemma_fundamental_div_mod(e - 1, p);
    lemma_mod_multiples_vanish((e - 1) / p, 1, p);
    lemma_small_mod(1, p as nat);
}

} // verus!
