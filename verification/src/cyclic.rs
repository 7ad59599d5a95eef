//! The multiplicative group of `F_q` is cyclic: modulo a prime some residue passes the
//! generator test, built prime by prime from elements of prime-power order.
use vstd::arithmetic::div_mod::*;
use vstd::arithmetic::mul::*;
use vstd::arithmetic::power::*;
use vstd::prelude::*;

use crate::arith::{is_prime, lemma_coprime_invertible, lemma_prime_coprime, pow_mod};
use crate::fermat::lemma_fermat;
use crate::nonresidue::lemma_power_not_all_one;
use crate::primes::{lemma_euclid, lemma_prime_divisor};
use crate::roots::{first_generator, generator_condition, lemma_unit_power_power};

verus! {

/// The part of `n > 0` prime to `r`: `n` with every factor `r` divided out.
pub open spec fn strip(n: nat, r: nat) -> nat
    decreases n,
{
    if r >= 2 && n > 0 && n % r == 0 {
        proof {
            lemma_div_decreases(n as int, r as int);
        }
        strip(n / r, r)
    } else {
        n
    }
}

/// The largest power of `r` dividing `n > 0`.
pub open spec fn rpow(n: nat, r: nat) -> nat
    decreases n,
{
    if r >= 2 && n > 0 && n % r == 0 {
        proof {
            lemma_div_decreases(n as int, r as int);
        }
        r * rpow(n / r, r)
    } else {
        1
    }
}

/// Two different primes do not divide each other.
proof fn lemma_distinct_primes(p: int, r: int)
    requires
        is_prime(p),
        is_prime(r),
        p != r,
    ensures
        r % p != 0,
{
    if p < r {
        assert(r % p != 0);
    } else {
        lemma_small_mod(r as nat, p as nat);
    }
}

/// `n = strip(n, r) * rpow(n, r)`, where the first factor is prime to `r`, the second is a
/// power of `r`, and every other prime dividing `n` divides the first.
proof fn lemma_strip(n: nat, r: nat)
    requires
        is_prime(r as int),
        n >= 1,
    ensures
        strip(n, r) >= 1,
        rpow(n, r) >= 1,
        strip(n, r) * rpow(n, r) == n,
        strip(n, r) % r != 0,
        n % r == 0 ==> rpow(n, r) % r == 0,
        forall|p: int|
            is_prime(p) && p != r ==> #[trigger] ((rpow(n, r) as int) % p) != 0,
        forall|p: int|
            is_prime(p) && p != r && (n as int) % p == 0 ==> #[trigger] ((strip(n, r) as int) % p)
                == 0,
    decreases n,
{
    if n % r == 0 {
        lemma_fundamental_div_mod(n as int, r as int);
        let m = n / r;
        assert(m >= 1) by (nonlinear_arith)
            requires
                n == r * m,
                n >= 1,
                r >= 2,
        ;
        lemma_div_decreases(n as int, r as int);
        lemma_strip(m, r);
        let (s, t) = (strip(m, r), rpow(m, r));
        assert(s * (r * t) == r * (s * t)) by (nonlinear_arith);
        assert(r * t >= 1) by (nonlinear_arith)
            requires
                r >= 2,
                t >= 1,
        ;
        lemma_mod_multiples_basic(t as int, r as int);
        lemma_mul_is_commutative(t as int, r as int);
        assert forall|p: int| is_prime(p) && p != r implies #[trigger] ((rpow(n, r) as int) % p)
            != 0 by {
            lemma_distinct_primes(p, r as int);
            if (r * t) as int % p == 0 {
                lemma_euclid(p, r as int, t as int);
            }
        }
        assert forall|p: int| is_prime(p) && p != r && (n as int) % p == 0 implies #[trigger] ((
        strip(n, r) as int) % p) == 0 by {
            lemma_distinct_primes(p, r as int);
            lemma_euclid(p, r as int, m as int);
        }
    } else {
        assert forall|p: int| is_prime(p) && p != r implies #[trigger] ((rpow(n, r) as int) % p)
            != 0 by {
            lemma_small_mod(1, p as nat);
        }
    }
}

/// An element `u != 1` with `u^p = 1` for a prime `p` has no power `u^m = 1` with `p` not
/// dividing `m`.
proof fn lemma_prime_order_power(u: int, p: int, m: nat, q: int)
    requires
        is_prime(q),
        is_prime(p),
        pow(u, p as nat) % q == 1,
        u % q != 1,
        (m as int) % p != 0,
    ensures
        pow(u, m) % q != 1,
{
    let mr = (m as int) % p;
    lemma_prime_coprime(p as nat, mr as nat);
    lemma_coprime_invertible(mr as nat, p as nat);
    let y = choose|y: int| #[trigger] ((mr * y) % p) == 1int % p;
    let yy = y % p;
    lemma_small_mod(1, p as nat);
    lemma_mul_mod_noop_right(mr, y, p);
    lemma_mul_mod_noop_left(m as int, yy, p);
    let e = (m as int) * yy;
    assert(e >= 0) by (nonlinear_arith)
        requires
            yy >= 0,
            m >= 0,
            e == (m as int) * yy,
    ;
    assert(e % p == 1);
    lemma_fundamental_div_mod(e, p);
    let k = e / p;
    assert(k >= 0) by {
        lemma_div_pos_is_pos(e, p);
    }
    // u^e = (u^p)^k * u = u (mod q)
    assert(e == p * k + 1);
    lemma_pow_adds(u, (p * k) as nat, 1);
    lemma_pow_multiplies(u, p as nat, k as nat);
    lemma_pow1(u);
    lemma_unit_power_power(u, p as nat, k as nat, q);
    lemma_mul_mod_noop_left(pow(u, (p * k) as nat), u, q);
    assert(pow(u, e as nat) % q == u % q) by {
        assert(pow(u, e as nat) == pow(u, (p * k) as nat) * u);
        lemma_mul_mod_noop_right(1, u, q);
    }
    if pow(u, m) % q == 1 {
        lemma_unit_power_power(u, m, yy as nat, q);
        assert((m * (yy as nat)) as int == e);
    }
}

/// The residue of a product raised to `k` is the product of the powers, reduced.
proof fn lemma_pow_of_product(a: int, b: int, k: nat, q: int)
    requires
        q > 1,
    ensures
        pow((a * b) % q, k) % q == ((pow(a, k) % q) * (pow(b, k) % q)) % q,
{
    lemma_pow_mod_noop(a * b, k, q);
    lemma_pow_distributes(a, b, k);
    lemma_mul_mod_noop(pow(a, k), pow(b, k), q);
}

/// Some residue modulo the prime `q` passes the generator test for every prime below `d`
/// that divides `q - 1`, and has `(q - 1)`-th power one.
proof fn lemma_partial_generator(q: int, d: int) -> (g: int)
    requires
        is_prime(q),
        q >= 3,
    ensures
        0 <= g < q,
        pow(g, (q - 1) as nat) % q == 1,
        forall|p: int|
            is_prime(p) && p < d && #[trigger] ((q - 1) % p) == 0 ==> pow(g, ((q - 1) / p) as nat)
                % q != 1,
    decreases d,
{
    let n = q - 1;
    if d <= 2 {
        lemma1_pow(n as nat);
        lemma_small_mod(1, q as nat);
        1
    } else {
        let g0 = lemma_partial_generator(q, d - 1);
        let r = d - 1;
        if !(is_prime(r) && n % r == 0) {
            g0
        } else {
            // an element with `x^(n/r) != 1`, and the split `n = s * t` at `r`
            lemma_fundamental_div_mod(n, r);
            let h = n / r;
            assert(1 <= h < n) by (nonlinear_arith)
                requires
                    n == r * h,
                    n >= 2,
                    r >= 2,
            ;
            let x = lemma_power_not_all_one(q, h as nat);
            lemma_strip(n as nat, r as nat);
            let s = strip(n as nat, r as nat) as int;
            let t = rpow(n as nat, r as nat) as int;
            // y = x^s has y^(n/r) != 1 and y^(n/p) = 1 for the other primes
            let y = pow(x, s as nat) % q;
            // g1 = g0^t has g1^(n/r) = 1 and keeps g1^(n/p) != 1
            let g1 = pow(g0, t as nat) % q;
            let g = (g1 * y) % q;
            lemma_mod_bound(g1 * y, q);
            lemma_small_mod(1, q as nat);
            lemma_small_mod(x as nat, q as nat);
            lemma_fermat(x, q);
            // powers of x
            assert forall|e: nat| #[trigger] (pow(y, e) % q) == pow(x, (s * e) as nat) % q by {
                lemma_pow_mod_noop(pow(x, s as nat), e, q);
                lemma_pow_multiplies(x, s as nat, e);
            }
            assert forall|e: nat| #[trigger] (pow(g1, e) % q) == pow(g0, (t * e) as nat) % q by {
                lemma_pow_mod_noop(pow(g0, t as nat), e, q);
                lemma_pow_multiplies(g0, t as nat, e);
            }
            // g^n = 1
            assert(pow(y, n as nat) % q == 1) by {
                assert(s * n == n * s) by (nonlinear_arith);
                lemma_unit_power_power(x, n as nat, s as nat, q);
            }
            assert(pow(g1, n as nat) % q == 1) by {
                assert(t * n == n * t) by (nonlinear_arith);
                lemma_unit_power_power(g0, n as nat, t as nat, q);
            }
            lemma_pow_of_product(g1, y, n as nat, q);
            // the new prime `r`
            assert(pow(g1, h as nat) % q == 1) by {
                // t h = n (t / r)
                lemma_fundamental_div_mod(t, r);
                let t1 = t / r;
                assert(t * h == n * t1) by (nonlinear_arith)
                    requires
                        t == r * t1,
                        n == r * h,
                        n == s * t,
                        t >= 1,
                        t1 >= 0,
                ;
                assert(t1 >= 0) by {
                    lemma_div_pos_is_pos(t, r);
                }
                lemma_unit_power_power(g0, n as nat, t1 as nat, q);
            }
            assert(pow(y, h as nat) % q != 1) by {
                let u = pow(x, h as nat);
                assert(pow(u, r as nat) % q == 1) by {
                    lemma_pow_multiplies(x, h as nat, r as nat);
                    assert(h * r == n) by (nonlinear_arith)
                        requires
                            n == r * h,
                    ;
                }
                lemma_pow_mod_noop(u, r as nat, q);
                lemma_prime_order_power(u, r, s as nat, q);
                lemma_pow_multiplies(x, h as nat, s as nat);
                assert(s * h == h * s) by (nonlinear_arith);
            }
            lemma_pow_of_product(g1, y, h as nat, q);
            lemma_mod_bound(pow(y, h as nat), q);
            assert((1 * (pow(y, h as nat) % q)) % q == pow(y, h as nat) % q) by {
                lemma_mod_twice(pow(y, h as nat), q);
            }
            // the primes below r
            assert forall|p: int|
                is_prime(p) && p < d && #[trigger] ((q - 1) % p) == 0 implies pow(
                g,
                ((q - 1) / p) as nat,
            ) % q != 1 by {
                if p != r {
                    assert(p < d - 1);
                    lemma_fundamental_div_mod(n, p);
                    let hp = n / p;
                    assert(hp >= 0) by {
                        lemma_div_pos_is_pos(n, p);
                    }
                    // s = p s1, so n / p = s1 t and s hp = n s1
                    assert((s as int) % p == 0);
                    lemma_fundamental_div_mod(s, p);
                    let s1 = s / p;
                    assert(s1 >= 0) by {
                        lemma_div_pos_is_pos(s, p);
                    }
                    assert(hp == s1 * t) by (nonlinear_arith)
                        requires
                            n == p * hp,
                            n == s * t,
                            s == p * s1,
                            p >= 2,
                    ;
                    assert(s * hp == n * s1) by (nonlinear_arith)
                        requires
                            hp == s1 * t,
                            n == s * t,
                    ;
                    assert(pow(y, hp as nat) % q == 1) by {
                        lemma_unit_power_power(x, n as nat, s1 as nat, q);
                    }
                    // g1^(n/p) = (g0^(n/p))^t != 1
                    assert(pow(g1, hp as nat) % q != 1) by {
                        let u = pow(g0, hp as nat);
                        assert(pow(u, p as nat) % q == 1) by {
                            lemma_pow_multiplies(g0, hp as nat, p as nat);
                            assert(hp * p == n) by (nonlinear_arith)
                                requires
                                    n == p * hp,
                            ;
                        }
                        assert(u % q != 1);
                        lemma_prime_order_power(u, p, t as nat, q);
                        lemma_pow_multiplies(g0, hp as nat, t as nat);
                        assert(t * hp == hp * t) by (nonlinear_arith);
                    }
                    lemma_pow_of_product(g1, y, hp as nat, q);
                    lemma_mod_bound(pow(g1, hp as nat), q);
                    assert(((pow(g1, hp as nat) % q) * 1) % q == pow(g1, hp as nat) % q) by {
                        lemma_mod_twice(pow(g1, hp as nat), q);
                    }
                }
            }
            g
        }
    }
}

/// The first residue from `i` that passes the generator test is no larger than one that does.
proof fn lemma_first_generator_at_most(i: int, g: int, q: int)
    requires
        i <= g < q,
        generator_condition(g, q),
    ensures
        first_generator(i, q) <= g,
    decreases g - i,
{
    if i < g && !generator_condition(i, q) {
        lemma_first_generator_at_most(i + 1, g, q);
    }
}

/// Modulo a prime `q >= 3` some residue passes the generator test, so the search of
/// `generator` succeeds: the multiplicative group of `F_q` is cyclic.
pub proof fn law_generator_exists(q: int)
    requires
        is_prime(q),
        q >= 3,
    ensures
        first_generator(2, q) < q,
{
    let n = q - 1;
    let g = lemma_partial_generator(q, q);
    assert(generator_condition(g, q)) by {
        assert forall|p: int| is_prime(p) && #[trigger] ((q - 1) % p) == 0 implies pow_mod(
            g,
            ((q - 1) / p) as nat,
            q,
        ) != 1 by {
            assert(p <= n) by {
                if p > n {
                    lemma_small_mod(n as nat, p as nat);
                }
            }
            lemma_fundamental_div_mod(n, p);
            assert((q - 1) / p >= 1) by (nonlinear_arith)
                requires
                    n == p * ((q - 1) / p),
                    n >= 2,
                    p >= 2,
                    (q - 1) == n,
            ;
        }
    }
    // g is neither 0 nor 1: a prime p divides n, and 0^n = 0, 1^(n/p) = 1
    let p = lemma_prime_divisor(n);
    if g == 0 {
        lemma0_pow(n as nat);
        lemma_small_mod(0, q as nat);
    }
    if g == 1 {
        lemma1_pow(((q - 1) / p) as nat);
        lemma_small_mod(1, q as nat);
    }
    lemma_first_generator_at_most(2, g, q);
}

} // verus!
