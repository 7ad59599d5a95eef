//! Generators of the multiplicative group of `F_Q` and the roots of unity derived from them.
use vstd::arithmetic::div_mod::*;
use vstd::arithmetic::mul::*;
use vstd::arithmetic::power::*;
use vstd::arithmetic::power2::*;
use vstd::bits::lemma_u64_shr_is_div;
use vstd::prelude::*;

use crate::arith::{ilog2, is_pow2, is_prime, pow_mod};
use crate::cyclic::law_generator_exists;
use crate::fermat::lemma_fermat;
use crate::ntt::{
    const_pow_mod, first_root_candidate, lemma_candidate_exists, lemma_first_candidate, nth_root,
    ntt_friendly, root_candidate_ok, two_nth_root,
};
use crate::primes::{
    first_zero, is_factor_list, lemma_euclid, lemma_prime_divisor, lemma_factor_divides_product, lemma_prime_in_factor_list,
    prime_factors,
};

verus! {

/// The exponent of the largest power of two dividing `n > 0`.
pub open spec fn two_adicity(n: nat) -> nat
    decreases n,
{
    if n > 0 && n % 2 == 0 {
        1 + two_adicity(n / 2)
    } else {
        0
    }
}

/// The test that a generator of the multiplicative group modulo `q` passes: no power
/// `g^((q - 1) / p)` with `p` a prime divisor of `q - 1` is one.
pub open spec fn generator_condition(g: int, q: int) -> bool {
    forall|p: int|
        is_prime(p) && #[trigger] ((q - 1) % p) == 0 ==> pow_mod(g, ((q - 1) / p) as nat, q)
            != 1
}

/// The first `g` at least `i` that passes the generator test (or `q` when none below `q` does).
pub open spec fn first_generator(i: int, q: int) -> int
    decreases q - i,
{
    if i >= q {
        q
    } else if generator_condition(i, q) {
        i
    } else {
        first_generator(i + 1, q)
    }
}

/// `x` is a primitive `n`-th root of unity modulo `q`, with `x^(n/2) = -1`.
pub open spec fn primitive_root_condition(x: int, n: nat, q: int) -> bool {
    &&& pow_mod(x, n / 2, q) == q - 1
    &&& pow_mod(x, n, q) == 1
    &&& forall|i: nat| 1 <= i < n ==> #[trigger] pow_mod(x, i, q) != 1
}

/// The exponent of the largest power of two dividing `n`.
pub fn largest_power_of_two_dividing(n: u64) -> (k: u32)
    requires
        n != 0,
    ensures
        k == two_adicity(n as nat),
        k < 64,
{
    let ghost n0 = n as nat;
    let mut n = n;
    let mut k: u32 = 0;
    proof {
        lemma2_to64();
    }
    while n % 2 == 0
        invariant
            n > 0,
            k + two_adicity(n as nat) == two_adicity(n0),
            pow2(k as nat) * n == n0,
            n0 < pow2(64),
        decreases n,
    {
        proof {
            lemma_pow2_unfold((k + 1) as nat);
            lemma_pow2_pos(k as nat);
            lemma_fundamental_div_mod(n as int, 2);
            if k + 1 >= 64 {
                if k + 1 > 64 {
                    lemma_pow2_strictly_increases(64, (k + 1) as nat);
                }
                assert(pow2(k as nat) * n >= pow2(k as nat) * 2) by (nonlinear_arith)
                    requires
                        n >= 2,
                        pow2(k as nat) > 0,
                ;
            }
        }
        proof {
            assert(pow2((k + 1) as nat) * (n as int / 2) == pow2(k as nat) * n) by (nonlinear_arith)
                requires
                    pow2((k + 1) as nat) == 2 * pow2(k as nat),
                    n as int == 2 * (n as int / 2) + n as int % 2,
                    n as int % 2 == 0,
            ;
        }
        n = n / 2;
        k = k + 1;
    }
    proof {
        lemma_pow2_pos(k as nat);
        assert(pow2(k as nat) <= pow2(k as nat) * n) by (nonlinear_arith)
            requires
                n >= 1,
                pow2(k as nat) > 0,
        ;
        if k > 64 {
            lemma_pow2_strictly_increases(64, k as nat);
        }
    }
    k
}

/// Whether `x` is a primitive `n`-th root of unity modulo `Q` whose `n/2`-th power is `-1`,
/// for `n` a power of two.
pub fn is_primitive_root_of_unity<const Q: u64>(x: u64, n: u64) -> (r: bool)
    requires
        Q > 0,
        is_pow2(n as nat),
    ensures
        r == primitive_root_condition(x as int, n as nat, Q as int),
{
    if (const_pow_mod::<Q>(x, n / 2) != Q - 1) || (const_pow_mod::<Q>(x, n) != 1) {
        return false;
    }
    let mut i: u64 = 1;
    while i < n
        invariant
            Q > 0,
            1 <= i,
            i <= n || n == 0,
            forall|j: nat| 1 <= j < i ==> #[trigger] pow_mod(x as int, j, Q as int) != 1,
        decreases n - i,
    {
        if const_pow_mod::<Q>(x, i) == 1 {
            return false;
        }
        i += 1;
    }
    true
}

/// Whether `g` passes the generator test against the prime factors listed in `factors`
/// before their first zero entry.
pub fn is_generator<const Q: u64>(g: u64, factors: &[u64; 64]) -> (r: bool)
    requires
        Q >= 1,
    ensures
        r == forall|i: int|
            0 <= i < first_zero(factors@, 0) ==> pow_mod(
                g as int,
                ((Q - 1) as int / #[trigger] factors@[i] as int) as nat,
                Q as int,
            ) != 1,
{
    let order = Q - 1;
    let mut i: usize = 0;
    while i < 64
        invariant_except_break
            0 <= i <= 64,
            factors@.len() == 64,
            Q >= 1,
            order == Q - 1,
            first_zero(factors@, 0) == first_zero(factors@, i as int),
            forall|j: int|
                0 <= j < i ==> pow_mod(
                    g as int,
                    ((Q - 1) as int / #[trigger] factors@[j] as int) as nat,
                    Q as int,
                ) != 1,
        ensures
            forall|j: int|
                0 <= j < first_zero(factors@, 0) ==> pow_mod(
                    g as int,
                    ((Q - 1) as int / #[trigger] factors@[j] as int) as nat,
                    Q as int,
                ) != 1,
        decreases 64 - i,
    {
        let p = factors[i];
        if p == 0 {
            break;
        }
        if const_pow_mod::<Q>(g, order / p) == 1 {
            proof {
                lemma_first_zero_after(factors@, 0, i as int);
            }
            return false;
        }
        i += 1;
    }
    true
}

/// `first_zero` from `0` is at least every index whose entries up to it are non-zero.
proof fn lemma_first_zero_after(s: Seq<u64>, start: int, i: int)
    requires
        0 <= start <= i < s.len(),
        first_zero(s, start) == first_zero(s, i),
        s[i] != 0,
    ensures
        i < first_zero(s, start),
{
    assert(first_zero(s, i) == first_zero(s, i + 1));
    lemma_first_zero_ge(s, i + 1);
}

/// `first_zero` from `i` is at least `i`.
proof fn lemma_first_zero_ge(s: Seq<u64>, i: int)
    requires
        0 <= i <= s.len(),
    ensures
        i <= first_zero(s, i) <= s.len(),
    decreases s.len() - i,
{
    if i < s.len() && s[i] != 0 {
        lemma_first_zero_ge(s, i + 1);
    }
}

/// The list of prime factors of `q - 1` decides the generator test.
proof fn lemma_generator_list(g: int, q: int, f: Seq<u64>)
    requires
        q >= 3,
        is_factor_list(f, first_zero(f, 0), q - 1),
    ensures
        generator_condition(g, q) == forall|i: int|
            0 <= i < first_zero(f, 0) ==> pow_mod(
                g,
                ((q - 1) / #[trigger] f[i] as int) as nat,
                q,
            ) != 1,
{
    let k = first_zero(f, 0);
    if generator_condition(g, q) {
        assert forall|i: int| 0 <= i < k implies pow_mod(
            g,
            ((q - 1) / #[trigger] f[i] as int) as nat,
            q,
        ) != 1 by {
            lemma_factor_divides_product(f, k, i);
            assert(is_prime(f[i] as int));
            assert((q - 1) % (f[i] as int) == 0);
        }
    } else {
        let p = choose|p: int|
            !(is_prime(p) && #[trigger] ((q - 1) % p) == 0 ==> pow_mod(
                g,
                ((q - 1) / p) as nat,
                q,
            ) != 1);
        let i = lemma_prime_in_factor_list(f, k, p);
        assert(f[i] == p);
    }
}

/// The smallest `g >= 2` below `Q` that passes the generator test, or `None` where none does;
/// the prime factors of `Q - 1` are computed by `prime_factors`.
pub fn try_generator<const Q: u64>() -> (g: Option<u64>)
    requires
        Q >= 3,
    ensures
        g is Some <==> first_generator(2, Q as int) < Q,
        g matches Some(x) ==> x == first_generator(2, Q as int),
{
    let factors = prime_factors(Q - 1);
    let mut g: u64 = 2;
    while g < Q
        invariant
            Q >= 3,
            2 <= g <= Q,
            first_generator(g as int, Q as int) == first_generator(2, Q as int),
            is_factor_list(factors@, first_zero(factors@, 0), Q - 1),
        decreases Q - g,
    {
        let ok = is_generator::<Q>(g, &factors);
        proof {
            lemma_generator_list(g as int, Q as int, factors@);
        }
        if ok {
            return Some(g);
        }
        g += 1;
    }
    None
}

/// The smallest `g >= 2` that passes the generator test. One exists below every prime `Q`
/// (`law_generator_exists`); for another `Q` it must exist, as the search fails otherwise.
pub fn generator<const Q: u64>() -> (g: u64)
    requires
        Q >= 3,
        is_prime(Q as int) || first_generator(2, Q as int) < Q,
    ensures
        g == first_generator(2, Q as int),
{
    proof {
        if is_prime(Q as int) {
            law_generator_exists(Q as int);
        }
    }
    try_generator::<Q>().unwrap()
}

/// `w` has order exactly `2^k` modulo `q`: `w^(2^k) = 1` and `w^(2^(k-1)) != 1`.
pub open spec fn two_adic_root_condition(w: int, k: nat, q: int) -> bool {
    &&& pow_mod(w, pow2(k), q) == 1
    &&& pow_mod(w, pow2((k - 1) as nat), q) != 1
}

/// The smallest 2-adic root of unity modulo `Q`: the least `w >= 1` with `w^(2^k) = 1` and
/// `w^(2^(k-1)) != 1` modulo `Q`, where `2^k` is the largest power of two dividing `Q - 1`.
/// `Q` is odd and such a root must exist below `Q`.
pub fn two_adic_root_of_unity<const Q: u64>() -> (w: u64)
    requires
        Q >= 3,
        Q % 2 == 1,
        exists|u: int|
            1 <= u < Q && #[trigger] two_adic_root_condition(u, two_adicity((Q - 1) as nat), Q as int),
    ensures
        1 <= w < Q,
        two_adic_root_condition(w as int, two_adicity((Q - 1) as nat), Q as int),
        forall|u: int|
            1 <= u < w ==> !#[trigger] two_adic_root_condition(u, two_adicity((Q - 1) as nat), Q as int),
{
    let k = largest_power_of_two_dividing(Q - 1);
    let ghost kk = two_adicity((Q - 1) as nat);
    proof {
        let c = lemma_two_adicity((Q - 1) as nat);
        lemma_pow2_pos(kk);
        assert(c >= 1);
        lemma_mul_inequality(1, c as int, pow2(kk) as int);
        lemma_mul_is_commutative(c as int, pow2(kk) as int);
        assert(pow2(kk) <= Q - 1);
        assert(kk >= 1) by {
            if kk == 0 {
                lemma2_to64();
                lemma_fundamental_div_mod(c as int, 2);
                lemma_fundamental_div_mod(Q as int, 2);
            }
        }
    }
    // e = 2^k and h = 2^(k-1), by doubling
    let mut e: u64 = 1;
    let mut h: u64 = 1;
    let mut i: u32 = 0;
    proof {
        lemma2_to64();
    }
    while i < k
        invariant
            k == kk,
            kk == two_adicity((Q - 1) as nat),
            kk >= 1,
            pow2(kk) <= Q - 1,
            0 <= i <= k,
            e == pow2(i as nat),
            i >= 1 ==> h == pow2((i - 1) as nat),
        decreases k - i,
    {
        proof {
            lemma_pow2_unfold((i + 1) as nat);
            if i + 1 < k {
                lemma_pow2_strictly_increases((i + 1) as nat, kk);
            }
        }
        h = e;
        e = e * 2;
        i = i + 1;
    }
    let mut w: u64 = 1;
    while w < Q
        invariant
            1 <= w <= Q,
            Q >= 3,
            kk == two_adicity((Q - 1) as nat),
            e == pow2(kk),
            h == pow2((kk - 1) as nat),
            kk >= 1,
            forall|u: int| 1 <= u < w ==> !#[trigger] two_adic_root_condition(u, kk, Q as int),
        decreases Q - w,
    {
        let a = const_pow_mod::<Q>(w, e);
        let b = const_pow_mod::<Q>(w, h);
        if a == 1 && b != 1 {
            return w;
        }
        w += 1;
    }
    proof {
        let u = choose|u: int| 1 <= u < Q && #[trigger] two_adic_root_condition(u, kk, Q as int);
        assert(!two_adic_root_condition(u, kk, Q as int));
    }
    0
}

/// The first generator found from `i` on passes the generator test.
proof fn lemma_first_generator(i: int, q: int)
    requires
        first_generator(i, q) < q,
    ensures
        i <= first_generator(i, q) < q,
        generator_condition(first_generator(i, q), q),
    decreases q - i,
{
    if i < q && !generator_condition(i, q) {
        lemma_first_generator(i + 1, q);
    }
}

/// `n > 0` is `2^two_adicity(n)` times the returned odd number.
pub proof fn lemma_two_adicity(n: nat) -> (c: nat)
    requires
        n > 0,
    ensures
        n == pow2(two_adicity(n)) * c,
        c % 2 == 1,
    decreases n,
{
    if n % 2 == 0 {
        let c = lemma_two_adicity(n / 2);
        assert(two_adicity(n) == 1 + two_adicity(n / 2));
        lemma_pow2_unfold(two_adicity(n));
        assert(pow2(two_adicity(n)) == 2 * pow2(two_adicity(n / 2)));
        assert(n == 2 * pow2(two_adicity(n / 2)) * c) by (nonlinear_arith)
            requires
                n / 2 == pow2(two_adicity(n / 2)) * c,
                n % 2 == 0,
                n == 2 * (n / 2) + n % 2,
        ;
        assert(2 * pow2(two_adicity(n / 2)) * c == pow2(two_adicity(n)) * c);
        c
    } else {
        lemma2_to64();
        assert(two_adicity(n) == 0);
        n
    }
}

/// Modulo an odd prime `q`, a 2-adic root of unity of order exactly `2^k` exists below `q`, for
/// `2^k` the largest power of two dividing `q - 1`: a quadratic non-residue `x` gives one,
/// `x^((q-1)/2^k)`. So `two_adic_root_of_unity` is defined for every odd prime.
pub proof fn law_two_adic_root_exists(q: int)
    requires
        is_prime(q),
        q >= 3,
    ensures
        exists|u: int|
            1 <= u < q && #[trigger] two_adic_root_condition(u, two_adicity((q - 1) as nat), q),
{
    let n = (q - 1) as nat;
    let k = two_adicity(n);
    let c = lemma_two_adicity(n);
    assert(q % 2 != 0);
    assert(k >= 1) by {
        if k == 0 {
            lemma2_to64();
            lemma_fundamental_div_mod(q, 2);
            lemma_fundamental_div_mod(c as int, 2);
        }
    }
    assert(c >= 1);
    let x = crate::nonresidue::lemma_nonresidue_exists(q);
    let w = pow(x, c) % q;
    lemma_pow2_pos(k);
    // w^(2^k) = x^(q - 1) = 1
    lemma_pow_mod_noop(pow(x, c), pow2(k), q);
    lemma_pow_multiplies(x, c, pow2(k));
    lemma_mul_is_commutative(pow2(k) as int, c as int);
    lemma_small_mod(x as nat, q as nat);
    lemma_fermat(x, q);
    assert(pow(w, pow2(k)) % q == 1);
    // w^(2^(k-1)) = x^((q - 1) / 2) != 1
    let h = pow2((k - 1) as nat);
    lemma_pow2_unfold(k);
    lemma_pow2_pos((k - 1) as nat);
    lemma_pow_mod_noop(pow(x, c), h, q);
    lemma_pow_multiplies(x, c, h);
    assert(c * h == n / 2) by (nonlinear_arith)
        requires
            n == pow2(k) * c,
            pow2(k) == 2 * h,
    ;
    assert(pow(w, h) % q != 1);
    lemma_mod_bound(pow(x, c), q);
    if w == 0 {
        lemma0_pow(pow2(k));
        lemma_small_mod(0, q as nat);
    }
    assert(two_adic_root_condition(w, k, q));
}

/// The only square roots of one modulo a prime are `1` and `-1`.
proof fn lemma_square_roots_of_one(x: int, q: int)
    requires
        is_prime(q),
        0 <= x < q,
        (x * x) % q == 1,
    ensures
        x == 1 || x == q - 1,
{
    if x == 0 {
        lemma_small_mod(0, q as nat);
    } else {
        lemma_fundamental_div_mod(x * x, q);
        let k = (x * x) / q;
        assert((x - 1) * (x + 1) == k * q) by (nonlinear_arith)
            requires
                x * x == q * k + 1,
        ;
        lemma_mod_multiples_basic(k, q);
        lemma_euclid(q, x - 1, x + 1);
        if (x - 1) % q == 0 {
            lemma_small_mod((x - 1) as nat, q as nat);
        } else if x + 1 < q {
            lemma_small_mod((x + 1) as nat, q as nat);
        }
    }
}

/// The root `i^((q-1)/(2c))` from the first candidate `i` whose `c`-th power is not one has
/// `c`-th power `-1`.
proof fn lemma_candidate_half_power(q: int, c: int)
    requires
        is_prime(q),
        c >= 1,
        q % (2 * c) == 1,
    ensures
        pow(pow_mod(first_root_candidate(1, q, 2 * c, c), ((q - 1) / (2 * c)) as nat, q), c as nat)
            % q == q - 1,
{
    let n = c;
    lemma_candidate_exists(q, c);
    let i = first_root_candidate(1, q, 2 * n, n);
    lemma_first_candidate(1, q, 2 * n, n);
    lemma_fundamental_div_mod(q, 2 * n);
    assert(q / (2 * n) >= 1) by {
        if q / (2 * n) <= 0 {
            lemma_mul_inequality(q / (2 * n), 0, 2 * n);
            lemma_mul_is_commutative(q / (2 * n), 2 * n);
        }
    }
    let e = q / (2 * n);
    assert(q - 1 == (2 * n) * e);
    assert((q - 1) / (2 * n) == e) by {
        lemma_mul_is_commutative(e, 2 * n);
        lemma_fundamental_div_mod_converse(q - 1, 2 * n, e, 0);
    }
    assert(e * (2 * n) == q - 1) by {
        lemma_mul_is_commutative(e, 2 * n);
    }
    let psi = pow_mod(i, e as nat, q);
    assert(psi == pow(i, e as nat) % q);
    // psi^(2n) = i^(q-1) = 1
    lemma_pow_mod_noop(pow(i, e as nat), (2 * n) as nat, q);
    lemma_pow_multiplies(i, e as nat, (2 * n) as nat);
    lemma_small_mod(i as nat, q as nat);
    lemma_fermat(i, q);
    assert(pow(psi, (2 * n) as nat) % q == 1);
    // x = psi^n satisfies x^2 = 1 and x != 1
    let x = pow(psi, n as nat) % q;
    assert(root_candidate_ok(i, q, 2 * n, n));
    assert(pow_mod(psi, n as nat, q) != 1);
    assert(x != 1);
    lemma_mod_bound(pow(psi, n as nat), q);
    lemma_pow_adds(psi, n as nat, n as nat);
    lemma_mul_mod_noop(pow(psi, n as nat), pow(psi, n as nat), q);
    assert((x * x) % q == 1);
    lemma_square_roots_of_one(x, q);
}

/// The `n`-th power of the chosen primitive `2n`-th root of unity is `-1`.
pub proof fn lemma_root_half_power(q: int, n: int)
    requires
        ntt_friendly(q, n),
    ensures
        pow(two_nth_root(q, n), n as nat) % q == q - 1,
{
    lemma_candidate_half_power(q, n);
}

/// Multiplying by a number congruent to `-1` negates modulo `q`.
pub proof fn lemma_times_minus_one(x: int, y: int, q: int)
    requires
        q > 1,
        x % q == q - 1,
    ensures
        (x * y) % q == (-(y % q)) % q,
{
    lemma_mul_mod_noop_left(x, y, q);
    assert((q - 1) * y == q * y + (-y)) by (nonlinear_arith);
    lemma_mod_multiples_vanish(y, -y, q);
    lemma_sub_mod_noop(0, y, q);
    lemma_small_mod(0, q as nat);
}

/// `-1` modulo `q` is `q - 1`.
pub proof fn lemma_minus_one_mod(q: int)
    requires
        q > 1,
    ensures
        (-1int) % q == q - 1,
{
    lemma_mod_multiples_vanish(-1, q - 1, q);
    lemma_small_mod((q - 1) as nat, q as nat);
}

/// Powers of `-1` modulo `q > 2`: `1` for even exponents, `-1` for odd ones.
proof fn lemma_minus_one_power(y: int, e: nat, q: int)
    requires
        q > 2,
        y % q == q - 1,
    ensures
        pow(y, e) % q == (if e % 2 == 0 {
            1
        } else {
            q - 1
        }),
    decreases e,
{
    lemma_minus_one_mod(q);
    if e == 0 {
        lemma_pow0(y);
        lemma_small_mod(1, q as nat);
    } else {
        lemma_minus_one_power(y, (e - 1) as nat, q);
        let p = pow(y, (e - 1) as nat);
        lemma_pow_adds(y, 1, (e - 1) as nat);
        lemma_pow1(y);
        lemma_times_minus_one(y, p, q);
        if (e - 1) as nat % 2 == 0 {
            assert(p % q == 1);
        } else {
            assert(p % q == q - 1);
            lemma_mod_multiples_vanish(-1, 1, q);
            lemma_small_mod(1, q as nat);
        }
    }
}

/// A number whose `m`-th power is `-1` modulo a prime `q > 2`, for `m` a power of two, is a
/// primitive `2m`-th root of unity.
pub proof fn lemma_primitive_from_half(x: int, m: nat, q: int)
    requires
        is_prime(q),
        q >= 3,
        is_pow2(m),
        pow(x, m) % q == q - 1,
    ensures
        primitive_root_condition(x, 2 * m, q),
{
    let l = ilog2(m);
    assert(pow2(l) == m);
    assert((2 * m) / 2 == m);
    // x^(2m) = (x^m)^2 = 1
    lemma_pow_adds(x, m, m);
    lemma_times_minus_one(pow(x, m), pow(x, m), q);
    lemma_mod_multiples_vanish(-1, 1, q);
    lemma_small_mod(1, q as nat);
    assert(pow(x, 2 * m) % q == 1);
    // no smaller positive power is one
    assert forall|i: nat| 1 <= i < 2 * m implies #[trigger] pow_mod(x, i, q) != 1 by {
        if pow(x, i) % q == 1 {
            let o = lemma_two_adicity(i);
            let j = two_adicity(i);
            lemma_pow2_pos(j);
            assert(pow2(j) <= i) by (nonlinear_arith)
                requires
                    i == pow2(j) * o,
                    o % 2 == 1,
                    pow2(j) > 0,
            ;
            lemma_pow2_unfold(l + 1);
            assert(j <= l) by {
                if j > l {
                    if j > l + 1 {
                        lemma_pow2_strictly_increases(l + 1, j);
                    }
                }
            }
            let d = pow2((l - j) as nat);
            lemma_pow2_adds(j, (l - j) as nat);
            assert(i * d == o * m) by (nonlinear_arith)
                requires
                    i == pow2(j) * o,
                    pow2(j) * d == m,
            ;
            // x^(i d) = 1
            lemma_pow_multiplies(x, i, d);
            lemma_pow_mod_noop(pow(x, i), d, q);
            lemma1_pow(d);
            // x^(o m) = (x^m)^o = -1
            lemma_pow_multiplies(x, m, o);
            lemma_mul_is_commutative(m as int, o as int);
            lemma_pow_mod_noop(pow(x, m), o, q);
            lemma_small_mod((q - 1) as nat, q as nat);
            lemma_minus_one_power(pow(x, m) % q, o, q);
        }
    }
}

/// The root that `two_nth_primitive_root_of_unity` returns is a primitive `2n`-th root of unity
/// whose `n`-th power is `-1`.
pub proof fn law_two_nth_root_primitive(q: int, n: int)
    requires
        ntt_friendly(q, n),
    ensures
        primitive_root_condition(two_nth_root(q, n), (2 * n) as nat, q),
{
    lemma_root_half_power(q, n);
    lemma_fundamental_div_mod(q, 2 * n);
    if q < 3 {
        assert(q == 2);
        lemma_small_mod(2, (2 * n) as nat);
    }
    lemma_primitive_from_half(two_nth_root(q, n), n as nat, q);
}

/// A power of two at least two is even, and its half is a power of two.
proof fn lemma_pow2_even(n: nat)
    requires
        n >= 2,
        is_pow2(n),
    ensures
        n % 2 == 0,
        is_pow2(n / 2),
{
    let l = ilog2(n);
    assert(l == 1 + ilog2(n / 2));
    lemma_pow2_unfold(l);
    assert(pow2(l) == 2 * pow2(ilog2(n / 2)));
}

/// The root that `nth_primitive_root_of_unity` returns is a primitive `n`-th root of unity whose
/// `n/2`-th power is `-1`.
pub proof fn law_nth_root_primitive(q: int, n: int)
    requires
        is_prime(q),
        n >= 2,
        is_pow2(n as nat),
        q % n == 1,
    ensures
        primitive_root_condition(nth_root(q, n), n as nat, q),
{
    let c = n / 2;
    lemma_pow2_even(n as nat);
    assert(n == 2 * c);
    lemma_candidate_half_power(q, c);
    if q < 3 {
        assert(q == 2);
        lemma_small_mod(2, n as nat);
    }
    lemma_primitive_from_half(nth_root(q, n), c as nat, q);
}

/// The least exponent `e' >= e` with `g^e' = 1` modulo `q`, searched up to `q - 1`.
pub open spec fn first_unit_power(e: int, g: int, q: int) -> int
    decreases q - 1 - e,
{
    if e >= q - 1 {
        q - 1
    } else if pow(g, e as nat) % q == 1 {
        e
    } else {
        first_unit_power(e + 1, g, q)
    }
}

/// The search for a power equal to one stops at a power equal to one, below `q - 1` or at it.
proof fn lemma_first_unit_power(e: int, g: int, q: int)
    requires
        1 <= e <= q - 1,
    ensures
        e <= first_unit_power(e, g, q) <= q - 1,
        first_unit_power(e, g, q) < q - 1 ==> pow(g, first_unit_power(e, g, q) as nat) % q == 1,
        forall|i: int| e <= i < first_unit_power(e, g, q) ==> #[trigger] (pow(g, i as nat) % q) != 1,
    decreases q - 1 - e,
{
    if e < q - 1 && pow(g, e as nat) % q != 1 {
        lemma_first_unit_power(e + 1, g, q);
    }
}

/// A power of a unit power is one: `(g^d)^t = 1` when `g^d = 1`.
pub proof fn lemma_unit_power_power(g: int, d: nat, t: nat, q: int)
    requires
        q > 1,
        pow(g, d) % q == 1,
    ensures
        pow(g, d * t) % q == 1,
{
    lemma_pow_multiplies(g, d, t);
    lemma_pow_mod_noop(pow(g, d), t, q);
    lemma1_pow(t);
    lemma_small_mod(1, q as nat);
}

/// A residue that passes the generator test modulo a prime `q` generates `F_q^*`: its powers
/// `g^1, ..., g^(q-2)` are all different from one, and `g^(q-1)` is one.
pub proof fn law_generator_order(g: int, q: int)
    requires
        is_prime(q),
        1 <= g < q,
        generator_condition(g, q),
    ensures
        pow(g, (q - 1) as nat) % q == 1,
        forall|i: int| 1 <= i < q - 1 ==> #[trigger] (pow(g, i as nat) % q) != 1,
{
    lemma_small_mod(g as nat, q as nat);
    lemma_fermat(g, q);
    lemma_first_unit_power(1, g, q);
    let d = first_unit_power(1, g, q);
    if d < q - 1 {
        // q - 1 = d t + r with r = 0 by minimality
        let n = q - 1;
        lemma_fundamental_div_mod(n, d);
        let t = n / d;
        let r = n % d;
        lemma_mod_bound(n, d);
        lemma_pow_adds(g, (d * t) as nat, r as nat);
        lemma_unit_power_power(g, d as nat, t as nat, q);
        lemma_mul_is_commutative(d, t);
        assert(d * t >= 0) by (nonlinear_arith)
            requires
                d >= 1,
                t >= 0,
        ;
        lemma_mul_mod_noop(pow(g, (d * t) as nat), pow(g, r as nat), q);
        lemma_small_mod(1, q as nat);
        assert(pow(g, n as nat) == pow(g, (d * t) as nat) * pow(g, r as nat));
        lemma_mod_twice(pow(g, r as nat), q);
        assert(1 * (pow(g, r as nat) % q) == pow(g, r as nat) % q);
        assert(pow(g, r as nat) % q == 1);
        assert(r == 0) by {
            if r > 0 {
                assert(pow(g, r as nat) % q != 1);
            }
        }
        // t >= 2 has a prime factor p, and g^((q - 1) / p) = (g^d)^(t / p) = 1
        assert(t >= 2) by (nonlinear_arith)
            requires
                n == d * t,
                1 <= d < n,
        ;
        let p = lemma_prime_divisor(t);
        lemma_fundamental_div_mod(t, p);
        let u = t / p;
        assert(u >= 1) by (nonlinear_arith)
            requires
                t == p * u + 0,
                t >= 2,
                p >= 2,
        ;
        assert(n == p * (d * u)) by (nonlinear_arith)
            requires
                n == d * t,
                t == p * u,
        ;
        lemma_mod_multiples_basic(d * u, p);
        lemma_mul_is_commutative(p, d * u);
        lemma_div_multiples_vanish(d * u, p);
        assert((q - 1) % p == 0);
        assert((q - 1) / p == d * u);
        lemma_unit_power_power(g, d as nat, u as nat, q);
        assert(d * u >= 1) by (nonlinear_arith)
            requires
                d >= 1,
                u >= 1,
        ;
        assert(pow_mod(g, ((q - 1) / p) as nat, q) == 1);
        assert(false);
    }
}

/// The generator that `generator` returns modulo a prime `Q` has order `Q - 1`.
pub proof fn law_generator_is_primitive(q: int)
    requires
        is_prime(q),
        q >= 3,
    ensures
        pow(first_generator(2, q), (q - 1) as nat) % q == 1,
        forall|i: int|
            1 <= i < q - 1 ==> #[trigger] (pow(first_generator(2, q), i as nat) % q) != 1,
{
    law_generator_exists(q);
    lemma_first_generator(2, q);
    law_generator_order(first_generator(2, q), q);
}

} // verus!
