//! Integer arithmetic: modular powers, greatest common divisors and the lemmas that
//! the executable modular code rests on.
use vstd::arithmetic::div_mod::*;
use vstd::arithmetic::mul::*;
use vstd::arithmetic::power::*;
use vstd::arithmetic::power2::*;
use vstd::prelude::*;

verus! {

/// `x^k mod q`, where an empty product is `1` (not reduced).
pub open spec fn pow_mod(x: int, k: nat, q: int) -> int {
    if k == 0 {
        1
    } else {
        pow(x, k) % q
    }
}

/// Greatest common divisor by the Euclidean recursion.
pub open spec fn gcd(a: nat, b: nat) -> nat
    decreases b,
{
    if b == 0 {
        a
    } else {
        gcd(b, a % b)
    }
}

/// `x` has a multiplicative inverse modulo `q`.
pub open spec fn is_invertible_mod(x: int, q: int) -> bool {
    exists|y: int| #[trigger] ((x * y) % q) == 1int % q
}

/// `p` is prime.
pub open spec fn is_prime(p: int) -> bool {
    p > 1 && forall|d: int| 1 < d < p ==> #[trigger] (p % d) != 0
}

/// One step of square-and-multiply keeps `r * x^k mod q` unchanged.
pub proof fn lemma_pow_step(r: int, x: int, k: nat, q: int)
    requires
        q > 0,
        k > 0,
    ensures
        k % 2 == 1 ==> (((r * x) % q) * pow((x * x) % q, k / 2)) % q == (r * pow(x, k)) % q,
        k % 2 == 0 ==> (r * pow((x * x) % q, k / 2)) % q == (r * pow(x, k)) % q,
{
    let h: nat = k / 2;
    let e: nat = k % 2;
    assert(k == 2 * h + e);
    lemma_pow_adds(x, 2 * h, e);
    lemma_pow_multiplies(x, 2, h);
    lemma_square_is_pow2(x);
    lemma_pow_mod_noop(x * x, h, q);
    let a = pow(x * x, h);
    assert(pow(x, 2 * h) == a);
    assert(pow(x, k) == a * pow(x, e));
    if e == 1 {
        lemma_pow1(x);
        assert(pow(x, k) == a * x);
        // ((r*x)%q * (a%q)) % q == (r*x*a) % q
        lemma_mul_mod_noop((r * x), a, q);
        lemma_mul_mod_noop((r * x), pow((x * x) % q, h), q);
        lemma_mod_twice(a, q);
        assert(((r * x) % q * pow((x * x) % q, h)) % q == (((r * x) % q) * (pow((x * x) % q, h)
            % q)) % q) by {
            lemma_mul_mod_noop_right((r * x) % q, pow((x * x) % q, h), q);
        }
        assert((((r * x) % q) * (a % q)) % q == ((r * x) * a) % q) by {
            lemma_mul_mod_noop(r * x, a, q);
        }
        assert((r * x) * a == r * (a * x)) by {
            lemma_mul_is_associative(r, x, a);
            lemma_mul_is_commutative(x, a);
            lemma_mul_is_associative(r, a, x);
        }
    } else {
        lemma_pow0(x);
        assert(pow(x, k) == a);
        assert((r * pow((x * x) % q, h)) % q == (r * (pow((x * x) % q, h) % q)) % q) by {
            lemma_mul_mod_noop_right(r, pow((x * x) % q, h), q);
        }
        assert((r * (a % q)) % q == (r * a) % q) by {
            lemma_mul_mod_noop_right(r, a, q);
        }
    }
}

/// Euclid's step keeps the greatest common divisor.
pub proof fn lemma_gcd_step(a: nat, b: nat)
    requires
        b > 0,
    ensures
        gcd(a, b) == gcd(b, a % b),
{
}

/// The greatest common divisor with zero.
pub proof fn lemma_gcd_zero(a: nat)
    ensures
        gcd(a, 0) == a,
{
}

/// Invertibility modulo `q` only depends on the residue.
pub proof fn lemma_inverse_unique_residue(x: int, y1: int, y2: int, q: int)
    requires
        q > 0,
        (x * y1) % q == 1int % q,
        (x * y2) % q == 1int % q,
    ensures
        y1 % q == y2 % q,
{
    // y1 = y1 * (x * y2) = (x * y1) * y2 = y2  (mod q)
    lemma_mul_mod_noop_right(y1, x * y2, q);
    lemma_mul_mod_noop_left(x * y1, y2, q);
    lemma_mul_is_associative(y1, x, y2);
    lemma_mul_is_commutative(y1, x);
    lemma_mod_twice(1, q);
    assert((y1 * (x * y2)) % q == (y1 * (1int % q)) % q);
    assert((y1 * (1int % q)) % q == y1 % q) by {
        lemma_mul_mod_noop_right(y1, 1, q);
    }
    assert(((x * y1) * y2) % q == ((1int % q) * y2) % q);
    assert(((1int % q) * y2) % q == y2 % q) by {
        lemma_mul_mod_noop_left(1, y2, q);
    }
    assert(y1 * (x * y2) == (x * y1) * y2) by {
        lemma_mul_is_associative(y1, x, y2);
        lemma_mul_is_associative(x, y1, y2);
    }
}

/// The greatest common divisor divides both arguments.
pub proof fn lemma_gcd_divides(a: nat, b: nat)
    ensures
        gcd(a, b) > 0 ==> a % gcd(a, b) == 0 && b % gcd(a, b) == 0,
        gcd(a, b) == 0 ==> a == 0 && b == 0,
    decreases b,
{
    if b == 0 {
        if a > 0 {
            lemma_mod_self_0(a as int);
            lemma_small_mod(0, a);
        }
    } else {
        let r = a % b;
        lemma_gcd_divides(b, r);
        let g = gcd(b, r);
        lemma_mod_bound(a as int, b as int);
        if g > 0 {
            lemma_fundamental_div_mod(a as int, b as int);
            // a = b * (a / b) + r, with g dividing b and r
            let k = a / b;
            assert(a == b * k + r);
            lemma_mul_mod_noop_left(b as int, k as int, g as int);
            lemma_small_mod(0, g);
            assert(((b * k) as int) % (g as int) == 0) by {
                lemma_mul_is_commutative(b as int, k as int);
                lemma_mul_mod_noop_right(k as int, b as int, g as int);
                lemma_mul_basics(k as int);
            }
            lemma_add_mod_noop((b * k) as int, r as int, g as int);
        }
    }
}

/// A common divisor larger than one rules out a modular inverse.
pub proof fn lemma_no_inverse_with_common_divisor(x: int, q: int, d: int)
    requires
        q > 0,
        d > 1,
        x % d == 0,
        q % d == 0,
    ensures
        !is_invertible_mod(x, q),
{
    if is_invertible_mod(x, q) {
        let y = choose|y: int| #[trigger] ((x * y) % q) == 1int % q;
        assert(q >= d) by {
            lemma_fundamental_div_mod(q, d);
            if q / d <= 0 {
                lemma_mul_inequality(q / d, 0, d);
                lemma_mul_is_commutative(q / d, d);
            } else {
                lemma_mul_increases(q / d, d);
                lemma_mul_is_commutative(q / d, d);
            }
        }
        lemma_small_mod(1, q as nat);
        lemma_fundamental_div_mod(x * y, q);
        let k = (x * y) / q;
        assert(x * y == q * k + 1);
        assert((x * y) % d == 0) by {
            lemma_mul_mod_noop_left(x, y, d);
            lemma_mul_basics(y);
            lemma_small_mod(0, d as nat);
        }
        assert((q * k) % d == 0) by {
            lemma_mul_mod_noop_left(q, k, d);
            lemma_mul_basics(k);
            lemma_small_mod(0, d as nat);
        }
        lemma_add_mod_noop(q * k, 1, d);
        lemma_small_mod(1, d as nat);
        lemma_small_mod(0, d as nat);
    }
}

/// A modular inverse modulo `q > 1` needs the greatest common divisor to be one.
pub proof fn lemma_invertible_needs_gcd_one(x: nat, q: nat)
    requires
        q > 0,
        gcd(q, x) != 1,
    ensures
        !is_invertible_mod(x as int, q as int),
{
    lemma_gcd_divides(q, x);
    let g = gcd(q, x);
    if g == 0 {
    } else {
        lemma_no_inverse_with_common_divisor(x as int, q as int, g as int);
    }
}

/// Bezout coefficients `(x, y)` with `a * x + b * y == gcd(a, b)`.
pub open spec fn bezout(a: nat, b: nat) -> (int, int)
    decreases b,
{
    if b == 0 {
        (1, 0)
    } else {
        let (x, y) = bezout(b, a % b);
        (y, x - (a / b) as int * y)
    }
}

/// Bezout's identity.
pub proof fn lemma_bezout(a: nat, b: nat)
    ensures
        a * bezout(a, b).0 + b * bezout(a, b).1 == gcd(a, b),
    decreases b,
{
    if b > 0 {
        lemma_bezout(b, a % b);
        let (x, y) = bezout(b, a % b);
        let k = (a / b) as int;
        lemma_fundamental_div_mod(a as int, b as int);
        assert(a as int == b * k + (a % b) as int);
        assert(a * y + b * (x - k * y) == b * x + (a % b) * y) by (nonlinear_arith)
            requires
                a as int == b * k + (a % b) as int,
        ;
        assert(bezout(a, b).0 == y);
        assert(bezout(a, b).1 == x - k * y);
        assert(gcd(a, b) == gcd(b, a % b));
        assert(b * x + (a % b) * y == gcd(b, a % b));
        assert(a * y + b * (x - k * y) == gcd(a, b));
        assert(a * bezout(a, b).0 + b * bezout(a, b).1 == a * y + b * (x - k * y));
    } else {
        assert(bezout(a, b) == (1int, 0int));
        lemma_mul_basics(a as int);
    }
}

/// Coprime residues are invertible.
pub proof fn lemma_coprime_invertible(x: nat, q: nat)
    requires
        q > 0,
        gcd(q, x) == 1,
    ensures
        is_invertible_mod(x as int, q as int),
{
    lemma_bezout(q, x);
    let (s, t) = bezout(q, x);
    assert(x * t == q * (-s) + 1) by (nonlinear_arith)
        requires
            q * s + x * t == 1,
    ;
    lemma_mod_multiples_vanish(-s, 1, q as int);
    lemma_mul_is_commutative(q as int, -s);
    assert(((x as int) * t) % (q as int) == 1int % (q as int));
}

/// Invertible residues are coprime to the modulus.
pub proof fn lemma_invertible_coprime(x: nat, q: nat)
    requires
        q > 0,
        is_invertible_mod(x as int, q as int),
    ensures
        gcd(q, x) == 1,
{
    if gcd(q, x) != 1 {
        lemma_invertible_needs_gcd_one(x, q);
    }
}

/// An odd divisor of a power of two is one.
proof fn lemma_odd_divisor_of_pow2(d: int, t: int, k: nat)
    requires
        d > 0,
        d % 2 == 1,
        d * t == pow2(k),
    ensures
        d == 1,
    decreases k,
{
    if k == 0 {
        lemma_pow2(0);
        reveal(pow);
        assert(d * t == 1);
        assert(t > 0) by (nonlinear_arith)
            requires
                d > 0,
                d * t == 1,
        ;
        assert(d <= d * t) by (nonlinear_arith)
            requires
                d > 0,
                t > 0,
        ;
    } else {
        lemma_pow2_unfold(k);
        lemma_mul_mod_noop(d, t, 2);
        lemma_mod_twice(t, 2);
        assert((d * t) % 2 == 0) by {
            lemma_mod_multiples_basic(pow2((k - 1) as nat) as int, 2);
            lemma_mul_is_commutative(pow2((k - 1) as nat) as int, 2);
        }
        assert(t % 2 == 0) by {
            lemma_mul_basics(t % 2);
        }
        let h = t / 2;
        lemma_fundamental_div_mod(t, 2);
        assert(d * h == pow2((k - 1) as nat)) by (nonlinear_arith)
            requires
                t == 2 * h + 0,
                d * t == 2 * pow2((k - 1) as nat),
        ;
        lemma_odd_divisor_of_pow2(d, h, (k - 1) as nat);
    }
}

/// Odd residues are invertible modulo a power of two.
pub proof fn lemma_odd_invertible_mod_pow2(x: nat, k: nat)
    requires
        x % 2 == 1,
    ensures
        is_invertible_mod(x as int, pow2(k) as int),
{
    lemma_pow2_pos(k);
    let q = pow2(k);
    lemma_gcd_divides(q, x);
    let g = gcd(q, x);
    assert(g > 0);
    if g % 2 == 0 {
        lemma_fundamental_div_mod(x as int, g as int);
        let s = x as int / g as int;
        assert(x as int == g * s);
        assert((g * s) % 2 == 0) by {
            lemma_mul_mod_noop_left(g as int, s, 2);
            lemma_mul_basics(s);
            lemma_small_mod(0, 2);
        }
    }
    lemma_fundamental_div_mod(q as int, g as int);
    lemma_odd_divisor_of_pow2(g as int, q as int / g as int, k);
    lemma_coprime_invertible(x, q);
}

/// A positive multiple of `d` is at least `d`.
pub proof fn lemma_divisor_le(a: nat, d: nat)
    requires
        d > 0,
        a > 0,
        a % d == 0,
    ensures
        d <= a,
{
    lemma_fundamental_div_mod(a as int, d as int);
    let k = a / d;
    if k == 0 {
        assert(a == d * k);
        lemma_mul_basics(d as int);
    } else {
        lemma_mul_increases(k as int, d as int);
        lemma_mul_is_commutative(k as int, d as int);
    }
}

/// Every residue `0 < a < p` is coprime to a prime `p`.
pub proof fn lemma_prime_coprime(p: nat, a: nat)
    requires
        is_prime(p as int),
        0 < a < p,
    ensures
        gcd(p, a) == 1,
{
    lemma_gcd_divides(p, a);
    let g = gcd(p, a);
    assert(g > 0);
    lemma_divisor_le(a, g);
    if g != 1 {
        assert(1 < g < p);
        assert((p as int) % (g as int) != 0);
    }
}

/// Powers of inverse residues are inverse.
pub proof fn lemma_pow_inverse(x: int, y: int, e: nat, q: int)
    requires
        q > 0,
        (x * y) % q == 1int % q,
    ensures
        (pow(x, e) * pow(y, e)) % q == 1int % q,
        ((pow(x, e) % q) * (pow(y, e) % q)) % q == 1int % q,
{
    lemma_pow_distributes(x, y, e);
    lemma_pow_mod_noop(x * y, e, q);
    lemma_pow_mod_noop(1, e, q);
    lemma1_pow(e);
    lemma_mul_mod_noop(pow(x, e), pow(y, e), q);
}

/// The exponent of the largest power of two at most `n`.
pub open spec fn ilog2(n: nat) -> nat
    decreases n,
{
    if n <= 1 {
        0
    } else {
        1 + ilog2(n / 2)
    }
}

/// `n` is a power of two.
pub open spec fn is_pow2(n: nat) -> bool {
    n >= 1 && pow2(ilog2(n)) == n
}

/// The lowest `l` bits of `i`, in reverse order.
pub open spec fn rev_bits(i: nat, l: nat) -> nat
    decreases l,
{
    if l == 0 {
        0
    } else {
        (i % 2) * pow2((l - 1) as nat) + rev_bits(i / 2, (l - 1) as nat)
    }
}

/// `2^ilog2(n) <= n`.
pub proof fn lemma_ilog2_bound(n: nat)
    requires
        n >= 1,
    ensures
        pow2(ilog2(n)) <= n,
    decreases n,
{
    if n <= 1 {
        lemma2_to64();
    } else {
        lemma_ilog2_bound(n / 2);
        lemma_pow2_unfold(ilog2(n));
    }
}

/// Reversed bits stay below `2^l`.
pub proof fn lemma_rev_bits_bound(i: nat, l: nat)
    ensures
        rev_bits(i, l) < pow2(l),
    decreases l,
{
    if l == 0 {
        lemma2_to64();
    } else {
        lemma_rev_bits_bound(i / 2, (l - 1) as nat);
        lemma_pow2_unfold(l);
        lemma_mul_inequality((i % 2) as int, 1, pow2((l - 1) as nat) as int);
    }
}

} // verus!
