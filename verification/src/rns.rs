//! Residue number systems: moduli that are pairwise distinct and coprime, the coefficients
//! that recombine residues by the Chinese remainder theorem, and modular arithmetic on
//! 128-bit integers.
use vstd::arithmetic::div_mod::*;
use vstd::arithmetic::mul::*;
use num_bigint::BigUint;
use num_traits::ToPrimitive;
use vstd::prelude::*;

use crate::arith::{
    bezout, gcd, is_invertible_mod, lemma_bezout, lemma_coprime_invertible,
    lemma_invertible_coprime,
};

verus! {

/// No value occurs twice.
pub open spec fn pairwise_distinct(xs: Seq<u64>) -> bool {
    forall|i: int, j: int| 0 <= i < j < xs.len() ==> xs[i] != xs[j]
}

/// Whether the values are pairwise distinct.
pub fn all_distinct<const N: usize>(xs: [u64; N]) -> (b: bool)
    ensures
        b == pairwise_distinct(xs@),
{
    let mut i: usize = 0;
    while i < N
        invariant
            0 <= i <= N,
            forall|a: int, c: int| 0 <= a < i && a < c < N ==> xs@[a] != xs@[c],
        decreases N - i,
    {
        let mut j: usize = i + 1;
        while j < N
            invariant
                0 <= i < N,
                i + 1 <= j <= N,
                forall|a: int, c: int| 0 <= a < i && a < c < N ==> xs@[a] != xs@[c],
                forall|c: int| i < c < j ==> xs@[i as int] != xs@[c],
            decreases N - j,
        {
            if xs[i] == xs[j] {
                return false;
            }
            j += 1;
        }
        i += 1;
    }
    true
}

/// The moduli, which must be pairwise distinct.
pub fn id_assert_all_distinct<const L: usize>(xs: [u64; L]) -> (r: [u64; L])
    requires
        pairwise_distinct(xs@),
    ensures
        r == xs,
{
    xs
}

/// `(x + y) mod m` for reduced `x` and `y`, without overflow.
pub fn add_mod_u128(x: u128, y: u128, m: u128) -> (r: u128)
    requires
        x < m,
        y < m,
    ensures
        r == (x + y) % (m as int),
{
    if x >= m - y {
        let r = x - (m - y);
        proof {
            lemma_mod_sub_multiples_vanish((x + y) as int, m as int);
            lemma_small_mod(r as nat, m as nat);
        }
        r
    } else {
        proof {
            lemma_small_mod((x + y) as nat, m as nat);
        }
        x + y
    }
}

/// `(a * b) mod m`, by doubling and adding.
#[verifier::spinoff_prover]
pub fn mul_mod_u128(a: u128, b: u128, m: u128) -> (r: u128)
    requires
        m > 0,
    ensures
        r == (a * b) % (m as int),
{
    let ghost mm = m as int;
    let mut result: u128 = 0;
    let mut base: u128 = a % m;
    let mut e: u128 = b;
    proof {
        lemma_mod_bound(a as int, mm);
        lemma_small_mod(0, m as nat);
        lemma_mul_mod_noop_left(a as int, b as int, mm);
    }
    while e > 0
        invariant
            m > 0,
            mm == m,
            result < m,
            base < m,
            (result + base * e) % mm == (a * b) % mm,
        decreases e,
    {
        let ghost (r0, b0, e0) = (result as int, base as int, e as int);
        if e % 2 == 1 {
            result = add_mod_u128(result, base, m);
        }
        let half = e / 2;
        proof {
            lemma_fundamental_div_mod(e0, 2);
            let bit = e0 % 2;
            assert(e0 == 2 * half + bit);
            let r1 = if bit == 1 {
                (r0 + b0) % mm
            } else {
                r0
            };
            assert(result == r1);
            // r1 + base * e0 == r1' + (2 * base) * half, up to multiples of m
            assert(r0 + b0 * e0 == (r0 + b0 * bit) + (2 * b0) * half) by (nonlinear_arith)
                requires
                    e0 == 2 * half + bit,
            ;
            if bit == 1 {
                lemma_add_mod_noop(r0 + b0, (2 * b0) * half, mm);
                lemma_mod_twice(r0 + b0, mm);
                lemma_add_mod_noop(r1, (2 * b0) * half, mm);
            } else {
                assert(b0 * bit == 0) by (nonlinear_arith)
                    requires
                        bit == 0,
                ;
            }
            assert((result + (2 * b0) * half) % mm == (r0 + b0 * e0) % mm);
            lemma_mul_mod_noop_left(2 * b0, half as int, mm);
        }
        base = add_mod_u128(base, base, m);
        e = half;
        proof {
            assert(base == (2 * b0) % mm);
            lemma_add_mod_noop(result as int, (2 * b0) * half, mm);
            lemma_add_mod_noop(result as int, base * half, mm);
            lemma_mul_mod_noop_left(2 * b0, half as int, mm);
            lemma_mod_twice((2 * b0) * half, mm);
        }
    }
    proof {
        lemma_small_mod(result as nat, m as nat);
        assert(base * e == 0) by (nonlinear_arith)
            requires
                e == 0,
        ;
    }
    result
}

/// The product of `qs[0..k]`.
pub open spec fn prefix_product(qs: Seq<u64>, k: int) -> int
    decreases k,
{
    if k <= 0 {
        1
    } else {
        prefix_product(qs, k - 1) * qs[k - 1]
    }
}

/// The product of `qs[0..k]` leaving out `qs[i]`.
pub open spec fn product_except(qs: Seq<u64>, i: int, k: int) -> int
    decreases k,
{
    if k <= 0 {
        1
    } else {
        product_except(qs, i, k - 1) * (if k - 1 == i {
            1
        } else {
            qs[k - 1] as int
        })
    }
}

/// Any two of the moduli are coprime.
pub open spec fn pairwise_coprime(qs: Seq<u64>) -> bool {
    forall|i: int, j: int|
        0 <= i < qs.len() && 0 <= j < qs.len() && i != j ==> gcd(qs[i] as nat, qs[j] as nat) == 1
}

/// `c` is the coefficient of residue `i` in the Chinese remainder recombination: below the
/// product of the moduli, one modulo `qs[i]` and zero modulo the others.
pub open spec fn crt_basis(qs: Seq<u64>, i: int, c: int) -> bool {
    &&& 0 <= c < prefix_product(qs, qs.len() as int)
    &&& c % (qs[i] as int) == 1
    &&& forall|j: int| 0 <= j < qs.len() && j != i ==> #[trigger] (c % (qs[j] as int)) == 0
}

/// Leaving a factor out and multiplying it back gives the whole product; the products are
/// positive and grow with `k`.
pub proof fn lemma_product_except(qs: Seq<u64>, i: int, k: int)
    requires
        0 <= k <= qs.len(),
        forall|j: int| 0 <= j < qs.len() ==> #[trigger] qs[j] >= 1,
    ensures
        product_except(qs, i, k) * (if 0 <= i < k {
            qs[i] as int
        } else {
            1
        }) == prefix_product(qs, k),
        product_except(qs, i, k) >= 1,
        prefix_product(qs, k) >= product_except(qs, i, k),
    decreases k,
{
    if k > 0 {
        lemma_product_except(qs, i, k - 1);
        let pe = product_except(qs, i, k - 1);
        let pp = prefix_product(qs, k - 1);
        let q = qs[k - 1] as int;
        if k - 1 == i {
            assert(product_except(qs, i, k) == pe);
            assert(pe * q == pp * q);
        } else if 0 <= i < k - 1 {
            let qi = qs[i] as int;
            assert(pe * qi == pp);
            assert((pe * q) * qi == pp * q) by (nonlinear_arith)
                requires
                    pe * qi == pp,
            ;
        } else {
            assert(pe * 1 == pp);
        }
        assert(pe * q >= pe) by (nonlinear_arith)
            requires
                pe >= 1,
                q >= 1,
        ;
        if 0 <= i < k {
            let qi = qs[i] as int;
            let pk = product_except(qs, i, k);
            assert(pk * qi >= pk) by (nonlinear_arith)
                requires
                    pk >= 1,
                    qi >= 1,
            ;
        }
    }
}

/// Each modulus other than the one left out divides the product.
pub proof fn lemma_product_except_divisible(qs: Seq<u64>, i: int, j: int, k: int)
    requires
        0 <= j < k <= qs.len(),
        j != i,
        qs[j] >= 1,
    ensures
        product_except(qs, i, k) % (qs[j] as int) == 0,
    decreases k,
{
    let qj = qs[j] as int;
    let pe = product_except(qs, i, k - 1);
    if k - 1 == j {
        lemma_mod_multiples_basic(pe, qj);
    } else {
        lemma_product_except_divisible(qs, i, j, k - 1);
        let f = if k - 1 == i {
            1
        } else {
            qs[k - 1] as int
        };
        lemma_mul_mod_noop_left(pe, f, qj);
        assert(0 * f == 0);
        lemma_small_mod(0, qj as nat);
    }
}

/// The product of the other moduli is invertible modulo a modulus coprime to each of them.
pub proof fn lemma_product_except_invertible(qs: Seq<u64>, i: int, k: int)
    requires
        0 <= i < qs.len(),
        0 <= k <= qs.len(),
        qs[i] >= 2,
        pairwise_coprime(qs),
    ensures
        is_invertible_mod(product_except(qs, i, k), qs[i] as int),
    decreases k,
{
    let qi = qs[i] as int;
    if k == 0 {
        assert((1int * 1int) % qi == 1int % qi);
    } else {
        lemma_product_except_invertible(qs, i, k - 1);
        let pe = product_except(qs, i, k - 1);
        let f = if k - 1 == i {
            1
        } else {
            qs[k - 1] as int
        };
        let y1 = choose|y: int| #[trigger] ((pe * y) % qi) == 1int % qi;
        if k - 1 == i {
            assert(pe * f == pe);
            assert((pe * f * y1) % qi == 1int % qi);
        } else {
            lemma_coprime_invertible(qs[k - 1] as nat, qs[i] as nat);
            let y2 = choose|y: int| #[trigger] ((f * y) % qi) == 1int % qi;
            // (pe f)(y1 y2) = (pe y1)(f y2)
            assert((pe * f) * (y1 * y2) == (pe * y1) * (f * y2)) by (nonlinear_arith);
            lemma_mul_mod_noop((pe * y1), (f * y2), qi);
            lemma_small_mod(1, qi as nat);
            assert(((pe * f) * (y1 * y2)) % qi == 1int % qi);
        }
    }
}

/// The value of base-`2^32` digits, least significant first.
pub open spec fn digits_value(d: Seq<u32>) -> nat
    decreases d.len(),
{
    if d.len() == 0 {
        0
    } else {
        d[0] as nat + 0x1_0000_0000 * digits_value(d.drop_first())
    }
}

/// `BigUint` multiplication by a `u64`, on base-`2^32` digits: the digits of the product.
#[verifier::external_body]
pub(crate) fn digits_mul_u64(a: &Vec<u32>, b: u64) -> (r: Vec<u32>)
    ensures
        digits_value(r@) == digits_value(a@) * b,
{
    (BigUint::new(a.clone()) * b).to_u32_digits()
}

/// `BigUint` multiplication, on base-`2^32` digits: the digits of the product.
#[verifier::external_body]
pub(crate) fn digits_mul(a: &Vec<u32>, b: &Vec<u32>) -> (r: Vec<u32>)
    ensures
        digits_value(r@) == digits_value(a@) * digits_value(b@),
{
    (BigUint::new(a.clone()) * BigUint::new(b.clone())).to_u32_digits()
}

/// `BigUint` remainder by a non-zero `u64`, on base-`2^32` digits.
#[verifier::external_body]
pub(crate) fn digits_rem_u64(a: &Vec<u32>, m: u64) -> (r: u64)
    requires
        m > 0,
    ensures
        r == digits_value(a@) % (m as nat),
{
    (BigUint::new(a.clone()) % m).to_u64().unwrap()
}

/// `BigUint` comparison by `<`, on base-`2^32` digits.
#[verifier::external_body]
pub(crate) fn digits_lt(a: &Vec<u32>, b: &Vec<u32>) -> (r: bool)
    ensures
        r == (digits_value(a@) < digits_value(b@)),
{
    BigUint::new(a.clone()) < BigUint::new(b.clone())
}

/// The base-`2^32` digits of a `u64`.
pub fn digits_of_u64(x: u64) -> (d: Vec<u32>)
    ensures
        digits_value(d@) == x,
{
    let lo = (x % 0x1_0000_0000) as u32;
    let hi = (x / 0x1_0000_0000) as u32;
    let d = vec![lo, hi];
    proof {
        assert(d@.len() == 2 && d@[0] == lo && d@[1] == hi);
        assert(d@.drop_first().drop_first() =~= Seq::<u32>::empty());
        assert(d@.drop_first()[0] == hi);
        reveal_with_fuel(digits_value, 3);
        lemma_fundamental_div_mod(x as int, 0x1_0000_0000);
    }
    d
}

/// `BigUint::modinv` of the number with digits `a` modulo `m`: the inverse in `[0, m)` where
/// one exists, and `None` otherwise.
#[verifier::external_body]
pub(crate) fn digits_modinv_u64(a: &Vec<u32>, m: u64) -> (r: Option<u64>)
    requires
        m >= 2,
    ensures
        r is Some <==> is_invertible_mod(digits_value(a@) as int, m as int),
        r matches Some(y) ==> y < m && (digits_value(a@) * y) % (m as int) == 1,
{
    match BigUint::new(a.clone()).modinv(&BigUint::from(m)) {
        Some(y) => y.to_u64(),
        None => None,
    }
}

/// The Chinese remainder coefficients of pairwise coprime moduli, as base-`2^32` digits:
/// coefficient `i` is the product of the other moduli times its inverse modulo `qs[i]`, so it
/// is one modulo `qs[i]` and zero modulo the others.
pub fn rns_coeffs<const L: usize>(qs: [u64; L]) -> (c: Vec<Vec<u32>>)
    requires
        forall|i: int| 0 <= i < L ==> #[trigger] qs@[i] >= 2,
        pairwise_coprime(qs@),
    ensures
        c@.len() == L,
        forall|i: int| 0 <= i < L ==> crt_basis(qs@, i, digits_value(#[trigger] c@[i]@) as int),
{
    let ghost total = prefix_product(qs@, L as int);
    let mut res: Vec<Vec<u32>> = Vec::new();
    let mut i: usize = 0;
    while i < L
        invariant
            0 <= i <= L,
            forall|a: int| 0 <= a < L ==> #[trigger] qs@[a] >= 2,
            pairwise_coprime(qs@),
            total == prefix_product(qs@, L as int),
            res@.len() == i,
            forall|a: int| 0 <= a < i ==> crt_basis(qs@, a, digits_value(#[trigger] res@[a]@) as int),
        decreases L - i,
    {
        let mut cprod: Vec<u32> = vec![1u32];
        let mut k: usize = 0;
        proof {
            assert(cprod@.len() == 1 && cprod@[0] == 1);
            assert(cprod@.drop_first() =~= Seq::<u32>::empty());
            reveal_with_fuel(digits_value, 2);
            assert(digits_value(cprod@) == 1);
        }
        while k < L
            invariant
                0 <= k <= L,
                0 <= i < L,
                forall|a: int| 0 <= a < L ==> #[trigger] qs@[a] >= 2,
                digits_value(cprod@) == product_except(qs@, i as int, k as int),
            decreases L - k,
        {
            if k != i {
                cprod = digits_mul_u64(&cprod, qs[k]);
            }
            proof {
                assert(digits_value(cprod@) == product_except(qs@, i as int, k + 1));
            }
            k += 1;
        }
        let qi = qs[i];
        proof {
            lemma_product_except_invertible(qs@, i as int, L as int);
        }
        let inv = digits_modinv_u64(&cprod, qi).unwrap();
        let ci = digits_mul_u64(&cprod, inv);
        proof {
            lemma_product_except(qs@, i as int, L as int);
            let cp = product_except(qs@, i as int, L as int);
            let qq = qi as int;
            assert(cp * qq == total);
            assert(cp * inv < cp * qq) by (nonlinear_arith)
                requires
                    cp >= 1,
                    inv < qq,
            ;
            assert(digits_value(ci@) == cp * inv);
            lemma_small_mod(1, qq as nat);
            assert forall|j: int| 0 <= j < L && j != i implies #[trigger] ((cp * inv) % (
            qs@[j] as int)) == 0 by {
                lemma_product_except_divisible(qs@, i as int, j, L as int);
                lemma_mul_mod_noop_left(cp, inv as int, qs@[j] as int);
                assert(0 * (inv as int) == 0);
                lemma_small_mod(0, qs@[j] as nat);
            }
            assert(crt_basis(qs@, i as int, digits_value(ci@) as int));
        }
        res.push(ci);
        i += 1;
    }
    res
}

/// Digits whose value is below `2^128`, read as a `u128`.
pub fn digits_to_u128(d: &Vec<u32>) -> (r: u128)
    requires
        digits_value(d@) <= u128::MAX,
    ensures
        r == digits_value(d@),
{
    let n = d.len();
    let mut acc: u128 = 0;
    let mut k: usize = n;
    proof {
        assert(d@.subrange(n as int, n as int) =~= Seq::<u32>::empty());
    }
    while k > 0
        invariant
            n == d@.len(),
            0 <= k <= n,
            digits_value(d@) <= u128::MAX,
            acc == digits_value(d@.subrange(k as int, n as int)),
        decreases k,
    {
        let ghost tail = d@.subrange(k - 1, n as int);
        proof {
            assert(tail.drop_first() =~= d@.subrange(k as int, n as int));
            lemma_digits_suffix(d@, k - 1);
        }
        acc = acc * 0x1_0000_0000 + d[k - 1] as u128;
        k -= 1;
    }
    proof {
        assert(d@.subrange(0, n as int) =~= d@);
    }
    acc
}

/// A suffix of the digits has a value no larger than the whole.
proof fn lemma_digits_suffix(d: Seq<u32>, k: int)
    requires
        0 <= k <= d.len(),
    ensures
        digits_value(d.subrange(k, d.len() as int)) <= digits_value(d),
    decreases k,
{
    if k > 0 {
        lemma_digits_suffix(d, k - 1);
        let t = d.subrange(k - 1, d.len() as int);
        assert(t.drop_first() =~= d.subrange(k, d.len() as int));
    } else {
        assert(d.subrange(0, d.len() as int) =~= d);
    }
}

/// Products leaving a factor out grow with the number of factors.
pub proof fn lemma_product_except_monotone(qs: Seq<u64>, i: int, k1: int, k2: int)
    requires
        0 <= k1 <= k2 <= qs.len(),
        forall|j: int| 0 <= j < qs.len() ==> #[trigger] qs[j] >= 1,
    ensures
        product_except(qs, i, k1) <= product_except(qs, i, k2),
    decreases k2 - k1,
{
    if k1 < k2 {
        lemma_product_except_monotone(qs, i, k1, k2 - 1);
        lemma_product_except(qs, i, k2 - 1);
        let pe = product_except(qs, i, k2 - 1);
        let f = if k2 - 1 == i {
            1
        } else {
            qs[k2 - 1] as int
        };
        assert(pe * f >= pe) by (nonlinear_arith)
            requires
                pe >= 1,
                f >= 1,
        ;
    }
}

/// The residue modulo `q1 q2` with residue `v1` modulo `q1` and `v2` modulo `q2`.
pub open spec fn crt2(v1: int, v2: int, q1: int, q2: int) -> int {
    choose|x: int| 0 <= x < q1 * q2 && #[trigger] (x % q1) == v1 && x % q2 == v2
}

/// Integers congruent modulo two coprime moduli are congruent modulo their product.
pub proof fn lemma_crt_congruent(x: int, y: int, q1: int, q2: int)
    requires
        q1 >= 1,
        q2 >= 1,
        gcd(q1 as nat, q2 as nat) == 1,
        x % q1 == y % q1,
        x % q2 == y % q2,
    ensures
        x % (q1 * q2) == y % (q1 * q2),
{
    let d = x - y;
    lemma_sub_mod_noop(x, y, q1);
    lemma_sub_mod_noop(x, y, q2);
    lemma_small_mod(0, q1 as nat);
    lemma_small_mod(0, q2 as nat);
    assert(d % q1 == 0);
    assert(d % q2 == 0);
    lemma_fundamental_div_mod(d, q1);
    let k = d / q1;
    assert(d == q1 * k);
    lemma_bezout(q1 as nat, q2 as nat);
    let (s, t) = bezout(q1 as nat, q2 as nat);
    assert(k == s * d + q2 * (t * k)) by (nonlinear_arith)
        requires
            q1 * s + q2 * t == 1,
            d == q1 * k,
    ;
    // s * d and q2 * (t * k) are multiples of q2
    lemma_fundamental_div_mod(d, q2);
    let e = d / q2;
    assert(s * d == q2 * (s * e)) by (nonlinear_arith)
        requires
            d == q2 * e,
    ;
    assert(k == q2 * (s * e + t * k)) by (nonlinear_arith)
        requires
            k == s * d + q2 * (t * k),
            s * d == q2 * (s * e),
    ;
    let l = s * e + t * k;
    assert(d == (q1 * q2) * l) by (nonlinear_arith)
        requires
            d == q1 * k,
            k == q2 * l,
    ;
    assert(q1 * q2 > 0) by (nonlinear_arith)
        requires
            q1 >= 1,
            q2 >= 1,
    ;
    lemma_mod_multiples_vanish(l, y, q1 * q2);
    assert(x == (q1 * q2) * l + y);
}

/// The Chinese remainder theorem for two coprime moduli: `crt2` has the given residues.
pub proof fn lemma_crt2(v1: int, v2: int, q1: int, q2: int)
    requires
        q1 >= 1,
        q2 >= 1,
        gcd(q1 as nat, q2 as nat) == 1,
        0 <= v1 < q1,
        0 <= v2 < q2,
    ensures
        0 <= crt2(v1, v2, q1, q2) < q1 * q2,
        crt2(v1, v2, q1, q2) % q1 == v1,
        crt2(v1, v2, q1, q2) % q2 == v2,
{
    lemma_bezout(q1 as nat, q2 as nat);
    let (s, t) = bezout(q1 as nat, q2 as nat);
    let x0 = v1 + q1 * (s * (v2 - v1));
    assert(x0 == v2 + q2 * (-(t * (v2 - v1)))) by (nonlinear_arith)
        requires
            q1 * s + q2 * t == 1,
            x0 == v1 + q1 * (s * (v2 - v1)),
    ;
    lemma_mod_multiples_vanish(s * (v2 - v1), v1, q1);
    lemma_mod_multiples_vanish(-(t * (v2 - v1)), v2, q2);
    lemma_small_mod(v1 as nat, q1 as nat);
    lemma_small_mod(v2 as nat, q2 as nat);
    assert(q1 * q2 > 0) by (nonlinear_arith)
        requires
            q1 >= 1,
            q2 >= 1,
    ;
    let x = x0 % (q1 * q2);
    lemma_mod_bound(x0, q1 * q2);
    lemma_mod_mod(x0, q1, q2);
    lemma_mul_is_commutative(q1, q2);
    lemma_mod_mod(x0, q2, q1);
    assert(0 <= x < q1 * q2 && x % q1 == v1 && x % q2 == v2);
}

/// For coprime moduli, a residue modulo the product is the `crt2` of its residues.
pub proof fn lemma_crt2_unique(x: int, q1: int, q2: int)
    requires
        q1 >= 1,
        q2 >= 1,
        gcd(q1 as nat, q2 as nat) == 1,
        0 <= x < q1 * q2,
    ensures
        crt2(x % q1, x % q2, q1, q2) == x,
{
    lemma_mod_bound(x, q1);
    lemma_mod_bound(x, q2);
    lemma_crt2(x % q1, x % q2, q1, q2);
    let c = crt2(x % q1, x % q2, q1, q2);
    lemma_crt_congruent(c, x, q1, q2);
    lemma_small_mod(x as nat, (q1 * q2) as nat);
    lemma_small_mod(c as nat, (q1 * q2) as nat);
}

/// Coprimality does not depend on the order of the two numbers.
pub proof fn lemma_coprime_symmetric(a: nat, b: nat)
    requires
        a >= 1,
        b >= 1,
        gcd(a, b) == 1,
    ensures
        gcd(b, a) == 1,
{
    lemma_bezout(a, b);
    let (s, t) = bezout(a, b);
    assert(a * s == b * (-t) + 1) by (nonlinear_arith)
        requires
            a * s + b * t == 1,
    ;
    lemma_mod_multiples_vanish(-t, 1, b as int);
    lemma_mul_is_commutative(b as int, -t);
    assert(((a as int) * s) % (b as int) == 1int % (b as int));
    lemma_invertible_coprime(a, b);
}

} // verus!
