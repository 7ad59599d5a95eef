//! Number-theoretic helpers (modular powers and inverses, roots of unity, generators)
//! and the negacyclic number-theoretic transform over `Fq<Q>`.
use vstd::arithmetic::div_mod::*;
use vstd::arithmetic::mul::*;
use vstd::arithmetic::power::*;
use vstd::arithmetic::power2::*;
use vstd::prelude::*;

use crate::arith::{
    gcd, ilog2, is_invertible_mod, is_pow2, is_prime, lemma_coprime_invertible, lemma_gcd_step,
    lemma_gcd_zero, lemma_ilog2_bound, lemma_inverse_unique_residue, lemma_invertible_coprime,
    lemma_pow_inverse, lemma_pow_step, lemma_prime_coprime, pow_mod, rev_bits,
};
use crate::butterfly::{
    add_mod, fwd_layer, fwd_upto, inv_layer, inv_until, inverse_tables, lemma_block,
    lemma_fwd_upto_additive, lemma_fwd_upto_len, lemma_inv_until_len, lemma_stage_shape,
    lemma_transform_reverse_roundtrip, lemma_transform_roundtrip, reduced, scale,
};
use crate::convolution::{eval_point, lemma_ntt_layers_is_ntt_of, poly_eval};
use crate::fq::{fq_zero, Fq};
use crate::nonresidue::lemma_nonresidue_exists;
use crate::ring::{all_wf, vals, Ring};

verus! {

/// Absolute value.
pub open spec fn abs(i: int) -> int {
    if i < 0 {
        -i
    } else {
        i
    }
}

/// Return x^k mod Q
pub fn const_pow_mod<const Q: u64>(x: u64, k: u64) -> (res: u64)
    requires
        Q > 0,
    ensures
        res == pow_mod(x as int, k as nat, Q as int),
{
    let mut res: u128 = 1;
    let mut x: u128 = x as u128;
    let mut k: u128 = k as u128;
    let ghost x0 = x as int;
    let ghost k0 = k as nat;
    proof {
        lemma_pow0(x as int);
    }
    while k > 0
        invariant
            Q > 0,
            res < Q || res == 1,
            x <= u64::MAX,
            k <= u64::MAX,
            k0 == 0 ==> k == 0 && res == 1,
            k > 0 || k0 == 0 || res < Q,
            k0 > 0 ==> (res * pow(x as int, k as nat)) % (Q as int) == pow(x0, k0) % (Q as int),
        decreases k,
    {
        proof {
            lemma_pow_step(res as int, x as int, k as nat, Q as int);
            assert(res * x <= u64::MAX * u64::MAX) by (nonlinear_arith)
                requires
                    res <= u64::MAX,
                    x <= u64::MAX,
            ;
            assert(x * x <= u64::MAX * u64::MAX) by (nonlinear_arith)
                requires
                    x <= u64::MAX,
            ;
        }
        if k % 2 == 1 {
            res = (res * x) % (Q as u128);
        }
        x = (x * x) % (Q as u128);
        k /= 2;
    }
    proof {
        if k0 > 0 {
            lemma_pow0(x as int);
            lemma_small_mod(res as nat, Q as nat);
        }
    }
    res as u64
}

proof fn lemma_euclid_step(t: int, nt: int, r: int, nr: int, q: int, m: int)
    requires
        nr > 0,
        r >= 0,
        q == r / nr,
        t * nt <= 0,
        r * abs(nt) + nr * abs(t) == m,
    ensures
        q >= 0,
        q * nr <= r,
        r - q * nr == r % nr,
        nt * (t - q * nt) <= 0,
        abs(t - q * nt) == abs(t) + q * abs(nt),
        nr * abs(t - q * nt) + (r - q * nr) * abs(nt) == m,
{
    lemma_fundamental_div_mod(r, nr);
    lemma_div_pos_is_pos(r, nr);
    lemma_mod_bound(r, nr);
    assert(q * nr == nr * q) by {
        lemma_mul_is_commutative(q, nr);
    }
    assert(abs(q * nt) == q * abs(nt)) by {
        if nt < 0 {
            lemma_mul_unary_negation(q, -nt);
            lemma_mul_nonnegative(q, -nt);
        } else {
            lemma_mul_nonnegative(q, nt);
        }
    }
    assert(nt * (q * nt) >= 0) by (nonlinear_arith)
        requires
            q >= 0,
    ;
    assert(nt * (t - q * nt) == nt * t - nt * (q * nt)) by {
        lemma_mul_is_distributive_sub(nt, t, q * nt);
    }
    assert(nt * t == t * nt) by {
        lemma_mul_is_commutative(nt, t);
    }
    // signs: t and q*nt have opposite signs (or one is zero)
    assert(abs(t - q * nt) == abs(t) + abs(q * nt)) by {
        if nt > 0 {
            if t > 0 {
                lemma_mul_strictly_positive(t, nt);
            }
            lemma_mul_nonnegative(q, nt);
        } else if nt < 0 {
            if t < 0 {
                lemma_mul_strictly_positive(-t, -nt);
                lemma_mul_cancels_negatives(t, nt);
            }
            lemma_mul_nonnegative(q, -nt);
            lemma_mul_unary_negation(q, -nt);
        } else {
            lemma_mul_basics(q);
        }
    }
    assert(nr * (abs(t) + q * abs(nt)) == nr * abs(t) + nr * (q * abs(nt))) by {
        lemma_mul_is_distributive_add(nr, abs(t), q * abs(nt));
    }
    assert((r - q * nr) * abs(nt) == r * abs(nt) - (q * nr) * abs(nt)) by {
        lemma_mul_is_distributive_sub_other_way(abs(nt), r, q * nr);
    }
    assert(nr * (q * abs(nt)) == (q * nr) * abs(nt)) by {
        lemma_mul_is_associative(nr, q, abs(nt));
        lemma_mul_is_associative(q, nr, abs(nt));
    }
}

proof fn lemma_congruence_step(t: int, nt: int, r: int, nr: int, q: int, x: int, m: int)
    requires
        m > 0,
        (t * x - r) % m == 0,
        (nt * x - nr) % m == 0,
    ensures
        ((t - q * nt) * x - (r - q * nr)) % m == 0,
{
    assert((t - q * nt) * x - (r - q * nr) == (t * x - r) - q * (nt * x - nr)) by {
        lemma_mul_is_distributive_sub_other_way(x, t, q * nt);
        lemma_mul_is_associative(q, nt, x);
        lemma_mul_is_distributive_sub(q, nt * x, nr);
    }
    lemma_mul_mod_noop_right(q, nt * x - nr, m);
    lemma_mul_basics(q);
    lemma_small_mod(0, m as nat);
    assert((q * (nt * x - nr)) % m == 0);
    lemma_sub_mod_noop(t * x - r, q * (nt * x - nr), m);
}

/// The inverse of `x` modulo `q`, by the extended Euclidean algorithm.
pub fn inv_mod_u64(x: u64, q: u64) -> (res: u64)
    requires
        gcd(q as nat, x as nat) == 1,
    ensures
        q > 0 ==> res <= q,
        q > 0 ==> (x * res) % (q as int) == 1int % (q as int),
        q > 1 ==> res < q,
        q == 0 ==> res == x,
        x == 0 ==> res == 0,
{
    let mut t: i128 = 0;
    let mut new_t: i128 = 1;
    let mut r: i128 = q as i128;
    let mut new_r: i128 = x as i128;
    let ghost m = q as int;
    proof {
        if m > 0 {
            lemma_mod_self_0(m);
            assert((0 * (x as int) - m) == -m);
            lemma_mod_multiples_vanish(-1, 0, m);
            assert(-1 * m + 0 == -m);
            lemma_small_mod(0, m as nat);
            assert((1 * (x as int) - x) == 0);
        }
        assert(abs(1) == 1);
        assert(abs(0) == 0);
        lemma_mul_basics(m);
        lemma_mul_basics(x as int);
    }
    while new_r != 0
        invariant
            0 <= r <= u64::MAX,
            0 <= new_r <= u64::MAX,
            r > 0 || m == 0,
            gcd(r as nat, new_r as nat) == gcd(q as nat, x as nat),
            t * new_t <= 0,
            r * abs(new_t as int) + new_r * abs(t as int) == m,
            m == q,
            abs(t as int) <= m || m == 0,
            x == 0 ==> t == 0 && new_r == 0,
            m > 0 ==> (t * x - r) % m == 0,
            m > 0 ==> (new_t * x - new_r) % m == 0,
            m == 0 ==> ((t == 0 && new_t == 1 && r == 0 && new_r == x) || (t == 1 && r == x
                && new_r == 0)),
        decreases new_r,
    {
        let quotient = r / new_r;
        proof {
            lemma_euclid_step(t as int, new_t as int, r as int, new_r as int, quotient as int, m);
            if m > 0 {
                lemma_congruence_step(
                    t as int,
                    new_t as int,
                    r as int,
                    new_r as int,
                    quotient as int,
                    x as int,
                    m,
                );
            }
            let nt_next = t - quotient * new_t;
            // bound the next coefficient through the invariant
            assert(new_r * abs(nt_next) <= m);
            assert(abs(nt_next) <= m) by {
                if abs(nt_next) > 0 {
                    lemma_mul_increases(new_r as int, abs(nt_next));
                    lemma_mul_is_commutative(new_r as int, abs(nt_next));
                }
            }
            if m > 0 && abs(new_t as int) > 0 {
                lemma_mul_increases(r as int, abs(new_t as int));
                lemma_mul_is_commutative(r as int, abs(new_t as int));
            }
            assert(quotient * abs(new_t as int) <= m);
            assert(abs(quotient * new_t) == quotient * abs(new_t as int)) by {
                if new_t < 0 {
                    lemma_mul_unary_negation(quotient as int, -new_t);
                    lemma_mul_nonnegative(quotient as int, -new_t);
                } else {
                    lemma_mul_nonnegative(quotient as int, new_t as int);
                }
            }
            lemma_gcd_step(r as nat, new_r as nat);
            if m == 0 && r == 0 {
                assert(quotient == 0);
            }
        }
        let next_t = t - quotient * new_t;
        let next_r = r - quotient * new_r;
        t = new_t;
        new_t = next_t;
        r = new_r;
        new_r = next_r;
    }
    proof {
        lemma_gcd_zero(r as nat);
        assert(r == 1);
    }
    let ghost t_before = t as int;
    if t < 0 {
        t = t + (q as i128);
    }
    proof {
        if m > 0 {
            let tt = t as int;
            assert((tt * x - 1) % m == 0) by {
                if t_before < 0 {
                    assert(tt * x - 1 == (t_before * x - 1) + x * m) by {
                        lemma_mul_is_distributive_add_other_way(x as int, t_before, m);
                        lemma_mul_is_commutative(m, x as int);
                    }
                    lemma_mod_multiples_vanish(x as int, t_before * x - 1, m);
                }
            }
            lemma_add_mod_noop(tt * x - 1, 1, m);
            lemma_mod_twice(1, m);
            assert(x * tt == tt * x) by {
                lemma_mul_is_commutative(x as int, tt);
            }
            if m > 1 && tt == m {
                lemma_mod_multiples_basic(x as int, m);
                lemma_small_mod(1, m as nat);
            }
        }
    }
    t as u64
}

/// Return inverse of x modulo Q
pub fn const_inv_mod<const Q: u64>(x: u64) -> (res: u64)
    requires
        gcd(Q as nat, x as nat) == 1,
    ensures
        Q > 0 ==> res <= Q,
        Q > 0 ==> (x * res) % (Q as int) == 1int % (Q as int),
        Q > 1 ==> res < Q,
        Q == 0 ==> res == x,
        x == 0 ==> res == 0,
{
    inv_mod_u64(x, Q)
}

/// Applies one Cooley-Tukey layer in place.
fn fwd_layer_inplace<const Q: u64, const N: usize>(
    coeffs: &mut [Fq<Q>; N],
    m: usize,
    t: usize,
    w: &[Fq<Q>; N],
)
    requires
        t > 0,
        m > 0,
        2 * t * m == N,
        2 * m <= N,
        all_wf(old(coeffs)@),
        all_wf(w@),
    ensures
        all_wf(final(coeffs)@),
        vals(final(coeffs)@) == fwd_layer(vals(old(coeffs)@), m as int, t as int, vals(w@), Q as int),
{
    let ghost b = vals(coeffs@);
    let ghost f = fwd_layer(b, m as int, t as int, vals(w@), Q as int);
    proof {
        assert(2 * 0 * t == 0) by (nonlinear_arith);
        assert(forall|p: int| 0 <= p < N ==> #[trigger] coeffs[p].val() == b[p]);
    }
    for i in 0..m
        invariant
            t > 0,
            m > 0,
            2 * t * m == N,
            2 * m <= N,
            all_wf(coeffs@),
            all_wf(w@),
            b == vals(old(coeffs)@),
            f == fwd_layer(b, m as int, t as int, vals(w@), Q as int),
            forall|p: int|
                0 <= p < N ==> #[trigger] coeffs[p].val() == (if p < 2 * i * t {
                    f[p]
                } else {
                    b[p]
                }),
    {
        proof {
            assert(2 * i * t + 2 * t <= N) by (nonlinear_arith)
                requires
                    i < m,
                    2 * t * m == N,
            ;
        }
        let j1 = 2 * i * t;
        let j2 = j1 + t - 1;
        let s = w[m + i];
        for j in j1..j2 + 1
            invariant
                t > 0,
                m > 0,
                i < m,
                2 * t * m == N,
                2 * m <= N,
                j1 == 2 * i * t,
                j2 == j1 + t - 1,
                j1 + 2 * t <= N,
                j1 <= j <= j2 + 1,
                s == w[m + i],
                all_wf(coeffs@),
                all_wf(w@),
                b == vals(old(coeffs)@),
                f == fwd_layer(b, m as int, t as int, vals(w@), Q as int),
                forall|p: int|
                    0 <= p < N ==> #[trigger] coeffs[p].val() == (if p < j1 || (j1 <= p < j) || (
                    j1 + t <= p < j + t) {
                        f[p]
                    } else {
                        b[p]
                    }),
        {
            proof {
                let jj = j as int;
                let tt = t as int;
                assert(jj == i * (2 * tt) + (jj - j1)) by (nonlinear_arith)
                    requires
                        j1 == 2 * i * t,
                        jj == j,
                        tt == t,
                ;
                vstd::arithmetic::div_mod::lemma_fundamental_div_mod_converse(
                    jj,
                    2 * tt,
                    i as int,
                    jj - j1,
                );
                lemma_block(jj, tt, m as int);
                assert(coeffs[jj].val() == b[jj]);
                assert(coeffs[jj + tt].val() == b[jj + tt]);
                assert(f[jj] == (b[jj] + (b[jj + tt] * vals(w@)[m + i]) % (Q as int)) % (Q as int));
                assert(f[jj + tt] == (b[jj] - (b[jj + tt] * vals(w@)[m + i]) % (Q as int)) % (Q as int));
            }
            let u = coeffs[j];
            let v = coeffs[j + t].mul(&s);
            coeffs[j] = u.add(&v);
            coeffs[j + t] = u.sub(&v);
        }
        proof {
            assert(2 * (i + 1) * t == j1 + 2 * t) by (nonlinear_arith)
                requires
                    j1 == 2 * i * t,
            ;
        }
    }
    proof {
        assert(2 * m * t == N) by (nonlinear_arith)
            requires
                2 * t * m == N,
        ;
        assert(vals(coeffs@) =~= f);
    }
}

/// Applies one Gentleman-Sande layer in place.
fn inv_layer_inplace<const Q: u64, const N: usize>(
    coeffs: &mut [Fq<Q>; N],
    h: usize,
    t: usize,
    wi: &[Fq<Q>; N],
)
    requires
        t > 0,
        h > 0,
        2 * t * h == N,
        2 * h <= N,
        all_wf(old(coeffs)@),
        all_wf(wi@),
    ensures
        all_wf(final(coeffs)@),
        vals(final(coeffs)@) == inv_layer(vals(old(coeffs)@), h as int, t as int, vals(wi@), Q as int),
{
    let ghost b = vals(coeffs@);
    let ghost f = inv_layer(b, h as int, t as int, vals(wi@), Q as int);
    let mut j1: usize = 0;
    proof {
        assert(2 * 0 * t == 0) by (nonlinear_arith);
        assert(forall|p: int| 0 <= p < N ==> #[trigger] coeffs[p].val() == b[p]);
    }
    for i in 0..h
        invariant
            t > 0,
            h > 0,
            2 * t * h == N,
            2 * h <= N,
            j1 == 2 * i * t,
            all_wf(coeffs@),
            all_wf(wi@),
            b == vals(old(coeffs)@),
            f == inv_layer(b, h as int, t as int, vals(wi@), Q as int),
            forall|p: int|
                0 <= p < N ==> #[trigger] coeffs[p].val() == (if p < 2 * i * t {
                    f[p]
                } else {
                    b[p]
                }),
    {
        proof {
            assert(2 * i * t + 2 * t <= N) by (nonlinear_arith)
                requires
                    i < h,
                    2 * t * h == N,
            ;
        }
        let j2 = j1 + t - 1;
        let s = wi[h + i];
        for j in j1..j2 + 1
            invariant
                t > 0,
                h > 0,
                i < h,
                2 * t * h == N,
                2 * h <= N,
                j1 == 2 * i * t,
                j2 == j1 + t - 1,
                j1 + 2 * t <= N,
                j1 <= j <= j2 + 1,
                s == wi[h + i],
                all_wf(coeffs@),
                all_wf(wi@),
                b == vals(old(coeffs)@),
                f == inv_layer(b, h as int, t as int, vals(wi@), Q as int),
                forall|p: int|
                    0 <= p < N ==> #[trigger] coeffs[p].val() == (if p < j1 || (j1 <= p < j) || (
                    j1 + t <= p < j + t) {
                        f[p]
                    } else {
                        b[p]
                    }),
        {
            proof {
                let jj = j as int;
                let tt = t as int;
                assert(jj == i * (2 * tt) + (jj - j1)) by (nonlinear_arith)
                    requires
                        j1 == 2 * i * t,
                        jj == j,
                        tt == t,
                ;
                vstd::arithmetic::div_mod::lemma_fundamental_div_mod_converse(
                    jj,
                    2 * tt,
                    i as int,
                    jj - j1,
                );
                lemma_block(jj, tt, h as int);
                assert(coeffs[jj].val() == b[jj]);
                assert(coeffs[jj + tt].val() == b[jj + tt]);
                assert(f[jj] == (b[jj] + b[jj + tt]) % (Q as int));
                assert(f[jj + tt] == (((b[jj] - b[jj + tt]) % (Q as int)) * vals(wi@)[h + i]) % (Q as int));
            }
            let u = coeffs[j];
            let v = coeffs[j + t];
            coeffs[j] = u.add(&v);
            coeffs[j + t] = u.sub(&v).mul(&s);
        }
        proof {
            assert(2 * (i + 1) * t == j1 + 2 * t) by (nonlinear_arith)
                requires
                    j1 == 2 * i * t,
            ;
        }
        j1 += 2 * t;
    }
    proof {
        assert(2 * h * t == N) by (nonlinear_arith)
            requires
                2 * t * h == N,
        ;
        assert(vals(coeffs@) =~= f);
    }
}

/// `floor(log2(n))` for `n >= 1`.
fn ilog2_usize(n: usize) -> (l: u32)
    requires
        n >= 1,
    ensures
        l == ilog2(n as nat),
        l < 64,
{
    let mut x = n;
    let mut l: u32 = 0;
    proof {
        lemma2_to64();
    }
    while x > 1
        invariant
            x >= 1,
            l + ilog2(x as nat) == ilog2(n as nat),
            l + x <= usize::MAX + 1,
            x * pow2(l as nat) <= n,
        decreases x,
    {
        proof {
            lemma_pow2_unfold((l + 1) as nat);
            assert((x / 2) * pow2((l + 1) as nat) <= n) by (nonlinear_arith)
                requires
                    x * pow2(l as nat) <= n,
                    pow2((l + 1) as nat) == 2 * pow2(l as nat),
                    x > 1,
            ;
            lemma_pow2_pos(l as nat);
            if l >= 63 {
                lemma_pow2_strictly_increases(63, (l + 1) as nat);
                lemma2_to64_rest();
                assert(pow2(64) > usize::MAX);
                assert((x / 2) * pow2((l + 1) as nat) >= pow2((l + 1) as nat)) by (nonlinear_arith)
                    requires
                        x / 2 >= 1,
                ;
                lemma_pow2_strictly_increases(64, (l + 1) as nat);
            }
        }
        x = x / 2;
        l = l + 1;
    }
    proof {
        if l >= 64 {
            lemma2_to64_rest();
            lemma_pow2_pos(l as nat);
            if l > 64 {
                lemma_pow2_strictly_increases(64, l as nat);
            }
        }
    }
    l
}

/// The index `i` with its lowest `log2(N)` bits reversed.
pub fn bit_reversed_index<const N: usize>(i: usize) -> (r: usize)
    requires
        N >= 2,
    ensures
        r == rev_bits(i as nat, ilog2(N as nat)),
        r < N,
{
    let log_n = ilog2_usize(N);
    let mut x = i;
    let mut r: usize = 0;
    let mut k: u32 = 0;
    proof {
        lemma_ilog2_bound(N as nat);
        lemma2_to64();
    }
    while k < log_n
        invariant
            k <= log_n,
            log_n == ilog2(N as nat),
            pow2(log_n as nat) <= N,
            r < pow2(k as nat),
            r * pow2((log_n - k) as nat) + rev_bits(x as nat, (log_n - k) as nat) == rev_bits(
                i as nat,
                log_n as nat,
            ),
        decreases log_n - k,
    {
        proof {
            let m = (log_n - k) as nat;
            lemma_pow2_unfold(m);
            lemma_pow2_unfold((k + 1) as nat);
            assert((2 * r + x % 2) * pow2((m - 1) as nat) + rev_bits((x / 2) as nat, (m - 1) as nat)
                == r * pow2(m) + rev_bits(x as nat, m)) by (nonlinear_arith)
                requires
                    pow2(m) == 2 * pow2((m - 1) as nat),
                    rev_bits(x as nat, m) == (x % 2) * pow2((m - 1) as nat) + rev_bits(
                        (x / 2) as nat,
                        (m - 1) as nat,
                    ),
            ;
        }
        proof {
            if k + 1 < log_n {
                lemma_pow2_strictly_increases((k + 1) as nat, log_n as nat);
            }
        }
        r = 2 * r + x % 2;
        x = x / 2;
        k = k + 1;
        proof {
            if k < log_n {
                lemma_pow2_strictly_increases(k as nat, log_n as nat);
            }
        }
    }
    proof {
        lemma2_to64();
        lemma_mul_basics(r as int);
    }
    r
}

/// The element of `F_Q` with residue `x`, which must be below `Q`.
pub fn const_fq_from<const Q: u64>(x: u64) -> (r: Fq<Q>)
    requires
        x < Q,
    ensures
        r.wf(),
        r.val() == x,
{
    Fq::new_unchecked(x)
}

/// The powers `x^0, ..., x^(N-1)` modulo `Q`.
pub fn const_pows<const Q: u64, const N: usize>(x: u64) -> (pows_fq: [Fq<Q>; N])
    requires
        Q >= 2,
        N >= 1,
    ensures
        all_wf(pows_fq@),
        forall|i: int| 0 <= i < N ==> #[trigger] pows_fq[i].val() == pow(x as int, i as nat) % (Q as int),
{
    let mut pows = [0u64; N];
    let mut pows_fq = [fq_zero::<Q>(); N];
    pows[0] = 1;
    pows_fq[0] = const_fq_from(1);
    proof {
        lemma_pow0(x as int);
        lemma_small_mod(1, Q as nat);
    }
    let mut i: usize = 1;
    while i < N
        invariant
            Q >= 2,
            1 <= i <= N,
            all_wf(pows_fq@),
            forall|j: int| 0 <= j < i ==> #[trigger] pows[j] == pow(x as int, j as nat) % (Q as int),
            forall|j: int| 0 <= j < i ==> #[trigger] pows_fq[j].val() == pows[j],
            forall|j: int| i <= j < N ==> #[trigger] pows_fq[j].wf(),
        decreases N - i,
    {
        proof {
            lemma_mul_upper_bound(
                pows[i - 1] as int,
                u64::MAX as int,
                x as int,
                u64::MAX as int,
            );
        }
        let pow: u128 = (pows[i - 1] as u128).checked_mul(x as u128).unwrap();
        pows[i] = (pow % (Q as u128)) as u64;
        proof {
            let j = (i - 1) as int;
            assert(pows[j] == vstd::arithmetic::power::pow(x as int, j as nat) % (Q as int));
            lemma_mul_mod_noop_left(vstd::arithmetic::power::pow(x as int, j as nat), x as int, Q as int);
            reveal(vstd::arithmetic::power::pow);
            assert(vstd::arithmetic::power::pow(x as int, i as nat) == x * vstd::arithmetic::power::pow(x as int, j as nat));
            lemma_mul_is_commutative(x as int, vstd::arithmetic::power::pow(x as int, j as nat));
        }
        pows_fq[i] = const_fq_from(pows[i]);
        i += 1;
    }
    pows_fq
}

/// The powers `psi^rev(i)` modulo `Q`, where `rev(i)` reverses the lowest `log2(N)` bits.
pub fn pows_bit_reversed<const Q: u64, const N: usize>(psi: u64) -> (r: [Fq<Q>; N])
    requires
        Q >= 2,
        N >= 2,
        is_pow2(N as nat),
        Q as int % (2 * N as int) == 1,
    ensures
        all_wf(r@),
        forall|i: int|
            0 <= i < N ==> #[trigger] r[i].val() == pow(psi as int, rev_bits(i as nat, ilog2(N as nat)))
                % (Q as int),
{
    let pows = const_pows::<Q, N>(psi);
    let mut pows_bit_reversed = [fq_zero::<Q>(); N];
    let mut i: usize = 0;
    while i < N
        invariant
            Q >= 2,
            N >= 2,
            0 <= i <= N,
            all_wf(pows@),
            forall|j: int| 0 <= j < N ==> #[trigger] pows[j].val() == pow(psi as int, j as nat) % (Q as int),
            all_wf(pows_bit_reversed@),
            forall|j: int|
                0 <= j < i ==> #[trigger] pows_bit_reversed[j].val() == pow(
                    psi as int,
                    rev_bits(j as nat, ilog2(N as nat)),
                ) % (Q as int),
        decreases N - i,
    {
        let k = bit_reversed_index::<N>(i);
        pows_bit_reversed[i] = pows[k];
        i += 1;
    }
    pows_bit_reversed
}

/// Candidate `i` gives `g = i^((q-1)/d) mod q` with `g^c mod q != 1`.
pub open spec fn root_candidate_ok(i: int, q: int, d: int, c: int) -> bool {
    pow_mod(pow_mod(i, ((q - 1) / d) as nat, q), c as nat, q) != 1
}

/// The first candidate at least `i` (or `q` when there is none below `q`).
pub open spec fn first_root_candidate(i: int, q: int, d: int, c: int) -> int
    decreases q - i,
{
    if i >= q {
        q
    } else if root_candidate_ok(i, q, d, c) {
        i
    } else {
        first_root_candidate(i + 1, q, d, c)
    }
}

/// The primitive `2n`-th root of unity that the search below returns.
pub open spec fn two_nth_root(q: int, n: int) -> int {
    pow_mod(first_root_candidate(1, q, 2 * n, n), ((q - 1) / (2 * n)) as nat, q)
}

/// The primitive `n`-th root of unity that the search below returns.
pub open spec fn nth_root(q: int, n: int) -> int {
    pow_mod(first_root_candidate(1, q, n, n / 2), ((q - 1) / n) as nat, q)
}

/// The inverse of `x` modulo `q` in `[0, q)`.
pub open spec fn inv_mod(x: int, q: int) -> int {
    choose|y: int| 0 <= y < q && #[trigger] ((x * y) % q) == 1int % q
}

/// `F_q` supports a negacyclic transform of length `n`.
pub open spec fn ntt_friendly(q: int, n: int) -> bool {
    &&& is_prime(q)
    &&& n >= 2
    &&& is_pow2(n as nat)
    &&& q % (2 * n) == 1
}

/// The table `x^rev(k) mod q` for `k < n`.
pub open spec fn twiddles(q: int, n: nat, x: int) -> Seq<int> {
    Seq::new(n, |k: int| pow(x, rev_bits(k as nat, ilog2(n))) % q)
}

/// The forward transform of length `n` over `F_q`: entry `j` is `a` evaluated modulo `q` at
/// the `j`-th odd power of the chosen primitive `2n`-th root of unity `psi`, taken in
/// bit-reversed order (`eval_point`, which is `psi^(2 rev(j) + 1)` modulo `q`).
pub open spec fn ntt_of(a: Seq<int>, q: int, n: nat) -> Seq<int> {
    Seq::new(n, |j: int| poly_eval(a, eval_point(q, n, j)) % q)
}

/// The forward transform as the butterfly layers compute it.
pub open spec fn ntt_layers(a: Seq<int>, q: int, n: nat) -> Seq<int> {
    fwd_upto(a, ilog2(n), ilog2(n), twiddles(q, n, two_nth_root(q, n as int)), q)
}

/// The inverse transform of length `n` over `F_q`: the sequence of `n` residues modulo `q`
/// whose forward transform is `b`.
pub open spec fn intt_of(b: Seq<int>, q: int, n: nat) -> Seq<int> {
    choose|a: Seq<int>| a.len() == n && reduced(a, q) && ntt_of(a, q, n) == b
}

/// The inverse transform as the butterfly layers compute it.
pub open spec fn intt_layers(b: Seq<int>, q: int, n: nat) -> Seq<int> {
    scale(
        inv_until(b, 0, ilog2(n), twiddles(q, n, inv_mod(two_nth_root(q, n as int), q)), q),
        inv_mod(n as int, q),
        q,
    )
}

pub proof fn lemma_first_candidate(i: int, q: int, d: int, c: int)
    requires
        1 <= i,
        first_root_candidate(i, q, d, c) < q,
    ensures
        i <= first_root_candidate(i, q, d, c) < q,
        root_candidate_ok(first_root_candidate(i, q, d, c), q, d, c),
    decreases q - i,
{
    if i < q && !root_candidate_ok(i, q, d, c) {
        lemma_first_candidate(i + 1, q, d, c);
    }
}

/// A candidate at least `i` that passes the test bounds the first one found from `i`.
proof fn lemma_first_candidate_at_most(i: int, x: int, q: int, d: int, c: int)
    requires
        i <= x < q,
        root_candidate_ok(x, q, d, c),
    ensures
        first_root_candidate(i, q, d, c) <= x,
    decreases x - i,
{
    if i < x && !root_candidate_ok(i, q, d, c) {
        lemma_first_candidate_at_most(i + 1, x, q, d, c);
    }
}

/// Modulo a prime `q` with `2c | q - 1`, some candidate below `q` passes the test: a
/// quadratic non-residue `x` has `(x^((q-1)/(2c)))^c = x^((q-1)/2) != 1`.
pub proof fn lemma_candidate_exists(q: int, c: int)
    requires
        is_prime(q),
        c >= 1,
        q % (2 * c) == 1,
    ensures
        first_root_candidate(1, q, 2 * c, c) < q,
{
    lemma_fundamental_div_mod(q, 2 * c);
    let e = q / (2 * c);
    assert(e >= 1) by {
        if e <= 0 {
            lemma_mul_inequality(e, 0, 2 * c);
            lemma_mul_is_commutative(e, 2 * c);
        }
    }
    assert((q - 1) / (2 * c) == e) by {
        lemma_mul_is_commutative(e, 2 * c);
        lemma_fundamental_div_mod_converse(q - 1, 2 * c, e, 0);
    }
    assert(q >= 3) by (nonlinear_arith)
        requires
            q == 2 * c * e + 1,
            c >= 1,
            e >= 1,
    ;
    let x = lemma_nonresidue_exists(q);
    assert(e * c == (q - 1) / 2) by (nonlinear_arith)
        requires
            q == 2 * c * e + 1,
    ;
    lemma_pow_mod_noop(pow(x, e as nat), c as nat, q);
    lemma_pow_multiplies(x, e as nat, c as nat);
    assert(pow_mod(x, e as nat, q) == pow(x, e as nat) % q);
    assert(root_candidate_ok(x, q, 2 * c, c));
    lemma_first_candidate_at_most(1, x, q, 2 * c, c);
}

/// The chosen inverse exists, is reduced and is inverse.
pub proof fn lemma_inv_mod(x: int, q: int)
    requires
        q > 1,
        is_invertible_mod(x, q),
    ensures
        0 <= inv_mod(x, q) < q,
        (x * inv_mod(x, q)) % q == 1int % q,
{
    let y = choose|y: int| #[trigger] ((x * y) % q) == 1int % q;
    lemma_mul_mod_noop_right(x, y, q);
    lemma_mod_bound(y, q);
    assert(0 <= y % q < q && (x * (y % q)) % q == 1int % q);
}

/// A reduced inverse is the chosen one.
proof fn lemma_inv_mod_unique(x: int, y: int, q: int)
    requires
        q > 1,
        0 <= y < q,
        (x * y) % q == 1int % q,
    ensures
        inv_mod(x, q) == y,
{
    assert(is_invertible_mod(x, q));
    lemma_inv_mod(x, q);
    lemma_inverse_unique_residue(x, y, inv_mod(x, q), q);
    lemma_small_mod(y as nat, q as nat);
    lemma_small_mod(inv_mod(x, q) as nat, q as nat);
}

/// The root of unity that the search finds is invertible.
proof fn lemma_root_invertible(q: int, n: int)
    requires
        ntt_friendly(q, n),
    ensures
        q >= 2 * n + 1,
        0 < two_nth_root(q, n) < q,
        gcd(q as nat, two_nth_root(q, n) as nat) == 1,
        is_invertible_mod(two_nth_root(q, n), q),
        gcd(q as nat, n as nat) == 1,
        is_invertible_mod(n, q),
{
    lemma_candidate_exists(q, n);
    let i = first_root_candidate(1, q, 2 * n, n);
    lemma_first_candidate(1, q, 2 * n, n);
    let e = ((q - 1) / (2 * n)) as nat;
    lemma_fundamental_div_mod(q, 2 * n);
    assert(q >= 2 * n + 1) by {
        if q / (2 * n) <= 0 {
            lemma_mul_inequality(q / (2 * n), 0, 2 * n);
            lemma_mul_is_commutative(q / (2 * n), 2 * n);
        } else {
            lemma_mul_increases(q / (2 * n), 2 * n);
            lemma_mul_is_commutative(q / (2 * n), 2 * n);
        }
    }
    lemma_div_pos_is_pos(q - 1, 2 * n);
    assert(e > 0) by {
        lemma_div_by_self(2 * n);
        lemma_div_is_ordered(2 * n, q - 1, 2 * n);
    }
    lemma_prime_coprime(q as nat, i as nat);
    lemma_coprime_invertible(i as nat, q as nat);
    let y = choose|y: int| #[trigger] ((i * y) % q) == 1int % q;
    lemma_pow_inverse(i, y, e, q);
    let g = pow(i, e) % q;
    assert(g == two_nth_root(q, n));
    assert((g * pow(y, e)) % q == 1int % q) by {
        lemma_mul_mod_noop_left(pow(i, e), pow(y, e), q);
    }
    assert(is_invertible_mod(g, q));
    lemma_mod_bound(pow(i, e), q);
    lemma_invertible_coprime(g as nat, q as nat);
    if g == 0 {
        lemma_small_mod(1, q as nat);
        assert((0 * pow(y, e)) % q == 0) by {
            lemma_mul_basics(pow(y, e));
        }
    }
    lemma_prime_coprime(q as nat, n as nat);
    lemma_coprime_invertible(n as nat, q as nat);
}

/// Returns a primitive `2N`-th root of unity modulo `Q`: the first `i^((Q-1)/(2N))`, for
/// `i = 1, 2, ...`, whose `N`-th power is not one.
pub fn two_nth_primitive_root_of_unity<const Q: u64, const N: usize>() -> (g: u64)
    requires
        is_pow2(N as nat),
        Q as int % (2 * N as int) == 1,
        first_root_candidate(1, Q as int, 2 * N as int, N as int) < Q,
    ensures
        g == two_nth_root(Q as int, N as int),
{
    proof {
        // a candidate below `Q` makes `Q >= 2`, so `2N`, which leaves remainder one, is below `Q`
        lemma_first_candidate(1, Q as int, 2 * N as int, N as int);
        if 2 * N as int > Q as int {
            lemma_small_mod(Q as nat, (2 * N) as nat);
        }
    }
    let exp = (Q - 1) / (2 * (N as u64));
    let two_n_half = N as u64;
    let mut i: u64 = 1;
    while i < Q
        invariant
            1 <= i <= Q,
            Q > 0,
            exp == (Q - 1) / (2 * N as int),
            two_n_half == N,
            first_root_candidate(i as int, Q as int, 2 * N as int, N as int) == first_root_candidate(
                1,
                Q as int,
                2 * N as int,
                N as int,
            ),
        decreases Q - i,
    {
        let g = const_pow_mod::<Q>(i, exp);
        let g_2 = const_pow_mod::<Q>(g, two_n_half);
        if g_2 != 1 {
            return g;
        }
        i += 1;
    }
    proof {
        assert(false);
    }
    0
}

/// Returns a primitive `N`-th root of unity modulo `Q`: the first `i^((Q-1)/N)`, for
/// `i = 1, 2, ...`, whose `N/2`-th power is not one.
pub fn nth_primitive_root_of_unity<const Q: u64, const N: usize>() -> (g: u64)
    requires
        is_pow2(N as nat),
        Q as int % (N as int) == 1,
        first_root_candidate(1, Q as int, N as int, N as int / 2) < Q,
    ensures
        g == nth_root(Q as int, N as int),
{
    let exp = (Q - 1) / N as u64;
    let n_half = (N / 2) as u64;
    let mut i: u64 = 1;
    while i < Q
        invariant
            1 <= i <= Q,
            Q > 0,
            N > 0,
            exp == (Q - 1) / (N as int),
            n_half == N / 2,
            first_root_candidate(i as int, Q as int, N as int, N as int / 2) == first_root_candidate(
                1,
                Q as int,
                N as int,
                N as int / 2,
            ),
        decreases Q - i,
    {
        let g = const_pow_mod::<Q>(i, exp);
        let g_2 = const_pow_mod::<Q>(g, n_half);
        if g_2 != 1 {
            return g;
        }
        i += 1;
    }
    proof {
        assert(false);
    }
    0
}

/// The tables of the transform: `psi^rev(k)`, `psi^-rev(k)` and `N^-1` modulo `Q`.
fn root_of_unity_tables<const Q: u64, const N: usize>() -> (r: ([Fq<Q>; N], [Fq<Q>; N], Fq<Q>))
    requires
        ntt_friendly(Q as int, N as int),
    ensures
        all_wf(r.0@),
        all_wf(r.1@),
        r.2.wf(),
        vals(r.0@) == twiddles(Q as int, N as nat, two_nth_root(Q as int, N as int)),
        vals(r.1@) == twiddles(Q as int, N as nat, inv_mod(two_nth_root(Q as int, N as int), Q as int)),
        r.2.val() == inv_mod(N as int, Q as int),
{
    proof {
        lemma_root_invertible(Q as int, N as int);
        lemma_candidate_exists(Q as int, N as int);
    }
    let psi = two_nth_primitive_root_of_unity::<Q, N>();
    let pows = pows_bit_reversed::<Q, N>(psi);
    let psi_inv = const_inv_mod::<Q>(psi);
    proof {
        lemma_inv_mod_unique(psi as int, psi_inv as int, Q as int);
    }
    let neg_pows = pows_bit_reversed::<Q, N>(psi_inv);
    let n_inv_u64 = const_inv_mod::<Q>(N as u64);
    proof {
        lemma_inv_mod_unique(N as int, n_inv_u64 as int, Q as int);
        assert(vals(pows@) =~= twiddles(Q as int, N as nat, psi as int));
        assert(vals(neg_pows@) =~= twiddles(Q as int, N as nat, psi_inv as int));
    }
    let n_inv = const_fq_from::<Q>(n_inv_u64);
    (pows, neg_pows, n_inv)
}

/// A ring with a number-theoretic transform of length `N`.
pub trait Ntt<const N: usize>: Ring {
    /// The parameters for which the transform is defined.
    spec fn ntt_params() -> bool;

    /// The forward transform on residues.
    spec fn ntt_spec(coeffs: Seq<int>) -> Seq<int>;

    /// The inverse transform on residues.
    spec fn intt_spec(evals: Seq<int>) -> Seq<int>;

    /// Computes the transform of the given coefficients in place.
    fn ntt_inplace(coeffs: &mut [Self; N])
        requires
            Self::ntt_params(),
            all_wf(old(coeffs)@),
        ensures
            all_wf(final(coeffs)@),
            vals(final(coeffs)@) == Self::ntt_spec(vals(old(coeffs)@)),
    ;

    /// Computes the inverse transform of the given evaluations in place.
    fn intt_inplace(evals: &mut [Self; N])
        requires
            Self::ntt_params(),
            all_wf(old(evals)@),
        ensures
            all_wf(final(evals)@),
            vals(final(evals)@) == Self::intt_spec(vals(old(evals)@)),
    ;

    /// The forward transform of a sequence of length `N` is a sequence of `N` residues.
    proof fn lemma_ntt_spec_reduced(a: Seq<int>)
        requires
            Self::ntt_params(),
            a.len() == N,
        ensures
            Self::ntt_spec(a).len() == N,
            forall|j: int| 0 <= j < N ==> 0 <= #[trigger] Self::ntt_spec(a)[j] < Self::modulus(),
    ;

    /// The inverse transform undoes the forward transform.
    proof fn lemma_intt_ntt(a: Seq<int>)
        requires
            Self::ntt_params(),
            a.len() == N,
            forall|j: int| 0 <= j < N ==> 0 <= #[trigger] a[j] < Self::modulus(),
        ensures
            Self::intt_spec(Self::ntt_spec(a)) == a,
    ;

    /// The transform of the given coefficients.
    fn ntt(coeffs: [Self; N]) -> (evals: [Self; N])
        requires
            Self::ntt_params(),
            all_wf(coeffs@),
        ensures
            all_wf(evals@),
            vals(evals@) == Self::ntt_spec(vals(coeffs@)),
    {
        let mut evals = coeffs;
        Self::ntt_inplace(&mut evals);
        evals
    }

    /// The inverse transform of the given evaluations.
    fn intt(evals: [Self; N]) -> (coeffs: [Self; N])
        requires
            Self::ntt_params(),
            all_wf(evals@),
        ensures
            all_wf(coeffs@),
            vals(coeffs@) == Self::intt_spec(vals(evals@)),
    {
        let mut coeffs = evals;
        Self::intt_inplace(&mut coeffs);
        coeffs
    }
}

/// A ring with a transform of length `N`.
pub trait NttRing<const N: usize>: Ntt<N> + Ring {

}

impl<T, const N: usize> NttRing<N> for T where T: Ntt<N> + Ring {

}

impl<const Q: u64, const N: usize> Ntt<N> for Fq<Q> {
    open spec fn ntt_params() -> bool {
        ntt_friendly(Q as int, N as int)
    }

    open spec fn ntt_spec(coeffs: Seq<int>) -> Seq<int> {
        ntt_of(coeffs, Q as int, N as nat)
    }

    open spec fn intt_spec(evals: Seq<int>) -> Seq<int> {
        intt_of(evals, Q as int, N as nat)
    }

    /// Computes the transform of the given coefficients in place, following the
    /// iterative Cooley-Tukey layout with bit-reversed twiddles.
    fn ntt_inplace(coeffs: &mut [Self; N]) {
        let (psi_bitrev, _psi_inv_bitrev, _n_inv) = root_of_unity_tables::<Q, N>();
        let ghost a0 = vals(coeffs@);
        let ghost l = ilog2(N as nat);
        let ghost w = vals(psi_bitrev@);
        let ghost mut k: nat = 0;
        let mut t = N;
        let mut m: usize = 1;
        proof {
            lemma2_to64();
            assert(l - 0 == l);
        }
        while m < N
            invariant
                ntt_friendly(Q as int, N as int),
                l == ilog2(N as nat),
                pow2(l) == N,
                k <= l,
                m == pow2(k),
                t == pow2((l - k) as nat),
                all_wf(coeffs@),
                all_wf(psi_bitrev@),
                w == vals(psi_bitrev@),
                vals(coeffs@) == fwd_upto(a0, k, l, w, Q as int),
            decreases N - m,
        {
            proof {
                if k == l {
                    assert(false);
                }
                lemma_stage_shape(k + 1, l);
                lemma_pow2_unfold((l - k) as nat);
                assert((l - (k + 1)) as nat == ((l - k) as nat - 1) as nat);
            }
            t /= 2;
            fwd_layer_inplace(coeffs, m, t, &psi_bitrev);
            m *= 2;
            proof {
                k = k + 1;
            }
        }
        proof {
            if k < l {
                lemma_pow2_strictly_increases(k, l);
            }
            lemma_ntt_layers_is_ntt_of(a0, Q as int, N as nat);
        }
    }

    /// Computes the inverse transform in place, following the Gentleman-Sande layout,
    /// and scales by `N^-1`.
    fn intt_inplace(evals: &mut [Self; N]) {
        let (_psi_bitrev, psi_inv_bitrev, n_inv) = root_of_unity_tables::<Q, N>();
        let ghost b0 = vals(evals@);
        let ghost l = ilog2(N as nat);
        let ghost wi = vals(psi_inv_bitrev@);
        let ghost mut c: nat = 0;
        let mut t: usize = 1;
        let mut m = N;
        proof {
            lemma2_to64();
        }
        while m > 1
            invariant
                ntt_friendly(Q as int, N as int),
                l == ilog2(N as nat),
                pow2(l) == N,
                c <= l,
                m == pow2((l - c) as nat),
                t == pow2(c),
                all_wf(evals@),
                all_wf(psi_inv_bitrev@),
                wi == vals(psi_inv_bitrev@),
                vals(evals@) == inv_until(b0, (l - c) as nat, l, wi, Q as int),
            decreases m,
        {
            proof {
                lemma2_to64();
                if c == l {
                    assert(false);
                }
                if c + 1 < l {
                    lemma_pow2_strictly_increases(c + 1, l);
                }
                let kk = (l - c) as nat;
                lemma_stage_shape(kk, l);
                lemma_pow2_unfold(kk);
                lemma_pow2_unfold(c + 1);
                assert((l - kk) as nat == c);
                assert((kk - 1) as nat == (l - (c + 1)) as nat);
            }
            let h = m / 2;
            inv_layer_inplace(evals, h, t, &psi_inv_bitrev);
            t *= 2;
            m /= 2;
            proof {
                c = c + 1;
            }
        }
        proof {
            if c < l {
                lemma_pow2_strictly_increases((l - c) as nat, l);
                lemma_pow2_pos(0);
                lemma_pow2_strictly_increases(0, (l - c) as nat);
            }
            assert((l - c) as nat == 0);
        }
        let ghost before = vals(evals@);
        let mut i: usize = 0;
        while i < N
            invariant
                0 <= i <= N,
                n_inv.wf(),
                all_wf(evals@),
                before.len() == N,
                forall|j: int| 0 <= j < i ==> #[trigger] evals[j].val() == (n_inv.val() * before[j]) % (
                Q as int),
                forall|j: int| i <= j < N ==> #[trigger] evals[j].val() == before[j],
            decreases N - i,
        {
            evals[i] = evals[i].mul(&n_inv);
            proof {
                lemma_mul_is_commutative(before[i as int], n_inv.val());
            }
            i += 1;
        }
        proof {
            assert(vals(evals@) =~= scale(before, n_inv.val(), Q as int));
            assert forall|j: int| 0 <= j < N implies 0 <= #[trigger] b0[j] < Q by {
                Fq::<Q>::lemma_wf(old(evals)@[j]);
            }
            lemma_intt_layers_is_intt_of(b0, Q as int, N as nat);
        }
    }

    proof fn lemma_ntt_spec_reduced(a: Seq<int>) {
        lemma_transforms_reduced(a, Q as int, N as nat);
    }

    proof fn lemma_intt_ntt(a: Seq<int>) {
        lemma_ntt_layers_is_ntt_of(a, Q as int, N as nat);
        lemma_transforms_reduced(a, Q as int, N as nat);
        lemma_intt_layers_is_intt_of(ntt_of(a, Q as int, N as nat), Q as int, N as nat);
        lemma_layers_roundtrip_of(a, Q as int, N as nat);
    }
}

/// The twiddle tables of the transform of length `n` are inverse to each other, and
/// `inv_mod(n, q)` undoes the factor `n` that the layers accumulate.
proof fn lemma_transform_tables(q: int, n: nat)
    requires
        ntt_friendly(q, n as int),
    ensures
        pow2(ilog2(n)) == n,
        inverse_tables(
            twiddles(q, n, two_nth_root(q, n as int)),
            twiddles(q, n, inv_mod(two_nth_root(q, n as int), q)),
            pow2(ilog2(n)) as int,
            q,
        ),
        (inv_mod(n as int, q) * pow2(ilog2(n))) % q == 1int % q,
{
    lemma_root_invertible(q, n as int);
    let psi = two_nth_root(q, n as int);
    lemma_inv_mod(psi, q);
    lemma_inv_mod(n as int, q);
    let psi_inv = inv_mod(psi, q);
    let l = ilog2(n);
    let w = twiddles(q, n, psi);
    let wi = twiddles(q, n, psi_inv);
    assert forall|k: int| 1 <= k < n implies (#[trigger] w[k] * wi[k]) % q == 1int % q by {
        lemma_pow_inverse(psi, psi_inv, rev_bits(k as nat, l), q);
    }
    lemma_mul_is_commutative(inv_mod(n as int, q), n as int);
}

/// The inverse layers undo the forward layers on reduced sequences of length `n`.
proof fn lemma_layers_roundtrip_of(a: Seq<int>, q: int, n: nat)
    requires
        ntt_friendly(q, n as int),
        a.len() == n,
        reduced(a, q),
    ensures
        intt_layers(ntt_layers(a, q, n), q, n) == a,
{
    lemma_transform_tables(q, n);
    let psi = two_nth_root(q, n as int);
    lemma_transform_roundtrip(
        a,
        ilog2(n),
        twiddles(q, n, psi),
        twiddles(q, n, inv_mod(psi, q)),
        inv_mod(n as int, q),
        q,
    );
}

/// On reduced sequences of length `n` the inverse layers compute the inverse transform: its
/// result is reduced and transforms back to the input.
pub proof fn lemma_intt_layers_is_intt_of(b: Seq<int>, q: int, n: nat)
    requires
        ntt_friendly(q, n as int),
        b.len() == n,
        reduced(b, q),
    ensures
        intt_layers(b, q, n) == intt_of(b, q, n),
        intt_of(b, q, n).len() == n,
        reduced(intt_of(b, q, n), q),
        ntt_of(intt_of(b, q, n), q, n) == b,
{
    lemma_transform_tables(q, n);
    let psi = two_nth_root(q, n as int);
    let x = intt_layers(b, q, n);
    lemma_transforms_reduced(b, q, n);
    lemma_transform_reverse_roundtrip(
        b,
        ilog2(n),
        twiddles(q, n, psi),
        twiddles(q, n, inv_mod(psi, q)),
        inv_mod(n as int, q),
        q,
    );
    assert(ntt_layers(x, q, n) == b);
    lemma_ntt_layers_is_ntt_of(x, q, n);
    assert(x.len() == n && reduced(x, q) && ntt_of(x, q, n) == b);
    let a = intt_of(b, q, n);
    assert(a.len() == n && reduced(a, q) && ntt_of(a, q, n) == b);
    lemma_ntt_layers_is_ntt_of(a, q, n);
    lemma_layers_roundtrip_of(a, q, n);
}

/// Transforming and transforming back gives the input: `intt(ntt(a)) == a`.
pub proof fn law_intt_ntt<const Q: u64, const N: usize>(
    a: [Fq<Q>; N],
    evals: [Fq<Q>; N],
    back: [Fq<Q>; N],
)
    requires
        ntt_friendly(Q as int, N as int),
        all_wf(a@),
        all_wf(back@),
        vals(evals@) == ntt_of(vals(a@), Q as int, N as nat),
        vals(back@) == intt_of(vals(evals@), Q as int, N as nat),
    ensures
        back == a,
{
    assert forall|j: int| 0 <= j < N implies 0 <= #[trigger] vals(a@)[j] < Q by {
        Fq::<Q>::lemma_wf(a[j]);
    }
    <Fq<Q> as Ntt<N>>::lemma_intt_ntt(vals(a@));
    assert forall|j: int| 0 <= j < N implies #[trigger] back[j] == a[j] by {
        assert(vals(back@)[j] == vals(a@)[j]);
        Fq::<Q>::lemma_canonical(back[j], a[j]);
    }
    assert(back@ =~= a@);
    vstd::array::axiom_array_ext_equal(back, a);
    assert(back =~= a);
}

/// The transform is additive: transforming the entry-wise sum gives the entry-wise sum of the
/// transforms, so adding two transforms and transforming back gives the sum of the inputs.
pub proof fn law_ntt_add<const Q: u64, const N: usize>(a: [Fq<Q>; N], b: [Fq<Q>; N])
    requires
        ntt_friendly(Q as int, N as int),
        all_wf(a@),
        all_wf(b@),
    ensures
        ntt_of(add_mod(vals(a@), vals(b@), Q as int), Q as int, N as nat) == add_mod(
            ntt_of(vals(a@), Q as int, N as nat),
            ntt_of(vals(b@), Q as int, N as nat),
            Q as int,
        ),
        intt_of(
            add_mod(
                ntt_of(vals(a@), Q as int, N as nat),
                ntt_of(vals(b@), Q as int, N as nat),
                Q as int,
            ),
            Q as int,
            N as nat,
        ) == add_mod(vals(a@), vals(b@), Q as int),
{
    let q = Q as int;
    let l = ilog2(N as nat);
    let w = twiddles(q, N as nat, two_nth_root(q, N as int));
    let s = add_mod(vals(a@), vals(b@), q);
    lemma_fwd_upto_additive(vals(a@), vals(b@), l, l, w, q);
    lemma_ntt_layers_is_ntt_of(vals(a@), q, N as nat);
    lemma_ntt_layers_is_ntt_of(vals(b@), q, N as nat);
    lemma_ntt_layers_is_ntt_of(s, q, N as nat);
    assert forall|j: int| 0 <= j < N implies 0 <= #[trigger] s[j] < Q by {
        lemma_mod_bound(vals(a@)[j] + vals(b@)[j], q);
    }
    <Fq<Q> as Ntt<N>>::lemma_intt_ntt(s);
}

/// The transforms of length `n >= 2` are residues modulo `q` and keep the length.
pub proof fn lemma_transforms_reduced(a: Seq<int>, q: int, n: nat)
    requires
        q > 0,
        n >= 2,
    ensures
        ntt_layers(a, q, n).len() == a.len(),
        reduced(ntt_layers(a, q, n), q),
        ntt_of(a, q, n).len() == n,
        reduced(ntt_of(a, q, n), q),
        intt_layers(a, q, n).len() == a.len(),
        reduced(intt_layers(a, q, n), q),
{
    let l = ilog2(n);
    assert(l >= 1);
    let w = twiddles(q, n, two_nth_root(q, n as int));
    lemma_fwd_upto_len(a, l, l, w, q);
    let prev = fwd_upto(a, (l - 1) as nat, l, w, q);
    let f = ntt_layers(a, q, n);
    assert forall|j: int| 0 <= j < f.len() implies 0 <= #[trigger] f[j] < q by {
        let t = pow2((l - l) as nat) as int;
        let i = j / (2 * t);
        let m = pow2((l - 1) as nat) as int;
        if j % (2 * t) < t {
            lemma_mod_bound(prev[j] + (prev[j + t] * w[m + i]) % q, q);
        } else {
            lemma_mod_bound(prev[j - t] - (prev[j] * w[m + i]) % q, q);
        }
    }
    assert forall|j: int| 0 <= j < n implies 0 <= #[trigger] ntt_of(a, q, n)[j] < q by {
        lemma_mod_bound(poly_eval(a, eval_point(q, n, j)), q);
    }
    let wi = twiddles(q, n, inv_mod(two_nth_root(q, n as int), q));
    lemma_inv_until_len(a, 0, l, wi, q);
    let g = intt_layers(a, q, n);
    let inner = inv_until(a, 0, l, wi, q);
    assert forall|j: int| 0 <= j < g.len() implies 0 <= #[trigger] g[j] < q by {
        lemma_mod_bound(inv_mod(n as int, q) * inner[j], q);
    }
}

} // verus!
