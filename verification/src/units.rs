//! Units of `Z_m[X] / (X^n + 1)`: the negacyclic product is linear in each factor, and an
//! element with a non-zero annihilator has no inverse.
use vstd::arithmetic::div_mod::*;
use vstd::arithmetic::mul::*;
use vstd::prelude::*;
use vstd::set_lib::*;

use crate::poly_mul_laws::{
    lemma_nega_sum_one, lemma_negacyclic_mul_associative, lemma_negacyclic_mul_commutative,
};
use crate::poly_ring::constant_poly;
use crate::pow2_cyclotomic_poly_ring::{nega_sum, nega_term, negacyclic_mul};

verus! {

/// The terms of the product with `b` differ from `c1` times those with `x` plus `c2` times those
/// with `y` by multiples of `m`, where `b` is `c1 x + c2 y` reduced modulo `m`.
proof fn lemma_nega_sum_linear(
    a: Seq<int>,
    b: Seq<int>,
    x: Seq<int>,
    y: Seq<int>,
    c1: int,
    c2: int,
    m: int,
    upto: nat,
    k: int,
)
    requires
        m > 0,
        a.len() == b.len(),
        a.len() == x.len(),
        a.len() == y.len(),
        upto <= a.len(),
        0 <= k < a.len(),
        forall|t: int| 0 <= t < b.len() ==> #[trigger] b[t] == (c1 * x[t] + c2 * y[t]) % m,
    ensures
        (nega_sum(a, b, upto, k) - c1 * nega_sum(a, x, upto, k) - c2 * nega_sum(a, y, upto, k))
            % m == 0,
    decreases upto,
{
    if upto == 0 {
        lemma_small_mod(0, m as nat);
    } else {
        let i = upto - 1;
        lemma_nega_sum_linear(a, b, x, y, c1, c2, m, (upto - 1) as nat, k);
        let n = a.len() as int;
        let idx = if i <= k {
            k - i
        } else {
            k + n - i
        };
        let (ai, bb, xx, yy) = (a[i], b[idx], x[idx], y[idx]);
        let s = c1 * xx + c2 * yy;
        assert(bb == s % m);
        lemma_fundamental_div_mod(s, m);
        let q0 = -(s / m);
        assert(bb - s == m * q0) by (nonlinear_arith)
            requires
                s == m * (s / m) + s % m,
                bb == s % m,
                q0 == -(s / m),
        ;
        let w = if i <= k {
            ai * q0
        } else {
            -(ai * q0)
        };
        let d = nega_term(a, b, i, k) - c1 * nega_term(a, x, i, k) - c2 * nega_term(a, y, i, k);
        let (px, py) = (c1 * xx, c2 * yy);
        assert(c1 * (ai * xx) == ai * px) by (nonlinear_arith)
            requires
                px == c1 * xx,
        ;
        assert(c2 * (ai * yy) == ai * py) by (nonlinear_arith)
            requires
                py == c2 * yy,
        ;
        assert(ai * bb - ai * px - ai * py == ai * (bb - px - py)) by (nonlinear_arith);
        assert(ai * (m * q0) == m * (ai * q0)) by (nonlinear_arith);
        if i <= k {
            assert(d == ai * bb - c1 * (ai * xx) - c2 * (ai * yy));
        } else {
            assert(d == -(ai * bb) - c1 * (-(ai * xx)) - c2 * (-(ai * yy)));
            assert(c1 * (-(ai * xx)) == -(c1 * (ai * xx))) by (nonlinear_arith);
            assert(c2 * (-(ai * yy)) == -(c2 * (ai * yy))) by (nonlinear_arith);
            assert(m * (-(ai * q0)) == -(m * (ai * q0))) by (nonlinear_arith);
        }
        assert(d == m * w);
        let prev = nega_sum(a, b, (upto - 1) as nat, k) - c1 * nega_sum(a, x, (upto - 1) as nat, k)
            - c2 * nega_sum(a, y, (upto - 1) as nat, k);
        assert(nega_sum(a, b, upto, k) - c1 * nega_sum(a, x, upto, k) - c2 * nega_sum(
            a,
            y,
            upto,
            k,
        ) == prev + d) by (nonlinear_arith)
            requires
                nega_sum(a, b, upto, k) == nega_sum(a, b, (upto - 1) as nat, k) + nega_term(
                    a,
                    b,
                    i,
                    k,
                ),
                nega_sum(a, x, upto, k) == nega_sum(a, x, (upto - 1) as nat, k) + nega_term(
                    a,
                    x,
                    i,
                    k,
                ),
                nega_sum(a, y, upto, k) == nega_sum(a, y, (upto - 1) as nat, k) + nega_term(
                    a,
                    y,
                    i,
                    k,
                ),
                prev == nega_sum(a, b, (upto - 1) as nat, k) - c1 * nega_sum(
                    a,
                    x,
                    (upto - 1) as nat,
                    k,
                ) - c2 * nega_sum(a, y, (upto - 1) as nat, k),
                d == nega_term(a, b, i, k) - c1 * nega_term(a, x, i, k) - c2 * nega_term(a, y, i, k),
        ;
        lemma_mod_multiples_vanish(w, prev, m);
        lemma_mul_is_commutative(m, w);
    }
}

/// The negacyclic product is linear in its second factor: multiplying `a` by `c1 x + c2 y`
/// gives `c1 (a x) + c2 (a y)` modulo `m`.
pub proof fn lemma_negacyclic_mul_linear(
    a: Seq<int>,
    b: Seq<int>,
    x: Seq<int>,
    y: Seq<int>,
    c1: int,
    c2: int,
    m: int,
)
    requires
        m > 0,
        a.len() == b.len(),
        a.len() == x.len(),
        a.len() == y.len(),
        forall|t: int| 0 <= t < b.len() ==> #[trigger] b[t] == (c1 * x[t] + c2 * y[t]) % m,
    ensures
        forall|t: int|
            0 <= t < a.len() ==> #[trigger] negacyclic_mul(a, b, m)[t] == (c1 * negacyclic_mul(
                a,
                x,
                m,
            )[t] + c2 * negacyclic_mul(a, y, m)[t]) % m,
{
    let n = a.len();
    assert forall|t: int| 0 <= t < n implies #[trigger] negacyclic_mul(a, b, m)[t] == (c1
        * negacyclic_mul(a, x, m)[t] + c2 * negacyclic_mul(a, y, m)[t]) % m by {
        lemma_nega_sum_linear(a, b, x, y, c1, c2, m, n, t);
        let (sb, sx, sy) = (nega_sum(a, b, n, t), nega_sum(a, x, n, t), nega_sum(a, y, n, t));
        // sb = c1 sx + c2 sy modulo m, and reducing sx and sy first changes nothing
        lemma_fundamental_div_mod(sb - c1 * sx - c2 * sy, m);
        let z = (sb - c1 * sx - c2 * sy) / m;
        assert(sb == m * z + (c1 * sx + c2 * sy));
        lemma_mod_multiples_vanish(z, c1 * sx + c2 * sy, m);
        lemma_mul_mod_noop_right(c1, sx, m);
        lemma_mul_mod_noop_right(c2, sy, m);
        lemma_add_mod_noop(c1 * sx, c2 * sy, m);
        lemma_add_mod_noop(c1 * (sx % m), c2 * (sy % m), m);
    }
}

/// Multiplying by zero gives zero.
pub proof fn lemma_negacyclic_mul_zero(a: Seq<int>, m: int)
    requires
        m > 0,
    ensures
        negacyclic_mul(a, constant_poly(0, a.len()), m) == constant_poly(0, a.len()),
{
    let z = constant_poly(0, a.len());
    assert forall|t: int| 0 <= t < z.len() implies #[trigger] z[t] == (0 * z[t] + 0 * z[t]) % m by {
        lemma_small_mod(0, m as nat);
    }
    lemma_negacyclic_mul_linear(a, z, z, z, 0, 0, m);
    assert forall|t: int| 0 <= t < a.len() implies #[trigger] negacyclic_mul(a, z, m)[t] == z[t] by {
        lemma_small_mod(0, m as nat);
    }
    assert(negacyclic_mul(a, z, m) =~= z);
}

/// An element with a non-zero annihilator `u` (reduced, `a u = 0`) has no inverse: no `b`
/// gives `a b = 1`.
pub proof fn lemma_annihilator_blocks_inverse(a: Seq<int>, u: Seq<int>, b: Seq<int>, m: int)
    requires
        m > 1,
        a.len() == u.len(),
        a.len() == b.len(),
        a.len() >= 1,
        forall|t: int| 0 <= t < u.len() ==> 0 <= #[trigger] u[t] < m,
        negacyclic_mul(a, u, m) == constant_poly(0, a.len()),
        exists|t: int| 0 <= t < u.len() && #[trigger] u[t] != 0,
    ensures
        negacyclic_mul(a, b, m) != constant_poly(1, a.len()),
{
    let n = a.len();
    if negacyclic_mul(a, b, m) == constant_poly(1, n) {
        // u = u (a b) = (u a) b = (a u) b = 0 b = b 0 = 0
        lemma_mul_one(u, m);
        lemma_negacyclic_mul_associative(u, a, b, m);
        lemma_negacyclic_mul_commutative(u, a, m);
        lemma_negacyclic_mul_commutative(constant_poly(0, n), b, m);
        lemma_negacyclic_mul_zero(b, m);
        assert(u =~= constant_poly(0, n));
        let t = choose|t: int| 0 <= t < u.len() && #[trigger] u[t] != 0;
        assert(u[t] == 0);
    }
}

/// Multiplying a reduced element by one gives it back.
proof fn lemma_mul_one(u: Seq<int>, m: int)
    requires
        m > 1,
        forall|t: int| 0 <= t < u.len() ==> 0 <= #[trigger] u[t] < m,
    ensures
        negacyclic_mul(u, constant_poly(1, u.len()), m) == u,
{
    assert forall|k: int| 0 <= k < u.len() implies #[trigger] negacyclic_mul(
        u,
        constant_poly(1, u.len()),
        m,
    )[k] == u[k] by {
        lemma_nega_sum_one(u, k);
        lemma_small_mod(u[k] as nat, m as nat);
    }
    assert(negacyclic_mul(u, constant_poly(1, u.len()), m) =~= u);
}

/// Inverses are unique: two reduced elements whose products with `a` are both one are equal.
pub proof fn law_inverse_unique(a: Seq<int>, b: Seq<int>, c: Seq<int>, m: int)
    requires
        m > 1,
        a.len() == b.len(),
        a.len() == c.len(),
        forall|t: int| 0 <= t < b.len() ==> 0 <= #[trigger] b[t] < m,
        forall|t: int| 0 <= t < c.len() ==> 0 <= #[trigger] c[t] < m,
        negacyclic_mul(a, b, m) == constant_poly(1, a.len()),
        negacyclic_mul(a, c, m) == constant_poly(1, a.len()),
    ensures
        b == c,
{
    // b = b (a c) = (b a) c = (a b) c = 1 c = c 1 = c
    let one = constant_poly(1, a.len());
    lemma_mul_one(b, m);
    lemma_mul_one(c, m);
    lemma_negacyclic_mul_associative(b, a, c, m);
    lemma_negacyclic_mul_commutative(b, a, m);
    lemma_negacyclic_mul_commutative(one, c, m);
}

/// `n` distinct values below `n` take every value below `n`.
pub proof fn lemma_distinct_cover(s: Seq<int>, n: nat, t: int)
    requires
        s.len() == n,
        s.no_duplicates(),
        forall|k: int| 0 <= k < n ==> 0 <= #[trigger] s[k] < n,
        0 <= t < n,
    ensures
        exists|k: int| 0 <= k < n && #[trigger] s[k] == t,
{
    s.unique_seq_to_set();
    if !(exists|k: int| 0 <= k < n && #[trigger] s[k] == t) {
        let r = set_int_range(0, n as int).remove(t);
        lemma_int_range(0, n as int);
        assert(s.to_set().subset_of(r)) by {
            assert forall|v: int| s.to_set().contains(v) implies r.contains(v) by {
                let k = choose|k: int| 0 <= k < s.len() && s[k] == v;
                assert(s[k] == v);
            }
        }
        lemma_len_subset(s.to_set(), r);
    }
}

} // verus!
