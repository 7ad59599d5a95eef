//! Laws of the negacyclic product of `Z_m[X] / (X^n + 1)`: it is commutative and associative,
//! distributes over addition and has the constant one as identity.
use vstd::arithmetic::div_mod::*;
use vstd::arithmetic::mul::*;
use vstd::prelude::*;

use crate::poly_ring::{constant_poly, seq_add, PolyRing};
use crate::pow2_cyclotomic_poly_ring::{nega_sum, nega_term, negacyclic_mul, Pow2CyclotomicPolyRing};
use crate::ring::{vals, Ring};

verus! {

/// `f(lo) + f(lo + 1) + ... + f(hi - 1)`.
pub open spec fn range_sum(f: spec_fn(int) -> int, lo: int, hi: int) -> int
    decreases hi - lo,
{
    if hi <= lo {
        0
    } else {
        range_sum(f, lo, hi - 1) + f(hi - 1)
    }
}

/// A range sum is its first term plus the rest.
pub proof fn lemma_range_sum_front(f: spec_fn(int) -> int, lo: int, hi: int)
    requires
        lo < hi,
    ensures
        range_sum(f, lo, hi) == f(lo) + range_sum(f, lo + 1, hi),
    decreases hi - lo,
{
    if hi - 1 > lo {
        lemma_range_sum_front(f, lo, hi - 1);
        assert(range_sum(f, lo + 1, hi) == range_sum(f, lo + 1, hi - 1) + f(hi - 1));
    } else {
        assert(range_sum(f, lo, hi) == range_sum(f, lo, lo) + f(lo));
        assert(range_sum(f, lo + 1, hi) == 0);
    }
}

/// A range sum splits at any point of the range.
pub proof fn lemma_range_sum_split(f: spec_fn(int) -> int, lo: int, mid: int, hi: int)
    requires
        lo <= mid <= hi,
    ensures
        range_sum(f, lo, hi) == range_sum(f, lo, mid) + range_sum(f, mid, hi),
    decreases hi - mid,
{
    if hi > mid {
        lemma_range_sum_split(f, lo, mid, hi - 1);
    }
}

/// Summing `g` over `len` places from `lo2` gives the sum of `f` over `len` places from `lo1`
/// when `g` runs through the values of `f` backwards.
pub proof fn lemma_range_sum_reverse(
    f: spec_fn(int) -> int,
    g: spec_fn(int) -> int,
    lo1: int,
    lo2: int,
    len: int,
)
    requires
        len >= 0,
        forall|t: int| 0 <= t < len ==> #[trigger] g(lo2 + t) == f(lo1 + len - 1 - t),
    ensures
        range_sum(f, lo1, lo1 + len) == range_sum(g, lo2, lo2 + len),
    decreases len,
{
    if len > 0 {
        lemma_range_sum_front(g, lo2, lo2 + len);
        assert(g(lo2 + 0) == f(lo1 + len - 1 - 0));
        assert forall|t: int| 0 <= t < len - 1 implies #[trigger] g((lo2 + 1) + t) == f(
            lo1 + (len - 1) - 1 - t,
        ) by {
            assert(g(lo2 + (t + 1)) == f(lo1 + len - 1 - (t + 1)));
            assert(lo2 + (t + 1) == (lo2 + 1) + t);
        }
        lemma_range_sum_reverse(f, g, lo1, lo2 + 1, len - 1);
    }
}

/// Two range sums with equal terms are equal.
pub proof fn lemma_range_sum_ext(f: spec_fn(int) -> int, g: spec_fn(int) -> int, lo: int, hi: int)
    requires
        forall|i: int| lo <= i < hi ==> #[trigger] f(i) == g(i),
    ensures
        range_sum(f, lo, hi) == range_sum(g, lo, hi),
    decreases hi - lo,
{
    if hi > lo {
        lemma_range_sum_ext(f, g, lo, hi - 1);
    }
}

/// The terms of coefficient `k` of the negacyclic product.
pub open spec fn nega_terms(a: Seq<int>, b: Seq<int>, k: int) -> spec_fn(int) -> int {
    |i: int| nega_term(a, b, i, k)
}

/// `nega_sum` is a range sum of its terms.
pub proof fn lemma_nega_sum_range(a: Seq<int>, b: Seq<int>, upto: nat, k: int)
    ensures
        nega_sum(a, b, upto, k) == range_sum(nega_terms(a, b, k), 0, upto as int),
    decreases upto,
{
    if upto > 0 {
        lemma_nega_sum_range(a, b, (upto - 1) as nat, k);
    }
}

/// Each coefficient of the negacyclic product is symmetric in the two factors.
pub proof fn lemma_nega_sum_commutative(a: Seq<int>, b: Seq<int>, k: int)
    requires
        a.len() == b.len(),
        0 <= k < a.len(),
    ensures
        nega_sum(a, b, a.len(), k) == nega_sum(b, a, a.len(), k),
{
    let n = a.len() as int;
    let f = nega_terms(a, b, k);
    let g = nega_terms(b, a, k);
    lemma_nega_sum_range(a, b, a.len(), k);
    lemma_nega_sum_range(b, a, a.len(), k);
    lemma_range_sum_split(f, 0, k + 1, n);
    lemma_range_sum_split(g, 0, k + 1, n);
    // Terms at or below `k` pair `i` with `k - i`.
    assert forall|t: int| 0 <= t < k + 1 implies #[trigger] g(0 + t) == f(0 + (k + 1) - 1 - t) by {
        assert(g(t) == b[t] * a[k - t]);
        assert(f(k - t) == a[k - t] * b[k - (k - t)]);
        assert(b[t] * a[k - t] == a[k - t] * b[t]) by (nonlinear_arith);
    }
    lemma_range_sum_reverse(f, g, 0, 0, k + 1);
    // Terms above `k` pair `i` with `k + n - i`.
    assert forall|t: int| 0 <= t < n - (k + 1) implies #[trigger] g((k + 1) + t) == f(
        (k + 1) + (n - (k + 1)) - 1 - t,
    ) by {
        let i = k + 1 + t;
        let j = n - 1 - t;
        assert(g(i) == -(b[i] * a[k + n - i]));
        assert(f(j) == -(a[j] * b[k + n - j]));
        assert(k + n - i == j);
        assert(k + n - j == i);
        assert(b[i] * a[j] == a[j] * b[i]) by (nonlinear_arith);
    }
    lemma_range_sum_reverse(f, g, k + 1, k + 1, n - (k + 1));
}

/// The negacyclic product is commutative.
pub proof fn lemma_negacyclic_mul_commutative(a: Seq<int>, b: Seq<int>, m: int)
    requires
        a.len() == b.len(),
    ensures
        negacyclic_mul(a, b, m) == negacyclic_mul(b, a, m),
{
    assert forall|k: int| 0 <= k < a.len() implies #[trigger] negacyclic_mul(a, b, m)[k]
        == negacyclic_mul(b, a, m)[k] by {
        lemma_nega_sum_commutative(a, b, k);
    }
    assert(negacyclic_mul(a, b, m) =~= negacyclic_mul(b, a, m));
}

/// Multiplication in `BaseRing[X] / (X^N + 1)` is commutative: `a * b == b * a`.
pub proof fn law_poly_mul_commutative<BaseRing: Ring, const N: usize>(
    a: Pow2CyclotomicPolyRing<BaseRing, N>,
    b: Pow2CyclotomicPolyRing<BaseRing, N>,
)
    requires
        a.wf(),
        b.wf(),
    ensures
        negacyclic_mul(vals(a.coeffs()), vals(b.coeffs()), BaseRing::modulus()) == negacyclic_mul(
            vals(b.coeffs()),
            vals(a.coeffs()),
            BaseRing::modulus(),
        ),
{
    Pow2CyclotomicPolyRing::<BaseRing, N>::lemma_poly_wf(a);
    Pow2CyclotomicPolyRing::<BaseRing, N>::lemma_poly_wf(b);
    lemma_negacyclic_mul_commutative(vals(a.coeffs()), vals(b.coeffs()), BaseRing::modulus());
}

/// Range sums of terms that are congruent to sums of terms are congruent to the sums.
pub proof fn lemma_range_sum_congruent(
    f: spec_fn(int) -> int,
    g: spec_fn(int) -> int,
    h: spec_fn(int) -> int,
    lo: int,
    hi: int,
    m: int,
)
    requires
        m > 0,
        forall|i: int| lo <= i < hi ==> #[trigger] f(i) % m == (g(i) + h(i)) % m,
    ensures
        range_sum(f, lo, hi) % m == (range_sum(g, lo, hi) + range_sum(h, lo, hi)) % m,
    decreases hi - lo,
{
    if hi > lo {
        lemma_range_sum_congruent(f, g, h, lo, hi - 1, m);
        let ff = range_sum(f, lo, hi - 1);
        let gg = range_sum(g, lo, hi - 1);
        let hh = range_sum(h, lo, hi - 1);
        let (x, y, z) = (f(hi - 1), g(hi - 1), h(hi - 1));
        lemma_add_mod_noop(ff, x, m);
        lemma_add_mod_noop(gg + hh, y + z, m);
        assert((gg + y) + (hh + z) == (gg + hh) + (y + z));
    }
}

/// A product with a reduced sum is congruent to the sum of the products.
proof fn lemma_term_distributes(x: int, y: int, z: int, m: int)
    requires
        m > 0,
    ensures
        (x * ((y + z) % m)) % m == (x * y + x * z) % m,
        (-(x * ((y + z) % m))) % m == (-(x * y) + -(x * z)) % m,
{
    lemma_mul_mod_noop_right(x, y + z, m);
    assert(x * (y + z) == x * y + x * z) by (nonlinear_arith);
    lemma_sub_mod_noop(0, x * ((y + z) % m), m);
    lemma_sub_mod_noop(0, x * y + x * z, m);
    assert(-(x * y) + -(x * z) == 0 - (x * y + x * z));
}

/// The negacyclic product distributes over addition.
pub proof fn lemma_negacyclic_mul_distributes(a: Seq<int>, b: Seq<int>, c: Seq<int>, m: int)
    requires
        m > 0,
        a.len() == b.len(),
        a.len() == c.len(),
    ensures
        negacyclic_mul(a, seq_add(b, c, m), m) == seq_add(
            negacyclic_mul(a, b, m),
            negacyclic_mul(a, c, m),
            m,
        ),
{
    let n = a.len() as int;
    let s = seq_add(b, c, m);
    assert forall|k: int| 0 <= k < n implies #[trigger] negacyclic_mul(a, s, m)[k] == seq_add(
        negacyclic_mul(a, b, m),
        negacyclic_mul(a, c, m),
        m,
    )[k] by {
        let f = nega_terms(a, s, k);
        let g = nega_terms(a, b, k);
        let h = nega_terms(a, c, k);
        assert forall|i: int| 0 <= i < n implies #[trigger] f(i) % m == (g(i) + h(i)) % m by {
            if i <= k {
                lemma_term_distributes(a[i], b[k - i], c[k - i], m);
            } else {
                lemma_term_distributes(a[i], b[k + n - i], c[k + n - i], m);
            }
        }
        lemma_range_sum_congruent(f, g, h, 0, n, m);
        lemma_nega_sum_range(a, s, a.len(), k);
        lemma_nega_sum_range(a, b, a.len(), k);
        lemma_nega_sum_range(a, c, a.len(), k);
        lemma_add_mod_noop(nega_sum(a, b, a.len(), k), nega_sum(a, c, a.len(), k), m);
    }
    assert(negacyclic_mul(a, s, m) =~= seq_add(negacyclic_mul(a, b, m), negacyclic_mul(a, c, m), m));
}

/// Multiplication in `BaseRing[X] / (X^N + 1)` distributes over addition:
/// `a * (b + c) == a * b + a * c`.
pub proof fn law_poly_mul_distributes<BaseRing: Ring, const N: usize>(
    a: Pow2CyclotomicPolyRing<BaseRing, N>,
    b: Pow2CyclotomicPolyRing<BaseRing, N>,
    c: Pow2CyclotomicPolyRing<BaseRing, N>,
)
    requires
        a.wf(),
        b.wf(),
        c.wf(),
    ensures
        negacyclic_mul(
            vals(a.coeffs()),
            seq_add(vals(b.coeffs()), vals(c.coeffs()), BaseRing::modulus()),
            BaseRing::modulus(),
        ) == seq_add(
            negacyclic_mul(vals(a.coeffs()), vals(b.coeffs()), BaseRing::modulus()),
            negacyclic_mul(vals(a.coeffs()), vals(c.coeffs()), BaseRing::modulus()),
            BaseRing::modulus(),
        ),
{
    Pow2CyclotomicPolyRing::<BaseRing, N>::lemma_poly_wf(a);
    Pow2CyclotomicPolyRing::<BaseRing, N>::lemma_poly_wf(b);
    Pow2CyclotomicPolyRing::<BaseRing, N>::lemma_poly_wf(c);
    lemma_negacyclic_mul_distributes(
        vals(a.coeffs()),
        vals(b.coeffs()),
        vals(c.coeffs()),
        BaseRing::modulus(),
    );
}

/// Range sums add up term by term.
pub proof fn lemma_range_sum_add(f: spec_fn(int) -> int, g: spec_fn(int) -> int, lo: int, hi: int)
    ensures
        range_sum(|x: int| f(x) + g(x), lo, hi) == range_sum(f, lo, hi) + range_sum(g, lo, hi),
    decreases hi - lo,
{
    if hi > lo {
        lemma_range_sum_add(f, g, lo, hi - 1);
    }
}

/// A constant factor comes out of a range sum.
pub proof fn lemma_range_sum_scale(f: spec_fn(int) -> int, c: int, lo: int, hi: int)
    ensures
        range_sum(|x: int| c * f(x), lo, hi) == c * range_sum(f, lo, hi),
    decreases hi - lo,
{
    if hi > lo {
        lemma_range_sum_scale(f, c, lo, hi - 1);
        let r = range_sum(f, lo, hi - 1);
        assert(c * r + c * f(hi - 1) == c * (r + f(hi - 1))) by (nonlinear_arith);
    }
}

/// Shifting the range shifts the argument.
pub proof fn lemma_range_sum_shift(f: spec_fn(int) -> int, d: int, lo: int, hi: int)
    ensures
        range_sum(f, lo, hi) == range_sum(|x: int| f(x + d), lo - d, hi - d),
    decreases hi - lo,
{
    if hi > lo {
        lemma_range_sum_shift(f, d, lo, hi - 1);
        assert((hi - d - 1) + d == hi - 1);
    }
}

/// `t` moved into `[0, n)` for `t` in `[0, 2 n)`.
pub open spec fn wrap(t: int, n: int) -> int {
    if t >= n {
        t - n
    } else {
        t
    }
}

/// Summing over `[0, n)` in the cyclic order that starts at `i` gives the same sum.
pub proof fn lemma_range_sum_cyclic(f: spec_fn(int) -> int, i: int, n: int)
    requires
        0 <= i < n,
    ensures
        range_sum(f, 0, n) == range_sum(|j: int| f(wrap(i + j, n)), 0, n),
{
    let g = |j: int| f(wrap(i + j, n));
    lemma_range_sum_split(f, 0, i, n);
    lemma_range_sum_split(g, 0, n - i, n);
    // g on [0, n - i) is f on [i, n)
    lemma_range_sum_shift(f, i, i, n);
    lemma_range_sum_ext(|x: int| f(x + i), g, 0, n - i);
    // g on [n - i, n) is f on [0, i)
    lemma_range_sum_shift(f, i - n, 0, i);
    lemma_range_sum_ext(|x: int| f(x + (i - n)), g, n - i, n);
}

/// Two range sums over a square can be taken in either order.
pub proof fn lemma_range_sum_swap(g: spec_fn(int, int) -> int, rows: int, cols: int)
    requires
        rows >= 0,
    ensures
        range_sum(|x: int| range_sum(|y: int| g(x, y), 0, cols), 0, rows) == range_sum(
            |y: int| range_sum(|x: int| g(x, y), 0, rows),
            0,
            cols,
        ),
    decreases rows,
{
    if rows > 0 {
        lemma_range_sum_swap(g, rows - 1, cols);
        let outer = |x: int| range_sum(|y: int| g(x, y), 0, cols);
        let prev = |y: int| range_sum(|x: int| g(x, y), 0, rows - 1);
        let last = |y: int| g(rows - 1, y);
        let full = |y: int| range_sum(|x: int| g(x, y), 0, rows);
        assert(range_sum(outer, 0, rows) == range_sum(outer, 0, rows - 1) + outer(rows - 1));
        assert(outer(rows - 1) == range_sum(last, 0, cols));
        assert(range_sum(outer, 0, rows - 1) == range_sum(prev, 0, cols));
        lemma_range_sum_add(prev, last, 0, cols);
        let both = |y: int| prev(y) + last(y);
        assert forall|y: int| 0 <= y < cols implies #[trigger] both(y) == full(y) by {
            assert(range_sum(|x: int| g(x, y), 0, rows) == range_sum(|x: int| g(x, y), 0, rows - 1)
                + g(rows - 1, y));
        }
        lemma_range_sum_ext(both, full, 0, cols);
    } else {
        lemma_range_sum_zero(|y: int| range_sum(|x: int| g(x, y), 0, rows), 0, cols);
    }
}

/// A range sum of zeros is zero.
pub proof fn lemma_range_sum_zero(f: spec_fn(int) -> int, lo: int, hi: int)
    requires
        forall|x: int| lo <= x < hi ==> #[trigger] f(x) == 0,
    ensures
        range_sum(f, lo, hi) == 0,
    decreases hi - lo,
{
    if hi > lo {
        lemma_range_sum_zero(f, lo, hi - 1);
    }
}

/// Coefficient `k` of `X^i * b` in `Z[X] / (X^n + 1)`, where `n` is the length of `b`.
pub open spec fn shifted(b: Seq<int>, i: int, k: int) -> int {
    if i <= k {
        b[k - i]
    } else {
        -b[k + b.len() - i]
    }
}

/// The negacyclic product without reduction of the coefficients.
pub open spec fn nega_exact(a: Seq<int>, b: Seq<int>) -> Seq<int> {
    Seq::new(a.len(), |k: int| nega_sum(a, b, a.len(), k))
}

/// A coefficient of the product sums `a[i]` times the coefficients of `X^i * b`.
pub proof fn lemma_nega_sum_shifted(a: Seq<int>, b: Seq<int>, k: int)
    requires
        a.len() == b.len(),
    ensures
        nega_sum(a, b, a.len(), k) == range_sum(|i: int| a[i] * shifted(b, i, k), 0, a.len() as int),
{
    let n = a.len() as int;
    lemma_nega_sum_range(a, b, a.len(), k);
    let f = nega_terms(a, b, k);
    let g = |i: int| a[i] * shifted(b, i, k);
    assert forall|i: int| 0 <= i < n implies #[trigger] f(i) == g(i) by {
        if !(i <= k) {
            let x = b[k + n - i];
            assert(-(a[i] * x) == a[i] * (-x)) by (nonlinear_arith);
        }
    }
    lemma_range_sum_ext(f, g, 0, n);
}

/// Multiplying monomials: `X^i X^j` is `X^(i + j)` with a sign once `i + j` wraps around, so
/// the coefficients of `X^(i + j) * c` and of `X^i * (X^j * c)` agree.
pub proof fn lemma_monomials(b: Seq<int>, c: Seq<int>, i: int, j: int, k: int)
    requires
        b.len() == c.len(),
        0 <= i < b.len(),
        0 <= j < b.len(),
        0 <= k < b.len(),
    ensures
        shifted(b, i, wrap(i + j, b.len() as int)) == (if i + j >= b.len() {
            -b[j]
        } else {
            b[j]
        }),
        (if i + j >= b.len() {
            -shifted(c, wrap(i + j, b.len() as int), k)
        } else {
            shifted(c, wrap(i + j, b.len() as int), k)
        }) == (if i <= k {
            shifted(c, j, k - i)
        } else {
            -shifted(c, j, k + b.len() - i)
        }),
{
}

/// The coefficients of `X^i` times a product, computed either way.
pub proof fn lemma_shifted_product(b: Seq<int>, c: Seq<int>, i: int, k: int)
    requires
        b.len() == c.len(),
        0 <= i < b.len(),
        0 <= k < b.len(),
    ensures
        range_sum(|m: int| shifted(b, i, m) * shifted(c, m, k), 0, b.len() as int) == shifted(
            nega_exact(b, c),
            i,
            k,
        ),
{
    let n = b.len() as int;
    let w = if i <= k {
        k - i
    } else {
        k + n - i
    };
    let sigma: int = if i <= k {
        1
    } else {
        -1
    };
    let f = |m: int| shifted(b, i, m) * shifted(c, m, k);
    lemma_range_sum_cyclic(f, i, n);
    let fw = |j: int| f(wrap(i + j, n));
    let h = |j: int| b[j] * shifted(c, j, w);
    let sh = |j: int| sigma * h(j);
    assert forall|j: int| 0 <= j < n implies #[trigger] fw(j) == sh(j) by {
        lemma_monomials(b, c, i, j, k);
        let m = wrap(i + j, n);
        let x = shifted(c, m, k);
        let y = shifted(c, j, w);
        if i + j >= n {
            assert(shifted(b, i, m) == -b[j]);
            if i <= k {
                assert(-x == y);
                assert((-b[j]) * x == 1 * (b[j] * y)) by (nonlinear_arith)
                    requires
                        -x == y,
                ;
            } else {
                assert(-x == -y);
                assert((-b[j]) * x == -1 * (b[j] * y)) by (nonlinear_arith)
                    requires
                        x == y,
                ;
            }
        } else {
            assert(shifted(b, i, m) == b[j]);
            if i <= k {
                assert(x == y);
                assert(b[j] * x == 1 * (b[j] * y)) by (nonlinear_arith)
                    requires
                        x == y,
                ;
            } else {
                assert(x == -y);
                assert(b[j] * x == -1 * (b[j] * y)) by (nonlinear_arith)
                    requires
                        x == -y,
                ;
            }
        }
    }
    lemma_range_sum_ext(fw, sh, 0, n);
    lemma_range_sum_scale(h, sigma, 0, n);
    lemma_nega_sum_shifted(b, c, w);
    assert(nega_exact(b, c)[w] == nega_sum(b, c, b.len(), w));
}

/// The negacyclic product of integer sequences, without reduction, is associative.
pub proof fn lemma_nega_exact_associative(a: Seq<int>, b: Seq<int>, c: Seq<int>)
    requires
        a.len() == b.len(),
        a.len() == c.len(),
    ensures
        nega_exact(nega_exact(a, b), c) == nega_exact(a, nega_exact(b, c)),
{
    let n = a.len() as int;
    let p = nega_exact(a, b);
    let q = nega_exact(b, c);
    assert forall|k: int| 0 <= k < n implies #[trigger] nega_exact(p, c)[k] == nega_exact(a, q)[k] by {
        let g = |m: int, i: int| a[i] * (shifted(b, i, m) * shifted(c, m, k));
        // left: sum over m of p[m] * (X^m c)[k]
        lemma_nega_sum_shifted(p, c, k);
        let left = |m: int| p[m] * shifted(c, m, k);
        let rows = |m: int| range_sum(|i: int| g(m, i), 0, n);
        assert forall|m: int| 0 <= m < n implies #[trigger] left(m) == rows(m) by {
            lemma_nega_sum_shifted(a, b, m);
            let t = |i: int| a[i] * shifted(b, i, m);
            lemma_range_sum_scale(t, shifted(c, m, k), 0, n);
            let st = |i: int| shifted(c, m, k) * t(i);
            let gm = |i: int| g(m, i);
            assert forall|i: int| 0 <= i < n implies #[trigger] st(i) == gm(i) by {
                let (x, y, z) = (a[i], shifted(b, i, m), shifted(c, m, k));
                assert(z * (x * y) == x * (y * z)) by (nonlinear_arith);
            }
            lemma_range_sum_ext(st, gm, 0, n);
            assert(p[m] * shifted(c, m, k) == shifted(c, m, k) * p[m]) by (nonlinear_arith);
        }
        lemma_range_sum_ext(left, rows, 0, n);
        lemma_range_sum_swap(g, n, n);
        // right: sum over i of a[i] * (X^i q)[k]
        lemma_nega_sum_shifted(a, q, k);
        let cols = |i: int| range_sum(|m: int| g(m, i), 0, n);
        let right = |i: int| a[i] * shifted(q, i, k);
        assert forall|i: int| 0 <= i < n implies #[trigger] cols(i) == right(i) by {
            let inner = |m: int| shifted(b, i, m) * shifted(c, m, k);
            lemma_range_sum_scale(inner, a[i], 0, n);
            lemma_range_sum_ext(|m: int| g(m, i), |m: int| a[i] * inner(m), 0, n);
            lemma_shifted_product(b, c, i, k);
        }
        lemma_range_sum_ext(cols, right, 0, n);
    }
    assert(nega_exact(p, c) =~= nega_exact(a, q));
}

/// Congruent factors give congruent coefficients of the product.
pub proof fn lemma_nega_sum_congruent(x: Seq<int>, x2: Seq<int>, y: Seq<int>, y2: Seq<int>, k: int, m: int)
    requires
        m > 0,
        0 <= k < x.len(),
        x.len() == y.len(),
        x2.len() == x.len(),
        y2.len() == y.len(),
        forall|i: int| 0 <= i < x.len() ==> #[trigger] (x[i] % m) == x2[i] % m,
        forall|i: int| 0 <= i < y.len() ==> #[trigger] (y[i] % m) == y2[i] % m,
    ensures
        nega_sum(x, y, x.len(), k) % m == nega_sum(x2, y2, x.len(), k) % m,
{
    let n = x.len() as int;
    lemma_nega_sum_shifted(x, y, k);
    lemma_nega_sum_shifted(x2, y2, k);
    let f = |i: int| x[i] * shifted(y, i, k);
    let g = |i: int| x2[i] * shifted(y2, i, k);
    let z = |i: int| 0int;
    assert forall|i: int| 0 <= i < n implies #[trigger] f(i) % m == (g(i) + z(i)) % m by {
        let (s, s2) = (shifted(y, i, k), shifted(y2, i, k));
        if i <= k {
            assert(y[k - i] % m == y2[k - i] % m);
        } else {
            let idx = k + n - i;
            assert(y[idx] % m == y2[idx] % m);
            lemma_sub_mod_noop(0, y[idx], m);
            lemma_sub_mod_noop(0, y2[idx], m);
            assert(s % m == s2 % m);
        }
        lemma_mul_mod_noop(x[i], s, m);
        lemma_mul_mod_noop(x2[i], s2, m);
    }
    lemma_range_sum_congruent(f, g, z, 0, n, m);
    lemma_range_sum_zero(z, 0, n);
}

/// The negacyclic product is associative.
pub proof fn lemma_negacyclic_mul_associative(a: Seq<int>, b: Seq<int>, c: Seq<int>, m: int)
    requires
        m > 0,
        a.len() == b.len(),
        a.len() == c.len(),
    ensures
        negacyclic_mul(negacyclic_mul(a, b, m), c, m) == negacyclic_mul(
            a,
            negacyclic_mul(b, c, m),
            m,
        ),
{
    let n = a.len() as int;
    let p = nega_exact(a, b);
    let q = nega_exact(b, c);
    let pm = negacyclic_mul(a, b, m);
    let qm = negacyclic_mul(b, c, m);
    lemma_nega_exact_associative(a, b, c);
    assert forall|i: int| 0 <= i < n implies #[trigger] (pm[i] % m) == p[i] % m by {
        lemma_mod_twice(p[i], m);
    }
    assert forall|i: int| 0 <= i < n implies #[trigger] (qm[i] % m) == q[i] % m by {
        lemma_mod_twice(q[i], m);
    }
    assert forall|k: int| 0 <= k < n implies #[trigger] negacyclic_mul(pm, c, m)[k]
        == negacyclic_mul(a, qm, m)[k] by {
        lemma_nega_sum_congruent(pm, p, c, c, k, m);
        lemma_nega_sum_congruent(a, a, qm, q, k, m);
        assert(nega_exact(p, c)[k] == nega_exact(a, q)[k]);
    }
    assert(negacyclic_mul(pm, c, m) =~= negacyclic_mul(a, qm, m));
}

/// Multiplication in `BaseRing[X] / (X^N + 1)` is associative: `(a * b) * c == a * (b * c)`.
pub proof fn law_poly_mul_associative<BaseRing: Ring, const N: usize>(
    a: Pow2CyclotomicPolyRing<BaseRing, N>,
    b: Pow2CyclotomicPolyRing<BaseRing, N>,
    c: Pow2CyclotomicPolyRing<BaseRing, N>,
)
    requires
        a.wf(),
        b.wf(),
        c.wf(),
    ensures
        negacyclic_mul(
            negacyclic_mul(vals(a.coeffs()), vals(b.coeffs()), BaseRing::modulus()),
            vals(c.coeffs()),
            BaseRing::modulus(),
        ) == negacyclic_mul(
            vals(a.coeffs()),
            negacyclic_mul(vals(b.coeffs()), vals(c.coeffs()), BaseRing::modulus()),
            BaseRing::modulus(),
        ),
{
    Pow2CyclotomicPolyRing::<BaseRing, N>::lemma_poly_wf(a);
    Pow2CyclotomicPolyRing::<BaseRing, N>::lemma_poly_wf(b);
    Pow2CyclotomicPolyRing::<BaseRing, N>::lemma_poly_wf(c);
    lemma_negacyclic_mul_associative(
        vals(a.coeffs()),
        vals(b.coeffs()),
        vals(c.coeffs()),
        BaseRing::modulus(),
    );
}

/// Multiplying by the constant polynomial one keeps every coefficient.
pub proof fn lemma_nega_sum_one(a: Seq<int>, k: int)
    requires
        0 <= k < a.len(),
    ensures
        nega_sum(a, constant_poly(1, a.len()), a.len(), k) == a[k],
{
    let n = a.len() as int;
    let one = constant_poly(1, a.len());
    lemma_nega_sum_shifted(a, one, k);
    let f = |i: int| a[i] * shifted(one, i, k);
    lemma_range_sum_split(f, 0, k, n);
    lemma_range_sum_front(f, k, n);
    assert forall|i: int| 0 <= i < k implies #[trigger] f(i) == 0 by {
        assert(shifted(one, i, k) == 0);
    }
    assert forall|i: int| k + 1 <= i < n implies #[trigger] f(i) == 0 by {
        assert(shifted(one, i, k) == 0);
        assert(a[i] * 0 == 0) by (nonlinear_arith);
    }
    lemma_range_sum_zero(f, 0, k);
    lemma_range_sum_zero(f, k + 1, n);
    assert(f(k) == a[k] * 1);
}

/// One is the multiplicative identity of `BaseRing[X] / (X^N + 1)`: `a * 1 == a`.
pub proof fn law_poly_mul_one<BaseRing: Ring, const N: usize>(a: Pow2CyclotomicPolyRing<BaseRing, N>)
    requires
        a.wf(),
    ensures
        negacyclic_mul(vals(a.coeffs()), constant_poly(1, N as nat), BaseRing::modulus()) == vals(
            a.coeffs(),
        ),
{
    Pow2CyclotomicPolyRing::<BaseRing, N>::lemma_poly_wf(a);
    let va = vals(a.coeffs());
    let m = BaseRing::modulus();
    assert forall|k: int| 0 <= k < N implies #[trigger] negacyclic_mul(
        va,
        constant_poly(1, N as nat),
        m,
    )[k] == va[k] by {
        lemma_nega_sum_one(va, k);
        BaseRing::lemma_wf(a.coeffs()[k]);
        lemma_small_mod(va[k] as nat, m as nat);
    }
    assert(negacyclic_mul(va, constant_poly(1, N as nat), m) =~= va);
}

} // verus!
