//! The power-of-two cyclotomic ring `R[X] / (X^N + 1)` over a residue ring `R`.
use rand::rngs::StdRng;
use vstd::arithmetic::div_mod::*;
use vstd::arithmetic::mul::*;
use vstd::prelude::*;

use crate::arith::{is_invertible_mod, is_prime, lemma_coprime_invertible, lemma_prime_coprime};
use crate::poly_ring::{constant_poly, seq_add, seq_neg, seq_sub, PolyRing};
use crate::norms::{self, max_abs, saturate, sq_norm};
use crate::representatives::WithSignedRepresentative;
use crate::units::{lemma_annihilator_blocks_inverse, lemma_distinct_cover, lemma_negacyclic_mul_linear};
use crate::ring::{all_wf, vals, Ring};

verus! {

/// The contribution of `a[i]` to coefficient `k` of the negacyclic product with `b`.
pub open spec fn nega_term(a: Seq<int>, b: Seq<int>, i: int, k: int) -> int {
    if i <= k {
        a[i] * b[k - i]
    } else {
        -(a[i] * b[k + a.len() - i])
    }
}

/// The contributions of `a[0..upto]` to coefficient `k` of the negacyclic product.
pub open spec fn nega_sum(a: Seq<int>, b: Seq<int>, upto: nat, k: int) -> int
    decreases upto,
{
    if upto == 0 {
        0
    } else {
        nega_sum(a, b, (upto - 1) as nat, k) + nega_term(a, b, upto - 1, k)
    }
}

/// The product in `Z_m[X] / (X^n + 1)`, where `n` is the length of the coefficient sequences.
pub open spec fn negacyclic_mul(a: Seq<int>, b: Seq<int>, m: int) -> Seq<int> {
    Seq::new(a.len(), |k: int| nega_sum(a, b, a.len(), k) % m)
}

/// A coefficient, zero outside the sequence.
pub open spec fn coeff_at(s: Seq<int>, i: int) -> int {
    if 0 <= i < s.len() {
        s[i]
    } else {
        0
    }
}

/// The terms `q[k - j] * d[j]` for `j < upto` of coefficient `k` of the product `q * d`.
pub open spec fn conv_upto(q: Seq<int>, d: Seq<int>, k: int, upto: nat) -> int
    decreases upto,
{
    if upto == 0 {
        0
    } else {
        conv_upto(q, d, k, (upto - 1) as nat) + coeff_at(q, k - (upto - 1)) * coeff_at(
            d,
            upto - 1,
        )
    }
}

/// Coefficient `k` of the (non-reduced) polynomial product `q * d`.
pub open spec fn conv(q: Seq<int>, d: Seq<int>, k: int) -> int {
    conv_upto(q, d, k, (k + 1) as nat)
}

/// The position of the last non-zero coefficient at or below `i` (zero if there is none).
pub open spec fn degree_from(s: Seq<int>, i: int) -> int
    decreases i,
{
    if i <= 0 {
        0
    } else if s[i] != 0 {
        i
    } else {
        degree_from(s, i - 1)
    }
}

/// The degree of a polynomial, taken as zero for the zero polynomial.
pub open spec fn degree(s: Seq<int>) -> int {
    degree_from(s, s.len() - 1)
}

/// The image of the conjugation automorphism `X -> X^-1`.
pub open spec fn conjugate(a: Seq<int>, m: int) -> Seq<int> {
    Seq::new(a.len(), |i: int| if i == 0 { a[0] } else { (-a[a.len() - i]) % m })
}

/// Setting a zero coefficient `p` of `q` to `c` adds `c * d[k - p]` to coefficient `k` of `q * d`.
pub proof fn lemma_conv_update(q: Seq<int>, d: Seq<int>, k: int, upto: nat, p: int, c: int)
    requires
        0 <= p < q.len(),
        q[p] == 0,
    ensures
        conv_upto(q.update(p, c), d, k, upto) == conv_upto(q, d, k, upto) + (if 0 <= k - p < upto {
            c * coeff_at(d, k - p)
        } else {
            0
        }),
    decreases upto,
{
    if upto > 0 {
        lemma_conv_update(q, d, k, (upto - 1) as nat, p, c);
        let j = upto - 1;
        if k - j == p {
            assert(coeff_at(q.update(p, c), k - j) == c);
            assert(coeff_at(q, k - j) == 0);
        } else {
            assert(coeff_at(q.update(p, c), k - j) == coeff_at(q, k - j));
        }
    }
}

/// The product of the zero polynomial with anything is zero.
pub proof fn lemma_conv_zero(q: Seq<int>, d: Seq<int>, k: int, upto: nat)
    requires
        forall|i: int| 0 <= i < q.len() ==> q[i] == 0,
    ensures
        conv_upto(q, d, k, upto) == 0,
    decreases upto,
{
    if upto > 0 {
        lemma_conv_zero(q, d, k, (upto - 1) as nat);
        lemma_mul_basics(coeff_at(d, upto - 1));
    }
}

/// The coefficients above the degree are zero.
pub proof fn lemma_degree_from(s: Seq<int>, i: int)
    requires
        0 <= i < s.len(),
    ensures
        0 <= degree_from(s, i) <= i,
        forall|j: int| degree_from(s, i) < j <= i ==> s[j] == 0,
        degree_from(s, i) > 0 ==> s[degree_from(s, i)] != 0,
    decreases i,
{
    if i > 0 && s[i] == 0 {
        lemma_degree_from(s, i - 1);
    }
}

/// Long division step: the remainder coefficient at the leading position cancels.
proof fn lemma_leading_cancels(x: int, inv: int, lead: int, m: int)
    requires
        m > 0,
        (lead * inv) % m == 1int % m,
        0 <= x < m,
    ensures
        (x - (((x * inv) % m) * lead) % m) % m == 0,
{
    lemma_mul_mod_noop_left(x * inv, lead, m);
    lemma_mul_is_associative(x, inv, lead);
    lemma_mul_is_commutative(inv, lead);
    lemma_mul_mod_noop_right(x, inv * lead, m);
    lemma_mul_mod_noop_right(x, 1, m);
    lemma_small_mod(x as nat, m as nat);
    lemma_sub_mod_noop(x, x * inv * lead, m);
    lemma_mod_twice(x, m);
    lemma_mod_self_0(m);
    lemma_small_mod(0, m as nat);
}

/// Adding the residue of `-x` to a residue `x` gives zero.
proof fn lemma_cancel_mod(x: int, m: int)
    requires
        0 <= x < m,
    ensures
        (x + ((-x) % m) * 1) % m == 0,
{
    lemma_add_mod_noop(x, -x, m);
    lemma_small_mod(x as nat, m as nat);
    lemma_small_mod(0, m as nat);
}

/// Long division step: subtracting `c * d` from the remainder keeps `q * d + r` fixed.
proof fn lemma_step_keeps_sum(sv: int, cv: int, dv: int, c: int, delta: int, m: int)
    requires
        m > 0,
        sv == (cv + dv) % m,
    ensures
        sv == ((cv + delta) + ((dv - delta % m) % m)) % m,
{
    lemma_add_mod_noop(cv + delta, (dv - delta % m) % m, m);
    lemma_mod_twice(dv - delta % m, m);
    lemma_add_mod_noop(cv + delta, dv - delta % m, m);
    lemma_add_mod_noop(cv + dv, delta - delta % m, m);
    lemma_fundamental_div_mod(delta, m);
    lemma_mod_multiples_basic(delta / m, m);
    lemma_mul_is_commutative(m, delta / m);
    lemma_small_mod(0, m as nat);
    lemma_mod_twice(cv + dv, m);
}

/// The ring `BaseRing[X] / (X^N + 1)`, stored as its `N` coefficients.
#[derive(Clone, Copy, Debug, PartialEq, Eq)]
pub struct Pow2CyclotomicPolyRing<BaseRing: Ring, const N: usize>([BaseRing; N]);

impl<BaseRing: Ring, const N: usize> Pow2CyclotomicPolyRing<BaseRing, N> {
    /// The polynomial whose coefficient `i` is `f(i)`.
    pub fn from_fn<F>(f: F) -> (r: Self)
        where
            F: Fn(usize) -> BaseRing,
        requires
            Self::params(),
            forall|i: usize| 0 <= i < N ==> #[trigger] f.requires((i,)),
            forall|i: usize, c: BaseRing| 0 <= i < N && #[trigger] f.ensures((i,), c) ==> c.wf(),
        ensures
            r.wf(),
            forall|i: int| 0 <= i < N ==> f.ensures((i as usize,), #[trigger] r.coeffs()[i]),
    {
        proof {
            Self::lemma_params();
        }
        let mut coeffs = [BaseRing::zero(); N];
        let mut i: usize = 0;
        while i < N
            invariant
                0 <= i <= N,
                forall|k: usize| 0 <= k < N ==> #[trigger] f.requires((k,)),
                forall|k: usize, c: BaseRing| 0 <= k < N && #[trigger] f.ensures((k,), c) ==> c.wf(),
                all_wf(coeffs@),
                forall|k: int| 0 <= k < i ==> f.ensures((k as usize,), #[trigger] coeffs[k]),
            decreases N - i,
        {
            let c = f(i);
            coeffs[i] = c;
            i += 1;
        }
        Pow2CyclotomicPolyRing(coeffs)
    }

    /// The constant polynomial `elem`.
    fn const_from_element(elem: BaseRing) -> (r: Self)
        requires
            Self::params(),
            elem.wf(),
        ensures
            r.wf(),
            vals(r.coeffs()) == constant_poly(elem.val(), N as nat),
    {
        proof {
            Self::lemma_params();
        }
        let mut coeffs = [BaseRing::zero(); N];
        coeffs[0] = elem;
        let r = Pow2CyclotomicPolyRing(coeffs);
        proof {
            assert(vals(r.coeffs()) =~= constant_poly(elem.val(), N as nat));
        }
        r
    }

    /// Polynomial long division: `self = q * other + r` with `r` below the degree of
    /// `other`, whose leading coefficient must be invertible.
    pub fn div_rem(&self, other: &Self) -> (res: (Self, Self))
        requires
            self.wf(),
            other.wf(),
            is_invertible_mod(
                vals(other.coeffs())[degree(vals(other.coeffs()))],
                BaseRing::modulus(),
            ),
        ensures
            res.0.wf(),
            res.1.wf(),
            forall|k: int|
                0 <= k < N ==> #[trigger] vals(self.coeffs())[k] == (conv(
                    vals(res.0.coeffs()),
                    vals(other.coeffs()),
                    k,
                ) + vals(res.1.coeffs())[k]) % BaseRing::modulus(),
            forall|k: int|
                degree(vals(other.coeffs())) <= k < N ==> #[trigger] vals(res.1.coeffs())[k] == 0,
            forall|k: int|
                N - 1 - degree(vals(other.coeffs())) < k < N ==> #[trigger] vals(res.0.coeffs())[k]
                    == 0,
            vals(self.coeffs()) == constant_poly(0, N as nat) ==> vals(res.0.coeffs())
                == constant_poly(0, N as nat) && vals(res.1.coeffs()) == constant_poly(0, N as nat),
    {
        let ghost sv = vals(self.coeffs());
        let ghost d = vals(other.coeffs());
        let ghost m = BaseRing::modulus();
        let ghost self_zero = sv == constant_poly(0, N as nat);
        let mut dividend = self.coefficients();
        let divisor = other.coefficients();
        let mut quotient: Vec<BaseRing> = Vec::new();
        let mut z: usize = 0;
        while z < N
            invariant
                0 <= z <= N,
                self.wf(),
                quotient@.len() == z,
                all_wf(quotient@),
                forall|k: int| 0 <= k < z ==> #[trigger] quotient@[k].val() == 0,
            decreases N - z,
        {
            quotient.push(BaseRing::zero());
            z += 1;
        }
        let mut divisor_deg: usize = N - 1;
        while divisor_deg > 0 && divisor[divisor_deg].is_zero()
            invariant
                other.wf(),
                divisor@ == other.coeffs(),
                d == vals(other.coeffs()),
                0 <= divisor_deg < N,
                degree(d) == degree_from(d, divisor_deg as int),
            decreases divisor_deg,
        {
            divisor_deg -= 1;
        }
        proof {
            if divisor_deg > 0 {
                assert(d[divisor_deg as int] != 0);
            }
            assert(degree(d) == divisor_deg);
            lemma_degree_from(d, N - 1);
        }
        let divisor_lead_inv = divisor[divisor_deg].inverse().unwrap();
        proof {
            assert forall|k: int| 0 <= k < N implies #[trigger] sv[k] == (conv(
                vals(quotient@),
                d,
                k,
            ) + vals(dividend@)[k]) % m by {
                lemma_conv_zero(vals(quotient@), d, k, (k + 1) as nat);
                BaseRing::lemma_wf(self.coeffs()[k]);
                lemma_small_mod(sv[k] as nat, m as nat);
            }
            if self_zero {
                assert forall|k: int| 0 <= k < N implies #[trigger] dividend@[k].val() == 0 by {
                    assert(sv[k] == 0);
                }
            }
        }
        let mut i: usize = N;
        while i > divisor_deg
            invariant
                self.wf(),
                other.wf(),
                sv == vals(self.coeffs()),
                d == vals(other.coeffs()),
                m == BaseRing::modulus(),
                divisor@ == other.coeffs(),
                degree(d) == divisor_deg,
                0 <= divisor_deg < N,
                divisor_deg <= i <= N,
                forall|j: int| divisor_deg < j < N ==> d[j] == 0,
                divisor_lead_inv.wf(),
                (d[divisor_deg as int] * divisor_lead_inv.val()) % m == 1int % m,
                dividend@.len() == N,
                quotient@.len() == N,
                all_wf(dividend@),
                all_wf(quotient@),
                forall|k: int|
                    0 <= k < N ==> #[trigger] sv[k] == (conv(vals(quotient@), d, k) + vals(
                        dividend@,
                    )[k]) % m,
                forall|k: int| i <= k < N ==> #[trigger] dividend@[k].val() == 0,
                forall|k: int|
                    0 <= k < N && (k + divisor_deg < i || k > N - 1 - divisor_deg)
                        ==> #[trigger] quotient@[k].val() == 0,
                self_zero == (sv == constant_poly(0, N as nat)),
                self_zero ==> forall|k: int| 0 <= k < N ==> #[trigger] dividend@[k].val() == 0,
                self_zero ==> forall|k: int| 0 <= k < N ==> #[trigger] quotient@[k].val() == 0,
            decreases i,
        {
            i -= 1;
            if dividend[i].is_zero() {
                continue;
            }
            proof {
                if self_zero {
                    assert(dividend@[i as int].val() == 0);
                }
            }
            let coeff = dividend[i].mul(&divisor_lead_inv);
            let p = i - divisor_deg;
            let ghost q_old = vals(quotient@);
            let ghost r_old = vals(dividend@);
            let ghost c = coeff.val();
            proof {
                assert(quotient@[p as int].val() == 0);
                assert(q_old[p as int] == 0);
            }
            quotient.set(p, coeff);
            proof {
                assert(vals(quotient@) =~= q_old.update(p as int, c));
                BaseRing::lemma_wf(dividend@[i as int]);
            }
            let mut j: usize = 0;
            while j <= divisor_deg
                invariant
                    other.wf(),
                    d == vals(other.coeffs()),
                    m == BaseRing::modulus(),
                    m >= 2,
                    divisor@ == other.coeffs(),
                    p + divisor_deg == i,
                    i < N,
                    0 <= j <= divisor_deg + 1,
                    coeff.wf(),
                    c == coeff.val(),
                    dividend@.len() == N,
                    r_old.len() == N,
                    all_wf(dividend@),
                    forall|k: int|
                        0 <= k < N ==> #[trigger] vals(dividend@)[k] == (if p <= k < p + j {
                            (r_old[k] - (c * d[k - p]) % m) % m
                        } else {
                            r_old[k]
                        }),
                decreases divisor_deg + 1 - j,
            {
                let prod = coeff.mul(&divisor[j]);
                let v = dividend[p + j].sub(&prod);
                let ghost before = vals(dividend@);
                proof {
                    assert(before[(p + j) as int] == r_old[(p + j) as int]);
                }
                dividend.set(p + j, v);
                proof {
                    assert(vals(dividend@) =~= before.update((p + j) as int, v.val()));
                }
                j += 1;
            }
            proof {
                let q_new = vals(quotient@);
                let r_new = vals(dividend@);
                BaseRing::lemma_wf(other.coeffs()[0]);
                assert forall|k: int| 0 <= k < N implies #[trigger] sv[k] == (conv(q_new, d, k)
                    + r_new[k]) % m by {
                    lemma_conv_update(q_old, d, k, (k + 1) as nat, p as int, c);
                    let delta = if p <= k {
                        c * coeff_at(d, k - p)
                    } else {
                        0
                    };
                    if p <= k && k <= i {
                        assert(coeff_at(d, k - p) == d[k - p]);
                        lemma_step_keeps_sum(sv[k], conv(q_old, d, k), r_old[k], c, delta, m);
                    } else if p <= k {
                        assert(coeff_at(d, k - p) == 0);
                        lemma_mul_basics(c);
                        lemma_step_keeps_sum(sv[k], conv(q_old, d, k), r_old[k], c, 0, m);
                        lemma_small_mod(0, m as nat);
                        BaseRing::lemma_wf(dividend@[k]);
                    }
                }
                BaseRing::lemma_wf(divisor_lead_inv);
                lemma_leading_cancels(r_old[i as int], divisor_lead_inv.val(), d[divisor_deg as int], m);
                lemma_mul_is_commutative(r_old[i as int], divisor_lead_inv.val());
                assert(r_new[i as int] == 0);
                assert forall|k: int| i <= k < N implies #[trigger] dividend@[k].val() == 0 by {
                    assert(r_new[k] == dividend@[k].val());
                }
                assert(!self_zero);
            }
        }
        let q = Self::from_coeff_vec(quotient);
        let r = Self::from_coeff_vec(dividend);
        proof {
            if self_zero {
                assert(vals(q.coeffs()) =~= constant_poly(0, N as nat));
                assert(vals(r.coeffs()) =~= constant_poly(0, N as nat));
            }
        }
        (q, r)
    }

    /// The monomial `X^j`.
    fn unit(j: usize) -> (r: Self)
        requires
            Self::params(),
            j < N,
        ensures
            r.wf(),
            forall|t: int| 0 <= t < N ==> #[trigger] vals(r.coeffs())[t] == (if t == j {
                1int
            } else {
                0int
            }),
    {
        let mut coeffs = [BaseRing::zero(); N];
        coeffs[j] = BaseRing::one();
        Pow2CyclotomicPolyRing(coeffs)
    }

    /// The coefficient-wise combination `x + c y`.
    fn add_scaled(x: &Self, y: &Self, c: &BaseRing) -> (r: Self)
        requires
            x.wf(),
            y.wf(),
            c.wf(),
        ensures
            r.wf(),
            forall|t: int| 0 <= t < N ==> #[trigger] vals(r.coeffs())[t] == (vals(x.coeffs())[t]
                + c.val() * vals(y.coeffs())[t]) % BaseRing::modulus(),
    {
        let ghost m = BaseRing::modulus();
        let mut out = x.0;
        let mut i: usize = 0;
        while i < N
            invariant
                0 <= i <= N,
                x.wf(),
                y.wf(),
                c.wf(),
                m == BaseRing::modulus(),
                all_wf(out@),
                forall|k: int| 0 <= k < i ==> #[trigger] out@[k].val() == (x.coeffs()[k].val()
                    + c.val() * y.coeffs()[k].val()) % m,
            decreases N - i,
        {
            let prod = c.mul(&y.0[i]);
            let s = x.0[i].add(&prod);
            proof {
                BaseRing::lemma_wf(x.0[i as int]);
                lemma_small_mod(x.0[i as int].val() as nat, m as nat);
                lemma_add_mod_noop(x.0[i as int].val(), c.val() * y.0[i as int].val(), m);
                lemma_mod_twice(c.val() * y.0[i as int].val(), m);
            }
            out[i] = s;
            i += 1;
        }
        Pow2CyclotomicPolyRing(out)
    }

    /// The coefficient-wise multiple `c x`.
    fn scaled(x: &Self, c: &BaseRing) -> (r: Self)
        requires
            x.wf(),
            c.wf(),
        ensures
            r.wf(),
            forall|t: int| 0 <= t < N ==> #[trigger] vals(r.coeffs())[t] == (c.val() * vals(
                x.coeffs(),
            )[t]) % BaseRing::modulus(),
    {
        let mut out = x.0;
        let mut i: usize = 0;
        while i < N
            invariant
                0 <= i <= N,
                x.wf(),
                c.wf(),
                all_wf(out@),
                forall|k: int| 0 <= k < i ==> #[trigger] out@[k].val() == (c.val()
                    * x.coeffs()[k].val()) % BaseRing::modulus(),
            decreases N - i,
        {
            out[i] = c.mul(&x.0[i]);
            i += 1;
        }
        Pow2CyclotomicPolyRing(out)
    }

    /// The rows of the elimination for `inverse`: `pv[k] = a * pu[k]`, `pv[k]` is one at its
    /// own pivot column `pc[k]` and zero at the other pivot columns, the pivot columns are
    /// distinct, and `pu[k]` has no terms from `X^lo` on.
    spec fn pivots_ok(a: Seq<int>, pu: Seq<Self>, pv: Seq<Self>, pc: Seq<usize>, lo: int) -> bool {
        let n = pc.len() as int;
        &&& pu.len() == n
        &&& pv.len() == n
        &&& forall|k: int| 0 <= k < n ==> (#[trigger] pu[k]).wf()
        &&& forall|k: int| 0 <= k < n ==> (#[trigger] pv[k]).wf()
        &&& forall|k: int|
            0 <= k < n ==> vals((#[trigger] pv[k]).coeffs()) == negacyclic_mul(
                a,
                vals(pu[k].coeffs()),
                BaseRing::modulus(),
            )
        &&& forall|k: int| 0 <= k < n ==> #[trigger] pc[k] < N
        &&& forall|k1: int, k2: int|
            0 <= k1 < n && 0 <= k2 < n && k1 != k2 ==> #[trigger] pc[k1] != #[trigger] pc[k2]
        &&& forall|k1: int, k2: int|
            0 <= k1 < n && 0 <= k2 < n ==> #[trigger] vals(pv[k1].coeffs())[pc[k2] as int] == (
            if k1 == k2 {
                1int
            } else {
                0int
            })
        &&& forall|k: int, t: int|
            0 <= k < n && lo <= t < N ==> #[trigger] vals(pu[k].coeffs())[t] == 0
    }

    /// `X^j` reduced against the pivot rows: a pair `(u, self * u)` with `u = X^j` plus terms
    /// below `X^j`, and `self * u` zero at every pivot column.
    fn reduce_by_pivots(&self, pu: &Vec<Self>, pv: &Vec<Self>, pc: &Vec<usize>, j: usize) -> (res: (
        Self,
        Self,
    ))
        requires
            self.wf(),
            j < N,
            pc@.len() == j,
            Self::pivots_ok(vals(self.coeffs()), pu@, pv@, pc@, j as int),
        ensures
            res.0.wf(),
            res.1.wf(),
            vals(res.1.coeffs()) == negacyclic_mul(
                vals(self.coeffs()),
                vals(res.0.coeffs()),
                BaseRing::modulus(),
            ),
            vals(res.0.coeffs())[j as int] == 1,
            forall|t: int| j < t < N ==> #[trigger] vals(res.0.coeffs())[t] == 0,
            forall|k: int| 0 <= k < j ==> #[trigger] vals(res.1.coeffs())[pc@[k] as int] == 0,
    {
        let ghost a = vals(self.coeffs());
        let ghost m = BaseRing::modulus();
        let mut u = Self::unit(j);
        let mut v = self.mul(&u);
        let one = BaseRing::one();
        let mut k: usize = 0;
        while k < j
            invariant
                self.wf(),
                a == vals(self.coeffs()),
                m == BaseRing::modulus(),
                j < N,
                0 <= k <= j,
                pc@.len() == j,
                Self::pivots_ok(a, pu@, pv@, pc@, j as int),
                one.wf(),
                one.val() == 1,
                u.wf(),
                v.wf(),
                vals(v.coeffs()) == negacyclic_mul(a, vals(u.coeffs()), m),
                vals(u.coeffs())[j as int] == 1,
                forall|t: int| j < t < N ==> #[trigger] vals(u.coeffs())[t] == 0,
                forall|k2: int| 0 <= k2 < k ==> #[trigger] vals(v.coeffs())[pc@[k2] as int] == 0,
            decreases j - k,
        {
            let col = pc[k];
            let c = v.0[col].neg();
            let nu = Self::add_scaled(&u, &pu[k], &c);
            let nv = Self::add_scaled(&v, &pv[k], &c);
            proof {
                let (ku, kv) = (pu@[k as int], pv@[k as int]);
                assert(ku.wf() && kv.wf());
                assert forall|t: int| 0 <= t < N implies #[trigger] vals(nu.coeffs())[t] == (1
                    * vals(u.coeffs())[t] + c.val() * vals(ku.coeffs())[t]) % m by {}
                lemma_negacyclic_mul_linear(
                    a,
                    vals(nu.coeffs()),
                    vals(u.coeffs()),
                    vals(ku.coeffs()),
                    1,
                    c.val(),
                    m,
                );
                assert(vals(nv.coeffs()) =~= negacyclic_mul(a, vals(nu.coeffs()), m));
                let x = vals(v.coeffs())[col as int];
                assert(vals(kv.coeffs())[pc@[k as int] as int] == 1);
                BaseRing::lemma_wf(v.coeffs()[col as int]);
                lemma_cancel_mod(x, m);
                assert(vals(nv.coeffs())[col as int] == 0);
                assert forall|k2: int| 0 <= k2 < k + 1 implies #[trigger] vals(
                    nv.coeffs(),
                )[pc@[k2] as int] == 0 by {
                    if k2 < k {
                        assert(vals(kv.coeffs())[pc@[k2] as int] == 0);
                        lemma_small_mod(0, m as nat);
                    }
                }
                assert(vals(ku.coeffs())[j as int] == 0);
                lemma_small_mod(1, m as nat);
                assert forall|t: int| j < t < N implies #[trigger] vals(nu.coeffs())[t] == 0 by {
                    assert(vals(ku.coeffs())[t] == 0);
                    lemma_small_mod(0, m as nat);
                }
            }
            u = nu;
            v = nv;
            k += 1;
        }
        (u, v)
    }

    /// Clears column `p` from the pivot rows with the new row `(su, sv)`, which is one at `p`
    /// and zero at the other pivot columns.
    fn eliminate_column(
        &self,
        pu: &mut Vec<Self>,
        pv: &mut Vec<Self>,
        pc: &Vec<usize>,
        su: &Self,
        sv: &Self,
        p: usize,
        j: usize,
    )
        requires
            self.wf(),
            j < N,
            p < N,
            pc@.len() == j,
            Self::pivots_ok(vals(self.coeffs()), old(pu)@, old(pv)@, pc@, j as int),
            forall|k: int| 0 <= k < j ==> #[trigger] pc@[k] != p,
            su.wf(),
            sv.wf(),
            vals(sv.coeffs()) == negacyclic_mul(
                vals(self.coeffs()),
                vals(su.coeffs()),
                BaseRing::modulus(),
            ),
            vals(sv.coeffs())[p as int] == 1,
            forall|k: int| 0 <= k < j ==> #[trigger] vals(sv.coeffs())[pc@[k] as int] == 0,
            forall|t: int| j < t < N ==> #[trigger] vals(su.coeffs())[t] == 0,
        ensures
            Self::pivots_ok(vals(self.coeffs()), final(pu)@, final(pv)@, pc@, j + 1),
            forall|k: int| 0 <= k < j ==> #[trigger] vals(final(pv)@[k].coeffs())[p as int] == 0,
    {
        let ghost a = vals(self.coeffs());
        let ghost m = BaseRing::modulus();
        let mut k: usize = 0;
        while k < j
            invariant
                self.wf(),
                a == vals(self.coeffs()),
                m == BaseRing::modulus(),
                j < N,
                p < N,
                0 <= k <= j,
                pc@.len() == j,
                Self::pivots_ok(a, pu@, pv@, pc@, j + 1),
                forall|k2: int| 0 <= k2 < j ==> #[trigger] pc@[k2] != p,
                su.wf(),
                sv.wf(),
                vals(sv.coeffs()) == negacyclic_mul(a, vals(su.coeffs()), m),
                vals(sv.coeffs())[p as int] == 1,
                forall|k2: int| 0 <= k2 < j ==> #[trigger] vals(sv.coeffs())[pc@[k2] as int] == 0,
                forall|t: int| j < t < N ==> #[trigger] vals(su.coeffs())[t] == 0,
                forall|k2: int| 0 <= k2 < k ==> #[trigger] vals(pv@[k2].coeffs())[p as int] == 0,
            decreases j - k,
        {
            let ru = pu[k];
            let rv = pv[k];
            let d = rv.0[p].neg();
            let nu = Self::add_scaled(&ru, su, &d);
            let nv = Self::add_scaled(&rv, sv, &d);
            proof {
                assert(ru.wf() && rv.wf());
                assert forall|t: int| 0 <= t < N implies #[trigger] vals(nu.coeffs())[t] == (1
                    * vals(ru.coeffs())[t] + d.val() * vals(su.coeffs())[t]) % m by {}
                lemma_negacyclic_mul_linear(
                    a,
                    vals(nu.coeffs()),
                    vals(ru.coeffs()),
                    vals(su.coeffs()),
                    1,
                    d.val(),
                    m,
                );
                assert(vals(nv.coeffs()) =~= negacyclic_mul(a, vals(nu.coeffs()), m));
                BaseRing::lemma_wf(rv.coeffs()[p as int]);
                lemma_cancel_mod(vals(rv.coeffs())[p as int], m);
                assert(vals(nv.coeffs())[p as int] == 0);
                lemma_small_mod(0, m as nat);
                lemma_small_mod(1, m as nat);
                assert forall|k2: int| 0 <= k2 < j implies #[trigger] vals(nv.coeffs())[pc@[k2]
                    as int] == vals(rv.coeffs())[pc@[k2] as int] by {
                    assert(vals(sv.coeffs())[pc@[k2] as int] == 0);
                    assert(vals(rv.coeffs())[pc@[k2] as int] == (if k as int == k2 {
                        1int
                    } else {
                        0int
                    }));
                }
                assert forall|t: int| j + 1 <= t < N implies #[trigger] vals(nu.coeffs())[t]
                    == 0 by {
                    assert(vals(ru.coeffs())[t] == 0);
                    assert(vals(su.coeffs())[t] == 0);
                }
            }
            pu.set(k, nu);
            pv.set(k, nv);
            proof {
                let n = j as int;
                assert forall|k1: int, k2: int| 0 <= k1 < n && 0 <= k2 < n implies #[trigger] vals(
                    pv@[k1].coeffs(),
                )[pc@[k2] as int] == (if k1 == k2 {
                    1int
                } else {
                    0int
                }) by {
                    if k1 == k {
                        assert(vals(nv.coeffs())[pc@[k2] as int] == vals(rv.coeffs())[pc@[k2]
                            as int]);
                    }
                }
                assert forall|k1: int, t: int| 0 <= k1 < n && j + 1 <= t < N implies #[trigger] vals(
                    pu@[k1].coeffs(),
                )[t] == 0 by {
                    if k1 == k {
                        assert(vals(nu.coeffs())[t] == 0);
                    }
                }
                assert forall|k1: int| 0 <= k1 < n implies vals((#[trigger] pv@[k1]).coeffs())
                    == negacyclic_mul(a, vals(pu@[k1].coeffs()), m) by {}
            }
            k += 1;
        }
    }

    /// A reduced `u` with coefficient one at `X^j` and `self * u = 0` shows that `self` has
    /// no inverse.
    proof fn lemma_no_inverse(&self, u: Self, v: Self, j: usize)
        requires
            self.wf(),
            u.wf(),
            v.wf(),
            j < N,
            vals(u.coeffs())[j as int] == 1,
            vals(v.coeffs()) == negacyclic_mul(
                vals(self.coeffs()),
                vals(u.coeffs()),
                BaseRing::modulus(),
            ),
            forall|t: int| 0 <= t < N ==> #[trigger] vals(v.coeffs())[t] == 0,
        ensures
            forall|b: Self|
                b.wf() ==> #[trigger] negacyclic_mul(
                    vals(self.coeffs()),
                    vals(b.coeffs()),
                    BaseRing::modulus(),
                ) != constant_poly(1, N as nat),
    {
        let a = vals(self.coeffs());
        let m = BaseRing::modulus();
        assert(negacyclic_mul(a, vals(u.coeffs()), m) =~= constant_poly(0, N as nat));
        assert forall|t: int| 0 <= t < N implies 0 <= #[trigger] vals(u.coeffs())[t] < m by {
            BaseRing::lemma_wf(u.coeffs()[t]);
        }
        assert(vals(u.coeffs())[j as int] != 0);
        assert forall|b: Self| b.wf() implies #[trigger] negacyclic_mul(
            a,
            vals(b.coeffs()),
            m,
        ) != constant_poly(1, N as nat) by {
            lemma_annihilator_blocks_inverse(a, vals(u.coeffs()), vals(b.coeffs()), m);
        }
    }

    /// The multiplicative inverse of `self` in `BaseRing[X] / (X^N + 1)`. The multiples
    /// `self * X^j` are reduced by Gaussian elimination, each pivot being a unit of the base
    /// ring: the combination that gives `1` is the inverse, which is unique. `None` comes where
    /// a combination `u` of monomials has `self * u = 0`, so that no inverse exists, or where a
    /// reduced multiple has no unit coefficient to pivot on. Over a prime modulus every
    /// non-zero coefficient is a unit, so there `None` means exactly that no inverse exists.
    pub fn inverse(&self) -> (res: Option<Self>)
        requires
            self.wf(),
        ensures
            is_prime(BaseRing::modulus()) ==> (res is Some <==> exists|b: Self|
                b.wf() && #[trigger] negacyclic_mul(
                    vals(self.coeffs()),
                    vals(b.coeffs()),
                    BaseRing::modulus(),
                ) == constant_poly(1, N as nat)),
            res matches Some(y) ==> y.wf() && negacyclic_mul(
                vals(self.coeffs()),
                vals(y.coeffs()),
                BaseRing::modulus(),
            ) == constant_poly(1, N as nat),
    {
        let ghost a = vals(self.coeffs());
        let ghost m = BaseRing::modulus();
        let mut pu: Vec<Self> = Vec::new();
        let mut pv: Vec<Self> = Vec::new();
        let mut pc: Vec<usize> = Vec::new();
        let mut j: usize = 0;
        while j < N
            invariant
                self.wf(),
                a == vals(self.coeffs()),
                m == BaseRing::modulus(),
                0 <= j <= N,
                pc@.len() == j,
                Self::pivots_ok(a, pu@, pv@, pc@, j as int),
            decreases N - j,
        {
            let (u, v) = self.reduce_by_pivots(&pu, &pv, &pc, j);
            let mut p: usize = 0;
            while p < N && v.0[p].inverse().is_none()
                invariant
                    0 <= p <= N,
                    v.wf(),
                    m == BaseRing::modulus(),
                    forall|t: int|
                        0 <= t < p ==> !is_invertible_mod(#[trigger] vals(v.coeffs())[t], m),
                decreases N - p,
            {
                p += 1;
            }
            if p == N {
                proof {
                    if is_prime(m) {
                        // over a field every non-zero entry is a unit, so `self * u` is zero
                        assert forall|t: int| 0 <= t < N implies #[trigger] vals(v.coeffs())[t]
                            == 0 by {
                            let x = vals(v.coeffs())[t];
                            BaseRing::lemma_wf(v.coeffs()[t]);
                            if x != 0 {
                                lemma_prime_coprime(m as nat, x as nat);
                                lemma_coprime_invertible(x as nat, m as nat);
                            }
                        }
                        self.lemma_no_inverse(u, v, j);
                    }
                }
                return None;
            }
            let inv = v.0[p].inverse().unwrap();
            proof {
                BaseRing::lemma_wf(v.coeffs()[p as int]);
                if vals(v.coeffs())[p as int] == 0 {
                    lemma_small_mod(1, m as nat);
                    assert((0 * inv.val()) % m == 0) by {
                        lemma_small_mod(0, m as nat);
                    }
                }
            }
            let su = Self::scaled(&u, &inv);
            let sv = Self::scaled(&v, &inv);
            proof {
                assert forall|t: int| 0 <= t < N implies #[trigger] vals(su.coeffs())[t] == (
                inv.val() * vals(u.coeffs())[t] + 0 * vals(u.coeffs())[t]) % m by {}
                lemma_negacyclic_mul_linear(
                    a,
                    vals(su.coeffs()),
                    vals(u.coeffs()),
                    vals(u.coeffs()),
                    inv.val(),
                    0,
                    m,
                );
                assert(vals(sv.coeffs()) =~= negacyclic_mul(a, vals(su.coeffs()), m));
                lemma_mul_is_commutative(inv.val(), vals(v.coeffs())[p as int]);
                lemma_small_mod(1, m as nat);
                lemma_small_mod(0, m as nat);
                assert(vals(sv.coeffs())[p as int] == 1);
                assert forall|k: int| 0 <= k < j implies #[trigger] pc@[k] != p by {
                    assert(vals(v.coeffs())[pc@[k] as int] == 0);
                }
                assert forall|k: int| 0 <= k < j implies #[trigger] vals(sv.coeffs())[pc@[k]
                    as int] == 0 by {
                    assert(vals(v.coeffs())[pc@[k] as int] == 0);
                }
                assert forall|t: int| j < t < N implies #[trigger] vals(su.coeffs())[t] == 0 by {
                    assert(vals(u.coeffs())[t] == 0);
                }
            }
            self.eliminate_column(&mut pu, &mut pv, &pc, &su, &sv, p, j);
            let ghost (pu0, pv0, pc0) = (pu@, pv@, pc@);
            pu.push(su);
            pv.push(sv);
            pc.push(p);
            proof {
                let n = j as int + 1;
                assert(pu@ == pu0.push(su) && pv@ == pv0.push(sv) && pc@ == pc0.push(p));
                assert forall|k: int| 0 <= k < n implies (#[trigger] pu@[k]).wf() by {
                    if k < j {
                        assert(pu@[k] == pu0[k]);
                    }
                }
                assert forall|k: int| 0 <= k < n implies (#[trigger] pv@[k]).wf() by {
                    if k < j {
                        assert(pv@[k] == pv0[k]);
                    }
                }
                assert forall|k: int| 0 <= k < n implies vals((#[trigger] pv@[k]).coeffs())
                    == negacyclic_mul(a, vals(pu@[k].coeffs()), m) by {
                    if k < j {
                        assert(pv@[k] == pv0[k] && pu@[k] == pu0[k]);
                    }
                }
                assert forall|k: int| 0 <= k < n implies #[trigger] pc@[k] < N by {
                    if k < j {
                        assert(pc@[k] == pc0[k]);
                    }
                }
                assert forall|k1: int, k2: int|
                    0 <= k1 < n && 0 <= k2 < n && k1 != k2 implies #[trigger] pc@[k1]
                    != #[trigger] pc@[k2] by {
                    if k1 < j && k2 < j {
                        assert(pc0[k1] != pc0[k2]);
                    } else if k1 < j {
                        assert(pc0[k1] != p);
                    } else {
                        assert(pc0[k2] != p);
                    }
                }
                assert forall|k1: int, k2: int| 0 <= k1 < n && 0 <= k2 < n implies #[trigger] vals(
                    pv@[k1].coeffs(),
                )[pc@[k2] as int] == (if k1 == k2 {
                    1int
                } else {
                    0int
                }) by {
                    if k1 < j && k2 < j {
                        assert(vals(pv0[k1].coeffs())[pc0[k2] as int] == (if k1 == k2 {
                            1int
                        } else {
                            0int
                        }));
                    } else if k1 < j {
                        assert(vals(pv0[k1].coeffs())[p as int] == 0);
                    } else if k2 < j {
                        assert(vals(sv.coeffs())[pc0[k2] as int] == 0);
                    }
                }
                assert forall|k: int, t: int| 0 <= k < n && n <= t < N implies #[trigger] vals(
                    pu@[k].coeffs(),
                )[t] == 0 by {
                    if k < j {
                        assert(vals(pu0[k].coeffs())[t] == 0);
                    } else {
                        assert(vals(su.coeffs())[t] == 0);
                    }
                }
            }
            j += 1;
        }
        // the pivot columns are `N` distinct columns, so one of them is column 0
        let ghost cols = Seq::new(N as nat, |i: int| pc@[i] as int);
        proof {
            assert forall|i: int, i2: int|
                0 <= i < cols.len() && 0 <= i2 < cols.len() && i != i2 implies cols[i]
                != cols[i2] by {
                assert(pc@[i] != pc@[i2]);
            }
            assert(cols.no_duplicates());
            assert forall|k: int| 0 <= k < N implies 0 <= #[trigger] cols[k] < N by {
                assert(pc@[k] < N);
            }
            lemma_distinct_cover(cols, N as nat, 0);
        }
        let mut k: usize = 0;
        while k < N && pc[k] != 0
            invariant
                0 <= k <= N,
                pc@.len() == N,
                cols == Seq::new(N as nat, |i: int| pc@[i] as int),
                exists|k2: int| 0 <= k2 < N && #[trigger] cols[k2] == 0,
                forall|k2: int| 0 <= k2 < k ==> #[trigger] pc@[k2] != 0,
            decreases N - k,
        {
            k += 1;
        }
        proof {
            if k == N {
                let k2 = choose|k2: int| 0 <= k2 < N && #[trigger] cols[k2] == 0;
                assert(pc@[k2] != 0);
            }
        }
        let y = pu[k];
        proof {
            let one = constant_poly(1, N as nat);
            assert forall|t: int| 0 <= t < N implies #[trigger] vals(pv@[k as int].coeffs())[t]
                == one[t] by {
                assert forall|k2: int| 0 <= k2 < N implies 0 <= #[trigger] cols[k2] < N by {
                    assert(pc@[k2] < N);
                }
                lemma_distinct_cover(cols, N as nat, t);
                let k2 = choose|k2: int| 0 <= k2 < N && #[trigger] cols[k2] == t;
                assert(pc@[k2] as int == t);
                assert(vals(pv@[k as int].coeffs())[pc@[k2] as int] == (if k as int == k2 {
                    1int
                } else {
                    0int
                }));
                if k as int != k2 {
                    assert(pc@[k as int] != pc@[k2]);
                }
            }
            assert(vals(pv@[k as int].coeffs()) =~= one);
            assert(y.wf());
        }
        Some(y)
    }

    /// The coefficients as an array.
    pub fn coefficient_array(&self) -> (r: [BaseRing; N])
        ensures
            r@ == self.coeffs(),
    {
        self.0
    }

    /// The polynomial with the given coefficient array.
    pub fn from_array(value: [BaseRing; N]) -> (r: Self)
        requires
            Self::params(),
            all_wf(value@),
        ensures
            r.wf(),
            r.coeffs() == value@,
    {
        Pow2CyclotomicPolyRing(value)
    }

    /// Multiplication by a scalar of the base ring.
    pub fn mul_scalar(&self, rhs: &BaseRing) -> (r: Self)
        requires
            self.wf(),
            rhs.wf(),
        ensures
            r.wf(),
            vals(r.coeffs()) == negacyclic_mul(
                vals(self.coeffs()),
                constant_poly(rhs.val(), N as nat),
                BaseRing::modulus(),
            ),
    {
        let s = Self::from_scalar(*rhs);
        self.mul(&s)
    }

    /// The image of the conjugation automorphism `X -> X^-1`:
    /// `a_0 - a_{N-1} X - ... - a_1 X^{N-1}`.
    pub fn apply_automorphism(&self) -> (r: Self)
        requires
            self.wf(),
        ensures
            r.wf(),
            vals(r.coeffs()) == conjugate(vals(self.coeffs()), BaseRing::modulus()),
    {
        let mut new_coeffs: Vec<BaseRing> = Vec::with_capacity(N);
        new_coeffs.push(self.0[0]);
        let mut k: usize = 1;
        while k < N
            invariant
                1 <= k <= N,
                self.wf(),
                new_coeffs@.len() == k,
                all_wf(new_coeffs@),
                new_coeffs@[0] == self.coeffs()[0],
                forall|i: int|
                    1 <= i < k ==> #[trigger] new_coeffs@[i].val() == (-self.coeffs()[N - i].val())
                        % BaseRing::modulus(),
            decreases N - k,
        {
            new_coeffs.push(self.0[N - k].neg());
            k += 1;
        }
        let r = Self::from_coeff_vec(new_coeffs);
        proof {
            assert(vals(r.coeffs()) =~= conjugate(vals(self.coeffs()), BaseRing::modulus()));
        }
        r
    }
}

impl<BaseRing: Ring, const N: usize> PolyRing for Pow2CyclotomicPolyRing<BaseRing, N> {
    type BaseRing = BaseRing;

    open spec fn params() -> bool {
        BaseRing::modulus() >= 2 && N >= 1
    }

    open spec fn dim() -> nat {
        N as nat
    }

    closed spec fn coeffs(&self) -> Seq<BaseRing> {
        self.0@
    }

    closed spec fn wf(&self) -> bool {
        Self::params() && all_wf(self.coeffs())
    }

    open spec fn mul_spec(a: Seq<int>, b: Seq<int>) -> Seq<int> {
        negacyclic_mul(a, b, BaseRing::modulus())
    }

    proof fn lemma_poly_wf(p: Self) {
    }

    proof fn lemma_params() {
    }

    proof fn lemma_poly_canonical(p: Self, r: Self) {
        assert forall|i: int| 0 <= i < N implies p.coeffs()[i] == r.coeffs()[i] by {
            assert(vals(p.coeffs())[i] == vals(r.coeffs())[i]);
            BaseRing::lemma_canonical(p.coeffs()[i], r.coeffs()[i]);
        }
        assert(p.coeffs() =~= r.coeffs());
        vstd::array::axiom_array_ext_equal(p.0, r.0);
        assert(p.0 =~= r.0);
    }

    fn coefficients(&self) -> (r: Vec<BaseRing>) {
        let mut v: Vec<BaseRing> = Vec::new();
        let mut i: usize = 0;
        while i < N
            invariant
                0 <= i <= N,
                v@ == self.coeffs().subrange(0, i as int),
            decreases N - i,
        {
            v.push(self.0[i]);
            i += 1;
            proof {
                assert(v@ =~= self.coeffs().subrange(0, i as int));
            }
        }
        proof {
            assert(self.coeffs().subrange(0, N as int) =~= self.coeffs());
        }
        v
    }

    fn try_from_coefficients(coeffs: &[BaseRing]) -> (r: Option<Self>) {
        proof {
            Self::lemma_params();
        }
        let mut arr = [BaseRing::zero(); N];
        let mut i: usize = 0;
        while i < N
            invariant
                0 <= i <= N,
                coeffs@.len() == N,
                all_wf(coeffs@),
                all_wf(arr@),
                forall|k: int| 0 <= k < i ==> #[trigger] arr@[k] == coeffs@[k],
            decreases N - i,
        {
            arr[i] = coeffs[i];
            i += 1;
        }
        proof {
            assert(arr@ =~= coeffs@);
        }
        Some(Pow2CyclotomicPolyRing(arr))
    }

    fn dimension() -> (d: usize) {
        N
    }

    fn from_scalar(scalar: BaseRing) -> (r: Self) {
        Self::const_from_element(scalar)
    }

    fn from_coeff_vec(coeffs: Vec<BaseRing>) -> (r: Self) {
        let r = Self::try_from_coefficients(coeffs.as_slice());
        r.unwrap()
    }

    fn rand(rng: &mut StdRng) -> (r: Self) {
        proof {
            Self::lemma_params();
        }
        let mut coeffs = [BaseRing::zero(); N];
        let mut i: usize = 0;
        while i < N
            invariant
                0 <= i <= N,
                BaseRing::modulus() >= 2,
                all_wf(coeffs@),
            decreases N - i,
        {
            coeffs[i] = BaseRing::rand(rng);
            i += 1;
        }
        Pow2CyclotomicPolyRing(coeffs)
    }

    fn zero() -> (r: Self) {
        Self::const_from_element(BaseRing::zero())
    }

    fn one() -> (r: Self) {
        Self::const_from_element(BaseRing::one())
    }

    fn is_zero(&self) -> (b: bool) {
        let mut i: usize = 0;
        while i < N
            invariant
                0 <= i <= N,
                self.wf(),
                forall|k: int| 0 <= k < i ==> #[trigger] self.coeffs()[k].val() == 0,
            decreases N - i,
        {
            if !self.0[i].is_zero() {
                proof {
                    assert(vals(self.coeffs())[i as int] != constant_poly(0, N as nat)[i as int]);
                }
                return false;
            }
            i += 1;
        }
        proof {
            assert(vals(self.coeffs()) =~= constant_poly(0, N as nat));
        }
        true
    }

    fn poly_eq(&self, other: &Self) -> (b: bool) {
        let mut i: usize = 0;
        while i < N
            invariant
                0 <= i <= N,
                self.wf(),
                other.wf(),
                forall|k: int| 0 <= k < i ==> #[trigger] self.coeffs()[k].val() == other.coeffs()[k].val(),
            decreases N - i,
        {
            if !self.0[i].ring_eq(&other.0[i]) {
                proof {
                    assert(vals(self.coeffs())[i as int] != vals(other.coeffs())[i as int]);
                }
                return false;
            }
            i += 1;
        }
        proof {
            assert(vals(self.coeffs()) =~= vals(other.coeffs()));
        }
        true
    }

    fn add(&self, other: &Self) -> (r: Self) {
        let mut out = self.0;
        let mut i: usize = 0;
        while i < N
            invariant
                0 <= i <= N,
                self.wf(),
                other.wf(),
                all_wf(out@),
                forall|k: int|
                    0 <= k < i ==> #[trigger] out@[k].val() == (self.coeffs()[k].val() + other.coeffs()[k].val())
                        % BaseRing::modulus(),
                forall|k: int| i <= k < N ==> #[trigger] out@[k] == self.coeffs()[k],
            decreases N - i,
        {
            out[i] = self.0[i].add(&other.0[i]);
            i += 1;
        }
        let r = Pow2CyclotomicPolyRing(out);
        proof {
            assert(vals(r.coeffs()) =~= seq_add(vals(self.coeffs()), vals(other.coeffs()), BaseRing::modulus()));
        }
        r
    }

    fn sub(&self, other: &Self) -> (r: Self) {
        let mut out = self.0;
        let mut i: usize = 0;
        while i < N
            invariant
                0 <= i <= N,
                self.wf(),
                other.wf(),
                all_wf(out@),
                forall|k: int|
                    0 <= k < i ==> #[trigger] out@[k].val() == (self.coeffs()[k].val() - other.coeffs()[k].val())
                        % BaseRing::modulus(),
                forall|k: int| i <= k < N ==> #[trigger] out@[k] == self.coeffs()[k],
            decreases N - i,
        {
            out[i] = self.0[i].sub(&other.0[i]);
            i += 1;
        }
        let r = Pow2CyclotomicPolyRing(out);
        proof {
            assert(vals(r.coeffs()) =~= seq_sub(vals(self.coeffs()), vals(other.coeffs()), BaseRing::modulus()));
        }
        r
    }

    fn neg(&self) -> (r: Self) {
        let mut out = self.0;
        let mut i: usize = 0;
        while i < N
            invariant
                0 <= i <= N,
                self.wf(),
                all_wf(out@),
                forall|k: int|
                    0 <= k < i ==> #[trigger] out@[k].val() == (-self.coeffs()[k].val()) % BaseRing::modulus(),
                forall|k: int| i <= k < N ==> #[trigger] out@[k] == self.coeffs()[k],
            decreases N - i,
        {
            out[i] = self.0[i].neg();
            i += 1;
        }
        let r = Pow2CyclotomicPolyRing(out);
        proof {
            assert(vals(r.coeffs()) =~= seq_neg(vals(self.coeffs()), BaseRing::modulus()));
        }
        r
    }

    fn mul(&self, rhs: &Self) -> (r: Self) {
        let ghost a = vals(self.coeffs());
        let ghost b = vals(rhs.coeffs());
        let ghost m = BaseRing::modulus();
        let mut out: Vec<BaseRing> = Vec::new();
        let mut z: usize = 0;
        while z < N
            invariant
                0 <= z <= N,
                self.wf(),
                out@.len() == z,
                all_wf(out@),
                forall|k: int| 0 <= k < z ==> #[trigger] out@[k].val() == 0,
            decreases N - z,
        {
            out.push(BaseRing::zero());
            z += 1;
        }
        proof {
            assert forall|k: int| 0 <= k < N implies #[trigger] out@[k].val() == nega_sum(
                a,
                b,
                0,
                k,
            ) % m by {
                lemma_small_mod(0, m as nat);
            }
        }
        for i in 0..N
            invariant
                self.wf(),
                rhs.wf(),
                a == vals(self.coeffs()),
                b == vals(rhs.coeffs()),
                m == BaseRing::modulus(),
                out@.len() == N,
                all_wf(out@),
                forall|k: int| 0 <= k < N ==> #[trigger] out@[k].val() == nega_sum(a, b, i as nat, k) % m,
        {
            for j in 0..N
                invariant
                    self.wf(),
                    rhs.wf(),
                    0 <= i < N,
                    a == vals(self.coeffs()),
                    b == vals(rhs.coeffs()),
                    m == BaseRing::modulus(),
                    out@.len() == N,
                    all_wf(out@),
                    forall|k: int|
                        0 <= k < N ==> #[trigger] out@[k].val() == (nega_sum(a, b, i as nat, k) + (if (
                        if k >= i {
                            k - i
                        } else {
                            k + N - i
                        }) < j {
                            nega_term(a, b, i as int, k)
                        } else {
                            0
                        })) % m,
            {
                let prod = self.0[i].mul(&rhs.0[j]);
                if j < N - i {
                    let k = i + j;
                    proof {
                        let s = nega_sum(a, b, i as nat, k as int);
                        assert(out@[k as int].val() == s % m);
                        lemma_add_mod_noop(s, a[i as int] * b[j as int], m);
                        lemma_mod_twice(s, m);
                        lemma_mod_twice(a[i as int] * b[j as int], m);
                    }
                    let v = out[k].add(&prod);
                    out.set(k, v);
                } else {
                    let k = j - (N - i);
                    proof {
                        let s = nega_sum(a, b, i as nat, k as int);
                        assert(out@[k as int].val() == s % m);
                        lemma_sub_mod_noop(s, a[i as int] * b[j as int], m);
                        lemma_mod_twice(s, m);
                        lemma_mod_twice(a[i as int] * b[j as int], m);
                        assert(k + N - i == j);
                    }
                    let v = out[k].sub(&prod);
                    out.set(k, v);
                }
            }
        }
        let r = Self::from_coeff_vec(out);
        proof {
            assert(vals(r.coeffs()) =~= negacyclic_mul(a, b, m));
        }
        r
    }
}

/// The coefficient residues of the sum of all polynomials of `v`, added up in order.
pub open spec fn poly_sum<BaseRing: Ring, const N: usize>(
    v: Seq<Pow2CyclotomicPolyRing<BaseRing, N>>,
) -> Seq<int>
    decreases v.len(),
{
    if v.len() == 0 {
        constant_poly(0, N as nat)
    } else {
        seq_add(poly_sum(v.drop_last()), vals(v.last().coeffs()), BaseRing::modulus())
    }
}

/// The coefficient residues of the product of all polynomials of `v`, multiplied in order.
pub open spec fn poly_product<BaseRing: Ring, const N: usize>(
    v: Seq<Pow2CyclotomicPolyRing<BaseRing, N>>,
) -> Seq<int>
    decreases v.len(),
{
    if v.len() == 0 {
        constant_poly(1, N as nat)
    } else {
        negacyclic_mul(poly_product(v.drop_last()), vals(v.last().coeffs()), BaseRing::modulus())
    }
}

impl<BaseRing: Ring, const N: usize> Pow2CyclotomicPolyRing<BaseRing, N> {
    /// The sum of all polynomials of `v`.
    pub fn sum(v: &[Self]) -> (r: Self)
        requires
            Self::params(),
            forall|i: int| 0 <= i < v@.len() ==> (#[trigger] v@[i]).wf(),
        ensures
            r.wf(),
            vals(r.coeffs()) == poly_sum(v@),
    {
        let mut acc = <Self as PolyRing>::zero();
        let mut i: usize = 0;
        proof {
            assert(v@.subrange(0, 0) =~= Seq::<Self>::empty());
        }
        while i < v.len()
            invariant
                Self::params(),
                forall|i: int| 0 <= i < v@.len() ==> (#[trigger] v@[i]).wf(),
                0 <= i <= v@.len(),
                acc.wf(),
                vals(acc.coeffs()) == poly_sum(v@.subrange(0, i as int)),
            decreases v@.len() - i,
        {
            proof {
                assert(v@.subrange(0, i + 1int).drop_last() =~= v@.subrange(0, i as int));
            }
            acc = acc.add(&v[i]);
            i += 1;
        }
        proof {
            assert(v@.subrange(0, v@.len() as int) =~= v@);
        }
        acc
    }

    /// The product of all polynomials of `v`.
    pub fn product(v: &[Self]) -> (r: Self)
        requires
            Self::params(),
            forall|i: int| 0 <= i < v@.len() ==> (#[trigger] v@[i]).wf(),
        ensures
            r.wf(),
            vals(r.coeffs()) == poly_product(v@),
    {
        let mut acc = <Self as PolyRing>::one();
        let mut i: usize = 0;
        proof {
            assert(v@.subrange(0, 0) =~= Seq::<Self>::empty());
        }
        while i < v.len()
            invariant
                Self::params(),
                forall|i: int| 0 <= i < v@.len() ==> (#[trigger] v@[i]).wf(),
                0 <= i <= v@.len(),
                acc.wf(),
                vals(acc.coeffs()) == poly_product(v@.subrange(0, i as int)),
            decreases v@.len() - i,
        {
            proof {
                assert(v@.subrange(0, i + 1int).drop_last() =~= v@.subrange(0, i as int));
            }
            acc = acc.mul(&v[i]);
            i += 1;
        }
        proof {
            assert(v@.subrange(0, v@.len() as int) =~= v@);
        }
        acc
    }

    /// Adds `rhs` to `self`.
    pub fn add_assign(&mut self, rhs: &Self)
        requires
            old(self).wf(),
            rhs.wf(),
        ensures
            final(self).wf(),
            vals(final(self).coeffs()) == seq_add(
                vals(old(self).coeffs()),
                vals(rhs.coeffs()),
                BaseRing::modulus(),
            ),
    {
        *self = PolyRing::add(&*self, rhs);
    }

    /// Subtracts `rhs` from `self`.
    pub fn sub_assign(&mut self, rhs: &Self)
        requires
            old(self).wf(),
            rhs.wf(),
        ensures
            final(self).wf(),
            vals(final(self).coeffs()) == seq_sub(
                vals(old(self).coeffs()),
                vals(rhs.coeffs()),
                BaseRing::modulus(),
            ),
    {
        *self = PolyRing::sub(&*self, rhs);
    }

    /// Multiplies `self` by `rhs`.
    pub fn mul_assign(&mut self, rhs: &Self)
        requires
            old(self).wf(),
            rhs.wf(),
        ensures
            final(self).wf(),
            vals(final(self).coeffs()) == negacyclic_mul(
                vals(old(self).coeffs()),
                vals(rhs.coeffs()),
                BaseRing::modulus(),
            ),
    {
        *self = PolyRing::mul(&*self, rhs);
    }

    /// The zero polynomial.
    pub fn default() -> (r: Self)
        requires
            Self::params(),
        ensures
            r.wf(),
            vals(r.coeffs()) == constant_poly(0, N as nat),
    {
        <Self as PolyRing>::zero()
    }
}

impl<BaseRing: WithSignedRepresentative, const N: usize> Pow2CyclotomicPolyRing<BaseRing, N> {
    /// The squared Euclidean norm of the signed coefficients, saturated at `u128::MAX`.
    pub fn l2_norm_squared(&self) -> (r: u128)
        requires
            self.wf(),
        ensures
            r == saturate(sq_norm(self.coeffs())),
    {
        norms::l2_norm_squared(self)
    }

    /// The largest magnitude of the signed coefficients.
    pub fn linf_norm(&self) -> (r: u128)
        requires
            self.wf(),
        ensures
            r == max_abs(self.coeffs()),
    {
        norms::linf_norm(self)
    }
}

/// `sum_{from <= k < n} a[k] b[k]`.
pub open spec fn dot_from(a: Seq<int>, b: Seq<int>, from: int) -> int
    decreases a.len() - from,
{
    if from >= a.len() {
        0
    } else {
        a[from] * b[from] + dot_from(a, b, from + 1)
    }
}

/// The first `upto` terms of coefficient zero of `conjugate(a) * b` add up to
/// `a[0] b[0] + sum_{n - upto < k < n} a[k] b[k]` modulo `m`.
proof fn lemma_conjugate_prefix(a: Seq<int>, b: Seq<int>, m: int, upto: nat)
    requires
        m > 0,
        a.len() == b.len(),
        1 <= upto <= a.len(),
    ensures
        (nega_sum(conjugate(a, m), b, upto, 0) - (a[0] * b[0] + dot_from(
            a,
            b,
            a.len() - upto + 1,
        ))) % m == 0,
    decreases upto,
{
    let n = a.len() as int;
    let c = conjugate(a, m);
    if upto == 1 {
        assert(nega_sum(c, b, 0, 0) == 0);
        assert(dot_from(a, b, n) == 0);
        lemma_mod_self_0(m);
        lemma_small_mod(0, m as nat);
    } else {
        lemma_conjugate_prefix(a, b, m, (upto - 1) as nat);
        let i = upto - 1;
        let k = n - i;
        assert(1 <= i < n);
        assert(c[i] == (-a[k]) % m);
        assert(nega_term(c, b, i, 0) == -(c[i] * b[k]));
        // -(((-x) mod m) y) = x y (mod m)
        let x = a[k];
        let y = b[k];
        lemma_fundamental_div_mod(-x, m);
        let t = (-x) / m;
        assert(-(c[i] * y) == x * y + m * (t * y)) by (nonlinear_arith)
            requires
                c[i] == (-x) % m,
                -x == m * t + (-x) % m,
        ;
        assert(dot_from(a, b, k) == x * y + dot_from(a, b, k + 1));
        let prev = nega_sum(c, b, i as nat, 0) - (a[0] * b[0] + dot_from(a, b, k + 1));
        assert(nega_sum(c, b, upto, 0) - (a[0] * b[0] + dot_from(a, b, k)) == prev + m * (t * y));
        lemma_mod_multiples_vanish(t * y, prev, m);
    }
}

/// The constant coefficient of `conjugate(a) * b` is the inner product of the coefficient
/// vectors of `a` and `b`.
pub proof fn law_conjugate_inner_product<BaseRing: Ring, const N: usize>(
    a: Pow2CyclotomicPolyRing<BaseRing, N>,
    b: Pow2CyclotomicPolyRing<BaseRing, N>,
)
    requires
        a.wf(),
        b.wf(),
    ensures
        negacyclic_mul(
            conjugate(vals(a.coeffs()), BaseRing::modulus()),
            vals(b.coeffs()),
            BaseRing::modulus(),
        )[0] == dot_from(vals(a.coeffs()), vals(b.coeffs()), 0) % BaseRing::modulus(),
{
    Pow2CyclotomicPolyRing::<BaseRing, N>::lemma_poly_wf(a);
    Pow2CyclotomicPolyRing::<BaseRing, N>::lemma_poly_wf(b);
    let m = BaseRing::modulus();
    let (va, vb) = (vals(a.coeffs()), vals(b.coeffs()));
    let n = va.len();
    lemma_conjugate_prefix(va, vb, m, n);
    assert(dot_from(va, vb, 0) == va[0] * vb[0] + dot_from(va, vb, 1));
    let s = nega_sum(conjugate(va, m), vb, n, 0);
    let d = dot_from(va, vb, 0);
    lemma_fundamental_div_mod(s - d, m);
    lemma_mod_multiples_vanish((s - d) / m, d, m);
    assert(s == m * ((s - d) / m) + d);
}

/// The conjugation automorphism is an involution.
pub proof fn law_conjugate_involution<BaseRing: Ring, const N: usize>(
    a: Pow2CyclotomicPolyRing<BaseRing, N>,
)
    requires
        a.wf(),
    ensures
        conjugate(conjugate(vals(a.coeffs()), BaseRing::modulus()), BaseRing::modulus()) == vals(
            a.coeffs(),
        ),
{
    Pow2CyclotomicPolyRing::<BaseRing, N>::lemma_poly_wf(a);
    let m = BaseRing::modulus();
    let va = vals(a.coeffs());
    let c = conjugate(va, m);
    let n = va.len() as int;
    assert forall|i: int| 0 <= i < n implies #[trigger] conjugate(c, m)[i] == va[i] by {
        BaseRing::lemma_wf(a.coeffs()[i]);
        if i > 0 {
            assert(c[n - i] == (-va[i]) % m);
            lemma_fundamental_div_mod(-va[i], m);
            let t = (-va[i]) / m;
            assert(-c[n - i] == va[i] + m * t);
            lemma_mod_multiples_vanish(t, va[i], m);
            lemma_small_mod(va[i] as nat, m as nat);
        }
    }
    assert(conjugate(c, m) =~= va);
}

/// Addition of polynomials is commutative and associative, zero is its identity and the
/// negation is the additive inverse.
pub proof fn law_poly_add<BaseRing: Ring, const N: usize>(
    a: Pow2CyclotomicPolyRing<BaseRing, N>,
    b: Pow2CyclotomicPolyRing<BaseRing, N>,
    c: Pow2CyclotomicPolyRing<BaseRing, N>,
)
    requires
        a.wf(),
        b.wf(),
        c.wf(),
    ensures
        seq_add(vals(a.coeffs()), vals(b.coeffs()), BaseRing::modulus()) == seq_add(
            vals(b.coeffs()),
            vals(a.coeffs()),
            BaseRing::modulus(),
        ),
        seq_add(
            seq_add(vals(a.coeffs()), vals(b.coeffs()), BaseRing::modulus()),
            vals(c.coeffs()),
            BaseRing::modulus(),
        ) == seq_add(
            vals(a.coeffs()),
            seq_add(vals(b.coeffs()), vals(c.coeffs()), BaseRing::modulus()),
            BaseRing::modulus(),
        ),
        seq_add(vals(a.coeffs()), constant_poly(0, N as nat), BaseRing::modulus()) == vals(
            a.coeffs(),
        ),
        seq_add(
            vals(a.coeffs()),
            seq_neg(vals(a.coeffs()), BaseRing::modulus()),
            BaseRing::modulus(),
        ) == constant_poly(0, N as nat),
{
    Pow2CyclotomicPolyRing::<BaseRing, N>::lemma_poly_wf(a);
    Pow2CyclotomicPolyRing::<BaseRing, N>::lemma_poly_wf(b);
    Pow2CyclotomicPolyRing::<BaseRing, N>::lemma_poly_wf(c);
    let m = BaseRing::modulus();
    let (va, vb, vc) = (vals(a.coeffs()), vals(b.coeffs()), vals(c.coeffs()));
    assert(seq_add(va, vb, m) =~= seq_add(vb, va, m));
    assert forall|i: int| 0 <= i < N implies #[trigger] seq_add(seq_add(va, vb, m), vc, m)[i]
        == seq_add(va, seq_add(vb, vc, m), m)[i] by {
        crate::ring::law_add_associative(va[i], vb[i], vc[i], m);
    }
    assert(seq_add(seq_add(va, vb, m), vc, m) =~= seq_add(va, seq_add(vb, vc, m), m));
    assert forall|i: int| 0 <= i < N implies #[trigger] seq_add(va, constant_poly(0, N as nat), m)[i]
        == va[i] by {
        BaseRing::lemma_wf(a.coeffs()[i]);
        lemma_small_mod(va[i] as nat, m as nat);
    }
    assert(seq_add(va, constant_poly(0, N as nat), m) =~= va);
    assert forall|i: int| 0 <= i < N implies #[trigger] seq_add(va, seq_neg(va, m), m)[i] == 0 by {
        lemma_add_mod_noop(va[i], -va[i], m);
        lemma_mod_twice(-va[i], m);
        lemma_add_mod_noop(va[i], (-va[i]) % m, m);
        lemma_mod_twice(va[i], m);
        lemma_mod_self_0(m);
        lemma_small_mod(0, m as nat);
    }
    assert(seq_add(va, seq_neg(va, m), m) =~= constant_poly(0, N as nat));
}

} // verus!
