//! Polynomial rings over residue rings, and their coefficient-wise specifications.
use rand::rngs::StdRng;
use vstd::arithmetic::div_mod::*;
use vstd::prelude::*;

use crate::ring::{all_wf, vals, Ring};

verus! {

/// Coefficient-wise sum modulo `m`.
pub open spec fn seq_add(a: Seq<int>, b: Seq<int>, m: int) -> Seq<int> {
    Seq::new(a.len(), |i: int| (a[i] + b[i]) % m)
}

/// Coefficient-wise difference modulo `m`.
pub open spec fn seq_sub(a: Seq<int>, b: Seq<int>, m: int) -> Seq<int> {
    Seq::new(a.len(), |i: int| (a[i] - b[i]) % m)
}

/// Coefficient-wise negation modulo `m`.
pub open spec fn seq_neg(a: Seq<int>, m: int) -> Seq<int> {
    Seq::new(a.len(), |i: int| (-a[i]) % m)
}

/// The coefficients of a constant polynomial of length `n`.
pub open spec fn constant_poly(c: int, n: nat) -> Seq<int> {
    Seq::new(n, |i: int| if i == 0 { c } else { 0 })
}

/// A polynomial ring over a residue ring, viewed through its coefficients.
pub trait PolyRing: Sized + Copy {
    type BaseRing: Ring;

    /// The parameters of the ring are usable.
    spec fn params() -> bool;

    /// The number of coefficients.
    spec fn dim() -> nat;

    /// The coefficients.
    spec fn coeffs(&self) -> Seq<Self::BaseRing>;

    /// Representation invariant.
    spec fn wf(&self) -> bool;

    /// The product, on coefficient residues.
    spec fn mul_spec(a: Seq<int>, b: Seq<int>) -> Seq<int>;

    /// Consequences of well-formedness.
    proof fn lemma_poly_wf(p: Self)
        requires
            p.wf(),
        ensures
            Self::params(),
            p.coeffs().len() == Self::dim(),
            all_wf(p.coeffs()),
            Self::BaseRing::modulus() >= 2,
            Self::dim() >= 1,
    ;

    /// Consequences of the parameters.
    proof fn lemma_params()
        requires
            Self::params(),
        ensures
            Self::BaseRing::modulus() >= 2,
            Self::dim() >= 1,
    ;

    /// Well-formed polynomials are determined by their coefficient residues.
    proof fn lemma_poly_canonical(p: Self, r: Self)
        requires
            p.wf(),
            r.wf(),
            vals(p.coeffs()) == vals(r.coeffs()),
        ensures
            p == r,
    ;

    /// The coefficients, lowest degree first.
    fn coefficients(&self) -> (r: Vec<Self::BaseRing>)
        requires
            self.wf(),
        ensures
            r@ == self.coeffs(),
    ;

    /// The polynomial with the given coefficients, which must be exactly `dimension()` many.
    fn try_from_coefficients(coeffs: &[Self::BaseRing]) -> (r: Option<Self>)
        requires
            Self::params(),
            coeffs@.len() == Self::dim(),
            all_wf(coeffs@),
        ensures
            r matches Some(p) && p.wf() && p.coeffs() == coeffs@,
    ;

    /// The number of coefficients.
    fn dimension() -> (d: usize)
        requires
            Self::params(),
        ensures
            d == Self::dim(),
    ;

    /// The constant polynomial `scalar`.
    fn from_scalar(scalar: Self::BaseRing) -> (r: Self)
        requires
            Self::params(),
            scalar.wf(),
        ensures
            r.wf(),
            vals(r.coeffs()) == constant_poly(scalar.val(), Self::dim()),
    ;

    /// The polynomial with the given coefficients (missing ones are zero).
    fn from_coeff_vec(coeffs: Vec<Self::BaseRing>) -> (r: Self)
        requires
            Self::params(),
            coeffs@.len() == Self::dim(),
            all_wf(coeffs@),
        ensures
            r.wf(),
            r.coeffs() == coeffs@,
    ;

    /// A polynomial whose coefficients are drawn uniformly at random from `rng`.
    fn rand(rng: &mut StdRng) -> (r: Self)
        requires
            Self::params(),
        ensures
            r.wf(),
    ;

    /// The additive identity.
    fn zero() -> (r: Self)
        requires
            Self::params(),
        ensures
            r.wf(),
            vals(r.coeffs()) == constant_poly(0, Self::dim()),
    ;

    /// The multiplicative identity.
    fn one() -> (r: Self)
        requires
            Self::params(),
        ensures
            r.wf(),
            vals(r.coeffs()) == constant_poly(1, Self::dim()),
    ;

    /// Whether all coefficients are zero.
    fn is_zero(&self) -> (b: bool)
        requires
            self.wf(),
        ensures
            b == (vals(self.coeffs()) == constant_poly(0, Self::dim())),
    ;

    /// Equality of coefficients.
    fn poly_eq(&self, other: &Self) -> (b: bool)
        requires
            self.wf(),
            other.wf(),
        ensures
            b == (vals(self.coeffs()) == vals(other.coeffs())),
    ;

    /// Sum.
    fn add(&self, other: &Self) -> (r: Self)
        requires
            self.wf(),
            other.wf(),
        ensures
            r.wf(),
            vals(r.coeffs()) == seq_add(
                vals(self.coeffs()),
                vals(other.coeffs()),
                Self::BaseRing::modulus(),
            ),
    ;

    /// Difference.
    fn sub(&self, other: &Self) -> (r: Self)
        requires
            self.wf(),
            other.wf(),
        ensures
            r.wf(),
            vals(r.coeffs()) == seq_sub(
                vals(self.coeffs()),
                vals(other.coeffs()),
                Self::BaseRing::modulus(),
            ),
    ;

    /// Negation.
    fn neg(&self) -> (r: Self)
        requires
            self.wf(),
        ensures
            r.wf(),
            vals(r.coeffs()) == seq_neg(vals(self.coeffs()), Self::BaseRing::modulus()),
    ;

    /// Product.
    fn mul(&self, other: &Self) -> (r: Self)
        requires
            self.wf(),
            other.wf(),
        ensures
            r.wf(),
            vals(r.coeffs()) == Self::mul_spec(vals(self.coeffs()), vals(other.coeffs())),
    ;

    /// The polynomial `X`, built from the coefficients `[0, 1]`.
    fn x() -> (r: Self)
        requires
            Self::params(),
            Self::dim() == 2,
        ensures
            r.wf(),
            vals(r.coeffs()) == seq![0int, 1int],
    {
        proof {
            Self::lemma_params();
        }
        let mut v: Vec<Self::BaseRing> = Vec::new();
        v.push(Self::BaseRing::zero());
        v.push(Self::BaseRing::one());
        proof {
            assert(vals(v@) =~= seq![0int, 1int]);
        }
        let r = Self::from_coeff_vec(v);
        r
    }

    /// The coefficients of all polynomials of `vec`, one after the other.
    fn flattened_coeffs(vec: &Vec<Self>) -> (r: Vec<Self::BaseRing>)
        requires
            forall|i: int| 0 <= i < vec@.len() ==> #[trigger] vec@[i].wf(),
        ensures
            r@.len() == vec@.len() * Self::dim(),
            forall|i: int, j: int|
                0 <= i < vec@.len() && 0 <= j < Self::dim() ==> r@[i * Self::dim() + j]
                    == #[trigger] vec@[i].coeffs()[j],
    {
        let mut r: Vec<Self::BaseRing> = Vec::new();
        let mut i: usize = 0;
        while i < vec.len()
            invariant
                0 <= i <= vec@.len(),
                forall|k: int| 0 <= k < vec@.len() ==> #[trigger] vec@[k].wf(),
                r@.len() == i * Self::dim(),
                forall|k: int, j: int|
                    0 <= k < i && 0 <= j < Self::dim() ==> r@[k * Self::dim() + j]
                        == #[trigger] vec@[k].coeffs()[j],
            decreases vec@.len() - i,
        {
            let c = vec[i].coefficients();
            proof {
                Self::lemma_poly_wf(vec@[i as int]);
            }
            let ghost before = r@;
            let mut j: usize = 0;
            while j < c.len()
                invariant
                    0 <= j <= c@.len(),
                    c@.len() == Self::dim(),
                    c@ == vec@[i as int].coeffs(),
                    before.len() == i * Self::dim(),
                    r@.len() == before.len() + j,
                    forall|p: int| 0 <= p < before.len() ==> r@[p] == before[p],
                    forall|p: int| 0 <= p < j ==> r@[before.len() + p] == c@[p],
                decreases c@.len() - j,
            {
                r.push(c[j]);
                j += 1;
            }
            proof {
                let d = Self::dim() as int;
                assert((i + 1) * d == i * d + d) by (nonlinear_arith);
                assert forall|k: int, jj: int|
                    0 <= k < i + 1 && 0 <= jj < d implies r@[k * d + jj]
                        == #[trigger] vec@[k].coeffs()[jj] by {
                    if k < i {
                        assert(k * d + jj < i * d) by (nonlinear_arith)
                            requires
                                0 <= k < i,
                                0 <= jj < d,
                        ;
                        assert(0 <= k * d + jj) by (nonlinear_arith)
                            requires
                                0 <= k,
                                0 <= jj,
                                0 <= d,
                        ;
                    } else {
                        assert(k * d + jj == before.len() + jj);
                    }
                }
            }
            i += 1;
        }
        r
    }
}

/// Building a polynomial from the coefficients read from another gives that polynomial back.
pub proof fn law_coefficients_roundtrip<PR: PolyRing>(p: PR, q: PR)
    requires
        p.wf(),
        q.wf(),
        q.coeffs() == p.coeffs(),
    ensures
        q == p,
{
    PR::lemma_poly_canonical(p, q);
}

} // verus!
