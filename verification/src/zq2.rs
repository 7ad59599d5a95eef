//! The ring `Z / (Q1 Q2) Z` for coprime `Q1` and `Q2`, held in residue number system form: one
//! residue modulo each of `Q1` and `Q2`. Each element stands for the unique residue modulo
//! `Q1 Q2` with these two residues (Chinese remainder theorem).
use rand::rngs::StdRng;
use vstd::arithmetic::div_mod::*;
use vstd::arithmetic::mul::*;
use vstd::prelude::*;

use crate::arith::{gcd, ilog2, is_invertible_mod};
use crate::fq::Fq;
use crate::convolution::{lemma_ntt_layers_is_ntt_of, lemma_ntt_of_product, mul_mod};
use crate::butterfly::{add_mod, lemma_fwd_upto_additive};
use crate::ntt::{
    intt_of, lemma_transforms_reduced, ntt_friendly, ntt_of, twiddles, two_nth_root, Ntt,
};
use crate::poly_mul_laws::lemma_nega_sum_congruent;
use crate::pow2_cyclotomic_poly_ring::{nega_sum, negacyclic_mul};
use crate::ring::{all_wf, vals, Ring};
use crate::rns::{
    add_mod_u128, crt2, lemma_coprime_symmetric, lemma_crt2, lemma_crt2_unique,
    lemma_crt_congruent, mul_mod_u128, pairwise_coprime, prefix_product, rns_coeffs, digits_to_u128, digits_value, crt_basis,
};

verus! {

/// The moduli are at least two and coprime.
pub open spec fn zq2_params(q1: int, q2: int) -> bool {
    q1 >= 2 && q2 >= 2 && gcd(q1 as nat, q2 as nat) == 1
}

/// An element of `Z / (Q1 Q2) Z` as its residues modulo `Q1` and `Q2`.
#[derive(Clone, Copy, Debug, PartialEq, Eq, Hash)]
pub struct Zq2<const Q1: u64, const Q2: u64>(pub Fq<Q1>, pub Fq<Q2>);

/// `z` is the residue modulo `q1 q2` whose residues are `r1` and `r2`.
pub proof fn lemma_crt2_of(z: int, r1: int, r2: int, q1: int, q2: int)
    requires
        zq2_params(q1, q2),
        0 <= z < q1 * q2,
        z % q1 == r1,
        z % q2 == r2,
    ensures
        crt2(r1, r2, q1, q2) == z,
{
    lemma_crt2_unique(z, q1, q2);
}

/// The product of two 64-bit integers fits in 128 bits.
pub proof fn lemma_product_fits(a: u64, b: u64)
    ensures
        a * b <= u128::MAX,
{
    assert(a * b <= u64::MAX * u64::MAX) by (nonlinear_arith)
        requires
            a <= u64::MAX,
            b <= u64::MAX,
    ;
}

/// The residues modulo `q1` and `q2` of a residue modulo `q1 q2`.
pub proof fn lemma_residues_of_mod(x: int, q1: int, q2: int)
    requires
        q1 >= 1,
        q2 >= 1,
    ensures
        (x % (q1 * q2)) % q1 == x % q1,
        (x % (q1 * q2)) % q2 == x % q2,
        0 <= x % (q1 * q2) < q1 * q2,
{
    lemma_mod_mod(x, q1, q2);
    lemma_mul_is_commutative(q1, q2);
    lemma_mod_mod(x, q2, q1);
    lemma_mod_bound(x, q1 * q2);
}

/// Reading a residue modulo `Q1 Q2` into its two residues and recombining them gives it back:
/// `into_bigint(from_bigint(x)) == x`.
pub proof fn law_zq2_bigint_roundtrip<const Q1: u64, const Q2: u64>(x: int)
    requires
        zq2_params(Q1 as int, Q2 as int),
        0 <= x < Q1 * Q2,
    ensures
        crt2(x % (Q1 as int), x % (Q2 as int), Q1 as int, Q2 as int) == x,
{
    lemma_crt2_unique(x, Q1 as int, Q2 as int);
}

impl<const Q1: u64, const Q2: u64> Zq2<Q1, Q2> {
    /// The residues of well-formed elements, and the residue they stand for.
    pub proof fn lemma_residues(x: Self)
        requires
            x.wf(),
        ensures
            zq2_params(Q1 as int, Q2 as int),
            0 <= x.0.val() < Q1,
            0 <= x.1.val() < Q2,
            0 <= x.val() < Q1 * Q2,
            x.val() % (Q1 as int) == x.0.val(),
            x.val() % (Q2 as int) == x.1.val(),
    {
        Fq::<Q1>::lemma_wf(x.0);
        Fq::<Q2>::lemma_wf(x.1);
        lemma_crt2(x.0.val(), x.1.val(), Q1 as int, Q2 as int);
    }

    /// The element for the residue `x`, where `x < Q1 Q2`.
    pub fn from_bigint(x: u128) -> (r: Option<Self>)
        requires
            zq2_params(Q1 as int, Q2 as int),
        ensures
            r is Some <==> x < Q1 * Q2,
            r matches Some(z) ==> z.wf() && z.val() == x,
    {
        proof {
            lemma_product_fits(Q1, Q2);
        }
        let q = (Q1 as u128) * (Q2 as u128);
        if x >= q {
            return None;
        }
        let r1 = Fq::<Q1>::from_u64((x % (Q1 as u128)) as u64);
        let r2 = Fq::<Q2>::from_u64((x % (Q2 as u128)) as u64);
        proof {
            lemma_small_mod((x % (Q1 as u128)) as nat, Q1 as nat);
            lemma_small_mod((x % (Q2 as u128)) as nat, Q2 as nat);
            lemma_crt2_of(x as int, r1.val(), r2.val(), Q1 as int, Q2 as int);
        }
        Some(Zq2(r1, r2))
    }

    /// The residue modulo `Q1 Q2` that this element stands for, recombined from its two
    /// residues with the Chinese remainder coefficients.
    pub fn into_bigint(&self) -> (r: u128)
        requires
            self.wf(),
        ensures
            r == self.val(),
    {
        let ghost (q1, q2) = (Q1 as int, Q2 as int);
        proof {
            Self::lemma_residues(*self);
            lemma_product_fits(Q1, Q2);
            lemma_coprime_symmetric(Q1 as nat, Q2 as nat);
        }
        let moduli: [u64; 2] = [Q1, Q2];
        proof {
            assert(moduli@[0] == Q1 && moduli@[1] == Q2);
            assert(prefix_product(moduli@, 0) == 1);
            assert(prefix_product(moduli@, 1) == q1);
            assert(prefix_product(moduli@, 2) == q1 * q2);
            assert(pairwise_coprime(moduli@));
        }
        let c = rns_coeffs(moduli);
        let q = (Q1 as u128) * (Q2 as u128);
        proof {
            assert(crt_basis(moduli@, 0, digits_value(c@[0]@) as int));
            assert(crt_basis(moduli@, 1, digits_value(c@[1]@) as int));
        }
        let c0 = digits_to_u128(&c[0]);
        let c1 = digits_to_u128(&c[1]);
        let t1 = mul_mod_u128(c0, self.0.value() as u128, q);
        let t2 = mul_mod_u128(c1, self.1.value() as u128, q);
        let r = add_mod_u128(t1, t2, q);
        proof {
            let (c0, c1) = (c0 as int, c1 as int);
            let (v0, v1) = (self.0.val(), self.1.val());
            assert(c0 % q1 == 1 && c0 % q2 == 0);
            assert(c1 % q2 == 1 && c1 % q1 == 0);
            lemma_mod_bound(c0 * v0, q1 * q2);
            lemma_mod_bound(c1 * v1, q1 * q2);
            lemma_add_mod_noop(c0 * v0, c1 * v1, q1 * q2);
            let s = c0 * v0 + c1 * v1;
            assert(r == s % (q1 * q2));
            lemma_residues_of_mod(s, q1, q2);
            // modulo q1: c0 v0 + c1 v1 == v0
            lemma_add_mod_noop(c0 * v0, c1 * v1, q1);
            lemma_mul_mod_noop_left(c0, v0, q1);
            lemma_mul_mod_noop_left(c1, v1, q1);
            assert(1 * v0 == v0 && 0 * v1 == 0);
            lemma_small_mod(v0 as nat, q1 as nat);
            lemma_small_mod(0, q1 as nat);
            lemma_add_mod_noop(c0 * v0, c1 * v1, q2);
            lemma_mul_mod_noop_left(c0, v0, q2);
            lemma_mul_mod_noop_left(c1, v1, q2);
            assert(0 * v0 == 0 && 1 * v1 == v1);
            lemma_small_mod(v1 as nat, q2 as nat);
            lemma_small_mod(0, q2 as nat);
            lemma_crt2_of(r as int, v0, v1, q1, q2);
        }
        r
    }
}

impl<const Q1: u64, const Q2: u64> Ring for Zq2<Q1, Q2> {
    open spec fn modulus() -> int {
        if zq2_params(Q1 as int, Q2 as int) {
            Q1 * Q2
        } else {
            0
        }
    }

    open spec fn val(&self) -> int {
        crt2(self.0.val(), self.1.val(), Q1 as int, Q2 as int)
    }

    open spec fn wf(&self) -> bool {
        zq2_params(Q1 as int, Q2 as int) && self.0.wf() && self.1.wf()
    }

    proof fn lemma_wf(x: Self) {
        Self::lemma_residues(x);
    }

    proof fn lemma_canonical(x: Self, y: Self) {
        Self::lemma_residues(x);
        Self::lemma_residues(y);
        Fq::<Q1>::lemma_canonical(x.0, y.0);
        Fq::<Q2>::lemma_canonical(x.1, y.1);
    }

    fn zero() -> (r: Self) {
        let r = Zq2(Fq::<Q1>::zero(), Fq::<Q2>::zero());
        proof {
            lemma_small_mod(0, Q1 as nat);
            lemma_small_mod(0, Q2 as nat);
            assert(Q1 * Q2 > 0) by (nonlinear_arith)
                requires
                    Q1 >= 2,
                    Q2 >= 2,
            ;
            lemma_crt2_of(0, 0, 0, Q1 as int, Q2 as int);
        }
        r
    }

    fn one() -> (r: Self) {
        let r = Zq2(Fq::<Q1>::one(), Fq::<Q2>::one());
        proof {
            lemma_small_mod(1, Q1 as nat);
            lemma_small_mod(1, Q2 as nat);
            assert(Q1 * Q2 > 1) by (nonlinear_arith)
                requires
                    Q1 >= 2,
                    Q2 >= 2,
            ;
            lemma_crt2_of(1, 1, 1, Q1 as int, Q2 as int);
        }
        r
    }

    fn is_zero(&self) -> (b: bool) {
        proof {
            Self::lemma_residues(*self);
            if self.0.val() == 0 && self.1.val() == 0 {
                lemma_crt2_of(0, 0, 0, Q1 as int, Q2 as int);
            }
            if self.val() == 0 {
                lemma_small_mod(0, Q1 as nat);
                lemma_small_mod(0, Q2 as nat);
            }
        }
        self.0.is_zero() && self.1.is_zero()
    }

    fn ring_eq(&self, other: &Self) -> (b: bool) {
        proof {
            Self::lemma_residues(*self);
            Self::lemma_residues(*other);
        }
        self.0.ring_eq(&other.0) && self.1.ring_eq(&other.1)
    }

    fn add(&self, other: &Self) -> (r: Self) {
        let r = Zq2(self.0.add(&other.0), self.1.add(&other.1));
        proof {
            let (q1, q2) = (Q1 as int, Q2 as int);
            Self::lemma_residues(*self);
            Self::lemma_residues(*other);
            let s = self.val() + other.val();
            lemma_residues_of_mod(s, q1, q2);
            lemma_add_mod_noop(self.val(), other.val(), q1);
            lemma_add_mod_noop(self.val(), other.val(), q2);
            lemma_crt2_of(s % (q1 * q2), r.0.val(), r.1.val(), q1, q2);
        }
        r
    }

    fn sub(&self, other: &Self) -> (r: Self) {
        let r = Zq2(self.0.sub(&other.0), self.1.sub(&other.1));
        proof {
            let (q1, q2) = (Q1 as int, Q2 as int);
            Self::lemma_residues(*self);
            Self::lemma_residues(*other);
            let s = self.val() - other.val();
            lemma_residues_of_mod(s, q1, q2);
            lemma_sub_mod_noop(self.val(), other.val(), q1);
            lemma_sub_mod_noop(self.val(), other.val(), q2);
            lemma_crt2_of(s % (q1 * q2), r.0.val(), r.1.val(), q1, q2);
        }
        r
    }

    fn mul(&self, other: &Self) -> (r: Self) {
        let r = Zq2(self.0.mul(&other.0), self.1.mul(&other.1));
        proof {
            let (q1, q2) = (Q1 as int, Q2 as int);
            Self::lemma_residues(*self);
            Self::lemma_residues(*other);
            let s = self.val() * other.val();
            lemma_residues_of_mod(s, q1, q2);
            lemma_mul_mod_noop(self.val(), other.val(), q1);
            lemma_mul_mod_noop(self.val(), other.val(), q2);
            lemma_crt2_of(s % (q1 * q2), r.0.val(), r.1.val(), q1, q2);
        }
        r
    }

    fn neg(&self) -> (r: Self) {
        let r = Zq2(self.0.neg(), self.1.neg());
        proof {
            let (q1, q2) = (Q1 as int, Q2 as int);
            Self::lemma_residues(*self);
            let s = -self.val();
            lemma_residues_of_mod(s, q1, q2);
            lemma_sub_mod_noop(0, self.val(), q1);
            lemma_sub_mod_noop(0, self.val(), q2);
            lemma_sub_mod_noop(0, self.0.val(), q1);
            lemma_sub_mod_noop(0, self.1.val(), q2);
            lemma_small_mod(0, q1 as nat);
            lemma_small_mod(0, q2 as nat);
            lemma_mod_twice(self.val(), q1);
            lemma_mod_twice(self.val(), q2);
            lemma_crt2_of(s % (q1 * q2), r.0.val(), r.1.val(), q1, q2);
        }
        r
    }

    fn rand(rng: &mut StdRng) -> (r: Self) {
        let a = Fq::<Q1>::rand(rng);
        let b = Fq::<Q2>::rand(rng);
        Zq2(a, b)
    }

    fn inverse(&self) -> (r: Option<Self>) {
        let ghost q1 = Q1 as int;
        let ghost q2 = Q2 as int;
        proof {
            Self::lemma_residues(*self);
        }
        let i1 = self.0.inverse();
        let i2 = self.1.inverse();
        match (i1, i2) {
            (Some(y1), Some(y2)) => {
                let y = Zq2(y1, y2);
                proof {
                    Self::lemma_residues(y);
                    let p = self.val() * y.val();
                    lemma_mul_mod_noop(self.val(), y.val(), q1);
                    lemma_mul_mod_noop(self.val(), y.val(), q2);
                    lemma_crt_congruent(p, 1, q1, q2);
                    assert(is_invertible_mod(self.val(), q1 * q2)) by {
                        assert(((self.val() * y.val()) % (q1 * q2)) == 1int % (q1 * q2));
                    }
                }
                Some(y)
            },
            _ => {
                proof {
                    if is_invertible_mod(self.val(), q1 * q2) {
                        let y = choose|y: int| #[trigger] ((self.val() * y) % (q1 * q2)) == 1int % (
                        q1 * q2);
                        lemma_residues_of_mod(self.val() * y, q1, q2);
                        lemma_residues_of_mod(1, q1, q2);
                        lemma_mul_mod_noop_left(self.val(), y, q1);
                        lemma_mul_mod_noop_left(self.val(), y, q2);
                        assert((self.0.val() * y) % q1 == 1int % q1);
                        assert((self.1.val() * y) % q2 == 1int % q2);
                        assert(is_invertible_mod(self.0.val(), q1));
                        assert(is_invertible_mod(self.1.val(), q2));
                    }
                }
                None
            },
        }
    }
}

/// The residues modulo `q` of the entries.
pub open spec fn residues(s: Seq<int>, q: int) -> Seq<int> {
    Seq::new(s.len(), |j: int| s[j] % q)
}

/// The entry-wise `crt2` of two sequences.
pub open spec fn crt2_seq(a: Seq<int>, b: Seq<int>, q1: int, q2: int) -> Seq<int> {
    Seq::new(a.len(), |j: int| crt2(a[j], b[j], q1, q2))
}

/// The limbs of an array of elements, and their residues.
proof fn lemma_limb_residues<const Q1: u64, const Q2: u64, const N: usize>(
    x: [Zq2<Q1, Q2>; N],
    l1: [Fq<Q1>; N],
    l2: [Fq<Q2>; N],
)
    requires
        all_wf(x@),
        forall|j: int| 0 <= j < N ==> #[trigger] l1@[j] == x@[j].0,
        forall|j: int| 0 <= j < N ==> #[trigger] l2@[j] == x@[j].1,
    ensures
        all_wf(l1@),
        all_wf(l2@),
        vals(l1@) == residues(vals(x@), Q1 as int),
        vals(l2@) == residues(vals(x@), Q2 as int),
{
    assert forall|j: int| 0 <= j < N implies #[trigger] vals(l1@)[j] == residues(
        vals(x@),
        Q1 as int,
    )[j] by {
        Zq2::<Q1, Q2>::lemma_residues(x@[j]);
        assert(l1@[j] == x@[j].0);
    }
    assert forall|j: int| 0 <= j < N implies #[trigger] vals(l2@)[j] == residues(
        vals(x@),
        Q2 as int,
    )[j] by {
        Zq2::<Q1, Q2>::lemma_residues(x@[j]);
        assert(l2@[j] == x@[j].1);
    }
    assert forall|j: int| 0 <= j < N implies #[trigger] l1@[j].wf() by {
        assert(x@[j].wf());
        assert(l1@[j] == x@[j].0);
    }
    assert forall|j: int| 0 <= j < N implies #[trigger] l2@[j].wf() by {
        assert(x@[j].wf());
        assert(l2@[j] == x@[j].1);
    }
    assert(x@.len() == N && l1@.len() == N && l2@.len() == N);
    assert(vals(l1@) =~= residues(vals(x@), Q1 as int));
    assert(vals(l2@) =~= residues(vals(x@), Q2 as int));
}

/// Splits an array of elements into its two arrays of limbs.
fn split_limbs<const Q1: u64, const Q2: u64, const N: usize>(x: &[Zq2<Q1, Q2>; N]) -> (r: (
    [Fq<Q1>; N],
    [Fq<Q2>; N],
))
    requires
        zq2_params(Q1 as int, Q2 as int),
    ensures
        forall|j: int| 0 <= j < N ==> #[trigger] r.0@[j] == x@[j].0,
        forall|j: int| 0 <= j < N ==> #[trigger] r.1@[j] == x@[j].1,
{
    let mut l1 = [Fq::<Q1>::zero(); N];
    let mut l2 = [Fq::<Q2>::zero(); N];
    let mut j: usize = 0;
    while j < N
        invariant
            0 <= j <= N,
            forall|k: int| 0 <= k < j ==> #[trigger] l1@[k] == x@[k].0,
            forall|k: int| 0 <= k < j ==> #[trigger] l2@[k] == x@[k].1,
        decreases N - j,
    {
        l1[j] = x[j].0;
        l2[j] = x[j].1;
        j += 1;
    }
    (l1, l2)
}

/// Joins two arrays of limbs into an array of elements.
fn join_limbs<const Q1: u64, const Q2: u64, const N: usize>(
    l1: &[Fq<Q1>; N],
    l2: &[Fq<Q2>; N],
    out: &mut [Zq2<Q1, Q2>; N],
)
    ensures
        forall|j: int| 0 <= j < N ==> #[trigger] final(out)@[j] == Zq2(l1@[j], l2@[j]),
{
    let mut j: usize = 0;
    while j < N
        invariant
            0 <= j <= N,
            forall|k: int| 0 <= k < j ==> #[trigger] out@[k] == Zq2(l1@[k], l2@[k]),
        decreases N - j,
    {
        out[j] = Zq2(l1[j], l2[j]);
        j += 1;
    }
}

impl<const Q1: u64, const Q2: u64, const N: usize> Ntt<N> for Zq2<Q1, Q2> {
    open spec fn ntt_params() -> bool {
        zq2_params(Q1 as int, Q2 as int) && ntt_friendly(Q1 as int, N as int) && ntt_friendly(
            Q2 as int,
            N as int,
        )
    }

    /// The transform of each limb, recombined.
    open spec fn ntt_spec(coeffs: Seq<int>) -> Seq<int> {
        crt2_seq(
            ntt_of(residues(coeffs, Q1 as int), Q1 as int, N as nat),
            ntt_of(residues(coeffs, Q2 as int), Q2 as int, N as nat),
            Q1 as int,
            Q2 as int,
        )
    }

    /// The inverse transform of each limb, recombined.
    open spec fn intt_spec(evals: Seq<int>) -> Seq<int> {
        crt2_seq(
            intt_of(residues(evals, Q1 as int), Q1 as int, N as nat),
            intt_of(residues(evals, Q2 as int), Q2 as int, N as nat),
            Q1 as int,
            Q2 as int,
        )
    }

    /// Transforms each limb with its own roots of unity.
    fn ntt_inplace(coeffs: &mut [Self; N]) {
        let (mut l1, mut l2) = split_limbs(&*coeffs);
        proof {
            lemma_limb_residues(*old(coeffs), l1, l2);
        }
        <Fq<Q1> as Ntt<N>>::ntt_inplace(&mut l1);
        <Fq<Q2> as Ntt<N>>::ntt_inplace(&mut l2);
        join_limbs(&l1, &l2, coeffs);
        proof {
            let c = *coeffs;
            assert forall|j: int| 0 <= j < N implies #[trigger] c@[j].wf() && vals(c@)[j]
                == <Self as Ntt<N>>::ntt_spec(vals(old(coeffs)@))[j] by {
                assert(c@[j] == Zq2(l1@[j], l2@[j]));
            }
            assert(vals(c@) =~= <Self as Ntt<N>>::ntt_spec(vals(old(coeffs)@)));
        }
    }

    /// Transforms each limb back with its own roots of unity.
    fn intt_inplace(evals: &mut [Self; N]) {
        let (mut l1, mut l2) = split_limbs(&*evals);
        proof {
            lemma_limb_residues(*old(evals), l1, l2);
        }
        <Fq<Q1> as Ntt<N>>::intt_inplace(&mut l1);
        <Fq<Q2> as Ntt<N>>::intt_inplace(&mut l2);
        join_limbs(&l1, &l2, evals);
        proof {
            let c = *evals;
            assert forall|j: int| 0 <= j < N implies #[trigger] c@[j].wf() && vals(c@)[j]
                == <Self as Ntt<N>>::intt_spec(vals(old(evals)@))[j] by {
                assert(c@[j] == Zq2(l1@[j], l2@[j]));
            }
            assert(vals(c@) =~= <Self as Ntt<N>>::intt_spec(vals(old(evals)@)));
        }
    }

    proof fn lemma_ntt_spec_reduced(a: Seq<int>) {
        let (q1, q2) = (Q1 as int, Q2 as int);
        let e1 = ntt_of(residues(a, q1), q1, N as nat);
        let e2 = ntt_of(residues(a, q2), q2, N as nat);
        lemma_transforms_reduced(residues(a, q1), q1, N as nat);
        lemma_transforms_reduced(residues(a, q2), q2, N as nat);
        assert forall|j: int| 0 <= j < N implies 0 <= #[trigger] <Self as Ntt<N>>::ntt_spec(a)[j]
            < <Self as Ring>::modulus() by {
            lemma_crt2(e1[j], e2[j], q1, q2);
        }
    }

    proof fn lemma_intt_ntt(a: Seq<int>) {
        let (q1, q2) = (Q1 as int, Q2 as int);
        let r1 = residues(a, q1);
        let r2 = residues(a, q2);
        let e1 = ntt_of(r1, q1, N as nat);
        let e2 = ntt_of(r2, q2, N as nat);
        lemma_transforms_reduced(r1, q1, N as nat);
        lemma_transforms_reduced(r2, q2, N as nat);
        let e = crt2_seq(e1, e2, q1, q2);
        assert forall|j: int| 0 <= j < N implies #[trigger] residues(e, q1)[j] == e1[j]
            && residues(e, q2)[j] == e2[j] by {
            lemma_crt2(e1[j], e2[j], q1, q2);
        }
        assert(residues(e, q1) =~= e1);
        assert(residues(e, q2) =~= e2);
        assert forall|j: int| 0 <= j < N implies 0 <= #[trigger] r1[j] < q1 && 0 <= r2[j] < q2 by {
            lemma_mod_bound(a[j], q1);
            lemma_mod_bound(a[j], q2);
        }
        <Fq<Q1> as Ntt<N>>::lemma_intt_ntt(r1);
        <Fq<Q2> as Ntt<N>>::lemma_intt_ntt(r2);
        let back = <Self as Ntt<N>>::intt_spec(e);
        assert forall|j: int| 0 <= j < N implies #[trigger] back[j] == a[j] by {
            lemma_crt2_of(a[j], a[j] % q1, a[j] % q2, q1, q2);
        }
        assert(back =~= a);
    }
}

/// The convolution theorem for two limbs: transforming each limb turns the negacyclic product
/// modulo `Q1 Q2` into the entry-wise product, so multiplying transforms entry-wise and
/// transforming back gives the product in `Z_(Q1 Q2)[X] / (X^N + 1)`.
pub proof fn law_zq2_ntt_mul<const Q1: u64, const Q2: u64, const N: usize>(
    a: [Zq2<Q1, Q2>; N],
    b: [Zq2<Q1, Q2>; N],
)
    requires
        <Zq2<Q1, Q2> as Ntt<N>>::ntt_params(),
        all_wf(a@),
        all_wf(b@),
    ensures
        <Zq2<Q1, Q2> as Ntt<N>>::ntt_spec(negacyclic_mul(vals(a@), vals(b@), Q1 * Q2)) == mul_mod(
            <Zq2<Q1, Q2> as Ntt<N>>::ntt_spec(vals(a@)),
            <Zq2<Q1, Q2> as Ntt<N>>::ntt_spec(vals(b@)),
            Q1 * Q2,
        ),
        <Zq2<Q1, Q2> as Ntt<N>>::intt_spec(
            mul_mod(
                <Zq2<Q1, Q2> as Ntt<N>>::ntt_spec(vals(a@)),
                <Zq2<Q1, Q2> as Ntt<N>>::ntt_spec(vals(b@)),
                Q1 * Q2,
            ),
        ) == negacyclic_mul(vals(a@), vals(b@), Q1 * Q2),
{
    let (q1, q2) = (Q1 as int, Q2 as int);
    let m = q1 * q2;
    let n = N as nat;
    let va = vals(a@);
    let vb = vals(b@);
    let c = negacyclic_mul(va, vb, m);
    lemma_mul_strictly_positive(q1, q2);
    // each limb of the product is the product of the limbs
    assert forall|qi: int| qi == q1 || qi == q2 implies #[trigger] residues(c, qi)
        == negacyclic_mul(residues(va, qi), residues(vb, qi), qi) by {
        let ra = residues(va, qi);
        let rb = residues(vb, qi);
        assert forall|i: int| 0 <= i < va.len() implies #[trigger] (va[i] % qi) == ra[i] % qi by {
            lemma_mod_twice(va[i], qi);
        }
        assert forall|i: int| 0 <= i < vb.len() implies #[trigger] (vb[i] % qi) == rb[i] % qi by {
            lemma_mod_twice(vb[i], qi);
        }
        assert forall|k: int| 0 <= k < N implies #[trigger] residues(c, qi)[k]
            == negacyclic_mul(ra, rb, qi)[k] by {
            lemma_nega_sum_congruent(va, ra, vb, rb, k, qi);
            lemma_residues_of_mod(nega_sum(va, vb, va.len(), k), q1, q2);
        }
        assert(residues(c, qi) =~= negacyclic_mul(ra, rb, qi));
    }
    let (f1a, f1b) = (ntt_of(residues(va, q1), q1, n), ntt_of(residues(vb, q1), q1, n));
    let (f2a, f2b) = (ntt_of(residues(va, q2), q2, n), ntt_of(residues(vb, q2), q2, n));
    lemma_ntt_of_product(residues(va, q1), residues(vb, q1), q1, n);
    lemma_ntt_of_product(residues(va, q2), residues(vb, q2), q2, n);
    lemma_transforms_reduced(residues(va, q1), q1, n);
    lemma_transforms_reduced(residues(vb, q1), q1, n);
    lemma_transforms_reduced(residues(va, q2), q2, n);
    lemma_transforms_reduced(residues(vb, q2), q2, n);
    let fa = <Zq2<Q1, Q2> as Ntt<N>>::ntt_spec(va);
    let fb = <Zq2<Q1, Q2> as Ntt<N>>::ntt_spec(vb);
    let fc = <Zq2<Q1, Q2> as Ntt<N>>::ntt_spec(c);
    // recombining the entry-wise products of the limbs gives the entry-wise product
    assert forall|j: int| 0 <= j < N implies #[trigger] fc[j] == mul_mod(fa, fb, m)[j] by {
        lemma_crt2(f1a[j], f2a[j], q1, q2);
        lemma_crt2(f1b[j], f2b[j], q1, q2);
        let x = fa[j];
        let y = fb[j];
        let v = (x * y) % m;
        lemma_residues_of_mod(x * y, q1, q2);
        lemma_mul_mod_noop(x, y, q1);
        lemma_mul_mod_noop(x, y, q2);
        lemma_crt2_of(v, (f1a[j] * f1b[j]) % q1, (f2a[j] * f2b[j]) % q2, q1, q2);
    }
    assert(fc =~= mul_mod(fa, fb, m));
    assert forall|j: int| 0 <= j < N implies 0 <= #[trigger] c[j] < <Zq2<Q1, Q2> as Ring>::modulus()
        by {
        lemma_mod_bound(nega_sum(va, vb, va.len(), j), m);
    }
    <Zq2<Q1, Q2> as Ntt<N>>::lemma_intt_ntt(c);
}

/// The transform of two limbs is additive: transforming the sum modulo `Q1 Q2` gives the
/// entry-wise sum of the transforms, and adding transforms and transforming back gives the sum.
pub proof fn law_zq2_ntt_add<const Q1: u64, const Q2: u64, const N: usize>(
    a: [Zq2<Q1, Q2>; N],
    b: [Zq2<Q1, Q2>; N],
)
    requires
        <Zq2<Q1, Q2> as Ntt<N>>::ntt_params(),
        all_wf(a@),
        all_wf(b@),
    ensures
        <Zq2<Q1, Q2> as Ntt<N>>::ntt_spec(add_mod(vals(a@), vals(b@), Q1 * Q2)) == add_mod(
            <Zq2<Q1, Q2> as Ntt<N>>::ntt_spec(vals(a@)),
            <Zq2<Q1, Q2> as Ntt<N>>::ntt_spec(vals(b@)),
            Q1 * Q2,
        ),
        <Zq2<Q1, Q2> as Ntt<N>>::intt_spec(
            add_mod(
                <Zq2<Q1, Q2> as Ntt<N>>::ntt_spec(vals(a@)),
                <Zq2<Q1, Q2> as Ntt<N>>::ntt_spec(vals(b@)),
                Q1 * Q2,
            ),
        ) == add_mod(vals(a@), vals(b@), Q1 * Q2),
{
    let (q1, q2) = (Q1 as int, Q2 as int);
    let m = q1 * q2;
    let n = N as nat;
    let l = ilog2(n);
    let va = vals(a@);
    let vb = vals(b@);
    let c = add_mod(va, vb, m);
    lemma_mul_strictly_positive(q1, q2);
    // each limb of the sum is the sum of the limbs, and the transform of a limb is additive
    assert forall|qi: int| qi == q1 || qi == q2 implies #[trigger] ntt_of(residues(c, qi), qi, n)
        == add_mod(ntt_of(residues(va, qi), qi, n), ntt_of(residues(vb, qi), qi, n), qi) by {
        let ra = residues(va, qi);
        let rb = residues(vb, qi);
        assert forall|k: int| 0 <= k < N implies #[trigger] residues(c, qi)[k] == add_mod(
            ra,
            rb,
            qi,
        )[k] by {
            lemma_residues_of_mod(va[k] + vb[k], q1, q2);
            lemma_add_mod_noop(va[k], vb[k], qi);
        }
        assert(residues(c, qi) =~= add_mod(ra, rb, qi));
        let w = twiddles(qi, n, two_nth_root(qi, N as int));
        lemma_fwd_upto_additive(ra, rb, l, l, w, qi);
        lemma_ntt_layers_is_ntt_of(ra, qi, n);
        lemma_ntt_layers_is_ntt_of(rb, qi, n);
        lemma_ntt_layers_is_ntt_of(residues(c, qi), qi, n);
    }
    let (f1a, f1b) = (ntt_of(residues(va, q1), q1, n), ntt_of(residues(vb, q1), q1, n));
    let (f2a, f2b) = (ntt_of(residues(va, q2), q2, n), ntt_of(residues(vb, q2), q2, n));
    lemma_transforms_reduced(residues(va, q1), q1, n);
    lemma_transforms_reduced(residues(vb, q1), q1, n);
    lemma_transforms_reduced(residues(va, q2), q2, n);
    lemma_transforms_reduced(residues(vb, q2), q2, n);
    let fa = <Zq2<Q1, Q2> as Ntt<N>>::ntt_spec(va);
    let fb = <Zq2<Q1, Q2> as Ntt<N>>::ntt_spec(vb);
    let fc = <Zq2<Q1, Q2> as Ntt<N>>::ntt_spec(c);
    assert(ntt_of(residues(c, q1), q1, n) == add_mod(f1a, f1b, q1));
    assert(ntt_of(residues(c, q2), q2, n) == add_mod(f2a, f2b, q2));
    // recombining the entry-wise sums of the limbs gives the entry-wise sum
    assert forall|j: int| 0 <= j < N implies #[trigger] fc[j] == add_mod(fa, fb, m)[j] by {
        lemma_crt2(f1a[j], f2a[j], q1, q2);
        lemma_crt2(f1b[j], f2b[j], q1, q2);
        let x = fa[j];
        let y = fb[j];
        let v = (x + y) % m;
        lemma_residues_of_mod(x + y, q1, q2);
        lemma_add_mod_noop(x, y, q1);
        lemma_add_mod_noop(x, y, q2);
        lemma_crt2_of(v, (f1a[j] + f1b[j]) % q1, (f2a[j] + f2b[j]) % q2, q1, q2);
    }
    assert(fc =~= add_mod(fa, fb, m));
    assert forall|j: int| 0 <= j < N implies 0 <= #[trigger] c[j] < <Zq2<Q1, Q2> as Ring>::modulus()
        by {
        lemma_mod_bound(va[j] + vb[j], m);
    }
    <Zq2<Q1, Q2> as Ntt<N>>::lemma_intt_ntt(c);
}

} // verus!
