//! Residue number systems of any number of coprime moduli: the ring `Z / (M1 M2) Z` held as a
//! pair of residues in two rings with coprime moduli `M1` and `M2` (Chinese remainder theorem).
//! Nesting pairs gives the rings with three, four and five moduli.
use rand::rngs::StdRng;
use vstd::arithmetic::div_mod::*;
use vstd::arithmetic::mul::*;
use vstd::prelude::*;

use crate::arith::is_invertible_mod;
use crate::fq::Fq;
use crate::ntt::Ntt;
use crate::ring::{all_wf, vals, Ring};
use crate::rns::{
    crt2, digits_lt, digits_mul, digits_mul_u64, digits_of_u64, digits_rem_u64, digits_value,
    lemma_crt2, lemma_crt_congruent,
};
use crate::zq2::{crt2_seq, lemma_crt2_of, lemma_product_fits, lemma_residues_of_mod, residues, zq2_params, Zq2};

verus! {

/// An element of `Z / (M1 M2) Z`, for the moduli `M1` of `A` and `M2` of `B`, as its residues
/// modulo each of them.
#[derive(Clone, Copy, Debug, PartialEq, Eq, Hash)]
pub struct Crt<A, B>(pub A, pub B);

/// The ring `Z / (Q1 Q2 Q3) Z` for pairwise coprime moduli.
pub type Zq3<const Q1: u64, const Q2: u64, const Q3: u64> = Crt<Zq2<Q1, Q2>, Fq<Q3>>;

/// The ring `Z / (Q1 Q2 Q3 Q4) Z` for pairwise coprime moduli.
pub type Zq4<const Q1: u64, const Q2: u64, const Q3: u64, const Q4: u64> = Crt<
    Zq3<Q1, Q2, Q3>,
    Fq<Q4>,
>;

/// The ring `Z / (Q1 Q2 Q3 Q4 Q5) Z` for pairwise coprime moduli.
pub type Zq5<const Q1: u64, const Q2: u64, const Q3: u64, const Q4: u64, const Q5: u64> = Crt<
    Zq4<Q1, Q2, Q3, Q4>,
    Fq<Q5>,
>;

impl<A: Ring, B: Ring> Crt<A, B> {
    /// The two residues of a well-formed element, and the residue they stand for.
    pub proof fn lemma_residues(x: Self)
        requires
            x.wf(),
        ensures
            zq2_params(A::modulus(), B::modulus()),
            0 <= x.0.val() < A::modulus(),
            0 <= x.1.val() < B::modulus(),
            0 <= x.val() < A::modulus() * B::modulus(),
            x.val() % A::modulus() == x.0.val(),
            x.val() % B::modulus() == x.1.val(),
    {
        A::lemma_wf(x.0);
        B::lemma_wf(x.1);
        lemma_crt2(x.0.val(), x.1.val(), A::modulus(), B::modulus());
    }

    /// The element with the given residues.
    pub fn from_residues(a: A, b: B) -> (r: Self)
        requires
            zq2_params(A::modulus(), B::modulus()),
            a.wf(),
            b.wf(),
        ensures
            r.wf(),
            r.val() % A::modulus() == a.val(),
            r.val() % B::modulus() == b.val(),
    {
        let r = Crt(a, b);
        proof {
            Self::lemma_residues(r);
        }
        r
    }
}

impl<A: Ring, B: Ring> Ring for Crt<A, B> {
    open spec fn modulus() -> int {
        if zq2_params(A::modulus(), B::modulus()) {
            A::modulus() * B::modulus()
        } else {
            0
        }
    }

    open spec fn val(&self) -> int {
        crt2(self.0.val(), self.1.val(), A::modulus(), B::modulus())
    }

    open spec fn wf(&self) -> bool {
        zq2_params(A::modulus(), B::modulus()) && self.0.wf() && self.1.wf()
    }

    proof fn lemma_wf(x: Self) {
        Self::lemma_residues(x);
    }

    proof fn lemma_canonical(x: Self, y: Self) {
        Self::lemma_residues(x);
        Self::lemma_residues(y);
        A::lemma_canonical(x.0, y.0);
        B::lemma_canonical(x.1, y.1);
    }

    fn zero() -> (r: Self) {
        let r = Crt(A::zero(), B::zero());
        proof {
            lemma_small_mod(0, A::modulus() as nat);
            lemma_small_mod(0, B::modulus() as nat);
            assert(A::modulus() * B::modulus() > 0) by (nonlinear_arith)
                requires
                    A::modulus() >= 2,
                    B::modulus() >= 2,
            ;
            lemma_crt2_of(0, 0, 0, A::modulus(), B::modulus());
        }
        r
    }

    fn one() -> (r: Self) {
        let r = Crt(A::one(), B::one());
        proof {
            lemma_small_mod(1, A::modulus() as nat);
            lemma_small_mod(1, B::modulus() as nat);
            assert(A::modulus() * B::modulus() > 1) by (nonlinear_arith)
                requires
                    A::modulus() >= 2,
                    B::modulus() >= 2,
            ;
            lemma_crt2_of(1, 1, 1, A::modulus(), B::modulus());
        }
        r
    }

    fn is_zero(&self) -> (b: bool) {
        proof {
            Self::lemma_residues(*self);
            if self.0.val() == 0 && self.1.val() == 0 {
                lemma_crt2_of(0, 0, 0, A::modulus(), B::modulus());
            }
            if self.val() == 0 {
                lemma_small_mod(0, A::modulus() as nat);
                lemma_small_mod(0, B::modulus() as nat);
            }
        }
        self.0.is_zero() && self.1.is_zero()
    }

    fn ring_eq(&self, other: &Self) -> (b: bool) {
        proof {
            Self::lemma_residues(*self);
            Self::lemma_residues(*other);
        }
        self.0.ring_eq(&other.0) && self.1.ring_eq(&other.1)
    }

    fn add(&self, other: &Self) -> (r: Self) {
        let r = Crt(self.0.add(&other.0), self.1.add(&other.1));
        proof {
            let (q1, q2) = (A::modulus(), B::modulus());
            Self::lemma_residues(*self);
            Self::lemma_residues(*other);
            let s = self.val() + other.val();
            lemma_residues_of_mod(s, q1, q2);
            lemma_add_mod_noop(self.val(), other.val(), q1);
            lemma_add_mod_noop(self.val(), other.val(), q2);
            lemma_crt2_of(s % (q1 * q2), r.0.val(), r.1.val(), q1, q2);
        }
        r
    }

    fn sub(&self, other: &Self) -> (r: Self) {
        let r = Crt(self.0.sub(&other.0), self.1.sub(&other.1));
        proof {
            let (q1, q2) = (A::modulus(), B::modulus());
            Self::lemma_residues(*self);
            Self::lemma_residues(*other);
            let s = self.val() - other.val();
            lemma_residues_of_mod(s, q1, q2);
            lemma_sub_mod_noop(self.val(), other.val(), q1);
            lemma_sub_mod_noop(self.val(), other.val(), q2);
            lemma_crt2_of(s % (q1 * q2), r.0.val(), r.1.val(), q1, q2);
        }
        r
    }

    fn mul(&self, other: &Self) -> (r: Self) {
        let r = Crt(self.0.mul(&other.0), self.1.mul(&other.1));
        proof {
            let (q1, q2) = (A::modulus(), B::modulus());
            Self::lemma_residues(*self);
            Self::lemma_residues(*other);
            let s = self.val() * other.val();
            lemma_residues_of_mod(s, q1, q2);
            lemma_mul_mod_noop(self.val(), other.val(), q1);
            lemma_mul_mod_noop(self.val(), other.val(), q2);
            lemma_crt2_of(s % (q1 * q2), r.0.val(), r.1.val(), q1, q2);
        }
        r
    }

    fn neg(&self) -> (r: Self) {
        let r = Crt(self.0.neg(), self.1.neg());
        proof {
            let (q1, q2) = (A::modulus(), B::modulus());
            Self::lemma_residues(*self);
            let s = -self.val();
            lemma_residues_of_mod(s, q1, q2);
            lemma_sub_mod_noop(0, self.val(), q1);
            lemma_sub_mod_noop(0, self.val(), q2);
            lemma_sub_mod_noop(0, self.0.val(), q1);
            lemma_sub_mod_noop(0, self.1.val(), q2);
            lemma_small_mod(0, q1 as nat);
            lemma_small_mod(0, q2 as nat);
            lemma_mod_twice(self.val(), q1);
            lemma_mod_twice(self.val(), q2);
            lemma_crt2_of(s % (q1 * q2), r.0.val(), r.1.val(), q1, q2);
        }
        r
    }

    fn rand(rng: &mut StdRng) -> (r: Self) {
        let a = A::rand(rng);
        let b = B::rand(rng);
        Crt(a, b)
    }

    fn inverse(&self) -> (r: Option<Self>) {
        let ghost q1 = A::modulus();
        let ghost q2 = B::modulus();
        proof {
            Self::lemma_residues(*self);
        }
        let i1 = self.0.inverse();
        let i2 = self.1.inverse();
        match (i1, i2) {
            (Some(y1), Some(y2)) => {
                let y = Crt(y1, y2);
                proof {
                    Self::lemma_residues(y);
                    let p = self.val() * y.val();
                    lemma_mul_mod_noop(self.val(), y.val(), q1);
                    lemma_mul_mod_noop(self.val(), y.val(), q2);
                    lemma_crt_congruent(p, 1, q1, q2);
                    assert(is_invertible_mod(self.val(), q1 * q2)) by {
                        assert(((self.val() * y.val()) % (q1 * q2)) == 1int % (q1 * q2));
                    }
                }
                Some(y)
            },
            _ => {
                proof {
                    if is_invertible_mod(self.val(), q1 * q2) {
                        let y = choose|y: int| #[trigger] ((self.val() * y) % (q1 * q2)) == 1int % (
                        q1 * q2);
                        lemma_residues_of_mod(self.val() * y, q1, q2);
                        lemma_residues_of_mod(1, q1, q2);
                        lemma_mul_mod_noop_left(self.val(), y, q1);
                        lemma_mul_mod_noop_left(self.val(), y, q2);
                        assert((self.0.val() * y) % q1 == 1int % q1);
                        assert((self.1.val() * y) % q2 == 1int % q2);
                        assert(is_invertible_mod(self.0.val(), q1));
                        assert(is_invertible_mod(self.1.val(), q2));
                    }
                }
                None
            },
        }
    }
}

/// The limbs of an array of elements, and their residues.
proof fn lemma_crt_limbs<A: Ring, B: Ring, const N: usize>(
    x: [Crt<A, B>; N],
    l1: [A; N],
    l2: [B; N],
)
    requires
        all_wf(x@),
        forall|j: int| 0 <= j < N ==> #[trigger] l1@[j] == x@[j].0,
        forall|j: int| 0 <= j < N ==> #[trigger] l2@[j] == x@[j].1,
    ensures
        all_wf(l1@),
        all_wf(l2@),
        vals(l1@) == residues(vals(x@), A::modulus()),
        vals(l2@) == residues(vals(x@), B::modulus()),
{
    assert forall|j: int| 0 <= j < N implies #[trigger] vals(l1@)[j] == residues(
        vals(x@),
        A::modulus(),
    )[j] by {
        Crt::<A, B>::lemma_residues(x@[j]);
        assert(l1@[j] == x@[j].0);
    }
    assert forall|j: int| 0 <= j < N implies #[trigger] vals(l2@)[j] == residues(
        vals(x@),
        B::modulus(),
    )[j] by {
        Crt::<A, B>::lemma_residues(x@[j]);
        assert(l2@[j] == x@[j].1);
    }
    assert forall|j: int| 0 <= j < N implies #[trigger] l1@[j].wf() by {
        assert(x@[j].wf());
        assert(l1@[j] == x@[j].0);
    }
    assert forall|j: int| 0 <= j < N implies #[trigger] l2@[j].wf() by {
        assert(x@[j].wf());
        assert(l2@[j] == x@[j].1);
    }
    assert(x@.len() == N && l1@.len() == N && l2@.len() == N);
    assert(vals(l1@) =~= residues(vals(x@), A::modulus()));
    assert(vals(l2@) =~= residues(vals(x@), B::modulus()));
}

/// Splits an array of elements into its two arrays of limbs.
fn split_crt_limbs<A: Ring, B: Ring, const N: usize>(x: &[Crt<A, B>; N]) -> (r: ([A; N], [B; N]))
    requires
        zq2_params(A::modulus(), B::modulus()),
    ensures
        forall|j: int| 0 <= j < N ==> #[trigger] r.0@[j] == x@[j].0,
        forall|j: int| 0 <= j < N ==> #[trigger] r.1@[j] == x@[j].1,
{
    let mut l1 = [A::zero(); N];
    let mut l2 = [B::zero(); N];
    let mut j: usize = 0;
    while j < N
        invariant
            0 <= j <= N,
            forall|k: int| 0 <= k < j ==> #[trigger] l1@[k] == x@[k].0,
            forall|k: int| 0 <= k < j ==> #[trigger] l2@[k] == x@[k].1,
        decreases N - j,
    {
        l1[j] = x[j].0;
        l2[j] = x[j].1;
        j += 1;
    }
    (l1, l2)
}

/// Joins two arrays of limbs into an array of elements.
fn join_crt_limbs<A: Ring, B: Ring, const N: usize>(
    l1: &[A; N],
    l2: &[B; N],
    out: &mut [Crt<A, B>; N],
)
    ensures
        forall|j: int| 0 <= j < N ==> #[trigger] final(out)@[j] == Crt(l1@[j], l2@[j]),
{
    let mut j: usize = 0;
    while j < N
        invariant
            0 <= j <= N,
            forall|k: int| 0 <= k < j ==> #[trigger] out@[k] == Crt(l1@[k], l2@[k]),
        decreases N - j,
    {
        out[j] = Crt(l1[j], l2[j]);
        j += 1;
    }
}

impl<A: Ntt<N>, B: Ntt<N>, const N: usize> Ntt<N> for Crt<A, B> {
    open spec fn ntt_params() -> bool {
        zq2_params(A::modulus(), B::modulus()) && A::ntt_params() && B::ntt_params()
    }

    /// The transform of each limb, recombined.
    open spec fn ntt_spec(coeffs: Seq<int>) -> Seq<int> {
        crt2_seq(
            A::ntt_spec(residues(coeffs, A::modulus())),
            B::ntt_spec(residues(coeffs, B::modulus())),
            A::modulus(),
            B::modulus(),
        )
    }

    /// The inverse transform of each limb, recombined.
    open spec fn intt_spec(evals: Seq<int>) -> Seq<int> {
        crt2_seq(
            A::intt_spec(residues(evals, A::modulus())),
            B::intt_spec(residues(evals, B::modulus())),
            A::modulus(),
            B::modulus(),
        )
    }

    /// Transforms each limb on its own.
    fn ntt_inplace(coeffs: &mut [Self; N]) {
        let (mut l1, mut l2) = split_crt_limbs(&*coeffs);
        proof {
            lemma_crt_limbs(*old(coeffs), l1, l2);
        }
        A::ntt_inplace(&mut l1);
        B::ntt_inplace(&mut l2);
        join_crt_limbs(&l1, &l2, coeffs);
        proof {
            let c = *coeffs;
            assert forall|j: int| 0 <= j < N implies #[trigger] c@[j].wf() && vals(c@)[j]
                == <Self as Ntt<N>>::ntt_spec(vals(old(coeffs)@))[j] by {
                assert(c@[j] == Crt(l1@[j], l2@[j]));
                assert(l1@[j].wf() && l2@[j].wf());
            }
            assert(vals(c@) =~= <Self as Ntt<N>>::ntt_spec(vals(old(coeffs)@)));
        }
    }

    /// Transforms each limb back on its own.
    fn intt_inplace(evals: &mut [Self; N]) {
        let (mut l1, mut l2) = split_crt_limbs(&*evals);
        proof {
            lemma_crt_limbs(*old(evals), l1, l2);
        }
        A::intt_inplace(&mut l1);
        B::intt_inplace(&mut l2);
        join_crt_limbs(&l1, &l2, evals);
        proof {
            let c = *evals;
            assert forall|j: int| 0 <= j < N implies #[trigger] c@[j].wf() && vals(c@)[j]
                == <Self as Ntt<N>>::intt_spec(vals(old(evals)@))[j] by {
                assert(c@[j] == Crt(l1@[j], l2@[j]));
                assert(l1@[j].wf() && l2@[j].wf());
            }
            assert(vals(c@) =~= <Self as Ntt<N>>::intt_spec(vals(old(evals)@)));
        }
    }

    proof fn lemma_ntt_spec_reduced(a: Seq<int>) {
        let (q1, q2) = (A::modulus(), B::modulus());
        let e1 = A::ntt_spec(residues(a, q1));
        let e2 = B::ntt_spec(residues(a, q2));
        A::lemma_ntt_spec_reduced(residues(a, q1));
        B::lemma_ntt_spec_reduced(residues(a, q2));
        assert forall|j: int| 0 <= j < N implies 0 <= #[trigger] <Self as Ntt<N>>::ntt_spec(a)[j]
            < <Self as Ring>::modulus() by {
            lemma_crt2(e1[j], e2[j], q1, q2);
        }
    }

    proof fn lemma_intt_ntt(a: Seq<int>) {
        let (q1, q2) = (A::modulus(), B::modulus());
        let r1 = residues(a, q1);
        let r2 = residues(a, q2);
        let e1 = A::ntt_spec(r1);
        let e2 = B::ntt_spec(r2);
        A::lemma_ntt_spec_reduced(r1);
        B::lemma_ntt_spec_reduced(r2);
        let e = crt2_seq(e1, e2, q1, q2);
        assert forall|j: int| 0 <= j < N implies #[trigger] residues(e, q1)[j] == e1[j]
            && residues(e, q2)[j] == e2[j] by {
            lemma_crt2(e1[j], e2[j], q1, q2);
        }
        assert(residues(e, q1) =~= e1);
        assert(residues(e, q2) =~= e2);
        assert forall|j: int| 0 <= j < N implies 0 <= #[trigger] r1[j] < q1 && 0 <= r2[j] < q2 by {
            lemma_mod_bound(a[j], q1);
            lemma_mod_bound(a[j], q2);
        }
        A::lemma_intt_ntt(r1);
        B::lemma_intt_ntt(r2);
        let back = <Self as Ntt<N>>::intt_spec(e);
        assert forall|j: int| 0 <= j < N implies #[trigger] back[j] == a[j] by {
            lemma_crt2_of(a[j], a[j] % q1, a[j] % q2, q1, q2);
        }
        assert(back =~= a);
    }
}

/// A residue ring whose elements can be read from machine integers.
pub trait ResidueFromInt: Ring {
    /// The modulus, where it fits in 128 bits.
    fn modulus_u128() -> (m: Option<u128>)
        requires
            Self::modulus() >= 2,
        ensures
            m matches Some(v) ==> v == Self::modulus(),
            m is None ==> Self::modulus() > u128::MAX,
    ;

    /// The residue of `x`.
    fn reduce_u128(x: u128) -> (r: Self)
        requires
            Self::modulus() >= 2,
        ensures
            r.wf(),
            r.val() == (x as int) % Self::modulus(),
    ;

    /// The modulus as base-`2^32` digits.
    fn modulus_digits() -> (d: Vec<u32>)
        requires
            Self::modulus() >= 2,
        ensures
            digits_value(d@) == Self::modulus(),
    ;

    /// The residue of the number with base-`2^32` digits `d`.
    fn reduce_digits(d: &Vec<u32>) -> (r: Self)
        requires
            Self::modulus() >= 2,
        ensures
            r.wf(),
            r.val() == (digits_value(d@) as int) % Self::modulus(),
    ;
}

/// The element whose residue is the number with base-`2^32` digits `d`, of any size, refused
/// where that number is not below the modulus.
pub fn try_from_digits<R: ResidueFromInt>(d: &Vec<u32>) -> (r: Result<R, ()>)
    requires
        R::modulus() >= 2,
    ensures
        r is Ok <==> digits_value(d@) < R::modulus(),
        r matches Ok(z) ==> z.wf() && z.val() == digits_value(d@),
{
    let m = R::modulus_digits();
    if digits_lt(d, &m) {
        let z = R::reduce_digits(d);
        proof {
            lemma_small_mod(digits_value(d@), R::modulus() as nat);
        }
        Ok(z)
    } else {
        Err(())
    }
}

/// The element whose residue is `x`, refused where `x` is not below the modulus.
pub fn try_from_u128<R: ResidueFromInt>(x: u128) -> (r: Result<R, ()>)
    requires
        R::modulus() >= 2,
    ensures
        r is Ok <==> x < R::modulus(),
        r matches Ok(z) ==> z.wf() && z.val() == x,
{
    let below = match R::modulus_u128() {
        Some(m) => x < m,
        None => true,
    };
    if below {
        let z = R::reduce_u128(x);
        proof {
            lemma_small_mod(x as nat, R::modulus() as nat);
        }
        Ok(z)
    } else {
        Err(())
    }
}

impl<const Q: u64> ResidueFromInt for Fq<Q> {
    fn modulus_u128() -> (m: Option<u128>) {
        Some(Q as u128)
    }

    fn reduce_u128(x: u128) -> (r: Self) {
        let v = (x % (Q as u128)) as u64;
        Fq::<Q>::new_unchecked(v)
    }

    fn modulus_digits() -> (d: Vec<u32>) {
        digits_of_u64(Q)
    }

    fn reduce_digits(d: &Vec<u32>) -> (r: Self) {
        let v = digits_rem_u64(d, Q);
        Fq::<Q>::new_unchecked(v)
    }
}

impl<const Q1: u64, const Q2: u64> ResidueFromInt for Zq2<Q1, Q2> {
    fn modulus_u128() -> (m: Option<u128>) {
        proof {
            lemma_product_fits(Q1, Q2);
        }
        Some(Q1 as u128 * Q2 as u128)
    }

    fn reduce_u128(x: u128) -> (r: Self) {
        let a = Fq::<Q1>::reduce_u128(x);
        let b = Fq::<Q2>::reduce_u128(x);
        let r = Zq2(a, b);
        proof {
            let (q1, q2) = (Q1 as int, Q2 as int);
            Zq2::<Q1, Q2>::lemma_residues(r);
            lemma_residues_of_mod(x as int, q1, q2);
            lemma_crt2_of((x as int) % (q1 * q2), a.val(), b.val(), q1, q2);
        }
        r
    }

    fn modulus_digits() -> (d: Vec<u32>) {
        let m1 = digits_of_u64(Q1);
        digits_mul_u64(&m1, Q2)
    }

    fn reduce_digits(d: &Vec<u32>) -> (r: Self) {
        let a = Fq::<Q1>::reduce_digits(d);
        let b = Fq::<Q2>::reduce_digits(d);
        let r = Zq2(a, b);
        proof {
            let (q1, q2) = (Q1 as int, Q2 as int);
            let x = digits_value(d@) as int;
            Zq2::<Q1, Q2>::lemma_residues(r);
            lemma_residues_of_mod(x, q1, q2);
            lemma_crt2_of(x % (q1 * q2), a.val(), b.val(), q1, q2);
        }
        r
    }
}

impl<A: ResidueFromInt, B: ResidueFromInt> ResidueFromInt for Crt<A, B> {
    fn modulus_u128() -> (m: Option<u128>) {
        match (A::modulus_u128(), B::modulus_u128()) {
            (Some(a), Some(b)) => a.checked_mul(b),
            _ => {
                proof {
                    assert(A::modulus() * B::modulus() > u128::MAX) by (nonlinear_arith)
                        requires
                            A::modulus() > u128::MAX || B::modulus() > u128::MAX,
                            A::modulus() >= 2,
                            B::modulus() >= 2,
                    ;
                }
                None
            },
        }
    }

    fn reduce_u128(x: u128) -> (r: Self) {
        let a = A::reduce_u128(x);
        let b = B::reduce_u128(x);
        let r = Crt(a, b);
        proof {
            let (q1, q2) = (A::modulus(), B::modulus());
            Self::lemma_residues(r);
            lemma_residues_of_mod(x as int, q1, q2);
            lemma_crt2_of((x as int) % (q1 * q2), a.val(), b.val(), q1, q2);
        }
        r
    }

    fn modulus_digits() -> (d: Vec<u32>) {
        let a = A::modulus_digits();
        let b = B::modulus_digits();
        digits_mul(&a, &b)
    }

    fn reduce_digits(d: &Vec<u32>) -> (r: Self) {
        let a = A::reduce_digits(d);
        let b = B::reduce_digits(d);
        let r = Crt(a, b);
        proof {
            let (q1, q2) = (A::modulus(), B::modulus());
            let x = digits_value(d@) as int;
            Self::lemma_residues(r);
            lemma_residues_of_mod(x, q1, q2);
            lemma_crt2_of(x % (q1 * q2), a.val(), b.val(), q1, q2);
        }
        r
    }
}

} // verus!
