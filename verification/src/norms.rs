//! Norms of residues, polynomials and vectors of polynomials, measured on signed
//! representatives and saturated at `u128::MAX`.
use vstd::prelude::*;

use crate::ntt::abs;
use crate::poly_ring::PolyRing;
use crate::ring::all_wf;
use crate::representatives::WithSignedRepresentative;

verus! {

/// The smaller of `x` and `u128::MAX`.
pub open spec fn saturate(x: int) -> int {
    if x > u128::MAX {
        u128::MAX as int
    } else {
        x
    }
}

/// `Σ_i signed(c_i)^2`.
pub open spec fn sq_norm<R: WithSignedRepresentative>(c: Seq<R>) -> int
    decreases c.len(),
{
    if c.len() == 0 {
        0
    } else {
        sq_norm(c.drop_last()) + c.last().signed() * c.last().signed()
    }
}

/// `max_i |signed(c_i)|`, zero for no entries.
pub open spec fn max_abs<R: WithSignedRepresentative>(c: Seq<R>) -> int
    decreases c.len(),
{
    if c.len() == 0 {
        0
    } else if abs(c.last().signed()) > max_abs(c.drop_last()) {
        abs(c.last().signed())
    } else {
        max_abs(c.drop_last())
    }
}

/// `Σ_k sq_norm(coefficients of v[k])`.
pub open spec fn vec_sq_norm<PR: PolyRing>(v: Seq<PR>) -> int where
    PR::BaseRing: WithSignedRepresentative,

    decreases v.len(),
{
    if v.len() == 0 {
        0
    } else {
        vec_sq_norm(v.drop_last()) + sq_norm(v.last().coeffs())
    }
}

/// `Σ_i vec_sq_norm(s[i])`.
pub open spec fn vecs_sq_norm<PR: PolyRing>(s: Seq<Vec<PR>>) -> int where
    PR::BaseRing: WithSignedRepresentative,

    decreases s.len(),
{
    if s.len() == 0 {
        0
    } else {
        vecs_sq_norm(s.drop_last()) + vec_sq_norm(s.last()@)
    }
}

/// Sums of squares are non-negative.
pub proof fn lemma_sq_norm_nonneg<R: WithSignedRepresentative>(c: Seq<R>)
    ensures
        sq_norm(c) >= 0,
    decreases c.len(),
{
    if c.len() > 0 {
        lemma_sq_norm_nonneg(c.drop_last());
        let x = c.last().signed();
        assert(x * x >= 0) by (nonlinear_arith);
    }
}

/// Sums of squares are non-negative.
pub proof fn lemma_vec_sq_norm_nonneg<PR: PolyRing>(v: Seq<PR>) where
    PR::BaseRing: WithSignedRepresentative,

    ensures
        vec_sq_norm(v) >= 0,
    decreases v.len(),
{
    if v.len() > 0 {
        lemma_vec_sq_norm_nonneg(v.drop_last());
        lemma_sq_norm_nonneg(v.last().coeffs());
    }
}

/// `|x|` as an unsigned integer.
pub fn unsigned_abs(x: i128) -> (r: u128)
    ensures
        r == abs(x as int),
{
    if x >= 0 {
        x as u128
    } else {
        (-(x + 1)) as u128 + 1
    }
}

/// `x * x`, saturated at `u128::MAX`.
fn saturating_square(x: u128) -> (r: u128)
    ensures
        r == saturate(x * x),
{
    match x.checked_mul(x) {
        Some(p) => p,
        None => u128::MAX,
    }
}

/// The squared Euclidean norm of the signed representatives of the entries of `c`, saturated at
/// `u128::MAX`.
pub fn coeffs_l2_norm_squared<R: WithSignedRepresentative>(c: &[R]) -> (r: u128)
    requires
        all_wf(c@),
    ensures
        r == saturate(sq_norm(c@)),
{
    let mut acc: u128 = 0;
    let mut i: usize = 0;
    proof {
        assert(c@.subrange(0, 0) =~= Seq::<R>::empty());
    }
    while i < c.len()
        invariant
            all_wf(c@),
            0 <= i <= c@.len(),
            acc == saturate(sq_norm(c@.subrange(0, i as int))),
        decreases c@.len() - i,
    {
        proof {
            assert(c@.subrange(0, i + 1int).drop_last() =~= c@.subrange(0, i as int));
            lemma_sq_norm_nonneg(c@.subrange(0, i as int));
            R::lemma_signed(c@[i as int]);
            let x = c@[i as int].signed();
            assert(abs(x) * abs(x) == x * x) by (nonlinear_arith);
        }
        let s = c[i].as_signed_representative();
        let a = unsigned_abs(s);
        let sq = saturating_square(a);
        acc = acc.saturating_add(sq);
        i += 1;
    }
    proof {
        assert(c@.subrange(0, c@.len() as int) =~= c@);
    }
    acc
}

/// The largest magnitude of the signed representatives of the entries of `c`.
pub fn coeffs_linf_norm<R: WithSignedRepresentative>(c: &[R]) -> (r: u128)
    requires
        all_wf(c@),
    ensures
        r == max_abs(c@),
{
    let mut acc: u128 = 0;
    let mut i: usize = 0;
    proof {
        assert(c@.subrange(0, 0) =~= Seq::<R>::empty());
    }
    while i < c.len()
        invariant
            all_wf(c@),
            0 <= i <= c@.len(),
            acc == max_abs(c@.subrange(0, i as int)),
        decreases c@.len() - i,
    {
        proof {
            assert(c@.subrange(0, i + 1int).drop_last() =~= c@.subrange(0, i as int));
            R::lemma_signed(c@[i as int]);
        }
        let a = unsigned_abs(c[i].as_signed_representative());
        if a > acc {
            acc = a;
        }
        i += 1;
    }
    proof {
        assert(c@.subrange(0, c@.len() as int) =~= c@);
    }
    acc
}

/// The squared Euclidean norm of a polynomial's coefficients, saturated at `u128::MAX`.
pub fn l2_norm_squared<PR: PolyRing>(p: &PR) -> (r: u128) where
    PR::BaseRing: WithSignedRepresentative,

    requires
        p.wf(),
    ensures
        r == saturate(sq_norm(p.coeffs())),
{
    proof {
        PR::lemma_poly_wf(*p);
    }
    let c = p.coefficients();
    coeffs_l2_norm_squared(c.as_slice())
}

/// The infinity norm of a polynomial's coefficients.
pub fn linf_norm<PR: PolyRing>(p: &PR) -> (r: u128) where
    PR::BaseRing: WithSignedRepresentative,

    requires
        p.wf(),
    ensures
        r == max_abs(p.coeffs()),
{
    proof {
        PR::lemma_poly_wf(*p);
    }
    let c = p.coefficients();
    coeffs_linf_norm(c.as_slice())
}

/// The squared Euclidean norm of a vector of polynomials, saturated at `u128::MAX`.
pub fn vec_l2_norm_squared<PR: PolyRing>(v: &Vec<PR>) -> (r: u128) where
    PR::BaseRing: WithSignedRepresentative,

    requires
        forall|k: int| 0 <= k < v@.len() ==> (#[trigger] v@[k]).wf(),
    ensures
        r == saturate(vec_sq_norm(v@)),
{
    let mut acc: u128 = 0;
    let mut k: usize = 0;
    proof {
        assert(v@.subrange(0, 0) =~= Seq::<PR>::empty());
    }
    while k < v.len()
        invariant
            forall|k: int| 0 <= k < v@.len() ==> (#[trigger] v@[k]).wf(),
            0 <= k <= v@.len(),
            acc == saturate(vec_sq_norm(v@.subrange(0, k as int))),
        decreases v@.len() - k,
    {
        proof {
            assert(v@.subrange(0, k + 1int).drop_last() =~= v@.subrange(0, k as int));
            lemma_vec_sq_norm_nonneg(v@.subrange(0, k as int));
            lemma_sq_norm_nonneg(v@[k as int].coeffs());
        }
        let n = l2_norm_squared(&v[k]);
        acc = acc.saturating_add(n);
        k += 1;
    }
    proof {
        assert(v@.subrange(0, v@.len() as int) =~= v@);
    }
    acc
}

} // verus!
