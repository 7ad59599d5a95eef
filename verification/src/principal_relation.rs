//! The principal relation: witnesses are `r` vectors of `n` polynomials with a bounded norm,
//! and instances are quadratic-linear constraints on them, some of which only bind the
//! constant coefficient.
#![allow(non_snake_case)]

use rand::rngs::StdRng;
use std::marker::PhantomData;
use vstd::arithmetic::div_mod::*;
use vstd::arithmetic::mul::*;
use vstd::prelude::*;

use crate::norms::{
    lemma_sq_norm_nonneg, saturate, sq_norm, vec_l2_norm_squared, vec_sq_norm, vecs_sq_norm,
};
use crate::random::{draw_uniform_i128, gen_below, DrawLog};
use crate::poly_ring::{constant_poly, seq_neg, PolyRing};
use crate::relation_algebra::{
    coeff_sum, dot, gram_entry, inner_products, lemma_fold_push, poly_dot, poly_fold,
    uniform_vectors,
};
use crate::representatives::WithSignedRepresentative;
use crate::ring::{vals, Ring};
use crate::symmetric_matrix::{is_lower_triangle, SymmetricMatrix};

verus! {

/// The terms `A_ij <s_i, s_j>` for `(i, j)` in row-major order over `A`'s size.
pub open spec fn quad_terms<R: PolyRing>(A: SymmetricMatrix<R>, s: Seq<Vec<R>>) -> Seq<Seq<int>> {
    let r = A.dim() as int;
    Seq::new(
        (r * r) as nat,
        |t: int| R::mul_spec(vals(A.entry(t / r, t % r).coeffs()), gram_entry(s, t / r, t % r)),
    )
}

/// The terms `<phi_i, s_i>`.
pub open spec fn linear_terms<R: PolyRing>(phi: Seq<Vec<R>>, s: Seq<Vec<R>>) -> Seq<Seq<int>> {
    Seq::new(phi.len(), |i: int| poly_dot(phi[i]@, s[i]@))
}

/// All terms of a constraint with quadratic part `A` and linear part `phi`, in the order they
/// are added up.
pub open spec fn constraint_terms<R: PolyRing>(
    A: Option<SymmetricMatrix<R>>,
    phi: Seq<Vec<R>>,
    s: Seq<Vec<R>>,
) -> Seq<Seq<int>> {
    match A {
        Some(a) => quad_terms(a, s) + linear_terms(phi, s),
        None => linear_terms(phi, s),
    }
}

/// The shape a constraint needs for its evaluation on `s`: `A` at most as large as `s`, one
/// `phi_i` per vector of `s` at most, each as long as its vector.
pub open spec fn fits<R: PolyRing>(A: Option<SymmetricMatrix<R>>, phi: Seq<Vec<R>>, s: Seq<Vec<R>>) -> bool {
    &&& s.len() > 0 ==> uniform_vectors(s, s[0]@.len())
    &&& phi.len() <= s.len()
    &&& forall|i: int| 0 <= i < phi.len() ==> (#[trigger] phi[i])@.len() == s[i]@.len()
    &&& forall|i: int, k: int| 0 <= i < phi.len() && 0 <= k < phi[i]@.len() ==> (#[trigger] phi[i]@[k]).wf()
    &&& A matches Some(a) ==> a.wf() && a.dim() <= s.len() && forall|i: int, j: int|
        0 <= i < a.dim() && 0 <= j < a.dim() ==> (#[trigger] a.entry(i, j)).wf()
}

/// All vectors have the length of the first.
pub open spec fn same_lengths<R>(v: Seq<Vec<R>>) -> bool {
    forall|i: int| 0 <= i < v.len() ==> (#[trigger] v[i])@.len() == v[0]@.len()
}

/// `v` is the residue modulo `m` of an integer of `[-l, l)`.
pub open spec fn residue_of_small(v: int, l: int, m: int) -> bool {
    exists|x: int| -l <= x < l && v == #[trigger] (x % m)
}

/// Every coefficient of `p` is the residue of an integer of `[-l, l)`.
pub open spec fn small_coeffs<R: PolyRing>(p: R, l: int) -> bool {
    forall|j: int|
        0 <= j < p.coeffs().len() ==> residue_of_small(
            (#[trigger] p.coeffs()[j]).val(),
            l,
            R::BaseRing::modulus(),
        )
}

/// The residue of an integer of `[-l, l)` has a signed representative of magnitude at most `l`,
/// where `-l` is an admitted signed representative.
pub proof fn lemma_small_signed<R: WithSignedRepresentative>(e: R, l: int)
    requires
        e.wf(),
        l > 0,
        R::repr_min() <= -l,
        residue_of_small(e.val(), l, R::modulus()),
    ensures
        -l <= e.signed() <= l,
        e.signed() * e.signed() <= l * l,
{
    R::lemma_signed(e);
    R::lemma_wf(e);
    let m = R::modulus();
    let x = choose|x: int| -l <= x < l && e.val() == #[trigger] (x % m);
    let s = e.signed();
    lemma_sub_mod_noop(s, x, m);
    lemma_mod_twice(x, m);
    lemma_small_mod(0, m as nat);
    lemma_fundamental_div_mod(s - x, m);
    let t = (s - x) / m;
    assert(s - x == m * t);
    assert(-l <= s <= l) by (nonlinear_arith)
        requires
            s - x == m * t,
            -l <= x < l,
            -s <= m / 2,
            s <= m / 2,
            l <= m / 2,
            m >= 1,
            2 * (m / 2) <= m,
    ;
    assert(s * s <= l * l) by (nonlinear_arith)
        requires
            -l <= s <= l,
    ;
}

/// Coefficients that are residues of integers of `[-l, l)` have a squared norm of at most
/// their number times `l^2`.
pub proof fn lemma_sq_norm_small<R: WithSignedRepresentative>(c: Seq<R>, l: int)
    requires
        l > 0,
        R::repr_min() <= -l,
        forall|j: int| 0 <= j < c.len() ==> (#[trigger] c[j]).wf(),
        forall|j: int| 0 <= j < c.len() ==> residue_of_small((#[trigger] c[j]).val(), l, R::modulus()),
    ensures
        sq_norm(c) <= c.len() * (l * l),
    decreases c.len(),
{
    if c.len() > 0 {
        let d = c.drop_last();
        assert forall|j: int| 0 <= j < d.len() implies (#[trigger] d[j]).wf() && residue_of_small(
            d[j].val(),
            l,
            R::modulus(),
        ) by {
            assert(d[j] == c[j]);
        }
        lemma_sq_norm_small(d, l);
        lemma_small_signed(c.last(), l);
        assert(d.len() * (l * l) + l * l == c.len() * (l * l)) by (nonlinear_arith)
            requires
                d.len() + 1 == c.len(),
        ;
    }
}

/// Polynomials with small coefficients have a squared norm of at most their number times
/// `dim l^2`.
pub proof fn lemma_vec_sq_norm_small<R: PolyRing>(v: Seq<R>, l: int)
    where
        R::BaseRing: WithSignedRepresentative,
    requires
        l > 0,
        R::BaseRing::repr_min() <= -l,
        forall|k: int| 0 <= k < v.len() ==> (#[trigger] v[k]).wf(),
        forall|k: int| 0 <= k < v.len() ==> small_coeffs(#[trigger] v[k], l),
    ensures
        vec_sq_norm(v) <= v.len() * (R::dim() * (l * l)),
    decreases v.len(),
{
    if v.len() > 0 {
        let d = v.drop_last();
        assert forall|k: int| 0 <= k < d.len() implies (#[trigger] d[k]).wf() && small_coeffs(d[k], l)
            by {
            assert(d[k] == v[k]);
        }
        lemma_vec_sq_norm_small(d, l);
        let p = v.last();
        R::lemma_poly_wf(p);
        assert forall|j: int| 0 <= j < p.coeffs().len() implies residue_of_small(
            (#[trigger] p.coeffs()[j]).val(),
            l,
            R::BaseRing::modulus(),
        ) by {
            assert(small_coeffs(p, l));
        }
        lemma_sq_norm_small(p.coeffs(), l);
        let b = R::dim() * (l * l);
        assert(d.len() * b + b == v.len() * b) by (nonlinear_arith)
            requires
                d.len() + 1 == v.len(),
        ;
    }
}

/// Vectors of `n` polynomials with small coefficients have a squared norm of at most their
/// number times `n dim l^2`.
pub proof fn lemma_vecs_sq_norm_small<R: PolyRing>(s: Seq<Vec<R>>, n: nat, l: int)
    where
        R::BaseRing: WithSignedRepresentative,
    requires
        l > 0,
        R::BaseRing::repr_min() <= -l,
        uniform_vectors(s, n),
        forall|i: int, k: int| 0 <= i < s.len() && 0 <= k < n ==> small_coeffs(#[trigger] s[i]@[k], l),
    ensures
        vecs_sq_norm(s) <= s.len() * (n * (R::dim() * (l * l))),
    decreases s.len(),
{
    if s.len() > 0 {
        let d = s.drop_last();
        assert forall|i: int| 0 <= i < d.len() implies (#[trigger] d[i])@.len() == n && forall|k: int|
            0 <= k < n ==> (#[trigger] d[i]@[k]).wf() by {
            assert(d[i] == s[i]);
        }
        assert forall|i: int, k: int| 0 <= i < d.len() && 0 <= k < n implies small_coeffs(
            #[trigger] d[i]@[k],
            l,
        ) by {
            assert(d[i] == s[i]);
        }
        lemma_vecs_sq_norm_small(d, n, l);
        let v = s.last()@;
        assert forall|k: int| 0 <= k < v.len() implies (#[trigger] v[k]).wf() && small_coeffs(v[k], l)
            by {
            assert(s[s.len() - 1]@[k] == v[k]);
        }
        lemma_vec_sq_norm_small(v, l);
        let b = n * (R::dim() * (l * l));
        assert(d.len() * b + b == s.len() * b) by (nonlinear_arith)
            requires
                d.len() + 1 == s.len(),
        ;
    }
}

/// A witness of the index's shape with coefficients from `[-l, l)` meets the norm bound when
/// `r n dim l^2` does.
pub proof fn lemma_random_witness_ok<R: PolyRing>(idx: Index<R>, w: Witness<R>, l: int)
    where
        R::BaseRing: WithSignedRepresentative,
    requires
        l > 0,
        R::BaseRing::repr_min() <= -l,
        w.s@.len() == idx.r,
        uniform_vectors(w.s@, idx.n as nat),
        forall|i: int, k: int|
            0 <= i < idx.r && 0 <= k < idx.n ==> small_coeffs(#[trigger] w.s@[i]@[k], l),
        idx.r * (idx.n * (R::dim() * (l * l))) <= idx.norm_bound_squared,
    ensures
        witness_ok(idx, w),
{
    lemma_vecs_sq_norm_small(w.s@, idx.n as nat, l);
    lemma_indices_where_empty(w.s@.len(), |k: int| w.s@[k]@.len() != idx.n);
    assert forall|k: int| 0 <= k < w.s@.len() implies !(#[trigger] w.s@[k]@.len() != idx.n) by {
        assert(w.s@[k]@.len() == idx.n);
    }
}

/// `n` polynomials drawn at random from `rng`.
fn rand_vector<R: PolyRing>(n: usize, rng: &mut StdRng) -> (v: Vec<R>)
    requires
        R::params(),
    ensures
        v@.len() == n,
        forall|k: int| 0 <= k < n ==> (#[trigger] v@[k]).wf(),
{
    let mut v: Vec<R> = Vec::new();
    let mut k: usize = 0;
    while k < n
        invariant
            R::params(),
            0 <= k <= n,
            v@.len() == k,
            forall|b: int| 0 <= b < k ==> (#[trigger] v@[b]).wf(),
        decreases n - k,
    {
        v.push(R::rand(rng));
        k += 1;
    }
    v
}

/// A symmetric matrix of size `n` whose lower triangle is drawn at random from `rng`, row after
/// row.
fn rand_matrix<R: PolyRing>(n: usize, rng: &mut StdRng) -> (m: SymmetricMatrix<R>)
    requires
        R::params(),
    ensures
        m.wf(),
        m.dim() == n,
        forall|i: int, j: int| 0 <= i < n && 0 <= j < n ==> (#[trigger] m.entry(i, j)).wf(),
{
    let mut rows: Vec<Vec<R>> = Vec::new();
    let mut i: usize = 0;
    while i < n
        invariant
            R::params(),
            0 <= i <= n,
            rows@.len() == i,
            is_lower_triangle(rows@),
            forall|a: int, b: int| 0 <= b <= a < i ==> (#[trigger] rows@[a]@[b]).wf(),
        decreases n - i,
    {
        let row = rand_vector::<R>(i + 1, rng);
        rows.push(row);
        i += 1;
    }
    let m = SymmetricMatrix::from_rows(rows);
    proof {
        assert forall|i: int, j: int| 0 <= i < n && 0 <= j < n implies (#[trigger] m.entry(
            i,
            j,
        )).wf() by {
            if j <= i {
                assert(m.tri()[i]@[j].wf());
            } else {
                assert(m.tri()[j]@[i].wf());
            }
        }
    }
    m
}

/// `r` vectors, each equal to `v`.
fn repeat_vector<R: PolyRing>(v: &Vec<R>, r: usize) -> (out: Vec<Vec<R>>)
    ensures
        out@.len() == r,
        forall|i: int| 0 <= i < r ==> (#[trigger] out@[i])@ == v@,
{
    let mut out: Vec<Vec<R>> = Vec::new();
    let mut i: usize = 0;
    while i < r
        invariant
            0 <= i <= r,
            out@.len() == i,
            forall|a: int| 0 <= a < i ==> (#[trigger] out@[a])@ == v@,
        decreases r - i,
    {
        let mut copy: Vec<R> = Vec::new();
        let mut k: usize = 0;
        while k < v.len()
            invariant
                0 <= k <= v@.len(),
                copy@ == v@.subrange(0, k as int),
            decreases v@.len() - k,
        {
            copy.push(v[k]);
            k += 1;
            proof {
                assert(copy@ =~= v@.subrange(0, k as int));
            }
        }
        proof {
            assert(copy@ =~= v@);
        }
        out.push(copy);
        i += 1;
    }
    out
}

/// The witness: `r` vectors of polynomials, all of the same length.
pub struct Witness<R: PolyRing> {
    pub s: Vec<Vec<R>>,
}

impl<R: PolyRing> Witness<R> {
    /// A witness made of at least one vector, all of the same length.
    pub fn new(s: Vec<Vec<R>>) -> (w: Self)
        requires
            s@.len() > 0,
            same_lengths(s@),
        ensures
            w.s@ == s@,
    {
        Witness { s }
    }

    /// `rank` zero vectors of length `multiplicity`.
    pub fn zero(rank: usize, multiplicity: usize) -> (w: Self)
        requires
            R::params(),
            rank > 0,
        ensures
            w.s@.len() == rank,
            uniform_vectors(w.s@, multiplicity as nat),
            forall|i: int, k: int|
                0 <= i < rank && 0 <= k < multiplicity ==> vals((#[trigger] w.s@[i]@[k]).coeffs())
                    == constant_poly(0, R::dim()),
    {
        let mut s: Vec<Vec<R>> = Vec::new();
        let mut i: usize = 0;
        while i < rank
            invariant
                R::params(),
                0 <= i <= rank,
                s@.len() == i,
                uniform_vectors(s@, multiplicity as nat),
                forall|a: int, k: int|
                    0 <= a < i && 0 <= k < multiplicity ==> vals((#[trigger] s@[a]@[k]).coeffs())
                        == constant_poly(0, R::dim()),
            decreases rank - i,
        {
            let mut v: Vec<R> = Vec::new();
            let mut k: usize = 0;
            while k < multiplicity
                invariant
                    R::params(),
                    0 <= k <= multiplicity,
                    v@.len() == k,
                    forall|b: int| 0 <= b < k ==> (#[trigger] v@[b]).wf(),
                    forall|b: int|
                        0 <= b < k ==> vals((#[trigger] v@[b]).coeffs()) == constant_poly(0, R::dim()),
                decreases multiplicity - k,
            {
                v.push(R::zero());
                k += 1;
            }
            s.push(v);
            i += 1;
        }
        Witness { s }
    }
}

/// `samples` holds `num` vectors of `len` lists of `dim` integers.
pub open spec fn samples_shaped(samples: Seq<Vec<Vec<i128>>>, num: nat, len: nat, dim: nat) -> bool {
    &&& samples.len() == num
    &&& forall|i: int| 0 <= i < num ==> (#[trigger] samples[i])@.len() == len
    &&& forall|i: int, k: int| 0 <= i < num && 0 <= k < len ==> (#[trigger] samples[i]@[k])@.len() == dim
}

/// Every integer of `samples` lies in `[lo, hi]`.
pub open spec fn samples_within(samples: Seq<Vec<Vec<i128>>>, lo: int, hi: int) -> bool {
    forall|i: int, k: int, j: int|
        0 <= i < samples.len() && 0 <= k < samples[i]@.len() && 0 <= j < samples[i]@[k]@.len()
            ==> lo <= #[trigger] samples[i]@[k]@[j] <= hi
}

/// `w` is shaped like `samples`, and coefficient `j` of polynomial `k` of vector `i` of `w` is
/// the residue of `samples[i][k][j]`.
pub open spec fn witness_of_samples<R: PolyRing>(w: Witness<R>, samples: Seq<Vec<Vec<i128>>>) -> bool {
    &&& w.s@.len() == samples.len()
    &&& forall|i: int| 0 <= i < samples.len() ==> (#[trigger] w.s@[i])@.len() == samples[i]@.len()
    &&& forall|i: int, k: int|
        0 <= i < samples.len() && 0 <= k < samples[i]@.len() ==> (#[trigger] w.s@[i]@[k]).wf()
            && vals(w.s@[i]@[k].coeffs()) == Seq::new(
            R::dim(),
            |j: int| (samples[i]@[k]@[j] as int) % R::BaseRing::modulus(),
        )
}

/// The position of entry `(i, k, j)` of `num` vectors of `len` lists of `dim` integers when
/// they are read one after the other.
pub open spec fn sample_pos(i: int, k: int, j: int, len: int, dim: int) -> int {
    (i * len + k) * dim + j
}

/// `t` is the position of some entry of `num` vectors of `len` lists of `dim` integers.
pub open spec fn is_entry_position(t: int, num: int, len: int, dim: int) -> bool {
    exists|i: int, k: int, j: int|
        0 <= i < num && 0 <= k < len && 0 <= j < dim && t == #[trigger] sample_pos(i, k, j, len, dim)
}

/// Entry `(i, k, j)` lies in the block of list `(i, k)` and in the block of vector `i`.
proof fn lemma_sample_pos_bounds(i: int, k: int, j: int, len: int, dim: int)
    requires
        i >= 0,
        0 <= k < len,
        0 <= j < dim,
    ensures
        (i * len + k) * dim <= sample_pos(i, k, j, len, dim) < (i * len + k) * dim + dim,
        i * len * dim <= sample_pos(i, k, j, len, dim) < i * len * dim + len * dim,
        (i * len + k) * dim + dim <= i * len * dim + len * dim,
        (i * len + k) * dim == i * len * dim + k * dim,
{
    assert((i * len + k) * dim == i * len * dim + k * dim) by (nonlinear_arith);
    assert(k * dim + dim <= len * dim) by (nonlinear_arith)
        requires
            k + 1 <= len,
            dim > 0,
    ;
    assert(0 <= k * dim) by (nonlinear_arith)
        requires
            k >= 0,
            dim > 0,
    ;
}

/// Reading `num` vectors of `len` lists of `dim` integers one after the other uses each
/// position below `num len dim` for exactly one entry: different entries have different
/// positions, and every position is that of an entry.
pub proof fn law_sample_positions(num: int, len: int, dim: int)
    requires
        num >= 0,
        len >= 0,
        dim >= 0,
    ensures
        forall|i1: int, k1: int, j1: int, i2: int, k2: int, j2: int|
            0 <= i1 < num && 0 <= k1 < len && 0 <= j1 < dim && 0 <= i2 < num && 0 <= k2 < len && 0
                <= j2 < dim && #[trigger] sample_pos(i1, k1, j1, len, dim) == #[trigger] sample_pos(
                i2,
                k2,
                j2,
                len,
                dim,
            ) ==> i1 == i2 && k1 == k2 && j1 == j2,
        forall|t: int| 0 <= t < num * len * dim ==> #[trigger] is_entry_position(t, num, len, dim),
{
    assert forall|i1: int, k1: int, j1: int, i2: int, k2: int, j2: int|
        0 <= i1 < num && 0 <= k1 < len && 0 <= j1 < dim && 0 <= i2 < num && 0 <= k2 < len && 0
            <= j2 < dim && #[trigger] sample_pos(i1, k1, j1, len, dim) == #[trigger] sample_pos(
            i2,
            k2,
            j2,
            len,
            dim,
        ) implies i1 == i2 && k1 == k2 && j1 == j2 by {
        let p = sample_pos(i1, k1, j1, len, dim);
        assert(0 <= i1 * len + k1 && 0 <= i2 * len + k2) by (nonlinear_arith)
            requires
                i1 >= 0,
                i2 >= 0,
                k1 >= 0,
                k2 >= 0,
                len >= 0,
        ;
        lemma_fundamental_div_mod_converse(p, dim, i1 * len + k1, j1);
        lemma_fundamental_div_mod_converse(p, dim, i2 * len + k2, j2);
        lemma_fundamental_div_mod_converse(i1 * len + k1, len, i1, k1);
        lemma_fundamental_div_mod_converse(i2 * len + k2, len, i2, k2);
    }
    assert forall|t: int| 0 <= t < num * len * dim implies #[trigger] is_entry_position(
        t,
        num,
        len,
        dim,
    ) by {
        assert(dim > 0 && len > 0) by (nonlinear_arith)
            requires
                0 <= t < num * len * dim,
                num >= 0,
                len >= 0,
                dim >= 0,
        ;
        lemma_fundamental_div_mod(t, dim);
        let u = t / dim;
        let j = t % dim;
        lemma_fundamental_div_mod(u, len);
        let i = u / len;
        let k = u % len;
        assert(u >= 0) by {
            lemma_div_pos_is_pos(t, dim);
        }
        assert(i >= 0) by {
            lemma_div_pos_is_pos(u, len);
        }
        assert(i < num) by (nonlinear_arith)
            requires
                t == dim * u + j,
                u == len * i + k,
                0 <= j,
                0 <= k,
                t < num * len * dim,
                dim > 0,
                len > 0,
        ;
        assert(t == sample_pos(i, k, j, len, dim)) by (nonlinear_arith)
            requires
                t == dim * u + j,
                u == len * i + k,
        ;
    }
}

/// `num` vectors of `len` lists of `dim` integers drawn uniformly from `[lo, hi)`, one draw
/// per entry and in the order of their positions: entry `(i, k, j)` is the draw at position
/// `sample_pos(i, k, j)` among the `num len dim` draws appended to `log`.
fn draw_samples(
    rng: &mut StdRng,
    num: usize,
    len: usize,
    dim: usize,
    lo: i128,
    hi: i128,
    log: &mut DrawLog,
) -> (r: Vec<Vec<Vec<i128>>>)
    requires
        lo < hi,
    ensures
        samples_shaped(r@, num as nat, len as nat, dim as nat),
        samples_within(r@, lo as int, hi - 1),
        final(log).draws().len() == old(log).draws().len() + num * len * dim,
        forall|t: int| 0 <= t < old(log).draws().len() ==> final(log).draws()[t] == old(log).draws()[t],
        forall|i: int, k: int, j: int|
            0 <= i < num && 0 <= k < len && 0 <= j < dim ==> #[trigger] r@[i]@[k]@[j]
                == final(log).draws()[old(log).draws().len() + sample_pos(i, k, j, len as int, dim as int)],
{
    let ghost start = log.draws();
    let ghost b0 = start.len() as int;
    let ghost (ln, dm) = (len as int, dim as int);
    let mut out: Vec<Vec<Vec<i128>>> = Vec::new();
    let mut i: usize = 0;
    proof {
        assert(0 * ln * dm == 0) by (nonlinear_arith);
    }
    while i < num
        invariant
            lo < hi,
            0 <= i <= num,
            ln == len,
            dm == dim,
            b0 == start.len(),
            samples_shaped(out@, i as nat, len as nat, dim as nat),
            samples_within(out@, lo as int, hi - 1),
            log.draws().len() == b0 + i * ln * dm,
            forall|t: int| 0 <= t < b0 ==> log.draws()[t] == start[t],
            forall|a: int, k: int, j: int|
                0 <= a < i && 0 <= k < len && 0 <= j < dim ==> #[trigger] out@[a]@[k]@[j]
                    == log.draws()[b0 + sample_pos(a, k, j, ln, dm)],
        decreases num - i,
    {
        let ghost before_i = log.draws();
        let mut v: Vec<Vec<i128>> = Vec::new();
        let mut k: usize = 0;
        proof {
            assert(0 * dm == 0) by (nonlinear_arith);
        }
        while k < len
            invariant
                lo < hi,
                0 <= i < num,
                0 <= k <= len,
                ln == len,
                dm == dim,
                before_i.len() == b0 + i * ln * dm,
                log.draws().len() == before_i.len() + k * dm,
                forall|t: int| 0 <= t < before_i.len() ==> log.draws()[t] == before_i[t],
                v@.len() == k,
                forall|b: int| 0 <= b < k ==> (#[trigger] v@[b])@.len() == dim,
                forall|b: int, j: int|
                    0 <= b < k && 0 <= j < v@[b]@.len() ==> lo <= #[trigger] v@[b]@[j] < hi,
                forall|b: int, j: int|
                    0 <= b < k && 0 <= j < dim ==> #[trigger] v@[b]@[j] == log.draws()[b0
                        + sample_pos(i as int, b, j, ln, dm)],
            decreases len - k,
        {
            let ghost before_k = log.draws();
            let mut c: Vec<i128> = Vec::new();
            let mut j: usize = 0;
            while j < dim
                invariant
                    lo < hi,
                    0 <= j <= dim,
                    c@.len() == j,
                    forall|t: int| 0 <= t < j ==> lo <= #[trigger] c@[t] < hi,
                    log.draws().len() == before_k.len() + j,
                    forall|t: int| 0 <= t < before_k.len() ==> log.draws()[t] == before_k[t],
                    forall|t: int| 0 <= t < j ==> #[trigger] c@[t] == log.draws()[before_k.len() + t],
                decreases dim - j,
            {
                let x = draw_uniform_i128(rng, lo, hi, log);
                c.push(x);
                j += 1;
            }
            let ghost vb = v@;
            v.push(c);
            proof {
                assert forall|b: int, j: int|
                    0 <= b < k + 1 && 0 <= j < dim implies #[trigger] v@[b]@[j] == log.draws()[b0
                    + sample_pos(i as int, b, j, ln, dm)] by {
                    lemma_sample_pos_bounds(i as int, b, j, ln, dm);
                    assert((i * ln + k) * dm == i * ln * dm + k * dm) by (nonlinear_arith);
                    if b < k {
                        assert(v@[b] == vb[b]);
                        assert((i * ln + b) * dm + dm <= (i * ln + k) * dm) by (nonlinear_arith)
                            requires
                                b + 1 <= k,
                                dm >= 0,
                        ;
                        assert(b0 + sample_pos(i as int, b, j, ln, dm) < before_k.len());
                    } else {
                        assert(b == k);
                        assert(v@[b]@ == c@);
                        assert(sample_pos(i as int, b, j, ln, dm) == (i * ln + k) * dm + j);
                        assert(before_k.len() + j == b0 + sample_pos(i as int, b, j, ln, dm));
                    }
                }
                assert(k * dm + dm == (k + 1) * dm) by (nonlinear_arith);
            }
            k += 1;
        }
        let ghost ob = out@;
        out.push(v);
        proof {
            assert(len * dm == ln * dm);
            assert(i * ln * dm + ln * dm == (i + 1) * ln * dm) by (nonlinear_arith);
            assert forall|a: int| 0 <= a < i + 1 implies (#[trigger] out@[a])@.len() == len by {
                if a < i {
                    assert(out@[a] == ob[a]);
                }
            }
            assert forall|a: int, b: int| 0 <= a < i + 1 && 0 <= b < len implies (#[trigger] out@[
                a
            ]@[b])@.len() == dim by {
                if a < i {
                    assert(out@[a] == ob[a]);
                }
            }
            assert forall|a: int, b: int, t: int|
                0 <= a < out@.len() && 0 <= b < out@[a]@.len() && 0 <= t < out@[a]@[b]@.len()
                    implies lo <= #[trigger] out@[a]@[b]@[t] <= hi - 1 by {
                if a < i {
                    assert(out@[a] == ob[a]);
                }
            }
            assert forall|a: int, b: int, j: int|
                0 <= a < i + 1 && 0 <= b < len && 0 <= j < dim implies #[trigger] out@[a]@[b]@[j]
                == log.draws()[b0 + sample_pos(a, b, j, ln, dm)] by {
                lemma_sample_pos_bounds(a, b, j, ln, dm);
                if a < i {
                    assert(out@[a] == ob[a]);
                    assert(a * ln * dm + ln * dm <= i * ln * dm) by (nonlinear_arith)
                        requires
                            a + 1 <= i,
                            ln >= 0,
                            dm >= 0,
                    ;
                }
            }
        }
        i += 1;
    }
    out
}

impl<R: PolyRing> Witness<R> where R::BaseRing: WithSignedRepresentative {
    /// The range `[-linf_bound, linf_bound)` that the coefficients of a random witness are
    /// drawn from, as its two ends.
    pub fn sample_range(linf_bound: i128) -> (r: (i128, i128))
        requires
            linf_bound > 0,
        ensures
            r.0 == -linf_bound && r.1 == linf_bound,
    {
        (-linf_bound, linf_bound)
    }

    /// The witness of `num_witnesses` vectors of `witness_len` polynomials whose coefficient
    /// `j` of polynomial `k` of vector `i` is the residue of `samples[i][k][j]`.
    pub fn from_samples(num_witnesses: usize, witness_len: usize, samples: &Vec<Vec<Vec<i128>>>) -> (w:
        Self)
        requires
            R::params(),
            samples_shaped(samples@, num_witnesses as nat, witness_len as nat, R::dim()),
            samples_within(
                samples@,
                R::BaseRing::repr_min(),
                R::BaseRing::repr_max(),
            ),
        ensures
            w.s@.len() == num_witnesses,
            uniform_vectors(w.s@, witness_len as nat),
            witness_wf(w),
            witness_of_samples(w, samples@),
    {
        proof {
            R::lemma_params();
        }
        let ghost m = R::BaseRing::modulus();
        let dim = R::dimension();
        let mut s: Vec<Vec<R>> = Vec::new();
        let mut i: usize = 0;
        while i < num_witnesses
            invariant
                R::params(),
                dim == R::dim(),
                m == R::BaseRing::modulus(),
                m >= 2,
                samples_shaped(samples@, num_witnesses as nat, witness_len as nat, R::dim()),
                samples_within(samples@, R::BaseRing::repr_min(), R::BaseRing::repr_max()),
                0 <= i <= num_witnesses,
                s@.len() == i,
                forall|a: int| 0 <= a < i ==> (#[trigger] s@[a])@.len() == witness_len,
                forall|a: int, k: int|
                    0 <= a < i && 0 <= k < witness_len ==> (#[trigger] s@[a]@[k]).wf() && vals(
                        s@[a]@[k].coeffs(),
                    ) == Seq::new(R::dim(), |j: int| (samples@[a]@[k]@[j] as int) % m),
            decreases num_witnesses - i,
        {
            let mut v: Vec<R> = Vec::new();
            let mut k: usize = 0;
            while k < witness_len
                invariant
                    R::params(),
                    dim == R::dim(),
                    m == R::BaseRing::modulus(),
                    m >= 2,
                    samples_shaped(samples@, num_witnesses as nat, witness_len as nat, R::dim()),
                    samples_within(samples@, R::BaseRing::repr_min(), R::BaseRing::repr_max()),
                    0 <= i < num_witnesses,
                    0 <= k <= witness_len,
                    v@.len() == k,
                    forall|b: int|
                        0 <= b < k ==> (#[trigger] v@[b]).wf() && vals(v@[b].coeffs()) == Seq::new(
                            R::dim(),
                            |j: int| (samples@[i as int]@[b]@[j] as int) % m,
                        ),
                decreases witness_len - k,
            {
                let mut coeffs: Vec<R::BaseRing> = Vec::new();
                let mut j: usize = 0;
                while j < dim
                    invariant
                        R::params(),
                        dim == R::dim(),
                        m == R::BaseRing::modulus(),
                        m >= 2,
                        samples_shaped(samples@, num_witnesses as nat, witness_len as nat, R::dim()),
                        samples_within(samples@, R::BaseRing::repr_min(), R::BaseRing::repr_max()),
                        0 <= i < num_witnesses,
                        0 <= k < witness_len,
                        0 <= j <= dim,
                        coeffs@.len() == j,
                        forall|c: int| 0 <= c < j ==> (#[trigger] coeffs@[c]).wf(),
                        forall|c: int|
                            0 <= c < j ==> (#[trigger] coeffs@[c]).val() == (samples@[i as int]@[k as int]@[c]
                                as int) % m,
                    decreases dim - j,
                {
                    let x = samples[i][k][j];
                    proof {
                        assert(samples@[i as int]@[k as int]@[j as int] == x);
                    }
                    let c = R::BaseRing::from_signed_representative(x);
                    coeffs.push(c);
                    j += 1;
                }
                let p = R::try_from_coefficients(coeffs.as_slice()).unwrap();
                proof {
                    assert(vals(p.coeffs()) =~= Seq::new(
                        R::dim(),
                        |j: int| (samples@[i as int]@[k as int]@[j] as int) % m,
                    ));
                }
                v.push(p);
                k += 1;
            }
            s.push(v);
            i += 1;
        }
        let w = Witness { s };
        proof {
            assert(uniform_vectors(w.s@, witness_len as nat));
        }
        w
    }

    /// `num_witnesses` vectors of `witness_len` polynomials whose coefficients are the
    /// residues of integers drawn uniformly from `[-linf_bound, linf_bound)`: the witness that
    /// `from_samples` makes of the drawn integers. The bound must be positive and its integers
    /// must have signed representatives.
    pub fn rand(num_witnesses: usize, witness_len: usize, linf_bound: i128, rng: &mut StdRng) -> (w:
        Self)
        requires
            R::params(),
            num_witnesses > 0,
            linf_bound > 0,
            R::BaseRing::repr_min() <= -linf_bound,
            linf_bound - 1 <= R::BaseRing::repr_max(),
        ensures
            w.s@.len() == num_witnesses,
            uniform_vectors(w.s@, witness_len as nat),
            witness_wf(w),
            exists|samples: Vec<Vec<Vec<i128>>>|
                samples_shaped(samples@, num_witnesses as nat, witness_len as nat, R::dim())
                    && samples_within(samples@, -linf_bound as int, linf_bound - 1)
                    && #[trigger] witness_of_samples(w, samples@),
            forall|i: int, k: int|
                0 <= i < num_witnesses && 0 <= k < witness_len ==> small_coeffs(
                    #[trigger] w.s@[i]@[k],
                    linf_bound as int,
                ),
    {
        proof {
            R::lemma_params();
        }
        let (lo, hi) = Self::sample_range(linf_bound);
        let mut log = DrawLog::new();
        let samples = draw_samples(rng, num_witnesses, witness_len, R::dimension(), lo, hi, &mut log);
        let w = Self::from_samples(num_witnesses, witness_len, &samples);
        proof {
            let m = R::BaseRing::modulus();
            assert forall|i: int, k: int|
                0 <= i < num_witnesses && 0 <= k < witness_len implies small_coeffs(
                #[trigger] w.s@[i]@[k],
                linf_bound as int,
            ) by {
                let p = w.s@[i]@[k];
                assert forall|j: int| 0 <= j < p.coeffs().len() implies residue_of_small(
                    (#[trigger] p.coeffs()[j]).val(),
                    linf_bound as int,
                    m,
                ) by {
                    R::lemma_poly_wf(p);
                    let x = samples@[i]@[k]@[j] as int;
                    assert(vals(p.coeffs())[j] == x % m);
                    assert(-linf_bound <= x < linf_bound);
                }
            }
        }
        w
    }
}

/// A quadratic-linear constraint `sum_ij A_ij <s_i, s_j> + sum_i <phi_i, s_i> = b`.
pub struct QuadraticConstraint<R: PolyRing> {
    pub A: Option<SymmetricMatrix<R>>,
    pub phi: Vec<Vec<R>>,
    pub b: R,
}

/// The value `sum_ij A_ij <s_i, s_j> + sum_i <phi_i, s_i> - b`, by coefficient residues.
pub open spec fn quad_eval<R: PolyRing>(c: QuadraticConstraint<R>, s: Seq<Vec<R>>) -> Seq<int> {
    poly_fold(
        seq_neg(vals(c.b.coeffs()), R::BaseRing::modulus()),
        constraint_terms(c.A, c.phi@, s),
        R::dim(),
        R::BaseRing::modulus(),
    )
}

/// Adds up the terms of a constraint on `s`, starting from `start`.
fn add_terms<R: PolyRing>(
    start: R,
    A: &Option<SymmetricMatrix<R>>,
    phi: &Vec<Vec<R>>,
    s: &Vec<Vec<R>>,
) -> (res: R)
    requires
        R::params(),
        start.wf(),
        fits(*A, phi@, s@),
    ensures
        res.wf(),
        vals(res.coeffs()) == poly_fold(
            vals(start.coeffs()),
            constraint_terms(*A, phi@, s@),
            R::dim(),
            R::BaseRing::modulus(),
        ),
{
    proof {
        R::lemma_params();
    }
    let ghost m = R::BaseRing::modulus();
    let ghost st = vals(start.coeffs());
    let inner_prods = inner_products(s);
    let mut res = start;
    let ghost mut done: Seq<Seq<int>> = Seq::empty();
    proof {
        R::lemma_poly_wf(start);
        assert(poly_fold(st, done, R::dim(), m) =~= st) by {
            assert forall|c: int| 0 <= c < R::dim() implies #[trigger] poly_fold(
                st,
                done,
                R::dim(),
                m,
            )[c] == st[c] by {
                R::BaseRing::lemma_wf(start.coeffs()[c]);
                lemma_small_mod(st[c] as nat, m as nat);
            }
        }
    }
    if let Some(a) = A {
        let r = a.size();
        let ghost qt = quad_terms(*a, s@);
        let mut i: usize = 0;
        while i < r
            invariant
                R::params(),
                m == R::BaseRing::modulus(),
                m >= 2,
                fits(*A, phi@, s@),
                *A == Some(*a),
                r == a.dim(),
                qt == quad_terms(*a, s@),
                inner_prods.wf(),
                inner_prods.dim() == s@.len(),
                forall|i: int, j: int|
                    0 <= i < s@.len() && 0 <= j < s@.len() ==> (#[trigger] inner_prods.entry(
                        i,
                        j,
                    )).wf() && vals(inner_prods.entry(i, j).coeffs()) == gram_entry(s@, i, j),
                0 <= i <= r,
                done == qt.subrange(0, i * r),
                res.wf(),
                vals(res.coeffs()) == poly_fold(st, done, R::dim(), m),
            decreases r - i,
        {
            let mut j: usize = 0;
            proof {
                assert(i * r + r <= r * r) by (nonlinear_arith)
                    requires
                        i < r,
                ;
                assert(i * r + r == (i + 1) * r) by (nonlinear_arith);
            }
            while j < r
                invariant
                    R::params(),
                    m == R::BaseRing::modulus(),
                    m >= 2,
                    fits(*A, phi@, s@),
                    *A == Some(*a),
                    r == a.dim(),
                    qt == quad_terms(*a, s@),
                    inner_prods.wf(),
                    inner_prods.dim() == s@.len(),
                    forall|i: int, j: int|
                        0 <= i < s@.len() && 0 <= j < s@.len() ==> (#[trigger] inner_prods.entry(
                            i,
                            j,
                        )).wf() && vals(inner_prods.entry(i, j).coeffs()) == gram_entry(s@, i, j),
                    0 <= i < r,
                    i * r + r <= r * r,
                    0 <= j <= r,
                    done == qt.subrange(0, i * r + j),
                    res.wf(),
                    vals(res.coeffs()) == poly_fold(st, done, R::dim(), m),
                decreases r - j,
            {
                let t = a.at(i, j).mul(inner_prods.at(i, j));
                proof {
                    let idx = i * r + j;
                    lemma_fundamental_div_mod_converse(idx as int, r as int, i as int, j as int);
                    R::lemma_poly_wf(t);
                    assert(qt[idx as int] == vals(t.coeffs()));
                    assert(qt.subrange(0, idx + 1) =~= done.push(vals(t.coeffs())));
                    lemma_fold_push(st, done, vals(t.coeffs()), R::dim(), m);
                    done = done.push(vals(t.coeffs()));
                }
                res = res.add(&t);
                j += 1;
            }
            i += 1;
        }
        proof {
            assert(done =~= qt);
        }
    }
    let ghost lt = linear_terms(phi@, s@);
    let ghost prefix = done;
    proof {
        assert(constraint_terms(*A, phi@, s@) =~= prefix + lt);
    }
    let mut i: usize = 0;
    while i < phi.len()
        invariant
            R::params(),
            m == R::BaseRing::modulus(),
            m >= 2,
            fits(*A, phi@, s@),
            lt == linear_terms(phi@, s@),
            0 <= i <= phi@.len(),
            done == prefix + lt.subrange(0, i as int),
            res.wf(),
            vals(res.coeffs()) == poly_fold(st, done, R::dim(), m),
        decreases phi@.len() - i,
    {
        proof {
            assert(phi@[i as int]@.len() == s@[i as int]@.len());
            assert(s@[i as int]@.len() == s@[0]@.len());
        }
        let d = dot(&phi[i], &s[i]);
        proof {
            R::lemma_poly_wf(d);
            assert(prefix + lt.subrange(0, i + 1int) =~= done.push(vals(d.coeffs())));
            lemma_fold_push(st, done, vals(d.coeffs()), R::dim(), m);
            done = done.push(vals(d.coeffs()));
        }
        res = res.add(&d);
        i += 1;
    }
    proof {
        assert(done =~= constraint_terms(*A, phi@, s@));
    }
    res
}

impl<R: PolyRing> QuadraticConstraint<R> {
    /// The constraint with quadratic part `A`, linear part `phi` (at least one vector) and
    /// right-hand side `b`.
    pub fn new(A: SymmetricMatrix<R>, phi: Vec<Vec<R>>, b: R) -> (c: Self)
        requires
            phi@.len() > 0,
            phi@.len() == A.dim(),
            same_lengths(phi@),
        ensures
            c.A == Some(A),
            c.phi@ == phi@,
            c.b == b,
    {
        Self { A: Some(A), phi, b }
    }

    /// The linear constraint `sum_i <phi_i, s_i> = b` (at least one vector in `phi`).
    pub fn new_linear(phi: Vec<Vec<R>>, b: R) -> (c: Self)
        requires
            phi@.len() > 0,
            same_lengths(phi@),
        ensures
            c.A is None,
            c.phi@ == phi@,
            c.b == b,
    {
        Self { A: None, phi, b }
    }

    /// The linear constraint `sum_i <phi_i, s_i> = 0`.
    pub fn new_homogeneous_linear(phi: Vec<Vec<R>>) -> (c: Self)
        requires
            R::params(),
            phi@.len() > 0,
            same_lengths(phi@),
        ensures
            c.A is None,
            c.phi@ == phi@,
            vals(c.b.coeffs()) == constant_poly(0, R::dim()),
            c.b.wf(),
    {
        Self::new_linear(phi, R::zero())
    }

    /// The homogeneous constraint with a random quadratic part of size `r` and `r` copies of
    /// one random vector of length `n` as linear part (at least one).
    pub fn new_dummy_homogeneous(r: usize, n: usize, rng: &mut StdRng) -> (c: Self)
        requires
            R::params(),
            r > 0,
        ensures
            c.A matches Some(a) && a.wf() && a.dim() == r && forall|i: int, j: int|
                0 <= i < r && 0 <= j < r ==> (#[trigger] a.entry(i, j)).wf(),
            c.phi@.len() == r,
            forall|i: int| 0 <= i < r ==> (#[trigger] c.phi@[i])@ == c.phi@[0]@,
            c.phi@[0]@.len() == n,
            forall|k: int| 0 <= k < n ==> (#[trigger] c.phi@[0]@[k]).wf(),
            c.b.wf(),
            vals(c.b.coeffs()) == constant_poly(0, R::dim()),
    {
        let a = rand_matrix::<R>(r, rng);
        let v = rand_vector::<R>(n, rng);
        let phi = repeat_vector(&v, r);
        Self::new(a, phi, R::zero())
    }

    /// The constraint `0 = 0` on `r` vectors of length `n`.
    pub fn new_empty(r: usize, n: usize) -> (c: Self)
        requires
            R::params(),
        ensures
            c.A is None,
            c.phi@.len() == r,
            uniform_vectors(c.phi@, n as nat),
            forall|i: int, k: int|
                0 <= i < r && 0 <= k < n ==> vals((#[trigger] c.phi@[i]@[k]).coeffs())
                    == constant_poly(0, R::dim()),
            c.b.wf(),
            vals(c.b.coeffs()) == constant_poly(0, R::dim()),
    {
        let mut phi: Vec<Vec<R>> = Vec::new();
        let mut i: usize = 0;
        while i < r
            invariant
                R::params(),
                0 <= i <= r,
                phi@.len() == i,
                uniform_vectors(phi@, n as nat),
                forall|a: int, k: int|
                    0 <= a < i && 0 <= k < n ==> vals((#[trigger] phi@[a]@[k]).coeffs())
                        == constant_poly(0, R::dim()),
            decreases r - i,
        {
            let mut v: Vec<R> = Vec::new();
            let mut k: usize = 0;
            while k < n
                invariant
                    R::params(),
                    0 <= k <= n,
                    v@.len() == k,
                    forall|b: int| 0 <= b < k ==> (#[trigger] v@[b]).wf(),
                    forall|b: int|
                        0 <= b < k ==> vals((#[trigger] v@[b]).coeffs()) == constant_poly(0, R::dim()),
                decreases n - k,
            {
                v.push(R::zero());
                k += 1;
            }
            phi.push(v);
            i += 1;
        }
        Self { A: None, phi, b: R::zero() }
    }

    /// `sum_ij A_ij <s_i, s_j> + sum_i <phi_i, s_i> - b` on the witness.
    pub fn eval(&self, witness: &Witness<R>) -> (res: R)
        requires
            R::params(),
            self.b.wf(),
            fits(self.A, self.phi@, witness.s@),
        ensures
            res.wf(),
            vals(res.coeffs()) == quad_eval(*self, witness.s@),
    {
        let start = self.b.neg();
        add_terms(start, &self.A, &self.phi, &witness.s)
    }

    /// Whether the witness satisfies the constraint.
    pub fn is_valid_witness(&self, witness: &Witness<R>) -> (ok: bool)
        requires
            R::params(),
            self.b.wf(),
            fits(self.A, self.phi@, witness.s@),
        ensures
            ok == (quad_eval(*self, witness.s@) == constant_poly(0, R::dim())),
    {
        self.eval(witness).is_zero()
    }
}

/// A quadratic-linear constraint on the constant coefficient only:
/// `ct(sum_ij A_ij <s_i, s_j> + sum_i <phi_i, s_i>) = b`.
pub struct ConstantQuadraticConstraint<R: PolyRing> {
    pub A: Option<SymmetricMatrix<R>>,
    pub phi: Vec<Vec<R>>,
    pub b: R::BaseRing,
}

/// The constant coefficient of `sum_ij A_ij <s_i, s_j> + sum_i <phi_i, s_i>`, minus `b`.
pub open spec fn const_eval<R: PolyRing>(c: ConstantQuadraticConstraint<R>, s: Seq<Vec<R>>) -> int {
    (-c.b.val() + coeff_sum(constraint_terms(c.A, c.phi@, s), 0)) % R::BaseRing::modulus()
}

impl<R: PolyRing> ConstantQuadraticConstraint<R> {
    /// The constraint with quadratic part `A`, linear part `phi` (at least one vector) and
    /// right-hand side `b`.
    pub fn new(A: SymmetricMatrix<R>, phi: Vec<Vec<R>>, b: R::BaseRing) -> (c: Self)
        requires
            phi@.len() > 0,
            phi@.len() == A.dim(),
            same_lengths(phi@),
        ensures
            c.A == Some(A),
            c.phi@ == phi@,
            c.b == b,
    {
        Self { A: Some(A), phi, b }
    }

    /// The linear constraint `ct(sum_i <phi_i, s_i>) = b` (at least one vector in `phi`).
    pub fn new_linear(phi: Vec<Vec<R>>, b: R::BaseRing) -> (c: Self)
        requires
            phi@.len() > 0,
            same_lengths(phi@),
        ensures
            c.A is None,
            c.phi@ == phi@,
            c.b == b,
    {
        Self { A: None, phi, b }
    }

    /// The constant coefficient of the constraint's polynomial on the witness, minus `b`.
    pub fn eval(&self, witness: &Witness<R>) -> (res: R::BaseRing)
        requires
            R::params(),
            self.b.wf(),
            fits(self.A, self.phi@, witness.s@),
        ensures
            res.wf(),
            res.val() == const_eval(*self, witness.s@),
    {
        proof {
            R::lemma_params();
        }
        let ghost m = R::BaseRing::modulus();
        let zero = R::zero();
        let total = add_terms(zero, &self.A, &self.phi, &witness.s);
        let coeffs = total.coefficients();
        let nb = self.b.neg();
        proof {
            R::lemma_poly_wf(total);
            let terms = constraint_terms(self.A, self.phi@, witness.s@);
            let sum = coeff_sum(terms, 0);
            // total[0] = (0 + sum) % m; result = ((-b) % m + sum % m) % m = (-b + sum) % m
            lemma_add_mod_noop(-self.b.val(), sum, m);
            R::BaseRing::lemma_wf(coeffs@[0]);
            assert(coeffs@[0].val() == vals(total.coeffs())[0]);
            assert(coeffs@[0].val() == sum % m);
        }
        nb.add(&coeffs[0])
    }

    /// Whether the witness satisfies the constraint.
    pub fn is_valid_witness(&self, witness: &Witness<R>) -> (ok: bool)
        requires
            R::params(),
            self.b.wf(),
            fits(self.A, self.phi@, witness.s@),
        ensures
            ok == (const_eval(*self, witness.s@) == 0),
    {
        self.eval(witness).is_zero()
    }
}

/// The indices `k < n` with `p(k)`, in increasing order.
pub open spec fn indices_where(n: nat, p: spec_fn(int) -> bool) -> Seq<usize>
    decreases n,
{
    if n == 0 {
        Seq::empty()
    } else if p(n - 1) {
        indices_where((n - 1) as nat, p).push((n - 1) as usize)
    } else {
        indices_where((n - 1) as nat, p)
    }
}

/// Exactly one index `i` qualifies exactly when the list of qualifying indices is `[i]`.
pub proof fn lemma_indices_where_single(n: nat, p: spec_fn(int) -> bool, i: int)
    requires
        0 <= i < n,
        p(i),
        forall|k: int| 0 <= k < n && k != i ==> !#[trigger] p(k),
    ensures
        indices_where(n, p) == seq![i as usize],
    decreases n,
{
    if n - 1 == i {
        lemma_indices_where_empty((n - 1) as nat, p);
        assert(indices_where((n - 1) as nat, p).len() == 0);
        assert(indices_where(n, p) =~= seq![i as usize]);
    } else {
        lemma_indices_where_single((n - 1) as nat, p, i);
    }
}

/// The quadratic-linear constraints that a witness fails are exactly `[i]` when it satisfies
/// every other constraint and fails constraint `i`.
pub proof fn law_unsatisfied_exactly<R: PolyRing>(x: Instance<R>, w: Witness<R>, i: int)
    requires
        0 <= i < x.quad_dot_prod_funcs@.len(),
        quad_eval(x.quad_dot_prod_funcs@[i], w.s@) != constant_poly(0, R::dim()),
        forall|k: int|
            0 <= k < x.quad_dot_prod_funcs@.len() && k != i ==> quad_eval(
                #[trigger] x.quad_dot_prod_funcs@[k],
                w.s@,
            ) == constant_poly(0, R::dim()),
    ensures
        unsatisfied_constraints(x, w) == seq![i as usize],
{
    let u = |k: int| quad_eval(x.quad_dot_prod_funcs@[k], w.s@) != constant_poly(0, R::dim());
    assert forall|k: int| 0 <= k < x.quad_dot_prod_funcs@.len() && k != i implies !#[trigger] u(k) by {
        assert(quad_eval(x.quad_dot_prod_funcs@[k], w.s@) == constant_poly(0, R::dim()));
    }
    lemma_indices_where_single(x.quad_dot_prod_funcs@.len(), u, i);
    assert(unsatisfied_constraints(x, w) =~= indices_where(x.quad_dot_prod_funcs@.len(), u));
}

/// The constant-coefficient constraints that a witness fails are exactly `[i]` when it
/// satisfies every other one and fails constraint `i`.
pub proof fn law_unsatisfied_const_exactly<R: PolyRing>(x: Instance<R>, w: Witness<R>, i: int)
    requires
        0 <= i < x.ct_quad_dot_prod_funcs@.len(),
        const_eval(x.ct_quad_dot_prod_funcs@[i], w.s@) != 0,
        forall|k: int|
            0 <= k < x.ct_quad_dot_prod_funcs@.len() && k != i ==> const_eval(
                #[trigger] x.ct_quad_dot_prod_funcs@[k],
                w.s@,
            ) == 0,
    ensures
        unsatisfied_const_constraints(x, w) == seq![i as usize],
{
    let u = |k: int| const_eval(x.ct_quad_dot_prod_funcs@[k], w.s@) != 0;
    assert forall|k: int| 0 <= k < x.ct_quad_dot_prod_funcs@.len() && k != i implies !#[trigger] u(k) by {
        assert(const_eval(x.ct_quad_dot_prod_funcs@[k], w.s@) == 0);
    }
    lemma_indices_where_single(x.ct_quad_dot_prod_funcs@.len(), u, i);
    assert(unsatisfied_const_constraints(x, w) =~= indices_where(x.ct_quad_dot_prod_funcs@.len(), u));
}

/// No index qualifies exactly when the list of qualifying indices is empty.
pub proof fn lemma_indices_where_empty(n: nat, p: spec_fn(int) -> bool)
    ensures
        indices_where(n, p).len() == 0 <==> forall|k: int| 0 <= k < n ==> !#[trigger] p(k),
    decreases n,
{
    if n > 0 {
        lemma_indices_where_empty((n - 1) as nat, p);
        if p(n - 1) {
            assert(indices_where(n, p).len() == indices_where((n - 1) as nat, p).len() + 1);
        } else {
            assert(indices_where(n, p) == indices_where((n - 1) as nat, p));
            assert((forall|k: int| 0 <= k < n ==> !#[trigger] p(k)) <==> (forall|k: int|
                0 <= k < n - 1 ==> !#[trigger] p(k))) by {
                if forall|k: int| 0 <= k < n - 1 ==> !#[trigger] p(k) {
                    assert forall|k: int| 0 <= k < n implies !#[trigger] p(k) by {
                        if k < n - 1 {
                        }
                    }
                }
            }
        }
    }
}

/// Why a witness or an instance is refused.
#[derive(Debug)]
pub enum RelationError {
    /// The number of quadratic-linear constraints differs from the index.
    ConstraintCount,
    /// The number of constant-coefficient constraints differs from the index.
    ConstantConstraintCount,
    /// These quadratic-linear constraints do not have the index's shape.
    MalformedConstraints(Vec<usize>),
    /// These constant-coefficient constraints do not have the index's shape.
    MalformedConstantConstraints(Vec<usize>),
    /// The number of witness vectors differs from the index.
    WitnessCount,
    /// These witness vectors do not have the index's length.
    WitnessLengths(Vec<usize>),
    /// The squared norm of the witness (saturated at `u128::MAX`) exceeds the bound.
    NormTooLarge(u128),
    /// Constraints of both kinds are not satisfied.
    UnsatisfiedBoth(Vec<usize>, Vec<usize>),
    /// These quadratic-linear constraints are not satisfied.
    UnsatisfiedConstraints(Vec<usize>),
    /// These constant-coefficient constraints are not satisfied.
    UnsatisfiedConstantConstraints(Vec<usize>),
}

/// The shape of the principal relation.
pub struct Index<R: PolyRing> {
    /// The number of witness vectors.
    pub r: usize,
    /// The number of polynomials in a witness vector.
    pub n: usize,
    /// The largest squared Euclidean norm of the concatenated witness vectors (the integer part
    /// of a real bound).
    pub norm_bound_squared: i128,
    /// The number of quadratic-linear constraints.
    pub num_constraints: usize,
    /// The number of constant-coefficient constraints.
    pub num_constant_constraints: usize,
    pub _marker: PhantomData<R>,
}

/// An instance: constraints of both kinds.
pub struct Instance<R: PolyRing> {
    pub quad_dot_prod_funcs: Vec<QuadraticConstraint<R>>,
    pub ct_quad_dot_prod_funcs: Vec<ConstantQuadraticConstraint<R>>,
}

impl<R: PolyRing> Instance<R> {
    /// The number of quadratic-linear constraints.
    pub fn num_constraints(&self) -> (n: usize)
        ensures
            n == self.quad_dot_prod_funcs@.len(),
    {
        self.quad_dot_prod_funcs.len()
    }

    /// The number of constant-coefficient constraints.
    pub fn num_const_constraints(&self) -> (n: usize)
        ensures
            n == self.ct_quad_dot_prod_funcs@.len(),
    {
        self.ct_quad_dot_prod_funcs.len()
    }
}

/// A constraint with quadratic part `A` and linear part `phi` has the index's shape.
pub open spec fn shape_ok<R: PolyRing>(
    idx: Index<R>,
    A: Option<SymmetricMatrix<R>>,
    phi: Seq<Vec<R>>,
) -> bool {
    &&& phi.len() == idx.r
    &&& forall|i: int| 0 <= i < phi.len() ==> (#[trigger] phi[i])@.len() == idx.n
    &&& A matches Some(a) ==> a.dim() == idx.r
}

/// The quadratic-linear constraints without the index's shape.
pub open spec fn malformed_constraints<R: PolyRing>(idx: Index<R>, x: Instance<R>) -> Seq<usize> {
    indices_where(
        x.quad_dot_prod_funcs@.len(),
        |k: int| !shape_ok(idx, x.quad_dot_prod_funcs@[k].A, x.quad_dot_prod_funcs@[k].phi@),
    )
}

/// The constant-coefficient constraints without the index's shape.
pub open spec fn malformed_const_constraints<R: PolyRing>(idx: Index<R>, x: Instance<R>) -> Seq<
    usize,
> {
    indices_where(
        x.ct_quad_dot_prod_funcs@.len(),
        |k: int| !shape_ok(idx, x.ct_quad_dot_prod_funcs@[k].A, x.ct_quad_dot_prod_funcs@[k].phi@),
    )
}

/// The witness vectors without the index's length.
pub open spec fn malformed_witness_vectors<R: PolyRing>(idx: Index<R>, w: Witness<R>) -> Seq<usize> {
    indices_where(w.s@.len(), |k: int| w.s@[k]@.len() != idx.n)
}

/// The instance has the index's shape.
pub open spec fn instance_ok<R: PolyRing>(idx: Index<R>, x: Instance<R>) -> bool {
    &&& x.quad_dot_prod_funcs@.len() == idx.num_constraints
    &&& x.ct_quad_dot_prod_funcs@.len() == idx.num_constant_constraints
    &&& malformed_constraints(idx, x).len() == 0
    &&& malformed_const_constraints(idx, x).len() == 0
}

/// The witness has the index's shape and norm bound.
pub open spec fn witness_ok<R: PolyRing>(idx: Index<R>, w: Witness<R>) -> bool where
    R::BaseRing: WithSignedRepresentative,
 {
    &&& w.s@.len() == idx.r
    &&& malformed_witness_vectors(idx, w).len() == 0
    &&& vecs_sq_norm(w.s@) <= idx.norm_bound_squared
}

/// Every polynomial of the instance is well formed, and so are its matrices.
pub open spec fn instance_wf<R: PolyRing>(x: Instance<R>) -> bool {
    &&& forall|k: int|
        0 <= k < x.quad_dot_prod_funcs@.len() ==> constraint_wf(
            (#[trigger] x.quad_dot_prod_funcs@[k]).A,
            x.quad_dot_prod_funcs@[k].phi@,
        ) && x.quad_dot_prod_funcs@[k].b.wf()
    &&& forall|k: int|
        0 <= k < x.ct_quad_dot_prod_funcs@.len() ==> constraint_wf(
            (#[trigger] x.ct_quad_dot_prod_funcs@[k]).A,
            x.ct_quad_dot_prod_funcs@[k].phi@,
        ) && x.ct_quad_dot_prod_funcs@[k].b.wf()
}

/// The matrix has the shape of a lower triangle and every polynomial is well formed.
pub open spec fn constraint_wf<R: PolyRing>(A: Option<SymmetricMatrix<R>>, phi: Seq<Vec<R>>) -> bool {
    &&& forall|i: int, k: int| 0 <= i < phi.len() && 0 <= k < phi[i]@.len() ==> (#[trigger] phi[i]@[k]).wf()
    &&& A matches Some(a) ==> a.wf() && forall|i: int, j: int|
        0 <= i < a.dim() && 0 <= j < a.dim() ==> (#[trigger] a.entry(i, j)).wf()
}

/// Every polynomial of the witness is well formed.
pub open spec fn witness_wf<R: PolyRing>(w: Witness<R>) -> bool {
    forall|i: int, k: int| 0 <= i < w.s@.len() && 0 <= k < w.s@[i]@.len() ==> (#[trigger] w.s@[i]@[k]).wf()
}

/// The quadratic-linear constraints that the witness does not satisfy.
pub open spec fn unsatisfied_constraints<R: PolyRing>(x: Instance<R>, w: Witness<R>) -> Seq<usize> {
    indices_where(
        x.quad_dot_prod_funcs@.len(),
        |k: int| quad_eval(x.quad_dot_prod_funcs@[k], w.s@) != constant_poly(0, R::dim()),
    )
}

/// The constant-coefficient constraints that the witness does not satisfy.
pub open spec fn unsatisfied_const_constraints<R: PolyRing>(x: Instance<R>, w: Witness<R>) -> Seq<
    usize,
> {
    indices_where(
        x.ct_quad_dot_prod_funcs@.len(),
        |k: int| const_eval(x.ct_quad_dot_prod_funcs@[k], w.s@) != 0,
    )
}

/// The error that the instance check reports: the first check that fails, in the order
/// constraint count, constant-constraint count, constraint shapes, constant-constraint shapes.
pub open spec fn instance_error<R: PolyRing>(idx: Index<R>, x: Instance<R>, e: RelationError) -> bool {
    let counts_ok = x.quad_dot_prod_funcs@.len() == idx.num_constraints
        && x.ct_quad_dot_prod_funcs@.len() == idx.num_constant_constraints;
    match e {
        RelationError::ConstraintCount => x.quad_dot_prod_funcs@.len() != idx.num_constraints,
        RelationError::ConstantConstraintCount => x.quad_dot_prod_funcs@.len() == idx.num_constraints
            && x.ct_quad_dot_prod_funcs@.len() != idx.num_constant_constraints,
        RelationError::MalformedConstraints(v) => counts_ok && malformed_constraints(idx, x).len()
            > 0 && v@ == malformed_constraints(idx, x),
        RelationError::MalformedConstantConstraints(v) => counts_ok && malformed_constraints(
            idx,
            x,
        ).len() == 0 && malformed_const_constraints(idx, x).len() > 0 && v@
            == malformed_const_constraints(idx, x),
        _ => false,
    }
}

/// The error that the witness check reports: the first check that fails, in the order
/// number of vectors, their lengths, the norm bound.
pub open spec fn witness_error<R: PolyRing>(idx: Index<R>, w: Witness<R>, e: RelationError) -> bool where
    R::BaseRing: WithSignedRepresentative,
 {
    match e {
        RelationError::WitnessCount => w.s@.len() != idx.r,
        RelationError::WitnessLengths(v) => w.s@.len() == idx.r && malformed_witness_vectors(
            idx,
            w,
        ).len() > 0 && v@ == malformed_witness_vectors(idx, w),
        RelationError::NormTooLarge(l) => w.s@.len() == idx.r && malformed_witness_vectors(
            idx,
            w,
        ).len() == 0 && vecs_sq_norm(w.s@) > idx.norm_bound_squared && l == saturate(
            vecs_sq_norm(w.s@),
        ),
        _ => false,
    }
}

/// The error that the satisfaction check reports once the shapes are right.
pub open spec fn satisfaction_error<R: PolyRing>(x: Instance<R>, w: Witness<R>, e: RelationError) -> bool {
    let uq = unsatisfied_constraints(x, w);
    let uc = unsatisfied_const_constraints(x, w);
    match e {
        RelationError::UnsatisfiedBoth(a, b) => uq.len() > 0 && uc.len() > 0 && a@ == uq && b@ == uc,
        RelationError::UnsatisfiedConstraints(a) => uq.len() > 0 && uc.len() == 0 && a@ == uq,
        RelationError::UnsatisfiedConstantConstraints(b) => uq.len() == 0 && uc.len() > 0 && b@
            == uc,
        _ => false,
    }
}

/// Collects `k < n` with `p(k)`, where `flags` holds `p` for each `k`.
fn collect_indices(flags: &Vec<bool>, Ghost(p): Ghost<spec_fn(int) -> bool>) -> (v: Vec<usize>)
    requires
        forall|k: int| 0 <= k < flags@.len() ==> #[trigger] flags@[k] == p(k),
    ensures
        v@ == indices_where(flags@.len(), p),
{
    let mut v: Vec<usize> = Vec::new();
    let mut k: usize = 0;
    while k < flags.len()
        invariant
            0 <= k <= flags@.len(),
            forall|k: int| 0 <= k < flags@.len() ==> #[trigger] flags@[k] == p(k),
            v@ == indices_where(k as nat, p),
        decreases flags@.len() - k,
    {
        if flags[k] {
            v.push(k);
        }
        k += 1;
    }
    v
}

impl<R: PolyRing> Index<R> {
    /// The index of `r` witness vectors of `n` polynomials, squared norm at most
    /// `norm_bound_squared`, and the given numbers of constraints.
    pub fn new(
        r: usize,
        n: usize,
        norm_bound_squared: i128,
        num_constraints: usize,
        num_constant_constraints: usize,
    ) -> (idx: Self)
        ensures
            idx.r == r,
            idx.n == n,
            idx.norm_bound_squared == norm_bound_squared,
            idx.num_constraints == num_constraints,
            idx.num_constant_constraints == num_constant_constraints,
    {
        Index { r, n, norm_bound_squared, num_constraints, num_constant_constraints, _marker: PhantomData }
    }

    /// Whether `phi` and `A` have this shape.
    fn shape_matches(&self, A: &Option<SymmetricMatrix<R>>, phi: &Vec<Vec<R>>) -> (ok: bool)
        ensures
            ok == shape_ok(*self, *A, phi@),
    {
        if phi.len() != self.r {
            return false;
        }
        let mut i: usize = 0;
        while i < phi.len()
            invariant
                0 <= i <= phi@.len(),
                forall|k: int| 0 <= k < i ==> (#[trigger] phi@[k])@.len() == self.n,
            decreases phi@.len() - i,
        {
            if phi[i].len() != self.n {
                return false;
            }
            i += 1;
        }
        match A {
            Some(a) => a.size() == self.r,
            None => true,
        }
    }

    /// Whether a quadratic-linear constraint has this shape.
    pub fn is_wellformed_constraint(&self, c: &QuadraticConstraint<R>) -> (ok: bool)
        ensures
            ok == shape_ok(*self, c.A, c.phi@),
    {
        self.shape_matches(&c.A, &c.phi)
    }

    /// Whether a constant-coefficient constraint has this shape.
    pub fn is_wellformed_const_constraint(&self, c: &ConstantQuadraticConstraint<R>) -> (ok: bool)
        ensures
            ok == shape_ok(*self, c.A, c.phi@),
    {
        self.shape_matches(&c.A, &c.phi)
    }

    /// Checks the instance against this shape: first the two numbers of constraints, then the
    /// shapes of the quadratic-linear constraints, then those of the others.
    pub fn is_wellformed_instance(&self, instance: &Instance<R>) -> (res: Result<(), RelationError>)
        ensures
            res is Ok <==> instance_ok(*self, *instance),
            res matches Err(e) ==> instance_error(*self, *instance, e),
    {
        if instance.quad_dot_prod_funcs.len() != self.num_constraints {
            return Err(RelationError::ConstraintCount);
        }
        if instance.ct_quad_dot_prod_funcs.len() != self.num_constant_constraints {
            return Err(RelationError::ConstantConstraintCount);
        }
        let ghost pq = |k: int|
            !shape_ok(
                *self,
                instance.quad_dot_prod_funcs@[k].A,
                instance.quad_dot_prod_funcs@[k].phi@,
            );
        let mut flags: Vec<bool> = Vec::new();
        let mut k: usize = 0;
        while k < instance.quad_dot_prod_funcs.len()
            invariant
                0 <= k <= instance.quad_dot_prod_funcs@.len(),
                flags@.len() == k,
                forall|j: int|
                    #[trigger] pq(j) == !shape_ok(
                        *self,
                        instance.quad_dot_prod_funcs@[j].A,
                        instance.quad_dot_prod_funcs@[j].phi@,
                    ),
                forall|j: int| 0 <= j < k ==> #[trigger] flags@[j] == pq(j),
            decreases instance.quad_dot_prod_funcs@.len() - k,
        {
            let bad = !self.is_wellformed_constraint(&instance.quad_dot_prod_funcs[k]);
            proof {
                assert(bad == pq(k as int));
            }
            flags.push(bad);
            k += 1;
        }
        let malformed = collect_indices(&flags, Ghost(pq));
        proof {
            assert(malformed@ =~= malformed_constraints(*self, *instance));
        }
        if malformed.len() > 0 {
            return Err(RelationError::MalformedConstraints(malformed));
        }
        let ghost pc = |k: int|
            !shape_ok(
                *self,
                instance.ct_quad_dot_prod_funcs@[k].A,
                instance.ct_quad_dot_prod_funcs@[k].phi@,
            );
        let mut flags: Vec<bool> = Vec::new();
        let mut k: usize = 0;
        while k < instance.ct_quad_dot_prod_funcs.len()
            invariant
                0 <= k <= instance.ct_quad_dot_prod_funcs@.len(),
                flags@.len() == k,
                forall|j: int|
                    #[trigger] pc(j) == !shape_ok(
                        *self,
                        instance.ct_quad_dot_prod_funcs@[j].A,
                        instance.ct_quad_dot_prod_funcs@[j].phi@,
                    ),
                forall|j: int| 0 <= j < k ==> #[trigger] flags@[j] == pc(j),
            decreases instance.ct_quad_dot_prod_funcs@.len() - k,
        {
            let bad = !self.is_wellformed_const_constraint(&instance.ct_quad_dot_prod_funcs[k]);
            proof {
                assert(bad == pc(k as int));
            }
            flags.push(bad);
            k += 1;
        }
        let malformed = collect_indices(&flags, Ghost(pc));
        proof {
            assert(malformed@ =~= malformed_const_constraints(*self, *instance));
        }
        if malformed.len() > 0 {
            return Err(RelationError::MalformedConstantConstraints(malformed));
        }
        Ok(())
    }

    /// Checks the witness against this shape: first the number of vectors, then their
    /// lengths, then the squared norm against the bound.
    pub fn is_wellformed_witness(&self, witness: &Witness<R>) -> (res: Result<(), RelationError>) where
        R::BaseRing: WithSignedRepresentative,

        requires
            witness_wf(*witness),
        ensures
            res is Ok <==> witness_ok(*self, *witness),
            res matches Err(e) ==> witness_error(*self, *witness, e),
    {
        if witness.s.len() != self.r {
            return Err(RelationError::WitnessCount);
        }
        let ghost p = |k: int| witness.s@[k]@.len() != self.n;
        let mut flags: Vec<bool> = Vec::new();
        let mut k: usize = 0;
        while k < witness.s.len()
            invariant
                0 <= k <= witness.s@.len(),
                flags@.len() == k,
                forall|j: int| #[trigger] p(j) == (witness.s@[j]@.len() != self.n),
                forall|j: int| 0 <= j < k ==> #[trigger] flags@[j] == p(j),
            decreases witness.s@.len() - k,
        {
            let bad = witness.s[k].len() != self.n;
            proof {
                assert(bad == p(k as int));
            }
            flags.push(bad);
            k += 1;
        }
        let malformed = collect_indices(&flags, Ghost(p));
        proof {
            assert(malformed@ =~= malformed_witness_vectors(*self, *witness));
        }
        if malformed.len() > 0 {
            return Err(RelationError::WitnessLengths(malformed));
        }
        let mut total: u128 = 0;
        let mut i: usize = 0;
        proof {
            assert(witness.s@.subrange(0, 0) =~= Seq::<Vec<R>>::empty());
        }
        while i < witness.s.len()
            invariant
                witness_wf(*witness),
                0 <= i <= witness.s@.len(),
                total == saturate(vecs_sq_norm(witness.s@.subrange(0, i as int))),
            decreases witness.s@.len() - i,
        {
            proof {
                assert(witness.s@.subrange(0, i + 1int).drop_last() =~= witness.s@.subrange(
                    0,
                    i as int,
                ));
                crate::norms::lemma_vec_sq_norm_nonneg(witness.s@[i as int]@);
                lemma_vecs_sq_norm_nonneg(witness.s@.subrange(0, i as int));
            }
            let n = vec_l2_norm_squared(&witness.s[i]);
            total = total.saturating_add(n);
            i += 1;
        }
        proof {
            assert(witness.s@.subrange(0, witness.s@.len() as int) =~= witness.s@);
            lemma_vecs_sq_norm_nonneg(witness.s@);
        }
        let too_large = if self.norm_bound_squared < 0 {
            true
        } else {
            total > self.norm_bound_squared as u128
        };
        if too_large {
            return Err(RelationError::NormTooLarge(total));
        }
        Ok(())
    }
}

/// Sums of squares are non-negative.
pub proof fn lemma_vecs_sq_norm_nonneg<PR: PolyRing>(s: Seq<Vec<PR>>) where
    PR::BaseRing: WithSignedRepresentative,

    ensures
        vecs_sq_norm(s) >= 0,
    decreases s.len(),
{
    if s.len() > 0 {
        lemma_vecs_sq_norm_nonneg(s.drop_last());
        crate::norms::lemma_vec_sq_norm_nonneg(s.last()@);
    }
}

/// The relation of witnesses that satisfy all constraints of an instance of a given shape.
pub struct PrincipalRelation<R: PolyRing> {
    _marker: PhantomData<R>,
}

/// Constraints of an instance of the index's shape can be evaluated on a witness of the index's
/// shape.
pub proof fn lemma_shapes_fit<R: PolyRing>(idx: Index<R>, x: Instance<R>, w: Witness<R>) where
    R::BaseRing: WithSignedRepresentative,

    requires
        instance_ok(idx, x),
        instance_wf(x),
        witness_ok(idx, w),
        witness_wf(w),
    ensures
        forall|k: int|
            0 <= k < x.quad_dot_prod_funcs@.len() ==> fits(
                (#[trigger] x.quad_dot_prod_funcs@[k]).A,
                x.quad_dot_prod_funcs@[k].phi@,
                w.s@,
            ),
        forall|k: int|
            0 <= k < x.ct_quad_dot_prod_funcs@.len() ==> fits(
                (#[trigger] x.ct_quad_dot_prod_funcs@[k]).A,
                x.ct_quad_dot_prod_funcs@[k].phi@,
                w.s@,
            ),
{
    let pq = |k: int| !shape_ok(idx, x.quad_dot_prod_funcs@[k].A, x.quad_dot_prod_funcs@[k].phi@);
    let pc = |k: int|
        !shape_ok(idx, x.ct_quad_dot_prod_funcs@[k].A, x.ct_quad_dot_prod_funcs@[k].phi@);
    let pw = |k: int| w.s@[k]@.len() != idx.n;
    lemma_indices_where_empty(x.quad_dot_prod_funcs@.len(), pq);
    lemma_indices_where_empty(x.ct_quad_dot_prod_funcs@.len(), pc);
    lemma_indices_where_empty(w.s@.len(), pw);
    assert forall|k: int| 0 <= k < x.quad_dot_prod_funcs@.len() implies fits(
        (#[trigger] x.quad_dot_prod_funcs@[k]).A,
        x.quad_dot_prod_funcs@[k].phi@,
        w.s@,
    ) by {
        assert(!pq(k));
        assert forall|i: int| 0 <= i < w.s@.len() implies (#[trigger] w.s@[i])@.len() == idx.n by {
            assert(!pw(i));
        }
    }
    assert forall|k: int| 0 <= k < x.ct_quad_dot_prod_funcs@.len() implies fits(
        (#[trigger] x.ct_quad_dot_prod_funcs@[k]).A,
        x.ct_quad_dot_prod_funcs@[k].phi@,
        w.s@,
    ) by {
        assert(!pc(k));
        assert forall|i: int| 0 <= i < w.s@.len() implies (#[trigger] w.s@[i])@.len() == idx.n by {
            assert(!pw(i));
        }
    }
}

/// `(-(S mod m) mod m + S) mod m = 0`.
proof fn lemma_cancel_value(sum: int, m: int)
    requires
        m > 0,
    ensures
        ((-(sum % m)) % m + sum) % m == 0,
        ((-((sum % m + 1) % m)) % m + sum) % m == (-1int) % m,
{
    let x = -(sum % m);
    lemma_add_mod_noop(x % m, sum, m);
    lemma_mod_twice(x, m);
    lemma_add_mod_noop(x, sum, m);
    lemma_fundamental_div_mod(sum, m);
    assert(x + sum == m * (sum / m));
    lemma_mod_multiples_basic(sum / m, m);
    lemma_mul_is_commutative(m, sum / m);
    let y = -((sum % m + 1) % m);
    lemma_add_mod_noop(y % m, sum, m);
    lemma_mod_twice(y, m);
    lemma_add_mod_noop(y, sum, m);
    // y + sum = -((sum % m + 1) % m) + sum = -(sum % m + 1) + sum + m * t
    lemma_fundamental_div_mod(sum % m + 1, m);
    let t = (sum % m + 1) / m;
    assert(y + sum == -1 + m * (sum / m + t)) by (nonlinear_arith)
        requires
            y == -((sum % m + 1) % m),
            sum % m + 1 == m * t + (sum % m + 1) % m,
            sum == m * (sum / m) + sum % m,
    ;
    lemma_mod_multiples_vanish(sum / m + t, -1, m);
}

/// A constraint whose right-hand side is its own value with right-hand side zero is satisfied.
pub proof fn law_constraint_with_own_value<R: PolyRing>(
    c0: QuadraticConstraint<R>,
    c1: QuadraticConstraint<R>,
    s: Seq<Vec<R>>,
)
    requires
        R::params(),
        c0.A == c1.A,
        c0.phi@ == c1.phi@,
        vals(c0.b.coeffs()) == constant_poly(0, R::dim()),
        vals(c1.b.coeffs()) == quad_eval(c0, s),
    ensures
        quad_eval(c1, s) == constant_poly(0, R::dim()),
{
    R::lemma_params();
    let m = R::BaseRing::modulus();
    let terms = constraint_terms(c0.A, c0.phi@, s);
    assert forall|c: int| 0 <= c < R::dim() implies #[trigger] quad_eval(c1, s)[c] == 0 by {
        let sum = coeff_sum(terms, c);
        assert(vals(c0.b.coeffs())[c] == 0);
        lemma_small_mod(0, m as nat);
        assert(quad_eval(c0, s)[c] == (0 + sum) % m);
        lemma_cancel_value(sum, m);
    }
    assert(quad_eval(c1, s) =~= constant_poly(0, R::dim()));
}

/// `-(b + 1) + S = -1 (mod m)` when `-b + S = 0 (mod m)`.
proof fn lemma_shift_value(b: int, sum: int, m: int)
    requires
        m >= 2,
        ((-b) % m + sum) % m == 0,
    ensures
        ((-((b + 1) % m)) % m + sum) % m == m - 1,
{
    lemma_add_mod_noop(-b, sum, m);
    lemma_mod_twice(-b, m);
    lemma_add_mod_noop((-b) % m, sum, m);
    let y = -((b + 1) % m);
    lemma_add_mod_noop(y % m, sum, m);
    lemma_mod_twice(y, m);
    lemma_add_mod_noop(y, sum, m);
    lemma_fundamental_div_mod(b + 1, m);
    let t = (b + 1) / m;
    lemma_fundamental_div_mod(-b + sum, m);
    let u = (-b + sum) / m;
    assert(y + sum == -1 + m * (u + t)) by (nonlinear_arith)
        requires
            y == -((b + 1) % m),
            b + 1 == m * t + (b + 1) % m,
            -b + sum == m * u + 0,
    ;
    lemma_mod_multiples_vanish(u + t, -1, m);
    lemma_mod_add_multiples_vanish(-1, m);
    lemma_small_mod((m - 1) as nat, m as nat);
}

/// Adding one to the right-hand side of a satisfied constraint makes it unsatisfied.
pub proof fn law_constraint_shifted<R: PolyRing>(
    c1: QuadraticConstraint<R>,
    c2: QuadraticConstraint<R>,
    s: Seq<Vec<R>>,
)
    requires
        R::params(),
        c1.A == c2.A,
        c1.phi@ == c2.phi@,
        c1.b.wf(),
        quad_eval(c1, s) == constant_poly(0, R::dim()),
        vals(c2.b.coeffs()) == crate::poly_ring::seq_add(
            vals(c1.b.coeffs()),
            constant_poly(1, R::dim()),
            R::BaseRing::modulus(),
        ),
    ensures
        quad_eval(c2, s) != constant_poly(0, R::dim()),
{
    R::lemma_params();
    R::lemma_poly_wf(c1.b);
    let m = R::BaseRing::modulus();
    let sum = coeff_sum(constraint_terms(c1.A, c1.phi@, s), 0);
    let b = vals(c1.b.coeffs())[0];
    assert(quad_eval(c1, s)[0] == constant_poly(0, R::dim())[0]);
    lemma_shift_value(b, sum, m);
    assert(quad_eval(c2, s)[0] == m - 1);
}

/// A constant-coefficient constraint whose right-hand side is its own value with right-hand
/// side zero is satisfied; one more makes it unsatisfied.
pub proof fn law_const_constraint_with_own_value<R: PolyRing>(
    c0: ConstantQuadraticConstraint<R>,
    c1: ConstantQuadraticConstraint<R>,
    s: Seq<Vec<R>>,
)
    requires
        R::params(),
        c0.A == c1.A,
        c0.phi@ == c1.phi@,
        c0.b.val() == 0,
        c1.b.val() == const_eval(c0, s),
    ensures
        const_eval(c1, s) == 0,
{
    R::lemma_params();
    let m = R::BaseRing::modulus();
    let sum = coeff_sum(constraint_terms(c0.A, c0.phi@, s), 0);
    lemma_cancel_value(sum, m);
    let x = -(sum % m);
    lemma_add_mod_noop(x, sum, m);
    lemma_mod_twice(x, m);
    lemma_add_mod_noop(x % m, sum, m);
}

/// Adding one to the right-hand side of a satisfied constant-coefficient constraint makes it
/// unsatisfied.
pub proof fn law_const_constraint_shifted<R: PolyRing>(
    c1: ConstantQuadraticConstraint<R>,
    c2: ConstantQuadraticConstraint<R>,
    s: Seq<Vec<R>>,
)
    requires
        R::params(),
        c1.A == c2.A,
        c1.phi@ == c2.phi@,
        const_eval(c1, s) == 0,
        c2.b.val() == (c1.b.val() + 1) % R::BaseRing::modulus(),
    ensures
        const_eval(c2, s) != 0,
{
    R::lemma_params();
    let m = R::BaseRing::modulus();
    let sum = coeff_sum(constraint_terms(c1.A, c1.phi@, s), 0);
    let b = c1.b.val();
    lemma_add_mod_noop(-b, sum, m);
    lemma_mod_twice(-b, m);
    lemma_add_mod_noop((-b) % m, sum, m);
    lemma_shift_value(b, sum, m);
    let y = -((b + 1) % m);
    lemma_add_mod_noop(y % m, sum, m);
    lemma_mod_twice(y, m);
    lemma_add_mod_noop(y, sum, m);
}

/// A random quadratic part of the index's size and `r` random vectors of length `n`, drawn
/// in that order.
fn random_part<R: PolyRing>(index: &Index<R>, rng: &mut StdRng) -> (part: (
    SymmetricMatrix<R>,
    Vec<Vec<R>>,
))
    requires
        R::params(),
    ensures
        part_ok(*index, part),
{
    let a = rand_matrix::<R>(index.r, rng);
    let mut phi: Vec<Vec<R>> = Vec::new();
    let mut i: usize = 0;
    while i < index.r
        invariant
            R::params(),
            0 <= i <= index.r,
            phi@.len() == i,
            forall|a: int| 0 <= a < i ==> (#[trigger] phi@[a])@.len() == index.n,
            forall|a: int, k: int|
                0 <= a < i && 0 <= k < phi@[a]@.len() ==> (#[trigger] phi@[a]@[k]).wf(),
        decreases index.r - i,
    {
        let v = rand_vector::<R>(index.n, rng);
        phi.push(v);
        i += 1;
    }
    (a, phi)
}

/// `count` random parts, drawn one after the other.
fn random_parts<R: PolyRing>(index: &Index<R>, count: usize, rng: &mut StdRng) -> (parts: Vec<
    (SymmetricMatrix<R>, Vec<Vec<R>>),
>)
    requires
        R::params(),
    ensures
        parts@.len() == count,
        forall|k: int| 0 <= k < count ==> part_ok(*index, #[trigger] parts@[k]),
{
    let mut parts: Vec<(SymmetricMatrix<R>, Vec<Vec<R>>)> = Vec::new();
    let mut k: usize = 0;
    while k < count
        invariant
            R::params(),
            0 <= k <= count,
            parts@.len() == k,
            forall|j: int| 0 <= j < k ==> part_ok(*index, #[trigger] parts@[j]),
        decreases count - k,
    {
        let part = random_part(index, rng);
        parts.push(part);
        k += 1;
    }
    parts
}

impl<R: PolyRing> PrincipalRelation<R> where R::BaseRing: WithSignedRepresentative {
    /// Checks the instance and, where given, the witness against the index.
    pub fn is_well_defined_err(i: &Index<R>, x: &Instance<R>, w: Option<&Witness<R>>) -> (res:
        Result<(), RelationError>)
        requires
            w matches Some(w) ==> witness_wf(*w),
        ensures
            res is Ok <==> instance_ok(*i, *x) && (w matches Some(w) ==> witness_ok(*i, *w)),
            res matches Err(e) ==> (!instance_ok(*i, *x) && instance_error(*i, *x, e)) || (
            instance_ok(*i, *x) && (w matches Some(w) && witness_error(*i, *w, e))),
    {
        match i.is_wellformed_instance(x) {
            Err(e) => {
                return Err(e);
            },
            Ok(()) => {},
        }
        match w {
            Some(w) => i.is_wellformed_witness(w),
            None => Ok(()),
        }
    }

    /// Whether the instance and, where given, the witness have the index's shape.
    pub fn is_well_defined(i: &Index<R>, x: &Instance<R>, w: Option<&Witness<R>>) -> (ok: bool)
        requires
            w matches Some(w) ==> witness_wf(*w),
        ensures
            ok == (instance_ok(*i, *x) && (w matches Some(w) ==> witness_ok(*i, *w))),
    {
        Self::is_well_defined_err(i, x, w).is_ok()
    }

    /// Checks that the witness satisfies the instance: first the shapes and the norm bound,
    /// then every constraint.
    pub fn is_satisfied_err(i: &Index<R>, x: &Instance<R>, w: &Witness<R>) -> (res: Result<
        (),
        RelationError,
    >)
        requires
            R::params(),
            instance_wf(*x),
            witness_wf(*w),
        ensures
            res is Ok <==> instance_ok(*i, *x) && witness_ok(*i, *w) && unsatisfied_constraints(
                *x,
                *w,
            ).len() == 0 && unsatisfied_const_constraints(*x, *w).len() == 0,
            res matches Err(e) ==> (!instance_ok(*i, *x) && instance_error(*i, *x, e)) || (
            instance_ok(*i, *x) && !witness_ok(*i, *w) && witness_error(*i, *w, e)) || (
            instance_ok(*i, *x) && witness_ok(*i, *w) && satisfaction_error(*x, *w, e)),
    {
        match Self::is_well_defined_err(i, x, Some(w)) {
            Err(e) => {
                return Err(e);
            },
            Ok(()) => {},
        }
        proof {
            lemma_shapes_fit(*i, *x, *w);
        }
        let ghost pq = |k: int|
            quad_eval(x.quad_dot_prod_funcs@[k], w.s@) != constant_poly(0, R::dim());
        let mut flags: Vec<bool> = Vec::new();
        let mut k: usize = 0;
        while k < x.quad_dot_prod_funcs.len()
            invariant
                R::params(),
                instance_wf(*x),
                forall|k: int|
                    0 <= k < x.quad_dot_prod_funcs@.len() ==> fits(
                        (#[trigger] x.quad_dot_prod_funcs@[k]).A,
                        x.quad_dot_prod_funcs@[k].phi@,
                        w.s@,
                    ),
                0 <= k <= x.quad_dot_prod_funcs@.len(),
                flags@.len() == k,
                forall|j: int|
                    #[trigger] pq(j) == (quad_eval(x.quad_dot_prod_funcs@[j], w.s@)
                        != constant_poly(0, R::dim())),
                forall|j: int| 0 <= j < k ==> #[trigger] flags@[j] == pq(j),
            decreases x.quad_dot_prod_funcs@.len() - k,
        {
            let ok = x.quad_dot_prod_funcs[k].is_valid_witness(w);
            flags.push(!ok);
            k += 1;
        }
        let unsat_indices = collect_indices(&flags, Ghost(pq));
        proof {
            assert(unsat_indices@ =~= unsatisfied_constraints(*x, *w));
        }
        let ghost pc = |k: int| const_eval(x.ct_quad_dot_prod_funcs@[k], w.s@) != 0;
        let mut flags: Vec<bool> = Vec::new();
        let mut k: usize = 0;
        while k < x.ct_quad_dot_prod_funcs.len()
            invariant
                R::params(),
                instance_wf(*x),
                forall|k: int|
                    0 <= k < x.ct_quad_dot_prod_funcs@.len() ==> fits(
                        (#[trigger] x.ct_quad_dot_prod_funcs@[k]).A,
                        x.ct_quad_dot_prod_funcs@[k].phi@,
                        w.s@,
                    ),
                0 <= k <= x.ct_quad_dot_prod_funcs@.len(),
                flags@.len() == k,
                forall|j: int|
                    #[trigger] pc(j) == (const_eval(x.ct_quad_dot_prod_funcs@[j], w.s@) != 0),
                forall|j: int| 0 <= j < k ==> #[trigger] flags@[j] == pc(j),
            decreases x.ct_quad_dot_prod_funcs@.len() - k,
        {
            let ok = x.ct_quad_dot_prod_funcs[k].is_valid_witness(w);
            flags.push(!ok);
            k += 1;
        }
        let ct_unsat_indices = collect_indices(&flags, Ghost(pc));
        proof {
            assert(ct_unsat_indices@ =~= unsatisfied_const_constraints(*x, *w));
        }
        if unsat_indices.len() > 0 && ct_unsat_indices.len() > 0 {
            return Err(RelationError::UnsatisfiedBoth(unsat_indices, ct_unsat_indices));
        } else if unsat_indices.len() > 0 {
            return Err(RelationError::UnsatisfiedConstraints(unsat_indices));
        } else if ct_unsat_indices.len() > 0 {
            return Err(RelationError::UnsatisfiedConstantConstraints(ct_unsat_indices));
        }
        Ok(())
    }

    /// Whether the witness satisfies the instance of the index's shape.
    pub fn is_satisfied(i: &Index<R>, x: &Instance<R>, w: &Witness<R>) -> (ok: bool)
        requires
            R::params(),
            instance_wf(*x),
            witness_wf(*w),
        ensures
            ok == (instance_ok(*i, *x) && witness_ok(*i, *w) && unsatisfied_constraints(
                *x,
                *w,
            ).len() == 0 && unsatisfied_const_constraints(*x, *w).len() == 0),
    {
        Self::is_satisfied_err(i, x, w).is_ok()
    }

    /// An instance of the index's shape that the witness satisfies, made of constraints with
    /// the given quadratic and linear parts: the right-hand side of each is its value on the
    /// witness when the right-hand side is zero.
    pub fn generate_satisfied_instance(
        index: Index<R>,
        witness: Witness<R>,
        quad_parts: Vec<(SymmetricMatrix<R>, Vec<Vec<R>>)>,
        ct_parts: Vec<(SymmetricMatrix<R>, Vec<Vec<R>>)>,
    ) -> (res: (Index<R>, Instance<R>, Witness<R>))
        requires
            R::params(),
            index.r > 0,
            index.n > 0,
            index.num_constraints > 0 || index.num_constant_constraints > 0,
            quad_parts@.len() == index.num_constraints,
            ct_parts@.len() == index.num_constant_constraints,
            forall|k: int| 0 <= k < quad_parts@.len() ==> part_ok(index, #[trigger] quad_parts@[k]),
            forall|k: int| 0 <= k < ct_parts@.len() ==> part_ok(index, #[trigger] ct_parts@[k]),
            witness.s@.len() == index.r,
            forall|i: int| 0 <= i < witness.s@.len() ==> (#[trigger] witness.s@[i])@.len() == index.n,
            witness_wf(witness),
        ensures
            res.0 == index,
            res.2 == witness,
            instance_ok(index, res.1),
            instance_wf(res.1),
            res.1.quad_dot_prod_funcs@.len() == quad_parts@.len(),
            res.1.ct_quad_dot_prod_funcs@.len() == ct_parts@.len(),
            forall|k: int|
                0 <= k < quad_parts@.len() ==> (#[trigger] res.1.quad_dot_prod_funcs@[k]).A == Some(
                    quad_parts@[k].0,
                ) && res.1.quad_dot_prod_funcs@[k].phi@ == quad_parts@[k].1@,
            forall|k: int|
                0 <= k < ct_parts@.len() ==> (#[trigger] res.1.ct_quad_dot_prod_funcs@[k]).A == Some(
                    ct_parts@[k].0,
                ) && res.1.ct_quad_dot_prod_funcs@[k].phi@ == ct_parts@[k].1@,
            unsatisfied_constraints(res.1, witness).len() == 0,
            unsatisfied_const_constraints(res.1, witness).len() == 0,
    {
        proof {
            R::lemma_params();
        }
        let ghost s = witness.s@;
        let ghost qp = quad_parts@;
        let ghost cp = ct_parts@;
        let mut rest = quad_parts;
        let mut funcs: Vec<QuadraticConstraint<R>> = Vec::new();
        while rest.len() > 0
            invariant
                R::params(),
                s == witness.s@,
                witness.s@.len() == index.r,
                index.r > 0,
                forall|i: int| 0 <= i < witness.s@.len() ==> (#[trigger] witness.s@[i])@.len() == index.n,
                witness_wf(witness),
                forall|k: int| 0 <= k < qp.len() ==> part_ok(index, #[trigger] qp[k]),
                funcs@.len() + rest@.len() == qp.len(),
                rest@ == qp.subrange(funcs@.len() as int, qp.len() as int),
                forall|k: int|
                    0 <= k < funcs@.len() ==> (#[trigger] funcs@[k]).A == Some(qp[k].0)
                        && funcs@[k].phi@ == qp[k].1@ && funcs@[k].b.wf() && quad_eval(funcs@[k], s)
                        == constant_poly(0, R::dim()),
            decreases rest@.len(),
        {
            let ghost k = funcs@.len() as int;
            let (a, phi) = rest.remove(0);
            proof {
                assert(qp[k] == (a, phi));
                assert(part_ok(index, qp[k]));
                assert(uniform_vectors(s, s[0]@.len())) by {
                    assert forall|i: int| 0 <= i < s.len() implies (#[trigger] s[i])@.len()
                        == s[0]@.len() && forall|t: int| 0 <= t < s[0]@.len() ==> (#[trigger] s[i]@[t]).wf() by {
                        assert(s[i]@.len() == index.n);
                        assert(s[0]@.len() == index.n);
                    }
                }
            }
            let zero = R::zero();
            let mut c = QuadraticConstraint::new(a, phi, zero);
            let ghost c0 = c;
            let b = c.eval(&witness);
            c.b = b;
            proof {
                law_constraint_with_own_value(c0, c, s);
                assert(rest@ =~= qp.subrange(k + 1, qp.len() as int));
            }
            funcs.push(c);
        }
        let mut rest = ct_parts;
        let mut ct_funcs: Vec<ConstantQuadraticConstraint<R>> = Vec::new();
        while rest.len() > 0
            invariant
                R::params(),
                s == witness.s@,
                witness.s@.len() == index.r,
                index.r > 0,
                forall|i: int| 0 <= i < witness.s@.len() ==> (#[trigger] witness.s@[i])@.len() == index.n,
                witness_wf(witness),
                forall|k: int| 0 <= k < cp.len() ==> part_ok(index, #[trigger] cp[k]),
                R::BaseRing::modulus() >= 2,
                ct_funcs@.len() + rest@.len() == cp.len(),
                rest@ == cp.subrange(ct_funcs@.len() as int, cp.len() as int),
                forall|k: int|
                    0 <= k < ct_funcs@.len() ==> (#[trigger] ct_funcs@[k]).A == Some(cp[k].0)
                        && ct_funcs@[k].phi@ == cp[k].1@ && ct_funcs@[k].b.wf() && const_eval(
                        ct_funcs@[k],
                        s,
                    ) == 0,
            decreases rest@.len(),
        {
            let ghost k = ct_funcs@.len() as int;
            let (a, phi) = rest.remove(0);
            proof {
                assert(cp[k] == (a, phi));
                assert(part_ok(index, cp[k]));
                assert(uniform_vectors(s, s[0]@.len())) by {
                    assert forall|i: int| 0 <= i < s.len() implies (#[trigger] s[i])@.len()
                        == s[0]@.len() && forall|t: int| 0 <= t < s[0]@.len() ==> (#[trigger] s[i]@[t]).wf() by {
                        assert(s[i]@.len() == index.n);
                        assert(s[0]@.len() == index.n);
                    }
                }
            }
            let zero = R::BaseRing::zero();
            let mut c = ConstantQuadraticConstraint::new(a, phi, zero);
            let ghost c0 = c;
            let b = c.eval(&witness);
            c.b = b;
            proof {
                law_const_constraint_with_own_value(c0, c, s);
                assert(rest@ =~= cp.subrange(k + 1, cp.len() as int));
            }
            ct_funcs.push(c);
        }
        let instance = Instance { quad_dot_prod_funcs: funcs, ct_quad_dot_prod_funcs: ct_funcs };
        proof {
            let pq = |k: int|
                !shape_ok(
                    index,
                    instance.quad_dot_prod_funcs@[k].A,
                    instance.quad_dot_prod_funcs@[k].phi@,
                );
            let pc = |k: int|
                !shape_ok(
                    index,
                    instance.ct_quad_dot_prod_funcs@[k].A,
                    instance.ct_quad_dot_prod_funcs@[k].phi@,
                );
            assert forall|k: int| 0 <= k < qp.len() implies !#[trigger] pq(k) by {
                assert(part_ok(index, qp[k]));
            }
            assert forall|k: int| 0 <= k < cp.len() implies !#[trigger] pc(k) by {
                assert(part_ok(index, cp[k]));
            }
            lemma_indices_where_empty(qp.len(), pq);
            lemma_indices_where_empty(cp.len(), pc);
            let uq = |k: int|
                quad_eval(instance.quad_dot_prod_funcs@[k], s) != constant_poly(0, R::dim());
            let uc = |k: int| const_eval(instance.ct_quad_dot_prod_funcs@[k], s) != 0;
            assert forall|k: int| 0 <= k < qp.len() implies !#[trigger] uq(k) by {
            }
            assert forall|k: int| 0 <= k < cp.len() implies !#[trigger] uc(k) by {
            }
            lemma_indices_where_empty(qp.len(), uq);
            lemma_indices_where_empty(cp.len(), uc);
            assert(malformed_constraints(index, instance) =~= indices_where(qp.len(), pq));
            assert(malformed_const_constraints(index, instance) =~= indices_where(cp.len(), pc));
            assert(unsatisfied_constraints(instance, witness) =~= indices_where(qp.len(), uq));
            assert(unsatisfied_const_constraints(instance, witness) =~= indices_where(cp.len(), uc));
            assert forall|k: int| 0 <= k < qp.len() implies constraint_wf(
                (#[trigger] instance.quad_dot_prod_funcs@[k]).A,
                instance.quad_dot_prod_funcs@[k].phi@,
            ) by {
                assert(part_ok(index, qp[k]));
            }
            assert forall|k: int| 0 <= k < cp.len() implies constraint_wf(
                (#[trigger] instance.ct_quad_dot_prod_funcs@[k]).A,
                instance.ct_quad_dot_prod_funcs@[k].phi@,
            ) by {
                assert(part_ok(index, cp[k]));
            }
        }
        (index, instance, witness)
    }

    /// The satisfied instance of `generate_satisfied_instance` with one more on the right-hand
    /// side of quadratic-linear constraint `qi` and of constant-coefficient constraint `ci`, so
    /// that the witness no longer satisfies it.
    pub fn generate_unsatisfied_instance(
        index: Index<R>,
        witness: Witness<R>,
        quad_parts: Vec<(SymmetricMatrix<R>, Vec<Vec<R>>)>,
        ct_parts: Vec<(SymmetricMatrix<R>, Vec<Vec<R>>)>,
        qi: usize,
        ci: usize,
    ) -> (res: (Index<R>, Instance<R>, Witness<R>))
        requires
            R::params(),
            index.r > 0,
            index.n > 0,
            qi < index.num_constraints,
            ci < index.num_constant_constraints,
            quad_parts@.len() == index.num_constraints,
            ct_parts@.len() == index.num_constant_constraints,
            forall|k: int| 0 <= k < quad_parts@.len() ==> part_ok(index, #[trigger] quad_parts@[k]),
            forall|k: int| 0 <= k < ct_parts@.len() ==> part_ok(index, #[trigger] ct_parts@[k]),
            witness.s@.len() == index.r,
            forall|i: int| 0 <= i < witness.s@.len() ==> (#[trigger] witness.s@[i])@.len() == index.n,
            witness_wf(witness),
        ensures
            res.0 == index,
            res.2 == witness,
            instance_ok(index, res.1),
            instance_wf(res.1),
            quad_eval(res.1.quad_dot_prod_funcs@[qi as int], witness.s@) != constant_poly(0, R::dim()),
            const_eval(res.1.ct_quad_dot_prod_funcs@[ci as int], witness.s@) != 0,
            unsatisfied_constraints(res.1, witness) == seq![qi],
            unsatisfied_const_constraints(res.1, witness) == seq![ci],
            res.1.quad_dot_prod_funcs@.len() == quad_parts@.len(),
            res.1.ct_quad_dot_prod_funcs@.len() == ct_parts@.len(),
            forall|k: int|
                0 <= k < quad_parts@.len() ==> (#[trigger] res.1.quad_dot_prod_funcs@[k]).A == Some(
                    quad_parts@[k].0,
                ) && res.1.quad_dot_prod_funcs@[k].phi@ == quad_parts@[k].1@,
            forall|k: int|
                0 <= k < ct_parts@.len() ==> (#[trigger] res.1.ct_quad_dot_prod_funcs@[k]).A == Some(
                    ct_parts@[k].0,
                ) && res.1.ct_quad_dot_prod_funcs@[k].phi@ == ct_parts@[k].1@,
            unsatisfied_constraints(res.1, witness).len() > 0,
            unsatisfied_const_constraints(res.1, witness).len() > 0,
    {
        let (index, instance, witness) = Self::generate_satisfied_instance(
            index,
            witness,
            quad_parts,
            ct_parts,
        );
        let ghost sat = instance;
        let ghost s = witness.s@;
        let Instance { quad_dot_prod_funcs: mut funcs, ct_quad_dot_prod_funcs: mut ct_funcs } =
            instance;
        proof {
            R::lemma_params();
            let uq0 = |k: int|
                quad_eval(sat.quad_dot_prod_funcs@[k], s) != constant_poly(0, R::dim());
            let uc0 = |k: int| const_eval(sat.ct_quad_dot_prod_funcs@[k], s) != 0;
            assert(unsatisfied_constraints(sat, witness) =~= indices_where(
                sat.quad_dot_prod_funcs@.len(),
                uq0,
            ));
            assert(unsatisfied_const_constraints(sat, witness) =~= indices_where(
                sat.ct_quad_dot_prod_funcs@.len(),
                uc0,
            ));
            lemma_indices_where_empty(sat.quad_dot_prod_funcs@.len(), uq0);
            lemma_indices_where_empty(sat.ct_quad_dot_prod_funcs@.len(), uc0);
            assert(!uq0(qi as int));
            assert(!uc0(ci as int));
            assert forall|k: int| 0 <= k < sat.quad_dot_prod_funcs@.len() implies quad_eval(
                #[trigger] sat.quad_dot_prod_funcs@[k],
                s,
            ) == constant_poly(0, R::dim()) by {
                assert(!uq0(k));
            }
            assert forall|k: int| 0 <= k < sat.ct_quad_dot_prod_funcs@.len() implies const_eval(
                #[trigger] sat.ct_quad_dot_prod_funcs@[k],
                s,
            ) == 0 by {
                assert(!uc0(k));
            }
        }
        let mut c = funcs.remove(qi);
        let ghost c1 = c;
        proof {
            assert(c1 == sat.quad_dot_prod_funcs@[qi as int]);
            assert(instance_wf(sat));
        }
        let one = R::one();
        c.b = c.b.add(&one);
        proof {
            law_constraint_shifted(c1, c, s);
        }
        funcs.insert(qi, c);
        let mut d = ct_funcs.remove(ci);
        let ghost d1 = d;
        proof {
            assert(d1 == sat.ct_quad_dot_prod_funcs@[ci as int]);
        }
        let one = R::BaseRing::one();
        d.b = d.b.add(&one);
        proof {
            R::lemma_params();
            R::BaseRing::lemma_wf(d1.b);
            law_const_constraint_shifted(d1, d, s);
        }
        ct_funcs.insert(ci, d);
        let instance = Instance { quad_dot_prod_funcs: funcs, ct_quad_dot_prod_funcs: ct_funcs };
        proof {
            assert(instance.quad_dot_prod_funcs@ =~= sat.quad_dot_prod_funcs@.update(qi as int, c));
            assert(instance.ct_quad_dot_prod_funcs@ =~= sat.ct_quad_dot_prod_funcs@.update(
                ci as int,
                d,
            ));
            let pq = |k: int|
                !shape_ok(
                    index,
                    instance.quad_dot_prod_funcs@[k].A,
                    instance.quad_dot_prod_funcs@[k].phi@,
                );
            let pq0 = |k: int|
                !shape_ok(index, sat.quad_dot_prod_funcs@[k].A, sat.quad_dot_prod_funcs@[k].phi@);
            let pc = |k: int|
                !shape_ok(
                    index,
                    instance.ct_quad_dot_prod_funcs@[k].A,
                    instance.ct_quad_dot_prod_funcs@[k].phi@,
                );
            let pc0 = |k: int|
                !shape_ok(
                    index,
                    sat.ct_quad_dot_prod_funcs@[k].A,
                    sat.ct_quad_dot_prod_funcs@[k].phi@,
                );
            lemma_indices_where_empty(sat.quad_dot_prod_funcs@.len(), pq0);
            lemma_indices_where_empty(sat.ct_quad_dot_prod_funcs@.len(), pc0);
            assert(malformed_constraints(index, sat) =~= indices_where(
                sat.quad_dot_prod_funcs@.len(),
                pq0,
            ));
            assert(malformed_const_constraints(index, sat) =~= indices_where(
                sat.ct_quad_dot_prod_funcs@.len(),
                pc0,
            ));
            assert forall|k: int| 0 <= k < instance.quad_dot_prod_funcs@.len() implies !#[trigger] pq(k) by {
                assert(!pq0(k));
            }
            assert forall|k: int| 0 <= k < instance.ct_quad_dot_prod_funcs@.len() implies !#[trigger] pc(k) by {
                assert(!pc0(k));
            }
            lemma_indices_where_empty(instance.quad_dot_prod_funcs@.len(), pq);
            lemma_indices_where_empty(instance.ct_quad_dot_prod_funcs@.len(), pc);
            assert(malformed_constraints(index, instance) =~= indices_where(
                instance.quad_dot_prod_funcs@.len(),
                pq,
            ));
            assert(malformed_const_constraints(index, instance) =~= indices_where(
                instance.ct_quad_dot_prod_funcs@.len(),
                pc,
            ));
            let uq = |k: int|
                quad_eval(instance.quad_dot_prod_funcs@[k], s) != constant_poly(0, R::dim());
            let uc = |k: int| const_eval(instance.ct_quad_dot_prod_funcs@[k], s) != 0;
            assert(uq(qi as int));
            assert(uc(ci as int));
            lemma_indices_where_empty(instance.quad_dot_prod_funcs@.len(), uq);
            lemma_indices_where_empty(instance.ct_quad_dot_prod_funcs@.len(), uc);
            assert(unsatisfied_constraints(instance, witness) =~= indices_where(
                instance.quad_dot_prod_funcs@.len(),
                uq,
            ));
            assert(unsatisfied_const_constraints(instance, witness) =~= indices_where(
                instance.ct_quad_dot_prod_funcs@.len(),
                uc,
            ));
            R::lemma_poly_wf(c1.b);
            assert forall|k: int|
                0 <= k < instance.quad_dot_prod_funcs@.len() && k != qi implies quad_eval(
                #[trigger] instance.quad_dot_prod_funcs@[k],
                s,
            ) == constant_poly(0, R::dim()) by {
                assert(instance.quad_dot_prod_funcs@[k] == sat.quad_dot_prod_funcs@[k]);
            }
            assert forall|k: int|
                0 <= k < instance.ct_quad_dot_prod_funcs@.len() && k != ci implies const_eval(
                #[trigger] instance.ct_quad_dot_prod_funcs@[k],
                s,
            ) == 0 by {
                assert(instance.ct_quad_dot_prod_funcs@[k] == sat.ct_quad_dot_prod_funcs@[k]);
            }
            law_unsatisfied_exactly(instance, witness, qi as int);
            law_unsatisfied_const_exactly(instance, witness, ci as int);
        }
        (index, instance, witness)
    }

    /// A random witness with coefficients from `[-linf_bound, linf_bound)`, then random
    /// quadratic-linear and constant-coefficient constraints of the index's shape, whose
    /// right-hand sides make the witness satisfy them.
    pub fn generate_random_satisfied_instance(index: Index<R>, linf_bound: i128, rng: &mut StdRng) -> (res: (
        Index<R>,
        Instance<R>,
        Witness<R>,
    ))
        requires
            R::params(),
            index.r > 0,
            index.n > 0,
            index.num_constraints > 0 || index.num_constant_constraints > 0,
            linf_bound > 0,
            R::BaseRing::repr_min() <= -linf_bound,
            linf_bound - 1 <= R::BaseRing::repr_max(),
            index.r * (index.n * (R::dim() * (linf_bound * linf_bound))) <= index.norm_bound_squared,
        ensures
            res.0 == index,
            instance_ok(index, res.1),
            instance_wf(res.1),
            witness_ok(index, res.2),
            res.2.s@.len() == index.r,
            uniform_vectors(res.2.s@, index.n as nat),
            witness_wf(res.2),
            has_quadratic_parts(index, res.1),
            forall|i: int, k: int|
                0 <= i < index.r && 0 <= k < index.n ==> small_coeffs(
                    #[trigger] res.2.s@[i]@[k],
                    linf_bound as int,
                ),
            unsatisfied_constraints(res.1, res.2).len() == 0,
            unsatisfied_const_constraints(res.1, res.2).len() == 0,
    {
        let witness = Witness::<R>::rand(index.r, index.n, linf_bound, rng);
        proof {
            lemma_random_witness_ok(index, witness, linf_bound as int);
        }
        let quad_parts = random_parts(&index, index.num_constraints, rng);
        let ct_parts = random_parts(&index, index.num_constant_constraints, rng);
        let ghost (qp, cp) = (quad_parts@, ct_parts@);
        let res = Self::generate_satisfied_instance(index, witness, quad_parts, ct_parts);
        proof {
            lemma_parts_give_quadratic_parts(index, res.1, qp, cp);
        }
        res
    }

    /// The instance of `generate_random_satisfied_instance` with one more on the right-hand side
    /// of a randomly chosen constraint of each kind, so that the witness no longer satisfies it.
    pub fn generate_random_unsatisfied_instance(index: Index<R>, linf_bound: i128, rng: &mut StdRng) -> (res: (
        Index<R>,
        Instance<R>,
        Witness<R>,
    ))
        requires
            R::params(),
            index.r > 0,
            index.n > 0,
            index.num_constraints > 0,
            index.num_constant_constraints > 0,
            linf_bound > 0,
            R::BaseRing::repr_min() <= -linf_bound,
            linf_bound - 1 <= R::BaseRing::repr_max(),
            index.r * (index.n * (R::dim() * (linf_bound * linf_bound))) <= index.norm_bound_squared,
        ensures
            res.0 == index,
            instance_ok(index, res.1),
            instance_wf(res.1),
            witness_ok(index, res.2),
            res.2.s@.len() == index.r,
            uniform_vectors(res.2.s@, index.n as nat),
            witness_wf(res.2),
            has_quadratic_parts(index, res.1),
            unsatisfied_constraints(res.1, res.2).len() > 0,
            unsatisfied_const_constraints(res.1, res.2).len() > 0,
            unsatisfied_constraints(res.1, res.2).len() == 1,
            unsatisfied_const_constraints(res.1, res.2).len() == 1,
    {
        let witness = Witness::<R>::rand(index.r, index.n, linf_bound, rng);
        proof {
            lemma_random_witness_ok(index, witness, linf_bound as int);
        }
        let quad_parts = random_parts(&index, index.num_constraints, rng);
        let ct_parts = random_parts(&index, index.num_constant_constraints, rng);
        let qi = gen_below(rng, index.num_constraints as u64) as usize;
        let ci = gen_below(rng, index.num_constant_constraints as u64) as usize;
        let ghost (qp, cp) = (quad_parts@, ct_parts@);
        let res = Self::generate_unsatisfied_instance(index, witness, quad_parts, ct_parts, qi, ci);
        proof {
            lemma_parts_give_quadratic_parts(index, res.1, qp, cp);
        }
        res
    }
}

/// The quadratic part is a matrix of the index's size and the linear part has the index's
/// shape, with well-formed entries.
pub open spec fn part_ok<R: PolyRing>(idx: Index<R>, part: (SymmetricMatrix<R>, Vec<Vec<R>>)) -> bool {
    &&& part.0.wf()
    &&& part.0.dim() == idx.r
    &&& forall|i: int, j: int|
        0 <= i < part.0.dim() && 0 <= j < part.0.dim() ==> (#[trigger] part.0.entry(i, j)).wf()
    &&& part.1@.len() == idx.r
    &&& forall|i: int| 0 <= i < part.1@.len() ==> (#[trigger] part.1@[i])@.len() == idx.n
    &&& forall|i: int, k: int|
        0 <= i < part.1@.len() && 0 <= k < part.1@[i]@.len() ==> (#[trigger] part.1@[i]@[k]).wf()
}

/// Every constraint of either kind has a quadratic part, a matrix of the index's size.
pub open spec fn has_quadratic_parts<R: PolyRing>(idx: Index<R>, x: Instance<R>) -> bool {
    &&& forall|k: int|
        0 <= k < x.quad_dot_prod_funcs@.len() ==> ((#[trigger] x.quad_dot_prod_funcs@[k]).A matches Some(
            a,
        ) && a.dim() == idx.r)
    &&& forall|k: int|
        0 <= k < x.ct_quad_dot_prod_funcs@.len() ==> ((#[trigger] x.ct_quad_dot_prod_funcs@[k]).A matches Some(
            a,
        ) && a.dim() == idx.r)
}

/// Constraints built from parts of the index's shape have quadratic parts of its size.
proof fn lemma_parts_give_quadratic_parts<R: PolyRing>(
    idx: Index<R>,
    x: Instance<R>,
    qp: Seq<(SymmetricMatrix<R>, Vec<Vec<R>>)>,
    cp: Seq<(SymmetricMatrix<R>, Vec<Vec<R>>)>,
)
    requires
        x.quad_dot_prod_funcs@.len() == qp.len(),
        x.ct_quad_dot_prod_funcs@.len() == cp.len(),
        forall|k: int| 0 <= k < qp.len() ==> part_ok(idx, #[trigger] qp[k]),
        forall|k: int| 0 <= k < cp.len() ==> part_ok(idx, #[trigger] cp[k]),
        forall|k: int|
            0 <= k < qp.len() ==> (#[trigger] x.quad_dot_prod_funcs@[k]).A == Some(qp[k].0),
        forall|k: int|
            0 <= k < cp.len() ==> (#[trigger] x.ct_quad_dot_prod_funcs@[k]).A == Some(cp[k].0),
    ensures
        has_quadratic_parts(idx, x),
{
    assert forall|k: int| 0 <= k < x.quad_dot_prod_funcs@.len() implies ((#[trigger] x.quad_dot_prod_funcs@[k]).A matches Some(
        a,
    ) && a.dim() == idx.r) by {
        assert(part_ok(idx, qp[k]));
    }
    assert forall|k: int| 0 <= k < x.ct_quad_dot_prod_funcs@.len() implies ((#[trigger] x.ct_quad_dot_prod_funcs@[k]).A matches Some(
        a,
    ) && a.dim() == idx.r) by {
        assert(part_ok(idx, cp[k]));
    }
}

} // verus!
