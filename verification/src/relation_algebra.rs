//! Sums, inner products and Gram matrices of vectors of polynomials, specified coefficient by
//! coefficient.
use vstd::arithmetic::div_mod::*;
use vstd::prelude::*;

use crate::poly_ring::{constant_poly, seq_add, PolyRing};
use crate::ring::{vals, Ring};
use crate::symmetric_matrix::{is_lower_triangle, SymmetricMatrix};

verus! {

/// `Σ_t terms[t][c]`.
pub open spec fn coeff_sum(terms: Seq<Seq<int>>, c: int) -> int
    decreases terms.len(),
{
    if terms.len() == 0 {
        0
    } else {
        coeff_sum(terms.drop_last(), c) + terms.last()[c]
    }
}

/// The polynomial with `n` coefficients whose coefficient `c` is
/// `(start[c] + Σ_t terms[t][c]) mod m`.
pub open spec fn poly_fold(start: Seq<int>, terms: Seq<Seq<int>>, n: nat, m: int) -> Seq<int> {
    Seq::new(n, |c: int| (start[c] + coeff_sum(terms, c)) % m)
}

/// The products `a[k] b[k]`, by coefficient residues.
pub open spec fn product_terms<PR: PolyRing>(a: Seq<PR>, b: Seq<PR>) -> Seq<Seq<int>> {
    Seq::new(a.len(), |k: int| PR::mul_spec(vals(a[k].coeffs()), vals(b[k].coeffs())))
}

/// The inner product `Σ_k a[k] b[k]`, by coefficient residues.
pub open spec fn poly_dot<PR: PolyRing>(a: Seq<PR>, b: Seq<PR>) -> Seq<int> {
    poly_fold(
        constant_poly(0, PR::dim()),
        product_terms(a, b),
        PR::dim(),
        PR::BaseRing::modulus(),
    )
}

/// Adding one more term to a fold adds it coefficient-wise.
pub proof fn lemma_fold_push(start: Seq<int>, terms: Seq<Seq<int>>, t: Seq<int>, n: nat, m: int)
    requires
        m > 0,
        t.len() == n,
    ensures
        poly_fold(start, terms.push(t), n, m) == seq_add(poly_fold(start, terms, n, m), t, m),
{
    assert forall|c: int| 0 <= c < n implies #[trigger] poly_fold(start, terms.push(t), n, m)[c]
        == seq_add(poly_fold(start, terms, n, m), t, m)[c] by {
        assert(terms.push(t).drop_last() =~= terms);
        let s = start[c] + coeff_sum(terms, c);
        lemma_add_mod_noop(s, t[c], m);
        lemma_mod_twice(t[c], m);
        lemma_add_mod_noop(s % m, t[c], m);
        lemma_mod_twice(s, m);
    }
    assert(poly_fold(start, terms.push(t), n, m) =~= seq_add(poly_fold(start, terms, n, m), t, m));
}

/// A fold of no terms from zero is zero.
pub proof fn lemma_fold_empty(n: nat, m: int)
    requires
        m > 0,
    ensures
        poly_fold(constant_poly(0, n), Seq::empty(), n, m) == constant_poly(0, n),
{
    lemma_small_mod(0, m as nat);
    assert(poly_fold(constant_poly(0, n), Seq::empty(), n, m) =~= constant_poly(0, n));
}

/// The inner product `Σ_k a[k] b[k]` of two vectors of the same length.
pub fn dot<PR: PolyRing>(a: &Vec<PR>, b: &Vec<PR>) -> (r: PR)
    requires
        PR::params(),
        a@.len() == b@.len(),
        forall|k: int| 0 <= k < a@.len() ==> (#[trigger] a@[k]).wf(),
        forall|k: int| 0 <= k < b@.len() ==> (#[trigger] b@[k]).wf(),
    ensures
        r.wf(),
        vals(r.coeffs()) == poly_dot(a@, b@),
{
    proof {
        PR::lemma_params();
        lemma_fold_empty(PR::dim(), PR::BaseRing::modulus());
        assert(product_terms(a@, b@).subrange(0, 0) =~= Seq::<Seq<int>>::empty());
    }
    let mut acc = PR::zero();
    let mut k: usize = 0;
    while k < a.len()
        invariant
            PR::params(),
            PR::BaseRing::modulus() >= 2,
            a@.len() == b@.len(),
            forall|k: int| 0 <= k < a@.len() ==> (#[trigger] a@[k]).wf(),
            forall|k: int| 0 <= k < b@.len() ==> (#[trigger] b@[k]).wf(),
            0 <= k <= a@.len(),
            acc.wf(),
            vals(acc.coeffs()) == poly_fold(
                constant_poly(0, PR::dim()),
                product_terms(a@, b@).subrange(0, k as int),
                PR::dim(),
                PR::BaseRing::modulus(),
            ),
        decreases a@.len() - k,
    {
        let p = a[k].mul(&b[k]);
        proof {
            PR::lemma_poly_wf(p);
            let terms = product_terms(a@, b@);
            assert(terms.subrange(0, k + 1int) =~= terms.subrange(0, k as int).push(terms[k as int]));
            lemma_fold_push(
                constant_poly(0, PR::dim()),
                terms.subrange(0, k as int),
                terms[k as int],
                PR::dim(),
                PR::BaseRing::modulus(),
            );
        }
        acc = acc.add(&p);
        k += 1;
    }
    proof {
        assert(product_terms(a@, b@).subrange(0, a@.len() as int) =~= product_terms(a@, b@));
    }
    acc
}

/// All vectors of `s` have length `n` and well-formed entries.
pub open spec fn uniform_vectors<PR: PolyRing>(s: Seq<Vec<PR>>, n: nat) -> bool {
    forall|i: int|
        0 <= i < s.len() ==> (#[trigger] s[i])@.len() == n && forall|k: int|
            0 <= k < n ==> (#[trigger] s[i]@[k]).wf()
}

/// The Gram matrix entry `<s_i, s_j>` as the symmetric matrix stores it.
pub open spec fn gram_entry<PR: PolyRing>(s: Seq<Vec<PR>>, i: int, j: int) -> Seq<int> {
    if j <= i {
        poly_dot(s[i]@, s[j]@)
    } else {
        poly_dot(s[j]@, s[i]@)
    }
}

/// The Gram matrix `(<s_i, s_j>)_{i,j}` of vectors of the same length.
pub fn inner_products<PR: PolyRing>(s: &Vec<Vec<PR>>) -> (g: SymmetricMatrix<PR>)
    requires
        PR::params(),
        s@.len() > 0 ==> uniform_vectors(s@, s@[0]@.len()),
    ensures
        g.wf(),
        g.dim() == s@.len(),
        forall|i: int, j: int|
            0 <= i < s@.len() && 0 <= j < s@.len() ==> (#[trigger] g.entry(i, j)).wf() && vals(
                g.entry(i, j).coeffs(),
            ) == gram_entry(s@, i, j),
{
    let mut rows: Vec<Vec<PR>> = Vec::new();
    let mut i: usize = 0;
    let n = s.len();
    while i < n
        invariant
            n == s@.len(),
            PR::params(),
            s@.len() > 0 ==> uniform_vectors(s@, s@[0]@.len()),
            0 <= i <= s@.len(),
            rows@.len() == i,
            is_lower_triangle(rows@),
            forall|a: int, b: int|
                0 <= b <= a < i ==> (#[trigger] rows@[a]@[b]).wf() && vals(rows@[a]@[b].coeffs())
                    == poly_dot(s@[a]@, s@[b]@),
        decreases s@.len() - i,
    {
        let mut row: Vec<PR> = Vec::new();
        let mut j: usize = 0;
        while j <= i
            invariant
                PR::params(),
                s@.len() > 0 ==> uniform_vectors(s@, s@[0]@.len()),
                n == s@.len(),
                0 <= i < s@.len(),
                0 <= j <= i + 1,
                row@.len() == j,
                forall|b: int|
                    0 <= b < j ==> (#[trigger] row@[b]).wf() && vals(row@[b].coeffs()) == poly_dot(
                        s@[i as int]@,
                        s@[b]@,
                    ),
            decreases i + 1 - j,
        {
            proof {
                assert(s@[i as int]@.len() == s@[0]@.len());
                assert(s@[j as int]@.len() == s@[0]@.len());
            }
            let d = dot(&s[i], &s[j]);
            row.push(d);
            j += 1;
        }
        rows.push(row);
        i += 1;
    }
    let g = SymmetricMatrix::from_rows(rows);
    g
}

} // verus!
