//! Gadget decomposition: writing residues through the digits of their signed representatives
//! in a basis `b`, and recomposing them.
use vstd::arithmetic::div_mod::*;
use vstd::arithmetic::mul::*;
use vstd::arithmetic::power::*;
use vstd::prelude::*;

use crate::ntt::abs;
use crate::poly_ring::PolyRing;
use crate::ring::{all_wf, vals, Ring};
use crate::representatives::{lemma_signed_of_small, WithSignedRepresentative};
use crate::symmetric_matrix::SymmetricMatrix;

verus! {

/// Rust's division of `x` by `b > 0`, rounding towards zero.
pub open spec fn tdiv(x: int, b: int) -> int {
    if x >= 0 {
        x / b
    } else {
        -((-x) / b)
    }
}

/// Rust's remainder of `x` by `b > 0`, with the sign of `x`.
pub open spec fn trem(x: int, b: int) -> int {
    x - b * tdiv(x, b)
}

/// Truncated division by `b >= 2` shrinks every non-zero integer.
pub proof fn lemma_tdiv_shrinks(x: int, b: int)
    requires
        b >= 2,
        x != 0,
    ensures
        abs(tdiv(x, b)) < abs(x),
        abs(trem(x, b)) < b,
        abs(trem(x, b)) <= abs(x),
        x > 0 ==> tdiv(x, b) >= 0 && trem(x, b) >= 0,
        x < 0 ==> tdiv(x, b) <= 0 && trem(x, b) <= 0,
{
    let y = abs(x);
    lemma_div_decreases(y, b);
    lemma_div_pos_is_pos(y, b);
    lemma_fundamental_div_mod(y, b);
    lemma_mod_bound(y, b);
    assert(b * (y / b) <= y);
    if x < 0 {
        assert(trem(x, b) == -(y - b * (y / b))) by (nonlinear_arith)
            requires
                x == -y,
                tdiv(x, b) == -(y / b),
                trem(x, b) == x - b * tdiv(x, b),
        ;
    }
}

/// The digits of `x` in basis `b >= 2`, least significant first: each is Rust's remainder
/// by `b` of what is left, so it has the sign of `x` and is less than `b` in magnitude.
/// Zero has no digits.
pub open spec fn signed_digits(x: int, b: int) -> Seq<int>
    decreases abs(x),
{
    if x == 0 || b < 2 {
        Seq::empty()
    } else {
        proof {
            lemma_tdiv_shrinks(x, b);
        }
        seq![trem(x, b)] + signed_digits(tdiv(x, b), b)
    }
}

/// `d[0] + b d[1] + b^2 d[2] + ...`
pub open spec fn recompose_int(d: Seq<int>, b: int) -> int
    decreases d.len(),
{
    if d.len() == 0 {
        0
    } else {
        d[0] + b * recompose_int(d.subrange(1, d.len() as int), b)
    }
}

/// The length of a decomposition padded as `padding_size` asks.
pub open spec fn padded_len(digits: nat, padding_size: Option<usize>) -> nat {
    match padding_size {
        Some(k) => k as nat,
        None => digits,
    }
}

/// The digits recompose to the integer, and each is less than the basis in magnitude.
pub proof fn law_signed_digits(x: int, b: int)
    requires
        b >= 2,
    ensures
        recompose_int(signed_digits(x, b), b) == x,
        forall|j: int|
            0 <= j < signed_digits(x, b).len() ==> abs(#[trigger] signed_digits(x, b)[j]) < b,
    decreases abs(x),
{
    if x != 0 {
        lemma_tdiv_shrinks(x, b);
        law_signed_digits(tdiv(x, b), b);
        let d = signed_digits(x, b);
        assert(d.subrange(1, d.len() as int) =~= signed_digits(tdiv(x, b), b));
        assert forall|j: int| 0 <= j < d.len() implies abs(#[trigger] d[j]) < b by {
            if j > 0 {
                assert(d[j] == signed_digits(tdiv(x, b), b)[j - 1]);
            }
        }
    }
}

/// Trailing zeros do not change a recomposition.
pub proof fn lemma_recompose_zeros(d: Seq<int>, e: Seq<int>, b: int)
    requires
        forall|j: int| 0 <= j < e.len() ==> #[trigger] e[j] == 0,
    ensures
        recompose_int(d + e, b) == recompose_int(d, b),
    decreases d.len() + e.len(),
{
    if d.len() == 0 {
        if e.len() > 0 {
            assert(e.subrange(1, e.len() as int).len() < e.len());
            lemma_recompose_zeros(d, e.subrange(1, e.len() as int), b);
            assert((d + e).subrange(1, (d + e).len() as int) =~= d + e.subrange(
                1,
                e.len() as int,
            ));
            assert(d + e.subrange(1, e.len() as int) =~= e.subrange(1, e.len() as int));
            lemma_mul_basics(b);
        }
        assert(d + e =~= e);
    } else {
        lemma_recompose_zeros(d.subrange(1, d.len() as int), e, b);
        assert((d + e).subrange(1, (d + e).len() as int) =~= d.subrange(1, d.len() as int) + e);
    }
}

/// Congruent digits recompose to congruent integers.
pub proof fn lemma_recompose_congruent(d: Seq<int>, e: Seq<int>, b: int, m: int)
    requires
        m > 0,
        d.len() == e.len(),
        forall|j: int| 0 <= j < d.len() ==> #[trigger] (d[j] % m) == e[j] % m,
    ensures
        recompose_int(d, b) % m == recompose_int(e, b) % m,
    decreases d.len(),
{
    if d.len() > 0 {
        let d1 = d.subrange(1, d.len() as int);
        let e1 = e.subrange(1, e.len() as int);
        assert forall|j: int| 0 <= j < d1.len() implies #[trigger] (d1[j] % m) == e1[j] % m by {
            assert(d1[j] == d[j + 1]);
            assert(e1[j] == e[j + 1]);
        }
        lemma_recompose_congruent(d1, e1, b, m);
        let (rd, re) = (recompose_int(d1, b), recompose_int(e1, b));
        assert(d[0] % m == e[0] % m);
        lemma_mul_mod_noop_right(b, rd, m);
        lemma_mul_mod_noop_right(b, re, m);
        lemma_add_mod_noop(d[0], b * rd, m);
        lemma_add_mod_noop(e[0], b * re, m);
    }
}

/// Pads `v` with zeros up to `padding_size` when that is `Some(k)`.
fn pad_zeros<R: Ring>(v: &mut Vec<R>, padding_size: Option<usize>)
    requires
        R::modulus() >= 2,
        padding_size matches Some(k) ==> old(v)@.len() <= k,
    ensures
        final(v)@.len() == padded_len(old(v)@.len(), padding_size),
        forall|j: int| 0 <= j < old(v)@.len() ==> #[trigger] final(v)@[j] == old(v)@[j],
        forall|j: int|
            old(v)@.len() <= j < final(v)@.len() ==> (#[trigger] final(v)@[j]).wf()
                && final(v)@[j].val() == 0,
{
    if let Some(k) = padding_size {
        let ghost start = v@;
        while v.len() < k
            invariant
                R::modulus() >= 2,
                start.len() <= v@.len() <= k,
                forall|j: int| 0 <= j < start.len() ==> #[trigger] v@[j] == start[j],
                forall|j: int| start.len() <= j < v@.len() ==> (#[trigger] v@[j]).wf() && v@[j].val()
                    == 0,
            decreases k - v@.len(),
        {
            v.push(R::zero());
        }
    }
}

/// The decomposition of `v` in an even basis `basis >= 2`: the digits of its signed
/// representative as ring elements, least significant first, padded with zeros to
/// `padding_size` when that is `Some(k)` (which must leave room for all digits). Zero has no
/// digits. The digits recompose to `v`.
pub fn decompose<R: WithSignedRepresentative>(
    v: &R,
    basis: u128,
    padding_size: Option<usize>,
) -> (r: Vec<R>)
    requires
        v.wf(),
        R::modulus() >= 2,
        basis >= 2,
        basis % 2 == 0,
        basis <= R::repr_max(),
        padding_size matches Some(k) ==> signed_digits(v.signed(), basis as int).len() <= k,
    ensures
        r@.len() == padded_len(signed_digits(v.signed(), basis as int).len(), padding_size),
        all_wf(r@),
        forall|j: int|
            0 <= j < signed_digits(v.signed(), basis as int).len() ==> #[trigger] r@[j].val()
                == signed_digits(v.signed(), basis as int)[j] % R::modulus(),
        forall|j: int|
            signed_digits(v.signed(), basis as int).len() <= j < r@.len() ==> #[trigger] r@[j].val()
                == 0,
        forall|j: int|
            0 <= j < r@.len() ==> #[trigger] r@[j].signed() == digit_at(v.signed(), basis as int, j)
                && -(basis as int) < r@[j].signed() < basis,
        recompose_int(vals(r@), basis as int) % R::modulus() == v.val(),
{
    let ghost m = R::modulus();
    let ghost bb = basis as int;
    let ghost s = v.signed();
    proof {
        R::lemma_signed(*v);
    }
    let mut decomp: Vec<R> = Vec::new();
    let mut curr: i128 = v.as_signed_representative();
    let b: i128 = basis as i128;
    let ghost mut ds: Seq<int> = Seq::empty();
    while curr != 0
        invariant
            m == R::modulus(),
            m >= 2,
            bb == b,
            2 <= b <= R::repr_max(),
            i128::MIN <= R::repr_min() <= 0 <= R::repr_max() <= i128::MAX,
            R::repr_min() <= curr <= R::repr_max(),
            ds + signed_digits(curr as int, bb) == signed_digits(s, bb),
            decomp@.len() == ds.len(),
            all_wf(decomp@),
            forall|j: int| 0 <= j < ds.len() ==> #[trigger] decomp@[j].val() == ds[j] % m,
        decreases abs(curr as int),
    {
        proof {
            lemma_tdiv_shrinks(curr as int, bb);
        }
        let rem = curr % b;
        proof {
            let x = curr as int;
            lemma_fundamental_div_mod(abs(x), bb);
            if x >= 0 {
                assert(rem == x % bb);
            } else {
                assert(rem == -((-x) % bb));
                let y = -x;
                assert(bb * tdiv(x, bb) == -(bb * (y / bb))) by (nonlinear_arith)
                    requires
                        tdiv(x, bb) == -(y / bb),
                ;
            }
            assert(rem == trem(x, bb));
        }
        decomp.push(R::from_signed_representative(rem));
        let ghost old_curr = curr as int;
        curr = curr / b;
        proof {
            assert(curr == tdiv(old_curr, bb));
            assert(signed_digits(old_curr, bb) == seq![trem(old_curr, bb)] + signed_digits(
                curr as int,
                bb,
            ));
            assert(ds.push(rem as int) + signed_digits(curr as int, bb) =~= ds + signed_digits(
                old_curr,
                bb,
            ));
            ds = ds.push(rem as int);
        }
    }
    proof {
        assert(ds =~= signed_digits(s, bb));
    }
    let ghost unpadded = decomp@;
    pad_zeros(&mut decomp, padding_size);
    proof {
        let d = signed_digits(s, bb);
        law_signed_digits(s, bb);
        let rv = vals(decomp@);
        let head = rv.subrange(0, d.len() as int);
        let tail = rv.subrange(d.len() as int, rv.len() as int);
        assert(rv =~= head + tail);
        assert forall|j: int| 0 <= j < tail.len() implies #[trigger] tail[j] == 0 by {
            assert(tail[j] == decomp@[d.len() + j].val());
        }
        lemma_recompose_zeros(head, tail, bb);
        assert forall|j: int| 0 <= j < head.len() implies #[trigger] (head[j] % m) == d[j] % m by {
            assert(head[j] == decomp@[j].val());
            assert(decomp@[j] == unpadded[j]);
            lemma_mod_twice(d[j], m);
        }
        lemma_recompose_congruent(head, d, bb, m);
        R::lemma_signed(*v);
        assert forall|j: int| 0 <= j < decomp@.len() implies #[trigger] decomp@[j].wf() by {
            if j < unpadded.len() {
                assert(decomp@[j] == unpadded[j]);
            }
        }
        assert forall|j: int| 0 <= j < decomp@.len() implies #[trigger] decomp@[j].signed()
            == digit_at(s, bb, j) && -bb < decomp@[j].signed() < bb by {
            if j < d.len() {
                assert(decomp@[j] == unpadded[j]);
                assert(abs(d[j]) < bb);
                lemma_signed_of_small(decomp@[j], d[j]);
            } else {
                lemma_small_mod(0, m as nat);
                lemma_signed_of_small(decomp@[j], 0);
            }
        }
    }
    decomp
}

/// Digit `j` of `x` in basis `b`, zero beyond the last digit.
pub open spec fn digit_at(x: int, b: int, j: int) -> int {
    if 0 <= j < signed_digits(x, b).len() {
        signed_digits(x, b)[j]
    } else {
        0
    }
}

/// The largest entry of a sequence of lengths (zero for the empty sequence).
pub open spec fn seq_max(s: Seq<nat>) -> nat
    decreases s.len(),
{
    if s.len() == 0 {
        0
    } else if s.last() > seq_max(s.drop_last()) {
        s.last()
    } else {
        seq_max(s.drop_last())
    }
}

/// Every entry is at most the largest one.
pub proof fn lemma_seq_max(s: Seq<nat>)
    ensures
        forall|i: int| 0 <= i < s.len() ==> #[trigger] s[i] <= seq_max(s),
    decreases s.len(),
{
    if s.len() > 0 {
        lemma_seq_max(s.drop_last());
        assert forall|i: int| 0 <= i < s.len() implies #[trigger] s[i] <= seq_max(s) by {
            if i < s.len() - 1 {
                assert(s[i] == s.drop_last()[i]);
            }
        }
    }
}

/// The lengths of the rows of a ragged table.
pub open spec fn row_lens<T>(rows: Seq<Vec<T>>) -> Seq<nat> {
    Seq::new(rows.len(), |i: int| rows[i]@.len())
}

/// The number of digits of each signed representative in `v`.
pub open spec fn digit_lens<R: WithSignedRepresentative>(v: Seq<R>, b: int) -> Seq<nat> {
    Seq::new(v.len(), |i: int| signed_digits(v[i].signed(), b).len())
}

/// Pads every row of `rows` with `zero` to a common length — `k` for `Some(k)`, which must
/// be at least every row's length, and the longest row's length for `None` — and transposes
/// the result.
pub fn pad_and_transpose<T: Copy>(rows: &Vec<Vec<T>>, zero: T, padding_size: Option<usize>) -> (r:
    Vec<Vec<T>>)
    requires
        padding_size matches Some(k) ==> forall|i: int|
            0 <= i < rows@.len() ==> #[trigger] rows@[i]@.len() <= k,
    ensures
        r@.len() == padded_len(seq_max(row_lens(rows@)), padding_size),
        forall|j: int| 0 <= j < r@.len() ==> (#[trigger] r@[j])@.len() == rows@.len(),
        forall|j: int, i: int|
            0 <= j < r@.len() && 0 <= i < rows@.len() ==> #[trigger] r@[j]@[i] == (if j
                < rows@[i]@.len() {
                rows@[i]@[j]
            } else {
                zero
            }),
{
    let mut max_len: usize = 0;
    let mut i: usize = 0;
    while i < rows.len()
        invariant
            0 <= i <= rows@.len(),
            max_len == seq_max(row_lens(rows@).subrange(0, i as int)),
        decreases rows@.len() - i,
    {
        proof {
            assert(row_lens(rows@).subrange(0, i + 1int).drop_last() =~= row_lens(rows@).subrange(
                0,
                i as int,
            ));
        }
        if rows[i].len() > max_len {
            max_len = rows[i].len();
        }
        i += 1;
    }
    proof {
        assert(row_lens(rows@).subrange(0, rows@.len() as int) =~= row_lens(rows@));
    }
    let len = match padding_size {
        Some(k) => k,
        None => max_len,
    };
    let mut result: Vec<Vec<T>> = Vec::new();
    let mut j: usize = 0;
    while j < len
        invariant
            0 <= j <= len,
            result@.len() == j,
            forall|jj: int| 0 <= jj < j ==> (#[trigger] result@[jj])@.len() == rows@.len(),
            forall|jj: int, ii: int|
                0 <= jj < j && 0 <= ii < rows@.len() ==> #[trigger] result@[jj]@[ii] == (if jj
                    < rows@[ii]@.len() {
                    rows@[ii]@[jj]
                } else {
                    zero
                }),
        decreases len - j,
    {
        let mut row: Vec<T> = Vec::new();
        let mut i: usize = 0;
        while i < rows.len()
            invariant
                0 <= i <= rows@.len(),
                row@.len() == i,
                forall|ii: int|
                    0 <= ii < i ==> #[trigger] row@[ii] == (if j < rows@[ii]@.len() {
                        rows@[ii]@[j as int]
                    } else {
                        zero
                    }),
            decreases rows@.len() - i,
        {
            if j < rows[i].len() {
                row.push(rows[i][j]);
            } else {
                row.push(zero);
            }
            i += 1;
        }
        result.push(row);
        j += 1;
    }
    result
}

/// The decompositions of the entries of `v`, as `k` rows of `v.len()` digits: row `j` holds
/// digit `j` of every entry. Without padding, `k` is the largest number of digits.
pub fn decompose_vec<R: WithSignedRepresentative>(
    v: &[R],
    b: u128,
    padding_size: Option<usize>,
) -> (r: Vec<Vec<R>>)
    requires
        all_wf(v@),
        R::modulus() >= 2,
        b >= 2,
        b % 2 == 0,
        b <= R::repr_max(),
        padding_size matches Some(k) ==> forall|i: int|
            0 <= i < v@.len() ==> signed_digits(#[trigger] v@[i].signed(), b as int).len() <= k,
    ensures
        r@.len() == padded_len(seq_max(digit_lens(v@, b as int)), padding_size),
        forall|j: int| 0 <= j < r@.len() ==> (#[trigger] r@[j])@.len() == v@.len(),
        forall|j: int| 0 <= j < r@.len() ==> all_wf(#[trigger] r@[j]@),
        forall|j: int, i: int|
            0 <= j < r@.len() && 0 <= i < v@.len() ==> (#[trigger] r@[j]@[i]).val() == digit_at(
                v@[i].signed(),
                b as int,
                j,
            ) % R::modulus(),
{
    let mut decomp: Vec<Vec<R>> = Vec::new();
    let mut i: usize = 0;
    while i < v.len()
        invariant
            0 <= i <= v@.len(),
            all_wf(v@),
            R::modulus() >= 2,
            b >= 2,
            b % 2 == 0,
            b <= R::repr_max(),
            padding_size matches Some(k) ==> forall|i: int|
                0 <= i < v@.len() ==> signed_digits(#[trigger] v@[i].signed(), b as int).len()
                    <= k,
            decomp@.len() == i,
            forall|ii: int|
                0 <= ii < i ==> (#[trigger] decomp@[ii])@.len() == padded_len(
                    signed_digits(v@[ii].signed(), b as int).len(),
                    padding_size,
                ),
            forall|ii: int| 0 <= ii < i ==> all_wf(#[trigger] decomp@[ii]@),
            forall|ii: int, jj: int|
                0 <= ii < i && 0 <= jj < decomp@[ii]@.len() ==> (#[trigger] decomp@[ii]@[jj]).val()
                    == digit_at(v@[ii].signed(), b as int, jj) % R::modulus(),
        decreases v@.len() - i,
    {
        let d = decompose(&v[i], b, padding_size);
        proof {
            assert forall|jj: int| 0 <= jj < d@.len() implies (#[trigger] d@[jj]).val() == digit_at(
                v@[i as int].signed(),
                b as int,
                jj,
            ) % R::modulus() by {
                if jj >= signed_digits(v@[i as int].signed(), b as int).len() {
                    lemma_small_mod(0, R::modulus() as nat);
                }
            }
        }
        decomp.push(d);
        i += 1;
    }
    proof {
        assert(row_lens(decomp@) =~= digit_lens(v@, b as int) || padding_size is Some);
        if padding_size is None {
            assert(row_lens(decomp@) =~= digit_lens(v@, b as int));
        }
    }
    let zero = R::zero();
    let r = pad_and_transpose(&decomp, zero, padding_size);
    proof {
        assert forall|j: int, i: int|
            0 <= j < r@.len() && 0 <= i < v@.len() implies (#[trigger] r@[j]@[i]).val() == digit_at(
                v@[i].signed(),
                b as int,
                j,
            ) % R::modulus() by {
            if j >= decomp@[i]@.len() {
                lemma_small_mod(0, R::modulus() as nat);
                if padding_size is None {
                    assert(j >= signed_digits(v@[i].signed(), b as int).len());
                }
            }
        }
        assert forall|j: int| 0 <= j < r@.len() implies all_wf(#[trigger] r@[j]@) by {
            assert forall|i: int| 0 <= i < r@[j]@.len() implies #[trigger] r@[j]@[i].wf() by {
                if j < decomp@[i]@.len() {
                    assert(all_wf(decomp@[i]@));
                }
            }
        }
    }
    r
}

/// The decomposition of a polynomial, coefficient by coefficient: polynomial `j` of the result
/// has digit `j` of every coefficient of `v`.
pub fn decompose_polyring<PR: PolyRing>(v: &PR, b: u128, padding_size: Option<usize>) -> (r: Vec<
    PR,
>) where PR::BaseRing: WithSignedRepresentative
    requires
        v.wf(),
        b >= 2,
        b % 2 == 0,
        b <= PR::BaseRing::repr_max(),
        padding_size matches Some(k) ==> forall|i: int|
            0 <= i < PR::dim() ==> signed_digits(
                #[trigger] v.coeffs()[i].signed(),
                b as int,
            ).len() <= k,
    ensures
        r@.len() == padded_len(seq_max(digit_lens(v.coeffs(), b as int)), padding_size),
        forall|j: int| 0 <= j < r@.len() ==> (#[trigger] r@[j]).wf(),
        forall|j: int, i: int|
            0 <= j < r@.len() && 0 <= i < PR::dim() ==> (#[trigger] r@[j].coeffs()[i]).val()
                == digit_at(v.coeffs()[i].signed(), b as int, j) % PR::BaseRing::modulus(),
{
    proof {
        PR::lemma_poly_wf(*v);
    }
    let coeffs = v.coefficients();
    let rows = decompose_vec(coeffs.as_slice(), b, padding_size);
    let mut result: Vec<PR> = Vec::new();
    let mut j: usize = 0;
    while j < rows.len()
        invariant
            0 <= j <= rows@.len(),
            PR::params(),
            coeffs@ == v.coeffs(),
            coeffs@.len() == PR::dim(),
            forall|jj: int| 0 <= jj < rows@.len() ==> (#[trigger] rows@[jj])@.len() == PR::dim(),
            forall|jj: int| 0 <= jj < rows@.len() ==> all_wf(#[trigger] rows@[jj]@),
            result@.len() == j,
            forall|jj: int| 0 <= jj < j ==> (#[trigger] result@[jj]).wf(),
            forall|jj: int| 0 <= jj < j ==> (#[trigger] result@[jj]).coeffs() == rows@[jj]@,
        decreases rows@.len() - j,
    {
        let mut row: Vec<PR::BaseRing> = Vec::new();
        let mut c: usize = 0;
        while c < rows[j].len()
            invariant
                0 <= j < rows@.len(),
                0 <= c <= rows@[j as int]@.len(),
                row@ == rows@[j as int]@.subrange(0, c as int),
            decreases rows@[j as int]@.len() - c,
        {
            row.push(rows[j][c]);
            c += 1;
            proof {
                assert(row@ =~= rows@[j as int]@.subrange(0, c as int));
            }
        }
        proof {
            assert(row@ =~= rows@[j as int]@);
        }
        result.push(PR::from_coeff_vec(row));
        j += 1;
    }
    result
}

/// The decompositions of a vector of polynomials, as `k` vectors: vector `j` holds the
/// polynomials of digit `j` of every entry. Without padding, `k` is the largest number of
/// digits of any coefficient.
pub fn decompose_vec_polyring<PR: PolyRing>(
    v: &[PR],
    b: u128,
    padding_size: Option<usize>,
) -> (r: Vec<Vec<PR>>) where PR::BaseRing: WithSignedRepresentative
    requires
        PR::params(),
        forall|i: int| 0 <= i < v@.len() ==> (#[trigger] v@[i]).wf(),
        b >= 2,
        b % 2 == 0,
        b <= PR::BaseRing::repr_max(),
        padding_size matches Some(k) ==> forall|i: int, c: int|
            0 <= i < v@.len() && 0 <= c < PR::dim() ==> signed_digits(
                #[trigger] v@[i].coeffs()[c].signed(),
                b as int,
            ).len() <= k,
    ensures
        r@.len() == padded_len(
            seq_max(Seq::new(v@.len(), |i: int| seq_max(digit_lens(v@[i].coeffs(), b as int)))),
            padding_size,
        ),
        forall|j: int| 0 <= j < r@.len() ==> (#[trigger] r@[j])@.len() == v@.len(),
        forall|j: int, i: int|
            0 <= j < r@.len() && 0 <= i < v@.len() ==> (#[trigger] r@[j]@[i]).wf(),
        forall|j: int, i: int, c: int|
            0 <= j < r@.len() && 0 <= i < v@.len() && 0 <= c < PR::dim() ==> (
            #[trigger] r@[j]@[i].coeffs()[c]).val() == digit_at(
                v@[i].coeffs()[c].signed(),
                b as int,
                j,
            ) % PR::BaseRing::modulus(),
{
    proof {
        PR::lemma_params();
    }
    let ghost lens = Seq::new(v@.len(), |i: int| seq_max(digit_lens(v@[i].coeffs(), b as int)));
    let mut decomp: Vec<Vec<PR>> = Vec::new();
    let mut i: usize = 0;
    while i < v.len()
        invariant
            0 <= i <= v@.len(),
            PR::params(),
            PR::BaseRing::modulus() >= 2,
            forall|i: int| 0 <= i < v@.len() ==> (#[trigger] v@[i]).wf(),
            b >= 2,
            b % 2 == 0,
            b <= PR::BaseRing::repr_max(),
            padding_size matches Some(k) ==> forall|i: int, c: int|
                0 <= i < v@.len() && 0 <= c < PR::dim() ==> signed_digits(
                    #[trigger] v@[i].coeffs()[c].signed(),
                    b as int,
                ).len() <= k,
            lens == Seq::new(v@.len(), |i: int| seq_max(digit_lens(v@[i].coeffs(), b as int))),
            decomp@.len() == i,
            forall|ii: int|
                0 <= ii < i ==> (#[trigger] decomp@[ii])@.len() == padded_len(lens[ii], padding_size),
            forall|ii: int, jj: int|
                0 <= ii < i && 0 <= jj < decomp@[ii]@.len() ==> (#[trigger] decomp@[ii]@[jj]).wf(),
            forall|ii: int, jj: int, c: int|
                0 <= ii < i && 0 <= jj < decomp@[ii]@.len() && 0 <= c < PR::dim() ==> (
                #[trigger] decomp@[ii]@[jj].coeffs()[c]).val() == digit_at(
                    v@[ii].coeffs()[c].signed(),
                    b as int,
                    jj,
                ) % PR::BaseRing::modulus(),
        decreases v@.len() - i,
    {
        let d = decompose_polyring(&v[i], b, padding_size);
        decomp.push(d);
        i += 1;
    }
    proof {
        if padding_size is None {
            assert(row_lens(decomp@) =~= lens);
        } else {
            assert forall|ii: int| 0 <= ii < decomp@.len() implies #[trigger] decomp@[ii]@.len()
                <= padding_size->0 by {
            }
        }
    }
    let zero = PR::zero();
    let r = pad_and_transpose(&decomp, zero, padding_size);
    proof {
        assert forall|j: int, i: int|
            0 <= j < r@.len() && 0 <= i < v@.len() implies (#[trigger] r@[j]@[i]).wf() by {
            if j < decomp@[i]@.len() {
                assert(decomp@[i]@[j].wf());
            }
        }
        assert forall|j: int, i: int, c: int|
            0 <= j < r@.len() && 0 <= i < v@.len() && 0 <= c < PR::dim() implies (
            #[trigger] r@[j]@[i].coeffs()[c]).val() == digit_at(
                v@[i].coeffs()[c].signed(),
                b as int,
                j,
            ) % PR::BaseRing::modulus() by {
            PR::lemma_poly_wf(v@[i]);
            if j >= decomp@[i]@.len() {
                lemma_small_mod(0, PR::BaseRing::modulus() as nat);
                assert(r@[j]@[i] == zero);
                PR::lemma_poly_wf(zero);
                assert(vals(zero.coeffs())[c] == 0);
                if padding_size is None {
                    lemma_seq_max(digit_lens(v@[i].coeffs(), b as int));
                    assert(digit_lens(v@[i].coeffs(), b as int)[c] <= lens[i]);
                    assert(j >= signed_digits(v@[i].coeffs()[c].signed(), b as int).len());
                    assert(digit_at(v@[i].coeffs()[c].signed(), b as int, j) == 0);
                } else {
                    assert(false);
                }
            } else {
                assert(r@[j]@[i] == decomp@[i]@[j]);
                assert(decomp@[i]@[j].coeffs()[c].val() == digit_at(
                    v@[i].coeffs()[c].signed(),
                    b as int,
                    j,
                ) % PR::BaseRing::modulus());
            }
        }
    }
    r
}

/// The gadget decomposition of a matrix with `m` rows: each entry becomes its `k` digits, so
/// that row `i` of the result is the concatenation of the decompositions of the entries of row
/// `i`, each padded to `k`.
pub fn decompose_matrix<R: WithSignedRepresentative>(
    mat: &Vec<Vec<R>>,
    decomposition_basis: u128,
    decomposition_length: usize,
) -> (r: Vec<Vec<R>>)
    requires
        forall|i: int| 0 <= i < mat@.len() ==> all_wf(#[trigger] mat@[i]@),
        R::modulus() >= 2,
        decomposition_basis >= 2,
        decomposition_basis % 2 == 0,
        decomposition_basis <= R::repr_max(),
        forall|i: int, j: int|
            0 <= i < mat@.len() && 0 <= j < mat@[i]@.len() ==> signed_digits(
                #[trigger] mat@[i]@[j].signed(),
                decomposition_basis as int,
            ).len() <= decomposition_length,
        forall|i: int|
            0 <= i < mat@.len() ==> (#[trigger] mat@[i])@.len() * decomposition_length
                <= usize::MAX,
    ensures
        r@.len() == mat@.len(),
        forall|i: int|
            0 <= i < mat@.len() ==> (#[trigger] r@[i])@.len() == mat@[i]@.len()
                * decomposition_length,
        forall|i: int| 0 <= i < r@.len() ==> all_wf(#[trigger] r@[i]@),
        forall|i: int, j: int, t: int|
            0 <= i < mat@.len() && 0 <= j < mat@[i]@.len() && 0 <= t < decomposition_length
                ==> (#[trigger] r@[i]@[j * decomposition_length + t]).val() == digit_at(
                #[trigger] mat@[i]@[j].signed(),
                decomposition_basis as int,
                t,
            ) % R::modulus(),
{
    let k = decomposition_length;
    let mut result: Vec<Vec<R>> = Vec::new();
    let mut i: usize = 0;
    while i < mat.len()
        invariant
            0 <= i <= mat@.len(),
            k == decomposition_length,
            forall|i: int| 0 <= i < mat@.len() ==> all_wf(#[trigger] mat@[i]@),
            R::modulus() >= 2,
            decomposition_basis >= 2,
            decomposition_basis % 2 == 0,
            decomposition_basis <= R::repr_max(),
            forall|i: int, j: int|
                0 <= i < mat@.len() && 0 <= j < mat@[i]@.len() ==> signed_digits(
                    #[trigger] mat@[i]@[j].signed(),
                    decomposition_basis as int,
                ).len() <= decomposition_length,
            forall|i: int|
                0 <= i < mat@.len() ==> (#[trigger] mat@[i])@.len() * decomposition_length
                    <= usize::MAX,
            result@.len() == i,
            forall|ii: int|
                0 <= ii < i ==> (#[trigger] result@[ii])@.len() == mat@[ii]@.len() * k,
            forall|ii: int| 0 <= ii < i ==> all_wf(#[trigger] result@[ii]@),
            forall|ii: int, j: int, t: int|
                0 <= ii < i && 0 <= j < mat@[ii]@.len() && 0 <= t < k ==> (#[trigger] result@[ii]@[j
                    * k + t]).val() == digit_at(
                    #[trigger] mat@[ii]@[j].signed(),
                    decomposition_basis as int,
                    t,
                ) % R::modulus(),
        decreases mat@.len() - i,
    {
        let mut row: Vec<R> = Vec::new();
        let mut j: usize = 0;
        let n = mat[i].len();
        while j < n
            invariant
                0 <= j <= n,
                n == mat@[i as int]@.len(),
                0 <= i < mat@.len(),
                k == decomposition_length,
                all_wf(mat@[i as int]@),
                R::modulus() >= 2,
                decomposition_basis >= 2,
                decomposition_basis % 2 == 0,
                decomposition_basis <= R::repr_max(),
                forall|j: int|
                    0 <= j < n ==> signed_digits(
                        #[trigger] mat@[i as int]@[j].signed(),
                        decomposition_basis as int,
                    ).len() <= k,
                n * k <= usize::MAX,
                row@.len() == j * k,
                all_wf(row@),
                forall|jj: int, t: int|
                    0 <= jj < j && 0 <= t < k ==> (#[trigger] row@[jj * k + t]).val() == digit_at(
                        #[trigger] mat@[i as int]@[jj].signed(),
                        decomposition_basis as int,
                        t,
                    ) % R::modulus(),
            decreases n - j,
        {
            let d = decompose(&mat[i][j], decomposition_basis, Some(k));
            let ghost before = row@;
            let mut t: usize = 0;
            proof {
                assert((j + 1) * k <= n * k) by (nonlinear_arith)
                    requires
                        j < n,
                ;
                assert((j + 1) * k == j * k + k) by (nonlinear_arith);
            }
            while t < k
                invariant
                    0 <= t <= k,
                    d@.len() == k,
                    all_wf(d@),
                    row@.len() == before.len() + t,
                    before.len() == j * k,
                    (j + 1) * k <= usize::MAX,
                    all_wf(row@),
                    forall|p: int| 0 <= p < before.len() ==> #[trigger] row@[p] == before[p],
                    forall|p: int| 0 <= p < t ==> #[trigger] row@[before.len() + p] == d@[p],
                decreases k - t,
            {
                row.push(d[t]);
                t += 1;
            }
            proof {
                assert forall|jj: int, tt: int|
                    0 <= jj < j + 1 && 0 <= tt < k implies (#[trigger] row@[jj * k + tt]).val()
                    == digit_at(
                    #[trigger] mat@[i as int]@[jj].signed(),
                    decomposition_basis as int,
                    tt,
                ) % R::modulus() by {
                    if jj < j {
                        assert(jj * k + tt < j * k) by (nonlinear_arith)
                            requires
                                jj < j,
                                tt < k,
                        ;
                        assert(0 <= jj * k + tt) by (nonlinear_arith)
                            requires
                                0 <= jj,
                                0 <= tt,
                        ;
                        assert(row@[jj * k + tt] == before[jj * k + tt]);
                    } else {
                        assert(row@[jj * k + tt] == d@[tt]);
                        if tt >= signed_digits(
                            mat@[i as int]@[jj].signed(),
                            decomposition_basis as int,
                        ).len() {
                            lemma_small_mod(0, R::modulus() as nat);
                        }
                    }
                }
            }
            j += 1;
        }
        result.push(row);
        i += 1;
    }
    result
}

/// `d[0] + b d[1] + b^2 d[2] + ...` in the ring, by Horner's rule.
pub fn recompose<R: Ring>(decomp: &[R], b: &R) -> (r: R)
    requires
        R::modulus() >= 2,
        all_wf(decomp@),
        b.wf(),
    ensures
        r.wf(),
        r.val() == recompose_int(vals(decomp@), b.val()) % R::modulus(),
{
    let ghost m = R::modulus();
    let ghost d = vals(decomp@);
    let mut acc = R::zero();
    let mut i: usize = decomp.len();
    proof {
        assert(d.subrange(d.len() as int, d.len() as int) =~= Seq::<int>::empty());
        lemma_small_mod(0, m as nat);
    }
    while i > 0
        invariant
            0 <= i <= decomp@.len(),
            m == R::modulus(),
            m >= 2,
            d == vals(decomp@),
            all_wf(decomp@),
            b.wf(),
            acc.wf(),
            acc.val() == recompose_int(d.subrange(i as int, d.len() as int), b.val()) % m,
        decreases i,
    {
        i -= 1;
        let prod = acc.mul(b);
        acc = prod.add(&decomp[i]);
        proof {
            let tail = d.subrange(i as int, d.len() as int);
            assert(tail.subrange(1, tail.len() as int) =~= d.subrange(i + 1, d.len() as int));
            let rest = recompose_int(d.subrange(i + 1, d.len() as int), b.val());
            // acc = ((rest % m) * b % m + d[i]) % m = (d[i] + b * rest) % m
            lemma_mul_mod_noop_left(rest, b.val(), m);
            lemma_mul_is_commutative(rest, b.val());
            lemma_add_mod_noop(b.val() * rest, d[i as int], m);
            R::lemma_wf(decomp@[i as int]);
            lemma_small_mod(d[i as int] as nat, m as nat);
            lemma_mod_twice(b.val() * rest, m);
        }
    }
    proof {
        assert(d.subrange(0, d.len() as int) =~= d);
    }
    acc
}

/// `sum_{t < upto} p[t] d[off + t]`.
pub open spec fn weighted_sum(p: Seq<int>, d: Seq<int>, off: int, upto: nat) -> int
    decreases upto,
{
    if upto == 0 {
        0
    } else {
        weighted_sum(p, d, off, (upto - 1) as nat) + p[upto - 1] * d[off + upto - 1]
    }
}

/// The powers `1, b, b^2, ..., b^(k-1)` of the basis.
pub fn powers_of_basis<R: Ring>(b: &R, k: usize) -> (r: Vec<R>)
    requires
        R::modulus() >= 2,
        b.wf(),
    ensures
        r@.len() == k,
        all_wf(r@),
        forall|t: int| 0 <= t < k ==> #[trigger] r@[t].val() == pow(b.val(), t as nat) % R::modulus(),
{
    let ghost m = R::modulus();
    let mut r: Vec<R> = Vec::new();
    let mut acc = R::one();
    proof {
        reveal(pow);
        lemma_small_mod(1, m as nat);
    }
    let mut t: usize = 0;
    while t < k
        invariant
            m == R::modulus(),
            m >= 2,
            b.wf(),
            0 <= t <= k,
            r@.len() == t,
            all_wf(r@),
            forall|q: int| 0 <= q < t ==> #[trigger] r@[q].val() == pow(b.val(), q as nat) % m,
            acc.wf(),
            acc.val() == pow(b.val(), t as nat) % m,
        decreases k - t,
    {
        r.push(acc);
        acc = acc.mul(b);
        proof {
            reveal(pow);
            assert(pow(b.val(), (t + 1) as nat) == b.val() * pow(b.val(), t as nat));
            lemma_mul_mod_noop_left(pow(b.val(), t as nat), b.val(), m);
            lemma_mul_is_commutative(pow(b.val(), t as nat), b.val());
        }
        t += 1;
    }
    r
}

/// The inverse of the gadget decomposition of a matrix: every block of `k = pows.len()`
/// consecutive entries of a row becomes `sum_t pows[t] d_t`.
pub fn recompose_matrix<R: Ring>(decomp: &Vec<Vec<R>>, pows: &Vec<R>) -> (r: Vec<Vec<R>>)
    requires
        R::modulus() >= 2,
        pows@.len() >= 1,
        all_wf(pows@),
        forall|i: int| 0 <= i < decomp@.len() ==> all_wf(#[trigger] decomp@[i]@),
        forall|i: int|
            0 <= i < decomp@.len() ==> (#[trigger] decomp@[i])@.len() % pows@.len() == 0,
    ensures
        r@.len() == decomp@.len(),
        forall|i: int|
            0 <= i < decomp@.len() ==> (#[trigger] r@[i])@.len() == decomp@[i]@.len()
                / pows@.len(),
        forall|i: int| 0 <= i < r@.len() ==> all_wf(#[trigger] r@[i]@),
        forall|i: int, j: int|
            0 <= i < r@.len() && 0 <= j < r@[i]@.len() ==> (#[trigger] r@[i]@[j]).val()
                == weighted_sum(vals(pows@), vals(decomp@[i]@), j * pows@.len(), pows@.len() as nat)
                % R::modulus(),
{
    let ghost m = R::modulus();
    let k = pows.len();
    let mut out: Vec<Vec<R>> = Vec::new();
    let mut i: usize = 0;
    while i < decomp.len()
        invariant
            m == R::modulus(),
            m >= 2,
            k == pows@.len(),
            k >= 1,
            all_wf(pows@),
            forall|i: int| 0 <= i < decomp@.len() ==> all_wf(#[trigger] decomp@[i]@),
            forall|i: int| 0 <= i < decomp@.len() ==> (#[trigger] decomp@[i])@.len() % (k as nat) == 0,
            0 <= i <= decomp@.len(),
            out@.len() == i,
            forall|a: int| 0 <= a < i ==> (#[trigger] out@[a])@.len() == decomp@[a]@.len() / (k as nat),
            forall|a: int| 0 <= a < i ==> all_wf(#[trigger] out@[a]@),
            forall|a: int, j: int|
                0 <= a < i && 0 <= j < out@[a]@.len() ==> (#[trigger] out@[a]@[j]).val()
                    == weighted_sum(vals(pows@), vals(decomp@[a]@), j * k, k as nat) % m,
        decreases decomp@.len() - i,
    {
        let len = decomp[i].len();
        let n = len / k;
        let mut row: Vec<R> = Vec::new();
        let mut j: usize = 0;
        proof {
            assert(all_wf(decomp@[i as int]@));
            lemma_fundamental_div_mod(len as int, k as int);
            lemma_mul_is_commutative(n as int, k as int);
        }
        while j < n
            invariant
                m == R::modulus(),
                m >= 2,
                k == pows@.len(),
                k >= 1,
                all_wf(pows@),
                0 <= i < decomp@.len(),
                all_wf(decomp@[i as int]@),
                n * k == decomp@[i as int]@.len(),
                len == decomp@[i as int]@.len(),
                0 <= j <= n,
                row@.len() == j,
                all_wf(row@),
                forall|q: int|
                    0 <= q < j ==> (#[trigger] row@[q]).val() == weighted_sum(
                        vals(pows@),
                        vals(decomp@[i as int]@),
                        q * k,
                        k as nat,
                    ) % m,
            decreases n - j,
        {
            let mut acc = R::zero();
            let mut t: usize = 0;
            proof {
                lemma_small_mod(0, m as nat);
                assert((j + 1) * k <= n * k) by (nonlinear_arith)
                    requires
                        j < n,
                ;
                assert((j + 1) * k == j * k + k) by (nonlinear_arith);
            }
            while t < k
                invariant
                    m == R::modulus(),
                    m >= 2,
                    k == pows@.len(),
                    all_wf(pows@),
                    0 <= i < decomp@.len(),
                    all_wf(decomp@[i as int]@),
                    j * k + k <= decomp@[i as int]@.len(),
                    len == decomp@[i as int]@.len(),
                    0 <= t <= k,
                    acc.wf(),
                    acc.val() == weighted_sum(
                        vals(pows@),
                        vals(decomp@[i as int]@),
                        j * k,
                        t as nat,
                    ) % m,
                decreases k - t,
            {
                let prod = pows[t].mul(&decomp[i][j * k + t]);
                proof {
                    let prev = weighted_sum(vals(pows@), vals(decomp@[i as int]@), j * k, t as nat);
                    let term = vals(pows@)[t as int] * vals(decomp@[i as int]@)[j * k + t];
                    assert(weighted_sum(vals(pows@), vals(decomp@[i as int]@), j * k, (t + 1) as nat)
                        == prev + term);
                    lemma_add_mod_noop(prev, term, m);
                    lemma_mod_twice(prev, m);
                    lemma_mod_twice(term, m);
                }
                acc = acc.add(&prod);
                t += 1;
            }
            row.push(acc);
            j += 1;
        }
        out.push(row);
        i += 1;
    }
    out
}

/// The coefficient-wise recomposition of a decomposition of a polynomial:
/// `sum_j b^j d_j`, coefficient by coefficient.
pub fn recompose_polyring<PR: PolyRing>(decomp: &Vec<PR>, b: &PR::BaseRing) -> (r: PR)
    requires
        PR::params(),
        forall|j: int| 0 <= j < decomp@.len() ==> (#[trigger] decomp@[j]).wf(),
        b.wf(),
    ensures
        r.wf(),
        forall|c: int|
            0 <= c < PR::dim() ==> (#[trigger] r.coeffs()[c]).val() == recompose_int(
                Seq::new(decomp@.len(), |j: int| decomp@[j].coeffs()[c].val()),
                b.val(),
            ) % PR::BaseRing::modulus(),
{
    proof {
        PR::lemma_params();
    }
    let d = PR::dimension();
    let mut coeffs: Vec<PR::BaseRing> = Vec::new();
    let mut c: usize = 0;
    while c < d
        invariant
            PR::params(),
            PR::BaseRing::modulus() >= 2,
            d == PR::dim(),
            forall|j: int| 0 <= j < decomp@.len() ==> (#[trigger] decomp@[j]).wf(),
            b.wf(),
            0 <= c <= d,
            coeffs@.len() == c,
            all_wf(coeffs@),
            forall|q: int|
                0 <= q < c ==> (#[trigger] coeffs@[q]).val() == recompose_int(
                    Seq::new(decomp@.len(), |j: int| decomp@[j].coeffs()[q].val()),
                    b.val(),
                ) % PR::BaseRing::modulus(),
        decreases d - c,
    {
        let mut column: Vec<PR::BaseRing> = Vec::new();
        let mut j: usize = 0;
        while j < decomp.len()
            invariant
                PR::params(),
                d == PR::dim(),
                0 <= c < d,
                forall|j: int| 0 <= j < decomp@.len() ==> (#[trigger] decomp@[j]).wf(),
                0 <= j <= decomp@.len(),
                column@.len() == j,
                all_wf(column@),
                forall|q: int| 0 <= q < j ==> #[trigger] column@[q] == decomp@[q].coeffs()[c as int],
            decreases decomp@.len() - j,
        {
            let cs = decomp[j].coefficients();
            proof {
                PR::lemma_poly_wf(decomp@[j as int]);
            }
            column.push(cs[c]);
            j += 1;
        }
        let v = recompose(column.as_slice(), b);
        proof {
            assert(vals(column@) =~= Seq::new(decomp@.len(), |j: int| decomp@[j].coeffs()[c as int].val()));
        }
        coeffs.push(v);
        c += 1;
    }
    let r = PR::from_coeff_vec(coeffs);
    r
}

/// `sum_{t < upto} p[t] mat(a, col + t)`.
pub open spec fn lr_inner<R: Ring>(p: Seq<int>, mat: SymmetricMatrix<R>, a: int, col: int, upto: nat) -> int
    decreases upto,
{
    if upto == 0 {
        0
    } else {
        lr_inner(p, mat, a, col, (upto - 1) as nat) + p[upto - 1] * mat.entry(a, col + upto - 1).val()
    }
}

/// `sum_{s < upto} p[s] sum_{t < k} p[t] mat(row + s, col + t)`.
pub open spec fn lr_sum<R: Ring>(p: Seq<int>, mat: SymmetricMatrix<R>, row: int, col: int, k: nat, upto: nat) -> int
    decreases upto,
{
    if upto == 0 {
        0
    } else {
        lr_sum(p, mat, row, col, k, (upto - 1) as nat) + p[upto - 1] * lr_inner(
            p,
            mat,
            row + upto - 1,
            col,
            k,
        )
    }
}

/// `((x mod m) + (p (y mod m)) mod m) mod m = (x + p y) mod m`.
proof fn lemma_acc_step(x: int, p: int, y: int, m: int)
    requires
        m > 0,
    ensures
        ((x % m) + (p * (y % m)) % m) % m == (x + p * y) % m,
{
    lemma_mul_mod_noop_right(p, y, m);
    lemma_add_mod_noop(x, p * y, m);
    lemma_mod_twice(x, m);
    lemma_mod_twice(p * y, m);
}

/// `G^T M G` for the gadget matrix `G = I_n (x) (pows[0], ..., pows[k-1])^T`: entry `(i, j)`
/// is `sum_{s,t < k} pows[s] pows[t] mat(i k + s, j k + t)`.
pub fn recompose_left_right_symmetric_matrix<R: Ring>(mat: &SymmetricMatrix<R>, pows: &Vec<R>) -> (r:
    SymmetricMatrix<R>)
    requires
        R::modulus() >= 2,
        pows@.len() >= 1,
        all_wf(pows@),
        mat.wf(),
        mat.entries_wf(),
        mat.dim() % (pows@.len() as nat) == 0,
    ensures
        r.wf(),
        r.entries_wf(),
        r.dim() == mat.dim() / (pows@.len() as nat),
        forall|i: int, j: int|
            0 <= j <= i < r.dim() ==> (#[trigger] r.entry(i, j)).val() == lr_sum(
                vals(pows@),
                *mat,
                i * pows@.len(),
                j * pows@.len(),
                pows@.len() as nat,
                pows@.len() as nat,
            ) % R::modulus(),
{
    let ghost m = R::modulus();
    let ghost p = vals(pows@);
    let k = pows.len();
    let size = mat.size();
    let n = size / k;
    proof {
        lemma_fundamental_div_mod(size as int, k as int);
        lemma_mul_is_commutative(n as int, k as int);
    }
    let mut rows: Vec<Vec<R>> = Vec::new();
    let mut i: usize = 0;
    while i < n
        invariant
            m == R::modulus(),
            m >= 2,
            p == vals(pows@),
            k == pows@.len(),
            k >= 1,
            all_wf(pows@),
            mat.wf(),
            mat.entries_wf(),
            size == mat.dim(),
            n * k == size,
            0 <= i <= n,
            rows@.len() == i,
            crate::symmetric_matrix::is_lower_triangle(rows@),
            forall|a: int| 0 <= a < i ==> all_wf(#[trigger] rows@[a]@),
            forall|a: int, b: int|
                0 <= b <= a < i ==> (#[trigger] rows@[a]@[b]).val() == lr_sum(
                    p,
                    *mat,
                    a * k,
                    b * k,
                    k as nat,
                    k as nat,
                ) % m,
        decreases n - i,
    {
        let mut row: Vec<R> = Vec::new();
        let mut j: usize = 0;
        while j <= i
            invariant
                m == R::modulus(),
                m >= 2,
                p == vals(pows@),
                k == pows@.len(),
                k >= 1,
                all_wf(pows@),
                mat.wf(),
                mat.entries_wf(),
                size == mat.dim(),
                n * k == size,
                0 <= i < n,
                0 <= j <= i + 1,
                row@.len() == j,
                all_wf(row@),
                forall|b: int|
                    0 <= b < j ==> (#[trigger] row@[b]).val() == lr_sum(
                        p,
                        *mat,
                        i * k,
                        b * k,
                        k as nat,
                        k as nat,
                    ) % m,
            decreases i + 1 - j,
        {
            proof {
                assert(i * k + k <= n * k) by (nonlinear_arith)
                    requires
                        i < n,
                ;
                assert(j * k + k <= n * k) by (nonlinear_arith)
                    requires
                        j <= i,
                        i < n,
                ;
                lemma_small_mod(0, m as nat);
            }
            let mut acc = R::zero();
            let mut s: usize = 0;
            while s < k
                invariant
                    m == R::modulus(),
                    m >= 2,
                    p == vals(pows@),
                    k == pows@.len(),
                    all_wf(pows@),
                    mat.wf(),
                    mat.entries_wf(),
                    size == mat.dim(),
                    i * k + k <= size,
                    j * k + k <= size,
                    0 <= s <= k,
                    acc.wf(),
                    acc.val() == lr_sum(p, *mat, i * k, j * k, k as nat, s as nat) % m,
                decreases k - s,
            {
                let mut inner = R::zero();
                let mut t: usize = 0;
                while t < k
                    invariant
                        m == R::modulus(),
                        m >= 2,
                        p == vals(pows@),
                        k == pows@.len(),
                        all_wf(pows@),
                        mat.wf(),
                        mat.entries_wf(),
                        size == mat.dim(),
                        i * k + k <= size,
                        j * k + k <= size,
                        0 <= s < k,
                        0 <= t <= k,
                        inner.wf(),
                        inner.val() == lr_inner(p, *mat, i * k + s, j * k, t as nat) % m,
                    decreases k - t,
                {
                    let e = mat.at(i * k + s, j * k + t);
                    proof {
                        if j * k + t <= i * k + s {
                            assert(all_wf(mat.tri()[(i * k + s) as int]@));
                        } else {
                            assert(all_wf(mat.tri()[(j * k + t) as int]@));
                        }
                        lemma_acc_step(
                            lr_inner(p, *mat, i * k + s, j * k, t as nat),
                            p[t as int],
                            mat.entry((i * k + s) as int, (j * k + t) as int).val(),
                            m,
                        );
                        R::lemma_wf(*e);
                        lemma_small_mod(e.val() as nat, m as nat);
                    }
                    let prod = pows[t].mul(e);
                    inner = inner.add(&prod);
                    t += 1;
                }
                proof {
                    lemma_acc_step(
                        lr_sum(p, *mat, i * k, j * k, k as nat, s as nat),
                        p[s as int],
                        lr_inner(p, *mat, i * k + s, j * k, k as nat),
                        m,
                    );
                }
                let prod = pows[s].mul(&inner);
                acc = acc.add(&prod);
                s += 1;
            }
            row.push(acc);
            j += 1;
        }
        rows.push(row);
        i += 1;
    }
    let r = SymmetricMatrix::from_rows(rows);
    proof {
        assert forall|a: int| 0 <= a < r.dim() implies all_wf(#[trigger] r.tri()[a]@) by {
            assert(all_wf(rows@[a]@));
        }
    }
    r
}

/// `sum_{t < upto} b^t e[t]`.
pub open spec fn pow_sum(e: Seq<int>, b: int, upto: nat) -> int
    decreases upto,
{
    if upto == 0 {
        0
    } else {
        pow_sum(e, b, (upto - 1) as nat) + pow(b, (upto - 1) as nat) * e[upto - 1]
    }
}

/// Peeling the lowest term off a sum of powers.
proof fn lemma_pow_sum_shift(e: Seq<int>, b: int, n: nat)
    requires
        1 <= n <= e.len(),
    ensures
        pow_sum(e, b, n) == e[0] + b * pow_sum(e.subrange(1, e.len() as int), b, (n - 1) as nat),
    decreases n,
{
    let e1 = e.subrange(1, e.len() as int);
    reveal(pow);
    if n == 1 {
        assert(pow(b, 0) == 1);
        assert(pow_sum(e, b, 0) == 0);
        assert(pow_sum(e1, b, 0) == 0);
    } else {
        lemma_pow_sum_shift(e, b, (n - 1) as nat);
        let prev = pow_sum(e1, b, (n - 2) as nat);
        assert(e1[n - 2] == e[n - 1]);
        assert(pow(b, (n - 1) as nat) == b * pow(b, (n - 2) as nat));
        assert(pow_sum(e1, b, (n - 1) as nat) == prev + pow(b, (n - 2) as nat) * e[n - 1]);
        assert(b * (prev + pow(b, (n - 2) as nat) * e[n - 1]) == b * prev + (b * pow(
            b,
            (n - 2) as nat,
        )) * e[n - 1]) by (nonlinear_arith);
    }
}

/// Horner's rule and the sum of powers agree.
pub proof fn lemma_recompose_is_pow_sum(e: Seq<int>, b: int)
    ensures
        recompose_int(e, b) == pow_sum(e, b, e.len()),
    decreases e.len(),
{
    if e.len() > 0 {
        let e1 = e.subrange(1, e.len() as int);
        lemma_recompose_is_pow_sum(e1, b);
        lemma_pow_sum_shift(e, b, e.len());
    }
}

/// Reduced weights and reduced digits give the sum of powers modulo `m`.
proof fn lemma_weighted_is_pow_sum(p: Seq<int>, d: Seq<int>, off: int, e: Seq<int>, b: int, m: int, k: nat)
    requires
        m > 0,
        k <= e.len(),
        p.len() >= k,
        0 <= off,
        off + k <= d.len(),
        forall|t: int| 0 <= t < k ==> #[trigger] p[t] == pow(b, t as nat) % m,
        forall|t: int| 0 <= t < k ==> #[trigger] (d[off + t] % m) == e[t] % m,
    ensures
        weighted_sum(p, d, off, k) % m == pow_sum(e, b, k) % m,
    decreases k,
{
    if k > 0 {
        lemma_weighted_is_pow_sum(p, d, off, e, b, m, (k - 1) as nat);
        let t = k - 1;
        let (ws, ps) = (weighted_sum(p, d, off, t as nat), pow_sum(e, b, t as nat));
        let pw = pow(b, t as nat);
        // p[t] d[off + t] = pw e[t] (mod m)
        lemma_mul_mod_noop(pw, e[t], m);
        lemma_mul_mod_noop(p[t], d[off + t], m);
        lemma_mod_twice(pw, m);
        assert(p[t] % m == pw % m);
        assert((p[t] * d[off + t]) % m == (pw * e[t]) % m);
        lemma_add_mod_noop(ws, p[t] * d[off + t], m);
        lemma_add_mod_noop(ps, pw * e[t], m);
    }
}

/// The gadget decomposition and its recomposition undo each other: weighting the `k` padded
/// digits of `x` in basis `b` with the powers of `b` gives `x` back.
pub proof fn law_gadget_roundtrip<R: WithSignedRepresentative>(
    x: R,
    b: int,
    k: nat,
    pows: Seq<int>,
    d: Seq<int>,
    off: int,
)
    requires
        x.wf(),
        b >= 2,
        signed_digits(x.signed(), b).len() <= k,
        pows.len() == k,
        forall|t: int| 0 <= t < k ==> #[trigger] pows[t] == pow(b, t as nat) % R::modulus(),
        0 <= off,
        off + k <= d.len(),
        forall|t: int|
            0 <= t < k ==> #[trigger] d[off + t] == digit_at(x.signed(), b, t) % R::modulus(),
    ensures
        weighted_sum(pows, d, off, k) % R::modulus() == x.val(),
{
    R::lemma_signed(x);
    R::lemma_wf(x);
    let m = R::modulus();
    let digits = signed_digits(x.signed(), b);
    let e = Seq::new(k, |t: int| digit_at(x.signed(), b, t));
    assert forall|t: int| 0 <= t < k implies #[trigger] (d[off + t] % m) == e[t] % m by {
        lemma_mod_twice(e[t], m);
    }
    lemma_weighted_is_pow_sum(pows, d, off, e, b, m, k);
    lemma_recompose_is_pow_sum(e, b);
    law_signed_digits(x.signed(), b);
    let tail = e.subrange(digits.len() as int, k as int);
    assert(e =~= digits + tail);
    lemma_recompose_zeros(digits, tail, b);
}

} // verus!
