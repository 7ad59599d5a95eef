//! Symmetric matrices stored as their lower triangle: row `i` holds the entries `(i, 0..=i)`.
use rand::rngs::StdRng;
use vstd::prelude::*;

use crate::ring::{all_wf, Ring};

verus! {

/// Row `i` of `rows` holds `i + 1` entries.
pub open spec fn is_lower_triangle<F>(rows: Seq<Vec<F>>) -> bool {
    forall|i: int| 0 <= i < rows.len() ==> (#[trigger] rows[i])@.len() == i + 1
}

/// The size of the triangle `1 + 2 + ... + n`.
pub open spec fn triangle(n: int) -> int {
    n * (n + 1) / 2
}

/// A symmetric matrix held as its lower triangle.
#[derive(Clone, Debug, PartialEq, Eq)]
pub struct SymmetricMatrix<F>(Vec<Vec<F>>);

impl<F: Copy> SymmetricMatrix<F> {
    /// The rows of the lower triangle.
    pub closed spec fn tri(&self) -> Seq<Vec<F>> {
        self.0@
    }

    /// The matrix has the shape of a lower triangle.
    pub open spec fn wf(&self) -> bool {
        is_lower_triangle(self.tri())
    }

    /// The number of rows and columns.
    pub open spec fn dim(&self) -> nat {
        self.tri().len()
    }

    /// Entry `(i, j)`, read from the lower triangle.
    pub open spec fn entry(&self, i: int, j: int) -> F {
        if j <= i {
            self.tri()[i]@[j]
        } else {
            self.tri()[j]@[i]
        }
    }

    /// The matrix with the given lower triangle, which must have the right shape.
    pub fn from_rows(value: Vec<Vec<F>>) -> (r: Self)
        requires
            is_lower_triangle(value@),
        ensures
            r.wf(),
            r.tri() == value@,
    {
        SymmetricMatrix(value)
    }

    /// The rows of the lower triangle, given up.
    pub fn into_rows(self) -> (r: Vec<Vec<F>>)
        ensures
            r@ == self.tri(),
    {
        self.0
    }

    /// The number of rows and columns.
    pub fn size(&self) -> (n: usize)
        ensures
            n == self.dim(),
    {
        self.0.len()
    }

    /// Entry `(i, j)`.
    pub fn at(&self, i: usize, j: usize) -> (r: &F)
        requires
            self.wf(),
            i < self.dim(),
            j < self.dim(),
        ensures
            *r == self.entry(i as int, j as int),
    {
        if j <= i {
            &self.0[i][j]
        } else {
            &self.0[j][i]
        }
    }

    /// A mutable reference to entry `(i, j)`, which is also entry `(j, i)`: the entry of the
    /// lower triangle in row `max(i, j)` and column `min(i, j)`.
    pub fn at_mut(&mut self, i: usize, j: usize) -> (r: &mut F)
        requires
            old(self).wf(),
            i < old(self).dim(),
            j < old(self).dim(),
        ensures
            *r == old(self).entry(i as int, j as int),
            final(self).tri().len() == old(self).tri().len(),
            forall|a: int|
                0 <= a < old(self).dim() && a != (if j <= i {
                    i
                } else {
                    j
                }) ==> #[trigger] final(self).tri()[a] == old(self).tri()[a],
            final(self).tri()[(if j <= i {
                i
            } else {
                j
            }) as int]@ == old(self).tri()[(if j <= i {
                i
            } else {
                j
            }) as int]@.update(
                (if j <= i {
                    j
                } else {
                    i
                }) as int,
                *final(r),
            ),
            final(self).wf(),
            final(self).dim() == old(self).dim(),
            final(self).entry(i as int, j as int) == *final(r),
            final(self).entry(j as int, i as int) == *final(r),
            forall|a: int, b: int|
                0 <= a < old(self).dim() && 0 <= b < old(self).dim() && !((a == i && b == j) || (
                a == j && b == i)) ==> #[trigger] final(self).entry(a, b) == old(self).entry(a, b),
    {
        if j <= i {
            &mut self.0[i][j]
        } else {
            &mut self.0[j][i]
        }
    }

    /// Replaces entry `(i, j)`, which is also entry `(j, i)`.
    pub fn set(&mut self, i: usize, j: usize, value: F)
        requires
            old(self).wf(),
            i < old(self).dim(),
            j < old(self).dim(),
        ensures
            final(self).wf(),
            final(self).dim() == old(self).dim(),
            final(self).entry(i as int, j as int) == value,
            final(self).entry(j as int, i as int) == value,
            forall|a: int, b: int|
                0 <= a < old(self).dim() && 0 <= b < old(self).dim() && !((a == i && b == j) || (
                a == j && b == i)) ==> #[trigger] final(self).entry(a, b) == old(self).entry(a, b),
    {
        let (r, c) = if j <= i {
            (i, j)
        } else {
            (j, i)
        };
        let mut row: Vec<F> = Vec::new();
        let mut k: usize = 0;
        while k < self.0[r].len()
            invariant
                r < self.0@.len(),
                0 <= k <= self.0@[r as int]@.len(),
                row@.len() == k,
                forall|q: int|
                    0 <= q < k ==> #[trigger] row@[q] == (if q == c {
                        value
                    } else {
                        self.0@[r as int]@[q]
                    }),
            decreases self.0@[r as int]@.len() - k,
        {
            if k == c {
                row.push(value);
            } else {
                row.push(self.0[r][k]);
            }
            k += 1;
        }
        self.0.set(r, row);
        proof {
            assert forall|a: int, b: int|
                0 <= a < old(self).dim() && 0 <= b < old(self).dim() && !((a == i && b == j) || (a
                    == j && b == i)) implies #[trigger] self.entry(a, b) == old(self).entry(a, b) by {
                if b <= a {
                    if a == r {
                        assert(b != c);
                    }
                } else {
                    if b == r {
                        assert(a != c);
                    }
                }
            }
        }
    }

    /// The diagonal entries.
    pub fn diag(&self) -> (r: Vec<F>)
        requires
            self.wf(),
        ensures
            r@.len() == self.dim(),
            forall|i: int| 0 <= i < self.dim() ==> #[trigger] r@[i] == self.entry(i, i),
    {
        let mut d: Vec<F> = Vec::new();
        let mut i: usize = 0;
        let n = self.size();
        while i < n
            invariant
                self.wf(),
                n == self.dim(),
                0 <= i <= self.dim(),
                d@.len() == i,
                forall|k: int| 0 <= k < i ==> #[trigger] d@[k] == self.entry(k, k),
            decreases self.dim() - i,
        {
            d.push(*self.at(i, i));
            i += 1;
        }
        d
    }

    /// The rows of the lower triangle.
    pub fn rows(&self) -> (r: &Vec<Vec<F>>)
        ensures
            r@ == self.tri(),
    {
        &self.0
    }

    /// The entries of the lower triangle, row after row.
    pub fn to_vec(&self) -> (r: Vec<F>)
        requires
            self.wf(),
        ensures
            r@.len() == triangle(self.dim() as int),
            forall|i: int, j: int|
                0 <= j <= i < self.dim() ==> r@[triangle(i) + j] == #[trigger] self.entry(i, j),
    {
        let mut out: Vec<F> = Vec::new();
        let mut i: usize = 0;
        let n = self.size();
        while i < n
            invariant
                self.wf(),
                n == self.dim(),
                0 <= i <= self.dim(),
                self.dim() <= usize::MAX,
                out@.len() == triangle(i as int),
                forall|a: int, b: int|
                    0 <= b <= a < i ==> out@[triangle(a) + b] == #[trigger] self.entry(a, b),
            decreases self.dim() - i,
        {
            let ghost before = out@;
            let mut j: usize = 0;
            proof {
                lemma_triangle_step(i as int);
            }
            while j <= i
                invariant
                    self.wf(),
                    0 <= i < self.dim(),
                    self.dim() <= usize::MAX,
                    0 <= j <= i + 1,
                    before.len() == triangle(i as int),
                    out@.len() == before.len() + j,
                    forall|p: int| 0 <= p < before.len() ==> #[trigger] out@[p] == before[p],
                    forall|q: int| 0 <= q < j ==> #[trigger] out@[before.len() + q] == self.entry(
                        i as int,
                        q,
                    ),
                decreases i + 1 - j,
            {
                out.push(self.0[i][j]);
                j += 1;
            }
            proof {
                assert forall|a: int, b: int| 0 <= b <= a < i + 1 implies out@[triangle(a) + b]
                    == #[trigger] self.entry(a, b) by {
                    if a < i {
                        lemma_triangle_mono(a + 1, i as int);
                        lemma_triangle_step(a);
                        assert(out@[triangle(a) + b] == before[triangle(a) + b]);
                    } else {
                        assert(out@[before.len() + b] == self.entry(i as int, b));
                    }
                }
            }
            i += 1;
        }
        out
    }

    /// The symmetric matrix whose lower triangle is read row after row from `vec`; `None` where
    /// the length of `vec` is no triangle number of a size of at least one (so also for an
    /// empty `vec`).
    pub fn try_from_vec(vec: Vec<F>) -> (r: Option<Self>)
        ensures
            r is Some <==> exists|n: nat| n >= 1 && #[trigger] triangle(n as int) == vec@.len(),
            r matches Some(m) ==> m.wf() && triangle(m.dim() as int) == vec@.len() && forall|
                i: int,
                j: int,
            |
                0 <= j <= i < m.dim() ==> #[trigger] m.entry(i, j) == vec@[triangle(i) + j],
    {
        if vec.len() == 0 {
            proof {
                assert forall|n: nat| n >= 1 implies #[trigger] triangle(n as int) != vec@.len() by {
                    lemma_triangle_mono(1, n as int);
                    lemma_triangle_step(0);
                }
            }
            return None;
        }
        let len = vec.len() as u128;
        let mut r: u128 = 0;
        let mut t: u128 = 0;
        // t = triangle(r); the candidates stop once the triangle reaches the length
        while t < len
            invariant
                len == vec@.len(),
                len <= usize::MAX,
                t == triangle(r as int),
                r <= t,
                r <= len,
                t <= 2 * len + 1,
                forall|n: nat| n < r ==> #[trigger] triangle(n as int) < len,
            decreases len - r,
        {
            proof {
                lemma_triangle_step(r as int);
                assert forall|n: nat| n < r + 1 implies #[trigger] triangle(n as int) < len by {
                    if n < r {
                    }
                }
            }
            r += 1;
            t += r;
        }
        proof {
            assert(r <= t);
        }
        if t != len {
            proof {
                assert forall|n: nat| #[trigger] triangle(n as int) != vec@.len() by {
                    if n < r {
                    } else if n > r {
                        lemma_triangle_mono(r as int, n as int);
                    }
                }
            }
            return None;
        }
        let mut rows: Vec<Vec<F>> = Vec::new();
        let mut i: u128 = 0;
        while i < r
            invariant
                0 <= i <= r,
                r <= t,
                t == len,
                len == vec@.len(),
                len <= usize::MAX,
                triangle(r as int) == vec@.len(),
                rows@.len() == i,
                is_lower_triangle(rows@),
                forall|a: int, b: int|
                    0 <= b <= a < i ==> #[trigger] rows@[a]@[b] == vec@[triangle(a) + b],
            decreases r - i,
        {
            proof {
                lemma_triangle_step(i as int);
                lemma_triangle_mono(i + 1, r as int);
            }
            proof {
                assert((i + 1) * (i + 2) <= 0xffff_ffff_ffff_ffff * 0x1_0000_0000_0000_0000)
                    by (nonlinear_arith)
                    requires
                        i < 0xffff_ffff_ffff_ffff,
                ;
                assert(i * (i + 1) <= (i + 1) * (i + 2)) by (nonlinear_arith)
                    requires
                        i >= 0,
                ;
                assert(triangle(i as int) <= triangle(i + 1int) <= len);
                assert((i + 1) * (i + 2) / 2 == triangle(i + 1int));
            }
            let start = (i * (i + 1) / 2) as usize;
            let end = ((i + 1) * (i + 2) / 2) as usize;
            let mut row: Vec<F> = Vec::new();
            let mut k: usize = start;
            while k < end
                invariant
                    start == triangle(i as int),
                    end == triangle(i + 1int),
                    end <= vec@.len(),
                    start <= k <= end,
                    row@.len() == k - start,
                    forall|q: int| 0 <= q < row@.len() ==> #[trigger] row@[q] == vec@[start + q],
                decreases end - k,
            {
                row.push(vec[k]);
                k += 1;
            }
            rows.push(row);
            i += 1;
        }
        Some(SymmetricMatrix(rows))
    }

    /// The symmetric matrix with entries `func(i, j)` for `j <= i`.
    pub fn from_fn<Func>(size: usize, func: Func) -> (r: Self)
        where
            Func: Fn(usize, usize) -> F,
        requires
            forall|i: usize, j: usize| j <= i < size ==> #[trigger] func.requires((i, j)),
        ensures
            r.wf(),
            r.dim() == size,
            forall|i: int, j: int|
                0 <= j <= i < size ==> func.ensures((i as usize, j as usize), #[trigger] r.entry(i, j)),
    {
        let mut rows: Vec<Vec<F>> = Vec::new();
        let mut i: usize = 0;
        while i < size
            invariant
                0 <= i <= size,
                forall|i: usize, j: usize| j <= i < size ==> #[trigger] func.requires((i, j)),
                rows@.len() == i,
                is_lower_triangle(rows@),
                forall|a: int, b: int|
                    0 <= b <= a < i ==> func.ensures((a as usize, b as usize), #[trigger] rows@[a]@[b]),
            decreases size - i,
        {
            let mut row: Vec<F> = Vec::new();
            let mut j: usize = 0;
            while j <= i
                invariant
                    0 <= i < size,
                    0 <= j <= i + 1,
                    forall|i: usize, j: usize| j <= i < size ==> #[trigger] func.requires((i, j)),
                    row@.len() == j,
                    forall|b: int| 0 <= b < j ==> func.ensures((i, b as usize), #[trigger] row@[b]),
                decreases i + 1 - j,
            {
                let x = func(i, j);
                row.push(x);
                j += 1;
            }
            rows.push(row);
            i += 1;
        }
        SymmetricMatrix(rows)
    }

    /// The symmetric matrix with entries `func(i, j)` for `j <= i`; the entries are computed
    /// one after the other.
    pub fn from_par_fn<Func>(size: usize, func: Func) -> (r: Self)
        where
            Func: Fn(usize, usize) -> F,
        requires
            forall|i: usize, j: usize| j <= i < size ==> #[trigger] func.requires((i, j)),
        ensures
            r.wf(),
            r.dim() == size,
            forall|i: int, j: int|
                0 <= j <= i < size ==> func.ensures((i as usize, j as usize), #[trigger] r.entry(i, j)),
    {
        Self::from_fn(size, func)
    }

    /// The symmetric matrix with entries `func(self[(i, j)])`.
    pub fn map<T: Copy, M>(&self, func: M) -> (r: SymmetricMatrix<T>)
        where
            M: Fn(&F) -> T,
        requires
            self.wf(),
            forall|x: &F| #[trigger] func.requires((x,)),
        ensures
            r.wf(),
            r.dim() == self.dim(),
            forall|i: int, j: int|
                0 <= j <= i < self.dim() ==> func.ensures((&self.entry(i, j),), #[trigger] r.entry(i, j)),
    {
        let mut rows: Vec<Vec<T>> = Vec::new();
        let mut i: usize = 0;
        let n = self.size();
        while i < n
            invariant
                self.wf(),
                n == self.dim(),
                0 <= i <= self.dim(),
                self.dim() <= usize::MAX,
                forall|x: &F| #[trigger] func.requires((x,)),
                rows@.len() == i,
                is_lower_triangle(rows@),
                forall|a: int, b: int|
                    0 <= b <= a < i ==> func.ensures((&self.entry(a, b),), #[trigger] rows@[a]@[b]),
            decreases self.dim() - i,
        {
            let mut row: Vec<T> = Vec::new();
            let mut j: usize = 0;
            while j <= i
                invariant
                    self.wf(),
                    0 <= i < self.dim(),
                    self.dim() <= usize::MAX,
                    0 <= j <= i + 1,
                    forall|x: &F| #[trigger] func.requires((x,)),
                    row@.len() == j,
                    forall|b: int|
                        0 <= b < j ==> func.ensures((&self.entry(i as int, b),), #[trigger] row@[b]),
                decreases i + 1 - j,
            {
                let x = func(&self.0[i][j]);
                row.push(x);
                j += 1;
            }
            rows.push(row);
            i += 1;
        }
        SymmetricMatrix(rows)
    }
}

/// `triangle(n + 1) = triangle(n) + n + 1`.
pub proof fn lemma_triangle_step(n: int)
    requires
        n >= 0,
    ensures
        triangle(n + 1) == triangle(n) + n + 1,
        triangle(n) >= 0,
{
    assert((n + 1) * (n + 2) == n * (n + 1) + 2 * (n + 1)) by (nonlinear_arith);
    assert(n * (n + 1) >= 0) by (nonlinear_arith)
        requires
            n >= 0,
    ;
}

/// Triangle numbers grow.
pub proof fn lemma_triangle_mono(a: int, b: int)
    requires
        0 <= a <= b,
    ensures
        triangle(a) <= triangle(b),
        a < b ==> triangle(a) + a < triangle(b),
    decreases b - a,
{
    if a < b {
        lemma_triangle_mono(a, b - 1);
        lemma_triangle_step(b - 1);
    }
}

impl<R: Ring> SymmetricMatrix<R> {
    /// A symmetric matrix of size `n` whose lower triangle is drawn uniformly at random from
    /// `rng`, row after row.
    pub fn rand(n: usize, rng: &mut StdRng) -> (r: Self)
        requires
            R::modulus() >= 2,
        ensures
            r.wf(),
            r.dim() == n,
            forall|i: int, j: int| 0 <= i < n && 0 <= j < n ==> (#[trigger] r.entry(i, j)).wf(),
    {
        let mut rows: Vec<Vec<R>> = Vec::new();
        let mut i: usize = 0;
        while i < n
            invariant
                R::modulus() >= 2,
                0 <= i <= n,
                rows@.len() == i,
                is_lower_triangle(rows@),
                forall|a: int, b: int| 0 <= b <= a < i ==> (#[trigger] rows@[a]@[b]).wf(),
            decreases n - i,
        {
            let mut row: Vec<R> = Vec::new();
            let mut j: usize = 0;
            while j <= i
                invariant
                    R::modulus() >= 2,
                    0 <= i < n,
                    0 <= j <= i + 1,
                    row@.len() == j,
                    forall|b: int| 0 <= b < j ==> (#[trigger] row@[b]).wf(),
                decreases i + 1 - j,
            {
                row.push(R::rand(rng));
                j += 1;
            }
            rows.push(row);
            i += 1;
        }
        let r = SymmetricMatrix(rows);
        proof {
            assert forall|i: int, j: int| 0 <= i < n && 0 <= j < n implies (#[trigger] r.entry(
                i,
                j,
            )).wf() by {
                if j <= i {
                    assert(r.tri()[i]@[j].wf());
                } else {
                    assert(r.tri()[j]@[i].wf());
                }
            }
        }
        r
    }

    /// Every entry is well formed.
    pub open spec fn entries_wf(&self) -> bool {
        forall|i: int| 0 <= i < self.dim() ==> all_wf(#[trigger] self.tri()[i]@)
    }

    /// The zero matrix of size `n`.
    pub fn zero(n: usize) -> (r: Self)
        requires
            R::modulus() >= 2,
        ensures
            r.wf(),
            r.entries_wf(),
            r.dim() == n,
            forall|i: int, j: int| 0 <= j <= i < n ==> (#[trigger] r.entry(i, j)).val() == 0,
    {
        let mut rows: Vec<Vec<R>> = Vec::new();
        let mut i: usize = 0;
        while i < n
            invariant
                R::modulus() >= 2,
                0 <= i <= n,
                rows@.len() == i,
                is_lower_triangle(rows@),
                forall|a: int| 0 <= a < i ==> all_wf(#[trigger] rows@[a]@),
                forall|a: int, b: int| 0 <= b <= a < i ==> (#[trigger] rows@[a]@[b]).val() == 0,
            decreases n - i,
        {
            let mut row: Vec<R> = Vec::new();
            let mut j: usize = 0;
            while j <= i
                invariant
                    R::modulus() >= 2,
                    0 <= i < n,
                    0 <= j <= i + 1,
                    row@.len() == j,
                    all_wf(row@),
                    forall|b: int| 0 <= b < j ==> (#[trigger] row@[b]).val() == 0,
                decreases i + 1 - j,
            {
                row.push(R::zero());
                j += 1;
            }
            rows.push(row);
            i += 1;
        }
        SymmetricMatrix(rows)
    }

    /// The entry-wise sum; both matrices must have the same size.
    pub fn add(&self, rhs: &Self) -> (r: Self)
        requires
            self.wf(),
            rhs.wf(),
            self.entries_wf(),
            rhs.entries_wf(),
            self.dim() == rhs.dim(),
        ensures
            r.wf(),
            r.entries_wf(),
            r.dim() == self.dim(),
            forall|i: int, j: int|
                0 <= j <= i < self.dim() ==> (#[trigger] r.entry(i, j)).val() == (self.entry(
                    i,
                    j,
                ).val() + rhs.entry(i, j).val()) % R::modulus(),
    {
        let mut rows: Vec<Vec<R>> = Vec::new();
        let mut i: usize = 0;
        let n = self.size();
        while i < n
            invariant
                self.wf(),
                rhs.wf(),
                self.entries_wf(),
                rhs.entries_wf(),
                n == self.dim(),
                self.dim() == rhs.dim(),
                0 <= i <= n,
                rows@.len() == i,
                is_lower_triangle(rows@),
                forall|a: int| 0 <= a < i ==> all_wf(#[trigger] rows@[a]@),
                forall|a: int, b: int|
                    0 <= b <= a < i ==> (#[trigger] rows@[a]@[b]).val() == (self.entry(a, b).val()
                        + rhs.entry(a, b).val()) % R::modulus(),
            decreases n - i,
        {
            let mut row: Vec<R> = Vec::new();
            let mut j: usize = 0;
            proof {
                assert(all_wf(self.tri()[i as int]@));
                assert(all_wf(rhs.tri()[i as int]@));
            }
            while j <= i
                invariant
                    self.wf(),
                    rhs.wf(),
                    n == self.dim(),
                    self.dim() == rhs.dim(),
                    0 <= i < n,
                    all_wf(self.tri()[i as int]@),
                    all_wf(rhs.tri()[i as int]@),
                    0 <= j <= i + 1,
                    row@.len() == j,
                    all_wf(row@),
                    forall|b: int|
                        0 <= b < j ==> (#[trigger] row@[b]).val() == (self.entry(i as int, b).val()
                            + rhs.entry(i as int, b).val()) % R::modulus(),
                decreases i + 1 - j,
            {
                row.push(self.0[i][j].add(&rhs.0[i][j]));
                j += 1;
            }
            rows.push(row);
            i += 1;
        }
        SymmetricMatrix(rows)
    }

    /// Every entry multiplied by `rhs`.
    pub fn mul_scalar(&self, rhs: &R) -> (r: Self)
        requires
            self.wf(),
            self.entries_wf(),
            rhs.wf(),
        ensures
            r.wf(),
            r.entries_wf(),
            r.dim() == self.dim(),
            forall|i: int, j: int|
                0 <= j <= i < self.dim() ==> (#[trigger] r.entry(i, j)).val() == (self.entry(
                    i,
                    j,
                ).val() * rhs.val()) % R::modulus(),
    {
        let mut rows: Vec<Vec<R>> = Vec::new();
        let mut i: usize = 0;
        let n = self.size();
        while i < n
            invariant
                self.wf(),
                self.entries_wf(),
                rhs.wf(),
                n == self.dim(),
                0 <= i <= n,
                rows@.len() == i,
                is_lower_triangle(rows@),
                forall|a: int| 0 <= a < i ==> all_wf(#[trigger] rows@[a]@),
                forall|a: int, b: int|
                    0 <= b <= a < i ==> (#[trigger] rows@[a]@[b]).val() == (self.entry(a, b).val()
                        * rhs.val()) % R::modulus(),
            decreases n - i,
        {
            let mut row: Vec<R> = Vec::new();
            let mut j: usize = 0;
            proof {
                assert(all_wf(self.tri()[i as int]@));
            }
            while j <= i
                invariant
                    self.wf(),
                    rhs.wf(),
                    n == self.dim(),
                    0 <= i < n,
                    all_wf(self.tri()[i as int]@),
                    0 <= j <= i + 1,
                    row@.len() == j,
                    all_wf(row@),
                    forall|b: int|
                        0 <= b < j ==> (#[trigger] row@[b]).val() == (self.entry(i as int, b).val()
                            * rhs.val()) % R::modulus(),
                decreases i + 1 - j,
            {
                row.push(self.0[i][j].mul(rhs));
                j += 1;
            }
            rows.push(row);
            i += 1;
        }
        SymmetricMatrix(rows)
    }

    /// Whether the lower triangle agrees with the same entries of a full matrix, which must have
    /// at least as many rows, each long enough.
    pub fn eq_matrix(&self, other: &Vec<Vec<R>>) -> (b: bool)
        requires
            self.wf(),
            self.entries_wf(),
            other@.len() >= self.dim(),
            forall|i: int| 0 <= i < self.dim() ==> (#[trigger] other@[i])@.len() > i,
            forall|i: int| 0 <= i < self.dim() ==> all_wf(#[trigger] other@[i]@),
        ensures
            b == forall|i: int, j: int|
                0 <= j <= i < self.dim() ==> (#[trigger] other@[i]@[j]).val() == self.entry(
                    i,
                    j,
                ).val(),
    {
        let mut i: usize = 0;
        let n = self.size();
        while i < n
            invariant
                self.wf(),
                self.entries_wf(),
                n == self.dim(),
                0 <= i <= n,
                other@.len() >= self.dim(),
                forall|i: int| 0 <= i < self.dim() ==> (#[trigger] other@[i])@.len() > i,
                forall|i: int| 0 <= i < self.dim() ==> all_wf(#[trigger] other@[i]@),
                forall|a: int, b: int|
                    0 <= b <= a < i ==> (#[trigger] other@[a]@[b]).val() == self.entry(a, b).val(),
            decreases n - i,
        {
            let mut j: usize = 0;
            proof {
                assert(all_wf(self.tri()[i as int]@));
                assert(all_wf(other@[i as int]@));
                assert(other@[i as int]@.len() > i);
            }
            while j <= i
                invariant
                    self.wf(),
                    n == self.dim(),
                    0 <= i < n,
                    all_wf(self.tri()[i as int]@),
                    all_wf(other@[i as int]@),
                    other@[i as int]@.len() > i,
                    other@.len() >= self.dim(),
                    0 <= j <= i + 1,
                    forall|b: int|
                        0 <= b < j ==> (#[trigger] other@[i as int]@[b]).val() == self.entry(
                            i as int,
                            b,
                        ).val(),
                decreases i + 1 - j,
            {
                if !other[i][j].ring_eq(&self.0[i][j]) {
                    return false;
                }
                j += 1;
            }
            i += 1;
        }
        true
    }

    /// The full square matrix.
    pub fn to_matrix(&self) -> (m: Vec<Vec<R>>)
        requires
            self.wf(),
        ensures
            m@.len() == self.dim(),
            forall|i: int| 0 <= i < self.dim() ==> (#[trigger] m@[i])@.len() == self.dim(),
            forall|i: int, j: int|
                0 <= i < self.dim() && 0 <= j < self.dim() ==> #[trigger] m@[i]@[j] == self.entry(
                    i,
                    j,
                ),
    {
        let n = self.size();
        let mut m: Vec<Vec<R>> = Vec::new();
        let mut i: usize = 0;
        while i < n
            invariant
                self.wf(),
                n == self.dim(),
                0 <= i <= n,
                m@.len() == i,
                forall|a: int| 0 <= a < i ==> (#[trigger] m@[a])@.len() == n,
                forall|a: int, b: int|
                    0 <= a < i && 0 <= b < n ==> #[trigger] m@[a]@[b] == self.entry(a, b),
            decreases n - i,
        {
            let mut row: Vec<R> = Vec::new();
            let mut j: usize = 0;
            while j < n
                invariant
                    self.wf(),
                    n == self.dim(),
                    0 <= i < n,
                    0 <= j <= n,
                    row@.len() == j,
                    forall|b: int| 0 <= b < j ==> #[trigger] row@[b] == self.entry(i as int, b),
                decreases n - j,
            {
                row.push(*self.at(i, j));
                j += 1;
            }
            m.push(row);
            i += 1;
        }
        m
    }

    /// The symmetric matrix of a square matrix that equals its transpose: its lower triangle.
    pub fn from_matrix(value: &Vec<Vec<R>>) -> (r: Self)
        requires
            forall|i: int| 0 <= i < value@.len() ==> (#[trigger] value@[i])@.len() == value@.len(),
            forall|i: int, j: int|
                0 <= i < value@.len() && 0 <= j < value@.len() ==> #[trigger] value@[i]@[j]
                    == value@[j]@[i],
        ensures
            r.wf(),
            r.dim() == value@.len(),
            forall|i: int, j: int|
                0 <= i < value@.len() && 0 <= j < value@.len() ==> #[trigger] r.entry(i, j)
                    == value@[i]@[j],
    {
        let n = value.len();
        let mut rows: Vec<Vec<R>> = Vec::new();
        let mut i: usize = 0;
        while i < n
            invariant
                n == value@.len(),
                forall|i: int| 0 <= i < value@.len() ==> (#[trigger] value@[i])@.len() == value@.len(),
                0 <= i <= n,
                rows@.len() == i,
                is_lower_triangle(rows@),
                forall|a: int, b: int| 0 <= b <= a < i ==> #[trigger] rows@[a]@[b] == value@[a]@[b],
            decreases n - i,
        {
            let mut row: Vec<R> = Vec::new();
            let mut j: usize = 0;
            while j <= i
                invariant
                    n == value@.len(),
                    value@[i as int]@.len() == n,
                    0 <= i < n,
                    0 <= j <= i + 1,
                    row@.len() == j,
                    forall|b: int| 0 <= b < j ==> #[trigger] row@[b] == value@[i as int]@[b],
                decreases i + 1 - j,
            {
                row.push(value[i][j]);
                j += 1;
            }
            rows.push(row);
            i += 1;
        }
        SymmetricMatrix(rows)
    }

    /// The symmetric matrix of size `2n` with blocks `[[top_left, bottom_left^T],
    /// [bottom_left, bottom_right]]`, where `bottom_left` is `n x n`.
    pub fn from_blocks(top_left: Self, bottom_left: Vec<Vec<R>>, bottom_right: Self) -> (r: Self)
        requires
            top_left.wf(),
            bottom_right.wf(),
            bottom_left@.len() == top_left.dim(),
            forall|i: int| 0 <= i < bottom_left@.len() ==> (#[trigger] bottom_left@[i])@.len()
                == top_left.dim(),
            bottom_right.dim() == top_left.dim(),
            2 * top_left.dim() <= usize::MAX,
        ensures
            r.wf(),
            r.dim() == 2 * top_left.dim(),
            forall|i: int, j: int|
                0 <= j <= i < top_left.dim() ==> #[trigger] r.entry(i, j) == top_left.entry(i, j),
            forall|i: int, j: int|
                0 <= i < top_left.dim() && 0 <= j < top_left.dim() ==> #[trigger] r.entry(
                    top_left.dim() + i,
                    j,
                ) == bottom_left@[i]@[j],
            forall|i: int, j: int|
                0 <= j <= i < top_left.dim() ==> #[trigger] r.entry(
                    top_left.dim() + i,
                    top_left.dim() + j,
                ) == bottom_right.entry(i, j),
    {
        let n = top_left.size();
        let ghost tl = top_left.tri();
        let ghost br = bottom_right.tri();
        let mut result = top_left.0;
        let mut i: usize = 0;
        while i < n
            invariant
                n == tl.len(),
                br.len() == n,
                bottom_right.tri() == br,
                is_lower_triangle(tl),
                is_lower_triangle(br),
                bottom_left@.len() == n,
                forall|i: int| 0 <= i < n ==> (#[trigger] bottom_left@[i])@.len() == n,
                2 * n <= usize::MAX,
                0 <= i <= n,
                result@.len() == n + i,
                forall|a: int| 0 <= a < n ==> #[trigger] result@[a] == tl[a],
                forall|a: int|
                    0 <= a < i ==> (#[trigger] result@[n + a])@.len() == n + a + 1,
                forall|a: int, b: int|
                    0 <= a < i && 0 <= b < n ==> #[trigger] result@[n + a]@[b] == bottom_left@[a]@[b],
                forall|a: int, b: int|
                    0 <= a < i && 0 <= b <= a ==> #[trigger] result@[n + a]@[n + b] == br[a]@[b],
            decreases n - i,
        {
            let mut row: Vec<R> = Vec::new();
            let mut j: usize = 0;
            while j < n
                invariant
                    0 <= i < n,
                    bottom_left@.len() == n,
                    bottom_left@[i as int]@.len() == n,
                    0 <= j <= n,
                    row@.len() == j,
                    forall|b: int| 0 <= b < j ==> #[trigger] row@[b] == bottom_left@[i as int]@[b],
                decreases n - j,
            {
                row.push(bottom_left[i][j]);
                j += 1;
            }
            let mut k: usize = 0;
            while k <= i
                invariant
                    0 <= i < n,
                    br.len() == n,
                    bottom_right.tri() == br,
                    is_lower_triangle(br),
                    2 * n <= usize::MAX,
                    0 <= k <= i + 1,
                    row@.len() == n + k,
                    forall|b: int| 0 <= b < n ==> #[trigger] row@[b] == bottom_left@[i as int]@[b],
                    forall|b: int| 0 <= b < k ==> #[trigger] row@[n + b] == br[i as int]@[b],
                decreases i + 1 - k,
            {
                row.push(bottom_right.0[i][k]);
                k += 1;
            }
            result.push(row);
            i += 1;
        }
        let r = SymmetricMatrix(result);
        proof {
            assert forall|a: int| 0 <= a < r.dim() implies (#[trigger] r.tri()[a])@.len() == a + 1 by {
                if a < n {
                    assert(r.tri()[a] == tl[a]);
                } else {
                    assert(r.tri()[n + (a - n)]@.len() == n + (a - n) + 1);
                }
            }
            assert forall|a: int, b: int|
                0 <= a < n && 0 <= b < n implies #[trigger] r.entry(n + a, b)
                    == bottom_left@[a]@[b] by {
                assert(r.tri()[n + a]@[b] == bottom_left@[a]@[b]);
            }
            assert forall|a: int, b: int|
                0 <= b <= a < n implies #[trigger] r.entry(n + a, n + b) == bottom_right.entry(a, b) by {
                assert(r.tri()[n + a]@[n + b] == br[a]@[b]);
            }
            assert forall|a: int, b: int| 0 <= b <= a < n implies #[trigger] r.entry(a, b)
                == top_left.entry(a, b) by {
                assert(r.tri()[a] == tl[a]);
            }
        }
        r
    }
}

/// A triangle number determines its side.
pub proof fn lemma_triangle_injective(a: int, b: int)
    requires
        0 <= a,
        0 <= b,
        triangle(a) == triangle(b),
    ensures
        a == b,
{
    if a < b {
        lemma_triangle_mono(a, b);
    } else if b < a {
        lemma_triangle_mono(b, a);
    }
}

/// Reading a symmetric matrix back from the list of its lower triangle gives the same matrix.
pub proof fn law_to_vec_roundtrip<F: Copy>(s: SymmetricMatrix<F>, v: Seq<F>, t: SymmetricMatrix<F>)
    requires
        s.wf(),
        v.len() == triangle(s.dim() as int),
        forall|i: int, j: int| 0 <= j <= i < s.dim() ==> v[triangle(i) + j] == #[trigger] s.entry(i, j),
        t.wf(),
        triangle(t.dim() as int) == v.len(),
        forall|i: int, j: int| 0 <= j <= i < t.dim() ==> #[trigger] t.entry(i, j) == v[triangle(i) + j],
    ensures
        t.dim() == s.dim(),
        forall|i: int, j: int| 0 <= i < s.dim() && 0 <= j < s.dim() ==> #[trigger] t.entry(i, j) == s.entry(i, j),
{
    lemma_triangle_injective(t.dim() as int, s.dim() as int);
    assert forall|i: int, j: int| 0 <= i < s.dim() && 0 <= j < s.dim() implies #[trigger] t.entry(i, j)
        == s.entry(i, j) by {
        if j <= i {
            assert(t.entry(i, j) == v[triangle(i) + j]);
            assert(v[triangle(i) + j] == s.entry(i, j));
        } else {
            assert(t.entry(j, i) == v[triangle(j) + i]);
            assert(v[triangle(j) + i] == s.entry(j, i));
        }
    }
}

/// The position of entry `(i, j)` in the row-by-row list of a lower triangle.
spec fn tri_pos(i: int, j: int) -> int {
    triangle(i) + j
}

/// Every position below `triangle(n)` is that of an entry `(i, j)` with `j <= i < n` in the
/// row-by-row list of a lower triangle of size `n`.
proof fn lemma_triangle_index(p: int, n: int)
    requires
        0 <= n,
        0 <= p < triangle(n),
    ensures
        exists|i: int, j: int| 0 <= j <= i < n && p == #[trigger] tri_pos(i, j),
    decreases n,
{
    lemma_triangle_step(n - 1);
    if p < triangle(n - 1) {
        lemma_triangle_index(p, n - 1);
        let (i, j) = choose|i: int, j: int| 0 <= j <= i < n - 1 && p == #[trigger] tri_pos(i, j);
        assert(p == tri_pos(i, j));
    } else {
        let j = p - triangle(n - 1);
        assert(p == tri_pos(n - 1, j));
    }
}

/// The list of the lower triangle of a matrix of size at least one can be read back: its
/// length is a triangle number of a size of at least one.
pub proof fn law_to_vec_readable<F: Copy>(s: SymmetricMatrix<F>, v: Seq<F>)
    requires
        s.wf(),
        s.dim() >= 1,
        v.len() == triangle(s.dim() as int),
    ensures
        exists|n: nat| n >= 1 && #[trigger] triangle(n as int) == v.len(),
{
    assert(triangle(s.dim() as int) == v.len());
}

/// Listing the lower triangle of the matrix read from a list gives back that list.
pub proof fn law_from_vec_roundtrip<F: Copy>(t: SymmetricMatrix<F>, v: Seq<F>, w: Seq<F>)
    requires
        t.wf(),
        triangle(t.dim() as int) == v.len(),
        forall|i: int, j: int| 0 <= j <= i < t.dim() ==> #[trigger] t.entry(i, j) == v[triangle(i) + j],
        w.len() == triangle(t.dim() as int),
        forall|i: int, j: int| 0 <= j <= i < t.dim() ==> w[triangle(i) + j] == #[trigger] t.entry(i, j),
    ensures
        w == v,
{
    assert forall|p: int| 0 <= p < v.len() implies #[trigger] w[p] == v[p] by {
        lemma_triangle_index(p, t.dim() as int);
        let (i, j) = choose|i: int, j: int| 0 <= j <= i < t.dim() && p == #[trigger] tri_pos(i, j);
        assert(t.entry(i, j) == v[triangle(i) + j]);
    }
    assert(w =~= v);
}

/// The full matrix of a symmetric matrix gives back the same symmetric matrix, and a symmetric
/// full matrix is the full matrix of its lower triangle.
pub proof fn law_matrix_roundtrip<R: Ring>(s: SymmetricMatrix<R>, m: Seq<Vec<R>>, t: SymmetricMatrix<R>)
    requires
        s.wf(),
        m.len() == s.dim(),
        forall|i: int| 0 <= i < s.dim() ==> (#[trigger] m[i])@.len() == s.dim(),
        forall|i: int, j: int| 0 <= i < s.dim() && 0 <= j < s.dim() ==> #[trigger] m[i]@[j] == s.entry(i, j),
        t.wf(),
        t.dim() == m.len(),
        forall|i: int, j: int| 0 <= i < m.len() && 0 <= j < m.len() ==> #[trigger] t.entry(i, j) == m[i]@[j],
    ensures
        forall|i: int, j: int|
            0 <= i < m.len() && 0 <= j < m.len() ==> #[trigger] m[i]@[j] == m[j]@[i],
        forall|i: int, j: int| 0 <= i < s.dim() && 0 <= j < s.dim() ==> #[trigger] t.entry(i, j) == s.entry(i, j),
{
    assert forall|i: int, j: int| 0 <= i < m.len() && 0 <= j < m.len() implies #[trigger] m[i]@[j]
        == m[j]@[i] by {
        assert(m[i]@[j] == s.entry(i, j));
        assert(m[j]@[i] == s.entry(j, i));
    }
    assert forall|i: int, j: int| 0 <= i < s.dim() && 0 <= j < s.dim() implies #[trigger] t.entry(i, j)
        == s.entry(i, j) by {
        assert(t.entry(i, j) == m[i]@[j]);
    }
}

} // verus!
