//! A polynomial over `F_p` whose leading coefficient is not zero has at most its degree many
//! roots (Lagrange), so some residue `x` has `x^((p-1)/2) != 1`: a quadratic non-residue.
use vstd::arithmetic::div_mod::*;
use vstd::arithmetic::mul::*;
use vstd::arithmetic::power::*;
use vstd::prelude::*;
use vstd::set_lib::*;

use crate::arith::is_prime;
use crate::primes::lemma_euclid;

verus! {

/// The value of the polynomial with coefficients `f` (lowest first) at `x`, by Horner's rule.
pub open spec fn horner(f: Seq<int>, x: int) -> int
    decreases f.len(),
{
    if f.len() == 0 {
        0
    } else {
        f[0] + x * horner(f.subrange(1, f.len() as int), x)
    }
}

/// The quotient of `f` by `X - r`.
pub open spec fn quotient(f: Seq<int>, r: int) -> Seq<int>
    decreases f.len(),
{
    if f.len() <= 1 {
        Seq::empty()
    } else {
        let tail = f.subrange(1, f.len() as int);
        seq![horner(tail, r)] + quotient(tail, r)
    }
}

/// The roots of `f` among the residues modulo `p`.
pub open spec fn roots(f: Seq<int>, p: int) -> Set<int> {
    Set::new(|x: int| 0 <= x < p && horner(f, x) % p == 0)
}

/// Division by `X - r`: `f(x) - f(r) = (x - r) q(x)`, where `q` has one coefficient less and
/// the same leading coefficient.
proof fn lemma_quotient(f: Seq<int>, r: int, x: int)
    requires
        f.len() >= 1,
    ensures
        quotient(f, r).len() == f.len() - 1,
        f.len() >= 2 ==> quotient(f, r).last() == f.last(),
        horner(f, x) - horner(f, r) == (x - r) * horner(quotient(f, r), x),
    decreases f.len(),
{
    let n = f.len() as int;
    let tail = f.subrange(1, n);
    if n == 1 {
        assert(tail.len() == 0);
        assert(horner(tail, x) == 0);
        assert(horner(tail, r) == 0);
        assert(horner(f, x) == f[0] + x * 0);
        assert(horner(f, r) == f[0] + r * 0);
        assert(horner(f, x) == f[0]);
        assert(horner(f, r) == f[0]);
        assert(horner(quotient(f, r), x) == 0);
    } else {
        lemma_quotient(tail, r, x);
        let q = quotient(tail, r);
        let c = horner(tail, r);
        let g = seq![c] + q;
        assert(g.subrange(1, g.len() as int) =~= q);
        assert(horner(g, x) == c + x * horner(q, x));
        let a = horner(tail, x);
        assert(horner(f, x) == f[0] + x * a);
        assert(horner(f, r) == f[0] + r * c);
        assert(x * a - r * c == (x - r) * (c + x * horner(q, x))) by (nonlinear_arith)
            requires
                a - c == (x - r) * horner(q, x),
        ;
        if n >= 3 {
            assert(q.last() == tail.last());
        } else {
            assert(tail.len() == 1);
            assert(horner(tail.subrange(1, 1), r) == 0);
            assert(c == tail[0] + r * 0);
        }
        assert(g.last() == f.last());
    }
}

/// Lagrange's theorem: a polynomial of degree `d` over `F_p` whose leading coefficient is not
/// zero modulo `p` has at most `d` roots.
pub proof fn lemma_root_count(f: Seq<int>, p: int)
    requires
        is_prime(p),
        f.len() >= 1,
        f.last() % p != 0,
    ensures
        roots(f, p).finite(),
        roots(f, p).len() <= f.len() - 1,
    decreases f.len(),
{
    let rs = roots(f, p);
    lemma_int_range(0, p);
    assert(rs.subset_of(set_int_range(0, p)));
    lemma_len_subset(rs, set_int_range(0, p));
    if f.len() == 1 {
        assert forall|x: int| !rs.contains(x) by {
            assert(f.subrange(1, 1).len() == 0);
            assert(horner(f.subrange(1, 1), x) == 0);
            assert(horner(f, x) == f[0] + x * 0);
        }
        assert(rs =~= Set::<int>::empty());
    } else if rs.len() > 0 {
        let r = rs.choose();
        assert(rs.contains(r));
        let g = quotient(f, r);
        lemma_quotient(f, r, 0);
        lemma_root_count(g, p);
        let rg = roots(g, p);
        assert forall|x: int| rs.contains(x) implies #[trigger] rg.insert(r).contains(x) by {
            if x != r {
                lemma_quotient(f, r, x);
                let v = horner(g, x);
                // p divides (x - r) v, and does not divide x - r
                lemma_sub_mod_noop(horner(f, x), horner(f, r), p);
                lemma_small_mod(0, p as nat);
                let d = (x - r) % p;
                let e = v % p;
                lemma_mul_mod_noop(x - r, v, p);
                lemma_mod_bound(x - r, p);
                lemma_mod_bound(v, p);
                lemma_euclid(p, d, e);
                lemma_small_mod(d as nat, p as nat);
                lemma_small_mod(e as nat, p as nat);
                if d == 0 {
                    lemma_fundamental_div_mod(x - r, p);
                    let k = (x - r) / p;
                    assert(false) by (nonlinear_arith)
                        requires
                            x - r == p * k,
                            x != r,
                            0 <= x < p,
                            0 <= r < p,
                    ;
                }
                lemma_mod_twice(v, p);
                assert(e == 0);
                assert(rg.contains(x));
            }
        }
        lemma_len_subset(rs, rg.insert(r));
    } else {
    }
}

/// `x^k` as a polynomial: `k` zeros and then a one.
pub open spec fn monomial(k: nat) -> Seq<int> {
    Seq::new(k + 1, |i: int| if i == k { 1int } else { 0int })
}

/// The monomial `X^k` takes the value `x^k`.
proof fn lemma_monomial(k: nat, x: int)
    ensures
        horner(monomial(k), x) == pow(x, k),
    decreases k,
{
    reveal(pow);
    let m = monomial(k);
    if k == 0 {
        assert(m.subrange(1, 1).len() == 0);
        assert(horner(m.subrange(1, 1), x) == 0);
        assert(horner(m, x) == 1 + x * 0);
    } else {
        lemma_monomial((k - 1) as nat, x);
        assert(m.subrange(1, m.len() as int) =~= monomial((k - 1) as nat));
        assert(horner(m, x) == 0 + x * pow(x, (k - 1) as nat));
    }
}

/// An odd prime has a residue `x` in `[1, p)` with `x^((p-1)/2) != 1`.
pub proof fn lemma_nonresidue_exists(p: int) -> (x: int)
    requires
        is_prime(p),
        p >= 3,
    ensures
        1 <= x < p,
        pow(x, ((p - 1) / 2) as nat) % p != 1,
{
    lemma_fundamental_div_mod(p - 1, 2);
    lemma_power_not_all_one(p, ((p - 1) / 2) as nat)
}

/// Modulo a prime `p`, an exponent `1 <= h < p - 1` leaves some `x` in `[1, p)` with
/// `x^h != 1`: `X^h - 1` has at most `h` roots.
pub proof fn lemma_power_not_all_one(p: int, h: nat) -> (x: int)
    requires
        is_prime(p),
        1 <= h < p - 1,
    ensures
        1 <= x < p,
        pow(x, h) % p != 1,
{
    // X^h - 1
    let f = monomial(h).update(0, monomial(h)[0] - 1);
    assert forall|x: int| #[trigger] horner(f, x) == pow(x, h) - 1 by {
        lemma_monomial(h, x);
        let m = monomial(h);
        assert(f.subrange(1, f.len() as int) =~= m.subrange(1, m.len() as int));
    }
    assert(f.last() == 1);
    lemma_small_mod(1, p as nat);
    lemma_root_count(f, p);
    let rs = roots(f, p);
    if forall|x: int| 1 <= x < p ==> #[trigger] (pow(x, h) % p) == 1 {
        assert(set_int_range(1, p).subset_of(rs)) by {
            assert forall|x: int| set_int_range(1, p).contains(x) implies rs.contains(x) by {
                assert(pow(x, h) % p == 1);
                lemma_sub_mod_noop(pow(x, h), 1, p);
                lemma_small_mod(1, p as nat);
                lemma_small_mod(0, p as nat);
            }
        }
        lemma_int_range(1, p);
        lemma_len_subset(set_int_range(1, p), rs);
        assert(false);
    }
    choose|x: int| 1 <= x < p && !(#[trigger] (pow(x, h) % p) == 1)
}

} // verus!
