//! Signed representatives of residues: the integers of least magnitude (up to the tie at
//! half the modulus) that stand for a residue.
use vstd::arithmetic::div_mod::*;
use vstd::prelude::*;

use crate::fq::Fq;
use crate::ring::Ring;
use crate::z_2_128::{modulus_2_128, Z2_128};
use crate::z_2_64::{modulus_2_64, Z2_64};
use crate::zq2::{lemma_product_fits, Zq2};

verus! {

/// A residue ring whose elements have signed representatives held in a machine integer.
pub trait WithSignedRepresentative: Ring {
    /// The signed representative of an element.
    spec fn signed(&self) -> int;

    /// The smallest signed representative that the representative type admits.
    spec fn repr_min() -> int;

    /// The largest signed representative that the representative type admits.
    spec fn repr_max() -> int;

    /// A signed representative is congruent to the residue and lies in the admitted range.
    proof fn lemma_signed(x: Self)
        requires
            x.wf(),
        ensures
            x.signed() % Self::modulus() == x.val(),
            Self::repr_min() <= x.signed() <= Self::repr_max(),
            i128::MIN <= Self::repr_min() <= 0 <= Self::repr_max() <= i128::MAX,
            -Self::repr_min() <= Self::modulus() / 2,
            Self::repr_max() <= Self::modulus() / 2,
            -x.signed() <= Self::modulus() / 2,
            x.signed() <= Self::modulus() / 2,
    ;

    /// The smallest admitted signed representative.
    fn min_signed_representative() -> (r: i128)
        requires
            Self::modulus() >= 2,
        ensures
            r == Self::repr_min(),
    ;

    /// The largest admitted signed representative.
    fn max_signed_representative() -> (r: i128)
        requires
            Self::modulus() >= 2,
        ensures
            r == Self::repr_max(),
    ;

    /// The signed representative.
    fn as_signed_representative(&self) -> (r: i128)
        requires
            self.wf(),
        ensures
            r == self.signed(),
    ;

    /// The element that an integer of the representative type stands for.
    fn from_signed_representative(x: i128) -> (r: Self)
        requires
            Self::modulus() >= 2,
            Self::repr_min() <= x <= Self::repr_max(),
        ensures
            r.wf(),
            r.val() == (x as int) % Self::modulus(),
    ;
}

/// An element congruent to an integer below half the modulus in magnitude has that
/// integer as its signed representative.
pub proof fn lemma_signed_of_small<R: WithSignedRepresentative>(x: R, d: int)
    requires
        x.wf(),
        x.val() == d % R::modulus(),
        2 * d < R::modulus(),
        -2 * d < R::modulus(),
    ensures
        x.signed() == d,
{
    R::lemma_signed(x);
    R::lemma_wf(x);
    let m = R::modulus();
    let s = x.signed();
    lemma_sub_mod_noop(s, d, m);
    lemma_mod_twice(d, m);
    lemma_small_mod(0, m as nat);
    lemma_fundamental_div_mod(s - d, m);
    let t = (s - d) / m;
    assert(s - d == m * t);
    assert(t == 0) by (nonlinear_arith)
        requires
            s - d == m * t,
            2 * d < m,
            -2 * d < m,
            -s <= m / 2,
            s <= m / 2,
            2 * (m / 2) <= m,
            m >= 1,
    ;
    assert(m * t == 0);
}

impl<const Q: u64> WithSignedRepresentative for Fq<Q> {
    /// Residues above `Q / 2` stand for their difference with `Q`.
    open spec fn signed(&self) -> int {
        if self.val() > Q as int / 2 {
            self.val() - Q as int
        } else {
            self.val()
        }
    }

    /// Signed representatives modulo `Q` lie in `[-(Q / 2), Q / 2]`.
    open spec fn repr_min() -> int {
        -(Q as int / 2)
    }

    open spec fn repr_max() -> int {
        Q as int / 2
    }

    proof fn lemma_signed(x: Self) {
        Self::lemma_wf(x);
        if x.val() > Q as int / 2 {
            lemma_mod_add_multiples_vanish(x.val() - Q as int, Q as int);
        }
        lemma_small_mod(x.val() as nat, Q as nat);
    }

    fn min_signed_representative() -> (r: i128) {
        -((Q / 2) as i128)
    }

    fn max_signed_representative() -> (r: i128) {
        (Q / 2) as i128
    }

    fn as_signed_representative(&self) -> (r: i128) {
        proof {
            Self::lemma_wf(*self);
        }
        let v = self.value();
        if v > Q / 2 {
            v as i128 - Q as i128
        } else {
            v as i128
        }
    }

    fn from_signed_representative(x: i128) -> (r: Self) {
        if x >= 0 {
            let m = (x as u128 % Q as u128) as u64;
            Fq::new_unchecked(m)
        } else {
            let m = ((-(x + 1)) as u128 % Q as u128) as u64;
            proof {
                // x = -(y + 1) with y = -(x + 1) >= 0, so x = Q * (-(y / Q) - 1) + (Q - 1 - y % Q).
                let y = -(x + 1);
                let qq = Q as int;
                lemma_fundamental_div_mod(y, qq);
                let a = -(y / qq) - 1;
                let b = qq - 1 - (y % qq);
                assert(x == qq * a + b) by (nonlinear_arith)
                    requires
                        y == qq * (y / qq) + y % qq,
                        x == -y - 1,
                        a == -(y / qq) - 1,
                        b == qq - 1 - (y % qq),
                ;
                lemma_mod_multiples_vanish(a, b, qq);
                lemma_small_mod(b as nat, qq as nat);
                assert(m as int == y % qq);
            }
            Fq::new_unchecked(Q - 1 - m)
        }
    }
}

impl WithSignedRepresentative for Z2_64 {
    open spec fn signed(&self) -> int {
        self.as_signed()
    }

    open spec fn repr_min() -> int {
        i64::MIN as int
    }

    open spec fn repr_max() -> int {
        i64::MAX as int
    }

    proof fn lemma_signed(x: Self) {
        Z2_64::lemma_val(x);
        if x.as_signed() < 0 {
            lemma_mod_add_multiples_vanish(x.as_signed(), modulus_2_64());
        }
        lemma_small_mod(x.val() as nat, modulus_2_64() as nat);
    }

    fn min_signed_representative() -> (r: i128) {
        i64::MIN as i128
    }

    fn max_signed_representative() -> (r: i128) {
        i64::MAX as i128
    }

    fn as_signed_representative(&self) -> (r: i128) {
        proof {
            Z2_64::lemma_val(*self);
        }
        Z2_64::as_signed_representative(self) as i128
    }

    fn from_signed_representative(x: i128) -> (r: Self) {
        Z2_64::from_i64(x as i64)
    }
}

impl WithSignedRepresentative for Z2_128 {
    open spec fn signed(&self) -> int {
        self.as_signed()
    }

    open spec fn repr_min() -> int {
        i128::MIN as int
    }

    open spec fn repr_max() -> int {
        i128::MAX as int
    }

    proof fn lemma_signed(x: Self) {
        Z2_128::lemma_val(x);
        if x.as_signed() < 0 {
            lemma_mod_add_multiples_vanish(x.as_signed(), modulus_2_128());
        }
        lemma_small_mod(x.val() as nat, modulus_2_128() as nat);
    }

    fn min_signed_representative() -> (r: i128) {
        i128::MIN
    }

    fn max_signed_representative() -> (r: i128) {
        i128::MAX
    }

    fn as_signed_representative(&self) -> (r: i128) {
        proof {
            Z2_128::lemma_val(*self);
        }
        Z2_128::as_signed_representative(self)
    }

    fn from_signed_representative(x: i128) -> (r: Self) {
        Z2_128::from_i128(x)
    }
}

impl<const Q1: u64, const Q2: u64> WithSignedRepresentative for Zq2<Q1, Q2> {
    /// Residues above half the modulus stand for their difference with it.
    open spec fn signed(&self) -> int {
        if self.val() > Self::modulus() / 2 {
            self.val() - Self::modulus()
        } else {
            self.val()
        }
    }

    open spec fn repr_min() -> int {
        -(Self::modulus() / 2)
    }

    open spec fn repr_max() -> int {
        Self::modulus() / 2
    }

    proof fn lemma_signed(x: Self) {
        Zq2::<Q1, Q2>::lemma_residues(x);
        lemma_product_fits(Q1, Q2);
        let m = Self::modulus();
        if x.val() > m / 2 {
            lemma_mod_add_multiples_vanish(x.val() - m, m);
        }
        lemma_small_mod(x.val() as nat, m as nat);
    }

    fn min_signed_representative() -> (r: i128) {
        proof {
            lemma_product_fits(Q1, Q2);
        }
        let q = (Q1 as u128) * (Q2 as u128);
        -((q / 2) as i128)
    }

    fn max_signed_representative() -> (r: i128) {
        proof {
            lemma_product_fits(Q1, Q2);
        }
        let q = (Q1 as u128) * (Q2 as u128);
        (q / 2) as i128
    }

    fn as_signed_representative(&self) -> (r: i128) {
        proof {
            Zq2::<Q1, Q2>::lemma_residues(*self);
            lemma_product_fits(Q1, Q2);
        }
        let q = (Q1 as u128) * (Q2 as u128);
        let v = self.into_bigint();
        if v > q / 2 {
            -((q - v) as i128)
        } else {
            v as i128
        }
    }

    fn from_signed_representative(x: i128) -> (r: Self) {
        proof {
            lemma_product_fits(Q1, Q2);
        }
        let q = (Q1 as u128) * (Q2 as u128);
        let ghost m = q as int;
        if x >= 0 {
            proof {
                lemma_small_mod(x as nat, m as nat);
            }
            Self::from_bigint(x as u128).unwrap()
        } else {
            let y = q - ((-(x + 1)) as u128 + 1);
            proof {
                lemma_mod_add_multiples_vanish(x as int, m);
                lemma_small_mod(y as nat, m as nat);
            }
            Self::from_bigint(y).unwrap()
        }
    }
}

} // verus!
