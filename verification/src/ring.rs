//! The `Ring` abstraction: every ring of this library is a ring of residues `Z / M Z`,
//! and each element is viewed as its canonical residue in `[0, M)`.
use vstd::arithmetic::div_mod::*;
use vstd::arithmetic::mul::*;
use vstd::prelude::*;

use rand::rngs::StdRng;

use crate::arith::is_invertible_mod;

verus! {

/// A commutative ring of residues modulo `Self::modulus()`.
pub trait Ring: Sized + Copy {
    /// The modulus `M` of `Z / M Z`.
    spec fn modulus() -> int;

    /// The canonical residue of an element.
    spec fn val(&self) -> int;

    /// Representation invariant.
    spec fn wf(&self) -> bool;

    /// A well-formed element is a residue in `[0, M)`.
    proof fn lemma_wf(x: Self)
        requires
            x.wf(),
        ensures
            Self::modulus() >= 1,
            0 <= x.val() < Self::modulus(),
    ;

    /// Well-formed elements are determined by their residue.
    proof fn lemma_canonical(x: Self, y: Self)
        requires
            x.wf(),
            y.wf(),
            x.val() == y.val(),
        ensures
            x == y,
    ;

    /// The additive identity.
    fn zero() -> (r: Self)
        requires
            Self::modulus() >= 2,
        ensures
            r.wf(),
            r.val() == 0,
    ;

    /// The multiplicative identity.
    fn one() -> (r: Self)
        requires
            Self::modulus() >= 2,
        ensures
            r.wf(),
            r.val() == 1,
    ;

    /// Whether this is the additive identity.
    fn is_zero(&self) -> (b: bool)
        requires
            self.wf(),
        ensures
            b == (self.val() == 0),
    ;

    /// Equality of residues.
    fn ring_eq(&self, other: &Self) -> (b: bool)
        requires
            self.wf(),
            other.wf(),
        ensures
            b == (self.val() == other.val()),
    ;

    /// Sum.
    fn add(&self, other: &Self) -> (r: Self)
        requires
            self.wf(),
            other.wf(),
        ensures
            r.wf(),
            r.val() == (self.val() + other.val()) % Self::modulus(),
    ;

    /// Difference.
    fn sub(&self, other: &Self) -> (r: Self)
        requires
            self.wf(),
            other.wf(),
        ensures
            r.wf(),
            r.val() == (self.val() - other.val()) % Self::modulus(),
    ;

    /// Product.
    fn mul(&self, other: &Self) -> (r: Self)
        requires
            self.wf(),
            other.wf(),
        ensures
            r.wf(),
            r.val() == (self.val() * other.val()) % Self::modulus(),
    ;

    /// Additive inverse.
    fn neg(&self) -> (r: Self)
        requires
            self.wf(),
        ensures
            r.wf(),
            r.val() == (-self.val()) % Self::modulus(),
    ;

    /// An element drawn uniformly at random from `rng`.
    fn rand(rng: &mut StdRng) -> (r: Self)
        requires
            Self::modulus() >= 2,
        ensures
            r.wf(),
    ;

    /// Multiplicative inverse, where one exists.
    fn inverse(&self) -> (r: Option<Self>)
        requires
            self.wf(),
        ensures
            r is Some <==> is_invertible_mod(self.val(), Self::modulus()),
            r matches Some(y) ==> y.wf() && (self.val() * y.val()) % Self::modulus() == 1int
                % Self::modulus(),
    ;
}

/// The residues of a sequence of ring elements.
pub open spec fn vals<R: Ring>(s: Seq<R>) -> Seq<int> {
    Seq::new(s.len(), |i: int| s[i].val())
}

/// Every element of a sequence is well formed.
pub open spec fn all_wf<R: Ring>(s: Seq<R>) -> bool {
    forall|i: int| 0 <= i < s.len() ==> #[trigger] s[i].wf()
}

/// Addition of residues is commutative.
pub proof fn law_add_commutative(a: int, b: int, m: int)
    requires
        m > 0,
    ensures
        (a + b) % m == (b + a) % m,
{
}

/// Addition of residues is associative.
pub proof fn law_add_associative(a: int, b: int, c: int, m: int)
    requires
        m > 0,
    ensures
        (((a + b) % m) + c) % m == (a + ((b + c) % m)) % m,
{
    lemma_add_mod_noop_right(a, b + c, m);
    lemma_add_mod_noop_right(c, a + b, m);
}

/// Multiplication of residues is commutative.
pub proof fn law_mul_commutative(a: int, b: int, m: int)
    requires
        m > 0,
    ensures
        (a * b) % m == (b * a) % m,
{
    lemma_mul_is_commutative(a, b);
}

/// Multiplication of residues is associative.
pub proof fn law_mul_associative(a: int, b: int, c: int, m: int)
    requires
        m > 0,
    ensures
        (((a * b) % m) * c) % m == (a * ((b * c) % m)) % m,
{
    lemma_mul_mod_noop_left(a * b, c, m);
    lemma_mul_mod_noop_right(a, b * c, m);
    lemma_mul_is_associative(a, b, c);
}

/// Multiplication distributes over addition of residues.
pub proof fn law_mul_distributes(a: int, b: int, c: int, m: int)
    requires
        m > 0,
    ensures
        (a * ((b + c) % m)) % m == (((a * b) % m) + ((a * c) % m)) % m,
{
    lemma_mul_mod_noop_right(a, b + c, m);
    lemma_mul_is_distributive_add(a, b, c);
    lemma_add_mod_noop(a * b, a * c, m);
}

/// Subtracting is adding the negation.
pub proof fn law_sub_is_add_neg(a: int, b: int, m: int)
    requires
        m > 0,
    ensures
        (a - b) % m == (a + ((-b) % m)) % m,
{
    lemma_add_mod_noop_right(a, -b, m);
}

/// The identities of residue arithmetic.
pub proof fn law_identities(a: int, m: int)
    requires
        m > 1,
        0 <= a < m,
    ensures
        (a + 0) % m == a,
        (a * 1) % m == a,
        (a + ((-a) % m)) % m == 0,
{
    lemma_small_mod(a as nat, m as nat);
    lemma_add_mod_noop(a, -a, m);
    lemma_mod_twice(a, m);
    lemma_mod_self_0(m);
    lemma_small_mod(0, m as nat);
}

} // verus!
