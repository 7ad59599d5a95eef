//! The prime field `F_Q`, with elements stored as their canonical residue.
use rand::rngs::StdRng;
use vstd::arithmetic::div_mod::*;
use vstd::prelude::*;

use crate::arith::{gcd, is_prime, lemma_gcd_step, lemma_invertible_needs_gcd_one};
use crate::ntt::const_inv_mod;
use crate::ring::Ring;
use crate::random::gen_below;

verus! {

/// An element of `Z / Q Z`, stored as its residue in `[0, Q)`.
#[derive(Clone, Copy, Debug, PartialEq, Eq, Hash)]
pub struct Fq<const Q: u64> {
    v: u64,
}

/// The ring `Z / Q Z` with a single modulus.
pub type Zq1<const Q: u64> = Fq<Q>;

/// Greatest common divisor of two machine integers.
pub fn gcd_u64(a: u64, b: u64) -> (g: u64)
    ensures
        g == gcd(a as nat, b as nat),
{
    let mut x = a;
    let mut y = b;
    while y != 0
        invariant
            gcd(x as nat, y as nat) == gcd(a as nat, b as nat),
        decreases y,
    {
        proof {
            lemma_gcd_step(x as nat, y as nat);
        }
        let r = x % y;
        x = y;
        y = r;
    }
    x
}

/// The zero element.
pub fn fq_zero<const Q: u64>() -> (r: Fq<Q>)
    requires
        Q >= 1,
    ensures
        r.wf(),
        r.val() == 0,
{
    Fq { v: 0 }
}

/// The modulus as a single 64-bit limb, for a field configuration whose modulus must be an
/// odd prime.
pub fn to_bigint_assert_odd_prime<const Q: u64>() -> (r: [u64; 1])
    requires
        Q > 2,
        is_prime(Q as int),
    ensures
        r[0] == Q,
{
    [Q]
}

impl<const Q: u64> Fq<Q> {
    /// The residue of `x` modulo `Q`.
    pub fn from_u64(x: u64) -> (r: Self)
        requires
            Q >= 1,
        ensures
            r.wf(),
            r.val() == x as int % Q as int,
    {
        Fq { v: x % Q }
    }

    /// The exclusive upper end `Q` of the draws of `rand`, whose residue is the drawn integer
    /// itself (see `new_unchecked`).
    pub fn sample_bound() -> (b: u64)
        ensures
            b == Q,
    {
        Q
    }

    /// The element whose residue is `x`, which must already be reduced.
    pub fn new_unchecked(x: u64) -> (r: Self)
        requires
            x < Q,
        ensures
            r.wf(),
            r.val() == x,
    {
        Fq { v: x }
    }

    /// The element whose residue is `x`, refused where `x` is not below the modulus.
    pub fn try_from_u64(x: u64) -> (r: Result<Self, ()>)
        ensures
            r is Ok <==> x < Q,
            r matches Ok(z) ==> z.wf() && z.val() == x,
    {
        if x < Q {
            Ok(Fq { v: x })
        } else {
            Err(())
        }
    }

    /// The element whose residue is `x`, refused where `x` is not below the modulus.
    pub fn try_from_u128(x: u128) -> (r: Result<Self, ()>)
        ensures
            r is Ok <==> x < Q,
            r matches Ok(z) ==> z.wf() && z.val() == x,
    {
        if x < Q as u128 {
            Ok(Fq { v: x as u64 })
        } else {
            Err(())
        }
    }

    /// The canonical residue in `[0, Q)`.
    pub fn value(&self) -> (r: u64)
        ensures
            r as int == self.val(),
    {
        self.v
    }
}

impl<const Q: u64> Ring for Fq<Q> {
    open spec fn modulus() -> int {
        Q as int
    }

    closed spec fn val(&self) -> int {
        self.v as int
    }

    closed spec fn wf(&self) -> bool {
        self.v < Q
    }

    proof fn lemma_wf(x: Self) {
    }

    proof fn lemma_canonical(x: Self, y: Self) {
    }

    fn zero() -> (r: Self) {
        Fq { v: 0 }
    }

    fn one() -> (r: Self) {
        Fq { v: 1 }
    }

    fn is_zero(&self) -> (b: bool) {
        self.v == 0
    }

    fn ring_eq(&self, other: &Self) -> (b: bool) {
        self.v == other.v
    }

    fn add(&self, other: &Self) -> (r: Self) {
        let s: u128 = (self.v as u128 + other.v as u128) % (Q as u128);
        Fq { v: s as u64 }
    }

    fn sub(&self, other: &Self) -> (r: Self) {
        let s: u128 = (self.v as u128 + Q as u128 - other.v as u128) % (Q as u128);
        proof {
            lemma_mod_add_multiples_vanish(self.v - other.v, Q as int);
        }
        Fq { v: s as u64 }
    }

    fn mul(&self, other: &Self) -> (r: Self) {
        proof {
            vstd::arithmetic::mul::lemma_mul_upper_bound(
                self.v as int,
                u64::MAX as int,
                other.v as int,
                u64::MAX as int,
            );
        }
        let p: u128 = (self.v as u128 * other.v as u128) % (Q as u128);
        Fq { v: p as u64 }
    }

    fn neg(&self) -> (r: Self) {
        if self.v == 0 {
            proof {
                lemma_small_mod(0, Q as nat);
            }
            Fq { v: 0 }
        } else {
            proof {
                lemma_mod_add_multiples_vanish(-self.v, Q as int);
                lemma_small_mod((Q - self.v) as nat, Q as nat);
            }
            Fq { v: Q - self.v }
        }
    }

    fn rand(rng: &mut StdRng) -> (r: Self) {
        let x = gen_below(rng, Self::sample_bound());
        Self::new_unchecked(x)
    }

    fn inverse(&self) -> (r: Option<Self>) {
        if gcd_u64(Q, self.v) == 1 {
            let y = const_inv_mod::<Q>(self.v);
            proof {
                assert(((self.v as int) * (y as int)) % (Q as int) == 1int % (Q as int));
            }
            Some(Fq { v: y })
        } else {
            proof {
                lemma_invertible_needs_gcd_one(self.v as nat, Q as nat);
            }
            None
        }
    }
}

} // verus!
