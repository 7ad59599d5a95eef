//! The ring `Z / 2^128 Z`, stored as a wrapping signed 128-bit integer.
use rand::rngs::StdRng;
use vstd::arithmetic::div_mod::*;
use vstd::arithmetic::power2::*;
use vstd::prelude::*;

use crate::arith::{lemma_no_inverse_with_common_divisor, lemma_odd_invertible_mod_pow2};
use crate::ring::Ring;
use crate::z_2_64::{
    be_value, lemma_be_value_fits, lemma_be_value_step, lemma_mod_injective, modinv_pow2,
};
use crate::random::{random_bytes, reversed};

verus! {

/// `2^128`.
pub open spec fn modulus_2_128() -> int {
    0x1_0000_0000_0000_0000_0000_0000_0000_0000int
}

/// The representative in `[-2^127, 2^127)` of a residue in `[0, 2^128)`.
pub open spec fn signed_rep_2_128(v: int) -> int {
    if v < 0x8000_0000_0000_0000_0000_0000_0000_0000int {
        v
    } else {
        v - modulus_2_128()
    }
}

/// `2^128` as a power of two.
pub proof fn lemma_pow2_128()
    ensures
        pow2(128) == modulus_2_128(),
{
    lemma2_to64();
    lemma_pow2_adds(64, 64);
}

/// An element of `Z / 2^128 Z`.
#[derive(Clone, Copy, Debug, PartialEq, Eq, Structural, Hash, Default, PartialOrd, Ord)]
pub struct Z2_128(i128);

impl Z2_128 {
    /// The element whose residue is `x`: `[0, 2^127)` is kept, `[2^127, 2^128)` wraps to
    /// negative representatives.
    pub fn from_u128(x: u128) -> (r: Self)
        ensures
            r.val() == x,
    {
        let signed: i128 = if x < 0x8000_0000_0000_0000_0000_0000_0000_0000u128 {
            x as i128
        } else {
            (x - 0x8000_0000_0000_0000_0000_0000_0000_0000u128) as i128 + i128::MIN
        };
        proof {
            lemma_mod_add_multiples_vanish(signed as int, modulus_2_128());
            lemma_small_mod(x as nat, modulus_2_128() as nat);
        }
        Z2_128(signed)
    }

    /// The residue in `[0, 2^128)`.
    pub fn to_u128(&self) -> (r: u128)
        ensures
            r == self.val(),
    {
        let signed = self.0;
        let unsigned: u128 = if signed >= 0 {
            signed as u128
        } else {
            (signed - i128::MIN) as u128 + 0x8000_0000_0000_0000_0000_0000_0000_0000u128
        };
        proof {
            Self::lemma_val(*self);
        }
        unsigned
    }

    /// The element whose signed representative is `x`.
    pub fn from_i128(x: i128) -> (r: Self)
        ensures
            r.val() == x as int % modulus_2_128(),
            r.as_signed() == x,
    {
        Z2_128(x)
    }

    /// The signed representative in `[-2^127, 2^127)`.
    pub fn as_signed_representative(&self) -> (r: i128)
        ensures
            r == signed_rep_2_128(self.val()),
            r == self.as_signed(),
    {
        proof {
            Self::lemma_val(*self);
        }
        self.0
    }

    /// The signed representative.
    pub closed spec fn as_signed(&self) -> int {
        self.0 as int
    }

    /// The residue and the signed representative determine each other.
    pub proof fn lemma_val(x: Self)
        ensures
            x.as_signed() == signed_rep_2_128(x.val()),
            x.as_signed() >= 0 ==> x.val() == x.as_signed(),
            x.as_signed() < 0 ==> x.val() == x.as_signed() + modulus_2_128(),
            i128::MIN <= x.as_signed() <= i128::MAX,
    {
        if x.0 >= 0 {
            lemma_small_mod(x.0 as nat, modulus_2_128() as nat);
        } else {
            lemma_mod_add_multiples_vanish(x.0 as int, modulus_2_128());
            lemma_small_mod((x.0 + modulus_2_128()) as nat, modulus_2_128() as nat);
        }
    }

    /// The element read from 16 big-endian random bytes.
    pub fn try_from_random_bytes_inner(bytes: &[u8]) -> (r: Option<Self>)
        ensures
            r is Some <==> bytes@.len() == 16,
            r matches Some(z) ==> z.val() == be_value(bytes@),
    {
        if bytes.len() != 16 {
            return None;
        }
        let mut acc: u128 = 0;
        let mut i: usize = 0;
        proof {
            lemma_pow2_pos(0);
        }
        while i < 16
            invariant
                0 <= i <= 16,
                bytes@.len() == 16,
                acc == be_value(bytes@.subrange(0, i as int)),
                acc < pow2(8 * i as nat),
            decreases 16 - i,
        {
            proof {
                lemma_be_value_step(bytes@, i as nat);
                lemma_pow2_adds(8 * i as nat, 8);
                lemma_pow2_128();
                lemma2_to64();
                lemma_be_value_fits(acc as int, bytes@[i as int] as int, pow2(8 * i as nat) as int);
                if i < 15 {
                    lemma_pow2_strictly_increases(8 * (i + 1) as nat, 128);
                }
            }
            acc = acc * 256 + bytes[i] as u128;
            i += 1;
        }
        proof {
            assert(bytes@.subrange(0, 16) =~= bytes@);
        }
        Some(Self::from_u128(acc))
    }

    /// The number of random bytes requested for an element: 8, fewer than the 16 that
    /// `try_from_random_bytes_inner` reads.
    pub fn needs_bytes() -> (n: usize)
        ensures
            n == 8,
    {
        8
    }

    /// The sum of all elements of `v`.
    pub fn sum(v: &[Self]) -> (r: Self)
        ensures
            r.val() == sum_vals_2_128(v@) % modulus_2_128(),
    {
        let mut acc = Z2_128(0);
        let mut i: usize = 0;
        while i < v.len()
            invariant
                0 <= i <= v@.len(),
                acc.val() == sum_vals_2_128(v@.subrange(0, i as int)) % modulus_2_128(),
            decreases v@.len() - i,
        {
            proof {
                assert(v@.subrange(0, i + 1 as int).drop_last() =~= v@.subrange(0, i as int));
                lemma_add_mod_noop(
                    sum_vals_2_128(v@.subrange(0, i as int)),
                    v@[i as int].val(),
                    modulus_2_128(),
                );
                Self::lemma_wf(v@[i as int]);
                lemma_small_mod(v@[i as int].val() as nat, modulus_2_128() as nat);
            }
            acc = acc.add(&v[i]);
            i += 1;
        }
        proof {
            assert(v@.subrange(0, v@.len() as int) =~= v@);
        }
        acc
    }
}

/// The sum of the residues of a sequence of elements of `Z / 2^128 Z`.
pub open spec fn sum_vals_2_128(s: Seq<Z2_128>) -> int
    decreases s.len(),
{
    if s.len() == 0 {
        0
    } else {
        sum_vals_2_128(s.drop_last()) + s.last().val()
    }
}

impl Ring for Z2_128 {
    open spec fn modulus() -> int {
        modulus_2_128()
    }

    closed spec fn val(&self) -> int {
        self.0 as int % modulus_2_128()
    }

    open spec fn wf(&self) -> bool {
        true
    }

    proof fn lemma_wf(x: Self) {
    }

    proof fn lemma_canonical(x: Self, y: Self) {
        lemma_mod_injective(x.0 as int, y.0 as int, modulus_2_128());
    }

    fn zero() -> (r: Self) {
        proof {
            lemma_small_mod(0, modulus_2_128() as nat);
        }
        Z2_128(0)
    }

    fn one() -> (r: Self) {
        proof {
            lemma_small_mod(1, modulus_2_128() as nat);
        }
        Z2_128(1)
    }

    fn is_zero(&self) -> (b: bool) {
        proof {
            Self::lemma_val(*self);
        }
        self.0 == 0
    }

    fn ring_eq(&self, other: &Self) -> (b: bool) {
        proof {
            Self::lemma_val(*self);
            Self::lemma_val(*other);
        }
        self.0 == other.0
    }

    fn add(&self, other: &Self) -> (r: Self) {
        let s = self.0.wrapping_add(other.0);
        proof {
            let (x, y, m) = (self.0 as int, other.0 as int, modulus_2_128());
            lemma_add_mod_noop(x, y, m);
            lemma_mod_add_multiples_vanish(x + y, m);
            lemma_mod_sub_multiples_vanish(x + y, m);
        }
        Z2_128(s)
    }

    fn sub(&self, other: &Self) -> (r: Self) {
        let s = self.0.wrapping_sub(other.0);
        proof {
            let (x, y, m) = (self.0 as int, other.0 as int, modulus_2_128());
            lemma_sub_mod_noop(x, y, m);
            lemma_mod_add_multiples_vanish(x - y, m);
            lemma_mod_sub_multiples_vanish(x - y, m);
        }
        Z2_128(s)
    }

    fn mul(&self, other: &Self) -> (r: Self) {
        let p = self.0.wrapping_mul(other.0);
        proof {
            let (x, y, m) = (self.0 as int, other.0 as int, modulus_2_128());
            lemma_mul_mod_noop(x, y, m);
            lemma_mod_twice(x * y, m);
            lemma_mod_sub_multiples_vanish((x * y) % m, m);
        }
        Z2_128(p)
    }

    fn neg(&self) -> (r: Self) {
        let s = 0i128.wrapping_sub(self.0);
        proof {
            let (x, m) = (self.0 as int, modulus_2_128());
            lemma_sub_mod_noop(0, x, m);
            lemma_small_mod(0, m as nat);
            lemma_mod_add_multiples_vanish(0 - x, m);
            lemma_mod_sub_multiples_vanish(0 - x, m);
        }
        Z2_128(s)
    }

    /// Sixteen random bytes read as a little-endian integer.
    fn rand(rng: &mut StdRng) -> (r: Self) {
        let bytes = random_bytes(rng, 16);
        let be = reversed(&bytes);
        Self::try_from_random_bytes_inner(be.as_slice()).unwrap()
    }

    fn inverse(&self) -> (r: Option<Self>) {
        let u = self.to_u128();
        if u % 2 == 0 {
            proof {
                lemma_pow2_128();
                lemma_no_inverse_with_common_divisor(u as int, modulus_2_128(), 2);
            }
            None
        } else {
            proof {
                lemma_pow2_128();
                lemma_odd_invertible_mod_pow2(u as nat, 128);
            }
            let inv = modinv_pow2(u, 128).unwrap();
            let r = Self::from_u128(inv);
            Some(r)
        }
    }
}

} // verus!
