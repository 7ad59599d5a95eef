//! The ring `Z / 2^64 Z`, stored as a wrapping signed 64-bit integer.
use rand::rngs::StdRng;
use num_bigint::BigUint;
use num_traits::ToPrimitive;
use vstd::arithmetic::div_mod::*;
use vstd::arithmetic::power2::*;
use vstd::prelude::*;

use crate::arith::{
    is_invertible_mod, lemma_no_inverse_with_common_divisor, lemma_odd_invertible_mod_pow2,
};
use crate::ring::Ring;
use crate::random::{random_bytes, reversed};

verus! {

/// `2^64`.
pub open spec fn modulus_2_64() -> int {
    0x1_0000_0000_0000_0000
}

/// The representative in `[-2^63, 2^63)` of a residue in `[0, 2^64)`.
pub open spec fn signed_rep_2_64(v: int) -> int {
    if v < 0x8000_0000_0000_0000 {
        v
    } else {
        v - modulus_2_64()
    }
}

/// `BigUint::modinv` of `x` modulo `2^bits`, read back as a `u128`. It returns the inverse in
/// `[0, 2^bits)` where one exists, and `None` otherwise.
#[verifier::external_body]
pub(crate) fn modinv_pow2(x: u128, bits: u32) -> (r: Option<u128>)
    requires
        1 <= bits <= 128,
    ensures
        r is Some <==> is_invertible_mod(x as int, pow2(bits as nat) as int),
        r matches Some(y) ==> y < pow2(bits as nat) && (x * y) % (pow2(bits as nat) as int) == 1,
{
    match BigUint::from(x).modinv(&BigUint::from(2u8).pow(bits)) {
        Some(y) => y.to_u128(),
        None => None,
    }
}

/// Two integers less than `m` apart with the same residue modulo `m` are equal.
pub proof fn lemma_mod_injective(a: int, b: int, m: int)
    requires
        m > 0,
        -m < a - b < m,
        a % m == b % m,
    ensures
        a == b,
{
    lemma_sub_mod_noop(a, b, m);
    lemma_small_mod(0, m as nat);
    lemma_mod_self_0(m);
    if a - b > 0 {
        lemma_small_mod((a - b) as nat, m as nat);
    } else if a - b < 0 {
        lemma_mod_add_multiples_vanish(a - b, m);
        lemma_small_mod((m + (a - b)) as nat, m as nat);
    }
}

/// An element of `Z / 2^64 Z`.
#[derive(Clone, Copy, Debug, PartialEq, Eq, Structural, Hash, Default, PartialOrd, Ord)]
pub struct Z2_64(i64);

impl Z2_64 {
    /// The element whose residue is `x`: `[0, 2^63)` is kept, `[2^63, 2^64)` wraps to
    /// negative representatives.
    pub fn from_u64(x: u64) -> (r: Self)
        ensures
            r.val() == x,
    {
        let signed: i64 = if x < 0x8000_0000_0000_0000u64 {
            x as i64
        } else {
            (x as i128 - 0x1_0000_0000_0000_0000i128) as i64
        };
        proof {
            lemma_mod_add_multiples_vanish(signed as int, modulus_2_64());
            lemma_small_mod(x as nat, modulus_2_64() as nat);
        }
        Z2_64(signed)
    }

    /// The residue in `[0, 2^64)`.
    pub fn to_u64(&self) -> (r: u64)
        ensures
            r == self.val(),
    {
        let signed = self.0;
        let unsigned: u64 = if signed >= 0 {
            signed as u64
        } else {
            (signed as i128 + 0x1_0000_0000_0000_0000i128) as u64
        };
        proof {
            Self::lemma_val(*self);
        }
        unsigned
    }

    /// The element whose signed representative is `x`.
    pub fn from_i64(x: i64) -> (r: Self)
        ensures
            r.val() == x as int % modulus_2_64(),
            r.as_signed() == x,
    {
        Z2_64(x)
    }

    /// The signed representative in `[-2^63, 2^63)`.
    pub fn as_signed_representative(&self) -> (r: i64)
        ensures
            r == signed_rep_2_64(self.val()),
            r == self.as_signed(),
    {
        proof {
            Self::lemma_val(*self);
        }
        self.0
    }

    /// The signed representative.
    pub closed spec fn as_signed(&self) -> int {
        self.0 as int
    }

    /// The residue and the signed representative determine each other.
    pub proof fn lemma_val(x: Self)
        ensures
            x.as_signed() == signed_rep_2_64(x.val()),
            x.as_signed() >= 0 ==> x.val() == x.as_signed(),
            x.as_signed() < 0 ==> x.val() == x.as_signed() + modulus_2_64(),
            i64::MIN <= x.as_signed() <= i64::MAX,
    {
        if x.0 >= 0 {
            lemma_small_mod(x.0 as nat, modulus_2_64() as nat);
        } else {
            lemma_mod_add_multiples_vanish(x.0 as int, modulus_2_64());
            lemma_small_mod((x.0 + modulus_2_64()) as nat, modulus_2_64() as nat);
        }
    }

    /// The element read from 8 big-endian random bytes.
    pub fn try_from_random_bytes_inner(bytes: &[u8]) -> (r: Option<Self>)
        ensures
            r is Some <==> bytes@.len() == 8,
            r matches Some(z) ==> z.val() == be_value(bytes@),
    {
        if bytes.len() != 8 {
            return None;
        }
        let mut acc: u64 = 0;
        let mut i: usize = 0;
        proof {
            lemma_pow2_pos(0);
        }
        while i < 8
            invariant
                0 <= i <= 8,
                bytes@.len() == 8,
                acc == be_value(bytes@.subrange(0, i as int)),
                acc < pow2(8 * i as nat),
            decreases 8 - i,
        {
            proof {
                lemma_be_value_step(bytes@, i as nat);
                lemma_pow2_adds(8 * i as nat, 8);
                lemma2_to64();
                lemma_be_value_fits(acc as int, bytes@[i as int] as int, pow2(8 * i as nat) as int);
                if i < 7 {
                    lemma_pow2_strictly_increases(8 * (i + 1) as nat, 64);
                }
            }
            acc = acc * 256 + bytes[i] as u64;
            i += 1;
        }
        proof {
            assert(bytes@.subrange(0, 8) =~= bytes@);
        }
        Some(Self::from_u64(acc))
    }

    /// The number of random bytes an element is read from.
    pub fn needs_bytes() -> (n: usize)
        ensures
            n == 8,
    {
        8
    }

    /// The sum of all elements of `v`.
    pub fn sum(v: &[Self]) -> (r: Self)
        ensures
            r.val() == sum_vals_2_64(v@) % modulus_2_64(),
    {
        let mut acc = Z2_64(0);
        let mut i: usize = 0;
        while i < v.len()
            invariant
                0 <= i <= v@.len(),
                acc.val() == sum_vals_2_64(v@.subrange(0, i as int)) % modulus_2_64(),
            decreases v@.len() - i,
        {
            proof {
                assert(v@.subrange(0, i + 1 as int).drop_last() =~= v@.subrange(0, i as int));
                lemma_add_mod_noop(
                    sum_vals_2_64(v@.subrange(0, i as int)),
                    v@[i as int].val(),
                    modulus_2_64(),
                );
                Self::lemma_wf(v@[i as int]);
                lemma_small_mod(v@[i as int].val() as nat, modulus_2_64() as nat);
            }
            acc = acc.add(&v[i]);
            i += 1;
        }
        proof {
            assert(v@.subrange(0, v@.len() as int) =~= v@);
        }
        acc
    }
}

/// The value of a big-endian sequence of bytes.
pub open spec fn be_value(b: Seq<u8>) -> int
    decreases b.len(),
{
    if b.len() == 0 {
        0
    } else {
        be_value(b.drop_last()) * 256 + b.last()
    }
}

pub proof fn lemma_be_value_step(b: Seq<u8>, i: nat)
    requires
        i < b.len(),
    ensures
        be_value(b.subrange(0, i + 1int)) == be_value(b.subrange(0, i as int)) * 256 + b[i as int],
{
    assert(b.subrange(0, i + 1int).drop_last() =~= b.subrange(0, i as int));
}

pub proof fn lemma_be_value_fits(acc: int, byte: int, p: int)
    requires
        0 <= acc < p,
        0 <= byte < 256,
    ensures
        0 <= acc * 256 + byte < p * 256,
{
    assert(acc * 256 + byte < p * 256) by (nonlinear_arith)
        requires
            0 <= acc < p,
            0 <= byte < 256,
    ;
}

/// The sum of the residues of a sequence of elements of `Z / 2^64 Z`.
pub open spec fn sum_vals_2_64(s: Seq<Z2_64>) -> int
    decreases s.len(),
{
    if s.len() == 0 {
        0
    } else {
        sum_vals_2_64(s.drop_last()) + s.last().val()
    }
}

impl Ring for Z2_64 {
    open spec fn modulus() -> int {
        modulus_2_64()
    }

    closed spec fn val(&self) -> int {
        self.0 as int % modulus_2_64()
    }

    open spec fn wf(&self) -> bool {
        true
    }

    proof fn lemma_wf(x: Self) {
    }

    proof fn lemma_canonical(x: Self, y: Self) {
        lemma_mod_injective(x.0 as int, y.0 as int, modulus_2_64());
    }

    fn zero() -> (r: Self) {
        proof {
            lemma_small_mod(0, modulus_2_64() as nat);
        }
        Z2_64(0)
    }

    fn one() -> (r: Self) {
        proof {
            lemma_small_mod(1, modulus_2_64() as nat);
        }
        Z2_64(1)
    }

    fn is_zero(&self) -> (b: bool) {
        proof {
            Self::lemma_val(*self);
        }
        self.0 == 0
    }

    fn ring_eq(&self, other: &Self) -> (b: bool) {
        proof {
            Self::lemma_val(*self);
            Self::lemma_val(*other);
        }
        self.0 == other.0
    }

    fn add(&self, other: &Self) -> (r: Self) {
        let s = self.0.wrapping_add(other.0);
        proof {
            let (x, y, m) = (self.0 as int, other.0 as int, modulus_2_64());
            lemma_add_mod_noop(x, y, m);
            lemma_mod_add_multiples_vanish(x + y, m);
            lemma_mod_sub_multiples_vanish(x + y, m);
        }
        Z2_64(s)
    }

    fn sub(&self, other: &Self) -> (r: Self) {
        let s = self.0.wrapping_sub(other.0);
        proof {
            let (x, y, m) = (self.0 as int, other.0 as int, modulus_2_64());
            lemma_sub_mod_noop(x, y, m);
            lemma_mod_add_multiples_vanish(x - y, m);
            lemma_mod_sub_multiples_vanish(x - y, m);
        }
        Z2_64(s)
    }

    fn mul(&self, other: &Self) -> (r: Self) {
        let p = self.0.wrapping_mul(other.0);
        proof {
            let (x, y, m) = (self.0 as int, other.0 as int, modulus_2_64());
            lemma_mul_mod_noop(x, y, m);
            lemma_mod_twice(x * y, m);
            lemma_mod_sub_multiples_vanish((x * y) % m, m);
        }
        Z2_64(p)
    }

    fn neg(&self) -> (r: Self) {
        let s = 0i64.wrapping_sub(self.0);
        proof {
            let (x, m) = (self.0 as int, modulus_2_64());
            lemma_sub_mod_noop(0, x, m);
            lemma_small_mod(0, m as nat);
            lemma_mod_add_multiples_vanish(0 - x, m);
            lemma_mod_sub_multiples_vanish(0 - x, m);
        }
        Z2_64(s)
    }

    /// Eight random bytes read as a little-endian integer.
    fn rand(rng: &mut StdRng) -> (r: Self) {
        let bytes = random_bytes(rng, 8);
        let be = reversed(&bytes);
        Self::try_from_random_bytes_inner(be.as_slice()).unwrap()
    }

    fn inverse(&self) -> (r: Option<Self>) {
        let u = self.to_u64();
        if u % 2 == 0 {
            proof {
                lemma2_to64();
                lemma_no_inverse_with_common_divisor(u as int, modulus_2_64(), 2);
            }
            None
        } else {
            proof {
                lemma2_to64();
                lemma_odd_invertible_mod_pow2(u as nat, 64);
            }
            let inv = modinv_pow2(u as u128, 64).unwrap();
            let r = Self::from_u64(inv as u64);
            Some(r)
        }
    }
}

} // verus!
