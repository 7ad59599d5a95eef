//! The prime field `Z / 2 Z`, stored as a boolean: addition is exclusive or,
//! multiplication is conjunction.
use rand::rngs::StdRng;
use vstd::prelude::*;
use vstd::string::StringExecFns;
use vstd::string::StrSliceExecFns;

use crate::ring::Ring;
use crate::random::gen_bool;

verus! {

/// An element of `Z / 2 Z`; `true` stands for one.
#[derive(Clone, Copy, Debug, PartialEq, Eq, Structural, Hash, Default, PartialOrd, Ord)]
pub struct Z2(bool);

/// The residue of a bit.
pub open spec fn bit_val(b: bool) -> int {
    if b {
        1
    } else {
        0
    }
}

/// The message of a string that names no element of `Z / 2 Z`: the prefix followed by the
/// string itself.
fn invalid_value_message(s: &str) -> (m: String)
    ensures
        m@ == "Invalid value for Z2: "@ + s@,
{
    let prefix = <String as StringExecFns>::from_str("Invalid value for Z2: ");
    prefix.concat(s)
}

impl Z2 {
    /// The element whose residue is `x`, which must be zero or one.
    pub fn from_u64(x: u64) -> (r: Self)
        requires
            x <= 1,
        ensures
            r.val() == x,
    {
        if x == 0 {
            Z2(false)
        } else {
            Z2(true)
        }
    }

    /// The element whose residue is `x`, which must be zero or one.
    pub fn from_i64(x: i64) -> (r: Self)
        requires
            0 <= x <= 1,
        ensures
            r.val() == x,
    {
        if x == 0 {
            Z2(false)
        } else {
            Z2(true)
        }
    }

    /// The element that `true` or `false` stands for.
    pub fn from_bool(b: bool) -> (r: Self)
        ensures
            r.val() == bit_val(b),
    {
        Z2(b)
    }

    /// Whether this is one.
    pub fn to_bool(&self) -> (b: bool)
        ensures
            bit_val(b) == self.val(),
    {
        self.0
    }

    /// Parses `"0"` or `"1"`; any other string is refused with a message naming it.
    pub fn parse(s: &str) -> (r: Result<Self, String>)
        ensures
            r is Ok <==> (s@ == seq!['0'] || s@ == seq!['1']),
            r matches Ok(z) ==> z.val() == (if s@ == seq!['1'] {
                1int
            } else {
                0int
            }),
            r matches Err(m) ==> m@ == "Invalid value for Z2: "@ + s@,
    {
        if s.unicode_len() == 1 {
            let c = s.get_char(0);
            if c == '0' {
                proof {
                    assert(s@ =~= seq!['0']);
                }
                return Ok(Z2(false));
            } else if c == '1' {
                proof {
                    assert(s@ =~= seq!['1']);
                }
                return Ok(Z2(true));
            }
        }
        Err(invalid_value_message(s))
    }

    /// The element read from the last byte of a non-empty random string: its lowest bit.
    pub fn try_from_random_bytes_inner(bytes: &[u8]) -> (r: Option<Self>)
        requires
            bytes@.len() >= 1,
        ensures
            r matches Some(z) && z.val() == bytes@[bytes@.len() - 1] % 2,
    {
        let last = bytes[bytes.len() - 1];
        let bit = last & 1;
        proof {
            assert(last & 1 == last % 2) by (bit_vector);
        }
        Some(Z2(bit != 0))
    }

    /// The number of random bytes an element is read from.
    pub fn needs_bytes() -> (n: usize)
        ensures
            n == 1,
    {
        1
    }

    /// Elements read from uniformly random bytes are uniform.
    pub fn has_no_bias() -> (b: bool)
        ensures
            b,
    {
        true
    }

    /// The infinity norm of the residue in `{0, 1}`.
    pub fn linf_norm(&self) -> (n: u64)
        ensures
            n == self.val(),
    {
        if self.0 {
            1
        } else {
            0
        }
    }

    /// The squared Euclidean norm of the residue in `{0, 1}`.
    pub fn l2_norm_squared(&self) -> (n: u64)
        ensures
            n == self.val() * self.val(),
    {
        if self.0 {
            1
        } else {
            0
        }
    }

    /// The quotient `self / other`; `other` must be one.
    pub fn div(&self, other: &Self) -> (r: Self)
        requires
            other.val() != 0,
        ensures
            r == *self,
    {
        proof {
            assert((1int * 1int) % 2 == 1int % 2);
        }
        let inv = other.inverse();
        self.mul(&inv.unwrap())
    }

    /// Replaces `self` by its inverse where it has one, and says whether it had.
    pub fn inverse_in_place(&mut self) -> (r: bool)
        ensures
            r == (old(self).val() != 0),
            *final(self) == *old(self),
    {
        proof {
            assert((1int * 1int) % 2 == 1int % 2);
            assert forall|y: int| #[trigger] ((0 * y) % 2) != 1int % 2 by {
            }
        }
        match self.inverse() {
            Some(inv) => {
                *self = inv;
                true
            },
            None => false,
        }
    }

    /// The square, which is the element itself.
    pub fn square(&self) -> (r: Self)
        ensures
            r == *self,
    {
        *self
    }

    /// The degree of `Z / 2 Z` over its prime field.
    pub fn extension_degree() -> (d: u64)
        ensures
            d == 1,
    {
        1
    }

    /// The element made of exactly one prime field element; `None` for any other count.
    pub fn from_base_prime_field_elems(elems: &[Self]) -> (r: Option<Self>)
        ensures
            r is Some <==> elems@.len() == 1,
            r matches Some(z) ==> z == elems@[0],
    {
        if elems.len() == 0 {
            return None;
        }
        if elems.len() > 1 {
            return None;
        }
        Some(elems[0])
    }

    /// The product with an element of the prime field, which is `Z / 2 Z` itself.
    pub fn mul_by_base_prime_field(&self, elem: &Self) -> (r: Self)
        ensures
            r.val() == self.val() * elem.val(),
    {
        self.mul(elem)
    }

    /// The element of a one-limb integer: `Some` for `0` and `1`, `None` otherwise.
    /// Both `0` and `1` give the zero element.
    pub fn from_bigint(repr: u64) -> (r: Option<Self>)
        ensures
            r is Some <==> repr <= 1,
            r matches Some(z) ==> z.val() == 0,
    {
        if repr == 0 {
            Some(Z2(false))
        } else if repr == 1 {
            Some(Z2(false))
        } else {
            None
        }
    }

    /// The residue as a one-limb integer.
    pub fn into_bigint(&self) -> (r: u64)
        ensures
            r == self.val(),
    {
        if self.0 {
            1
        } else {
            0
        }
    }

    /// The sum of all elements of `v`.
    pub fn sum(v: &[Self]) -> (r: Self)
        ensures
            r.val() == sum_vals(v@) % 2,
    {
        let mut acc = Z2(false);
        let mut i: usize = 0;
        while i < v.len()
            invariant
                0 <= i <= v@.len(),
                acc.val() == sum_vals(v@.subrange(0, i as int)) % 2,
            decreases v@.len() - i,
        {
            proof {
                assert(v@.subrange(0, i + 1 as int).drop_last() =~= v@.subrange(0, i as int));
            }
            acc = acc.add(&v[i]);
            i += 1;
        }
        proof {
            assert(v@.subrange(0, v@.len() as int) =~= v@);
        }
        acc
    }

    /// The product of all elements of `v`.
    pub fn product(v: &[Self]) -> (r: Self)
        ensures
            r.val() == (if forall|i: int| 0 <= i < v@.len() ==> #[trigger] v@[i].val() == 1 {
                1int
            } else {
                0int
            }),
    {
        let mut acc = Z2(true);
        let mut i: usize = 0;
        while i < v.len()
            invariant
                0 <= i <= v@.len(),
                acc.val() == (if forall|k: int| 0 <= k < i ==> #[trigger] v@[k].val() == 1 {
                    1int
                } else {
                    0int
                }),
            decreases v@.len() - i,
        {
            acc = acc.mul(&v[i]);
            i += 1;
        }
        acc
    }
}

/// The sum of the residues of a sequence of elements of `Z / 2 Z`.
pub open spec fn sum_vals(s: Seq<Z2>) -> int
    decreases s.len(),
{
    if s.len() == 0 {
        0
    } else {
        sum_vals(s.drop_last()) + s.last().val()
    }
}

impl Ring for Z2 {
    open spec fn modulus() -> int {
        2
    }

    closed spec fn val(&self) -> int {
        bit_val(self.0)
    }

    open spec fn wf(&self) -> bool {
        true
    }

    proof fn lemma_wf(x: Self) {
    }

    proof fn lemma_canonical(x: Self, y: Self) {
    }

    fn zero() -> (r: Self) {
        Z2(false)
    }

    fn one() -> (r: Self) {
        Z2(true)
    }

    fn is_zero(&self) -> (b: bool) {
        !self.0
    }

    fn ring_eq(&self, other: &Self) -> (b: bool) {
        self.0 == other.0
    }

    fn add(&self, other: &Self) -> (r: Self) {
        Z2(self.0 ^ other.0)
    }

    fn sub(&self, other: &Self) -> (r: Self) {
        Z2(self.0 ^ other.0)
    }

    fn mul(&self, other: &Self) -> (r: Self) {
        Z2(self.0 && other.0)
    }

    fn neg(&self) -> (r: Self) {
        *self
    }

    fn rand(rng: &mut StdRng) -> (r: Self) {
        Z2(gen_bool(rng))
    }

    fn inverse(&self) -> (r: Option<Self>) {
        if self.is_zero() {
            proof {
                assert forall|y: int| #[trigger] ((0 * y) % 2) != 1int % 2 by {
                }
            }
            None
        } else {
            proof {
                assert((1 * 1) % 2 == 1int % 2);
            }
            Some(*self)
        }
    }
}

} // verus!
