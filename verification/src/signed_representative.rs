//! Signed representatives modulo `Q`: integers that stand for residues, the canonical ones
//! lying in `[-(Q / 2), Q / 2]`. Addition, subtraction and multiplication bring their result
//! back into that range; division, remainder and the sign functions act on the integers.
use num_bigint::BigInt;
use num_traits::{Num, ToPrimitive};
use vstd::arithmetic::div_mod::*;
use vstd::arithmetic::mul::*;
use vstd::prelude::*;

use crate::fq::Fq;
use crate::norms::unsigned_abs;
use crate::ntt::abs;
use crate::ring::Ring;

verus! {

/// `x - q` above `q / 2`, `x + q` below `-(q / 2)`, `x` in between.
pub open spec fn wrap_once(x: int, q: int) -> int {
    if x > q / 2 {
        x - q
    } else if x < -(q / 2) {
        x + q
    } else {
        x
    }
}

/// The residue of `x` modulo `q`, moved down by `q` when it exceeds `q / 2`.
pub open spec fn centered_mod(x: int, q: int) -> int {
    if x % q > q / 2 {
        x % q - q
    } else {
        x % q
    }
}

/// The signed representative of the residue `v` modulo `q`.
pub open spec fn centered(v: int, q: int) -> int {
    if v > q / 2 {
        v - q
    } else {
        v
    }
}

/// `-1`, `0` or `1` as `x` is negative, zero or positive.
pub open spec fn sign(x: int) -> int {
    if x > 0 {
        1
    } else if x < 0 {
        -1
    } else {
        0
    }
}

/// The quotient of `x` by `y != 0`, rounded towards zero.
pub open spec fn trunc_div(x: int, y: int) -> int {
    if (x >= 0) == (y > 0) {
        abs(x) / abs(y)
    } else {
        -(abs(x) / abs(y))
    }
}

/// The remainder that goes with `trunc_div`; it has the sign of `x`.
pub open spec fn trunc_rem(x: int, y: int) -> int {
    x - y * trunc_div(x, y)
}

/// The quotient of `x` by `y != 0` rounded to the nearest integer, halves away from zero.
pub open spec fn rounded_div_int(x: int, y: int) -> int {
    let q = trunc_div(x, y);
    let r = trunc_rem(x, y);
    if 2 * abs(r) >= abs(y) {
        if sign(x) == sign(y) {
            q + 1
        } else {
            q - 1
        }
    } else {
        q
    }
}

/// The value of a digit character in bases up to 36: `0-9`, then `a-z` or `A-Z` for ten to
/// thirty-five; 36 for any other character, which no base admits.
pub open spec fn digit_value(c: char) -> int {
    if '0' <= c <= '9' {
        c as int - '0' as int
    } else if 'a' <= c <= 'z' {
        c as int - 'a' as int + 10
    } else if 'A' <= c <= 'Z' {
        c as int - 'A' as int + 10
    } else {
        36
    }
}

/// The value of the digits of `s` in base `radix`, most significant first, skipping `_`; `None`
/// where a character is no digit of the base.
pub open spec fn radix_digits_value(s: Seq<char>, radix: int) -> Option<int>
    decreases s.len(),
{
    if s.len() == 0 {
        Some(0)
    } else {
        match radix_digits_value(s.drop_last(), radix) {
            None => None,
            Some(v) => if s.last() == '_' {
                Some(v)
            } else if digit_value(s.last()) < radix {
                Some(v * radix + digit_value(s.last()))
            } else {
                None
            },
        }
    }
}

/// What `BigUint::from_str_radix` reads: one leading `+` is dropped unless another `+` follows;
/// the rest must be non-empty, must not start with `_`, and must be digits of the base.
pub open spec fn unsigned_from_str_radix(s: Seq<char>, radix: int) -> Option<int> {
    let t = if s.len() >= 1 && s[0] == '+' && !(s.len() >= 2 && s[1] == '+') {
        s.drop_first()
    } else {
        s
    };
    if t.len() == 0 || t[0] == '_' {
        None
    } else {
        radix_digits_value(t, radix)
    }
}

/// The integer that `num_bigint::BigInt::from_str_radix` reads from `s` in base `radix` (one
/// leading `-` is a sign unless a `+` follows it; the rest is read as an unsigned number), where
/// the read succeeds and `to_i128` finds that the integer fits an `i128`; `None` otherwise.
pub open spec fn bigint_from_str_radix(s: Seq<char>, radix: u32) -> Option<i128> {
    let read = if s.len() >= 1 && s[0] == '-' && !(s.len() >= 2 && s[1] == '+') {
        match unsigned_from_str_radix(s.drop_first(), radix as int) {
            Some(v) => Some(-v),
            None => None,
        }
    } else {
        unsigned_from_str_radix(s, radix as int)
    };
    match read {
        Some(v) => if i128::MIN <= v <= i128::MAX {
            Some(v as i128)
        } else {
            None
        },
        None => None,
    }
}

/// Reads `s` with `BigInt::from_str_radix` and keeps the result where `to_i128` finds that it
/// fits. The base must lie in `2..=36`, as `from_str_radix` panics otherwise.
#[verifier::external_body]
fn parse_bigint_i128(s: &str, radix: u32) -> (r: Option<i128>)
    requires
        2 <= radix <= 36,
    ensures
        r == bigint_from_str_radix(s@, radix),
{
    match BigInt::from_str_radix(s, radix) {
        Ok(v) => v.to_i128(),
        Err(_) => None,
    }
}

/// An integer standing for a residue modulo `Q`.
#[derive(Clone, Copy, Debug, PartialEq, Eq, Hash, Default, PartialOrd, Ord)]
pub struct SignedRepresentative<const Q: u64>(pub i128);

impl<const Q: u64> SignedRepresentative<Q> {
    /// The integer lies in `[-(Q / 2), Q / 2]`.
    pub open spec fn in_range(&self) -> bool {
        -(Q as int / 2) <= self.0 <= Q as int / 2
    }

    /// The representative holding `value`.
    pub fn new(value: i128) -> (r: Self)
        ensures
            r.0 == value,
    {
        SignedRepresentative(value)
    }

    /// The modulus `Q`.
    pub fn modulus() -> (m: u64)
        ensures
            m == Q,
    {
        Q
    }

    /// The smallest canonical representative, `-(Q / 2)`.
    pub fn min_inclusive() -> (m: i128)
        ensures
            m == -(Q as int / 2),
    {
        -((Q / 2) as i128)
    }

    /// The largest canonical representative, `Q / 2`.
    pub fn max_inclusive() -> (m: i128)
        ensures
            m == Q as int / 2,
    {
        (Q / 2) as i128
    }

    /// The signed representative of an element of `Z / P Z` with `P <= Q`: residues above
    /// `P / 2` stand for their difference with `P`.
    pub fn from_fq<const P: u64>(value: Fq<P>) -> (r: Self)
        requires
            P <= Q,
            value.wf(),
        ensures
            r.0 == centered(value.val(), P as int),
            r.in_range(),
    {
        proof {
            Fq::<P>::lemma_wf(value);
        }
        let v = value.value();
        if v > P / 2 {
            SignedRepresentative(v as i128 - P as i128)
        } else {
            SignedRepresentative(v as i128)
        }
    }

    /// The element of `Z / P Z`, with `Q <= P`, that the integer stands for; negative integers
    /// are moved up by `P`, and the result must be below `P`.
    pub fn to_fq<const P: u64>(self) -> (r: Fq<P>)
        requires
            Q <= P,
            -(P as int) <= self.0 < P,
        ensures
            r.wf(),
            r.val() == self.0 as int % P as int,
    {
        let x = self.0;
        if x < 0 {
            let y = (x + P as i128) as u64;
            proof {
                lemma_mod_add_multiples_vanish(x as int, P as int);
                lemma_small_mod(y as nat, P as nat);
            }
            Fq::new_unchecked(y)
        } else {
            proof {
                lemma_small_mod(x as nat, P as nat);
            }
            Fq::new_unchecked(x as u64)
        }
    }

    /// The additive inverse.
    pub fn neg(self) -> (r: Self)
        requires
            self.0 != i128::MIN,
        ensures
            r.0 == -self.0,
    {
        SignedRepresentative(-self.0)
    }

    /// The sum, moved back by `Q` once where it leaves `[-(Q / 2), Q / 2]`.
    pub fn add(self, rhs: Self) -> (r: Self)
        requires
            i128::MIN <= self.0 + rhs.0 <= i128::MAX,
        ensures
            r.0 == wrap_once(self.0 + rhs.0, Q as int),
            self.in_range() && rhs.in_range() ==> r.in_range(),
    {
        let s = self.0 + rhs.0;
        let h = (Q / 2) as i128;
        if s > h {
            SignedRepresentative(s - Q as i128)
        } else if s < -h {
            SignedRepresentative(s + Q as i128)
        } else {
            SignedRepresentative(s)
        }
    }

    /// The difference, moved back by `Q` once where it leaves `[-(Q / 2), Q / 2]`.
    pub fn sub(self, rhs: Self) -> (r: Self)
        requires
            i128::MIN <= self.0 - rhs.0 <= i128::MAX,
        ensures
            r.0 == wrap_once(self.0 - rhs.0, Q as int),
            self.in_range() && rhs.in_range() ==> r.in_range(),
    {
        let s = self.0 - rhs.0;
        let h = (Q / 2) as i128;
        if s > h {
            SignedRepresentative(s - Q as i128)
        } else if s < -h {
            SignedRepresentative(s + Q as i128)
        } else {
            SignedRepresentative(s)
        }
    }

    /// The product reduced to the canonical representative of its residue.
    pub fn mul(self, rhs: Self) -> (r: Self)
        requires
            Q >= 1,
            i128::MIN <= self.0 * rhs.0 <= i128::MAX,
        ensures
            r.0 == centered_mod(self.0 * rhs.0, Q as int),
            r.in_range(),
    {
        let p = self.0 * rhs.0;
        let m = Q as i128;
        let mut res = p % m;
        proof {
            let x = p as int;
            let q = Q as int;
            lemma_fundamental_div_mod(abs(x), q);
            lemma_mod_bound(abs(x), q);
            if x >= 0 {
                assert(res == x % q);
            } else {
                lemma_mod_bound(x, q);
                assert(res == -((-x) % q));
            }
        }
        if res < 0 {
            res = res + m;
        }
        proof {
            let x = p as int;
            let q = Q as int;
            if x < 0 {
                let y = -x;
                lemma_fundamental_div_mod(y, q);
                lemma_mod_bound(y, q);
                if y % q == 0 {
                    lemma_mod_multiples_vanish(-(y / q), 0, q);
                    assert(x == q * (-(y / q)) + 0) by (nonlinear_arith)
                        requires
                            y == q * (y / q),
                            x == -y,
                    ;
                    lemma_small_mod(0, q as nat);
                } else {
                    assert(x == q * (-(y / q) - 1) + (q - y % q)) by (nonlinear_arith)
                        requires
                            y == q * (y / q) + y % q,
                            x == -y,
                    ;
                    lemma_mod_multiples_vanish(-(y / q) - 1, q - y % q, q);
                    lemma_small_mod((q - y % q) as nat, q as nat);
                }
            }
            assert(res == x % q);
        }
        if res > m / 2 {
            res = res - m;
        }
        SignedRepresentative(res)
    }

    /// The quotient, rounded towards zero.
    pub fn div(self, rhs: Self) -> (r: Self)
        requires
            rhs.0 != 0,
            !(self.0 == i128::MIN && rhs.0 == -1),
        ensures
            r.0 == trunc_div(self.0 as int, rhs.0 as int),
    {
        let ua = unsigned_abs(self.0);
        let ub = unsigned_abs(rhs.0);
        let q = ua / ub;
        proof {
            lemma_div_is_ordered_by_denominator(ua as int, 1, ub as int);
            lemma_div_basics(ua as int);
        }
        if (self.0 >= 0) == (rhs.0 > 0) {
            proof {
                if self.0 < 0 && ub == 1 {
                    assert(rhs.0 == -1);
                }
                if ub >= 2 {
                    lemma_div_is_ordered_by_denominator(ua as int, 2, ub as int);
                    lemma_div_by_two_bound(ua as int);
                }
            }
            Self(q as i128)
        } else if q > 0x7fff_ffff_ffff_ffff_ffff_ffff_ffff_ffffu128 {
            Self(i128::MIN)
        } else {
            Self(-(q as i128))
        }
    }

    /// The remainder of the quotient rounded towards zero; it has the sign of `self`.
    pub fn rem(self, rhs: Self) -> (r: Self)
        requires
            rhs.0 != 0,
            !(self.0 == i128::MIN && rhs.0 == -1),
        ensures
            r.0 == trunc_rem(self.0 as int, rhs.0 as int),
    {
        let ua = unsigned_abs(self.0);
        let ub = unsigned_abs(rhs.0);
        let m = ua % ub;
        proof {
            lemma_trunc_rem_abs(self.0 as int, rhs.0 as int);
            lemma_mod_bound(ua as int, ub as int);
        }
        if self.0 >= 0 {
            Self(m as i128)
        } else {
            Self(-(m as i128))
        }
    }
    /// The quotient rounded to the nearest integer, halves away from zero.
    pub fn rounded_div(self, rhs: Self) -> (r: Self)
        requires
            rhs.0 != 0,
            !(self.0 == i128::MIN && rhs.0 == -1),
        ensures
            r.0 == rounded_div_int(self.0 as int, rhs.0 as int),
    {
        let q = self.div(rhs);
        let r = self.rem(rhs);
        let ur = unsigned_abs(r.0);
        let ub = unsigned_abs(rhs.0);
        proof {
            lemma_trunc_div_rem_bounds(self.0 as int, rhs.0 as int);
        }
        if 2 * ur >= ub {
            if (self.0 > 0 && rhs.0 > 0) || (self.0 < 0 && rhs.0 < 0) {
                Self(q.0 + 1)
            } else {
                Self(q.0 - 1)
            }
        } else {
            q
        }
    }

    /// The representative of one.
    pub fn one() -> (r: Self)
        ensures
            r.0 == 1,
    {
        Self(1)
    }

    /// The representative of zero.
    pub fn zero() -> (r: Self)
        ensures
            r.0 == 0,
    {
        Self(0)
    }

    /// Whether the integer is zero.
    pub fn is_zero(&self) -> (b: bool)
        ensures
            b == (self.0 == 0),
    {
        self.0 == 0
    }

    /// The magnitude.
    pub fn abs(&self) -> (r: Self)
        requires
            self.0 != i128::MIN,
        ensures
            r.0 == abs(self.0 as int),
    {
        if self.0 < 0 {
            Self(-self.0)
        } else {
            Self(self.0)
        }
    }

    /// `self - other` where it is positive, zero otherwise.
    pub fn abs_sub(&self, other: &Self) -> (r: Self)
        requires
            self.0 > other.0 ==> self.0 - other.0 <= i128::MAX,
        ensures
            r.0 == (if self.0 <= other.0 {
                0
            } else {
                self.0 - other.0
            }),
    {
        if self.0 <= other.0 {
            Self(0)
        } else {
            Self(self.0 - other.0)
        }
    }

    /// `-1`, `0` or `1` as the integer is negative, zero or positive.
    pub fn signum(&self) -> (r: Self)
        ensures
            r.0 == sign(self.0 as int),
    {
        if self.0 > 0 {
            Self(1)
        } else if self.0 < 0 {
            Self(-1)
        } else {
            Self(0)
        }
    }

    /// Whether the integer is positive.
    pub fn is_positive(&self) -> (b: bool)
        ensures
            b == (self.0 > 0),
    {
        self.0 > 0
    }

    /// Whether the integer is negative.
    pub fn is_negative(&self) -> (b: bool)
        ensures
            b == (self.0 < 0),
    {
        self.0 < 0
    }

    /// The representative holding `value`, refused outside `[-(Q / 2), Q / 2]`.
    pub fn try_from_i128(value: i128) -> (r: Result<Self, ()>)
        ensures
            r is Ok <==> -(Q as int / 2) <= value <= Q as int / 2,
            r matches Ok(x) ==> x.0 == value,
    {
        let h = (Q / 2) as i128;
        if value < -h || value > h {
            Err(())
        } else {
            Ok(Self(value))
        }
    }

    /// The integer written in base `radix` (from 2 to 36); refused where it cannot be read or
    /// lies outside `[-(Q / 2), Q / 2]`.
    pub fn from_str_radix(s: &str, radix: u32) -> (r: Result<Self, ()>)
        requires
            2 <= radix <= 36,
        ensures
            r is Ok <==> (bigint_from_str_radix(s@, radix) matches Some(v) && -(Q as int / 2) <= v
                <= Q as int / 2),
            r matches Ok(x) ==> bigint_from_str_radix(s@, radix) == Some(x.0),
    {
        match parse_bigint_i128(s, radix) {
            Some(v) => Self::try_from_i128(v),
            None => Err(()),
        }
    }
}

/// Moving by the modulus once keeps the residue.
pub proof fn lemma_wrap_once_mod(x: int, q: int)
    requires
        q > 0,
    ensures
        wrap_once(x, q) % q == x % q,
{
    if x > q / 2 {
        lemma_mod_sub_multiples_vanish(x, q);
    } else if x < -(q / 2) {
        lemma_mod_add_multiples_vanish(x, q);
    }
}

/// `centered_mod` keeps the residue and lands in `[-(q / 2), q / 2]`.
pub proof fn lemma_centered_mod(x: int, q: int)
    requires
        q > 0,
    ensures
        centered_mod(x, q) % q == x % q,
        -(q / 2) <= centered_mod(x, q) <= q / 2,
{
    lemma_mod_bound(x, q);
    lemma_mod_twice(x, q);
    if x % q > q / 2 {
        lemma_mod_sub_multiples_vanish(x % q, q);
    }
}

/// For an odd modulus, integers of `[-(q / 2), q / 2]` are their own `centered_mod`.
pub proof fn lemma_centered_mod_small(x: int, q: int)
    requires
        q > 0,
        q % 2 == 1,
        -(q / 2) <= x <= q / 2,
    ensures
        centered_mod(x, q) == x,
{
    if x >= 0 {
        lemma_small_mod(x as nat, q as nat);
    } else {
        lemma_mod_add_multiples_vanish(x, q);
        lemma_small_mod((x + q) as nat, q as nat);
    }
}

/// For an odd modulus, two congruent integers of `[-(q / 2), q / 2]` are equal.
pub proof fn lemma_unique_in_range(x: int, y: int, q: int)
    requires
        q > 0,
        q % 2 == 1,
        -(q / 2) <= x <= q / 2,
        -(q / 2) <= y <= q / 2,
        x % q == y % q,
    ensures
        x == y,
{
    lemma_centered_mod_small(x, q);
    lemma_centered_mod_small(y, q);
}

/// The signed representative of a residue is congruent to it and can be read back.
pub proof fn lemma_centered(v: int, q: int)
    requires
        0 <= v < q,
    ensures
        centered(v, q) % q == v,
        -(q / 2) <= centered(v, q) <= q / 2,
        -q <= centered(v, q) < q,
{
    if v > q / 2 {
        lemma_mod_add_multiples_vanish(v - q, q);
    }
    lemma_small_mod(v as nat, q as nat);
}

/// Converting an element of `Z / Q Z` to its signed representative and back gives the element.
pub proof fn law_signed_representative_roundtrip<const Q: u64>(a: Fq<Q>)
    requires
        a.wf(),
    ensures
        -(Q as int) <= centered(a.val(), Q as int) < Q as int,
        centered(a.val(), Q as int) % (Q as int) == a.val(),
{
    Fq::<Q>::lemma_wf(a);
    lemma_centered(a.val(), Q as int);
}

/// Adding signed representatives agrees with adding in `Z / Q Z`.
pub proof fn law_signed_add_matches_field<const Q: u64>(a: Fq<Q>, b: Fq<Q>)
    requires
        a.wf(),
        b.wf(),
    ensures
        wrap_once(centered(a.val(), Q as int) + centered(b.val(), Q as int), Q as int) % (
        Q as int) == (a.val() + b.val()) % (Q as int),
{
    let q = Q as int;
    Fq::<Q>::lemma_wf(a);
    Fq::<Q>::lemma_wf(b);
    let ca = centered(a.val(), q);
    let cb = centered(b.val(), q);
    lemma_centered(a.val(), q);
    lemma_centered(b.val(), q);
    lemma_wrap_once_mod(ca + cb, q);
    lemma_add_mod_noop(ca, cb, q);
    lemma_add_mod_noop(a.val(), b.val(), q);
    lemma_small_mod(a.val() as nat, q as nat);
    lemma_small_mod(b.val() as nat, q as nat);
}

/// Subtracting signed representatives agrees with subtracting in `Z / Q Z`.
pub proof fn law_signed_sub_matches_field<const Q: u64>(a: Fq<Q>, b: Fq<Q>)
    requires
        a.wf(),
        b.wf(),
    ensures
        wrap_once(centered(a.val(), Q as int) - centered(b.val(), Q as int), Q as int) % (
        Q as int) == (a.val() - b.val()) % (Q as int),
{
    let q = Q as int;
    Fq::<Q>::lemma_wf(a);
    Fq::<Q>::lemma_wf(b);
    let ca = centered(a.val(), q);
    let cb = centered(b.val(), q);
    lemma_centered(a.val(), q);
    lemma_centered(b.val(), q);
    lemma_wrap_once_mod(ca - cb, q);
    lemma_sub_mod_noop(ca, cb, q);
    lemma_sub_mod_noop(a.val(), b.val(), q);
    lemma_small_mod(a.val() as nat, q as nat);
    lemma_small_mod(b.val() as nat, q as nat);
}

/// Multiplying signed representatives agrees with multiplying in `Z / Q Z`.
pub proof fn law_signed_mul_matches_field<const Q: u64>(a: Fq<Q>, b: Fq<Q>)
    requires
        a.wf(),
        b.wf(),
    ensures
        centered_mod(centered(a.val(), Q as int) * centered(b.val(), Q as int), Q as int) % (
        Q as int) == (a.val() * b.val()) % (Q as int),
{
    let q = Q as int;
    Fq::<Q>::lemma_wf(a);
    Fq::<Q>::lemma_wf(b);
    let ca = centered(a.val(), q);
    let cb = centered(b.val(), q);
    lemma_centered(a.val(), q);
    lemma_centered(b.val(), q);
    lemma_centered_mod(ca * cb, q);
    lemma_mul_mod_noop(ca, cb, q);
    lemma_mul_mod_noop(a.val(), b.val(), q);
    lemma_small_mod(a.val() as nat, q as nat);
    lemma_small_mod(b.val() as nat, q as nat);
}

/// The product of the divisor and the truncated quotient is at most the dividend in magnitude.
pub proof fn lemma_trunc_product_bound(x: int, y: int)
    requires
        y != 0,
    ensures
        abs(y * trunc_div(x, y)) <= abs(x),
        x == y * trunc_div(x, y) + trunc_rem(x, y),
{
    let ax = abs(x);
    let ay = abs(y);
    let k = ax / ay;
    lemma_fundamental_div_mod(ax, ay);
    lemma_mod_bound(ax, ay);
    lemma_div_pos_is_pos(ax, ay);
    let t = trunc_div(x, y);
    assert(abs(t) == k);
    assert(abs(y * t) == ay * k) by (nonlinear_arith)
        requires
            abs(t) == k,
            ay == abs(y),
            k >= 0,
    ;
}

/// For an odd modulus, dividing with remainder and recomposing with the operations of signed
/// representatives gives the dividend back: `b * (a / b) + a % b == a`.
pub proof fn law_signed_div_rem_recompose<const Q: u64>(a: SignedRepresentative<Q>, b: SignedRepresentative<Q>)
    requires
        Q % 2 == 1,
        a.in_range(),
        b.in_range(),
        b.0 != 0,
    ensures
        wrap_once(
            centered_mod(b.0 * trunc_div(a.0 as int, b.0 as int), Q as int) + trunc_rem(
                a.0 as int,
                b.0 as int,
            ),
            Q as int,
        ) == a.0,
{
    let q = Q as int;
    let x = a.0 as int;
    let y = b.0 as int;
    lemma_trunc_product_bound(x, y);
    lemma_centered_mod_small(y * trunc_div(x, y), q);
}

/// Rounded division leaves at most half the divisor: `|a - b * round(a / b)| <= |b| / 2`.
pub proof fn lemma_rounded_div_close_int(x: int, y: int)
    requires
        y != 0,
    ensures
        abs(x - y * rounded_div_int(x, y)) <= abs(y) / 2,
{
    let q0 = trunc_div(x, y);
    let r0 = trunc_rem(x, y);
    lemma_trunc_div_rem_bounds(x, y);
    lemma_trunc_product_bound(x, y);
    if 2 * abs(r0) >= abs(y) {
        if sign(x) == sign(y) {
            assert(x - y * (q0 + 1) == r0 - y) by (nonlinear_arith)
                requires
                    x == y * q0 + r0,
            ;
        } else {
            assert(x - y * (q0 - 1) == r0 + y) by (nonlinear_arith)
                requires
                    x == y * q0 + r0,
            ;
        }
    }
}

/// For an odd modulus, the remainder of a rounded division, computed with the operations of
/// signed representatives, is at most half the divisor in magnitude.
pub proof fn law_signed_rounded_div_close<const Q: u64>(a: SignedRepresentative<Q>, b: SignedRepresentative<Q>)
    requires
        Q % 2 == 1,
        a.in_range(),
        b.in_range(),
        b.0 != 0,
    ensures
        abs(
            wrap_once(
                a.0 - centered_mod(b.0 * rounded_div_int(a.0 as int, b.0 as int), Q as int),
                Q as int,
            ),
        ) <= abs(b.0 as int) / 2,
{
    let q = Q as int;
    let x = a.0 as int;
    let y = b.0 as int;
    let k = rounded_div_int(x, y);
    let m = centered_mod(y * k, q);
    lemma_rounded_div_close_int(x, y);
    lemma_centered_mod(y * k, q);
    let w = wrap_once(x - m, q);
    lemma_wrap_once_mod(x - m, q);
    lemma_sub_mod_noop(x, m, q);
    lemma_sub_mod_noop(x, y * k, q);
    lemma_unique_in_range(w, x - y * k, q);
}

/// The truncated quotient and remainder are bounded by the magnitudes.
pub proof fn lemma_trunc_div_rem_bounds(x: int, y: int)
    requires
        y != 0,
    ensures
        abs(trunc_div(x, y)) == abs(x) / abs(y),
        abs(trunc_rem(x, y)) < abs(y),
        abs(trunc_rem(x, y)) <= abs(x),
        abs(y) >= 2 ==> abs(x) / abs(y) <= abs(x) / 2,
        abs(y) == 1 ==> trunc_rem(x, y) == 0,
        trunc_rem(x, y) != 0 ==> sign(trunc_rem(x, y)) == sign(x),
{
    lemma_trunc_rem_abs(x, y);
    lemma_div_pos_is_pos(abs(x), abs(y));
    lemma_mod_bound(abs(x), abs(y));
    if abs(x) < abs(y) {
        lemma_small_mod(abs(x) as nat, abs(y) as nat);
    } else {
        lemma_mod_decreases(abs(x) as nat, abs(y) as nat);
    }
    if abs(y) >= 2 {
        lemma_div_is_ordered_by_denominator(abs(x), 2, abs(y));
    }
    if abs(y) == 1 {
        lemma_mod_multiples_basic(abs(x), 1);
        assert(abs(x) * 1 == abs(x));
    }
}

/// `x / 2 < 2^127` for `x <= 2^127`.
proof fn lemma_div_by_two_bound(x: int)
    requires
        0 <= x <= 0x8000_0000_0000_0000_0000_0000_0000_0000,
    ensures
        x / 2 <= 0x4000_0000_0000_0000_0000_0000_0000_0000,
{
}

/// The truncated remainder is the remainder of the magnitudes, with the sign of `x`.
pub proof fn lemma_trunc_rem_abs(x: int, y: int)
    requires
        y != 0,
    ensures
        trunc_rem(x, y) == (if x >= 0 {
            abs(x) % abs(y)
        } else {
            -(abs(x) % abs(y))
        }),
{
    let ax = abs(x);
    let ay = abs(y);
    let q = ax / ay;
    lemma_fundamental_div_mod(ax, ay);
    let t = trunc_div(x, y);
    if x >= 0 {
        if y > 0 {
            assert(y * t == ay * q);
        } else {
            assert(y * t == ay * q) by (nonlinear_arith)
                requires
                    y == -ay,
                    t == -q,
            ;
        }
    } else {
        if y > 0 {
            assert(y * t == -(ay * q)) by (nonlinear_arith)
                requires
                    y == ay,
                    t == -q,
            ;
        } else {
            assert(y * t == -(ay * q)) by (nonlinear_arith)
                requires
                    y == -ay,
                    t == q,
            ;
        }
    }
}

} // verus!
