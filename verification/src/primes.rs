//! Prime factorisation by trial division over the primes that `const_primes` enumerates,
//! and the search for primes that support negacyclic transforms.
use vstd::arithmetic::div_mod::*;
use vstd::arithmetic::mul::*;
use vstd::arithmetic::power2::*;
use vstd::bits::lemma_u64_shl_is_mul;
use vstd::prelude::*;
use vstd::std_specs::bits::{axiom_u64_leading_zeros, u64_leading_zeros};

use crate::arith::{is_prime, lemma_coprime_invertible, lemma_divisor_le, lemma_prime_coprime};

verus! {

/// The largest prime that fits in a `u64`.
pub open spec fn largest_u64_prime() -> int {
    18446744073709551557
}

/// `const_primes::next_prime`: the smallest prime greater than `n`. It is `None` exactly from
/// `18446744073709551557` on, the largest prime that fits in a `u64`.
#[verifier::external_body]
fn next_prime(n: u64) -> (r: Option<u64>)
    ensures
        r is Some <==> n < largest_u64_prime(),
        r matches Some(p) ==> p > n && is_prime(p as int) && forall|m: int|
            n < m < p ==> !#[trigger] is_prime(m),
        r is None ==> forall|m: int| n < m <= u64::MAX ==> !#[trigger] is_prime(m),
{
    const_primes::next_prime(n)
}

/// The product of a sequence of factors.
pub open spec fn seq_product(s: Seq<u64>) -> int
    decreases s.len(),
{
    if s.len() == 0 {
        1
    } else {
        seq_product(s.drop_last()) * s.last()
    }
}

/// The index of the first zero entry at or after `i`, or the length where there is none.
pub open spec fn first_zero(s: Seq<u64>, i: int) -> int
    decreases s.len() - i,
{
    if i >= s.len() {
        s.len() as int
    } else if s[i] == 0 {
        i
    } else {
        first_zero(s, i + 1)
    }
}

/// `f[0..k]` lists the prime factors of `n` with multiplicity in ascending order, and the
/// remaining entries are zero.
pub open spec fn is_factor_list(f: Seq<u64>, k: int, n: int) -> bool {
    &&& 0 <= k <= f.len()
    &&& forall|i: int| 0 <= i < k ==> #[trigger] is_prime(f[i] as int)
    &&& forall|i: int| k <= i < f.len() ==> #[trigger] f[i] == 0
    &&& forall|i: int, j: int| 0 <= i < j < k ==> f[i] <= f[j]
    &&& (n >= 1 ==> seq_product(f.subrange(0, k)) == n)
    &&& (n <= 1 ==> k == 0)
}

/// Divisibility is transitive.
pub proof fn lemma_divides_trans(a: int, b: int, c: int)
    requires
        a > 0,
        b > 0,
        b % a == 0,
        c % b == 0,
    ensures
        c % a == 0,
{
    lemma_fundamental_div_mod(b, a);
    lemma_fundamental_div_mod(c, b);
    let (s, t) = (b / a, c / b);
    assert(c == a * (s * t)) by (nonlinear_arith)
        requires
            b == a * s,
            c == b * t,
    ;
    lemma_mod_multiples_basic(s * t, a);
    lemma_mul_is_commutative(a, s * t);
}

/// Every integer at least two has a prime divisor no larger than itself.
pub proof fn lemma_prime_divisor(n: int) -> (p: int)
    requires
        n >= 2,
    ensures
        is_prime(p),
        2 <= p <= n,
        n % p == 0,
    decreases n,
{
    if is_prime(n) {
        lemma_mod_self_0(n);
        n
    } else {
        let d = choose|d: int| 1 < d < n && #[trigger] (n % d) == 0;
        let p = lemma_prime_divisor(d);
        lemma_divides_trans(p, d, n);
        p
    }
}

/// A prime other than two is odd.
pub proof fn lemma_odd_prime(p: int)
    requires
        is_prime(p),
        p != 2,
    ensures
        p % 2 == 1,
{
    assert(p % 2 != 0);
}

/// Euclid's lemma: a prime that divides a product divides one of its factors.
pub proof fn lemma_euclid(p: int, a: int, b: int)
    requires
        is_prime(p),
        a >= 0,
        b >= 0,
        (a * b) % p == 0,
    ensures
        a % p == 0 || b % p == 0,
{
    if a % p != 0 {
        let r = a % p;
        lemma_prime_coprime(p as nat, r as nat);
        lemma_coprime_invertible(r as nat, p as nat);
        let y = choose|y: int| #[trigger] ((r * y) % p) == 1int % p;
        lemma_small_mod(1, p as nat);
        // b = b * (r * y) = y * (r * b) = y * (a * b) = 0 (mod p)
        lemma_mul_mod_noop_left(a, b, p);
        assert((r * b) % p == 0);
        lemma_mul_mod_noop_right(y, r * b, p);
        lemma_mul_basics(y);
        lemma_small_mod(0, p as nat);
        assert((y * (r * b)) % p == 0);
        assert(y * (r * b) == b * (r * y)) by (nonlinear_arith);
        lemma_mul_mod_noop_right(b, r * y, p);
        lemma_mul_basics(b);
        lemma_small_mod(b as nat % p as nat, p as nat);
    }
}

/// Every entry of a list of prime factors divides their product.
pub proof fn lemma_factor_divides_product(f: Seq<u64>, k: int, i: int)
    requires
        0 <= i < k <= f.len(),
        forall|j: int| 0 <= j < k ==> #[trigger] is_prime(f[j] as int),
    ensures
        seq_product(f.subrange(0, k)) % (f[i] as int) == 0,
        seq_product(f.subrange(0, k)) >= 1,
    decreases k,
{
    let s = f.subrange(0, k);
    assert(s.drop_last() =~= f.subrange(0, k - 1));
    assert(is_prime(f[i] as int));
    assert(is_prime(f[k - 1] as int));
    if k - 1 > i {
        lemma_factor_divides_product(f, k - 1, i);
        let rest = seq_product(f.subrange(0, k - 1));
        lemma_fundamental_div_mod(rest, f[i] as int);
        let t = rest / (f[i] as int);
        assert(rest * (f[k - 1] as int) == (f[i] as int) * (t * (f[k - 1] as int)))
            by (nonlinear_arith)
            requires
                rest == (f[i] as int) * t + 0,
        ;
        lemma_mod_multiples_basic(t * (f[k - 1] as int), f[i] as int);
        lemma_mul_is_commutative(t * (f[k - 1] as int), f[i] as int);
        assert(rest * (f[k - 1] as int) >= 1) by (nonlinear_arith)
            requires
                rest >= 1,
                f[k - 1] >= 2,
        ;
    } else {
        if k > 1 {
            lemma_factor_divides_product(f, k - 1, 0);
        }
        let rest = seq_product(f.subrange(0, k - 1));
        assert(rest >= 1);
        lemma_mod_multiples_basic(rest, f[i] as int);
        assert(rest * (f[k - 1] as int) >= 1) by (nonlinear_arith)
            requires
                rest >= 1,
                f[k - 1] >= 2,
        ;
    }
}

/// A prime dividing a product of primes is one of them.
pub proof fn lemma_prime_in_factor_list(f: Seq<u64>, k: int, p: int) -> (i: int)
    requires
        0 <= k <= f.len(),
        forall|j: int| 0 <= j < k ==> #[trigger] is_prime(f[j] as int),
        is_prime(p),
        seq_product(f.subrange(0, k)) % p == 0,
    ensures
        0 <= i < k,
        f[i] == p,
    decreases k,
{
    let s = f.subrange(0, k);
    if k == 0 {
        lemma_small_mod(1, p as nat);
        0
    } else {
        assert(s.drop_last() =~= f.subrange(0, k - 1));
        let rest = seq_product(f.subrange(0, k - 1));
        if k > 1 {
            lemma_factor_divides_product(f, k - 1, 0);
        }
        assert(is_prime(f[k - 1] as int));
        lemma_euclid(p, rest, f[k - 1] as int);
        if (f[k - 1] as int) % p == 0 {
            if f[k - 1] != p {
                lemma_divisor_le(f[k - 1] as nat, p as nat);
                assert((f[k - 1] as int) % p != 0);
            }
            k - 1
        } else {
            lemma_prime_in_factor_list(f, k - 1, p)
        }
    }
}

/// Entries before `k` are non-zero and entries from `k` on are zero: `k` is the first zero.
proof fn lemma_first_zero(s: Seq<u64>, i: int, k: int)
    requires
        0 <= i <= k <= s.len(),
        forall|j: int| i <= j < k ==> #[trigger] s[j] != 0,
        forall|j: int| k <= j < s.len() ==> #[trigger] s[j] == 0,
    ensures
        first_zero(s, i) == k,
    decreases s.len() - i,
{
    if i < k {
        lemma_first_zero(s, i + 1, k);
    }
}

/// Dividing out a factor keeps the product of the list times the rest.
proof fn lemma_factor_step(s: Seq<u64>, k: int, d: int, n: int)
    requires
        0 <= k < s.len(),
        s[k] == d,
        d > 0,
        n % d == 0,
    ensures
        seq_product(s.subrange(0, k + 1)) * (n / d) == seq_product(s.subrange(0, k)) * n,
{
    assert(s.subrange(0, k + 1).drop_last() =~= s.subrange(0, k));
    let p = seq_product(s.subrange(0, k));
    lemma_fundamental_div_mod(n, d);
    assert(p * d * (n / d) == p * n) by (nonlinear_arith)
        requires
            n == d * (n / d) + 0,
    ;
}

/// The prime factors of `n` with multiplicity, in ascending order and padded with zeros to
/// 64 entries (all zeros for `n <= 1`). Trial division moves from one divisor to the next
/// prime.
pub fn prime_factors(n: u64) -> (factors: [u64; 64])
    ensures
        is_factor_list(factors@, first_zero(factors@, 0), n as int),
{
    let ghost n0 = n as int;
    let mut n = n;
    let mut factors = [0u64; 64];
    let mut index: usize = 0;
    let mut divisor: u64 = 2;
    proof {
        lemma2_to64();
        assert(seq_product(factors@.subrange(0, 0)) == 1);
        lemma_pow2_unfold(1);
        lemma_pow2_pos(0);
        assert(pow2(0) == 1) by {
            lemma_pow2(0);
            vstd::arithmetic::power::lemma_pow0(2);
        }
    }
    while n > 1
        invariant
            factors@.len() == 64,
            0 <= index <= 64,
            n0 <= 1 ==> n == n0 && index == 0,
            n0 >= 1 ==> n >= 1 && seq_product(factors@.subrange(0, index as int)) * n == n0,
            n0 >= 1 ==> pow2(index as nat) * n <= n0,
            n0 < pow2(64),
            n0 >= 1 ==> n0 % (n as int) == 0,
            forall|i: int| 0 <= i < index ==> #[trigger] is_prime(factors@[i] as int),
            forall|i: int| 0 <= i < index ==> #[trigger] factors@[i] <= divisor,
            forall|i: int| index <= i < 64 ==> #[trigger] factors@[i] == 0,
            forall|i: int, j: int| 0 <= i < j < index ==> factors@[i] <= factors@[j],
            is_prime(divisor as int),
            forall|d: int| 2 <= d < divisor ==> #[trigger] (n as int % d) != 0,
        decreases n, n - divisor,
    {
        proof {
            if divisor > n {
                lemma_mod_self_0(n as int);
            }
        }
        if n % divisor == 0 {
            proof {
                lemma_pow2_unfold((index + 1) as nat);
                lemma_pow2_pos(index as nat);
                assert(pow2(index as nat) * 2 <= pow2(index as nat) * n) by (nonlinear_arith)
                    requires
                        n >= 2,
                        pow2(index as nat) > 0,
                ;
                if index + 1 > 64 {
                    lemma_pow2_strictly_increases(64, (index + 1) as nat);
                }
            }
            let ghost before = factors@;
            factors[index] = divisor;
            let ghost old_n = n as int;
            proof {
                assert(factors@.subrange(0, index as int) =~= before.subrange(0, index as int));
                lemma_factor_step(factors@, index as int, divisor as int, old_n);
                lemma_fundamental_div_mod(old_n, divisor as int);
                let (pw, qt, dv) = (pow2(index as nat) as int, old_n / divisor as int, divisor as int);
                assert(qt >= 1) by (nonlinear_arith)
                    requires
                        old_n == dv * qt + 0,
                        old_n >= 2,
                        dv >= 2,
                ;
                assert(2 * pw * qt <= pw * old_n) by (nonlinear_arith)
                    requires
                        old_n == dv * qt + 0,
                        dv >= 2,
                        pw > 0,
                        qt >= 1,
                ;
                assert(qt < old_n) by (nonlinear_arith)
                    requires
                        old_n == dv * qt + 0,
                        dv >= 2,
                        qt >= 1,
                ;
                lemma_mod_multiples_basic(dv, qt);
                assert(old_n % qt == 0);
            }
            n = n / divisor;
            index += 1;
            proof {
                lemma_fundamental_div_mod(old_n, divisor as int);
                assert forall|d: int| 2 <= d < divisor implies #[trigger] (n as int % d) != 0 by {
                    if n as int % d == 0 {
                        lemma_divides_trans(d, n as int, old_n);
                    }
                }
                if n0 >= 1 {
                    lemma_divides_trans(n as int, old_n, n0);
                    assert(n >= 1) by (nonlinear_arith)
                        requires
                            old_n == divisor * n + 0,
                            old_n >= 2,
                    ;
                }
            }
        } else {
            let p = Ghost(lemma_prime_divisor(n as int));
            proof {
                assert(p@ > divisor) by {
                    if p@ < divisor {
                        assert(n as int % p@ != 0);
                    }
                }
            }
            let q = next_prime(divisor).unwrap();
            proof {
                assert(q <= p@) by {
                    if q > p@ {
                        assert(!is_prime(p@));
                    }
                }
                assert forall|d: int| 2 <= d < q implies #[trigger] (n as int % d) != 0 by {
                    if n as int % d == 0 && d > divisor {
                        let pd = lemma_prime_divisor(d);
                        lemma_divides_trans(pd, d, n as int);
                        if pd < divisor {
                            assert(n as int % pd != 0);
                        }
                        assert(!is_prime(pd));
                    }
                }
            }
            divisor = q;
        }
    }
    proof {
        assert forall|j: int| 0 <= j < index implies #[trigger] factors@[j] != 0 by {
            assert(is_prime(factors@[j] as int));
        }
        lemma_first_zero(factors@, 0, index as int);
        if n0 >= 1 {
            assert(n == 1);
        }
    }
    factors
}

/// `i` has at least `64 - b` leading zeros exactly when it is below `2^b`.
pub proof fn lemma_leading_zeros_bound(i: u64, b: nat)
    requires
        b <= 64,
    ensures
        (u64_leading_zeros(i) >= 64 - b) <==> (i < pow2(b)),
    decreases i,
{
    reveal(u64_leading_zeros);
    lemma_pow2_pos(b);
    if i != 0 {
        let h = (i / 2) as u64;
        axiom_u64_leading_zeros(h);
        if b == 0 {
            lemma_pow2(0);
            vstd::arithmetic::power::lemma_pow0(2);
        } else {
            lemma_leading_zeros_bound(h, (b - 1) as nat);
            lemma_pow2_unfold(b);
        }
    }
}

/// A prime `q` with `2^(bit_size - 1) < q < 2^bit_size` and `q mod 2N = 1`.
pub open spec fn is_ntt_prime(q: int, n: int, bit_size: nat) -> bool {
    &&& is_prime(q)
    &&& pow2((bit_size - 1) as nat) < q < pow2(bit_size)
    &&& q % (2 * n) == 1
}

/// The smallest prime `q > 2^(bit_size - 1)` with `q mod 2N = 1`, found by stepping through
/// the primes from `2^(bit_size - 1)` on; it must lie below `2^bit_size`.
pub fn ntt_prime<const N: usize>(bit_size: usize) -> (q: u64)
    requires
        2 <= bit_size < 64,
        1 <= N,
        2 * N <= u64::MAX,
        exists|q: int| #[trigger] is_ntt_prime(q, N as int, bit_size as nat),
    ensures
        is_ntt_prime(q as int, N as int, bit_size as nat),
        forall|m: int|
            pow2((bit_size - 1) as nat) < m < q && #[trigger] is_prime(m) ==> m % (2 * N as int)
                != 1,
{
    let ghost lo = pow2((bit_size - 1) as nat) as int;
    let ghost hi = pow2(bit_size as nat) as int;
    proof {
        lemma2_to64();
        lemma2_to64_rest();
        lemma_pow2_unfold(bit_size as nat);
        lemma_pow2_strictly_increases(bit_size as nat, 64);
        lemma_pow2_strictly_increases((bit_size - 1) as nat, bit_size as nat);
        if bit_size < 63 {
            lemma_pow2_strictly_increases(bit_size as nat, 63);
        }
        lemma_u64_shl_is_mul(1, (bit_size - 1) as u64);
    }
    let mut p = next_prime(1u64 << ((bit_size - 1) as u64)).unwrap();
    proof {
        lemma_leading_zeros_bound(p, bit_size as nat);
    }
    while p % (2 * N as u64) != 1 && p.leading_zeros() >= (64 - bit_size as u32)
        invariant
            2 <= bit_size < 64,
            1 <= N,
            2 * N <= u64::MAX,
            lo == pow2((bit_size - 1) as nat),
            hi == pow2(bit_size as nat),
            2 <= lo < hi <= pow2(63),
            pow2(63) < largest_u64_prime(),
            is_prime(p as int),
            lo < p,
            exists|q: int| #[trigger] is_ntt_prime(q, N as int, bit_size as nat),
            forall|m: int| lo < m < p && #[trigger] is_prime(m) ==> m % (2 * N as int) != 1,
        decreases u64::MAX - p,
    {
        proof {
            lemma_leading_zeros_bound(p, bit_size as nat);
            lemma_odd_prime(p as int);
            assert(!is_prime(p + 1)) by {
                assert((p + 1) % 2 == 0);
            }
        }
        p = next_prime(p + 1).unwrap();
    }
    proof {
        lemma_leading_zeros_bound(p, bit_size as nat);
        if p >= hi || (p as int) % (2 * N as int) != 1 {
            let q = choose|q: int| #[trigger] is_ntt_prime(q, N as int, bit_size as nat);
            assert(q < p);
            assert(q % (2 * N as int) != 1);
        }
    }
    p
}

} // verus!
