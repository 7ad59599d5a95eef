use lattirust::decomposition::decompose;
use lattirust::fq::Fq;
use lattirust::ntt::Ntt;
use lattirust::poly_ring::PolyRing;
use lattirust::pow2_cyclotomic_poly_ring::Pow2CyclotomicPolyRing;
use lattirust::representatives::WithSignedRepresentative;
use lattirust::ring::Ring;
use lattirust::rns::{add_mod_u128, all_distinct, id_assert_all_distinct, mul_mod_u128, rns_coeffs};
use lattirust::crt_ring::{try_from_digits, try_from_u128, Zq3, Zq4, Zq5};
use lattirust::zq2::Zq2;
use num_bigint::BigUint;

type Small = Zq2<17, 19>;
// The Mersenne primes 2^61 - 1 and 2^31 - 1.
type Big = Zq2<2305843009213693951, 2147483647>;

fn small(x: u128) -> Small {
    Small::from_bigint(x).unwrap()
}

#[test]
fn test_all_distinct() {
    assert!(all_distinct([1u64, 2, 3]));
    assert!(!all_distinct([1u64, 2, 1]));
    assert!(all_distinct::<0>([]));
    assert_eq!(id_assert_all_distinct([5u64, 7]), [5, 7]);
}

#[test]
fn test_rns_coeffs() {
    assert_eq!(rns_coeffs([3u64, 5, 7]), vec![vec![70u32], vec![21], vec![15]]);
    let c = rns_coeffs([17u64, 19]);
    assert_eq!(c, vec![vec![171u32], vec![153]]);
    assert_eq!(rns_coeffs([11u64]), vec![vec![1u32]]);
}

#[test]
fn test_rns_coeffs_beyond_128_bits() {
    // three 64-bit primes, whose product is about 2^192
    let qs = [18446744073709551557u64, 18446744073709551533, 18446744073709551521];
    let c = rns_coeffs(qs);
    let product = BigUint::from(qs[0]) * qs[1] * qs[2];
    for i in 0..3 {
        let ci = BigUint::new(c[i].clone());
        assert!(ci < product);
        assert!(ci.bits() > 128);
        for j in 0..3 {
            let expected = if i == j { 1u64 } else { 0 };
            assert_eq!(&ci % qs[j], BigUint::from(expected));
        }
    }
}

#[test]
fn test_modular_arithmetic_u128() {
    let m = 1_000_000_007u128 * 998_244_353u128 * 3;
    for (a, b) in [(u128::MAX, u128::MAX), (m - 1, m - 2), (12345, 67890), (0, 5)] {
        let expected = (BigUint::from(a) * BigUint::from(b)) % BigUint::from(m);
        assert_eq!(BigUint::from(mul_mod_u128(a, b, m)), expected);
    }
    assert_eq!(add_mod_u128(u128::MAX - 1, u128::MAX - 1, u128::MAX), u128::MAX - 2);
    assert_eq!(add_mod_u128(3, 4, 5), 2);
}

#[test]
fn test_zq2_from_into_bigint() {
    for x in [0u128, 1, 8, 9, 16, 17, 18, 19, 20, 100, 322] {
        assert_eq!(small(x).into_bigint(), x);
    }
    assert!(Small::from_bigint(323).is_none());
    let q: u128 = 2305843009213693951u128 * 2147483647u128;
    for x in [0u128, 1, q / 2, q - 1, 2305843009213693951, 2147483647, 2147483648] {
        assert_eq!(Big::from_bigint(x).unwrap().into_bigint(), x);
    }
    assert!(Big::from_bigint(q).is_none());
}

#[test]
fn test_zq2_ring_operations() {
    for a in [0u128, 1, 5, 17, 100, 322] {
        for b in [0u128, 2, 19, 200, 321] {
            assert_eq!(small(a).add(&small(b)).into_bigint(), (a + b) % 323);
            assert_eq!(small(a).sub(&small(b)).into_bigint(), (a + 323 - b) % 323);
            assert_eq!(small(a).mul(&small(b)).into_bigint(), (a * b) % 323);
        }
        assert_eq!(small(a).neg().into_bigint(), (323 - a) % 323);
    }
    assert_eq!(small(2).inverse().map(|y| y.into_bigint()), Some(162));
    assert!(small(17).inverse().is_none());
    assert!(small(38).inverse().is_none());
    assert!(small(0).inverse().is_none());
    assert!(Small::zero().is_zero());
    assert_eq!(Small::one().into_bigint(), 1);
    assert!(small(5).ring_eq(&small(5)));
    assert!(!small(5).ring_eq(&small(22)));
}

#[test]
fn test_zq2_signed_representatives_and_decomposition() {
    assert_eq!(small(322).as_signed_representative(), -1);
    assert_eq!(small(161).as_signed_representative(), 161);
    assert_eq!(small(162).as_signed_representative(), -161);
    assert_eq!(Small::from_signed_representative(-1).into_bigint(), 322);
    assert_eq!(Small::min_signed_representative(), -161);
    assert_eq!(Small::max_signed_representative(), 161);
    let v = small(300);
    let digits = decompose(&v, 4, None);
    // 300 stands for -23 = -3 - 1 * 4 - 1 * 16
    let values: Vec<i128> = digits.iter().map(|d| d.as_signed_representative()).collect();
    assert_eq!(values, vec![-3, -1, -1]);
}

#[test]
fn test_zq2_ntt_roundtrip() {
    type Z = Zq2<17, 97>;
    let a: [Z; 8] = core::array::from_fn(|i| Z::from_bigint((i as u128 * 211 + 5) % 1649).unwrap());
    let evals = <Z as Ntt<8>>::ntt(a);
    assert_ne!(evals, a);
    assert_eq!(<Z as Ntt<8>>::intt(evals), a);
    // Each limb is transformed on its own.
    let limb: [Fq<17>; 8] = core::array::from_fn(|i| a[i].0);
    let limb_evals = <Fq<17> as Ntt<8>>::ntt(limb);
    assert!((0..8).all(|i| evals[i].0 == limb_evals[i]));
}

#[test]
fn test_zq2_ntt_multiplies_negacyclically() {
    type Z = Zq2<17, 97>;
    type P = Pow2CyclotomicPolyRing<Z, 8>;
    let a: [Z; 8] = core::array::from_fn(|i| Z::from_bigint((i as u128 * 389 + 7) % 1649).unwrap());
    let b: [Z; 8] = core::array::from_fn(|i| Z::from_bigint((i as u128 * 1021 + 13) % 1649).unwrap());
    let ea = <Z as Ntt<8>>::ntt(a);
    let eb = <Z as Ntt<8>>::ntt(b);
    let prod: [Z; 8] = core::array::from_fn(|i| ea[i].mul(&eb[i]));
    let c = <Z as Ntt<8>>::intt(prod);
    let expected = PolyRing::mul(&P::from_array(a), &P::from_array(b));
    assert_eq!(P::from_array(c), expected);
    // The same product computed by hand in Z_1649[X] / (X^8 + 1).
    let va: Vec<i128> = a.iter().map(|x| x.into_bigint() as i128).collect();
    let vb: Vec<i128> = b.iter().map(|x| x.into_bigint() as i128).collect();
    for k in 0..8 {
        let mut s: i128 = 0;
        for i in 0..8 {
            for j in 0..8 {
                if i + j == k {
                    s += va[i] * vb[j];
                } else if i + j == k + 8 {
                    s -= va[i] * vb[j];
                }
            }
        }
        assert_eq!(c[k].into_bigint() as i128, s.rem_euclid(1649));
    }
}

#[test]
fn test_zq2_ntt_is_additive() {
    type Z = Zq2<17, 97>;
    let a: [Z; 8] = core::array::from_fn(|i| Z::from_bigint((i as u128 * 389 + 7) % 1649).unwrap());
    let b: [Z; 8] = core::array::from_fn(|i| Z::from_bigint((i as u128 * 1021 + 13) % 1649).unwrap());
    let ea = <Z as Ntt<8>>::ntt(a);
    let eb = <Z as Ntt<8>>::ntt(b);
    let sum_e: [Z; 8] = core::array::from_fn(|i| ea[i].add(&eb[i]));
    let sum: [Z; 8] = core::array::from_fn(|i| a[i].add(&b[i]));
    assert_eq!(<Z as Ntt<8>>::ntt(sum), sum_e);
    assert_eq!(<Z as Ntt<8>>::intt(sum_e), sum);
}

type Z3 = Zq3<17, 97, 113>;
const M3: u128 = 17 * 97 * 113;

fn z3(x: u128) -> Z3 {
    try_from_u128::<Z3>(x).unwrap()
}

#[test]
fn test_zq3_ring_operations() {
    for (x, y) in [(0u128, 0u128), (1, 186336), (12345, 54321), (186336, 186336), (99999, 2)] {
        assert_eq!(z3(x).add(&z3(y)), z3((x + y) % M3));
        assert_eq!(z3(x).sub(&z3(y)), z3((x + M3 - y) % M3));
        assert_eq!(z3(x).mul(&z3(y)), z3((x * y) % M3));
        assert_eq!(z3(x).neg(), z3((M3 - x) % M3));
    }
    assert!(Z3::zero().is_zero());
    assert_eq!(Z3::one(), z3(1));
    let a = z3(12345);
    let inv = a.inverse().unwrap();
    assert_eq!(a.mul(&inv), Z3::one());
    assert!(z3(17 * 5).inverse().is_none());
}

#[test]
fn test_zq3_to_zq5_refuse_unreduced_values() {
    assert!(try_from_u128::<Z3>(M3 - 1).is_ok());
    assert!(try_from_u128::<Z3>(M3).is_err());
    type Z4 = Zq4<17, 97, 113, 193>;
    let m4 = M3 * 193;
    assert!(try_from_u128::<Z4>(m4 - 1).is_ok());
    assert!(try_from_u128::<Z4>(m4).is_err());
    type Z5 = Zq5<17, 97, 113, 193, 241>;
    let m5 = m4 * 241;
    assert!(try_from_u128::<Z5>(m5 - 1).is_ok());
    assert!(try_from_u128::<Z5>(m5).is_err());
    // Moduli whose product exceeds 128 bits refuse nothing below 2^128.
    type Big5 = Zq5<
        2305843009213693951,
        2147483647,
        4294967291,
        4294967279,
        4294967231,
    >;
    assert!(try_from_u128::<Big5>(u128::MAX).is_ok());
}

#[test]
fn test_zq3_ntt_roundtrip_and_product() {
    type P = Pow2CyclotomicPolyRing<Z3, 8>;
    let a: [Z3; 8] = core::array::from_fn(|i| z3((i as u128 * 40213 + 7) % M3));
    let b: [Z3; 8] = core::array::from_fn(|i| z3((i as u128 * 91871 + 3) % M3));
    let ea = <Z3 as Ntt<8>>::ntt(a);
    assert_eq!(<Z3 as Ntt<8>>::intt(ea), a);
    let eb = <Z3 as Ntt<8>>::ntt(b);
    let prod: [Z3; 8] = core::array::from_fn(|i| ea[i].mul(&eb[i]));
    let c = <Z3 as Ntt<8>>::intt(prod);
    assert_eq!(P::from_array(c), PolyRing::mul(&P::from_array(a), &P::from_array(b)));
}

#[test]
fn test_zq_from_digits_matches_u128() {
    for x in [0u128, 1, 12345, M3 - 1] {
        let d = BigUint::from(x).to_u32_digits();
        assert_eq!(try_from_digits::<Z3>(&d), Ok(z3(x)));
    }
    assert_eq!(try_from_digits::<Z3>(&BigUint::from(M3).to_u32_digits()), Err(()));
    assert_eq!(try_from_digits::<Z3>(&BigUint::from(u128::MAX).to_u32_digits()), Err(()));
}

#[test]
fn test_zq3_from_digits_beyond_128_bits() {
    const P1: u64 = 18446744073709551557;
    const P2: u64 = 18446744073709551533;
    const P3: u64 = 18446744073709551521;
    type Big3 = Zq3<P1, P2, P3>;
    let modulus = BigUint::from(P1) * P2 * P3;
    assert!(modulus.bits() > 128);
    assert_eq!(try_from_digits::<Big3>(&modulus.to_u32_digits()), Err(()));
    let top = &modulus - 1u32;
    let z = try_from_digits::<Big3>(&top.to_u32_digits()).unwrap();
    assert_eq!(z, Big3::zero().sub(&Big3::one()));
    let x = BigUint::from(u128::MAX) * 5u32 + 7u32;
    let z = try_from_digits::<Big3>(&x.to_u32_digits()).unwrap();
    assert_eq!(BigUint::from(z.1.value()), &x % P3);
    let p12 = BigUint::from(P1) * P2;
    assert_eq!(BigUint::from(z.0.into_bigint()), &x % p12);
}

#[test]
fn test_zq2_from_digits_of_any_size() {
    const P1: u64 = 18446744073709551557;
    const P2: u64 = 18446744073709551533;
    type Big2 = Zq2<P1, P2>;
    let modulus = BigUint::from(P1) * P2;
    let top = &modulus - 1u32;
    let z = try_from_digits::<Big2>(&top.to_u32_digits()).unwrap();
    assert_eq!(BigUint::from(z.into_bigint()), top);
    assert_eq!(try_from_digits::<Big2>(&modulus.to_u32_digits()), Err(()));
    let huge = BigUint::from(u128::MAX) * 3u32;
    assert_eq!(try_from_digits::<Big2>(&huge.to_u32_digits()), Err(()));
}
