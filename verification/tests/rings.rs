use lattirust::fq::Fq;
use lattirust::poly_ring::PolyRing;
use lattirust::pow2_cyclotomic_poly_ring::Pow2CyclotomicPolyRing;
use lattirust::representatives::WithSignedRepresentative;
use lattirust::ring::Ring;
use lattirust::z_2::Z2;
use lattirust::z_2_128::Z2_128;
use lattirust::z_2_64::Z2_64;
use rand::rngs::StdRng;
use rand::SeedableRng;

type F17 = Fq<17>;
type P4 = Pow2CyclotomicPolyRing<F17, 4>;

fn f17(x: u64) -> F17 {
    F17::from_u64(x)
}

fn p4(c: [u64; 4]) -> P4 {
    P4::from_array([f17(c[0]), f17(c[1]), f17(c[2]), f17(c[3])])
}

fn values(p: &P4) -> Vec<u64> {
    p.coefficient_array().iter().map(|c| c.value()).collect()
}

#[test]
fn test_z2_field_operations() {
    let zero = Z2::from_bool(false);
    let one = Z2::from_bool(true);
    assert_eq!(one.add(&one), zero);
    assert_eq!(one.add(&zero), one);
    assert_eq!(one.sub(&one), zero);
    assert_eq!(zero.sub(&one), one);
    assert_eq!(one.mul(&one), one);
    assert_eq!(one.mul(&zero), zero);
    assert_eq!(one.neg(), one);
    assert_eq!(zero.inverse(), None);
    assert_eq!(one.inverse(), Some(one));
    assert_eq!(one.div(&one), one);
    assert_eq!(zero.div(&one), zero);
    assert_eq!(one.square(), one);
    assert_eq!(Z2::from_u64(1), one);
    assert_eq!(Z2::from_i64(0), zero);
    assert!(one.to_bool());
    assert_eq!(one.linf_norm(), 1);
    assert_eq!(zero.l2_norm_squared(), 0);
    assert_eq!(Z2::extension_degree(), 1);
    assert_eq!(one.mul_by_base_prime_field(&zero), zero);
}

#[test]
fn test_z2_inverse_in_place() {
    let mut a = Z2::from_bool(true);
    assert!(a.inverse_in_place());
    assert_eq!(a, Z2::from_bool(true));
    let mut b = Z2::from_bool(false);
    assert!(!b.inverse_in_place());
    assert_eq!(b, Z2::from_bool(false));
}

#[test]
fn test_z2_parse() {
    assert_eq!(Z2::parse("0"), Ok(Z2::from_bool(false)));
    assert_eq!(Z2::parse("1"), Ok(Z2::from_bool(true)));
    assert_eq!(Z2::parse("2"), Err("Invalid value for Z2: 2".to_string()));
    assert!(Z2::parse("").is_err());
    assert!(Z2::parse("10").is_err());
}

#[test]
fn test_z2_bigint_and_prime_field_elems() {
    assert_eq!(Z2::from_bigint(0), Some(Z2::from_bool(false)));
    assert_eq!(Z2::from_bigint(1), Some(Z2::from_bool(false)));
    assert_eq!(Z2::from_bigint(2), None);
    assert_eq!(Z2::from_bool(true).into_bigint(), 1);
    assert_eq!(Z2::from_bool(false).into_bigint(), 0);
    let one = Z2::from_bool(true);
    assert_eq!(Z2::from_base_prime_field_elems(&[one]), Some(one));
    assert_eq!(Z2::from_base_prime_field_elems(&[]), None);
    assert_eq!(Z2::from_base_prime_field_elems(&[one, one]), None);
}

#[test]
fn test_z2_sum_product_and_random_bytes() {
    let one = Z2::from_bool(true);
    let zero = Z2::from_bool(false);
    assert_eq!(Z2::sum(&[one, one, one]), one);
    assert_eq!(Z2::sum(&[one, one]), zero);
    assert_eq!(Z2::sum(&[]), zero);
    assert_eq!(Z2::product(&[one, one, one]), one);
    assert_eq!(Z2::product(&[one, zero]), zero);
    assert_eq!(Z2::product(&[]), one);
    assert_eq!(Z2::try_from_random_bytes_inner(&[0x00, 0x03]), Some(one));
    assert_eq!(Z2::try_from_random_bytes_inner(&[0x01, 0x02]), Some(zero));
    assert_eq!(Z2::needs_bytes(), 1);
    assert!(Z2::has_no_bias());
}

#[test]
fn test_z2_64_wrapping_arithmetic() {
    let max = Z2_64::from_u64(u64::MAX);
    assert_eq!(max, Z2_64::from_i64(-1));
    assert_eq!(max.to_u64(), u64::MAX);
    assert_eq!(max.as_signed_representative(), -1);
    let one = Z2_64::one();
    assert_eq!(max.add(&one), Z2_64::zero());
    assert_eq!(Z2_64::zero().sub(&one), max);
    assert_eq!(max.mul(&max), one);
    assert_eq!(one.neg(), max);
    let big = Z2_64::from_u64(1 << 63);
    assert_eq!(big.add(&big), Z2_64::zero());
    assert_eq!(big.as_signed_representative(), i64::MIN);
}

#[test]
fn test_z2_64_inverse() {
    assert_eq!(
        Z2_64::from_u64(3).inverse().map(|y| y.to_u64()),
        Some(12297829382473034411)
    );
    assert_eq!(
        Z2_64::from_u64(12345678901234567891).inverse().map(|y| y.to_u64()),
        Some(11452094450101509467)
    );
    assert_eq!(Z2_64::from_u64(2).inverse(), None);
    assert_eq!(Z2_64::zero().inverse(), None);
    assert_eq!(Z2_64::one().inverse(), Some(Z2_64::one()));
}

#[test]
fn test_z2_64_bytes_and_sum() {
    let bytes = [0u8, 0, 0, 0, 0, 0, 1, 2];
    assert_eq!(
        Z2_64::try_from_random_bytes_inner(&bytes).map(|z| z.to_u64()),
        Some(258)
    );
    assert_eq!(Z2_64::try_from_random_bytes_inner(&[1, 2, 3]), None);
    assert_eq!(Z2_64::needs_bytes(), 8);
    let max = Z2_64::from_u64(u64::MAX);
    assert_eq!(Z2_64::sum(&[max, Z2_64::from_u64(2)]), Z2_64::one());
}

#[test]
fn test_z2_128_arithmetic_and_inverse() {
    let max = Z2_128::from_u128(u128::MAX);
    assert_eq!(max, Z2_128::from_i128(-1));
    assert_eq!(max.to_u128(), u128::MAX);
    assert_eq!(max.add(&Z2_128::one()), Z2_128::zero());
    assert_eq!(max.mul(&max), Z2_128::one());
    assert_eq!(
        Z2_128::from_u128(3).inverse().map(|y| y.to_u128()),
        Some(226854911280625642308916404954512140971)
    );
    assert_eq!(Z2_128::from_u128(6).inverse(), None);
    let mut bytes = [0u8; 16];
    bytes[15] = 7;
    bytes[0] = 1;
    assert_eq!(
        Z2_128::try_from_random_bytes_inner(&bytes).map(|z| z.to_u128()),
        Some((1u128 << 120) + 7)
    );
    // The requested byte count is 8, though an element is read from 16 bytes.
    assert_eq!(Z2_128::needs_bytes(), 8);
    assert_eq!(Z2_128::sum(&[max, max]).to_u128(), u128::MAX - 1);
}

#[test]
fn test_signed_representatives() {
    assert_eq!(f17(16).as_signed_representative(), -1);
    assert_eq!(f17(8).as_signed_representative(), 8);
    assert_eq!(f17(9).as_signed_representative(), -8);
    assert_eq!(F17::from_signed_representative(-1), f17(16));
    assert_eq!(F17::from_signed_representative(-8), f17(9));
    assert_eq!(F17::from_signed_representative(8), f17(8));
    assert_eq!(Z2_64::from_signed_representative(-2).to_u64(), u64::MAX - 1);
    assert_eq!(Z2_128::from_u128(u128::MAX).as_signed_representative(), -1);
}

#[test]
fn test_poly_negacyclic_wraparound() {
    // X * X^3 = X^4 = -1 in Z_17[X] / (X^4 + 1).
    let x = p4([0, 1, 0, 0]);
    let x3 = p4([0, 0, 0, 1]);
    assert_eq!(values(&x.mul(&x3)), vec![16, 0, 0, 0]);
    let a = p4([1, 2, 3, 4]);
    let b = p4([5, 6, 7, 8]);
    // (1 + 2X + 3X^2 + 4X^3)(5 + 6X + 7X^2 + 8X^3) mod (X^4 + 1, 17)
    assert_eq!(values(&a.mul(&b)), vec![12, 15, 2, 9]);
    assert_eq!(a.mul(&b), b.mul(&a));
}

#[test]
fn test_poly_add_sub_neg() {
    let a = p4([1, 2, 3, 16]);
    let b = p4([16, 15, 0, 1]);
    assert_eq!(values(&a.add(&b)), vec![0, 0, 3, 0]);
    assert_eq!(values(&a.sub(&b)), vec![2, 4, 3, 15]);
    assert_eq!(values(&a.neg()), vec![16, 15, 14, 1]);
    assert!(a.add(&a.neg()).is_zero());
    let mut c = a;
    c.add_assign(&b);
    assert_eq!(c, a.add(&b));
    c.sub_assign(&b);
    assert_eq!(c, a);
    c.mul_assign(&b);
    assert_eq!(c, a.mul(&b));
}

#[test]
fn test_poly_constructors() {
    assert_eq!(P4::dimension(), 4);
    assert_eq!(values(&P4::zero()), vec![0, 0, 0, 0]);
    assert_eq!(values(&P4::one()), vec![1, 0, 0, 0]);
    assert_eq!(P4::default(), P4::zero());
    assert_eq!(values(&P4::from_scalar(f17(5))), vec![5, 0, 0, 0]);
    let coeffs = vec![f17(1), f17(2), f17(3), f17(4)];
    assert_eq!(P4::try_from_coefficients(&coeffs), Some(p4([1, 2, 3, 4])));
    assert_eq!(P4::from_coeff_vec(coeffs.clone()), p4([1, 2, 3, 4]));
    assert_eq!(p4([1, 2, 3, 4]).coefficients(), coeffs);
    let f = P4::from_fn(|i| f17(i as u64 * 2));
    assert_eq!(values(&f), vec![0, 2, 4, 6]);
    assert!(p4([1, 2, 3, 4]).poly_eq(&p4([1, 2, 3, 4])));
    assert!(!p4([1, 2, 3, 4]).poly_eq(&p4([1, 2, 3, 5])));
}

#[test]
fn test_poly_mul_scalar_and_automorphism() {
    let a = p4([1, 2, 3, 4]);
    assert_eq!(values(&a.mul_scalar(&f17(3))), vec![3, 6, 9, 12]);
    // X -> X^-1 sends a_0 + a_1 X + a_2 X^2 + a_3 X^3 to a_0 - a_3 X - a_2 X^2 - a_1 X^3.
    assert_eq!(values(&a.apply_automorphism()), vec![1, 13, 14, 15]);
    assert_eq!(a.apply_automorphism().apply_automorphism(), a);
}

#[test]
fn test_poly_conjugate_inner_product() {
    // The constant coefficient of sigma(a) * b is the inner product of the coefficients.
    let a = p4([1, 2, 3, 4]);
    let b = p4([5, 6, 7, 8]);
    let prod = a.apply_automorphism().mul(&b);
    assert_eq!(values(&prod)[0], (5 + 12 + 21 + 32) % 17);
}

#[test]
fn test_poly_div_rem() {
    // (X^2 + 3X + 2) = (X + 1)(X + 2)
    let a = p4([2, 3, 1, 0]);
    let b = p4([1, 1, 0, 0]);
    let (q, r) = a.div_rem(&b);
    assert_eq!(values(&q), vec![2, 1, 0, 0]);
    assert!(r.is_zero());
    // 5X^3 + 1 divided by 2X + 1 leaves a constant remainder.
    let a = p4([1, 0, 0, 5]);
    let b = p4([1, 2, 0, 0]);
    let (q, r) = a.div_rem(&b);
    assert_eq!(values(&r)[1..], [0, 0, 0]);
    assert_eq!(q.mul(&b).add(&r), a);
}

#[test]
fn test_poly_inverse() {
    assert_eq!(P4::one().inverse(), Some(P4::one()));
    assert_eq!(P4::zero().inverse(), None);
    // 2 * 9 = 18 = 1 in F17
    assert_eq!(p4([2, 0, 0, 0]).inverse(), Some(p4([9, 0, 0, 0])));
    // (1 + X)(1 - X + X^2 - X^3) = 1 - X^4 = 2, so the inverse is 9 (1 - X + X^2 - X^3)
    assert_eq!(p4([1, 1, 0, 0]).inverse(), Some(p4([9, 8, 9, 8])));
    // X - 2 divides X^4 + 1 over F17 (2^4 = -1), so it is a zero divisor
    assert_eq!(p4([15, 1, 0, 0]).inverse(), None);
    let a = p4([3, 1, 4, 1]);
    let b = a.inverse().unwrap();
    assert_eq!(a.mul(&b), P4::one());
    assert_eq!(b.mul(&a), P4::one());
}

#[test]
fn test_poly_inverse_small_field() {
    type F5 = Fq<5>;
    type P2 = Pow2CyclotomicPolyRing<F5, 2>;
    let f5 = |x: u64| F5::from_u64(x);
    let two = P2::from_scalar(f5(2));
    assert_eq!(two.inverse(), Some(P2::from_scalar(f5(3))));
    // X^2 + 1 = (X - 2)(X - 3) over F5
    assert_eq!(P2::from_array([f5(3), f5(1)]).inverse(), None);
    assert_eq!(P2::from_array([f5(0), f5(1)]).inverse(), Some(P2::from_array([f5(0), f5(4)])));
}

#[test]
fn test_poly_sum_product() {
    let a = p4([1, 2, 3, 4]);
    let b = p4([5, 6, 7, 8]);
    assert_eq!(P4::sum(&[a, b]), a.add(&b));
    assert_eq!(P4::sum(&[]), P4::zero());
    assert_eq!(P4::product(&[a, b]), a.mul(&b));
    assert_eq!(P4::product(&[]), P4::one());
}

#[test]
fn test_poly_norms() {
    let a = p4([1, 16, 3, 15]);
    // signed representatives 1, -1, 3, -2
    assert_eq!(a.l2_norm_squared(), 1 + 1 + 9 + 4);
    assert_eq!(a.linf_norm(), 3);
}

#[test]
fn test_random_residues_of_powers_of_two() {
    let rng = &mut StdRng::seed_from_u64(5);
    let a: Vec<Z2_64> = (0..8).map(|_| Z2_64::rand(rng)).collect();
    assert!(a.iter().any(|x| *x != Z2_64::zero()));
    assert!(a.iter().any(|x| *x != a[0]));
    let b: Vec<Z2_128> = (0..8).map(|_| Z2_128::rand(rng)).collect();
    assert!(b.iter().any(|x| x.to_u128() > u64::MAX as u128));
    let c: Vec<Z2> = (0..64).map(|_| Z2::rand(rng)).collect();
    assert!(c.contains(&Z2::from_bool(true)) && c.contains(&Z2::from_bool(false)));
}

#[test]
fn test_poly_mul_laws_on_values() {
    let a = p4([1, 2, 3, 4]);
    let b = p4([5, 6, 7, 8]);
    let c = p4([16, 0, 9, 2]);
    assert_eq!(a.mul(&b), b.mul(&a));
    assert_eq!(a.mul(&b.add(&c)), a.mul(&b).add(&a.mul(&c)));
    assert_eq!(a.mul(&b).mul(&c), a.mul(&b.mul(&c)));
    assert_eq!(a.mul(&P4::one()), a);
}

#[test]
fn test_poly_inverse_over_residues_mod_power_of_two() {
    type P2 = Pow2CyclotomicPolyRing<Z2_64, 2>;
    let three = P2::from_scalar(Z2_64::from_u64(3));
    let inv = three.inverse().unwrap();
    assert_eq!(three.mul(&inv), P2::one());
    assert_eq!(P2::from_scalar(Z2_64::from_u64(2)).inverse(), None);
}
