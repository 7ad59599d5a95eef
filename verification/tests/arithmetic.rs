use lattirust::fq::{gcd_u64, to_bigint_assert_odd_prime, Fq};
use lattirust::ntt::{
    bit_reversed_index, const_inv_mod, const_pow_mod, const_pows, nth_primitive_root_of_unity,
    pows_bit_reversed, two_nth_primitive_root_of_unity, Ntt,
};
use lattirust::poly_ring::PolyRing;
use lattirust::pow2_cyclotomic_poly_ring::Pow2CyclotomicPolyRing;
use lattirust::primes::{ntt_prime, prime_factors};
use lattirust::ring::Ring;
use lattirust::roots::{
    generator, is_generator, is_primitive_root_of_unity, largest_power_of_two_dividing, try_generator,
    two_adic_root_of_unity,
};

type F17 = Fq<17>;
type F3329 = Fq<3329>;

fn f17(x: u64) -> F17 {
    F17::from_u64(x)
}

#[test]
fn test_const_pow_mod_values() {
    assert_eq!(const_pow_mod::<3329>(17, 128), 3328);
    assert_eq!(const_pow_mod::<7>(3, 0), 1);
    assert_eq!(const_pow_mod::<7>(3, 6), 1);
    assert_eq!(const_pow_mod::<1000>(7, 3), 343);
}

#[test]
fn test_const_inv_mod_values() {
    assert_eq!(const_inv_mod::<3329>(17), 1175);
    assert_eq!((17 * const_inv_mod::<3329>(17)) % 3329, 1);
}

#[test]
fn test_gcd() {
    assert_eq!(gcd_u64(12, 18), 6);
    assert_eq!(gcd_u64(17, 5), 1);
    assert_eq!(gcd_u64(0, 9), 9);
}

#[test]
fn test_bit_reversed_index_values() {
    assert_eq!(bit_reversed_index::<8>(1), 4);
    assert_eq!(bit_reversed_index::<8>(3), 6);
    assert_eq!(bit_reversed_index::<8>(0), 0);
    assert_eq!(bit_reversed_index::<2>(1), 1);
}

#[test]
fn test_const_pows_and_bit_reversed() {
    let pows: [F17; 4] = const_pows::<17, 4>(3);
    assert_eq!(pows, [f17(1), f17(3), f17(9), f17(10)]);
    let rev: [F17; 4] = pows_bit_reversed::<17, 4>(3);
    assert_eq!(rev, [f17(1), f17(9), f17(3), f17(10)]);
}

#[test]
fn test_roots_of_unity() {
    let g = two_nth_primitive_root_of_unity::<17, 8>();
    assert_eq!(g, 3);
    assert!(is_primitive_root_of_unity::<17>(g, 16));
    let w = nth_primitive_root_of_unity::<17, 8>();
    assert_eq!(w, 9);
    assert!(is_primitive_root_of_unity::<17>(w, 8));
    assert!(is_primitive_root_of_unity::<3329>(17, 256));
    assert!(!is_primitive_root_of_unity::<3329>(1, 256));
    assert!(!is_primitive_root_of_unity::<17>(9, 16));
}

#[test]
fn test_ntt_roundtrip_small() {
    let a: [F17; 8] = core::array::from_fn(|i| f17((5 * i as u64 + 3) % 17));
    let evals = <F17 as Ntt<8>>::ntt(a);
    let back = <F17 as Ntt<8>>::intt(evals);
    assert_eq!(a, back);
}

#[test]
fn test_ntt_of_constant_is_constant() {
    let mut a = [f17(0); 8];
    a[0] = f17(5);
    let evals = <F17 as Ntt<8>>::ntt(a);
    assert_eq!(evals, [f17(5); 8]);
}

#[test]
fn test_ntt_roundtrip_kyber() {
    let a: [F3329; 128] = core::array::from_fn(|i| F3329::from_u64((i as u64 * 77 + 1) % 3329));
    let mut b = a;
    <F3329 as Ntt<128>>::ntt_inplace(&mut b);
    assert_ne!(a, b);
    <F3329 as Ntt<128>>::intt_inplace(&mut b);
    assert_eq!(a, b);
}

#[test]
fn test_ntt_multiplies_negacyclically() {
    type P = Pow2CyclotomicPolyRing<F17, 8>;
    let a: [F17; 8] = core::array::from_fn(|i| f17(i as u64 + 1));
    let b: [F17; 8] = core::array::from_fn(|i| f17((3 * i as u64 + 2) % 17));
    let ea = <F17 as Ntt<8>>::ntt(a);
    let eb = <F17 as Ntt<8>>::ntt(b);
    let prod: [F17; 8] = core::array::from_fn(|i| ea[i].mul(&eb[i]));
    let c = <F17 as Ntt<8>>::intt(prod);
    let expected = PolyRing::mul(&P::from_array(a), &P::from_array(b));
    assert_eq!(P::from_array(c), expected);
}

#[test]
fn test_ntt_is_additive() {
    let a: [F17; 8] = core::array::from_fn(|i| f17(i as u64 * 5 + 1));
    let b: [F17; 8] = core::array::from_fn(|i| f17((7 * i as u64 + 3) % 17));
    let ea = <F17 as Ntt<8>>::ntt(a);
    let eb = <F17 as Ntt<8>>::ntt(b);
    let sum_e: [F17; 8] = core::array::from_fn(|i| ea[i].add(&eb[i]));
    let sum: [F17; 8] = core::array::from_fn(|i| a[i].add(&b[i]));
    assert_eq!(<F17 as Ntt<8>>::ntt(sum), sum_e);
    assert_eq!(<F17 as Ntt<8>>::intt(sum_e), sum);
}

#[test]
fn test_largest_power_of_two_dividing() {
    assert_eq!(largest_power_of_two_dividing(3328), 8);
    assert_eq!(largest_power_of_two_dividing(1), 0);
    assert_eq!(largest_power_of_two_dividing(12), 2);
    assert_eq!(largest_power_of_two_dividing(1 << 63), 63);
}

#[test]
fn test_prime_factors() {
    let f = prime_factors(40);
    assert_eq!(&f[..4], &[2, 2, 2, 5]);
    assert!(f[4..].iter().all(|&x| x == 0));
    assert!(prime_factors(1).iter().all(|&x| x == 0));
    assert!(prime_factors(0).iter().all(|&x| x == 0));
    let g = prime_factors(3328);
    assert_eq!(&g[..9], &[2, 2, 2, 2, 2, 2, 2, 2, 13]);
    assert_eq!(g[9], 0);
    let h = prime_factors(35);
    assert_eq!(&h[..3], &[5, 7, 0]);
    let big = prime_factors(1 << 63);
    assert!(big[..63].iter().all(|&x| x == 2));
    assert_eq!(big[63], 0);
}

#[test]
fn test_generator_and_two_adic_root() {
    let factors = prime_factors(3328);
    assert!(!is_generator::<3329>(2, &factors));
    assert!(is_generator::<3329>(3, &factors));
    assert_eq!(generator::<3329>(), 3);
    // The smallest root of order 256 modulo 3329, and of order 8 modulo 41.
    assert_eq!(two_adic_root_of_unity::<3329>(), 17);
    assert_eq!(const_pow_mod::<3329>(17, 256), 1);
    assert_eq!(const_pow_mod::<3329>(17, 128), 3328);
    assert_eq!(two_adic_root_of_unity::<41>(), 3);
    assert_eq!(two_adic_root_of_unity::<7>(), 6);
    assert_eq!(two_adic_root_of_unity::<13>(), 5);
}

#[test]
fn test_ntt_primes() {
    assert_eq!(ntt_prime::<128>(12), 3329);
    assert_eq!(ntt_prime::<4>(5), 17);
    assert_eq!(ntt_prime::<1>(2), 3);
}

#[test]
fn test_fq_ring_operations() {
    let a = f17(15);
    let b = f17(5);
    assert_eq!(a.add(&b), f17(3));
    assert_eq!(b.sub(&a), f17(7));
    assert_eq!(a.mul(&b), f17(7));
    assert_eq!(a.neg(), f17(2));
    assert_eq!(f17(0).neg(), f17(0));
    assert_eq!(b.inverse(), Some(f17(7)));
    assert_eq!(f17(0).inverse(), None);
    assert!(f17(0).is_zero());
    assert!(a.ring_eq(&f17(32)));
    assert_eq!(Fq::<10>::from_u64(4).inverse(), None);
    assert_eq!(Fq::<10>::from_u64(3).inverse(), Some(Fq::<10>::from_u64(7)));
}

#[test]
fn test_odd_prime_modulus_limb() {
    assert_eq!(to_bigint_assert_odd_prime::<17>(), [17]);
    assert_eq!(to_bigint_assert_odd_prime::<3329>(), [3329]);
}

#[test]
fn test_ntt_evaluates_at_roots_of_x_n_plus_one() {
    // The transform of X lists the evaluation points: the eight roots of X^8 + 1 mod 17.
    let mut x = [f17(0); 8];
    x[1] = f17(1);
    let points = <F17 as Ntt<8>>::ntt(x);
    for (j, p) in points.iter().enumerate() {
        assert_eq!(const_pow_mod::<17>(p.value(), 8), 16);
        for q in points.iter().skip(j + 1) {
            assert_ne!(p.value(), q.value());
        }
    }
    // The transform of 3 + 2 X + X^2 is that polynomial evaluated at each point.
    let mut a = [f17(0); 8];
    a[0] = f17(3);
    a[1] = f17(2);
    a[2] = f17(1);
    let evals = <F17 as Ntt<8>>::ntt(a);
    for j in 0..8 {
        let r = points[j].value();
        assert_eq!(evals[j].value(), (3 + 2 * r + r * r) % 17);
    }
}

#[test]
fn test_two_adic_root_has_exact_order() {
    // 3328 = 2^8 * 13: the root has order exactly 256.
    let w = two_adic_root_of_unity::<3329>();
    assert_eq!(const_pow_mod::<3329>(w, 256), 1);
    assert_ne!(const_pow_mod::<3329>(w, 128), 1);
    // 16 = 2^4: modulo 17 the root has order exactly 16.
    let v = two_adic_root_of_unity::<17>();
    assert_eq!(const_pow_mod::<17>(v, 16), 1);
    assert_ne!(const_pow_mod::<17>(v, 8), 1);
}

#[test]
fn test_found_roots_are_primitive() {
    let g = two_nth_primitive_root_of_unity::<3329, 128>();
    assert!(is_primitive_root_of_unity::<3329>(g, 256));
    assert_eq!(const_pow_mod::<3329>(g, 128), 3328);
    let w = nth_primitive_root_of_unity::<3329, 256>();
    assert!(is_primitive_root_of_unity::<3329>(w, 256));
}

#[test]
fn test_prime_factors_of_multiples_of_three() {
    let f = prime_factors(12);
    assert_eq!(&f[..4], &[2, 2, 3, 0]);
    let g = prime_factors(9 * 7 * 13);
    assert_eq!(&g[..5], &[3, 3, 7, 13, 0]);
    // Generators of F_7^* and F_13^*, whose orders are multiples of three.
    assert_eq!(generator::<7>(), 3);
    assert_eq!(generator::<13>(), 2);
    assert_eq!(generator::<41>(), 6);
}

#[test]
fn test_field_refuses_unreduced_values() {
    assert_eq!(F17::try_from_u64(16).map(|x| x.value()), Ok(16));
    assert!(F17::try_from_u64(17).is_err());
    assert!(F17::try_from_u128(1u128 << 100).is_err());
    assert_eq!(F17::try_from_u128(0).map(|x| x.value()), Ok(0));
}

#[test]
fn test_generators_have_full_order() {
    fn order(g: u64, q: u64) -> u64 {
        (1..q).find(|&i| const_pow_mod_dyn(g, i, q) == 1).unwrap()
    }
    fn const_pow_mod_dyn(x: u64, k: u64, q: u64) -> u64 {
        (0..k).fold(1u64, |acc, _| acc * x % q)
    }
    assert_eq!(order(generator::<7>(), 7), 6);
    assert_eq!(order(generator::<13>(), 13), 12);
    assert_eq!(order(generator::<41>(), 41), 40);
    assert_eq!(order(generator::<3329>(), 3329), 3328);
}

#[test]
fn test_ntt_entries_are_odd_bit_reversed_powers() {
    let psi = two_nth_primitive_root_of_unity::<17, 8>();
    let mut x = [f17(0); 8];
    x[1] = f17(1);
    let points = <F17 as Ntt<8>>::ntt(x);
    for j in 0..8 {
        let e = 2 * bit_reversed_index::<8>(j) as u64 + 1;
        assert_eq!(points[j].value(), const_pow_mod::<17>(psi, e));
    }
}

#[test]
fn test_try_generator() {
    assert_eq!(try_generator::<7>(), Some(3));
    assert_eq!(try_generator::<3329>(), Some(3));
    assert_eq!(Fq::<17>::sample_bound(), 17);
}
