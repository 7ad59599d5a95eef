use lattirust::decomposition::{
    decompose, decompose_matrix, decompose_polyring, decompose_vec, decompose_vec_polyring,
    powers_of_basis, recompose, recompose_left_right_symmetric_matrix, recompose_matrix,
    recompose_polyring,
};
use lattirust::fq::Fq;
use lattirust::poly_ring::PolyRing;
use lattirust::pow2_cyclotomic_poly_ring::Pow2CyclotomicPolyRing;
use lattirust::primes::ntt_prime;
use lattirust::representatives::WithSignedRepresentative;
use lattirust::ring::Ring;
use lattirust::symmetric_matrix::SymmetricMatrix;
use rand::rngs::StdRng;
use rand::SeedableRng;

const N: usize = 128;
// The prime `ntt_prime::<128>(12)`.
const Q: u64 = 3329;
const VEC_LENGTH: usize = 32;
const BASIS_TEST_RANGE: [u128; 5] = [2, 4, 8, 16, 32];

type R = Fq<Q>;
type PolyR = Pow2CyclotomicPolyRing<R, N>;

fn decomposition_max_length(b: u128, max: u128) -> usize {
    if max == 0 {
        0
    } else {
        (max as f64).log(b as f64).floor() as usize + 1
    }
}

fn linf(x: &R) -> u128 {
    x.as_signed_representative().unsigned_abs()
}

fn r(x: u64) -> R {
    R::from_u64(x)
}

fn get_test_vec() -> [R; N] {
    core::array::from_fn(|i| r((i as u64 * Q) / (N as u64)))
}

fn rand_elem(rng: &mut StdRng) -> R {
    <R as Ring>::rand(rng)
}

fn rand_matrix(rows: usize, cols: usize, rng: &mut StdRng) -> Vec<Vec<R>> {
    (0..rows).map(|_| (0..cols).map(|_| rand_elem(rng)).collect()).collect()
}

fn mat_mul(a: &Vec<Vec<R>>, b: &Vec<Vec<R>>) -> Vec<Vec<R>> {
    let cols = b[0].len();
    a.iter()
        .map(|row| {
            (0..cols)
                .map(|j| {
                    let mut acc = <R as Ring>::zero();
                    for (k, a_ik) in row.iter().enumerate() {
                        acc = acc.add(&a_ik.mul(&b[k][j]));
                    }
                    acc
                })
                .collect()
        })
        .collect()
}

fn transpose(a: &Vec<Vec<R>>) -> Vec<Vec<R>> {
    (0..a[0].len()).map(|j| a.iter().map(|row| row[j]).collect()).collect()
}

fn pow(b: &R, e: usize) -> R {
    let mut acc = <R as Ring>::one();
    for _ in 0..e {
        acc = acc.mul(b);
    }
    acc
}

#[test]
fn test_ntt_prime_of_test_ring() {
    assert_eq!(ntt_prime::<N>(12), Q);
}

#[test]
fn test_decompose() {
    let vs: Vec<R> = (0..Q).map(r).collect();
    for b in BASIS_TEST_RANGE {
        for v in &vs {
            let decomp = decompose(v, b, None);

            // Check that the decomposition length is correct
            let max = linf(v);
            let max_decomp_length = decomposition_max_length(b, max);
            assert!(decomp.len() <= max_decomp_length);

            // Check that all entries are smaller than b/2
            for v_i in &decomp {
                assert!(linf(v_i) < b);
            }

            // Check that the decomposition is correct
            assert_eq!(*v, recompose(&decomp, &r(b as u64)));
        }
    }
}

#[test]
fn test_decompose_vec() {
    let v = get_test_vec();
    for b in BASIS_TEST_RANGE {
        let decomp = decompose_vec(&v, b, None);

        // Check that the decomposition length is correct
        let max = v.iter().map(linf).max().unwrap();
        let max_decomp_length = decomposition_max_length(b, max);
        assert!(decomp.len() <= max_decomp_length);

        // Check that all entries are smaller than b in absolute value
        for d_i in &decomp {
            for d_ij in d_i {
                assert!(linf(d_ij) < b);
            }
        }

        for i in 0..decomp.len() {
            // Check that the decomposition is correct
            let decomp_i = decomp.iter().map(|d_j| d_j[i]).collect::<Vec<_>>();
            assert_eq!(v[i], recompose(&decomp_i, &r(b as u64)));
        }
    }
}

#[test]
fn test_decompose_polyring() {
    let v = PolyR::from_array(get_test_vec());
    for b in BASIS_TEST_RANGE {
        let decomp: Vec<PolyR> = decompose_polyring(&v, b, None);

        for d_i in &decomp {
            for d_ij in d_i.coefficients() {
                assert!(linf(&d_ij) <= b);
            }
        }

        assert_eq!(v, recompose_polyring(&decomp, &r(b as u64)));
    }
}

#[test]
fn test_decompose_vec_polyring() {
    let v: Vec<PolyR> = (0..VEC_LENGTH)
        .map(|i| {
            PolyR::try_from_coefficients(
                get_test_vec()
                    .into_iter()
                    .map(|c| c.add(&r(i as u64)))
                    .collect::<Vec<_>>()
                    .as_slice(),
            )
            .unwrap()
        })
        .collect();
    for b in BASIS_TEST_RANGE {
        let decomp = decompose_vec_polyring::<PolyR>(v.as_slice(), b, None);

        for v_i in &decomp {
            for v_ij in v_i {
                for v_ijk in v_ij.coefficients() {
                    assert!(linf(&v_ijk) < b);
                }
            }
        }

        let mut recomposed: Vec<PolyR> = vec![<PolyR as PolyRing>::zero(); v.len()];
        for (i, v_i) in decomp.iter().enumerate() {
            let scale = PolyR::from_scalar(pow(&r(b as u64), i));
            for (k, v_ik) in v_i.iter().enumerate() {
                recomposed[k] = PolyRing::add(&recomposed[k], &PolyRing::mul(v_ik, &scale));
            }
        }
        assert_eq!(v, recomposed);
    }
}

#[test]
pub fn test_decompose_matrix() {
    const NROWS: usize = 101;
    const NCOLS: usize = 42;

    let rng = &mut StdRng::seed_from_u64(0);
    let mat = rand_matrix(NROWS, NCOLS, rng);

    for b in BASIS_TEST_RANGE {
        let decomp_size = decomposition_max_length(b, (Q - 1) as u128);

        let decomp = decompose_matrix(&mat, b, decomp_size);
        assert_eq!(decomp.len(), mat.len());
        for row in &decomp {
            assert_eq!(row.len(), NCOLS * decomp_size);
            for d_ij in row {
                assert!(d_ij.as_signed_representative().unsigned_abs() <= b);
            }
        }

        let pows_b = powers_of_basis(&r(b as u64), decomp_size);
        let recomp = recompose_matrix(&decomp, &pows_b);

        assert_eq!(mat, recomp);

        // Check that recompose is equivalent to right-multiplication by the gadget matrix
        let gadget_matrix: Vec<Vec<R>> = (0..NCOLS * decomp_size)
            .map(|row| {
                (0..NCOLS)
                    .map(|col| {
                        if row / decomp_size == col {
                            pows_b[row % decomp_size]
                        } else {
                            <R as Ring>::zero()
                        }
                    })
                    .collect()
            })
            .collect();
        let mat_g = mat_mul(&decomp, &gadget_matrix);
        assert_eq!(recomp, mat_g);

        // Check that A * M == recompose(A * decompose(M))
        let mat_l = rand_matrix(64, NROWS, rng);
        let lhs = mat_mul(&mat_l, &mat);
        let rhs = recompose_matrix(&mat_mul(&mat_l, &decomp), &pows_b);
        assert_eq!(lhs, rhs);
    }
}

#[test]
fn test_left_right_decompose_symmetric_matrix() {
    const SIZE: usize = 13;
    let rng = &mut StdRng::seed_from_u64(0);

    for b in BASIS_TEST_RANGE {
        let decomp_size = decomposition_max_length(b, (Q - 1) as u128);

        let pows_b = powers_of_basis(&r(b as u64), decomp_size);
        let n = SIZE * decomp_size;
        let mat = SymmetricMatrix::<R>::rand(n, rng);

        let expected_full = recompose_matrix(
            &transpose(&recompose_matrix(&mat.to_matrix(), &pows_b)),
            &pows_b,
        );
        let expected: SymmetricMatrix<R> = SymmetricMatrix::from_matrix(&expected_full);

        let actual = recompose_left_right_symmetric_matrix(&mat, &pows_b);
        assert_eq!(expected, actual);
    }
}

#[test]
fn test_decompose_zero_has_no_digits() {
    let zero = r(0);
    assert!(decompose(&zero, 4, None).is_empty());
    let padded = decompose(&zero, 4, Some(3));
    assert_eq!(padded, vec![r(0), r(0), r(0)]);
}

#[test]
fn test_decompose_negative_digits() {
    // 3328 stands for -1: its only digit is -1
    let v = r(Q - 1);
    assert_eq!(decompose(&v, 2, None), vec![r(Q - 1)]);
    // 1000 in basis 16 is 8 + 14 * 16 + 3 * 256
    let w = r(1000);
    assert_eq!(decompose(&w, 16, Some(4)), vec![r(8), r(14), r(3), r(0)]);
}

#[test]
fn test_decompose_digits_are_signed_below_basis() {
    for b in BASIS_TEST_RANGE {
        for x in [0u64, 1, 2, 1664, 1665, 3328, 1000, 2500] {
            let d = decompose(&r(x), b, Some(12));
            assert_eq!(d.len(), 12);
            assert!(d.iter().all(|di| linf(di) < b));
        }
    }
    // -1 in basis 4: the single digit -1, then padding.
    let d = decompose(&r(3328), 4, Some(3));
    assert_eq!(d.iter().map(|x| x.as_signed_representative()).collect::<Vec<_>>(), vec![-1, 0, 0]);
}
