//! Verified lattice arithmetic: modular integers, number-theoretic transforms,
//! power-of-two cyclotomic polynomial rings, gadget decompositions and the
//! principal quadratic relation.
pub mod arith;
pub mod fq;
pub mod ntt;
pub mod ring;
pub mod butterfly;
pub mod poly_ring;
pub mod pow2_cyclotomic_poly_ring;
pub mod poly_mul_laws;
pub mod units;
pub mod z_2;
pub mod z_2_64;
pub mod z_2_128;
pub mod primes;
pub mod fermat;
pub mod nonresidue;
pub mod convolution;
pub mod roots;
pub mod cyclic;
pub mod representatives;
pub mod signed_representative;
pub mod rns;
pub mod zq2;
pub mod crt_ring;
pub mod decomposition;
pub mod symmetric_matrix;
pub mod relation_algebra;
pub mod norms;
pub mod principal_relation;
pub mod timing;
pub mod reduction;
pub mod random;
