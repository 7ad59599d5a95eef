use lattirust::fq::Fq;
use lattirust::norms::{unsigned_abs, vec_l2_norm_squared};
use lattirust::poly_ring::PolyRing;
use lattirust::pow2_cyclotomic_poly_ring::Pow2CyclotomicPolyRing;
use lattirust::principal_relation::{
    ConstantQuadraticConstraint, Index, Instance, PrincipalRelation, QuadraticConstraint,
    RelationError, Witness,
};
use lattirust::reduction::{
    completeness_step, soundness_step, CompletenessEvent, CompletenessFailure, CompletenessStage,
    CompletenessStep, SoundnessEvent, SoundnessStage, SoundnessStep,
};
use lattirust::relation_algebra::{dot, inner_products};
use lattirust::ring::Ring;
use lattirust::symmetric_matrix::SymmetricMatrix;
use lattirust::timing::NvtxGuard;
use lattirust::representatives::WithSignedRepresentative;
use rand::rngs::StdRng;
use rand::SeedableRng;

type F17 = Fq<17>;
type P4 = Pow2CyclotomicPolyRing<F17, 4>;
type Rel = PrincipalRelation<P4>;

fn f17(x: u64) -> F17 {
    F17::from_u64(x)
}

fn c(x: u64) -> P4 {
    P4::from_scalar(f17(x))
}

fn values(p: &P4) -> Vec<u64> {
    p.coefficient_array().iter().map(|c| c.value()).collect()
}

/// Two vectors of one polynomial each: the constants 1 and 2.
fn small_witness() -> Witness<P4> {
    Witness::new(vec![vec![c(1)], vec![c(2)]])
}

/// `A = [[1, 0], [0, 0]]`, `phi = ([1], [1])`: on the small witness the value is 1 + 1 + 2.
fn part() -> (SymmetricMatrix<P4>, Vec<Vec<P4>>) {
    let a = SymmetricMatrix::from_rows(vec![vec![c(1)], vec![c(0), c(0)]]);
    (a, vec![vec![c(1)], vec![c(1)]])
}

fn index(norm_bound_squared: i128) -> Index<P4> {
    Index::new(2, 1, norm_bound_squared, 1, 1)
}

fn satisfied_instance() -> Instance<P4> {
    let (_, x, _) = Rel::generate_satisfied_instance(
        index(100),
        small_witness(),
        vec![part()],
        vec![part()],
    );
    x
}

#[test]
fn test_generate_satisfied_instance_is_satisfied() {
    let (i, x, w) = Rel::generate_satisfied_instance(
        index(100),
        small_witness(),
        vec![part()],
        vec![part()],
    );
    assert_eq!(x.num_constraints(), 1);
    assert_eq!(x.num_const_constraints(), 1);
    assert_eq!(values(&x.quad_dot_prod_funcs[0].b), vec![4, 0, 0, 0]);
    assert_eq!(x.ct_quad_dot_prod_funcs[0].b, f17(4));
    assert!(Rel::is_satisfied(&i, &x, &w));
    assert!(Rel::is_satisfied_err(&i, &x, &w).is_ok());
    assert!(Rel::is_well_defined(&i, &x, Some(&w)));
    assert!(Rel::is_well_defined(&i, &x, None));
}

#[test]
fn test_generate_unsatisfied_instance_is_not_satisfied() {
    let (i, x, w) = Rel::generate_unsatisfied_instance(
        index(100),
        small_witness(),
        vec![part()],
        vec![part()],
        0,
        0,
    );
    assert_eq!(values(&x.quad_dot_prod_funcs[0].b), vec![5, 0, 0, 0]);
    assert_eq!(x.ct_quad_dot_prod_funcs[0].b, f17(5));
    assert!(!Rel::is_satisfied(&i, &x, &w));
    match Rel::is_satisfied_err(&i, &x, &w) {
        Err(RelationError::UnsatisfiedBoth(q, ct)) => {
            assert_eq!(q, vec![0]);
            assert_eq!(ct, vec![0]);
        }
        other => panic!("unexpected result {:?}", other),
    }
}

#[test]
fn test_unsatisfied_constraints_of_one_kind() {
    let mut x = satisfied_instance();
    x.quad_dot_prod_funcs[0].b = c(3);
    match Rel::is_satisfied_err(&index(100), &x, &small_witness()) {
        Err(RelationError::UnsatisfiedConstraints(q)) => assert_eq!(q, vec![0]),
        other => panic!("unexpected result {:?}", other),
    }
    let mut x = satisfied_instance();
    x.ct_quad_dot_prod_funcs[0].b = f17(0);
    match Rel::is_satisfied_err(&index(100), &x, &small_witness()) {
        Err(RelationError::UnsatisfiedConstantConstraints(ct)) => assert_eq!(ct, vec![0]),
        other => panic!("unexpected result {:?}", other),
    }
}

#[test]
fn test_instance_shape_errors() {
    let x = satisfied_instance();
    let too_many = Index::<P4>::new(2, 1, 100, 2, 1);
    assert!(matches!(
        too_many.is_wellformed_instance(&x),
        Err(RelationError::ConstraintCount)
    ));
    let too_many_ct = Index::<P4>::new(2, 1, 100, 1, 3);
    assert!(matches!(
        too_many_ct.is_wellformed_instance(&x),
        Err(RelationError::ConstantConstraintCount)
    ));
    let mut bad = satisfied_instance();
    bad.quad_dot_prod_funcs[0].phi = vec![vec![c(1), c(1)], vec![c(1), c(1)]];
    match index(100).is_wellformed_instance(&bad) {
        Err(RelationError::MalformedConstraints(ks)) => assert_eq!(ks, vec![0]),
        other => panic!("unexpected result {:?}", other),
    }
    let mut bad = satisfied_instance();
    bad.ct_quad_dot_prod_funcs[0].A = Some(SymmetricMatrix::from_rows(vec![vec![c(1)]]));
    match index(100).is_wellformed_instance(&bad) {
        Err(RelationError::MalformedConstantConstraints(ks)) => assert_eq!(ks, vec![0]),
        other => panic!("unexpected result {:?}", other),
    }
    assert!(index(100).is_wellformed_instance(&x).is_ok());
    assert!(index(100).is_wellformed_constraint(&x.quad_dot_prod_funcs[0]));
    assert!(index(100).is_wellformed_const_constraint(&x.ct_quad_dot_prod_funcs[0]));
}

#[test]
fn test_witness_shape_and_norm_errors() {
    let three = Witness::new(vec![vec![c(1)], vec![c(1)], vec![c(1)]]);
    assert!(matches!(
        index(100).is_wellformed_witness(&three),
        Err(RelationError::WitnessCount)
    ));
    let long = Witness::new(vec![vec![c(1), c(0)], vec![c(1), c(0)]]);
    match index(100).is_wellformed_witness(&long) {
        Err(RelationError::WitnessLengths(ks)) => assert_eq!(ks, vec![0, 1]),
        other => panic!("unexpected result {:?}", other),
    }
    // The squared norm of the small witness is 1 + 4.
    match index(4).is_wellformed_witness(&small_witness()) {
        Err(RelationError::NormTooLarge(n)) => assert_eq!(n, 5),
        other => panic!("unexpected result {:?}", other),
    }
    assert!(index(5).is_wellformed_witness(&small_witness()).is_ok());
    let x = satisfied_instance();
    assert!(matches!(
        Rel::is_satisfied_err(&index(4), &x, &small_witness()),
        Err(RelationError::NormTooLarge(5))
    ));
    assert!(matches!(
        Rel::is_well_defined_err(&index(100), &x, Some(&three)),
        Err(RelationError::WitnessCount)
    ));
}

#[test]
fn test_constraint_evaluation() {
    let w = small_witness();
    let (a, phi) = part();
    let q = QuadraticConstraint::new(a.clone(), phi.clone(), c(4));
    assert!(q.eval(&w).is_zero());
    assert!(q.is_valid_witness(&w));
    let lin = QuadraticConstraint::new_linear(phi.clone(), c(1));
    assert_eq!(values(&lin.eval(&w)), vec![2, 0, 0, 0]);
    assert!(!lin.is_valid_witness(&w));
    let hom = QuadraticConstraint::new_homogeneous_linear(vec![vec![c(2)], vec![c(16)]]);
    assert!(hom.is_valid_witness(&w));
    let empty = QuadraticConstraint::<P4>::new_empty(2, 1);
    assert!(empty.eval(&w).is_zero());
    let ct = ConstantQuadraticConstraint::new(a, phi.clone(), f17(4));
    assert_eq!(ct.eval(&w), f17(0));
    assert!(ct.is_valid_witness(&w));
    let ct_lin = ConstantQuadraticConstraint::new_linear(phi, f17(0));
    assert_eq!(ct_lin.eval(&w), f17(3));
    assert!(!ct_lin.is_valid_witness(&w));
}

#[test]
fn test_zero_witness() {
    let w = Witness::<P4>::zero(3, 2);
    assert_eq!(w.s.len(), 3);
    assert!(w.s.iter().all(|v| v.len() == 2 && v.iter().all(|p| p.is_zero())));
}

#[test]
fn test_dot_and_inner_products() {
    let a = vec![c(1), c(2)];
    let b = vec![c(3), c(4)];
    assert_eq!(values(&dot(&a, &b)), vec![11, 0, 0, 0]);
    let g = inner_products(&vec![a.clone(), b.clone()]);
    assert_eq!(g.size(), 2);
    assert_eq!(values(g.at(0, 0)), vec![5, 0, 0, 0]);
    assert_eq!(values(g.at(0, 1)), vec![11, 0, 0, 0]);
    assert_eq!(values(g.at(1, 0)), vec![11, 0, 0, 0]);
    assert_eq!(values(g.at(1, 1)), vec![25 % 17, 0, 0, 0]);
}

#[test]
fn test_norms() {
    assert_eq!(unsigned_abs(-5), 5);
    assert_eq!(unsigned_abs(i128::MIN), 1u128 << 127);
    let v = vec![c(16), P4::from_array([f17(2), f17(15), f17(0), f17(1)])];
    // signed coefficients: -1; 2, -2, 0, 1
    assert_eq!(vec_l2_norm_squared(&v), 1 + 4 + 4 + 1);
}

#[test]
fn test_completeness_steps() {
    assert_eq!(
        completeness_step(CompletenessStage::CheckInput, CompletenessEvent::InputChecked { satisfied: true }),
        CompletenessStep::Next(CompletenessStage::Prove)
    );
    assert_eq!(
        completeness_step(CompletenessStage::CheckInput, CompletenessEvent::InputChecked { satisfied: false }),
        CompletenessStep::Fail(CompletenessFailure::InputNotSatisfied)
    );
    assert_eq!(
        completeness_step(CompletenessStage::Prove, CompletenessEvent::Proved { ok: false }),
        CompletenessStep::Fail(CompletenessFailure::ProverFailed)
    );
    assert_eq!(
        completeness_step(CompletenessStage::CheckOutput, CompletenessEvent::OutputChecked { satisfied: true }),
        CompletenessStep::Next(CompletenessStage::Verify)
    );
    assert_eq!(
        completeness_step(CompletenessStage::Verify, CompletenessEvent::Verified { ok: true }),
        CompletenessStep::Next(CompletenessStage::Compare)
    );
    assert_eq!(
        completeness_step(CompletenessStage::Compare,
            CompletenessEvent::Compared { same_index: true, same_instance: false }
        ),
        CompletenessStep::Fail(CompletenessFailure::InstanceMismatch)
    );
    assert_eq!(
        completeness_step(CompletenessStage::Compare,
            CompletenessEvent::Compared { same_index: false, same_instance: false }
        ),
        CompletenessStep::Fail(CompletenessFailure::IndexMismatch)
    );
    assert_eq!(
        completeness_step(CompletenessStage::Compare,
            CompletenessEvent::Compared { same_index: true, same_instance: true }
        ),
        CompletenessStep::Complete
    );
}

#[test]
fn test_soundness_steps() {
    assert_eq!(
        soundness_step(SoundnessStage::CheckInput, SoundnessEvent::InputChecked { satisfied: true }),
        SoundnessStep::InputSatisfied
    );
    assert_eq!(
        soundness_step(SoundnessStage::CheckInput, SoundnessEvent::InputChecked { satisfied: false }),
        SoundnessStep::Next(SoundnessStage::Prove)
    );
    assert_eq!(
        soundness_step(SoundnessStage::Prove, SoundnessEvent::Proved { ok: true }),
        SoundnessStep::Next(SoundnessStage::Verify)
    );
    assert_eq!(
        soundness_step(SoundnessStage::Prove, SoundnessEvent::Proved { ok: false }),
        SoundnessStep::ProverFailed
    );
    assert_eq!(
        soundness_step(SoundnessStage::Verify, SoundnessEvent::Verified { accepted: false }),
        SoundnessStep::Sound
    );
    assert_eq!(
        soundness_step(SoundnessStage::Verify, SoundnessEvent::Verified { accepted: true }),
        SoundnessStep::Next(SoundnessStage::CheckOutput)
    );
    assert_eq!(
        soundness_step(
            SoundnessStage::CheckOutput,
            SoundnessEvent::OutputChecked { satisfied: true }
        ),
        SoundnessStep::NotSound
    );
    assert_eq!(
        soundness_step(
            SoundnessStage::CheckOutput,
            SoundnessEvent::OutputChecked { satisfied: false }
        ),
        SoundnessStep::Sound
    );
}

#[test]
fn test_timed_range_reported_once() {
    let mut g = NvtxGuard::new("decompose".to_string(), 3);
    assert_eq!(g.description(), "decompose");
    assert_eq!(g.order(), 3);
    assert!(g.report_on_drop());
    assert!(g.pop());
    assert!(!g.pop());
    assert!(!g.report_on_drop());
}

#[test]
fn test_symmetric_matrix_ring_operations() {
    let m = SymmetricMatrix::from_rows(vec![vec![f17(1)], vec![f17(2), f17(3)]]);
    let full = m.to_matrix();
    assert_eq!(full, vec![vec![f17(1), f17(2)], vec![f17(2), f17(3)]]);
    assert!(m.eq_matrix(&full));
    assert!(!m.eq_matrix(&vec![vec![f17(1), f17(2)], vec![f17(5), f17(3)]]));
    assert_eq!(SymmetricMatrix::from_matrix(&full), m);
    let sum = m.add(&m);
    assert_eq!(sum.into_rows(), vec![vec![f17(2)], vec![f17(4), f17(6)]]);
    let scaled = m.mul_scalar(&f17(6));
    assert_eq!(scaled.rows(), &vec![vec![f17(6)], vec![f17(12), f17(1)]]);
    let z = SymmetricMatrix::<F17>::zero(2);
    assert_eq!(z.add(&m), m);
    let big = SymmetricMatrix::from_blocks(m.clone(), vec![vec![f17(7), f17(8)], vec![f17(9), f17(10)]], m.clone());
    assert_eq!(big.size(), 4);
    assert_eq!(*big.at(2, 1), f17(8));
    assert_eq!(*big.at(1, 3), f17(10));
    assert_eq!(*big.at(3, 2), f17(2));
    assert_eq!(*big.at(0, 0), f17(1));
}

#[test]
fn test_symmetric_matrix_layout() {
    let m = SymmetricMatrix::try_from_vec(vec![1u64, 2, 3, 4, 5, 6]).unwrap();
    assert_eq!(m.size(), 3);
    assert_eq!(*m.at(0, 2), 4);
    assert_eq!(m.diag(), vec![1, 3, 6]);
    assert_eq!(m.to_vec(), vec![1, 2, 3, 4, 5, 6]);
    assert!(SymmetricMatrix::try_from_vec(vec![1u64, 2, 3, 4, 5]).is_none());
    assert!(SymmetricMatrix::<u64>::try_from_vec(vec![]).is_none());
    let mut m2 = m.clone();
    m2.set(2, 0, 40);
    assert_eq!(*m2.at(0, 2), 40);
    *m2.at_mut(0, 1) = 50;
    assert_eq!(*m2.at(1, 0), 50);
    assert_eq!(m2.to_vec(), vec![1, 50, 3, 40, 5, 6]);
    let f = SymmetricMatrix::from_fn(3, |i, j| (10 * i + j) as u64);
    assert_eq!(*f.at(1, 2), 21);
    assert_eq!(SymmetricMatrix::from_par_fn(3, |i, j| (10 * i + j) as u64), f);
    let doubled = m.map(|x| x * 2);
    assert_eq!(doubled.diag(), vec![2, 6, 12]);
}

#[test]
fn test_random_witness_shape_and_bound() {
    let rng = &mut StdRng::seed_from_u64(7);
    let w = Witness::<P4>::rand(3, 5, 2, rng);
    assert_eq!(w.s.len(), 3);
    for v in &w.s {
        assert_eq!(v.len(), 5);
        for p in v {
            for c in p.coefficient_array() {
                let x = c.as_signed_representative();
                assert!(-2 <= x && x < 2, "coefficient {} out of [-2, 2)", x);
            }
        }
    }
}

#[test]
fn test_random_dummy_homogeneous_constraint() {
    let rng = &mut StdRng::seed_from_u64(1);
    let c = QuadraticConstraint::<P4>::new_dummy_homogeneous(3, 4, rng);
    assert_eq!(c.A.as_ref().map(|a| a.size()), Some(3));
    assert_eq!(c.phi.len(), 3);
    assert_eq!(c.phi[0].len(), 4);
    assert_eq!(c.phi[1], c.phi[0]);
    assert_eq!(c.phi[2], c.phi[0]);
    assert!(c.b.is_zero());
}

#[test]
fn test_random_instances() {
    let rng = &mut StdRng::seed_from_u64(3);
    let (i, x, w) = Rel::generate_random_satisfied_instance(Index::new(2, 3, 1000, 2, 1), 3, rng);
    assert_eq!(x.num_constraints(), 2);
    assert_eq!(x.num_const_constraints(), 1);
    assert!(Rel::is_satisfied(&i, &x, &w));
    let (i, x, w) = Rel::generate_random_unsatisfied_instance(Index::new(2, 3, 1000, 2, 2), 3, rng);
    assert!(!Rel::is_satisfied(&i, &x, &w));
    assert!(Rel::is_well_defined(&i, &x, Some(&w)));
    assert!(matches!(
        Rel::is_satisfied_err(&i, &x, &w),
        Err(RelationError::UnsatisfiedBoth(_, _))
    ));
}

#[test]
fn test_random_ring_elements() {
    let rng = &mut StdRng::seed_from_u64(11);
    let draws: Vec<F17> = (0..200).map(|_| <F17 as Ring>::rand(rng)).collect();
    assert!(draws.iter().all(|d| d.value() < 17));
    assert!((0..17).all(|v| draws.iter().any(|d| d.value() == v)));
    let polys: Vec<P4> = (0..3).map(|_| <P4 as PolyRing>::rand(rng)).collect();
    assert!(polys.iter().any(|p| !p.is_zero()));
    let m = SymmetricMatrix::<F17>::rand(4, rng);
    assert_eq!(m.size(), 4);
    assert_eq!(m.rows().iter().map(|r| r.len()).collect::<Vec<_>>(), vec![1, 2, 3, 4]);
}

#[test]
fn test_witness_from_samples() {
    let samples = vec![
        vec![vec![1i128, -1, 0, 2], vec![-2, 3, 0, 0]],
        vec![vec![0i128, 0, 0, 0], vec![5, -5, 1, -1]],
    ];
    let w = Witness::<P4>::from_samples(2, 2, &samples);
    assert_eq!(w.s.len(), 2);
    assert_eq!(values(&w.s[0][0]), vec![1, 16, 0, 2]);
    assert_eq!(values(&w.s[0][1]), vec![15, 3, 0, 0]);
    assert_eq!(values(&w.s[1][0]), vec![0, 0, 0, 0]);
    assert_eq!(values(&w.s[1][1]), vec![5, 12, 1, 16]);
    assert_eq!(Witness::<P4>::sample_range(3), (-3, 3));
}

#[test]
fn test_random_witness_draws_both_signs() {
    let rng = &mut StdRng::seed_from_u64(11);
    let w = Witness::<P4>::rand(2, 4, 3, rng);
    let all: Vec<u64> = w.s.iter().flatten().flat_map(|p| values(p)).collect();
    // residues of integers in [-3, 3): 0, 1, 2 and 14, 15, 16
    assert!(all.iter().all(|v| *v <= 2 || *v >= 14));
    assert!(all.iter().any(|v| *v >= 14));
    assert!(all.iter().any(|v| *v >= 1 && *v <= 2));
}
