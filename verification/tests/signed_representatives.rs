use lattirust::fq::Fq;
use lattirust::ring::Ring;
use lattirust::signed_representative::SignedRepresentative;

type F17 = Fq<17>;
type S17 = SignedRepresentative<17>;

fn all_f17() -> Vec<F17> {
    (0..17).map(F17::from_u64).collect()
}

fn s(x: i128) -> S17 {
    S17::new(x)
}

#[test]
fn test_signed_representative_range() {
    assert_eq!(S17::modulus(), 17);
    assert_eq!(S17::min_inclusive(), -8);
    assert_eq!(S17::max_inclusive(), 8);
    assert_eq!(SignedRepresentative::<3329>::max_inclusive(), 1664);
    assert_eq!(S17::from_fq(F17::from_u64(9)), s(-8));
    assert_eq!(S17::from_fq(F17::from_u64(8)), s(8));
    assert_eq!(S17::from_fq(F17::from_u64(16)), s(-1));
    // A residue of a smaller modulus keeps its own centring.
    assert_eq!(S17::from_fq(Fq::<5>::from_u64(3)), s(-2));
    assert_eq!(s(-2).to_fq::<17>(), F17::from_u64(15));
    assert_eq!(s(-2).to_fq::<19>(), Fq::<19>::from_u64(17));
}

#[test]
fn test_signed_representative_from_into() {
    for a in all_f17() {
        assert_eq!(S17::from_fq(a).to_fq::<17>(), a);
    }
}

#[test]
fn test_signed_representative_field_operations() {
    for a in all_f17() {
        for b in all_f17() {
            let sa = S17::from_fq(a);
            let sb = S17::from_fq(b);
            assert_eq!(sa.add(sb).to_fq::<17>(), a.add(&b));
            assert_eq!(sa.sub(sb).to_fq::<17>(), a.sub(&b));
            assert_eq!(sa.mul(sb).to_fq::<17>(), a.mul(&b));
            for r in [sa.add(sb), sa.sub(sb), sa.mul(sb)] {
                assert!(r.0 >= -8 && r.0 <= 8);
            }
        }
    }
}

#[test]
fn test_signed_representative_div_rem() {
    assert_eq!(s(7).div(s(2)), s(3));
    assert_eq!(s(-7).div(s(2)), s(-3));
    assert_eq!(s(7).div(s(-2)), s(-3));
    assert_eq!(s(-7).div(s(-2)), s(3));
    assert_eq!(s(7).rem(s(2)), s(1));
    assert_eq!(s(-7).rem(s(2)), s(-1));
    assert_eq!(s(7).rem(s(-2)), s(1));
    assert_eq!(s(-7).rem(s(-2)), s(-1));
    for a in -8..=8 {
        for b in -8..=8 {
            if b != 0 {
                let (sa, sb) = (s(a), s(b));
                let recomposed = sb.mul(sa.div(sb)).add(sa.rem(sb));
                assert_eq!(recomposed, sa);
            }
        }
    }
}

#[test]
fn test_signed_representative_rounded_div() {
    assert_eq!(s(7).rounded_div(s(2)), s(4));
    assert_eq!(s(-7).rounded_div(s(2)), s(-4));
    assert_eq!(s(5).rounded_div(s(3)), s(2));
    assert_eq!(s(4).rounded_div(s(3)), s(1));
    assert_eq!(s(-4).rounded_div(s(-3)), s(1));
    assert_eq!(s(7).rounded_div(s(-2)), s(-4));
    for a in -8..=8 {
        for b in -8..=8 {
            if b != 0 {
                let (sa, sb) = (s(a), s(b));
                let q = sa.rounded_div(sb);
                let diff = sa.sub(sb.mul(q)).0;
                assert!(diff.abs() <= b.abs() / 2, "a = {}, b = {}", a, b);
            }
        }
    }
}

#[test]
fn test_signed_representative_wraps() {
    assert_eq!(s(8).add(s(1)), s(-8));
    assert_eq!(s(-8).sub(s(1)), s(8));
    assert_eq!(s(5).mul(s(5)), s(8));
    assert_eq!(s(-5).mul(s(4)), s(-3));
    assert_eq!(s(3).neg(), s(-3));
}

#[test]
fn test_signed_representative_signed_functions() {
    assert_eq!(s(-5).abs(), s(5));
    assert_eq!(s(5).abs_sub(&s(-3)), s(8));
    assert_eq!(s(-3).abs_sub(&s(5)), s(0));
    assert_eq!(s(-5).signum(), s(-1));
    assert_eq!(s(0).signum(), s(0));
    assert_eq!(s(4).signum(), s(1));
    assert!(s(4).is_positive());
    assert!(!s(0).is_positive());
    assert!(s(-4).is_negative());
    assert!(S17::zero().is_zero());
    assert_eq!(S17::one(), s(1));
    assert!(s(-1) < s(1));
}

#[test]
fn test_signed_representative_try_from_and_parse() {
    assert_eq!(S17::try_from_i128(8), Ok(s(8)));
    assert_eq!(S17::try_from_i128(-8), Ok(s(-8)));
    assert_eq!(S17::try_from_i128(9), Err(()));
    assert_eq!(S17::try_from_i128(-9), Err(()));
    assert_eq!(S17::from_str_radix("-5", 10), Ok(s(-5)));
    assert_eq!(S17::from_str_radix("+7", 10), Ok(s(7)));
    assert_eq!(S17::from_str_radix("f", 16), Err(()));
    assert_eq!(S17::from_str_radix("8", 16), Ok(s(8)));
    assert_eq!(S17::from_str_radix("-1_0", 2), Ok(s(-2)));
    assert_eq!(S17::from_str_radix("x", 10), Err(()));
    assert_eq!(S17::from_str_radix("", 10), Err(()));
    assert_eq!(
        S17::from_str_radix("100000000000000000000000000000000000000000", 10),
        Err(())
    );
}

#[test]
fn test_parse_grammar_edges() {
    // One sign, then digits of the base with underscores after the first digit.
    assert_eq!(S17::from_str_radix("-+5", 10), Err(()));
    assert_eq!(S17::from_str_radix("++5", 10), Err(()));
    assert_eq!(S17::from_str_radix("+-5", 10), Err(()));
    assert_eq!(S17::from_str_radix("_1", 10), Err(()));
    assert_eq!(S17::from_str_radix("-_1", 10), Err(()));
    assert_eq!(S17::from_str_radix("-", 10), Err(()));
    assert_eq!(S17::from_str_radix("1__", 10), Ok(s(1)));
    assert_eq!(S17::from_str_radix("-0", 10), Ok(s(0)));
    assert_eq!(S17::from_str_radix("A", 16), Err(()));
    assert_eq!(S17::from_str_radix("7", 16), Ok(s(7)));
    assert_eq!(S17::from_str_radix("-8", 36), Ok(s(-8)));
    assert_eq!(S17::from_str_radix("12", 2), Err(()));
}
