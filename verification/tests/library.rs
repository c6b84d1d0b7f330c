use dusk_plonk::fft::EvaluationDomain;
use dusk_plonk::prelude::BlsScalar;
use recovery::domain::Domain;
use recovery::field::Scalar;
use recovery::recovery::reconstruct_poly;

const MODULUS_LIMBS: [u64; 4] = [
    0xffffffff00000001,
    0x53bda402fffe5bfe,
    0x3339d80809a1d805,
    0x73eda753299d7d48,
];

fn to_scalar(b: &BlsScalar) -> Scalar {
    Scalar::from_limbs(b.reduce().0).unwrap()
}

fn to_bls(s: &Scalar) -> BlsScalar {
    BlsScalar::from_raw(s.to_limbs())
}

fn coded_data(domain_size: usize) -> Vec<BlsScalar> {
    let eval_domain = EvaluationDomain::new(domain_size).unwrap();
    let mut src: Vec<BlsScalar> = Vec::new();
    for i in 0..domain_size / 2 {
        src.push(BlsScalar::from(3 * i as u64 + 7));
    }
    eval_domain.fft(&src)
}

#[test]
fn scalar_limbs_below_modulus_only() {
    assert!(Scalar::from_limbs(MODULUS_LIMBS).is_none());
    assert!(Scalar::from_limbs([u64::MAX; 4]).is_none());
    let mut below = MODULUS_LIMBS;
    below[0] -= 1;
    let s = Scalar::from_limbs(below).unwrap();
    assert_eq!(s.to_limbs(), below);
    assert_eq!(Scalar::from_limbs([5, 0, 0, 0]).unwrap().to_limbs(), Scalar::from_u64(5).to_limbs());
}

#[test]
fn scalar_zero_and_one() {
    assert!(Scalar::zero().is_zero());
    assert!(!Scalar::zero().is_one());
    assert!(Scalar::one().is_one());
    assert!(!Scalar::one().is_zero());
    assert!(!Scalar::from_u64(2).is_one());
    assert_eq!(to_bls(&Scalar::one()), BlsScalar::one());
    assert_eq!(to_bls(&Scalar::from_u64(42)), BlsScalar::from(42u64));
}

#[test]
fn domain_sizes_round_up_to_powers_of_two() {
    assert_eq!(Domain::new(0).unwrap().size(), 1);
    assert_eq!(Domain::new(1).unwrap().size(), 1);
    assert_eq!(Domain::new(5).unwrap().size(), 8);
    assert_eq!(Domain::new(32).unwrap().size(), 32);
    assert!(Domain::new((1usize << 31) + 1).is_none());
}

#[test]
fn domain_generator_matches() {
    let domain = Domain::new(32).unwrap();
    let eval_domain = EvaluationDomain::new(32).unwrap();
    assert_eq!(to_bls(&domain.group_gen()), eval_domain.group_gen);
}

// every value available: the values come back unchanged
#[test]
fn reconstruction_with_nothing_missing() {
    let coded = coded_data(8);
    let subset: Vec<Option<Scalar>> = coded.iter().map(|b| Some(to_scalar(b))).collect();
    let recovered = reconstruct_poly(Domain::new(8).unwrap(), subset).unwrap();
    assert_eq!(recovered.len(), 8);
    for i in 0..8 {
        assert_eq!(to_bls(&recovered[i]), coded[i]);
    }
}

// exactly half of the values available, every other one
#[test]
fn reconstruction_from_exactly_half() {
    let coded = coded_data(16);
    let subset: Vec<Option<Scalar>> = coded
        .iter()
        .enumerate()
        .map(|(i, b)| if i % 2 == 0 { Some(to_scalar(b)) } else { None })
        .collect();
    let recovered = reconstruct_poly(Domain::new(16).unwrap(), subset).unwrap();
    for i in 0..16 {
        assert_eq!(to_bls(&recovered[i]), coded[i]);
    }
}

// the first half missing
#[test]
fn reconstruction_with_leading_half_missing() {
    let coded = coded_data(16);
    let subset: Vec<Option<Scalar>> = coded
        .iter()
        .enumerate()
        .map(|(i, b)| if i >= 8 { Some(to_scalar(b)) } else { None })
        .collect();
    let recovered = reconstruct_poly(Domain::new(16).unwrap(), subset).unwrap();
    for i in 0..16 {
        assert_eq!(to_bls(&recovered[i]), coded[i]);
    }
}

// a domain of one element
#[test]
fn reconstruction_over_a_single_point() {
    let subset = vec![Some(Scalar::from_u64(9))];
    let recovered = reconstruct_poly(Domain::new(1).unwrap(), subset).unwrap();
    assert_eq!(recovered.len(), 1);
    assert_eq!(recovered[0].to_limbs(), [9, 0, 0, 0]);
}

// fewer positions than domain elements: the empty position's domain element
// is not a root of the zero polynomial
#[test]
fn reconstruction_reports_bad_zero_poly_evaluation() {
    let subset = vec![Some(Scalar::one()), None];
    let res = reconstruct_poly(Domain::new(4).unwrap(), subset);
    assert_eq!(res, Err("bad zero poly evaluation !".to_owned()));
}

// fewer positions than domain elements, none of them empty: no check fails
#[test]
fn reconstruction_with_fewer_positions_than_domain_elements() {
    let subset = vec![Some(Scalar::from_u64(4)), Some(Scalar::from_u64(4))];
    let recovered = reconstruct_poly(Domain::new(4).unwrap(), subset).unwrap();
    // the given values come back, followed by zeros for the other domain elements
    assert_eq!(recovered.len(), 4);
    assert_eq!(recovered[0].to_limbs(), [4, 0, 0, 0]);
    assert_eq!(recovered[1].to_limbs(), [4, 0, 0, 0]);
    assert_eq!(recovered[2].to_limbs(), [0, 0, 0, 0]);
    assert_eq!(recovered[3].to_limbs(), [0, 0, 0, 0]);
}

// every position empty: the zero polynomial is X^n - 1, which the transform
// cuts to -1, so the check at the first empty position fails
#[test]
fn reconstruction_with_every_position_empty() {
    let subset: Vec<Option<Scalar>> = vec![None; 4];
    let res = reconstruct_poly(Domain::new(4).unwrap(), subset);
    assert_eq!(res, Err("bad zero poly evaluation !".to_owned()));
}

fn coded_from(coeffs: &[u64], domain_size: usize) -> Vec<BlsScalar> {
    let eval_domain = EvaluationDomain::new(domain_size).unwrap();
    let src: Vec<BlsScalar> = coeffs.iter().map(|c| BlsScalar::from(*c)).collect();
    eval_domain.fft(&src)
}

// a polynomial of degree one comes back from two values out of eight
#[test]
fn reconstruction_from_few_values_of_low_degree() {
    let coded = coded_from(&[11, 4], 8);
    let subset: Vec<Option<Scalar>> = coded
        .iter()
        .enumerate()
        .map(|(i, b)| if i == 2 || i == 5 { Some(to_scalar(b)) } else { None })
        .collect();
    let recovered = reconstruct_poly(Domain::new(8).unwrap(), subset).unwrap();
    for i in 0..8 {
        assert_eq!(to_bls(&recovered[i]), coded[i]);
    }
}

// a polynomial of degree two does not come back from two values
#[test]
fn reconstruction_from_too_few_values_differs() {
    let coded = coded_from(&[11, 4, 9], 8);
    let subset: Vec<Option<Scalar>> = coded
        .iter()
        .enumerate()
        .map(|(i, b)| if i == 2 || i == 5 { Some(to_scalar(b)) } else { None })
        .collect();
    let recovered = reconstruct_poly(Domain::new(8).unwrap(), subset).unwrap();
    let mismatches = (0..8).filter(|i| to_bls(&recovered[*i]) != coded[*i]).count();
    assert!(mismatches > 0);
}

// for one pattern of empty positions, reconstruction is linear
#[test]
fn reconstruction_is_linear() {
    let a = coded_from(&[1, 2, 3, 4, 5, 6, 7, 8], 8);
    let b = coded_from(&[8, 1, 6, 3, 4, 5, 2, 7], 8);
    let pattern = |i: usize| i % 3 != 1;
    let s1: Vec<Option<Scalar>> =
        (0..8).map(|i| if pattern(i) { Some(to_scalar(&a[i])) } else { None }).collect();
    let s2: Vec<Option<Scalar>> =
        (0..8).map(|i| if pattern(i) { Some(to_scalar(&b[i])) } else { None }).collect();
    let three = BlsScalar::from(3u64);
    let five = BlsScalar::from(5u64);
    let s3: Vec<Option<Scalar>> = (0..8)
        .map(|i| if pattern(i) { Some(to_scalar(&(three * a[i] + five * b[i]))) } else { None })
        .collect();
    let domain = || Domain::new(8).unwrap();
    let r1 = reconstruct_poly(domain(), s1).unwrap();
    let r2 = reconstruct_poly(domain(), s2).unwrap();
    let r3 = reconstruct_poly(domain(), s3).unwrap();
    for i in 0..8 {
        assert_eq!(to_bls(&r3[i]), three * to_bls(&r1[i]) + five * to_bls(&r2[i]));
    }
}

// fewer positions than domain elements with an empty position whose check
// passes: reconstruction runs to its end
#[test]
fn reconstruction_shorter_than_domain_with_a_passing_empty_position() {
    let subset = vec![None, Some(Scalar::from_u64(7))];
    let recovered = reconstruct_poly(Domain::new(4).unwrap(), subset).unwrap();
    assert_eq!(recovered.len(), 4);
}
