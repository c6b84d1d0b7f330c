use dusk_bytes::Serializable;
use dusk_plonk::fft::EvaluationDomain;
use dusk_plonk::prelude::BlsScalar;
use rand::rngs::StdRng;
use rand::{Rng, SeedableRng};
use recovery::domain::Domain;
use recovery::field::Scalar;
use recovery::recovery::reconstruct_poly;
use std::convert::TryInto;
use std::time::{SystemTime, UNIX_EPOCH};

fn to_scalar(b: &BlsScalar) -> Scalar {
    Scalar::from_limbs(b.reduce().0).unwrap()
}

fn to_bls(s: &Scalar) -> BlsScalar {
    BlsScalar::from_raw(s.to_limbs())
}

fn to_subset(data: &[Option<BlsScalar>]) -> Vec<Option<Scalar>> {
    data.iter().map(|v| v.as_ref().map(to_scalar)).collect()
}

fn reconstruct(domain_size: usize, subset: &[Option<BlsScalar>]) -> Vec<BlsScalar> {
    let domain = Domain::new(domain_size).unwrap();
    reconstruct_poly(domain, to_subset(subset)).unwrap().iter().map(to_bls).collect()
}

fn drop_few(data: &mut [Option<BlsScalar>], mut available: usize) {
    assert!(available <= data.len());

    let mut idx = 0;
    while available >= data.len() / 2 {
        if let Some(_) = data[idx] {
            data[idx] = None;
            available -= 1;
        }
        idx += 1;
    }
}

// a random subset holding at least half of the coded data
fn random_subset(data: &[BlsScalar]) -> (Vec<Option<BlsScalar>>, usize) {
    let mut rng = StdRng::seed_from_u64(
        SystemTime::now()
            .duration_since(UNIX_EPOCH)
            .unwrap()
            .as_secs(),
    );
    let mut subset: Vec<Option<BlsScalar>> = Vec::with_capacity(data.len());
    let mut available = 0;
    for i in 0..data.len() {
        if rng.gen::<u8>() % 2 == 0 {
            subset.push(Some(data[i]));
            available += 1;
        } else {
            subset.push(None);
        }
    }

    if available >= data.len() / 2 {
        (subset, available)
    } else {
        for i in 0..data.len() {
            if let None = subset[i] {
                if available >= data.len() / 2 {
                    break;
                }

                subset[i] = Some(data[i]);
                available += 1;
            }
        }
        (subset, available)
    }
}

fn wide_input(input: &[u8; 32]) -> [u8; 64] {
    let mut v = vec![];
    v.extend_from_slice(&input.to_vec()[..]);
    v.extend_from_slice(&[0u8; 32].to_vec()[..]);
    v.try_into().unwrap()
}

fn check_round_trip_of_bytes(input: [u8; 32]) {
    let domain_size = 1usize << 4;
    let eval_domain = EvaluationDomain::new(domain_size * 2).unwrap();

    let input_wide = wide_input(&input);

    let mut src: Vec<BlsScalar> = Vec::with_capacity(domain_size * 2);
    for _ in 0..domain_size {
        src.push(BlsScalar::from_bytes_wide(&input_wide));
    }
    for _ in domain_size..(2 * domain_size) {
        src.push(BlsScalar::zero());
    }

    let coded_src = eval_domain.fft(&src);
    let (coded_src_subset, _) = random_subset(&coded_src);
    let coded_recovered = reconstruct(domain_size * 2, &coded_src_subset);

    for i in 0..(2 * domain_size) {
        assert_eq!(coded_src[i], coded_recovered[i]);
    }

    let dst = eval_domain.ifft(&coded_recovered);

    for i in 0..domain_size {
        assert_eq!(input, dst[i].to_bytes(), "{}", format!("at i = {}", i));
    }
    for i in domain_size..(2 * domain_size) {
        assert_eq!([0u8; 32], dst[i].to_bytes(), "{}", format!("at i = {}", i));
    }
}

#[test]
fn data_reconstruction_success() {
    let domain_size = 1usize << 4;
    let eval_domain = EvaluationDomain::new(domain_size * 2).unwrap();

    let mut src: Vec<BlsScalar> = Vec::with_capacity(domain_size * 2);
    for i in 0..domain_size {
        src.push(BlsScalar::from(1 << (i + 1)));
    }
    for _ in domain_size..(2 * domain_size) {
        src.push(BlsScalar::zero());
    }

    let coded_src = eval_domain.fft(&src);
    let (coded_src_subset, _) = random_subset(&coded_src);
    let coded_recovered = reconstruct(domain_size * 2, &coded_src_subset);

    for i in 0..(2 * domain_size) {
        assert_eq!(coded_src[i], coded_recovered[i]);
    }

    let dst = eval_domain.ifft(&coded_recovered);

    for i in 0..(2 * domain_size) {
        assert_eq!(src[i].to_bytes(), dst[i].to_bytes());
    }
}

#[test]
fn data_reconstruction_failure_0() {
    let domain_size = 1usize << 4;
    let eval_domain = EvaluationDomain::new(domain_size * 2).unwrap();

    let mut src: Vec<BlsScalar> = Vec::with_capacity(domain_size * 2);
    for i in 0..domain_size {
        src.push(BlsScalar::from(1 << (i + 1)));
    }
    for _ in domain_size..(2 * domain_size) {
        src.push(BlsScalar::zero());
    }

    let coded_src = eval_domain.fft(&src);
    let (mut coded_src_subset, available) = random_subset(&coded_src);
    // fewer than half of the coded values stay available
    drop_few(&mut coded_src_subset, available);
    let coded_recovered = reconstruct(domain_size * 2, &coded_src_subset);

    let mut mismatch_count = 0;
    for i in 0..(2 * domain_size) {
        if coded_src[i] != coded_recovered[i] {
            mismatch_count += 1;
        }
    }

    assert!(mismatch_count > 0);
}

// 32 bytes of 0xff exceed the modulus, so the value wraps around and the
// bytes do not come back
#[test]
#[should_panic]
fn data_reconstruction_failure_1() {
    check_round_trip_of_bytes([0xffu8; 32]);
}

// clearing the top two bits brings the value below the modulus
#[test]
fn data_reconstruction_failure_2() {
    let mut input = [0xffu8; 32];
    input[31] &= 0b0011_1111;
    check_round_trip_of_bytes(input);
}

// 255 set bits still exceed the modulus
#[test]
#[should_panic]
fn data_reconstruction_failure_3() {
    let mut input = [0xffu8; 32];
    input[31] &= 0b0111_1111;
    check_round_trip_of_bytes(input);
}
