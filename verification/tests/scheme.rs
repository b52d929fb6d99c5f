use ark_ec::{AffineCurve, PairingEngine as _, ProjectiveCurve};
use ark_ff::{BigInteger256, BigInteger384, Field, One, PrimeField, UniformRand, Zero};
use ark_poly::univariate::DensePolynomial as ArkPolynomial;
use ark_poly::{Polynomial, UVPolynomial};
use ark_std::test_rng;
use kzg10::bls12_381::fr::Fr;
use kzg10::bls12_381::g1::{G1Affine, G1Projective};
use kzg10::bls12_381::g2::{G2Affine, G2Projective};
use kzg10::bls12_381::pairing::Bls12_381;
use kzg10::engine::PairingEngine;
use kzg10::kzg::{Error, Powers, PreparedVerifierKey, UniversalParams, KZG10};
use kzg10::polynomial::DensePolynomial;
use rand::rngs::StdRng;
use rand::SeedableRng;

type Scheme = KZG10<Bls12_381>;

type ArkFr = ark_bls12_381::Fr;

fn fr(x: u64) -> Fr {
    Fr::from_limbs([x, 0, 0, 0]).unwrap()
}

fn fr_from_ark(x: ArkFr) -> Fr {
    Fr::from_limbs(x.into_repr().0).unwrap()
}

fn fr_to_ark(x: &Fr) -> ArkFr {
    ArkFr::from_repr(BigInteger256(x.limbs())).unwrap()
}

fn g1_from_ark(p: ark_bls12_381::G1Affine) -> G1Affine {
    if p.is_zero() {
        G1Affine::zero()
    } else {
        G1Affine::from_coordinates(p.x.into_repr().0, p.y.into_repr().0).unwrap()
    }
}

fn g1_to_ark(p: &G1Affine) -> ark_bls12_381::G1Affine {
    match p.coordinates() {
        None => ark_bls12_381::G1Affine::zero(),
        Some((x, y)) => {
            let [x, y] =
                [x, y].map(|c| ark_bls12_381::Fq::from_repr(BigInteger384(c)).unwrap());
            ark_bls12_381::G1Affine::new(x, y, false)
        }
    }
}

fn g2_from_ark(p: ark_bls12_381::G2Affine) -> G2Affine {
    let [x, y] = [p.x, p.y].map(|c| [c.c0.into_repr().0, c.c1.into_repr().0]);
    G2Affine::from_coordinates(x, y).unwrap()
}

fn g2_to_ark(p: &G2Affine) -> ark_bls12_381::G2Affine {
    let (x, y) = p.coordinates().unwrap();
    let [x, y] = [x, y].map(|c| {
        let [a, b] = c.map(|c| ark_bls12_381::Fq::from_repr(BigInteger384(c)).unwrap());
        ark_bls12_381::Fq2::new(a, b)
    });
    ark_bls12_381::G2Affine::new(x, y, false)
}

fn generators() -> (G1Projective, G2Projective) {
    let g = g1_from_ark(ark_bls12_381::G1Affine::prime_subgroup_generator());
    let h = g2_from_ark(ark_bls12_381::G2Affine::prime_subgroup_generator());
    (Bls12_381::g1_mul(&g, &Fr::one()), Bls12_381::g2_mul(&h, &Fr::one()))
}

/// `k` times the generator of `G1`.
fn multiple(k: ArkFr) -> G1Affine {
    let g = ark_bls12_381::G1Affine::prime_subgroup_generator();
    g1_from_ark(g.mul(k).into_affine())
}

fn params(max_degree: usize, beta: u64) -> UniversalParams<Bls12_381> {
    let (g, h) = generators();
    Scheme::setup_with(max_degree, &fr(beta), &g, &h).unwrap()
}

fn powers_of(pp: &UniversalParams<Bls12_381>) -> Powers<Bls12_381> {
    Powers { powers_of_g: pp.powers_of_g.clone() }
}

fn key_of(pp: &UniversalParams<Bls12_381>) -> PreparedVerifierKey<Bls12_381> {
    PreparedVerifierKey::new(pp.powers_of_g[0], &pp.h, &pp.beta_h)
}

fn poly(coeffs: &[u64]) -> DensePolynomial<Bls12_381> {
    DensePolynomial::from_coefficients_vec(coeffs.iter().map(|c| fr(*c)).collect())
}

fn poly_from_ark(p: &ArkPolynomial<ArkFr>) -> DensePolynomial<Bls12_381> {
    DensePolynomial::from_coefficients_vec(p.coeffs.iter().map(|c| fr_from_ark(*c)).collect())
}

/// A batch of openings of random polynomials of degree `degree` at random points.
struct Batch {
    commitments: Vec<G1Affine>,
    points: Vec<Fr>,
    values: Vec<Fr>,
    proofs: Vec<G1Affine>,
}

fn random_batch(powers: &Powers<Bls12_381>, degree: usize, n: usize, rng: &mut StdRng) -> Batch {
    let mut batch = Batch {
        commitments: Vec::new(),
        points: Vec::new(),
        values: Vec::new(),
        proofs: Vec::new(),
    };
    for _ in 0..n {
        let p = ArkPolynomial::<ArkFr>::rand(degree, rng);
        let point = ArkFr::rand(rng);
        let value = p.evaluate(&point);
        let p = poly_from_ark(&p);
        batch.commitments.push(Scheme::commit(powers, &p).unwrap());
        batch.points.push(fr_from_ark(point));
        batch.values.push(fr_from_ark(value));
        batch.proofs.push(Scheme::open(powers, &p, fr_from_ark(point)).unwrap());
    }
    batch
}

fn check(vk: &PreparedVerifierKey<Bls12_381>, batch: &Batch, rng: &mut StdRng) -> bool {
    Scheme::batch_check(
        vk,
        &batch.commitments,
        &batch.points,
        &batch.values,
        &batch.proofs,
        rng,
    )
    .unwrap()
}

fn check_with(vk: &PreparedVerifierKey<Bls12_381>, batch: &Batch, draws: &[u128]) -> bool {
    Scheme::batch_check_with(
        vk,
        &batch.commitments,
        &batch.points,
        &batch.values,
        &batch.proofs,
        draws,
    )
    .unwrap()
}

#[test]
fn setup_of_degree_zero_is_an_error() {
    let mut rng = StdRng::seed_from_u64(1);
    assert_eq!(Scheme::setup(0, &mut rng).unwrap_err(), Error::DegreeIsZero);
    let (g, h) = generators();
    assert_eq!(Scheme::setup_with(0, &fr(3), &g, &h).unwrap_err(), Error::DegreeIsZero);
}

#[test]
fn nothing_is_drawn_without_need() {
    let mut rng = StdRng::seed_from_u64(21);
    let before = rng.clone();
    assert!(Scheme::setup(0, &mut rng).is_err());
    assert_eq!(rng, before);
    let vk = key_of(&params(2, 3));
    Scheme::aggregate_openings(&vk, &[], &[], &[], &[], &mut rng);
    assert!(Scheme::batch_check(&vk, &[], &[], &[], &[], &mut rng).unwrap());
    assert_eq!(rng, before);
    assert!(Scheme::setup(1, &mut rng).is_ok());
    assert_ne!(rng, before);
}

#[test]
fn setup_with_a_known_secret() {
    let pp = params(4, 3);
    let expected: Vec<G1Affine> =
        [1u64, 3, 9, 27, 81].iter().map(|k| multiple(ArkFr::from(*k))).collect();
    assert_eq!(pp.powers_of_g, expected);
    let h = ark_bls12_381::G2Affine::prime_subgroup_generator();
    assert_eq!(g2_to_ark(&pp.h), h);
    assert_eq!(g2_to_ark(&pp.beta_h), h.mul(ArkFr::from(3u64)).into_affine());
}

#[test]
fn setup_of_the_least_degree() {
    let pp = params(1, 5);
    assert_eq!(pp.powers_of_g, vec![multiple(ArkFr::one()), multiple(ArkFr::from(5u64))]);
}

#[test]
fn setup_with_secret_zero() {
    let pp = params(2, 0);
    assert_eq!(pp.powers_of_g, vec![multiple(ArkFr::one()), G1Affine::zero(), G1Affine::zero()]);
    assert_eq!(pp.beta_h.coordinates(), None);
}

#[test]
fn setup_with_many_powers() {
    // With 32 powers or more another size of window is chosen.
    let mut rng = StdRng::seed_from_u64(2);
    let beta = ArkFr::rand(&mut rng);
    let (g, h) = generators();
    let pp = Scheme::setup_with(40, &fr_from_ark(beta), &g, &h).unwrap();
    assert_eq!(pp.powers_of_g.len(), 41);
    for i in 0..41u64 {
        assert_eq!(pp.powers_of_g[i as usize], multiple(beta.pow([i])));
    }
}

#[test]
fn setup_is_consistent() {
    let mut rng = StdRng::seed_from_u64(3);
    let pp = Scheme::setup(5, &mut rng).unwrap();
    assert_eq!(pp.powers_of_g.len(), 6);
    let (h, beta_h) = (g2_to_ark(&pp.h), g2_to_ark(&pp.beta_h));
    for i in 0..5 {
        let (p, q) = (g1_to_ark(&pp.powers_of_g[i]), g1_to_ark(&pp.powers_of_g[i + 1]));
        assert_eq!(
            ark_bls12_381::Bls12_381::pairing(p, beta_h),
            ark_bls12_381::Bls12_381::pairing(q, h)
        );
    }
}

#[test]
fn setup_draws_the_secret_and_then_the_generators() {
    let pp = Scheme::setup(3, &mut StdRng::seed_from_u64(4)).unwrap();
    let mut rng = StdRng::seed_from_u64(4);
    let beta = ArkFr::rand(&mut rng);
    let g = ark_bls12_381::G1Projective::rand(&mut rng);
    let h = ark_bls12_381::G2Projective::rand(&mut rng);
    for i in 0..4u64 {
        let expected = g.mul(beta.pow([i]).into_repr()).into_affine();
        assert_eq!(g1_to_ark(&pp.powers_of_g[i as usize]), expected);
    }
    assert_eq!(g2_to_ark(&pp.h), h.into_affine());
    assert_eq!(g2_to_ark(&pp.beta_h), h.mul(beta.into_repr()).into_affine());
}

#[test]
fn commitment_is_the_value_at_the_secret() {
    let powers = powers_of(&params(4, 3));
    // 5 + 7 * 3^2 is 68.
    let c = Scheme::commit(&powers, &poly(&[5, 0, 7])).unwrap();
    assert_eq!(c, multiple(ArkFr::from(68u64)));
}

#[test]
fn commitment_skips_leading_zeros() {
    let powers = powers_of(&params(4, 3));
    // 4 * 3^2 + 3^4 is 117.
    let c = Scheme::commit(&powers, &poly(&[0, 0, 4, 0, 1])).unwrap();
    assert_eq!(c, multiple(ArkFr::from(117u64)));
}

#[test]
fn commitment_to_the_zero_polynomial() {
    let powers = powers_of(&params(4, 3));
    assert_eq!(Scheme::commit(&powers, &poly(&[])).unwrap(), G1Affine::zero());
    assert_eq!(Scheme::commit(&powers, &poly(&[0, 0])).unwrap(), G1Affine::zero());
}

#[test]
fn commitment_without_powers() {
    let powers = Powers { powers_of_g: Vec::new() };
    assert_eq!(powers.size(), 0);
    assert_eq!(Scheme::commit(&powers, &poly(&[])).unwrap(), G1Affine::zero());
    // A constant has a coefficient, and there is no power for it.
    assert_eq!(
        Scheme::commit(&powers, &poly(&[9])).unwrap_err(),
        Error::TooManyCoefficients { num_coefficients: 0, num_powers: 0 }
    );
    // Its witness has none.
    assert_eq!(Scheme::open(&powers, &poly(&[9]), fr(2)).unwrap(), G1Affine::zero());
    assert_eq!(
        Scheme::commit(&powers, &poly(&[9, 1])).unwrap_err(),
        Error::TooManyCoefficients { num_coefficients: 1, num_powers: 0 }
    );
}

#[test]
fn polynomial_of_too_large_a_degree_is_an_error() {
    let powers = powers_of(&params(2, 3));
    let p = poly(&[1, 2, 3, 4, 5]);
    let e = Error::TooManyCoefficients { num_coefficients: 4, num_powers: 3 };
    assert_eq!(Scheme::commit(&powers, &p).unwrap_err(), e);
    assert_eq!(Scheme::open(&powers, &p, fr(2)).unwrap_err(), e);
}

#[test]
fn degree_equal_to_the_number_of_powers() {
    // The leading coefficient has no power.
    let powers = powers_of(&params(2, 3));
    let e = Error::TooManyCoefficients { num_coefficients: 3, num_powers: 3 };
    assert_eq!(Scheme::commit(&powers, &poly(&[1, 2, 3, 4])).unwrap_err(), e);
    assert_eq!(Scheme::commit(&powers, &poly(&[0, 0, 0, 1])).unwrap_err(), e);
    assert!(Scheme::commit(&powers, &poly(&[1, 2, 3])).is_ok());
    // The quotient of X^3 by X - 1 is X^2 + X + 1, which fits.
    let w = Scheme::open(&powers, &poly(&[0, 0, 0, 1]), fr(1)).unwrap();
    assert_eq!(w, multiple(ArkFr::from(13u64)));
}

#[test]
fn degree_above_the_one_of_setup_is_an_error() {
    let mut rng = StdRng::seed_from_u64(20);
    for d in 1..6usize {
        let powers = powers_of(&Scheme::setup(d, &mut rng).unwrap());
        let fits = ArkPolynomial::<ArkFr>::rand(d, &mut rng);
        assert!(Scheme::commit(&powers, &poly_from_ark(&fits)).is_ok());
        let large = ArkPolynomial::<ArkFr>::rand(d + 1, &mut rng);
        assert_eq!(
            Scheme::commit(&powers, &poly_from_ark(&large)).unwrap_err(),
            Error::TooManyCoefficients { num_coefficients: d + 1, num_powers: d + 1 }
        );
    }
}

#[test]
fn commitments_to_multiples() {
    // The commitment to f * p is f times the commitment to p.
    let mut rng = test_rng();
    let p = ArkPolynomial::<ArkFr>::rand(4, &mut rng);
    let f = ArkFr::rand(&mut rng);
    let mut f_p = ArkPolynomial::<ArkFr>::zero();
    f_p += (f, &p);
    let powers = powers_of(&Scheme::setup(4, &mut rng).unwrap());
    let comm = Scheme::commit(&powers, &poly_from_ark(&p)).unwrap();
    let f_comm = Scheme::commit(&powers, &poly_from_ark(&f_p)).unwrap();
    assert_eq!(g1_to_ark(&f_comm), g1_to_ark(&comm).mul(f).into_affine());
    assert_eq!(
        f_comm,
        Bls12_381::g1_into_affine(&Bls12_381::g1_mul(&comm, &fr_from_ark(f)))
    );
}

#[test]
fn commitments_to_sums() {
    let powers = powers_of(&params(4, 7));
    let p = Scheme::commit(&powers, &poly(&[1, 2, 3])).unwrap();
    let q = Scheme::commit(&powers, &poly(&[10, 0, 0, 5])).unwrap();
    let s = Scheme::commit(&powers, &poly(&[11, 2, 3, 5])).unwrap();
    assert_eq!(g1_to_ark(&s), g1_to_ark(&p) + g1_to_ark(&q));
}

#[test]
fn witness_polynomial_is_the_quotient() {
    // X^3 + 3 X + 2 is (X - 2) (X^2 + 2 X + 7) + 16.
    let w = Scheme::compute_witness_polynomial(&poly(&[2, 3, 0, 1]), fr(2)).unwrap();
    assert_eq!(w.coeffs(), &[fr(7), fr(2), fr(1)]);
    assert_eq!(w.degree(), 2);
}

#[test]
fn witness_polynomial_without_the_remainder() {
    let w = Scheme::compute_witness_polynomial(&poly(&[2, 3, 0, 1]), fr(2)).unwrap();
    let v = Scheme::compute_witness_polynomial(&poly(&[500, 3, 0, 1]), fr(2)).unwrap();
    assert_eq!(w.coeffs(), v.coeffs());
}

#[test]
fn witness_polynomial_with_the_constant_below_zero() {
    // Taking 3 from the constant 2 gives the largest scalar.
    let p = poly(&[2, 3, 0, 1]);
    let minus_one = Bls12_381::fr_neg(&fr(1));
    let q = DensePolynomial::<Bls12_381>::from_coefficients_vec(vec![
        minus_one,
        fr(3),
        fr(0),
        fr(1),
    ]);
    let w = Scheme::compute_witness_polynomial(&p, fr(2)).unwrap();
    let v = Scheme::compute_witness_polynomial(&q, fr(2)).unwrap();
    assert_eq!(w.coeffs(), v.coeffs());
}

#[test]
fn witness_polynomial_of_a_constant() {
    assert_eq!(Scheme::compute_witness_polynomial(&poly(&[9]), fr(2)).unwrap().coeffs(), &[]);
    assert_eq!(Scheme::compute_witness_polynomial(&poly(&[]), fr(2)).unwrap().coeffs(), &[]);
    // With any constant taken from the zero polynomial the witness stays the same.
    assert_eq!(Scheme::compute_witness_polynomial(&poly(&[77]), fr(2)).unwrap().coeffs(), &[]);
}

#[test]
fn witness_polynomial_at_zero() {
    let w = Scheme::compute_witness_polynomial(&poly(&[4, 5, 6]), fr(0)).unwrap();
    assert_eq!(w.coeffs(), &[fr(5), fr(6)]);
}

#[test]
fn witness_polynomial_times_the_divisor() {
    let mut rng = StdRng::seed_from_u64(6);
    let p = ArkPolynomial::<ArkFr>::rand(12, &mut rng);
    let z = ArkFr::rand(&mut rng);
    let w = Scheme::compute_witness_polynomial(&poly_from_ark(&p), fr_from_ark(z)).unwrap();
    let w = ArkPolynomial::from_coefficients_vec(w.coeffs().iter().map(fr_to_ark).collect());
    let divisor = ArkPolynomial::from_coefficients_vec(vec![-z, ArkFr::one()]);
    let remainder = ArkPolynomial::from_coefficients_vec(vec![p.evaluate(&z)]);
    assert_eq!(&w.naive_mul(&divisor) + &remainder, p);
}

#[test]
fn proof_is_the_commitment_to_the_witness() {
    let powers = powers_of(&params(4, 3));
    let p = poly(&[2, 3, 0, 1]);
    // X^2 + 2 X + 7 at 3 is 22.
    let w = Scheme::open(&powers, &p, fr(2)).unwrap();
    assert_eq!(w, multiple(ArkFr::from(22u64)));
    let witness = Scheme::compute_witness_polynomial(&p, fr(2)).unwrap();
    assert_eq!(w, Scheme::commit(&powers, &witness).unwrap());
}

#[test]
fn proof_for_a_constant() {
    let powers = powers_of(&params(4, 3));
    assert_eq!(Scheme::open(&powers, &poly(&[8]), fr(2)).unwrap(), G1Affine::zero());
}

#[test]
fn end_to_end() {
    let mut rng = test_rng();
    for degree in 2..12usize {
        let pp = Scheme::setup(degree, &mut rng).unwrap();
        let batch = random_batch(&powers_of(&pp), degree, 1, &mut rng);
        assert!(
            check(&key_of(&pp), &batch, &mut rng),
            "proof was incorrect for degree {}",
            degree
        );
    }
}

#[test]
fn linear_polynomial() {
    let mut rng = test_rng();
    let pp = Scheme::setup(50, &mut rng).unwrap();
    let powers = Powers { powers_of_g: pp.powers_of_g[..3].to_vec() };
    for _ in 0..5 {
        let batch = random_batch(&powers, 1, 1, &mut rng);
        assert!(check(&key_of(&pp), &batch, &mut rng));
    }
}

#[test]
fn batch_of_openings() {
    let mut rng = test_rng();
    for degree in [2usize, 9, 19] {
        let pp = Scheme::setup(degree, &mut rng).unwrap();
        let batch = random_batch(&powers_of(&pp), degree, 10, &mut rng);
        assert!(check(&key_of(&pp), &batch, &mut rng));
    }
}

#[test]
fn check_depends_on_every_list() {
    let mut rng = StdRng::seed_from_u64(10);
    let pp = Scheme::setup(4, &mut rng).unwrap();
    let (powers, vk) = (powers_of(&pp), key_of(&pp));
    for i in 0..3 {
        let mut batch = random_batch(&powers, 4, 3, &mut rng);
        assert!(check(&vk, &batch, &mut rng));
        let value = batch.values[i];
        batch.values[i] = Bls12_381::fr_add(&value, &Fr::one());
        assert!(!check(&vk, &batch, &mut rng));
        batch.values[i] = value;
        let point = batch.points[i];
        batch.points[i] = Bls12_381::fr_add(&point, &Fr::one());
        assert!(!check(&vk, &batch, &mut rng));
        batch.points[i] = point;
        let commitment = batch.commitments[i];
        batch.commitments[i] = pp.powers_of_g[1];
        assert!(!check(&vk, &batch, &mut rng));
        batch.commitments[i] = commitment;
        batch.proofs[i] = pp.powers_of_g[2];
        assert!(!check(&vk, &batch, &mut rng));
    }
}

#[test]
fn check_with_another_key() {
    let mut rng = StdRng::seed_from_u64(11);
    let pp = Scheme::setup(4, &mut rng).unwrap();
    let other = Scheme::setup(4, &mut rng).unwrap();
    let batch = random_batch(&powers_of(&pp), 4, 2, &mut rng);
    assert!(check(&key_of(&pp).clone(), &batch, &mut rng));
    assert!(!check(&key_of(&other), &batch, &mut rng));
}

#[test]
fn honest_openings_pass_whatever_is_drawn() {
    let mut rng = StdRng::seed_from_u64(12);
    let pp = params(5, 11);
    let batch = random_batch(&powers_of(&pp), 5, 3, &mut rng);
    let vk = key_of(&pp);
    assert!(check_with(&vk, &batch, &[0, 0, 0]));
    assert!(check_with(&vk, &batch, &[1, 2, 3]));
    assert!(check_with(&vk, &batch, &[u128::MAX, u128::MAX, 0]));
}

#[test]
fn one_false_opening_is_found_unless_its_factor_is_zero() {
    let mut rng = StdRng::seed_from_u64(13);
    let pp = params(5, 11);
    let vk = key_of(&pp);
    // The first factor is 1 whatever is drawn.
    let mut batch = random_batch(&powers_of(&pp), 5, 3, &mut rng);
    batch.values[0] = fr(123);
    assert!(!check_with(&vk, &batch, &[0, 0, 0]));
    // The second factor is the first number drawn.
    let mut batch = random_batch(&powers_of(&pp), 5, 3, &mut rng);
    batch.values[1] = fr(123);
    assert!(!check_with(&vk, &batch, &[1, 0, 0]));
    assert!(check_with(&vk, &batch, &[0, 1, 1]));
    // The last number drawn is not used.
    let mut batch = random_batch(&powers_of(&pp), 5, 3, &mut rng);
    batch.values[2] = fr(123);
    assert!(!check_with(&vk, &batch, &[0, 1, 0]));
    assert!(check_with(&vk, &batch, &[1, 0, 1]));
}

#[test]
fn defects_that_cancel() {
    // Two values are wrong by 2 and by -1, and the factors are 1 and 2.
    let mut rng = StdRng::seed_from_u64(14);
    let pp = params(3, 11);
    let vk = key_of(&pp);
    let mut batch = random_batch(&powers_of(&pp), 3, 2, &mut rng);
    batch.values[0] = Bls12_381::fr_add(&batch.values[0], &fr(2));
    batch.values[1] = Bls12_381::fr_add(&batch.values[1], &Bls12_381::fr_neg(&fr(1)));
    assert!(check_with(&vk, &batch, &[2, 0]));
    assert!(!check_with(&vk, &batch, &[3, 0]));
}

#[test]
fn several_defects_pass_one_draw_at_most() {
    // The values are wrong by 6, by -2 and by 0: with the factor 1 for the first opening, only the
    // factor 3 for the second makes the sum 0.
    let mut rng = test_rng();
    let pp = params(3, 11);
    let vk = key_of(&pp);
    let mut batch = random_batch(&powers_of(&pp), 3, 3, &mut rng);
    batch.values[0] = Bls12_381::fr_add(&batch.values[0], &fr(6));
    batch.values[1] = Bls12_381::fr_add(&batch.values[1], &Bls12_381::fr_neg(&fr(2)));
    for draw in 0..8u128 {
        assert_eq!(check_with(&vk, &batch, &[draw, 5, 0]), draw == 3);
    }
    assert!(!check_with(&vk, &batch, &[u128::MAX, 5, 0]));
    // With a third defect, of 4, the factor has to be 13.
    batch.values[2] = Bls12_381::fr_add(&batch.values[2], &fr(4));
    for draw in 10..16u128 {
        assert_eq!(check_with(&vk, &batch, &[draw, 5, 0]), draw == 13);
    }
}

#[test]
fn batch_without_openings() {
    let vk = key_of(&params(2, 3));
    let mut rng = StdRng::seed_from_u64(15);
    assert!(Scheme::batch_check(&vk, &[], &[], &[], &[], &mut rng).unwrap());
    let (c, w) = Scheme::aggregate_openings(&vk, &[], &[], &[], &[], &mut rng);
    assert_eq!(Bls12_381::g1_into_affine(&c), G1Affine::zero());
    assert_eq!(Bls12_381::g1_into_affine(&w), G1Affine::zero());
}

#[test]
fn shortest_list_counts() {
    let mut rng = StdRng::seed_from_u64(16);
    let pp = params(4, 3);
    let vk = key_of(&pp);
    let mut batch = random_batch(&powers_of(&pp), 4, 2, &mut rng);
    // What has no counterpart in the other lists is not looked at.
    batch.commitments.push(pp.powers_of_g[1]);
    batch.points.push(fr(5));
    batch.values.push(fr(6));
    assert!(check(&vk, &batch, &mut rng));
    batch.proofs.push(pp.powers_of_g[2]);
    assert!(!check(&vk, &batch, &mut rng));
    batch.points.truncate(2);
    assert!(check(&vk, &batch, &mut rng));
}

#[test]
fn aggregation_of_known_openings() {
    // With the generator as it is, commitments and proofs are given by their multiples of it.
    let vk = key_of(&params(2, 3));
    let commitments: Vec<G1Affine> =
        [10u64, 20, 30].iter().map(|k| multiple(ArkFr::from(*k))).collect();
    let proofs: Vec<G1Affine> =
        [4u64, 5, 6].iter().map(|k| multiple(ArkFr::from(*k))).collect();
    let points = [fr(7), fr(8), fr(9)];
    let values = [fr(1), fr(2), fr(3)];
    let (c, w) = Scheme::aggregate_openings_with(
        &vk,
        &commitments,
        &points,
        &values,
        &proofs,
        &[100, 1000, 77],
    );
    // 1 * (10 + 7 * 4 - 1) + 100 * (20 + 8 * 5 - 2) + 1000 * (30 + 9 * 6 - 3)
    assert_eq!(Bls12_381::g1_into_affine(&c), multiple(ArkFr::from(86837u64)));
    // 1 * 4 + 100 * 5 + 1000 * 6
    assert_eq!(Bls12_381::g1_into_affine(&w), multiple(ArkFr::from(6504u64)));
}

#[test]
fn aggregation_draws_after_each_opening() {
    let mut rng = StdRng::seed_from_u64(17);
    let pp = params(4, 3);
    let vk = key_of(&pp);
    let batch = random_batch(&powers_of(&pp), 4, 3, &mut rng);
    let (c, w) = Scheme::aggregate_openings(
        &vk,
        &batch.commitments,
        &batch.points,
        &batch.values,
        &batch.proofs,
        &mut StdRng::seed_from_u64(18),
    );
    let mut rng = StdRng::seed_from_u64(18);
    let mut randomizer = ArkFr::one();
    let mut total_c = ark_bls12_381::G1Projective::zero();
    let mut total_w = ark_bls12_381::G1Projective::zero();
    for i in 0..3 {
        let (p, q) = (g1_to_ark(&batch.commitments[i]), g1_to_ark(&batch.proofs[i]));
        let (z, v) = (fr_to_ark(&batch.points[i]), fr_to_ark(&batch.values[i]));
        let mut term = q.mul(z) - g1_to_ark(&vk.g).mul(v);
        term.add_assign_mixed(&p);
        total_c += term.mul(randomizer.into_repr());
        total_w += q.mul(randomizer);
        randomizer = u128::rand(&mut rng).into();
    }
    assert_eq!(g1_to_ark(&Bls12_381::g1_into_affine(&c)), total_c.into_affine());
    assert_eq!(g1_to_ark(&Bls12_381::g1_into_affine(&w)), total_w.into_affine());
}

#[test]
fn check_of_a_combined_opening() {
    let vk = key_of(&params(2, 3));
    let [c, w] = [15u64, 5].map(|k| Bls12_381::g1_mul(&vk.g, &fr(k)));
    // 15 is 3 times 5.
    assert_eq!(Scheme::batch_check_aggregated(&vk, c, w), Ok(true));
    assert_eq!(Scheme::batch_check_aggregated(&vk, w, c), Ok(false));
    let zero = Bls12_381::g1_zero();
    assert_eq!(Scheme::batch_check_aggregated(&vk, zero, zero), Ok(true));
    assert_eq!(Scheme::batch_check_aggregated(&vk, c, zero), Ok(false));
    assert_eq!(Scheme::batch_check_aggregated(&vk, zero, w), Ok(false));
}

#[test]
fn totals_that_are_scaled_or_added() {
    let vk = key_of(&params(2, 3));
    let point = |k: u64| Bls12_381::g1_mul(&vk.g, &fr(k));
    let times = |p: &G1Projective, k: u64| {
        Bls12_381::g1_mul(&Bls12_381::g1_into_affine(p), &fr(k))
    };
    // 15 is 3 times 5, and 14 is not 3 times 6.
    for (c, w, expected) in [(point(15), point(5), true), (point(14), point(6), false)] {
        assert_eq!(Scheme::batch_check_aggregated(&vk, c, w), Ok(expected));
        assert_eq!(
            Scheme::batch_check_aggregated(&vk, times(&c, 9), times(&w, 9)),
            Ok(expected)
        );
        assert_eq!(
            Scheme::batch_check_aggregated(
                &vk,
                Bls12_381::g1_add(&point(21), &c),
                Bls12_381::g1_add(&point(7), &w)
            ),
            Ok(expected)
        );
        // Only 0 makes a false pair pass.
        assert_eq!(Scheme::batch_check_aggregated(&vk, times(&c, 0), times(&w, 0)), Ok(true));
    }
}

#[test]
fn only_the_value_is_accepted() {
    let pp = params(4, 3);
    let (powers, vk) = (powers_of(&pp), key_of(&pp));
    let p = poly(&[2, 3, 0, 1]);
    let mut batch = Batch {
        commitments: vec![Scheme::commit(&powers, &p).unwrap()],
        points: vec![fr(2)],
        values: vec![fr(16)],
        proofs: vec![Scheme::open(&powers, &p, fr(2)).unwrap()],
    };
    for claimed in 0..20u64 {
        batch.values[0] = fr(claimed);
        assert_eq!(check_with(&vk, &batch, &[5]), claimed == 16);
    }
    batch.values[0] = Bls12_381::fr_neg(&fr(16));
    assert!(!check_with(&vk, &batch, &[5]));
}

#[test]
fn coefficients_at_the_end_that_are_zero_are_dropped() {
    let p = poly(&[1, 0, 2, 0, 0]);
    assert_eq!(p.coeffs(), &[fr(1), fr(0), fr(2)]);
    assert_eq!(p.degree(), 2);
    assert_eq!(poly(&[0, 0]).coeffs(), &[]);
    assert_eq!(poly(&[]).degree(), 0);
    assert_eq!(poly(&[5]).degree(), 0);
}

#[test]
fn parameters_can_be_copied() {
    let pp = params(2, 3);
    let copy = pp.clone();
    assert_eq!(copy.powers_of_g, pp.powers_of_g);
    assert_eq!(copy.h, pp.h);
    assert_eq!(copy.beta_h, pp.beta_h);
    let vk = key_of(&pp);
    let copy = vk.clone();
    assert_eq!(copy.g, vk.g);
    assert_eq!(copy.prepared_h, vk.prepared_h);
    assert_eq!(copy.prepared_beta_h, vk.prepared_beta_h);
}
