use std::str::FromStr;

use ark_ec::{AffineCurve, ProjectiveCurve};
use ark_ff::{BigInteger256, BigInteger384, One, PrimeField, UniformRand, Zero};
use kzg10::bls12_381::fr::{BigInt, Fr};
use kzg10::bls12_381::g1::{base_is_canonical, G1Affine};
use kzg10::bls12_381::g2::G2Affine;
use kzg10::bls12_381::pairing::Bls12_381;
use kzg10::engine::PairingEngine;
use kzg10::limbs::limbs_less;
use rand::rngs::StdRng;
use rand::SeedableRng;

type ArkFr = ark_bls12_381::Fr;

type ArkFq = ark_bls12_381::Fq;

const ORDER: [u64; 4] =
    [0xffffffff00000001, 0x53bda402fffe5bfe, 0x3339d80809a1d805, 0x73eda753299d7d48];

const BASE_ORDER: [u64; 6] = [
    0xb9feffffffffaaab,
    0x1eabfffeb153ffff,
    0x6730d2a0f6b0f624,
    0x64774b84f38512bf,
    0x4b1ba7b6434bacd7,
    0x1a0111ea397fe69a,
];

fn fr_from_ark(x: ArkFr) -> Fr {
    Fr::from_limbs(x.into_repr().0).unwrap()
}

fn fr_to_ark(x: &Fr) -> ArkFr {
    ArkFr::from_repr(BigInteger256(x.limbs())).unwrap()
}

fn g1_from_ark(p: ark_bls12_381::G1Affine) -> G1Affine {
    G1Affine::from_coordinates(p.x.into_repr().0, p.y.into_repr().0).unwrap()
}

fn g1_to_ark(p: &G1Affine) -> ark_bls12_381::G1Affine {
    match p.coordinates() {
        None => ark_bls12_381::G1Affine::zero(),
        Some((x, y)) => {
            let [x, y] = [x, y].map(|c| ArkFq::from_repr(BigInteger384(c)).unwrap());
            ark_bls12_381::G1Affine::new(x, y, false)
        }
    }
}

fn g2_coordinates(p: &ark_bls12_381::G2Affine) -> ([[u64; 6]; 2], [[u64; 6]; 2]) {
    let [x, y] = [p.x, p.y].map(|c| [c.c0.into_repr().0, c.c1.into_repr().0]);
    (x, y)
}

fn g2_from_ark(p: ark_bls12_381::G2Affine) -> G2Affine {
    let (x, y) = g2_coordinates(&p);
    G2Affine::from_coordinates(x, y).unwrap()
}

#[test]
fn scalars_lie_below_the_order() {
    assert_eq!(Fr::from_limbs(ORDER), None);
    assert_eq!(Fr::from_limbs([u64::MAX; 4]), None);
    let mut limbs = ORDER;
    limbs[0] = 0xffffffff00000000;
    let largest = Fr::from_limbs(limbs).unwrap();
    assert_eq!(largest.limbs(), limbs);
    assert_eq!(fr_to_ark(&largest), -ArkFr::one());
    assert_eq!(Bls12_381::fr_add(&largest, &Fr::one()), Fr::zero());
}

#[test]
fn scalar_constants() {
    assert_eq!(Fr::zero().limbs(), [0, 0, 0, 0]);
    assert_eq!(Fr::one().limbs(), [1, 0, 0, 0]);
    assert_eq!(Bls12_381::fr_zero(), Fr::zero());
    assert_eq!(Bls12_381::fr_one(), Fr::one());
    assert!(Bls12_381::fr_is_zero(&Fr::zero()));
    assert!(!Bls12_381::fr_is_zero(&Fr::one()));
    assert!(!Fr::from_limbs([0, 0, 0, 1]).unwrap().is_zero());
    assert_eq!(Bls12_381::scalar_bits(), 255);
}

#[test]
fn scalar_arithmetic() {
    let mut rng = StdRng::seed_from_u64(1);
    let (a, b) = (ArkFr::rand(&mut rng), ArkFr::rand(&mut rng));
    let (x, y) = (fr_from_ark(a), fr_from_ark(b));
    assert_eq!(fr_to_ark(&Bls12_381::fr_add(&x, &y)), a + b);
    assert_eq!(fr_to_ark(&Bls12_381::fr_mul(&x, &y)), a * b);
    assert_eq!(fr_to_ark(&Bls12_381::fr_neg(&x)), -a);
    assert_eq!(Bls12_381::fr_neg(&Fr::zero()), Fr::zero());
    assert_eq!(Bls12_381::fr_into_repr(&x).limbs, a.into_repr().0);
    let six = Bls12_381::fr_mul(&Bls12_381::fr_from_u128(2), &Bls12_381::fr_from_u128(3));
    assert_eq!(six.limbs(), [6, 0, 0, 0]);
}

#[test]
fn scalars_from_integers() {
    assert_eq!(Bls12_381::fr_from_u128(0), Fr::zero());
    assert_eq!(Bls12_381::fr_from_u128(7).limbs(), [7, 0, 0, 0]);
    assert_eq!(Bls12_381::fr_from_u128(u128::MAX).limbs(), [u64::MAX, u64::MAX, 0, 0]);
}

#[test]
fn random_values_follow_the_generator() {
    let mut rng = StdRng::seed_from_u64(2);
    let (x, p) = (Bls12_381::fr_rand(&mut rng), Bls12_381::g1_rand(&mut rng));
    let q = Bls12_381::g2_rand(&mut rng);
    let mut rng = StdRng::seed_from_u64(2);
    assert_eq!(fr_to_ark(&x), ArkFr::rand(&mut rng));
    let expected = ark_bls12_381::G1Projective::rand(&mut rng).into_affine();
    assert_eq!(g1_to_ark(&Bls12_381::g1_into_affine(&p)), expected);
    let expected = ark_bls12_381::G2Projective::rand(&mut rng).into_affine();
    assert_eq!(Bls12_381::g2_into_affine(&q), g2_from_ark(expected));
}

#[test]
fn quotients_of_polynomials() {
    let fr = |x: u64| Fr::from_limbs([x, 0, 0, 0]).unwrap();
    // X^3 + 2 X^2 + 3 X + 4 is (X^2 + 1) (X + 2) + 2 X + 2.
    let q = Bls12_381::divide_polynomials(
        &[fr(4), fr(3), fr(2), fr(1)],
        &[fr(1), fr(0), fr(1)],
    );
    assert_eq!(q, vec![fr(2), fr(1)]);
    assert_eq!(Bls12_381::divide_polynomials(&[fr(1)], &[fr(1), fr(1)]), vec![]);
    assert_eq!(Bls12_381::divide_polynomials(&[], &[fr(1), fr(1)]), vec![]);
    assert_eq!(Bls12_381::divide_polynomials(&[fr(6), fr(8)], &[fr(2)]), vec![fr(3), fr(4)]);
}

#[test]
fn digits_are_compared_from_the_highest() {
    assert!(limbs_less(&[9, 1], &[0, 2]));
    assert!(!limbs_less(&[0, 2], &[9, 1]));
    assert!(limbs_less(&[1, 2], &[2, 2]));
    assert!(!limbs_less(&[2, 2], &[2, 2]));
    assert!(!limbs_less(&[], &[]));
}

#[test]
fn coordinates_lie_below_the_order_of_their_field() {
    assert!(!base_is_canonical(&BASE_ORDER));
    let mut limbs = BASE_ORDER;
    limbs[0] -= 1;
    assert!(base_is_canonical(&limbs));
    assert!(base_is_canonical(&[0; 6]));
    assert_eq!(ArkFq::from_repr(BigInteger384(limbs)), Some(-ArkFq::one()));
}

#[test]
fn generators_have_the_documented_coordinates() {
    let fq = |s: &str| ArkFq::from_str(s).unwrap_or(ArkFq::zero()).into_repr().0;
    let g = ark_bls12_381::G1Affine::prime_subgroup_generator();
    assert_eq!(
        g1_from_ark(g).coordinates(),
        Some((
            fq("3685416753713387016781088315183077757961620795782546409894578378688607592378376318836054947676345821548104185464507"),
            fq("1339506544944476473020471379941921221584933875938349620426543736416511423956333506472724655353366534992391756441569"),
        ))
    );
    let h = ark_bls12_381::G2Affine::prime_subgroup_generator();
    assert_eq!(
        g2_from_ark(h).coordinates(),
        Some((
            [
                fq("352701069587466618187139116011060144890029952792775240219908644239793785735715026873347600343865175952761926303160"),
                fq("3059144344244213709971259814753781636986470325476647558659373206291635324768958432433509563104347017837885763365758"),
            ],
            [
                fq("1985150602287291935568054521177171638300868978215655730859378665066344726373823718423869104263333984641494340347905"),
                fq("927553665492332455747201965776037880757740193453592970025027978793976877002675564980949289727957565575433344219582"),
            ],
        ))
    );
}

#[test]
fn generators_are_those_of_the_groups() {
    let g = ark_bls12_381::G1Affine::prime_subgroup_generator();
    assert_eq!(G1Affine::generator(), g1_from_ark(g));
    let h = ark_bls12_381::G2Affine::prime_subgroup_generator();
    assert_eq!(G2Affine::generator(), g2_from_ark(h));
}

#[test]
fn points_off_the_first_curve_are_turned_down() {
    let g = ark_bls12_381::G1Affine::prime_subgroup_generator();
    let (x, y) = (g.x.into_repr().0, g.y.into_repr().0);
    assert!(G1Affine::from_coordinates(x, y).is_some());
    assert_eq!(G1Affine::from_coordinates(y, x), None);
    assert_eq!(G1Affine::from_coordinates(BASE_ORDER, y), None);
    assert_eq!(G1Affine::from_coordinates(x, BASE_ORDER), None);
    assert_eq!(G1Affine::from_coordinates([0; 6], [0; 6]), None);
}

#[test]
fn points_off_the_second_curve_are_turned_down() {
    let h = ark_bls12_381::G2Affine::prime_subgroup_generator();
    let (x, y) = g2_coordinates(&h);
    assert!(G2Affine::from_coordinates(x, y).is_some());
    assert_eq!(G2Affine::from_coordinates(y, x), None);
    assert_eq!(G2Affine::from_coordinates([x[1], x[0]], y), None);
    assert_eq!(G2Affine::from_coordinates([BASE_ORDER, x[1]], y), None);
    assert_eq!(G2Affine::from_coordinates([x[0], BASE_ORDER], y), None);
    assert_eq!(G2Affine::from_coordinates(x, [BASE_ORDER, y[1]]), None);
    assert_eq!(G2Affine::from_coordinates(x, [y[0], BASE_ORDER]), None);
}

#[test]
fn points_outside_the_groups_are_turned_down() {
    // (0, 2) is on the first curve, and has order 3.
    let two = [2, 0, 0, 0, 0, 0];
    assert_eq!(G1Affine::from_coordinates([0; 6], two), None);
    let p = ark_bls12_381::G1Affine::new(ArkFq::zero(), ArkFq::from(2u64), false);
    assert!(p.is_on_curve());
    // Few points of the second curve belong to the group.
    let mut found = 0;
    for i in 0..20u64 {
        let x = ark_bls12_381::Fq2::new(ArkFq::from(i), ArkFq::one());
        if let Some(p) = ark_bls12_381::G2Affine::get_point_from_x(x, false) {
            let (x, y) = g2_coordinates(&p);
            assert_eq!(G2Affine::from_coordinates(x, y), None);
            found += 1;
        }
    }
    assert!(found > 0);
}

#[test]
fn first_group_arithmetic() {
    let mut rng = StdRng::seed_from_u64(3);
    let (p, q) = (Bls12_381::g1_rand(&mut rng), Bls12_381::g1_rand(&mut rng));
    let (pa, qa) = (Bls12_381::g1_into_affine(&p), Bls12_381::g1_into_affine(&q));
    let (a, b) = (g1_to_ark(&pa), g1_to_ark(&qa));
    let affine = |p| g1_to_ark(&Bls12_381::g1_into_affine(&p));
    assert_eq!(affine(Bls12_381::g1_add(&p, &q)), a + b);
    assert_eq!(affine(Bls12_381::g1_add_mixed(&p, &qa)), a + b);
    assert_eq!(affine(Bls12_381::g1_sub(&p, &q)), a + (-b));
    assert_eq!(affine(Bls12_381::g1_neg(&p)), -a);
    assert_eq!(affine(Bls12_381::g1_sub(&p, &p)), ark_bls12_381::G1Affine::zero());
    let x = Bls12_381::fr_rand(&mut rng);
    assert_eq!(affine(Bls12_381::g1_mul(&pa, &x)), a.mul(fr_to_ark(&x)).into_affine());
    let k = BigInt { limbs: [5, 6, 7, 8] };
    assert_eq!(
        affine(Bls12_381::g1_projective_mul(&p, &k)),
        a.into_projective().mul([5u64, 6, 7, 8]).into_affine()
    );
    let all = Bls12_381::g1_batch_into_affine(&[p, Bls12_381::g1_zero(), q]);
    assert_eq!(all, vec![pa, G1Affine::zero(), qa]);
}

#[test]
fn neutral_element_has_no_coordinates() {
    assert_eq!(G1Affine::zero().coordinates(), None);
    let p = Bls12_381::g1_mul(&G1Affine::zero(), &Fr::one());
    assert_eq!(Bls12_381::g1_into_affine(&p), G1Affine::zero());
}

#[test]
fn multiplication_of_many_elements() {
    let g = ark_bls12_381::G1Affine::prime_subgroup_generator();
    let bases: Vec<G1Affine> = [2u64, 3, 5]
        .iter()
        .map(|k| g1_from_ark(g.mul(ArkFr::from(*k)).into_affine()))
        .collect();
    let exponents = [7u64, 11, 13].map(|k| BigInt { limbs: [k, 0, 0, 0] });
    let expected = |k: u64| g.mul(ArkFr::from(k)).into_affine();
    let msm = |b: &[G1Affine], e: &[BigInt]| {
        g1_to_ark(&Bls12_381::g1_into_affine(&Bls12_381::g1_variable_base_msm(b, e)))
    };
    assert_eq!(msm(&bases, &exponents), expected(112));
    assert_eq!(msm(&bases, &exponents[..2]), expected(47));
    assert_eq!(msm(&bases[..1], &exponents), expected(14));
    assert_eq!(msm(&[], &exponents), ark_bls12_381::G1Affine::zero());
}

#[test]
fn window_table_holds_multiples() {
    let g = ark_bls12_381::G1Affine::prime_subgroup_generator();
    let base = Bls12_381::g1_mul(&g1_from_ark(g), &Fr::one());
    // 255 bits take 64 windows of 4 bits, of which the last has 3.
    let table = Bls12_381::g1_window_table(255, 4, &base);
    assert_eq!(table.len(), 64);
    assert!(table.iter().all(|row| row.len() == 16));
    let multiple = |j: u64, i: u64| {
        let mut k = ArkFr::from(j);
        for _ in 0..4 * i {
            k += k;
        }
        g.mul(k).into_affine()
    };
    for (i, j) in [(0usize, 0usize), (0, 1), (0, 15), (1, 1), (20, 7), (63, 7)] {
        assert_eq!(g1_to_ark(&table[i][j]), multiple(j as u64, i as u64));
    }
    let mut rng = StdRng::seed_from_u64(4);
    let x = Bls12_381::fr_rand(&mut rng);
    let products = Bls12_381::g1_fixed_base_msm(255, 4, &table, &[x, Fr::zero()]);
    let products = Bls12_381::g1_batch_into_affine(&products);
    assert_eq!(g1_to_ark(&products[0]), g.mul(fr_to_ark(&x)).into_affine());
    assert_eq!(products[1], G1Affine::zero());
    assert_eq!(products.len(), 2);
}

#[test]
fn second_group_arithmetic() {
    let mut rng = StdRng::seed_from_u64(5);
    let h = ark_bls12_381::G2Projective::rand(&mut rng).into_affine();
    let x = Bls12_381::fr_rand(&mut rng);
    let p = Bls12_381::g2_into_affine(&Bls12_381::g2_mul(&g2_from_ark(h), &x));
    assert_eq!(p, g2_from_ark(h.mul(fr_to_ark(&x)).into_affine()));
    let zero = Bls12_381::g2_mul(&g2_from_ark(h), &Fr::zero());
    assert_eq!(Bls12_381::g2_into_affine(&zero).coordinates(), None);
}

#[test]
fn preparation_tells_elements_apart() {
    let h = g2_from_ark(ark_bls12_381::G2Affine::prime_subgroup_generator());
    let two = Bls12_381::fr_from_u128(2);
    let minus_one = Bls12_381::fr_neg(&Fr::one());
    let multiple = |k: &Fr| Bls12_381::g2_into_affine(&Bls12_381::g2_mul(&h, k));
    let p = Bls12_381::g2_prepare(&h);
    assert_eq!(p, Bls12_381::g2_prepare(&multiple(&Fr::one())));
    assert_eq!(p, p.clone());
    assert_ne!(p, Bls12_381::g2_prepare(&multiple(&two)));
    assert_ne!(p, Bls12_381::g2_prepare(&multiple(&minus_one)));
    assert_ne!(p, Bls12_381::g2_prepare(&multiple(&Fr::zero())));
}

#[test]
fn pairing_multiplies_logarithms() {
    let g = g1_from_ark(ark_bls12_381::G1Affine::prime_subgroup_generator());
    let h = g2_from_ark(ark_bls12_381::G2Affine::prime_subgroup_generator());
    let g1 = |k: u128| {
        Bls12_381::g1_into_affine(&Bls12_381::g1_mul(&g, &Bls12_381::fr_from_u128(k)))
    };
    let g2 = |k: u128| {
        let p = Bls12_381::g2_mul(&h, &Bls12_381::fr_from_u128(k));
        Bls12_381::g2_prepare(&Bls12_381::g2_into_affine(&p))
    };
    let minus = |p: &G1Affine| {
        let p = Bls12_381::g1_mul(p, &Fr::one());
        Bls12_381::g1_into_affine(&Bls12_381::g1_neg(&p))
    };
    // 6 * 5 is 10 * 3.
    assert!(Bls12_381::product_of_pairings_is_one(&g1(6), &g2(5), &minus(&g1(10)), &g2(3)));
    assert!(!Bls12_381::product_of_pairings_is_one(&g1(6), &g2(5), &minus(&g1(10)), &g2(4)));
    assert!(!Bls12_381::product_of_pairings_is_one(&g1(6), &g2(5), &g1(10), &g2(3)));
    assert!(Bls12_381::product_of_pairings_is_one(&g1(0), &g2(5), &g1(10), &g2(0)));
}
