//! The pairing.
use ark_bls12_381::{Fq, Fq2};
use ark_ec::{bls12, PairingEngine as _};
use ark_ff::{BigInteger384, One};
use rand::rngs::StdRng;
use vstd::arithmetic::power2::{lemma2_to64, lemma2_to64_rest, lemma_pow2_adds, pow2};
use vstd::prelude::*;

use crate::bls12_381::fr::{self, ints, order, BigInt, Fr};
use crate::bls12_381::g1::{self, logs, G1Affine, G1Projective};
use crate::bls12_381::g2::{self, G2Affine, G2Prepared, G2Projective};
use crate::bls12_381::order::lemma_order_is_prime;
use crate::engine::{
    bigints, call_with, g1_logs, scalars, table_logs, PairingEngine, PairingGroups,
};

verus! {

/// The curve.
#[derive(Clone, Copy, Debug)]
pub struct Bls12_381;

/// Whether the pairing of `p` with `q` times the pairing of `s` with `t` is 1, from `is_one` of
/// what `PairingEngine::product_of_pairings` of `ark_bls12_381::Bls12_381` returns. The pairing is
/// taken to multiply logarithms, and to be 1 only where their product is a multiple of the order.
#[verifier::external_body]
fn product_of_pairings_is_one(p: &G1Affine, q: &G2Prepared, s: &G1Affine, t: &G2Prepared) -> (res:
    bool)
    ensures
        res == ((p.log() * q.log() + s.log() * t.log()) % order() == 0),
{
    let pairs = [(p, q), (s, t)].map(|(p, q)| {
        let [x, y] = p.xy.map(|c| Fq::from(BigInteger384(c)));
        let ell_coeffs = q.ell_coeffs.iter().map(|c| {
            let [a, b, c, d, e, f] = c.map(|c| Fq::from(BigInteger384(c)));
            (Fq2::new(a, b), Fq2::new(c, d), Fq2::new(e, f))
        }).collect();
        let p = ark_bls12_381::G1Affine::new(x, y, p.infinity);
        (p.into(), bls12::G2Prepared { ell_coeffs, infinity: q.infinity })
    });
    ark_bls12_381::Bls12_381::product_of_pairings(&pairs).is_one()
}

impl PairingGroups for Bls12_381 {
    type Fr = Fr;

    type BigInt = BigInt;

    type G1Affine = G1Affine;

    type G1Projective = G1Projective;

    type G2Affine = G2Affine;

    type G2Projective = G2Projective;

    type G2Prepared = G2Prepared;

    open spec fn order() -> int {
        order()
    }

    open spec fn fr_int(x: Fr) -> int {
        x@
    }

    open spec fn bigint_int(x: BigInt) -> int {
        x@
    }

    open spec fn g1_log(p: G1Affine) -> int {
        p.log()
    }

    open spec fn g1_projective_log(p: G1Projective) -> int {
        p.log()
    }

    open spec fn g2_log(p: G2Affine) -> int {
        p.log()
    }

    open spec fn g2_projective_log(p: G2Projective) -> int {
        p.log()
    }

    open spec fn g2_prepared_log(p: G2Prepared) -> int {
        p.log()
    }

    open spec fn fr_drawn(r: &mut StdRng, x: Fr) -> bool {
        fr::fr_drawn(r, x)
    }

    open spec fn g1_drawn(r: &mut StdRng, p: G1Projective) -> bool {
        g1::g1_drawn(r, p)
    }

    open spec fn g2_drawn(r: &mut StdRng, p: G2Projective) -> bool {
        g2::g2_drawn(r, p)
    }

    proof fn lemma_prime_order() {
        lemma_order_is_prime();
    }

    proof fn lemma_reduced() {
        assert forall|x: Fr| 0 <= #[trigger] Self::fr_int(x) < Self::order() by {
            x.lemma_reduced();
        }
        assert forall|p: G1Affine| 0 <= #[trigger] Self::g1_log(p) < Self::order() by {
            p.lemma_reduced();
        }
        assert forall|p: G1Projective|
            0 <= #[trigger] Self::g1_projective_log(p) < Self::order() by {
            p.lemma_reduced();
        }
        assert forall|p: G2Affine| 0 <= #[trigger] Self::g2_log(p) < Self::order() by {
            p.lemma_reduced();
        }
        assert forall|p: G2Projective|
            0 <= #[trigger] Self::g2_projective_log(p) < Self::order() by {
            p.lemma_reduced();
        }
        assert forall|p: G2Prepared| 0 <= #[trigger] Self::g2_prepared_log(p) < Self::order() by {
            p.lemma_reduced();
        }
    }
}

/// What is drawn for the curve is what `UniformRand::rand` returns for its scalars and elements.
pub(crate) proof fn law_draws_are_those_of_the_curve(
    r: &mut StdRng,
    x: Fr,
    p: G1Projective,
    q: G2Projective,
)
    ensures
        Bls12_381::fr_drawn(r, x) == call_ensures(fr::fr_rand, (r,), x),
        Bls12_381::g1_drawn(r, p) == call_ensures(g1::g1_rand, (r,), p),
        Bls12_381::g2_drawn(r, q) == call_ensures(g2::g2_rand, (r,), q),
{
    fr::law_fr_drawn(r, x);
    g1::law_g1_drawn(r, p);
    g2::law_g2_drawn(r, q);
}

/// Scalars, integers and logarithms are the same to contracts of the groups as to those of their
/// elements.
proof fn lemma_same_views()
    ensures
        forall|s: Seq<Fr>| #[trigger] scalars::<Bls12_381>(s) == ints(s),
        forall|s: Seq<BigInt>| #[trigger] bigints::<Bls12_381>(s) == g1::bigints(s),
        forall|s: Seq<G1Affine>| #[trigger] g1_logs::<Bls12_381>(s) == logs(s),
        forall|s: Seq<Vec<G1Affine>>|
            #[trigger] table_logs::<Bls12_381>(s) == g1::table_logs(s),
{
    assert forall|s: Seq<Fr>| #[trigger] scalars::<Bls12_381>(s) == ints(s) by {
        assert(scalars::<Bls12_381>(s) =~= ints(s));
    }
    assert forall|s: Seq<BigInt>| #[trigger] bigints::<Bls12_381>(s) == g1::bigints(s) by {
        assert(bigints::<Bls12_381>(s) =~= g1::bigints(s));
    }
    assert forall|s: Seq<G1Affine>| #[trigger] g1_logs::<Bls12_381>(s) == logs(s) by {
        assert(g1_logs::<Bls12_381>(s) =~= logs(s));
    }
    assert forall|s: Seq<Vec<G1Affine>>|
        #[trigger] table_logs::<Bls12_381>(s) == g1::table_logs(s) by {
        assert forall|i: int| 0 <= i < s.len() implies g1_logs::<Bls12_381>(s[i]@) == logs(
            s[i]@,
        ) by {
            assert(g1_logs::<Bls12_381>(s[i]@) =~= logs(s[i]@));
        }
        assert(table_logs::<Bls12_381>(s) =~= g1::table_logs(s));
    }
}

/// Scalars take 255 bits.
proof fn lemma_order_fits()
    ensures
        order() <= pow2(255),
{
    lemma2_to64();
    lemma2_to64_rest();
    lemma_pow2_adds(64, 63);
    lemma_pow2_adds(64, 64);
    lemma_pow2_adds(128, 127);
    let a: int = pow2(128) as int;
    let b: int = pow2(127) as int;
    assert(order() <= a * b) by (nonlinear_arith)
        requires
            a == 0x1_0000_0000_0000_0000_0000_0000_0000_0000int,
            b == 0x8000_0000_0000_0000_0000_0000_0000_0000int,
    ;
}

impl PairingEngine for Bls12_381 {
    fn fr_zero() -> (res: Fr) {
        Fr::zero()
    }

    fn fr_one() -> (res: Fr) {
        Fr::one()
    }

    fn fr_is_zero(x: &Fr) -> (res: bool) {
        x.is_zero()
    }

    fn fr_add(x: &Fr, y: &Fr) -> (res: Fr) {
        fr::fr_add(x, y)
    }

    fn fr_mul(x: &Fr, y: &Fr) -> (res: Fr) {
        fr::fr_mul(x, y)
    }

    fn fr_neg(x: &Fr) -> (res: Fr) {
        fr::fr_neg(x)
    }

    fn fr_from_u128(x: u128) -> (res: Fr) {
        fr::fr_from_u128(x)
    }

    fn fr_into_repr(x: &Fr) -> (res: BigInt) {
        x.into_repr()
    }

    fn fr_rand(rng: &mut StdRng) -> (res: Fr) {
        let res = call_with(fr::fr_rand, rng);
        proof {
            assert forall|r: &mut StdRng|
                #![trigger call_ensures(fr::fr_rand, (r,), res)]
                call_ensures(fr::fr_rand, (r,), res) implies Self::fr_drawn(r, res) by {
                fr::law_fr_drawn(r, res);
            }
        }
        res
    }

    fn g1_rand(rng: &mut StdRng) -> (res: G1Projective) {
        let res = call_with(g1::g1_rand, rng);
        proof {
            assert forall|r: &mut StdRng|
                #![trigger call_ensures(g1::g1_rand, (r,), res)]
                call_ensures(g1::g1_rand, (r,), res) implies Self::g1_drawn(r, res) by {
                g1::law_g1_drawn(r, res);
            }
        }
        res
    }

    fn g2_rand(rng: &mut StdRng) -> (res: G2Projective) {
        let res = call_with(g2::g2_rand, rng);
        proof {
            assert forall|r: &mut StdRng|
                #![trigger call_ensures(g2::g2_rand, (r,), res)]
                call_ensures(g2::g2_rand, (r,), res) implies Self::g2_drawn(r, res) by {
                g2::law_g2_drawn(r, res);
            }
        }
        res
    }

    fn scalar_bits() -> (res: usize) {
        proof {
            lemma_order_fits();
        }
        fr::fr_size_in_bits()
    }

    fn divide_polynomials(p: &[Fr], d: &[Fr]) -> (res: Vec<Fr>) {
        proof {
            lemma_same_views();
        }
        fr::divide(p, d)
    }

    fn g1_zero() -> (res: G1Projective) {
        g1::g1_zero()
    }

    fn g1_mul(p: &G1Affine, x: &Fr) -> (res: G1Projective) {
        g1::g1_mul(p, x)
    }

    fn g1_projective_mul(p: &G1Projective, x: &BigInt) -> (res: G1Projective) {
        g1::g1_projective_mul(p, x)
    }

    fn g1_add(p: &G1Projective, q: &G1Projective) -> (res: G1Projective) {
        g1::g1_add(p, q)
    }

    fn g1_add_mixed(p: &G1Projective, q: &G1Affine) -> (res: G1Projective) {
        g1::g1_add_mixed(p, q)
    }

    fn g1_sub(p: &G1Projective, q: &G1Projective) -> (res: G1Projective) {
        g1::g1_sub(p, q)
    }

    fn g1_neg(p: &G1Projective) -> (res: G1Projective) {
        g1::g1_neg(p)
    }

    fn g1_into_affine(p: &G1Projective) -> (res: G1Affine) {
        g1::g1_into_affine(p)
    }

    fn g1_batch_into_affine(v: &[G1Projective]) -> (res: Vec<G1Affine>) {
        g1::g1_batch_into_affine(v)
    }

    fn g1_window_table(bits: usize, window: usize, g: &G1Projective) -> (res: Vec<Vec<G1Affine>>) {
        proof {
            lemma_same_views();
        }
        g1::g1_window_table(bits, window, g)
    }

    fn g1_fixed_base_msm(bits: usize, window: usize, table: &[Vec<G1Affine>], v: &[Fr]) -> (res:
        Vec<G1Projective>) {
        proof {
            lemma_same_views();
        }
        g1::g1_fixed_base_msm(bits, window, table, v)
    }

    fn g1_variable_base_msm(bases: &[G1Affine], exponents: &[BigInt]) -> (res: G1Projective) {
        proof {
            lemma_same_views();
            assert forall|i: int| 0 <= i < exponents@.len() implies 0 <= (#[trigger] exponents@[i])@
                < order() by {
                assert(0 <= Self::bigint_int(exponents@[i]) < order());
            }
        }
        g1::g1_variable_base_msm(bases, exponents)
    }

    fn g2_mul(p: &G2Affine, x: &Fr) -> (res: G2Projective) {
        g2::g2_mul(p, x)
    }

    fn g2_into_affine(p: &G2Projective) -> (res: G2Affine) {
        g2::g2_into_affine(p)
    }

    fn g2_prepare(p: &G2Affine) -> (res: G2Prepared) {
        g2::g2_prepare(p)
    }

    fn product_of_pairings_is_one(
        p: &G1Affine,
        q: &G2Prepared,
        s: &G1Affine,
        t: &G2Prepared,
    ) -> (res: bool) {
        product_of_pairings_is_one(p, q, s, t)
    }
}

} // verus!
