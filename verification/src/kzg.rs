//! Commitments to polynomials, and proofs of their values.
//!
//! A user commits to a polynomial `p` and later proves to a verifier that a claimed value `v` is
//! the value of `p` at a chosen point `z`. The construction is the one of Kate, Zaverucha and
//! Goldberg (KZG11, <http://cacr.uwaterloo.ca/techreports/2010/cacr2010-10.pdf>), which achieves
//! extractability in the algebraic group model.
use std::marker::PhantomData;

use ark_ec::msm::FixedBaseMSM;
use ark_ff::UniformRand;
use rand::rngs::StdRng;
use vstd::arithmetic::div_mod::{
    lemma_add_mod_noop, lemma_add_mod_noop_right, lemma_mod_twice, lemma_mul_mod_noop_left,
    lemma_mul_mod_noop_right, lemma_small_mod, lemma_sub_mod_noop,
};
use vstd::arithmetic::power::pow;
use vstd::arithmetic::power2::{
    lemma2_to64, lemma2_to64_rest, lemma_pow2_strictly_increases, pow2,
};
use vstd::prelude::*;
use vstd::slice::slice_subrange;

use crate::algebra::{
    dot, inner_product, is_division, lemma_cong_add, lemma_cong_sub,
    lemma_division_by_linear, lemma_dot_skip_zeros, min_len, witness,
};
use crate::engine::{
    bigints, call_with, g1_logs, is_window_table, scalars, table_logs, PairingEngine, PairingGroups,
};
use crate::polynomial::{degree, DensePolynomial};

verus! {

/// Why the scheme turned a request down.
#[derive(Clone, Copy, Debug, PartialEq, Eq)]
pub enum Error {
    /// The degree provided in setup was too small; degree 0 polynomials are not supported.
    DegreeIsZero,
    /// The degree of the polynomial passed to `commit` or `open` was too large.
    TooManyCoefficients {
        /// The degree of the polynomial.
        num_coefficients: usize,
        /// The number of powers provided in `Powers`.
        num_powers: usize,
    },
}

/// The universal parameters of the scheme.
#[derive(Clone, Debug)]
pub struct UniversalParams<E: PairingGroups> {
    /// Group elements of the form `beta^i G`, where `i` ranges from 0 to `degree`.
    pub powers_of_g: Vec<E::G1Affine>,
    /// The generator of `G2`.
    pub h: E::G2Affine,
    /// `beta` times the above generator of `G2`.
    pub beta_h: E::G2Affine,
}

/// The powers with which polynomials are committed to.
#[derive(Clone, Debug)]
pub struct Powers<E: PairingGroups> {
    /// Group elements of the form `beta^i G`, for different values of `i`.
    pub powers_of_g: Vec<E::G1Affine>,
}

impl<E: PairingGroups> Powers<E> {
    /// The number of powers.
    pub fn size(&self) -> (res: usize)
        ensures
            res == self.powers_of_g@.len(),
    {
        self.powers_of_g.len()
    }
}

/// The key with which evaluation proofs are checked against commitments.
#[derive(Clone, Debug)]
pub struct PreparedVerifierKey<E: PairingGroups> {
    /// The generator of `G1`.
    pub g: E::G1Affine,
    /// The generator of `G2`, prepared for use in pairings.
    pub prepared_h: E::G2Prepared,
    /// `beta` times the above generator of `G2`, prepared for use in pairings.
    pub prepared_beta_h: E::G2Prepared,
}

impl<E: PairingEngine> PreparedVerifierKey<E> {
    /// The key for the generators `g` and `h` and for `beta_h`.
    pub fn new(g: E::G1Affine, h: &E::G2Affine, beta_h: &E::G2Affine) -> (res: Self)
        ensures
            res.g == g,
            E::g2_prepared_log(res.prepared_h) == E::g2_log(*h),
            E::g2_prepared_log(res.prepared_beta_h) == E::g2_log(*beta_h),
    {
        PreparedVerifierKey {
            g,
            prepared_h: E::g2_prepare(h),
            prepared_beta_h: E::g2_prepare(beta_h),
        }
    }
}

/// The polynomial commitment scheme of Kate, Zaverucha and Goldberg.
pub struct KZG10<E: PairingEngine> {
    _engine: PhantomData<E>,
}

/// `pp` are the parameters for the secret `beta` and the generators `g` and `h`, given by their
/// logarithms, with the powers of `beta` up to `max_degree`.
pub open spec fn is_setup<E: PairingGroups>(
    pp: UniversalParams<E>,
    max_degree: int,
    beta: int,
    g: int,
    h: int,
) -> bool {
    &&& pp.powers_of_g@.len() == max_degree + 1
    &&& forall|i: int|
        0 <= i <= max_degree ==> #[trigger] E::g1_log(pp.powers_of_g@[i]) == pow(beta, i as nat) * g
            % E::order()
    &&& E::g2_log(pp.h) == h
    &&& E::g2_log(pp.beta_h) == beta * h % E::order()
}

/// The window that suits the multiplication of one element by `num_scalars` scalars has `window`
/// bits: 3 for fewer than 32 scalars, else 69 hundredths, rounded down, of the least `k` for which
/// there are at most `2^k` scalars.
pub open spec fn is_window_size(num_scalars: int, window: int) -> bool {
    if num_scalars < 32 {
        window == 3
    } else {
        exists|k: nat|
            k > 0 && pow2((k - 1) as nat) < num_scalars && num_scalars <= #[trigger] pow2(k)
                && window == k * 69 / 100
    }
}

/// The number of bits to take at a time, from `FixedBaseMSM::get_mul_window_size` of `ark_ec`. Its
/// result is taken to be what `is_window_size` says.
#[verifier::external_body]
fn mul_window_size(num_scalars: usize) -> (res: usize)
    ensures
        is_window_size(num_scalars as int, res as int),
{
    FixedBaseMSM::get_mul_window_size(num_scalars)
}

/// A window has at least one bit, and few enough for a table of all its values.
proof fn lemma_window_fits(num_scalars: usize, window: usize)
    requires
        is_window_size(num_scalars as int, window as int),
    ensures
        0 < window,
        window * 100 <= usize::BITS * 69,
{
    if num_scalars >= 32 {
        let k = choose|k: nat|
            k > 0 && pow2((k - 1) as nat) < num_scalars && num_scalars <= #[trigger] pow2(k)
                && window == k * 69 / 100;
        lemma2_to64();
        lemma2_to64_rest();
        if k < 5 {
            lemma_pow2_strictly_increases(k, 5);
        }
        if k - 1 > usize::BITS {
            lemma_pow2_strictly_increases(
                usize::BITS as nat,
                (k - 1) as nat,
            );
        }
    }
}

/// A number of 128 bits, drawn with `u128::rand` of `ark_ff`. Nothing is claimed of it.
#[verifier::external_body]
fn random_u128(rng: &mut StdRng) -> (res: u128) {
    u128::rand(rng)
}

/// `x` is the number of 128 bits that is drawn from the generator of random numbers `r`.
pub closed spec fn u128_drawn(r: &mut StdRng, x: u128) -> bool {
    call_ensures(random_u128, (r,), x)
}

/// What is drawn is what `u128::rand` returns.
proof fn law_u128_drawn(r: &mut StdRng, x: u128)
    ensures
        u128_drawn(r, x) == call_ensures(random_u128, (r,), x),
{
}

/// `x` is at index `k` of `s`.
pub open spec fn is_entry(s: Seq<u128>, k: int, x: u128) -> bool {
    0 <= k < s.len() && s[k] == x
}

/// `c` is the commitment to the polynomial `p`: each coefficient has a power, and `c` is the sum of
/// the multiples of the powers by the coefficients.
pub open spec fn is_commitment<E: PairingGroups>(
    c: E::G1Affine,
    powers: Seq<E::G1Affine>,
    p: Seq<int>,
) -> bool {
    &&& p.len() <= powers.len()
    &&& E::g1_log(c) == dot(g1_logs::<E>(powers), p, p.len() as int) % E::order()
}

/// `e` reports that a polynomial of degree `d` was too large for `num_powers` powers.
pub open spec fn is_too_large(e: Error, d: int, num_powers: int) -> bool {
    e matches Error::TooManyCoefficients { num_coefficients: x, num_powers: y } && x == d && y
        == num_powers
}

/// `res` is the outcome of committing to the polynomial `p` with `powers`: an error if and only if
/// there are more coefficients than powers, else the commitment.
pub open spec fn commits<E: PairingGroups>(
    res: Result<E::G1Affine, Error>,
    powers: Seq<E::G1Affine>,
    p: Seq<int>,
) -> bool {
    match res {
        Ok(c) => is_commitment::<E>(c, powers, p),
        Err(e) => p.len() > powers.len() && is_too_large(e, degree(p), powers.len() as int),
    }
}

/// `res` is the outcome of opening the polynomial `p` at `z` with `powers`: an error if and only if
/// the degree is larger than the number of powers, else the commitment to the witness.
pub open spec fn opens<E: PairingGroups>(
    res: Result<E::G1Affine, Error>,
    powers: Seq<E::G1Affine>,
    p: Seq<int>,
    z: int,
) -> bool {
    match res {
        Ok(w) => degree(p) <= powers.len() && is_commitment::<E>(
            w,
            powers,
            witness(p, z, E::order()),
        ),
        Err(e) => degree(p) > powers.len() && is_too_large(e, degree(p), powers.len() as int),
    }
}

/// The number of openings in four lists, which is the length of the shortest.
pub open spec fn opening_count(commitments: nat, points: nat, values: nat, proofs: nat) -> nat {
    min_len(min_len(min_len(commitments, points), values), proofs)
}

/// The factors by which `n` openings are combined: 1 for the first, and what was drawn for the
/// others.
pub open spec fn randomizers(draws: Seq<u128>, n: nat, order: int) -> Seq<int> {
    Seq::new(
        n,
        |i: int|
            if i == 0 {
                1
            } else {
                (draws[i - 1] as int) % order
            },
    )
}

/// For each opening of a commitment `c` at a point `z` with a proof `w`, the sum of `c` and
/// `z * w`.
pub open spec fn shifted_commitments(
    commitments: Seq<int>,
    points: Seq<int>,
    proofs: Seq<int>,
    n: nat,
) -> Seq<int> {
    Seq::new(n, |i: int| commitments[i] + points[i] * proofs[i])
}

/// The logarithm, not yet reduced, of the combined commitment: the sum of `r * (c + z * w) - r * v
/// * g` over all openings of a commitment `c` at a point `z` to a value `v` with a proof `w`, each
/// with its factor `r`.
pub open spec fn aggregated_commitment<E: PairingGroups>(
    g: E::G1Affine,
    commitments: Seq<E::G1Affine>,
    points: Seq<E::Fr>,
    values: Seq<E::Fr>,
    proofs: Seq<E::G1Affine>,
    draws: Seq<u128>,
) -> int {
    let n = opening_count(commitments.len(), points.len(), values.len(), proofs.len());
    let r = randomizers(draws, n, E::order());
    let c = shifted_commitments(
        g1_logs::<E>(commitments),
        scalars::<E>(points),
        g1_logs::<E>(proofs),
        n,
    );
    dot(r, c, n as int) - dot(r, scalars::<E>(values), n as int) * E::g1_log(g)
}

/// The logarithm, not yet reduced, of the combined proof: the sum of `r * w` over all openings
/// with a proof `w` and a factor `r`.
pub open spec fn aggregated_proof<E: PairingGroups>(
    commitments: Seq<E::G1Affine>,
    points: Seq<E::Fr>,
    values: Seq<E::Fr>,
    proofs: Seq<E::G1Affine>,
    draws: Seq<u128>,
) -> int {
    let n = opening_count(commitments.len(), points.len(), values.len(), proofs.len());
    dot(randomizers(draws, n, E::order()), g1_logs::<E>(proofs), n as int)
}

/// `totals` are the combined commitment and the combined proof.
pub open spec fn aggregates<E: PairingGroups>(
    totals: (E::G1Projective, E::G1Projective),
    g: E::G1Affine,
    commitments: Seq<E::G1Affine>,
    points: Seq<E::Fr>,
    values: Seq<E::Fr>,
    proofs: Seq<E::G1Affine>,
    draws: Seq<u128>,
) -> bool {
    &&& E::g1_projective_log(totals.0) == aggregated_commitment::<E>(
        g,
        commitments,
        points,
        values,
        proofs,
        draws,
    ) % E::order()
    &&& E::g1_projective_log(totals.1) == aggregated_proof::<E>(
        commitments,
        points,
        values,
        proofs,
        draws,
    ) % E::order()
}

/// The pairing of an element of `G1` with logarithm `c` and the generator of `G2` equals that of
/// an element of `G1` with logarithm `w` and `beta` times that generator.
pub open spec fn pairings_agree<E: PairingGroups>(
    vk: PreparedVerifierKey<E>,
    c: int,
    w: int,
) -> bool {
    (c * E::g2_prepared_log(vk.prepared_h) - w * E::g2_prepared_log(vk.prepared_beta_h))
        % E::order() == 0
}

/// The batch of openings passes the check when it is combined with what was drawn.
pub open spec fn accepts<E: PairingGroups>(
    vk: PreparedVerifierKey<E>,
    commitments: Seq<E::G1Affine>,
    points: Seq<E::Fr>,
    values: Seq<E::Fr>,
    proofs: Seq<E::G1Affine>,
    draws: Seq<u128>,
) -> bool {
    pairings_agree(
        vk,
        aggregated_commitment::<E>(vk.g, commitments, points, values, proofs, draws),
        aggregated_proof::<E>(commitments, points, values, proofs, draws),
    )
}

/// Reducing the two logarithms does not change whether the pairings agree.
pub proof fn lemma_pairings_agree_mod<E: PairingGroups>(vk: PreparedVerifierKey<E>, c: int, w: int)
    ensures
        pairings_agree(vk, c % E::order(), w % E::order()) == pairings_agree(vk, c, w),
{
    E::lemma_reduced();
    let m = E::order();
    let (h, b) = (E::g2_prepared_log(vk.prepared_h), E::g2_prepared_log(vk.prepared_beta_h));
    lemma_mul_mod_noop_left(c, h, m);
    lemma_mul_mod_noop_left(w, b, m);
    lemma_cong_sub((c % m) * h, c * h, (w % m) * b, w * b, m);
}

/// The length of the shortest of four lists.
fn count_openings(commitments: usize, points: usize, values: usize, proofs: usize) -> (res: usize)
    ensures
        res <= commitments && res <= points && res <= values && res <= proofs,
        res == commitments || res == points || res == values || res == proofs,
        res == opening_count(commitments as nat, points as nat, values as nat, proofs as nat),
{
    let mut n = commitments;
    if points < n {
        n = points;
    }
    if values < n {
        n = values;
    }
    if proofs < n {
        n = proofs;
    }
    n
}

/// `n` numbers of 128 bits: factors need not come from the full field. Each is drawn in the state
/// in which the one before it left the generator.
fn draw(n: usize, rng: &mut StdRng) -> (res: Vec<u128>)
    ensures
        res@.len() == n,
        n == 0 ==> *final(rng) == *old(rng),
        exists|states: Seq<StdRng>|
            #![trigger states.len()]
            states.len() == n + 1 && states[0] == *old(rng) && states[n as int] == *final(rng)
                && (forall|k: int, x: u128| #[trigger]
                is_entry(res@, k, x) ==> exists|r: &mut StdRng|
                #[trigger] u128_drawn(r, x) && *r == states[k] && *final(r) == states[k + 1]),
{
    let mut draws: Vec<u128> = Vec::new();
    let ghost mut states: Seq<StdRng> = seq![*rng];
    for i in 0..n
        invariant
            draws@.len() == i,
            states.len() == i + 1,
            states[0] == *old(rng),
            states[i as int] == *rng,
            forall|k: int, x: u128| #[trigger]
                is_entry(draws@, k, x) ==> exists|r: &mut StdRng|
                #[trigger] u128_drawn(r, x) && *r == states[k] && *final(r) == states[k + 1],
    {
        let ghost before = draws@;
        let y = call_with(random_u128, rng);
        draws.push(y);
        proof {
            states = states.push(*rng);
            assert forall|r: &mut StdRng|
                #![trigger call_ensures(random_u128, (r,), y)]
                call_ensures(random_u128, (r,), y) implies u128_drawn(r, y) by {
                law_u128_drawn(r, y);
            }
            assert forall|k: int, x: u128| #[trigger]
                is_entry(draws@, k, x) implies exists|r: &mut StdRng|
                #[trigger] u128_drawn(r, x) && *r == states[k] && *final(r) == states[k + 1] by {
                if k < i {
                    assert(is_entry(before, k, x));
                }
            }
        }
    }
    assert(states.len() == n + 1);
    draws
}

/// A sum that is kept modulo `m` stays congruent when a term is added.
proof fn lemma_accumulate(sum: int, term: int, m: int)
    requires
        m > 0,
    ensures
        ((sum % m) + (term % m)) % m == (sum + term) % m,
{
    lemma_add_mod_noop(sum, term, m);
}

/// The integers that the scalars `p` stand for, as a multiplication takes them.
fn convert_to_bigints<E: PairingEngine>(p: &[E::Fr]) -> (res: Vec<E::BigInt>)
    ensures
        bigints::<E>(res@) == scalars::<E>(p@),
        forall|i: int|
            0 <= i < res@.len() ==> 0 <= #[trigger] E::bigint_int(res@[i]) < E::order(),
{
    let mut coeffs: Vec<E::BigInt> = Vec::new();
    for i in 0..p.len()
        invariant
            coeffs@.len() == i,
            forall|j: int|
                0 <= j < i ==> #[trigger] E::bigint_int(coeffs@[j]) == E::fr_int(p@[j]),
    {
        coeffs.push(E::fr_into_repr(&p[i]));
    }
    proof {
        E::lemma_reduced();
        assert(bigints::<E>(coeffs@) =~= scalars::<E>(p@));
    }
    coeffs
}

/// The number of coefficients of `p`, from the lowest up, that are 0, and the other coefficients.
fn skip_leading_zeros_and_convert_to_bigints<E: PairingEngine>(p: &DensePolynomial<E>) -> (res: (
    usize,
    Vec<E::BigInt>,
))
    ensures
        res.0 <= p@.len(),
        forall|i: int| 0 <= i < res.0 ==> #[trigger] p@[i] == 0,
        res.0 < p@.len() ==> p@[res.0 as int] != 0,
        bigints::<E>(res.1@) == p@.skip(res.0 as int),
        forall|i: int|
            0 <= i < res.1@.len() ==> 0 <= #[trigger] E::bigint_int(res.1@[i]) < E::order(),
{
    let all = p.coeffs();
    let mut num_leading_zeros: usize = 0;
    while num_leading_zeros < all.len() && E::fr_is_zero(&all[num_leading_zeros])
        invariant
            scalars::<E>(all@) == p@,
            num_leading_zeros <= all@.len(),
            forall|i: int| 0 <= i < num_leading_zeros ==> #[trigger] p@[i] == 0,
        decreases all@.len() - num_leading_zeros,
    {
        assert(p@[num_leading_zeros as int] == E::fr_int(all@[num_leading_zeros as int]));
        num_leading_zeros = num_leading_zeros + 1;
    }
    let rest = slice_subrange(all, num_leading_zeros, all.len());
    let coeffs = convert_to_bigints::<E>(rest);
    assert(scalars::<E>(rest@) =~= p@.skip(num_leading_zeros as int));
    (num_leading_zeros, coeffs)
}

/// Leaving out the lowest coefficients that are 0, and the powers that belong to them, does not
/// change the commitment.
proof fn lemma_leading_zeros_do_not_count<E: PairingGroups>(
    powers: Seq<E::G1Affine>,
    p: Seq<int>,
    coeffs: Seq<E::BigInt>,
    k: int,
)
    requires
        p.len() <= powers.len(),
        0 <= k <= p.len(),
        forall|i: int| 0 <= i < k ==> #[trigger] p[i] == 0,
        bigints::<E>(coeffs) == p.skip(k),
    ensures
        inner_product(g1_logs::<E>(powers.subrange(k, powers.len() as int)), bigints::<E>(coeffs))
            == dot(g1_logs::<E>(powers), p, p.len() as int),
{
    let logs = g1_logs::<E>(powers);
    assert(g1_logs::<E>(powers.subrange(k, powers.len() as int)) =~= logs.skip(k));
    lemma_dot_skip_zeros(logs, p, k, p.len() as int);
}

impl<E: PairingEngine> KZG10<E> {
    /// Constructs public parameters when given as input the maximum degree `max_degree` for the
    /// polynomial commitment scheme. The secret and the generators are drawn from `rng`.
    pub fn setup(max_degree: usize, rng: &mut StdRng) -> (res: Result<UniversalParams<E>, Error>)
        requires
            max_degree < usize::MAX,
        ensures
            max_degree < 1 <==> res is Err,
            res matches Err(e) ==> e == Error::DegreeIsZero,
            max_degree < 1 ==> *final(rng) == *old(rng),
            res matches Ok(pp) ==> exists|beta: int, g: int, h: int|
                0 <= beta < E::order() && 0 <= g < E::order() && 0 <= h < E::order()
                    && #[trigger] is_setup(pp, max_degree as int, beta, g, h),
            res matches Ok(pp) ==> exists|
                r: &mut StdRng,
                s: &mut StdRng,
                t: &mut StdRng,
                beta: E::Fr,
                g: E::G1Projective,
                h: E::G2Projective,
            |
                #![trigger E::fr_drawn(r, beta), E::g1_drawn(s, g), E::g2_drawn(t, h)]
                *r == *old(rng) && *final(r) == *s && *final(s) == *t && *final(t) == *final(rng)
                    && E::fr_drawn(r, beta) && E::g1_drawn(s, g) && E::g2_drawn(t, h) && is_setup(
                    pp,
                    max_degree as int,
                    E::fr_int(beta),
                    E::g1_projective_log(g),
                    E::g2_projective_log(h),
                ),
    {
        if max_degree < 1 {
            return Err(Error::DegreeIsZero);
        }
        let beta = E::fr_rand(rng);
        let g = E::g1_rand(rng);
        let h = E::g2_rand(rng);
        proof {
            E::lemma_reduced();
        }
        Self::setup_with(max_degree, &beta, &g, &h)
    }

    /// Constructs public parameters for the secret `beta` and the generators `g` and `h`.
    pub fn setup_with(
        max_degree: usize,
        beta: &E::Fr,
        g: &E::G1Projective,
        h: &E::G2Projective,
    ) -> (res: Result<UniversalParams<E>, Error>)
        requires
            max_degree < usize::MAX,
        ensures
            max_degree < 1 <==> res is Err,
            res matches Err(e) ==> e == Error::DegreeIsZero,
            res matches Ok(pp) ==> is_setup(
                pp,
                max_degree as int,
                E::fr_int(*beta),
                E::g1_projective_log(*g),
                E::g2_projective_log(*h),
            ),
    {
        if max_degree < 1 {
            return Err(Error::DegreeIsZero);
        }
        let ghost b = E::fr_int(*beta);
        let ghost m = E::order();
        let mut powers_of_beta: Vec<E::Fr> = Vec::new();
        powers_of_beta.push(E::fr_one());
        let mut cur = *beta;
        proof {
            E::lemma_reduced();
            reveal(pow);
            lemma_small_mod(1, m as nat);
            lemma_small_mod(b as nat, m as nat);
            assert(pow(b, 1) == b * pow(b, 0));
        }
        for i in 0..max_degree
            invariant
                m == E::order(),
                m > 1,
                b == E::fr_int(*beta),
                powers_of_beta@.len() == i + 1,
                E::fr_int(cur) == pow(b, (i + 1) as nat) % m,
                forall|j: int|
                    0 <= j <= i ==> #[trigger] E::fr_int(powers_of_beta@[j]) == pow(b, j as nat)
                        % m,
        {
            powers_of_beta.push(cur);
            proof {
                reveal(pow);
                let p = pow(b, (i + 1) as nat);
                lemma_mul_mod_noop_left(p, b, m);
                assert(pow(b, (i + 2) as nat) == b * p);
                assert(p * b == b * p) by (nonlinear_arith);
            }
            cur = E::fr_mul(&cur, beta);
        }
        let window_size = mul_window_size(max_degree + 1);
        proof {
            lemma_window_fits((max_degree + 1) as usize, window_size);
        }
        let scalar_bits = E::scalar_bits();
        let g_table = E::g1_window_table(scalar_bits, window_size, g);
        let powers_of_g = E::g1_fixed_base_msm(
            scalar_bits,
            window_size,
            g_table.as_slice(),
            powers_of_beta.as_slice(),
        );
        let ghost projective = powers_of_g@;
        let powers_of_g = E::g1_batch_into_affine(powers_of_g.as_slice());
        let h = E::g2_into_affine(h);
        let beta_h = E::g2_into_affine(&E::g2_mul(&h, beta));
        proof {
            let g_log = E::g1_projective_log(*g);
            assert forall|i: int| 0 <= i <= max_degree implies #[trigger] E::g1_log(powers_of_g@[i])
                == pow(b, i as nat) * g_log % m by {
                assert(is_window_table(
                    table_logs::<E>(g_table@),
                    scalar_bits as int,
                    window_size as int,
                    g_log,
                    m,
                ));
                assert(E::g1_projective_log(projective[i]) == E::fr_int(powers_of_beta@[i]) * g_log
                    % m);
                lemma_mul_mod_noop_left(pow(b, i as nat), g_log, m);
            }
            let h_log = E::g2_log(h);
            assert(h_log * b == b * h_log) by (nonlinear_arith);
        }
        Ok(UniversalParams { powers_of_g, h, beta_h })
    }

    /// Outputs a commitment to `polynomial`.
    pub fn commit(powers: &Powers<E>, polynomial: &DensePolynomial<E>) -> (res: Result<
        E::G1Affine,
        Error,
    >)
        ensures
            res is Ok <==> polynomial@.len() <= powers.powers_of_g@.len(),
            commits::<E>(res, powers.powers_of_g@, polynomial@),
    {
        Self::check_coefficients_have_powers(powers, polynomial)?;
        let (num_leading_zeros, plain_coeffs) = skip_leading_zeros_and_convert_to_bigints(
            polynomial,
        );
        proof {
            lemma_leading_zeros_do_not_count::<E>(
                powers.powers_of_g@,
                polynomial@,
                plain_coeffs@,
                num_leading_zeros as int,
            );
        }
        let commitment = E::g1_variable_base_msm(
            slice_subrange(
                powers.powers_of_g.as_slice(),
                num_leading_zeros,
                powers.powers_of_g.len(),
            ),
            plain_coeffs.as_slice(),
        );
        Ok(E::g1_into_affine(&commitment))
    }

    /// Computes the witness polynomial.
    ///
    /// The witness polynomial `w(x)` is the quotient of the division `(p(x) - p(z)) / (x - z)`.
    /// As `p(z)` is the remainder term of `p(x) / (x - z)`, the quotient is the same without it.
    pub fn compute_witness_polynomial(p: &DensePolynomial<E>, point: E::Fr) -> (res: Result<
        DensePolynomial<E>,
        Error,
    >)
        ensures
            res is Ok,
            res->Ok_0@ == witness(p@, E::fr_int(point), E::order()),
    {
        let mut divisor: Vec<E::Fr> = Vec::new();
        divisor.push(E::fr_neg(&point));
        divisor.push(E::fr_one());
        let ghost d = scalars::<E>(divisor@);
        let divisor = DensePolynomial::<E>::from_coefficients_vec(divisor);
        proof {
            E::lemma_reduced();
            assert(d.last() == 1);
            assert(divisor@ == d);
            lemma_mod_twice(-E::fr_int(point), E::order());
        }
        let quotient = E::divide_polynomials(p.coeffs(), divisor.coeffs());
        proof {
            let q = scalars::<E>(quotient@);
            let r = choose|r: Seq<int>|
                #[trigger] is_division(p@, d, q, r, E::order());
            assert forall|i: int| 0 <= i < p@.len() implies 0 <= #[trigger] p@[i] < E::order() by {
                p.lemma_reduced(i);
            }
            lemma_division_by_linear(p@, d, q, r, E::fr_int(point), E::order());
        }
        let witness_polynomial = DensePolynomial::from_coefficients_vec(quotient);
        Ok(witness_polynomial)
    }

    /// Outputs the commitment to a witness polynomial, which is the proof of an evaluation.
    pub(crate) fn open_with_witness_polynomial(
        powers: &Powers<E>,
        witness_polynomial: &DensePolynomial<E>,
    ) -> (res: Result<E::G1Affine, Error>)
        ensures
            res is Ok <==> witness_polynomial@.len() <= powers.powers_of_g@.len(),
            commits::<E>(res, powers.powers_of_g@, witness_polynomial@),
    {
        Self::check_coefficients_have_powers(powers, witness_polynomial)?;
        let (num_leading_zeros, witness_coeffs) = skip_leading_zeros_and_convert_to_bigints(
            witness_polynomial,
        );
        proof {
            lemma_leading_zeros_do_not_count::<E>(
                powers.powers_of_g@,
                witness_polynomial@,
                witness_coeffs@,
                num_leading_zeros as int,
            );
        }
        let w = E::g1_variable_base_msm(
            slice_subrange(
                powers.powers_of_g.as_slice(),
                num_leading_zeros,
                powers.powers_of_g.len(),
            ),
            witness_coeffs.as_slice(),
        );
        Ok(E::g1_into_affine(&w))
    }

    /// On input a polynomial `p` and a point `point`, outputs a proof for the same.
    pub fn open(powers: &Powers<E>, p: &DensePolynomial<E>, point: E::Fr) -> (res: Result<
        E::G1Affine,
        Error,
    >)
        ensures
            res is Ok <==> p@.len() <= powers.powers_of_g@.len() + 1,
            opens::<E>(res, powers.powers_of_g@, p@, E::fr_int(point)),
    {
        Self::check_degree_is_too_large(p.degree(), powers.size())?;
        let witness_poly = Self::compute_witness_polynomial(p, point)?;
        Self::open_with_witness_polynomial(powers, &witness_poly)
    }

    /// Combines openings into one, by factors that are drawn from `rng`.
    pub fn aggregate_openings(
        vk: &PreparedVerifierKey<E>,
        commitments: &[E::G1Affine],
        points: &[E::Fr],
        values: &[E::Fr],
        proofs: &[E::G1Affine],
        rng: &mut StdRng,
    ) -> (res: (E::G1Projective, E::G1Projective))
        ensures
            opening_count(commitments@.len(), points@.len(), values@.len(), proofs@.len()) == 0
                ==> *final(rng) == *old(rng),
            exists|draws: Seq<u128>, states: Seq<StdRng>|
                #![trigger aggregates::<E>(
                    res,
                    vk.g,
                    commitments@,
                    points@,
                    values@,
                    proofs@,
                    draws,
                ), states.len()]
                draws.len() == opening_count(
                    commitments@.len(),
                    points@.len(),
                    values@.len(),
                    proofs@.len(),
                ) && states.len() == draws.len() + 1 && states[0] == *old(rng)
                    && states[draws.len() as int] == *final(rng) && (forall|k: int, x: u128|
                    #[trigger] is_entry(draws, k, x) ==> exists|r: &mut StdRng|
                    #[trigger] u128_drawn(r, x) && *r == states[k] && *final(r) == states[k + 1])
                    && aggregates::<E>(
                    res,
                    vk.g,
                    commitments@,
                    points@,
                    values@,
                    proofs@,
                    draws,
                ),
    {
        let n = count_openings(commitments.len(), points.len(), values.len(), proofs.len());
        let draws = draw(n, rng);
        Self::aggregate_openings_with(vk, commitments, points, values, proofs, draws.as_slice())
    }

    /// Combines openings into one: the first as it is, each of the others multiplied by the
    /// number that was drawn after the one before it.
    pub fn aggregate_openings_with(
        vk: &PreparedVerifierKey<E>,
        commitments: &[E::G1Affine],
        points: &[E::Fr],
        values: &[E::Fr],
        proofs: &[E::G1Affine],
        draws: &[u128],
    ) -> (res: (E::G1Projective, E::G1Projective))
        requires
            draws@.len() >= opening_count(
                commitments@.len(),
                points@.len(),
                values@.len(),
                proofs@.len(),
            ),
        ensures
            aggregates::<E>(res, vk.g, commitments@, points@, values@, proofs@, draws@),
    {
        let n = count_openings(commitments.len(), points.len(), values.len(), proofs.len());
        let ghost m = E::order();
        let ghost r = randomizers(draws@, n as nat, m);
        let ghost w = g1_logs::<E>(proofs@);
        let ghost v = scalars::<E>(values@);
        let ghost c = shifted_commitments(
            g1_logs::<E>(commitments@),
            scalars::<E>(points@),
            w,
            n as nat,
        );
        let mut total_c = E::g1_zero();
        let mut total_w = E::g1_zero();
        let mut randomizer = E::fr_one();
        // Instead of multiplying g in each turn, its coefficients are accumulated, and one
        // multiplication is performed at the end.
        let mut g_multiplier = E::fr_zero();
        proof {
            E::lemma_reduced();
            lemma_small_mod(0, m as nat);
        }
        for i in 0..n
            invariant
                m == E::order(),
                m > 1,
                n <= commitments@.len(),
                n <= points@.len(),
                n <= values@.len(),
                n <= proofs@.len(),
                n <= draws@.len(),
                r == randomizers(draws@, n as nat, m),
                w == g1_logs::<E>(proofs@),
                v == scalars::<E>(values@),
                c == shifted_commitments(
                    g1_logs::<E>(commitments@),
                    scalars::<E>(points@),
                    w,
                    n as nat,
                ),
                i < n ==> E::fr_int(randomizer) == r[i as int],
                E::fr_int(g_multiplier) == dot(r, v, i as int) % m,
                E::g1_projective_log(total_c) == dot(r, c, i as int) % m,
                E::g1_projective_log(total_w) == dot(r, w, i as int) % m,
        {
            let temp = E::g1_mul(&proofs[i], &points[i]);
            let temp = E::g1_add_mixed(&temp, &commitments[i]);
            g_multiplier = E::fr_add(&g_multiplier, &E::fr_mul(&randomizer, &values[i]));
            let exponent = E::fr_into_repr(&randomizer);
            total_c = E::g1_add(&total_c, &E::g1_projective_mul(&temp, &exponent));
            total_w = E::g1_add(&total_w, &E::g1_mul(&proofs[i], &randomizer));
            proof {
                let k = i as int;
                let (zk, ck) = (E::fr_int(points@[k]), E::g1_log(commitments@[k]));
                lemma_accumulate(dot(r, v, k), r[k] * v[k], m);
                // The logarithm of `temp` is `c[k]`.
                assert(w[k] * zk == zk * w[k]) by (nonlinear_arith);
                lemma_add_mod_noop_right(ck, zk * w[k], m);
                assert(E::g1_projective_log(temp) == c[k] % m);
                lemma_mul_mod_noop_left(c[k], r[k], m);
                assert(c[k] * r[k] == r[k] * c[k]) by (nonlinear_arith);
                lemma_accumulate(dot(r, c, k), r[k] * c[k], m);
                assert(w[k] * r[k] == r[k] * w[k]) by (nonlinear_arith);
                lemma_accumulate(dot(r, w, k), r[k] * w[k], m);
            }
            randomizer = E::fr_from_u128(draws[i]);
        }
        total_c = E::g1_sub(&total_c, &E::g1_mul(&vk.g, &g_multiplier));
        proof {
            let g = E::g1_log(vk.g);
            let (x, y) = (dot(r, c, n as int), dot(r, v, n as int));
            lemma_mul_mod_noop_right(g, y, m);
            assert(g * y == y * g) by (nonlinear_arith);
            lemma_sub_mod_noop(x, y * g, m);
        }
        (total_c, total_w)
    }

    /// Checks an opening that combines others.
    pub fn batch_check_aggregated(
        vk: &PreparedVerifierKey<E>,
        total_c: E::G1Projective,
        total_w: E::G1Projective,
    ) -> (res: Result<bool, Error>)
        ensures
            res is Ok,
            res->Ok_0 == pairings_agree(
                *vk,
                E::g1_projective_log(total_c),
                E::g1_projective_log(total_w),
            ),
    {
        let mut points: Vec<E::G1Projective> = Vec::new();
        points.push(total_c);
        points.push(E::g1_neg(&total_w));
        let affine_points = E::g1_batch_into_affine(points.as_slice());
        let result = E::product_of_pairings_is_one(
            &affine_points[0],
            &vk.prepared_h,
            &affine_points[1],
            &vk.prepared_beta_h,
        );
        proof {
            E::lemma_reduced();
            let m = E::order();
            let (c, w) = (E::g1_projective_log(total_c), E::g1_projective_log(total_w));
            let (h, b) = (
                E::g2_prepared_log(vk.prepared_h),
                E::g2_prepared_log(vk.prepared_beta_h),
            );
            assert(E::g1_log(affine_points@[0]) == c);
            assert(E::g1_log(affine_points@[1]) == (-w) % m);
            lemma_mul_mod_noop_left(-w, b, m);
            lemma_cong_add(c * h, c * h, ((-w) % m) * b, (-w) * b, m);
            assert(c * h + (-w) * b == c * h - w * b) by (nonlinear_arith);
        }
        Ok(result)
    }

    /// Checks that each proof in `proofs` is a valid proof of evaluation for the commitment at
    /// the same index, at the point and to the value at that index. The factors that combine the
    /// openings are drawn from `rng`.
    pub fn batch_check(
        vk: &PreparedVerifierKey<E>,
        commitments: &[E::G1Affine],
        points: &[E::Fr],
        values: &[E::Fr],
        proofs: &[E::G1Affine],
        rng: &mut StdRng,
    ) -> (res: Result<bool, Error>)
        ensures
            res is Ok,
            opening_count(commitments@.len(), points@.len(), values@.len(), proofs@.len()) == 0
                ==> *final(rng) == *old(rng),
            exists|draws: Seq<u128>, states: Seq<StdRng>|
                #![trigger accepts(
                    *vk,
                    commitments@,
                    points@,
                    values@,
                    proofs@,
                    draws,
                ), states.len()]
                draws.len() == opening_count(
                    commitments@.len(),
                    points@.len(),
                    values@.len(),
                    proofs@.len(),
                ) && states.len() == draws.len() + 1 && states[0] == *old(rng)
                    && states[draws.len() as int] == *final(rng) && (forall|k: int, x: u128|
                    #[trigger] is_entry(draws, k, x) ==> exists|r: &mut StdRng|
                    #[trigger] u128_drawn(r, x) && *r == states[k] && *final(r) == states[k + 1])
                    && res->Ok_0 == accepts(*vk, commitments@, points@, values@, proofs@, draws),
    {
        let (total_c, total_w) = Self::aggregate_openings(
            vk,
            commitments,
            points,
            values,
            proofs,
            rng,
        );
        let result = Self::batch_check_aggregated(vk, total_c, total_w)?;
        proof {
            assert forall|draws: Seq<u128>|
                #[trigger] aggregates::<E>(
                    (total_c, total_w),
                    vk.g,
                    commitments@,
                    points@,
                    values@,
                    proofs@,
                    draws,
                ) implies result == accepts(
                *vk,
                commitments@,
                points@,
                values@,
                proofs@,
                draws,
            ) by {
                lemma_pairings_agree_mod(
                    *vk,
                    aggregated_commitment::<E>(vk.g, commitments@, points@, values@, proofs@, draws),
                    aggregated_proof::<E>(commitments@, points@, values@, proofs@, draws),
                );
            }
        }
        Ok(result)
    }

    /// Checks a batch of openings that is combined with the numbers `draws`.
    pub fn batch_check_with(
        vk: &PreparedVerifierKey<E>,
        commitments: &[E::G1Affine],
        points: &[E::Fr],
        values: &[E::Fr],
        proofs: &[E::G1Affine],
        draws: &[u128],
    ) -> (res: Result<bool, Error>)
        requires
            draws@.len() >= opening_count(
                commitments@.len(),
                points@.len(),
                values@.len(),
                proofs@.len(),
            ),
        ensures
            res is Ok,
            res->Ok_0 == accepts(*vk, commitments@, points@, values@, proofs@, draws@),
    {
        let (total_c, total_w) = Self::aggregate_openings_with(
            vk,
            commitments,
            points,
            values,
            proofs,
            draws,
        );
        proof {
            lemma_pairings_agree_mod(
                *vk,
                aggregated_commitment::<E>(vk.g, commitments@, points@, values@, proofs@, draws@),
                aggregated_proof::<E>(commitments@, points@, values@, proofs@, draws@),
            );
        }
        Self::batch_check_aggregated(vk, total_c, total_w)
    }

    /// Turns down a polynomial with more coefficients than there are powers.
    fn check_coefficients_have_powers(powers: &Powers<E>, polynomial: &DensePolynomial<E>) -> (res:
        Result<(), Error>)
        ensures
            polynomial@.len() > powers.powers_of_g@.len() <==> res is Err,
            res matches Err(e) ==> is_too_large(
                e,
                degree(polynomial@),
                powers.powers_of_g@.len() as int,
            ),
    {
        let (degree, num_powers) = (polynomial.degree(), powers.size());
        Self::check_degree_is_too_large(degree, num_powers)?;
        if polynomial.coeffs().len() > num_powers {
            return Err(Error::TooManyCoefficients { num_coefficients: degree, num_powers });
        }
        Ok(())
    }

    /// Turns down a polynomial whose degree is larger than the number of powers.
    pub(crate) fn check_degree_is_too_large(num_coefficients: usize, num_powers: usize) -> (res:
        Result<(), Error>)
        ensures
            num_coefficients > num_powers <==> res is Err,
            res matches Err(e) ==> e == (Error::TooManyCoefficients {
                num_coefficients,
                num_powers,
            }),
    {
        if num_coefficients > num_powers {
            Err(Error::TooManyCoefficients { num_coefficients, num_powers })
        } else {
            Ok(())
        }
    }
}

} // verus!
