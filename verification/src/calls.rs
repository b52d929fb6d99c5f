//! What calls of the scheme's functions give, and how calls relate to one another.
//!
//! The laws of this module speak of calls themselves: `call_ensures(f, args, res)` says that `f`
//! may return `res` when it is called on `args`.
use rand::rngs::StdRng;
use vstd::arithmetic::div_mod::{lemma_mod_twice, lemma_small_mod};
use vstd::arithmetic::power::pow;
use vstd::prelude::*;

use crate::algebra::{
    coefficient, dot, eval, lemma_cong_add, lemma_cong_mul, lemma_dot_add, lemma_dot_ext,
    lemma_dot_padded, lemma_dot_single, lemma_eval_push, lemma_eval_step,
};
use crate::engine::{g1_logs, scalars, PairingEngine};
use crate::kzg::{
    accepts, aggregated_commitment, aggregated_proof, is_entry, is_setup, lemma_pairings_agree_mod,
    opening_count, randomizers, shifted_commitments, u128_drawn, Error, Powers, PreparedVerifierKey,
    UniversalParams, KZG10,
};
use crate::laws::{
    defects, is_honest_opening, law_defect_passes_one_draw_at_most,
    law_honest_openings_are_accepted, law_only_the_value_is_accepted, law_single_defect_is_refused,
};
use crate::polynomial::DensePolynomial;

verus! {

/// Committing succeeds if and only if the polynomial has no more coefficients than there are
/// powers, and the error else holds the degree and the number of powers.
pub proof fn law_commit_succeeds_where_powers_suffice<E: PairingEngine>(
    powers: &Powers<E>,
    p: &DensePolynomial<E>,
    res: Result<E::G1Affine, Error>,
)
    requires
        call_ensures(KZG10::<E>::commit, (powers, p), res),
    ensures
        p@.len() <= powers.powers_of_g@.len() ==> res is Ok,
        p@.len() > powers.powers_of_g@.len() ==> (res matches Err(
            Error::TooManyCoefficients { num_coefficients, num_powers },
        ) && num_coefficients == p@.len() - 1 && num_powers == powers.powers_of_g@.len()),
{
}

/// Opening succeeds if and only if the polynomial has at most one coefficient more than there are
/// powers, and the error else holds the degree and the number of powers.
pub proof fn law_open_succeeds_where_powers_suffice<E: PairingEngine>(
    powers: &Powers<E>,
    p: &DensePolynomial<E>,
    z: E::Fr,
    res: Result<E::G1Affine, Error>,
)
    requires
        call_ensures(KZG10::<E>::open, (powers, p, z), res),
    ensures
        p@.len() <= powers.powers_of_g@.len() + 1 ==> res is Ok,
        p@.len() > powers.powers_of_g@.len() + 1 ==> (res matches Err(
            Error::TooManyCoefficients { num_coefficients, num_powers },
        ) && num_coefficients == p@.len() - 1 && num_powers == powers.powers_of_g@.len()),
{
}

/// The commitment to the polynomial without coefficients is neutral.
pub proof fn law_commitment_to_zero_is_neutral<E: PairingEngine>(
    powers: &Powers<E>,
    p: &DensePolynomial<E>,
    c: E::G1Affine,
)
    requires
        call_ensures(KZG10::<E>::commit, (powers, p), Ok(c)),
        p@.len() == 0,
    ensures
        E::g1_log(c) == 0,
{
    E::lemma_reduced();
    lemma_small_mod(0, E::order() as nat);
}

/// Where two polynomials differ in one coefficient alone, their commitments differ by the
/// difference of the coefficients times the power that belongs to it. Coefficients that the first
/// polynomial lacks are 0.
pub proof fn law_commitment_follows_each_coefficient<E: PairingEngine>(
    powers: &Powers<E>,
    p: &DensePolynomial<E>,
    c: E::G1Affine,
    q: &DensePolynomial<E>,
    d: E::G1Affine,
    i: int,
)
    requires
        call_ensures(KZG10::<E>::commit, (powers, p), Ok(c)),
        call_ensures(KZG10::<E>::commit, (powers, q), Ok(d)),
        p@.len() <= q@.len(),
        0 <= i < q@.len(),
        forall|k: int|
            0 <= k < q@.len() && k != i ==> #[trigger] q@[k] == if k < p@.len() {
                p@[k]
            } else {
                0
            },
    ensures
        E::g1_log(d) == (E::g1_log(c) + (q@[i] - if i < p@.len() {
            p@[i]
        } else {
            0
        }) * E::g1_log(powers.powers_of_g@[i])) % E::order(),
{
    E::lemma_reduced();
    let m = E::order();
    let logs = g1_logs::<E>(powers.powers_of_g@);
    let n = logs.len() as int;
    lemma_dot_padded(logs, p@);
    lemma_dot_padded(logs, q@);
    let pp = Seq::new(logs.len(), |k: int| coefficient(p@, k));
    let qq = Seq::new(logs.len(), |k: int| coefficient(q@, k));
    let t = Seq::new(logs.len(), |k: int| qq[k] - pp[k]);
    lemma_small_mod(0, m as nat);
    assert forall|k: int| 0 <= k < n && k != i implies #[trigger] t[k] % m == 0 by {
        if k < q@.len() {
            assert(q@[k] == coefficient(p@, k));
        }
    }
    lemma_dot_add(logs, pp, t, qq, n);
    lemma_dot_single(logs, t, i, n, m);
    let (x, y) = (dot(logs, pp, n), dot(logs, t, n));
    assert(logs[i] * t[i] == t[i] * logs[i]) by (nonlinear_arith);
    lemma_mod_twice(x, m);
    lemma_cong_add(x % m, x, t[i] * logs[i], y, m);
}

/// The witness polynomial is the quotient by `X - z`: it has one coefficient less than the
/// polynomial, and each is the next coefficient of the polynomial plus `z` times its own
/// successor.
pub proof fn law_witness_polynomial_divides<E: PairingEngine>(
    p: &DensePolynomial<E>,
    z: E::Fr,
    res: Result<DensePolynomial<E>, Error>,
)
    requires
        call_ensures(KZG10::<E>::compute_witness_polynomial, (p, z), res),
    ensures
        res is Ok,
        p@.len() == 0 ==> res->Ok_0@.len() == 0,
        p@.len() > 0 ==> res->Ok_0@.len() == p@.len() - 1,
        forall|i: int|
            0 <= i < p@.len() - 1 ==> #[trigger] res->Ok_0@[i] == (p@[i + 1] + E::fr_int(z) * if i
                + 1 < p@.len() - 1 {
                res->Ok_0@[i + 1]
            } else {
                0
            }) % E::order(),
{
    E::lemma_reduced();
    let (m, x) = (E::order(), E::fr_int(z));
    let w = res->Ok_0@;
    assert forall|i: int| 0 <= i < p@.len() - 1 implies #[trigger] w[i] == (p@[i + 1] + x * if i + 1
        < p@.len() - 1 {
        w[i + 1]
    } else {
        0
    }) % m by {
        lemma_eval_step(p@, x, i + 1);
        let t = eval(p@.skip(i + 2), x);
        if i + 1 < p@.len() - 1 {
            assert(w[i + 1] == t % m);
            lemma_mod_twice(t, m);
            lemma_cong_mul(x, x, t % m, t, m);
            lemma_cong_add(p@[i + 1], p@[i + 1], x * (t % m), x * t, m);
        } else {
            assert(p@.skip(i + 2).len() == 0);
        }
    }
}

/// A proof is the commitment to the witness polynomial.
pub proof fn law_proof_is_commitment_to_witness<E: PairingEngine>(
    powers: &Powers<E>,
    p: &DensePolynomial<E>,
    z: E::Fr,
    w: E::G1Affine,
    q: DensePolynomial<E>,
    res: Result<E::G1Affine, Error>,
)
    requires
        call_ensures(KZG10::<E>::open, (powers, p, z), Ok(w)),
        call_ensures(KZG10::<E>::compute_witness_polynomial, (p, z), Ok(q)),
        call_ensures(KZG10::<E>::commit, (powers, &q), res),
    ensures
        res matches Ok(c) && E::g1_log(c) == E::g1_log(w),
{
}

/// The value of a polynomial is the sum of its coefficients times the powers of the point: that of
/// no coefficients is 0, and one more coefficient adds itself times the next power.
pub proof fn law_value_follows_each_coefficient(p: Seq<int>, a: int, x: int)
    ensures
        eval(Seq::empty(), x) == 0,
        eval(p.push(a), x) == eval(p, x) + a * pow(x, p.len()),
{
    lemma_eval_push(p, a, x);
}

/// Setup fails if and only if the degree is 0, and then draws nothing.
pub proof fn law_setup_fails_for_degree_zero<E: PairingEngine>(
    max_degree: usize,
    rng: &mut StdRng,
    res: Result<UniversalParams<E>, Error>,
)
    requires
        call_ensures(KZG10::<E>::setup, (max_degree, rng), res),
    ensures
        max_degree > 0 ==> res is Ok,
        max_degree == 0 ==> res == Err::<UniversalParams<E>, Error>(Error::DegreeIsZero),
        max_degree == 0 ==> *final(rng) == *old(rng),
{
}

/// Setup draws the secret, the generator of `G1` and the generator of `G2`, each in the state in
/// which the draw before left the generator of random numbers, and draws nothing else. The powers
/// are those of the secret up to the degree, times the generator of `G1`.
pub proof fn law_setup_draws_secret_and_generators<E: PairingEngine>(
    max_degree: usize,
    rng: &mut StdRng,
    pp: UniversalParams<E>,
)
    requires
        call_ensures(KZG10::<E>::setup, (max_degree, rng), Ok(pp)),
    ensures
        pp.powers_of_g@.len() == max_degree + 1,
        exists|
            r: &mut StdRng,
            s: &mut StdRng,
            t: &mut StdRng,
            beta: E::Fr,
            g: E::G1Projective,
            h: E::G2Projective,
        |
            #![trigger E::fr_drawn(r, beta), E::g1_drawn(s, g), E::g2_drawn(t, h)]
            *r == *old(rng) && *final(r) == *s && *final(s) == *t && *final(t) == *final(rng)
                && E::fr_drawn(r, beta) && E::g1_drawn(s, g) && E::g2_drawn(t, h) && E::g2_log(pp.h)
                == E::g2_projective_log(h) && E::g2_log(pp.beta_h) == E::fr_int(beta)
                * E::g2_projective_log(h) % E::order() && (forall|i: int|
                0 <= i <= max_degree ==> #[trigger] E::g1_log(pp.powers_of_g@[i]) == pow(
                    E::fr_int(beta),
                    i as nat,
                ) * E::g1_projective_log(g) % E::order()),
{
}

/// With a given secret and given generators, the powers are those of the secret up to the degree,
/// times the generator of `G1`.
pub proof fn law_setup_with_gives_powers<E: PairingEngine>(
    max_degree: usize,
    beta: &E::Fr,
    g: &E::G1Projective,
    h: &E::G2Projective,
    res: Result<UniversalParams<E>, Error>,
)
    requires
        call_ensures(KZG10::<E>::setup_with, (max_degree, beta, g, h), res),
    ensures
        max_degree == 0 ==> res == Err::<UniversalParams<E>, Error>(Error::DegreeIsZero),
        max_degree > 0 ==> (res matches Ok(pp) && pp.powers_of_g@.len() == max_degree + 1
            && E::g2_log(pp.h) == E::g2_projective_log(*h) && E::g2_log(pp.beta_h) == E::fr_int(
            *beta,
        ) * E::g2_projective_log(*h) % E::order() && (forall|i: int|
            0 <= i <= max_degree ==> #[trigger] E::g1_log(pp.powers_of_g@[i]) == pow(
                E::fr_int(*beta),
                i as nat,
            ) * E::g1_projective_log(*g) % E::order())),
{
}

/// With the powers of a setup, committing to a polynomial succeeds if and only if it has at most
/// one coefficient more than the degree of the setup, and then opening it succeeds too.
pub proof fn law_setup_supports_its_degree<E: PairingEngine>(
    max_degree: usize,
    rng: &mut StdRng,
    pp: UniversalParams<E>,
    powers: &Powers<E>,
    p: &DensePolynomial<E>,
    commitment: Result<E::G1Affine, Error>,
    z: E::Fr,
    proof_of_value: Result<E::G1Affine, Error>,
)
    requires
        call_ensures(KZG10::<E>::setup, (max_degree, rng), Ok(pp)),
        powers.powers_of_g@ == pp.powers_of_g@,
        call_ensures(KZG10::<E>::commit, (powers, p), commitment),
        call_ensures(KZG10::<E>::open, (powers, p, z), proof_of_value),
    ensures
        commitment is Ok <==> p@.len() <= max_degree + 1,
        commitment is Ok ==> proof_of_value is Ok,
{
}

/// Sums over the first `n` openings read nothing else.
proof fn lemma_sums_read_prefix<E: PairingEngine>(
    commitments: Seq<E::G1Affine>,
    points: Seq<E::Fr>,
    values: Seq<E::Fr>,
    proofs: Seq<E::G1Affine>,
    draws: Seq<u128>,
    len: nat,
    n: nat,
    longer_draws: Seq<u128>,
    longer_len: nat,
    longer_commitments: Seq<E::G1Affine>,
    longer_points: Seq<E::Fr>,
    longer_values: Seq<E::Fr>,
    longer_proofs: Seq<E::G1Affine>,
)
    requires
        n <= len,
        n <= longer_len,
        n <= commitments.len(),
        n <= points.len(),
        n <= values.len(),
        n <= proofs.len(),
        n <= longer_commitments.len(),
        n <= longer_points.len(),
        n <= longer_values.len(),
        n <= longer_proofs.len(),
        forall|k: int| 0 <= k < n - 1 ==> #[trigger] draws[k] == longer_draws[k],
        forall|k: int| 0 <= k < n ==> #[trigger] commitments[k] == longer_commitments[k],
        forall|k: int| 0 <= k < n ==> #[trigger] points[k] == longer_points[k],
        forall|k: int| 0 <= k < n ==> #[trigger] values[k] == longer_values[k],
        forall|k: int| 0 <= k < n ==> #[trigger] proofs[k] == longer_proofs[k],
    ensures
        ({
            let (r, s) = (
                randomizers(draws, len, E::order()),
                randomizers(longer_draws, longer_len, E::order()),
            );
            let c = shifted_commitments(
                g1_logs::<E>(commitments),
                scalars::<E>(points),
                g1_logs::<E>(proofs),
                len,
            );
            let d = shifted_commitments(
                g1_logs::<E>(longer_commitments),
                scalars::<E>(longer_points),
                g1_logs::<E>(longer_proofs),
                longer_len,
            );
            &&& dot(r, c, n as int) == dot(s, d, n as int)
            &&& dot(r, scalars::<E>(values), n as int) == dot(
                s,
                scalars::<E>(longer_values),
                n as int,
            )
            &&& dot(r, g1_logs::<E>(proofs), n as int) == dot(
                s,
                g1_logs::<E>(longer_proofs),
                n as int,
            )
        }),
{
    let r = randomizers(draws, len, E::order());
    let s = randomizers(longer_draws, longer_len, E::order());
    let c = shifted_commitments(
        g1_logs::<E>(commitments),
        scalars::<E>(points),
        g1_logs::<E>(proofs),
        len,
    );
    let d = shifted_commitments(
        g1_logs::<E>(longer_commitments),
        scalars::<E>(longer_points),
        g1_logs::<E>(longer_proofs),
        longer_len,
    );
    let (v, y) = (scalars::<E>(values), scalars::<E>(longer_values));
    let (w, x) = (g1_logs::<E>(proofs), g1_logs::<E>(longer_proofs));
    assert forall|k: int| 0 <= k < n implies #[trigger] r[k] == s[k] by {
        if k > 0 {
            assert(draws[k - 1] == longer_draws[k - 1]);
        }
    }
    assert forall|k: int| 0 <= k < n implies #[trigger] w[k] == x[k] by {
        assert(proofs[k] == longer_proofs[k]);
    }
    assert forall|k: int| 0 <= k < n implies #[trigger] v[k] == y[k] by {
        assert(values[k] == longer_values[k]);
    }
    assert forall|k: int| 0 <= k < n implies #[trigger] c[k] == d[k] by {
        assert(commitments[k] == longer_commitments[k]);
        assert(points[k] == longer_points[k]);
        assert(proofs[k] == longer_proofs[k]);
    }
    lemma_dot_ext(r, c, s, d, n as int);
    lemma_dot_ext(r, v, s, y, n as int);
    lemma_dot_ext(r, w, s, x, n as int);
}

/// Without openings both totals are neutral.
pub proof fn law_no_openings_aggregate_to_neutral<E: PairingEngine>(
    vk: &PreparedVerifierKey<E>,
    commitments: &[E::G1Affine],
    points: &[E::Fr],
    values: &[E::Fr],
    proofs: &[E::G1Affine],
    draws: &[u128],
    totals: (E::G1Projective, E::G1Projective),
)
    requires
        call_ensures(
            KZG10::<E>::aggregate_openings_with,
            (vk, commitments, points, values, proofs, draws),
            totals,
        ),
        commitments@.len() == 0 || points@.len() == 0 || values@.len() == 0 || proofs@.len() == 0,
    ensures
        E::g1_projective_log(totals.0) == 0,
        E::g1_projective_log(totals.1) == 0,
{
    E::lemma_reduced();
    lemma_small_mod(0, E::order() as nat);
    assert(0 * E::g1_log(vk.g) == 0);
}

/// One more opening of a commitment `c` at a point `z` to a value `v` with a proof `w` adds
/// `r * (c + z * w - v * g)` to the total of the commitments and `r * w` to the total of the
/// proofs, where `r` is 1 for the first opening, and for each other the number that was drawn after
/// the opening before it.
pub proof fn law_each_opening_is_aggregated<E: PairingEngine>(
    vk: &PreparedVerifierKey<E>,
    commitments: &[E::G1Affine],
    points: &[E::Fr],
    values: &[E::Fr],
    proofs: &[E::G1Affine],
    draws: &[u128],
    totals: (E::G1Projective, E::G1Projective),
    fewer_commitments: &[E::G1Affine],
    fewer_points: &[E::Fr],
    fewer_values: &[E::Fr],
    fewer_proofs: &[E::G1Affine],
    fewer_draws: &[u128],
    fewer_totals: (E::G1Projective, E::G1Projective),
    n: int,
)
    requires
        call_ensures(
            KZG10::<E>::aggregate_openings_with,
            (vk, commitments, points, values, proofs, draws),
            totals,
        ),
        call_ensures(
            KZG10::<E>::aggregate_openings_with,
            (vk, fewer_commitments, fewer_points, fewer_values, fewer_proofs, fewer_draws),
            fewer_totals,
        ),
        n >= 0,
        commitments@.len() == n + 1,
        points@.len() == n + 1,
        values@.len() == n + 1,
        proofs@.len() == n + 1,
        fewer_commitments@ == commitments@.take(n),
        fewer_points@ == points@.take(n),
        fewer_values@ == values@.take(n),
        fewer_proofs@ == proofs@.take(n),
        forall|k: int| 0 <= k < n - 1 ==> #[trigger] fewer_draws@[k] == draws@[k],
    ensures
        ({
            let r = if n == 0 {
                1
            } else {
                (draws@[n - 1] as int) % E::order()
            };
            let w = E::g1_log(proofs@[n]);
            let t = E::g1_log(commitments@[n]) + E::fr_int(points@[n]) * w - E::fr_int(values@[n])
                * E::g1_log(vk.g);
            &&& E::g1_projective_log(totals.0) == (E::g1_projective_log(fewer_totals.0) + r * t)
                % E::order()
            &&& E::g1_projective_log(totals.1) == (E::g1_projective_log(fewer_totals.1) + r * w)
                % E::order()
        }),
{
    E::lemma_reduced();
    let m = E::order();
    lemma_sums_read_prefix::<E>(
        fewer_commitments@,
        fewer_points@,
        fewer_values@,
        fewer_proofs@,
        fewer_draws@,
        n as nat,
        n as nat,
        draws@,
        (n + 1) as nat,
        commitments@,
        points@,
        values@,
        proofs@,
    );
    let s = randomizers(draws@, (n + 1) as nat, m);
    let (v, w) = (scalars::<E>(values@), g1_logs::<E>(proofs@));
    let d = shifted_commitments(
        g1_logs::<E>(commitments@),
        scalars::<E>(points@),
        w,
        (n + 1) as nat,
    );
    let g = E::g1_log(vk.g);
    let (a, b, c) = (dot(s, d, n), dot(s, v, n), dot(s, w, n));
    let (r, t) = (s[n], d[n] - v[n] * g);
    assert(dot(s, d, n + 1) == a + r * d[n]);
    assert(dot(s, v, n + 1) == b + r * v[n]);
    assert(dot(s, w, n + 1) == c + r * w[n]);
    let (dn, vn) = (d[n], v[n]);
    assert(a + r * dn - (b + r * vn) * g == (a - b * g) + r * (dn - vn * g)) by (nonlinear_arith);
    lemma_mod_twice(a - b * g, m);
    lemma_cong_add((a - b * g) % m, a - b * g, r * t, r * t, m);
    lemma_mod_twice(c, m);
    lemma_cong_add(c % m, c, r * w[n], r * w[n], m);
}

/// What has no counterpart in one of the other lists does not change the totals.
pub proof fn law_excess_is_not_aggregated<E: PairingEngine>(
    vk: &PreparedVerifierKey<E>,
    commitments: &[E::G1Affine],
    points: &[E::Fr],
    values: &[E::Fr],
    proofs: &[E::G1Affine],
    draws: &[u128],
    totals: (E::G1Projective, E::G1Projective),
    fewer_commitments: &[E::G1Affine],
    fewer_points: &[E::Fr],
    fewer_values: &[E::Fr],
    fewer_proofs: &[E::G1Affine],
    fewer_draws: &[u128],
    fewer_totals: (E::G1Projective, E::G1Projective),
    n: int,
)
    requires
        call_ensures(
            KZG10::<E>::aggregate_openings_with,
            (vk, commitments, points, values, proofs, draws),
            totals,
        ),
        call_ensures(
            KZG10::<E>::aggregate_openings_with,
            (vk, fewer_commitments, fewer_points, fewer_values, fewer_proofs, fewer_draws),
            fewer_totals,
        ),
        0 <= n <= commitments@.len(),
        n <= points@.len(),
        n <= values@.len(),
        n <= proofs@.len(),
        n == commitments@.len() || n == points@.len() || n == values@.len() || n == proofs@.len(),
        fewer_commitments@ == commitments@.take(n),
        fewer_points@ == points@.take(n),
        fewer_values@ == values@.take(n),
        fewer_proofs@ == proofs@.take(n),
        forall|k: int| 0 <= k < n - 1 ==> #[trigger] fewer_draws@[k] == draws@[k],
    ensures
        E::g1_projective_log(totals.0) == E::g1_projective_log(fewer_totals.0),
        E::g1_projective_log(totals.1) == E::g1_projective_log(fewer_totals.1),
{
    lemma_sums_read_prefix::<E>(
        fewer_commitments@,
        fewer_points@,
        fewer_values@,
        fewer_proofs@,
        fewer_draws@,
        n as nat,
        n as nat,
        draws@,
        n as nat,
        commitments@,
        points@,
        values@,
        proofs@,
    );
}

/// `n` is the length of the shortest of four lists.
pub proof fn law_shortest_list_counts(
    commitments: nat,
    points: nat,
    values: nat,
    proofs: nat,
    n: nat,
)
    requires
        n <= commitments && n <= points && n <= values && n <= proofs,
        n == commitments || n == points || n == values || n == proofs,
    ensures
        opening_count(commitments, points, values, proofs) == n,
{
}

/// Each index of a list below its length has an entry.
pub proof fn law_each_index_has_entry(s: Seq<u128>, k: int)
    requires
        0 <= k < s.len(),
    ensures
        is_entry(s, k, s[k]),
{
}

/// The factors of a combination are drawn from the generator of random numbers: as many numbers as
/// there are openings, each in the state in which the draw before it left the generator, and
/// nothing else. The totals are those for these numbers.
pub proof fn law_aggregate_openings_draws_factors<E: PairingEngine>(
    vk: &PreparedVerifierKey<E>,
    commitments: &[E::G1Affine],
    points: &[E::Fr],
    values: &[E::Fr],
    proofs: &[E::G1Affine],
    rng: &mut StdRng,
    totals: (E::G1Projective, E::G1Projective),
    n: int,
)
    requires
        call_ensures(
            KZG10::<E>::aggregate_openings,
            (vk, commitments, points, values, proofs, rng),
            totals,
        ),
        0 <= n <= commitments@.len() && n <= points@.len() && n <= values@.len() && n
            <= proofs@.len(),
        n == commitments@.len() || n == points@.len() || n == values@.len() || n == proofs@.len(),
    ensures
        exists|draws: Seq<u128>, states: Seq<StdRng>|
            #![trigger draws.len(), states.len()]
            draws.len() == n && states.len() == n + 1 && states[0] == *old(rng) && states[n]
                == *final(rng) && (forall|k: int, x: u128| #[trigger]
                is_entry(draws, k, x) ==> exists|r: &mut StdRng|
                #[trigger] u128_drawn(r, x) && *r == states[k] && *final(r) == states[k + 1]) && (
            forall|d: &[u128], t: (E::G1Projective, E::G1Projective)|
                #![trigger call_ensures(
                    KZG10::<E>::aggregate_openings_with,
                    (vk, commitments, points, values, proofs, d),
                    t,
                )]
                d@ == draws && call_ensures(
                    KZG10::<E>::aggregate_openings_with,
                    (vk, commitments, points, values, proofs, d),
                    t,
                ) ==> E::g1_projective_log(t.0) == E::g1_projective_log(totals.0)
                    && E::g1_projective_log(t.1) == E::g1_projective_log(totals.1)),
{
    law_shortest_list_counts(
        commitments@.len(),
        points@.len(),
        values@.len(),
        proofs@.len(),
        n as nat,
    );
}

/// A combined opening is accepted if and only if the pairing of its commitment with the generator
/// of `G2` is that of its proof with `beta` times the generator.
pub proof fn law_combined_opening_is_checked_by_pairings<E: PairingEngine>(
    vk: &PreparedVerifierKey<E>,
    total_c: E::G1Projective,
    total_w: E::G1Projective,
    res: Result<bool, Error>,
)
    requires
        call_ensures(KZG10::<E>::batch_check_aggregated, (vk, total_c, total_w), res),
    ensures
        res == Ok::<bool, Error>(
            (E::g1_projective_log(total_c) * E::g2_prepared_log(vk.prepared_h)
                - E::g1_projective_log(total_w) * E::g2_prepared_log(vk.prepared_beta_h))
                % E::order() == 0,
        ),
{
}

/// Checking a batch with given numbers is combining it with them and checking the combination.
pub proof fn law_batch_check_with_checks_combination<E: PairingEngine>(
    vk: &PreparedVerifierKey<E>,
    commitments: &[E::G1Affine],
    points: &[E::Fr],
    values: &[E::Fr],
    proofs: &[E::G1Affine],
    draws: &[u128],
    res: Result<bool, Error>,
    totals: (E::G1Projective, E::G1Projective),
    checked: Result<bool, Error>,
)
    requires
        call_ensures(
            KZG10::<E>::batch_check_with,
            (vk, commitments, points, values, proofs, draws),
            res,
        ),
        call_ensures(
            KZG10::<E>::aggregate_openings_with,
            (vk, commitments, points, values, proofs, draws),
            totals,
        ),
        call_ensures(KZG10::<E>::batch_check_aggregated, (vk, totals.0, totals.1), checked),
    ensures
        res == checked,
{
    lemma_pairings_agree_mod(
        *vk,
        aggregated_commitment::<E>(vk.g, commitments@, points@, values@, proofs@, draws@),
        aggregated_proof::<E>(commitments@, points@, values@, proofs@, draws@),
    );
}

/// The factors of a batch check are drawn from the generator of random numbers: as many numbers as
/// there are openings, each in the state in which the draw before it left the generator, and
/// nothing else. The outcome is that of checking the batch with these numbers.
pub proof fn law_batch_check_draws_factors<E: PairingEngine>(
    vk: &PreparedVerifierKey<E>,
    commitments: &[E::G1Affine],
    points: &[E::Fr],
    values: &[E::Fr],
    proofs: &[E::G1Affine],
    rng: &mut StdRng,
    res: Result<bool, Error>,
    n: int,
)
    requires
        call_ensures(
            KZG10::<E>::batch_check,
            (vk, commitments, points, values, proofs, rng),
            res,
        ),
        0 <= n <= commitments@.len() && n <= points@.len() && n <= values@.len() && n
            <= proofs@.len(),
        n == commitments@.len() || n == points@.len() || n == values@.len() || n == proofs@.len(),
    ensures
        exists|draws: Seq<u128>, states: Seq<StdRng>|
            #![trigger draws.len(), states.len()]
            draws.len() == n && states.len() == n + 1 && states[0] == *old(rng) && states[n]
                == *final(rng) && (forall|k: int, x: u128| #[trigger]
                is_entry(draws, k, x) ==> exists|r: &mut StdRng|
                #[trigger] u128_drawn(r, x) && *r == states[k] && *final(r) == states[k + 1]) && (
            forall|d: &[u128], checked: Result<bool, Error>|
                #![trigger call_ensures(
                    KZG10::<E>::batch_check_with,
                    (vk, commitments, points, values, proofs, d),
                    checked,
                )]
                d@ == draws && call_ensures(
                    KZG10::<E>::batch_check_with,
                    (vk, commitments, points, values, proofs, d),
                    checked,
                ) ==> checked == res),
{
    law_shortest_list_counts(
        commitments@.len(),
        points@.len(),
        values@.len(),
        proofs@.len(),
        n as nat,
    );
}

/// A batch with a false opening, at an index other than the first, passes for one value at most,
/// modulo the order, of the number that gives its factor: of two checks whose numbers differ there
/// alone, one refuses, where the generator of `G2` is not neutral. The other openings can be false
/// too.
pub proof fn law_false_opening_passes_one_draw_at_most<E: PairingEngine>(
    vk: &PreparedVerifierKey<E>,
    beta: int,
    commitments: &[E::G1Affine],
    points: &[E::Fr],
    values: &[E::Fr],
    proofs: &[E::G1Affine],
    draws: &[u128],
    res: Result<bool, Error>,
    other_draws: &[u128],
    other_res: Result<bool, Error>,
    j: int,
)
    requires
        call_ensures(
            KZG10::<E>::batch_check_with,
            (vk, commitments, points, values, proofs, draws),
            res,
        ),
        call_ensures(
            KZG10::<E>::batch_check_with,
            (vk, commitments, points, values, proofs, other_draws),
            other_res,
        ),
        E::g2_prepared_log(vk.prepared_beta_h) == beta * E::g2_prepared_log(vk.prepared_h)
            % E::order(),
        E::g2_prepared_log(vk.prepared_h) != 0,
        1 <= j < commitments@.len() && j < points@.len() && j < values@.len() && j < proofs@.len(),
        (E::g1_log(commitments@[j]) - E::fr_int(values@[j]) * E::g1_log(vk.g) - (beta - E::fr_int(
            points@[j],
        )) * E::g1_log(proofs@[j])) % E::order() != 0,
        (draws@[j - 1] as int) % E::order() != (other_draws@[j - 1] as int) % E::order(),
        forall|i: int|
            0 <= i < commitments@.len() && i != j - 1 ==> (#[trigger] draws@[i] as int) % E::order()
                == (other_draws@[i] as int) % E::order(),
    ensures
        !(res == Ok::<bool, Error>(true) && other_res == Ok::<bool, Error>(true)),
{
    law_defect_passes_one_draw_at_most(
        *vk,
        beta,
        commitments@,
        points@,
        values@,
        proofs@,
        draws@,
        other_draws@,
        j,
    );
}

/// A batch with one false opening, at any index below the lengths of all four lists, and true ones
/// else, is refused, where the generator of `G2` is not neutral and the factor of the false opening
/// is not 0. The factor is 1 at the first index, and else the number drawn for it.
pub proof fn law_one_false_opening_is_refused<E: PairingEngine>(
    vk: &PreparedVerifierKey<E>,
    beta: int,
    commitments: &[E::G1Affine],
    points: &[E::Fr],
    values: &[E::Fr],
    proofs: &[E::G1Affine],
    draws: &[u128],
    res: Result<bool, Error>,
    j: int,
)
    requires
        call_ensures(
            KZG10::<E>::batch_check_with,
            (vk, commitments, points, values, proofs, draws),
            res,
        ),
        E::g2_prepared_log(vk.prepared_beta_h) == beta * E::g2_prepared_log(vk.prepared_h)
            % E::order(),
        E::g2_prepared_log(vk.prepared_h) != 0,
        0 <= j < commitments@.len() && j < points@.len() && j < values@.len() && j < proofs@.len(),
        j > 0 ==> (draws@[j - 1] as int) % E::order() != 0,
        forall|i: int|
            0 <= i < commitments@.len() && i < points@.len() && i < values@.len() && i
                < proofs@.len() ==> ((E::g1_log(#[trigger] commitments@[i]) - E::fr_int(values@[i])
                * E::g1_log(vk.g) - (beta - E::fr_int(points@[i])) * E::g1_log(proofs@[i]))
                % E::order() == 0 <==> i != j),
    ensures
        res == Ok::<bool, Error>(false),
{
    let d = defects::<E>(vk.g, beta, commitments@, points@, values@, proofs@);
    assert forall|i: int| 0 <= i < d.len() implies (#[trigger] d[i] % E::order() == 0 <==> i
        != j) by {
        assert(E::g1_log(commitments@[i]) == E::g1_log(commitments@[i]));
    }
    law_single_defect_is_refused(
        *vk,
        beta,
        commitments@,
        points@,
        values@,
        proofs@,
        draws@,
        j,
    );
}

/// A batch of honest openings is accepted whatever is drawn: where the parameters come from a
/// setup, the commitments and the proofs from committing and opening with their powers, and the
/// values are those of the polynomials.
pub proof fn law_honest_batch_is_accepted<E: PairingEngine>(
    max_degree: usize,
    setup_rng: &mut StdRng,
    pp: UniversalParams<E>,
    powers: &Powers<E>,
    vk: &PreparedVerifierKey<E>,
    polynomials: Seq<&DensePolynomial<E>>,
    commitments: &[E::G1Affine],
    points: &[E::Fr],
    values: &[E::Fr],
    proofs: &[E::G1Affine],
    rng: &mut StdRng,
    res: Result<bool, Error>,
)
    requires
        call_ensures(KZG10::<E>::setup, (max_degree, setup_rng), Ok(pp)),
        powers.powers_of_g@ == pp.powers_of_g@,
        call_ensures(
            PreparedVerifierKey::<E>::new,
            (pp.powers_of_g@[0], &pp.h, &pp.beta_h),
            *vk,
        ),
        forall|i: int|
            0 <= i < commitments@.len() && i < points@.len() && i < values@.len() && i
                < proofs@.len() ==> call_ensures(
                KZG10::<E>::commit,
                (powers, polynomials[i]),
                Ok(#[trigger] commitments@[i]),
            ) && call_ensures(
                KZG10::<E>::open,
                (powers, polynomials[i], points@[i]),
                Ok(proofs@[i]),
            ) && E::fr_int(values@[i]) == eval(polynomials[i]@, E::fr_int(points@[i])) % E::order(),
        call_ensures(
            KZG10::<E>::batch_check,
            (vk, commitments, points, values, proofs, rng),
            res,
        ),
    ensures
        res == Ok::<bool, Error>(true),
{
    assert(exists|beta: int, g: int, h: int|
        #[trigger] is_setup(pp, max_degree as int, beta, g, h));
    let (beta, g, h) = choose|beta: int, g: int, h: int|
        #[trigger] is_setup(pp, max_degree as int, beta, g, h);
    let all = Seq::new(commitments@.len(), |i: int| polynomials[i]@);
    assert forall|i: int|
        0 <= i < opening_count(commitments@.len(), points@.len(), values@.len(), proofs@.len())
            implies #[trigger] is_honest_opening::<E>(
        pp.powers_of_g@,
        all[i],
        commitments@[i],
        points@[i],
        values@[i],
        proofs@[i],
    ) by {
        assert(call_ensures(
            KZG10::<E>::commit,
            (powers, polynomials[i]),
            Ok::<E::G1Affine, Error>(commitments@[i]),
        ));
    }
    assert forall|draws: Seq<u128>|
        #[trigger] accepts(*vk, commitments@, points@, values@, proofs@, draws) by {
        law_honest_openings_are_accepted(
            pp,
            max_degree as int,
            beta,
            g,
            h,
            *vk,
            all,
            commitments@,
            points@,
            values@,
            proofs@,
            draws,
        );
    }
}

/// The check of one opening that was made honestly but for the claimed value accepts the value of
/// the polynomial and no other, whatever is drawn, where the generators are not neutral.
pub proof fn law_only_the_true_value_passes<E: PairingEngine>(
    max_degree: usize,
    setup_rng: &mut StdRng,
    pp: UniversalParams<E>,
    powers: &Powers<E>,
    vk: &PreparedVerifierKey<E>,
    p: &DensePolynomial<E>,
    commitments: &[E::G1Affine],
    points: &[E::Fr],
    values: &[E::Fr],
    proofs: &[E::G1Affine],
    rng: &mut StdRng,
    res: Result<bool, Error>,
)
    requires
        call_ensures(KZG10::<E>::setup, (max_degree, setup_rng), Ok(pp)),
        powers.powers_of_g@ == pp.powers_of_g@,
        call_ensures(
            PreparedVerifierKey::<E>::new,
            (pp.powers_of_g@[0], &pp.h, &pp.beta_h),
            *vk,
        ),
        E::g1_log(pp.powers_of_g@[0]) != 0,
        E::g2_log(pp.h) != 0,
        commitments@.len() == 1 && points@.len() == 1 && values@.len() == 1 && proofs@.len() == 1,
        call_ensures(KZG10::<E>::commit, (powers, p), Ok(commitments@[0])),
        call_ensures(KZG10::<E>::open, (powers, p, points@[0]), Ok(proofs@[0])),
        call_ensures(
            KZG10::<E>::batch_check,
            (vk, commitments, points, values, proofs, rng),
            res,
        ),
    ensures
        res == Ok::<bool, Error>(
            E::fr_int(values@[0]) == eval(p@, E::fr_int(points@[0])) % E::order(),
        ),
{
    assert(exists|beta: int, g: int, h: int|
        #[trigger] is_setup(pp, max_degree as int, beta, g, h));
    let (beta, g, h) = choose|beta: int, g: int, h: int|
        #[trigger] is_setup(pp, max_degree as int, beta, g, h);
    assert(commitments@ =~= seq![commitments@[0]]);
    assert(points@ =~= seq![points@[0]]);
    assert(values@ =~= seq![values@[0]]);
    assert(proofs@ =~= seq![proofs@[0]]);
    assert forall|draws: Seq<u128>|
        #[trigger] accepts(*vk, commitments@, points@, values@, proofs@, draws) == (E::fr_int(
            values@[0],
        ) == eval(p@, E::fr_int(points@[0])) % E::order()) by {
        law_only_the_value_is_accepted(
            pp,
            max_degree as int,
            beta,
            g,
            h,
            *vk,
            p@,
            commitments@[0],
            points@[0],
            proofs@[0],
            values@[0],
            draws,
        );
    }
}

} // verus!
