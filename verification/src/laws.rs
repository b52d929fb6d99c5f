//! What holds of the scheme as a whole.
use vstd::arithmetic::div_mod::{
    lemma_mod_equivalence, lemma_mod_twice, lemma_mul_mod_noop_left,
    lemma_mul_mod_noop_right, lemma_small_mod,
};
use vstd::arithmetic::power::pow;
use vstd::prelude::*;

use crate::algebra::{
    coefficient, dot, eval, is_normalized, lemma_cong_add, lemma_cong_mul, lemma_cong_sub,
    lemma_dot_add, lemma_dot_comm, lemma_dot_cong, lemma_dot_one, lemma_dot_padded, lemma_dot_scale,
    lemma_dot_single, lemma_eval_is_dot, lemma_witness_divides, lemma_witness_value,
    product_coefficient, witness,
};
use crate::engine::{g1_logs, scalars, PairingGroups};
use crate::kzg::{
    accepts, commits, is_setup, lemma_pairings_agree_mod, opening_count, opens, pairings_agree,
    randomizers, shifted_commitments, PreparedVerifierKey, UniversalParams,
};
use crate::primality::divides;

verus! {

/// `vk` holds the generators of the parameters `pp` and `beta` times the second.
pub open spec fn is_key_of<E: PairingGroups>(
    vk: PreparedVerifierKey<E>,
    pp: UniversalParams<E>,
) -> bool {
    &&& E::g1_log(vk.g) == E::g1_log(pp.powers_of_g@[0])
    &&& E::g2_prepared_log(vk.prepared_h) == E::g2_log(pp.h)
    &&& E::g2_prepared_log(vk.prepared_beta_h) == E::g2_log(pp.beta_h)
}

/// How far an opening is from the equation that a valid one satisfies: a commitment `c` opened at
/// `z` to the value `v` with the proof `w`, all by their logarithms, is valid if `c - v * g`
/// equals `(beta - z) * w`.
pub open spec fn defect(c: int, z: int, v: int, w: int, g: int, beta: int) -> int {
    c - v * g - (beta - z) * w
}

/// The parameters are consistent: pairing a power with `beta * h` is pairing the next power with
/// `h`.
pub proof fn law_powers_are_consistent<E: PairingGroups>(
    pp: UniversalParams<E>,
    max_degree: int,
    beta: int,
    g: int,
    h: int,
    i: int,
)
    requires
        is_setup(pp, max_degree, beta, g, h),
        0 <= i < max_degree,
    ensures
        E::g1_log(pp.powers_of_g@[i + 1]) * E::g2_log(pp.h) % E::order() == E::g1_log(
            pp.powers_of_g@[i],
        ) * E::g2_log(pp.beta_h) % E::order(),
{
    E::lemma_reduced();
    let m = E::order();
    let b = pow(beta, i as nat);
    reveal(pow);
    assert(pow(beta, (i + 1) as nat) == beta * b);
    assert(E::g1_log(pp.powers_of_g@[i]) == b * g % m);
    assert(E::g1_log(pp.powers_of_g@[i + 1]) == beta * b * g % m);
    lemma_mul_mod_noop_left(beta * b * g, h, m);
    lemma_mod_twice(b * g, m);
    lemma_mod_twice(beta * h, m);
    lemma_cong_mul(b * g % m, b * g, beta * h % m, beta * h, m);
    assert((beta * b * g) * h == (b * g) * (beta * h)) by (nonlinear_arith);
}

/// A commitment is the generator of `G1` times the value of the polynomial at the secret point.
pub proof fn law_commitment_is_value_at_secret<E: PairingGroups>(
    pp: UniversalParams<E>,
    max_degree: int,
    beta: int,
    g: int,
    h: int,
    p: Seq<int>,
    c: E::G1Affine,
)
    requires
        is_setup(pp, max_degree, beta, g, h),
        commits::<E>(Ok(c), pp.powers_of_g@, p),
    ensures
        E::g1_log(c) == eval(p, beta) * g % E::order(),
{
    lemma_sum_is_value(pp, max_degree, beta, g, h, p);
}

/// The sum of the products of the logarithms of the powers and of coefficients.
proof fn lemma_sum_is_value<E: PairingGroups>(
    pp: UniversalParams<E>,
    max_degree: int,
    beta: int,
    g: int,
    h: int,
    p: Seq<int>,
)
    requires
        is_setup(pp, max_degree, beta, g, h),
        p.len() <= pp.powers_of_g@.len(),
    ensures
        dot(g1_logs::<E>(pp.powers_of_g@), p, p.len() as int) % E::order() == eval(p, beta) * g
            % E::order(),
{
    E::lemma_reduced();
    let m = E::order();
    let n = p.len() as int;
    let logs = g1_logs::<E>(pp.powers_of_g@);
    let powers = Seq::new(p.len(), |i: int| pow(beta, i as nat));
    let multiples = Seq::new(p.len(), |i: int| g * pow(beta, i as nat));
    assert forall|i: int| 0 <= i < n implies #[trigger] logs[i] % m == multiples[i] % m by {
        let b = pow(beta, i as nat);
        assert(E::g1_log(pp.powers_of_g@[i]) == b * g % m);
        assert(b * g == g * b) by (nonlinear_arith);
        lemma_mod_twice(b * g, m);
    }
    lemma_dot_cong(logs, p, multiples, p, n, m);
    lemma_dot_comm(multiples, p, n);
    lemma_dot_scale(p, powers, g, multiples, n);
    lemma_dot_comm(p, powers, n);
    lemma_eval_is_dot(p, beta, powers);
    let e = eval(p, beta);
    assert(g * e == e * g) by (nonlinear_arith);
}

/// Commitments are linear: where a polynomial is `a` times one polynomial plus `b` times another,
/// its commitment is `a` times the commitment to the one plus `b` times that to the other.
pub proof fn law_commitments_are_linear<E: PairingGroups>(
    powers: Seq<E::G1Affine>,
    a: int,
    p: Seq<int>,
    commitment_p: E::G1Affine,
    b: int,
    q: Seq<int>,
    commitment_q: E::G1Affine,
    s: Seq<int>,
    commitment_s: E::G1Affine,
)
    requires
        forall|i: int|
            0 <= i ==> #[trigger] coefficient(s, i) % E::order() == (a * coefficient(p, i) + b
                * coefficient(q, i)) % E::order(),
        commits::<E>(Ok(commitment_p), powers, p),
        commits::<E>(Ok(commitment_q), powers, q),
        commits::<E>(Ok(commitment_s), powers, s),
    ensures
        E::g1_log(commitment_s) == (a * E::g1_log(commitment_p) + b * E::g1_log(commitment_q))
            % E::order(),
{
    E::lemma_reduced();
    let m = E::order();
    let logs = g1_logs::<E>(powers);
    let n = powers.len() as int;
    lemma_dot_padded(logs, p);
    lemma_dot_padded(logs, q);
    lemma_dot_padded(logs, s);
    let pp = Seq::new(logs.len(), |i: int| coefficient(p, i));
    let qq = Seq::new(logs.len(), |i: int| coefficient(q, i));
    let ss = Seq::new(logs.len(), |i: int| coefficient(s, i));
    let ap = Seq::new(logs.len(), |i: int| a * coefficient(p, i));
    let bq = Seq::new(logs.len(), |i: int| b * coefficient(q, i));
    let sum = Seq::new(logs.len(), |i: int| a * coefficient(p, i) + b * coefficient(q, i));
    assert forall|i: int| 0 <= i < n implies #[trigger] ss[i] % m == sum[i] % m by {
        assert(coefficient(s, i) % m == sum[i] % m);
    }
    lemma_dot_cong(logs, ss, logs, sum, n, m);
    lemma_dot_add(logs, ap, bq, sum, n);
    lemma_dot_scale(logs, pp, a, ap, n);
    lemma_dot_scale(logs, qq, b, bq, n);
    let (x, y) = (dot(logs, pp, n), dot(logs, qq, n));
    lemma_mul_mod_noop_right(a, x, m);
    lemma_mul_mod_noop_right(b, y, m);
    lemma_cong_add(a * (x % m), a * x, b * (y % m), b * y, m);
}

/// The witness polynomial is the quotient of `p(x) - p(z)` by `x - z`: their product has the
/// coefficients of `p`, but for the constant one, from which `p(z)` is taken.
pub proof fn law_witness_is_quotient<E: PairingGroups>(p: Seq<int>, z: int, i: int)
    requires
        0 <= i,
    ensures
        product_coefficient(witness(p, z, E::order()), seq![-z, 1], i) % E::order() == (coefficient(
            p,
            i,
        ) - if i == 0 {
            eval(p, z)
        } else {
            0
        }) % E::order(),
{
    E::lemma_reduced();
    let m = E::order();
    lemma_witness_divides(p, z, m, i);
    let r = coefficient(seq![eval(p, z)], i);
    let x = product_coefficient(witness(p, z, m), seq![-z, 1], i);
    lemma_cong_sub(coefficient(p, i), x + r, r, r, m);
}

/// The polynomial `p` less a constant.
pub open spec fn less_constant(p: Seq<int>, constant: int) -> Seq<int> {
    if p.len() == 0 {
        seq![-constant]
    } else {
        p.update(0, p[0] - constant)
    }
}

/// The witness polynomial does not change when the remainder, or any other constant, is taken
/// from the polynomial.
pub proof fn law_witness_ignores_constant<E: PairingGroups>(p: Seq<int>, z: int, constant: int)
    ensures
        witness(less_constant(p, constant), z, E::order()) == witness(p, z, E::order()),
{
    let q = less_constant(p, constant);
    assert forall|i: int| 0 <= i < p.len() - 1 implies #[trigger] q.skip(i + 1) == p.skip(
        i + 1,
    ) by {
        assert(q.skip(i + 1) =~= p.skip(i + 1));
    }
    assert(witness(q, z, E::order()) =~= witness(p, z, E::order()));
}

/// Polynomials of the field that differ in nothing but the constant coefficient have the same
/// witness polynomial.
pub proof fn law_witness_depends_on_higher_coefficients<E: PairingGroups>(
    p: Seq<int>,
    q: Seq<int>,
    z: int,
)
    requires
        is_normalized(p),
        is_normalized(q),
        forall|i: int| 0 <= i < p.len() ==> 0 <= #[trigger] p[i] < E::order(),
        forall|i: int| 0 <= i < q.len() ==> 0 <= #[trigger] q[i] < E::order(),
        forall|i: int|
            1 <= i ==> #[trigger] coefficient(q, i) % E::order() == coefficient(p, i) % E::order(),
    ensures
        witness(q, z, E::order()) == witness(p, z, E::order()),
{
    E::lemma_reduced();
    let m = E::order();
    lemma_small_mod(0, m as nat);
    assert forall|i: int| 1 <= i implies #[trigger] coefficient(q, i) == coefficient(p, i) by {
        lemma_small_mod(coefficient(p, i) as nat, m as nat);
        lemma_small_mod(coefficient(q, i) as nat, m as nat);
    }
    // A leading coefficient is not 0, so that the lengths agree beyond the constant.
    if p.len() > 1 {
        assert(coefficient(q, p.len() - 1) == p.last());
    }
    if q.len() > 1 {
        assert(coefficient(q, q.len() - 1) == coefficient(p, q.len() - 1));
    }
    assert forall|i: int| 0 <= i < p.len() - 1 implies #[trigger] q.skip(i + 1) == p.skip(
        i + 1,
    ) by {
        assert forall|k: int| 0 <= k < p.len() - (i + 1) implies #[trigger] q.skip(i + 1)[k]
            == p.skip(i + 1)[k] by {
            assert(coefficient(q, i + 1 + k) == coefficient(p, i + 1 + k));
        }
        assert(q.skip(i + 1) =~= p.skip(i + 1));
    }
    assert(witness(q, z, m) =~= witness(p, z, m));
}

/// The defects of a batch of openings.
pub open spec fn defects<E: PairingGroups>(
    g: E::G1Affine,
    beta: int,
    commitments: Seq<E::G1Affine>,
    points: Seq<E::Fr>,
    values: Seq<E::Fr>,
    proofs: Seq<E::G1Affine>,
) -> Seq<int> {
    Seq::new(
        opening_count(commitments.len(), points.len(), values.len(), proofs.len()),
        |i: int|
            defect(
                E::g1_log(commitments[i]),
                E::fr_int(points[i]),
                E::fr_int(values[i]),
                E::g1_log(proofs[i]),
                E::g1_log(g),
                beta,
            ),
    )
}

/// What the batch check tests is one sum: the defects of the openings, each multiplied by its
/// factor. The batch is accepted if and only if that sum times the generator of `G2` is 0.
pub proof fn law_batch_check_sums_defects<E: PairingGroups>(
    vk: PreparedVerifierKey<E>,
    beta: int,
    commitments: Seq<E::G1Affine>,
    points: Seq<E::Fr>,
    values: Seq<E::Fr>,
    proofs: Seq<E::G1Affine>,
    draws: Seq<u128>,
)
    requires
        E::g2_prepared_log(vk.prepared_beta_h) == beta * E::g2_prepared_log(vk.prepared_h)
            % E::order(),
    ensures
        accepts(vk, commitments, points, values, proofs, draws) == (dot(
            randomizers(
                draws,
                opening_count(commitments.len(), points.len(), values.len(), proofs.len()),
                E::order(),
            ),
            defects::<E>(vk.g, beta, commitments, points, values, proofs),
            opening_count(commitments.len(), points.len(), values.len(), proofs.len()) as int,
        ) * E::g2_prepared_log(vk.prepared_h) % E::order() == 0),
{
    E::lemma_reduced();
    let m = E::order();
    let len = opening_count(commitments.len(), points.len(), values.len(), proofs.len());
    let n = len as int;
    let r = randomizers(draws, len, m);
    let (g, h) = (E::g1_log(vk.g), E::g2_prepared_log(vk.prepared_h));
    let (w, v) = (g1_logs::<E>(proofs), scalars::<E>(values));
    let c = shifted_commitments(g1_logs::<E>(commitments), scalars::<E>(points), w, len);
    let d = defects::<E>(vk.g, beta, commitments, points, values, proofs);
    // The sum of the defects, part by part.
    let minus_vg = Seq::new(len, |i: int| (-g) * v[i]);
    let minus_bw = Seq::new(len, |i: int| (-beta) * w[i]);
    let both = Seq::new(len, |i: int| (-g) * v[i] + (-beta) * w[i]);
    assert forall|i: int| 0 <= i < n implies #[trigger] d[i] == c[i] + both[i] by {
        let (ci, zi, vi, wi) = (E::g1_log(commitments[i]), E::fr_int(points[i]), v[i], w[i]);
        assert(ci - vi * g - (beta - zi) * wi == (ci + zi * wi) + ((-g) * vi + (-beta) * wi))
            by (nonlinear_arith);
    }
    lemma_dot_add(r, c, both, d, n);
    lemma_dot_add(r, minus_vg, minus_bw, both, n);
    lemma_dot_scale(r, v, -g, minus_vg, n);
    lemma_dot_scale(r, w, -beta, minus_bw, n);
    let (x, y, t) = (dot(r, c, n), dot(r, v, n), dot(r, w, n));
    assert(dot(r, d, n) == x + ((-g) * y + (-beta) * t));
    // The pairings, with the logarithm of `beta * h` not yet reduced.
    let bh = E::g2_prepared_log(vk.prepared_beta_h);
    lemma_mul_mod_noop_right(t, beta * h, m);
    lemma_cong_sub((x - y * g) * h, (x - y * g) * h, t * bh, t * (beta * h), m);
    assert((x - y * g) * h - t * (beta * h) == (x + ((-g) * y + (-beta) * t)) * h)
        by (nonlinear_arith);
}

/// `c` is the commitment to the polynomial `p`, and `w` the proof of its value at `z`, both made
/// with `powers` as the scheme says.
pub open spec fn is_honest_proof<E: PairingGroups>(
    powers: Seq<E::G1Affine>,
    p: Seq<int>,
    c: E::G1Affine,
    z: E::Fr,
    w: E::G1Affine,
) -> bool {
    commits::<E>(Ok(c), powers, p) && opens::<E>(Ok(w), powers, p, E::fr_int(z))
}

/// `c` opens at `z` to the value `v` of the polynomial `p` with the proof `w`, all made with
/// `powers` as the scheme says.
pub open spec fn is_honest_opening<E: PairingGroups>(
    powers: Seq<E::G1Affine>,
    p: Seq<int>,
    c: E::G1Affine,
    z: E::Fr,
    v: E::Fr,
    w: E::G1Affine,
) -> bool {
    is_honest_proof::<E>(powers, p, c, z, w) && E::fr_int(v) == eval(p, E::fr_int(z)) % E::order()
}

/// The defect of an honest proof is the difference of the value and the claimed one, times the
/// generator.
proof fn lemma_defect_of_honest_proof<E: PairingGroups>(
    pp: UniversalParams<E>,
    max_degree: int,
    beta: int,
    g: int,
    h: int,
    p: Seq<int>,
    c: E::G1Affine,
    z: E::Fr,
    w: E::G1Affine,
    claimed: int,
)
    requires
        is_setup(pp, max_degree, beta, g, h),
        max_degree >= 0,
        is_honest_proof::<E>(pp.powers_of_g@, p, c, z, w),
    ensures
        defect(
            E::g1_log(c),
            E::fr_int(z),
            claimed,
            E::g1_log(w),
            E::g1_log(pp.powers_of_g@[0]),
            beta,
        ) % E::order() == (eval(p, E::fr_int(z)) - claimed) * E::g1_log(pp.powers_of_g@[0])
            % E::order(),
{
    E::lemma_reduced();
    let m = E::order();
    let x = E::fr_int(z);
    let q = witness(p, x, m);
    lemma_sum_is_value(pp, max_degree, beta, g, h, p);
    lemma_sum_is_value(pp, max_degree, beta, g, h, q);
    reveal(pow);
    assert(pow(beta, 0) * g == g);
    let gl = E::g1_log(pp.powers_of_g@[0]);
    assert(gl == g % m);
    lemma_mod_twice(g, m);
    let (pb, pz, qb) = (eval(p, beta), eval(p, x), eval(q, beta));
    lemma_witness_value(p, x, beta, m);
    // Each part of the defect is congruent to what it stands for.
    lemma_mod_twice(pb * g, m);
    lemma_mod_twice(qb * g, m);
    lemma_cong_mul(pb, (beta - x) * qb + pz, g, gl, m);
    lemma_cong_mul(qb, qb, g, gl, m);
    lemma_cong_mul(beta - x, beta - x, E::g1_log(w), qb * gl, m);
    lemma_cong_sub(E::g1_log(c), ((beta - x) * qb + pz) * gl, claimed * gl, claimed * gl, m);
    lemma_cong_sub(
        E::g1_log(c) - claimed * gl,
        ((beta - x) * qb + pz) * gl - claimed * gl,
        (beta - x) * E::g1_log(w),
        (beta - x) * (qb * gl),
        m,
    );
    assert(((beta - x) * qb + pz) * gl - claimed * gl - (beta - x) * (qb * gl) == (pz - claimed)
        * gl) by (nonlinear_arith);
}

/// A batch of honest openings is accepted, whatever numbers are drawn.
pub proof fn law_honest_openings_are_accepted<E: PairingGroups>(
    pp: UniversalParams<E>,
    max_degree: int,
    beta: int,
    g: int,
    h: int,
    vk: PreparedVerifierKey<E>,
    polynomials: Seq<Seq<int>>,
    commitments: Seq<E::G1Affine>,
    points: Seq<E::Fr>,
    values: Seq<E::Fr>,
    proofs: Seq<E::G1Affine>,
    draws: Seq<u128>,
)
    requires
        is_setup(pp, max_degree, beta, g, h),
        max_degree >= 0,
        is_key_of(vk, pp),
        forall|i: int|
            0 <= i < opening_count(commitments.len(), points.len(), values.len(), proofs.len())
                ==> #[trigger] is_honest_opening::<E>(
                pp.powers_of_g@,
                polynomials[i],
                commitments[i],
                points[i],
                values[i],
                proofs[i],
            ),
    ensures
        accepts(vk, commitments, points, values, proofs, draws),
{
    E::lemma_reduced();
    let m = E::order();
    let len = opening_count(commitments.len(), points.len(), values.len(), proofs.len());
    let n = len as int;
    let r = randomizers(draws, len, m);
    let d = defects::<E>(vk.g, beta, commitments, points, values, proofs);
    let zeros = Seq::new(len, |i: int| 0int * r[i]);
    law_batch_check_sums_defects(vk, beta, commitments, points, values, proofs, draws);
    lemma_small_mod(0, m as nat);
    assert forall|i: int| 0 <= i < n implies #[trigger] d[i] % m == zeros[i] % m by {
        assert(is_honest_opening::<E>(
            pp.powers_of_g@,
            polynomials[i],
            commitments[i],
            points[i],
            values[i],
            proofs[i],
        ));
        let (x, v) = (eval(polynomials[i], E::fr_int(points[i])), E::fr_int(values[i]));
        lemma_defect_of_honest_proof(
            pp,
            max_degree,
            beta,
            g,
            h,
            polynomials[i],
            commitments[i],
            points[i],
            proofs[i],
            v,
        );
        lemma_mod_twice(x, m);
        lemma_cong_sub(x, v, v, v, m);
        let gl = E::g1_log(vk.g);
        lemma_cong_mul(x - v, 0, gl, gl, m);
        assert(0 * gl == 0);
        assert(0 * r[i] == 0);
    }
    lemma_dot_cong(r, d, r, zeros, n, m);
    lemma_dot_scale(r, r, 0, zeros, n);
    assert(0 * dot(r, r, n) == 0);
    lemma_mul_mod_noop_left(dot(r, d, n), E::g2_prepared_log(vk.prepared_h), m);
    assert(0 * E::g2_prepared_log(vk.prepared_h) == 0);
}

/// The check of one opening is the equation of two pairings: of the commitment less the value
/// times the generator of `G1` with the generator of `G2`, and of the proof with `beta` less the
/// point times the generator of `G2`.
pub proof fn law_one_opening_is_checked_alone<E: PairingGroups>(
    vk: PreparedVerifierKey<E>,
    c: E::G1Affine,
    z: E::Fr,
    v: E::Fr,
    w: E::G1Affine,
    draws: Seq<u128>,
)
    ensures
        accepts(vk, seq![c], seq![z], seq![v], seq![w], draws) == (((E::g1_log(c) - E::fr_int(v)
            * E::g1_log(vk.g)) * E::g2_prepared_log(vk.prepared_h) - E::g1_log(w) * (
        E::g2_prepared_log(vk.prepared_beta_h) - E::fr_int(z) * E::g2_prepared_log(vk.prepared_h)))
            % E::order() == 0),
{
    let m = E::order();
    let r = randomizers(draws, 1, m);
    let ws = g1_logs::<E>(seq![w]);
    let vs = scalars::<E>(seq![v]);
    let cs = shifted_commitments(g1_logs::<E>(seq![c]), scalars::<E>(seq![z]), ws, 1);
    let (cl, zi, vi, wl) = (E::g1_log(c), E::fr_int(z), E::fr_int(v), E::g1_log(w));
    lemma_dot_one(r, cs);
    lemma_dot_one(r, vs);
    lemma_dot_one(r, ws);
    let (g, h) = (E::g1_log(vk.g), E::g2_prepared_log(vk.prepared_h));
    let bh = E::g2_prepared_log(vk.prepared_beta_h);
    assert((cl + zi * wl - vi * g) * h - wl * bh == (cl - vi * g) * h - wl * (bh - zi * h))
        by (nonlinear_arith);
}

/// An honest proof is accepted for the value of the polynomial and refused for every other, where
/// the generators are not neutral.
pub proof fn law_only_the_value_is_accepted<E: PairingGroups>(
    pp: UniversalParams<E>,
    max_degree: int,
    beta: int,
    g: int,
    h: int,
    vk: PreparedVerifierKey<E>,
    p: Seq<int>,
    c: E::G1Affine,
    z: E::Fr,
    w: E::G1Affine,
    claimed: E::Fr,
    draws: Seq<u128>,
)
    requires
        is_setup(pp, max_degree, beta, g, h),
        max_degree >= 0,
        is_key_of(vk, pp),
        E::g1_log(vk.g) != 0,
        E::g2_prepared_log(vk.prepared_h) != 0,
        is_honest_proof::<E>(pp.powers_of_g@, p, c, z, w),
    ensures
        accepts(vk, seq![c], seq![z], seq![claimed], seq![w], draws) == (E::fr_int(claimed) == eval(
            p,
            E::fr_int(z),
        ) % E::order()),
{
    E::lemma_reduced();
    E::lemma_prime_order();
    let m = E::order();
    let (x, y) = (eval(p, E::fr_int(z)), E::fr_int(claimed));
    let (gl, hl) = (E::g1_log(vk.g), E::g2_prepared_log(vk.prepared_h));
    let d = defects::<E>(vk.g, beta, seq![c], seq![z], seq![claimed], seq![w]);
    let r = randomizers(draws, 1, m);
    law_batch_check_sums_defects(vk, beta, seq![c], seq![z], seq![claimed], seq![w], draws);
    lemma_dot_one(r, d);
    lemma_defect_of_honest_proof(pp, max_degree, beta, g, h, p, c, z, w, y);
    lemma_cong_mul(d[0], (x - y) * gl, hl, hl, m);
    // The order divides a product only where it divides a factor.
    lemma_small_mod(gl as nat, m as nat);
    lemma_small_mod(hl as nat, m as nat);
    lemma_small_mod(y as nat, m as nat);
    lemma_small_mod(0, m as nat);
    lemma_mod_equivalence(x, y, m);
    assert(!divides(m, gl) && !divides(m, hl));
    if divides(m, x - y) {
        lemma_cong_mul(x - y, 0, gl, gl, m);
        lemma_cong_mul((x - y) * gl, 0, hl, hl, m);
        assert(0 * gl == 0 && 0 * hl == 0);
    } else {
        assert(!divides(m, (x - y) * gl));
        assert(!divides(m, (x - y) * gl * hl));
    }
}

/// Multiplying both totals by a scalar that is not 0 does not change whether they are accepted.
pub proof fn law_totals_can_be_scaled<E: PairingGroups>(
    vk: PreparedVerifierKey<E>,
    c: int,
    w: int,
    k: E::Fr,
)
    requires
        E::fr_int(k) != 0,
    ensures
        pairings_agree(vk, c * E::fr_int(k) % E::order(), w * E::fr_int(k) % E::order())
            == pairings_agree(vk, c, w),
{
    E::lemma_reduced();
    E::lemma_prime_order();
    let (m, x) = (E::order(), E::fr_int(k));
    let (h, b) = (E::g2_prepared_log(vk.prepared_h), E::g2_prepared_log(vk.prepared_beta_h));
    lemma_pairings_agree_mod(vk, c * x, w * x);
    let t = c * h - w * b;
    assert((c * x) * h - (w * x) * b == (c * h - w * b) * x) by (nonlinear_arith);
    lemma_small_mod(x as nat, m as nat);
    lemma_small_mod(0, m as nat);
    assert(!divides(m, x));
    if divides(m, t) {
        lemma_cong_mul(t, 0, x, x, m);
        assert(0 * x == 0);
    } else {
        assert(!divides(m, t * x));
    }
}

/// Adding totals that are accepted does not change whether others are accepted.
pub proof fn law_accepted_totals_can_be_added<E: PairingGroups>(
    vk: PreparedVerifierKey<E>,
    c: int,
    w: int,
    accepted_c: int,
    accepted_w: int,
)
    requires
        pairings_agree(vk, accepted_c, accepted_w),
    ensures
        pairings_agree(vk, (accepted_c + c) % E::order(), (accepted_w + w) % E::order())
            == pairings_agree(vk, c, w),
{
    E::lemma_reduced();
    let m = E::order();
    let (h, b) = (E::g2_prepared_log(vk.prepared_h), E::g2_prepared_log(vk.prepared_beta_h));
    lemma_pairings_agree_mod(vk, accepted_c + c, accepted_w + w);
    let (s, t) = (accepted_c * h - accepted_w * b, c * h - w * b);
    assert((accepted_c + c) * h - (accepted_w + w) * b == (accepted_c * h - accepted_w * b) + (c * h
        - w * b)) by (nonlinear_arith);
    lemma_small_mod(0, m as nat);
    lemma_cong_add(s, 0, t, t, m);
}

/// Neutral totals are accepted.
pub proof fn law_neutral_totals_are_accepted<E: PairingGroups>(vk: PreparedVerifierKey<E>)
    ensures
        pairings_agree(vk, 0, 0),
{
    E::lemma_reduced();
    lemma_small_mod(0, E::order() as nat);
    assert(0 * E::g2_prepared_log(vk.prepared_h) == 0);
    assert(0 * E::g2_prepared_log(vk.prepared_beta_h) == 0);
}

/// Where all openings of a batch but one have no defect, the batch is accepted if and only if the
/// defect of that one, times its factor and the generator of `G2`, is 0.
pub proof fn law_single_defect_decides<E: PairingGroups>(
    vk: PreparedVerifierKey<E>,
    beta: int,
    commitments: Seq<E::G1Affine>,
    points: Seq<E::Fr>,
    values: Seq<E::Fr>,
    proofs: Seq<E::G1Affine>,
    draws: Seq<u128>,
    j: int,
)
    requires
        E::g2_prepared_log(vk.prepared_beta_h) == beta * E::g2_prepared_log(vk.prepared_h)
            % E::order(),
        0 <= j < opening_count(commitments.len(), points.len(), values.len(), proofs.len()),
        forall|i: int|
            0 <= i < opening_count(commitments.len(), points.len(), values.len(), proofs.len()) && i
                != j ==> #[trigger] defects::<E>(
                vk.g,
                beta,
                commitments,
                points,
                values,
                proofs,
            )[i] % E::order() == 0,
    ensures
        accepts(vk, commitments, points, values, proofs, draws) == (randomizers(
            draws,
            opening_count(commitments.len(), points.len(), values.len(), proofs.len()),
            E::order(),
        )[j] * defects::<E>(vk.g, beta, commitments, points, values, proofs)[j]
            * E::g2_prepared_log(vk.prepared_h) % E::order() == 0),
{
    E::lemma_reduced();
    let m = E::order();
    let len = opening_count(commitments.len(), points.len(), values.len(), proofs.len());
    let r = randomizers(draws, len, m);
    let d = defects::<E>(vk.g, beta, commitments, points, values, proofs);
    let h = E::g2_prepared_log(vk.prepared_h);
    law_batch_check_sums_defects(vk, beta, commitments, points, values, proofs, draws);
    lemma_dot_single(r, d, j, len as int, m);
    lemma_cong_mul(dot(r, d, len as int), r[j] * d[j], h, h, m);
}

/// A batch in which one opening has a defect and the others have none is refused, where the
/// generator of `G2` is not neutral and the factor of that opening is not 0.
pub proof fn law_single_defect_is_refused<E: PairingGroups>(
    vk: PreparedVerifierKey<E>,
    beta: int,
    commitments: Seq<E::G1Affine>,
    points: Seq<E::Fr>,
    values: Seq<E::Fr>,
    proofs: Seq<E::G1Affine>,
    draws: Seq<u128>,
    j: int,
)
    requires
        E::g2_prepared_log(vk.prepared_beta_h) == beta * E::g2_prepared_log(vk.prepared_h)
            % E::order(),
        E::g2_prepared_log(vk.prepared_h) != 0,
        0 <= j < opening_count(commitments.len(), points.len(), values.len(), proofs.len()),
        randomizers(
            draws,
            opening_count(commitments.len(), points.len(), values.len(), proofs.len()),
            E::order(),
        )[j] != 0,
        forall|i: int|
            0 <= i < opening_count(commitments.len(), points.len(), values.len(), proofs.len())
                ==> (#[trigger] defects::<E>(
                vk.g,
                beta,
                commitments,
                points,
                values,
                proofs,
            )[i] % E::order() == 0 <==> i != j),
    ensures
        !accepts(vk, commitments, points, values, proofs, draws),
{
    E::lemma_reduced();
    E::lemma_prime_order();
    let m = E::order();
    let len = opening_count(commitments.len(), points.len(), values.len(), proofs.len());
    let r = randomizers(draws, len, m)[j];
    let d = defects::<E>(vk.g, beta, commitments, points, values, proofs)[j];
    let h = E::g2_prepared_log(vk.prepared_h);
    law_single_defect_decides(vk, beta, commitments, points, values, proofs, draws, j);
    lemma_small_mod(h as nat, m as nat);
    if j == 0 {
        lemma_small_mod(1, m as nat);
    } else {
        lemma_mod_twice(draws[j - 1] as int, m);
    }
    assert(!divides(m, r) && !divides(m, d) && !divides(m, h));
    assert(!divides(m, r * d));
    assert(!divides(m, r * d * h));
}

/// A batch with a defect is accepted for one value at most, modulo the order, of the number that
/// gives the factor of that opening: of two lists of draws that differ in that number alone, one is
/// refused, where the generator of `G2` is not neutral. The other openings can have defects too.
pub proof fn law_defect_passes_one_draw_at_most<E: PairingGroups>(
    vk: PreparedVerifierKey<E>,
    beta: int,
    commitments: Seq<E::G1Affine>,
    points: Seq<E::Fr>,
    values: Seq<E::Fr>,
    proofs: Seq<E::G1Affine>,
    draws: Seq<u128>,
    other: Seq<u128>,
    j: int,
)
    requires
        E::g2_prepared_log(vk.prepared_beta_h) == beta * E::g2_prepared_log(vk.prepared_h)
            % E::order(),
        E::g2_prepared_log(vk.prepared_h) != 0,
        1 <= j < opening_count(commitments.len(), points.len(), values.len(), proofs.len()),
        defects::<E>(vk.g, beta, commitments, points, values, proofs)[j] % E::order() != 0,
        (draws[j - 1] as int) % E::order() != (other[j - 1] as int) % E::order(),
        forall|i: int|
            0 <= i < opening_count(commitments.len(), points.len(), values.len(), proofs.len()) - 1
                && i != j - 1 ==> (#[trigger] draws[i] as int) % E::order() == (other[i] as int)
                % E::order(),
    ensures
        !(accepts(vk, commitments, points, values, proofs, draws) && accepts(
            vk,
            commitments,
            points,
            values,
            proofs,
            other,
        )),
{
    E::lemma_reduced();
    E::lemma_prime_order();
    let m = E::order();
    let len = opening_count(commitments.len(), points.len(), values.len(), proofs.len());
    let n = len as int;
    let (r, s) = (randomizers(draws, len, m), randomizers(other, len, m));
    let t = Seq::new(len, |i: int| r[i] - s[i]);
    let d = defects::<E>(vk.g, beta, commitments, points, values, proofs);
    let h = E::g2_prepared_log(vk.prepared_h);
    law_batch_check_sums_defects(vk, beta, commitments, points, values, proofs, draws);
    law_batch_check_sums_defects(vk, beta, commitments, points, values, proofs, other);
    lemma_small_mod(0, m as nat);
    // The two sums differ by the defect times the difference of its factors.
    assert forall|i: int| 0 <= i < n && i != j implies #[trigger] t[i] % m == 0 by {
        if i > 0 {
            assert((draws[i - 1] as int) % m == (other[i - 1] as int) % m);
        }
    }
    lemma_dot_comm(r, d, n);
    lemma_dot_comm(s, d, n);
    lemma_dot_add(d, s, t, r, n);
    lemma_dot_single(d, t, j, n, m);
    let (x, y, w) = (dot(d, r, n), dot(d, s, n), dot(d, t, n));
    lemma_cong_mul(w, d[j] * t[j], h, h, m);
    assert(w * h == x * h - y * h) by (nonlinear_arith)
        requires
            x == y + w,
    ;
    lemma_mod_twice(draws[j - 1] as int, m);
    lemma_mod_twice(other[j - 1] as int, m);
    lemma_mod_equivalence(r[j], s[j], m);
    lemma_small_mod(h as nat, m as nat);
    assert(!divides(m, d[j]) && !divides(m, t[j]) && !divides(m, h));
    assert(!divides(m, d[j] * t[j]));
    assert(!divides(m, d[j] * t[j] * h));
    if x * h % m == 0 && y * h % m == 0 {
        lemma_cong_sub(x * h, 0, y * h, 0, m);
    }
}

/// A batch without openings is accepted.
pub proof fn law_empty_batch_is_accepted<E: PairingGroups>(
    vk: PreparedVerifierKey<E>,
    commitments: Seq<E::G1Affine>,
    points: Seq<E::Fr>,
    values: Seq<E::Fr>,
    proofs: Seq<E::G1Affine>,
    draws: Seq<u128>,
)
    requires
        opening_count(commitments.len(), points.len(), values.len(), proofs.len()) == 0,
    ensures
        accepts(vk, commitments, points, values, proofs, draws),
{
    E::lemma_reduced();
    lemma_small_mod(0, E::order() as nat);
    assert(0 * E::g1_log(vk.g) == 0);
    assert(0 * E::g2_prepared_log(vk.prepared_h) == 0);
    assert(0 * E::g2_prepared_log(vk.prepared_beta_h) == 0);
}

} // verus!
