//! The group `G2`.
use ark_bls12_381::{Fq, Fq2};
use ark_ec::{AffineCurve, ProjectiveCurve};
use ark_ff::{BigInteger256, BigInteger384, PrimeField, UniformRand};
use rand::rngs::StdRng;
use vstd::prelude::*;

use crate::bls12_381::fr::{order, Fr};
use crate::bls12_381::g1::{base_is_canonical, base_order, is_canonical};
use crate::limbs::{lemma_limbs_injective, limbs_value};

verus! {

/// The coordinates of the generator to which logarithms refer.
///
/// A coordinate is a pair `(c0, c1)`, which stands for `c0 + c1 * u` with `u^2 = -1`.
pub open spec fn g2_generator() -> ((int, int), (int, int)) {
    (
        (
            352701069587466618187139116011060144890029952792775240219908644239793785735715026873347600343865175952761926303160int,
            3059144344244213709971259814753781636986470325476647558659373206291635324768958432433509563104347017837885763365758int,
        ),
        (
            1985150602287291935568054521177171638300868978215655730859378665066344726373823718423869104263333984641494340347905int,
            927553665492332455747201965776037880757740193453592970025027978793976877002675564980949289727957565575433344219582int,
        ),
    )
}

/// The affine form of the multiple by `k` of an element of `G2`: of what `AffineCurve::mul` of
/// `ark_bls12_381::G2Affine` returns. An element is given by its coordinates and by whether it is
/// the point at infinity.
pub uninterp spec fn g2_multiple(x: (int, int), y: (int, int), infinity: bool, k: int) -> (
    (int, int),
    (int, int),
    bool,
);

/// The affine form of an element of `G2`: what `ProjectiveCurve::into_affine` of
/// `ark_bls12_381::G2Projective` returns.
pub uninterp spec fn g2_affine(x: (int, int), y: (int, int), z: (int, int)) -> (
    (int, int),
    (int, int),
    bool,
);

/// The coefficients of the lines that the pairing takes of an element of `G2`, and whether the
/// element is the point at infinity: what `From<ark_bls12_381::G2Affine>` of
/// `ark_ec::bls12::G2Prepared` returns.
pub uninterp spec fn g2_preparation(x: (int, int), y: (int, int), infinity: bool) -> (
    Seq<Seq<int>>,
    bool,
);

/// The product of two coordinates, not yet reduced.
pub open spec fn pair_product(a: (int, int), b: (int, int)) -> (int, int) {
    (a.0 * b.0 - a.1 * b.1, a.0 * b.1 + a.1 * b.0)
}

/// `a`, when it is reduced, is `b`.
pub open spec fn reduces_to(a: (int, int), b: (int, int)) -> bool {
    a.0 % base_order() == b.0 && a.1 % base_order() == b.1
}

/// Both parts of a coordinate lie below the number of elements of their field.
pub open spec fn is_reduced_pair(a: (int, int)) -> bool {
    0 <= a.0 < base_order() && 0 <= a.1 < base_order()
}

/// `p` has the affine coordinates `x / z^2` and `y / z^3`, or is the point at infinity, with the
/// coordinates 0 and 1, where `z` is 0.
pub open spec fn is_affine_form(
    p: ((int, int), (int, int), bool),
    x: (int, int),
    y: (int, int),
    z: (int, int),
) -> bool {
    if z == (0int, 0int) {
        p == ((0int, 0int), (1int, 0int), true)
    } else {
        let square = pair_product(z, z);
        &&& is_reduced_pair(p.0) && reduces_to(pair_product(p.0, square), x)
        &&& is_reduced_pair(p.1) && reduces_to(pair_product(p.1, pair_product(z, square)), y)
        &&& !p.2
    }
}

/// `p` is `k` times the generator.
pub open spec fn g2_has_log(p: ((int, int), (int, int), bool), k: int) -> bool {
    0 <= k < order() && p == g2_multiple(g2_generator().0, g2_generator().1, false, k)
}

/// The affine coordinates are those of an element of `G2`.
pub open spec fn in_g2(p: ((int, int), (int, int), bool)) -> bool {
    exists|k: int| g2_has_log(p, k)
}

/// The discrete logarithm of the element of `G2` with these affine coordinates.
pub open spec fn g2_log(p: ((int, int), (int, int), bool)) -> int {
    if in_g2(p) {
        choose|k: int| g2_has_log(p, k)
    } else {
        0
    }
}

/// `c` is what the preparation of the element `p` of `G2` gives.
pub open spec fn is_preparation_of(
    c: (Seq<Seq<int>>, bool),
    p: ((int, int), (int, int), bool),
) -> bool {
    in_g2(p) && c == g2_preparation(p.0, p.1, p.2)
}

/// The pair of coordinates that two lists of digits give.
pub open spec fn pair_value(c: Seq<[u64; 6]>) -> (int, int) {
    (limbs_value(c[0]@), limbs_value(c[1]@))
}

/// Both lists of digits are those of the integers that elements of the field of coordinates stand
/// for.
pub open spec fn is_canonical_pair(c: Seq<[u64; 6]>) -> bool {
    is_canonical(c[0]@) && is_canonical(c[1]@)
}

/// The coordinates satisfy the equation of the curve, which is `y^2 = x^3 + 4 * (1 + u)`.
pub open spec fn on_g2_curve(x: (int, int), y: (int, int)) -> bool {
    &&& (y.0 * y.0 - y.1 * y.1) % base_order() == (x.0 * x.0 * x.0 - 3 * x.0 * x.1 * x.1 + 4)
        % base_order()
    &&& 2 * y.0 * y.1 % base_order() == (3 * x.0 * x.0 * x.1 - x.1 * x.1 * x.1 + 4) % base_order()
}

/// An element of `G2` in affine coordinates.
#[derive(Clone, Copy, Debug, PartialEq, Eq)]
pub struct G2Affine {
    xy: [[[u64; 6]; 2]; 2],
    infinity: bool,
}

impl View for G2Affine {
    type V = ((int, int), (int, int), bool);

    /// The coordinates, and whether the element is the point at infinity.
    closed spec fn view(&self) -> ((int, int), (int, int), bool) {
        (pair_value(self.xy@[0]@), pair_value(self.xy@[1]@), self.infinity)
    }
}

impl G2Affine {
    #[verifier::type_invariant]
    closed spec fn is_element(self) -> bool {
        in_g2(self@) && is_canonical_pair(self.xy@[0]@) && is_canonical_pair(self.xy@[1]@)
    }

    /// The discrete logarithm.
    pub open spec fn log(self) -> int {
        g2_log(self@)
    }

    /// Logarithms lie below the order.
    pub proof fn lemma_reduced(&self)
        ensures
            0 <= self.log() < order(),
    {
    }

    /// An element is known by its logarithm.
    pub proof fn lemma_log_injective(p: G2Affine, q: G2Affine)
        requires
            in_g2(p@),
            in_g2(q@),
            p.log() == q.log(),
        ensures
            p == q,
    {
        assert forall|i: int, j: int| 0 <= i < 2 && 0 <= j < 2 implies p.xy@[i]@[j]
            == q.xy@[i]@[j] by {
            lemma_limbs_injective(p.xy@[i]@[j]@, q.xy@[i]@[j]@);
            assert(p.xy@[i]@[j] =~= q.xy@[i]@[j]);
        }
        assert(p.xy@[0] =~= q.xy@[0]);
        assert(p.xy@[1] =~= q.xy@[1]);
        assert(p.xy =~= q.xy);
    }

    /// The element with the coordinates `x` and `y`, if there is one.
    pub fn from_coordinates(x: [[u64; 6]; 2], y: [[u64; 6]; 2]) -> (res: Option<G2Affine>)
        ensures
            res is Some <==> is_canonical_pair(x@) && is_canonical_pair(y@) && on_g2_curve(
                pair_value(x@),
                pair_value(y@),
            ) && in_g2((pair_value(x@), pair_value(y@), false)),
            res is Some ==> limbs_value(x@[0]@) < base_order() && limbs_value(x@[1]@) < base_order()
                && limbs_value(y@[0]@) < base_order() && limbs_value(y@[1]@) < base_order(),
            limbs_value(x@[0]@) < base_order() && limbs_value(x@[1]@) < base_order() && limbs_value(
                y@[0]@,
            ) < base_order() && limbs_value(y@[1]@) < base_order() && on_g2_curve(
                (limbs_value(x@[0]@), limbs_value(x@[1]@)),
                (limbs_value(y@[0]@), limbs_value(y@[1]@)),
            ) && in_g2(
                (
                    (limbs_value(x@[0]@), limbs_value(x@[1]@)),
                    (limbs_value(y@[0]@), limbs_value(y@[1]@)),
                    false,
                ),
            ) ==> res is Some,
            res matches Some(p) ==> p@ == (pair_value(x@), pair_value(y@), false),
    {
        if !base_is_canonical(&x[0]) || !base_is_canonical(&x[1]) {
            return None;
        }
        if !base_is_canonical(&y[0]) || !base_is_canonical(&y[1]) {
            return None;
        }
        if !g2_is_on_curve(&x, &y) {
            return None;
        }
        if !g2_is_in_correct_subgroup(&x, &y) {
            return None;
        }
        Some(G2Affine { xy: [x, y], infinity: false })
    }

    /// The generator to which logarithms refer.
    pub fn generator() -> (res: G2Affine)
        ensures
            res@ == (g2_generator().0, g2_generator().1, false),
            res.log() == 1,
    {
        g2_prime_subgroup_generator()
    }

    /// The digits of the coordinates, unless the element is the point at infinity.
    pub fn coordinates(&self) -> (res: Option<([[u64; 6]; 2], [[u64; 6]; 2])>)
        ensures
            res is None <==> self@.2,
            res matches Some((x, y)) ==> pair_value(x@) == self@.0 && pair_value(y@) == self@.1,
            in_g2(self@),
    {
        proof {
            use_type_invariant(self);
        }
        if self.infinity {
            None
        } else {
            Some((self.xy[0], self.xy[1]))
        }
    }
}

/// An element of `G2` in projective coordinates.
#[derive(Clone, Copy, Debug)]
pub struct G2Projective {
    xyz: [[[u64; 6]; 2]; 3],
}

impl View for G2Projective {
    type V = ((int, int), (int, int), (int, int));

    /// The coordinates.
    closed spec fn view(&self) -> ((int, int), (int, int), (int, int)) {
        (
            pair_value(self.xyz@[0]@),
            pair_value(self.xyz@[1]@),
            pair_value(self.xyz@[2]@),
        )
    }
}

impl G2Projective {
    #[verifier::type_invariant]
    closed spec fn is_element(self) -> bool {
        in_g2(self.affine()) && is_canonical_pair(self.xyz@[0]@) && is_canonical_pair(
            self.xyz@[1]@,
        ) && is_canonical_pair(self.xyz@[2]@)
    }

    /// The element in affine coordinates.
    pub open spec fn affine(self) -> ((int, int), (int, int), bool) {
        g2_affine(self@.0, self@.1, self@.2)
    }

    /// The discrete logarithm.
    pub open spec fn log(self) -> int {
        g2_log(self.affine())
    }

    /// Logarithms lie below the order.
    pub proof fn lemma_reduced(&self)
        ensures
            0 <= self.log() < order(),
    {
    }
}

/// An element of `G2` that has been prepared for use in pairings.
#[derive(Debug, PartialEq, Eq)]
pub struct G2Prepared {
    pub(crate) ell_coeffs: Vec<[[u64; 6]; 6]>,
    pub(crate) infinity: bool,
}

impl View for G2Prepared {
    type V = (Seq<Seq<int>>, bool);

    /// The coefficients of the lines, and whether the element is the point at infinity.
    closed spec fn view(&self) -> (Seq<Seq<int>>, bool) {
        (
            Seq::new(
                self.ell_coeffs@.len(),
                |i: int| Seq::new(6, |j: int| limbs_value(self.ell_coeffs@[i]@[j]@)),
            ),
            self.infinity,
        )
    }
}

impl Clone for G2Prepared {
    fn clone(&self) -> (res: G2Prepared)
        ensures
            res@ == self@,
    {
        let mut ell_coeffs: Vec<[[u64; 6]; 6]> = Vec::new();
        let mut i: usize = 0;
        while i < self.ell_coeffs.len()
            invariant
                i <= self.ell_coeffs.len(),
                ell_coeffs@ =~= self.ell_coeffs@.take(i as int),
            decreases self.ell_coeffs.len() - i,
        {
            ell_coeffs.push(self.ell_coeffs[i]);
            i += 1;
        }
        proof {
            use_type_invariant(self);
            assert(ell_coeffs@ =~= self.ell_coeffs@);
        }
        let ghost copy = G2Prepared { ell_coeffs, infinity: self.infinity };
        assert(copy@.0 =~= self@.0);
        G2Prepared { ell_coeffs, infinity: self.infinity }
    }
}

impl G2Prepared {
    #[verifier::type_invariant]
    closed spec fn is_prepared_element(self) -> bool {
        &&& exists|p: ((int, int), (int, int), bool)| is_preparation_of(self@, p)
        &&& forall|i: int, j: int|
            0 <= i < self.ell_coeffs@.len() && 0 <= j < 6 ==> is_canonical(
                #[trigger] self.ell_coeffs@[i]@[j]@,
            )
    }

    /// The discrete logarithm of the element that was prepared.
    pub open spec fn log(self) -> int {
        g2_log(choose|p: ((int, int), (int, int), bool)| is_preparation_of(self@, p))
    }

    /// Logarithms lie below the order.
    pub proof fn lemma_reduced(&self)
        ensures
            0 <= self.log() < order(),
    {
    }
}

/// Whether the coordinates satisfy the equation of the curve, from `is_on_curve` of
/// `ark_bls12_381::G2Affine`. Its result is taken to be what `on_g2_curve` says.
#[verifier::external_body]
fn g2_is_on_curve(x: &[[u64; 6]; 2], y: &[[u64; 6]; 2]) -> (res: bool)
    requires
        is_canonical_pair(x@),
        is_canonical_pair(y@),
    ensures
        res == on_g2_curve(pair_value(x@), pair_value(y@)),
{
    let [x, y] = [x, y].map(|c| {
        let [a, b] = c.map(|c| Fq::from(BigInteger384(c)));
        Fq2::new(a, b)
    });
    ark_bls12_381::G2Affine::new(x, y, false).is_on_curve()
}

/// Whether a point of the curve is an element of `G2`, from
/// `is_in_correct_subgroup_assuming_on_curve` of `ark_bls12_381::G2Affine`. The elements are taken
/// to be the multiples of the generator.
#[verifier::external_body]
fn g2_is_in_correct_subgroup(x: &[[u64; 6]; 2], y: &[[u64; 6]; 2]) -> (res: bool)
    requires
        is_canonical_pair(x@),
        is_canonical_pair(y@),
        on_g2_curve(pair_value(x@), pair_value(y@)),
    ensures
        res == in_g2((pair_value(x@), pair_value(y@), false)),
{
    let [x, y] = [x, y].map(|c| {
        let [a, b] = c.map(|c| Fq::from(BigInteger384(c)));
        Fq2::new(a, b)
    });
    ark_bls12_381::G2Affine::new(x, y, false).is_in_correct_subgroup_assuming_on_curve()
}

/// The generator, from `AffineCurve::prime_subgroup_generator` of `ark_bls12_381::G2Affine`. Its
/// coordinates are taken to be `g2_generator`, and its logarithm 1.
#[verifier::external_body]
fn g2_prime_subgroup_generator() -> (res: G2Affine)
    ensures
        res@ == (g2_generator().0, g2_generator().1, false),
        res.log() == 1,
{
    let r = ark_bls12_381::G2Affine::prime_subgroup_generator();
    let xy = [r.x, r.y].map(|c| [c.c0.into_repr().0, c.c1.into_repr().0]);
    G2Affine { xy, infinity: r.infinity }
}

/// `x` is what `g2_rand` draws from the generator of random numbers `r`.
pub closed spec fn g2_drawn(r: &mut StdRng, x: G2Projective) -> bool {
    call_ensures(g2_rand, (r,), x)
}

/// What is drawn is what `UniformRand::rand` returns.
pub(crate) proof fn law_g2_drawn(r: &mut StdRng, x: G2Projective)
    ensures
        g2_drawn(r, x) == call_ensures(g2_rand, (r,), x),
{
}

/// A random element, from `UniformRand::rand` of `ark_bls12_381::G2Projective`. Nothing is claimed
/// of it but that it is an element.
#[verifier::external_body]
pub(crate) fn g2_rand(rng: &mut StdRng) -> (res: G2Projective) {
    let r = ark_bls12_381::G2Projective::rand(rng);
    let xyz = [r.x, r.y, r.z].map(|c| [c.c0.into_repr().0, c.c1.into_repr().0]);
    G2Projective { xyz }
}

/// `k` times `p`, from `AffineCurve::mul` of `ark_bls12_381::G2Affine`. The affine form of its
/// result has the name `g2_multiple`, and multiplying is taken to multiply the logarithm.
#[verifier::external_body]
pub(crate) fn g2_mul(p: &G2Affine, k: &Fr) -> (res: G2Projective)
    ensures
        g2_affine(res@.0, res@.1, res@.2) == g2_multiple(p@.0, p@.1, p@.2, k@),
        res.log() == p.log() * k@ % order(),
{
    let [x, y] = p.xy.map(|c| {
        let [a, b] = c.map(|c| Fq::from(BigInteger384(c)));
        Fq2::new(a, b)
    });
    let k = ark_bls12_381::Fr::from(BigInteger256(k.limbs()));
    let r = ark_bls12_381::G2Affine::new(x, y, p.infinity).mul(k);
    let xyz = [r.x, r.y, r.z].map(|c| [c.c0.into_repr().0, c.c1.into_repr().0]);
    G2Projective { xyz }
}

/// An element in affine coordinates, from `ProjectiveCurve::into_affine` of
/// `ark_bls12_381::G2Projective`. Its result has the name `g2_affine`, and is taken to be what
/// `is_affine_form` says.
#[verifier::external_body]
pub(crate) fn g2_into_affine(p: &G2Projective) -> (res: G2Affine)
    ensures
        res@ == g2_affine(p@.0, p@.1, p@.2),
        is_affine_form(res@, p@.0, p@.1, p@.2),
{
    let [x, y, z] = p.xyz.map(|c| {
        let [a, b] = c.map(|c| Fq::from(BigInteger384(c)));
        Fq2::new(a, b)
    });
    let r = ark_bls12_381::G2Projective::new(x, y, z).into_affine();
    let xy = [r.x, r.y].map(|c| [c.c0.into_repr().0, c.c1.into_repr().0]);
    G2Affine { xy, infinity: r.infinity }
}

/// An element, prepared for use in pairings, from `From<ark_bls12_381::G2Affine>` of
/// `ark_ec::bls12::G2Prepared`. Its result has the name `g2_preparation`, and no two elements are
/// taken to have the same preparation.
#[verifier::external_body]
pub(crate) fn g2_prepare(p: &G2Affine) -> (res: G2Prepared)
    ensures
        res@ == g2_preparation(p@.0, p@.1, p@.2),
        res.log() == p.log(),
{
    let [x, y] = p.xy.map(|c| {
        let [a, b] = c.map(|c| Fq::from(BigInteger384(c)));
        Fq2::new(a, b)
    });
    let q = ark_bls12_381::G2Affine::new(x, y, p.infinity);
    let r = ark_ec::bls12::G2Prepared::<ark_bls12_381::Parameters>::from(q);
    let ell_coeffs = r.ell_coeffs.iter().map(|(a, b, c)| {
        [a.c0, a.c1, b.c0, b.c1, c.c0, c.c1].map(|c| c.into_repr().0)
    }).collect();
    G2Prepared { ell_coeffs, infinity: r.infinity }
}

} // verus!
