//! The group `G1`.
use ark_bls12_381::Fq;
use ark_ec::msm::{FixedBaseMSM, VariableBaseMSM};
use ark_ec::{AffineCurve, ProjectiveCurve};
use ark_ff::{BigInteger256, BigInteger384, PrimeField, UniformRand, Zero};
use rand::rngs::StdRng;
use vstd::arithmetic::power2::pow2;
use vstd::prelude::*;

use crate::algebra::inner_product;
use crate::bls12_381::fr::{order, BigInt, Fr};
use crate::engine::is_window_table;
use crate::limbs::{lemma_limbs_injective, limbs_less, limbs_value};

verus! {

/// The number of elements of the field in which coordinates lie.
pub open spec fn base_order() -> int {
    4002409555221667393417789825735904156556882819939007885332058136124031650490837864442687629129015664037894272559787int
}

/// The coordinates of the generator to which logarithms refer.
pub open spec fn g1_generator() -> (int, int) {
    (
        3685416753713387016781088315183077757961620795782546409894578378688607592378376318836054947676345821548104185464507int,
        1339506544944476473020471379941921221584933875938349620426543736416511423956333506472724655353366534992391756441569int,
    )
}

/// The affine form of the multiple by `k` of an element of `G1`: of what `AffineCurve::mul` of
/// `ark_bls12_381::G1Affine` returns. An element is given by its coordinates and by whether it is
/// the point at infinity.
pub uninterp spec fn g1_multiple(x: int, y: int, infinity: bool, k: int) -> (int, int, bool);

/// The affine form of an element of `G1`: what `ProjectiveCurve::into_affine` of
/// `ark_bls12_381::G1Projective` returns.
pub uninterp spec fn g1_affine(x: int, y: int, z: int) -> (int, int, bool);

/// `p` has the affine coordinates `x / z^2` and `y / z^3`, or is the point at infinity, with the
/// coordinates 0 and 1, where `z` is 0.
pub open spec fn is_affine_form(p: (int, int, bool), x: int, y: int, z: int) -> bool {
    if z == 0 {
        p == (0int, 1int, true)
    } else {
        &&& 0 <= p.0 < base_order() && p.0 * z * z % base_order() == x
        &&& 0 <= p.1 < base_order() && p.1 * z * z * z % base_order() == y
        &&& !p.2
    }
}

/// `p` is `k` times the generator.
pub open spec fn g1_has_log(p: (int, int, bool), k: int) -> bool {
    0 <= k < order() && p == g1_multiple(g1_generator().0, g1_generator().1, false, k)
}

/// The affine coordinates are those of an element of `G1`.
pub open spec fn in_g1(p: (int, int, bool)) -> bool {
    exists|k: int| g1_has_log(p, k)
}

/// The discrete logarithm of the element of `G1` with these affine coordinates.
pub open spec fn g1_log(p: (int, int, bool)) -> int {
    if in_g1(p) {
        choose|k: int| g1_has_log(p, k)
    } else {
        0
    }
}

/// The digits are those of the integer that an element of the field of coordinates stands for.
pub open spec fn is_canonical(limbs: Seq<u64>) -> bool {
    limbs_value(limbs) < base_order()
}

/// Whether the digits are those of the integer that an element of the field of coordinates stands
/// for.
pub fn base_is_canonical(limbs: &[u64; 6]) -> (res: bool)
    ensures
        res == is_canonical(limbs@),
        res == (limbs_value(limbs@) < base_order()),
{
    let modulus: [u64; 6] = [
        0xb9feffffffffaaab,
        0x1eabfffeb153ffff,
        0x6730d2a0f6b0f624,
        0x64774b84f38512bf,
        0x4b1ba7b6434bacd7,
        0x1a0111ea397fe69a,
    ];
    proof {
        reveal_with_fuel(limbs_value, 7);
        assert(limbs_value(modulus@) == base_order());
    }
    limbs_less(limbs.as_slice(), modulus.as_slice())
}

/// The coordinates satisfy the equation of the curve, which is `y^2 = x^3 + 4`.
pub open spec fn on_g1_curve(x: int, y: int) -> bool {
    y * y % base_order() == (x * x * x + 4) % base_order()
}

/// An element of `G1` in affine coordinates.
#[derive(Clone, Copy, Debug, PartialEq, Eq)]
pub struct G1Affine {
    pub(crate) xy: [[u64; 6]; 2],
    pub(crate) infinity: bool,
}

impl View for G1Affine {
    type V = (int, int, bool);

    /// The coordinates, and whether the element is the point at infinity.
    closed spec fn view(&self) -> (int, int, bool) {
        (limbs_value(self.xy@[0]@), limbs_value(self.xy@[1]@), self.infinity)
    }
}

impl G1Affine {
    #[verifier::type_invariant]
    closed spec fn is_element(self) -> bool {
        in_g1(self@) && self@.0 < base_order() && self@.1 < base_order()
    }

    /// The discrete logarithm.
    pub open spec fn log(self) -> int {
        g1_log(self@)
    }

    /// Logarithms lie below the order.
    pub proof fn lemma_reduced(&self)
        ensures
            0 <= self.log() < order(),
    {
    }

    /// The element with the coordinates `x` and `y`, if there is one.
    pub fn from_coordinates(x: [u64; 6], y: [u64; 6]) -> (res: Option<G1Affine>)
        ensures
            res is Some <==> is_canonical(x@) && is_canonical(y@) && on_g1_curve(
                limbs_value(x@),
                limbs_value(y@),
            ) && in_g1((limbs_value(x@), limbs_value(y@), false)),
            res is Some ==> limbs_value(x@) < base_order() && limbs_value(y@) < base_order(),
            limbs_value(x@) < base_order() && limbs_value(y@) < base_order() && limbs_value(y@)
                * limbs_value(y@) % base_order() == (limbs_value(x@) * limbs_value(x@)
                * limbs_value(x@) + 4) % base_order() && in_g1(
                (limbs_value(x@), limbs_value(y@), false),
            ) ==> res is Some,
            res matches Some(p) ==> p@ == (limbs_value(x@), limbs_value(y@), false),
    {
        if !base_is_canonical(&x) || !base_is_canonical(&y) {
            return None;
        }
        if !g1_is_on_curve(&x, &y) {
            return None;
        }
        if !g1_is_in_correct_subgroup(&x, &y) {
            return None;
        }
        Some(G1Affine { xy: [x, y], infinity: false })
    }

    /// The generator to which logarithms refer.
    pub fn generator() -> (res: G1Affine)
        ensures
            res@ == (g1_generator().0, g1_generator().1, false),
            res.log() == 1,
    {
        g1_prime_subgroup_generator()
    }

    /// The point at infinity, which is the neutral element.
    pub fn zero() -> (res: G1Affine)
        ensures
            res.log() == 0,
    {
        g1_into_affine(&g1_zero())
    }

    /// The digits of the coordinates, unless the element is the point at infinity.
    pub fn coordinates(&self) -> (res: Option<([u64; 6], [u64; 6])>)
        ensures
            res is None <==> self@.2,
            res matches Some((x, y)) ==> limbs_value(x@) == self@.0 && limbs_value(y@) == self@.1,
            in_g1(self@),
    {
        proof {
            use_type_invariant(self);
        }
        if self.infinity {
            None
        } else {
            Some((self.xy[0], self.xy[1]))
        }
    }

    /// An element is known by its logarithm.
    pub proof fn lemma_log_injective(p: G1Affine, q: G1Affine)
        requires
            in_g1(p@),
            in_g1(q@),
            p.log() == q.log(),
        ensures
            p == q,
    {
        lemma_limbs_injective(p.xy@[0]@, q.xy@[0]@);
        lemma_limbs_injective(p.xy@[1]@, q.xy@[1]@);
        assert(p.xy@[0] =~= q.xy@[0]);
        assert(p.xy@[1] =~= q.xy@[1]);
        assert(p.xy =~= q.xy);
    }
}

/// An element of `G1` in projective coordinates.
#[derive(Clone, Copy, Debug)]
pub struct G1Projective {
    xyz: [[u64; 6]; 3],
}

impl View for G1Projective {
    type V = (int, int, int);

    /// The coordinates.
    closed spec fn view(&self) -> (int, int, int) {
        (
            limbs_value(self.xyz@[0]@),
            limbs_value(self.xyz@[1]@),
            limbs_value(self.xyz@[2]@),
        )
    }
}

impl G1Projective {
    #[verifier::type_invariant]
    closed spec fn is_element(self) -> bool {
        in_g1(self.affine()) && self@.0 < base_order() && self@.1 < base_order() && self@.2
            < base_order()
    }

    /// The element in affine coordinates.
    pub open spec fn affine(self) -> (int, int, bool) {
        g1_affine(self@.0, self@.1, self@.2)
    }

    /// The discrete logarithm.
    pub open spec fn log(self) -> int {
        g1_log(self.affine())
    }

    /// Logarithms lie below the order.
    pub proof fn lemma_reduced(&self)
        ensures
            0 <= self.log() < order(),
    {
    }
}

/// The discrete logarithms of elements.
pub open spec fn logs(s: Seq<G1Affine>) -> Seq<int> {
    Seq::new(s.len(), |i: int| s[i].log())
}

/// The discrete logarithms of a table of elements.
pub open spec fn table_logs(s: Seq<Vec<G1Affine>>) -> Seq<Seq<int>> {
    Seq::new(s.len(), |i: int| logs(s[i]@))
}

/// The values of integers.
pub open spec fn bigints(s: Seq<BigInt>) -> Seq<int> {
    Seq::new(s.len(), |i: int| s[i]@)
}

/// The generator, from `AffineCurve::prime_subgroup_generator` of `ark_bls12_381::G1Affine`. Its
/// coordinates are taken to be `g1_generator`, and its logarithm 1.
#[verifier::external_body]
fn g1_prime_subgroup_generator() -> (res: G1Affine)
    ensures
        res@ == (g1_generator().0, g1_generator().1, false),
        res.log() == 1,
{
    let r = ark_bls12_381::G1Affine::prime_subgroup_generator();
    G1Affine { xy: [r.x, r.y].map(|c| c.into_repr().0), infinity: r.infinity }
}

/// The neutral element, from `Zero::zero` of `ark_bls12_381::G1Projective`. Its logarithm is taken
/// to be 0.
#[verifier::external_body]
pub(crate) fn g1_zero() -> (res: G1Projective)
    ensures
        res.log() == 0,
{
    let r = ark_bls12_381::G1Projective::zero();
    G1Projective { xyz: [r.x, r.y, r.z].map(|c| c.into_repr().0) }
}

/// `x` is what `g1_rand` draws from the generator of random numbers `r`.
pub closed spec fn g1_drawn(r: &mut StdRng, x: G1Projective) -> bool {
    call_ensures(g1_rand, (r,), x)
}

/// What is drawn is what `UniformRand::rand` returns.
pub(crate) proof fn law_g1_drawn(r: &mut StdRng, x: G1Projective)
    ensures
        g1_drawn(r, x) == call_ensures(g1_rand, (r,), x),
{
}

/// A random element, from `UniformRand::rand` of `ark_bls12_381::G1Projective`. Nothing is claimed
/// of it but that it is an element.
#[verifier::external_body]
pub(crate) fn g1_rand(rng: &mut StdRng) -> (res: G1Projective) {
    let r = ark_bls12_381::G1Projective::rand(rng);
    G1Projective { xyz: [r.x, r.y, r.z].map(|c| c.into_repr().0) }
}

/// `k` times `p`, from `AffineCurve::mul` of `ark_bls12_381::G1Affine`. The affine form of its
/// result has the name `g1_multiple`, and multiplying is taken to multiply the logarithm.
#[verifier::external_body]
pub(crate) fn g1_mul(p: &G1Affine, k: &Fr) -> (res: G1Projective)
    ensures
        g1_affine(res@.0, res@.1, res@.2) == g1_multiple(p@.0, p@.1, p@.2, k@),
        res.log() == p.log() * k@ % order(),
{
    let [x, y] = p.xy.map(|c| Fq::from(BigInteger384(c)));
    let k = ark_bls12_381::Fr::from(BigInteger256(k.limbs()));
    let r = ark_bls12_381::G1Affine::new(x, y, p.infinity).mul(k);
    G1Projective { xyz: [r.x, r.y, r.z].map(|c| c.into_repr().0) }
}

/// `k` times `p`, from `ProjectiveCurve::mul` of `ark_bls12_381::G1Projective`. Multiplying is
/// taken to multiply the logarithm.
#[verifier::external_body]
pub(crate) fn g1_projective_mul(p: &G1Projective, k: &BigInt) -> (res: G1Projective)
    ensures
        res.log() == p.log() * k@ % order(),
{
    let [x, y, z] = p.xyz.map(|c| Fq::from(BigInteger384(c)));
    let r = ark_bls12_381::G1Projective::new(x, y, z).mul(BigInteger256(k.limbs));
    G1Projective { xyz: [r.x, r.y, r.z].map(|c| c.into_repr().0) }
}

/// The sum of two elements, from `+=` of `ark_bls12_381::G1Projective`. Adding is taken to add the
/// logarithms.
#[verifier::external_body]
pub(crate) fn g1_add(p: &G1Projective, q: &G1Projective) -> (res: G1Projective)
    ensures
        res.log() == (p.log() + q.log()) % order(),
{
    let [mut r, s] = [p, q].map(|p| {
        let [x, y, z] = p.xyz.map(|c| Fq::from(BigInteger384(c)));
        ark_bls12_381::G1Projective::new(x, y, z)
    });
    r += &s;
    G1Projective { xyz: [r.x, r.y, r.z].map(|c| c.into_repr().0) }
}

/// The sum of two elements, from `ProjectiveCurve::add_assign_mixed` of
/// `ark_bls12_381::G1Projective`. Adding is taken to add the logarithms.
#[verifier::external_body]
pub(crate) fn g1_add_mixed(p: &G1Projective, q: &G1Affine) -> (res: G1Projective)
    ensures
        res.log() == (p.log() + q.log()) % order(),
{
    let [x, y, z] = p.xyz.map(|c| Fq::from(BigInteger384(c)));
    let mut r = ark_bls12_381::G1Projective::new(x, y, z);
    let [x, y] = q.xy.map(|c| Fq::from(BigInteger384(c)));
    r.add_assign_mixed(&ark_bls12_381::G1Affine::new(x, y, q.infinity));
    G1Projective { xyz: [r.x, r.y, r.z].map(|c| c.into_repr().0) }
}

/// The difference of two elements, from `-=` of `ark_bls12_381::G1Projective`. Subtracting is taken
/// to subtract the logarithms.
#[verifier::external_body]
pub(crate) fn g1_sub(p: &G1Projective, q: &G1Projective) -> (res: G1Projective)
    ensures
        res.log() == (p.log() - q.log()) % order(),
{
    let [mut r, s] = [p, q].map(|p| {
        let [x, y, z] = p.xyz.map(|c| Fq::from(BigInteger384(c)));
        ark_bls12_381::G1Projective::new(x, y, z)
    });
    r -= &s;
    G1Projective { xyz: [r.x, r.y, r.z].map(|c| c.into_repr().0) }
}

/// The negative of an element, from unary `-` of `ark_bls12_381::G1Projective`. It is taken to
/// have the negative of the logarithm.
#[verifier::external_body]
pub(crate) fn g1_neg(p: &G1Projective) -> (res: G1Projective)
    ensures
        res.log() == (-p.log()) % order(),
{
    let [x, y, z] = p.xyz.map(|c| Fq::from(BigInteger384(c)));
    let r = -ark_bls12_381::G1Projective::new(x, y, z);
    G1Projective { xyz: [r.x, r.y, r.z].map(|c| c.into_repr().0) }
}

/// An element in affine coordinates, from `ProjectiveCurve::into_affine` of
/// `ark_bls12_381::G1Projective`. Its result has the name `g1_affine`, and is taken to be what
/// `is_affine_form` says.
#[verifier::external_body]
pub(crate) fn g1_into_affine(p: &G1Projective) -> (res: G1Affine)
    ensures
        res@ == g1_affine(p@.0, p@.1, p@.2),
        is_affine_form(res@, p@.0, p@.1, p@.2),
{
    let [x, y, z] = p.xyz.map(|c| Fq::from(BigInteger384(c)));
    let r = ark_bls12_381::G1Projective::new(x, y, z).into_affine();
    G1Affine { xy: [r.x, r.y].map(|c| c.into_repr().0), infinity: r.infinity }
}

/// Elements in affine coordinates, from `ProjectiveCurve::batch_normalization_into_affine` of
/// `ark_bls12_381::G1Projective`. Each is taken to be what `into_affine` gives of it.
#[verifier::external_body]
pub(crate) fn g1_batch_into_affine(v: &[G1Projective]) -> (res: Vec<G1Affine>)
    ensures
        res@.len() == v@.len(),
        forall|i: int|
            0 <= i < v@.len() ==> (#[trigger] res@[i])@ == g1_affine(v@[i]@.0, v@[i]@.1, v@[i]@.2),
{
    let v = v.iter().map(|p| {
        let [x, y, z] = p.xyz.map(|c| Fq::from(BigInteger384(c)));
        ark_bls12_381::G1Projective::new(x, y, z)
    }).collect::<Vec<_>>();
    let r = ark_bls12_381::G1Projective::batch_normalization_into_affine(&v);
    r.iter().map(|r| G1Affine {
        xy: [r.x, r.y].map(|c| c.into_repr().0), infinity: r.infinity,
    }).collect()
}

/// Whether the coordinates satisfy the equation of the curve, from `is_on_curve` of
/// `ark_bls12_381::G1Affine`. Its result is taken to be what `on_g1_curve` says.
#[verifier::external_body]
fn g1_is_on_curve(x: &[u64; 6], y: &[u64; 6]) -> (res: bool)
    requires
        is_canonical(x@),
        is_canonical(y@),
    ensures
        res == on_g1_curve(limbs_value(x@), limbs_value(y@)),
{
    let [x, y] = [x, y].map(|c| Fq::from(BigInteger384(*c)));
    ark_bls12_381::G1Affine::new(x, y, false).is_on_curve()
}

/// Whether a point of the curve is an element of `G1`, from
/// `is_in_correct_subgroup_assuming_on_curve` of `ark_bls12_381::G1Affine`. The elements are taken
/// to be the multiples of the generator.
#[verifier::external_body]
fn g1_is_in_correct_subgroup(x: &[u64; 6], y: &[u64; 6]) -> (res: bool)
    requires
        is_canonical(x@),
        is_canonical(y@),
        on_g1_curve(limbs_value(x@), limbs_value(y@)),
    ensures
        res == in_g1((limbs_value(x@), limbs_value(y@), false)),
{
    let [x, y] = [x, y].map(|c| Fq::from(BigInteger384(*c)));
    ark_bls12_381::G1Affine::new(x, y, false).is_in_correct_subgroup_assuming_on_curve()
}

/// The window table of `g`, from `FixedBaseMSM::get_window_table` of `ark_ec` for
/// `ark_bls12_381::G1Projective`. Its result is taken to be what `is_window_table` says. Windows
/// that are larger than the ones `get_mul_window_size` gives are left out.
#[verifier::external_body]
pub(crate) fn g1_window_table(bits: usize, window: usize, g: &G1Projective) -> (res: Vec<
    Vec<G1Affine>,
>)
    requires
        0 < bits < 0x1_0000,
        0 < window,
        window * 100 <= usize::BITS * 69,
    ensures
        is_window_table(table_logs(res@), bits as int, window as int, g.log(), order()),
{
    let [x, y, z] = g.xyz.map(|c| Fq::from(BigInteger384(c)));
    let g = ark_bls12_381::G1Projective::new(x, y, z);
    FixedBaseMSM::get_window_table(bits, window, g).iter().map(|row| row.iter().map(|r| G1Affine {
        xy: [r.x, r.y].map(|c| c.into_repr().0), infinity: r.infinity,
    }).collect()).collect()
}

/// The multiples by `v` of the element that `table` was made for, from
/// `FixedBaseMSM::multi_scalar_mul` of `ark_ec` for `ark_bls12_381::G1Projective`. Multiplying is
/// taken to multiply the logarithm.
#[verifier::external_body]
pub(crate) fn g1_fixed_base_msm(bits: usize, window: usize, table: &[Vec<G1Affine>], v: &[Fr]) -> (
    res: Vec<G1Projective>)
    requires
        0 < bits < 0x1_0000,
        0 < window,
        window * 100 <= usize::BITS * 69,
        order() <= pow2(bits as nat),
        exists|base: int|
            #[trigger] is_window_table(
                table_logs(table@),
                bits as int,
                window as int,
                base,
                order(),
            ),
    ensures
        res@.len() == v@.len(),
        forall|base: int, i: int|
            #![trigger is_window_table(
                table_logs(table@),
                bits as int,
                window as int,
                base,
                order(),
            ), res@[i]]
            is_window_table(table_logs(table@), bits as int, window as int, base, order()) && 0
                <= i < v@.len() ==> res@[i].log() == v@[i]@ * base % order(),
{
    let table = table.iter().map(|row| row.iter().map(|p| {
        let [x, y] = p.xy.map(|c| Fq::from(BigInteger384(c)));
        ark_bls12_381::G1Affine::new(x, y, p.infinity)
    }).collect()).collect::<Vec<_>>();
    let v = v.iter().map(|k| BigInteger256(k.limbs()).into()).collect::<Vec<_>>();
    let r = FixedBaseMSM::multi_scalar_mul::<ark_bls12_381::G1Projective>(bits, window, &table, &v);
    r.iter().map(|r| G1Projective {
        xyz: [r.x, r.y, r.z].map(|c| c.into_repr().0),
    }).collect()
}

/// The sum of the multiples of `bases` by `exponents`, from `VariableBaseMSM::multi_scalar_mul` of
/// `ark_ec` for `ark_bls12_381::G1Affine`, which goes as far as the shorter of the two lists. Its
/// logarithm is taken to be the sum of the products.
#[verifier::external_body]
pub(crate) fn g1_variable_base_msm(bases: &[G1Affine], exponents: &[BigInt]) -> (res: G1Projective)
    requires
        forall|i: int| 0 <= i < exponents@.len() ==> 0 <= (#[trigger] exponents@[i])@ < order(),
    ensures
        res.log() == inner_product(logs(bases@), bigints(exponents@)) % order(),
{
    let bases = bases.iter().map(|p| {
        let [x, y] = p.xy.map(|c| Fq::from(BigInteger384(c)));
        ark_bls12_381::G1Affine::new(x, y, p.infinity)
    }).collect::<Vec<_>>();
    let exponents = exponents.iter().map(|k| BigInteger256(k.limbs)).collect::<Vec<_>>();
    let r = VariableBaseMSM::multi_scalar_mul(&bases, &exponents);
    G1Projective { xyz: [r.x, r.y, r.z].map(|c| c.into_repr().0) }
}

} // verus!
