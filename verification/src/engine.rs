//! What the commitment scheme asks of a pairing.
use rand::rngs::StdRng;
use vstd::arithmetic::power2::pow2;
use vstd::prelude::*;

use crate::algebra::{inner_product, is_normalized, is_quotient, min_len};
use crate::primality::is_prime;

verus! {

/// A generator of random numbers.
#[verifier::external_type_specification]
#[verifier::external_body]
pub struct ExStdRng(rand::rngs::StdRng);

/// Calls `f` on a generator of random numbers, and says of the result that it came from that call.
pub(crate) fn call_with<T, F: Fn(&mut StdRng) -> T>(f: F, rng: &mut StdRng) -> (res: T)
    requires
        forall|r: &mut StdRng| call_requires(f, (r,)),
    ensures
        exists|r: &mut StdRng|
            #![trigger call_ensures(f, (r,), res)]
            *r == *old(rng) && *final(r) == *final(rng) && call_ensures(f, (r,), res),
{
    f(rng)
}

/// Two groups `G1` and `G2` of the same prime order and their scalar field, as contracts see them.
///
/// Contracts speak of a scalar by the integer below the order that it stands for, and of a point
/// by its discrete logarithm: the integer below the order by which a generator of the group, the
/// same one for all points, is multiplied to give the point. A group of prime order has no point
/// without such a logarithm, and no two points with the same one.
pub trait PairingGroups: Sized {
    /// An element of the scalar field of the two groups.
    type Fr: Copy;

    /// An integer, as a scalar is handed to a multiplication.
    type BigInt: Copy;

    /// An element of `G1` in affine coordinates.
    type G1Affine: Copy;

    /// An element of `G1` in projective coordinates.
    type G1Projective: Copy;

    /// An element of `G2` in affine coordinates.
    type G2Affine: Copy;

    /// An element of `G2` in projective coordinates.
    type G2Projective: Copy;

    /// An element of `G2` that has been preprocessed for use in a pairing.
    type G2Prepared;

    /// The order of the groups, which is the number of scalars.
    spec fn order() -> int;

    /// The integer that a scalar stands for.
    spec fn fr_int(x: Self::Fr) -> int;

    /// The value of an integer.
    spec fn bigint_int(x: Self::BigInt) -> int;

    /// The discrete logarithm of an element of `G1`.
    spec fn g1_log(p: Self::G1Affine) -> int;

    /// The discrete logarithm of an element of `G1`.
    spec fn g1_projective_log(p: Self::G1Projective) -> int;

    /// The discrete logarithm of an element of `G2`.
    spec fn g2_log(p: Self::G2Affine) -> int;

    /// The discrete logarithm of an element of `G2`.
    spec fn g2_projective_log(p: Self::G2Projective) -> int;

    /// The discrete logarithm of the element of `G2` that was prepared.
    spec fn g2_prepared_log(p: Self::G2Prepared) -> int;

    /// `x` is the scalar that is drawn from the generator of random numbers `r`.
    spec fn fr_drawn(r: &mut StdRng, x: Self::Fr) -> bool;

    /// `p` is the element of `G1` that is drawn from the generator of random numbers `r`.
    spec fn g1_drawn(r: &mut StdRng, p: Self::G1Projective) -> bool;

    /// `p` is the element of `G2` that is drawn from the generator of random numbers `r`.
    spec fn g2_drawn(r: &mut StdRng, p: Self::G2Projective) -> bool;

    /// The order is a prime number.
    proof fn lemma_prime_order()
        ensures
            is_prime(Self::order()),
    ;

    /// Scalars and logarithms lie below the order.
    proof fn lemma_reduced()
        ensures
            Self::order() > 1,
            forall|x: Self::Fr| 0 <= #[trigger] Self::fr_int(x) < Self::order(),
            forall|p: Self::G1Affine| 0 <= #[trigger] Self::g1_log(p) < Self::order(),
            forall|p: Self::G1Projective|
                0 <= #[trigger] Self::g1_projective_log(p) < Self::order(),
            forall|p: Self::G2Affine| 0 <= #[trigger] Self::g2_log(p) < Self::order(),
            forall|p: Self::G2Projective|
                0 <= #[trigger] Self::g2_projective_log(p) < Self::order(),
            forall|p: Self::G2Prepared| 0 <= #[trigger] Self::g2_prepared_log(p) < Self::order(),
    ;
}

/// The integers that scalars stand for.
pub open spec fn scalars<E: PairingGroups>(s: Seq<E::Fr>) -> Seq<int> {
    Seq::new(s.len(), |i: int| E::fr_int(s[i]))
}

/// The values of integers.
pub open spec fn bigints<E: PairingGroups>(s: Seq<E::BigInt>) -> Seq<int> {
    Seq::new(s.len(), |i: int| E::bigint_int(s[i]))
}

/// The discrete logarithms of elements of `G1`.
pub open spec fn g1_logs<E: PairingGroups>(s: Seq<E::G1Affine>) -> Seq<int> {
    Seq::new(s.len(), |i: int| E::g1_log(s[i]))
}

/// The discrete logarithms of a table of elements of `G1`.
pub open spec fn table_logs<E: PairingGroups>(s: Seq<Vec<E::G1Affine>>) -> Seq<Seq<int>> {
    Seq::new(s.len(), |i: int| g1_logs::<E>(s[i]@))
}

/// The number of windows of `window` bits that `bits` bits take.
pub open spec fn window_count(bits: int, window: int) -> int {
    (bits + window - 1) / window
}

/// Row `i` of the table holds the multiples of `2^(window * i)` times the base by the values of
/// a window of bits: all `2^window` of them, or in the last row as many as the bits that are left
/// can tell apart.
pub open spec fn is_window_table(
    table: Seq<Seq<int>>,
    bits: int,
    window: int,
    base: int,
    order: int,
) -> bool {
    &&& table.len() == window_count(bits, window)
    &&& forall|i: int| 0 <= i < table.len() ==> (#[trigger] table[i]).len() == pow2(window as nat)
    &&& forall|i: int, j: int|
        #![trigger table[i][j]]
        0 <= i < table.len() && 0 <= j < pow2(
            min_len(window as nat, (bits - window * i) as nat),
        ) ==> table[i][j] == j * pow2((window * i) as nat) * base % order
}

/// A pairing of the two groups, with what is computed in them and in their scalar field.
pub trait PairingEngine: PairingGroups {
    /// The scalar 0.
    fn fr_zero() -> (res: Self::Fr)
        ensures
            Self::fr_int(res) == 0,
    ;

    /// The scalar 1.
    fn fr_one() -> (res: Self::Fr)
        ensures
            Self::fr_int(res) == 1,
    ;

    /// Whether a scalar is 0.
    fn fr_is_zero(x: &Self::Fr) -> (res: bool)
        ensures
            res == (Self::fr_int(*x) == 0),
    ;

    /// The sum of two scalars.
    fn fr_add(x: &Self::Fr, y: &Self::Fr) -> (res: Self::Fr)
        ensures
            Self::fr_int(res) == (Self::fr_int(*x) + Self::fr_int(*y)) % Self::order(),
    ;

    /// The product of two scalars.
    fn fr_mul(x: &Self::Fr, y: &Self::Fr) -> (res: Self::Fr)
        ensures
            Self::fr_int(res) == Self::fr_int(*x) * Self::fr_int(*y) % Self::order(),
    ;

    /// The negative of a scalar.
    fn fr_neg(x: &Self::Fr) -> (res: Self::Fr)
        ensures
            Self::fr_int(res) == (-Self::fr_int(*x)) % Self::order(),
    ;

    /// The scalar that an integer stands for.
    fn fr_from_u128(x: u128) -> (res: Self::Fr)
        ensures
            Self::fr_int(res) == (x as int) % Self::order(),
    ;

    /// The integer that a scalar stands for.
    fn fr_into_repr(x: &Self::Fr) -> (res: Self::BigInt)
        ensures
            Self::bigint_int(res) == Self::fr_int(*x),
    ;

    /// A random scalar.
    fn fr_rand(rng: &mut StdRng) -> (res: Self::Fr)
        ensures
            exists|r: &mut StdRng|
                *r == *old(rng) && *final(r) == *final(rng) && #[trigger] Self::fr_drawn(r, res),
    ;

    /// A random element of `G1`.
    fn g1_rand(rng: &mut StdRng) -> (res: Self::G1Projective)
        ensures
            exists|r: &mut StdRng|
                *r == *old(rng) && *final(r) == *final(rng) && #[trigger] Self::g1_drawn(r, res),
    ;

    /// A random element of `G2`.
    fn g2_rand(rng: &mut StdRng) -> (res: Self::G2Projective)
        ensures
            exists|r: &mut StdRng|
                *r == *old(rng) && *final(r) == *final(rng) && #[trigger] Self::g2_drawn(r, res),
    ;

    /// The number of bits that a scalar takes.
    fn scalar_bits() -> (res: usize)
        ensures
            0 < res < 0x1_0000,
            Self::order() <= pow2(res as nat),
    ;

    /// The quotient of the polynomial `p` by the polynomial `d`.
    fn divide_polynomials(p: &[Self::Fr], d: &[Self::Fr]) -> (res: Vec<Self::Fr>)
        requires
            is_normalized(scalars::<Self>(p@)),
            is_normalized(scalars::<Self>(d@)),
            d@.len() > 0,
        ensures
            is_normalized(scalars::<Self>(res@)),
            is_quotient(
                scalars::<Self>(p@),
                scalars::<Self>(d@),
                scalars::<Self>(res@),
                Self::order(),
            ),
    ;

    /// The neutral element of `G1`.
    fn g1_zero() -> (res: Self::G1Projective)
        ensures
            Self::g1_projective_log(res) == 0,
    ;

    /// `x` times `p`.
    fn g1_mul(p: &Self::G1Affine, x: &Self::Fr) -> (res: Self::G1Projective)
        ensures
            Self::g1_projective_log(res) == Self::g1_log(*p) * Self::fr_int(*x) % Self::order(),
    ;

    /// `x` times `p`.
    fn g1_projective_mul(p: &Self::G1Projective, x: &Self::BigInt) -> (res: Self::G1Projective)
        ensures
            Self::g1_projective_log(res) == Self::g1_projective_log(*p) * Self::bigint_int(*x)
                % Self::order(),
    ;

    /// The sum of two elements of `G1`.
    fn g1_add(p: &Self::G1Projective, q: &Self::G1Projective) -> (res: Self::G1Projective)
        ensures
            Self::g1_projective_log(res) == (Self::g1_projective_log(*p)
                + Self::g1_projective_log(*q)) % Self::order(),
    ;

    /// The sum of two elements of `G1`.
    fn g1_add_mixed(p: &Self::G1Projective, q: &Self::G1Affine) -> (res: Self::G1Projective)
        ensures
            Self::g1_projective_log(res) == (Self::g1_projective_log(*p) + Self::g1_log(*q))
                % Self::order(),
    ;

    /// The difference of two elements of `G1`.
    fn g1_sub(p: &Self::G1Projective, q: &Self::G1Projective) -> (res: Self::G1Projective)
        ensures
            Self::g1_projective_log(res) == (Self::g1_projective_log(*p)
                - Self::g1_projective_log(*q)) % Self::order(),
    ;

    /// The negative of an element of `G1`.
    fn g1_neg(p: &Self::G1Projective) -> (res: Self::G1Projective)
        ensures
            Self::g1_projective_log(res) == (-Self::g1_projective_log(*p)) % Self::order(),
    ;

    /// An element of `G1` in affine coordinates.
    fn g1_into_affine(p: &Self::G1Projective) -> (res: Self::G1Affine)
        ensures
            Self::g1_log(res) == Self::g1_projective_log(*p),
    ;

    /// Elements of `G1` in affine coordinates.
    fn g1_batch_into_affine(v: &[Self::G1Projective]) -> (res: Vec<Self::G1Affine>)
        ensures
            res@.len() == v@.len(),
            forall|i: int|
                0 <= i < v@.len() ==> #[trigger] Self::g1_log(res@[i]) == Self::g1_projective_log(
                    v@[i],
                ),
    ;

    /// The multiples of `g` from which its multiples by scalars of `bits` bits are put together,
    /// `window` bits at a time.
    fn g1_window_table(bits: usize, window: usize, g: &Self::G1Projective) -> (res: Vec<
        Vec<Self::G1Affine>,
    >)
        requires
            0 < bits < 0x1_0000,
            0 < window,
            window * 100 <= usize::BITS * 69,
        ensures
            is_window_table(
                table_logs::<Self>(res@),
                bits as int,
                window as int,
                Self::g1_projective_log(*g),
                Self::order(),
            ),
    ;

    /// The multiples of one element of `G1`, of which `table` holds the window table, by `v`.
    fn g1_fixed_base_msm(
        bits: usize,
        window: usize,
        table: &[Vec<Self::G1Affine>],
        v: &[Self::Fr],
    ) -> (res: Vec<Self::G1Projective>)
        requires
            0 < bits < 0x1_0000,
            0 < window,
            window * 100 <= usize::BITS * 69,
            Self::order() <= pow2(bits as nat),
            exists|base: int|
                #[trigger] is_window_table(
                    table_logs::<Self>(table@),
                    bits as int,
                    window as int,
                    base,
                    Self::order(),
                ),
        ensures
            res@.len() == v@.len(),
            forall|base: int, i: int|
                #![trigger is_window_table(
                    table_logs::<Self>(table@),
                    bits as int,
                    window as int,
                    base,
                    Self::order(),
                ), Self::g1_projective_log(res@[i])]
                is_window_table(
                    table_logs::<Self>(table@),
                    bits as int,
                    window as int,
                    base,
                    Self::order(),
                ) && 0 <= i < v@.len() ==> Self::g1_projective_log(res@[i]) == Self::fr_int(v@[i])
                    * base % Self::order(),
    ;

    /// The sum of the multiples of `bases` by `exponents`, as far as both go.
    fn g1_variable_base_msm(bases: &[Self::G1Affine], exponents: &[Self::BigInt]) -> (res:
        Self::G1Projective)
        requires
            forall|i: int|
                0 <= i < exponents@.len() ==> 0 <= #[trigger] Self::bigint_int(exponents@[i])
                    < Self::order(),
        ensures
            Self::g1_projective_log(res) == inner_product(
                g1_logs::<Self>(bases@),
                bigints::<Self>(exponents@),
            ) % Self::order(),
    ;

    /// `x` times `p`.
    fn g2_mul(p: &Self::G2Affine, x: &Self::Fr) -> (res: Self::G2Projective)
        ensures
            Self::g2_projective_log(res) == Self::g2_log(*p) * Self::fr_int(*x) % Self::order(),
    ;

    /// An element of `G2` in affine coordinates.
    fn g2_into_affine(p: &Self::G2Projective) -> (res: Self::G2Affine)
        ensures
            Self::g2_log(res) == Self::g2_projective_log(*p),
    ;

    /// An element of `G2`, prepared for use in pairings.
    fn g2_prepare(p: &Self::G2Affine) -> (res: Self::G2Prepared)
        ensures
            Self::g2_prepared_log(res) == Self::g2_log(*p),
    ;

    /// Whether the pairing of `p` with `q` times the pairing of `s` with `t` is 1.
    fn product_of_pairings_is_one(
        p: &Self::G1Affine,
        q: &Self::G2Prepared,
        s: &Self::G1Affine,
        t: &Self::G2Prepared,
    ) -> (res: bool)
        ensures
            res == ((Self::g1_log(*p) * Self::g2_prepared_log(*q) + Self::g1_log(*s)
                * Self::g2_prepared_log(*t)) % Self::order() == 0),
    ;
}

} // verus!
