//! The scalar field.
use ark_ff::{BigInteger256, PrimeField, UniformRand};
use ark_poly::univariate::DensePolynomial;
use ark_poly::UVPolynomial;
use rand::rngs::StdRng;
use vstd::arithmetic::div_mod::{lemma_mod_bound, lemma_small_mod};
use vstd::prelude::*;

use crate::algebra::{is_normalized, is_quotient};
use crate::limbs::{lemma_limbs_nonnegative, limbs_less, limbs_value};

verus! {

/// The order of the groups, which is the number of elements of the scalar field.
pub open spec fn order() -> int {
    52435875175126190479447740508185965837690552500527637822603658699938581184513int
}

/// An element of the scalar field, held as the integer below the order that it stands for.
#[derive(Clone, Copy, Debug, PartialEq, Eq)]
pub struct Fr {
    limbs: [u64; 4],
}

impl View for Fr {
    type V = int;

    /// The integer that the element stands for.
    closed spec fn view(&self) -> int {
        limbs_value(self.limbs@) % order()
    }
}

/// An integer of 256 bits.
#[derive(Clone, Copy, Debug, PartialEq, Eq)]
pub struct BigInt {
    /// The base `2^64` digits, lowest first.
    pub limbs: [u64; 4],
}

impl View for BigInt {
    type V = int;

    open spec fn view(&self) -> int {
        limbs_value(self.limbs@)
    }
}

impl Fr {
    #[verifier::type_invariant]
    closed spec fn is_reduced(self) -> bool {
        limbs_value(self.limbs@) < order()
    }

    /// The integer that an element stands for lies below the order.
    pub proof fn lemma_reduced(&self)
        ensures
            0 <= self@ < order(),
    {
        lemma_mod_bound(limbs_value(self.limbs@), order());
    }

    /// The element that the integer with the digits `limbs` stands for, if that integer is less
    /// than the order.
    pub fn from_limbs(limbs: [u64; 4]) -> (res: Option<Fr>)
        ensures
            res is Some <==> limbs_value(limbs@) < order(),
            res matches Some(x) ==> x@ == limbs_value(limbs@),
    {
        let modulus: [u64; 4] = [
            0xffffffff00000001,
            0x53bda402fffe5bfe,
            0x3339d80809a1d805,
            0x73eda753299d7d48,
        ];
        proof {
            reveal_with_fuel(limbs_value, 5);
            assert(limbs_value(modulus@) == order());
            lemma_limbs_nonnegative(limbs@);
        }
        if limbs_less(limbs.as_slice(), modulus.as_slice()) {
            proof {
                lemma_small_mod(limbs_value(limbs@) as nat, order() as nat);
            }
            Some(Fr { limbs })
        } else {
            None
        }
    }

    /// The digits of the integer that the element stands for.
    pub fn limbs(&self) -> (res: [u64; 4])
        ensures
            limbs_value(res@) == self@,
    {
        proof {
            use_type_invariant(self);
            lemma_limbs_nonnegative(self.limbs@);
            lemma_small_mod(limbs_value(self.limbs@) as nat, order() as nat);
        }
        self.limbs
    }

    /// The element 0.
    pub fn zero() -> (res: Fr)
        ensures
            res@ == 0,
    {
        let limbs: [u64; 4] = [0, 0, 0, 0];
        proof {
            reveal_with_fuel(limbs_value, 5);
            lemma_small_mod(0, order() as nat);
        }
        Fr { limbs }
    }

    /// The element 1.
    pub fn one() -> (res: Fr)
        ensures
            res@ == 1,
    {
        let limbs: [u64; 4] = [1, 0, 0, 0];
        proof {
            reveal_with_fuel(limbs_value, 5);
            lemma_small_mod(1, order() as nat);
        }
        Fr { limbs }
    }

    /// Whether the element is 0.
    pub fn is_zero(&self) -> (res: bool)
        ensures
            res == (self@ == 0),
    {
        let limbs = self.limbs();
        proof {
            reveal_with_fuel(limbs_value, 5);
        }
        limbs[0] == 0 && limbs[1] == 0 && limbs[2] == 0 && limbs[3] == 0
    }

    /// The integer that the element stands for.
    pub fn into_repr(&self) -> (res: BigInt)
        ensures
            res@ == self@,
    {
        BigInt { limbs: self.limbs() }
    }
}

/// The integers that elements stand for.
pub open spec fn ints(s: Seq<Fr>) -> Seq<int> {
    Seq::new(s.len(), |i: int| s[i]@)
}

/// The sum of two elements, from `+` of `ark_bls12_381::Fr`. Its result is taken to be the sum of
/// the integers modulo the order.
#[verifier::external_body]
pub(crate) fn fr_add(x: &Fr, y: &Fr) -> (res: Fr)
    ensures
        res@ == (x@ + y@) % order(),
{
    let [x, y] = [x, y].map(|v| ark_bls12_381::Fr::from(BigInteger256(v.limbs)));
    Fr { limbs: (x + y).into_repr().0 }
}

/// The product of two elements, from `*` of `ark_bls12_381::Fr`. Its result is taken to be the
/// product of the integers modulo the order.
#[verifier::external_body]
pub(crate) fn fr_mul(x: &Fr, y: &Fr) -> (res: Fr)
    ensures
        res@ == x@ * y@ % order(),
{
    let [x, y] = [x, y].map(|v| ark_bls12_381::Fr::from(BigInteger256(v.limbs)));
    Fr { limbs: (x * y).into_repr().0 }
}

/// The negative of an element, from unary `-` of `ark_bls12_381::Fr`. Its result is taken to be
/// the negative of the integer modulo the order.
#[verifier::external_body]
pub(crate) fn fr_neg(x: &Fr) -> (res: Fr)
    ensures
        res@ == (-x@) % order(),
{
    let x = ark_bls12_381::Fr::from(BigInteger256(x.limbs));
    Fr { limbs: (-x).into_repr().0 }
}

/// The element that an integer stands for, from `From<u128>` of `ark_bls12_381::Fr`. Its result is
/// taken to be that integer modulo the order.
#[verifier::external_body]
pub(crate) fn fr_from_u128(x: u128) -> (res: Fr)
    ensures
        res@ == (x as int) % order(),
{
    Fr { limbs: ark_bls12_381::Fr::from(x).into_repr().0 }
}

/// `x` is what `fr_rand` draws from the generator of random numbers `r`.
pub closed spec fn fr_drawn(r: &mut StdRng, x: Fr) -> bool {
    call_ensures(fr_rand, (r,), x)
}

/// What is drawn is what `UniformRand::rand` returns.
pub(crate) proof fn law_fr_drawn(r: &mut StdRng, x: Fr)
    ensures
        fr_drawn(r, x) == call_ensures(fr_rand, (r,), x),
{
}

/// A random element, from `UniformRand::rand` of `ark_bls12_381::Fr`. Nothing is claimed of it but
/// that it is an element.
#[verifier::external_body]
pub(crate) fn fr_rand(rng: &mut StdRng) -> (res: Fr) {
    Fr { limbs: ark_bls12_381::Fr::rand(rng).into_repr().0 }
}

/// The number of bits of the order, from `PrimeField::size_in_bits` of `ark_bls12_381::Fr`. It is
/// taken to be 255.
#[verifier::external_body]
pub(crate) fn fr_size_in_bits() -> (res: usize)
    ensures
        res == 255,
{
    ark_bls12_381::Fr::size_in_bits()
}

/// The quotient of one polynomial by another, from `/` of `ark_poly::univariate::DensePolynomial`,
/// which panics where the divisor is zero. Its result is taken to be a quotient in the sense of
/// division with remainder, without leading zeros.
#[verifier::external_body]
pub(crate) fn divide(p: &[Fr], d: &[Fr]) -> (res: Vec<Fr>)
    requires
        is_normalized(ints(p@)),
        is_normalized(ints(d@)),
        d@.len() > 0,
    ensures
        is_normalized(ints(res@)),
        is_quotient(ints(p@), ints(d@), ints(res@), order()),
{
    let [p, d] = [p, d].map(|s| {
        let s = s.iter().map(|c| ark_bls12_381::Fr::from(BigInteger256(c.limbs)));
        DensePolynomial::from_coefficients_vec(s.collect())
    });
    (&p / &d).coeffs.iter().map(|c| Fr { limbs: c.into_repr().0 }).collect()
}

} // verus!
