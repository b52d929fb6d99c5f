//! Polynomials in one variable, given by their coefficients.
use vstd::prelude::*;

use crate::algebra::{is_normalized, lemma_normalize, normalize};
use crate::engine::{scalars, PairingEngine, PairingGroups};

verus! {

/// A polynomial whose coefficients are scalars. The coefficient of `X^i` is at index `i`, and the
/// last one is not 0.
pub struct DensePolynomial<E: PairingGroups> {
    coeffs: Vec<E::Fr>,
}

impl<E: PairingGroups> View for DensePolynomial<E> {
    type V = Seq<int>;

    /// The integers that the coefficients stand for.
    closed spec fn view(&self) -> Seq<int> {
        scalars::<E>(self.coeffs@)
    }
}

/// The degree of a polynomial with these coefficients, which is 0 for the zero polynomial too.
pub open spec fn degree(p: Seq<int>) -> int {
    if p.len() == 0 {
        0
    } else {
        p.len() - 1
    }
}

impl<E: PairingGroups> DensePolynomial<E> {
    #[verifier::type_invariant]
    closed spec fn has_no_leading_zero(self) -> bool {
        is_normalized(self@)
    }

    /// Coefficients lie below the order.
    pub proof fn lemma_reduced(&self, i: int)
        requires
            0 <= i < self@.len(),
        ensures
            0 <= self@[i] < E::order(),
    {
        E::lemma_reduced();
    }

    /// The coefficients.
    pub fn coeffs(&self) -> (res: &[E::Fr])
        ensures
            scalars::<E>(res@) == self@,
            res@.len() == self@.len(),
            forall|i: int| 0 <= i < res@.len() ==> #[trigger] E::fr_int(res@[i]) == self@[i],
            is_normalized(self@),
    {
        proof {
            use_type_invariant(self);
        }
        self.coeffs.as_slice()
    }

    /// The degree.
    pub fn degree(&self) -> (res: usize)
        ensures
            res == degree(self@),
            res == if self@.len() == 0 {
                0
            } else {
                self@.len() - 1
            },
            is_normalized(self@),
    {
        proof {
            use_type_invariant(self);
        }
        if self.coeffs.len() == 0 {
            0
        } else {
            self.coeffs.len() - 1
        }
    }
}

impl<E: PairingEngine> DensePolynomial<E> {
    /// The polynomial with the coefficients `coeffs`, of which those at the end that are 0 are
    /// dropped.
    pub fn from_coefficients_vec(coeffs: Vec<E::Fr>) -> (res: Self)
        ensures
            res@ == normalize(scalars::<E>(coeffs@)),
            res@.len() <= coeffs@.len(),
            forall|i: int| 0 <= i < res@.len() ==> #[trigger] res@[i] == E::fr_int(coeffs@[i]),
            forall|i: int|
                res@.len() <= i < coeffs@.len() ==> #[trigger] E::fr_int(coeffs@[i]) == 0,
            res@.len() > 0 ==> res@[res@.len() - 1] != 0,
            is_normalized(res@),
    {
        let ghost given = coeffs@;
        let ghost all = scalars::<E>(given);
        let mut coeffs = coeffs;
        while coeffs.len() > 0 && E::fr_is_zero(&coeffs[coeffs.len() - 1])
            invariant
                normalize(scalars::<E>(coeffs@)) == normalize(all),
            decreases coeffs.len(),
        {
            let ghost before = scalars::<E>(coeffs@);
            coeffs.pop();
            assert(scalars::<E>(coeffs@) =~= before.drop_last());
        }
        proof {
            lemma_normalize(all);
            assert forall|i: int| normalize(all).len() <= i < given.len() implies #[trigger]
                E::fr_int(given[i]) == 0 by {
                assert(all[i] == 0);
            }
        }
        DensePolynomial { coeffs }
    }
}

} // verus!
