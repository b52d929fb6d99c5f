//! Integers given by their base `2^64` digits.
use vstd::arithmetic::power::pow;
use vstd::prelude::*;

verus! {

/// The integer whose base `2^64` digits, lowest first, are `s`.
pub open spec fn limbs_value(s: Seq<u64>) -> int
    decreases s.len(),
{
    if s.len() == 0 {
        0
    } else {
        s[0] as int + 0x1_0000_0000_0000_0000 * limbs_value(s.skip(1))
    }
}

/// No digits give 0, and one more digit adds itself times the next power of `2^64`.
pub proof fn law_value_follows_each_digit(s: Seq<u64>, d: u64)
    ensures
        limbs_value(Seq::empty()) == 0,
        limbs_value(s.push(d)) == limbs_value(s) + d * pow(0x1_0000_0000_0000_0000, s.len()),
    decreases s.len(),
{
    reveal(pow);
    let t = s.push(d);
    if s.len() == 0 {
        assert(limbs_value(t.skip(1)) == 0);
        assert(pow(0x1_0000_0000_0000_0000, s.len()) == 1);
        assert(d * 1 == d);
    } else {
        assert(t.skip(1) =~= s.skip(1).push(d));
        law_value_follows_each_digit(s.skip(1), d);
        let w = pow(0x1_0000_0000_0000_0000, (s.len() - 1) as nat);
        assert(pow(0x1_0000_0000_0000_0000, s.len()) == 0x1_0000_0000_0000_0000 * w);
        assert(0x1_0000_0000_0000_0000 * (d * w) == d * (0x1_0000_0000_0000_0000 * w))
            by (nonlinear_arith);
    }
}

/// An integer given by digits is not negative.
pub proof fn lemma_limbs_nonnegative(s: Seq<u64>)
    ensures
        limbs_value(s) >= 0,
    decreases s.len(),
{
    if s.len() > 0 {
        lemma_limbs_nonnegative(s.skip(1));
    }
}

/// As many digits give an integer in one way only.
pub proof fn lemma_limbs_injective(s: Seq<u64>, t: Seq<u64>)
    requires
        s.len() == t.len(),
        limbs_value(s) == limbs_value(t),
    ensures
        s == t,
    decreases s.len(),
{
    if s.len() > 0 {
        let (a, b) = (limbs_value(s.skip(1)), limbs_value(t.skip(1)));
        assert(a == b && s[0] == t[0]);
        lemma_limbs_injective(s.skip(1), t.skip(1));
        assert forall|i: int| 0 <= i < s.len() implies s[i] == t[i] by {
            if i > 0 {
                assert(s.skip(1)[i - 1] == t.skip(1)[i - 1]);
            }
        }
    }
    assert(s =~= t);
}

/// Whether the integer with the digits `a` is less than the one with the digits `b`.
pub fn limbs_less(a: &[u64], b: &[u64]) -> (res: bool)
    requires
        a@.len() == b@.len(),
    ensures
        res == (limbs_value(a@) < limbs_value(b@)),
{
    let mut less = false;
    let mut greater = false;
    let mut i: usize = a.len();
    assert(a@.skip(i as int).len() == 0 && b@.skip(i as int).len() == 0);
    while i > 0
        invariant
            i <= a@.len(),
            a@.len() == b@.len(),
            less == (limbs_value(a@.skip(i as int)) < limbs_value(b@.skip(i as int))),
            greater == (limbs_value(a@.skip(i as int)) > limbs_value(b@.skip(i as int))),
        decreases i,
    {
        proof {
            assert(a@.skip(i - 1).skip(1) =~= a@.skip(i as int));
            assert(b@.skip(i - 1).skip(1) =~= b@.skip(i as int));
        }
        i = i - 1;
        if !less && !greater {
            less = a[i] < b[i];
            greater = a[i] > b[i];
        }
    }
    proof {
        assert(a@.skip(0) =~= a@);
        assert(b@.skip(0) =~= b@);
    }
    less
}

} // verus!
